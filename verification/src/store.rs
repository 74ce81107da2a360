//! The SQLite database behind the ledger.
//!
//! Each function here runs one statement through `rusqlite` and says, over the
//! rows of the tables, what SQLite documents of it. Nothing else in the crate
//! touches a connection.
//!
//! Several processes may write one database file. What a connection finds in
//! the file is therefore fixed only while it is in a transaction, or if no other
//! connection can reach the database. The contracts say so: a read answers from
//! the rows of the moment, and only then are those the rows of the moment
//! before.

use vstd::prelude::*;

use crate::ledger::{Row, SessionRow};
use crate::transcript;
use crate::transcript::{Cursor, UsageRecord};

verus! {

/// `rusqlite::Connection`, carried as an opaque value.
#[verifier::external_type_specification]
#[verifier::external_body]
pub struct ExConnection(rusqlite::Connection);

/// `rusqlite::Error`, carried as an opaque value.
#[verifier::external_type_specification]
#[verifier::external_body]
pub struct ExError(rusqlite::Error);

/// When a session was first and last heard of, and where it was first known to
/// run.
pub ghost struct Span {
    pub project_dir: Option<Seq<char>>,
    pub first_seen: int,
    pub last_seen: int,
}

/// How far a transcript has been read.
pub ghost struct Mark {
    pub cursor: Cursor,
    pub last_seen: int,
}

/// The rows of the ledger's tables, by primary key. The history of the rate
/// limits, which holds floating-point numbers, is not among them.
pub ghost struct Tables {
    /// Every table is there. One that is not has no rows.
    pub made: bool,
    pub requests: Map<Seq<char>, transcript::Usage>,
    /// Which request was seen in which transcript.
    pub sightings: Set<(Seq<char>, Seq<char>)>,
    pub sessions: Map<Seq<char>, Span>,
    pub cursors: Map<Seq<char>, Mark>,
}

impl Tables {
    /// No rows at all, and no tables.
    pub open spec fn none() -> Tables {
        Tables {
            made: false,
            requests: Map::empty(),
            sightings: Set::empty(),
            sessions: Map::empty(),
            cursors: Map::empty(),
        }
    }

    /// The same rows, and every table there.
    pub open spec fn with_tables(self) -> Tables {
        Tables { made: true, ..self }
    }

    /// All the tables, without rows.
    pub open spec fn empty() -> Tables {
        Tables::none().with_tables()
    }

    /// A table holds finitely many rows, each under its own key.
    pub open spec fn wf(self) -> bool {
        &&& self.requests.dom().finite()
        &&& self.sightings.finite()
        &&& self.sessions.dom().finite()
        &&& self.cursors.dom().finite()
        &&& forall|k: Seq<char>| #[trigger]
            self.requests.contains_key(k) ==> self.requests[k].dedupe_key == k
    }
}

/// How a connection is set.
pub ghost struct Settings {
    /// How many milliseconds a statement waits for another connection's lock.
    pub waits: int,
    /// The sync level is `NORMAL`.
    pub normal_sync: bool,
    /// Write-ahead logging was asked for. Whether it was granted is SQLite's
    /// matter: a database in memory has none.
    pub asked_wal: bool,
}

/// A database as one connection sees it.
pub ghost struct Store {
    /// The rows, with what an open transaction has changed so far.
    pub tables: Tables,
    /// In a transaction, the rows at its beginning.
    pub saved: Option<Tables>,
    /// No other connection can reach the database.
    pub solo: bool,
    /// The tables are, and will be, written by the statements of this module
    /// alone.
    pub ours: bool,
    pub settings: Settings,
}

impl Store {
    /// A database of this library's own rows, outside any transaction.
    pub open spec fn sound(self) -> bool {
        self.ours && self.saved is None
    }

    /// A sound database that nobody else can reach.
    pub open spec fn alone(self) -> bool {
        self.sound() && self.solo
    }

    /// Nothing but this connection can have changed the rows since.
    pub open spec fn steady(self) -> bool {
        self.solo || self.saved is Some
    }

    /// The rows that stay if the connection is closed now.
    pub open spec fn kept(self) -> Tables {
        match self.saved {
            Some(t) => t,
            None => self.tables,
        }
    }
}

/// What a connection sees of its database.
pub uninterp spec fn store_of(conn: rusqlite::Connection) -> Store;

/// The same database on a connection set in the same way, whatever its rows are
/// now. Tables that are there stay there, if nobody else writes.
pub open spec fn same_database(a: Store, b: Store) -> bool {
    &&& a.solo == b.solo
    &&& a.ours == b.ours
    &&& a.settings == b.settings
    &&& b.tables.wf()
    &&& a.ours && a.tables.made && a.kept().made ==> b.tables.made && b.kept().made
}

/// A statement that ran and changed no rows.
pub open spec fn only_reads(a: Store, b: Store) -> bool {
    &&& same_database(a, b)
    &&& b.saved == a.saved
    &&& a.steady() ==> b.tables == a.tables
}

/// A statement that failed: SQLite undoes it, and after some errors the whole
/// transaction with it.
pub open spec fn failed(a: Store, b: Store) -> bool {
    &&& same_database(a, b)
    &&& b.saved == a.saved || b.saved is None
    &&& a.solo ==> b.kept() == a.kept()
}

/// The schema could not be created, or not all of it: no rows have changed.
pub open spec fn not_all_made(a: Store, b: Store) -> bool {
    &&& same_database(a, b)
    &&& b.saved == a.saved || b.saved is None
    &&& a.solo ==> b.kept().with_tables() == a.kept().with_tables()
}

/// The store on a connection set like this.
pub open spec fn set_to(a: Store, settings: Settings) -> Store {
    Store { settings, ..a }
}

/// A statement that changes no rows, and that ran or failed.
pub open spec fn read(a: Store, b: Store, ran: bool) -> bool {
    if ran {
        only_reads(a, b)
    } else {
        failed(a, b)
    }
}

// ---------------------------------------------------------------------------
// Rows
// ---------------------------------------------------------------------------

/// `INSERT OR IGNORE`: a request under a key that is already there changes
/// nothing.
pub open spec fn put_request(t: Tables, u: transcript::Usage) -> Tables {
    if t.requests.contains_key(u.dedupe_key) {
        t
    } else {
        Tables { requests: t.requests.insert(u.dedupe_key, u), ..t }
    }
}

/// What is known of a session once it was heard of at `ts` in `project`: the
/// span grows to hold `ts`, and the first known directory stays.
pub open spec fn extended(span: Option<Span>, project: Option<Seq<char>>, ts: int) -> Span {
    match span {
        None => Span { project_dir: project, first_seen: ts, last_seen: ts },
        Some(s) => Span {
            project_dir: if s.project_dir is Some {
                s.project_dir
            } else {
                project
            },
            first_seen: if ts < s.first_seen {
                ts
            } else {
                s.first_seen
            },
            last_seen: if ts > s.last_seen {
                ts
            } else {
                s.last_seen
            },
        },
    }
}

/// The span of a session, if there is one.
pub open spec fn span_of(t: Tables, sid: Seq<char>) -> Option<Span> {
    if t.sessions.contains_key(sid) {
        Some(t.sessions[sid])
    } else {
        None
    }
}

/// The request was seen in the transcript.
pub open spec fn put_sighting(t: Tables, key: Seq<char>, path: Seq<char>) -> Tables {
    Tables { sightings: t.sightings.insert((key, path)), ..t }
}

/// The session is heard of at `ts`.
pub open spec fn put_session(
    t: Tables,
    sid: Seq<char>,
    project: Option<Seq<char>>,
    ts: int,
) -> Tables {
    Tables { sessions: t.sessions.insert(sid, extended(span_of(t, sid), project, ts)), ..t }
}

/// The transcript has been read up to the cursor.
pub open spec fn put_cursor(t: Tables, path: Seq<char>, cursor: Cursor, now: int) -> Tables {
    Tables { cursors: t.cursors.insert(path, Mark { cursor, last_seen: now }), ..t }
}

/// How far a transcript has been read, if it has.
pub open spec fn cursor_of(t: Tables, path: Seq<char>) -> Option<Cursor> {
    if t.cursors.contains_key(path) {
        Some(t.cursors[path].cursor)
    } else {
        None
    }
}

/// The tokens of all requests that `keep` holds of.
pub open spec fn tokens_where(m: Map<Seq<char>, transcript::Usage>, keep: spec_fn(transcript::Usage) -> bool) -> int
    decreases m.dom().len(),
{
    if m.dom().finite() && m.dom().len() > 0 {
        let k = m.dom().choose();
        (if keep(m[k]) {
            m[k].tokens()
        } else {
            0
        }) + tokens_where(m.remove(k), keep)
    } else {
        0
    }
}

/// The tokens of the requests at or after `from`.
pub open spec fn tokens_since(t: Tables, from: int) -> int {
    tokens_where(t.requests, |u: transcript::Usage| u.ts >= from)
}

/// The tokens of the requests of a session.
pub open spec fn tokens_of_session(t: Tables, sid: Seq<char>) -> int {
    tokens_where(t.requests, |u: transcript::Usage| u.session_id == Some(sid))
}

/// A missing text is shown as `unknown`.
pub open spec fn or_unknown(o: Option<Seq<char>>) -> Seq<char> {
    match o {
        Some(s) => s,
        None => "unknown"@,
    }
}

/// `row` shows the request `u`.
pub open spec fn row_shows(row: Row, u: transcript::Usage) -> bool {
    &&& row.ts == u.ts
    &&& row.model@ == u.model
    &&& row.project_dir@ == or_unknown(u.project_dir)
    &&& row.input == u.input
    &&& row.output == u.output
    &&& row.cache_create == u.cache_create
    &&& row.cache_read == u.cache_read
}

/// `rows` shows the requests with `since <= ts < until`, each once, by time.
pub open spec fn rows_between(t: Tables, since: int, until: int, rows: Seq<Row>) -> bool {
    &&& forall|i: int, j: int| 0 <= i <= j < rows.len() ==> rows[i].ts <= rows[j].ts
    &&& exists|keys: Seq<Seq<char>>| #[trigger] rows_by_key(t, since, until, rows, keys)
}

/// `keys[i]` is the key of the request that `rows[i]` shows.
pub open spec fn rows_by_key(
    t: Tables,
    since: int,
    until: int,
    rows: Seq<Row>,
    keys: Seq<Seq<char>>,
) -> bool {
    &&& keys.len() == rows.len()
    &&& keys.no_duplicates()
    &&& forall|k: Seq<char>| #[trigger]
        keys.contains(k) <==> t.requests.contains_key(k) && since <= t.requests[k].ts < until
    &&& forall|i: int|
        0 <= i < rows.len() ==> #[trigger] row_shows(rows[i], t.requests[keys[i]])
}

/// The request is one of the session, and was recorded from the transcript or
/// seen in it.
pub open spec fn seen_in(t: Tables, sid: Seq<char>, k: Seq<char>, path: Seq<char>) -> bool {
    &&& t.requests.contains_key(k)
    &&& t.requests[k].session_id == Some(sid)
    &&& t.requests[k].transcript_path == path || t.sightings.contains((k, path))
}

/// The transcripts that requests of a session were seen in.
pub open spec fn transcripts_of(t: Tables, sid: Seq<char>) -> Set<Seq<char>> {
    Set::new(|path: Seq<char>| exists|k: Seq<char>| #[trigger] seen_in(t, sid, k, path))
}

/// `found` names each session whose requests were seen in more than one
/// transcript, once, with how many that are.
pub open spec fn spread_sessions(t: Tables, found: Seq<(String, i64)>) -> bool {
    &&& forall|i: int, j: int|
        0 <= i < j < found.len() ==> #[trigger] found[i].0@ != #[trigger] found[j].0@
    &&& forall|i: int|
        0 <= i < found.len() ==> (#[trigger] found[i]).1 == transcripts_of(t, found[i].0@).len()
            && found[i].1 > 1
    &&& forall|sid: Seq<char>| #[trigger]
        transcripts_of(t, sid).len() > 1 ==> exists|i: int|
            0 <= i < found.len() && #[trigger] found[i].0@ == sid
}

/// `row` shows the session `sid`.
pub open spec fn session_shows(row: SessionRow, t: Tables, sid: Seq<char>) -> bool {
    &&& row.session_id@ == sid
    &&& row.project_dir@ == or_unknown(t.sessions[sid].project_dir)
    &&& row.first_seen == t.sessions[sid].first_seen
    &&& row.last_seen == t.sessions[sid].last_seen
    &&& row.tokens == tokens_of_session(t, sid)
}

/// `rows` shows the sessions of the project, or all of them, each once, the one
/// last heard of first.
pub open spec fn sessions_listed(
    t: Tables,
    project: Option<Seq<char>>,
    rows: Seq<SessionRow>,
) -> bool {
    &&& forall|i: int, j: int| 0 <= i <= j < rows.len() ==> rows[i].last_seen >= rows[j].last_seen
    &&& forall|i: int, j: int|
        0 <= i < j < rows.len() ==> #[trigger] rows[i].session_id@ != #[trigger] rows[j].session_id@
    &&& forall|i: int|
        0 <= i < rows.len() ==> t.sessions.contains_key((#[trigger] rows[i]).session_id@)
            && session_shows(rows[i], t, rows[i].session_id@) && (project is Some
            ==> t.sessions[rows[i].session_id@].project_dir == project)
    &&& forall|sid: Seq<char>| #[trigger]
        t.sessions.contains_key(sid) && (project is Some ==> t.sessions[sid].project_dir == project)
            ==> exists|i: int| 0 <= i < rows.len() && #[trigger] rows[i].session_id@ == sid
}

// ---------------------------------------------------------------------------
// Statements
// ---------------------------------------------------------------------------

const SCHEMA: &'static str = "
    CREATE TABLE IF NOT EXISTS requests (
        dedupe_key      TEXT PRIMARY KEY,
        session_id      TEXT,
        project_dir     TEXT,
        model           TEXT,
        ts              INTEGER NOT NULL,
        input           INTEGER NOT NULL DEFAULT 0,
        output          INTEGER NOT NULL DEFAULT 0,
        cache_create    INTEGER NOT NULL DEFAULT 0,
        cache_read      INTEGER NOT NULL DEFAULT 0,
        -- subsets of output / cache_create, never added to totals
        thinking        INTEGER NOT NULL DEFAULT 0,
        cache_1h        INTEGER NOT NULL DEFAULT 0,
        cache_5m        INTEGER NOT NULL DEFAULT 0,
        source          TEXT NOT NULL DEFAULT 'main',
        transcript_path TEXT
    );
    CREATE INDEX IF NOT EXISTS requests_ts         ON requests(ts);
    CREATE INDEX IF NOT EXISTS requests_model_ts   ON requests(model, ts);
    CREATE INDEX IF NOT EXISTS requests_project_ts ON requests(project_dir, ts);
    CREATE INDEX IF NOT EXISTS requests_session    ON requests(session_id);

    -- Every transcript that a request was seen in, also where the request was
    -- already there.
    CREATE TABLE IF NOT EXISTS sightings (
        dedupe_key      TEXT NOT NULL,
        transcript_path TEXT NOT NULL,
        PRIMARY KEY (dedupe_key, transcript_path)
    ) WITHOUT ROWID;

    CREATE TABLE IF NOT EXISTS cursors (
        transcript_path TEXT PRIMARY KEY,
        byte_offset     INTEGER NOT NULL,
        file_id         INTEGER NOT NULL,
        last_seen       INTEGER NOT NULL
    );

    CREATE TABLE IF NOT EXISTS sessions (
        session_id  TEXT PRIMARY KEY,
        project_dir TEXT,
        first_seen  INTEGER NOT NULL,
        last_seen   INTEGER NOT NULL
    );

    -- One row per observed change of the rate limits, not per invocation. Two
    -- changes may fall in one second.
    CREATE TABLE IF NOT EXISTS limits (
        ts                  INTEGER NOT NULL,
        five_hour_pct       REAL,
        five_hour_resets_at INTEGER,
        seven_day_pct       REAL,
        seven_day_resets_at INTEGER
    );
    CREATE INDEX IF NOT EXISTS limits_ts ON limits(ts);
";

const INSERT_REQUEST: &'static str = "INSERT OR IGNORE INTO requests
     (dedupe_key, session_id, project_dir, model, ts, input, output,
      cache_create, cache_read, thinking, cache_1h, cache_5m, source, transcript_path)
     VALUES (?1,?2,?3,?4,?5,?6,?7,?8,?9,?10,?11,?12,?13,?14)";

const INSERT_SIGHTING: &'static str = "INSERT OR IGNORE INTO sightings (dedupe_key, transcript_path)
     VALUES (?1, ?2)";

const UPSERT_SESSION: &'static str = "INSERT INTO sessions (session_id, project_dir, first_seen, last_seen)
     VALUES (?1, ?2, ?3, ?3)
     ON CONFLICT(session_id) DO UPDATE SET
       last_seen  = max(last_seen,  excluded.last_seen),
       first_seen = min(first_seen, excluded.first_seen),
       project_dir = coalesce(sessions.project_dir, excluded.project_dir)";

const UPSERT_CURSOR: &'static str = "INSERT INTO cursors (transcript_path, byte_offset, file_id, last_seen)
     VALUES (?1, ?2, ?3, ?4)
     ON CONFLICT(transcript_path) DO UPDATE SET
       byte_offset = excluded.byte_offset,
       file_id     = excluded.file_id,
       last_seen   = excluded.last_seen";

const SELECT_CURSOR: &'static str = "SELECT byte_offset, file_id FROM cursors WHERE transcript_path = ?1";

const SUM_SINCE: &'static str = "SELECT coalesce(sum(input + output + cache_create + cache_read), 0)
     FROM requests WHERE ts >= ?1";

const SUM_SESSION: &'static str = "SELECT coalesce(sum(input + output + cache_create + cache_read), 0)
     FROM requests WHERE session_id = ?1";

const SELECT_ROWS: &'static str = "SELECT ts, coalesce(model,'unknown'), coalesce(project_dir,'unknown'),
            input, output, cache_create, cache_read
     FROM requests
     WHERE ts >= ?1 AND ts < ?2
     ORDER BY ts";

const COUNT_REQUESTS: &'static str = "SELECT count(*) FROM requests";

const SELECT_SPREAD: &'static str = "SELECT session_id, count(DISTINCT path) c
     FROM (SELECT session_id, transcript_path AS path FROM requests
           UNION ALL
           SELECT r.session_id, s.transcript_path
           FROM sightings s JOIN requests r ON r.dedupe_key = s.dedupe_key)
     WHERE session_id IS NOT NULL
     GROUP BY session_id HAVING c > 1";

const SELECT_SESSIONS: &'static str = "SELECT s.session_id, coalesce(s.project_dir,'unknown'),
            s.first_seen, s.last_seen,
            coalesce((SELECT sum(input+output+cache_create+cache_read)
                      FROM requests r WHERE r.session_id = s.session_id), 0)
     FROM sessions s
     WHERE (?1 IS NULL OR s.project_dir = ?1)
     ORDER BY s.last_seen DESC";

/// `Connection::open_in_memory`: a database of its own for this connection, with
/// nothing in it. How the connection is set is not said.
#[verifier::external_body]
pub(crate) fn open_memory() -> (r: Result<rusqlite::Connection, rusqlite::Error>)
    ensures
        r matches Ok(conn) ==> store_of(conn) == (Store {
            tables: Tables::none(),
            saved: None,
            solo: true,
            ours: true,
            settings: store_of(conn).settings,
        }),
{
    rusqlite::Connection::open_in_memory()
}

/// `Connection::query_row` with the pragma that lets a reader proceed while
/// another connection writes. It changes no rows; that it has no effect on a
/// database in memory is no error, and a failure is dropped.
#[verifier::external_body]
pub(crate) fn use_wal(conn: &mut rusqlite::Connection)
    ensures
        store_of(*final(conn)).settings == (Settings {
            asked_wal: true,
            ..store_of(*old(conn)).settings
        }),
        exists|ran: bool| #[trigger]
            read(
                set_to(store_of(*old(conn)), store_of(*final(conn)).settings),
                store_of(*final(conn)),
                ran,
            ),
{
    let _: String = conn.query_row("PRAGMA journal_mode = WAL", [], |r| r.get(0)).unwrap_or_default();
}

/// `Connection::busy_timeout`: how long to wait for a lock. It changes no rows.
/// The outside function panics above `i32::MAX` milliseconds.
#[verifier::external_body]
pub(crate) fn wait_for_locks(conn: &mut rusqlite::Connection, millis: u64) -> (r: Result<
    (),
    rusqlite::Error,
>)
    requires
        millis <= i32::MAX,
    ensures
        r is Ok ==> store_of(*final(conn)).settings == (Settings {
            waits: millis as int,
            ..store_of(*old(conn)).settings
        }),
        read(
            set_to(store_of(*old(conn)), store_of(*final(conn)).settings),
            store_of(*final(conn)),
            r is Ok,
        ),
{
    conn.busy_timeout(std::time::Duration::from_millis(millis))
}

/// `Connection::execute_batch` with the pragma for the sync level, which is then
/// `NORMAL`. It changes no rows.
#[verifier::external_body]
pub(crate) fn sync_normally(conn: &mut rusqlite::Connection) -> (r: Result<(), rusqlite::Error>)
    ensures
        r is Ok ==> store_of(*final(conn)).settings == (Settings {
            normal_sync: true,
            ..store_of(*old(conn)).settings
        }),
        read(
            set_to(store_of(*old(conn)), store_of(*final(conn)).settings),
            store_of(*final(conn)),
            r is Ok,
        ),
{
    conn.execute_batch("PRAGMA synchronous = NORMAL;")
}

/// `Connection::execute_batch` with the schema: tables that are not there are
/// created without rows, tables that are there stay as they are. If it ran, all
/// of them are there; if it failed, perhaps some.
#[verifier::external_body]
pub(crate) fn create_tables(conn: &mut rusqlite::Connection) -> (r: Result<(), rusqlite::Error>)
    ensures
        r is Ok ==> same_database(store_of(*old(conn)), store_of(*final(conn))) && store_of(
            *final(conn),
        ).saved == store_of(*old(conn)).saved && store_of(*final(conn)).tables.made,
        r is Ok && store_of(*old(conn)).steady() ==> store_of(*final(conn)).tables == store_of(
            *old(conn),
        ).tables.with_tables(),
        r is Err ==> not_all_made(store_of(*old(conn)), store_of(*final(conn))),
{
    conn.execute_batch(SCHEMA)
}

/// `Connection::execute_batch` with `BEGIN DEFERRED`, as `Connection::transaction`
/// issues it: from here on the connection sees the rows of one moment, and its
/// own changes. It fails where a transaction is already open.
#[verifier::external_body]
pub(crate) fn begin(conn: &mut rusqlite::Connection) -> (r: Result<(), rusqlite::Error>)
    ensures
        same_database(store_of(*old(conn)), store_of(*final(conn))),
        r is Ok ==> store_of(*old(conn)).saved is None && store_of(*final(conn)).saved == Some(
            store_of(*final(conn)).tables,
        ),
        r is Err ==> store_of(*final(conn)).saved == store_of(*old(conn)).saved,
        store_of(*old(conn)).steady() ==> store_of(*final(conn)).tables == store_of(
            *old(conn),
        ).tables,
{
    conn.execute_batch("BEGIN DEFERRED")
}

/// `Connection::execute_batch` with `COMMIT`, as `Transaction::commit` issues it:
/// the changes of the transaction stay.
#[verifier::external_body]
pub(crate) fn commit(conn: &mut rusqlite::Connection) -> (r: Result<(), rusqlite::Error>)
    ensures
        same_database(store_of(*old(conn)), store_of(*final(conn))),
        r is Ok ==> store_of(*old(conn)).saved is Some && store_of(*final(conn)).saved is None
            && store_of(*final(conn)).tables == store_of(*old(conn)).tables,
        r is Err ==> failed(store_of(*old(conn)), store_of(*final(conn))),
{
    conn.execute_batch("COMMIT")
}

/// `Connection::execute_batch` with `ROLLBACK`, as a dropped `Transaction` issues
/// it: the rows are again those of the beginning of the transaction. Where an
/// error has already ended the transaction the statement fails without harm.
/// A failure is dropped; if the transaction is then still open, what is kept has
/// not changed either.
#[verifier::external_body]
pub(crate) fn rollback(conn: &mut rusqlite::Connection)
    ensures
        failed(store_of(*old(conn)), store_of(*final(conn))),
{
    let _ = conn.execute_batch("ROLLBACK");
}

/// `Connection::execute` with `INSERT OR IGNORE`, in a transaction: the request
/// is added unless its key is there, and the answer is how many rows that made.
/// `source` is the name under which its source is stored.
#[verifier::external_body]
pub(crate) fn insert_request(
    conn: &mut rusqlite::Connection,
    r: &UsageRecord,
    source: &str,
) -> (n: Result<usize, rusqlite::Error>)
    requires
        source@ == r.source.name(),
    ensures
        n is Err ==> failed(store_of(*old(conn)), store_of(*final(conn))),
        n is Ok ==> same_database(store_of(*old(conn)), store_of(*final(conn))) && store_of(
            *final(conn),
        ).saved == store_of(*old(conn)).saved,
        store_of(*old(conn)).ours && store_of(*old(conn)).steady() ==> (n matches Ok(n)
            ==> store_of(*final(conn)).tables == put_request(store_of(*old(conn)).tables, r@) && n
            == (if store_of(*old(conn)).tables.requests.contains_key(r@.dedupe_key) {
            0int
        } else {
            1int
        })),
{
    conn.execute(
        INSERT_REQUEST,
        (
            &r.dedupe_key, &r.session_id, &r.project_dir, &r.model, r.ts, r.input, r.output,
            r.cache_create, r.cache_read, r.thinking, r.cache_1h, r.cache_5m, source,
            &r.transcript_path,
        ),
    )
}

/// `Connection::execute` with `INSERT OR IGNORE`: that the request was seen in the
/// transcript is noted, if it is not yet.
#[verifier::external_body]
pub(crate) fn insert_sighting(conn: &mut rusqlite::Connection, key: &str, path: &str) -> (r: Result<
    usize,
    rusqlite::Error,
>)
    ensures
        r is Err ==> failed(store_of(*old(conn)), store_of(*final(conn))),
        r is Ok ==> same_database(store_of(*old(conn)), store_of(*final(conn))) && store_of(
            *final(conn),
        ).saved == store_of(*old(conn)).saved,
        r is Ok && store_of(*old(conn)).ours && store_of(*old(conn)).steady() ==> store_of(
            *final(conn),
        ).tables == put_sighting(store_of(*old(conn)).tables, key@, path@),
{
    conn.execute(INSERT_SIGHTING, (key, path))
}

/// `Connection::execute` with an upsert, in a transaction: a session that is not
/// there is added with the one time it was heard of; of one that is there,
/// `max`, `min` and `coalesce` make the span and the directory.
#[verifier::external_body]
pub(crate) fn upsert_session(
    conn: &mut rusqlite::Connection,
    sid: &str,
    project: &Option<String>,
    ts: i64,
) -> (r: Result<usize, rusqlite::Error>)
    ensures
        r is Err ==> failed(store_of(*old(conn)), store_of(*final(conn))),
        r is Ok ==> same_database(store_of(*old(conn)), store_of(*final(conn))) && store_of(
            *final(conn),
        ).saved == store_of(*old(conn)).saved,
        r is Ok && store_of(*old(conn)).ours && store_of(*old(conn)).steady() ==> store_of(
            *final(conn),
        ).tables == put_session(
            store_of(*old(conn)).tables,
            sid@,
            transcript::opt_text(*project),
            ts as int,
        ),
{
    conn.execute(UPSERT_SESSION, (sid, project, ts))
}

/// `Connection::execute` with an upsert: the transcript's cursor is now this
/// one. A `u64` is stored as the `i64` of the same bits.
#[verifier::external_body]
pub(crate) fn upsert_cursor(
    conn: &mut rusqlite::Connection,
    path: &str,
    cursor: Cursor,
    now: i64,
) -> (r: Result<usize, rusqlite::Error>)
    ensures
        r is Err ==> failed(store_of(*old(conn)), store_of(*final(conn))),
        r is Ok ==> same_database(store_of(*old(conn)), store_of(*final(conn))) && store_of(
            *final(conn),
        ).saved == store_of(*old(conn)).saved,
        r is Ok && store_of(*old(conn)).ours ==> cursor_of(store_of(*final(conn)).tables, path@)
            == Some(cursor),
        r is Ok && store_of(*old(conn)).ours && store_of(*old(conn)).steady() ==> store_of(
            *final(conn),
        ).tables == put_cursor(store_of(*old(conn)).tables, path@, cursor, now as int),
{
    conn.execute(UPSERT_CURSOR, (path, cursor.byte_offset as i64, cursor.file_id as i64, now))
}

/// `Connection::query_row`, then `optional`: the cursor of a transcript, if it
/// has one.
#[verifier::external_body]
pub(crate) fn select_cursor(conn: &mut rusqlite::Connection, path: &str) -> (r: Result<
    Option<Cursor>,
    rusqlite::Error,
>)
    ensures
        read(store_of(*old(conn)), store_of(*final(conn)), r is Ok),
        store_of(*old(conn)).ours ==> (r matches Ok(c) ==> c == cursor_of(
            store_of(*final(conn)).tables,
            path@,
        )),
{
    let found = conn.query_row(SELECT_CURSOR, [path], |row| {
        let (offset, id): (i64, i64) = (row.get(0)?, row.get(1)?);
        Ok(Cursor { byte_offset: offset as u64, file_id: id as u64 })
    });
    rusqlite::OptionalExtension::optional(found)
}

/// `Connection::query_row` with a sum: the tokens of the requests from an
/// instant on. SQLite answers an integer only where no addition overflows;
/// otherwise the call fails.
#[verifier::external_body]
pub(crate) fn sum_since(conn: &mut rusqlite::Connection, from: i64) -> (r: Result<
    i64,
    rusqlite::Error,
>)
    ensures
        read(store_of(*old(conn)), store_of(*final(conn)), r is Ok),
        store_of(*old(conn)).ours ==> (r matches Ok(n) ==> n == tokens_since(
            store_of(*final(conn)).tables,
            from as int,
        )),
{
    conn.query_row(SUM_SINCE, [from], |r| r.get(0))
}

/// `Connection::query_row` with a sum: the tokens of the requests of a session.
/// SQLite answers an integer only where no addition overflows; otherwise the
/// call fails.
#[verifier::external_body]
pub(crate) fn sum_session(conn: &mut rusqlite::Connection, sid: &str) -> (r: Result<
    i64,
    rusqlite::Error,
>)
    ensures
        read(store_of(*old(conn)), store_of(*final(conn)), r is Ok),
        store_of(*old(conn)).ours ==> (r matches Ok(n) ==> n == tokens_of_session(
            store_of(*final(conn)).tables,
            sid@,
        )),
{
    conn.query_row(SUM_SESSION, [sid], |r| r.get(0))
}

/// `Statement::query_map` over a range of time, ordered by time. The order of
/// requests of the same second is SQLite's.
#[verifier::external_body]
pub(crate) fn select_rows(conn: &mut rusqlite::Connection, since: i64, until: i64) -> (r: Result<
    Vec<Row>,
    rusqlite::Error,
>)
    ensures
        read(store_of(*old(conn)), store_of(*final(conn)), r is Ok),
        store_of(*old(conn)).ours ==> (r matches Ok(rows) ==> rows_between(
            store_of(*final(conn)).tables,
            since as int,
            until as int,
            rows@,
        )),
{
    let mut stmt = conn.prepare(SELECT_ROWS)?;
    let rows = stmt.query_map([since, until], |row| Ok(Row {
        ts: row.get(0)?,
        model: row.get(1)?,
        project_dir: row.get(2)?,
        input: row.get(3)?,
        output: row.get(4)?,
        cache_create: row.get(5)?,
        cache_read: row.get(6)?,
    }))?.collect();
    rows
}

/// `Connection::query_row` with a count: how many requests there are.
#[verifier::external_body]
pub(crate) fn count_requests(conn: &mut rusqlite::Connection) -> (r: Result<i64, rusqlite::Error>)
    ensures
        read(store_of(*old(conn)), store_of(*final(conn)), r is Ok),
        store_of(*old(conn)).ours ==> (r matches Ok(n) ==> n == store_of(
            *final(conn),
        ).tables.requests.dom().len()),
{
    conn.query_row(COUNT_REQUESTS, [], |r| r.get(0))
}

/// `Statement::query_map` over the sessions, grouped: those with requests that
/// were recorded from or seen in more than one transcript, in an order that is
/// SQLite's.
#[verifier::external_body]
pub(crate) fn select_spread(conn: &mut rusqlite::Connection) -> (r: Result<
    Vec<(String, i64)>,
    rusqlite::Error,
>)
    ensures
        read(store_of(*old(conn)), store_of(*final(conn)), r is Ok),
        store_of(*old(conn)).ours ==> (r matches Ok(found) ==> spread_sessions(
            store_of(*final(conn)).tables,
            found@,
        )),
{
    let mut stmt = conn.prepare(SELECT_SPREAD)?;
    let found = stmt.query_map([], |row| Ok((row.get(0)?, row.get(1)?)))?.collect();
    found
}

/// `Statement::query_map` over the sessions, of one project or of all, the one
/// last heard of first. The order of sessions last heard of in the same second
/// is SQLite's.
#[verifier::external_body]
pub(crate) fn select_sessions(conn: &mut rusqlite::Connection, project: Option<&str>) -> (r: Result<
    Vec<SessionRow>,
    rusqlite::Error,
>)
    ensures
        read(store_of(*old(conn)), store_of(*final(conn)), r is Ok),
        store_of(*old(conn)).ours ==> (r matches Ok(rows) ==> sessions_listed(
            store_of(*final(conn)).tables,
            (match project {
                Some(p) => Some(p@),
                None => None,
            }),
            rows@,
        )),
{
    let mut stmt = conn.prepare(SELECT_SESSIONS)?;
    let rows = stmt.query_map([project], |row| Ok(SessionRow {
        session_id: row.get(0)?,
        project_dir: row.get(1)?,
        first_seen: row.get(2)?,
        last_seen: row.get(3)?,
        tokens: row.get(4)?,
    }))?.collect();
    rows
}

} // verus!
