//! The token ledger: every request once, whatever the transcripts repeat.
//!
//! Requests are kept under their dedupe key and never overwritten, so a lost, a
//! repeated and a concurrent pass over a transcript are all harmless. The rows
//! live in SQLite; [`crate::store`] says what its statements do to them.

use vstd::multiset::*;
use vstd::prelude::*;
use vstd::seq_lib::*;
use vstd::set_lib::*;
use vstd::string::*;

use crate::store;
use crate::store::{
    begin, commit, count_requests, create_tables, insert_request, insert_sighting, open_memory, rollback,
    select_cursor, select_rows, select_sessions, select_spread, sum_session, sum_since,
    sync_normally, upsert_cursor, upsert_session, use_wal, wait_for_locks,
};
use crate::text::chars_of;
use crate::transcript;
use crate::transcript::{Cursor, Scan, UsageRecord};

verus! {

/// How long a statement waits for another process to release its lock.
pub const BUSY_MILLIS: u64 = 250;

/// Why a ledger operation did not happen.
#[derive(Debug)]
pub enum LedgerError {
    /// SQLite refused.
    Database(rusqlite::Error),
}

/// What the ledger answers, given what SQLite did: its value as it is, or its
/// refusal as the error.
pub fn answer<T>(r: Result<T, rusqlite::Error>) -> (a: Result<T, LedgerError>)
    ensures
        a == (match r {
            Ok(v) => Ok::<T, LedgerError>(v),
            Err(e) => Err(LedgerError::Database(e)),
        }),
{
    match r {
        Ok(v) => Ok(v),
        Err(e) => Err(LedgerError::Database(e)),
    }
}

/// The few numbers that the status line needs.
#[derive(Debug, Clone, Copy, PartialEq, Eq, Structural)]
pub struct LedgerSummary {
    pub session_tokens: i64,
    pub today_tokens: i64,
    pub week_tokens: i64,
}

impl Default for LedgerSummary {
    fn default() -> (r: Self)
        ensures
            r == (LedgerSummary { session_tokens: 0, today_tokens: 0, week_tokens: 0 }),
    {
        LedgerSummary { session_tokens: 0, today_tokens: 0, week_tokens: 0 }
    }
}

/// One request, for the reports to aggregate.
#[derive(Debug, Clone, PartialEq)]
pub struct Row {
    pub ts: i64,
    pub model: String,
    pub project_dir: String,
    pub input: i64,
    pub output: i64,
    pub cache_create: i64,
    pub cache_read: i64,
}

/// What a `Row` says.
pub ghost struct Shown {
    pub ts: int,
    pub model: Seq<char>,
    pub project_dir: Seq<char>,
    pub input: int,
    pub output: int,
    pub cache_create: int,
    pub cache_read: int,
}

impl View for Row {
    type V = Shown;

    open spec fn view(&self) -> Shown {
        Shown {
            ts: self.ts as int,
            model: self.model@,
            project_dir: self.project_dir@,
            input: self.input as int,
            output: self.output as int,
            cache_create: self.cache_create as int,
            cache_read: self.cache_read as int,
        }
    }
}

impl Row {
    /// The tokens of the request, each counted once.
    pub open spec fn tokens(self) -> int {
        self.input + self.output + self.cache_create + self.cache_read
    }

    /// The tokens of the request.
    pub fn total(&self) -> (r: i64)
        requires
            i64::MIN <= self.tokens() <= i64::MAX,
        ensures
            r == self.tokens(),
    {
        (self.input as i128 + self.output as i128 + self.cache_create as i128
            + self.cache_read as i128) as i64
    }
}

/// One session, as the reports list it.
#[derive(Debug, Clone, PartialEq)]
pub struct SessionRow {
    pub session_id: String,
    pub project_dir: String,
    pub first_seen: i64,
    pub last_seen: i64,
    pub tokens: i64,
}

/// The database, below the directory for data.
pub const BELOW_DATA_HOME: &'static str = "cc-ledger/ledger.db";

/// The database, below the home directory.
pub const BELOW_HOME: &'static str = ".local/share/cc-ledger/ledger.db";

/// Where the database is. A place is whatever the caller holds paths as.
#[derive(Debug, Clone, PartialEq, Eq)]
pub enum DbPath<T> {
    /// Exactly there.
    Explicit(T),
    /// [`BELOW_DATA_HOME`] in the data directory.
    InDataHome(T),
    /// [`BELOW_HOME`] in the home directory, as far as that is known.
    InHome(Option<T>),
}

/// The path `below` a directory: with a slash between them, unless the directory
/// ends with one or is not named at all.
pub open spec fn path_below(dir: Seq<char>, below: Seq<char>) -> Seq<char> {
    if dir.len() == 0 || dir.last() == '/' {
        dir + below
    } else {
        dir + seq!['/'] + below
    }
}

/// The path of the database.
pub open spec fn db_path_text(
    explicit: Option<Seq<char>>,
    data_home: Option<Seq<char>>,
    home: Option<Seq<char>>,
) -> Seq<char> {
    match (explicit, data_home, home) {
        (Some(path), _, _) => path,
        (None, Some(dir), _) => path_below(dir, BELOW_DATA_HOME@),
        (None, None, Some(dir)) => path_below(dir, BELOW_HOME@),
        (None, None, None) => BELOW_HOME@,
    }
}

fn join_path(dir: &str, below: &str) -> (r: String)
    ensures
        r@ == path_below(dir@, below@),
{
    let v = chars_of(dir);
    let mut out = String::new();
    out.append(dir);
    if v.len() > 0 && v[v.len() - 1] != '/' {
        out.push('/');
    }
    out.append(below);
    assert(out@ =~= path_below(dir@, below@));
    out
}

/// The path of the database: the one that overrides everything, else one in the
/// data directory, else one in the home directory, each as far as it is set.
pub fn default_db_path(explicit: Option<&str>, data_home: Option<&str>, home: Option<&str>) -> (r:
    String)
    ensures
        r@ == db_path_text(opt_str(explicit), opt_str(data_home), opt_str(home)),
{
    match db_place(explicit, data_home, home) {
        DbPath::Explicit(path) => path.to_owned(),
        DbPath::InDataHome(dir) => join_path(dir, BELOW_DATA_HOME),
        DbPath::InHome(Some(dir)) => join_path(dir, BELOW_HOME),
        DbPath::InHome(None) => BELOW_HOME.to_owned(),
    }
}

/// Where the database is, given the path that overrides everything, the data
/// directory and the home directory, each as far as it is set.
pub fn db_place<T>(explicit: Option<T>, data_home: Option<T>, home: Option<T>) -> (r: DbPath<T>)
    ensures
        r == (match (explicit, data_home) {
            (Some(path), _) => DbPath::Explicit(path),
            (None, Some(dir)) => DbPath::InDataHome(dir),
            (None, None) => DbPath::InHome(home),
        }),
{
    match (explicit, data_home) {
        (Some(path), _) => DbPath::Explicit(path),
        (None, Some(dir)) => DbPath::InDataHome(dir),
        (None, None) => DbPath::InHome(home),
    }
}

// ---------------------------------------------------------------------------
// What ingesting does to the rows
// ---------------------------------------------------------------------------

/// One record: its request is kept unless its key is there, it was seen in its
/// transcript, and its session is heard of.
pub open spec fn add_record(t: store::Tables, u: transcript::Usage) -> store::Tables {
    let kept = store::put_sighting(store::put_request(t, u), u.dedupe_key, u.transcript_path);
    match u.session_id {
        Some(sid) => store::put_session(kept, sid, u.project_dir, u.ts),
        None => kept,
    }
}

/// Records, one after the other.
pub open spec fn add_all(t: store::Tables, us: Seq<transcript::Usage>) -> store::Tables
    decreases us.len(),
{
    if us.len() == 0 {
        t
    } else {
        add_record(add_all(t, us.drop_last()), us.last())
    }
}

/// How many of the records are new requests.
pub open spec fn fresh(t: store::Tables, us: Seq<transcript::Usage>) -> nat
    decreases us.len(),
{
    if us.len() == 0 {
        0
    } else {
        fresh(t, us.drop_last()) + (if add_all(t, us.drop_last()).requests.contains_key(
            us.last().dedupe_key,
        ) {
            0nat
        } else {
            1
        })
    }
}

/// What an ingest that answered `n` did: it added the records to the rows of
/// one moment, and counted the new ones. Only where another connection can
/// write is that moment not the one before the call.
pub open spec fn ingested(
    a: store::Store,
    us: Seq<transcript::Usage>,
    b: store::Store,
    n: nat,
) -> bool {
    exists|before: store::Tables|
        #![trigger add_all(before, us)]
        b.tables == add_all(before, us) && n == fresh(before, us) && (a.steady() ==> before
            == a.tables)
}

/// The same with the transcript's cursor, in one step.
pub open spec fn batch_ingested(
    a: store::Store,
    us: Seq<transcript::Usage>,
    path: Seq<char>,
    cursor: Cursor,
    now: int,
    b: store::Store,
    n: nat,
) -> bool {
    exists|before: store::Tables|
        #![trigger add_all(before, us)]
        b.tables == store::put_cursor(add_all(before, us), path, cursor, now) && n == fresh(
            before,
            us,
        ) && (a.steady() ==> before == a.tables)
}

/// `s` is what three sums over the rows say. Only where another connection can
/// write may those be the rows of three moments.
pub open spec fn summarised(
    s: LedgerSummary,
    session: Option<Seq<char>>,
    day_start: int,
    week_start: int,
    a: store::Store,
    b: store::Store,
) -> bool {
    &&& exists|day: store::Tables|
        s.today_tokens == #[trigger] store::tokens_since(day, day_start) && (a.steady() ==> day
            == a.tables)
    &&& exists|week: store::Tables|
        s.week_tokens == #[trigger] store::tokens_since(week, week_start) && (a.steady() ==> week
            == a.tables)
    &&& s.session_tokens == (match session {
        Some(sid) => store::tokens_of_session(b.tables, sid),
        None => 0,
    })
}

/// The characters of an optional text.
pub open spec fn opt_str(o: Option<&str>) -> Option<Seq<char>> {
    match o {
        Some(s) => Some(s@),
        None => None,
    }
}

fn write_records(conn: &mut rusqlite::Connection, records: &[UsageRecord]) -> (r: Result<
    usize,
    rusqlite::Error,
>)
    requires
        store::store_of(*old(conn)).saved is Some,
        store::store_of(*old(conn)).tables.wf(),
    ensures
        records@.len() == 0 ==> r == Ok::<usize, rusqlite::Error>(0) && *final(conn) == *old(conn),
        r is Err ==> store::failed(store::store_of(*old(conn)), store::store_of(*final(conn))),
        r is Ok ==> store::same_database(store::store_of(*old(conn)), store::store_of(*final(conn))) && store::store_of(
            *final(conn),
        ).saved == store::store_of(*old(conn)).saved,
        store::store_of(*old(conn)).ours ==> (r matches Ok(n) ==> store::store_of(
            *final(conn),
        ).tables == add_all(store::store_of(*old(conn)).tables, transcript::usages(records@)) && n
            == fresh(store::store_of(*old(conn)).tables, transcript::usages(records@))),
{
    let ghost before = store::store_of(*conn);
    let ghost us = transcript::usages(records@);
    let mut inserted: usize = 0;
    let mut i: usize = 0;
    assert(us.take(0) =~= Seq::<transcript::Usage>::empty());
    while i < records.len()
        invariant
            i <= records@.len(),
            us == transcript::usages(records@),
            inserted <= i,
            i == 0 ==> *conn == *old(conn),
            before == store::store_of(*old(conn)),
            before.saved is Some,
            store::same_database(before, store::store_of(*conn)),
            store::store_of(*conn).saved == before.saved,
            before.ours ==> store::store_of(*conn).tables == add_all(
                before.tables,
                us.take(i as int),
            ) && inserted == fresh(before.tables, us.take(i as int)),
        decreases records@.len() - i,
    {
        let record = &records[i];
        assert(us.take(i + 1).drop_last() =~= us.take(i as int));
        assert(us.take(i + 1).last() == record@);
        match insert_request(conn, record, record.source.as_str()) {
            Ok(n) => {
                if n > 0 {
                    inserted += 1;
                }
            },
            Err(e) => {
                return Err(e);
            },
        }
        match insert_sighting(conn, record.dedupe_key.as_str(), record.transcript_path.as_str()) {
            Ok(_) => {},
            Err(e) => {
                return Err(e);
            },
        }
        match &record.session_id {
            Some(sid) => {
                match upsert_session(conn, sid.as_str(), &record.project_dir, record.ts) {
                    Ok(_) => {},
                    Err(e) => {
                        return Err(e);
                    },
                }
            },
            None => {},
        }
        i += 1;
    }
    assert(us.take(us.len() as int) =~= us);
    Ok(inserted)
}

/// Ends a transaction, given how the writing in it came out: what was written
/// is committed, and the answer is its count; where a statement or the commit
/// was refused, the transaction is rolled back, and that refusal is the answer.
fn finish(conn: &mut rusqlite::Connection, written: Result<usize, rusqlite::Error>) -> (r: Result<
    usize,
    rusqlite::Error,
>)
    ensures
        written is Err ==> r == written,
        r is Ok ==> r == written && store::store_of(*old(conn)).saved is Some && store::store_of(
            *final(conn),
        ).saved is None && store::store_of(*final(conn)).tables == store::store_of(
            *old(conn),
        ).tables && store::same_database(
            store::store_of(*old(conn)),
            store::store_of(*final(conn)),
        ),
        r is Err ==> store::failed(store::store_of(*old(conn)), store::store_of(*final(conn))),
{
    let ended = match written {
        Ok(n) => match commit(conn) {
            Ok(()) => Ok(n),
            Err(e) => Err(e),
        },
        Err(e) => Err(e),
    };
    if ended.is_err() {
        rollback(conn);
    }
    ended
}

/// How the connection of a ledger is set.
pub open spec fn settings() -> store::Settings {
    store::Settings { waits: BUSY_MILLIS as int, normal_sync: true, asked_wal: true }
}

/// `b` is the ledger over a connection that saw `a`: the tables are there, the
/// connection is set, and if the connection was in no transaction, no rows have
/// changed but by others.
pub open spec fn set_up(a: store::Store, b: store::Store) -> bool {
    &&& a.solo == b.solo
    &&& a.ours == b.ours
    &&& b.tables.wf()
    &&& b.tables.made
    &&& b.settings == settings()
    &&& a.saved is None ==> b.saved is None
    &&& a.saved is None && a.solo ==> b.tables == a.tables.with_tables()
}

/// The ledger.
pub struct Ledger {
    conn: rusqlite::Connection,
}

impl Ledger {
    /// What the ledger sees of its database.
    pub closed spec fn store(&self) -> store::Store {
        store::store_of(self.conn)
    }

    /// A ledger over an open connection, whose tables are created where they are
    /// not there yet, and which is set for several processes to write. No rows
    /// change, and a connection outside a transaction stays outside.
    pub fn from_connection(conn: rusqlite::Connection) -> (r: Result<Ledger, LedgerError>)
        ensures
            r matches Ok(ledger) ==> set_up(store::store_of(conn), ledger.store()),
    {
        let mut conn = conn;
        use_wal(&mut conn);
        match answer(wait_for_locks(&mut conn, BUSY_MILLIS)) {
            Ok(()) => {},
            Err(e) => {
                return Err(e);
            },
        }
        match answer(sync_normally(&mut conn)) {
            Ok(()) => {},
            Err(e) => {
                return Err(e);
            },
        }
        let mut ledger = Ledger { conn };
        match ledger.migrate() {
            Ok(()) => Ok(ledger),
            Err(e) => Err(e),
        }
    }

    fn migrate(&mut self) -> (r: Result<(), LedgerError>)
        ensures
            r is Ok ==> store::same_database(old(self).store(), final(self).store())
                && final(self).store().saved == old(self).store().saved
                && final(self).store().tables.made,
            r is Ok && old(self).store().steady() ==> final(self).store().tables
                == old(self).store().tables.with_tables(),
            r is Err ==> store::not_all_made(old(self).store(), final(self).store()),
    {
        answer(create_tables(&mut self.conn))
    }

    /// A ledger over what opening a connection came to: over the connection, or
    /// none, with the refusal as the error.
    pub fn from_opened(opened: Result<rusqlite::Connection, rusqlite::Error>) -> (r: Result<
        Ledger,
        LedgerError,
    >)
        ensures
            opened matches Err(e) ==> r == Err::<Ledger, LedgerError>(LedgerError::Database(e)),
            r matches Ok(ledger) ==> opened is Ok && set_up(
                store::store_of(opened->Ok_0),
                ledger.store(),
            ),
    {
        match answer(opened) {
            Ok(conn) => Ledger::from_connection(conn),
            Err(e) => Err(e),
        }
    }

    /// An empty ledger that lives as long as the value.
    pub fn open_in_memory() -> (r: Result<Ledger, LedgerError>)
        ensures
            r matches Ok(ledger) ==> ledger.store().alone() && ledger.store().tables
                == store::Tables::empty() && ledger.store().settings == settings(),
    {
        Ledger::from_opened(open_memory())
    }

    /// The connection, for what is stored beside the tables of requests,
    /// sessions and cursors. What is done with it is what the ledger sees.
    pub fn connection(&mut self) -> (r: &mut rusqlite::Connection)
        ensures
            store::store_of(*r) == old(self).store(),
            final(self).store() == store::store_of(*final(r)),
    {
        &mut self.conn
    }

    /// Adds the records in one transaction and answers how many requests were
    /// genuinely new. A failed ingest leaves nothing behind: the rows that are
    /// kept are those there were. Where a transaction is already open there can be
    /// no second one: the call fails, and the open one stays as it is.
    pub fn ingest(&mut self, records: &[UsageRecord]) -> (r: Result<usize, LedgerError>)
        ensures
            final(self).store().solo == old(self).store().solo,
            final(self).store().ours == old(self).store().ours,
            final(self).store().settings == old(self).store().settings,
            old(self).store().tables.wf() ==> store::same_database(
                old(self).store(),
                final(self).store(),
            ),
            records@.len() == 0 ==> r == Ok::<usize, LedgerError>(0) && final(self).store() == old(self).store(),
            records@.len() > 0 && old(self).store().saved is Some ==> r is Err
                && final(self).store().saved == old(self).store().saved
                && final(self).store().tables == old(self).store().tables,
            old(self).store().sound() && r is Ok ==> final(self).store().sound(),
            old(self).store().sound() ==> (r matches Ok(n) ==> ingested(
                old(self).store(),
                transcript::usages(records@),
                final(self).store(),
                n as nat,
            )),
            old(self).store().alone() ==> (r is Err ==> final(self).store().kept() == old(self).store().tables),
    {
        if records.len() == 0 {
            assert(transcript::usages(records@) =~= Seq::<transcript::Usage>::empty());
            assert(self.store().tables == add_all(self.store().tables, transcript::usages(records@)));
            return Ok(0);
        }
        match begin(&mut self.conn) {
            Ok(()) => {},
            Err(e) => {
                return Err(LedgerError::Database(e));
            },
        }
        let written = write_records(&mut self.conn, records);
        answer(finish(&mut self.conn, written))
    }

    /// Adds the records of a pass and moves the cursor of its transcript, in one
    /// transaction: the cursor never runs ahead of the data, and a batch that
    /// failed leaves neither behind. Where a transaction is already open there can
    /// be no second one: the call fails, and the open one stays as it is.
    pub fn ingest_batch(&mut self, scan: &Scan, transcript_path: &str, now: i64) -> (r: Result<
        usize,
        LedgerError,
    >)
        ensures
            final(self).store().solo == old(self).store().solo,
            final(self).store().ours == old(self).store().ours,
            store::same_database(old(self).store(), final(self).store()),
            old(self).store().saved is Some ==> r is Err && final(self).store().saved
                == old(self).store().saved && final(self).store().tables
                == old(self).store().tables,
            old(self).store().sound() && r is Ok ==> final(self).store().sound(),
            old(self).store().sound() ==> (r matches Ok(n) ==> batch_ingested(
                old(self).store(),
                transcript::usages(scan.records@),
                transcript_path@,
                scan.cursor,
                now as int,
                final(self).store(),
                n as nat,
            )),
            old(self).store().alone() ==> (r is Err ==> final(self).store().kept() == old(self).store().tables),
    {
        match begin(&mut self.conn) {
            Ok(()) => {},
            Err(e) => {
                return Err(LedgerError::Database(e));
            },
        }
        let written = match write_records(&mut self.conn, scan.records.as_slice()) {
            Ok(n) => match upsert_cursor(&mut self.conn, transcript_path, scan.cursor, now) {
                Ok(_) => Ok(n),
                Err(e) => Err(e),
            },
            Err(e) => Err(e),
        };
        answer(finish(&mut self.conn, written))
    }

    /// How far a transcript has been read, if it has.
    pub fn cursor(&mut self, transcript_path: &str) -> (r: Result<Option<Cursor>, LedgerError>)
        ensures
            store::read(old(self).store(), final(self).store(), r is Ok),
            old(self).store().ours ==> (r matches Ok(c) ==> c == store::cursor_of(
                final(self).store().tables,
                transcript_path@,
            )),
    {
        match select_cursor(&mut self.conn, transcript_path) {
            Ok(c) => Ok(c),
            Err(e) => Err(LedgerError::Database(e)),
        }
    }

    /// Remembers how far a transcript has been read.
    pub fn set_cursor(&mut self, transcript_path: &str, cursor: Cursor, now: i64) -> (r: Result<
        (),
        LedgerError,
    >)
        ensures
            store::same_database(old(self).store(), final(self).store()),
            r is Err ==> store::failed(old(self).store(), final(self).store()),
            r is Ok ==> final(self).store().saved == old(self).store().saved,
            r is Ok && old(self).store().ours ==> store::cursor_of(
                final(self).store().tables,
                transcript_path@,
            ) == Some(cursor),
            r is Ok && old(self).store().ours && old(self).store().steady()
                ==> final(self).store().tables == store::put_cursor(
                old(self).store().tables,
                transcript_path@,
                cursor,
                now as int,
            ),
            old(self).store().alone() && r is Err ==> final(self).store().tables
                == old(self).store().tables,
    {
        match answer(upsert_cursor(&mut self.conn, transcript_path, cursor, now)) {
            Ok(_) => Ok(()),
            Err(e) => Err(e),
        }
    }

    /// Tokens of the session, since `day_start` and since `week_start`. The two
    /// are local boundaries as Unix seconds.
    pub fn summary(
        &mut self,
        session_id: Option<&str>,
        day_start: i64,
        week_start: i64,
    ) -> (r: Result<LedgerSummary, LedgerError>)
        ensures
            store::read(old(self).store(), final(self).store(), r is Ok),
            old(self).store().ours ==> (r matches Ok(s) ==> summarised(
                s,
                opt_str(session_id),
                day_start as int,
                week_start as int,
                old(self).store(),
                final(self).store(),
            )),
    {
        let today_tokens = match sum_since(&mut self.conn, day_start) {
            Ok(n) => n,
            Err(e) => {
                return Err(LedgerError::Database(e));
            },
        };
        let ghost day = self.store().tables;
        let week_tokens = match sum_since(&mut self.conn, week_start) {
            Ok(n) => n,
            Err(e) => {
                return Err(LedgerError::Database(e));
            },
        };
        let ghost week = self.store().tables;
        let session_tokens = match session_id {
            Some(sid) => match sum_session(&mut self.conn, sid) {
                Ok(n) => n,
                Err(e) => {
                    return Err(LedgerError::Database(e));
                },
            },
            None => 0,
        };
        let s = LedgerSummary { session_tokens, today_tokens, week_tokens };
        proof {
            if old(self).store().ours {
                assert(s.today_tokens == store::tokens_since(day, day_start as int));
                assert(s.week_tokens == store::tokens_since(week, week_start as int));
            }
        }
        Ok(s)
    }

    /// The requests in `[since, until)`, by time.
    pub fn rows(&mut self, since: Option<i64>, until: Option<i64>) -> (r: Result<
        Vec<Row>,
        LedgerError,
    >)
        ensures
            store::read(old(self).store(), final(self).store(), r is Ok),
            old(self).store().ours ==> (r matches Ok(rows) ==> store::rows_between(
                final(self).store().tables,
                (match since {
                    Some(ts) => ts as int,
                    None => i64::MIN as int,
                }),
                (match until {
                    Some(ts) => ts as int,
                    None => i64::MAX as int,
                }),
                rows@,
            )),
    {
        let from = match since {
            Some(ts) => ts,
            None => i64::MIN,
        };
        let to = match until {
            Some(ts) => ts,
            None => i64::MAX,
        };
        match select_rows(&mut self.conn, from, to) {
            Ok(rows) => Ok(rows),
            Err(e) => Err(LedgerError::Database(e)),
        }
    }

    /// How many requests there are.
    pub fn request_count(&mut self) -> (r: Result<i64, LedgerError>)
        ensures
            store::read(old(self).store(), final(self).store(), r is Ok),
            old(self).store().ours ==> (r matches Ok(n) ==> n == final(self).store().tables.requests.dom().len()),
    {
        match count_requests(&mut self.conn) {
            Ok(n) => Ok(n),
            Err(e) => Err(LedgerError::Database(e)),
        }
    }

    /// The sessions whose requests were seen in more than one transcript, with how
    /// many that are. A resumed session that copied its history shows up here, for
    /// all that its requests count once.
    pub fn duplicate_sources(&mut self) -> (r: Result<Vec<(String, i64)>, LedgerError>)
        ensures
            store::read(old(self).store(), final(self).store(), r is Ok),
            old(self).store().ours ==> (r matches Ok(found) ==> store::spread_sessions(
                final(self).store().tables,
                found@,
            )),
    {
        match select_spread(&mut self.conn) {
            Ok(found) => Ok(found),
            Err(e) => Err(LedgerError::Database(e)),
        }
    }

    /// The sessions of one project, or all of them, the one last heard of first.
    pub fn sessions(&mut self, project: Option<&str>) -> (r: Result<Vec<SessionRow>, LedgerError>)
        ensures
            store::read(old(self).store(), final(self).store(), r is Ok),
            old(self).store().ours ==> (r matches Ok(rows) ==> store::sessions_listed(
                final(self).store().tables,
                opt_str(project),
                rows@,
            )),
    {
        match select_sessions(&mut self.conn, project) {
            Ok(rows) => Ok(rows),
            Err(e) => Err(LedgerError::Database(e)),
        }
    }
}

// ---------------------------------------------------------------------------
// Laws
// ---------------------------------------------------------------------------

/// The keys of some records.
pub open spec fn keys_of(us: Seq<transcript::Usage>) -> Set<Seq<char>> {
    us.map_values(|u: transcript::Usage| u.dedupe_key).to_set()
}

proof fn keys_of_push(us: Seq<transcript::Usage>)
    requires
        us.len() > 0,
    ensures
        keys_of(us) == keys_of(us.drop_last()).insert(us.last().dedupe_key),
{
    let key = |u: transcript::Usage| u.dedupe_key;
    let all = us.map_values(key);
    let init = us.drop_last().map_values(key);
    assert(all =~= init.push(us.last().dedupe_key));
    assert forall|k: Seq<char>| #[trigger]
        all.to_set().contains(k) == init.to_set().insert(us.last().dedupe_key).contains(k) by {
        if all.contains(k) {
            let i = choose|i: int| 0 <= i < all.len() && all[i] == k;
            if i < init.len() {
                assert(init[i] == k);
            }
        }
        if init.contains(k) {
            let i = choose|i: int| 0 <= i < init.len() && init[i] == k;
            assert(all[i] == k);
        }
        assert(all[all.len() - 1] == us.last().dedupe_key);
    }
    assert(keys_of(us) =~= keys_of(us.drop_last()).insert(us.last().dedupe_key));
}

/// After an ingest the ledger holds the requests it held and those of the
/// records, and no others.
pub proof fn law_ingest_adds_exactly_the_keys_of_the_records(
    t: store::Tables,
    us: Seq<transcript::Usage>,
)
    ensures
        add_all(t, us).requests.dom() == t.requests.dom().union(keys_of(us)),
    decreases us.len(),
{
    if us.len() > 0 {
        law_ingest_adds_exactly_the_keys_of_the_records(t, us.drop_last());
        keys_of_push(us);
    }
    assert(add_all(t, us).requests.dom() =~= t.requests.dom().union(keys_of(us)));
}

/// A request that is in the ledger never changes, whatever is ingested.
pub proof fn law_recorded_requests_never_change(
    t: store::Tables,
    us: Seq<transcript::Usage>,
    k: Seq<char>,
)
    requires
        t.requests.contains_key(k),
    ensures
        add_all(t, us).requests.contains_key(k),
        add_all(t, us).requests[k] == t.requests[k],
    decreases us.len(),
{
    if us.len() > 0 {
        law_recorded_requests_never_change(t, us.drop_last(), k);
    }
}

/// Of the lines of one response the first is kept.
pub proof fn law_the_first_record_of_a_request_is_kept(
    t: store::Tables,
    us: Seq<transcript::Usage>,
    i: int,
)
    requires
        0 <= i < us.len(),
        !t.requests.contains_key(us[i].dedupe_key),
        forall|j: int| 0 <= j < i ==> us[j].dedupe_key != us[i].dedupe_key,
    ensures
        add_all(t, us).requests.contains_key(us[i].dedupe_key),
        add_all(t, us).requests[us[i].dedupe_key] == us[i],
    decreases us.len(),
{
    let init = us.drop_last();
    if i < us.len() - 1 {
        law_the_first_record_of_a_request_is_kept(t, init, i);
    } else {
        law_ingest_adds_exactly_the_keys_of_the_records(t, init);
        assert(!keys_of(init).contains(us[i].dedupe_key)) by {
            let keys = init.map_values(|u: transcript::Usage| u.dedupe_key);
            if keys.contains(us[i].dedupe_key) {
                let j = choose|j: int| 0 <= j < keys.len() && keys[j] == us[i].dedupe_key;
                assert(us[j].dedupe_key == us[i].dedupe_key);
            }
        }
    }
}

/// The answer of an ingest is by how many requests the ledger grew.
pub proof fn law_ingest_counts_the_growth(t: store::Tables, us: Seq<transcript::Usage>)
    requires
        t.requests.dom().finite(),
    ensures
        add_all(t, us).requests.dom().finite(),
        add_all(t, us).requests.dom().len() == t.requests.dom().len() + fresh(t, us),
    decreases us.len(),
{
    if us.len() > 0 {
        law_ingest_counts_the_growth(t, us.drop_last());
    }
}

/// The record has left its trace: its request is there, it was seen in its
/// transcript, and its session is known for its time and its directory.
spec fn absorbed(t: store::Tables, u: transcript::Usage) -> bool {
    &&& t.requests.contains_key(u.dedupe_key)
    &&& t.sightings.contains((u.dedupe_key, u.transcript_path))
    &&& u.session_id matches Some(sid) ==> {
        &&& t.sessions.contains_key(sid)
        &&& t.sessions[sid].first_seen <= u.ts <= t.sessions[sid].last_seen
        &&& t.sessions[sid].project_dir is Some || u.project_dir is None
    }
}

proof fn absorbed_stays(t: store::Tables, u: transcript::Usage, next: transcript::Usage)
    requires
        absorbed(t, u),
    ensures
        absorbed(add_record(t, next), u),
{
}

proof fn absorbed_all(t: store::Tables, us: Seq<transcript::Usage>)
    ensures
        forall|i: int| 0 <= i < us.len() ==> absorbed(add_all(t, us), #[trigger] us[i]),
    decreases us.len(),
{
    if us.len() > 0 {
        let init = us.drop_last();
        absorbed_all(t, init);
        assert forall|i: int| 0 <= i < us.len() implies absorbed(
            add_all(t, us),
            #[trigger] us[i],
        ) by {
            if i < init.len() {
                assert(absorbed(add_all(t, init), init[i]));
                absorbed_stays(add_all(t, init), us[i], us.last());
            }
        }
    }
}

proof fn absorbed_changes_nothing(t: store::Tables, u: transcript::Usage)
    requires
        absorbed(t, u),
    ensures
        add_record(t, u) == t,
{
    assert(t.sightings.insert((u.dedupe_key, u.transcript_path)) =~= t.sightings);
    if let Some(sid) = u.session_id {
        assert(t.sessions.insert(
            sid,
            store::extended(store::span_of(t, sid), u.project_dir, u.ts),
        ) =~= t.sessions);
    }
}

/// Records that have all left their trace change nothing and are not new.
proof fn nothing_to_add(t: store::Tables, us: Seq<transcript::Usage>)
    requires
        forall|i: int| 0 <= i < us.len() ==> absorbed(t, #[trigger] us[i]),
    ensures
        add_all(t, us) == t,
        fresh(t, us) == 0,
    decreases us.len(),
{
    if us.len() > 0 {
        let init = us.drop_last();
        assert forall|i: int| 0 <= i < init.len() implies absorbed(t, #[trigger] init[i]) by {
            assert(absorbed(t, us[i]));
        }
        nothing_to_add(t, init);
        assert(absorbed(t, us[us.len() - 1]));
        absorbed_changes_nothing(t, us.last());
    }
}

/// Ingesting the same records again changes no row and finds nothing new: no
/// repeated pass can count double.
pub proof fn law_reingesting_is_idempotent(t: store::Tables, us: Seq<transcript::Usage>)
    ensures
        add_all(add_all(t, us), us) == add_all(t, us),
        fresh(add_all(t, us), us) == 0,
{
    absorbed_all(t, us);
    nothing_to_add(add_all(t, us), us);
}

/// One batch after another is one ingest of both.
pub proof fn law_batches_add_up(
    t: store::Tables,
    first: Seq<transcript::Usage>,
    second: Seq<transcript::Usage>,
)
    ensures
        add_all(add_all(t, first), second) == add_all(t, first + second),
        fresh(t, first) + fresh(add_all(t, first), second) == fresh(t, first + second),
    decreases second.len(),
{
    let both = first + second;
    if second.len() == 0 {
        assert(both =~= first);
    } else {
        law_batches_add_up(t, first, second.drop_last());
        assert(both.drop_last() =~= first + second.drop_last());
    }
}

/// Two passes over records that agree on the tokens of each request leave the
/// same requests with the same tokens, whichever comes first: a concurrent pass
/// is harmless.
pub proof fn law_the_order_of_passes_does_not_matter(
    t: store::Tables,
    a: Seq<transcript::Usage>,
    b: Seq<transcript::Usage>,
    k: Seq<char>,
)
    requires
        forall|i: int, j: int|
            0 <= i < (a + b).len() && 0 <= j < (a + b).len() && #[trigger] (a + b)[i].dedupe_key
                == #[trigger] (a + b)[j].dedupe_key ==> (a + b)[i].tokens() == (a + b)[j].tokens(),
    ensures
        add_all(add_all(t, a), b).requests.dom() == add_all(add_all(t, b), a).requests.dom(),
        add_all(add_all(t, a), b).requests.contains_key(k) ==> add_all(
            add_all(t, a),
            b,
        ).requests[k].tokens() == add_all(add_all(t, b), a).requests[k].tokens(),
{
    law_ingest_adds_exactly_the_keys_of_the_records(t, a);
    law_ingest_adds_exactly_the_keys_of_the_records(t, b);
    law_ingest_adds_exactly_the_keys_of_the_records(add_all(t, a), b);
    law_ingest_adds_exactly_the_keys_of_the_records(add_all(t, b), a);
    assert(add_all(add_all(t, a), b).requests.dom() =~= add_all(
        add_all(t, b),
        a,
    ).requests.dom());
    law_batches_add_up(t, a, b);
    law_batches_add_up(t, b, a);
    if add_all(add_all(t, a), b).requests.contains_key(k) {
        if t.requests.contains_key(k) {
            law_recorded_requests_never_change(t, a + b, k);
            law_recorded_requests_never_change(t, b + a, k);
        } else {
            let i = kept_from(t, a + b, k);
            let j = kept_from(t, b + a, k);
            let j2 = if j < b.len() {
                j + a.len()
            } else {
                j - b.len()
            };
            assert((b + a)[j] == (a + b)[j2]);
            assert((a + b)[i].dedupe_key == (a + b)[j2].dedupe_key);
        }
    }
}

/// A request that was not there before is one of the records.
proof fn kept_from(t: store::Tables, us: Seq<transcript::Usage>, k: Seq<char>) -> (i: int)
    requires
        !t.requests.contains_key(k),
        add_all(t, us).requests.contains_key(k),
    ensures
        0 <= i < us.len(),
        us[i].dedupe_key == k,
        add_all(t, us).requests[k] == us[i],
    decreases us.len(),
{
    if add_all(t, us.drop_last()).requests.contains_key(k) {
        kept_from(t, us.drop_last(), k)
    } else {
        us.len() - 1
    }
}

/// No session comes to have been last heard of before it was first.
pub proof fn law_sessions_are_never_seen_backwards(
    t: store::Tables,
    us: Seq<transcript::Usage>,
    sid: Seq<char>,
)
    requires
        t.sessions.contains_key(sid) ==> t.sessions[sid].first_seen <= t.sessions[sid].last_seen,
    ensures
        add_all(t, us).sessions.contains_key(sid) ==> add_all(t, us).sessions[sid].first_seen
            <= add_all(t, us).sessions[sid].last_seen,
    decreases us.len(),
{
    if us.len() > 0 {
        law_sessions_are_never_seen_backwards(t, us.drop_last(), sid);
    }
}

/// A session's span holds the time of each of its records, and its first known
/// directory stays.
pub proof fn law_sessions_span_their_records(
    t: store::Tables,
    us: Seq<transcript::Usage>,
    i: int,
    sid: Seq<char>,
)
    requires
        0 <= i < us.len(),
        us[i].session_id == Some(sid),
    ensures
        add_all(t, us).sessions.contains_key(sid),
        add_all(t, us).sessions[sid].first_seen <= us[i].ts <= add_all(
            t,
            us,
        ).sessions[sid].last_seen,
        t.sessions.contains_key(sid) && t.sessions[sid].project_dir is Some ==> add_all(
            t,
            us,
        ).sessions[sid].project_dir == t.sessions[sid].project_dir,
{
    absorbed_all(t, us);
    assert(absorbed(add_all(t, us), us[i]));
    directory_stays(t, us, sid);
}

proof fn directory_stays(t: store::Tables, us: Seq<transcript::Usage>, sid: Seq<char>)
    ensures
        t.sessions.contains_key(sid) ==> add_all(t, us).sessions.contains_key(sid),
        t.sessions.contains_key(sid) && t.sessions[sid].project_dir is Some ==> add_all(
            t,
            us,
        ).sessions[sid].project_dir == t.sessions[sid].project_dir,
    decreases us.len(),
{
    if us.len() > 0 {
        directory_stays(t, us.drop_last(), sid);
    }
}

/// A cursor reads back as it was written, and no other transcript's cursor
/// moves.
pub proof fn law_cursors_read_back(
    t: store::Tables,
    path: Seq<char>,
    cursor: Cursor,
    now: int,
    other: Seq<char>,
)
    ensures
        store::cursor_of(store::put_cursor(t, path, cursor, now), path) == Some(cursor),
        other != path ==> store::cursor_of(store::put_cursor(t, path, cursor, now), other)
            == store::cursor_of(t, other),
{
}

/// Ingesting records moves no cursor.
pub proof fn law_ingest_moves_no_cursor(t: store::Tables, us: Seq<transcript::Usage>)
    ensures
        add_all(t, us).cursors == t.cursors,
    decreases us.len(),
{
    if us.len() > 0 {
        law_ingest_moves_no_cursor(t, us.drop_last());
    }
}

proof fn tokens_where_remove(
    m: Map<Seq<char>, transcript::Usage>,
    keep: spec_fn(transcript::Usage) -> bool,
    k: Seq<char>,
)
    requires
        m.dom().finite(),
        m.contains_key(k),
    ensures
        store::tokens_where(m, keep) == (if keep(m[k]) {
            m[k].tokens()
        } else {
            0
        }) + store::tokens_where(m.remove(k), keep),
    decreases m.dom().len(),
{
    let c = m.dom().choose();
    assert(m.dom().contains(c));
    if c != k {
        tokens_where_remove(m.remove(c), keep, k);
        tokens_where_remove(m.remove(k), keep, c);
        assert(m.remove(c).remove(k) =~= m.remove(k).remove(c));
    }
}

/// A new request raises every sum that it falls under by its own tokens, and
/// one that is already there raises none: each request counts once.
pub proof fn law_a_request_counts_once(
    t: store::Tables,
    u: transcript::Usage,
    keep: spec_fn(transcript::Usage) -> bool,
)
    requires
        t.requests.dom().finite(),
    ensures
        store::tokens_where(add_record(t, u).requests, keep) == store::tokens_where(
            t.requests,
            keep,
        ) + (if !t.requests.contains_key(u.dedupe_key) && keep(u) {
            u.tokens()
        } else {
            0
        }),
{
    if !t.requests.contains_key(u.dedupe_key) {
        let m = t.requests.insert(u.dedupe_key, u);
        tokens_where_remove(m, keep, u.dedupe_key);
        assert(m.remove(u.dedupe_key) =~= t.requests);
    }
}

/// The tokens of the records that `keep` holds of, line by line.
pub open spec fn line_sum(
    us: Seq<transcript::Usage>,
    keep: spec_fn(transcript::Usage) -> bool,
) -> int
    decreases us.len(),
{
    if us.len() == 0 {
        0
    } else {
        line_sum(us.drop_last(), keep) + (if keep(us.last()) {
            us.last().tokens()
        } else {
            0
        })
    }
}

/// What the ledger adds up to is never more than what the lines add up to, where
/// no line has a negative count.
pub proof fn law_requests_never_come_to_more_than_their_lines(
    t: store::Tables,
    us: Seq<transcript::Usage>,
    keep: spec_fn(transcript::Usage) -> bool,
)
    requires
        t.requests.dom().finite(),
        forall|i: int| 0 <= i < us.len() ==> (#[trigger] us[i]).tokens() >= 0,
    ensures
        store::tokens_where(add_all(t, us).requests, keep) <= store::tokens_where(t.requests, keep)
            + line_sum(us, keep),
    decreases us.len(),
{
    if us.len() > 0 {
        let init = us.drop_last();
        assert forall|i: int| 0 <= i < init.len() implies (#[trigger] init[i]).tokens() >= 0 by {
            assert(us[i].tokens() >= 0);
        }
        law_requests_never_come_to_more_than_their_lines(t, init, keep);
        law_ingest_counts_the_growth(t, init);
        law_a_request_counts_once(add_all(t, init), us.last(), keep);
        assert(us[us.len() - 1].tokens() >= 0);
    }
}

/// The days since `week_start` hold the days since a later `day_start`: where no
/// request has a negative count, today's tokens are at most the week's.
pub proof fn law_today_is_part_of_the_week(t: store::Tables, day_start: int, week_start: int)
    requires
        t.requests.dom().finite(),
        week_start <= day_start,
        forall|k: Seq<char>| #[trigger] t.requests.contains_key(k) ==> t.requests[k].tokens() >= 0,
    ensures
        store::tokens_since(t, day_start) <= store::tokens_since(t, week_start),
{
    tokens_where_grows(
        t.requests,
        |u: transcript::Usage| u.ts >= day_start,
        |u: transcript::Usage| u.ts >= week_start,
    );
}

proof fn tokens_where_grows(
    m: Map<Seq<char>, transcript::Usage>,
    few: spec_fn(transcript::Usage) -> bool,
    many: spec_fn(transcript::Usage) -> bool,
)
    requires
        m.dom().finite(),
        forall|u: transcript::Usage| #[trigger] few(u) ==> many(u),
        forall|k: Seq<char>| #[trigger] m.contains_key(k) ==> m[k].tokens() >= 0,
    ensures
        0 <= store::tokens_where(m, few) <= store::tokens_where(m, many),
    decreases m.dom().len(),
{
    if m.dom().len() > 0 {
        let k = m.dom().choose();
        assert(m.contains_key(k));
        assert forall|j: Seq<char>| #[trigger] m.remove(k).contains_key(j) implies m.remove(
            k,
        )[j].tokens() >= 0 by {
            assert(m.contains_key(j));
        }
        tokens_where_grows(m.remove(k), few, many);
    }
}

proof fn finite_stays(t: store::Tables, us: Seq<transcript::Usage>)
    requires
        t.requests.dom().finite(),
        t.sightings.finite(),
    ensures
        add_all(t, us).requests.dom().finite(),
        add_all(t, us).sightings.finite(),
    decreases us.len(),
{
    if us.len() > 0 {
        finite_stays(t, us.drop_last());
    }
}

/// A sighting stays, whatever is ingested.
proof fn sighting_stays(t: store::Tables, us: Seq<transcript::Usage>, seen: (Seq<char>, Seq<char>))
    requires
        t.sightings.contains(seen),
    ensures
        add_all(t, us).sightings.contains(seen),
    decreases us.len(),
{
    if us.len() > 0 {
        sighting_stays(t, us.drop_last(), seen);
    }
}

/// Every transcript that a request was seen in is remembered, also where the
/// request itself was already there, and is never forgotten.
pub proof fn law_every_sighting_is_kept(
    t: store::Tables,
    us: Seq<transcript::Usage>,
    i: int,
    more: Seq<transcript::Usage>,
)
    requires
        0 <= i < us.len(),
    ensures
        add_all(add_all(t, us), more).sightings.contains((us[i].dedupe_key, us[i].transcript_path)),
{
    absorbed_all(t, us);
    assert(absorbed(add_all(t, us), us[i]));
    sighting_stays(add_all(t, us), more, (us[i].dedupe_key, us[i].transcript_path));
}

proof fn transcripts_are_finite(t: store::Tables, sid: Seq<char>)
    requires
        t.requests.dom().finite(),
        t.sightings.finite(),
    ensures
        store::transcripts_of(t, sid).finite(),
{
    let from = |k: Seq<char>| t.requests[k].transcript_path;
    let path = |seen: (Seq<char>, Seq<char>)| seen.1;
    t.requests.dom().lemma_map_finite(from);
    t.sightings.lemma_map_finite(path);
    let all = t.requests.dom().map(from).union(t.sightings.map(path));
    assert forall|p: Seq<char>| #[trigger]
        store::transcripts_of(t, sid).contains(p) implies all.contains(p) by {
        let k = choose|k: Seq<char>| #[trigger] store::seen_in(t, sid, k, p);
        if t.requests[k].transcript_path == p {
            assert(t.requests.dom().contains(k) && from(k) == p);
        } else {
            assert(t.sightings.contains((k, p)) && path((k, p)) == p);
        }
    }
    lemma_len_subset(store::transcripts_of(t, sid), all);
}

/// A session whose requests were seen in two transcripts is reported, whether
/// those are two requests or one that two transcripts hold.
pub proof fn law_a_session_seen_in_two_transcripts_is_reported(
    t: store::Tables,
    sid: Seq<char>,
    k1: Seq<char>,
    p1: Seq<char>,
    k2: Seq<char>,
    p2: Seq<char>,
    found: Seq<(String, i64)>,
)
    requires
        t.requests.dom().finite(),
        t.sightings.finite(),
        store::seen_in(t, sid, k1, p1),
        store::seen_in(t, sid, k2, p2),
        p1 != p2,
        store::spread_sessions(t, found),
    ensures
        exists|h: int| 0 <= h < found.len() && (#[trigger] found[h]).0@ == sid && found[h].1 >= 2,
{
    let seen = store::transcripts_of(t, sid);
    let two = set![p1, p2];
    transcripts_are_finite(t, sid);
    assert(seen.contains(p1));
    assert(seen.contains(p2));
    assert(two.len() == 2);
    lemma_len_subset(two, seen);
    let h = choose|h: int| 0 <= h < found.len() && #[trigger] found[h].0@ == sid;
    assert(found[h].1 == store::transcripts_of(t, found[h].0@).len());
}

/// A request that several transcripts hold counts once, and is reported under
/// the session it was recorded for.
pub proof fn law_a_request_in_two_transcripts_is_reported(
    t: store::Tables,
    us: Seq<transcript::Usage>,
    i: int,
    j: int,
    sid: Seq<char>,
    found: Seq<(String, i64)>,
)
    requires
        t.requests.dom().finite(),
        t.sightings.finite(),
        0 <= i < us.len(),
        0 <= j < us.len(),
        us[i].dedupe_key == us[j].dedupe_key,
        us[i].transcript_path != us[j].transcript_path,
        add_all(t, us).requests[us[i].dedupe_key].session_id == Some(sid),
        store::spread_sessions(add_all(t, us), found),
    ensures
        exists|h: int| 0 <= h < found.len() && (#[trigger] found[h]).0@ == sid && found[h].1 >= 2,
{
    absorbed_all(t, us);
    finite_stays(t, us);
    let after = add_all(t, us);
    assert(absorbed(after, us[i]));
    assert(absorbed(after, us[j]));
    law_a_session_seen_in_two_transcripts_is_reported(
        after,
        sid,
        us[i].dedupe_key,
        us[i].transcript_path,
        us[j].dedupe_key,
        us[j].transcript_path,
        found,
    );
}

/// What rows show, whatever their order.
pub open spec fn all_shown(rows: Seq<Row>) -> Multiset<Shown> {
    rows.map_values(|r: Row| r@).to_multiset()
}

/// What a row shows of a request.
pub open spec fn shown_of(u: transcript::Usage) -> Shown {
    Shown {
        ts: u.ts,
        model: u.model,
        project_dir: store::or_unknown(u.project_dir),
        input: u.input,
        output: u.output,
        cache_create: u.cache_create,
        cache_read: u.cache_read,
    }
}

/// Lists of the same things without repetition hold the same under any function.
proof fn same_whatever_the_order<A, B>(a: Seq<A>, b: Seq<A>, f: spec_fn(A) -> B)
    requires
        a.no_duplicates(),
        b.no_duplicates(),
        forall|x: A| #[trigger] a.contains(x) <==> b.contains(x),
    ensures
        a.len() == b.len(),
        a.map_values(f).to_multiset() == b.map_values(f).to_multiset(),
    decreases a.len(),
{
    broadcast use vstd::multiset::group_multiset_axioms;

    if a.len() == 0 {
        if b.len() > 0 {
            assert(b.contains(b[0]));
            assert(a.contains(b[0]));
        }
        assert(a =~= b);
    } else {
        let x = a.last();
        let init = a.drop_last();
        assert(a.contains(x));
        let i = choose|i: int| 0 <= i < b.len() && b[i] == x;
        let rest = b.remove(i);
        assert forall|y: A| #[trigger] init.contains(y) <==> rest.contains(y) by {
            if init.contains(y) {
                let m = choose|m: int| 0 <= m < init.len() && init[m] == y;
                assert(a[m] == y);
                assert(a.contains(y));
                let n = choose|n: int| 0 <= n < b.len() && b[n] == y;
                assert(n != i);
                if n < i {
                    assert(rest[n] == y);
                } else {
                    assert(rest[n - 1] == y);
                }
            }
            if rest.contains(y) {
                let m = choose|m: int| 0 <= m < rest.len() && rest[m] == y;
                let n = if m < i {
                    m
                } else {
                    m + 1
                };
                assert(b[n] == y);
                assert(a.contains(y));
                let k = choose|k: int| 0 <= k < a.len() && a[k] == y;
                assert(k != a.len() - 1);
                assert(init[k] == y);
            }
        }
        assert(rest.no_duplicates()) by {
            assert forall|m: int, n: int| 0 <= m < n < rest.len() implies rest[m] != rest[n] by {
                let m2 = if m < i {
                    m
                } else {
                    m + 1
                };
                let n2 = if n < i {
                    n
                } else {
                    n + 1
                };
                assert(b[m2] != b[n2]);
            }
        }
        same_whatever_the_order(init, rest, f);
        assert(a.map_values(f) =~= init.map_values(f).push(f(x)));
        to_multiset_build(init.map_values(f), f(x));
        let mapped = b.map_values(f);
        assert(rest.map_values(f) =~= mapped.remove(i));
        to_multiset_remove(mapped, i);
        assert(mapped[i] == f(x));
        assert(mapped.to_multiset().contains(f(x))) by {
            to_multiset_contains(mapped, f(x));
            assert(mapped.contains(f(x)));
        }
        assert(mapped.to_multiset() =~= mapped.to_multiset().remove(f(x)).insert(f(x)));
    }
}

/// The rows of a range are determined by the range, up to the order of requests
/// of the same second.
pub proof fn law_the_rows_of_a_range_are_determined(
    t: store::Tables,
    since: int,
    until: int,
    a: Seq<Row>,
    b: Seq<Row>,
)
    requires
        store::rows_between(t, since, until, a),
        store::rows_between(t, since, until, b),
    ensures
        a.len() == b.len(),
        all_shown(a) == all_shown(b),
{
    let ka = choose|keys: Seq<Seq<char>>| #[trigger] store::rows_by_key(t, since, until, a, keys);
    let kb = choose|keys: Seq<Seq<char>>| #[trigger] store::rows_by_key(t, since, until, b, keys);
    let f = |k: Seq<char>| shown_of(t.requests[k]);
    assert forall|k: Seq<char>| #[trigger] ka.contains(k) <==> kb.contains(k) by {}
    same_whatever_the_order(ka, kb, f);
    assert forall|i: int| 0 <= i < a.len() implies #[trigger] a[i]@ == f(ka[i]) by {
        assert(store::row_shows(a[i], t.requests[ka[i]]));
    }
    assert forall|i: int| 0 <= i < b.len() implies #[trigger] b[i]@ == f(kb[i]) by {
        assert(store::row_shows(b[i], t.requests[kb[i]]));
    }
    assert(a.map_values(|r: Row| r@) =~= ka.map_values(f));
    assert(b.map_values(|r: Row| r@) =~= kb.map_values(f));
}

/// Adjacent ranges neither overlap nor leave a gap: the rows of the one followed
/// by those of the other are the rows of both, and every listing of the whole
/// range shows just these. A range that ends where it begins has no rows.
pub proof fn law_adjacent_ranges_are_one(
    t: store::Tables,
    a: int,
    b: int,
    c: int,
    first: Seq<Row>,
    second: Seq<Row>,
    whole: Seq<Row>,
)
    requires
        a <= b <= c,
        store::rows_between(t, a, b, first),
        store::rows_between(t, b, c, second),
        store::rows_between(t, a, c, whole),
    ensures
        store::rows_between(t, a, c, first + second),
        whole.len() == first.len() + second.len(),
        all_shown(whole) == all_shown(first + second),
        a == b ==> first.len() == 0,
{
    let k1 = choose|keys: Seq<Seq<char>>| #[trigger] store::rows_by_key(t, a, b, first, keys);
    let k2 = choose|keys: Seq<Seq<char>>| #[trigger] store::rows_by_key(t, b, c, second, keys);
    let rows = first + second;
    let keys = k1 + k2;
    assert forall|i: int| 0 <= i < first.len() implies a <= #[trigger] first[i].ts < b by {
        assert(store::row_shows(first[i], t.requests[k1[i]]));
        assert(k1.contains(k1[i]));
    }
    assert forall|i: int| 0 <= i < second.len() implies b <= #[trigger] second[i].ts < c by {
        assert(store::row_shows(second[i], t.requests[k2[i]]));
        assert(k2.contains(k2[i]));
    }
    assert forall|k: Seq<char>| #[trigger]
        keys.contains(k) <==> t.requests.contains_key(k) && a <= t.requests[k].ts < c by {
        if keys.contains(k) {
            let i = choose|i: int| 0 <= i < keys.len() && keys[i] == k;
            if i < k1.len() {
                assert(k1.contains(k1[i]));
            } else {
                assert(k2.contains(k2[i - k1.len()]));
            }
        }
        if k1.contains(k) {
            let i = choose|i: int| 0 <= i < k1.len() && k1[i] == k;
            assert(keys[i] == k);
        }
        if k2.contains(k) {
            let i = choose|i: int| 0 <= i < k2.len() && k2[i] == k;
            assert(keys[k1.len() + i] == k);
        }
    }
    assert(keys.no_duplicates()) by {
        assert forall|i: int, j: int| 0 <= i < j < keys.len() implies keys[i] != keys[j] by {
            if i < k1.len() && j >= k1.len() {
                assert(k1.contains(k1[i]));
                assert(k2.contains(k2[j - k1.len()]));
            }
        }
    }
    assert forall|i: int| 0 <= i < rows.len() implies #[trigger] store::row_shows(
        rows[i],
        t.requests[keys[i]],
    ) by {
        if i < first.len() {
            assert(store::row_shows(first[i], t.requests[k1[i]]));
        } else {
            assert(store::row_shows(second[i - first.len()], t.requests[k2[i - first.len()]]));
        }
    }
    assert(store::rows_by_key(t, a, c, rows, keys));
    if first.len() > 0 {
        assert(a <= first[0].ts < b);
    }
    law_the_rows_of_a_range_are_determined(t, a, c, whole, rows);
}

/// Record `i` is of the session.
pub open spec fn heard(us: Seq<transcript::Usage>, sid: Seq<char>, i: int) -> bool {
    0 <= i < us.len() && us[i].session_id == Some(sid)
}

/// The span holds the times of all records of the session, and begins and ends
/// with one.
pub open spec fn spans(
    us: Seq<transcript::Usage>,
    sid: Seq<char>,
    first_seen: int,
    last_seen: int,
) -> bool {
    &&& forall|i: int| #[trigger] heard(us, sid, i) ==> first_seen <= us[i].ts <= last_seen
    &&& exists|i: int| #[trigger] heard(us, sid, i) && us[i].ts == first_seen
    &&& exists|i: int| #[trigger] heard(us, sid, i) && us[i].ts == last_seen
}

/// A session that was not there before is there exactly if a record is of it, and
/// spans its records from the earliest to the latest.
pub proof fn law_a_session_spans_exactly_its_records(
    t: store::Tables,
    us: Seq<transcript::Usage>,
    sid: Seq<char>,
)
    requires
        !t.sessions.contains_key(sid),
    ensures
        add_all(t, us).sessions.contains_key(sid) <==> exists|i: int| heard(us, sid, i),
        add_all(t, us).sessions.contains_key(sid) ==> spans(
            us,
            sid,
            add_all(t, us).sessions[sid].first_seen,
            add_all(t, us).sessions[sid].last_seen,
        ),
    decreases us.len(),
{
    if us.len() > 0 {
        let init = us.drop_last();
        let n = us.len() - 1;
        law_a_session_spans_exactly_its_records(t, init, sid);
        let before = add_all(t, init);
        assert forall|i: int| 0 <= i < n implies #[trigger] heard(us, sid, i) == heard(
            init,
            sid,
            i,
        ) by {}
        if before.sessions.contains_key(sid) {
            let lo = choose|i: int| #[trigger]
                heard(init, sid, i) && init[i].ts == before.sessions[sid].first_seen;
            let hi = choose|i: int| #[trigger]
                heard(init, sid, i) && init[i].ts == before.sessions[sid].last_seen;
            assert(heard(us, sid, lo));
            assert(heard(us, sid, hi));
        }
        assert(heard(us, sid, n) == (us.last().session_id == Some(sid)));
        assert forall|i: int| #[trigger] heard(us, sid, i) && i < n implies heard(
            init,
            sid,
            i,
        ) by {}
    } else {
        assert(forall|i: int| !heard(us, sid, i));
    }
}

/// The session is in the list.
pub open spec fn listed(rows: Seq<SessionRow>, sid: Seq<char>) -> bool {
    exists|r: int| 0 <= r < rows.len() && #[trigger] rows[r].session_id@ == sid
}

/// Of a ledger that was filled by some records, the list of sessions has one row
/// for each session of the records and no other, which begins with the earliest
/// of them and ends with the latest.
pub proof fn law_sessions_are_those_of_the_records(
    t: store::Tables,
    us: Seq<transcript::Usage>,
    rows: Seq<SessionRow>,
)
    requires
        t.sessions == Map::<Seq<char>, store::Span>::empty(),
        store::sessions_listed(add_all(t, us), None, rows),
    ensures
        forall|sid: Seq<char>|
            #![trigger listed(rows, sid)]
            listed(rows, sid) <==> exists|i: int| heard(us, sid, i),
        forall|r: int, q: int|
            0 <= r < q < rows.len() ==> #[trigger] rows[r].session_id@
                != #[trigger] rows[q].session_id@,
        forall|r: int|
            0 <= r < rows.len() ==> spans(
                us,
                (#[trigger] rows[r]).session_id@,
                rows[r].first_seen as int,
                rows[r].last_seen as int,
            ),
{
    let after = add_all(t, us);
    assert forall|sid: Seq<char>|
        #![trigger listed(rows, sid)]
        listed(rows, sid) <==> exists|i: int| heard(us, sid, i) by {
        law_a_session_spans_exactly_its_records(t, us, sid);
        if after.sessions.contains_key(sid) {
            let r = choose|r: int| 0 <= r < rows.len() && #[trigger] rows[r].session_id@ == sid;
            assert(rows[r].session_id@ == sid);
        }
        if listed(rows, sid) {
            let r = choose|r: int| 0 <= r < rows.len() && #[trigger] rows[r].session_id@ == sid;
            assert(after.sessions.contains_key(rows[r].session_id@));
        }
    }
    assert forall|r: int| 0 <= r < rows.len() implies spans(
        us,
        (#[trigger] rows[r]).session_id@,
        rows[r].first_seen as int,
        rows[r].last_seen as int,
    ) by {
        law_a_session_spans_exactly_its_records(t, us, rows[r].session_id@);
        assert(after.sessions.contains_key(rows[r].session_id@));
    }
}

/// The sessions of a project are those of the list of all that are of the
/// project.
pub proof fn law_the_sessions_of_a_project_are_among_all(
    t: store::Tables,
    project: Seq<char>,
    all: Seq<SessionRow>,
    some: Seq<SessionRow>,
    sid: Seq<char>,
)
    requires
        store::sessions_listed(t, None, all),
        store::sessions_listed(t, Some(project), some),
    ensures
        listed(some, sid) <==> listed(all, sid) && t.sessions[sid].project_dir == Some(project),
{
    if listed(some, sid) {
        let r = choose|r: int| 0 <= r < some.len() && #[trigger] some[r].session_id@ == sid;
        assert(t.sessions.contains_key(some[r].session_id@));
    }
    if listed(all, sid) {
        let r = choose|r: int| 0 <= r < all.len() && #[trigger] all[r].session_id@ == sid;
        assert(t.sessions.contains_key(all[r].session_id@));
    }
    if t.sessions.contains_key(sid) {
        let r = choose|r: int| 0 <= r < all.len() && #[trigger] all[r].session_id@ == sid;
        assert(all[r].session_id@ == sid);
        if t.sessions[sid].project_dir == Some(project) {
            let q = choose|q: int| 0 <= q < some.len() && #[trigger] some[q].session_id@ == sid;
            assert(some[q].session_id@ == sid);
        }
    }
}

/// What one record changes: its request is kept unless its key is there, it was
/// seen in its own transcript, and its own session is heard of at its own time
/// and in its own directory. Nothing else changes.
pub proof fn law_what_one_record_changes(t: store::Tables, u: transcript::Usage)
    ensures
        ({
            let after = add_record(t, u);
            &&& after.made == t.made
            &&& after.cursors == t.cursors
            &&& !t.requests.contains_key(u.dedupe_key) ==> after.requests == t.requests.insert(
                u.dedupe_key,
                u,
            )
            &&& t.requests.contains_key(u.dedupe_key) ==> after.requests == t.requests
            &&& after.sightings == t.sightings.insert((u.dedupe_key, u.transcript_path))
            &&& u.session_id is None ==> after.sessions == t.sessions
            &&& u.session_id matches Some(sid) ==> {
                let now = after.sessions[sid];
                let before = t.sessions[sid];
                &&& after.sessions.dom() == t.sessions.dom().insert(sid)
                &&& forall|other: Seq<char>|
                    other != sid ==> #[trigger] after.sessions[other] == t.sessions[other]
                &&& !t.sessions.contains_key(sid) ==> now.project_dir == u.project_dir
                    && now.first_seen == u.ts && now.last_seen == u.ts
                &&& t.sessions.contains_key(sid) ==> {
                    &&& now.project_dir == (if before.project_dir is Some {
                        before.project_dir
                    } else {
                        u.project_dir
                    })
                    &&& now.first_seen <= before.first_seen && now.first_seen <= u.ts
                    &&& now.first_seen == before.first_seen || now.first_seen == u.ts
                    &&& now.last_seen >= before.last_seen && now.last_seen >= u.ts
                    &&& now.last_seen == before.last_seen || now.last_seen == u.ts
                }
            }
        }),
{
    if let Some(sid) = u.session_id {
        assert(add_record(t, u).sessions.dom() =~= t.sessions.dom().insert(sid));
    }
}

/// A new request counts in the windows that begin no later than it was made and
/// under its own session, with its own tokens; nowhere else, and nothing counts in
/// an empty ledger.
pub proof fn law_where_a_request_counts(
    t: store::Tables,
    u: transcript::Usage,
    from: int,
    sid: Seq<char>,
)
    requires
        t.requests.dom().finite(),
        !t.requests.contains_key(u.dedupe_key),
    ensures
        store::tokens_since(add_record(t, u), from) == store::tokens_since(t, from) + (if from
            <= u.ts {
            u.input + u.output + u.cache_create + u.cache_read
        } else {
            0
        }),
        store::tokens_of_session(add_record(t, u), sid) == store::tokens_of_session(t, sid) + (
        if u.session_id == Some(sid) {
            u.input + u.output + u.cache_create + u.cache_read
        } else {
            0
        }),
        store::tokens_since(store::Tables::empty(), from) == 0,
        store::tokens_of_session(store::Tables::empty(), sid) == 0,
{
    law_a_request_counts_once(t, u, |v: transcript::Usage| v.ts >= from);
    law_a_request_counts_once(t, u, |v: transcript::Usage| v.session_id == Some(sid));
}

/// The three numbers of a summary are three sums over the ledger: the tokens since
/// the day began, those since the week began, and those of the session, or nothing
/// where no session is asked for. No row changes.
pub proof fn law_a_summary_sums_each_window(
    ledger: &mut Ledger,
    session: Option<&str>,
    day_start: i64,
    week_start: i64,
    s: LedgerSummary,
)
    requires
        call_ensures(Ledger::summary, (ledger, session, day_start, week_start), Ok(s)),
        old(ledger).store().alone(),
    ensures
        s.today_tokens == store::tokens_since(old(ledger).store().tables, day_start as int),
        s.week_tokens == store::tokens_since(old(ledger).store().tables, week_start as int),
        session matches Some(sid) ==> s.session_tokens == store::tokens_of_session(
            old(ledger).store().tables,
            sid@,
        ),
        session is None ==> s.session_tokens == 0,
        final(ledger).store().tables == old(ledger).store().tables,
{
}

/// After an ingest that nobody else could disturb the rows are those before it and
/// the records, one after the other; what it answers is how many requests more
/// there are.
#[verifier::rlimit(50)]
pub proof fn law_an_ingest_files_its_records(ledger: &mut Ledger, records: &[UsageRecord], n: usize)
    requires
        call_ensures(Ledger::ingest, (ledger, records), Ok(n)),
        old(ledger).store().alone(),
        old(ledger).store().tables.wf(),
    ensures
        final(ledger).store().alone(),
        final(ledger).store().tables == add_all(
            old(ledger).store().tables,
            transcript::usages(records@),
        ),
        final(ledger).store().tables.requests.dom().len()
            == old(ledger).store().tables.requests.dom().len() + n,
        forall|i: int|
            0 <= i < records@.len() ==> final(ledger).store().tables.requests.contains_key(
                (#[trigger] records@[i])@.dedupe_key,
            ) && final(ledger).store().tables.sightings.contains(
                (records@[i]@.dedupe_key, records@[i]@.transcript_path),
            ),
        final(ledger).store().tables.cursors == old(ledger).store().tables.cursors,
{
    let t = old(ledger).store().tables;
    let us = transcript::usages(records@);
    assert(us.len() == records@.len());
    if records@.len() == 0 {
        assert(us =~= Seq::<transcript::Usage>::empty());
    }
    law_ingest_counts_the_growth(t, us);
    law_ingest_moves_no_cursor(t, us);
    law_ingest_adds_exactly_the_keys_of_the_records(t, us);
    assert forall|i: int| 0 <= i < records@.len() implies add_all(t, us).requests.contains_key(
        (#[trigger] records@[i])@.dedupe_key,
    ) && add_all(t, us).sightings.contains(
        (records@[i]@.dedupe_key, records@[i]@.transcript_path),
    ) by {
        assert(us[i] == records@[i]@);
        law_every_sighting_is_kept(t, us, i, Seq::empty());
        let keys = us.map_values(|u: transcript::Usage| u.dedupe_key);
        assert(keys[i] == us[i].dedupe_key);
        assert(keys.contains(us[i].dedupe_key));
        assert(keys_of(us).contains(us[i].dedupe_key));
    }
}

/// A batch files its records as an ingest does, and with them its own cursor for
/// its own transcript, and no other.
pub proof fn law_a_batch_files_its_records_and_its_cursor(
    ledger: &mut Ledger,
    scan: &Scan,
    path: &str,
    now: i64,
    n: usize,
)
    requires
        call_ensures(Ledger::ingest_batch, (ledger, scan, path, now), Ok(n)),
        old(ledger).store().alone(),
        old(ledger).store().tables.wf(),
    ensures
        ({
            let before = old(ledger).store().tables;
            let after = final(ledger).store().tables;
            let us = transcript::usages(scan.records@);
            &&& final(ledger).store().alone()
            &&& after.requests == add_all(before, us).requests
            &&& after.sightings == add_all(before, us).sightings
            &&& after.sessions == add_all(before, us).sessions
            &&& after.requests.dom().len() == before.requests.dom().len() + n
            &&& after.cursors.contains_key(path@)
            &&& after.cursors[path@].cursor == scan.cursor
            &&& after.cursors[path@].last_seen == now
            &&& forall|other: Seq<char>|
                other != path@ ==> (#[trigger] after.cursors.contains_key(other)
                    <==> before.cursors.contains_key(other)) && after.cursors[other]
                    == before.cursors[other]
        }),
{
    let us = transcript::usages(scan.records@);
    law_ingest_counts_the_growth(old(ledger).store().tables, us);
    law_ingest_moves_no_cursor(old(ledger).store().tables, us);
}

/// A cursor that is set is the one that is read, at its own path; no other moves,
/// and no row of any other table changes. One that was never set is not read.
pub proof fn law_a_cursor_is_read_as_it_was_set(
    ledger: &mut Ledger,
    path: &str,
    cursor: Cursor,
    now: i64,
)
    requires
        call_ensures(Ledger::set_cursor, (ledger, path, cursor, now), Ok(())),
        old(ledger).store().alone(),
    ensures
        ({
            let before = old(ledger).store().tables;
            let after = final(ledger).store().tables;
            &&& after.requests == before.requests
            &&& after.sightings == before.sightings
            &&& after.sessions == before.sessions
            &&& after.cursors.contains_key(path@)
            &&& after.cursors[path@].cursor == cursor
            &&& after.cursors[path@].last_seen == now
            &&& forall|other: Seq<char>|
                other != path@ ==> (#[trigger] after.cursors.contains_key(other)
                    <==> before.cursors.contains_key(other)) && after.cursors[other]
                    == before.cursors[other]
        }),
{
}

/// What is read of a cursor is what is stored under its own path, if anything is.
pub proof fn law_a_cursor_is_read_under_its_path(
    ledger: &mut Ledger,
    path: &str,
    r: Option<Cursor>,
)
    requires
        call_ensures(Ledger::cursor, (ledger, path), Ok(r)),
        old(ledger).store().alone(),
    ensures
        r is Some <==> old(ledger).store().tables.cursors.contains_key(path@),
        r matches Some(c) ==> c == old(ledger).store().tables.cursors[path@].cursor,
        final(ledger).store().tables == old(ledger).store().tables,
{
}

/// The rows of a range: each shows, field by field, a request made in the range;
/// every request made in it is shown, none twice, and they stand in the order of
/// time. An end that is not given is the end of time.
#[verifier::rlimit(50)]
pub proof fn law_what_rows_show(
    ledger: &mut Ledger,
    since: Option<i64>,
    until: Option<i64>,
    rows: Vec<Row>,
)
    requires
        call_ensures(Ledger::rows, (ledger, since, until), Ok(rows)),
        old(ledger).store().alone(),
    ensures
        exists|keys: Seq<Seq<char>>|
            #![trigger keys.no_duplicates()]
            keys.no_duplicates() && keys.len() == rows@.len() && (forall|k: Seq<char>|
                #![trigger keys.contains(k)]
                keys.contains(k) <==> {
                    let t = old(ledger).store().tables;
                    &&& t.requests.contains_key(k)
                    &&& since matches Some(a) ==> a <= t.requests[k].ts
                    &&& since is None ==> i64::MIN <= t.requests[k].ts
                    &&& until matches Some(b) ==> t.requests[k].ts < b
                    &&& until is None ==> t.requests[k].ts < i64::MAX
                }) && forall|i: int|
                #![trigger rows@[i]]
                0 <= i < rows@.len() ==> {
                    let u = old(ledger).store().tables.requests[keys[i]];
                    &&& rows@[i].ts == u.ts
                    &&& rows@[i].model@ == u.model
                    &&& rows@[i].project_dir@ == (if u.project_dir is Some {
                        u.project_dir->0
                    } else {
                        "unknown"@
                    })
                    &&& rows@[i].input == u.input
                    &&& rows@[i].output == u.output
                    &&& rows@[i].cache_create == u.cache_create
                    &&& rows@[i].cache_read == u.cache_read
                },
        forall|i: int, j: int|
            0 <= i <= j < rows@.len() ==> (#[trigger] rows@[i]).ts <= (#[trigger] rows@[j]).ts,
        final(ledger).store().tables == old(ledger).store().tables,
{
    let t = old(ledger).store().tables;
    let from: int = match since {
        Some(ts) => ts as int,
        None => i64::MIN as int,
    };
    let to: int = match until {
        Some(ts) => ts as int,
        None => i64::MAX as int,
    };
    assert(store::rows_between(t, from, to, rows@));
    let keys = choose|keys: Seq<Seq<char>>| #[trigger]
        store::rows_by_key(t, from, to, rows@, keys);
    assert(keys.no_duplicates());
    assert forall|i: int|
        #![trigger rows@[i]]
        0 <= i < rows@.len() implies store::row_shows(rows@[i], t.requests[keys[i]]) by {}
}

/// The sessions that are listed: each shows, field by field, what is stored under
/// its own id, with the tokens of its own requests; every session of the project,
/// or every one, is listed once, the one last heard of first.
#[verifier::rlimit(50)]
pub proof fn law_what_the_list_of_sessions_shows(
    ledger: &mut Ledger,
    project: Option<&str>,
    rows: Vec<SessionRow>,
)
    requires
        call_ensures(Ledger::sessions, (ledger, project), Ok(rows)),
        old(ledger).store().alone(),
    ensures
        forall|i: int|
            0 <= i < rows@.len() ==> {
                let t = old(ledger).store().tables;
                let sid = (#[trigger] rows@[i]).session_id@;
                let span = t.sessions[sid];
                &&& t.sessions.contains_key(sid)
                &&& project matches Some(p) ==> span.project_dir == Some(p@)
                &&& rows@[i].project_dir@ == (if span.project_dir is Some {
                    span.project_dir->0
                } else {
                    "unknown"@
                })
                &&& rows@[i].first_seen == span.first_seen
                &&& rows@[i].last_seen == span.last_seen
                &&& rows@[i].tokens == store::tokens_of_session(t, sid)
            },
        forall|sid: Seq<char>|
            #![trigger listed(rows@, sid)]
            old(ledger).store().tables.sessions.contains_key(sid) && (project matches Some(p)
                ==> old(ledger).store().tables.sessions[sid].project_dir == Some(p@)) ==> listed(
                rows@,
                sid,
            ),
        forall|i: int, j: int|
            0 <= i < j < rows@.len() ==> (#[trigger] rows@[i]).session_id@ != (
            #[trigger] rows@[j]).session_id@ && rows@[i].last_seen >= rows@[j].last_seen,
        final(ledger).store().tables == old(ledger).store().tables,
{
    let t = old(ledger).store().tables;
    assert(store::sessions_listed(t, opt_str(project), rows@));
    assert forall|sid: Seq<char>|
        #![trigger listed(rows@, sid)]
        t.sessions.contains_key(sid) && (project matches Some(p) ==> t.sessions[sid].project_dir
            == Some(p@)) implies listed(rows@, sid) by {
        assert(t.sessions.contains_key(sid));
    }
    assert forall|i: int, j: int| 0 <= i < j < rows@.len() implies (
    #[trigger] rows@[i]).session_id@ != (#[trigger] rows@[j]).session_id@ && rows@[i].last_seen
        >= rows@[j].last_seen by {
        assert(rows@[i].session_id@ != rows@[j].session_id@);
    }
}

/// The sessions that are reported are those, and only those, whose requests were
/// recorded from or seen in at least two transcripts, each with their number.
#[verifier::rlimit(50)]
pub proof fn law_which_sessions_are_reported(
    ledger: &mut Ledger,
    found: Vec<(String, i64)>,
    sid: Seq<char>,
)
    requires
        call_ensures(Ledger::duplicate_sources, (ledger,), Ok(found)),
        old(ledger).store().alone(),
    ensures
        ({
            let t = old(ledger).store().tables;
            let paths = Set::new(
                |path: Seq<char>|
                    exists|k: Seq<char>|
                        #[trigger] t.requests.contains_key(k) && t.requests[k].session_id == Some(
                            sid,
                        ) && (t.requests[k].transcript_path == path || t.sightings.contains(
                            (k, path),
                        )),
            );
            &&& paths.len() >= 2 ==> exists|i: int|
                0 <= i < found@.len() && (#[trigger] found@[i]).0@ == sid
            &&& forall|i: int|
                0 <= i < found@.len() && (#[trigger] found@[i]).0@ == sid ==> found@[i].1
                    == paths.len() && paths.len() >= 2
        }),
{
    let t = old(ledger).store().tables;
    let paths = Set::new(
        |path: Seq<char>|
            exists|k: Seq<char>|
                #[trigger] t.requests.contains_key(k) && t.requests[k].session_id == Some(sid) && (
                t.requests[k].transcript_path == path || t.sightings.contains((k, path))),
    );
    assert(store::spread_sessions(t, found@));
    assert forall|path: Seq<char>| paths.contains(path) == store::transcripts_of(
        t,
        sid,
    ).contains(path) by {
        if paths.contains(path) {
            let k = choose|k: Seq<char>|
                #[trigger] t.requests.contains_key(k) && t.requests[k].session_id == Some(sid) && (
                t.requests[k].transcript_path == path || t.sightings.contains((k, path)));
            assert(store::seen_in(t, sid, k, path));
        }
        if store::transcripts_of(t, sid).contains(path) {
            let k = choose|k: Seq<char>| #[trigger] store::seen_in(t, sid, k, path);
            assert(t.requests.contains_key(k));
        }
    }
    assert(paths =~= store::transcripts_of(t, sid));
}

/// The number of requests is how many keys there are.
pub proof fn law_requests_are_counted(ledger: &mut Ledger, n: i64)
    requires
        call_ensures(Ledger::request_count, (ledger,), Ok(n)),
        old(ledger).store().alone(),
    ensures
        n == old(ledger).store().tables.requests.dom().len(),
        final(ledger).store().tables == old(ledger).store().tables,
{
}

/// The database is where the environment says, else below the directory for data,
/// else below the home directory, each where it is set.
pub proof fn law_where_the_database_is(
    explicit: Option<&str>,
    data_home: Option<&str>,
    home: Option<&str>,
    r: String,
)
    requires
        call_ensures(default_db_path, (explicit, data_home, home), r),
    ensures
        explicit matches Some(path) ==> r@ == path@,
        explicit is None ==> (data_home matches Some(dir) ==> "cc-ledger/ledger.db"@.is_suffix_of(
            r@,
        ) && dir@.is_prefix_of(r@)),
        explicit is None && data_home is None ==> (home matches Some(dir) ==> (
        ".local/share/cc-ledger/ledger.db"@).is_suffix_of(r@) && dir@.is_prefix_of(r@)),
        explicit is None && data_home is None && home is None ==> r@
            == ".local/share/cc-ledger/ledger.db"@,
{
    if explicit is None {
        if let Some(dir) = data_home {
            law_a_path_below_a_directory(dir@, BELOW_DATA_HOME@);
        } else if let Some(dir) = home {
            law_a_path_below_a_directory(dir@, BELOW_HOME@);
        }
    }
}

/// A path below a directory begins with the directory and ends with what is below
/// it, with one slash between them, unless the directory is empty.
pub proof fn law_a_path_below_a_directory(dir: Seq<char>, below: Seq<char>)
    ensures
        dir.is_prefix_of(path_below(dir, below)),
        below.is_suffix_of(path_below(dir, below)),
        path_below(dir + seq!['/'], below) == dir + seq!['/'] + below,
        dir.len() > 0 && dir.last() != '/' ==> path_below(dir, below) == dir + seq!['/'] + below,
        dir.len() == 0 ==> path_below(dir, below) == below,
{
    let p = path_below(dir, below);
    assert(p.subrange(0, dir.len() as int) =~= dir);
    assert(p.skip(p.len() - below.len()) =~= below);
    assert((dir + seq!['/']).last() == '/');
    if dir.len() == 0 {
        assert(p =~= below);
    }
}

/// The place of the database is chosen as its path is.
pub proof fn law_which_place_is_chosen<T>(
    explicit: Option<T>,
    data_home: Option<T>,
    home: Option<T>,
    r: DbPath<T>,
)
    requires
        call_ensures(db_place::<T>, (explicit, data_home, home), r),
    ensures
        explicit matches Some(path) ==> r == DbPath::Explicit(path),
        explicit is None ==> (data_home matches Some(dir) ==> r == DbPath::InDataHome(dir)),
        explicit is None && data_home is None ==> r == DbPath::InHome(home),
{
}

/// A ledger in memory begins without rows, and its connection waits a quarter of a
/// second for a lock.
pub proof fn law_how_a_ledger_begins(r: Ledger)
    requires
        call_ensures(Ledger::open_in_memory, (), Ok(r)),
    ensures
        r.store().alone(),
        r.store().tables.made,
        forall|k: Seq<char>| !(#[trigger] r.store().tables.requests.contains_key(k)),
        forall|k: Seq<char>| !(#[trigger] r.store().tables.sessions.contains_key(k)),
        forall|k: Seq<char>| !(#[trigger] r.store().tables.cursors.contains_key(k)),
        r.store().settings.waits == 250,
        r.store().settings.normal_sync,
        r.store().settings.asked_wal,
{
}

/// A row's total is its four counts.
pub proof fn law_a_rows_total_is_its_counts(row: &Row, n: i64)
    requires
        i64::MIN <= row.tokens() <= i64::MAX,
        call_ensures(Row::total, (row,), n),
    ensures
        n - row.input - row.output - row.cache_create - row.cache_read == 0,
{
}

/// What a row says is what its fields hold.
pub proof fn law_a_row_says_what_it_holds(row: Row)
    ensures
        row@.ts == row.ts,
        row@.model == row.model@,
        row@.project_dir == row.project_dir@,
        row@.input == row.input,
        row@.output == row.output,
        row@.cache_create == row.cache_create,
        row@.cache_read == row.cache_read,
{
}

/// What SQLite did is what the ledger answers: its value as it is, or its refusal
/// as the error.
pub proof fn law_what_the_ledger_answers<T>(
    r: Result<T, rusqlite::Error>,
    a: Result<T, LedgerError>,
)
    requires
        call_ensures(answer::<T>, (r,), a),
    ensures
        r matches Ok(v) ==> a == Ok::<T, LedgerError>(v),
        r matches Err(e) ==> a == Err::<T, LedgerError>(LedgerError::Database(e)),
{
}

/// An ingest that failed keeps nothing of its records, and neither does a batch
/// that failed, nor its cursor.
pub proof fn law_a_failed_ingest_keeps_nothing(
    ledger: &mut Ledger,
    records: &[UsageRecord],
    e: LedgerError,
    other: &mut Ledger,
    scan: &Scan,
    path: &str,
    now: i64,
)
    requires
        call_ensures(Ledger::ingest, (ledger, records), Err(e)),
        call_ensures(Ledger::ingest_batch, (other, scan, path, now), Err(e)),
        old(ledger).store().alone(),
        old(other).store().alone(),
    ensures
        records@.len() > 0,
        final(ledger).store().kept() == old(ledger).store().tables,
        final(other).store().kept() == old(other).store().tables,
{
}

/// Within an open transaction there is no second one: an ingest of records and a
/// batch fail, and leave the transaction as it is.
pub proof fn law_there_is_no_second_transaction(
    ledger: &mut Ledger,
    records: &[UsageRecord],
    r: Result<usize, LedgerError>,
    other: &mut Ledger,
    scan: &Scan,
    path: &str,
    now: i64,
    q: Result<usize, LedgerError>,
)
    requires
        call_ensures(Ledger::ingest, (ledger, records), r),
        call_ensures(Ledger::ingest_batch, (other, scan, path, now), q),
        records@.len() > 0,
        old(ledger).store().saved is Some,
        old(other).store().saved is Some,
    ensures
        r is Err && q is Err,
        final(ledger).store().tables == old(ledger).store().tables,
        final(ledger).store().saved == old(ledger).store().saved,
        final(other).store().tables == old(other).store().tables,
        final(other).store().saved == old(other).store().saved,
{
}

/// A ledger over an open connection has all its tables, waits a quarter of a
/// second for a lock, and holds the rows that were there.
pub proof fn law_a_ledger_holds_what_was_there(conn: rusqlite::Connection, r: Ledger)
    requires
        call_ensures(Ledger::from_connection, (conn,), Ok(r)),
        store::store_of(conn).saved is None,
        store::store_of(conn).solo,
    ensures
        r.store().tables.made,
        r.store().tables.requests == store::store_of(conn).tables.requests,
        r.store().tables.sightings == store::store_of(conn).tables.sightings,
        r.store().tables.sessions == store::store_of(conn).tables.sessions,
        r.store().tables.cursors == store::store_of(conn).tables.cursors,
        r.store().settings.waits == 250,
        r.store().settings.normal_sync,
        r.store().settings.asked_wal,
{
}

/// Without a connection there is no ledger, and the refusal is the error.
pub proof fn law_no_connection_is_no_ledger(
    opened: Result<rusqlite::Connection, rusqlite::Error>,
    r: Result<Ledger, LedgerError>,
)
    requires
        call_ensures(Ledger::from_opened, (opened,), r),
    ensures
        opened matches Err(e) ==> r == Err::<Ledger, LedgerError>(LedgerError::Database(e)),
        r matches Ok(ledger) ==> opened is Ok && ledger.store().tables.made && set_up(
            store::store_of(opened->Ok_0),
            ledger.store(),
        ),
{
}

} // verus!
