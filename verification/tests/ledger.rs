//! The ledger, on a database in memory.

use cc_ledger::double::Double;
use cc_ledger::ledger::{
    answer, db_place, default_db_path, DbPath, Ledger, LedgerError, LedgerSummary,
};
use cc_ledger::payload::{limits_to_record, Limits, RateLimit};
use cc_ledger::transcript::{Cursor, Scan, Source, UsageRecord};
use rusqlite::OptionalExtension;

fn record(key: &str, ts: i64, output: i64) -> UsageRecord {
    UsageRecord {
        dedupe_key: key.to_string(),
        session_id: Some("s1".into()),
        project_dir: Some("/p".into()),
        model: "vendor-opus-5".into(),
        ts,
        input: 1,
        output,
        cache_create: 10,
        cache_read: 100,
        thinking: output / 2,
        cache_1h: 10,
        cache_5m: 0,
        source: Source::Main,
        transcript_path: "/t.jsonl".into(),
    }
}

#[test]
fn same_request_twice_yields_one_row() {
    let mut l = Ledger::open_in_memory().unwrap();
    let r = record("msg_A", 1_000, 50);

    assert_eq!(l.ingest(std::slice::from_ref(&r)).unwrap(), 1);
    assert_eq!(
        l.ingest(std::slice::from_ref(&r)).unwrap(),
        0,
        "second pass inserts none"
    );
    assert_eq!(l.request_count().unwrap(), 1);
}

#[test]
fn repeated_content_block_lines_collapse_to_one_row() {
    let mut l = Ledger::open_in_memory().unwrap();
    let r = record("msg_A", 1_000, 589);
    let batch = vec![r.clone(), r.clone(), r.clone()];

    assert_eq!(l.ingest(&batch).unwrap(), 1);
    let rows = l.rows(None, None).unwrap();
    assert_eq!(rows.len(), 1);
    assert_eq!(rows[0].output, 589, "not 1767");
}

#[test]
fn subset_columns_are_excluded_from_totals() {
    let mut l = Ledger::open_in_memory().unwrap();
    l.ingest(&[record("msg_A", 1_000, 50)]).unwrap();
    let rows = l.rows(None, None).unwrap();
    assert_eq!(rows[0].total(), 161);
}

#[test]
fn cursor_round_trips_and_updates() {
    let mut l = Ledger::open_in_memory().unwrap();
    assert_eq!(l.cursor("/t.jsonl").unwrap(), None);

    let c = Cursor {
        byte_offset: 4096,
        file_id: 77,
    };
    l.set_cursor("/t.jsonl", c, 1_000).unwrap();
    assert_eq!(l.cursor("/t.jsonl").unwrap(), Some(c));

    let c2 = Cursor {
        byte_offset: 8192,
        file_id: 77,
    };
    l.set_cursor("/t.jsonl", c2, 2_000).unwrap();
    assert_eq!(l.cursor("/t.jsonl").unwrap(), Some(c2));
    assert_eq!(l.cursor("/other.jsonl").unwrap(), None);
}

#[test]
fn cursors_keep_all_their_bits() {
    let mut l = Ledger::open_in_memory().unwrap();
    let c = Cursor {
        byte_offset: u64::MAX,
        file_id: 1 << 63,
    };
    l.set_cursor("/t.jsonl", c, 1_000).unwrap();
    assert_eq!(l.cursor("/t.jsonl").unwrap(), Some(c));
}

#[test]
fn summary_counts_only_the_requested_windows() {
    let mut l = Ledger::open_in_memory().unwrap();
    l.ingest(&[
        record("old", 1_000, 10),
        record("recent", 50_000, 20),
        record("newest", 90_000, 30),
    ])
    .unwrap();

    let s = l.summary(Some("s1"), 60_000, 40_000).unwrap();
    assert_eq!(s.today_tokens, 141); // "newest" only: 111 + 30
    assert_eq!(s.week_tokens, 272); // "recent" (131) + "newest" (141)
    assert_eq!(s.session_tokens, 393); // all three: 121 + 131 + 141
}

#[test]
fn summary_without_session_reports_zero_session_tokens() {
    let mut l = Ledger::open_in_memory().unwrap();
    l.ingest(&[record("a", 1_000, 10)]).unwrap();
    assert_eq!(l.summary(None, 0, 0).unwrap().session_tokens, 0);
}

#[test]
fn summary_of_nothing_is_zero() {
    let mut l = Ledger::open_in_memory().unwrap();
    assert_eq!(l.summary(Some("s1"), 0, 0).unwrap(), LedgerSummary::default());
}

#[test]
fn a_sum_that_overflows_is_an_error() {
    let mut l = Ledger::open_in_memory().unwrap();
    l.ingest(&[record("a", 1_000, i64::MAX), record("b", 1_000, 1)])
        .unwrap();
    assert!(l.summary(None, 0, 0).is_err());
}

/// How the status line keeps the history of the limits.
fn record_limits(
    l: &mut Ledger,
    five_hour: Option<RateLimit>,
    seven_day: Option<RateLimit>,
    now: i64,
) -> bool {
    let bits = |o: Option<f64>| o.map(|x| Double { bits: x.to_bits() });
    let last = l
        .connection()
        .query_row(
            "SELECT five_hour_pct, five_hour_resets_at, seven_day_pct, seven_day_resets_at
             FROM limits ORDER BY ts DESC, rowid DESC LIMIT 1",
            [],
            |row| {
                Ok(Limits {
                    five_hour_pct: bits(row.get(0)?),
                    five_hour_resets_at: row.get(1)?,
                    seven_day_pct: bits(row.get(2)?),
                    seven_day_resets_at: row.get(3)?,
                })
            },
        )
        .optional()
        .unwrap();
    let Some(new) = limits_to_record(five_hour, seven_day, last) else {
        return false;
    };
    let number = |o: Option<Double>| o.map(|x| f64::from_bits(x.bits));
    l.connection()
        .execute(
            "INSERT INTO limits
             (ts, five_hour_pct, five_hour_resets_at, seven_day_pct, seven_day_resets_at)
             VALUES (?1, ?2, ?3, ?4, ?5)",
            (
                now,
                number(new.five_hour_pct),
                new.five_hour_resets_at,
                number(new.seven_day_pct),
                new.seven_day_resets_at,
            ),
        )
        .unwrap();
    true
}

fn count_limits(l: &mut Ledger) -> i64 {
    l.connection()
        .query_row("SELECT count(*) FROM limits", [], |r| r.get(0))
        .unwrap()
}

#[test]
fn limits_are_recorded_only_when_they_change() {
    let mut l = Ledger::open_in_memory().unwrap();
    let five = |p: f64| {
        Some(RateLimit {
            used_percentage: Some(Double { bits: p.to_bits() }),
            resets_at: Some(1_788_616_252),
        })
    };

    assert!(record_limits(&mut l, five(12.5), None, 1_000));
    assert!(
        !record_limits(&mut l, five(12.5), None, 1_001),
        "unchanged observation must not add a row"
    );
    assert!(record_limits(&mut l, five(13.0), None, 1_002));

    assert_eq!(count_limits(&mut l), 2);
}

#[test]
fn absent_limits_are_not_recorded() {
    let mut l = Ledger::open_in_memory().unwrap();
    assert!(!record_limits(&mut l, None, None, 1_000));
    assert_eq!(count_limits(&mut l), 0);
}

#[test]
fn limits_differ_by_any_of_their_parts() {
    let limit = |p: Option<f64>, at: Option<i64>| {
        Some(RateLimit {
            used_percentage: p.map(|x| Double { bits: x.to_bits() }),
            resets_at: at,
        })
    };
    let seen = limits_to_record(limit(Some(1.5), Some(9)), limit(None, Some(8)), None).unwrap();
    let same = |five, seven| limits_to_record(five, seven, Some(seen)).is_none();
    assert!(same(limit(Some(1.5), Some(9)), limit(None, Some(8))));
    assert!(!same(limit(Some(1.25), Some(9)), limit(None, Some(8))));
    assert!(!same(limit(Some(1.5), Some(10)), limit(None, Some(8))));
    assert!(!same(limit(Some(1.5), Some(9)), limit(Some(0.0), Some(8))));
    assert!(!same(limit(Some(1.5), Some(9)), None));

    // Zero has two signs and is one number; what is no number equals nothing.
    let zero = limits_to_record(limit(Some(0.0), None), None, None);
    assert!(limits_to_record(limit(Some(-0.0), None), None, zero).is_none());
    let nan = limits_to_record(limit(Some(f64::NAN), None), None, None);
    assert!(limits_to_record(limit(Some(f64::NAN), None), None, nan).is_some());
}

#[test]
fn sessions_track_first_and_last_seen() {
    let mut l = Ledger::open_in_memory().unwrap();
    l.ingest(&[record("a", 5_000, 10), record("b", 1_000, 10)])
        .unwrap();

    let sessions = l.sessions(None).unwrap();
    assert_eq!(sessions.len(), 1);
    assert_eq!(sessions[0].first_seen, 1_000, "first_seen is the earliest");
    assert_eq!(sessions[0].last_seen, 5_000, "last_seen is the latest");
}

#[test]
fn sessions_are_listed_by_project_latest_first() {
    let mut l = Ledger::open_in_memory().unwrap();
    let mut a = record("a", 1_000, 10);
    a.session_id = Some("early".into());
    let mut b = record("b", 9_000, 20);
    b.session_id = Some("late".into());
    let mut c = record("c", 5_000, 30);
    c.session_id = Some("elsewhere".into());
    c.project_dir = Some("/q".into());
    let mut d = record("d", 6_000, 40);
    d.session_id = None;
    let mut e = record("e", 7_000, 50);
    e.session_id = Some("nowhere".into());
    e.project_dir = None;
    l.ingest(&[a, b, c, d, e]).unwrap();

    let all: Vec<String> = l
        .sessions(None)
        .unwrap()
        .into_iter()
        .map(|s| s.session_id)
        .collect();
    assert_eq!(all, ["late", "nowhere", "elsewhere", "early"]);

    let p = l.sessions(Some("/p")).unwrap();
    assert_eq!(p.len(), 2);
    assert_eq!(p[0].tokens, 131);
    assert_eq!(p[1].tokens, 121);

    let nowhere = l.sessions(None).unwrap().remove(1);
    assert_eq!(nowhere.project_dir, "unknown");
}

#[test]
fn the_first_known_directory_of_a_session_stays() {
    let mut l = Ledger::open_in_memory().unwrap();
    let mut a = record("a", 1_000, 10);
    a.project_dir = None;
    let b = record("b", 2_000, 10);
    let mut c = record("c", 3_000, 10);
    c.project_dir = Some("/elsewhere".into());
    l.ingest(&[a, b, c]).unwrap();
    assert_eq!(l.sessions(None).unwrap()[0].project_dir, "/p");
}

#[test]
fn duplicate_transcript_sources_are_reportable() {
    let mut l = Ledger::open_in_memory().unwrap();
    let mut a = record("a", 1_000, 10);
    a.transcript_path = "/one.jsonl".into();
    let mut b = record("b", 1_000, 10);
    b.transcript_path = "/two.jsonl".into();

    l.ingest(&[a]).unwrap();
    assert!(l.duplicate_sources().unwrap().is_empty());

    l.ingest(&[b]).unwrap();
    let dupes = l.duplicate_sources().unwrap();
    assert_eq!(
        dupes.len(),
        1,
        "same session across two transcripts shows up"
    );
    assert_eq!(dupes[0].1, 2);
    assert_eq!(dupes[0].0, "s1");
}

#[test]
fn db_path_prefers_explicit_override() {
    assert_eq!(
        default_db_path(Some("/tmp/explicit.db"), Some("/d"), Some("/home/user")),
        "/tmp/explicit.db"
    );
}

#[test]
fn the_database_is_below_the_data_or_the_home_directory() {
    let home = Some("/home/user");
    assert_eq!(default_db_path(None, Some("/d"), home), "/d/cc-ledger/ledger.db");
    assert_eq!(
        default_db_path(None, None, home),
        "/home/user/.local/share/cc-ledger/ledger.db"
    );
    assert_eq!(default_db_path(None, None, None), ".local/share/cc-ledger/ledger.db");

    // As paths are joined by the system.
    for dir in ["/d", "/d/", "", "d", "/"] {
        let joined = std::path::Path::new(dir).join("cc-ledger").join("ledger.db");
        assert_eq!(default_db_path(None, Some(dir), home), joined.to_str().unwrap());
        let joined = std::path::Path::new(dir)
            .join(".local/share")
            .join("cc-ledger")
            .join("ledger.db");
        assert_eq!(default_db_path(None, None, Some(dir)), joined.to_str().unwrap());
    }

    assert_eq!(db_place(Some(1), Some(2), Some(3)), DbPath::Explicit(1));
    assert_eq!(db_place(None, Some(2), Some(3)), DbPath::InDataHome(2));
    assert_eq!(db_place(None, None, Some(3)), DbPath::InHome(Some(3)));
    assert_eq!(db_place::<u8>(None, None, None), DbPath::InHome(None));
}

#[test]
fn rows_are_half_open_and_by_time() {
    let mut l = Ledger::open_in_memory().unwrap();
    let mut nameless = record("d", 2_500, 4);
    nameless.project_dir = None;
    l.ingest(&[
        record("c", 3_000, 3),
        record("a", 1_000, 1),
        record("b", 2_000, 2),
        nameless,
    ])
    .unwrap();

    let ts = |rows: Vec<cc_ledger::ledger::Row>| -> Vec<i64> {
        rows.into_iter().map(|r| r.ts).collect()
    };
    assert_eq!(ts(l.rows(None, None).unwrap()), [1_000, 2_000, 2_500, 3_000]);
    assert_eq!(ts(l.rows(Some(2_000), Some(3_000)).unwrap()), [2_000, 2_500]);
    assert_eq!(ts(l.rows(Some(3_000), None).unwrap()), [3_000]);
    assert_eq!(ts(l.rows(None, Some(1_000)).unwrap()), [0i64; 0]);
    assert_eq!(l.rows(None, None).unwrap()[2].project_dir, "unknown");
    assert_eq!(l.rows(None, None).unwrap()[2].model, "vendor-opus-5");
}

#[test]
fn the_first_record_of_a_request_is_kept() {
    let mut l = Ledger::open_in_memory().unwrap();
    l.ingest(&[record("a", 1_000, 10), record("a", 2_000, 99)])
        .unwrap();
    let rows = l.rows(None, None).unwrap();
    assert_eq!(rows.len(), 1);
    assert_eq!((rows[0].ts, rows[0].output), (1_000, 10));
    // The session has heard of both.
    assert_eq!(l.sessions(None).unwrap()[0].last_seen, 2_000);
}

#[test]
fn the_order_of_passes_does_not_matter() {
    let a = [record("x", 1_000, 10), record("y", 2_000, 20)];
    let b = [record("y", 2_000, 20), record("z", 3_000, 30)];
    let mut ab = Ledger::open_in_memory().unwrap();
    assert_eq!(ab.ingest(&a).unwrap() + ab.ingest(&b).unwrap(), 3);
    let mut ba = Ledger::open_in_memory().unwrap();
    assert_eq!(ba.ingest(&b).unwrap() + ba.ingest(&a).unwrap(), 3);
    assert_eq!(ab.rows(None, None).unwrap(), ba.rows(None, None).unwrap());
}

#[test]
fn a_batch_writes_its_records_and_its_cursor() {
    let mut l = Ledger::open_in_memory().unwrap();
    let cursor = Cursor {
        byte_offset: 123,
        file_id: 4,
    };
    let scan = Scan {
        records: vec![record("a", 1_000, 10), record("a", 1_000, 10)],
        cursor,
        malformed: 0,
        restarted: false,
        exhausted: true,
    };
    assert_eq!(l.ingest_batch(&scan, "/t.jsonl", 5_000).unwrap(), 1);
    assert_eq!(l.request_count().unwrap(), 1);
    assert_eq!(l.cursor("/t.jsonl").unwrap(), Some(cursor));
}

#[test]
fn a_batch_that_fails_leaves_nothing_behind() {
    let mut l = Ledger::open_in_memory().unwrap();
    l.connection().execute_batch("DROP TABLE cursors").unwrap();
    let scan = Scan {
        records: vec![record("a", 1_000, 10)],
        cursor: Cursor {
            byte_offset: 123,
            file_id: 4,
        },
        malformed: 0,
        restarted: false,
        exhausted: true,
    };
    assert!(l.ingest_batch(&scan, "/t.jsonl", 5_000).is_err());
    assert_eq!(l.request_count().unwrap(), 0);
    assert!(l.sessions(None).unwrap().is_empty());
}

#[test]
fn every_column_is_stored() {
    let mut l = Ledger::open_in_memory().unwrap();
    let mut r = record("a", 1_000, 44);
    r.source = Source::Subagent;
    r.cache_5m = 3;
    l.ingest(&[r]).unwrap();
    let stored: (i64, i64, i64, String, String) = l
        .connection()
        .query_row(
            "SELECT thinking, cache_1h, cache_5m, source, transcript_path FROM requests",
            [],
            |row| Ok((row.get(0)?, row.get(1)?, row.get(2)?, row.get(3)?, row.get(4)?)),
        )
        .unwrap();
    assert_eq!(
        stored,
        (22, 10, 3, "subagent".to_string(), "/t.jsonl".to_string())
    );
}

#[test]
fn an_existing_database_keeps_its_rows() {
    let mut l = Ledger::open_in_memory().unwrap();
    l.ingest(&[record("a", 1_000, 10)]).unwrap();
    let conn = std::mem::replace(
        l.connection(),
        rusqlite::Connection::open_in_memory().unwrap(),
    );
    let mut again = Ledger::from_connection(conn).unwrap();
    assert_eq!(again.request_count().unwrap(), 1);
}

#[test]
fn requests_never_come_to_more_than_their_lines() {
    let mut l = Ledger::open_in_memory().unwrap();
    let lines = [record("a", 1_000, 10), record("a", 1_000, 10), record("b", 2_000, 20)];
    let sum: i64 = lines.iter().map(|r| r.total()).sum();
    l.ingest(&lines).unwrap();
    let s = l.summary(Some("s1"), 2_000, 0).unwrap();
    assert_eq!(sum, 373);
    assert_eq!(s.week_tokens, 252);
    assert_eq!(s.today_tokens, 131, "today is part of the week");
}

#[test]
fn the_answer_is_what_the_database_said() {
    assert!(matches!(answer(Ok(7)), Ok(7)));
    let refused = answer::<i64>(Err(rusqlite::Error::QueryReturnedNoRows));
    assert!(matches!(
        refused,
        Err(LedgerError::Database(rusqlite::Error::QueryReturnedNoRows))
    ));
}

#[test]
fn a_connection_that_did_not_open_is_no_ledger() {
    let refused = Ledger::from_opened(Err(rusqlite::Error::InvalidQuery));
    assert!(matches!(
        refused,
        Err(LedgerError::Database(rusqlite::Error::InvalidQuery))
    ));
    let mut l = Ledger::from_opened(rusqlite::Connection::open_in_memory()).unwrap();
    assert_eq!(l.request_count().unwrap(), 0);
}

#[test]
fn a_batch_within_a_transaction_fails_and_leaves_it_open() {
    let mut l = Ledger::open_in_memory().unwrap();
    l.connection().execute_batch("BEGIN").unwrap();
    let cursor = Cursor { byte_offset: 5, file_id: 7 };
    l.set_cursor("/t.jsonl", cursor, 1_000).unwrap();

    let scan = Scan {
        records: vec![record("a", 1_000, 10)],
        cursor: Cursor { byte_offset: 9, file_id: 7 },
        malformed: 0,
        restarted: false,
        exhausted: true,
    };
    assert!(l.ingest_batch(&scan, "/t.jsonl", 2_000).is_err());
    assert!(!l.connection().is_autocommit());
    assert_eq!(l.request_count().unwrap(), 0);
    assert_eq!(l.cursor("/t.jsonl").unwrap(), Some(cursor));

    l.connection().execute_batch("ROLLBACK").unwrap();
    assert_eq!(l.cursor("/t.jsonl").unwrap(), None);
}

#[test]
fn a_batch_without_records_moves_the_cursor() {
    let mut l = Ledger::open_in_memory().unwrap();
    let cursor = Cursor { byte_offset: 9, file_id: 7 };
    let scan = Scan {
        records: Vec::new(),
        cursor,
        malformed: 0,
        restarted: false,
        exhausted: true,
    };
    assert_eq!(l.ingest_batch(&scan, "/t.jsonl", 1_000).unwrap(), 0);
    assert_eq!(l.cursor("/t.jsonl").unwrap(), Some(cursor));
    assert_eq!(l.request_count().unwrap(), 0);
}

#[test]
fn a_request_in_two_transcripts_is_reported() {
    let mut l = Ledger::open_in_memory().unwrap();
    let mut k = record("k", 1_000, 10);
    k.transcript_path = "/one.jsonl".into();
    assert_eq!(l.ingest(std::slice::from_ref(&k)).unwrap(), 1);
    assert!(l.duplicate_sources().unwrap().is_empty());

    // The copy counts for nothing, and is not passed over in silence. It may be
    // told of under another session: the request stays with the first.
    k.transcript_path = "/two.jsonl".into();
    k.session_id = Some("s2".into());
    assert_eq!(l.ingest(std::slice::from_ref(&k)).unwrap(), 0);
    assert_eq!(l.request_count().unwrap(), 1);
    assert_eq!(l.duplicate_sources().unwrap(), [("s1".to_string(), 2)]);

    // Seen again where it was seen: no third transcript.
    assert_eq!(l.ingest(&[k]).unwrap(), 0);
    assert_eq!(l.duplicate_sources().unwrap(), [("s1".to_string(), 2)]);
}

#[test]
fn a_batch_notes_where_its_requests_were_seen() {
    let mut l = Ledger::open_in_memory().unwrap();
    for path in ["/one.jsonl", "/two.jsonl", "/three.jsonl"] {
        let mut k = record("k", 1_000, 10);
        k.transcript_path = path.into();
        let scan = Scan {
            records: vec![k],
            cursor: Cursor { byte_offset: 9, file_id: 7 },
            malformed: 0,
            restarted: false,
            exhausted: true,
        };
        l.ingest_batch(&scan, path, 1_000).unwrap();
    }
    assert_eq!(l.duplicate_sources().unwrap(), [("s1".to_string(), 3)]);
}

#[test]
fn a_ledger_has_its_tables_and_its_settings() {
    let mut l = Ledger::open_in_memory().unwrap();
    let conn = l.connection();
    for table in ["requests", "sightings", "cursors", "sessions", "limits"] {
        let n: i64 = conn
            .query_row(
                "SELECT count(*) FROM sqlite_master WHERE type = 'table' AND name = ?1",
                [table],
                |r| r.get(0),
            )
            .unwrap();
        assert_eq!(n, 1, "{table}");
    }
    let wait: i64 = conn.query_row("PRAGMA busy_timeout", [], |r| r.get(0)).unwrap();
    assert_eq!(wait, 250);
    let sync: i64 = conn.query_row("PRAGMA synchronous", [], |r| r.get(0)).unwrap();
    assert_eq!(sync, 1, "NORMAL");
}

#[test]
fn two_changes_of_the_limits_in_one_second_are_both_kept() {
    let mut l = Ledger::open_in_memory().unwrap();
    let five = |p: f64| {
        Some(RateLimit {
            used_percentage: Some(Double { bits: p.to_bits() }),
            resets_at: Some(1_788_616_252),
        })
    };
    assert!(record_limits(&mut l, five(12.5), None, 1_000));
    assert!(record_limits(&mut l, five(13.0), None, 1_000));
    assert!(!record_limits(&mut l, five(13.0), None, 1_000));
    assert!(record_limits(&mut l, five(12.5), None, 1_000));
    assert_eq!(count_limits(&mut l), 3);
}

#[test]
fn an_ingest_within_a_transaction_fails_and_leaves_it_open() {
    let mut l = Ledger::open_in_memory().unwrap();
    l.connection().execute_batch("BEGIN").unwrap();
    assert!(l.ingest(&[record("a", 1_000, 10)]).is_err());
    assert!(!l.connection().is_autocommit());
    assert_eq!(l.ingest(&[]).unwrap(), 0);
    assert_eq!(l.request_count().unwrap(), 0);
}

#[test]
fn adjacent_ranges_are_one() {
    let mut l = Ledger::open_in_memory().unwrap();
    let records: Vec<UsageRecord> = (0..20)
        .map(|i| record(&format!("k{i}"), (i * 7) % 10, i))
        .collect();
    l.ingest(&records).unwrap();
    let whole = l.rows(Some(0), Some(10)).unwrap();
    for b in 0..=10 {
        let mut both = l.rows(Some(0), Some(b)).unwrap();
        both.extend(l.rows(Some(b), Some(10)).unwrap());
        assert_eq!(both.len(), 20);
        for row in &whole {
            assert!(both.contains(row));
        }
        assert!(l.rows(Some(b), Some(b)).unwrap().is_empty());
    }
}

#[test]
fn sessions_are_those_of_the_records() {
    let mut l = Ledger::open_in_memory().unwrap();
    let of = |key: &str, session: Option<&str>, ts: i64| {
        let mut r = record(key, ts, 1);
        r.session_id = session.map(String::from);
        r
    };
    l.ingest(&[of("a", Some("x"), 50), of("b", None, 1), of("c", Some("y"), 30)])
        .unwrap();
    l.ingest(&[of("a", Some("x"), 20), of("d", Some("x"), 40)]).unwrap();
    let spans: Vec<(String, i64, i64)> = l
        .sessions(None)
        .unwrap()
        .into_iter()
        .map(|s| (s.session_id, s.first_seen, s.last_seen))
        .collect();
    assert_eq!(
        spans,
        [("x".to_string(), 20, 50), ("y".to_string(), 30, 30)]
    );
}
