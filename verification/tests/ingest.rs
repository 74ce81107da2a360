//! From transcripts into the ledger.

use cc_ledger::bucket::{day_start, week_start, Zone};
use cc_ledger::double::Double;
use cc_ledger::ingest::{
    backfill_one, commit_scan, cursor_if_known, ingest_step, report, scanning_line, stored_cursor, Backfill,
    BATCH_LINES, BUDGET_MILLIS,
};
use cc_ledger::ledger::{Ledger, LedgerError};
use cc_ledger::payload::{
    ContextWindow, Cost, Effort, Model, RateLimit, RateLimits, StatusPayload, Workspace,
};
use cc_ledger::render::{render, RenderInput};
use cc_ledger::statusline::head_branch;
use cc_ledger::transcript::{resume, Cursor, RawLine, RawMessage, RawUsage, Scan, Tail};

const PATH: &str = "/home/user/session.jsonl";

/// A transcript whose lines are `id session ts output`.
fn parse(line: &[u8]) -> Option<RawLine> {
    let text = std::str::from_utf8(line).ok()?;
    let mut words = text.split(' ');
    let id = words.next()?.to_string();
    let session = words.next()?.to_string();
    let ts = words.next()?.to_string();
    let output: i64 = words.next()?.parse().ok()?;
    Some(RawLine {
        kind: Some("assistant".to_string()),
        session_id: Some(session),
        cwd: Some("/home/user/projects/oracle".to_string()),
        timestamp: Some(ts),
        is_sidechain: Some(false),
        message: Some(RawMessage {
            id: Some(id),
            model: Some("vendor-opus-5".to_string()),
            usage: Some(RawUsage {
                input_tokens: Some(1),
                output_tokens: Some(output),
                cache_creation_input_tokens: None,
                cache_read_input_tokens: None,
                output_tokens_details: None,
                cache_creation: None,
            }),
        }),
    })
}

fn line(id: usize, output: i64) -> String {
    format!("msg_{id} s1 2026-09-05T10:00:00Z {output}\n")
}

fn tail(ledger: &mut Ledger, bytes: &str) -> (Tail, Option<cc_ledger::transcript::Cursor>) {
    let cursor = stored_cursor(ledger, PATH);
    let (start, _) = resume(cursor, 1, bytes.len() as u64);
    let tail = Tail {
        path: PATH.to_string(),
        file_id: 1,
        len: bytes.len() as u64,
        bytes: bytes.as_bytes()[start as usize..].to_vec(),
    };
    (tail, cursor)
}

/// One batch of the status line.
fn step(ledger: &mut Ledger, bytes: &str) -> bool {
    let (tail, cursor) = tail(ledger, bytes);
    ingest_step(ledger, &tail, cursor, 1_000, parse).unwrap()
}

fn offset(ledger: &mut Ledger) -> u64 {
    stored_cursor(ledger, PATH).map(|c| c.byte_offset).unwrap_or(0)
}

#[test]
fn a_backlog_larger_than_the_budget_still_drains() {
    let lines = 4 * BATCH_LINES + 17;
    let backlog: String = (0..lines).map(|i| line(i, 589)).collect();
    let mut ledger = Ledger::open_in_memory().unwrap();

    let mut last = 0;
    let mut passes = 0;
    loop {
        let exhausted = step(&mut ledger, &backlog);
        passes += 1;
        let now = offset(&mut ledger);
        assert!(now >= last, "cursor went backwards");
        assert!(now > last || now == backlog.len() as u64, "no progress");
        last = now;
        if exhausted {
            break;
        }
    }
    assert_eq!(passes, 5);
    assert_eq!(last, backlog.len() as u64);
    assert_eq!(ledger.request_count().unwrap(), lines as i64);
}

#[test]
fn a_drained_transcript_costs_nothing_to_re_render() {
    let backlog: String = (0..10).map(|i| line(i, 1)).collect();
    let mut ledger = Ledger::open_in_memory().unwrap();
    assert!(step(&mut ledger, &backlog));
    let rows = ledger.request_count().unwrap();
    let before: i64 = ledger
        .connection()
        .query_row("SELECT total_changes()", [], |r| r.get(0))
        .unwrap();

    assert!(step(&mut ledger, &backlog));

    let after: i64 = ledger
        .connection()
        .query_row("SELECT total_changes()", [], |r| r.get(0))
        .unwrap();
    assert_eq!(before, after, "nothing is written");
    assert_eq!(ledger.request_count().unwrap(), rows);
    assert_eq!(offset(&mut ledger), backlog.len() as u64);
}

#[test]
fn appended_records_are_picked_up_on_the_next_render() {
    let mut file: String = (0..20).map(|i| line(i, 1)).collect();
    let mut ledger = Ledger::open_in_memory().unwrap();
    assert!(step(&mut ledger, &file));
    let before = ledger.request_count().unwrap();
    for i in 0..10 {
        file.push_str(&line(1_000_000 + i, 1));
    }
    assert!(step(&mut ledger, &file));
    assert_eq!(ledger.request_count().unwrap(), before + 10);
}

/// Three requests on five lines.
fn oracle() -> String {
    "msg_ORACLE_A s1 2026-09-05T10:00:00Z 100\n\
     msg_ORACLE_A s1 2026-09-05T10:00:01Z 100\n\
     msg_ORACLE_A s1 2026-09-05T10:00:02Z 100\n\
     msg_ORACLE_B s1 2026-09-05T10:05:00Z 50\n\
     msg_ORACLE_C s1 2026-09-05T10:10:00Z 7\n"
        .to_string()
}

#[test]
fn renders_the_line_and_ingests_the_transcript() {
    let d = |x: f64| Some(Double { bits: x.to_bits() });
    let payload = StatusPayload {
        session_id: Some("s1".into()),
        transcript_path: Some(PATH.into()),
        cwd: Some("/work/leaf".into()),
        model: Some(Model {
            id: Some("vendor-opus-5".into()),
            display_name: Some("Opus 5".into()),
        }),
        workspace: Some(Workspace {
            current_dir: Some("/work/leaf".into()),
            project_dir: Some("/work/leaf".into()),
        }),
        cost: Some(Cost {
            total_cost_usd: None,
            total_lines_added: Some(12),
            total_lines_removed: Some(3),
        }),
        context_window: Some(ContextWindow {
            context_window_size: Some(200_000),
            used_percentage: d(42.0),
        }),
        effort: Some(Effort {
            level: Some("high".into()),
        }),
        rate_limits: Some(RateLimits {
            five_hour: Some(RateLimit {
                used_percentage: d(20.0),
                resets_at: Some(1788616252),
            }),
            seven_day: Some(RateLimit {
                used_percentage: d(55.0),
                resets_at: Some(1789616252),
            }),
        }),
    };
    let mut ledger = Ledger::open_in_memory().unwrap();
    let now = 1_788_616_592;
    let zone = Zone::Utc;
    let summary = ledger
        .summary(
            payload.session_id.as_deref(),
            day_start(now, &zone),
            week_start(now, &zone),
        )
        .unwrap();
    let branch = head_branch("ref: refs/heads/main\n");
    let line = render(&RenderInput {
        payload: &payload,
        summary: &summary,
        branch: branch.as_deref(),
        home: "/home/user",
        short: false,
    });
    for part in ["leaf", "main", "Opus 5", "(high)", "42%", "+12", "-3", "20%", "55%"] {
        assert!(line.contains(part), "{part}: {line}");
    }
    assert_eq!(line.lines().count(), 1, "exactly one line: {line}");

    assert!(step(&mut ledger, &oracle()));
    assert_eq!(ledger.request_count().unwrap(), 3);
    let rows = ledger.rows(None, None).unwrap();
    let output: i64 = rows.iter().map(|r| r.output).sum();
    assert_eq!(output, 157, "deduped output, not the 357 line-wise sum");
    let total: i64 = rows.iter().map(|r| r.total()).sum();
    let sessions = ledger.sessions(None).unwrap();
    assert_eq!(sessions.len(), 1);
    assert_eq!(sessions[0].tokens, total);

    let after = ledger
        .summary(Some("s1"), day_start(now, &zone), week_start(now, &zone))
        .unwrap();
    assert_eq!(after.session_tokens, total);
    assert_eq!(after.today_tokens, total);
    assert_eq!(after.week_tokens, total);
}

#[test]
fn second_invocation_does_not_double_count() {
    let mut ledger = Ledger::open_in_memory().unwrap();
    for _ in 0..3 {
        assert!(step(&mut ledger, &oracle()));
    }
    assert_eq!(ledger.request_count().unwrap(), 3);
    let output: i64 = ledger
        .rows(None, None)
        .unwrap()
        .iter()
        .map(|r| r.output)
        .sum();
    assert_eq!(output, 157);
}

#[test]
fn resumes_from_the_stored_cursor() {
    let mut ledger = Ledger::open_in_memory().unwrap();
    step(&mut ledger, &oracle());
    assert_eq!(ledger.request_count().unwrap(), 3);
    let grown = oracle() + "msg_ORACLE_D s1 2026-09-05T11:00:00.000Z 3\n";
    step(&mut ledger, &grown);
    assert_eq!(ledger.request_count().unwrap(), 4);
    let output: i64 = ledger
        .rows(None, None)
        .unwrap()
        .iter()
        .map(|r| r.output)
        .sum();
    assert_eq!(output, 160, "157 + the one appended request");
}

#[test]
fn a_backfill_comes_to_what_the_batches_come_to() {
    let lines = BATCH_LINES + 3;
    let mut file: String = (0..lines).map(|i| line(i / 2, 5)).collect();
    file.push_str("no such line\n");

    let mut batched = Ledger::open_in_memory().unwrap();
    while !step(&mut batched, &file) {}

    let mut whole = Ledger::open_in_memory().unwrap();
    let mut counts = Backfill::default();
    let (t, cursor) = tail(&mut whole, &file);
    backfill_one(&mut whole, &t, cursor, 1_000, parse, &mut counts).unwrap().unwrap();
    assert_eq!(
        counts,
        Backfill {
            inserted: (lines / 2 + 1) as u128,
            malformed: 1,
            failed: 0
        }
    );
    assert_eq!(
        whole.rows(None, None).unwrap(),
        batched.rows(None, None).unwrap()
    );
    assert_eq!(offset(&mut whole), offset(&mut batched));

    // Again from the start: nothing new.
    backfill_one(&mut whole, &t, None, 1_000, parse, &mut counts).unwrap().unwrap();
    assert_eq!(counts.inserted, (lines / 2 + 1) as u128);
    assert_eq!(counts.malformed, 2);
}

#[test]
fn a_failed_ingest_is_counted() {
    let mut ledger = Ledger::open_in_memory().unwrap();
    let (t, cursor) = tail(&mut ledger, &oracle());
    ledger.connection().execute_batch("DROP TABLE requests").unwrap();
    let mut counts = Backfill::default();
    assert!(backfill_one(&mut ledger, &t, cursor, 1_000, parse, &mut counts).is_err());
    assert_eq!((counts.inserted, counts.failed), (0, 1));
    assert_eq!(stored_cursor(&mut ledger, PATH), None);
    counts.unreadable();
    assert_eq!(counts.failed, 2);
}

#[test]
fn a_pass_that_found_nothing_writes_nothing() {
    let mut ledger = Ledger::open_in_memory().unwrap();
    let (t, _) = tail(&mut ledger, "");
    let scan: Scan = cc_ledger::transcript::scan(&t, None, parse);
    assert!(scan.records.is_empty());
    // Without a cursor the first one is written, even at the start.
    commit_scan(&mut ledger, &scan, None, PATH, 1).unwrap();
    let cursor = stored_cursor(&mut ledger, PATH);
    assert_eq!(cursor, Some(scan.cursor));
    ledger.connection().execute_batch("DROP TABLE cursors").unwrap();
    // From there on nothing is, so the missing table does not matter.
    assert_eq!(commit_scan(&mut ledger, &scan, cursor, PATH, 2).unwrap(), 0);
}

#[test]
fn the_report_of_a_backfill() {
    assert_eq!(
        scanning_line(19, "/home/user/.assistant/projects"),
        "Scanning 19 transcripts under /home/user/.assistant/projects"
    );
    let counts = Backfill {
        inserted: 3,
        malformed: 0,
        failed: 0,
    };
    assert_eq!(
        report(&counts, 12, &Vec::new()),
        ["Added 3 new requests (12 total in ledger)."]
    );
    let counts = Backfill {
        inserted: 0,
        malformed: 2,
        failed: 1,
    };
    assert_eq!(
        report(&counts, 12, &vec![("s1".to_string(), 2)]),
        [
            "Added 0 new requests (12 total in ledger).",
            "Skipped 2 unparseable lines.",
            "1 transcripts could not be read.",
            "note: session s1 appears in 2 transcripts",
        ]
    );
}

#[test]
fn the_budget_is_small() {
    assert_eq!(BUDGET_MILLIS, 150);
    assert_eq!(BATCH_LINES, 500);
}

#[test]
fn an_unknown_cursor_is_none() {
    let c = Cursor { byte_offset: 5, file_id: 7 };
    assert_eq!(cursor_if_known(Ok(Some(c))), Some(c));
    assert_eq!(cursor_if_known(Ok(None)), None);
    let refused = LedgerError::Database(rusqlite::Error::InvalidQuery);
    assert_eq!(cursor_if_known(Err(refused)), None);
}

#[test]
fn a_backfill_says_whether_the_cursor_moved() {
    let mut ledger = Ledger::open_in_memory().unwrap();
    let file = line(1, 5);
    let (t, cursor) = tail(&mut ledger, &file);
    let mut counts = Backfill::default();
    assert!(backfill_one(&mut ledger, &t, cursor, 1_000, parse, &mut counts)
        .unwrap()
        .is_ok());
    assert_eq!(offset(&mut ledger), file.len() as u64);

    // Where the cursor cannot be written the requests are in all the same.
    let mut ledger = Ledger::open_in_memory().unwrap();
    ledger.connection().execute_batch("DROP TABLE cursors").unwrap();
    let refused = backfill_one(&mut ledger, &t, None, 1_000, parse, &mut counts).unwrap();
    assert!(matches!(refused, Err(LedgerError::Database(_))));
    assert_eq!(ledger.request_count().unwrap(), 1);
    assert_eq!(counts, Backfill { inserted: 2, malformed: 0, failed: 0 });
}

#[test]
fn a_second_backfill_adds_nothing() {
    let mut ledger = Ledger::open_in_memory().unwrap();
    let files = [
        ("/a.jsonl", format!("{}bad\n{}", line(1, 5), line(2, 6))),
        ("/b.jsonl", format!("{}half a li", line(2, 6))),
        ("/c.jsonl", String::new()),
    ];
    let mut run = |ledger: &mut Ledger, now: i64| {
        let mut counts = Backfill::default();
        let mut offsets = Vec::new();
        for (path, data) in &files {
            let cursor = stored_cursor(ledger, path);
            let (start, _) = resume(cursor, 1, data.len() as u64);
            let t = Tail {
                path: path.to_string(),
                file_id: 1,
                len: data.len() as u64,
                bytes: data.as_bytes()[start as usize..].to_vec(),
            };
            let moved = backfill_one(ledger, &t, cursor, now, parse, &mut counts).unwrap();
            assert!(moved.is_ok());
            offsets.push(stored_cursor(ledger, path));
        }
        let total = ledger.request_count().unwrap();
        let spread = ledger.duplicate_sources().unwrap();
        (counts, report(&counts, total, &spread), offsets, ledger.rows(None, None).unwrap())
    };
    let first = run(&mut ledger, 1_000);
    let second = run(&mut ledger, 2_000);
    assert_eq!(first.0, Backfill { inserted: 2, malformed: 1, failed: 0 });
    assert_eq!(second.0, Backfill::default());
    assert_eq!(second.1[0], "Added 0 new requests (2 total in ledger).");
    assert_eq!(second.1[1], "note: session s1 appears in 2 transcripts");
    assert_eq!(first.2, second.2);
    assert_eq!(first.3, second.3);
}
