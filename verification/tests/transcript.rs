//! Reading transcripts.

use cc_ledger::transcript::{
    parse_ts, resume, scan, scan_batch, visit, Cursor, EntryKind, RawCacheCreation, RawLine,
    RawMessage, RawOutputDetails, RawUsage, Scan, Source, Tail, UsageRecord, Visit,
};
use serde_json::Value;

fn text(v: &Value, key: &str) -> Result<Option<String>, ()> {
    match v.get(key) {
        None | Some(Value::Null) => Ok(None),
        Some(Value::String(s)) => Ok(Some(s.clone())),
        Some(_) => Err(()),
    }
}

fn number(v: &Value, key: &str) -> Result<Option<i64>, ()> {
    match v.get(key) {
        None | Some(Value::Null) => Ok(None),
        Some(n) => n.as_i64().map(Some).ok_or(()),
    }
}

fn object<'a>(v: &'a Value, key: &str) -> Result<Option<&'a Value>, ()> {
    match v.get(key) {
        None | Some(Value::Null) => Ok(None),
        Some(o) if o.is_object() => Ok(Some(o)),
        Some(_) => Err(()),
    }
}

fn usage(v: &Value) -> Result<RawUsage, ()> {
    Ok(RawUsage {
        input_tokens: number(v, "input_tokens")?,
        output_tokens: number(v, "output_tokens")?,
        cache_creation_input_tokens: number(v, "cache_creation_input_tokens")?,
        cache_read_input_tokens: number(v, "cache_read_input_tokens")?,
        output_tokens_details: match object(v, "output_tokens_details")? {
            Some(d) => Some(RawOutputDetails {
                thinking_tokens: number(d, "thinking_tokens")?,
            }),
            None => None,
        },
        cache_creation: match object(v, "cache_creation")? {
            Some(c) => Some(RawCacheCreation {
                ephemeral_1h_input_tokens: number(c, "ephemeral_1h_input_tokens")?,
                ephemeral_5m_input_tokens: number(c, "ephemeral_5m_input_tokens")?,
            }),
            None => None,
        },
    })
}

fn line(v: &Value) -> Result<RawLine, ()> {
    if !v.is_object() {
        return Err(());
    }
    Ok(RawLine {
        kind: text(v, "type")?,
        session_id: text(v, "sessionId")?,
        cwd: text(v, "cwd")?,
        timestamp: text(v, "timestamp")?,
        is_sidechain: match v.get("isSidechain") {
            None | Some(Value::Null) => None,
            Some(b) => Some(b.as_bool().ok_or(())?),
        },
        message: match object(v, "message")? {
            Some(m) => Some(RawMessage {
                id: text(m, "id")?,
                model: text(m, "model")?,
                usage: match object(m, "usage")? {
                    Some(u) => Some(usage(u)?),
                    None => None,
                },
            }),
            None => None,
        },
    })
}

fn parse(bytes: &[u8]) -> Option<RawLine> {
    let v: Value = serde_json::from_slice(bytes).ok()?;
    line(&v).ok()
}

/// A file in memory, handed out from where the cursor stands.
fn tail(bytes: &str, file_id: u64, cursor: Option<Cursor>) -> Tail {
    let (start, _) = resume(cursor, file_id, bytes.len() as u64);
    Tail {
        path: "/t.jsonl".to_string(),
        file_id,
        len: bytes.len() as u64,
        bytes: bytes.as_bytes()[start as usize..].to_vec(),
    }
}

fn scan_file(bytes: &str, file_id: u64, cursor: Option<Cursor>) -> Scan {
    scan(&tail(bytes, file_id, cursor), cursor, parse)
}

const FIXTURE: &str = r#"{"type":"user","sessionId":"s","timestamp":"2026-09-05T13:56:30.000Z","message":{"role":"user"}}
{"type":"assistant","sessionId":"s","cwd":"/home/user/projects/example","timestamp":"2026-09-05T13:56:32.140Z","isSidechain":false,"apiBlockIndex":0,"message":{"id":"msg_FIXTURE0","model":"vendor-opus-5","usage":{"input_tokens":2,"cache_creation_input_tokens":40446,"cache_read_input_tokens":34552,"output_tokens":589,"output_tokens_details":{"thinking_tokens":226},"cache_creation":{"ephemeral_1h_input_tokens":40446,"ephemeral_5m_input_tokens":0}}}}
{"type":"assistant","sessionId":"s","cwd":"/home/user/projects/example","timestamp":"2026-09-05T13:56:33.140Z","isSidechain":false,"apiBlockIndex":1,"message":{"id":"msg_FIXTURE0","model":"vendor-opus-5","usage":{"input_tokens":2,"cache_creation_input_tokens":40446,"cache_read_input_tokens":34552,"output_tokens":589,"output_tokens_details":{"thinking_tokens":226},"cache_creation":{"ephemeral_1h_input_tokens":40446,"ephemeral_5m_input_tokens":0}}}}
{"type":"assistant","sessionId":"s","cwd":"/home/user/projects/example","timestamp":"2026-09-05T13:56:34.140Z","isSidechain":false,"apiBlockIndex":2,"message":{"id":"msg_FIXTURE0","model":"vendor-opus-5","usage":{"input_tokens":2,"cache_creation_input_tokens":40446,"cache_read_input_tokens":34552,"output_tokens":589,"output_tokens_details":{"thinking_tokens":226},"cache_creation":{"ephemeral_1h_input_tokens":40446,"ephemeral_5m_input_tokens":0}}}}
{"type":"assistant","sessionId":"s","timestamp":"2026-09-05T13:57:00.000Z","message":{"id":"msg_FIXTURE3","model":"vendor-opus-5","usage":{"input_tokens":3,"output_tokens":10}}}
this line is no JSON at all

{"type":"assistant","sessionId":"s","timestamp":"2026-09-05T13:58:00.000Z","message":{"id":"msg_FIXTURE4","model":"vendor-opus-5","usage":{"input_tokens":4,"output_tokens":20}}}
{"type":"assistant","sessionId":"s","timestamp":"2026-09-05T13:59:00.000Z","message":{"id":"msg_FIXTURESYNTH","model":"<synthetic>","usage":{"input_tokens":0,"output_tokens":0}}}
{"type":"assistant","sessionId":"s","timestamp":"2026-09-05T14:00:00.000Z","isSidechain":true,"message":{"id":"msg_FIXTURESIDE","model":"vendor-sonnet-5","usage":{"input_tokens":11,"cache_creation_input_tokens":22,"cache_read_input_tokens":33,"output_tokens":44,"output_tokens_details":{"thinking_tokens":7},"cache_creation":{"ephemeral_1h_input_tokens":20,"ephemeral_5m_input_tokens":2}}}}
{"type":"assistant","timestamp":"2026-09-05T14:01:00.000Z","message":{"id":"msg_FIXTUREMINIMAL","model":"vendor-opus-5","usage":{"input_tokens":5,"output_tokens":6}}}
"#;

fn scan_all() -> Scan {
    scan_file(FIXTURE, 7, None)
}

#[test]
fn collapses_repeated_content_block_lines_to_one_request() {
    let scan = scan_all();
    let keys: Vec<&str> = scan.records.iter().map(|r| r.dedupe_key.as_str()).collect();

    let repeats: Vec<&UsageRecord> = scan
        .records
        .iter()
        .filter(|r| r.dedupe_key == "msg_FIXTURE0")
        .collect();
    assert_eq!(repeats.len(), 3, "fixture should carry the 3-line group");
    assert_eq!(repeats[0].output, repeats[1].output);
    assert_eq!(repeats[0].output, repeats[2].output);
    assert_eq!(repeats[0].input, repeats[2].input);
    assert_eq!(repeats[0].cache_read, repeats[2].cache_read);

    assert!(keys.contains(&"msg_FIXTURE3"));
    assert!(keys.contains(&"msg_FIXTURE4"));
}

#[test]
fn skips_synthetic_non_api_records() {
    let scan = scan_all();
    assert!(
        !scan
            .records
            .iter()
            .any(|r| r.dedupe_key == "msg_FIXTURESYNTH"),
        "<synthetic> records are local placeholders, not billed requests"
    );
}

#[test]
fn counts_malformed_lines_without_aborting() {
    let scan = scan_all();
    assert_eq!(scan.malformed, 1, "fixture contains one unparseable line");
    assert!(
        scan.records.len() >= 5,
        "records after the malformed line are still read"
    );
}

#[test]
fn ignores_non_assistant_records() {
    let scan = scan_all();
    assert!(scan.records.iter().all(|r| r.model != "user"));
    assert_eq!(scan.records.iter().filter(|r| r.input == 0).count(), 0);
}

#[test]
fn tags_sidechain_records_as_subagent() {
    let scan = scan_all();
    let side = scan
        .records
        .iter()
        .find(|r| r.dedupe_key == "msg_FIXTURESIDE")
        .expect("sidechain record present");
    assert_eq!(side.source, Source::Subagent);
    assert_eq!(side.model, "vendor-sonnet-5");
    assert_eq!(side.thinking, 7);
    assert_eq!(side.cache_1h, 20);
    assert_eq!(side.cache_5m, 2);
    assert_eq!(side.source.as_str(), "subagent");
}

#[test]
fn tolerates_records_missing_optional_fields() {
    let scan = scan_all();
    let minimal = scan
        .records
        .iter()
        .find(|r| r.dedupe_key == "msg_FIXTUREMINIMAL")
        .expect("minimal record present");
    assert_eq!(minimal.session_id, None);
    assert_eq!(minimal.project_dir, None);
    assert_eq!(minimal.thinking, 0);
    assert_eq!(minimal.source, Source::Main);
    assert_eq!(minimal.total(), 11);
}

#[test]
fn subset_columns_are_never_folded_into_total() {
    let scan = scan_all();
    let side = scan
        .records
        .iter()
        .find(|r| r.dedupe_key == "msg_FIXTURESIDE")
        .unwrap();
    assert_eq!(side.total(), 11 + 22 + 33 + 44);
}

const APPENDED: &str = "{\"type\":\"assistant\",\"timestamp\":\"2026-09-05T15:00:00.000Z\",\"message\":{\"id\":\"msg_APPENDED\",\"model\":\"vendor-opus-5\",\"usage\":{\"input_tokens\":1,\"output_tokens\":2,\"cache_creation_input_tokens\":0,\"cache_read_input_tokens\":0}}}\n";

#[test]
fn resumes_from_cursor_after_append() {
    let first = scan_file(FIXTURE, 7, None);
    let seen = first.records.len();
    assert!(seen > 0);
    assert!(!first.restarted);

    // Nothing new: a second pass returns no records and the same cursor.
    let second = scan_file(FIXTURE, 7, Some(first.cursor));
    assert!(second.records.is_empty());
    assert_eq!(second.cursor, first.cursor);
    assert!(!second.restarted);

    // Append one request; only that one comes back.
    let grown = format!("{FIXTURE}{APPENDED}");
    let third = scan_file(&grown, 7, Some(second.cursor));
    assert_eq!(third.records.len(), 1);
    assert_eq!(third.records[0].dedupe_key, "msg_APPENDED");
    assert!(third.cursor.byte_offset > second.cursor.byte_offset);
}

#[test]
fn leaves_trailing_partial_line_for_the_next_pass() {
    let whole = "{\"type\":\"assistant\",\"timestamp\":\"2026-09-05T15:00:00.000Z\",\"message\":{\"id\":\"msg_A\",\"model\":\"vendor-opus-5\",\"usage\":{\"input_tokens\":1,\"output_tokens\":2}}}\n";
    let partial = "{\"type\":\"assistant\",\"timestamp\":\"2026-09";
    let before = format!("{whole}{partial}");

    let first = scan_file(&before, 7, None);
    assert_eq!(first.records.len(), 1);
    assert_eq!(first.malformed, 0, "a partial line is not malformed");
    assert_eq!(first.cursor.byte_offset, whole.len() as u64);

    // Complete that line; the next pass picks it up whole.
    let rest = "-05T15:00:01.000Z\",\"message\":{\"id\":\"msg_B\",\"model\":\"vendor-opus-5\",\"usage\":{\"input_tokens\":3,\"output_tokens\":4}}}\n";
    let after = format!("{before}{rest}");
    let second = scan_file(&after, 7, Some(first.cursor));
    assert_eq!(second.records.len(), 1);
    assert_eq!(second.records[0].dedupe_key, "msg_B");
}

#[test]
fn restarts_when_file_is_truncated() {
    let first = scan_file(FIXTURE, 7, None);
    assert!(first.cursor.byte_offset > 0);

    let shorter = "{\"type\":\"assistant\",\"timestamp\":\"2026-09-05T15:00:00.000Z\",\"message\":{\"id\":\"msg_AFTER_TRUNCATE\",\"model\":\"vendor-opus-5\",\"usage\":{\"input_tokens\":1,\"output_tokens\":2}}}\n";
    let stale = Cursor {
        byte_offset: first.cursor.byte_offset,
        file_id: first.cursor.file_id,
    };
    let second = scan_file(shorter, 7, Some(stale));
    assert!(second.restarted, "shrunk file must restart from zero");
    assert_eq!(second.records.len(), 1);
    assert_eq!(second.records[0].dedupe_key, "msg_AFTER_TRUNCATE");
}

#[test]
fn restarts_when_file_identity_changes() {
    let first = scan_file(FIXTURE, 7, None);
    let bogus = Cursor {
        byte_offset: 0,
        file_id: first.cursor.file_id.wrapping_add(1),
    };
    let second = scan_file(FIXTURE, 7, Some(bogus));
    assert!(second.restarted, "different inode must restart");
    assert_eq!(second.records.len(), first.records.len());
}

#[test]
fn discover_finds_nested_transcripts() {
    assert_eq!(visit("proj", EntryKind::Directory), Visit::Descend);
    assert_eq!(visit("subagents", EntryKind::Directory), Visit::Descend);
    assert_eq!(visit("a.jsonl", EntryKind::File), Visit::Take);
    assert_eq!(visit("b.jsonl", EntryKind::File), Visit::Take);
    assert_eq!(visit("ignore.txt", EntryKind::File), Visit::Skip);
    // A name that is nothing but the extension has none.
    assert_eq!(visit(".jsonl", EntryKind::File), Visit::Skip);
    assert_eq!(visit("a.jsonl", EntryKind::Other), Visit::Skip);
}

#[test]
fn timestamps_parse_as_utc_seconds() {
    assert_eq!(parse_ts(Some("2026-09-05T13:56:32.140Z")), Some(1788616592));
    assert_eq!(parse_ts(Some("not a timestamp")), None);
    assert_eq!(parse_ts(None), None);
}

#[test]
fn timestamps_with_an_offset_are_instants() {
    assert_eq!(parse_ts(Some("2026-09-05T15:56:32+02:00")), Some(1788616592));
}

#[test]
fn batches_read_what_one_pass_reads() {
    let whole = scan_all();
    let mut cursor = None;
    let mut records = Vec::new();
    let mut malformed = 0;
    let mut passes = 0;
    loop {
        let pass = scan_batch(&tail(FIXTURE, 7, cursor), cursor, Some(2), parse);
        records.extend(pass.records);
        malformed += pass.malformed;
        passes += 1;
        if let Some(before) = cursor {
            let before: Cursor = before;
            assert!(pass.cursor.byte_offset > before.byte_offset || pass.exhausted);
        }
        cursor = Some(pass.cursor);
        if pass.exhausted {
            break;
        }
    }
    assert!(passes > 3);
    assert_eq!(records, whole.records);
    assert_eq!(malformed, whole.malformed);
    assert_eq!(cursor, Some(whole.cursor));
    assert_eq!(whole.cursor.byte_offset, FIXTURE.len() as u64);
}

#[test]
fn a_batch_of_no_lines_reads_nothing() {
    let pass = scan_batch(&tail(FIXTURE, 7, None), None, Some(0), parse);
    assert!(pass.records.is_empty());
    assert!(!pass.exhausted);
    assert_eq!(pass.cursor.byte_offset, 0);
}

#[test]
fn a_record_needs_an_id_a_model_a_time_and_usage() {
    let full = r#"{"type":"assistant","timestamp":"2026-09-05T15:00:00Z","message":{"id":"m","model":"x","usage":{}}}"#;
    let record = parse(full.as_bytes()).unwrap().into_record("/p").unwrap();
    assert_eq!(record.dedupe_key, "m");
    assert_eq!(record.transcript_path, "/p");
    assert_eq!(record.total(), 0);

    for lacking in [
        r#"{"timestamp":"2026-09-05T15:00:00Z","message":{"id":"m","model":"x","usage":{}}}"#,
        r#"{"type":"assistant","message":{"id":"m","model":"x","usage":{}}}"#,
        r#"{"type":"assistant","timestamp":"soon","message":{"id":"m","model":"x","usage":{}}}"#,
        r#"{"type":"assistant","timestamp":"2026-09-05T15:00:00Z"}"#,
        r#"{"type":"assistant","timestamp":"2026-09-05T15:00:00Z","message":{"model":"x","usage":{}}}"#,
        r#"{"type":"assistant","timestamp":"2026-09-05T15:00:00Z","message":{"id":"m","usage":{}}}"#,
        r#"{"type":"assistant","timestamp":"2026-09-05T15:00:00Z","message":{"id":"m","model":"x"}}"#,
        r#"{"type":"user","timestamp":"2026-09-05T15:00:00Z","message":{"id":"m","model":"x","usage":{}}}"#,
    ] {
        assert!(parse(lacking.as_bytes()).unwrap().into_record("/p").is_none());
    }
}

#[test]
fn a_record_takes_the_time_it_is_given() {
    let raw = parse(
        r#"{"type":"assistant","message":{"id":"m","model":"x","usage":{"input_tokens":1}}}"#
            .as_bytes(),
    )
    .unwrap();
    let record = raw.clone().record_at("/p", Some(42)).unwrap();
    assert_eq!(record.ts, 42);
    assert_eq!(record.input, 1);
    assert!(raw.record_at("/p", None).is_none());
}

#[test]
fn where_reading_begins() {
    let c = Cursor {
        byte_offset: 10,
        file_id: 7,
    };
    assert_eq!(resume(None, 7, 100), (0, false));
    assert_eq!(resume(Some(c), 7, 100), (10, false));
    assert_eq!(resume(Some(c), 7, 10), (10, false));
    assert_eq!(resume(Some(c), 7, 9), (0, true));
    assert_eq!(resume(Some(c), 8, 100), (0, true));
}

#[test]
fn a_batch_that_ends_with_the_file_has_exhausted_it() {
    let one = scan_batch(&tail("\n", 7, None), None, Some(1), parse);
    assert!(one.exhausted);
    assert_eq!(one.cursor.byte_offset, 1);

    // More remains, even if it is not a whole line yet.
    let more = scan_batch(&tail("\n{", 7, None), None, Some(1), parse);
    assert!(!more.exhausted);
    let cursor = Some(more.cursor);
    let rest = scan_batch(&tail("\n{", 7, cursor), cursor, Some(1), parse);
    assert!(rest.exhausted);
    assert_eq!(rest.cursor, more.cursor);

    let none = scan_batch(&tail("", 7, None), None, Some(0), parse);
    assert!(none.exhausted);
}
