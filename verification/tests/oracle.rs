//! The ledger against the assistant's own accounting.
//!
//! The assistant writes its own cumulative token accounting into `cost-state`
//! records. If content-block lines collapse as they should, the sums over the
//! requests equal those totals.

use cc_ledger::ledger::Ledger;
use cc_ledger::transcript::{
    scan, RawCacheCreation, RawLine, RawMessage, RawOutputDetails, RawUsage, Scan, Tail,
};
use serde_json::Value;

#[derive(Debug, Default)]
struct ModelUsage {
    input: i64,
    output: i64,
    thinking: i64,
    cache_read: i64,
    cache_create: i64,
}

const FIXTURE: &str = r#"{"type":"user","sessionId":"11111111-2222-4333-8444-555555555555","timestamp":"2026-09-05T09:59:00.000Z","cwd":"/home/user/projects/oracle"}
{"type":"assistant","sessionId":"11111111-2222-4333-8444-555555555555","timestamp":"2026-09-05T10:00:00.000Z","cwd":"/home/user/projects/oracle","apiBlockIndex":0,"message":{"id":"msg_ORACLE_A","model":"vendor-opus-5","usage":{"input_tokens":10,"output_tokens":100,"cache_creation_input_tokens":200,"cache_read_input_tokens":5000,"output_tokens_details":{"thinking_tokens":40},"cache_creation":{"ephemeral_1h_input_tokens":200,"ephemeral_5m_input_tokens":0}}}}
{"type":"assistant","sessionId":"11111111-2222-4333-8444-555555555555","timestamp":"2026-09-05T10:00:01.000Z","cwd":"/home/user/projects/oracle","apiBlockIndex":1,"message":{"id":"msg_ORACLE_A","model":"vendor-opus-5","usage":{"input_tokens":10,"output_tokens":100,"cache_creation_input_tokens":200,"cache_read_input_tokens":5000,"output_tokens_details":{"thinking_tokens":40},"cache_creation":{"ephemeral_1h_input_tokens":200,"ephemeral_5m_input_tokens":0}}}}
{"type":"assistant","sessionId":"11111111-2222-4333-8444-555555555555","timestamp":"2026-09-05T10:00:02.000Z","cwd":"/home/user/projects/oracle","apiBlockIndex":2,"message":{"id":"msg_ORACLE_A","model":"vendor-opus-5","usage":{"input_tokens":10,"output_tokens":100,"cache_creation_input_tokens":200,"cache_read_input_tokens":5000,"output_tokens_details":{"thinking_tokens":40},"cache_creation":{"ephemeral_1h_input_tokens":200,"ephemeral_5m_input_tokens":0}}}}
{"type":"assistant","sessionId":"11111111-2222-4333-8444-555555555555","timestamp":"2026-09-05T10:05:00.000Z","cwd":"/home/user/projects/oracle","apiBlockIndex":0,"message":{"id":"msg_ORACLE_B","model":"vendor-opus-5","usage":{"input_tokens":4,"output_tokens":50,"cache_creation_input_tokens":100,"cache_read_input_tokens":2000,"output_tokens_details":{"thinking_tokens":20},"cache_creation":{"ephemeral_1h_input_tokens":100,"ephemeral_5m_input_tokens":0}}}}
{"type":"assistant","sessionId":"11111111-2222-4333-8444-555555555555","timestamp":"2026-09-05T10:10:00.000Z","cwd":"/home/user/projects/oracle","apiBlockIndex":0,"message":{"id":"msg_ORACLE_C","model":"vendor-fable-5","usage":{"input_tokens":2,"output_tokens":7,"cache_creation_input_tokens":0,"cache_read_input_tokens":500}}}
{"type":"cost-state","sessionId":"11111111-2222-4333-8444-555555555555","modelUsage":{"vendor-opus-5[1m]":{"inputTokens":14,"outputTokens":150,"thinkingTokens":60,"cacheReadInputTokens":7000,"cacheCreationInputTokens":300},"vendor-fable-5[1m]":{"inputTokens":2,"outputTokens":7,"thinkingTokens":0,"cacheReadInputTokens":500,"cacheCreationInputTokens":0}}}
"#;

fn string(v: &Value) -> Option<String> {
    v.as_str().map(|s| s.to_string())
}

fn parse(bytes: &[u8]) -> Option<RawLine> {
    let v: Value = serde_json::from_slice(bytes).ok()?;
    let usage = |u: &Value| RawUsage {
        input_tokens: u["input_tokens"].as_i64(),
        output_tokens: u["output_tokens"].as_i64(),
        cache_creation_input_tokens: u["cache_creation_input_tokens"].as_i64(),
        cache_read_input_tokens: u["cache_read_input_tokens"].as_i64(),
        output_tokens_details: u.get("output_tokens_details").map(|d| RawOutputDetails {
            thinking_tokens: d["thinking_tokens"].as_i64(),
        }),
        cache_creation: u.get("cache_creation").map(|c| RawCacheCreation {
            ephemeral_1h_input_tokens: c["ephemeral_1h_input_tokens"].as_i64(),
            ephemeral_5m_input_tokens: c["ephemeral_5m_input_tokens"].as_i64(),
        }),
    };
    Some(RawLine {
        kind: string(&v["type"]),
        session_id: string(&v["sessionId"]),
        cwd: string(&v["cwd"]),
        timestamp: string(&v["timestamp"]),
        is_sidechain: v["isSidechain"].as_bool(),
        message: v.get("message").map(|m| RawMessage {
            id: string(&m["id"]),
            model: string(&m["model"]),
            usage: m.get("usage").map(usage),
        }),
    })
}

fn scan_fixture() -> Scan {
    let tail = Tail {
        path: "/fixtures/oracle.jsonl".to_string(),
        file_id: 1,
        len: FIXTURE.len() as u64,
        bytes: FIXTURE.as_bytes().to_vec(),
    };
    scan(&tail, None, parse)
}

/// The assistant's own totals, summed across every model it lists.
fn assistant_totals() -> ModelUsage {
    let mut totals = ModelUsage::default();
    for line in FIXTURE.lines() {
        let v: Value = serde_json::from_str(line).unwrap();
        if v["type"] != "cost-state" {
            continue;
        }
        totals = ModelUsage::default();
        for usage in v["modelUsage"].as_object().unwrap().values() {
            totals.input += usage["inputTokens"].as_i64().unwrap();
            totals.output += usage["outputTokens"].as_i64().unwrap();
            totals.thinking += usage["thinkingTokens"].as_i64().unwrap();
            totals.cache_read += usage["cacheReadInputTokens"].as_i64().unwrap();
            totals.cache_create += usage["cacheCreationInputTokens"].as_i64().unwrap();
        }
    }
    totals
}

#[test]
fn deduped_ledger_totals_match_the_assistants_own_accounting() {
    let own = assistant_totals();

    let scan = scan_fixture();
    let mut ledger = Ledger::open_in_memory().expect("ledger opens");
    ledger.ingest(&scan.records).expect("ingest succeeds");

    let rows = ledger.rows(None, None).expect("rows readable");

    let input: i64 = rows.iter().map(|r| r.input).sum();
    let output: i64 = rows.iter().map(|r| r.output).sum();
    let cache_read: i64 = rows.iter().map(|r| r.cache_read).sum();
    let cache_create: i64 = rows.iter().map(|r| r.cache_create).sum();

    assert_eq!(input, own.input, "input tokens");
    assert_eq!(output, own.output, "output tokens");
    assert_eq!(cache_read, own.cache_read, "cache read tokens");
    assert_eq!(cache_create, own.cache_create, "cache creation tokens");
}

#[test]
fn summing_raw_lines_would_overcount() {
    let own = assistant_totals();

    let scan = scan_fixture();
    let naive: i64 = scan.records.iter().map(|r| r.output).sum();

    assert_eq!(scan.records.len(), 5, "five usage-bearing lines");
    assert_eq!(naive, 357, "line-wise sum");
    assert!(
        naive > own.output,
        "naive summing must overcount: {naive} vs {}",
        own.output
    );
}

#[test]
fn dedupe_collapses_the_three_block_lines_into_one_request() {
    let scan = scan_fixture();
    let mut ledger = Ledger::open_in_memory().expect("ledger opens");

    let inserted = ledger.ingest(&scan.records).expect("ingest succeeds");
    assert_eq!(inserted, 3, "three distinct requests from five lines");
    assert_eq!(ledger.request_count().unwrap(), 3);
}

#[test]
fn reingesting_is_idempotent() {
    let own = assistant_totals();

    let scan = scan_fixture();
    let mut ledger = Ledger::open_in_memory().expect("ledger opens");

    ledger.ingest(&scan.records).expect("first ingest");
    ledger.ingest(&scan.records).expect("second ingest");
    ledger.ingest(&scan.records).expect("third ingest");

    let rows = ledger.rows(None, None).expect("rows readable");
    let output: i64 = rows.iter().map(|r| r.output).sum();

    assert_eq!(ledger.request_count().unwrap(), 3);
    assert_eq!(output, own.output, "totals unchanged after re-ingest");
}

#[test]
fn subset_columns_stay_out_of_the_reconciled_totals() {
    let own = assistant_totals();
    assert_eq!(own.thinking, 60, "fixture records thinking tokens");

    let scan = scan_fixture();
    let mut ledger = Ledger::open_in_memory().expect("ledger opens");
    ledger.ingest(&scan.records).expect("ingest succeeds");

    let rows = ledger.rows(None, None).expect("rows readable");
    let grand: i64 = rows.iter().map(|r| r.total()).sum();

    assert_eq!(
        grand,
        own.input + own.output + own.cache_read + own.cache_create,
        "total counts each token exactly once"
    );
    assert_eq!(grand, 16 + 157 + 7500 + 300);
}
