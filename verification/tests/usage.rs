//! The reports.

use cc_ledger::bucket::Zone;
use cc_ledger::ledger::{Row, SessionRow};
use cc_ledger::usage::{
    breakdown, breakdown_of, by_model, by_project, csv_escape, export_csv, export_json, group_rows, group_width,
    header, json_items, row_line, sessions, summary, thousands, total_of, GroupBy, Period, Range, Totals,
};

fn row(ts: i64, model: &str, project: &str, n: i64) -> Row {
    Row {
        ts,
        model: model.into(),
        project_dir: project.into(),
        input: n,
        output: 2 * n,
        cache_create: 4 * n,
        cache_read: 8 * n,
    }
}

/// 2026-09-05T13:56:32Z, a Saturday.
const TS: i64 = 1_788_616_592;
const DAY: i64 = 86_400;

fn rows() -> Vec<Row> {
    vec![
        row(TS, "vendor-opus-5", "/home/user/a", 1),
        row(TS + 60, "vendor-fable-5", "/home/user/b", 10),
        row(TS + DAY, "vendor-opus-5", "/srv/c", 100),
        row(TS + 2 * DAY, "vendor-opus-5", "/home/user/a", 1000),
    ]
}

#[test]
fn thousands_groups_digits() {
    assert_eq!(thousands(0), "0");
    assert_eq!(thousands(999), "999");
    assert_eq!(thousands(1_000), "1 000");
    assert_eq!(thousands(47_312_579), "47 312 579");
    assert_eq!(thousands(-1_234), "-1 234");
}

#[test]
fn grouping_keeps_the_digits() {
    for n in [0, 7, -7, 12, 123, -123_456, 1_234_567, i64::MAX as i128, i64::MIN as i128] {
        assert_eq!(thousands(n).replace(' ', ""), n.to_string());
    }
}

#[test]
fn csv_escapes_separators_and_quotes() {
    assert_eq!(csv_escape("plain"), "plain");
    assert_eq!(csv_escape("a,b"), "\"a,b\"");
    assert_eq!(csv_escape("say \"hi\""), "\"say \"\"hi\"\"\"");
}

#[test]
fn csv_fields_read_back() {
    for text in ["", "plain", ",", "\"", "\"\"", "a,\"b\",c", "\"x", "x\""] {
        let field = csv_escape(text);
        let value = if field.starts_with('"') {
            field[1..field.len() - 1].replace("\"\"", "\"")
        } else {
            field.clone()
        };
        assert_eq!(value, text);
    }
}

#[test]
fn totals_exclude_nothing_and_double_count_nothing() {
    let row = Row {
        ts: 0,
        model: "m".into(),
        project_dir: "/p".into(),
        input: 1,
        output: 2,
        cache_create: 4,
        cache_read: 8,
    };
    let mut t = Totals::default();
    t.add(&row);
    t.add(&row);
    assert_eq!(t.requests, 2);
    assert_eq!(t.total(), 30);
}

#[test]
fn range_rejects_bad_dates() {
    let bad = Range {
        since: Some("not-a-date".into()),
        until: None,
    };
    assert!(bad.resolve(&Zone::Local).is_err());

    let good = Range {
        since: Some("2026-09-05".into()),
        until: None,
    };
    let (since, until) = good.resolve(&Zone::Local).unwrap();
    assert!(since.is_some());
    assert!(until.is_none());
}

#[test]
fn a_bad_date_is_named() {
    let bad = Range {
        since: Some("2026-09-05".into()),
        until: Some("soon".into()),
    };
    assert_eq!(
        bad.resolve(&Zone::Utc).unwrap_err().message(),
        "--until is not a YYYY-MM-DD date: soon"
    );
    let both = Range {
        since: Some("then".into()),
        until: Some("soon".into()),
    };
    assert_eq!(
        both.resolve(&Zone::Utc).unwrap_err().message(),
        "--since is not a YYYY-MM-DD date: then"
    );
    let range = Range {
        since: Some("2026-09-05".into()),
        until: Some("2026-09-06".into()),
    };
    assert_eq!(
        range.resolve(&Zone::Utc).unwrap(),
        (Some(1_788_566_400), Some(1_788_652_800))
    );
}

#[test]
fn groups_add_up_to_the_total() {
    let rows = rows();
    let total = total_of(&rows);
    assert_eq!(total.requests, 4);
    assert_eq!(total.total(), 15 * 1111);
    for groups in [by_model(&rows), by_project(&rows)] {
        let mut sum = Totals::default();
        for g in &groups {
            sum.join(&g.totals);
        }
        assert_eq!(sum, total);
    }
}

#[test]
fn groups_are_sorted_and_complete() {
    let rows = rows();
    let names: Vec<String> = by_model(&rows).into_iter().map(|g| g.label).collect();
    assert_eq!(names, ["vendor-fable-5", "vendor-opus-5"]);
    let projects = by_project(&rows);
    let names: Vec<&str> = projects.iter().map(|g| g.label.as_str()).collect();
    assert_eq!(names, ["/home/user/a", "/home/user/b", "/srv/c"]);
    assert_eq!(projects[0].totals.requests, 2);
    assert_eq!(projects[0].totals.input, 1001);
}

#[test]
fn groups_sort_as_strings_do() {
    let keys = ["b", "a", "", "ab", "é", "z", "a", "\u{10000}", "\u{ffff}"];
    let rows: Vec<Row> = keys.iter().map(|k| row(0, k, "p", 1)).collect();
    let got: Vec<String> = by_model(&rows).into_iter().map(|g| g.label).collect();
    let mut want: Vec<String> = keys.iter().map(|k| k.to_string()).collect();
    want.sort();
    want.dedup();
    assert_eq!(got, want);
}

#[test]
fn grouping_by_two_keys_sorts_by_both() {
    let rows: Vec<Row> = (0..4).map(|n| row(n, "m", "p", 1)).collect();
    let text = |v: [&str; 4]| -> Vec<String> { v.iter().map(|s| s.to_string()).collect() };
    let groups = group_rows(&rows, &text(["2", "1", "2", "1"]), &text(["x", "y", "a", "y"]));
    let keys: Vec<(&str, &str, i128)> = groups
        .iter()
        .map(|g| (g.label.as_str(), g.name.as_str(), g.totals.requests))
        .collect();
    assert_eq!(keys, [("1", "y", 2), ("2", "a", 1), ("2", "x", 1)]);
    assert_eq!(group_width(&groups), 1);
}

#[test]
fn lines_have_their_columns() {
    assert_eq!(
        header("model", 6),
        "model  requests        input       output  cache-create    cache-read          total"
    );
    let t = total_of(&rows());
    assert_eq!(
        row_line("TOTAL", &t, 6),
        "TOTAL         4        1 111        2 222         4 444         8 888         16 665"
    );
    assert_eq!(
        row_line("é", &t, 2),
        format!("{:<2} {:>8} {:>12} {:>12} {:>13} {:>13} {:>14}", "é", "4", "1 111", "2 222", "4 444", "8 888", "16 665")
    );
}

#[test]
fn the_summary_of_some_rows() {
    let lines = summary(&rows(), &Zone::Utc, "/home/user");
    let line = |name: &str, width: usize, n: [&str; 6]| {
        format!(
            "{:<width$} {:>8} {:>12} {:>12} {:>13} {:>13} {:>14}",
            name, n[0], n[1], n[2], n[3], n[4], n[5]
        )
    };
    let head = ["requests", "input", "output", "cache-create", "cache-read", "total"];
    assert_eq!(
        lines,
        [
            "2026-09-05 .. 2026-09-07   4 requests".to_string(),
            String::new(),
            line("model", 14, head),
            line("vendor-fable-5", 14, ["1", "10", "20", "40", "80", "150"]),
            line("vendor-opus-5", 14, ["3", "1 101", "2 202", "4 404", "8 808", "16 515"]),
            String::new(),
            line("project", 7, head),
            line("~/a", 7, ["2", "1 001", "2 002", "4 004", "8 008", "15 015"]),
            line("~/b", 7, ["1", "10", "20", "40", "80", "150"]),
            line("/srv/c", 7, ["1", "100", "200", "400", "800", "1 500"]),
            String::new(),
            line("TOTAL", 7, ["4", "1 111", "2 222", "4 444", "8 888", "16 665"]),
        ]
    );
}

#[test]
fn the_summary_of_nothing() {
    assert_eq!(
        summary(&Vec::new(), &Zone::Utc, ""),
        ["No requests in range. Run `cc-usage backfill` if the ledger is new."]
    );
    assert_eq!(
        breakdown(&Vec::new(), None, Period::Day, &Zone::Utc, ""),
        ["No requests in range."]
    );
}

#[test]
fn breakdowns_by_period() {
    let rows = rows();
    let first = |lines: Vec<String>| -> Vec<String> {
        lines
            .iter()
            .map(|l| l.split("  ").next().unwrap().trim_end().to_string())
            .collect()
    };
    let days = first(breakdown(&rows, None, Period::Day, &Zone::Utc, ""));
    assert_eq!(
        days,
        ["", "2026-09-05", "2026-09-06", "2026-09-07", "", "TOTAL"]
    );
    let weeks = first(breakdown(&rows, None, Period::Week, &Zone::Utc, ""));
    assert_eq!(weeks, ["", "2026-08-31", "2026-09-07", "", "TOTAL"]);
    let months = first(breakdown(&rows, None, Period::Month, &Zone::Utc, ""));
    assert_eq!(months, ["", "2026-09", "", "TOTAL"]);
}

#[test]
fn breakdowns_by_project_within_a_period() {
    let lines = breakdown(
        &rows(),
        Some(GroupBy::Project),
        Period::Day,
        &Zone::Utc,
        "/home/user",
    );
    let width = 10 + 2 + "/srv/c".len();
    let line = |name: &str, n: [&str; 6]| {
        format!(
            "{:<width$} {:>8} {:>12} {:>12} {:>13} {:>13} {:>14}",
            name, n[0], n[1], n[2], n[3], n[4], n[5]
        )
    };
    assert_eq!(
        lines,
        [
            line("", ["requests", "input", "output", "cache-create", "cache-read", "total"]),
            line("2026-09-05  ~/a", ["1", "1", "2", "4", "8", "15"]),
            line("2026-09-05  ~/b", ["1", "10", "20", "40", "80", "150"]),
            line("2026-09-06  /srv/c", ["1", "100", "200", "400", "800", "1 500"]),
            line("2026-09-07  ~/a", ["1", "1 000", "2 000", "4 000", "8 000", "15 000"]),
            String::new(),
            line("TOTAL", ["4", "1 111", "2 222", "4 444", "8 888", "16 665"]),
        ]
    );
    let by_model = breakdown(&rows(), Some(GroupBy::Model), Period::Month, &Zone::Utc, "");
    assert!(by_model[1].starts_with("2026-09  vendor-fable-5 "));
    assert!(by_model[2].starts_with("2026-09  vendor-opus-5 "));
}

#[test]
fn a_breakdown_takes_the_labels_it_is_given() {
    let rows = rows();
    let labels: Vec<String> = ["b", "a", "b", "a"].iter().map(|s| s.to_string()).collect();
    let lines = breakdown_of(&rows, &labels, None, "");
    assert_eq!(lines.len(), 5);
    assert!(lines[1].starts_with("a          "));
    assert!(lines[1].ends_with(" 15 150"));
    assert!(lines[2].ends_with(" 1 515"));
}

#[test]
fn sessions_are_listed() {
    assert_eq!(
        sessions(&Vec::new(), &Zone::Utc, ""),
        ["No sessions recorded."]
    );
    let lines = sessions(
        &vec![SessionRow {
            session_id: "11111111-2222-4333-8444-555555555555".into(),
            project_dir: "/home/user/x".into(),
            first_seen: 0,
            last_seen: TS,
            tokens: 1_234_567,
        }],
        &Zone::Utc,
        "/home/user",
    );
    assert_eq!(
        lines,
        [
            format!("{:<38} {:>12} {:>12}  project", "session", "tokens", "last seen"),
            format!(
                "{:<38} {:>12} {:>12}  {}",
                "11111111-2222-4333-8444-555555555555", "1 234 567", "2026-09-05", "~/x"
            ),
        ]
    );
}

#[test]
fn rows_are_exported() {
    let mut odd = row(TS, "m,1", "/p \"q\"", -1);
    odd.cache_read = i64::MAX;
    odd.input = i64::MAX;
    let lines = export_csv(&vec![row(0, "m", "/p", 1), odd]);
    assert_eq!(
        lines,
        [
            "timestamp,model,project_dir,input,output,cache_create,cache_read,total".to_string(),
            "1970-01-01T00:00:00+00:00,m,/p,1,2,4,8,15".to_string(),
            "2026-09-05T13:56:32+00:00,\"m,1\",\"/p \"\"q\"\"\",9223372036854775807,-2,-4,9223372036854775807,18446744073709551608".to_string(),
        ]
    );
}

#[test]
fn periods_are_labelled() {
    assert_eq!(Period::Day.label(TS, &Zone::Utc), "2026-09-05");
    assert_eq!(Period::Week.label(TS, &Zone::Utc), "2026-08-31");
    assert_eq!(Period::Month.label(TS, &Zone::Utc), "2026-09");
}

#[test]
fn rows_are_exported_as_json() {
    assert_eq!(export_json(&Vec::new()), "[]");
    let rows = vec![row(0, "m", "/p \"q\"", 1)];
    assert_eq!(
        export_json(&rows),
        "[
  {
    \"cache_create\": 4,
    \"cache_read\": 8,
    \"input\": 1,
    \"model\": \"m\",
    \"output\": 2,
    \"project_dir\": \"/p \\\"q\\\"\",
    \"timestamp\": \"1970-01-01T00:00:00+00:00\",
    \"total\": 15
  }
]"
    );
    let items = json_items(&rows);
    assert_eq!(items.len(), 1);
    assert_eq!(items[0].texts[2], ("project_dir".to_string(), "/p \"q\"".to_string()));
    assert_eq!(items[0].numbers[4], ("total".to_string(), 15));
}
