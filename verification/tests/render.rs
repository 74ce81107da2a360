//! The payload and the status line.

use cc_ledger::double::Double;
use cc_ledger::ledger::LedgerSummary;
use cc_ledger::payload::{
    ContextWindow, Cost, Effort, Model, RateLimit, RateLimits, StatusPayload, Workspace,
};
use cc_ledger::render::{
    bar, context_segment, fallback, fish_shorten_path, format_cost, format_tokens, join,
    lines_changed, pct_colour, render, tilde, truncate_middle, RenderInput, CYAN, GREY, ORANGE, RED,
    RESET, YELLOW,
};
use serde_json::Value;

fn d(x: f64) -> Double {
    Double { bits: x.to_bits() }
}

/// Assertions read better against the text, not the escape codes.
fn strip_ansi(s: &str) -> String {
    let mut out = String::new();
    let mut chars = s.chars();
    while let Some(c) = chars.next() {
        if c == '\x1b' {
            for c in chars.by_ref() {
                if c == 'm' {
                    break;
                }
            }
        } else {
            out.push(c);
        }
    }
    out
}

fn text(v: &Value, key: &str) -> Option<String> {
    v[key].as_str().map(|s| s.to_string())
}

fn number(v: &Value, key: &str) -> Option<Double> {
    v[key].as_f64().map(d)
}

fn limit(v: &Value) -> RateLimit {
    RateLimit {
        used_percentage: number(v, "used_percentage"),
        resets_at: v["resets_at"].as_i64(),
    }
}

fn payload(json: &str) -> StatusPayload {
    let v: Value = serde_json::from_str(json).expect("fixture parses");
    StatusPayload {
        session_id: text(&v, "session_id"),
        transcript_path: text(&v, "transcript_path"),
        cwd: text(&v, "cwd"),
        model: v.get("model").map(|m| Model {
            id: text(m, "id"),
            display_name: text(m, "display_name"),
        }),
        workspace: v.get("workspace").map(|w| Workspace {
            current_dir: text(w, "current_dir"),
            project_dir: text(w, "project_dir"),
        }),
        cost: v.get("cost").map(|c| Cost {
            total_cost_usd: number(c, "total_cost_usd"),
            total_lines_added: c["total_lines_added"].as_u64(),
            total_lines_removed: c["total_lines_removed"].as_u64(),
        }),
        context_window: v.get("context_window").map(|c| ContextWindow {
            context_window_size: c["context_window_size"].as_u64(),
            used_percentage: number(c, "used_percentage"),
        }),
        effort: v.get("effort").map(|e| Effort {
            level: text(e, "level"),
        }),
        rate_limits: v.get("rate_limits").map(|r| RateLimits {
            five_hour: r.get("five_hour").map(limit),
            seven_day: r.get("seven_day").map(limit),
        }),
    }
}

const FULL: &str = r#"{
    "session_id": "aaaaaaaa-bbbb-4ccc-8ddd-eeeeeeeeeeee",
    "transcript_path": "/home/user/.assistant/projects/example/session.jsonl",
    "cwd": "/home/user/projects/example",
    "model": { "id": "vendor-opus-5", "display_name": "Opus 5" },
    "workspace": {
        "current_dir": "/home/user/projects/example",
        "project_dir": "/home/user/projects/example"
    },
    "version": "2.1.270",
    "cost": { "total_cost_usd": 45.2, "total_lines_added": 188, "total_lines_removed": 10 },
    "context_window": { "context_window_size": 200000, "used_percentage": 37.5 },
    "effort": { "level": "high" },
    "rate_limits": {
        "five_hour": { "used_percentage": 12.5, "resets_at": 1788616252 },
        "seven_day": { "used_percentage": 44.0, "resets_at": 1789616252 }
    }
}"#;

const MINIMAL: &str = r#"{"cwd":"/tmp"}"#;

fn summary() -> LedgerSummary {
    LedgerSummary {
        session_tokens: 12_345,
        today_tokens: 250_000,
        week_tokens: 1_200_000,
    }
}

fn input<'a>(
    p: &'a StatusPayload,
    s: &'a LedgerSummary,
    branch: Option<&'a str>,
    short: bool,
) -> RenderInput<'a> {
    RenderInput {
        payload: p,
        summary: s,
        branch,
        home: "/home/user",
        short,
    }
}

// --- the payload ---------------------------------------------------------------

#[test]
fn parses_full_payload() {
    let p = payload(FULL);
    assert_eq!(p.display_dir(), Some("/home/user/projects/example"));
    assert_eq!(p.model_name(), Some("Opus 5"));
    assert_eq!(p.effort_level(), Some("high"));
    assert_eq!(p.context_percent(), Some(d(37.5)));
    assert_eq!(p.five_hour().and_then(|r| r.used_percentage), Some(d(12.5)));
    assert_eq!(p.seven_day().and_then(|r| r.resets_at), Some(1789616252));
    assert!(p.transcript_path.is_some());
}

#[test]
fn parses_minimal_payload_without_panicking() {
    let p = payload(MINIMAL);
    assert_eq!(p.display_dir(), Some("/tmp"));
    assert_eq!(p.model_name(), None);
    assert_eq!(p.effort_level(), None);
    assert_eq!(p.context_percent(), None);
    assert_eq!(p.five_hour(), None);
    assert_eq!(p.seven_day(), None);
}

#[test]
fn empty_object_is_valid() {
    let p = payload("{}");
    assert!(p.display_dir().is_none());
    assert!(p.five_hour().is_none());
}

#[test]
fn unknown_fields_are_ignored() {
    let p = payload(
        r#"{"cwd":"/x","brand_new_key":{"nested":[1,2,3]},"model":{"id":"m","extra":true}}"#,
    );
    assert_eq!(p.display_dir(), Some("/x"));
    assert_eq!(p.model_name(), Some("m"));
}

#[test]
fn missing_rate_limits_degrades_to_none() {
    let p = payload(r#"{"rate_limits":{}}"#);
    assert_eq!(p.five_hour(), None);
    assert_eq!(p.seven_day(), None);

    let p = payload(r#"{"rate_limits":{"five_hour":{}}}"#);
    assert_eq!(p.five_hour().unwrap().used_percentage, None);
}

#[test]
fn the_project_is_the_workspaces_or_what_is_displayed() {
    let p = payload(r#"{"cwd":"/a","workspace":{"current_dir":"/b","project_dir":"/c"}}"#);
    assert_eq!(p.display_dir(), Some("/b"));
    assert_eq!(p.project_dir(), Some("/c"));
    let p = payload(r#"{"cwd":"/a","workspace":{}}"#);
    assert_eq!(p.display_dir(), Some("/a"));
    assert_eq!(p.project_dir(), Some("/a"));
    assert_eq!(payload("{}").project_dir(), None);
}

// --- the line ------------------------------------------------------------------

#[test]
fn renders_every_segment_from_a_full_payload() {
    let p = payload(FULL);
    let s = summary();
    let line = render(&input(&p, &s, Some("main"), false));
    let text = strip_ansi(&line);

    assert!(text.contains("~/p/example"), "shortened path: {text}");
    assert!(text.contains("main"), "branch: {text}");
    assert!(text.contains("(+188 -10)"), "lines changed: {text}");
    assert!(text.contains("Opus 5"), "model: {text}");
    assert!(text.contains("(high)"), "effort: {text}");
    assert!(text.contains("38%"), "context percent: {text}");
    assert!(text.contains("12k session"), "session tokens: {text}");
    assert!(text.contains("250k"), "today tokens: {text}");
    assert!(text.contains("1.2M"), "week tokens: {text}");
    assert!(text.contains("5h 13%"), "five hour limit: {text}");
    assert!(text.contains("7d 44%"), "seven day limit: {text}");
}

#[test]
fn the_whole_line_of_a_full_payload() {
    let p = payload(FULL);
    let s = summary();
    let text = strip_ansi(&render(&input(&p, &s, Some("main"), false)));
    assert_eq!(
        text,
        "~/p/example \u{f02a2} main(+188 -10) • \u{f49b} ████░░░░░░ 38% • \u{e26d} Opus 5 (high) \
         • \u{f0ec} 12k session • today 250k / week 1.2M • \u{f252} 5h 13% 7d 44%"
    );
    let short = strip_ansi(&render(&input(&p, &s, Some("main"), true)));
    assert_eq!(short, "~/p/example • 38% • \u{f0ec} 250k");
}

#[test]
fn short_variant_drops_the_verbose_segments() {
    let p = payload(FULL);
    let s = summary();
    let long = render(&input(&p, &s, Some("main"), false));
    let short = render(&input(&p, &s, Some("main"), true));

    assert!(strip_ansi(&short).len() < strip_ansi(&long).len());
    assert!(!strip_ansi(&short).contains("Opus 5"));
    assert!(!strip_ansi(&short).contains("session"));
    assert!(strip_ansi(&short).contains("38%"));
}

#[test]
fn renders_from_an_empty_payload() {
    let p = payload("{}");
    let s = LedgerSummary::default();
    let line = render(&input(&p, &s, None, false));
    let text = strip_ansi(&line);

    assert!(!text.contains("null"));
    assert!(text.contains("0.0k"), "zeroes still render: {text}");
}

#[test]
fn omits_rate_limits_when_the_payload_has_none() {
    let p = payload(r#"{"cwd":"/home/user/x"}"#);
    let s = LedgerSummary::default();
    let text = strip_ansi(&render(&input(&p, &s, None, false)));
    assert!(!text.contains("5h"), "no rate limit segment: {text}");
    assert!(!text.contains("7d"), "no rate limit segment: {text}");
}

#[test]
fn omits_lines_changed_when_nothing_changed() {
    let p = payload(
        r#"{"cwd":"/home/user/x","cost":{"total_lines_added":0,"total_lines_removed":0}}"#,
    );
    let s = LedgerSummary::default();
    let text = strip_ansi(&render(&input(&p, &s, Some("main"), false)));
    assert!(!text.contains('('), "no empty parens: {text}");
    assert_eq!(lines_changed(&p), "");
}

#[test]
fn the_line_is_one_line_and_never_empty() {
    let s = LedgerSummary::default();
    for json in ["{}", MINIMAL, FULL] {
        let p = payload(json);
        for short in [true, false] {
            for branch in [None, Some(""), Some("main")] {
                let line = render(&input(&p, &s, branch, short));
                assert_eq!(line.lines().count(), 1);
                assert!(!line.contains('\n'));
            }
        }
    }
}

#[test]
fn the_branch_stands_alone_without_a_directory() {
    let p = payload("{}");
    let s = LedgerSummary::default();
    let text = strip_ansi(&render(&input(&p, &s, Some("main"), false)));
    assert!(text.starts_with("\u{f02a2} main • "), "{text}");
}

#[test]
fn segments_are_joined_behind_the_beginning() {
    let sep = format!("{GREY} • {RESET}");
    let parts = vec!["a".to_string(), "b".to_string()];
    assert_eq!(join("", &parts), format!("a{sep}b"));
    assert_eq!(join("h", &parts), format!("h{sep}a{sep}b"));
    assert_eq!(join("h", &Vec::new()), "h");
    assert_eq!(join("", &Vec::new()), "");
}

// --- percentages -----------------------------------------------------------------

#[test]
fn context_bar_tracks_the_percentage() {
    assert_eq!(bar(d(0.0)), "░░░░░░░░░░");
    assert_eq!(bar(d(50.0)), "█████░░░░░");
    assert_eq!(bar(d(100.0)), "██████████");
    assert_eq!(bar(d(150.0)), "██████████", "clamped, never wider");
}

#[test]
fn the_bar_is_what_doubles_make_of_it() {
    let filled = |pct: f64| (pct * 10.0 / 100.0).round() as usize;
    let mut pct = 0.0f64;
    let mut all = vec![f64::NAN, -0.0, -3.0, f64::INFINITY, 1e308, 5e-324];
    while pct < 101.0 {
        for nearby in [-1i64, 0, 1] {
            all.push(f64::from_bits((pct.to_bits() as i64 + nearby).max(0) as u64));
        }
        pct += 0.25;
    }
    for pct in all {
        let n = filled(pct).min(10);
        assert_eq!(bar(d(pct)), "█".repeat(n) + &"░".repeat(10 - n), "{pct:e}");
    }
}

#[test]
fn colour_thresholds_match_the_reference() {
    assert_eq!(pct_colour(d(0.0)), GREY);
    assert_eq!(pct_colour(d(49.9)), GREY);
    assert_eq!(pct_colour(d(50.0)), YELLOW);
    assert_eq!(pct_colour(d(69.9)), YELLOW);
    assert_eq!(pct_colour(d(70.0)), ORANGE);
    assert_eq!(pct_colour(d(89.9)), ORANGE);
    assert_eq!(pct_colour(d(90.0)), RED);
    assert_eq!(pct_colour(d(f64::NAN)), GREY);
}

#[test]
fn the_context_is_shown_between_nothing_and_everything() {
    let shown = |pct: f64| strip_ansi(&context_segment(d(pct), true));
    assert_eq!(shown(37.5), "38%");
    assert_eq!(shown(-5.0), "0%");
    assert_eq!(shown(123.4), "100%");
    assert_eq!(shown(f64::NAN), "0%");
    assert_eq!(shown(f64::INFINITY), "100%");
    assert_eq!(context_segment(d(90.0), true), format!("{RED}90%{RESET}"));
}

// --- numbers ---------------------------------------------------------------------

#[test]
fn format_tokens_switches_precision_by_magnitude() {
    assert_eq!(format_tokens(0), "0.0k");
    assert_eq!(format_tokens(1_234), "1.2k");
    assert_eq!(format_tokens(12_340), "12k");
    assert_eq!(format_tokens(250_000), "250k");
    assert_eq!(format_tokens(999_499), "999k", "last rung below M");
    assert_eq!(format_tokens(1_000_000), "1.0M", "first rung at M");
    assert_eq!(format_tokens(1_200_000), "1.2M");
    assert_eq!(format_tokens(15_000_000), "15M");
    assert_eq!(format_tokens(383_141_000), "383M", "a real week's total");
    assert_eq!(format_tokens(99_999), "100k");
    assert_eq!(format_tokens(100_001), "100k");
}

/// The same in floating point.
fn with_doubles(tokens: u64) -> String {
    let k = tokens as f64 / 1000.0;
    if k >= 1000.0 {
        let m = k / 1000.0;
        if m >= 100.0 {
            format!("{}M", m.round() as u64)
        } else if m >= 10.0 {
            format!("{m:.0}M")
        } else {
            format!("{m:.1}M")
        }
    } else if k >= 100.0 {
        format!("{}k", k.round() as u64)
    } else if k >= 10.0 {
        format!("{k:.0}k")
    } else {
        format!("{k:.1}k")
    }
}

#[test]
fn tokens_are_what_doubles_make_of_them() {
    for tokens in 0..120_000u64 {
        assert_eq!(format_tokens(tokens), with_doubles(tokens), "{tokens}");
    }
    let mut tokens = 120_000u64;
    let mut step = 1u64;
    while tokens < u64::MAX / 2 {
        // Ties and their neighbours on every rung.
        for base in [tokens, tokens / 1_000_000 * 1_000_000 + 500_000, tokens / 100_000 * 100_000 + 50_000] {
            for t in base.saturating_sub(1)..=base + 1 {
                assert_eq!(format_tokens(t), with_doubles(t), "{t}");
            }
        }
        step = step.wrapping_mul(6364136223846793005).wrapping_add(1442695040888963407);
        tokens = tokens + tokens / 500 + step % 1000;
    }
    for t in u64::MAX - 5000..=u64::MAX {
        assert_eq!(format_tokens(t), with_doubles(t), "{t}");
    }
}

#[test]
fn format_cost_keeps_small_amounts_readable() {
    assert_eq!(format_cost(d(0.0)), "0.000");
    assert_eq!(format_cost(d(0.005)), "0.005");
    assert_eq!(format_cost(d(12.5)), "12.50");
}

#[test]
fn negative_counts_wrap_as_they_are_cast() {
    let p = payload("{}");
    let s = LedgerSummary {
        session_tokens: -1,
        today_tokens: -1,
        week_tokens: 0,
    };
    let text = strip_ansi(&render(&input(&p, &s, None, false)));
    assert!(text.contains(&format!("{} session", with_doubles(u64::MAX))), "{text}");
    // The compact variant has nothing to show of a day below zero.
    let short = strip_ansi(&render(&input(&p, &s, None, true)));
    assert_eq!(short, "");
}

// --- names and paths -------------------------------------------------------------

#[test]
fn truncate_middle_caps_long_branches() {
    assert_eq!(truncate_middle("main", 32), "main");
    let long = truncate_middle("khoi/goo-3197-cursor-smoothing-diagnostics", 32);
    assert_eq!(long, "khoi/goo-3197-cu…ing-diagnostics");
    assert_eq!(long.chars().count(), 32);
}

#[test]
fn truncation_counts_characters() {
    assert_eq!(truncate_middle("äöüßé", 5), "äöüßé");
    assert_eq!(truncate_middle("äöüßé", 4), "äö…é");
    assert_eq!(truncate_middle("abc", 1), "…");
    assert_eq!(truncate_middle("", 0), "");
    for max in 1..60 {
        let cut = truncate_middle("khoi/goo-3197-cursor-smoothing-diagnostics", max);
        assert_eq!(cut.chars().count(), max.min(42));
    }
}

#[test]
fn fish_shorten_path_abbreviates_all_but_the_last_segment() {
    assert_eq!(
        fish_shorten_path("/home/user/projects/Tools/cc-ledger", "/home/user"),
        "~/p/T/cc-ledger"
    );
    assert_eq!(fish_shorten_path("/home/user", "/home/user"), "~");
    assert_eq!(fish_shorten_path("/tmp", ""), "/tmp");
}

#[test]
fn fish_shorten_path_keeps_dotdirs_legible() {
    assert_eq!(
        fish_shorten_path("/home/user/.config/nvim", "/home/user"),
        "~/.c/nvim"
    );
}

#[test]
fn odd_paths_keep_their_segments() {
    assert_eq!(fish_shorten_path("", "/home/user"), "");
    assert_eq!(fish_shorten_path("/", ""), "/");
    assert_eq!(fish_shorten_path("a//b/", ""), "a//b/");
    assert_eq!(fish_shorten_path("./x/y", ""), "./x/y");
    assert_eq!(fish_shorten_path("..a/é/z", ""), "../é/z");
    // A prefix is a prefix, whatever follows it.
    assert_eq!(fish_shorten_path("/home/username/x", "/home/user"), "~/x");
    for path in ["/a/bc/def", "x/.yz/w", "/home/user/.cache/deep/er"] {
        let short = fish_shorten_path(path, "");
        assert_eq!(short.split('/').count(), path.split('/').count());
        assert_eq!(short.split('/').last(), path.split('/').last());
    }
}

#[test]
fn the_home_directory_is_a_tilde() {
    assert_eq!(tilde("/home/user/x", "/home/user"), "~/x");
    assert_eq!(tilde("/home/user/x", ""), "/home/user/x");
    assert_eq!(tilde("/tmp/home/user", "/home/user"), "/tmp/home/user");
}

#[test]
fn fallback_line_is_never_empty() {
    assert!(!fallback(None, "/home/user").is_empty());
    assert!(strip_ansi(&fallback(Some("/home/user/x"), "/home/user")).contains("~/x"));
    assert_eq!(fallback(None, ""), format!("{GREY}cc-ledger{RESET}"));
    assert_eq!(fallback(Some("/tmp"), ""), format!("{CYAN}/tmp{RESET}"));
}

#[test]
fn a_million_is_the_first_that_is_counted_in_millions() {
    assert_eq!(format_tokens(999_999), "1000k");
    assert_eq!(format_tokens(1_000_000), "1.0M");
}

/// How many tokens a text says.
fn said(text: &str) -> f64 {
    let (number, unit) = text.split_at(text.len() - 1);
    let scale = if unit == "M" { 1_000_000.0 } else { 1_000.0 };
    number.parse::<f64>().unwrap() * scale
}

#[test]
fn more_tokens_never_read_as_fewer() {
    for edge in [10_000u64, 100_000, 1_000_000, 10_000_000, 100_000_000] {
        let mut last = 0.0;
        for tokens in (edge - edge / 10..edge + edge / 10).step_by(edge as usize / 2_000) {
            let now = said(&format_tokens(tokens));
            assert!(now + 0.001 >= last, "{tokens}");
            last = now;
        }
    }
    assert!(said(&format_tokens(u64::MAX)) > said(&format_tokens(u64::MAX / 2)));
}
