//! The status line, as a function of what it shows.
//!
//! No clock, no files, no subprocess: everything the line shows is passed in.

use vstd::arithmetic::div_mod::*;
use vstd::arithmetic::power2::*;
use vstd::prelude::*;
use vstd::string::*;

use crate::double;
use crate::double::{push_fixed, push_pointed, round_to_double, Double, CENT};
use crate::ledger::LedgerSummary;
use crate::payload;
use crate::payload::StatusPayload;
use crate::text;
use crate::text::{chars_of, has_prefix, join_with, push_dec, split, string_of};

verus! {

pub const RESET: &'static str = "\x1b[0m";

pub const GREY: &'static str = "\x1b[90m";

pub const RED: &'static str = "\x1b[31m";

pub const GREEN: &'static str = "\x1b[32m";

pub const YELLOW: &'static str = "\x1b[33m";

pub const CYAN: &'static str = "\x1b[36m";

pub const ORANGE: &'static str = "\x1b[38;5;208m";

pub const BLUE: &'static str = "\x1b[38;5;12m";

pub const MAGENTA: &'static str = "\x1b[38;5;13m";

pub const TEAL: &'static str = "\x1b[38;5;14m";

pub const ICON_BRANCH: char = '\u{f02a2}';

pub const ICON_MODEL: char = '\u{e26d}';

pub const ICON_CONTEXT: char = '\u{f49b}';

pub const ICON_TOKENS: char = '\u{f0ec}';

pub const ICON_LIMITS: char = '\u{f252}';

/// Cells of the context bar.
pub const BAR_WIDTH: usize = 10;

/// Characters of a branch name that are shown.
pub const BRANCH_MAX: usize = 32;

/// Everything the line shows. The branch and the home directory are found by
/// the caller.
pub struct RenderInput<'a> {
    pub payload: &'a StatusPayload,
    pub summary: &'a LedgerSummary,
    pub branch: Option<&'a str>,
    pub home: &'a str,
    pub short: bool,
}

// ---------------------------------------------------------------------------
// Percentages
// ---------------------------------------------------------------------------

/// Grey below 50, yellow below 70, orange below 90, red from there on.
pub open spec fn colour_of(pct: Double) -> Seq<char> {
    if pct.at_least(90) {
        RED@
    } else if pct.at_least(70) {
        ORANGE@
    } else if pct.at_least(50) {
        YELLOW@
    } else {
        GREY@
    }
}

/// The colour of a percentage.
pub fn pct_colour(pct: Double) -> (r: &'static str)
    ensures
        r@ == colour_of(pct),
{
    if pct.reaches(90) {
        RED
    } else if pct.reaches(70) {
        ORANGE
    } else if pct.reaches(50) {
        YELLOW
    } else {
        GREY
    }
}

/// How many of the ten cells a percentage fills: a tenth of it, rounded, and
/// never more than there are.
pub open spec fn cells(pct: Double) -> nat {
    if pct.is_nan() || pct.negative() {
        0
    } else if pct.is_infinite() || double::half_up(pct.units(), 10 * double::one()) > BAR_WIDTH {
        BAR_WIDTH as nat
    } else {
        double::half_up(pct.units(), 10 * double::one())
    }
}

/// The bar: the filled cells, then the empty ones.
pub open spec fn bar_of(pct: Double) -> Seq<char> {
    Seq::new(
        BAR_WIDTH as nat,
        |i: int|
            if i < cells(pct) {
                '█'
            } else {
                '░'
            },
    )
}

/// A cell is filled once the percentage reaches the middle of its tenth.
proof fn cell_threshold(u: nat, k: nat)
    requires
        k > 0,
    ensures
        double::half_up(u, 10 * double::one()) >= k <==> u >= (10 * k - 5) * double::one(),
{
    let o = double::one() as int;
    lemma_pow2_pos(1074);
    let a = 2 * u + 10 * o;
    let d = 2 * (10 * o);
    let q = a / d;
    let ki = k as int;
    lemma_fundamental_div_mod(a, d);
    assert(d * q + a % d == a);
    assert(q >= ki <==> a >= d * ki) by (nonlinear_arith)
        requires
            a == d * q + a % d,
            0 <= a % d < d,
    ;
    assert(d * ki == 2 * ((10 * ki - 5) * o) + 10 * o) by (nonlinear_arith)
        requires
            d == 2 * (10 * o),
    ;
}

/// The context bar.
pub fn bar(pct: Double) -> (r: String)
    ensures
        r@ == bar_of(pct),
{
    let mut filled: u32 = 0;
    while filled < 10 && pct.reaches(10 * filled + 5)
        invariant
            filled <= 10,
            filled <= cells(pct),
        decreases 10 - filled,
    {
        proof {
            if !pct.is_infinite() {
                cell_threshold(pct.units(), (filled + 1) as nat);
            }
        }
        filled += 1;
    }
    proof {
        if filled < 10 && !pct.is_nan() && !pct.negative() {
            cell_threshold(pct.units(), (filled + 1) as nat);
        }
    }
    let mut r = String::new();
    let mut i: u32 = 0;
    while i < 10
        invariant
            i <= 10,
            filled == cells(pct),
            r@ =~= bar_of(pct).take(i as int),
        decreases 10 - i,
    {
        if i < filled {
            r.push('█');
        } else {
            r.push('░');
        }
        i += 1;
    }
    assert(bar_of(pct).take(10) =~= bar_of(pct));
    r
}

/// The whole percentage that is shown of the context, at most 100.
pub open spec fn context_shown(pct: Double) -> nat {
    if pct.rounded() > 100 {
        100
    } else {
        pct.rounded()
    }
}

/// How full the context is.
pub open spec fn context_text(pct: Double, short: bool) -> Seq<char> {
    let number = colour_of(pct) + text::dec(context_shown(pct)) + "%"@ + RESET@;
    if short {
        number
    } else {
        MAGENTA@ + seq![ICON_CONTEXT] + " "@ + GREY@ + bar_of(pct) + RESET@ + " "@ + number
    }
}

/// The segment that shows how full the context is.
pub fn context_segment(pct: Double, short: bool) -> (r: String)
    ensures
        r@ == context_text(pct, short),
{
    let mut out = String::new();
    if !short {
        out.append(MAGENTA);
        out.push(ICON_CONTEXT);
        out.append(" ");
        out.append(GREY);
        out.append(bar(pct).as_str());
        out.append(RESET);
        out.append(" ");
    }
    let rounded = pct.round();
    out.append(pct_colour(pct));
    push_dec(
        &mut out,
        if rounded > 100 {
            100
        } else {
            rounded as u128
        },
    );
    out.append("%");
    out.append(RESET);
    assert(out@ =~= context_text(pct, short));
    out
}

/// One rate limit.
pub open spec fn limit_text(label: Seq<char>, pct: Double) -> Seq<char> {
    GREY@ + label + colour_of(pct) + text::dec(pct.rounded()) + "%"@ + RESET@
}

fn limit_part(label: &str, pct: Double) -> (r: String)
    ensures
        r@ == limit_text(label@, pct),
{
    let mut out = String::new();
    out.append(GREY);
    out.append(label);
    out.append(pct_colour(pct));
    push_dec(&mut out, pct.round() as u128);
    out.append("%");
    out.append(RESET);
    assert(out@ =~= limit_text(label@, pct));
    out
}

/// The used percentage of a limit, if both are there.
pub open spec fn used(limit: Option<payload::RateLimit>) -> Option<Double> {
    match limit {
        Some(r) => r.used_percentage,
        None => None,
    }
}

/// The limits that the payload tells of, in order.
pub open spec fn limit_texts(p: StatusPayload) -> Seq<Seq<char>> {
    (match used(p.five_hour_limit()) {
        Some(v) => seq![limit_text("5h "@, v)],
        None => Seq::empty(),
    }) + (match used(p.seven_day_limit()) {
        Some(v) => seq![limit_text("7d "@, v)],
        None => Seq::empty(),
    })
}

/// The segment for the rate limits, if the payload tells of any.
pub open spec fn limits_text(p: StatusPayload) -> Option<Seq<char>> {
    if limit_texts(p).len() == 0 {
        None
    } else {
        Some(
            GREY@ + seq![ICON_LIMITS] + " "@ + RESET@ + text::joined(limit_texts(p), " "@),
        )
    }
}

/// The segment for the rate limits. Their absence is normal, and silent.
pub fn rate_limit_segment(p: &StatusPayload) -> (r: Option<String>)
    ensures
        (match r {
            Some(s) => Some(s@),
            None => None,
        }) == limits_text(*p),
{
    let mut parts: Vec<String> = Vec::new();
    match p.five_hour() {
        Some(limit) => match limit.used_percentage {
            Some(v) => {
                parts.push(limit_part("5h ", v));
            },
            None => {},
        },
        None => {},
    }
    match p.seven_day() {
        Some(limit) => match limit.used_percentage {
            Some(v) => {
                parts.push(limit_part("7d ", v));
            },
            None => {},
        },
        None => {},
    }
    assert(text::texts(parts@) =~= limit_texts(*p));
    if parts.len() == 0 {
        return None;
    }
    let mut out = String::new();
    out.append(GREY);
    out.push(ICON_LIMITS);
    out.append(" ");
    out.append(RESET);
    out.append(join_with(&parts, " ").as_str());
    assert(out@ =~= limits_text(*p)->0);
    Some(out)
}

// ---------------------------------------------------------------------------
// Numbers
// ---------------------------------------------------------------------------

/// Two to the 62nd: the counts below are held in units of its inverse, in which
/// every double that they pass through is an integer.
pub const SCALE: u128 = 0x4000_0000_0000_0000;

/// A count of tokens in thousands: the count as a double, divided as a double.
pub open spec fn thousands_of(tokens: nat) -> nat {
    double::nearest(double::nearest(tokens * SCALE as nat, 1), 1000)
}

/// A count of tokens in millions.
pub open spec fn millions_of(tokens: nat) -> nat {
    double::nearest(thousands_of(tokens), 1000)
}

/// `x` in units of `1 / SCALE`: with one digit behind the point below ten, as a
/// whole number from there on. A tie goes to the even digit below a hundred, and
/// up from there on.
pub open spec fn three_digits(x: nat) -> Seq<char> {
    if x >= 100 * SCALE {
        text::dec(double::half_up(x, SCALE as nat))
    } else if x >= 10 * SCALE {
        text::dec(double::half_even(x, SCALE as nat))
    } else {
        double::pointed(double::half_even(x * 10, SCALE as nat), 1)
    }
}

/// A count of tokens: thousands as `k`, from a thousand thousands on millions as
/// `M`.
pub open spec fn tokens_text(tokens: nat) -> Seq<char> {
    if thousands_of(tokens) >= 1000 * SCALE {
        three_digits(millions_of(tokens)) + "M"@
    } else {
        three_digits(thousands_of(tokens)) + "k"@
    }
}

fn push_three_digits(out: &mut String, x: u128)
    requires
        x < 0x4000_0000_0000_0000_0000_0000_0000_0000,
    ensures
        final(out)@ == old(out)@ + three_digits(x as nat),
{
    if x >= 100 * SCALE {
        push_dec(out, (2 * x + SCALE) / (2 * SCALE));
    } else {
        let one_place = x < 10 * SCALE;
        let n: u128 = if one_place {
            x * 10
        } else {
            x
        };
        let mut q: u128 = n / SCALE;
        let rest: u128 = n % SCALE;
        if !(2 * rest < SCALE || (2 * rest == SCALE && q % 2 == 0)) {
            q = q + 1;
        }
        assert(q == double::half_even(n as nat, SCALE as nat));
        if one_place {
            push_pointed(out, q, 1);
        } else {
            push_dec(out, q);
        }
    }
}

/// Rounding to a double does not more than double a number.
proof fn nearest_bound(n: nat, d: nat)
    requires
        d > 0,
    ensures
        double::nearest(n, d) <= 2 * (n / d) + 1,
{
    let q = n / d;
    excess_bound(q);
    let p = pow2(double::excess(q));
    lemma_pow2_pos(double::excess(q));
    let t = d * p;
    assert(t > 0) by (nonlinear_arith)
        requires
            d > 0,
            p > 0,
            t == d * p,
    ;
    lemma_div_denominator(n as int, d as int, p as int);
    let w = n / t;
    assert(w == q / p);
    assert(w * p <= q) by (nonlinear_arith)
        requires
            w == q / p,
            p > 0,
    ;
    assert((w + 1) * p == w * p + p) by (nonlinear_arith);
}

proof fn excess_bound(q: nat)
    ensures
        pow2(double::excess(q)) <= q || double::excess(q) == 0,
        pow2(0) == 1,
    decreases q,
{
    lemma2_to64();
    if q >= 2 * double::FRACTION {
        excess_bound(q / 2);
        lemma_pow2_unfold(double::excess(q));
    }
}

/// A count of tokens, short enough to read at a glance.
pub fn format_tokens(tokens: u64) -> (r: String)
    ensures
        r@ == tokens_text(tokens as nat),
{
    proof {
        assert(tokens * SCALE < 0x4000_0000_0000_0000_0000_0000_0000_0000) by (nonlinear_arith)
            requires
                tokens < 0x1_0000_0000_0000_0000,
                SCALE == 0x4000_0000_0000_0000,
        ;
    }
    let n: u128 = tokens as u128 * SCALE;
    let whole = round_to_double(n, 1);
    proof {
        nearest_bound(n as nat, 1);
    }
    let k = round_to_double(whole, 1000);
    proof {
        nearest_bound(whole as nat, 1000);
    }
    let mut out = String::new();
    if k >= 1000 * SCALE {
        let m = round_to_double(k, 1000);
        proof {
            nearest_bound(k as nat, 1000);
        }
        push_three_digits(&mut out, m);
        out.append("M");
    } else {
        push_three_digits(&mut out, k);
        out.append("k");
    }
    assert(out@ =~= tokens_text(tokens as nat));
    out
}

/// An amount: three digits behind the point below a hundredth, two from there
/// on.
pub fn format_cost(cost: Double) -> (r: String)
    ensures
        r@ == double::fixed(
            cost,
            if cost.less_than(Double { bits: CENT }) {
                3
            } else {
                2
            },
        ),
{
    let cent = Double { bits: CENT };
    let mut out = String::new();
    if cost.below(cent) {
        push_fixed(&mut out, cost, 3);
    } else {
        push_fixed(&mut out, cost, 2);
    }
    assert(out@ =~= double::fixed(
        cost,
        if cost.less_than(cent) {
            3
        } else {
            2
        },
    ));
    out
}

// ---------------------------------------------------------------------------
// Names and paths
// ---------------------------------------------------------------------------

/// `s` cut to `max` characters: the beginning and the end, with an ellipsis in
/// the place of what is left out.
pub open spec fn truncated(s: Seq<char>, max: nat) -> Seq<char> {
    if s.len() <= max {
        s
    } else {
        let keep = (max - 1) as nat;
        s.take(keep - keep / 2) + seq!['…'] + s.skip(s.len() - keep / 2)
    }
}

/// `s` cut to `max` characters in the middle.
pub fn truncate_middle(s: &str, max: usize) -> (r: String)
    requires
        max > 0 || s@.len() == 0,
    ensures
        r@ == truncated(s@, max as nat),
{
    let chars = chars_of(s);
    if chars.len() <= max {
        return s.to_owned();
    }
    let keep = max - 1;
    let head = keep - keep / 2;
    let tail = keep / 2;
    let mut out = string_of(&chars, 0, head);
    out.push('…');
    out.append(string_of(&chars, chars.len() - tail, chars.len()).as_str());
    assert(out@ =~= truncated(s@, max as nat));
    out
}

/// The path with `~` in the place of the home directory it begins with.
pub open spec fn from_home(path: Seq<char>, home: Seq<char>) -> Seq<char> {
    if home.len() > 0 && text::begins_with(path, home) {
        seq!['~'] + path.skip(home.len() as int)
    } else {
        path
    }
}

/// The path with `~` in the place of the home directory.
pub fn tilde(path: &str, home: &str) -> (r: String)
    ensures
        r@ == from_home(path@, home@),
{
    let p = chars_of(path);
    let h = chars_of(home);
    if h.len() > 0 && has_prefix(&p, &h) {
        let mut out = String::new();
        out.push('~');
        out.append(string_of(&p, h.len(), p.len()).as_str());
        assert(out@ =~= from_home(path@, home@));
        out
    } else {
        path.to_owned()
    }
}

/// A segment of a path that is not the last: its first character, or the dot and
/// the character behind it. `~` stays.
pub open spec fn abbreviated(part: Seq<char>) -> Seq<char> {
    if part.len() == 0 || part == seq!['~'] {
        part
    } else if part[0] == '.' && part.len() > 1 {
        part.take(2)
    } else {
        part.take(1)
    }
}

/// The segments, all but the last abbreviated.
pub open spec fn short_parts(parts: Seq<Seq<char>>) -> Seq<Seq<char>> {
    Seq::new(
        parts.len(),
        |i: int|
            if i == parts.len() - 1 {
                parts[i]
            } else {
                abbreviated(parts[i])
            },
    )
}

/// The path as the line shows it.
pub open spec fn short_path(path: Seq<char>, home: Seq<char>) -> Seq<char> {
    text::joined(short_parts(text::split_on(from_home(path, home), '/')), seq!['/'])
}

fn abbreviate(part: &Vec<char>) -> (r: String)
    ensures
        r@ == abbreviated(part@),
{
    let n = part.len();
    if n == 0 || (n == 1 && part[0] == '~') {
        let r = string_of(part, 0, n);
        assert(r@ =~= part@);
        assert(n == 1 ==> part@ =~= seq!['~']);
        r
    } else if part[0] == '.' && n > 1 {
        string_of(part, 0, 2)
    } else {
        string_of(part, 0, 1)
    }
}

/// `/home/me/projects/Tools/cc-ledger` as `~/p/T/cc-ledger`.
pub fn fish_shorten_path(path: &str, home: &str) -> (r: String)
    ensures
        r@ == short_path(path@, home@),
{
    let from = tilde(path, home);
    let chars = chars_of(from.as_str());
    let parts = split(&chars, '/');
    let ghost whole = parts@.map_values(|v: Vec<char>| v@);
    proof {
        text::split_nonempty(from@, '/');
        assert(whole.len() == parts@.len());
    }
    let last = parts.len() - 1;
    let mut short: Vec<String> = Vec::new();
    let mut i: usize = 0;
    while i < parts.len()
        invariant
            i <= parts@.len(),
            last == parts@.len() - 1,
            whole == parts@.map_values(|v: Vec<char>| v@),
            text::texts(short@) =~= short_parts(whole).take(i as int),
        decreases parts@.len() - i,
    {
        let part = &parts[i];
        assert(whole[i as int] == part@);
        let shown = if i == last {
            string_of(part, 0, part.len())
        } else {
            abbreviate(part)
        };
        assert(shown@ =~= short_parts(whole)[i as int]);
        let ghost before = text::texts(short@);
        let ghost added = shown@;
        short.push(shown);
        assert(text::texts(short@) =~= before.push(added));
        i += 1;
    }
    proof {
        assert(text::texts(short@) =~= short_parts(whole));
        reveal_strlit("/");
        assert("/"@ =~= seq!['/']);
    }
    join_with(&short, "/")
}

// ---------------------------------------------------------------------------
// The line
// ---------------------------------------------------------------------------

/// The line shown when there is no payload to speak of.
pub fn fallback(dir: Option<&str>, home: &str) -> (r: String)
    ensures
        r@ == (match dir {
            Some(dir) => CYAN@ + short_path(dir@, home@) + RESET@,
            None => GREY@ + "cc-ledger"@ + RESET@,
        }),
        r@.len() > 0,
{
    let mut out = String::new();
    proof {
        reveal_strlit("\x1b[0m");
    }
    match dir {
        Some(dir) => {
            out.append(CYAN);
            out.append(fish_shorten_path(dir, home).as_str());
            out.append(RESET);
            assert(out@ =~= CYAN@ + short_path(dir@, home@) + RESET@);
        },
        None => {
            out.append(GREY);
            out.append("cc-ledger");
            out.append(RESET);
            assert(out@ =~= GREY@ + "cc-ledger"@ + RESET@);
        },
    }
    out
}

/// Zero where there is no number.
pub open spec fn lines_or_zero(o: Option<u64>) -> nat {
    match o {
        Some(n) => n as nat,
        None => 0,
    }
}

/// The lines added and removed, if any were.
pub open spec fn changed_text(p: StatusPayload) -> Seq<char> {
    match p.cost {
        Some(cost) => {
            let added = lines_or_zero(cost.total_lines_added);
            let removed = lines_or_zero(cost.total_lines_removed);
            if added == 0 && removed == 0 {
                Seq::empty()
            } else {
                "("@ + GREEN@ + "+"@ + text::dec(added) + RESET@ + " "@ + RED@ + "-"@ + text::dec(
                    removed,
                ) + RESET@ + ")"@
            }
        },
        None => Seq::empty(),
    }
}

fn lines(o: Option<u64>) -> (r: u64)
    ensures
        r == lines_or_zero(o),
{
    match o {
        Some(n) => n,
        None => 0,
    }
}

/// The lines added and removed.
pub fn lines_changed(p: &StatusPayload) -> (r: String)
    ensures
        r@ == changed_text(*p),
{
    let mut out = String::new();
    match &p.cost {
        Some(cost) => {
            let added = lines(cost.total_lines_added);
            let removed = lines(cost.total_lines_removed);
            if added == 0 && removed == 0 {
                return out;
            }
            out.append("(");
            out.append(GREEN);
            out.append("+");
            push_dec(&mut out, added as u128);
            out.append(RESET);
            out.append(" ");
            out.append(RED);
            out.append("-");
            push_dec(&mut out, removed as u128);
            out.append(RESET);
            out.append(")");
            assert(out@ =~= changed_text(*p));
        },
        None => {},
    }
    out
}

/// The directory of the payload as it is shown, or nothing.
pub open spec fn dir_text(p: StatusPayload, home: Seq<char>) -> Seq<char> {
    match p.dir() {
        Some(dir) => short_path(dir, home),
        None => Seq::empty(),
    }
}

/// The beginning of the line: the directory, and in the long variant the branch
/// with the lines changed on it.
pub open spec fn head_text(input: RenderInput) -> Seq<char> {
    let dir = dir_text(*input.payload, input.home@);
    match input.branch {
        Some(branch) if branch@.len() > 0 && !input.short => {
            (if dir.len() == 0 {
                Seq::empty()
            } else {
                CYAN@ + dir + RESET@ + " "@
            }) + BLUE@ + seq![ICON_BRANCH] + " "@ + GREEN@ + truncated(branch@, BRANCH_MAX as nat)
                + changed_text(*input.payload) + RESET@
        },
        _ => CYAN@ + dir + RESET@,
    }
}

/// The beginning of the line.
pub fn head(input: &RenderInput) -> (r: String)
    ensures
        r@ == head_text(*input),
{
    let dir = match input.payload.display_dir() {
        Some(d) => fish_shorten_path(d, input.home),
        None => String::new(),
    };
    let mut out = String::new();
    match input.branch {
        Some(branch) => {
            if branch.unicode_len() > 0 && !input.short {
                if dir.as_str().unicode_len() > 0 {
                    out.append(CYAN);
                    out.append(dir.as_str());
                    out.append(RESET);
                    out.append(" ");
                }
                out.append(BLUE);
                out.push(ICON_BRANCH);
                out.append(" ");
                out.append(GREEN);
                out.append(truncate_middle(branch, BRANCH_MAX).as_str());
                out.append(lines_changed(input.payload).as_str());
                out.append(RESET);
                assert(out@ =~= head_text(*input));
                return out;
            }
        },
        None => {},
    }
    out.append(CYAN);
    out.append(dir.as_str());
    out.append(RESET);
    assert(out@ =~= head_text(*input));
    out
}

/// What stands between two segments.
pub open spec fn separator() -> Seq<char> {
    GREY@ + " • "@ + RESET@
}

/// The beginning and the segments as one line.
pub open spec fn joined_line(head: Seq<char>, segments: Seq<Seq<char>>) -> Seq<char> {
    let body = text::joined(segments, separator());
    if head.len() == 0 {
        body
    } else if body.len() == 0 {
        head
    } else {
        head + separator() + body
    }
}

/// The beginning and the segments as one line.
pub fn join(head: &str, segments: &Vec<String>) -> (r: String)
    ensures
        r@ == joined_line(head@, text::texts(segments@)),
{
    let mut sep = String::new();
    sep.append(GREY);
    sep.append(" • ");
    sep.append(RESET);
    assert(sep@ =~= separator());
    let body = join_with(segments, sep.as_str());
    if head.unicode_len() == 0 {
        body
    } else if body.as_str().unicode_len() == 0 {
        head.to_owned()
    } else {
        let mut out = head.to_owned();
        out.append(sep.as_str());
        out.append(body.as_str());
        assert(out@ =~= head@ + separator() + body@);
        out
    }
}

/// The segment for the context, if the payload tells of it.
pub open spec fn context_part(input: RenderInput) -> Seq<Seq<char>> {
    match input.payload.context_used() {
        Some(pct) => seq![context_text(pct, input.short)],
        None => Seq::empty(),
    }
}

/// The model with its effort level.
pub open spec fn model_line(p: StatusPayload, model: Seq<char>) -> Seq<char> {
    TEAL@ + seq![ICON_MODEL] + " "@ + ORANGE@ + model + (match p.effort_text() {
        Some(level) => GREY@ + " ("@ + level + ")"@,
        None => Seq::empty(),
    }) + RESET@
}

/// The tokens of the session.
pub open spec fn session_text(summary: LedgerSummary) -> Seq<char> {
    GREY@ + seq![ICON_TOKENS] + " "@ + RESET@ + tokens_text(summary.session_tokens as u64 as nat)
        + " "@ + GREY@ + "session"@ + RESET@
}

/// The tokens of the day and of the week.
pub open spec fn windows_text(summary: LedgerSummary) -> Seq<char> {
    GREY@ + "today "@ + RESET@ + tokens_text(summary.today_tokens as u64 as nat) + " "@ + GREY@
        + "/ week "@ + RESET@ + tokens_text(summary.week_tokens as u64 as nat)
}

/// The segments of the compact variant: the context, and today's tokens if there
/// are any.
pub open spec fn short_segments(input: RenderInput) -> Seq<Seq<char>> {
    context_part(input) + (if input.summary.today_tokens > 0 {
        seq![
            GREY@ + seq![ICON_TOKENS] + " "@ + RESET@ + tokens_text(
                input.summary.today_tokens as u64 as nat,
            ),
        ]
    } else {
        Seq::empty()
    })
}

/// The segments of the long variant.
pub open spec fn long_segments(input: RenderInput) -> Seq<Seq<char>> {
    context_part(input) + (match input.payload.model_text() {
        Some(model) => seq![model_line(*input.payload, model)],
        None => Seq::empty(),
    }) + seq![session_text(*input.summary), windows_text(*input.summary)] + (match limits_text(
        *input.payload,
    ) {
        Some(limits) => seq![limits],
        None => Seq::empty(),
    })
}

/// The status line.
pub open spec fn line_text(input: RenderInput) -> Seq<char> {
    joined_line(
        head_text(input),
        if input.short {
            short_segments(input)
        } else {
            long_segments(input)
        },
    )
}

fn model_segment(p: &StatusPayload, model: &str) -> (r: String)
    ensures
        r@ == model_line(*p, model@),
{
    let mut out = String::new();
    out.append(TEAL);
    out.push(ICON_MODEL);
    out.append(" ");
    out.append(ORANGE);
    out.append(model);
    match p.effort_level() {
        Some(level) => {
            out.append(GREY);
            out.append(" (");
            out.append(level);
            out.append(")");
        },
        None => {},
    }
    out.append(RESET);
    assert(out@ =~= model_line(*p, model@));
    out
}

fn session_segment(summary: &LedgerSummary) -> (r: String)
    ensures
        r@ == session_text(*summary),
{
    let mut out = String::new();
    out.append(GREY);
    out.push(ICON_TOKENS);
    out.append(" ");
    out.append(RESET);
    out.append(format_tokens(summary.session_tokens as u64).as_str());
    out.append(" ");
    out.append(GREY);
    out.append("session");
    out.append(RESET);
    assert(out@ =~= session_text(*summary));
    out
}

fn windows_segment(summary: &LedgerSummary) -> (r: String)
    ensures
        r@ == windows_text(*summary),
{
    let mut out = String::new();
    out.append(GREY);
    out.append("today ");
    out.append(RESET);
    out.append(format_tokens(summary.today_tokens as u64).as_str());
    out.append(" ");
    out.append(GREY);
    out.append("/ week ");
    out.append(RESET);
    out.append(format_tokens(summary.week_tokens as u64).as_str());
    assert(out@ =~= windows_text(*summary));
    out
}

/// The status line.
pub fn render(input: &RenderInput) -> (r: String)
    ensures
        r@ == line_text(*input),
{
    let p = input.payload;
    let mut segments: Vec<String> = Vec::new();
    match p.context_percent() {
        Some(pct) => {
            segments.push(context_segment(pct, input.short));
        },
        None => {},
    }
    assert(text::texts(segments@) =~= context_part(*input));
    if input.short {
        if input.summary.today_tokens > 0 {
            let mut out = String::new();
            out.append(GREY);
            out.push(ICON_TOKENS);
            out.append(" ");
            out.append(RESET);
            out.append(format_tokens(input.summary.today_tokens as u64).as_str());
            assert(out@ =~= GREY@ + seq![ICON_TOKENS] + " "@ + RESET@ + tokens_text(
                input.summary.today_tokens as u64 as nat,
            ));
            segments.push(out);
        }
        assert(text::texts(segments@) =~= short_segments(*input));
        return join(head(input).as_str(), &segments);
    }
    match p.model_name() {
        Some(model) => {
            segments.push(model_segment(p, model));
        },
        None => {},
    }
    segments.push(session_segment(input.summary));
    segments.push(windows_segment(input.summary));
    match rate_limit_segment(p) {
        Some(limits) => {
            segments.push(limits);
        },
        None => {},
    }
    assert(text::texts(segments@) =~= long_segments(*input));
    join(head(input).as_str(), &segments)
}

// ---------------------------------------------------------------------------
// Laws
// ---------------------------------------------------------------------------

/// A cut name has at most `max` characters, exactly that many if it was cut, and
/// begins as the name does.
pub proof fn law_a_truncated_name_fits(s: Seq<char>, max: nat)
    requires
        max > 0,
    ensures
        truncated(s, max).len() <= max,
        s.len() > max ==> truncated(s, max).len() == max,
        s.len() > max && max > 1 ==> truncated(s, max)[0] == s[0],
        s.len() <= max ==> truncated(s, max) == s,
{
}

/// Shortening keeps the last segment of a path and the number of its segments,
/// counted from the home directory.
pub proof fn law_a_shortened_path_keeps_its_last_segment(path: Seq<char>, home: Seq<char>)
    ensures
        text::split_on(short_path(path, home), '/').len() == text::split_on(
            from_home(path, home),
            '/',
        ).len(),
        text::split_on(short_path(path, home), '/').last() == text::split_on(
            from_home(path, home),
            '/',
        ).last(),
{
    let parts = text::split_on(from_home(path, home), '/');
    text::split_nonempty(from_home(path, home), '/');
    text::split_without_sep(from_home(path, home), '/');
    let short = short_parts(parts);
    assert forall|i: int| 0 <= i < short.len() implies !(#[trigger] short[i]).contains('/') by {
        let part = short[i];
        if part.contains('/') {
            let j = choose|j: int| 0 <= j < part.len() && part[j] == '/';
            assert(parts[i][j] != '/');
        }
    }
    text::join_then_split(short, '/');
}

/// A path of one segment, seen from the home directory, is shown as it is.
pub proof fn law_a_single_segment_is_shown_whole(path: Seq<char>, home: Seq<char>)
    requires
        !from_home(path, home).contains('/'),
    ensures
        short_path(path, home) == from_home(path, home),
{
    let whole = from_home(path, home);
    text::split_then_join(whole, '/');
    text::join_then_split(seq![whole], '/');
    let parts = text::split_on(whole, '/');
    assert(text::joined(seq![whole], seq!['/']) == whole);
    assert(short_parts(parts) =~= parts);
}

/// The bar always has ten cells, the filled ones first, and a larger percentage
/// never fills fewer.
pub proof fn law_the_bar_tracks_the_percentage(a: Double, b: Double)
    requires
        !a.is_nan() && !a.negative() && !a.is_infinite(),
        !b.is_nan() && !b.negative() && !b.is_infinite(),
        a.units() <= b.units(),
    ensures
        bar_of(a).len() == BAR_WIDTH,
        cells(a) <= cells(b) <= BAR_WIDTH,
        forall|i: int, j: int|
            0 <= i < j < BAR_WIDTH && #[trigger] bar_of(a)[j] == '█' ==> #[trigger] bar_of(a)[i] == '█',
{
    let d = 2 * (10 * double::one()) as int;
    lemma_pow2_pos(1074);
    lemma_div_is_ordered(
        (2 * a.units() + 10 * double::one()) as int,
        (2 * b.units() + 10 * double::one()) as int,
        d,
    );
}

/// No newline anywhere.
pub open spec fn one_line(s: Seq<char>) -> bool {
    forall|i: int| 0 <= i < s.len() ==> #[trigger] s[i] != '\n'
}

proof fn one_line_joined(parts: Seq<Seq<char>>, sep: Seq<char>)
    requires
        one_line(sep),
        forall|i: int| 0 <= i < parts.len() ==> one_line(#[trigger] parts[i]),
    ensures
        one_line(text::joined(parts, sep)),
    decreases parts.len(),
{
    if parts.len() > 1 {
        let init = parts.drop_last();
        assert forall|i: int| 0 <= i < init.len() implies one_line(#[trigger] init[i]) by {
            assert(one_line(parts[i]));
        }
        one_line_joined(init, sep);
        assert(one_line(parts[parts.len() - 1]));
    } else if parts.len() == 1 {
        assert(one_line(parts[0]));
    }
}

proof fn one_line_split(s: Seq<char>, sep: char)
    requires
        one_line(s),
    ensures
        forall|i: int| 0 <= i < text::split_on(s, sep).len() ==> one_line(
            #[trigger] text::split_on(s, sep)[i],
        ),
    decreases s.len(),
{
    if s.len() > 0 {
        assert(one_line(s.drop_last()));
        one_line_split(s.drop_last(), sep);
        text::split_nonempty(s.drop_last(), sep);
        let init = text::split_on(s.drop_last(), sep);
        assert(one_line(init[init.len() - 1]));
        assert(s[s.len() - 1] != '\n');
    }
}

proof fn one_line_path(path: Seq<char>, home: Seq<char>)
    requires
        one_line(path),
    ensures
        one_line(short_path(path, home)),
{
    let from = from_home(path, home);
    assert(one_line(from));
    one_line_split(from, '/');
    let parts = text::split_on(from, '/');
    let short = short_parts(parts);
    assert forall|i: int| 0 <= i < short.len() implies one_line(#[trigger] short[i]) by {
        assert(one_line(parts[i]));
    }
    assert(one_line(seq!['/']));
    one_line_joined(short, seq!['/']);
}

proof fn one_line_dec(n: nat)
    ensures
        one_line(text::dec(n)),
{
    text::dec_digits(n);
}

proof fn one_line_padded(n: nat, width: nat)
    ensures
        one_line(text::dec_padded(n, width)),
{
    one_line_dec(n);
}

/// The texts that every line is made of have no newline.
proof fn one_line_constants()
    ensures
        one_line(RESET@) && one_line(GREY@) && one_line(RED@) && one_line(GREEN@),
        one_line(YELLOW@) && one_line(CYAN@) && one_line(ORANGE@) && one_line(BLUE@),
        one_line(MAGENTA@) && one_line(TEAL@),
        one_line(" "@) && one_line("%"@) && one_line("5h "@) && one_line("7d "@),
        one_line("M"@) && one_line("k"@) && one_line("("@) && one_line(")"@),
        one_line("+"@) && one_line("-"@) && one_line(" ("@) && one_line("session"@),
        one_line("today "@) && one_line("/ week "@),
        one_line(separator()),
{
    reveal_strlit("\x1b[0m");
    reveal_strlit("\x1b[90m");
    reveal_strlit("\x1b[31m");
    reveal_strlit("\x1b[32m");
    reveal_strlit("\x1b[33m");
    reveal_strlit("\x1b[36m");
    reveal_strlit("\x1b[38;5;208m");
    reveal_strlit("\x1b[38;5;12m");
    reveal_strlit("\x1b[38;5;13m");
    reveal_strlit("\x1b[38;5;14m");
    reveal_strlit(" ");
    reveal_strlit("%");
    reveal_strlit("5h ");
    reveal_strlit("7d ");
    reveal_strlit("M");
    reveal_strlit("k");
    reveal_strlit("(");
    reveal_strlit(")");
    reveal_strlit("+");
    reveal_strlit("-");
    reveal_strlit(" (");
    reveal_strlit("session");
    reveal_strlit("today ");
    reveal_strlit("/ week ");
    reveal_strlit(" • ");
}

proof fn one_line_tokens(n: nat)
    ensures
        one_line(tokens_text(n)),
{
    one_line_constants();
    let k = thousands_of(n);
    let m = millions_of(n);
    one_line_three_digits(k);
    one_line_three_digits(m);
}

proof fn one_line_three_digits(x: nat)
    ensures
        one_line(three_digits(x)),
{
    one_line_dec(double::half_up(x, SCALE as nat));
    one_line_dec(double::half_even(x, SCALE as nat));
    let q = double::half_even(x * 10, SCALE as nat);
    one_line_dec(q / double::ten_to(1));
    one_line_padded(q % double::ten_to(1), 1);
}

proof fn one_line_percentages(p: StatusPayload, pct: Double, short: bool)
    ensures
        one_line(context_text(pct, short)),
        limits_text(p) matches Some(s) ==> one_line(s),
{
    one_line_constants();
    one_line_dec(context_shown(pct));
    let parts = limit_texts(p);
    assert forall|i: int| 0 <= i < parts.len() implies one_line(#[trigger] parts[i]) by {
        if let Some(v) = used(p.five_hour_limit()) {
            one_line_dec(v.rounded());
        }
        if let Some(v) = used(p.seven_day_limit()) {
            one_line_dec(v.rounded());
        }
    }
    one_line_joined(parts, " "@);
}

/// An optional text without a newline.
pub open spec fn one_line_if_any(o: Option<Seq<char>>) -> bool {
    match o {
        Some(s) => one_line(s),
        None => true,
    }
}

proof fn one_line_head(input: RenderInput)
    requires
        one_line_if_any(input.payload.dir()),
        one_line_if_any(payload::shown(input.branch)),
    ensures
        one_line(head_text(input)),
{
    one_line_constants();
    if let Some(dir) = input.payload.dir() {
        one_line_path(dir, input.home@);
    }
    if let Some(cost) = input.payload.cost {
        one_line_dec(lines_or_zero(cost.total_lines_added));
        one_line_dec(lines_or_zero(cost.total_lines_removed));
    }
    assert(one_line(changed_text(*input.payload)));
    if let Some(branch) = input.branch {
        assert(one_line(truncated(branch@, BRANCH_MAX as nat)));
    }
}

/// Whatever the payload lacks, there is a line to show.
pub proof fn law_the_line_is_never_empty(input: RenderInput)
    ensures
        line_text(input).len() > 0,
{
    reveal_strlit("\x1b[0m");
    assert(head_text(input).len() > 0);
}

/// The status line is one line, if the directory, the branch, the model and the
/// effort level hold no newline.
pub proof fn law_the_line_is_one_line(input: RenderInput)
    requires
        one_line_if_any(input.payload.dir()),
        one_line_if_any(payload::shown(input.branch)),
        one_line_if_any(input.payload.model_text()),
        one_line_if_any(input.payload.effort_text()),
    ensures
        one_line(line_text(input)),
{
    one_line_constants();
    one_line_head(input);
    one_line_tokens(input.summary.session_tokens as u64 as nat);
    one_line_tokens(input.summary.today_tokens as u64 as nat);
    one_line_tokens(input.summary.week_tokens as u64 as nat);
    if let Some(pct) = input.payload.context_used() {
        one_line_percentages(*input.payload, pct, input.short);
    } else {
        one_line_percentages(*input.payload, Double { bits: 0 }, input.short);
    }
    if let Some(model) = input.payload.model_text() {
        assert(one_line(model_line(*input.payload, model)));
    }
    assert(one_line(session_text(*input.summary)));
    assert(one_line(windows_text(*input.summary)));
    let segments = if input.short {
        short_segments(input)
    } else {
        long_segments(input)
    };
    assert(forall|i: int| 0 <= i < segments.len() ==> one_line(#[trigger] segments[i]));
    one_line_joined(segments, separator());
}

/// The error of rounding to a double is at most half of its last bit, which is
/// small against the number.
proof fn nearest_error(n: nat, d: nat)
    requires
        d > 0,
    ensures
        ({
            let p = pow2(double::excess(n / d));
            &&& 2 * d * double::nearest(n, d) <= 2 * n + d * p
            &&& p > 0
            &&& double::excess(n / d) > 0 ==> p * double::FRACTION <= n / d
        }),
{
    let q = n / d;
    let s = double::excess(q);
    let p = pow2(s);
    lemma_pow2_pos(s);
    excess_is_small(q);
    let t = d * p;
    assert(t > 0) by (nonlinear_arith)
        requires
            d > 0,
            p > 0,
            t == d * p,
    ;
    let h = double::half_even(n, t);
    lemma_fundamental_div_mod(n as int, t as int);
    let w = n / t;
    let r = n % t;
    assert(t * w + r == n);
    assert(2 * (t * h) <= 2 * n + t) by (nonlinear_arith)
        requires
            t * w + r == n,
            h == w || (h == w + 1 && 2 * r >= t),
            0 <= r,
    ;
    let m = h * p;
    assert(2 * d * m == 2 * (t * h)) by (nonlinear_arith)
        requires
            t == d * p,
            m == h * p,
    ;
}

proof fn excess_is_small(q: nat)
    ensures
        double::excess(q) > 0 ==> pow2(double::excess(q)) * double::FRACTION <= q,
    decreases q,
{
    if q >= 2 * double::FRACTION {
        let s = double::excess(q / 2);
        excess_is_small(q / 2);
        lemma_pow2_unfold(s + 1);
        lemma2_to64();
    }
}

/// Rounding never falls below a double that the number does not fall below.
proof fn nearest_keeps(n: nat, d: nat, c: nat, s: nat)
    requires
        d > 0,
        n >= d * (c * pow2(s)),
        double::excess(n / d) <= s,
    ensures
        double::nearest(n, d) >= c * pow2(s),
{
    let e = double::excess(n / d);
    let p = pow2(e);
    let k = pow2((s - e) as nat);
    lemma_pow2_pos(e);
    lemma_pow2_adds(e, (s - e) as nat);
    let t = d * p;
    assert(t > 0) by (nonlinear_arith)
        requires
            d > 0,
            p > 0,
            t == d * p,
    ;
    let w = n / t;
    lemma_fundamental_div_mod(n as int, t as int);
    let ck = c * k;
    assert(d * (c * (p * k)) == t * ck) by (nonlinear_arith)
        requires
            t == d * p,
            ck == c * k,
    ;
    assert(w >= ck) by (nonlinear_arith)
        requires
            n >= t * ck,
            n == t * w + n % t,
            0 <= n % t < t,
    ;
    let h = double::half_even(n, t);
    assert(h * p >= ck * p) by (nonlinear_arith)
        requires
            h >= ck,
            p > 0,
    ;
    assert(ck * p == c * (p * k)) by (nonlinear_arith)
        requires
            ck == c * k,
    ;
}

/// Below a million tokens are counted in thousands, from there on in millions,
/// however the doubles in between round.
pub proof fn law_a_million_is_the_first_that_is_counted_in_millions(tokens: u64)
    ensures
        thousands_of(tokens as nat) >= 1000 * SCALE <==> tokens >= 1_000_000,
{
    let n = tokens as nat * SCALE as nat;
    let whole = double::nearest(n, 1);
    let k = double::nearest(whole, 1000);
    let f = double::FRACTION as nat;
    lemma2_to64();
    lemma2_to64_rest();
    if tokens < 1_000_000 {
        nearest_error(n, 1);
        nearest_error(whole, 1000);
        let p = pow2(double::excess(n / 1));
        let p2 = pow2(double::excess(whole / 1000));
        lemma2_to64();
        assert(n < 1_000_000 * 0x4000_0000_0000_0000);
        assert(n <= 999_999 * 0x4000_0000_0000_0000);
        assert(n / 1 == n);
        assert(p <= 0x4000_0000);
        assert(whole <= 999_999 * 0x4000_0000_0000_0000 + 0x4000_0000);
        assert(p2 <= 0x1000_0000);
        assert(2 * 1000 * k <= 2 * whole + 1000 * p2) by {
            let d = 1000nat;
            assert(2 * d * k <= 2 * whole + d * p2);
        }
        let ki = k as int;
        let wi = whole as int;
        let pi = p2 as int;
        assert(ki < 1000 * 0x4000_0000_0000_0000) by (nonlinear_arith)
            requires
                2 * 1000 * ki <= 2 * wi + 1000 * pi,
                wi <= 999_999 * 0x4000_0000_0000_0000 + 0x4000_0000,
                pi <= 0x1000_0000,
        ;
    } else {
        assert(1000 * SCALE == 125 * pow2(62) * 8);
        lemma_pow2_adds(62, 3);
        lemma_pow2_adds(62, 6);
        if tokens < 0x100_0000_0000 {
            assert(n < 0x100_0000_0000 * 0x4000_0000_0000_0000);
            lemma_pow2_adds(41, 8);
            lemma_pow2_strictly_increases(49, 68);
            double::excess_fits(n / 1, 68);
            nearest_keeps(n, 1, 15625, 68);
            nearest_bound(n, 1);
            lemma_pow2_strictly_increases(45, 65);
            double::excess_fits(whole / 1000, 65);
            nearest_keeps(whole, 1000, 125, 65);
            assert(k >= 1000 * SCALE);
        } else {
            nearest_floor(n, 1);
            nearest_floor(whole, 1000);
            assert(n >= 0x100_0000_0000 * 0x4000_0000_0000_0000);
            assert(n / 1 == n);
            assert(k >= 1000 * SCALE);
        }
    }
}

/// Rounding to a double does not more than halve a number.
proof fn nearest_floor(n: nat, d: nat)
    requires
        d > 0,
    ensures
        2 * double::nearest(n, d) >= n / d,
{
    let q = n / d;
    let s = double::excess(q);
    let p = pow2(s);
    lemma_pow2_pos(s);
    excess_is_small(q);
    lemma2_to64();
    let t = d * p;
    assert(t > 0) by (nonlinear_arith)
        requires
            d > 0,
            p > 0,
            t == d * p,
    ;
    lemma_div_denominator(n as int, d as int, p as int);
    let w = n / t;
    assert(w == q / p);
    lemma_fundamental_div_mod(q as int, p as int);
    let h = double::half_even(n, t);
    assert(2 * (h * p) >= q) by (nonlinear_arith)
        requires
            q == p * w + q % p,
            0 <= q % p < p,
            h >= w,
            p == 1 || 2 * p <= q,
    ;
}

proof fn excess_grows(a: nat, b: nat)
    requires
        a <= b,
    ensures
        double::excess(a) <= double::excess(b),
    decreases b,
{
    if a >= 2 * double::FRACTION {
        excess_grows(a / 2, b / 2);
    }
}

proof fn half_even_grows(a: nat, b: nat, d: nat)
    requires
        a <= b,
        d > 0,
    ensures
        double::half_even(a, d) <= double::half_even(b, d),
{
    lemma_div_is_ordered(a as int, b as int, d as int);
    lemma_fundamental_div_mod(a as int, d as int);
    lemma_fundamental_div_mod(b as int, d as int);
    if a / d == b / d {
        assert(a % d <= b % d);
    }
}

proof fn half_even_of_multiple(k: nat, d: nat)
    requires
        d > 0,
    ensures
        double::half_even(k * d, d) == k,
{
    assert(k * d >= 0) by (nonlinear_arith);
    lemma_fundamental_div_mod_converse((k * d) as int, d as int, k as int, 0);
}

proof fn half_up_of_multiple(k: nat, d: nat)
    requires
        d > 0,
    ensures
        double::half_up(k * d, d) == k,
{
    let n = k * d;
    assert(2 * n + d == k * (2 * d) + d) by (nonlinear_arith)
        requires
            n == k * d,
    ;
    lemma_fundamental_div_mod_converse((2 * n + d) as int, (2 * d) as int, k as int, d as int);
}

proof fn half_up_grows(a: nat, b: nat, d: nat)
    requires
        a <= b,
        d > 0,
    ensures
        double::half_up(a, d) <= double::half_up(b, d),
{
    lemma_div_is_ordered((2 * a + d) as int, (2 * b + d) as int, (2 * d) as int);
}

/// Rounding to a double keeps the order.
proof fn nearest_grows(a: nat, b: nat, d: nat)
    requires
        a <= b,
        d > 0,
    ensures
        double::nearest(a, d) <= double::nearest(b, d),
{
    lemma_div_is_ordered(a as int, b as int, d as int);
    let qa = a / d;
    let qb = b / d;
    excess_grows(qa, qb);
    let ea = double::excess(qa);
    let eb = double::excess(qb);
    let pa = pow2(ea);
    let pb = pow2(eb);
    lemma_pow2_pos(ea);
    lemma_pow2_pos(eb);
    let f = double::FRACTION as nat;
    let ta = d * pa;
    assert(ta > 0) by (nonlinear_arith)
        requires
            d > 0,
            pa > 0,
            ta == d * pa,
    ;
    if ea == eb {
        half_even_grows(a, b, ta);
        let ha = double::half_even(a, ta);
        let hb = double::half_even(b, ta);
        assert(ha * pa <= hb * pa) by (nonlinear_arith)
            requires
                ha <= hb,
                pa > 0,
        ;
    } else {
        double::excess_is_enough(qa);
        excess_is_small(qb);
        lemma_fundamental_div_mod(a as int, d as int);
        lemma_fundamental_div_mod(b as int, d as int);
        let top = 2 * f;
        assert(a <= top * ta) by (nonlinear_arith)
            requires
                a == d * qa + a % d,
                0 <= a % d < d,
                qa < top * pa,
                ta == d * pa,
                d > 0,
        ;
        half_even_grows(a, top * ta, ta);
        half_even_of_multiple(top, ta);
        let ha = double::half_even(a, ta);
        assert(ha * pa <= top * pa) by (nonlinear_arith)
            requires
                ha <= top,
                pa > 0,
        ;
        assert(b >= d * (f * pb)) by (nonlinear_arith)
            requires
                b == d * qb + b % d,
                0 <= b % d,
                pb * f <= qb,
                d > 0,
        ;
        nearest_keeps(b, d, f, eb);
        lemma_pow2_unfold(eb);
        if ea < eb - 1 {
            lemma_pow2_strictly_increases(ea, (eb - 1) as nat);
        }
        assert(pb >= 2 * pa);
        assert(f * pb >= top * pa) by (nonlinear_arith)
            requires
                pb >= 2 * pa,
                top == 2 * f,
        ;
    }
}

/// What is shown of `x`, in tenths.
spec fn tenths(x: nat) -> nat {
    if x >= 100 * SCALE {
        10 * double::half_up(x, SCALE as nat)
    } else if x >= 10 * SCALE {
        10 * double::half_even(x, SCALE as nat)
    } else {
        double::half_even(x * 10, SCALE as nat)
    }
}

proof fn tenths_of_multiples()
    ensures
        double::half_even(10 * SCALE as nat, SCALE as nat) == 10,
        double::half_even(100 * SCALE as nat, SCALE as nat) == 100,
        double::half_up(100 * SCALE as nat, SCALE as nat) == 100,
        double::half_up(1000 * SCALE as nat, SCALE as nat) == 1000,
{
    half_even_of_multiple(10, SCALE as nat);
    half_even_of_multiple(100, SCALE as nat);
    half_up_of_multiple(100, SCALE as nat);
    half_up_of_multiple(1000, SCALE as nat);
}

proof fn tenths_grow(x: nat, y: nat)
    requires
        x <= y,
    ensures
        tenths(x) <= tenths(y),
{
    let s = SCALE as nat;
    tenths_of_multiples();
    if y < 10 * s {
        half_even_grows(x * 10, y * 10, s);
    } else if y < 100 * s {
        if x < 10 * s {
            half_even_grows(x * 10, 100 * s, s);
            half_even_grows(10 * s, y, s);
        } else {
            half_even_grows(x, y, s);
        }
    } else {
        half_up_grows(100 * s, y, s);
        if x < 10 * s {
            half_even_grows(x * 10, 100 * s, s);
        } else if x < 100 * s {
            half_even_grows(x, 100 * s, s);
        } else {
            half_up_grows(x, y, s);
        }
    }
}

/// A number with at most one digit behind a point, in tenths.
pub open spec fn read_tenths(s: Seq<char>) -> int {
    let n = s.len() as int;
    if n >= 2 && s[n - 2] == '.' {
        10 * text::read_dec(s.take(n - 2)) + text::digit_value(s[n - 1])
    } else {
        10 * text::read_dec(s)
    }
}

/// How many tokens a text says: the number before the `k` or the `M`, in
/// thousands or in millions.
pub open spec fn read_tokens(s: Seq<char>) -> int {
    if s.last() == 'M' {
        100_000 * read_tenths(s.drop_last())
    } else {
        100 * read_tenths(s.drop_last())
    }
}

proof fn whole_reads_back(n: nat)
    ensures
        read_tenths(text::dec(n)) == 10 * n,
{
    let s = text::dec(n);
    text::dec_reads_back(n);
    text::dec_digits(n);
    if s.len() >= 2 {
        assert(s[s.len() - 2] != '.');
    }
}

proof fn tenths_read_back(x: nat)
    ensures
        read_tenths(three_digits(x)) == tenths(x),
{
    let s = SCALE as nat;
    if x >= 100 * s {
        whole_reads_back(double::half_up(x, s));
    } else if x >= 10 * s {
        whole_reads_back(double::half_even(x, s));
    } else {
        let q = double::half_even(x * 10, s);
        reveal_with_fuel(double::ten_to, 2);
        let t = double::pointed(q, 1);
        text::dec_reads_back(q / 10);
        assert(text::dec_padded(q % 10, 1) == seq![text::digit(q % 10)]);
        let n = t.len() as int;
        assert(t[n - 2] == '.');
        assert(t.take(n - 2) =~= text::dec(q / 10));
        assert(t[n - 1] == text::digit(q % 10));
    }
}

proof fn tokens_read_back(tokens: nat)
    ensures
        read_tokens(tokens_text(tokens)) == (if thousands_of(tokens) >= 1000 * SCALE {
            100_000 * tenths(millions_of(tokens))
        } else {
            100 * tenths(thousands_of(tokens))
        }),
{
    reveal_strlit("M");
    reveal_strlit("k");
    let x = if thousands_of(tokens) >= 1000 * SCALE {
        millions_of(tokens)
    } else {
        thousands_of(tokens)
    };
    tenths_read_back(x);
    assert(tokens_text(tokens).drop_last() =~= three_digits(x));
}

/// A larger count never reads as a smaller one, also where the precision or the
/// unit changes.
pub proof fn law_more_tokens_never_read_as_fewer(a: nat, b: nat)
    requires
        a <= b,
    ensures
        read_tokens(tokens_text(a)) <= read_tokens(tokens_text(b)),
{
    let s = SCALE as nat;
    tokens_read_back(a);
    tokens_read_back(b);
    assert(a * s <= b * s) by (nonlinear_arith)
        requires
            a <= b,
    ;
    nearest_grows(a * s, b * s, 1);
    nearest_grows(double::nearest(a * s, 1), double::nearest(b * s, 1), 1000);
    let ka = thousands_of(a);
    let kb = thousands_of(b);
    nearest_grows(ka, kb, 1000);
    tenths_grow(ka, kb);
    tenths_grow(millions_of(a), millions_of(b));
    if ka < 1000 * s && kb >= 1000 * s {
        tenths_of_multiples();
        tenths_grow(ka, 1000 * s);
        lemma2_to64();
        lemma2_to64_rest();
        assert(pow2(62) == s);
        assert(1000 * s / 1000 == s) by {
            lemma_fundamental_div_mod_converse((1000 * s) as int, 1000, s as int, 0);
        }
        double::excess_fits(s, 62);
        nearest_keeps(1000 * s, 1000, 1, 62);
        nearest_grows(1000 * s, kb, 1000);
        tenths_grow(s, millions_of(b));
    }
}

/// A number of doubles' bits is its own nearest double.
proof fn nearest_of_double(c: nat, s: nat, d: nat)
    requires
        d > 0,
        double::excess(c * pow2(s)) <= s,
    ensures
        double::nearest(d * (c * pow2(s)), d) == c * pow2(s),
{
    let x = c * pow2(s);
    assert(d * x == x * d) by (nonlinear_arith);
    assert(x * d >= 0) by (nonlinear_arith);
    lemma_fundamental_div_mod_converse((d * x) as int, d as int, x as int, 0);
    let e = double::excess(x);
    let p = pow2(e);
    let k = pow2((s - e) as nat);
    lemma_pow2_pos(e);
    lemma_pow2_adds(e, (s - e) as nat);
    let t = d * p;
    assert(t > 0) by (nonlinear_arith)
        requires
            d > 0,
            p > 0,
            t == d * p,
    ;
    let ck = c * k;
    assert(d * (c * (p * k)) == ck * t && ck * p == c * (p * k)) by (nonlinear_arith)
        requires
            t == d * p,
            ck == c * k,
    ;
    half_even_of_multiple(ck, t);
}

/// Whole thousands below a million, and whole millions below a thousand, read back
/// as they are. With the law that more tokens never read as fewer, every count
/// reads as no less than the whole unit below it and no more than the one above.
#[verifier::rlimit(50)]
pub proof fn law_whole_units_read_back(k: nat)
    requires
        k < 1000,
    ensures
        read_tokens(tokens_text(1000 * k)) == 1000 * k,
        k > 0 ==> read_tokens(tokens_text(1_000_000 * k)) == 1_000_000 * k,
        tokens_text(1000 * k).last() == 'k',
        k > 0 ==> tokens_text(1_000_000 * k).last() == 'M',
{
    let s = SCALE as nat;
    reveal_strlit("M");
    reveal_strlit("k");
    lemma2_to64();
    lemma2_to64_rest();
    assert(pow2(62) == s);
    let t = 1000 * k;
    tokens_read_back(t);
    law_a_million_is_the_first_that_is_counted_in_millions(t as u64);
    assert(t * s == 1 * (t * s) && t * s == 1000 * (k * s)) by (nonlinear_arith)
        requires
            t == 1000 * k,
    ;
    lemma_pow2_strictly_increases(30, 62);
    double::excess_fits(t * s, 62);
    nearest_of_double(t, 62, 1);
    double::excess_fits(k * s, 62);
    nearest_of_double(k, 62, 1000);
    assert(thousands_of(t) == k * s);
    whole_tenths(k);
    let u = 1_000_000 * k;
    tokens_read_back(u);
    if k > 0 {
        law_a_million_is_the_first_that_is_counted_in_millions(u as u64);
        assert(u * s == 1 * (u * s) && u * s == 1000 * (t * s)) by (nonlinear_arith)
            requires
                u == 1000 * t,
        ;
        double::excess_fits(u * s, 62);
        nearest_of_double(u, 62, 1);
        nearest_of_double(t, 62, 1000);
        assert(thousands_of(u) == t * s);
        assert(millions_of(u) == k * s);
    }
}

proof fn whole_tenths(k: nat)
    ensures
        tenths(k * SCALE as nat) == 10 * k,
{
    let s = SCALE as nat;
    half_up_of_multiple(k, s);
    half_even_of_multiple(k, s);
    half_even_of_multiple(10 * k, s);
    assert((k * s) * 10 == (10 * k) * s) by (nonlinear_arith);
}

/// The lines changed are shown exactly if any were: the text is empty where the
/// payload has no cost, or both counts are zero or absent. Wherever either count
/// is above zero the text holds both, the added ones behind a plus and the removed
/// ones behind a minus, and they read back.
#[verifier::rlimit(50)]
pub proof fn law_the_lines_changed_read_back(p: &StatusPayload, shown: String)
    requires
        call_ensures(lines_changed, (p,), shown),
    ensures
        ({
            let added: int = if p.cost is Some && p.cost->0.total_lines_added is Some {
                p.cost->0.total_lines_added->0 as int
            } else {
                0
            };
            let removed: int = if p.cost is Some && p.cost->0.total_lines_removed is Some {
                p.cost->0.total_lines_removed->0 as int
            } else {
                0
            };
            &&& shown@.len() == 0 <==> p.cost is None || (added == 0 && removed == 0)
            &&& added > 0 || removed > 0 ==> exists|a: Seq<char>, b: Seq<char>|
                #![trigger shows_change(shown@, a, b)]
                shows_change(shown@, a, b) && text::read_dec(a) == added && text::read_dec(b)
                    == removed
            &&& forall|a: Seq<char>, b: Seq<char>| #[trigger]
                shows_change(shown@, a, b) ==> text::read_dec(a) == added && text::read_dec(b)
                    == removed
        }),
        shown@ == changed_text(*p),
{
    reveal_strlit("(");
    let added: nat = if p.cost is Some && p.cost->0.total_lines_added is Some {
        p.cost->0.total_lines_added->0 as nat
    } else {
        0
    };
    let removed: nat = if p.cost is Some && p.cost->0.total_lines_removed is Some {
        p.cost->0.total_lines_removed->0 as nat
    } else {
        0
    };
    let x = text::dec(added);
    let y = text::dec(removed);
    text::dec_reads_back(added);
    text::dec_reads_back(removed);
    text::dec_digits(added);
    text::dec_digits(removed);
    if added > 0 || removed > 0 {
        assert(shows_change(shown@, x, y));
    }
    assert forall|a: Seq<char>, b: Seq<char>| #[trigger] shows_change(
        shown@,
        a,
        b,
    ) implies text::read_dec(a) == added && text::read_dec(b) == removed by {
        assert(shown@.len() > 0);
        one_reading(a, b, x, y);
    }
}

/// A text that shows lines added and removed, each in decimal.
pub open spec fn shows_change(s: Seq<char>, added: Seq<char>, removed: Seq<char>) -> bool {
    &&& text_of_digits(added) && text_of_digits(removed)
    &&& s == "("@ + "\x1b[32m"@ + "+"@ + added + "\x1b[0m"@ + " "@ + "\x1b[31m"@ + "-"@ + removed
        + "\x1b[0m"@ + ")"@
}

/// Decimal digits and nothing else.
pub open spec fn text_of_digits(s: Seq<char>) -> bool {
    forall|i: int| 0 <= i < s.len() ==> '0' <= #[trigger] s[i] <= '9'
}

/// A change has one reading only.
#[verifier::rlimit(50)]
proof fn one_reading(a: Seq<char>, b: Seq<char>, x: Seq<char>, y: Seq<char>)
    requires
        text_of_digits(a),
        text_of_digits(x),
        "("@ + GREEN@ + "+"@ + a + RESET@ + " "@ + RED@ + "-"@ + b + RESET@ + ")"@ == "("@ + GREEN@
            + "+"@ + x + RESET@ + " "@ + RED@ + "-"@ + y + RESET@ + ")"@,
    ensures
        a == x && b == y,
{
    reveal_strlit("\x1b[0m");
    let before = "("@ + GREEN@ + "+"@;
    let behind_a = RESET@ + " "@ + RED@ + "-"@ + b + RESET@ + ")"@;
    let behind_x = RESET@ + " "@ + RED@ + "-"@ + y + RESET@ + ")"@;
    let s = before + a + behind_a;
    let t = before + x + behind_x;
    assert(s =~= "("@ + GREEN@ + "+"@ + a + RESET@ + " "@ + RED@ + "-"@ + b + RESET@ + ")"@);
    assert(t =~= "("@ + GREEN@ + "+"@ + x + RESET@ + " "@ + RED@ + "-"@ + y + RESET@ + ")"@);
    let n = before.len() as int;
    assert(behind_a[0] == '\x1b' && behind_x[0] == '\x1b');
    if a.len() < x.len() {
        assert(s[n + a.len()] == behind_a[0]);
        assert(t[n + a.len()] == x[a.len() as int]);
    }
    if x.len() < a.len() {
        assert(t[n + x.len()] == behind_x[0]);
        assert(s[n + x.len()] == a[x.len() as int]);
    }
    assert(a =~= s.subrange(n, n + a.len()));
    assert(x =~= t.subrange(n, n + a.len()));
    let m = n + a.len() + RESET@.len() + " "@.len() + RED@.len() + "-"@.len();
    assert(b.len() == y.len());
    assert(b =~= s.subrange(m, m + b.len()));
    assert(y =~= t.subrange(m, m + b.len()));
}

/// A percentage is red from ninety on, orange from seventy, yellow from fifty, and
/// grey below. The four colours differ.
pub proof fn law_the_colour_warns(pct: Double)
    requires
        !pct.is_nan() && !pct.negative() && !pct.is_infinite(),
    ensures
        pct.units() >= 90 * double::one() <==> colour_of(pct) == "\x1b[31m"@,
        70 * double::one() <= pct.units() < 90 * double::one() <==> colour_of(pct)
            == "\x1b[38;5;208m"@,
        50 * double::one() <= pct.units() < 70 * double::one() <==> colour_of(pct) == "\x1b[33m"@,
        pct.units() < 50 * double::one() <==> colour_of(pct) == "\x1b[90m"@,
{
    reveal_strlit("\x1b[31m");
    reveal_strlit("\x1b[38;5;208m");
    reveal_strlit("\x1b[33m");
    reveal_strlit("\x1b[90m");
    assert("\x1b[31m"@[2] != "\x1b[33m"@[2] || "\x1b[31m"@[3] != "\x1b[33m"@[3]);
    assert("\x1b[90m"@[2] != "\x1b[33m"@[2]);
    assert("\x1b[90m"@[2] != "\x1b[31m"@[2]);
    assert("\x1b[31m"@.len() != "\x1b[38;5;208m"@.len());
    assert("\x1b[33m"@.len() != "\x1b[38;5;208m"@.len());
    assert("\x1b[90m"@.len() != "\x1b[38;5;208m"@.len());
    lemma_pow2_pos(1074);
}

/// What is no number, or below zero, is grey, and what is infinitely large red.
pub proof fn law_the_colour_of_what_is_no_percentage(pct: Double)
    ensures
        pct.is_nan() || pct.negative() ==> colour_of(pct) == GREY@ && cells(pct) == 0
            && context_shown(pct) == 0,
        pct.is_infinite() && !pct.negative() ==> colour_of(pct) == RED@ && cells(pct) == 10
            && context_shown(pct) == 100,
{
}

/// The bar fills the cell that a tenth of the percentage rounds to: so many tenths
/// of the bar as are nearest to the percentage, a tie counting as filled.
pub proof fn law_the_bar_is_nearest(pct: Double, i: int)
    requires
        !pct.is_nan() && !pct.negative() && !pct.is_infinite(),
        0 <= i < 10,
    ensures
        bar_of(pct)[i] == '█' <==> pct.units() >= (10 * i + 5) * double::one(),
        bar_of(pct)[i] == '█' || bar_of(pct)[i] == '░',
{
    let one = double::one();
    lemma_pow2_pos(1074);
    double::law_half_up_is_nearest(pct.units(), 10 * one);
    let h = double::half_up(pct.units(), 10 * one) as int;
    let u = pct.units() as int;
    let o = one as int;
    assert(h > i <==> u >= (10 * i + 5) * o) by (nonlinear_arith)
        requires
            o > 0,
            -(10 * o) <= 2 * (u - h * (10 * o)) < 10 * o,
    ;
}

/// The number that is shown of the context reads back: it is the percentage to the
/// nearest whole, and never above a hundred. Both variants end in it.
#[verifier::rlimit(50)]
pub proof fn law_the_context_reads_back(pct: Double, short: bool)
    requires
        !pct.is_nan() && !pct.negative() && !pct.is_infinite(),
    ensures
        ({
            let n = context_shown(pct) as int;
            let tail = colour_of(pct) + text::dec(n as nat) + "%"@ + RESET@;
            &&& text::read_dec(text::dec(n as nat)) == n <= 100
            &&& n < 100 ==> -(double::one() as int) <= 2 * (pct.units() - n * double::one())
                < double::one()
            &&& n == 100 ==> 2 * pct.units() >= 199 * double::one()
            &&& tail.is_suffix_of(context_text(pct, short))
            &&& short ==> context_text(pct, short) == tail
            &&& !short ==> context_text(pct, short) == ("\x1b[38;5;13m"@ + seq![ICON_CONTEXT]
                + " "@ + "\x1b[90m"@) + bar_of(pct) + ("\x1b[0m"@ + " "@ + tail)
        }),
{
    let one = double::one();
    lemma_pow2_pos(1074);
    double::law_half_up_is_nearest(pct.units(), one);
    let n = context_shown(pct) as int;
    text::dec_reads_back(n as nat);
    let h = double::half_up(pct.units(), one) as int;
    let u = pct.units() as int;
    let o = one as int;
    assert(h >= 100 ==> 2 * u >= 199 * o) by (nonlinear_arith)
        requires
            o > 0,
            -o <= 2 * (u - h * o) < o,
    ;
    let number = colour_of(pct) + text::dec(n as nat) + "%"@ + RESET@;
    let whole = context_text(pct, short);
    let a = MAGENTA@ + seq![ICON_CONTEXT] + " "@ + GREY@;
    let b = RESET@ + " "@ + number;
    if !short {
        assert(whole =~= a + bar_of(pct) + b);
    }
    assert(whole.skip(whole.len() - number.len()) =~= number);
}

/// The number that is shown of a limit reads back: it is the percentage to the
/// nearest whole.
pub proof fn law_a_limit_reads_back(label: Seq<char>, pct: Double)
    requires
        !pct.is_nan() && !pct.negative() && !pct.is_infinite(),
        pct.units() < u32::MAX * double::one(),
    ensures
        ({
            let n = pct.rounded() as int;
            &&& limit_text(label, pct) == GREY@ + label + colour_of(pct) + text::dec(n as nat)
                + "%"@ + RESET@
            &&& text::read_dec(text::dec(n as nat)) == n
            &&& -(double::one() as int) <= 2 * (pct.units() - n * double::one()) < double::one()
        }),
{
    let one = double::one();
    lemma_pow2_pos(1074);
    double::law_half_up_is_nearest(pct.units(), one);
    text::dec_reads_back(pct.rounded());
    let h = double::half_up(pct.units(), one) as int;
    let u = pct.units() as int;
    let o = one as int;
    assert(h <= u32::MAX) by (nonlinear_arith)
        requires
            o > 0,
            u < u32::MAX * o,
            -o <= 2 * (u - h * o) < o,
    ;
}

/// A limit is shown exactly if the payload has a percentage for it, the five-hour
/// one before the seven-day one, each under its own label.
pub proof fn law_which_limits_are_shown(p: StatusPayload)
    ensures
        ({
            let five = p.rate_limits is Some && p.rate_limits->0.five_hour is Some
                && p.rate_limits->0.five_hour->0.used_percentage is Some;
            let seven = p.rate_limits is Some && p.rate_limits->0.seven_day is Some
                && p.rate_limits->0.seven_day->0.used_percentage is Some;
            let texts = limit_texts(p);
            &&& texts.len() == (if five {
                1int
            } else {
                0
            }) + (if seven {
                1int
            } else {
                0
            })
            &&& five ==> texts.first() == limit_text(
                "5h "@,
                p.rate_limits->0.five_hour->0.used_percentage->0,
            )
            &&& seven ==> texts.last() == limit_text(
                "7d "@,
                p.rate_limits->0.seven_day->0.used_percentage->0,
            )
            &&& limits_text(p) is None <==> !five && !seven
            &&& five || seven ==> text::joined(texts, " "@).is_suffix_of(limits_text(p)->0)
        }),
{
    let texts = limit_texts(p);
    if limits_text(p) is Some {
        let t = limits_text(p)->0;
        let j = text::joined(texts, " "@);
        assert(t.skip(t.len() - j.len()) =~= j);
    }
}

/// A name that is cut keeps as much of its beginning as of its end, or one
/// character more, with one ellipsis between them.
pub proof fn law_a_truncated_name_keeps_both_ends(s: Seq<char>, max: nat)
    requires
        0 < max < s.len(),
    ensures
        exists|a: Seq<char>, b: Seq<char>|
            truncated(s, max) == #[trigger] (a + seq!['…'] + b) && a.is_prefix_of(s)
                && b.is_suffix_of(s) && a.len() + 1 + b.len() == max && b.len() <= a.len()
                <= b.len() + 1,
{
    let keep = (max - 1) as nat;
    let a = s.take(keep - keep / 2);
    let b = s.skip(s.len() - keep / 2);
    assert(truncated(s, max) == a + seq!['…'] + b);
}

/// A path under the home directory begins with `~` in its place; any other path,
/// and any path where there is no home directory, stays.
pub proof fn law_the_home_directory_is_a_tilde(path: Seq<char>, home: Seq<char>, rest: Seq<char>)
    ensures
        home.len() > 0 ==> from_home(home + rest, home) == seq!['~'] + rest,
        home.len() == 0 ==> from_home(path, home) == path,
        !home.is_prefix_of(path) ==> from_home(path, home) == path,
{
    assert((home + rest).take(home.len() as int) =~= home);
    assert((home + rest).skip(home.len() as int) =~= rest);
    if text::begins_with(path, home) {
        assert(home =~= path.subrange(0, home.len() as int));
    }
}

/// Of every segment but the last a shortened path keeps the first character, and
/// of one that begins with a dot the dot and the character behind it. An empty one
/// and the home directory's `~` stay, and so does the last.
pub proof fn law_how_segments_are_shortened(path: Seq<char>, home: Seq<char>, i: int)
    requires
        0 <= i < text::split_on(from_home(path, home), '/').len(),
    ensures
        ({
            let parts = text::split_on(from_home(path, home), '/');
            let short = text::split_on(short_path(path, home), '/');
            &&& short.len() == parts.len()
            &&& i == parts.len() - 1 ==> short[i] == parts[i]
            &&& parts[i].len() == 0 ==> short[i].len() == 0
            &&& parts[i] == seq!['~'] ==> short[i] == seq!['~']
            &&& i < parts.len() - 1 && parts[i].len() > 0 && parts[i] != seq!['~'] ==> {
                &&& short[i].is_prefix_of(parts[i])
                &&& short[i].len() == (if parts[i][0] == '.' && parts[i].len() > 1 {
                    2int
                } else {
                    1
                })
            }
        }),
{
    let parts = text::split_on(from_home(path, home), '/');
    let shorts = short_parts(parts);
    text::split_without_sep(from_home(path, home), '/');
    text::split_nonempty(from_home(path, home), '/');
    assert forall|j: int| 0 <= j < shorts.len() implies !(#[trigger] shorts[j]).contains('/') by {
        assert forall|k: int| 0 <= k < shorts[j].len() implies shorts[j][k] != '/' by {
            assert(shorts[j][k] == parts[j][k]);
        }
    }
    text::join_then_split(shorts, '/');
    assert(text::split_on(short_path(path, home), '/') == shorts);
}

/// What the line begins with. The branch is there exactly in the long variant and
/// where there is one; behind it stand the lines changed, and before it the
/// directory, if there is one.
#[verifier::rlimit(50)]
pub proof fn law_what_the_line_begins_with(input: RenderInput)
    ensures
        ({
            let dir: Seq<char> = match input.payload.dir() {
                Some(d) => short_path(d, input.home@),
                None => Seq::empty(),
            };
            let branch = !input.short && input.branch is Some && input.branch->0@.len() > 0;
            let h = head_text(input);
            &&& !branch ==> h == CYAN@ + dir + RESET@
            &&& branch && dir.len() > 0 ==> ("\x1b[36m"@ + dir + RESET@ + " "@ + "\x1b[38;5;12m"@
                + seq![ICON_BRANCH]).is_prefix_of(h)
            &&& branch && dir.len() == 0 ==> ("\x1b[38;5;12m"@ + seq![ICON_BRANCH]).is_prefix_of(h)
            &&& branch ==> (" "@ + "\x1b[32m"@ + truncated(input.branch->0@, 32) + changed_text(
                *input.payload,
            ) + RESET@).is_suffix_of(h)
            &&& h.is_prefix_of(line_text(input))
        }),
{
    let dir: Seq<char> = match input.payload.dir() {
        Some(d) => short_path(d, input.home@),
        None => Seq::empty(),
    };
    let branch = !input.short && input.branch is Some && input.branch->0@.len() > 0;
    let h = head_text(input);
    if branch {
        let name = truncated(input.branch->0@, 32);
        let tail = " "@ + GREEN@ + name + changed_text(*input.payload) + RESET@;
        assert(h.skip(h.len() - tail.len()) =~= tail);
        if dir.len() > 0 {
            let start = CYAN@ + dir + RESET@ + " "@ + BLUE@ + seq![ICON_BRANCH];
            assert(h.take(start.len() as int) =~= start);
            assert(h.subrange(0, start.len() as int) =~= start);
        } else {
            let start = BLUE@ + seq![ICON_BRANCH];
            assert(h.subrange(0, start.len() as int) =~= start);
        }
    }
    reveal_strlit("\x1b[0m");
    assert(h.len() > 0);
    let line = line_text(input);
    assert(line.subrange(0, h.len() as int) =~= h);
}

/// The beginning and the segments stand in order, with the separator between each
/// two of them.
#[verifier::rlimit(50)]
pub proof fn law_how_the_line_is_joined(
    head: Seq<char>,
    segments: Seq<Seq<char>>,
    last: Seq<char>,
)
    requires
        head.len() > 0,
        last.len() > 0,
    ensures
        joined_line(head, Seq::empty()) == head,
        joined_line(head, seq![last]) == head + GREY@ + " • "@ + RESET@ + last,
        segments.len() > 0 && segments[0].len() > 0 ==> joined_line(head, segments.push(last))
            == joined_line(head, segments) + GREY@ + " • "@ + RESET@ + last,
        joined_line(Seq::empty(), seq![last]) == last,
{
    let sep = separator();
    assert(text::joined(Seq::<Seq<char>>::empty(), sep) =~= Seq::<char>::empty());
    assert(joined_line(head, seq![last]) =~= head + GREY@ + " • "@ + RESET@ + last);
    text::law_how_parts_are_joined(segments, last, sep);
    if segments.len() > 0 && segments[0].len() > 0 {
        joined_begins_with_the_first(segments, sep);
        assert(joined_line(head, segments.push(last)) =~= joined_line(head, segments) + GREY@
            + " • "@ + RESET@ + last);
    }
}

proof fn joined_begins_with_the_first(parts: Seq<Seq<char>>, sep: Seq<char>)
    requires
        parts.len() > 0,
    ensures
        text::joined(parts, sep).len() >= parts[0].len(),
    decreases parts.len(),
{
    if parts.len() > 1 {
        joined_begins_with_the_first(parts.drop_last(), sep);
    }
}

/// Which segments the long variant has, in order: the context and the model where
/// the payload tells of them, always the session and the windows, and the limits
/// where it tells of one.
pub proof fn law_the_segments_of_the_long_line(input: RenderInput)
    ensures
        ({
            let context = input.payload.context_window is Some
                && input.payload.context_window->0.used_percentage is Some;
            let model = input.payload.model_text() is Some;
            let limits = limits_text(*input.payload) is Some;
            let at: int = (if context {
                1int
            } else {
                0
            }) + (if model {
                1int
            } else {
                0
            });
            let parts = long_segments(input);
            &&& parts.len() == at + 2 + (if limits {
                1int
            } else {
                0
            })
            &&& context ==> parts[0] == context_text(
                input.payload.context_window->0.used_percentage->0,
                input.short,
            )
            &&& model ==> parts[at - 1] == model_line(
                *input.payload,
                input.payload.model_text()->0,
            )
            &&& parts[at] == session_text(*input.summary)
            &&& parts[at + 1] == windows_text(*input.summary)
            &&& limits ==> parts[at + 2] == limits_text(*input.payload)->0
            &&& !input.short ==> line_text(input) == joined_line(head_text(input), parts)
        }),
{
}

/// Which segments the compact variant has: the context where the payload tells of
/// it, and today's tokens where there are any. Neither the model nor the limits
/// nor the week.
pub proof fn law_the_segments_of_the_short_line(input: RenderInput)
    ensures
        ({
            let context = input.payload.context_window is Some
                && input.payload.context_window->0.used_percentage is Some;
            let today = input.summary.today_tokens > 0;
            let parts = short_segments(input);
            &&& parts.len() == (if context {
                1int
            } else {
                0
            }) + (if today {
                1int
            } else {
                0
            })
            &&& context ==> parts.first() == context_text(
                input.payload.context_window->0.used_percentage->0,
                input.short,
            )
            &&& today ==> tokens_text(input.summary.today_tokens as nat).is_suffix_of(parts.last())
            &&& input.short ==> line_text(input) == joined_line(head_text(input), parts)
        }),
{
    let parts = short_segments(input);
    if input.summary.today_tokens > 0 {
        let t = tokens_text(input.summary.today_tokens as nat);
        assert(parts.last() == GREY@ + seq![ICON_TOKENS] + " "@ + RESET@ + t);
        assert(parts.last().skip(parts.last().len() - t.len()) =~= t);
    }
}

/// The model is shown with its effort level in brackets exactly if the payload has
/// one.
#[verifier::rlimit(50)]
pub proof fn law_the_model_is_shown_with_its_effort(p: StatusPayload, model: Seq<char>)
    ensures
        ({
            let level = p.effort is Some && p.effort->0.level is Some;
            let shown = model_line(p, model);
            &&& ("\x1b[38;5;14m"@ + seq![ICON_MODEL] + " "@ + "\x1b[38;5;208m"@
                + model).is_prefix_of(shown)
            &&& level ==> (model + GREY@ + " ("@ + p.effort->0.level->0@ + ")"@
                + RESET@).is_suffix_of(shown)
            &&& !level ==> (ORANGE@ + model + RESET@).is_suffix_of(shown)
        }),
{
    let shown = model_line(p, model);
    let start = TEAL@ + seq![ICON_MODEL] + " "@ + ORANGE@ + model;
    assert(shown.subrange(0, start.len() as int) =~= start);
    if p.effort is Some && p.effort->0.level is Some {
        let tail = model + GREY@ + " ("@ + p.effort->0.level->0@ + ")"@ + RESET@;
        assert(shown.skip(shown.len() - tail.len()) =~= tail);
    } else {
        let tail = ORANGE@ + model + RESET@;
        assert(shown.skip(shown.len() - tail.len()) =~= tail);
    }
}

/// The session's segment shows the session's tokens, and the windows' segment
/// today's and then the week's, each with the same words around it.
pub proof fn law_which_tokens_are_shown_where(s: LedgerSummary)
    requires
        s.session_tokens >= 0 && s.today_tokens >= 0 && s.week_tokens >= 0,
    ensures
        session_text(s) == (GREY@ + seq![ICON_TOKENS] + " "@ + RESET@) + tokens_text(
            s.session_tokens as nat,
        ) + (" "@ + GREY@ + "session"@ + RESET@),
        windows_text(s) == (GREY@ + "today "@ + RESET@) + tokens_text(s.today_tokens as nat) + (
        " "@ + GREY@ + "/ week "@ + RESET@) + tokens_text(s.week_tokens as nat),
{
    assert(session_text(s) =~= (GREY@ + seq![ICON_TOKENS] + " "@ + RESET@) + tokens_text(
        s.session_tokens as nat,
    ) + (" "@ + GREY@ + "session"@ + RESET@));
    assert(windows_text(s) =~= (GREY@ + "today "@ + RESET@) + tokens_text(s.today_tokens as nat) + (
    " "@ + GREY@ + "/ week "@ + RESET@) + tokens_text(s.week_tokens as nat));
}

/// An amount has three digits behind the point below a cent, and two from there
/// on, and reads back as the nearest such number.
pub proof fn law_a_cost_reads_back(cost: Double, shown: String)
    requires
        call_ensures(format_cost, (cost,), shown),
        !cost.is_nan() && !cost.negative() && !cost.is_infinite(),
    ensures
        ({
            let places: nat = if cost.units() < (Double { bits: CENT }).units() {
                3
            } else {
                2
            };
            let at = shown@.len() - 1 - places;
            let q = text::read_dec(shown@.take(at)) * double::ten_to(places) + text::read_dec(
                shown@.skip(at + 1),
            );
            &&& at > 0 && shown@[at] == '.'
            &&& -(double::one() as int) <= 2 * (cost.units() * double::ten_to(places) - q
                * double::one()) <= double::one()
        }),
{
    let places: nat = if cost.units() < (Double { bits: CENT }).units() {
        3
    } else {
        2
    };
    lemma_pow2_pos(1074);
    let n = cost.units() * double::ten_to(places);
    let q = double::half_even(n, double::one());
    double::law_half_even_is_nearest(n, double::one());
    double::law_a_pointed_number_reads_back(q, places);
    assert(shown@ =~= double::pointed(q, places));
}

/// Without a payload the line is the directory, as it is shortened elsewhere, or
/// the program's name.
pub proof fn law_what_the_fallback_shows(dir: Option<&str>, home: &str, shown: String)
    requires
        call_ensures(fallback, (dir, home), shown),
    ensures
        dir matches Some(d) ==> shown@ == "\x1b[36m"@ + short_path(d@, home@) + "\x1b[0m"@,
        dir is None ==> shown@ == "\x1b[90m"@ + "cc-ledger"@ + "\x1b[0m"@,
{
}

/// What each part of the line is made of, operation by operation.
#[verifier::rlimit(50)]
pub proof fn law_what_the_percentages_show(
    pct: Double,
    short: bool,
    colour: &'static str,
    cells_shown: String,
    segment: String,
)
    requires
        !pct.is_nan() && !pct.negative() && !pct.is_infinite(),
        call_ensures(pct_colour, (pct,), colour),
        call_ensures(bar, (pct,), cells_shown),
        call_ensures(context_segment, (pct, short), segment),
    ensures
        pct.units() >= 90 * double::one() ==> colour@ == RED@,
        70 * double::one() <= pct.units() < 90 * double::one() ==> colour@ == ORANGE@,
        50 * double::one() <= pct.units() < 70 * double::one() ==> colour@ == YELLOW@,
        pct.units() < 50 * double::one() ==> colour@ == GREY@,
        cells_shown@.len() == 10,
        forall|i: int|
            0 <= i < 10 ==> (#[trigger] cells_shown@[i] == '█' <==> pct.units() >= (10 * i + 5)
                * double::one()),
        (colour@ + text::dec(context_shown(pct)) + "%"@ + RESET@).is_suffix_of(segment@),
        !short ==> exists|a: Seq<char>, b: Seq<char>|
            segment@ == #[trigger] (a + cells_shown@ + b),
{
    law_the_colour_warns(pct);
    law_the_context_reads_back(pct, short);
    assert(!short ==> segment@ == ("\x1b[38;5;13m"@ + seq![ICON_CONTEXT] + " "@ + "\x1b[90m"@)
        + cells_shown@ + ("\x1b[0m"@ + " "@ + (colour@ + text::dec(context_shown(pct)) + "%"@
        + RESET@)));
    assert forall|i: int| 0 <= i < 10 implies (#[trigger] cells_shown@[i] == '█' <==> pct.units()
        >= (10 * i + 5) * double::one()) by {
        law_the_bar_is_nearest(pct, i);
    }
}

/// The limits are shown if and only if the payload tells of one.
#[verifier::rlimit(50)]
pub proof fn law_the_limits_that_are_shown(p: &StatusPayload, r: Option<String>)
    requires
        call_ensures(rate_limit_segment, (p,), r),
    ensures
        ({
            let five = p.rate_limits is Some && p.rate_limits->0.five_hour is Some
                && p.rate_limits->0.five_hour->0.used_percentage is Some;
            let seven = p.rate_limits is Some && p.rate_limits->0.seven_day is Some
                && p.rate_limits->0.seven_day->0.used_percentage is Some;
            let five_text = limit_text("5h "@, p.rate_limits->0.five_hour->0.used_percentage->0);
            let seven_text = limit_text("7d "@, p.rate_limits->0.seven_day->0.used_percentage->0);
            let start = GREY@ + seq![ICON_LIMITS] + " "@ + RESET@;
            &&& r is Some <==> five || seven
            &&& five && !seven ==> r->0@ == start + five_text
            &&& !five && seven ==> r->0@ == start + seven_text
            &&& five && seven ==> r->0@ == start + five_text + " "@ + seven_text
        }),
{
    let texts = limit_texts(*p);
    law_which_limits_are_shown(*p);
    if texts.len() == 2 {
        text::law_how_parts_are_joined(seq![texts[0]], texts[1], " "@);
        assert(texts =~= seq![texts[0]].push(texts[1]));
        assert(r->0@ =~= GREY@ + seq![ICON_LIMITS] + " "@ + RESET@ + texts[0] + " "@ + texts[1]);
    }
}

/// Two counts that are shown compare as they are: the larger never reads as fewer,
/// and whole thousands below a million read as they are.
pub proof fn law_how_counts_are_shown(a: u64, b: u64, x: String, y: String)
    requires
        call_ensures(format_tokens, (a,), x),
        call_ensures(format_tokens, (b,), y),
        a <= b,
    ensures
        read_tokens(x@) <= read_tokens(y@),
        x@.last() == 'M' <==> a >= 1_000_000,
        x@.last() == 'k' <==> a < 1_000_000,
        a < 1_000_000 && a % 1000 == 0 ==> read_tokens(x@) == a,
        a % 1_000_000 == 0 && a < 1_000_000_000 ==> read_tokens(x@) == a,
        a < 1_000_000 ==> a - a % 1000 <= read_tokens(x@) <= a - a % 1000 + 1000,
{
    law_more_tokens_never_read_as_fewer(a as nat, b as nat);
    the_unit_of_a_count(a);
    if a < 1_000_000 {
        a_count_is_bracketed(a);
    } else if a % 1_000_000 == 0 && a < 1_000_000_000 {
        law_whole_units_read_back((a / 1_000_000) as nat);
    }
}

proof fn the_unit_of_a_count(a: u64)
    ensures
        tokens_text(a as nat).last() == 'M' <==> a >= 1_000_000,
        tokens_text(a as nat).last() == 'k' <==> a < 1_000_000,
{
    law_a_million_is_the_first_that_is_counted_in_millions(a);
    reveal_strlit("M");
    reveal_strlit("k");
}

#[verifier::spinoff_prover]
#[verifier::rlimit(50)]
proof fn a_count_is_bracketed(a: u64)
    requires
        a < 1_000_000,
    ensures
        a % 1000 == 0 ==> read_tokens(tokens_text(a as nat)) == a,
        a - a % 1000 <= read_tokens(tokens_text(a as nat)) <= a - a % 1000 + 1000,
{
    let k = (a / 1000) as nat;
    let n = a as nat;
    let low = read_tokens(tokens_text(1000 * k));
    let high = read_tokens(tokens_text(1000 * (k + 1)));
    assert(low == 1000 * k) by {
        law_whole_units_read_back(k);
    }
    assert(high == 1000 * (k + 1)) by {
        if k + 1 < 1000 {
            law_whole_units_read_back(k + 1);
        } else {
            law_whole_units_read_back(1);
        }
    }
    law_more_tokens_never_read_as_fewer(1000 * k, n);
    law_more_tokens_never_read_as_fewer(n, 1000 * (k + 1));
    if a % 1000 == 0 {
        assert(n == 1000 * k);
    }
}

/// How names and paths are shortened, operation by operation.
#[verifier::rlimit(50)]
pub proof fn law_how_names_and_paths_are_shown(
    s: &str,
    max: usize,
    home: &str,
    cut: String,
    seen: String,
    short: String,
)
    requires
        max > 0,
        call_ensures(truncate_middle, (s, max), cut),
        call_ensures(tilde, (s, home), seen),
        call_ensures(fish_shorten_path, (s, home), short),
    ensures
        s@.len() <= max ==> cut@ == s@,
        s@.len() > max ==> cut@.len() == max && exists|a: Seq<char>, b: Seq<char>|
            cut@ == #[trigger] (a + seq!['…'] + b) && a.is_prefix_of(s@) && b.is_suffix_of(s@)
                && b.len() <= a.len() <= b.len() + 1,
        home@.len() > 0 && home@.is_prefix_of(s@) ==> seen@ == seq!['~'] + s@.skip(
            home@.len() as int,
        ),
        home@.len() == 0 || !home@.is_prefix_of(s@) ==> seen@ == s@,
        text::split_on(short@, '/').len() == text::split_on(seen@, '/').len(),
        text::split_on(short@, '/').last() == text::split_on(seen@, '/').last(),
        forall|i: int|
            0 <= i < text::split_on(seen@, '/').len() ==> (#[trigger] text::split_on(
                short@,
                '/',
            )[i]).is_prefix_of(text::split_on(seen@, '/')[i]),
{
    law_a_truncated_name_fits(s@, max as nat);
    if s@.len() > max {
        law_a_truncated_name_keeps_both_ends(s@, max as nat);
    }
    if home@.is_prefix_of(s@) {
        assert(s@.take(home@.len() as int) =~= home@);
    }
    law_the_home_directory_is_a_tilde(s@, home@, Seq::empty());
    law_a_shortened_path_keeps_its_last_segment(s@, home@);
    let parts = text::split_on(seen@, '/');
    assert forall|i: int| 0 <= i < parts.len() implies (#[trigger] text::split_on(
        short@,
        '/',
    )[i]).is_prefix_of(parts[i]) by {
        law_how_segments_are_shortened(s@, home@, i);
    }
}

/// The line begins with what its beginning is, and its parts are joined with the
/// separator.
pub proof fn law_what_the_line_is(
    input: &RenderInput,
    start: String,
    line: String,
    first: &str,
    segments: &Vec<String>,
    joined: String,
)
    requires
        call_ensures(head, (input,), start),
        call_ensures(render, (input,), line),
        call_ensures(join, (first, segments), joined),
        first@.len() > 0,
    ensures
        start@ == head_text(*input),
        start@.is_prefix_of(line@),
        line@ == line_text(*input),
        segments@.len() == 0 ==> joined@ == first@,
        segments@.len() == 1 && segments@[0]@.len() > 0 ==> joined@ == first@ + GREY@ + " • "@
            + RESET@ + segments@[0]@,
        joined@ == joined_line(first@, text::texts(segments@)),
{
    law_what_the_line_begins_with(*input);
    let parts = text::texts(segments@);
    assert(parts.len() == segments@.len());
    if segments@.len() == 0 {
        assert(parts =~= Seq::<Seq<char>>::empty());
        assert(text::joined(parts, separator()).len() == 0);
    } else if segments@.len() == 1 && segments@[0]@.len() > 0 {
        assert(parts =~= seq![segments@[0]@]);
        law_how_the_line_is_joined(first@, Seq::empty(), segments@[0]@);
    }
}

/// A count in thousands, or in millions, is so close to the count that rounding it
/// to a digit comes to the same as rounding the count itself.
#[verifier::rlimit(50)]
proof fn counts_are_close(a: u64)
    requires
        a < 1_000_000_000,
    ensures
        ({
            let off = 1000 * thousands_of(a as nat) - a * SCALE;
            -0x1_0000_0000_0000 <= off <= 0x1_0000_0000_0000
        }),
        ({
            let off = 1_000_000 * millions_of(a as nat) - a * SCALE;
            -0x4_0000_0000_0000 <= off <= 0x4_0000_0000_0000
        }),
{
    let s = SCALE as nat;
    let n = a as nat;
    lemma2_to64();
    lemma2_to64_rest();
    assert(pow2(62) == s);
    let whole = n * s;
    assert(whole == 1 * (n * s)) by (nonlinear_arith)
        requires
            whole == n * s,
    ;
    assert(whole < 1_000_000_000 * 0x4000_0000_0000_0000);
    double::excess_fits(whole, 62);
    nearest_of_double(n, 62, 1);
    assert(double::nearest(whole, 1) == whole);
    double::law_nearest_is_nearest(whole, 1000);
    let x = thousands_of(n);
    let p = pow2(double::excess(whole / 1000)) as int;
    assert(whole / 1000 < 1_000_000 * 0x4000_0000_0000_0000);
    assert(p <= 0x4000_0000) by {
        assert(p == 1 || p * 0x10_0000_0000_0000 < 1_000_000 * 0x4000_0000_0000_0000);
    }
    assert(x * 1000 == 1000 * x);
    double::law_nearest_is_nearest(x, 1000);
    let y = millions_of(n);
    let q = pow2(double::excess(x / 1000)) as int;
    assert(x / 1000 < 2_000 * 0x4000_0000_0000_0000);
    assert(q <= 0x20_0000) by {
        assert(q == 1 || q * 0x10_0000_0000_0000 < 2_000 * 0x4000_0000_0000_0000);
    }
}

/// What is shown of a count is the count to the last digit that is shown: tenths
/// of a thousand below ten thousand, thousands below a million, tenths of a
/// million below ten million, and millions from there on, each to the nearest.
#[verifier::rlimit(50)]
pub proof fn law_counts_are_shown_to_the_nearest(a: u64, r: String)
    requires
        call_ensures(format_tokens, (a,), r),
    ensures
        a < 10_000 ==> -50 <= read_tokens(r@) - a <= 50,
        a < 1_000_000 ==> -500 <= read_tokens(r@) - a <= 500,
        1_000_000 <= a < 10_000_000 ==> -50_000 <= read_tokens(r@) - a <= 50_000,
        1_000_000 <= a < 1_000_000_000 ==> -500_000 <= read_tokens(r@) - a <= 500_000,
{
    if a < 1_000_000_000 {
        counts_are_close(a);
        law_a_million_is_the_first_that_is_counted_in_millions(a);
        tokens_read_back(a as nat);
        if a < 1_000_000 {
            tenths_are_near(thousands_of(a as nat));
        } else {
            tenths_are_near(millions_of(a as nat));
        }
    }
}

proof fn tenths_are_near(x: nat)
    ensures
        x < 10 * SCALE ==> -(SCALE as int) <= 2 * (10 * x - tenths(x) * SCALE) <= SCALE,
        x >= 10 * SCALE ==> -(10 * SCALE) <= 2 * (10 * x - tenths(x) * SCALE) <= 10 * SCALE,
{
    let s = SCALE as nat;
    double::law_half_even_is_nearest(x * 10, s);
    double::law_half_even_is_nearest(x, s);
    double::law_half_up_is_nearest(x, s);
}

/// A count has one digit behind a point below ten thousand, and from a million on
/// below ten million; other counts below a thousand million have no point.
#[verifier::rlimit(50)]
pub proof fn law_which_counts_have_a_point(a: u64, r: String)
    requires
        call_ensures(format_tokens, (a,), r),
        a < 1_000_000_000,
    ensures
        a < 10_000 || 1_000_000 <= a < 10_000_000 ==> r@.len() >= 4 && r@[r@.len() - 3] == '.',
        10_000 <= a < 1_000_000 || 10_000_000 <= a ==> !r@.contains('.'),
{
    reveal_strlit("M");
    reveal_strlit("k");
    counts_are_close(a);
    law_a_million_is_the_first_that_is_counted_in_millions(a);
    if a < 1_000_000 {
        let x = thousands_of(a as nat);
        if a >= 10_000 {
            ten_units(a as nat);
        }
        assert(r@ == three_digits(x) + "k"@);
        where_the_point_stands(x, r@);
    } else {
        let x = millions_of(a as nat);
        if a >= 10_000_000 {
            ten_units(a as nat);
        }
        assert(r@ == three_digits(x) + "M"@);
        where_the_point_stands(x, r@);
    }
}

#[verifier::rlimit(50)]
proof fn ten_units(n: nat)
    ensures
        n >= 10_000 ==> thousands_of(n) >= 10 * SCALE,
        n >= 10_000_000 ==> millions_of(n) >= 10 * SCALE,
{
    let s = SCALE as nat;
    lemma2_to64();
    lemma2_to64_rest();
    assert(pow2(62) == s);
    lemma_pow2_strictly_increases(30, 62);
    double::excess_fits(10 * s, 62);
    double::excess_fits(10_000 * s, 62);
    double::excess_fits(10_000_000 * s, 62);
    nearest_of_double(10, 62, 1000);
    nearest_of_double(10_000, 62, 1);
    nearest_of_double(10_000, 62, 1000);
    nearest_of_double(10_000_000, 62, 1);
    assert(1000 * (10 * s) == 10_000 * s);
    assert(1000 * (10_000 * s) == 10_000_000 * s);
    if n >= 10_000 {
        assert(10_000 * s <= n * s) by (nonlinear_arith)
            requires
                n >= 10_000,
        ;
        nearest_grows(10_000 * s, n * s, 1);
        nearest_grows(10_000 * s, double::nearest(n * s, 1), 1000);
    }
    if n >= 10_000_000 {
        assert(10_000_000 * s <= n * s) by (nonlinear_arith)
            requires
                n >= 10_000_000,
        ;
        nearest_grows(10_000_000 * s, n * s, 1);
        nearest_grows(10_000_000 * s, double::nearest(n * s, 1), 1000);
        nearest_grows(10_000 * s, thousands_of(n), 1000);
    }
}

proof fn where_the_point_stands(x: nat, t: Seq<char>)
    requires
        t == three_digits(x) + "k"@ || t == three_digits(x) + "M"@,
    ensures
        x < 10 * SCALE ==> t.len() >= 4 && t[t.len() - 3] == '.',
        x >= 10 * SCALE ==> !t.contains('.'),
{
    reveal_strlit("M");
    reveal_strlit("k");
    let s = SCALE as nat;
    let d = three_digits(x);
    if x < 10 * s {
        let q = double::half_even(x * 10, s);
        double::law_a_pointed_number_reads_back(q, 1);
        assert(t[t.len() - 3] == d[d.len() - 2]);
    } else {
        let n = if x >= 100 * s {
            double::half_up(x, s)
        } else {
            double::half_even(x, s)
        };
        text::dec_digits(n);
        assert(d == text::dec(n));
        assert forall|i: int| 0 <= i < t.len() implies t[i] != '.' by {
            if i < d.len() {
                assert(t[i] == d[i]);
            }
        }
    }
}

} // verus!
