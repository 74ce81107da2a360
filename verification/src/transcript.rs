//! Incremental reading of the assistant's transcripts.
//!
//! A single API response is written as one JSONL line per content block, and
//! every one of those lines repeats the identical, complete usage object.
//! Summing lines therefore counts double; `message.id` is the key under which
//! the ledger counts a request once.

use vstd::prelude::*;
use vstd::slice::*;
use vstd::string::*;

use crate::text::{chars_of, same_text, string_of};

verus! {

/// Where a request came from.
#[derive(Debug, Clone, Copy, PartialEq, Eq, Structural)]
pub enum Source {
    Main,
    Subagent,
}

impl Source {
    /// The source that the sidechain flag of a record stands for.
    pub fn from_sidechain(is_sidechain: bool) -> (r: Self)
        ensures
            r == (if is_sidechain {
                Source::Subagent
            } else {
                Source::Main
            }),
    {
        if is_sidechain {
            Source::Subagent
        } else {
            Source::Main
        }
    }

    /// The name under which the source is stored.
    pub open spec fn name(self) -> Seq<char> {
        match self {
            Source::Main => "main"@,
            Source::Subagent => "subagent"@,
        }
    }

    /// The name under which the source is stored.
    pub fn as_str(self) -> (r: &'static str)
        ensures
            r@ == self.name(),
    {
        match self {
            Source::Main => "main",
            Source::Subagent => "subagent",
        }
    }
}

/// One billed API request.
///
/// `thinking`, `cache_1h` and `cache_5m` are subsets of `output` and
/// `cache_create`. They are stored alongside the totals and never folded into
/// them.
#[derive(Debug, Clone, PartialEq)]
pub struct UsageRecord {
    pub dedupe_key: String,
    pub session_id: Option<String>,
    pub project_dir: Option<String>,
    pub model: String,
    pub ts: i64,
    pub input: i64,
    pub output: i64,
    pub cache_create: i64,
    pub cache_read: i64,
    pub thinking: i64,
    pub cache_1h: i64,
    pub cache_5m: i64,
    pub source: Source,
    pub transcript_path: String,
}

/// The characters of an optional string.
pub open spec fn opt_text(o: Option<String>) -> Option<Seq<char>> {
    match o {
        Some(s) => Some(s@),
        None => None,
    }
}

/// What a `UsageRecord` says.
pub ghost struct Usage {
    pub dedupe_key: Seq<char>,
    pub session_id: Option<Seq<char>>,
    pub project_dir: Option<Seq<char>>,
    pub model: Seq<char>,
    pub ts: int,
    pub input: int,
    pub output: int,
    pub cache_create: int,
    pub cache_read: int,
    pub thinking: int,
    pub cache_1h: int,
    pub cache_5m: int,
    pub source: Source,
    pub transcript_path: Seq<char>,
}

impl Usage {
    /// The tokens of the request, each counted once.
    pub open spec fn tokens(self) -> int {
        self.input + self.output + self.cache_create + self.cache_read
    }
}

impl View for UsageRecord {
    type V = Usage;

    open spec fn view(&self) -> Usage {
        Usage {
            dedupe_key: self.dedupe_key@,
            session_id: opt_text(self.session_id),
            project_dir: opt_text(self.project_dir),
            model: self.model@,
            ts: self.ts as int,
            input: self.input as int,
            output: self.output as int,
            cache_create: self.cache_create as int,
            cache_read: self.cache_read as int,
            thinking: self.thinking as int,
            cache_1h: self.cache_1h as int,
            cache_5m: self.cache_5m as int,
            source: self.source,
            transcript_path: self.transcript_path@,
        }
    }
}

impl UsageRecord {
    /// The tokens of the request. The subset columns do not enter.
    pub fn total(&self) -> (r: i64)
        requires
            i64::MIN <= self@.tokens() <= i64::MAX,
        ensures
            r == self@.tokens(),
    {
        (self.input as i128 + self.output as i128 + self.cache_create as i128
            + self.cache_read as i128) as i64
    }
}

/// Position in a transcript, so that the next pass resumes instead of
/// reading everything again.
#[derive(Debug, Clone, Copy, PartialEq, Eq, Structural)]
pub struct Cursor {
    pub byte_offset: u64,
    /// Identity of the file: a different one means it was replaced.
    pub file_id: u64,
}

/// What one pass over a transcript found.
#[derive(Debug)]
pub struct Scan {
    pub records: Vec<UsageRecord>,
    pub cursor: Cursor,
    /// Lines that are no JSON record. Skipped, counted, never fatal.
    pub malformed: usize,
    /// The file shrank or is another file, and reading began at its start.
    pub restarted: bool,
    /// False when the pass stopped at its line cap rather than at the end of the
    /// file, so that more remains and the caller should commit and go on.
    pub exhausted: bool,
}

// ---------------------------------------------------------------------------
// One line
// ---------------------------------------------------------------------------

/// The fields of a transcript line that are read. Any of them may be absent.
#[derive(Debug, Clone)]
pub struct RawLine {
    pub kind: Option<String>,
    pub session_id: Option<String>,
    pub cwd: Option<String>,
    pub timestamp: Option<String>,
    pub is_sidechain: Option<bool>,
    pub message: Option<RawMessage>,
}

#[derive(Debug, Clone)]
pub struct RawMessage {
    pub id: Option<String>,
    pub model: Option<String>,
    pub usage: Option<RawUsage>,
}

#[derive(Debug, Clone)]
pub struct RawUsage {
    pub input_tokens: Option<i64>,
    pub output_tokens: Option<i64>,
    pub cache_creation_input_tokens: Option<i64>,
    pub cache_read_input_tokens: Option<i64>,
    pub output_tokens_details: Option<RawOutputDetails>,
    pub cache_creation: Option<RawCacheCreation>,
}

#[derive(Debug, Clone)]
pub struct RawOutputDetails {
    pub thinking_tokens: Option<i64>,
}

#[derive(Debug, Clone)]
pub struct RawCacheCreation {
    pub ephemeral_1h_input_tokens: Option<i64>,
    pub ephemeral_5m_input_tokens: Option<i64>,
}

/// The Unix seconds that an RFC 3339 timestamp denotes, if it is one.
pub uninterp spec fn rfc3339_seconds(text: Seq<char>) -> Option<i64>;

/// `chrono::DateTime::parse_from_rfc3339`, then `timestamp`: whether the text is
/// a timestamp, and which instant it denotes, depends on the text alone.
#[verifier::external_body]
fn parse_rfc3339(text: &str) -> (r: Option<i64>)
    ensures
        r == rfc3339_seconds(text@),
{
    chrono::DateTime::parse_from_rfc3339(text).ok().map(|dt| dt.timestamp())
}

/// The Unix seconds of an optional timestamp.
pub open spec fn ts_of(raw: Option<Seq<char>>) -> Option<i64> {
    match raw {
        Some(text) => rfc3339_seconds(text),
        None => None,
    }
}

/// The Unix seconds of a timestamp, if there is one and it is RFC 3339.
pub fn parse_ts(raw: Option<&str>) -> (r: Option<i64>)
    ensures
        r == (match raw {
            Some(text) => rfc3339_seconds(text@),
            None => None,
        }),
{
    match raw {
        Some(text) => parse_rfc3339(text),
        None => None,
    }
}

/// An absent count is zero.
pub open spec fn count_or_zero(o: Option<i64>) -> int {
    match o {
        Some(n) => n as int,
        None => 0,
    }
}

/// The request that a line records at the time `ts`, if it records one: the
/// line is an assistant record with usage, an id, a model and a time, and the
/// model is no local placeholder such as `<synthetic>`.
pub open spec fn record_of(raw: RawLine, path: Seq<char>, ts: Option<i64>) -> Option<Usage> {
    match raw.message {
        Some(message) => match (message.usage, message.id, message.model, ts) {
            (Some(usage), Some(id), Some(model), Some(ts)) => {
                if opt_text(raw.kind) != Some("assistant"@) {
                    None
                } else if model@.len() > 0 && model@[0] == '<' {
                    None
                } else {
                    Some(
                        Usage {
                            dedupe_key: id@,
                            session_id: opt_text(raw.session_id),
                            project_dir: opt_text(raw.cwd),
                            model: model@,
                            ts: ts as int,
                            input: count_or_zero(usage.input_tokens),
                            output: count_or_zero(usage.output_tokens),
                            cache_create: count_or_zero(usage.cache_creation_input_tokens),
                            cache_read: count_or_zero(usage.cache_read_input_tokens),
                            thinking: match usage.output_tokens_details {
                                Some(d) => count_or_zero(d.thinking_tokens),
                                None => 0,
                            },
                            cache_1h: match usage.cache_creation {
                                Some(c) => count_or_zero(c.ephemeral_1h_input_tokens),
                                None => 0,
                            },
                            cache_5m: match usage.cache_creation {
                                Some(c) => count_or_zero(c.ephemeral_5m_input_tokens),
                                None => 0,
                            },
                            source: if raw.is_sidechain == Some(true) {
                                Source::Subagent
                            } else {
                                Source::Main
                            },
                            transcript_path: path,
                        },
                    )
                }
            },
            _ => None,
        },
        None => None,
    }
}

/// The request that a line records.
pub open spec fn line_record(raw: RawLine, path: Seq<char>) -> Option<Usage> {
    record_of(raw, path, ts_of(opt_text(raw.timestamp)))
}

/// What an optional record says.
pub open spec fn opt_usage(o: Option<UsageRecord>) -> Option<Usage> {
    match o {
        Some(r) => Some(r@),
        None => None,
    }
}

fn count(o: Option<i64>) -> (r: i64)
    ensures
        r == count_or_zero(o),
{
    match o {
        Some(n) => n,
        None => 0,
    }
}

impl RawLine {
    /// The request that this line records, given the time it was made at.
    pub fn record_at(self, transcript_path: &str, ts: Option<i64>) -> (r: Option<UsageRecord>)
        ensures
            opt_usage(r) == record_of(self, transcript_path@, ts),
    {
        match &self.kind {
            Some(kind) => {
                if !same_text(kind.as_str(), "assistant") {
                    return None;
                }
            },
            None => {
                return None;
            },
        }
        let message = match self.message {
            Some(message) => message,
            None => {
                return None;
            },
        };
        let usage = match message.usage {
            Some(usage) => usage,
            None => {
                return None;
            },
        };
        let dedupe_key = match message.id {
            Some(id) => id,
            None => {
                return None;
            },
        };
        let model = match message.model {
            Some(model) => model,
            None => {
                return None;
            },
        };
        let first = chars_of(model.as_str());
        if first.len() > 0 && first[0] == '<' {
            return None;
        }
        let ts = match ts {
            Some(ts) => ts,
            None => {
                return None;
            },
        };
        let thinking: i64 = match usage.output_tokens_details {
            Some(d) => count(d.thinking_tokens),
            None => 0,
        };
        let (cache_1h, cache_5m): (i64, i64) = match usage.cache_creation {
            Some(c) => (count(c.ephemeral_1h_input_tokens), count(c.ephemeral_5m_input_tokens)),
            None => (0, 0),
        };
        let sidechain = match self.is_sidechain {
            Some(flag) => flag,
            None => false,
        };
        Some(
            UsageRecord {
                dedupe_key,
                session_id: self.session_id,
                project_dir: self.cwd,
                model,
                ts,
                input: count(usage.input_tokens),
                output: count(usage.output_tokens),
                cache_create: count(usage.cache_creation_input_tokens),
                cache_read: count(usage.cache_read_input_tokens),
                thinking,
                cache_1h,
                cache_5m,
                source: Source::from_sidechain(sidechain),
                transcript_path: transcript_path.to_owned(),
            },
        )
    }

    /// The request that this line records, if it records one.
    pub fn into_record(self, transcript_path: &str) -> (r: Option<UsageRecord>)
        ensures
            opt_usage(r) == line_record(self, transcript_path@),
    {
        let ts = match &self.timestamp {
            Some(text) => parse_ts(Some(text.as_str())),
            None => None,
        };
        self.record_at(transcript_path, ts)
    }
}

// ---------------------------------------------------------------------------
// Many lines
// ---------------------------------------------------------------------------

/// The bytes of a transcript from the position on that [`resume`] gives.
#[derive(Debug, Clone)]
pub struct Tail {
    pub path: String,
    pub file_id: u64,
    /// Length of the whole file.
    pub len: u64,
    pub bytes: Vec<u8>,
}

/// Where reading begins, and whether that is a restart. A cursor of another
/// file, or past the end of this one, means nothing: reading starts over.
pub open spec fn resume_at(cursor: Option<Cursor>, file_id: u64, len: u64) -> (u64, bool) {
    match cursor {
        Some(c) => if c.file_id == file_id && c.byte_offset <= len {
            (c.byte_offset, false)
        } else {
            (0, true)
        },
        None => (0, false),
    }
}

/// Where reading begins, and whether that is a restart.
pub fn resume(cursor: Option<Cursor>, file_id: u64, len: u64) -> (r: (u64, bool))
    ensures
        r == resume_at(cursor, file_id, len),
{
    match cursor {
        Some(c) => if c.file_id == file_id && c.byte_offset <= len {
            (c.byte_offset, false)
        } else {
            (0, true)
        },
        None => (0, false),
    }
}

/// The position of the first newline at or after `pos`; the length if there is
/// none.
pub open spec fn newline_from(data: Seq<u8>, pos: int) -> int
    decreases data.len() - pos,
{
    if pos >= data.len() {
        data.len() as int
    } else if data[pos] == 10 {
        pos
    } else {
        newline_from(data, pos + 1)
    }
}

/// The complete lines of some bytes, without their newlines; the position
/// behind the last of them; and whether no further complete line was seen.
pub ghost struct Frame {
    pub lines: Seq<Seq<u8>>,
    pub end: int,
    pub exhausted: bool,
}

/// One line less.
pub open spec fn less(cap: Option<nat>) -> Option<nat> {
    match cap {
        Some(n) => Some((n - 1) as nat),
        None => None,
    }
}

/// The complete lines from `pos` on, at most `cap` of them. What follows the
/// last newline is no line yet.
pub open spec fn frame(data: Seq<u8>, pos: int, cap: Option<nat>) -> Frame
    decreases data.len() - pos,
    when 0 <= pos <= data.len()
    via frame_ends
{
    if cap == Some(0nat) {
        Frame { lines: Seq::empty(), end: pos, exhausted: false }
    } else {
        let j = newline_from(data, pos);
        if j >= data.len() {
            Frame { lines: Seq::empty(), end: pos, exhausted: true }
        } else {
            let rest = frame(data, j + 1, less(cap));
            Frame {
                lines: seq![data.subrange(pos, j)] + rest.lines,
                end: rest.end,
                exhausted: rest.exhausted,
            }
        }
    }
}

#[via_fn]
proof fn frame_ends(data: Seq<u8>, pos: int, cap: Option<nat>) {
    newline_from_spec(data, pos);
}

/// `newline_from` finds the first newline.
pub proof fn newline_from_spec(data: Seq<u8>, pos: int)
    requires
        0 <= pos <= data.len(),
    ensures
        pos <= newline_from(data, pos) <= data.len(),
        newline_from(data, pos) < data.len() ==> data[newline_from(data, pos)] == 10,
        forall|i: int| pos <= i < newline_from(data, pos) ==> data[i] != 10,
    decreases data.len() - pos,
{
    if pos < data.len() && data[pos] != 10 {
        newline_from_spec(data, pos + 1);
    }
}

/// ASCII white space: space, tab, line feed, form feed, carriage return.
pub open spec fn is_ascii_space(b: u8) -> bool {
    b == 32 || b == 9 || b == 10 || b == 12 || b == 13
}

/// A line of nothing but ASCII white space.
pub open spec fn blank(line: Seq<u8>) -> bool {
    forall|i: int| 0 <= i < line.len() ==> is_ascii_space(#[trigger] line[i])
}

/// The requests among the first `n` lines, where `parsed[i]` is what line `i`
/// holds, or `None` if it is malformed.
pub open spec fn records_in(
    lines: Seq<Seq<u8>>,
    parsed: Seq<Option<RawLine>>,
    path: Seq<char>,
    n: nat,
) -> Seq<Usage>
    decreases n,
{
    if n == 0 {
        Seq::empty()
    } else {
        let i = n - 1;
        let before = records_in(lines, parsed, path, i as nat);
        if blank(lines[i]) {
            before
        } else {
            match parsed[i] {
                Some(raw) => match line_record(raw, path) {
                    Some(usage) => before.push(usage),
                    None => before,
                },
                None => before,
            }
        }
    }
}

/// How many of the first `n` lines are malformed. Blank lines are not.
pub open spec fn malformed_in(lines: Seq<Seq<u8>>, parsed: Seq<Option<RawLine>>, n: nat) -> nat
    decreases n,
{
    if n == 0 {
        0
    } else {
        let i = n - 1;
        malformed_in(lines, parsed, i as nat) + (if !blank(lines[i]) && parsed[i] is None {
            1nat
        } else {
            0
        })
    }
}

/// Whether `parse` may answer `result` for these bytes.
pub open spec fn parses<F: Fn(&[u8]) -> Option<RawLine>>(
    parse: F,
    line: Seq<u8>,
    result: Option<RawLine>,
) -> bool {
    exists|bytes: &[u8]| bytes@ == line && #[trigger] call_ensures(parse, (bytes,), result)
}

/// Whether `parsed` is what `parse` may have answered for each line that is not
/// blank.
pub open spec fn parses_all<F: Fn(&[u8]) -> Option<RawLine>>(
    parse: F,
    lines: Seq<Seq<u8>>,
    parsed: Seq<Option<RawLine>>,
) -> bool {
    &&& parsed.len() == lines.len()
    &&& forall|i: int|
        0 <= i < lines.len() && !blank(lines[i]) ==> parses(parse, lines[i], #[trigger] parsed[i])
}

/// What each record of a list says.
pub open spec fn usages(v: Seq<UsageRecord>) -> Seq<Usage> {
    v.map_values(|r: UsageRecord| r@)
}

/// The cap as a number of lines.
pub open spec fn cap_of(max_lines: Option<usize>) -> Option<nat> {
    match max_lines {
        Some(n) => Some(n as nat),
        None => None,
    }
}

/// `scan` is what one pass over the file finds, where `parsed[i]` is what
/// complete line `i` holds. The file is exhausted where no complete line is left,
/// or nothing at all.
pub open spec fn is_scan(
    scan: Scan,
    tail: Tail,
    cursor: Option<Cursor>,
    max_lines: Option<usize>,
    parsed: Seq<Option<RawLine>>,
) -> bool {
    let (start, restarted) = resume_at(cursor, tail.file_id, tail.len);
    let f = frame(tail.bytes@, 0, cap_of(max_lines));
    &&& usages(scan.records@) == records_in(f.lines, parsed, tail.path@, f.lines.len())
    &&& scan.cursor.byte_offset == start + f.end
    &&& scan.cursor.file_id == tail.file_id
    &&& scan.malformed == malformed_in(f.lines, parsed, f.lines.len())
    &&& scan.restarted == restarted
    &&& scan.exhausted == (f.exhausted || start + f.end >= tail.len)
}

fn find_newline(data: &Vec<u8>, pos: usize) -> (r: usize)
    requires
        pos <= data@.len(),
    ensures
        r == newline_from(data@, pos as int),
        pos <= r <= data@.len(),
{
    let mut i: usize = pos;
    while i < data.len() && data[i] != 10
        invariant
            pos <= i <= data@.len(),
            newline_from(data@, pos as int) == newline_from(data@, i as int),
        decreases data@.len() - i,
    {
        i += 1;
    }
    i
}

fn is_blank(line: &[u8]) -> (r: bool)
    ensures
        r == blank(line@),
{
    let mut i: usize = 0;
    while i < line.len()
        invariant
            i <= line@.len(),
            forall|j: int| 0 <= j < i ==> is_ascii_space(#[trigger] line@[j]),
        decreases line@.len() - i,
    {
        let b = line[i];
        if !(b == 32 || b == 9 || b == 10 || b == 12 || b == 13) {
            assert(!is_ascii_space(line@[i as int]));
            return false;
        }
        i += 1;
    }
    true
}

/// What has been consumed and what is left together are the whole frame.
proof fn frame_step(data: Seq<u8>, pos: int, cap: Option<nat>)
    requires
        0 <= pos <= data.len(),
        cap != Some(0nat),
        newline_from(data, pos) < data.len(),
    ensures
        frame(data, pos, cap).lines =~= seq![data.subrange(pos, newline_from(data, pos))] + frame(
            data,
            newline_from(data, pos) + 1,
            less(cap),
        ).lines,
        frame(data, pos, cap).end == frame(data, newline_from(data, pos) + 1, less(cap)).end,
        frame(data, pos, cap).exhausted == frame(
            data,
            newline_from(data, pos) + 1,
            less(cap),
        ).exhausted,
{
    newline_from_spec(data, pos);
}

proof fn records_prefix(
    lines: Seq<Seq<u8>>,
    parsed: Seq<Option<RawLine>>,
    lines2: Seq<Seq<u8>>,
    parsed2: Seq<Option<RawLine>>,
    path: Seq<char>,
    n: nat,
)
    requires
        n <= lines.len(),
        n <= lines2.len(),
        n <= parsed.len(),
        n <= parsed2.len(),
        forall|i: int| 0 <= i < n ==> lines[i] == lines2[i] && parsed[i] == parsed2[i],
    ensures
        records_in(lines, parsed, path, n) == records_in(lines2, parsed2, path, n),
        malformed_in(lines, parsed, n) == malformed_in(lines2, parsed2, n),
    decreases n,
{
    if n > 0 {
        records_prefix(lines, parsed, lines2, parsed2, path, (n - 1) as nat);
    }
}

/// Reads at most `max_lines` complete lines from where the cursor stands.
///
/// A trailing partial line, from a session that is writing, is left for the
/// next pass. `parse` turns the bytes of one line into its fields, or answers
/// `None` if they are no JSON record.
pub fn scan_batch<F: Fn(&[u8]) -> Option<RawLine>>(
    tail: &Tail,
    cursor: Option<Cursor>,
    max_lines: Option<usize>,
    parse: F,
) -> (r: Scan)
    requires
        forall|line: &[u8]| #[trigger] call_requires(parse, (line,)),
        resume_at(cursor, tail.file_id, tail.len).0 + tail.bytes@.len() <= u64::MAX,
    ensures
        exists|parsed: Seq<Option<RawLine>>|
            #![trigger is_scan(r, *tail, cursor, max_lines, parsed)]
            parses_all(parse, frame(tail.bytes@, 0, cap_of(max_lines)).lines, parsed) && is_scan(
                r,
                *tail,
                cursor,
                max_lines,
                parsed,
            ),
{
    let (start, restarted) = resume(cursor, tail.file_id, tail.len);
    let data = &tail.bytes;
    let ghost whole = frame(data@, 0, cap_of(max_lines));
    let ghost mut parsed: Seq<Option<RawLine>> = Seq::empty();
    let ghost mut seen: Seq<Seq<u8>> = Seq::empty();
    let mut records: Vec<UsageRecord> = Vec::new();
    let mut malformed: usize = 0;
    let mut pos: usize = 0;
    let mut left: Option<usize> = max_lines;
    let mut exhausted = true;
    assert(seen + whole.lines =~= whole.lines);
    assert(usages(records@) =~= Seq::<Usage>::empty());
    loop
        invariant_except_break
            exhausted,
            whole.lines == seen + frame(data@, pos as int, cap_of(left)).lines,
            whole.end == frame(data@, pos as int, cap_of(left)).end,
            whole.exhausted == frame(data@, pos as int, cap_of(left)).exhausted,
        invariant
            forall|line: &[u8]| #[trigger] call_requires(parse, (line,)),
            data@ == tail.bytes@,
            pos <= data@.len(),
            malformed <= pos,
            parsed.len() == seen.len(),
            seen.len() <= pos,
            forall|i: int|
                0 <= i < seen.len() && !blank(seen[i]) ==> parses(
                    parse,
                    seen[i],
                    #[trigger] parsed[i],
                ),
            usages(records@) == records_in(seen, parsed, tail.path@, seen.len()),
            malformed == malformed_in(seen, parsed, seen.len()),
        ensures
            whole.lines == seen,
            whole.end == pos,
            whole.exhausted == exhausted,
        decreases data@.len() - pos + (if exhausted {
            1int
        } else {
            0int
        }),
    {
        match left {
            Some(n) => {
                if n == 0 {
                    exhausted = false;
                    assert(seen + Seq::<Seq<u8>>::empty() =~= seen);
                    break;
                }
                left = Some(n - 1);
            },
            None => {},
        }
        let ghost before = (if let Some(n) = left {
            Some((n + 1) as nat)
        } else {
            None
        });
        let j = find_newline(data, pos);
        if j >= data.len() {
            assert(seen + Seq::<Seq<u8>>::empty() =~= seen);
            break;
        }
        let line = slice_subrange(data.as_slice(), pos, j);
        proof {
            assert(cap_of(left) == less(before));
            frame_step(data@, pos as int, before);
            assert(line@ =~= data@.subrange(pos as int, j as int));
            assert(seen + (seq![line@] + frame(data@, j + 1, cap_of(left)).lines) =~= seen.push(
                line@,
            ) + frame(data@, j + 1, cap_of(left)).lines);
        }
        let ghost old_seen = seen;
        let ghost old_parsed = parsed;
        if is_blank(line) {
            proof {
                parsed = parsed.push(None);
                seen = seen.push(line@);
                records_prefix(
                    old_seen,
                    old_parsed,
                    seen,
                    parsed,
                    tail.path@,
                    old_seen.len(),
                );
            }
        } else {
            let raw = parse(line);
            proof {
                parsed = parsed.push(raw);
                seen = seen.push(line@);
                assert(parses(parse, line@, raw));
                records_prefix(
                    old_seen,
                    old_parsed,
                    seen,
                    parsed,
                    tail.path@,
                    old_seen.len(),
                );
            }
            match raw {
                Some(raw) => {
                    let ghost records_before = records@;
                    let found = raw.into_record(tail.path.as_str());
                    match found {
                        Some(record) => {
                            records.push(record);
                            assert(usages(records@) =~= usages(records_before).push(record@));
                        },
                        None => {},
                    }
                },
                None => {
                    malformed += 1;
                },
            }
        }
        pos = j + 1;
    }
    let byte_offset: u64 = start + pos as u64;
    let scan = Scan {
        records,
        cursor: Cursor { byte_offset, file_id: tail.file_id },
        malformed,
        restarted,
        exhausted: exhausted || byte_offset >= tail.len,
    };
    assert(parses_all(parse, whole.lines, parsed));
    assert(is_scan(scan, *tail, cursor, max_lines, parsed));
    scan
}

/// Reads everything appended since `cursor`, in one unbounded pass.
pub fn scan<F: Fn(&[u8]) -> Option<RawLine>>(
    tail: &Tail,
    cursor: Option<Cursor>,
    parse: F,
) -> (r: Scan)
    requires
        forall|line: &[u8]| #[trigger] call_requires(parse, (line,)),
        resume_at(cursor, tail.file_id, tail.len).0 + tail.bytes@.len() <= u64::MAX,
    ensures
        exists|parsed: Seq<Option<RawLine>>|
            #![trigger is_scan(r, *tail, cursor, None, parsed)]
            parses_all(parse, frame(tail.bytes@, 0, None).lines, parsed) && is_scan(
                r,
                *tail,
                cursor,
                None,
                parsed,
            ),
{
    scan_batch(tail, cursor, None, parse)
}

// ---------------------------------------------------------------------------
// Laws
// ---------------------------------------------------------------------------

/// A pass ends on a line boundary and never past the bytes. It stops short of
/// the last complete line only at its cap, and then after exactly that many
/// lines.
pub proof fn law_pass_ends_on_a_line_boundary(data: Seq<u8>, pos: int, cap: Option<nat>)
    requires
        0 <= pos <= data.len(),
    ensures
        pos <= frame(data, pos, cap).end <= data.len(),
        frame(data, pos, cap).end > pos ==> data[frame(data, pos, cap).end - 1] == 10,
        frame(data, pos, cap).end == pos <==> frame(data, pos, cap).lines.len() == 0,
        frame(data, pos, cap).exhausted ==> forall|i: int|
            frame(data, pos, cap).end <= i < data.len() ==> data[i] != 10,
        !frame(data, pos, cap).exhausted ==> cap == Some(frame(data, pos, cap).lines.len()),
        cap matches Some(n) ==> frame(data, pos, cap).lines.len() <= n,
    decreases data.len() - pos,
{
    newline_from_spec(data, pos);
    if cap != Some(0nat) && newline_from(data, pos) < data.len() {
        law_pass_ends_on_a_line_boundary(data, newline_from(data, pos) + 1, less(cap));
    }
}

/// A bounded pass that did not reach the end moves the cursor forward, so a
/// backlog of any size drains.
pub proof fn law_a_batch_makes_progress(data: Seq<u8>, pos: int, cap: nat)
    requires
        0 <= pos <= data.len(),
        cap > 0,
        !frame(data, pos, Some(cap)).exhausted,
    ensures
        frame(data, pos, Some(cap)).end > pos,
{
    law_pass_ends_on_a_line_boundary(data, pos, Some(cap));
}

/// Reading a batch and then the rest from where it ended sees the same lines as
/// one unbounded pass.
pub proof fn law_batches_read_what_one_pass_reads(data: Seq<u8>, pos: int, cap: nat)
    requires
        0 <= pos <= data.len(),
    ensures
        frame(data, pos, None).lines == frame(data, pos, Some(cap)).lines + frame(
            data,
            frame(data, pos, Some(cap)).end,
            None,
        ).lines,
        frame(data, pos, None).end == frame(data, frame(data, pos, Some(cap)).end, None).end,
    decreases data.len() - pos,
{
    newline_from_spec(data, pos);
    law_pass_ends_on_a_line_boundary(data, pos, Some(cap));
    if cap > 0 && newline_from(data, pos) < data.len() {
        law_batches_read_what_one_pass_reads(
            data,
            newline_from(data, pos) + 1,
            (cap - 1) as nat,
        );
    }
    assert(frame(data, pos, None).lines =~= frame(data, pos, Some(cap)).lines + frame(
        data,
        frame(data, pos, Some(cap)).end,
        None,
    ).lines);
}

proof fn newline_from_append(data: Seq<u8>, more: Seq<u8>, pos: int)
    requires
        0 <= pos <= data.len(),
        newline_from(data, pos) < data.len(),
    ensures
        newline_from(data + more, pos) == newline_from(data, pos),
    decreases data.len() - pos,
{
    if data[pos] != 10 {
        newline_from_append(data, more, pos + 1);
    }
}

/// A transcript that has grown: resuming where the last pass ended sees exactly
/// the lines that the last pass did not, among them a line that was partial
/// then.
pub proof fn law_resuming_after_an_append_reads_only_what_is_new(
    data: Seq<u8>,
    more: Seq<u8>,
    pos: int,
)
    requires
        0 <= pos <= data.len(),
    ensures
        frame(data + more, pos, None).lines == frame(data, pos, None).lines + frame(
            data + more,
            frame(data, pos, None).end,
            None,
        ).lines,
        frame(data + more, pos, None).end == frame(
            data + more,
            frame(data, pos, None).end,
            None,
        ).end,
    decreases data.len() - pos,
{
    newline_from_spec(data, pos);
    law_pass_ends_on_a_line_boundary(data, pos, None);
    if newline_from(data, pos) < data.len() {
        let j = newline_from(data, pos);
        newline_from_append(data, more, pos);
        newline_from_spec(data + more, pos);
        law_resuming_after_an_append_reads_only_what_is_new(data, more, j + 1);
        assert((data + more).subrange(pos, j) =~= data.subrange(pos, j));
    }
    assert(frame(data + more, pos, None).lines =~= frame(data, pos, None).lines + frame(
        data + more,
        frame(data, pos, None).end,
        None,
    ).lines);
}

/// A pass over a file that has not changed since finds nothing and stays where
/// it is.
pub proof fn law_an_unchanged_transcript_has_nothing_new(data: Seq<u8>, pos: int)
    requires
        0 <= pos <= data.len(),
    ensures
        frame(data, frame(data, pos, None).end, None).lines.len() == 0,
        frame(data, frame(data, pos, None).end, None).end == frame(data, pos, None).end,
    decreases data.len() - pos,
{
    newline_from_spec(data, pos);
    if newline_from(data, pos) < data.len() {
        law_an_unchanged_transcript_has_nothing_new(data, newline_from(data, pos) + 1);
    }
}

/// The requests of two groups of lines are those of the first and then those of
/// the second, and the malformed lines add up: together with the laws on lines,
/// reading in batches records what one pass records.
pub proof fn law_records_of_batches_add_up(
    lines1: Seq<Seq<u8>>,
    parsed1: Seq<Option<RawLine>>,
    lines2: Seq<Seq<u8>>,
    parsed2: Seq<Option<RawLine>>,
    path: Seq<char>,
)
    requires
        lines1.len() == parsed1.len(),
        lines2.len() == parsed2.len(),
    ensures
        records_in(lines1 + lines2, parsed1 + parsed2, path, lines1.len() + lines2.len())
            == records_in(lines1, parsed1, path, lines1.len()) + records_in(
            lines2,
            parsed2,
            path,
            lines2.len(),
        ),
        malformed_in(lines1 + lines2, parsed1 + parsed2, lines1.len() + lines2.len())
            == malformed_in(lines1, parsed1, lines1.len()) + malformed_in(
            lines2,
            parsed2,
            lines2.len(),
        ),
{
    records_add_up(lines1, parsed1, lines2, parsed2, path, lines2.len());
}

proof fn records_add_up(
    lines1: Seq<Seq<u8>>,
    parsed1: Seq<Option<RawLine>>,
    lines2: Seq<Seq<u8>>,
    parsed2: Seq<Option<RawLine>>,
    path: Seq<char>,
    n: nat,
)
    requires
        lines1.len() == parsed1.len(),
        lines2.len() == parsed2.len(),
        n <= lines2.len(),
    ensures
        records_in(lines1 + lines2, parsed1 + parsed2, path, lines1.len() + n) == records_in(
            lines1,
            parsed1,
            path,
            lines1.len(),
        ) + records_in(lines2, parsed2, path, n),
        malformed_in(lines1 + lines2, parsed1 + parsed2, lines1.len() + n) == malformed_in(
            lines1,
            parsed1,
            lines1.len(),
        ) + malformed_in(lines2, parsed2, n),
    decreases n,
{
    let lines = lines1 + lines2;
    let parsed = parsed1 + parsed2;
    if n == 0 {
        records_prefix(lines, parsed, lines1, parsed1, path, lines1.len());
        assert(records_in(lines, parsed, path, lines1.len()) =~= records_in(
            lines1,
            parsed1,
            path,
            lines1.len(),
        ) + Seq::<Usage>::empty());
    } else {
        records_add_up(lines1, parsed1, lines2, parsed2, path, (n - 1) as nat);
        assert(lines[lines1.len() + n - 1] == lines2[n - 1]);
        assert(parsed[lines1.len() + n - 1] == parsed2[n - 1]);
        assert(records_in(lines, parsed, path, lines1.len() + n) =~= records_in(
            lines1,
            parsed1,
            path,
            lines1.len(),
        ) + records_in(lines2, parsed2, path, n));
    }
}

/// A transcript on disk that does not change: its path, its identity and its
/// bytes.
pub ghost struct File {
    pub path: Seq<char>,
    pub file_id: u64,
    pub data: Seq<u8>,
}

/// `tail` is the file from where the cursor stands, as far as a pass of so many
/// lines reads it: to the end, or at least that many complete lines.
pub open spec fn tail_of(tail: Tail, file: File, cursor: Option<Cursor>, cap: Option<nat>) -> bool {
    let rest = file.data.skip(resume_at(cursor, tail.file_id, tail.len).0 as int);
    &&& tail.path@ == file.path
    &&& tail.file_id == file.file_id
    &&& tail.len == file.data.len()
    &&& tail.bytes@ == rest || (tail.bytes@.is_prefix_of(rest) && cap == Some(
        frame(tail.bytes@, 0, cap).lines.len(),
    ))
}

/// What each line holds, where `holds` says it for any line.
pub open spec fn parsed_by(
    lines: Seq<Seq<u8>>,
    holds: spec_fn(Seq<u8>) -> Option<RawLine>,
) -> Seq<Option<RawLine>> {
    lines.map_values(holds)
}

/// `scan` is a pass over the file from where the cursor stands.
pub open spec fn is_pass(
    scan: Scan,
    file: File,
    cursor: Option<Cursor>,
    max_lines: Option<usize>,
    holds: spec_fn(Seq<u8>) -> Option<RawLine>,
) -> bool {
    exists|tail: Tail| #[trigger]
        tail_of(tail, file, cursor, cap_of(max_lines)) && is_scan(
            scan,
            tail,
            cursor,
            max_lines,
            parsed_by(frame(tail.bytes@, 0, cap_of(max_lines)).lines, holds),
        )
}

/// Where pass `i` of a run begins: where the one before it ended.
pub open spec fn cursor_before(scans: Seq<Scan>, cursor: Option<Cursor>, i: int) -> Option<Cursor> {
    if i == 0 {
        cursor
    } else {
        Some(scans[i - 1].cursor)
    }
}

/// Batches of at most `max_lines` lines one after the other, none but the last of
/// which may have exhausted the file.
pub open spec fn is_run(
    scans: Seq<Scan>,
    file: File,
    cursor: Option<Cursor>,
    max_lines: usize,
    holds: spec_fn(Seq<u8>) -> Option<RawLine>,
) -> bool {
    forall|i: int|
        0 <= i < scans.len() ==> is_pass(
            #[trigger] scans[i],
            file,
            cursor_before(scans, cursor, i),
            Some(max_lines),
            holds,
        ) && (i < scans.len() - 1 ==> !scans[i].exhausted)
}

/// The requests of all passes, in order.
pub open spec fn all_records(scans: Seq<Scan>) -> Seq<Usage>
    decreases scans.len(),
{
    if scans.len() == 0 {
        Seq::empty()
    } else {
        all_records(scans.drop_last()) + usages(scans.last().records@)
    }
}

/// The malformed lines of all passes.
pub open spec fn all_malformed(scans: Seq<Scan>) -> nat
    decreases scans.len(),
{
    if scans.len() == 0 {
        0
    } else {
        all_malformed(scans.drop_last()) + scans.last().malformed as nat
    }
}

/// Where reading begins in a file of this length.
pub open spec fn begin_of(file: File, cursor: Option<Cursor>) -> int {
    resume_at(cursor, file.file_id, file.data.len() as u64).0 as int
}

/// Reading from a position is reading the rest from its start.
proof fn frame_of_rest(data: Seq<u8>, from: int, pos: int, cap: Option<nat>)
    requires
        0 <= from <= pos <= data.len(),
    ensures
        frame(data.skip(from), pos - from, cap).lines == frame(data, pos, cap).lines,
        frame(data.skip(from), pos - from, cap).end + from == frame(data, pos, cap).end,
        frame(data.skip(from), pos - from, cap).exhausted == frame(data, pos, cap).exhausted,
    decreases data.len() - pos,
{
    newline_of_rest(data, from, pos);
    newline_from_spec(data, pos);
    let j = newline_from(data, pos);
    if cap != Some(0nat) && j < data.len() {
        frame_of_rest(data, from, j + 1, less(cap));
        assert(data.skip(from).subrange(pos - from, j - from) =~= data.subrange(pos, j));
    }
}

proof fn newline_of_rest(data: Seq<u8>, from: int, pos: int)
    requires
        0 <= from <= pos <= data.len(),
    ensures
        newline_from(data.skip(from), pos - from) + from == newline_from(data, pos),
    decreases data.len() - pos,
{
    if pos < data.len() && data[pos] != 10 {
        newline_of_rest(data, from, pos + 1);
    }
}

/// Bytes behind the lines that fill the cap do not matter.
proof fn frame_of_prefix(data: Seq<u8>, more: Seq<u8>, pos: int, cap: nat)
    requires
        0 <= pos <= data.len(),
        frame(data, pos, Some(cap)).lines.len() == cap,
    ensures
        frame(data + more, pos, Some(cap)).lines == frame(data, pos, Some(cap)).lines,
        frame(data + more, pos, Some(cap)).end == frame(data, pos, Some(cap)).end,
        frame(data + more, pos, Some(cap)).exhausted == frame(data, pos, Some(cap)).exhausted,
    decreases cap,
{
    newline_from_spec(data, pos);
    if cap > 0 {
        let j = newline_from(data, pos);
        assert(j < data.len());
        newline_from_append(data, more, pos);
        newline_from_spec(data + more, pos);
        frame_step(data, pos, Some(cap));
        frame_step(data + more, pos, Some(cap));
        assert(less(Some(cap)) == Some((cap - 1) as nat));
        assert((data + more).subrange(pos, j) =~= data.subrange(pos, j));
        frame_of_prefix(data, more, j + 1, (cap - 1) as nat);
    }
}

/// What blank lines hold does not matter.
pub proof fn blank_lines_do_not_matter(
    lines: Seq<Seq<u8>>,
    parsed: Seq<Option<RawLine>>,
    parsed2: Seq<Option<RawLine>>,
    path: Seq<char>,
    n: nat,
)
    requires
        n <= lines.len(),
        forall|i: int| 0 <= i < n && !blank(lines[i]) ==> parsed[i] == #[trigger] parsed2[i],
    ensures
        records_in(lines, parsed, path, n) == records_in(lines, parsed2, path, n),
        malformed_in(lines, parsed, n) == malformed_in(lines, parsed2, n),
    decreases n,
{
    if n > 0 {
        blank_lines_do_not_matter(lines, parsed, parsed2, path, (n - 1) as nat);
        assert(!blank(lines[n - 1]) ==> parsed[n - 1] == parsed2[n - 1]);
    }
}

/// What a pass over a file found, in terms of the file.
pub proof fn pass_of_file(
    scan: Scan,
    file: File,
    cursor: Option<Cursor>,
    max_lines: Option<usize>,
    holds: spec_fn(Seq<u8>) -> Option<RawLine>,
)
    requires
        is_pass(scan, file, cursor, max_lines, holds),
    ensures
        file.data.len() <= u64::MAX,
        ({
            let f = frame(file.data, begin_of(file, cursor), cap_of(max_lines));
            &&& 0 <= begin_of(file, cursor) <= f.end <= file.data.len()
            &&& usages(scan.records@) == records_in(
                f.lines,
                parsed_by(f.lines, holds),
                file.path,
                f.lines.len(),
            )
            &&& scan.malformed == malformed_in(f.lines, parsed_by(f.lines, holds), f.lines.len())
            &&& scan.cursor == (Cursor { byte_offset: f.end as u64, file_id: file.file_id })
            &&& scan.exhausted == (f.exhausted || f.end == file.data.len())
        }),
{
    let cap = cap_of(max_lines);
    let tail = choose|tail: Tail| #[trigger]
        tail_of(tail, file, cursor, cap) && is_scan(
            scan,
            tail,
            cursor,
            max_lines,
            parsed_by(frame(tail.bytes@, 0, cap).lines, holds),
        );
    let start = begin_of(file, cursor);
    let rest = file.data.skip(start);
    if tail.bytes@ != rest {
        let n = frame(tail.bytes@, 0, cap).lines.len();
        let more = rest.skip(tail.bytes@.len() as int);
        assert(tail.bytes@ + more =~= rest);
        frame_of_prefix(tail.bytes@, more, 0, n);
    }
    frame_of_rest(file.data, start, start, cap);
    law_pass_ends_on_a_line_boundary(file.data, start, cap);
}

/// The requests of the lines, where `holds` says what each holds.
pub open spec fn records_held(
    lines: Seq<Seq<u8>>,
    holds: spec_fn(Seq<u8>) -> Option<RawLine>,
    path: Seq<char>,
) -> Seq<Usage> {
    records_in(lines, parsed_by(lines, holds), path, lines.len())
}

/// The malformed lines among the lines.
pub open spec fn malformed_held(
    lines: Seq<Seq<u8>>,
    holds: spec_fn(Seq<u8>) -> Option<RawLine>,
) -> nat {
    malformed_in(lines, parsed_by(lines, holds), lines.len())
}

/// A batch, and what is left after it.
proof fn batch_and_rest(
    file: File,
    at: int,
    cap: nat,
    holds: spec_fn(Seq<u8>) -> Option<RawLine>,
)
    requires
        0 <= at <= file.data.len(),
        cap > 0,
    ensures
        ({
            let batch = frame(file.data, at, Some(cap));
            let left = frame(file.data, at, None);
            let rest = frame(file.data, batch.end, None);
            &&& at <= batch.end <= file.data.len()
            &&& rest.end == left.end
            &&& batch.exhausted || batch.end == file.data.len() ==> rest.lines.len() == 0
                && rest.end == batch.end
            &&& !batch.exhausted ==> batch.end > at
            &&& records_held(left.lines, holds, file.path) == records_held(
                batch.lines,
                holds,
                file.path,
            ) + records_held(rest.lines, holds, file.path)
            &&& malformed_held(left.lines, holds) == malformed_held(batch.lines, holds)
                + malformed_held(rest.lines, holds)
        }),
{
    let batch = frame(file.data, at, Some(cap));
    let left = frame(file.data, at, None);
    law_pass_ends_on_a_line_boundary(file.data, at, Some(cap));
    let rest = frame(file.data, batch.end, None);
    law_batches_read_what_one_pass_reads(file.data, at, cap);
    newline_from_spec(file.data, batch.end);
    assert(parsed_by(left.lines, holds) =~= parsed_by(batch.lines, holds) + parsed_by(
        rest.lines,
        holds,
    ));
    law_records_of_batches_add_up(
        batch.lines,
        parsed_by(batch.lines, holds),
        rest.lines,
        parsed_by(rest.lines, holds),
        file.path,
    );
}

/// Where a run stands, seen from its beginning: what it has found, and what is
/// still to be found, is what one pass finds.
spec fn run_stands(
    scans: Seq<Scan>,
    file: File,
    cursor: Option<Cursor>,
    holds: spec_fn(Seq<u8>) -> Option<RawLine>,
) -> bool {
    let from = begin_of(file, cursor);
    let last = scans.last();
    let end = last.cursor.byte_offset as int;
    let whole = frame(file.data, from, None);
    let rest = frame(file.data, end, None);
    &&& file.data.len() <= u64::MAX
    &&& 0 <= from <= end <= file.data.len()
    &&& last.cursor.file_id == file.file_id
    &&& rest.end == whole.end
    &&& last.exhausted ==> rest.lines.len() == 0 && rest.end == end
    &&& records_held(whole.lines, holds, file.path) == all_records(scans) + records_held(
        rest.lines,
        holds,
        file.path,
    )
    &&& malformed_held(whole.lines, holds) == all_malformed(scans) + malformed_held(
        rest.lines,
        holds,
    )
    &&& end - from + (if last.exhausted {
        1int
    } else {
        0int
    }) >= scans.len()
}

/// One more batch.
proof fn run_goes_on(
    init: Seq<Scan>,
    last: Scan,
    file: File,
    cursor: Option<Cursor>,
    max_lines: usize,
    holds: spec_fn(Seq<u8>) -> Option<RawLine>,
)
    requires
        max_lines > 0,
        init.len() > 0 ==> run_stands(init, file, cursor, holds) && !init.last().exhausted,
        is_pass(
            last,
            file,
            if init.len() == 0 {
                cursor
            } else {
                Some(init.last().cursor)
            },
            Some(max_lines),
            holds,
        ),
    ensures
        run_stands(init.push(last), file, cursor, holds),
{
    let here = if init.len() == 0 {
        cursor
    } else {
        Some(init.last().cursor)
    };
    pass_of_file(last, file, here, Some(max_lines), holds);
    let at = begin_of(file, here);
    batch_and_rest(file, at, max_lines as nat, holds);
    let batch = frame(file.data, at, Some(max_lines as nat));
    let rest = frame(file.data, batch.end, None);
    let tail = records_held(rest.lines, holds, file.path);
    let scans = init.push(last);
    assert(scans.drop_last() =~= init);
    assert(scans.last() == last);
    assert(cap_of(Some(max_lines)) == Some(max_lines as nat));
    assert(last.cursor.byte_offset == batch.end);
    assert(usages(last.records@) == records_held(batch.lines, holds, file.path));
    assert(last.malformed == malformed_held(batch.lines, holds));
    assert(all_records(scans) == all_records(init) + usages(last.records@));
    assert(all_malformed(scans) == all_malformed(init) + last.malformed);
    let left = frame(file.data, at, None);
    let whole = frame(file.data, begin_of(file, cursor), None);
    assert(records_held(whole.lines, holds, file.path) =~= all_records(init) + records_held(
        left.lines,
        holds,
        file.path,
    ));
    assert(malformed_held(whole.lines, holds) == all_malformed(init) + malformed_held(
        left.lines,
        holds,
    ));
    assert(all_records(init) + (usages(last.records@) + tail) =~= all_records(scans) + tail);
}

/// A run of batches has read what a single pass has read before the place where
/// the run stands.
proof fn run_reads_on(
    scans: Seq<Scan>,
    file: File,
    cursor: Option<Cursor>,
    max_lines: usize,
    holds: spec_fn(Seq<u8>) -> Option<RawLine>,
)
    requires
        scans.len() > 0,
        max_lines > 0,
        is_run(scans, file, cursor, max_lines, holds),
    ensures
        run_stands(scans, file, cursor, holds),
    decreases scans.len(),
{
    let init = scans.drop_last();
    let n = scans.len() - 1;
    assert(is_pass(scans[n], file, cursor_before(scans, cursor, n), Some(max_lines), holds));
    if n > 0 {
        assert forall|i: int| 0 <= i < init.len() implies is_pass(
            #[trigger] init[i],
            file,
            cursor_before(init, cursor, i),
            Some(max_lines),
            holds,
        ) && (i < init.len() - 1 ==> !init[i].exhausted) by {
            assert(init[i] == scans[i]);
            assert(cursor_before(init, cursor, i) == cursor_before(scans, cursor, i));
        }
        run_reads_on(init, file, cursor, max_lines, holds);
        assert(init.last() == scans[n - 1]);
        assert(!scans[n - 1].exhausted);
    }
    assert(init.push(scans.last()) =~= scans);
    run_goes_on(init, scans.last(), file, cursor, max_lines, holds);
}

/// Reading a file that does not change in batches, until one has exhausted it,
/// finds the requests, counts the malformed lines and ends at the cursor of one
/// unbounded pass.
pub proof fn law_a_run_of_batches_is_one_pass(
    scans: Seq<Scan>,
    whole: Scan,
    file: File,
    cursor: Option<Cursor>,
    max_lines: usize,
    holds: spec_fn(Seq<u8>) -> Option<RawLine>,
)
    requires
        max_lines > 0,
        scans.len() > 0,
        is_run(scans, file, cursor, max_lines, holds),
        scans.last().exhausted,
        is_pass(whole, file, cursor, None, holds),
    ensures
        all_records(scans) == usages(whole.records@),
        all_malformed(scans) == whole.malformed,
        scans.last().cursor == whole.cursor,
{
    run_reads_on(scans, file, cursor, max_lines, holds);
    pass_of_file(whole, file, cursor, None, holds);
    let end = scans.last().cursor.byte_offset as int;
    let rest = frame(file.data, end, None);
    assert(all_records(scans) + records_held(rest.lines, holds, file.path) =~= all_records(scans));
}

/// A batch that has not exhausted the file ends further on than it began, and
/// before the end of the file.
pub proof fn law_a_batch_that_is_not_the_last_advances(
    scan: Scan,
    file: File,
    cursor: Option<Cursor>,
    max_lines: usize,
    holds: spec_fn(Seq<u8>) -> Option<RawLine>,
)
    requires
        max_lines > 0,
        is_pass(scan, file, cursor, Some(max_lines), holds),
        !scan.exhausted,
    ensures
        begin_of(file, cursor) < scan.cursor.byte_offset < file.data.len(),
{
    pass_of_file(scan, file, cursor, Some(max_lines), holds);
    law_a_batch_makes_progress(file.data, begin_of(file, cursor), max_lines as nat);
}

/// A run of batches ends: it has no more batches than the file has bytes, and one
/// that finds nothing left.
pub proof fn law_a_run_of_batches_ends(
    scans: Seq<Scan>,
    file: File,
    cursor: Option<Cursor>,
    max_lines: usize,
    holds: spec_fn(Seq<u8>) -> Option<RawLine>,
)
    requires
        max_lines > 0,
        is_run(scans, file, cursor, max_lines, holds),
    ensures
        scans.len() <= file.data.len() + 1,
{
    if scans.len() > 0 {
        run_reads_on(scans, file, cursor, max_lines, holds);
    }
}

/// Every line is at most one request or one malformed line.
pub proof fn law_a_line_counts_at_most_once(
    lines: Seq<Seq<u8>>,
    parsed: Seq<Option<RawLine>>,
    path: Seq<char>,
    n: nat,
)
    requires
        n <= lines.len(),
    ensures
        records_in(lines, parsed, path, n).len() + malformed_in(lines, parsed, n) <= n,
    decreases n,
{
    if n > 0 {
        law_a_line_counts_at_most_once(lines, parsed, path, (n - 1) as nat);
    }
}

/// The lines of one response, which repeat one id and one usage object, give
/// records that agree in key, model and every token count: collapsing them onto
/// the key loses nothing.
pub proof fn law_repeated_block_lines_agree(
    a: RawLine,
    b: RawLine,
    path: Seq<char>,
)
    requires
        a.message == b.message,
        line_record(a, path) is Some,
        line_record(b, path) is Some,
    ensures
        ({
            let x = line_record(a, path)->0;
            let y = line_record(b, path)->0;
            &&& x.dedupe_key == y.dedupe_key
            &&& x.model == y.model
            &&& x.input == y.input && x.output == y.output
            &&& x.cache_create == y.cache_create && x.cache_read == y.cache_read
            &&& x.thinking == y.thinking
            &&& x.cache_1h == y.cache_1h && x.cache_5m == y.cache_5m
            &&& x.tokens() == y.tokens()
        }),
{
}

/// Each field of a record is the field of the line that it is read from, present
/// exactly where that is; an absent count is nothing, and a record is a subagent's
/// only if the line says so.
pub proof fn law_a_record_holds_what_its_line_holds(
    raw: RawLine,
    path: Seq<char>,
    ts: Option<i64>,
)
    requires
        record_of(raw, path, ts) is Some,
    ensures
        ({
            let u = record_of(raw, path, ts)->0;
            let message = raw.message->0;
            let usage = message.usage->0;
            &&& raw.message is Some && message.usage is Some
            &&& message.id is Some && u.dedupe_key == message.id->0@
            &&& message.model is Some && u.model == message.model->0@
            &&& ts is Some && u.ts == ts->0
            &&& u.transcript_path == path
            &&& u.project_dir is Some <==> raw.cwd is Some
            &&& raw.cwd is Some ==> u.project_dir->0 == raw.cwd->0@
            &&& u.session_id is Some <==> raw.session_id is Some
            &&& raw.session_id is Some ==> u.session_id->0 == raw.session_id->0@
            &&& u.input == (if usage.input_tokens is Some {
                usage.input_tokens->0 as int
            } else {
                0
            })
            &&& u.output == (if usage.output_tokens is Some {
                usage.output_tokens->0 as int
            } else {
                0
            })
            &&& u.cache_create == (if usage.cache_creation_input_tokens is Some {
                usage.cache_creation_input_tokens->0 as int
            } else {
                0
            })
            &&& u.cache_read == (if usage.cache_read_input_tokens is Some {
                usage.cache_read_input_tokens->0 as int
            } else {
                0
            })
            &&& usage.output_tokens_details is None ==> u.thinking == 0
            &&& usage.output_tokens_details matches Some(d) ==> u.thinking == (
            if d.thinking_tokens is Some {
                d.thinking_tokens->0 as int
            } else {
                0
            })
            &&& usage.cache_creation is None ==> u.cache_1h == 0 && u.cache_5m == 0
            &&& usage.cache_creation matches Some(c) ==> u.cache_1h == (
            if c.ephemeral_1h_input_tokens is Some {
                c.ephemeral_1h_input_tokens->0 as int
            } else {
                0
            }) && u.cache_5m == (if c.ephemeral_5m_input_tokens is Some {
                c.ephemeral_5m_input_tokens->0 as int
            } else {
                0
            })
            &&& u.source is Subagent <==> raw.is_sidechain == Some(true)
        }),
{
}

/// The record that is made of a line holds, field by field, what the line holds:
/// the directory it ran in, its session, its counts, and so on, each present
/// exactly where it is in the line.
#[verifier::rlimit(50)]
pub proof fn law_a_record_is_read_from_its_line(
    raw: RawLine,
    path: &str,
    ts: Option<i64>,
    r: UsageRecord,
)
    requires
        call_ensures(RawLine::record_at, (raw, path, ts), Some(r)),
    ensures
        ({
            let usage = raw.message->0.usage->0;
            let kept = |o: Option<String>, p: Option<String>|
                match (o, p) {
                    (Some(a), Some(b)) => a@ == b@,
                    (None, None) => true,
                    _ => false,
                };
            let counted = |n: i64, o: Option<i64>|
                match o {
                    Some(m) => n == m,
                    None => n == 0,
                };
            &&& raw.message is Some && raw.message->0.usage is Some
            &&& kept(Some(r.dedupe_key), raw.message->0.id)
            &&& kept(Some(r.model), raw.message->0.model)
            &&& kept(r.session_id, raw.session_id)
            &&& kept(r.project_dir, raw.cwd)
            &&& r.transcript_path@ == path@
            &&& Some(r.ts) == ts
            &&& counted(r.input, usage.input_tokens)
            &&& counted(r.output, usage.output_tokens)
            &&& counted(r.cache_create, usage.cache_creation_input_tokens)
            &&& counted(r.cache_read, usage.cache_read_input_tokens)
            &&& counted(
                r.thinking,
                match usage.output_tokens_details {
                    Some(d) => d.thinking_tokens,
                    None => None,
                },
            )
            &&& counted(
                r.cache_1h,
                match usage.cache_creation {
                    Some(c) => c.ephemeral_1h_input_tokens,
                    None => None,
                },
            )
            &&& counted(
                r.cache_5m,
                match usage.cache_creation {
                    Some(c) => c.ephemeral_5m_input_tokens,
                    None => None,
                },
            )
            &&& r.source == (if raw.is_sidechain == Some(true) {
                Source::Subagent
            } else {
                Source::Main
            })
        }),
{
    let made = record_of(raw, path@, ts);
    assert(opt_usage(Some(r)) == made);
    assert(made == Some(r@));
    law_a_record_holds_what_its_line_holds(raw, path@, ts);
}

/// What a record says of itself is what its fields hold.
pub proof fn law_a_record_says_what_it_holds(r: UsageRecord)
    ensures
        r@.dedupe_key == r.dedupe_key@,
        r.session_id matches Some(t) ==> r@.session_id == Some(t@),
        r.session_id is None ==> r@.session_id is None,
        r.project_dir matches Some(t) ==> r@.project_dir == Some(t@),
        r.project_dir is None ==> r@.project_dir is None,
        r@.model == r.model@,
        r@.ts == r.ts,
        r@.input == r.input,
        r@.output == r.output,
        r@.cache_create == r.cache_create,
        r@.cache_read == r.cache_read,
        r@.thinking == r.thinking,
        r@.cache_1h == r.cache_1h,
        r@.cache_5m == r.cache_5m,
        r@.source == r.source,
        r@.transcript_path == r.transcript_path@,
{
}

/// A line records a request exactly if it is an assistant's, has usage, an id, a
/// model and a time, and the model does not begin with `<`. Its directory, its
/// session and whether it is a subagent's decide nothing.
pub proof fn law_which_lines_record_a_request(raw: RawLine, path: Seq<char>, ts: Option<i64>)
    ensures
        record_of(raw, path, ts) is Some <==> {
            &&& raw.kind is Some && raw.kind->0@ == "assistant"@
            &&& ts is Some
            &&& raw.message is Some
            &&& raw.message->0.usage is Some
            &&& raw.message->0.id is Some
            &&& raw.message->0.model is Some
            &&& !seq!['<'].is_prefix_of(raw.message->0.model->0@)
        },
{
    let model = raw.message->0.model->0@;
    if seq!['<'].is_prefix_of(model) {
        assert(model[0] == seq!['<'][0]);
    }
    if model.len() > 0 && model[0] == '<' {
        assert(seq!['<'] =~= model.subrange(0, 1));
    }
}

/// A line is dated by its own timestamp, and by nothing else: the request it
/// records is the one recorded at the instant that the timestamp denotes.
pub proof fn law_a_line_is_dated_by_its_own_timestamp(raw: RawLine, path: Seq<char>)
    ensures
        raw.timestamp is None ==> line_record(raw, path) is None,
        raw.timestamp matches Some(text) ==> line_record(raw, path) == record_of(
            raw,
            path,
            rfc3339_seconds(text@),
        ),
        line_record(raw, path) matches Some(u) ==> raw.timestamp is Some && rfc3339_seconds(
            raw.timestamp->0@,
        ) == Some(u.ts as i64) && i64::MIN <= u.ts <= i64::MAX,
{
}

/// A line that differs from another only in the directory gives a record that
/// differs only in the directory; so with the session.
pub proof fn law_a_record_differs_where_its_line_does(
    raw: RawLine,
    path: Seq<char>,
    ts: Option<i64>,
    cwd: Option<String>,
    session_id: Option<String>,
)
    requires
        record_of(raw, path, ts) is Some,
    ensures
        record_of(RawLine { cwd, session_id, ..raw }, path, ts) == Some(
            Usage {
                project_dir: match cwd {
                    Some(dir) => Some(dir@),
                    None => None,
                },
                session_id: match session_id {
                    Some(sid) => Some(sid@),
                    None => None,
                },
                ..record_of(raw, path, ts)->0
            },
        ),
{
}

/// The total of a record is its four counts; the counts that are part of others
/// do not enter.
pub proof fn law_each_token_counts_once(u: Usage, thinking: int, cache_1h: int, cache_5m: int)
    ensures
        u.tokens() - u.input - u.output - u.cache_create - u.cache_read == 0,
        (Usage { thinking, cache_1h, cache_5m, ..u }).tokens() == u.tokens(),
{
}

/// Reading resumes at the cursor exactly if the file is the same and not shorter
/// than the cursor; else it begins at the start, which is a restart where there
/// was a cursor.
pub proof fn law_where_reading_begins(cursor: Option<Cursor>, file_id: u64, len: u64)
    ensures
        cursor is None ==> resume_at(cursor, file_id, len) == (0u64, false),
        cursor is Some ==> {
            let (start, restarted) = resume_at(cursor, file_id, len);
            &&& restarted <==> cursor->0.file_id != file_id || len < cursor->0.byte_offset
            &&& restarted ==> start == 0
            &&& !restarted ==> start == cursor->0.byte_offset
        },
        resume_at(cursor, file_id, len).0 <= len,
{
}

/// The lines, each with a newline behind it, one after the other.
pub open spec fn with_newlines(lines: Seq<Seq<u8>>) -> Seq<u8>
    decreases lines.len(),
{
    if lines.len() == 0 {
        Seq::empty()
    } else {
        lines[0] + seq![10u8] + with_newlines(lines.drop_first())
    }
}

/// The complete lines that a pass reads are the bytes it consumes, cut at the
/// newlines: nothing is lost, added or moved.
#[verifier::rlimit(50)]
pub proof fn law_lines_are_the_bytes_that_are_read(data: Seq<u8>, pos: int, cap: Option<nat>)
    requires
        0 <= pos <= data.len(),
    ensures
        pos <= frame(data, pos, cap).end <= data.len(),
        with_newlines(frame(data, pos, cap).lines) == data.subrange(
            pos,
            frame(data, pos, cap).end,
        ),
        forall|i: int, j: int|
            0 <= i < frame(data, pos, cap).lines.len() && 0 <= j < frame(
                data,
                pos,
                cap,
            ).lines[i].len() ==> #[trigger] frame(data, pos, cap).lines[i][j] != 10,
    decreases data.len() - pos,
{
    newline_from_spec(data, pos);
    let f = frame(data, pos, cap);
    if cap == Some(0nat) || newline_from(data, pos) >= data.len() {
        assert(data.subrange(pos, pos) =~= Seq::<u8>::empty());
    } else {
        let j = newline_from(data, pos);
        law_lines_are_the_bytes_that_are_read(data, j + 1, less(cap));
        let rest = frame(data, j + 1, less(cap));
        assert(f.lines =~= seq![data.subrange(pos, j)] + rest.lines);
        assert(f.lines.drop_first() =~= rest.lines);
        assert(f.lines[0] == data.subrange(pos, j));
        assert(with_newlines(f.lines) =~= data.subrange(pos, f.end));
        assert forall|i: int, k: int|
            0 <= i < f.lines.len() && 0 <= k < f.lines[i].len() implies #[trigger] f.lines[i][k]
            != 10 by {
            if i > 0 {
                assert(f.lines[i] == rest.lines[i - 1]);
            }
        }
    }
}

/// A line counts as blank exactly if every byte of it is a space, a tab, a line
/// feed, a form feed or a carriage return.
pub proof fn law_which_lines_are_blank(line: Seq<u8>)
    ensures
        blank(line) <==> forall|i: int|
            0 <= i < line.len() ==> set![9u8, 10, 12, 13, 32].contains(#[trigger] line[i]),
{
    if blank(line) {
        assert forall|i: int| 0 <= i < line.len() implies set![9u8, 10, 12, 13, 32].contains(
            #[trigger] line[i],
        ) by {
            assert(is_ascii_space(line[i]));
        }
    } else {
        let i = choose|i: int| 0 <= i < line.len() && !is_ascii_space(#[trigger] line[i]);
        assert(!set![9u8, 10, 12, 13, 32].contains(line[i]));
    }
}

/// What one line comes to: nothing if it is blank; one malformed line if it is no
/// record; else the request it records, if it records one. Many lines come to
/// what they come to one by one.
pub proof fn law_what_one_line_comes_to(line: Seq<u8>, parsed: Option<RawLine>, path: Seq<char>)
    ensures
        ({
            let found = records_in(seq![line], seq![parsed], path, 1);
            let malformed = malformed_in(seq![line], seq![parsed], 1);
            &&& blank(line) ==> found.len() == 0 && malformed == 0
            &&& !blank(line) && parsed is None ==> found.len() == 0 && malformed == 1
            &&& !blank(line) && parsed is Some ==> malformed == 0 && (
            match line_record(parsed->0, path) {
                Some(u) => found == seq![u],
                None => found.len() == 0,
            })
        }),
        records_in(Seq::empty(), Seq::empty(), path, 0).len() == 0,
        malformed_in(Seq::empty(), Seq::empty(), 0) == 0,
{
    reveal_with_fuel(records_in, 2);
    reveal_with_fuel(malformed_in, 2);
    if !blank(line) && parsed is Some {
        if let Some(u) = line_record(parsed->0, path) {
            assert(records_in(seq![line], seq![parsed], path, 1) =~= seq![u]);
        }
    }
}

/// What a pass says of itself: it read whole lines from where reading begins, it
/// stands behind the last of them in the same file, and it has exhausted the file
/// exactly if no newline follows or nothing at all.
#[verifier::rlimit(50)]
pub proof fn law_where_a_pass_stands(
    scan: Scan,
    tail: Tail,
    cursor: Option<Cursor>,
    max_lines: Option<usize>,
    parsed: Seq<Option<RawLine>>,
)
    requires
        is_scan(scan, tail, cursor, max_lines, parsed),
        tail.bytes@.len() <= u64::MAX - tail.len,
    ensures
        ({
            let begin = if cursor is Some && cursor->0.file_id == tail.file_id
                && cursor->0.byte_offset <= tail.len {
                cursor->0.byte_offset as int
            } else {
                0
            };
            let read = scan.cursor.byte_offset - begin;
            &&& scan.cursor.file_id == tail.file_id
            &&& 0 <= read <= tail.bytes@.len()
            &&& read > 0 ==> tail.bytes@[read - 1] == 10
            &&& scan.restarted <==> cursor is Some && (cursor->0.file_id != tail.file_id
                || cursor->0.byte_offset > tail.len)
            &&& max_lines is None ==> scan.exhausted && forall|i: int|
                read <= i < tail.bytes@.len() ==> tail.bytes@[i] != 10
            &&& !scan.exhausted ==> scan.cursor.byte_offset < tail.len
            &&& scan.exhausted && scan.cursor.byte_offset < tail.len ==> forall|i: int|
                read <= i < tail.bytes@.len() ==> tail.bytes@[i] != 10
            &&& scan.records@.len() + scan.malformed <= read
        }),
{
    let f = frame(tail.bytes@, 0, cap_of(max_lines));
    law_pass_ends_on_a_line_boundary(tail.bytes@, 0, cap_of(max_lines));
    law_a_line_counts_at_most_once(f.lines, parsed, tail.path@, f.lines.len());
    law_lines_are_the_bytes_that_are_read(tail.bytes@, 0, cap_of(max_lines));
    lines_are_no_more_than_bytes(f.lines);
    assert(usages(scan.records@).len() == scan.records@.len());
}

proof fn lines_are_no_more_than_bytes(lines: Seq<Seq<u8>>)
    ensures
        lines.len() <= with_newlines(lines).len(),
    decreases lines.len(),
{
    if lines.len() > 0 {
        lines_are_no_more_than_bytes(lines.drop_first());
    }
}

/// The two sources are stored under different names: a main session's as `main`.
pub proof fn law_sources_are_told_apart()
    ensures
        Source::Main.name() == "main"@,
        Source::Subagent.name() == "subagent"@,
        Source::Main.name() != Source::Subagent.name(),
{
    reveal_strlit("main");
    reveal_strlit("subagent");
}

/// A walk takes exactly the files with the extension and something before it,
/// descends into every directory and takes nothing else.
pub proof fn law_what_a_walk_takes(stem: Seq<char>, name: Seq<char>, kind: EntryKind)
    ensures
        visit_of(name, kind) is Descend <==> kind is Directory,
        visit_of(name, kind) is Take ==> kind is File,
        visit_of(stem + ".jsonl"@, EntryKind::File) is Take <==> stem.len() > 0,
        visit_of(name, kind) is Take ==> name.take(name.len() - 6) + ".jsonl"@ == name
            && name.len() > 6,
{
    reveal_strlit(".jsonl");
    let full = stem + ".jsonl"@;
    assert(full.skip(full.len() - 6) =~= ".jsonl"@);
    if visit_of(name, kind) is Take {
        assert(name.take(name.len() - 6) + ".jsonl"@ =~= name);
    }
}

/// Local placeholders such as `<synthetic>` are no requests.
pub proof fn law_placeholder_models_are_skipped(raw: RawLine, path: Seq<char>, ts: Option<i64>)
    requires
        record_of(raw, path, ts) is Some,
    ensures
        record_of(raw, path, ts)->0.model.len() > 0 ==> record_of(raw, path, ts)->0.model[0] != '<',
{
}

// ---------------------------------------------------------------------------
// Discovery
// ---------------------------------------------------------------------------

/// What a directory walk does with an entry.
#[derive(Debug, Clone, Copy, PartialEq, Eq, Structural)]
pub enum Visit {
    Descend,
    Take,
    Skip,
}

/// What kind of thing an entry is.
#[derive(Debug, Clone, Copy, PartialEq, Eq, Structural)]
pub enum EntryKind {
    Directory,
    File,
    Other,
}

/// A file name with the extension `jsonl` and something before it.
pub open spec fn is_transcript_name(name: Seq<char>) -> bool {
    name.len() > 6 && name.skip(name.len() - 6) == ".jsonl"@
}

/// Directories are walked, transcripts are taken, everything else is passed by.
pub open spec fn visit_of(name: Seq<char>, kind: EntryKind) -> Visit {
    match kind {
        EntryKind::Directory => Visit::Descend,
        EntryKind::File => if is_transcript_name(name) {
            Visit::Take
        } else {
            Visit::Skip
        },
        EntryKind::Other => Visit::Skip,
    }
}

/// What the walk for transcripts does with an entry of this name and kind.
pub fn visit(name: &str, kind: EntryKind) -> (r: Visit)
    ensures
        r == visit_of(name@, kind),
{
    match kind {
        EntryKind::Directory => Visit::Descend,
        EntryKind::File => {
            let v = chars_of(name);
            if v.len() <= 6 {
                return Visit::Skip;
            }
            let extension = string_of(&v, v.len() - 6, v.len());
            assert(extension@ =~= name@.skip(name@.len() - 6));
            if same_text(extension.as_str(), ".jsonl") {
                Visit::Take
            } else {
                Visit::Skip
            }
        },
        EntryKind::Other => Visit::Skip,
    }
}

/// Whether a record is made of a line, whatever its directory and its session.
pub proof fn law_which_lines_become_records(
    raw: RawLine,
    path: &str,
    ts: Option<i64>,
    r: Option<UsageRecord>,
)
    requires
        call_ensures(RawLine::record_at, (raw, path, ts), r),
    ensures
        r is Some <==> {
            &&& raw.kind is Some && raw.kind->0@ == "assistant"@
            &&& ts is Some
            &&& raw.message is Some
            &&& raw.message->0.usage is Some
            &&& raw.message->0.id is Some
            &&& raw.message->0.model is Some
            &&& !seq!['<'].is_prefix_of(raw.message->0.model->0@)
        },
{
    law_which_lines_record_a_request(raw, path@, ts);
}

/// A record that is made of a line alone has the time that its own timestamp
/// denotes, and the path it was read from.
pub proof fn law_a_record_has_the_time_of_its_line(
    raw: RawLine,
    path: &str,
    r: Option<UsageRecord>,
    ts: Option<i64>,
)
    requires
        call_ensures(RawLine::into_record, (raw, path), r),
        ts == (if raw.timestamp is Some {
            rfc3339_seconds(raw.timestamp->0@)
        } else {
            None
        }),
    ensures
        opt_usage(r) == record_of(raw, path@, ts),
        r matches Some(u) ==> Some(u.ts) == ts && u.transcript_path@ == path@,
{
    if let Some(u) = r {
        assert(opt_usage(r) == Some(u@));
        law_a_record_holds_what_its_line_holds(raw, path@, ts);
        law_a_record_says_what_it_holds(u);
    }
}

/// A timestamp is the instant it denotes, and no timestamp is no instant.
pub proof fn law_what_a_timestamp_denotes(raw: Option<&str>, r: Option<i64>)
    requires
        call_ensures(parse_ts, (raw,), r),
    ensures
        raw is None ==> r is None,
        raw matches Some(text) ==> r == rfc3339_seconds(text@),
{
}

/// A sidechain's requests are a subagent's, and all others the main session's;
/// each source is stored under its own name.
pub proof fn law_where_requests_come_from(is_sidechain: bool, source: Source, name: &'static str)
    requires
        call_ensures(Source::from_sidechain, (is_sidechain,), source),
        call_ensures(Source::as_str, (source,), name),
    ensures
        is_sidechain ==> source is Subagent && name@ == "subagent"@,
        !is_sidechain ==> source is Main && name@ == "main"@,
{
}

/// The total of a record is its four counts.
pub proof fn law_a_records_total_is_its_counts(r: &UsageRecord, n: i64)
    requires
        i64::MIN <= r@.tokens() <= i64::MAX,
        call_ensures(UsageRecord::total, (r,), n),
    ensures
        n - r.input - r.output - r.cache_create - r.cache_read == 0,
{
}

/// Reading resumes at the cursor of the same file that has not shrunk, and at the
/// start otherwise; only where there was a cursor is that a restart.
pub proof fn law_where_reading_resumes(
    cursor: Option<Cursor>,
    file_id: u64,
    len: u64,
    start: u64,
    restarted: bool,
)
    requires
        call_ensures(resume, (cursor, file_id, len), (start, restarted)),
    ensures
        cursor is None ==> start == 0 && !restarted,
        cursor matches Some(c) ==> {
            &&& c.file_id == file_id && c.byte_offset <= len ==> start == c.byte_offset
                && !restarted
            &&& c.file_id != file_id || c.byte_offset > len ==> start == 0 && restarted
        },
{
}

/// A walk descends into directories, takes the files that end in `.jsonl` and have
/// something before that, and skips everything else.
pub proof fn law_what_a_walk_does(name: &str, kind: EntryKind, r: Visit)
    requires
        call_ensures(visit, (name, kind), r),
    ensures
        r is Descend <==> kind is Directory,
        r is Take <==> kind is File && name@.len() > 6 && ".jsonl"@.is_suffix_of(name@),
{
    reveal_strlit(".jsonl");
    if name@.len() > 6 {
        assert(name@.skip(name@.len() - 6) =~= name@.subrange(
            name@.len() - 6,
            name@.len() as int,
        ));
    }
}

/// What a pass found: the requests of the lines that were read, in order and none
/// other, each under the path of the file; how many lines are no record; where it
/// stands; whether it began at the start; whether anything is left.
#[verifier::rlimit(50)]
pub proof fn law_what_a_pass_finds<F: Fn(&[u8]) -> Option<RawLine>>(
    tail: &Tail,
    cursor: Option<Cursor>,
    max_lines: Option<usize>,
    parse: F,
    holds: spec_fn(Seq<u8>) -> Option<RawLine>,
    found: Scan,
)
    requires
        call_ensures(scan_batch::<F>, (tail, cursor, max_lines, parse), found),
        forall|line: Seq<u8>, result: Option<RawLine>| #[trigger]
            parses(parse, line, result) ==> result == holds(line),
    ensures
        ({
            let f = frame(tail.bytes@, 0, cap_of(max_lines));
            let begin = if cursor is Some && cursor->0.file_id == tail.file_id
                && cursor->0.byte_offset <= tail.len {
                cursor->0.byte_offset as int
            } else {
                0
            };
            &&& usages(found.records@) == records_held(f.lines, holds, tail.path@)
            &&& found.malformed == malformed_held(f.lines, holds)
            &&& with_newlines(f.lines) == tail.bytes@.take(found.cursor.byte_offset - begin)
            &&& found.cursor.file_id == tail.file_id
            &&& found.restarted <==> cursor is Some && (cursor->0.file_id != tail.file_id
                || cursor->0.byte_offset > tail.len)
            &&& max_lines is None ==> found.exhausted
            &&& max_lines matches Some(n) ==> f.lines.len() <= n
        }),
{
    let f = frame(tail.bytes@, 0, cap_of(max_lines));
    let parsed = choose|parsed: Seq<Option<RawLine>>|
        #![trigger is_scan(found, *tail, cursor, max_lines, parsed)]
        parses_all(parse, f.lines, parsed) && is_scan(found, *tail, cursor, max_lines, parsed);
    let same = parsed_by(f.lines, holds);
    assert forall|i: int|
        0 <= i < f.lines.len() && !blank(f.lines[i]) implies parsed[i] == #[trigger] same[i] by {
        assert(parses(parse, f.lines[i], parsed[i]));
    }
    blank_lines_do_not_matter(f.lines, parsed, same, tail.path@, f.lines.len());
    law_lines_are_the_bytes_that_are_read(tail.bytes@, 0, cap_of(max_lines));
    law_pass_ends_on_a_line_boundary(tail.bytes@, 0, cap_of(max_lines));
    assert(tail.bytes@.subrange(0, f.end) =~= tail.bytes@.take(f.end));
}

/// An unbounded pass is a batch without a cap.
pub proof fn law_an_unbounded_pass_reads_everything<F: Fn(&[u8]) -> Option<RawLine>>(
    tail: &Tail,
    cursor: Option<Cursor>,
    parse: F,
    found: Scan,
)
    requires
        call_ensures(scan::<F>, (tail, cursor, parse), found),
    ensures
        found.exhausted,
        exists|parsed: Seq<Option<RawLine>>|
            #![trigger is_scan(found, *tail, cursor, None, parsed)]
            is_scan(found, *tail, cursor, None, parsed) && parses_all(
                parse,
                frame(tail.bytes@, 0, None).lines,
                parsed,
            ),
{
    law_pass_ends_on_a_line_boundary(tail.bytes@, 0, None);
}

} // verus!
