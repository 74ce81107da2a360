//! From transcripts into the ledger.
//!
//! The status line reads in small batches, each of which writes its records and
//! its cursor together, so that a pass that is cut short keeps what it has
//! written and the next one goes on from there. The backfill reads each
//! transcript in one pass.

use vstd::prelude::*;
use vstd::string::*;

use crate::ledger;
use crate::ledger::{Ledger, LedgerError};
use crate::store;
use crate::text;
use crate::text::{push_dec, push_dec_signed, push_line};
use crate::transcript;
use crate::transcript::{scan, scan_batch, Cursor, RawLine, Scan, Tail};

verus! {

/// Milliseconds that the status line gives to reading, once its line is shown.
pub const BUDGET_MILLIS: u64 = 150;

/// Lines of a batch: few enough that one takes a few milliseconds.
pub const BATCH_LINES: usize = 500;

/// The offset of a cursor, if there is one.
pub open spec fn offset_in(cursor: Option<Cursor>) -> Option<u64> {
    match cursor {
        Some(c) => Some(c.byte_offset),
        None => None,
    }
}

/// A pass that found nothing and moved nowhere writes nothing.
pub open spec fn worth_writing(scan: Scan, cursor: Option<Cursor>) -> bool {
    scan.records@.len() > 0 || offset_in(cursor) != Some(scan.cursor.byte_offset)
}

/// Writes what a pass from `cursor` on found, unless that is nothing: a render
/// that has nothing new to tell does not contend for the lock.
pub fn commit_scan(
    ledger: &mut Ledger,
    scan: &Scan,
    cursor: Option<Cursor>,
    path: &str,
    now: i64,
) -> (r: Result<usize, LedgerError>)
    ensures
        !worth_writing(*scan, cursor) ==> r == Ok::<usize, LedgerError>(0) && *final(ledger)
            == *old(ledger),
        old(ledger).store().sound() && r is Ok ==> final(ledger).store().sound(),
        final(ledger).store().solo == old(ledger).store().solo,
        old(ledger).store().tables.wf() ==> store::same_database(
            old(ledger).store(),
            final(ledger).store(),
        ),
        worth_writing(*scan, cursor) && old(ledger).store().sound() ==> (r matches Ok(n)
            ==> ledger::batch_ingested(
            old(ledger).store(),
            transcript::usages(scan.records@),
            path@,
            scan.cursor,
            now as int,
            final(ledger).store(),
            n as nat,
        )),
        old(ledger).store().alone() ==> (r is Err ==> final(ledger).store().kept()
            == old(ledger).store().tables),
{
    let advanced = match cursor {
        Some(c) => c.byte_offset != scan.cursor.byte_offset,
        None => true,
    };
    if scan.records.len() == 0 && !advanced {
        return Ok(0);
    }
    ledger.ingest_batch(scan, path, now)
}

/// `scan` is what `parse` makes of the lines of the file from `cursor` on.
pub open spec fn scanned<F: Fn(&[u8]) -> Option<RawLine>>(
    scan: Scan,
    tail: Tail,
    cursor: Option<Cursor>,
    max_lines: Option<usize>,
    parse: F,
) -> bool {
    exists|parsed: Seq<Option<RawLine>>|
        #![trigger transcript::is_scan(scan, tail, cursor, max_lines, parsed)]
        transcript::parses_all(
            parse,
            transcript::frame(tail.bytes@, 0, transcript::cap_of(max_lines)).lines,
            parsed,
        ) && transcript::is_scan(scan, tail, cursor, max_lines, parsed)
}

/// One step of the status line: reads a batch from `cursor` on and writes it.
/// The answer is whether the transcript has been read to its end.
pub fn ingest_step<F: Fn(&[u8]) -> Option<RawLine>>(
    ledger: &mut Ledger,
    tail: &Tail,
    cursor: Option<Cursor>,
    now: i64,
    parse: F,
) -> (r: Result<bool, LedgerError>)
    requires
        forall|line: &[u8]| #[trigger] call_requires(parse, (line,)),
        transcript::resume_at(cursor, tail.file_id, tail.len).0 + tail.bytes@.len() <= u64::MAX,
    ensures
        old(ledger).store().sound() && r is Ok ==> final(ledger).store().sound(),
        final(ledger).store().solo == old(ledger).store().solo,
        old(ledger).store().tables.wf() ==> store::same_database(
            old(ledger).store(),
            final(ledger).store(),
        ),
        exists|scan: Scan|
            #![trigger worth_writing(scan, cursor)]
            scanned(scan, *tail, cursor, Some(BATCH_LINES), parse) && step_done(
                old(ledger).store(),
                scan,
                cursor,
                tail.path@,
                now as int,
                final(ledger).store(),
                r,
            ),
{
    let found = scan_batch(tail, cursor, Some(BATCH_LINES), parse);
    assert(scanned(found, *tail, cursor, Some(BATCH_LINES), parse));
    let r = match commit_scan(ledger, &found, cursor, tail.path.as_str(), now) {
        Ok(_) => Ok(found.exhausted),
        Err(e) => Err(e),
    };
    assert(step_done(
        old(ledger).store(),
        found,
        cursor,
        tail.path@,
        now as int,
        ledger.store(),
        r,
    ));
    r
}

/// What a step did to the ledger: nothing where the pass was not worth writing;
/// else all of it, or, if it failed and nobody else can write, nothing.
pub open spec fn step_done(
    before: store::Store,
    scan: Scan,
    cursor: Option<Cursor>,
    path: Seq<char>,
    now: int,
    after: store::Store,
    r: Result<bool, LedgerError>,
) -> bool {
    &&& r matches Ok(done) ==> done == scan.exhausted
    &&& !worth_writing(scan, cursor) ==> r is Ok && after == before
    &&& worth_writing(scan, cursor) && before.sound() && r is Ok ==> batch_written(
        before,
        scan,
        path,
        now,
        after,
    )
    &&& before.alone() && r is Err ==> after.kept() == before.tables
}

/// The records and the cursor of the pass were written together.
pub open spec fn batch_written(
    before: store::Store,
    scan: Scan,
    path: Seq<char>,
    now: int,
    after: store::Store,
) -> bool {
    exists|n: nat| #[trigger]
        ledger::batch_ingested(
            before,
            transcript::usages(scan.records@),
            path,
            scan.cursor,
            now,
            after,
            n,
        )
}

/// What the answer of the ledger says of how far a transcript has been read: not
/// at all, where it is an error.
pub fn cursor_if_known(answer: Result<Option<Cursor>, LedgerError>) -> (r: Option<Cursor>)
    ensures
        r == (match answer {
            Ok(c) => c,
            Err(_) => None,
        }),
{
    match answer {
        Ok(c) => c,
        Err(_) => None,
    }
}

/// How far a transcript has been read; not at all, where that cannot be found
/// out.
pub fn stored_cursor(ledger: &mut Ledger, path: &str) -> (r: Option<Cursor>)
    ensures
        old(ledger).store().saved is None ==> store::only_reads(
            old(ledger).store(),
            final(ledger).store(),
        ),
        old(ledger).store().ours ==> r is None || r == store::cursor_of(
            final(ledger).store().tables,
            path@,
        ),
{
    cursor_if_known(ledger.cursor(path))
}

// ---------------------------------------------------------------------------
// Backfill
// ---------------------------------------------------------------------------

/// What a backfill has come to.
#[derive(Debug, Clone, Copy, PartialEq, Eq, Structural)]
pub struct Backfill {
    pub inserted: u128,
    pub malformed: u128,
    pub failed: u128,
}

impl Default for Backfill {
    fn default() -> (r: Self)
        ensures
            r == (Backfill { inserted: 0, malformed: 0, failed: 0 }),
    {
        Backfill { inserted: 0, malformed: 0, failed: 0 }
    }
}

/// More than any number of transcripts can come to.
pub const PLENTY: u128 = 0x1000_0000_0000_0000_0000_0000_0000_0000;

impl Backfill {
    /// Far from what can be counted.
    pub open spec fn moderate(self) -> bool {
        self.inserted < PLENTY && self.malformed < PLENTY && self.failed < PLENTY
    }

    /// A transcript could not be read.
    pub fn unreadable(&mut self)
        requires
            old(self).moderate(),
        ensures
            *final(self) == (Backfill { failed: (old(self).failed + 1) as u128, ..*old(self) }),
    {
        self.failed = self.failed + 1;
    }
}

/// Reads everything of a transcript from `cursor` on into the ledger, and counts.
/// Once the records are in, the cursor is moved, and the answer is what came of
/// that; that it could not be is no failure, since reading the same again changes
/// nothing.
pub fn backfill_one<F: Fn(&[u8]) -> Option<RawLine>>(
    ledger: &mut Ledger,
    tail: &Tail,
    cursor: Option<Cursor>,
    now: i64,
    parse: F,
    counts: &mut Backfill,
) -> (r: Result<Result<(), LedgerError>, LedgerError>)
    requires
        forall|line: &[u8]| #[trigger] call_requires(parse, (line,)),
        transcript::resume_at(cursor, tail.file_id, tail.len).0 + tail.bytes@.len() <= u64::MAX,
        old(counts).moderate(),
    ensures
        old(ledger).store().sound() && r is Ok ==> final(ledger).store().sound(),
        final(ledger).store().solo == old(ledger).store().solo,
        old(ledger).store().tables.wf() ==> store::same_database(
            old(ledger).store(),
            final(ledger).store(),
        ),
        exists|scan: Scan|
            #![trigger transcript::usages(scan.records@)]
            scanned(scan, *tail, cursor, None, parse) && backfilled(
                old(ledger).store(),
                scan,
                tail.path@,
                now as int,
                final(ledger).store(),
                *old(counts),
                *final(counts),
                r,
            ),
{
    let found = scan(tail, cursor, parse);
    assert(scanned(found, *tail, cursor, None, parse));
    counts.malformed = counts.malformed + found.malformed as u128;
    let ghost us = transcript::usages(found.records@);
    match ledger.ingest(found.records.as_slice()) {
        Ok(n) => {
            counts.inserted = counts.inserted + n as u128;
            let ghost mid = ledger.store();
            let moved = ledger.set_cursor(tail.path.as_str(), found.cursor, now);
            assert(old(ledger).store().sound() ==> ledger::ingested(
                old(ledger).store(),
                us,
                mid,
                (counts.inserted - old(counts).inserted) as nat,
            ));
            assert(old(ledger).store().sound() ==> cursor_tried(
                mid,
                tail.path@,
                found.cursor,
                now as int,
                ledger.store(),
                moved is Ok,
            ));
            Ok(moved)
        },
        Err(e) => {
            counts.failed = counts.failed + 1;
            Err(e)
        },
    }
}

/// What the attempt to move the cursor did, given whether it moved. Others may
/// write in between, if they can.
pub open spec fn cursor_tried(
    mid: store::Store,
    path: Seq<char>,
    cursor: Cursor,
    now: int,
    after: store::Store,
    moved: bool,
) -> bool {
    &&& after.solo == mid.solo
    &&& moved ==> store::cursor_of(after.tables, path) == Some(cursor)
    &&& mid.solo ==> after.tables == (if moved {
        store::put_cursor(mid.tables, path, cursor, now)
    } else {
        mid.tables
    })
}

/// What backfilling one transcript did: the records were added, and then the
/// cursor was tried; or nothing was kept.
pub open spec fn backfilled(
    before: store::Store,
    scan: Scan,
    path: Seq<char>,
    now: int,
    after: store::Store,
    old_counts: Backfill,
    counts: Backfill,
    r: Result<Result<(), LedgerError>, LedgerError>,
) -> bool {
    let us = transcript::usages(scan.records@);
    &&& counts.malformed == old_counts.malformed + scan.malformed
    &&& counts.failed == old_counts.failed + (if r is Ok {
        0int
    } else {
        1int
    })
    &&& r is Err ==> counts.inserted == old_counts.inserted
    &&& before.sound() && r is Ok ==> counts.inserted >= old_counts.inserted && exists|
        mid: store::Store,
    | #[trigger]
        ledger::ingested(before, us, mid, (counts.inserted - old_counts.inserted) as nat)
            && mid.solo == before.solo && cursor_tried(
            mid,
            path,
            scan.cursor,
            now,
            after,
            r->Ok_0 is Ok,
        )
    &&& before.alone() && r is Err ==> after.kept() == before.tables
}

/// What a backfill begins with.
pub open spec fn scanning_text(transcripts: nat, root: Seq<char>) -> Seq<char> {
    "Scanning "@ + text::dec(transcripts) + " transcripts under "@ + root
}

/// What a backfill begins with.
pub fn scanning_line(transcripts: usize, root: &str) -> (r: String)
    ensures
        r@ == scanning_text(transcripts as nat, root@),
{
    let mut out = String::new();
    out.append("Scanning ");
    push_dec(&mut out, transcripts as u128);
    out.append(" transcripts under ");
    out.append(root);
    assert(out@ =~= scanning_text(transcripts as nat, root@));
    out
}

/// How many requests were added, and how many there are.
pub open spec fn added_text(inserted: nat, total: int) -> Seq<char> {
    "Added "@ + text::dec(inserted) + " new requests ("@ + text::dec_signed(total)
        + " total in ledger)."@
}

/// A session that several transcripts tell of.
pub open spec fn spread_text(session: Seq<char>, count: int) -> Seq<char> {
    "note: session "@ + session + " appears in "@ + text::dec_signed(count) + " transcripts"@
}

/// What a backfill ends with: the requests added, what was skipped and what
/// failed if anything, and the sessions that several transcripts tell of.
pub open spec fn report_lines(
    counts: Backfill,
    total: int,
    spread: Seq<(String, i64)>,
) -> Seq<Seq<char>> {
    seq![added_text(counts.inserted as nat, total)] + (if counts.malformed > 0 {
        seq!["Skipped "@ + text::dec(counts.malformed as nat) + " unparseable lines."@]
    } else {
        Seq::empty()
    }) + (if counts.failed > 0 {
        seq![text::dec(counts.failed as nat) + " transcripts could not be read."@]
    } else {
        Seq::empty()
    }) + spread.map_values(|s: (String, i64)| spread_text(s.0@, s.1 as int))
}

/// What a backfill ends with.
pub fn report(counts: &Backfill, total: i64, spread: &Vec<(String, i64)>) -> (r: Vec<String>)
    ensures
        text::texts(r@) == report_lines(*counts, total as int, spread@),
{
    let mut lines: Vec<String> = Vec::new();
    assert(text::texts(lines@) =~= Seq::<Seq<char>>::empty());
    let mut out = String::new();
    out.append("Added ");
    push_dec(&mut out, counts.inserted);
    out.append(" new requests (");
    push_dec_signed(&mut out, total as i128);
    out.append(" total in ledger).");
    assert(out@ =~= added_text(counts.inserted as nat, total as int));
    push_line(&mut lines, out);
    if counts.malformed > 0 {
        let mut out = String::new();
        out.append("Skipped ");
        push_dec(&mut out, counts.malformed);
        out.append(" unparseable lines.");
        assert(out@ =~= "Skipped "@ + text::dec(counts.malformed as nat)
            + " unparseable lines."@);
        push_line(&mut lines, out);
    }
    if counts.failed > 0 {
        let mut out = String::new();
        push_dec(&mut out, counts.failed);
        out.append(" transcripts could not be read.");
        assert(out@ =~= text::dec(counts.failed as nat) + " transcripts could not be read."@);
        push_line(&mut lines, out);
    }
    let ghost said = text::texts(lines@);
    let ghost notes = spread@.map_values(|s: (String, i64)| spread_text(s.0@, s.1 as int));
    let mut i: usize = 0;
    while i < spread.len()
        invariant
            i <= spread@.len(),
            notes == spread@.map_values(|s: (String, i64)| spread_text(s.0@, s.1 as int)),
            text::texts(lines@) =~= said + notes.take(i as int),
        decreases spread@.len() - i,
    {
        let (session, count) = &spread[i];
        let mut out = String::new();
        out.append("note: session ");
        out.append(session.as_str());
        out.append(" appears in ");
        push_dec_signed(&mut out, *count as i128);
        out.append(" transcripts");
        assert(out@ =~= spread_text(spread@[i as int].0@, spread@[i as int].1 as int));
        push_line(&mut lines, out);
        i += 1;
    }
    assert(text::texts(lines@) =~= report_lines(*counts, total as int, spread@));
    lines
}

// ---------------------------------------------------------------------------
// Laws
// ---------------------------------------------------------------------------

/// Reading a file in batches, each ingested before the next is read, comes to the
/// same requests and the same sessions as reading and ingesting it in one pass.
/// `parsed` is what each complete line holds; the batch takes at most `cap` of
/// them.
pub proof fn law_batches_come_to_what_one_pass_comes_to(
    t: store::Tables,
    data: Seq<u8>,
    pos: int,
    cap: nat,
    parsed: Seq<Option<RawLine>>,
    path: Seq<char>,
)
    requires
        0 <= pos <= data.len(),
        parsed.len() == transcript::frame(data, pos, None).lines.len(),
    ensures
        ({
            let whole = transcript::frame(data, pos, None);
            let batch = transcript::frame(data, pos, Some(cap));
            let rest = transcript::frame(data, batch.end, None);
            let k = batch.lines.len();
            let first = transcript::records_in(
                batch.lines,
                parsed.take(k as int),
                path,
                batch.lines.len(),
            );
            let second = transcript::records_in(
                rest.lines,
                parsed.skip(k as int),
                path,
                rest.lines.len(),
            );
            let all = transcript::records_in(whole.lines, parsed, path, whole.lines.len());
            &&& ledger::add_all(ledger::add_all(t, first), second) == ledger::add_all(t, all)
            &&& ledger::fresh(t, first) + ledger::fresh(ledger::add_all(t, first), second)
                == ledger::fresh(t, all)
        }),
{
    let whole = transcript::frame(data, pos, None);
    let batch = transcript::frame(data, pos, Some(cap));
    let rest = transcript::frame(data, batch.end, None);
    let k = batch.lines.len();
    transcript::law_batches_read_what_one_pass_reads(data, pos, cap);
    let p1 = parsed.take(k as int);
    let p2 = parsed.skip(k as int);
    assert(p1 + p2 =~= parsed);
    transcript::law_records_of_batches_add_up(batch.lines, p1, rest.lines, p2, path);
    let first = transcript::records_in(batch.lines, p1, path, batch.lines.len());
    let second = transcript::records_in(rest.lines, p2, path, rest.lines.len());
    ledger::law_batches_add_up(t, first, second);
}

/// A render after the transcript has been read to its end, with nothing appended
/// since, writes nothing.
pub proof fn law_an_unchanged_transcript_is_not_written_again(
    scan: Scan,
    tail: Tail,
    cursor: Cursor,
    max_lines: Option<usize>,
    parsed: Seq<Option<RawLine>>,
)
    requires
        transcript::is_scan(scan, tail, Some(cursor), max_lines, parsed),
        cursor.file_id == tail.file_id,
        cursor.byte_offset <= tail.len,
        forall|i: int| 0 <= i < tail.bytes@.len() ==> tail.bytes@[i] != 10,
    ensures
        !worth_writing(scan, Some(cursor)),
{
    let f = transcript::frame(tail.bytes@, 0, transcript::cap_of(max_lines));
    transcript::newline_from_spec(tail.bytes@, 0);
    assert(f.lines.len() == 0);
    assert(transcript::usages(scan.records@).len() == 0);
}

/// A pass of `parse` over the rest of a file is a pass over the file, where `holds`
/// is what `parse` answers.
pub proof fn law_a_scan_is_a_pass<F: Fn(&[u8]) -> Option<RawLine>>(
    scan: Scan,
    tail: Tail,
    file: transcript::File,
    cursor: Option<Cursor>,
    max_lines: Option<usize>,
    parse: F,
    holds: spec_fn(Seq<u8>) -> Option<RawLine>,
)
    requires
        scanned(scan, tail, cursor, max_lines, parse),
        transcript::tail_of(tail, file, cursor, transcript::cap_of(max_lines)),
        forall|line: Seq<u8>, result: Option<RawLine>| #[trigger]
            transcript::parses(parse, line, result) ==> result == holds(line),
    ensures
        transcript::is_pass(scan, file, cursor, max_lines, holds),
{
    let lines = transcript::frame(tail.bytes@, 0, transcript::cap_of(max_lines)).lines;
    let parsed = choose|parsed: Seq<Option<RawLine>>|
        #![trigger transcript::is_scan(scan, tail, cursor, max_lines, parsed)]
        transcript::parses_all(parse, lines, parsed) && transcript::is_scan(
            scan,
            tail,
            cursor,
            max_lines,
            parsed,
        );
    let held = transcript::parsed_by(lines, holds);
    assert forall|i: int| 0 <= i < lines.len() && !transcript::blank(lines[i]) implies parsed[i]
        == #[trigger] held[i] by {
        assert(transcript::parses(parse, lines[i], parsed[i]));
    }
    transcript::blank_lines_do_not_matter(lines, parsed, held, tail.path@, lines.len());
    assert(transcript::is_scan(scan, tail, cursor, max_lines, held));
}

/// The lines of a file that a backfill reads: those behind the stored cursor.
pub open spec fn unread(t: store::Tables, file: transcript::File) -> transcript::Frame {
    transcript::frame(
        file.data,
        transcript::begin_of(file, store::cursor_of(t, file.path)),
        None,
    )
}

/// The requests that a backfill finds in a file.
pub open spec fn unread_records(
    t: store::Tables,
    file: transcript::File,
    holds: spec_fn(Seq<u8>) -> Option<RawLine>,
) -> Seq<transcript::Usage> {
    let lines = unread(t, file).lines;
    transcript::records_in(lines, transcript::parsed_by(lines, holds), file.path, lines.len())
}

/// The malformed lines that a backfill finds in a file.
pub open spec fn unread_malformed(
    t: store::Tables,
    file: transcript::File,
    holds: spec_fn(Seq<u8>) -> Option<RawLine>,
) -> nat {
    let lines = unread(t, file).lines;
    transcript::malformed_in(lines, transcript::parsed_by(lines, holds), lines.len())
}

/// The rows after a file was backfilled and its cursor moved.
pub open spec fn after_file(
    t: store::Tables,
    file: transcript::File,
    holds: spec_fn(Seq<u8>) -> Option<RawLine>,
    now: int,
) -> store::Tables {
    store::put_cursor(
        ledger::add_all(t, unread_records(t, file, holds)),
        file.path,
        Cursor { byte_offset: unread(t, file).end as u64, file_id: file.file_id },
        now,
    )
}

/// The rows after all files were backfilled, one after the other.
pub open spec fn after_files(
    t: store::Tables,
    files: Seq<transcript::File>,
    holds: spec_fn(Seq<u8>) -> Option<RawLine>,
    now: int,
) -> store::Tables
    decreases files.len(),
{
    if files.len() == 0 {
        t
    } else {
        after_file(after_files(t, files.drop_last(), holds, now), files.last(), holds, now)
    }
}

/// How many new requests and how many malformed lines that comes to.
pub open spec fn found_in_files(
    t: store::Tables,
    files: Seq<transcript::File>,
    holds: spec_fn(Seq<u8>) -> Option<RawLine>,
    now: int,
) -> (nat, nat)
    decreases files.len(),
{
    if files.len() == 0 {
        (0, 0)
    } else {
        let init = files.drop_last();
        let before = after_files(t, init, holds, now);
        let found = found_in_files(t, init, holds, now);
        (
            found.0 + ledger::fresh(before, unread_records(before, files.last(), holds)),
            found.1 + unread_malformed(before, files.last(), holds),
        )
    }
}

/// Backfilling a file into a ledger that nobody else can reach, from its stored
/// cursor on, does to the rows and to the counts what [`after_file`] says, if the
/// cursor was moved.
pub proof fn law_backfilling_reads_what_is_unread(
    before: store::Store,
    scan: Scan,
    file: transcript::File,
    holds: spec_fn(Seq<u8>) -> Option<RawLine>,
    now: int,
    after: store::Store,
    old_counts: Backfill,
    counts: Backfill,
    r: Result<Result<(), LedgerError>, LedgerError>,
)
    requires
        before.alone(),
        transcript::is_pass(scan, file, store::cursor_of(before.tables, file.path), None, holds),
        backfilled(before, scan, file.path, now, after, old_counts, counts, r),
        r matches Ok(moved) && moved is Ok,
    ensures
        after.tables == after_file(before.tables, file, holds, now),
        counts.inserted == old_counts.inserted + ledger::fresh(
            before.tables,
            unread_records(before.tables, file, holds),
        ),
        counts.malformed == old_counts.malformed + unread_malformed(before.tables, file, holds),
        counts.failed == old_counts.failed,
{
    let us = transcript::usages(scan.records@);
    transcript::pass_of_file(
        scan,
        file,
        store::cursor_of(before.tables, file.path),
        None,
        holds,
    );
    let n = (counts.inserted - old_counts.inserted) as nat;
    let mid = choose|mid: store::Store| #[trigger]
        ledger::ingested(before, us, mid, n) && mid.solo == before.solo && cursor_tried(
            mid,
            file.path,
            scan.cursor,
            now,
            after,
            true,
        );
}

/// A file that was read to the end of its last complete line: its cursor stands
/// there.
pub open spec fn drained(t: store::Tables, file: transcript::File) -> bool {
    &&& store::cursor_of(t, file.path) matches Some(c)
    &&& c.file_id == file.file_id
    &&& c.byte_offset <= file.data.len()
    &&& transcript::frame(file.data, c.byte_offset as int, None).lines.len() == 0
}

/// Files on disk, each under its own path.
pub open spec fn on_disk(files: Seq<transcript::File>) -> bool {
    &&& forall|i: int| 0 <= i < files.len() ==> (#[trigger] files[i]).data.len() <= u64::MAX
    &&& forall|i: int, j: int|
        0 <= i < j < files.len() ==> (#[trigger] files[i]).path != (#[trigger] files[j]).path
}

proof fn backfilled_file_is_drained(
    t: store::Tables,
    file: transcript::File,
    holds: spec_fn(Seq<u8>) -> Option<RawLine>,
    now: int,
)
    requires
        file.data.len() <= u64::MAX,
    ensures
        drained(after_file(t, file, holds, now), file),
{
    let at = transcript::begin_of(file, store::cursor_of(t, file.path));
    transcript::law_pass_ends_on_a_line_boundary(file.data, at, None);
    transcript::law_an_unchanged_transcript_has_nothing_new(file.data, at);
}

proof fn other_cursors_stay(
    t: store::Tables,
    file: transcript::File,
    holds: spec_fn(Seq<u8>) -> Option<RawLine>,
    now: int,
    path: Seq<char>,
)
    requires
        path != file.path,
    ensures
        store::cursor_of(after_file(t, file, holds, now), path) == store::cursor_of(t, path),
{
    ledger::law_ingest_moves_no_cursor(t, unread_records(t, file, holds));
}

proof fn backfilled_files_are_drained(
    t: store::Tables,
    files: Seq<transcript::File>,
    holds: spec_fn(Seq<u8>) -> Option<RawLine>,
    now: int,
)
    requires
        on_disk(files),
    ensures
        forall|i: int|
            0 <= i < files.len() ==> drained(after_files(t, files, holds, now), #[trigger] files[i]),
    decreases files.len(),
{
    if files.len() > 0 {
        let init = files.drop_last();
        let last = files.last();
        let before = after_files(t, init, holds, now);
        backfilled_files_are_drained(t, init, holds, now);
        backfilled_file_is_drained(before, files[files.len() - 1], holds, now);
        assert forall|i: int| 0 <= i < files.len() implies drained(
            after_files(t, files, holds, now),
            #[trigger] files[i],
        ) by {
            if i < init.len() {
                assert(drained(before, init[i]));
                assert(files[i].path != files[files.len() - 1].path);
                other_cursors_stay(before, last, holds, now, files[i].path);
            }
        }
    }
}

/// The same rows, but for when a cursor was last written.
pub open spec fn same_but_for_the_time(a: store::Tables, b: store::Tables) -> bool {
    &&& a.made == b.made
    &&& a.requests == b.requests
    &&& a.sightings == b.sightings
    &&& a.sessions == b.sessions
    &&& forall|path: Seq<char>| #[trigger] store::cursor_of(b, path) == store::cursor_of(a, path)
}

proof fn drained_files_have_nothing(
    t: store::Tables,
    files: Seq<transcript::File>,
    holds: spec_fn(Seq<u8>) -> Option<RawLine>,
    now: int,
)
    requires
        on_disk(files),
        forall|i: int| 0 <= i < files.len() ==> drained(t, #[trigger] files[i]),
    ensures
        same_but_for_the_time(t, after_files(t, files, holds, now)),
        found_in_files(t, files, holds, now) == (0nat, 0nat),
    decreases files.len(),
{
    if files.len() > 0 {
        let init = files.drop_last();
        let last = files[files.len() - 1];
        assert forall|i: int| 0 <= i < init.len() implies drained(t, #[trigger] init[i]) by {
            assert(drained(t, files[i]));
        }
        drained_files_have_nothing(t, init, holds, now);
        let before = after_files(t, init, holds, now);
        assert(drained(t, last));
        assert(store::cursor_of(before, last.path) == store::cursor_of(t, last.path));
        let c = store::cursor_of(before, last.path)->0;
        assert(unread(before, last).lines.len() == 0);
        transcript::law_pass_ends_on_a_line_boundary(last.data, c.byte_offset as int, None);
        assert(unread(before, last).end == c.byte_offset);
        assert(unread_records(before, last, holds) =~= Seq::<transcript::Usage>::empty());
        let after = after_files(t, files, holds, now);
        assert forall|path: Seq<char>| #[trigger]
            store::cursor_of(after, path) == store::cursor_of(t, path) by {
            assert(store::cursor_of(before, path) == store::cursor_of(t, path));
        }
    }
}

/// A second backfill of transcripts that have not changed, into a ledger that has
/// not changed, adds no request, finds no malformed line, changes no row and
/// leaves every cursor where it is.
pub proof fn law_a_second_backfill_adds_nothing(
    t: store::Tables,
    files: Seq<transcript::File>,
    holds: spec_fn(Seq<u8>) -> Option<RawLine>,
    now: int,
    later: int,
)
    requires
        on_disk(files),
    ensures
        ({
            let once = after_files(t, files, holds, now);
            let twice = after_files(once, files, holds, later);
            &&& found_in_files(once, files, holds, later) == (0nat, 0nat)
            &&& same_but_for_the_time(once, twice)
        }),
{
    backfilled_files_are_drained(t, files, holds, now);
    drained_files_have_nothing(after_files(t, files, holds, now), files, holds, later);
}

/// A pass is written exactly if it found a request or moved: one that found none
/// and stands where it began leaves the ledger as it is.
#[verifier::rlimit(50)]
pub proof fn law_when_a_pass_is_written(
    ledger: &mut Ledger,
    scan: &Scan,
    cursor: Option<Cursor>,
    path: &str,
    now: i64,
    r: Result<usize, LedgerError>,
)
    requires
        call_ensures(commit_scan, (ledger, scan, cursor, path, now), r),
        old(ledger).store().alone(),
        old(ledger).store().tables.wf(),
    ensures
        scan.records@.len() == 0 && (cursor matches Some(c) && c.byte_offset
            == scan.cursor.byte_offset) ==> r == Ok::<usize, LedgerError>(0) && *final(ledger)
            == *old(ledger),
        scan.records@.len() > 0 || (cursor matches Some(c) ==> c.byte_offset
            != scan.cursor.byte_offset) ==> (r matches Ok(n) ==> {
            let before = old(ledger).store().tables;
            let after = final(ledger).store().tables;
            let us = transcript::usages(scan.records@);
            &&& after.requests == ledger::add_all(before, us).requests
            &&& after.sessions == ledger::add_all(before, us).sessions
            &&& after.sightings == ledger::add_all(before, us).sightings
            &&& after.requests.dom().len() == before.requests.dom().len() + n
            &&& after.cursors.contains_key(path@) && after.cursors[path@].cursor == scan.cursor
        }),
        r is Err ==> final(ledger).store().kept() == old(ledger).store().tables,
{
    ledger::law_ingest_counts_the_growth(
        old(ledger).store().tables,
        transcript::usages(scan.records@),
    );
}

/// What is known of a cursor is what the ledger answered, and nothing where it
/// answered with an error.
pub proof fn law_a_cursor_is_known_from_the_answer(
    answer: Result<Option<Cursor>, LedgerError>,
    r: Option<Cursor>,
)
    requires
        call_ensures(cursor_if_known, (answer,), r),
    ensures
        answer matches Ok(c) ==> r == c,
        answer is Err ==> r is None,
{
}

/// A cursor that is found is the one stored under its own path, and finding it
/// changes no row.
pub proof fn law_a_stored_cursor_is_of_its_path(
    ledger: &mut Ledger,
    path: &str,
    r: Option<Cursor>,
)
    requires
        call_ensures(stored_cursor, (ledger, path), r),
        old(ledger).store().alone(),
    ensures
        r matches Some(c) ==> old(ledger).store().tables.cursors.contains_key(path@)
            && old(ledger).store().tables.cursors[path@].cursor == c,
        final(ledger).store().tables == old(ledger).store().tables,
{
}

/// A transcript that could not be read counts as one failure, and as nothing else.
pub proof fn law_an_unreadable_transcript_is_one_failure(counts: &mut Backfill)
    requires
        old(counts).moderate(),
        call_ensures(Backfill::unreadable, (counts,), ()),
    ensures
        final(counts).failed == old(counts).failed + 1,
        final(counts).inserted == old(counts).inserted,
        final(counts).malformed == old(counts).malformed,
{
}

/// What a backfill begins with names the number of transcripts, which reads back,
/// and where they are.
pub proof fn law_what_a_backfill_begins_with(n: usize, root: &str, line: String)
    requires
        call_ensures(scanning_line, (n, root), line),
    ensures
        line@ == "Scanning "@ + text::dec(n as nat) + " transcripts under "@ + root@,
        text::read_dec(text::dec(n as nat)) == n,
{
    text::dec_reads_back(n as nat);
}

/// What a backfill ends with: first the requests that were added and how many
/// there are, then, only where there were any, the lines that were skipped and
/// the transcripts that failed, then a line for each session of several
/// transcripts, in order.
#[verifier::rlimit(50)]
pub proof fn law_what_a_backfill_ends_with(
    counts: &Backfill,
    total: i64,
    spread: &Vec<(String, i64)>,
    lines: Vec<String>,
    i: int,
)
    requires
        call_ensures(report, (counts, total, spread), lines),
    ensures
        ({
            let skipped: int = if counts.malformed > 0 {
                1
            } else {
                0
            };
            let failed: int = if counts.failed > 0 {
                1
            } else {
                0
            };
            &&& lines@.len() == 1 + skipped + failed + spread@.len()
            &&& lines@[0]@ == "Added "@ + text::dec(counts.inserted as nat) + " new requests ("@
                + text::dec_signed(total as int) + " total in ledger)."@
            &&& counts.malformed > 0 ==> lines@[1]@ == "Skipped "@ + text::dec(
                counts.malformed as nat,
            ) + " unparseable lines."@
            &&& counts.failed > 0 ==> lines@[1 + skipped]@ == text::dec(counts.failed as nat)
                + " transcripts could not be read."@
            &&& 0 <= i < spread@.len() ==> lines@[1 + skipped + failed + i]@ == "note: session "@
                + spread@[i].0@ + " appears in "@ + text::dec_signed(spread@[i].1 as int)
                + " transcripts"@
        }),
{
    let shown = text::texts(lines@);
    assert(shown.len() == lines@.len());
    let skipped: int = if counts.malformed > 0 {
        1
    } else {
        0
    };
    let failed: int = if counts.failed > 0 {
        1
    } else {
        0
    };
    assert(shown[0] == lines@[0]@);
    assert(skipped == 1 ==> shown[1] == lines@[1]@);
    assert(failed == 1 ==> shown[1 + skipped] == lines@[1 + skipped]@);
    if 0 <= i < spread@.len() {
        assert(shown[1 + skipped + failed + i] == lines@[1 + skipped + failed + i]@);
    }
}

/// A step of the status line writes what it reads of its own transcript under its
/// own path, from a batch of at most five hundred lines, and says whether the
/// transcript has been read to its end.
#[verifier::rlimit(50)]
pub proof fn law_what_a_step_writes<F: Fn(&[u8]) -> Option<RawLine>>(
    ledger: &mut Ledger,
    tail: &Tail,
    cursor: Option<Cursor>,
    now: i64,
    parse: F,
    done: bool,
)
    requires
        call_ensures(ingest_step::<F>, (ledger, tail, cursor, now, parse), Ok(done)),
        old(ledger).store().alone(),
    ensures
        exists|scan: Scan|
            #![trigger transcript::usages(scan.records@)]
            scanned(scan, *tail, cursor, Some(500usize), parse) && done == scan.exhausted && (
            worth_writing(scan, cursor) ==> final(ledger).store().tables == store::put_cursor(
                ledger::add_all(
                    old(ledger).store().tables,
                    transcript::usages(scan.records@),
                ),
                tail.path@,
                scan.cursor,
                now as int,
            )) && (!worth_writing(scan, cursor) ==> final(ledger).store().tables
                == old(ledger).store().tables),
{
    let before = old(ledger).store();
    let after = final(ledger).store();
    let r: Result<bool, LedgerError> = Ok(done);
    let scan = choose|scan: Scan|
        #![trigger worth_writing(scan, cursor)]
        scanned(scan, *tail, cursor, Some(BATCH_LINES), parse) && step_done(
            before,
            scan,
            cursor,
            tail.path@,
            now as int,
            after,
            r,
        );
    let us = transcript::usages(scan.records@);
    if worth_writing(scan, cursor) {
        assert(batch_written(before, scan, tail.path@, now as int, after));
    }
}

/// A backfill counts, of each transcript, the requests that were new, the lines
/// that are no record, and, where it failed, one failure and no requests.
#[verifier::rlimit(50)]
pub proof fn law_what_a_backfill_counts<F: Fn(&[u8]) -> Option<RawLine>>(
    ledger: &mut Ledger,
    tail: &Tail,
    cursor: Option<Cursor>,
    now: i64,
    parse: F,
    counts: &mut Backfill,
    r: Result<Result<(), LedgerError>, LedgerError>,
)
    requires
        old(counts).moderate(),
        call_ensures(backfill_one::<F>, (ledger, tail, cursor, now, parse, counts), r),
        old(ledger).store().alone(),
        old(ledger).store().tables.wf(),
    ensures
        exists|scan: Scan|
            #![trigger transcript::usages(scan.records@)]
            scanned(scan, *tail, cursor, None, parse) && final(counts).malformed == old(
                counts,
            ).malformed + scan.malformed && (r is Ok ==> {
                let t = old(ledger).store().tables;
                let added = ledger::add_all(t, transcript::usages(scan.records@));
                &&& final(counts).failed == old(counts).failed
                &&& final(counts).inserted - old(counts).inserted == added.requests.dom().len()
                    - t.requests.dom().len()
                &&& final(ledger).store().tables.requests == added.requests
                &&& final(ledger).store().tables.sessions == added.sessions
                &&& r->Ok_0 is Ok ==> final(ledger).store().tables.cursors[tail.path@].cursor
                    == scan.cursor
                &&& r->Ok_0 is Err ==> final(ledger).store().tables.cursors == t.cursors
            }) && (r is Err ==> final(counts).failed == old(counts).failed + 1
                && final(counts).inserted == old(counts).inserted
                && final(ledger).store().kept() == old(ledger).store().tables),
{
    let before = old(ledger).store();
    let after = final(ledger).store();
    let scan = choose|scan: Scan|
        #![trigger transcript::usages(scan.records@)]
        scanned(scan, *tail, cursor, None, parse) && backfilled(
            before,
            scan,
            tail.path@,
            now as int,
            after,
            *old(counts),
            *final(counts),
            r,
        );
    let us = transcript::usages(scan.records@);
    ledger::law_ingest_counts_the_growth(before.tables, us);
    ledger::law_ingest_moves_no_cursor(before.tables, us);
}

} // verus!
