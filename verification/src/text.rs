//! Strings as sequences of characters.
//!
//! Everything the ledger prints is assembled here from characters, so that the
//! contracts of the callers can speak of `Seq<char>` alone.

use vstd::prelude::*;
use vstd::string::*;

verus! {

/// `String::push`: the character is appended and nothing else changes.
pub assume_specification[ String::push ](s: &mut String, c: char)
    ensures
        final(s)@ == old(s)@.push(c),
;

/// The characters of `s`, in order.
pub fn chars_of(s: &str) -> (v: Vec<char>)
    ensures
        v@ == s@,
{
    let mut v: Vec<char> = Vec::new();
    for c in it: s.chars()
        invariant
            v@ == it.seq().take(it.index()),
            it.seq() == s@,
    {
        v.push(c);
        assert(v@ =~= it.seq().take(it.index() + 1));
    }
    assert(v@ =~= s@);
    v
}

/// The characters `from..to` of `v` as a string.
pub fn string_of(v: &Vec<char>, from: usize, to: usize) -> (s: String)
    requires
        from <= to <= v@.len(),
    ensures
        s@ == v@.subrange(from as int, to as int),
{
    let mut s = String::new();
    let mut i: usize = from;
    while i < to
        invariant
            from <= i <= to <= v@.len(),
            s@ == v@.subrange(from as int, i as int),
        decreases to - i,
    {
        s.push(v[i]);
        i += 1;
        assert(s@ =~= v@.subrange(from as int, i as int));
    }
    s
}

/// Whether two strings hold the same characters.
pub fn same_text(a: &str, b: &str) -> (r: bool)
    ensures
        r == (a@ == b@),
{
    let x = chars_of(a);
    let y = chars_of(b);
    if x.len() != y.len() {
        return false;
    }
    let mut i: usize = 0;
    while i < x.len()
        invariant
            i <= x@.len(),
            x@.len() == y@.len(),
            x@ == a@,
            y@ == b@,
            forall|j: int| 0 <= j < i ==> x@[j] == y@[j],
        decreases x@.len() - i,
    {
        if x[i] != y[i] {
            return false;
        }
        i += 1;
    }
    assert(x@ =~= y@);
    true
}

// ---------------------------------------------------------------------------
// Decimal numbers
// ---------------------------------------------------------------------------

/// The character of the decimal digit `d`.
pub open spec fn digit(d: nat) -> char {
    (48 + d) as char
}

/// `n` in decimal, without leading zeros.
pub open spec fn dec(n: nat) -> Seq<char>
    decreases n,
{
    if n < 10 {
        seq![digit(n)]
    } else {
        dec(n / 10).push(digit(n % 10))
    }
}

/// `n` in decimal, with a leading `-` below zero.
pub open spec fn dec_signed(n: int) -> Seq<char> {
    if n < 0 {
        seq!['-'] + dec((-n) as nat)
    } else {
        dec(n as nat)
    }
}

/// `n` in decimal, filled up with zeros on the left to `width` digits.
pub open spec fn dec_padded(n: nat, width: nat) -> Seq<char> {
    let d = dec(n);
    if d.len() >= width {
        d
    } else {
        Seq::new((width - d.len()) as nat, |i: int| '0') + d
    }
}

/// The number that a decimal digit stands for.
pub open spec fn digit_value(c: char) -> int {
    c as int - 48
}

/// The number that some decimal digits stand for.
pub open spec fn read_dec(s: Seq<char>) -> int
    decreases s.len(),
{
    if s.len() == 0 {
        0
    } else {
        10 * read_dec(s.drop_last()) + digit_value(s.last())
    }
}

/// A number in decimal reads back as that number.
pub proof fn dec_reads_back(n: nat)
    ensures
        read_dec(dec(n)) == n,
    decreases n,
{
    if n < 10 {
        assert(dec(n).drop_last() =~= Seq::<char>::empty());
        assert(read_dec(dec(n).drop_last()) == 0);
    } else {
        dec_reads_back(n / 10);
        assert(dec(n).drop_last() =~= dec(n / 10));
    }
}

/// Appends `n` in decimal.
pub fn push_dec(out: &mut String, n: u128)
    ensures
        final(out)@ == old(out)@ + dec(n as nat),
    decreases n,
{
    if n >= 10 {
        push_dec(out, n / 10);
    }
    let d: u8 = (n % 10) as u8;
    out.push((48u8 + d) as char);
    proof {
        assert(dec(n as nat) =~= (if n >= 10 {
            dec((n / 10) as nat)
        } else {
            Seq::<char>::empty()
        }).push(digit((n % 10) as nat)));
    }
    assert(out@ =~= old(out)@ + dec(n as nat));
}

/// `n` in decimal.
pub fn dec_string(n: u128) -> (s: String)
    ensures
        s@ == dec(n as nat),
{
    let mut s = String::new();
    push_dec(&mut s, n);
    assert(s@ =~= dec(n as nat));
    s
}

/// Appends `n` in decimal, with a sign below zero.
pub fn push_dec_signed(out: &mut String, n: i128)
    ensures
        final(out)@ == old(out)@ + dec_signed(n as int),
{
    if n < 0 {
        out.push('-');
        push_dec(out, (-(n + 1)) as u128 + 1);
        assert(out@ =~= old(out)@ + dec_signed(n as int));
    } else {
        push_dec(out, n as u128);
    }
}

/// Appends `n` in decimal, filled up with zeros to `width` digits.
pub fn push_dec_padded(out: &mut String, n: u128, width: usize)
    ensures
        final(out)@ == old(out)@ + dec_padded(n as nat, width as nat),
{
    let d = dec_string(n);
    let have = d.as_str().unicode_len();
    let mut i: usize = have;
    while i < width
        invariant
            have <= i,
            have < width ==> i <= width,
            have >= width ==> i == have,
            out@ =~= old(out)@ + Seq::new((i - have) as nat, |j: int| '0'),
        decreases width - i,
    {
        out.push('0');
        i += 1;
    }
    out.append(d.as_str());
    assert(out@ =~= old(out)@ + dec_padded(n as nat, width as nat));
}

/// A decimal representation has at least one digit.
pub proof fn dec_nonempty(n: nat)
    ensures
        dec(n).len() >= 1,
{
}

/// All characters of a decimal representation are digits.
pub proof fn dec_digits(n: nat)
    ensures
        forall|i: int| 0 <= i < dec(n).len() ==> '0' <= #[trigger] dec(n)[i] <= '9',
    decreases n,
{
    if n >= 10 {
        dec_digits(n / 10);
        assert forall|i: int| 0 <= i < dec(n).len() implies '0' <= #[trigger] dec(n)[i] <= '9' by {
            if i < dec(n / 10).len() {
                assert(dec(n)[i] == dec(n / 10)[i]);
            }
        }
    }
}

// ---------------------------------------------------------------------------
// Prefixes, white space, joining, splitting, padding
// ---------------------------------------------------------------------------

/// Whether `s` begins with `prefix`.
pub open spec fn begins_with(s: Seq<char>, prefix: Seq<char>) -> bool {
    prefix.len() <= s.len() && s.take(prefix.len() as int) == prefix
}

/// Whether `s` begins with `prefix`.
pub fn has_prefix(s: &Vec<char>, prefix: &Vec<char>) -> (r: bool)
    ensures
        r == begins_with(s@, prefix@),
{
    if prefix.len() > s.len() {
        return false;
    }
    let mut i: usize = 0;
    while i < prefix.len()
        invariant
            i <= prefix@.len() <= s@.len(),
            forall|j: int| 0 <= j < i ==> s@[j] == prefix@[j],
        decreases prefix@.len() - i,
    {
        if s[i] != prefix[i] {
            assert(s@.take(prefix@.len() as int)[i as int] != prefix@[i as int]);
            return false;
        }
        i += 1;
    }
    assert(s@.take(prefix@.len() as int) =~= prefix@);
    true
}

/// The Unicode `White_Space` property.
pub open spec fn is_space(c: char) -> bool {
    ||| '\u{9}' <= c <= '\u{d}'
    ||| c == ' '
    ||| c == '\u{85}'
    ||| c == '\u{a0}'
    ||| c == '\u{1680}'
    ||| '\u{2000}' <= c <= '\u{200a}'
    ||| c == '\u{2028}'
    ||| c == '\u{2029}'
    ||| c == '\u{202f}'
    ||| c == '\u{205f}'
    ||| c == '\u{3000}'
}

/// Whether `c` is white space.
pub fn space(c: char) -> (r: bool)
    ensures
        r == is_space(c),
{
    ('\u{9}' <= c && c <= '\u{d}') || c == ' ' || c == '\u{85}' || c == '\u{a0}' || c == '\u{1680}'
        || ('\u{2000}' <= c && c <= '\u{200a}') || c == '\u{2028}' || c == '\u{2029}' || c
        == '\u{202f}' || c == '\u{205f}' || c == '\u{3000}'
}

/// `s` without the white space it begins with.
pub open spec fn trim_front(s: Seq<char>) -> Seq<char>
    decreases s.len(),
{
    if s.len() > 0 && is_space(s[0]) {
        trim_front(s.drop_first())
    } else {
        s
    }
}

/// `s` without the white space it ends with.
pub open spec fn trim_back(s: Seq<char>) -> Seq<char>
    decreases s.len(),
{
    if s.len() > 0 && is_space(s.last()) {
        trim_back(s.drop_last())
    } else {
        s
    }
}

/// `s` without the white space around it.
pub open spec fn trimmed(s: Seq<char>) -> Seq<char> {
    trim_back(trim_front(s))
}

/// Nothing but white space.
pub open spec fn all_space(s: Seq<char>) -> bool {
    forall|i: int| 0 <= i < s.len() ==> is_space(#[trigger] s[i])
}

/// White space around a text that neither begins nor ends with it is what
/// trimming takes away.
pub proof fn trimmed_of_padded(before: Seq<char>, s: Seq<char>, after: Seq<char>)
    requires
        s.len() > 0,
        !is_space(s[0]),
        !is_space(s.last()),
        all_space(before),
        all_space(after),
    ensures
        trimmed(before + s + after) == s,
{
    trim_front_of_padded(before, s + after);
    assert(before + s + after =~= before + (s + after));
    trim_back_of_padded(s, after);
}

proof fn trim_front_of_padded(before: Seq<char>, s: Seq<char>)
    requires
        s.len() > 0,
        !is_space(s[0]),
        all_space(before),
    ensures
        trim_front(before + s) == s,
    decreases before.len(),
{
    if before.len() == 0 {
        assert(before + s =~= s);
    } else {
        assert(is_space(before[0]));
        assert((before + s).drop_first() =~= before.drop_first() + s);
        assert forall|i: int| 0 <= i < before.drop_first().len() implies is_space(
            #[trigger] before.drop_first()[i],
        ) by {
            assert(is_space(before[i + 1]));
        }
        trim_front_of_padded(before.drop_first(), s);
    }
}

proof fn trim_back_of_padded(s: Seq<char>, after: Seq<char>)
    requires
        s.len() > 0,
        !is_space(s.last()),
        all_space(after),
    ensures
        trim_back(s + after) == s,
    decreases after.len(),
{
    if after.len() == 0 {
        assert(s + after =~= s);
    } else {
        assert(is_space(after[after.len() - 1]));
        assert((s + after).drop_last() =~= s + after.drop_last());
        assert forall|i: int| 0 <= i < after.drop_last().len() implies is_space(
            #[trigger] after.drop_last()[i],
        ) by {
            assert(is_space(after[i]));
        }
        trim_back_of_padded(s, after.drop_last());
    }
}

/// The string without the white space around it.
pub fn trim(s: &str) -> (r: String)
    ensures
        r@ == trimmed(s@),
{
    let v = chars_of(s);
    let mut from: usize = 0;
    assert(v@.skip(0) =~= v@);
    while from < v.len() && space(v[from])
        invariant
            from <= v@.len(),
            trim_front(v@) == trim_front(v@.skip(from as int)),
        decreases v@.len() - from,
    {
        assert(v@.skip(from as int).drop_first() =~= v@.skip(from + 1));
        from += 1;
    }
    let ghost front = v@.skip(from as int);
    let mut to: usize = v.len();
    assert(v@.subrange(from as int, to as int) =~= front);
    while to > from && space(v[to - 1])
        invariant
            from <= to <= v@.len(),
            trim_back(front) == trim_back(v@.subrange(from as int, to as int)),
        decreases to,
    {
        assert(v@.subrange(from as int, to as int).drop_last() =~= v@.subrange(
            from as int,
            to - 1,
        ));
        to -= 1;
    }
    string_of(&v, from, to)
}

/// The parts with `sep` between each two neighbours.
pub open spec fn joined(parts: Seq<Seq<char>>, sep: Seq<char>) -> Seq<char>
    decreases parts.len(),
{
    if parts.len() == 0 {
        Seq::empty()
    } else if parts.len() == 1 {
        parts[0]
    } else {
        joined(parts.drop_last(), sep) + sep + parts.last()
    }
}

/// The characters of each string of a list.
pub open spec fn texts(v: Seq<String>) -> Seq<Seq<char>> {
    v.map_values(|s: String| s@)
}

/// One more line at the end of the list.
pub fn push_line(lines: &mut Vec<String>, line: String)
    ensures
        texts(final(lines)@) == texts(old(lines)@).push(line@),
{
    let ghost before = texts(lines@);
    let ghost added = line@;
    lines.push(line);
    assert(texts(lines@) =~= before.push(added));
}

/// The strings with `sep` between each two neighbours.
pub fn join_with(parts: &Vec<String>, sep: &str) -> (r: String)
    ensures
        r@ == joined(texts(parts@), sep@),
{
    let mut r = String::new();
    let mut i: usize = 0;
    assert(texts(parts@).take(0) =~= Seq::<Seq<char>>::empty());
    while i < parts.len()
        invariant
            i <= parts@.len(),
            r@ == joined(texts(parts@).take(i as int), sep@),
        decreases parts@.len() - i,
    {
        let ghost before = texts(parts@).take(i as int);
        let ghost after = texts(parts@).take(i + 1);
        assert(after.drop_last() =~= before);
        assert(after.last() == parts@[i as int]@);
        if i > 0 {
            r.append(sep);
        }
        r.append(parts[i].as_str());
        assert(r@ =~= joined(after, sep@));
        i += 1;
    }
    assert(texts(parts@).take(parts@.len() as int) =~= texts(parts@));
    r
}

/// The pieces of `s` between the occurrences of `sep`: one more than there are
/// occurrences.
pub open spec fn split_on(s: Seq<char>, sep: char) -> Seq<Seq<char>>
    decreases s.len(),
{
    if s.len() == 0 {
        seq![Seq::<char>::empty()]
    } else {
        let init = split_on(s.drop_last(), sep);
        if s.last() == sep {
            init.push(Seq::<char>::empty())
        } else {
            init.drop_last().push(init.last().push(s.last()))
        }
    }
}

/// There is always at least one piece.
pub proof fn split_nonempty(s: Seq<char>, sep: char)
    ensures
        split_on(s, sep).len() >= 1,
    decreases s.len(),
{
    if s.len() > 0 {
        split_nonempty(s.drop_last(), sep);
    }
}

/// No piece holds the separator.
pub proof fn split_without_sep(s: Seq<char>, sep: char)
    ensures
        forall|i: int, j: int|
            0 <= i < split_on(s, sep).len() && 0 <= j < split_on(s, sep)[i].len()
                ==> #[trigger] split_on(s, sep)[i][j] != sep,
    decreases s.len(),
{
    if s.len() > 0 {
        split_without_sep(s.drop_last(), sep);
        split_nonempty(s.drop_last(), sep);
    }
}

/// Joining the pieces with the separator gives the text back.
pub proof fn split_then_join(s: Seq<char>, sep: char)
    ensures
        joined(split_on(s, sep), seq![sep]) == s,
    decreases s.len(),
{
    if s.len() > 0 {
        let init = split_on(s.drop_last(), sep);
        split_then_join(s.drop_last(), sep);
        split_nonempty(s.drop_last(), sep);
        if s.last() == sep {
            assert(split_on(s, sep).drop_last() =~= init);
            assert(joined(split_on(s, sep), seq![sep]) =~= s);
        } else {
            assert(split_on(s, sep).drop_last() =~= init.drop_last());
            assert(joined(init, seq![sep]) == s.drop_last());
            assert(s =~= s.drop_last().push(s.last()));
            assert(joined(split_on(s, sep), seq![sep]) =~= joined(init, seq![sep]).push(s.last()));
        }
    } else {
        assert(joined(split_on(s, sep), seq![sep]) =~= s);
    }
}

/// A text without the separator behind a separator is one more piece.
proof fn split_behind_sep(a: Seq<char>, b: Seq<char>, sep: char)
    requires
        !b.contains(sep),
    ensures
        split_on(a + seq![sep] + b, sep) == split_on(a, sep).push(b),
    decreases b.len(),
{
    let whole = a + seq![sep] + b;
    if b.len() == 0 {
        assert(whole.drop_last() =~= a);
        assert(b =~= Seq::<char>::empty());
    } else {
        let init = b.drop_last();
        assert(!init.contains(sep)) by {
            if init.contains(sep) {
                let i = choose|i: int| 0 <= i < init.len() && init[i] == sep;
                assert(b[i] == sep);
            }
        }
        split_behind_sep(a, init, sep);
        assert(whole.drop_last() =~= a + seq![sep] + init);
        assert(b.contains(b[b.len() - 1]));
        assert(split_on(a, sep).push(init).drop_last() =~= split_on(a, sep));
        assert(init.push(b.last()) =~= b);
    }
}

/// A text without the separator is one piece.
proof fn split_one(b: Seq<char>, sep: char)
    requires
        !b.contains(sep),
    ensures
        split_on(b, sep) == seq![b],
    decreases b.len(),
{
    if b.len() == 0 {
        assert(b =~= Seq::<char>::empty());
    } else {
        let init = b.drop_last();
        assert(!init.contains(sep)) by {
            if init.contains(sep) {
                let i = choose|i: int| 0 <= i < init.len() && init[i] == sep;
                assert(b[i] == sep);
            }
        }
        split_one(init, sep);
        assert(b.contains(b[b.len() - 1]));
        assert(init.push(b.last()) =~= b);
        assert(split_on(b, sep) =~= seq![b]);
    }
}

/// Splitting what was joined gives the parts back, if none of them holds the
/// separator.
pub proof fn join_then_split(parts: Seq<Seq<char>>, sep: char)
    requires
        parts.len() > 0,
        forall|i: int| 0 <= i < parts.len() ==> !(#[trigger] parts[i]).contains(sep),
    ensures
        split_on(joined(parts, seq![sep]), sep) == parts,
    decreases parts.len(),
{
    if parts.len() == 1 {
        split_one(parts[0], sep);
        assert(parts =~= seq![parts[0]]);
    } else {
        let init = parts.drop_last();
        assert forall|i: int| 0 <= i < init.len() implies !(#[trigger] init[i]).contains(sep) by {
            assert(!parts[i].contains(sep));
        }
        join_then_split(init, sep);
        assert(!parts[parts.len() - 1].contains(sep));
        split_behind_sep(joined(init, seq![sep]), parts.last(), sep);
        assert(init.push(parts.last()) =~= parts);
    }
}

/// The pieces of `s` between the occurrences of `sep`.
pub fn split(s: &Vec<char>, sep: char) -> (r: Vec<Vec<char>>)
    ensures
        r@.map_values(|v: Vec<char>| v@) == split_on(s@, sep),
{
    let mut done: Vec<Vec<char>> = Vec::new();
    let mut piece: Vec<char> = Vec::new();
    let mut i: usize = 0;
    let ghost view = |v: Vec<char>| v@;
    assert(s@.take(0) =~= Seq::<char>::empty());
    assert(done@.map_values(view).push(piece@) =~= split_on(s@.take(0), sep));
    while i < s.len()
        invariant
            i <= s@.len(),
            view == (|v: Vec<char>| v@),
            done@.map_values(view).push(piece@) == split_on(s@.take(i as int), sep),
        decreases s@.len() - i,
    {
        let c = s[i];
        let ghost upto = s@.take(i + 1);
        assert(upto.drop_last() =~= s@.take(i as int));
        let ghost before = done@.map_values(view);
        let ghost old_piece = piece@;
        assert(before.push(old_piece).drop_last() =~= before);
        if c == sep {
            done.push(piece);
            piece = Vec::new();
            assert(done@.map_values(view) =~= before.push(old_piece));
            assert(piece@ =~= Seq::<char>::empty());
        } else {
            piece.push(c);
        }
        i += 1;
    }
    assert(s@.take(s@.len() as int) =~= s@);
    let ghost before = done@.map_values(view);
    let ghost last = piece@;
    done.push(piece);
    assert(done@.map_values(view) =~= before.push(last));
    done
}

/// `width - s.len()` spaces, if that is positive.
pub open spec fn filler(s: Seq<char>, width: nat) -> Seq<char> {
    if s.len() >= width {
        Seq::empty()
    } else {
        Seq::new((width - s.len()) as nat, |i: int| ' ')
    }
}

/// `s` filled up on the right with spaces to `width` characters.
pub open spec fn left_aligned(s: Seq<char>, width: nat) -> Seq<char> {
    s + filler(s, width)
}

/// `s` filled up on the left with spaces to `width` characters.
pub open spec fn right_aligned(s: Seq<char>, width: nat) -> Seq<char> {
    filler(s, width) + s
}

fn push_filler(out: &mut String, len: usize, width: usize)
    ensures
        final(out)@ == old(out)@ + (if len >= width {
            Seq::empty()
        } else {
            Seq::new((width - len) as nat, |i: int| ' ')
        }),
{
    let mut i: usize = len;
    while i < width
        invariant
            len <= i,
            len < width ==> i <= width,
            len >= width ==> i == len,
            out@ =~= old(out)@ + Seq::new((i - len) as nat, |j: int| ' '),
        decreases width - i,
    {
        out.push(' ');
        i += 1;
    }
    assert(out@ =~= old(out)@ + (if len >= width {
        Seq::empty()
    } else {
        Seq::new((width - len) as nat, |i: int| ' ')
    }));
}

/// Appends `s`, filled up on the right to `width` characters.
pub fn push_left_aligned(out: &mut String, s: &str, width: usize)
    ensures
        final(out)@ == old(out)@ + left_aligned(s@, width as nat),
{
    let len = s.unicode_len();
    out.append(s);
    push_filler(out, len, width);
    assert(out@ =~= old(out)@ + left_aligned(s@, width as nat));
}

/// Appends `s`, filled up on the left to `width` characters.
pub fn push_right_aligned(out: &mut String, s: &str, width: usize)
    ensures
        final(out)@ == old(out)@ + right_aligned(s@, width as nat),
{
    let len = s.unicode_len();
    push_filler(out, len, width);
    out.append(s);
    assert(out@ =~= old(out)@ + right_aligned(s@, width as nat));
}

/// The first `n` digits, with the separator before every digit that begins a
/// group of three, counted from the end, but not before the first.
pub open spec fn grouped_upto(digits: Seq<char>, sep: char, n: nat) -> Seq<char>
    decreases n,
{
    if n == 0 {
        Seq::empty()
    } else {
        let i = (n - 1) as nat;
        let before = grouped_upto(digits, sep, i);
        if i > 0 && (digits.len() - i) % 3 == 0 {
            before.push(sep).push(digits[i as int])
        } else {
            before.push(digits[i as int])
        }
    }
}

/// The digits in groups of three.
pub open spec fn grouped(digits: Seq<char>, sep: char) -> Seq<char> {
    grouped_upto(digits, sep, digits.len())
}

/// Appends the first `n` digits in groups of three.
pub fn push_groups(out: &mut String, digits: &Vec<char>, n: usize, sep: char)
    requires
        n <= digits@.len(),
    ensures
        final(out)@ == old(out)@ + grouped(digits@.take(n as int), sep),
{
    let ghost all = digits@.take(n as int);
    let mut i: usize = 0;
    while i < n
        invariant
            i <= n <= digits@.len(),
            all == digits@.take(n as int),
            out@ =~= old(out)@ + grouped_upto(all, sep, i as nat),
        decreases n - i,
    {
        if i > 0 && (n - i) % 3 == 0 {
            out.push(sep);
        }
        out.push(digits[i]);
        i += 1;
    }
}

/// Appends `n` in decimal, in groups of three digits.
pub fn push_grouped(out: &mut String, n: u128, sep: char)
    ensures
        final(out)@ == old(out)@ + grouped(dec(n as nat), sep),
{
    let digits = chars_of(dec_string(n).as_str());
    assert(digits@.take(digits@.len() as int) =~= dec(n as nat));
    push_groups(out, &digits, digits.len(), sep);
}

/// `s` without every `c`.
pub open spec fn without(s: Seq<char>, c: char) -> Seq<char>
    decreases s.len(),
{
    if s.len() == 0 {
        s
    } else if s.last() == c {
        without(s.drop_last(), c)
    } else {
        without(s.drop_last(), c).push(s.last())
    }
}

/// Grouping adds separators and nothing else.
pub proof fn grouping_only_separates(digits: Seq<char>, sep: char, n: nat)
    requires
        n <= digits.len(),
        !digits.contains(sep),
    ensures
        without(grouped_upto(digits, sep, n), sep) == digits.take(n as int),
    decreases n,
{
    if n > 0 {
        let i = (n - 1) as nat;
        grouping_only_separates(digits, sep, i);
        let before = grouped_upto(digits, sep, i);
        let d = digits[i as int];
        assert(digits.contains(d));
        assert(before.push(d).drop_last() =~= before);
        assert(before.push(sep).drop_last() =~= before);
        assert(before.push(sep).push(d).drop_last() =~= before.push(sep));
        assert(without(before.push(sep), sep) == without(before, sep));
        assert(without(before.push(d), sep) == without(before, sep).push(d));
        assert(without(before.push(sep).push(d), sep) == without(before, sep).push(d));
        assert(digits.take(n as int) =~= digits.take(i as int).push(d));
    } else {
        assert(digits.take(0) =~= Seq::<char>::empty());
    }
}

/// Whether `c` occurs in `s`.
pub fn contains_char(s: &Vec<char>, c: char) -> (r: bool)
    ensures
        r == s@.contains(c),
{
    let mut i: usize = 0;
    while i < s.len()
        invariant
            i <= s@.len(),
            forall|j: int| 0 <= j < i ==> s@[j] != c,
        decreases s@.len() - i,
    {
        if s[i] == c {
            assert(s@.contains(s@[i as int]));
            return true;
        }
        i += 1;
    }
    false
}

// ---------------------------------------------------------------------------
// Order
// ---------------------------------------------------------------------------

/// Lexicographic order by code point, which is also the order of the UTF-8
/// bytes.
pub open spec fn text_lt(a: Seq<char>, b: Seq<char>) -> bool
    decreases a.len(),
{
    if b.len() == 0 {
        false
    } else if a.len() == 0 {
        true
    } else if a[0] != b[0] {
        a[0] < b[0]
    } else {
        text_lt(a.drop_first(), b.drop_first())
    }
}

/// The order is irreflexive.
pub proof fn text_lt_irreflexive(a: Seq<char>)
    ensures
        !text_lt(a, a),
    decreases a.len(),
{
    if a.len() > 0 {
        text_lt_irreflexive(a.drop_first());
    }
}

/// The order is transitive.
pub proof fn text_lt_transitive(a: Seq<char>, b: Seq<char>, c: Seq<char>)
    requires
        text_lt(a, b),
        text_lt(b, c),
    ensures
        text_lt(a, c),
    decreases a.len(),
{
    if a.len() > 0 && a[0] == b[0] && b[0] == c[0] {
        text_lt_transitive(a.drop_first(), b.drop_first(), c.drop_first());
    }
}

/// Of two different texts one comes before the other.
pub proof fn text_lt_total(a: Seq<char>, b: Seq<char>)
    ensures
        text_lt(a, b) || text_lt(b, a) || a == b,
    decreases a.len(),
{
    if a.len() > 0 && b.len() > 0 && a[0] == b[0] {
        text_lt_total(a.drop_first(), b.drop_first());
        if a.drop_first() == b.drop_first() {
            assert(a =~= seq![a[0]] + a.drop_first());
            assert(b =~= seq![b[0]] + b.drop_first());
        }
    } else if a.len() == 0 && b.len() == 0 {
        assert(a =~= b);
    }
}

/// Behind beginnings of the same length, the order is that of the beginnings,
/// and then that of what follows.
pub proof fn text_lt_append(p: Seq<char>, q: Seq<char>, x: Seq<char>, y: Seq<char>)
    requires
        p.len() == q.len(),
    ensures
        text_lt(p + x, q + y) <==> text_lt(p, q) || (p == q && text_lt(x, y)),
    decreases p.len(),
{
    if p.len() == 0 {
        assert(p + x =~= x);
        assert(q + y =~= y);
        assert(p =~= q);
    } else {
        assert((p + x).drop_first() =~= p.drop_first() + x);
        assert((q + y).drop_first() =~= q.drop_first() + y);
        text_lt_append(p.drop_first(), q.drop_first(), x, y);
        if p[0] == q[0] && p.drop_first() == q.drop_first() {
            assert(p =~= seq![p[0]] + p.drop_first());
            assert(q =~= seq![q[0]] + q.drop_first());
        }
    }
}

/// A number that `width` digits are enough for.
pub open spec fn fits(n: nat, width: nat) -> bool
    decreases width,
{
    if width == 0 {
        n == 0
    } else {
        fits(n / 10, (width - 1) as nat)
    }
}

/// A number that fits fills the width, and its last digit stands behind the
/// others.
pub proof fn padded_steps(n: nat, width: nat)
    requires
        width > 0,
        fits(n, width),
    ensures
        dec(n).len() <= width,
        dec_padded(n, width).len() == width,
        width > 1 ==> dec_padded(n, width) == dec_padded(n / 10, (width - 1) as nat).push(
            digit(n % 10),
        ),
        width == 1 ==> dec_padded(n, width) == seq![digit(n % 10)],
    decreases width,
{
    reveal_with_fuel(fits, 2);
    if width == 1 {
        assert(n / 10 == 0);
        assert(dec_padded(n, width) =~= seq![digit(n % 10)]);
    } else {
        padded_steps(n / 10, (width - 1) as nat);
        if n < 10 {
            assert(n / 10 == 0);
            assert(dec(0) =~= seq!['0']);
            assert(dec_padded(n, width) =~= dec_padded(0, (width - 1) as nat).push(digit(n)));
        } else {
            assert(dec_padded(n, width) =~= dec_padded(n / 10, (width - 1) as nat).push(
                digit(n % 10),
            ));
        }
    }
}

/// Numbers written with the same width sort as numbers.
pub proof fn padded_order(a: nat, b: nat, width: nat)
    requires
        width > 0,
        fits(a, width),
        fits(b, width),
    ensures
        text_lt(dec_padded(a, width), dec_padded(b, width)) <==> a < b,
        dec_padded(a, width) == dec_padded(b, width) <==> a == b,
    decreases width,
{
    reveal_with_fuel(fits, 2);
    padded_steps(a, width);
    padded_steps(b, width);
    let x = seq![digit(a % 10)];
    let y = seq![digit(b % 10)];
    assert(x[0] == y[0] <==> a % 10 == b % 10);
    assert(text_lt(x, y) <==> a % 10 < b % 10) by {
        assert(!text_lt(x.drop_first(), y.drop_first()));
    }
    if width == 1 {
        assert(a / 10 == 0 && b / 10 == 0);
    } else {
        let w = (width - 1) as nat;
        padded_order(a / 10, b / 10, w);
        padded_steps(a / 10, w);
        padded_steps(b / 10, w);
        let p = dec_padded(a / 10, w);
        let q = dec_padded(b / 10, w);
        assert(dec_padded(a, width) =~= p + x);
        assert(dec_padded(b, width) =~= q + y);
        text_lt_append(p, q, x, y);
        if dec_padded(a, width) == dec_padded(b, width) {
            assert((p + x).drop_last() =~= p);
            assert((q + y).drop_last() =~= q);
            assert((p + x).last() == x[0]);
            assert((q + y).last() == y[0]);
        }
    }
}

/// Whether `a` comes before `b`.
pub fn comes_before(a: &str, b: &str) -> (r: bool)
    ensures
        r == text_lt(a@, b@),
{
    let x = chars_of(a);
    let y = chars_of(b);
    let mut i: usize = 0;
    assert(x@.skip(0) =~= x@);
    assert(y@.skip(0) =~= y@);
    while i < x.len() && i < y.len()
        invariant
            i <= x@.len(),
            i <= y@.len(),
            text_lt(x@, y@) == text_lt(x@.skip(i as int), y@.skip(i as int)),
            x@ == a@,
            y@ == b@,
        decreases x@.len() - i,
    {
        if x[i] != y[i] {
            return x[i] < y[i];
        }
        assert(x@.skip(i as int).drop_first() =~= x@.skip(i + 1));
        assert(y@.skip(i as int).drop_first() =~= y@.skip(i + 1));
        i += 1;
    }
    i < y.len()
}

// ---------------------------------------------------------------------------
// Laws
// ---------------------------------------------------------------------------

/// What does not hold a character loses nothing when it is left out.
pub proof fn nothing_to_leave_out(s: Seq<char>, c: char)
    requires
        !s.contains(c),
    ensures
        without(s, c) == s,
    decreases s.len(),
{
    if s.len() > 0 {
        assert(s.contains(s.last()));
        assert forall|i: int| 0 <= i < s.drop_last().len() implies s.drop_last()[i] != c by {
            assert(s.contains(s[i]));
        }
        nothing_to_leave_out(s.drop_last(), c);
        assert(s.drop_last().push(s.last()) =~= s);
    }
}

/// Leaving a character out of two texts and of both together comes to the same.
pub proof fn leaving_out_distributes(a: Seq<char>, b: Seq<char>, c: char)
    ensures
        without(a + b, c) == without(a, c) + without(b, c),
    decreases b.len(),
{
    if b.len() == 0 {
        assert(a + b =~= a);
        assert(without(a, c) + without(b, c) =~= without(a, c));
    } else {
        leaving_out_distributes(a, b.drop_last(), c);
        assert((a + b).drop_last() =~= a + b.drop_last());
        assert((a + b).last() == b.last());
        assert(without(a, c) + without(b.drop_last(), c).push(b.last()) =~= (without(a, c)
            + without(b.drop_last(), c)).push(b.last()));
    }
}

/// Zeros before a number do not change it.
pub proof fn zeros_read_as_nothing(k: nat, d: Seq<char>)
    ensures
        read_dec(Seq::new(k, |i: int| '0') + d) == read_dec(d),
    decreases k + d.len(),
{
    let zeros = Seq::new(k, |i: int| '0');
    if d.len() > 0 {
        zeros_read_as_nothing(k, d.drop_last());
        assert((zeros + d).drop_last() =~= zeros + d.drop_last());
        assert((zeros + d).last() == d.last());
    } else {
        assert(zeros + d =~= zeros);
        if k > 0 {
            zeros_read_as_nothing((k - 1) as nat, d);
            assert(zeros.drop_last() =~= Seq::new((k - 1) as nat, |i: int| '0') + d);
            assert(read_dec(d) == 0);
        }
    }
}

/// A padded number reads back as that number, is as long as the width or as the
/// number needs, and holds digits only.
pub proof fn law_a_padded_number_reads_back(n: nat, width: nat)
    ensures
        read_dec(dec_padded(n, width)) == n,
        dec_padded(n, width).len() == (if dec(n).len() < width {
            width
        } else {
            dec(n).len()
        }),
        forall|i: int|
            0 <= i < dec_padded(n, width).len() ==> '0' <= #[trigger] dec_padded(n, width)[i]
                <= '9',
{
    let d = dec(n);
    dec_reads_back(n);
    dec_digits(n);
    if d.len() < width {
        let k = (width - d.len()) as nat;
        zeros_read_as_nothing(k, d);
        assert forall|i: int| 0 <= i < dec_padded(n, width).len() implies '0'
            <= #[trigger] dec_padded(n, width)[i] <= '9' by {
            if i >= k {
                assert(dec_padded(n, width)[i] == d[i - k]);
            }
        }
    }
}

/// No number but zero begins with a zero.
pub proof fn law_no_leading_zero(n: nat)
    requires
        n > 0,
    ensures
        '1' <= dec(n)[0] <= '9',
    decreases n,
{
    if n >= 10 {
        law_no_leading_zero(n / 10);
        dec_nonempty(n / 10);
    }
}

/// A number with a sign reads back: it has a minus exactly below zero, and its
/// digits are those of its size.
pub proof fn law_a_signed_number_reads_back(n: int)
    ensures
        n >= 0 ==> read_dec(dec_signed(n)) == n && '0' <= dec_signed(n)[0] <= '9',
        n < 0 ==> dec_signed(n)[0] == '-' && read_dec(dec_signed(n).skip(1)) == -n,
{
    if n < 0 {
        dec_reads_back((-n) as nat);
        assert(dec_signed(n).skip(1) =~= dec((-n) as nat));
    } else {
        dec_reads_back(n as nat);
        dec_digits(n as nat);
        dec_nonempty(n as nat);
    }
}

/// Aligned to the left, a text stands first and spaces fill the width; aligned to
/// the right, it stands last. What is wider than the width is left as it is.
pub proof fn law_how_texts_are_aligned(s: Seq<char>, width: nat)
    ensures
        left_aligned(s, width).len() == (if s.len() < width {
            width
        } else {
            s.len()
        }),
        right_aligned(s, width).len() == left_aligned(s, width).len(),
        left_aligned(s, width).take(s.len() as int) == s,
        right_aligned(s, width).skip(right_aligned(s, width).len() - s.len()) == s,
        forall|i: int|
            s.len() <= i < left_aligned(s, width).len() ==> #[trigger] left_aligned(s, width)[i]
                == ' ',
        forall|i: int|
            0 <= i < right_aligned(s, width).len() - s.len() ==> #[trigger] right_aligned(
                s,
                width,
            )[i] == ' ',
{
    assert(left_aligned(s, width).take(s.len() as int) =~= s);
    assert(right_aligned(s, width).skip(right_aligned(s, width).len() - s.len()) =~= s);
}

/// How many separators stand before digit `i` of `l`.
spec fn separators_before(l: nat, i: int) -> int {
    (l - 1) / 3 - (l - 1 - i) / 3
}

#[verifier::rlimit(50)]
proof fn where_groups_stand(digits: Seq<char>, sep: char, n: nat)
    requires
        n <= digits.len(),
    ensures
        n > 0 ==> grouped_upto(digits, sep, n).len() == n + separators_before(
            digits.len(),
            n - 1,
        ),
        n == 0 ==> grouped_upto(digits, sep, n).len() == 0,
        forall|i: int|
            #![trigger digits[i]]
            0 <= i < n ==> grouped_upto(digits, sep, n)[i + separators_before(digits.len(), i)]
                == digits[i] && (i > 0 && (digits.len() - i) % 3 == 0 ==> grouped_upto(
                digits,
                sep,
                n,
            )[i + separators_before(digits.len(), i) - 1] == sep),
    decreases n,
{
    if n > 0 {
        let k = (n - 1) as nat;
        where_groups_stand(digits, sep, k);
        let l = digits.len();
        let before = grouped_upto(digits, sep, k);
        let now = grouped_upto(digits, sep, n);
        if k > 0 {
            assert((l - k) % 3 == 0 ==> separators_before(l, k as int) == separators_before(
                l,
                k - 1,
            ) + 1);
            assert((l - k) % 3 != 0 ==> separators_before(l, k as int) == separators_before(
                l,
                k - 1,
            ));
        }
        assert forall|i: int|
            #![trigger digits[i]]
            0 <= i < n implies now[i + separators_before(l, i)] == digits[i] && (i > 0 && (l - i)
            % 3 == 0 ==> now[i + separators_before(l, i) - 1] == sep) by {
            let at = i + separators_before(l, i);
            if i < k {
                assert(before[at] == digits[i]);
                assert(at <= k - 1 + separators_before(l, k - 1));
                assert(at < before.len());
                assert(now[at] == before[at]);
                if i > 0 && (l - i) % 3 == 0 {
                    assert(before[at - 1] == sep);
                    assert(separators_before(l, i) >= 1);
                    assert(now[at - 1] == before[at - 1]);
                }
            } else {
                assert(i == k);
                assert(at == now.len() - 1);
            }
        }
    }
}

/// Counted from the end, every fourth character of a grouped number is the
/// separator, there is no other, and none stands first.
#[verifier::rlimit(50)]
pub proof fn law_where_separators_stand(digits: Seq<char>, sep: char)
    requires
        digits.len() > 0,
        !digits.contains(sep),
    ensures
        grouped(digits, sep).len() == digits.len() + (digits.len() - 1) / 3,
        forall|k: int|
            0 <= k < grouped(digits, sep).len() ==> (#[trigger] grouped(
                digits,
                sep,
            )[grouped(digits, sep).len() - 1 - k] == sep <==> k % 4 == 3),
        without(grouped(digits, sep), sep) == digits,
{
    let l = digits.len();
    let t = grouped(digits, sep);
    where_groups_stand(digits, sep, l);
    grouping_only_separates(digits, sep, l);
    assert(digits.take(l as int) =~= digits);
    assert forall|k: int| 0 <= k < t.len() implies (#[trigger] t[t.len() - 1 - k] == sep <==> k % 4
        == 3) by {
        let m = k - k / 4;
        if k % 4 == 3 {
            let i = l - m;
            assert(m == 3 * (k / 4) + 3);
            assert(0 < i < l);
            assert((l - i) % 3 == 0);
            let d = digits[i];
            assert((l - 1 - i) / 3 == k / 4);
            assert(i + separators_before(l, i) - 1 == t.len() - 1 - k);
            assert(t[i + separators_before(l, i) - 1] == sep);
        } else {
            let i = l - 1 - m;
            assert(0 <= i < l);
            let d = digits[i];
            assert(digits.contains(d));
            assert(m / 3 == k / 4);
            assert(i + separators_before(l, i) == t.len() - 1 - k);
            assert(t[i + separators_before(l, i)] == d);
        }
    }
}

/// White space is these code points and no others.
pub proof fn law_what_white_space_is(c: char)
    ensures
        is_space(c) <==> set![
            9int,
            10,
            11,
            12,
            13,
            32,
            0x85,
            0xa0,
            0x1680,
            0x2000,
            0x2001,
            0x2002,
            0x2003,
            0x2004,
            0x2005,
            0x2006,
            0x2007,
            0x2008,
            0x2009,
            0x200a,
            0x2028,
            0x2029,
            0x202f,
            0x205f,
            0x3000,
        ].contains(c as int),
{
}

/// Trimming takes white space off both ends and nothing else: what is left neither
/// begins nor ends with it, and nothing is left of white space alone.
#[verifier::rlimit(50)]
pub proof fn law_what_trimming_leaves(s: Seq<char>)
    ensures
        trimmed(s).len() == 0 <==> all_space(s),
        trimmed(s).len() > 0 ==> !is_space(trimmed(s)[0]) && !is_space(trimmed(s).last()),
        exists|before: Seq<char>, after: Seq<char>|
            all_space(before) && all_space(after) && s == #[trigger] (before + trimmed(s) + after),
{
    let f = trim_front(s);
    let before = front_of(s);
    let after = back_of(f);
    assert(before + trimmed(s) + after =~= s);
    if trimmed(s).len() == 0 {
        assert forall|i: int| 0 <= i < s.len() implies is_space(#[trigger] s[i]) by {
            if i < before.len() {
                assert(s[i] == before[i]);
            } else {
                assert(s[i] == after[i - before.len()]);
            }
        }
    } else {
        let t = trimmed(s);
        assert(t[0] == f[0]);
        assert(s[before.len() as int] == t[0]);
    }
}

proof fn front_of(s: Seq<char>) -> (before: Seq<char>)
    ensures
        all_space(before),
        s == before + trim_front(s),
        trim_front(s).len() > 0 ==> !is_space(trim_front(s)[0]),
    decreases s.len(),
{
    if s.len() > 0 && is_space(s[0]) {
        let b = front_of(s.drop_first());
        let before = seq![s[0]] + b;
        assert(s =~= seq![s[0]] + s.drop_first());
        assert(before + trim_front(s) =~= seq![s[0]] + (b + trim_front(s.drop_first())));
        assert forall|i: int| 0 <= i < before.len() implies is_space(#[trigger] before[i]) by {
            if i > 0 {
                assert(before[i] == b[i - 1]);
            }
        }
        before
    } else {
        assert(s =~= Seq::<char>::empty() + trim_front(s));
        Seq::empty()
    }
}

proof fn back_of(s: Seq<char>) -> (after: Seq<char>)
    ensures
        all_space(after),
        s == trim_back(s) + after,
        trim_back(s).len() > 0 ==> !is_space(trim_back(s).last()),
    decreases s.len(),
{
    if s.len() > 0 && is_space(s.last()) {
        let a = back_of(s.drop_last());
        let after = a.push(s.last());
        assert(s =~= s.drop_last().push(s.last()));
        assert(trim_back(s) + after =~= (trim_back(s.drop_last()) + a).push(s.last()));
        after
    } else {
        assert(s =~= trim_back(s) + Seq::<char>::empty());
        Seq::empty()
    }
}

/// Joining puts the separator between each two neighbours and nowhere else.
pub proof fn law_how_parts_are_joined(parts: Seq<Seq<char>>, last: Seq<char>, sep: Seq<char>)
    ensures
        joined(Seq::<Seq<char>>::empty(), sep).len() == 0,
        joined(seq![last], sep) == last,
        parts.len() > 0 ==> joined(parts.push(last), sep) == joined(parts, sep) + sep + last,
{
    assert(parts.push(last).drop_last() =~= parts);
}

/// A text begins with a prefix exactly if it is the prefix and something more.
pub proof fn law_what_a_prefix_is(s: Seq<char>, prefix: Seq<char>)
    ensures
        begins_with(prefix + s, prefix),
        begins_with(s, prefix) ==> prefix + s.skip(prefix.len() as int) == s,
{
    assert((prefix + s).take(prefix.len() as int) =~= prefix);
    if begins_with(s, prefix) {
        assert(prefix + s.skip(prefix.len() as int) =~= s);
    }
}

/// Texts sort by the first character in which they differ, and a text sorts before
/// every longer one that begins with it.
pub proof fn law_texts_sort_by_the_first_difference(
    p: Seq<char>,
    a: char,
    b: char,
    x: Seq<char>,
    y: Seq<char>,
)
    ensures
        a < b ==> text_lt(p + seq![a] + x, p + seq![b] + y),
        text_lt(p, p + seq![a] + x),
    decreases p.len(),
{
    let s = p + seq![a] + x;
    let t = p + seq![b] + y;
    if p.len() > 0 {
        law_texts_sort_by_the_first_difference(p.drop_first(), a, b, x, y);
        assert(s.drop_first() =~= p.drop_first() + seq![a] + x);
        assert(t.drop_first() =~= p.drop_first() + seq![b] + y);
        assert(s[0] == p[0] && t[0] == p[0]);
    } else {
        assert(s[0] == a && t[0] == b);
    }
}

/// What is appended reads back: a number in decimal, with a sign, padded, or in
/// groups.
#[verifier::rlimit(50)]
pub proof fn law_what_is_appended_reads_back(
    a: &mut String,
    b: &mut String,
    c: &mut String,
    d: &mut String,
    n: u128,
    m: i128,
    width: usize,
    sep: char,
)
    requires
        call_ensures(push_dec, (a, n), ()),
        call_ensures(push_dec_signed, (b, m), ()),
        call_ensures(push_dec_padded, (c, n, width), ()),
        call_ensures(push_grouped, (d, n, sep), ()),
        sep < '0' || sep > '9',
    ensures
        old(a)@.is_prefix_of(final(a)@) && read_dec(final(a)@.skip(old(a)@.len() as int)) == n,
        old(b)@.is_prefix_of(final(b)@),
        m >= 0 ==> read_dec(final(b)@.skip(old(b)@.len() as int)) == m,
        m < 0 ==> final(b)@[old(b)@.len() as int] == '-' && read_dec(
            final(b)@.skip(old(b)@.len() as int + 1),
        ) == -(m as int),
        old(c)@.is_prefix_of(final(c)@) && read_dec(final(c)@.skip(old(c)@.len() as int)) == n,
        final(c)@.len() >= old(c)@.len() + width,
        old(d)@.is_prefix_of(final(d)@) && read_dec(
            without(final(d)@.skip(old(d)@.len() as int), sep),
        ) == n,
{
    dec_reads_back(n as nat);
    dec_digits(n as nat);
    dec_nonempty(n as nat);
    law_a_signed_number_reads_back(m as int);
    law_a_padded_number_reads_back(n as nat, width as nat);
    let digits = dec(n as nat);
    assert(!digits.contains(sep));
    law_where_separators_stand(digits, sep);
    assert(final(a)@.skip(old(a)@.len() as int) =~= digits);
    let signed = dec_signed(m as int);
    assert(final(b)@.skip(old(b)@.len() as int) =~= signed);
    assert(m < 0 ==> final(b)@.skip(old(b)@.len() as int + 1) =~= signed.skip(1));
    assert(final(c)@.skip(old(c)@.len() as int) =~= dec_padded(n as nat, width as nat));
    assert(final(d)@.skip(old(d)@.len() as int) =~= grouped(digits, sep));
    assert(old(a)@ =~= final(a)@.subrange(0, old(a)@.len() as int));
    assert(old(b)@ =~= final(b)@.subrange(0, old(b)@.len() as int));
    assert(old(c)@ =~= final(c)@.subrange(0, old(c)@.len() as int));
    assert(old(d)@ =~= final(d)@.subrange(0, old(d)@.len() as int));
}

/// What is asked of texts is answered of their characters.
pub proof fn law_what_is_asked_of_texts(
    a: &str,
    b: &str,
    same: bool,
    before: bool,
    trimmed_text: String,
    c: char,
    white: bool,
)
    requires
        call_ensures(same_text, (a, b), same),
        call_ensures(comes_before, (a, b), before),
        call_ensures(trim, (a,), trimmed_text),
        call_ensures(space, (c,), white),
    ensures
        same <==> a@ == b@,
        before ==> !same && !text_lt(b@, a@),
        !before && !same ==> text_lt(b@, a@),
        trimmed_text@ == trimmed(a@),
        white <==> is_space(c),
{
    text_lt_irreflexive(a@);
    text_lt_total(a@, b@);
    if text_lt(a@, b@) && text_lt(b@, a@) {
        text_lt_transitive(a@, b@, a@);
    }
}

} // verus!
