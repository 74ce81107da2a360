//! Reports over the rows of the ledger.
//!
//! Each report is a list of lines. Tokens are the unit; every row is counted in
//! exactly one group of a report, so the groups add up to the total.

use vstd::prelude::*;
use vstd::string::*;

use crate::bucket;
use crate::bucket::{day_label, month_label, parse_date, timestamp_text, week_label, Zone};
use crate::ledger::{Row, SessionRow};
use crate::render;
use crate::render::tilde;
use crate::text;
use crate::text::{
    chars_of, comes_before, contains_char, push_dec, push_dec_signed, push_grouped,
    push_left_aligned, push_line, push_right_aligned, same_text,
};

verus! {

// ---------------------------------------------------------------------------
// Totals
// ---------------------------------------------------------------------------

/// More rows than a list of them can hold.
pub const MANY: u64 = 0x1000_0000_0000_0000;

/// Sums over some rows.
#[derive(Debug, Clone, Copy, PartialEq, Eq, Structural)]
pub struct Totals {
    pub requests: i128,
    pub input: i128,
    pub output: i128,
    pub cache_create: i128,
    pub cache_read: i128,
}

/// Sums over some rows.
pub ghost struct Tally {
    pub requests: int,
    pub input: int,
    pub output: int,
    pub cache_create: int,
    pub cache_read: int,
}

impl Tally {
    /// No rows.
    pub open spec fn zero() -> Tally {
        Tally { requests: 0, input: 0, output: 0, cache_create: 0, cache_read: 0 }
    }

    /// One row more.
    pub open spec fn plus(self, row: Row) -> Tally {
        Tally {
            requests: self.requests + 1,
            input: self.input + row.input,
            output: self.output + row.output,
            cache_create: self.cache_create + row.cache_create,
            cache_read: self.cache_read + row.cache_read,
        }
    }

    /// Both together.
    pub open spec fn and(self, other: Tally) -> Tally {
        Tally {
            requests: self.requests + other.requests,
            input: self.input + other.input,
            output: self.output + other.output,
            cache_create: self.cache_create + other.cache_create,
            cache_read: self.cache_read + other.cache_read,
        }
    }

    /// All tokens.
    pub open spec fn tokens(self) -> int {
        self.input + self.output + self.cache_create + self.cache_read
    }

    /// No larger than what `n` rows can come to.
    pub open spec fn of_at_most(self, n: int) -> bool {
        &&& 0 <= self.requests <= n
        &&& -n * 0x8000_0000_0000_0000 <= self.input <= n * 0x8000_0000_0000_0000
        &&& -n * 0x8000_0000_0000_0000 <= self.output <= n * 0x8000_0000_0000_0000
        &&& -n * 0x8000_0000_0000_0000 <= self.cache_create <= n * 0x8000_0000_0000_0000
        &&& -n * 0x8000_0000_0000_0000 <= self.cache_read <= n * 0x8000_0000_0000_0000
    }
}

impl View for Totals {
    type V = Tally;

    open spec fn view(&self) -> Tally {
        Tally {
            requests: self.requests as int,
            input: self.input as int,
            output: self.output as int,
            cache_create: self.cache_create as int,
            cache_read: self.cache_read as int,
        }
    }
}

impl Default for Totals {
    fn default() -> (r: Self)
        ensures
            r@ == Tally::zero(),
    {
        Totals { requests: 0, input: 0, output: 0, cache_create: 0, cache_read: 0 }
    }
}

impl Totals {
    /// Adds a row.
    pub fn add(&mut self, row: &Row)
        requires
            old(self)@.of_at_most(MANY as int),
        ensures
            final(self)@ == old(self)@.plus(*row),
    {
        self.requests = self.requests + 1;
        self.input = self.input + row.input as i128;
        self.output = self.output + row.output as i128;
        self.cache_create = self.cache_create + row.cache_create as i128;
        self.cache_read = self.cache_read + row.cache_read as i128;
    }

    /// Adds other sums.
    pub fn join(&mut self, other: &Totals)
        requires
            old(self)@.of_at_most(MANY as int),
            other@.of_at_most(MANY as int),
        ensures
            final(self)@ == old(self)@.and(other@),
    {
        self.requests = self.requests + other.requests;
        self.input = self.input + other.input;
        self.output = self.output + other.output;
        self.cache_create = self.cache_create + other.cache_create;
        self.cache_read = self.cache_read + other.cache_read;
    }

    /// All tokens.
    pub fn total(&self) -> (r: i128)
        requires
            self@.of_at_most(MANY as int),
        ensures
            r == self@.tokens(),
    {
        self.input + self.output + self.cache_create + self.cache_read
    }
}

/// The sums over the first `n` rows.
pub open spec fn tally_all(rows: Seq<Row>, n: nat) -> Tally
    decreases n,
{
    if n == 0 {
        Tally::zero()
    } else {
        tally_all(rows, (n - 1) as nat).plus(rows[n - 1])
    }
}

proof fn tally_all_bound(rows: Seq<Row>, n: nat)
    ensures
        tally_all(rows, n).of_at_most(n as int),
    decreases n,
{
    if n > 0 {
        tally_all_bound(rows, (n - 1) as nat);
    }
}

// ---------------------------------------------------------------------------
// Groups
// ---------------------------------------------------------------------------

/// The sums over the rows of one label and one name.
#[derive(Debug, Clone)]
pub struct Group {
    pub label: String,
    pub name: String,
    pub totals: Totals,
}

/// What the rows are grouped by: a label and a name for each.
pub ghost struct Keys {
    pub labels: Seq<Seq<char>>,
    pub names: Seq<Seq<char>>,
}

impl Keys {
    /// Whether row `i` has this label and this name.
    pub open spec fn at(self, i: int, label: Seq<char>, name: Seq<char>) -> bool {
        self.labels[i] == label && self.names[i] == name
    }
}

/// The sums over those of the first `n` rows with this label and this name.
pub open spec fn tally_of(
    rows: Seq<Row>,
    keys: Keys,
    label: Seq<char>,
    name: Seq<char>,
    n: nat,
) -> Tally
    decreases n,
{
    if n == 0 {
        Tally::zero()
    } else {
        let before = tally_of(rows, keys, label, name, (n - 1) as nat);
        if keys.at(n - 1, label, name) {
            before.plus(rows[n - 1])
        } else {
            before
        }
    }
}

proof fn tally_of_bound(rows: Seq<Row>, keys: Keys, label: Seq<char>, name: Seq<char>, n: nat)
    ensures
        tally_of(rows, keys, label, name, n).of_at_most(n as int),
    decreases n,
{
    if n > 0 {
        tally_of_bound(rows, keys, label, name, (n - 1) as nat);
    }
}

/// Rows that do not occur come to nothing.
proof fn tally_of_none(rows: Seq<Row>, keys: Keys, label: Seq<char>, name: Seq<char>, n: nat)
    requires
        forall|i: int| 0 <= i < n ==> !#[trigger] keys.at(i, label, name),
    ensures
        tally_of(rows, keys, label, name, n) == Tally::zero(),
    decreases n,
{
    if n > 0 {
        tally_of_none(rows, keys, label, name, (n - 1) as nat);
        assert(!keys.at(n - 1, label, name));
    }
}

/// By label, and within a label by name.
pub open spec fn key_lt(
    label: Seq<char>,
    name: Seq<char>,
    label2: Seq<char>,
    name2: Seq<char>,
) -> bool {
    text::text_lt(label, label2) || (label == label2 && text::text_lt(name, name2))
}

proof fn key_lt_transitive(
    la: Seq<char>,
    na: Seq<char>,
    lb: Seq<char>,
    nb: Seq<char>,
    lc: Seq<char>,
    nc: Seq<char>,
)
    requires
        key_lt(la, na, lb, nb),
        key_lt(lb, nb, lc, nc),
    ensures
        key_lt(la, na, lc, nc),
{
    if text::text_lt(la, lb) && text::text_lt(lb, lc) {
        text::text_lt_transitive(la, lb, lc);
    } else if la == lb && lb == lc {
        text::text_lt_transitive(na, nb, nc);
    }
}

proof fn key_lt_irreflexive(label: Seq<char>, name: Seq<char>)
    ensures
        !key_lt(label, name, label, name),
{
    text::text_lt_irreflexive(label);
    text::text_lt_irreflexive(name);
}

proof fn key_lt_total(la: Seq<char>, na: Seq<char>, lb: Seq<char>, nb: Seq<char>)
    ensures
        key_lt(la, na, lb, nb) || key_lt(lb, nb, la, na) || (la == lb && na == nb),
{
    text::text_lt_total(la, lb);
    text::text_lt_total(na, nb);
}

/// Each group comes before the next.
pub open spec fn sorted(groups: Seq<Group>) -> bool {
    forall|i: int, j: int|
        0 <= i < j < groups.len() ==> key_lt(
            (#[trigger] groups[i]).label@,
            groups[i].name@,
            (#[trigger] groups[j]).label@,
            groups[j].name@,
        )
}

/// The row with index `i` is in some group.
pub open spec fn filed(groups: Seq<Group>, keys: Keys, i: int) -> bool {
    exists|g: int|
        0 <= g < groups.len() && keys.at(i, (#[trigger] groups[g]).label@, groups[g].name@)
}

/// Some of the first `n` rows is in the group.
pub open spec fn occurs(group: Group, keys: Keys, n: nat) -> bool {
    exists|i: int| 0 <= i < n && #[trigger] keys.at(i, group.label@, group.name@)
}

/// The groups of the first `n` rows: one for each label and name that occur, in
/// order, with the sums over its rows.
pub open spec fn is_grouping(groups: Seq<Group>, rows: Seq<Row>, keys: Keys, n: nat) -> bool {
    &&& sorted(groups)
    &&& forall|i: int| 0 <= i < n ==> #[trigger] filed(groups, keys, i)
    &&& forall|g: int|
        0 <= g < groups.len() ==> occurs(#[trigger] groups[g], keys, n) && groups[g].totals@
            == tally_of(rows, keys, groups[g].label@, groups[g].name@, n)
}

/// The groups of the rows, where `labels[i]` and `names[i]` say which group row
/// `i` belongs to.
pub fn group_rows(rows: &Vec<Row>, labels: &Vec<String>, names: &Vec<String>) -> (r: Vec<Group>)
    requires
        rows@.len() < MANY,
        labels@.len() == rows@.len(),
        names@.len() == rows@.len(),
    ensures
        is_grouping(
            r@,
            rows@,
            Keys { labels: text::texts(labels@), names: text::texts(names@) },
            rows@.len(),
        ),
{
    let ghost keys = Keys { labels: text::texts(labels@), names: text::texts(names@) };
    let mut groups: Vec<Group> = Vec::new();
    let mut n: usize = 0;
    while n < rows.len()
        invariant
            n <= rows@.len() < MANY,
            labels@.len() == rows@.len(),
            names@.len() == rows@.len(),
            keys == (Keys { labels: text::texts(labels@), names: text::texts(names@) }),
            is_grouping(groups@, rows@, keys, n as nat),
        decreases rows@.len() - n,
    {
        let label = labels[n].as_str();
        let name = names[n].as_str();
        let ghost before = groups@;
        let p = place(&groups, label, name);
        assert(keys.at(n as int, label@, name@));
        if p < groups.len() && same_text(groups[p].label.as_str(), label) && same_text(
            groups[p].name.as_str(),
            name,
        ) {
            let mut totals = groups[p].totals;
            proof {
                tally_of_bound(rows@, keys, label@, name@, n as nat);
            }
            totals.add(&rows[n]);
            groups.set(p, Group { label: labels[n].clone(), name: names[n].clone(), totals });
            proof {
                added_to(before, groups@, rows@, keys, n as nat, p as int);
            }
        } else {
            let mut totals = Totals::default();
            totals.add(&rows[n]);
            groups.insert(p, Group { label: labels[n].clone(), name: names[n].clone(), totals });
            proof {
                inserted(before, groups@, rows@, keys, n as nat, p as int);
            }
        }
        n += 1;
    }
    groups
}

/// Where a label and a name belong among the groups.
fn place(groups: &Vec<Group>, label: &str, name: &str) -> (p: usize)
    ensures
        p <= groups@.len(),
        forall|i: int|
            0 <= i < p ==> key_lt(
                (#[trigger] groups@[i]).label@,
                groups@[i].name@,
                label@,
                name@,
            ),
        p < groups@.len() ==> !key_lt(
            groups@[p as int].label@,
            groups@[p as int].name@,
            label@,
            name@,
        ),
{
    let mut p: usize = 0;
    while p < groups.len()
        invariant
            p <= groups@.len(),
            forall|i: int|
                0 <= i < p ==> key_lt(
                    (#[trigger] groups@[i]).label@,
                    groups@[i].name@,
                    label@,
                    name@,
                ),
        decreases groups@.len() - p,
    {
        let g = &groups[p];
        let earlier = comes_before(g.label.as_str(), label) || (same_text(
            g.label.as_str(),
            label,
        ) && comes_before(g.name.as_str(), name));
        if !earlier {
            return p;
        }
        p += 1;
    }
    p
}

/// The row joins a group that is there.
proof fn added_to(
    before: Seq<Group>,
    after: Seq<Group>,
    rows: Seq<Row>,
    keys: Keys,
    n: nat,
    p: int,
)
    requires
        is_grouping(before, rows, keys, n),
        0 <= p < before.len(),
        after.len() == before.len(),
        forall|i: int| 0 <= i < before.len() && i != p ==> #[trigger] after[i] == before[i],
        after[p].label@ == before[p].label@,
        after[p].name@ == before[p].name@,
        keys.at(n as int, before[p].label@, before[p].name@),
        after[p].totals@ == before[p].totals@.plus(rows[n as int]),
    ensures
        is_grouping(after, rows, keys, n + 1),
{
    assert(sorted(after)) by {
        assert forall|i: int, j: int| 0 <= i < j < after.len() implies key_lt(
            (#[trigger] after[i]).label@,
            after[i].name@,
            (#[trigger] after[j]).label@,
            after[j].name@,
        ) by {
            assert(key_lt(before[i].label@, before[i].name@, before[j].label@, before[j].name@));
        }
    }
    assert forall|i: int| 0 <= i < n + 1 implies #[trigger] filed(after, keys, i) by {
        if i < n {
            assert(filed(before, keys, i));
            let g = choose|g: int|
                0 <= g < before.len() && keys.at(i, (#[trigger] before[g]).label@, before[g].name@);
            assert(keys.at(i, after[g].label@, after[g].name@));
        } else {
            assert(keys.at(i, after[p].label@, after[p].name@));
        }
    }
    assert forall|g: int| 0 <= g < after.len() implies occurs(#[trigger] after[g], keys, n + 1)
        && after[g].totals@ == tally_of(
        rows,
        keys,
        after[g].label@,
        after[g].name@,
        n + 1,
    ) by {
        assert(occurs(before[g], keys, n));
        let i = choose|i: int|
            0 <= i < n && #[trigger] keys.at(i, before[g].label@, before[g].name@);
        assert(keys.at(i, after[g].label@, after[g].name@));
        if g != p {
            if keys.at(n as int, after[g].label@, after[g].name@) {
                key_lt_irreflexive(after[g].label@, after[g].name@);
                assert(before[g].label@ == before[p].label@);
            }
        }
    }
}

/// The row begins a group of its own.
proof fn inserted(
    before: Seq<Group>,
    after: Seq<Group>,
    rows: Seq<Row>,
    keys: Keys,
    n: nat,
    p: int,
)
    requires
        is_grouping(before, rows, keys, n),
        0 <= p <= before.len(),
        after == before.insert(p, after[p]),
        keys.at(n as int, after[p].label@, after[p].name@),
        after[p].totals@ == Tally::zero().plus(rows[n as int]),
        forall|i: int|
            0 <= i < p ==> key_lt(
                (#[trigger] before[i]).label@,
                before[i].name@,
                after[p].label@,
                after[p].name@,
            ),
        p < before.len() ==> !key_lt(
            before[p].label@,
            before[p].name@,
            after[p].label@,
            after[p].name@,
        ),
        p < before.len() ==> !(before[p].label@ == after[p].label@ && before[p].name@
            == after[p].name@),
    ensures
        is_grouping(after, rows, keys, n + 1),
{
    let new = after[p];
    assert(after.len() == before.len() + 1);
    assert(forall|i: int| 0 <= i < p ==> #[trigger] after[i] == before[i]);
    assert(forall|i: int| p < i < after.len() ==> #[trigger] after[i] == before[i - 1]);
    assert forall|i: int| p <= i < before.len() implies key_lt(
        new.label@,
        new.name@,
        (#[trigger] before[i]).label@,
        before[i].name@,
    ) by {
        key_lt_total(before[p].label@, before[p].name@, new.label@, new.name@);
        if i > p {
            key_lt_transitive(
                new.label@,
                new.name@,
                before[p].label@,
                before[p].name@,
                before[i].label@,
                before[i].name@,
            );
        }
    }
    assert forall|i: int| 0 <= i < before.len() implies !((#[trigger] before[i]).label@
        == new.label@ && before[i].name@ == new.name@) by {
        key_lt_irreflexive(new.label@, new.name@);
        if i < p {
            assert(key_lt(before[i].label@, before[i].name@, new.label@, new.name@));
        } else {
            assert(key_lt(new.label@, new.name@, before[i].label@, before[i].name@));
        }
    }
    assert(sorted(after)) by {
        assert forall|i: int, j: int| 0 <= i < j < after.len() implies key_lt(
            (#[trigger] after[i]).label@,
            after[i].name@,
            (#[trigger] after[j]).label@,
            after[j].name@,
        ) by {
            if j < p {
                assert(key_lt(
                    before[i].label@,
                    before[i].name@,
                    before[j].label@,
                    before[j].name@,
                ));
            } else if j == p {
                assert(key_lt(before[i].label@, before[i].name@, new.label@, new.name@));
            } else if i < p {
                assert(key_lt(
                    before[i].label@,
                    before[i].name@,
                    before[j - 1].label@,
                    before[j - 1].name@,
                ));
            } else if i == p {
                assert(key_lt(new.label@, new.name@, before[j - 1].label@, before[j - 1].name@));
            } else {
                assert(key_lt(
                    before[i - 1].label@,
                    before[i - 1].name@,
                    before[j - 1].label@,
                    before[j - 1].name@,
                ));
            }
        }
    }
    assert forall|i: int| 0 <= i < n + 1 implies #[trigger] filed(after, keys, i) by {
        if i < n {
            assert(filed(before, keys, i));
            let g = choose|g: int|
                0 <= g < before.len() && keys.at(i, (#[trigger] before[g]).label@, before[g].name@);
            let h = if g < p {
                g
            } else {
                g + 1
            };
            assert(keys.at(i, after[h].label@, after[h].name@));
        } else {
            assert(keys.at(i, after[p].label@, after[p].name@));
        }
    }
    assert forall|g: int| 0 <= g < after.len() implies occurs(#[trigger] after[g], keys, n + 1)
        && after[g].totals@ == tally_of(
        rows,
        keys,
        after[g].label@,
        after[g].name@,
        n + 1,
    ) by {
        if g == p {
            assert(keys.at(n as int, after[g].label@, after[g].name@));
            assert forall|i: int| 0 <= i < n implies !#[trigger] keys.at(
                i,
                new.label@,
                new.name@,
            ) by {
                if keys.at(i, new.label@, new.name@) {
                    assert(filed(before, keys, i));
                    let h = choose|h: int|
                        0 <= h < before.len() && keys.at(
                            i,
                            (#[trigger] before[h]).label@,
                            before[h].name@,
                        );
                    assert(before[h].label@ == new.label@ && before[h].name@ == new.name@);
                }
            }
            tally_of_none(rows, keys, new.label@, new.name@, n);
        } else {
            let h = if g < p {
                g
            } else {
                g - 1
            };
            assert(after[g] == before[h]);
            assert(occurs(before[h], keys, n));
            let i = choose|i: int|
                0 <= i < n && #[trigger] keys.at(i, before[h].label@, before[h].name@);
            assert(keys.at(i, after[g].label@, after[g].name@));
            assert(!keys.at(n as int, after[g].label@, after[g].name@));
        }
    }
}

/// The sums of the first `m` groups, each taken over the first `n` rows.
spec fn sum_over(groups: Seq<Group>, rows: Seq<Row>, keys: Keys, n: nat, m: nat) -> Tally
    decreases m,
{
    if m == 0 {
        Tally::zero()
    } else {
        sum_over(groups, rows, keys, n, (m - 1) as nat).and(
            tally_of(rows, keys, groups[m - 1].label@, groups[m - 1].name@, n),
        )
    }
}

/// One row more makes the sum larger by that row, once the group it is in is
/// among those summed.
proof fn sum_over_steps(
    groups: Seq<Group>,
    rows: Seq<Row>,
    keys: Keys,
    n: nat,
    m: nat,
    home: int,
)
    requires
        sorted(groups),
        m <= groups.len(),
        0 <= home < groups.len(),
        keys.at(n as int, groups[home].label@, groups[home].name@),
    ensures
        sum_over(groups, rows, keys, n + 1, m) == (if home < m {
            sum_over(groups, rows, keys, n, m).plus(rows[n as int])
        } else {
            sum_over(groups, rows, keys, n, m)
        }),
    decreases m,
{
    if m > 0 {
        let g = m - 1;
        sum_over_steps(groups, rows, keys, n, g as nat, home);
        if g != home && keys.at(n as int, groups[g].label@, groups[g].name@) {
            key_lt_irreflexive(groups[g].label@, groups[g].name@);
            assert(groups[g].label@ == groups[home].label@);
            assert(groups[g].name@ == groups[home].name@);
            if g < home {
                assert(key_lt(
                    groups[g].label@,
                    groups[g].name@,
                    groups[home].label@,
                    groups[home].name@,
                ));
            } else {
                assert(key_lt(
                    groups[home].label@,
                    groups[home].name@,
                    groups[g].label@,
                    groups[g].name@,
                ));
            }
        }
    }
}

proof fn sum_over_all(groups: Seq<Group>, rows: Seq<Row>, keys: Keys, n: nat)
    requires
        sorted(groups),
        forall|i: int| 0 <= i < n ==> #[trigger] filed(groups, keys, i),
    ensures
        sum_over(groups, rows, keys, n, groups.len()) == tally_all(rows, n),
    decreases n,
{
    if n > 0 {
        let i = n - 1;
        sum_over_all(groups, rows, keys, i as nat);
        assert(filed(groups, keys, i));
        let home = choose|g: int|
            0 <= g < groups.len() && keys.at(i, (#[trigger] groups[g]).label@, groups[g].name@);
        sum_over_steps(groups, rows, keys, i as nat, groups.len(), home);
    } else {
        sum_over_nothing(groups, rows, keys, groups.len());
    }
}

proof fn sum_over_nothing(groups: Seq<Group>, rows: Seq<Row>, keys: Keys, m: nat)
    ensures
        sum_over(groups, rows, keys, 0, m) == Tally::zero(),
    decreases m,
{
    if m > 0 {
        sum_over_nothing(groups, rows, keys, (m - 1) as nat);
    }
}

/// The sums of the first `m` groups.
pub open spec fn sum_groups(groups: Seq<Group>, m: nat) -> Tally
    decreases m,
{
    if m == 0 {
        Tally::zero()
    } else {
        sum_groups(groups, (m - 1) as nat).and(groups[m - 1].totals@)
    }
}

proof fn sum_groups_is(groups: Seq<Group>, rows: Seq<Row>, keys: Keys, n: nat, m: nat)
    requires
        is_grouping(groups, rows, keys, n),
        m <= groups.len(),
    ensures
        sum_groups(groups, m) == sum_over(groups, rows, keys, n, m),
    decreases m,
{
    if m > 0 {
        sum_groups_is(groups, rows, keys, n, (m - 1) as nat);
        assert(occurs(groups[m - 1], keys, n));
    }
}

/// However rows are grouped, the groups add up to the total over all rows:
/// nothing is left out and nothing is counted twice.
pub proof fn law_groups_add_up_to_the_total(
    groups: Seq<Group>,
    rows: Seq<Row>,
    keys: Keys,
)
    requires
        is_grouping(groups, rows, keys, rows.len()),
    ensures
        sum_groups(groups, groups.len()) == tally_all(rows, rows.len()),
{
    sum_groups_is(groups, rows, keys, rows.len(), groups.len());
    sum_over_all(groups, rows, keys, rows.len());
}

/// The total counts every row once, and its tokens are those of the rows.
pub proof fn law_the_total_counts_every_row(rows: Seq<Row>, n: nat)
    ensures
        tally_all(rows, n).requests == n,
        n > 0 ==> tally_all(rows, n).tokens() == tally_all(rows, (n - 1) as nat).tokens()
            + rows[n - 1].tokens(),
    decreases n,
{
    if n > 0 {
        law_the_total_counts_every_row(rows, (n - 1) as nat);
    }
}

/// Two groups of the same label and name with the same sums.
pub open spec fn same_group(a: Group, b: Group) -> bool {
    a.label@ == b.label@ && a.name@ == b.name@ && a.totals@ == b.totals@
}

/// A group of some rows is among any groups of these rows.
proof fn same_group_in(a: Seq<Group>, b: Seq<Group>, rows: Seq<Row>, keys: Keys, g: int) -> (h: int)
    requires
        is_grouping(a, rows, keys, rows.len()),
        is_grouping(b, rows, keys, rows.len()),
        0 <= g < a.len(),
    ensures
        0 <= h < b.len(),
        same_group(a[g], b[h]),
{
    assert(occurs(a[g], keys, rows.len()));
    let i = choose|i: int|
        0 <= i < rows.len() && #[trigger] keys.at(i, a[g].label@, a[g].name@);
    assert(filed(b, keys, i));
    let h = choose|h: int|
        0 <= h < b.len() && keys.at(i, (#[trigger] b[h]).label@, b[h].name@);
    assert(occurs(b[h], keys, rows.len()));
    h
}

/// Groups in order with the same label and name have the same place.
proof fn one_place(groups: Seq<Group>, g: int, h: int)
    requires
        sorted(groups),
        0 <= g < groups.len(),
        0 <= h < groups.len(),
        groups[g].label@ == groups[h].label@,
        groups[g].name@ == groups[h].name@,
    ensures
        g == h,
{
    key_lt_irreflexive(groups[g].label@, groups[g].name@);
}

proof fn same_place(a: Seq<Group>, b: Seq<Group>, rows: Seq<Row>, keys: Keys, g: int)
    requires
        is_grouping(a, rows, keys, rows.len()),
        is_grouping(b, rows, keys, rows.len()),
        0 <= g < a.len(),
    ensures
        g < b.len(),
        same_group(a[g], b[g]),
    decreases g,
{
    let h = same_group_in(a, b, rows, keys, g);
    if h < g {
        same_place(a, b, rows, keys, h);
        one_place(a, g, h);
    } else if g < h {
        let k = same_group_in(b, a, rows, keys, g);
        if k < g {
            same_place(a, b, rows, keys, k);
            one_place(b, g, k);
        } else {
            assert(key_lt(b[g].label@, b[g].name@, b[h].label@, b[h].name@));
            if k > g {
                assert(key_lt(a[g].label@, a[g].name@, a[k].label@, a[k].name@));
                key_lt_transitive(
                    b[g].label@,
                    b[g].name@,
                    b[h].label@,
                    b[h].name@,
                    b[g].label@,
                    b[g].name@,
                );
            }
            key_lt_irreflexive(b[g].label@, b[g].name@);
        }
    }
}

/// Two lists of groups of the same rows say the same, in the same order.
pub proof fn law_the_groups_of_rows_are_determined(
    a: Seq<Group>,
    b: Seq<Group>,
    rows: Seq<Row>,
    keys: Keys,
)
    requires
        is_grouping(a, rows, keys, rows.len()),
        is_grouping(b, rows, keys, rows.len()),
    ensures
        a.len() == b.len(),
        forall|g: int| 0 <= g < a.len() ==> same_group(#[trigger] a[g], b[g]),
{
    assert forall|g: int| 0 <= g < a.len() implies g < b.len() && same_group(
        #[trigger] a[g],
        b[g],
    ) by {
        same_place(a, b, rows, keys, g);
    }
    if a.len() > 0 {
        same_place(a, b, rows, keys, a.len() - 1);
    }
    if b.len() > 0 {
        same_place(b, a, rows, keys, b.len() - 1);
    }
}

// ---------------------------------------------------------------------------
// Columns
// ---------------------------------------------------------------------------

/// A number in groups of three digits.
pub open spec fn thousands_text(n: int) -> Seq<char> {
    if n < 0 {
        seq!['-'] + text::grouped(text::dec((-n) as nat), ' ')
    } else {
        text::grouped(text::dec(n as nat), ' ')
    }
}

/// A number in groups of three digits.
pub fn thousands(n: i128) -> (r: String)
    ensures
        r@ == thousands_text(n as int),
{
    let mut out = String::new();
    if n < 0 {
        out.push('-');
        push_grouped(&mut out, (-(n + 1)) as u128 + 1, ' ');
    } else {
        push_grouped(&mut out, n as u128, ' ');
    }
    assert(out@ =~= thousands_text(n as int));
    out
}

/// Grouping adds spaces to a number and changes nothing else.
pub proof fn law_thousands_keep_the_digits(n: int)
    ensures
        text::without(thousands_text(n), ' ') == text::dec_signed(n),
{
    let size = if n < 0 {
        (-n) as nat
    } else {
        n as nat
    };
    let d = text::dec(size);
    text::dec_digits(size);
    assert(!d.contains(' '));
    text::grouping_only_separates(d, ' ', d.len());
    assert(d.take(d.len() as int) =~= d);
    if n < 0 {
        without_behind('-', text::grouped(d, ' '), ' ');
    }
}

proof fn without_behind(c: char, s: Seq<char>, sep: char)
    requires
        c != sep,
    ensures
        text::without(seq![c] + s, sep) == seq![c] + text::without(s, sep),
    decreases s.len(),
{
    if s.len() == 0 {
        assert(seq![c] + s =~= seq![c]);
        assert(seq![c].drop_last() =~= Seq::<char>::empty());
        reveal_with_fuel(text::without, 2);
        assert(text::without(seq![c], sep) =~= seq![c]);
        assert(seq![c] + text::without(s, sep) =~= seq![c]);
    } else {
        without_behind(c, s.drop_last(), sep);
        assert((seq![c] + s).drop_last() =~= seq![c] + s.drop_last());
        assert(text::without(seq![c] + s, sep) =~= seq![c] + text::without(s, sep));
    }
}

/// A line of a table: the first column on the left, the others on the right.
pub open spec fn columns(first: Seq<char>, width: nat, cells: Seq<Seq<char>>) -> Seq<char> {
    text::left_aligned(first, width) + " "@ + text::right_aligned(cells[0], 8) + " "@
        + text::right_aligned(cells[1], 12) + " "@ + text::right_aligned(cells[2], 12) + " "@
        + text::right_aligned(cells[3], 13) + " "@ + text::right_aligned(cells[4], 13) + " "@
        + text::right_aligned(cells[5], 14)
}

/// The heads of the columns.
pub open spec fn heads() -> Seq<Seq<char>> {
    seq!["requests"@, "input"@, "output"@, "cache-create"@, "cache-read"@, "total"@]
}

/// The sums as columns.
pub open spec fn tally_cells(t: Tally) -> Seq<Seq<char>> {
    seq![
        thousands_text(t.requests),
        thousands_text(t.input),
        thousands_text(t.output),
        thousands_text(t.cache_create),
        thousands_text(t.cache_read),
        thousands_text(t.tokens()),
    ]
}

fn write_columns(
    first: &str,
    width: usize,
    a: &str,
    b: &str,
    c: &str,
    d: &str,
    e: &str,
    f: &str,
) -> (r: String)
    ensures
        r@ == columns(first@, width as nat, seq![a@, b@, c@, d@, e@, f@]),
{
    let mut out = String::new();
    push_left_aligned(&mut out, first, width);
    out.append(" ");
    push_right_aligned(&mut out, a, 8);
    out.append(" ");
    push_right_aligned(&mut out, b, 12);
    out.append(" ");
    push_right_aligned(&mut out, c, 12);
    out.append(" ");
    push_right_aligned(&mut out, d, 13);
    out.append(" ");
    push_right_aligned(&mut out, e, 13);
    out.append(" ");
    push_right_aligned(&mut out, f, 14);
    assert(out@ =~= columns(first@, width as nat, seq![a@, b@, c@, d@, e@, f@]));
    out
}

/// The head of a table.
pub fn header(title: &str, width: usize) -> (r: String)
    ensures
        r@ == columns(title@, width as nat, heads()),
{
    let r = write_columns(
        title,
        width,
        "requests",
        "input",
        "output",
        "cache-create",
        "cache-read",
        "total",
    );
    assert(seq![
        "requests"@,
        "input"@,
        "output"@,
        "cache-create"@,
        "cache-read"@,
        "total"@,
    ] =~= heads());
    r
}

/// A line of sums.
pub fn row_line(name: &str, t: &Totals, width: usize) -> (r: String)
    requires
        t@.of_at_most(MANY as int),
    ensures
        r@ == columns(name@, width as nat, tally_cells(t@)),
{
    write_columns(
        name,
        width,
        thousands(t.requests).as_str(),
        thousands(t.input).as_str(),
        thousands(t.output).as_str(),
        thousands(t.cache_create).as_str(),
        thousands(t.cache_read).as_str(),
        thousands(t.total()).as_str(),
    )
}

/// The length of a text in bytes.
pub open spec fn byte_len(s: Seq<char>) -> nat {
    vstd::utf8::encode_utf8(s).len() as usize as nat
}

/// The length of the longest of the first `n` texts, and at least `least`.
pub open spec fn widest(texts: Seq<Seq<char>>, n: nat, least: nat) -> nat
    decreases n,
{
    if n == 0 {
        least
    } else {
        let before = widest(texts, (n - 1) as nat, least);
        if byte_len(texts[n - 1]) > before {
            byte_len(texts[n - 1])
        } else {
            before
        }
    }
}

fn widest_of(texts: &Vec<String>, least: usize) -> (r: usize)
    ensures
        r == widest(text::texts(texts@), texts@.len(), least as nat),
{
    let mut r: usize = least;
    let mut i: usize = 0;
    while i < texts.len()
        invariant
            i <= texts@.len(),
            r == widest(text::texts(texts@), i as nat, least as nat),
        decreases texts@.len() - i,
    {
        let n = texts[i].as_str().len();
        assert(text::texts(texts@)[i as int] == texts@[i as int]@);
        if n > r {
            r = n;
        }
        i += 1;
    }
    r
}

// ---------------------------------------------------------------------------
// Tables
// ---------------------------------------------------------------------------

/// The labels of the groups as a table shows them.
pub open spec fn shown_labels(groups: Seq<Group>, home: Seq<char>) -> Seq<Seq<char>> {
    Seq::new(groups.len(), |i: int| render::from_home(groups[i].label@, home))
}

/// The width of the first column of a table.
pub open spec fn table_width(title: Seq<char>, groups: Seq<Group>, home: Seq<char>) -> nat {
    widest(shown_labels(groups, home), groups.len(), byte_len(title))
}

/// A table: its head and a line for each group.
pub open spec fn table_lines(title: Seq<char>, groups: Seq<Group>, home: Seq<char>) -> Seq<
    Seq<char>,
> {
    let width = table_width(title, groups, home);
    seq![columns(title, width, heads())] + Seq::new(
        groups.len(),
        |i: int| columns(shown_labels(groups, home)[i], width, tally_cells(groups[i].totals@)),
    )
}

/// Sums of at most so many rows in every group.
pub open spec fn all_moderate(groups: Seq<Group>) -> bool {
    forall|g: int| 0 <= g < groups.len() ==> (#[trigger] groups[g]).totals@.of_at_most(MANY as int)
}

proof fn groupings_are_moderate(groups: Seq<Group>, rows: Seq<Row>, keys: Keys, n: nat)
    requires
        is_grouping(groups, rows, keys, n),
        n < MANY,
    ensures
        all_moderate(groups),
{
    assert forall|g: int| 0 <= g < groups.len() implies (
    #[trigger] groups[g]).totals@.of_at_most(MANY as int) by {
        assert(occurs(groups[g], keys, n));
        tally_of_bound(rows, keys, groups[g].label@, groups[g].name@, n);
    }
}

/// Adds a table to the lines, and answers the width of its first column, so that
/// what follows can line up.
pub fn push_table(lines: &mut Vec<String>, title: &str, groups: &Vec<Group>, home: &str) -> (r:
    usize)
    requires
        all_moderate(groups@),
    ensures
        text::texts(final(lines)@) == text::texts(old(lines)@) + table_lines(
            title@,
            groups@,
            home@,
        ),
        r == table_width(title@, groups@, home@),
{
    let mut labels: Vec<String> = Vec::new();
    let mut i: usize = 0;
    while i < groups.len()
        invariant
            i <= groups@.len(),
            text::texts(labels@) =~= shown_labels(groups@, home@).take(i as int),
        decreases groups@.len() - i,
    {
        let ghost before = text::texts(labels@);
        let label = tilde(groups[i].label.as_str(), home);
        let ghost added = label@;
        labels.push(label);
        assert(text::texts(labels@) =~= before.push(added));
        i += 1;
    }
    assert(text::texts(labels@) =~= shown_labels(groups@, home@));
    let width = widest_of(&labels, title.len());
    let ghost old_lines = text::texts(lines@);
    let ghost all = table_lines(title@, groups@, home@);
    let head = header(title, width);
    let ghost head_text = head@;
    lines.push(head);
    assert(text::texts(lines@) =~= old_lines.push(head_text));
    let mut j: usize = 0;
    while j < groups.len()
        invariant
            j <= groups@.len(),
            all_moderate(groups@),
            labels@.len() == groups@.len(),
            text::texts(labels@) == shown_labels(groups@, home@),
            width == table_width(title@, groups@, home@),
            all == table_lines(title@, groups@, home@),
            text::texts(lines@) =~= old_lines + all.take(j + 1),
        decreases groups@.len() - j,
    {
        let ghost before = text::texts(lines@);
        assert(labels@[j as int]@ == text::texts(labels@)[j as int]);
        let line = row_line(labels[j].as_str(), &groups[j].totals, width);
        let ghost added = line@;
        lines.push(line);
        assert(text::texts(lines@) =~= before.push(added));
        assert(all[j + 1] == added);
        j += 1;
    }
    assert(all.take(groups@.len() as int + 1) =~= all);
    width
}

/// The models of the rows.
pub open spec fn models(rows: Seq<Row>) -> Seq<Seq<char>> {
    rows.map_values(|r: Row| r.model@)
}

/// The project directories of the rows.
pub open spec fn projects(rows: Seq<Row>) -> Seq<Seq<char>> {
    rows.map_values(|r: Row| r.project_dir@)
}

/// Nothing, for each of `n` rows.
pub open spec fn blanks(n: nat) -> Seq<Seq<char>> {
    Seq::new(n, |i: int| Seq::<char>::empty())
}

fn model_keys(rows: &Vec<Row>) -> (r: Vec<String>)
    ensures
        text::texts(r@) == models(rows@),
{
    let mut keys: Vec<String> = Vec::new();
    let mut i: usize = 0;
    while i < rows.len()
        invariant
            i <= rows@.len(),
            text::texts(keys@) =~= models(rows@).take(i as int),
        decreases rows@.len() - i,
    {
        let ghost before = text::texts(keys@);
        keys.push(rows[i].model.clone());
        assert(text::texts(keys@) =~= before.push(rows@[i as int].model@));
        i += 1;
    }
    assert(models(rows@).take(rows@.len() as int) =~= models(rows@));
    keys
}

fn project_keys(rows: &Vec<Row>) -> (r: Vec<String>)
    ensures
        text::texts(r@) == projects(rows@),
{
    let mut keys: Vec<String> = Vec::new();
    let mut i: usize = 0;
    while i < rows.len()
        invariant
            i <= rows@.len(),
            text::texts(keys@) =~= projects(rows@).take(i as int),
        decreases rows@.len() - i,
    {
        let ghost before = text::texts(keys@);
        keys.push(rows[i].project_dir.clone());
        assert(text::texts(keys@) =~= before.push(rows@[i as int].project_dir@));
        i += 1;
    }
    assert(projects(rows@).take(rows@.len() as int) =~= projects(rows@));
    keys
}

fn blank_keys(n: usize) -> (r: Vec<String>)
    ensures
        text::texts(r@) == blanks(n as nat),
{
    let mut keys: Vec<String> = Vec::new();
    let mut i: usize = 0;
    while i < n
        invariant
            i <= n,
            text::texts(keys@) =~= blanks(i as nat),
        decreases n - i,
    {
        let ghost before = text::texts(keys@);
        let blank = String::new();
        let ghost added = blank@;
        keys.push(blank);
        assert(added =~= Seq::<char>::empty());
        assert(text::texts(keys@) =~= before.push(added));
        i += 1;
    }
    keys
}

/// The rows by model.
pub fn by_model(rows: &Vec<Row>) -> (r: Vec<Group>)
    requires
        rows@.len() < MANY,
    ensures
        is_grouping(
            r@,
            rows@,
            Keys { labels: models(rows@), names: blanks(rows@.len()) },
            rows@.len(),
        ),
{
    let labels = model_keys(rows);
    let names = blank_keys(rows.len());
    assert(labels@.len() == text::texts(labels@).len());
    assert(names@.len() == text::texts(names@).len());
    group_rows(rows, &labels, &names)
}

/// The rows by project directory.
pub fn by_project(rows: &Vec<Row>) -> (r: Vec<Group>)
    requires
        rows@.len() < MANY,
    ensures
        is_grouping(
            r@,
            rows@,
            Keys { labels: projects(rows@), names: blanks(rows@.len()) },
            rows@.len(),
        ),
{
    let labels = project_keys(rows);
    let names = blank_keys(rows.len());
    assert(labels@.len() == text::texts(labels@).len());
    assert(names@.len() == text::texts(names@).len());
    group_rows(rows, &labels, &names)
}

/// The sums over all rows.
pub fn total_of(rows: &Vec<Row>) -> (r: Totals)
    requires
        rows@.len() < MANY,
    ensures
        r@ == tally_all(rows@, rows@.len()),
        r@.of_at_most(rows@.len() as int),
{
    let mut totals = Totals::default();
    let mut i: usize = 0;
    while i < rows.len()
        invariant
            i <= rows@.len() < MANY,
            totals@ == tally_all(rows@, i as nat),
        decreases rows@.len() - i,
    {
        proof {
            tally_all_bound(rows@, i as nat);
        }
        totals.add(&rows[i]);
        i += 1;
    }
    proof {
        tally_all_bound(rows@, rows@.len());
    }
    totals
}

// ---------------------------------------------------------------------------
// The summary
// ---------------------------------------------------------------------------

/// What is said of a range without requests.
pub const NOTHING_YET: &'static str = "No requests in range. Run `cc-usage backfill` if the ledger is new.";

/// The summary: the span of days and the number of requests, the rows by model,
/// by project, and the total.
pub open spec fn summary_lines(
    total: Tally,
    by_model: Seq<Group>,
    by_project: Seq<Group>,
    first: Seq<char>,
    last: Seq<char>,
    home: Seq<char>,
) -> Seq<Seq<char>> {
    let blank = Seq::<char>::empty();
    seq![
        first + " .. "@ + last + "   "@ + text::dec(total.requests as nat) + " requests"@,
        blank,
    ] + table_lines("model"@, by_model, home) + seq![blank] + table_lines(
        "project"@,
        by_project,
        home,
    ) + seq![
        blank,
        columns("TOTAL"@, table_width("project"@, by_project, home), tally_cells(total)),
    ]
}

/// `lines` is the summary of the rows.
pub open spec fn is_summary(
    lines: Seq<Seq<char>>,
    rows: Seq<Row>,
    first: Seq<char>,
    last: Seq<char>,
    home: Seq<char>,
) -> bool {
    exists|m: Seq<Group>, p: Seq<Group>|
        #![trigger summary_lines(tally_all(rows, rows.len()), m, p, first, last, home)]
        is_grouping(m, rows, Keys { labels: models(rows), names: blanks(rows.len()) }, rows.len())
            && is_grouping(
            p,
            rows,
            Keys { labels: projects(rows), names: blanks(rows.len()) },
            rows.len(),
        ) && lines == summary_lines(tally_all(rows, rows.len()), m, p, first, last, home)
}

/// The summary of the rows, which span the days `first` to `last`.
pub fn summary_of(rows: &Vec<Row>, first: &str, last: &str, home: &str) -> (r: Vec<String>)
    requires
        rows@.len() < MANY,
    ensures
        is_summary(text::texts(r@), rows@, first@, last@, home@),
{
    let total = total_of(rows);
    let models_of = by_model(rows);
    let projects_of = by_project(rows);
    proof {
        groupings_are_moderate(
            models_of@,
            rows@,
            Keys { labels: models(rows@), names: blanks(rows@.len()) },
            rows@.len(),
        );
        groupings_are_moderate(
            projects_of@,
            rows@,
            Keys { labels: projects(rows@), names: blanks(rows@.len()) },
            rows@.len(),
        );
        law_the_total_counts_every_row(rows@, rows@.len());
    }
    let mut span = String::new();
    span.append(first);
    span.append(" .. ");
    span.append(last);
    span.append("   ");
    push_dec(&mut span, rows.len() as u128);
    span.append(" requests");
    let mut lines: Vec<String> = Vec::new();
    assert(text::texts(lines@) =~= Seq::<Seq<char>>::empty());
    let ghost span_text = span@;
    push_line(&mut lines, span);
    push_line(&mut lines, String::new());
    push_table(&mut lines, "model", &models_of, home);
    push_line(&mut lines, String::new());
    let width = push_table(&mut lines, "project", &projects_of, home);
    push_line(&mut lines, String::new());
    push_line(&mut lines, row_line("TOTAL", &total, width));
    proof {
        let t = tally_all(rows@, rows@.len());
        let want = summary_lines(t, models_of@, projects_of@, first@, last@, home@);
        assert(span_text =~= first@ + " .. "@ + last@ + "   "@ + text::dec(t.requests as nat)
            + " requests"@);
        assert(text::texts(lines@) =~= want);
    }
    lines
}

/// The summary of the rows, in the days of a zone.
pub fn summary(rows: &Vec<Row>, zone: &Zone, home: &str) -> (r: Vec<String>)
    requires
        rows@.len() < MANY,
        zone.valid(),
    ensures
        rows@.len() == 0 ==> text::texts(r@) == seq![NOTHING_YET@],
        rows@.len() > 0 ==> exists|first: Seq<char>, last: Seq<char>|
            #![trigger is_summary(text::texts(r@), rows@, first, last, home@)]
            bucket::day_labelled(*zone, rows@[0].ts, first) && bucket::day_labelled(
                *zone,
                rows@[rows@.len() - 1].ts,
                last,
            ) && is_summary(text::texts(r@), rows@, first, last, home@),
{
    if rows.len() == 0 {
        let mut lines: Vec<String> = Vec::new();
        assert(text::texts(lines@) =~= Seq::<Seq<char>>::empty());
        push_line(&mut lines, NOTHING_YET.to_owned());
        assert(text::texts(lines@) =~= seq![NOTHING_YET@]);
        return lines;
    }
    let first = day_label(rows[0].ts, zone);
    let last = day_label(rows[rows.len() - 1].ts, zone);
    let r = summary_of(rows, first.as_str(), last.as_str(), home);
    assert(is_summary(text::texts(r@), rows@, first@, last@, home@));
    r
}

// ---------------------------------------------------------------------------
// Breakdowns
// ---------------------------------------------------------------------------

/// What a breakdown is by, besides the period.
#[derive(Debug, Clone, Copy, PartialEq, Eq, Structural)]
pub enum GroupBy {
    Model,
    Project,
}

/// The periods of a breakdown.
#[derive(Debug, Clone, Copy, PartialEq, Eq, Structural)]
pub enum Period {
    Day,
    Week,
    Month,
}

/// `label` names the period that holds `ts`.
pub open spec fn period_labelled(
    period: Period,
    zone: Zone,
    ts: i64,
    label: Seq<char>,
) -> bool {
    match period {
        Period::Day => bucket::day_labelled(zone, ts, label),
        Period::Week => bucket::week_labelled(zone, ts, label),
        Period::Month => bucket::month_labelled(zone, ts, label),
    }
}

impl Period {
    /// The name of the period that holds `ts`.
    pub fn label(self, ts: i64, zone: &Zone) -> (r: String)
        requires
            zone.valid(),
        ensures
            period_labelled(self, *zone, ts, r@),
    {
        match self {
            Period::Day => day_label(ts, zone),
            Period::Week => week_label(ts, zone),
            Period::Month => month_label(ts, zone),
        }
    }
}

/// The names that the rows are grouped by within a period.
pub open spec fn names_of(rows: Seq<Row>, by: Option<GroupBy>, home: Seq<char>) -> Seq<Seq<char>> {
    match by {
        Some(GroupBy::Model) => models(rows),
        Some(GroupBy::Project) => rows.map_values(
            |r: Row| render::from_home(r.project_dir@, home),
        ),
        None => blanks(rows.len()),
    }
}

fn name_keys(rows: &Vec<Row>, by: Option<GroupBy>, home: &str) -> (r: Vec<String>)
    ensures
        text::texts(r@) == names_of(rows@, by, home@),
{
    match by {
        Some(GroupBy::Model) => model_keys(rows),
        Some(GroupBy::Project) => {
            let ghost want = names_of(rows@, by, home@);
            let mut keys: Vec<String> = Vec::new();
            let mut i: usize = 0;
            while i < rows.len()
                invariant
                    i <= rows@.len(),
                    want == rows@.map_values(|r: Row| render::from_home(r.project_dir@, home@)),
                    text::texts(keys@) =~= want.take(i as int),
                decreases rows@.len() - i,
            {
                let key = tilde(rows[i].project_dir.as_str(), home);
                assert(key@ == want[i as int]);
                push_line(&mut keys, key);
                i += 1;
            }
            assert(want.take(rows@.len() as int) =~= want);
            keys
        },
        None => blank_keys(rows.len()),
    }
}

/// The names of the groups.
pub open spec fn group_names(groups: Seq<Group>) -> Seq<Seq<char>> {
    Seq::new(groups.len(), |i: int| groups[i].name@)
}

/// The length of the longest name of a group.
pub open spec fn names_width(groups: Seq<Group>) -> nat {
    widest(group_names(groups), groups.len(), 0)
}

/// The length of the longest name of a group, in bytes.
pub fn group_width(groups: &Vec<Group>) -> (r: usize)
    ensures
        r == names_width(groups@),
{
    let mut names: Vec<String> = Vec::new();
    let mut i: usize = 0;
    while i < groups.len()
        invariant
            i <= groups@.len(),
            text::texts(names@) =~= group_names(groups@).take(i as int),
        decreases groups@.len() - i,
    {
        push_line(&mut names, groups[i].name.clone());
        i += 1;
    }
    assert(text::texts(names@) =~= group_names(groups@));
    widest_of(&names, 0)
}

/// The width of the first column: a label, and two spaces and a name where there
/// are names. No wider than a machine can count.
pub open spec fn breakdown_width(groups: Seq<Group>, by: Option<GroupBy>) -> nat {
    if by is None {
        10
    } else if names_width(groups) > usize::MAX - 12 {
        usize::MAX as nat
    } else {
        12 + names_width(groups)
    }
}

/// The first column of a group.
pub open spec fn group_title(g: Group) -> Seq<char> {
    if g.name@.len() == 0 {
        g.label@
    } else {
        g.label@ + "  "@ + g.name@
    }
}

/// A breakdown: its head, a line for each group, and the total.
pub open spec fn breakdown_lines(
    groups: Seq<Group>,
    by: Option<GroupBy>,
    total: Tally,
) -> Seq<Seq<char>> {
    let width = breakdown_width(groups, by);
    seq![columns(""@, width, heads())] + Seq::new(
        groups.len(),
        |i: int| columns(group_title(groups[i]), width, tally_cells(groups[i].totals@)),
    ) + seq![Seq::<char>::empty(), columns("TOTAL"@, width, tally_cells(total))]
}

/// `lines` is the breakdown of the rows, where `labels[i]` names the period of
/// row `i`.
pub open spec fn is_breakdown(
    lines: Seq<Seq<char>>,
    rows: Seq<Row>,
    labels: Seq<Seq<char>>,
    by: Option<GroupBy>,
    home: Seq<char>,
) -> bool {
    exists|groups: Seq<Group>|
        #![trigger breakdown_lines(groups, by, tally_all(rows, rows.len()))]
        is_grouping(groups, rows, Keys { labels, names: names_of(rows, by, home) }, rows.len())
            && lines == breakdown_lines(groups, by, tally_all(rows, rows.len()))
}

fn title_of(g: &Group) -> (r: String)
    ensures
        r@ == group_title(*g),
{
    let mut out = g.label.clone();
    if g.name.as_str().unicode_len() > 0 {
        out.append("  ");
        out.append(g.name.as_str());
    }
    assert(out@ =~= group_title(*g));
    out
}

/// The breakdown of the rows, given the label of each.
pub fn breakdown_of(rows: &Vec<Row>, labels: &Vec<String>, by: Option<GroupBy>, home: &str) -> (r:
    Vec<String>)
    requires
        rows@.len() < MANY,
        labels@.len() == rows@.len(),
    ensures
        is_breakdown(text::texts(r@), rows@, text::texts(labels@), by, home@),
{
    let names = name_keys(rows, by, home);
    assert(names@.len() == text::texts(names@).len());
    let ghost keys = Keys { labels: text::texts(labels@), names: names_of(rows@, by, home@) };
    let groups = group_rows(rows, labels, &names);
    let width = match by {
        None => 10,
        Some(_) => {
            let w = group_width(&groups);
            if w > usize::MAX - 12 {
                usize::MAX
            } else {
                12 + w
            }
        },
    };
    proof {
        groupings_are_moderate(groups@, rows@, keys, rows@.len());
    }
    let ghost total = tally_all(rows@, rows@.len());
    let ghost want = breakdown_lines(groups@, by, total);
    let mut lines: Vec<String> = Vec::new();
    assert(text::texts(lines@) =~= Seq::<Seq<char>>::empty());
    push_line(&mut lines, header("", width));
    let mut grand = Totals::default();
    let mut i: usize = 0;
    assert(text::texts(lines@) =~= want.take(1));
    while i < groups.len()
        invariant
            i <= groups@.len(),
            rows@.len() < MANY,
            is_grouping(groups@, rows@, keys, rows@.len()),
            all_moderate(groups@),
            width == breakdown_width(groups@, by),
            want == breakdown_lines(groups@, by, total),
            text::texts(lines@) =~= want.take(i + 1),
            grand@ == sum_groups(groups@, i as nat),
        decreases groups@.len() - i,
    {
        let line = row_line(title_of(&groups[i]).as_str(), &groups[i].totals, width);
        assert(line@ == want[i + 1]);
        push_line(&mut lines, line);
        proof {
            sum_groups_bound(groups@, rows@, keys, rows@.len(), i as nat);
        }
        grand.join(&groups[i].totals);
        i += 1;
    }
    proof {
        law_groups_add_up_to_the_total(groups@, rows@, keys);
        tally_all_bound(rows@, rows@.len());
    }
    push_line(&mut lines, String::new());
    push_line(&mut lines, row_line("TOTAL", &grand, width));
    assert(text::texts(lines@) =~= want);
    lines
}

/// Some of the groups never come to more than all rows can.
proof fn sum_groups_bound(groups: Seq<Group>, rows: Seq<Row>, keys: Keys, n: nat, m: nat)
    requires
        is_grouping(groups, rows, keys, n),
        m <= groups.len(),
    ensures
        sum_groups(groups, m).of_at_most(n as int),
{
    sum_groups_is(groups, rows, keys, n, m);
    some_rows_bound(groups, rows, keys, n, m);
}

proof fn some_rows_bound(groups: Seq<Group>, rows: Seq<Row>, keys: Keys, n: nat, m: nat)
    requires
        sorted(groups),
        forall|i: int| 0 <= i < n ==> #[trigger] filed(groups, keys, i),
        m <= groups.len(),
    ensures
        sum_over(groups, rows, keys, n, m).of_at_most(n as int),
    decreases n,
{
    if n > 0 {
        let i = n - 1;
        some_rows_bound(groups, rows, keys, i as nat, m);
        assert(filed(groups, keys, i));
        let home = choose|g: int|
            0 <= g < groups.len() && keys.at(i, (#[trigger] groups[g]).label@, groups[g].name@);
        sum_over_steps(groups, rows, keys, i as nat, m, home);
    } else {
        sum_over_nothing(groups, rows, keys, m);
    }
}

/// What is said of a breakdown without requests.
pub const NOTHING: &'static str = "No requests in range.";

/// Each row's period is named by its label.
pub open spec fn periods_labelled(
    rows: Seq<Row>,
    period: Period,
    zone: Zone,
    labels: Seq<Seq<char>>,
) -> bool {
    &&& labels.len() == rows.len()
    &&& forall|i: int|
        0 <= i < rows.len() ==> period_labelled(
            period,
            zone,
            (#[trigger] rows[i]).ts,
            labels[i],
        )
}

/// The breakdown of the rows by period, and by model or project.
pub fn breakdown(
    rows: &Vec<Row>,
    by: Option<GroupBy>,
    period: Period,
    zone: &Zone,
    home: &str,
) -> (r: Vec<String>)
    requires
        rows@.len() < MANY,
        zone.valid(),
    ensures
        rows@.len() == 0 ==> text::texts(r@) == seq![NOTHING@],
        rows@.len() > 0 ==> exists|labels: Seq<Seq<char>>| #[trigger]
            periods_labelled(rows@, period, *zone, labels) && is_breakdown(
                text::texts(r@),
                rows@,
                labels,
                by,
                home@,
            ),
{
    if rows.len() == 0 {
        let mut lines: Vec<String> = Vec::new();
        assert(text::texts(lines@) =~= Seq::<Seq<char>>::empty());
        push_line(&mut lines, NOTHING.to_owned());
        assert(text::texts(lines@) =~= seq![NOTHING@]);
        return lines;
    }
    let mut labels: Vec<String> = Vec::new();
    let mut i: usize = 0;
    while i < rows.len()
        invariant
            i <= rows@.len(),
            zone.valid(),
            labels@.len() == i,
            forall|j: int|
                0 <= j < i ==> period_labelled(
                    period,
                    *zone,
                    (#[trigger] rows@[j]).ts,
                    text::texts(labels@)[j],
                ),
        decreases rows@.len() - i,
    {
        let ghost before = text::texts(labels@);
        push_line(&mut labels, period.label(rows[i].ts, zone));
        assert(labels@.len() == text::texts(labels@).len());
        assert forall|j: int| 0 <= j < i + 1 implies period_labelled(
            period,
            *zone,
            (#[trigger] rows@[j]).ts,
            text::texts(labels@)[j],
        ) by {
            if j < i {
                assert(text::texts(labels@)[j] == before[j]);
            }
        }
        i += 1;
    }
    assert(periods_labelled(rows@, period, *zone, text::texts(labels@)));
    breakdown_of(rows, &labels, by, home)
}

// ---------------------------------------------------------------------------
// Ranges of dates
// ---------------------------------------------------------------------------

/// A range of dates as it was asked for. The end does not belong to it.
#[derive(Debug, Clone)]
pub struct Range {
    pub since: Option<String>,
    pub until: Option<String>,
}

/// A date that is none.
#[derive(Debug, Clone)]
pub struct BadDate {
    /// The option that it was given for.
    pub option: String,
    pub given: String,
}

/// The characters of what was wrong.
pub open spec fn bad_date_text(option: Seq<char>, given: Seq<char>) -> Seq<char> {
    option + " is not a YYYY-MM-DD date: "@ + given
}

impl BadDate {
    /// What was wrong.
    pub fn message(&self) -> (r: String)
        ensures
            r@ == bad_date_text(self.option@, self.given@),
    {
        let mut out = self.option.clone();
        out.append(" is not a YYYY-MM-DD date: ");
        out.append(self.given.as_str());
        assert(out@ =~= bad_date_text(self.option@, self.given@));
        out
    }
}

/// Whether a date that is asked for is one, or none is asked for.
pub open spec fn date_ok(date: Option<String>) -> bool {
    date matches Some(t) ==> bucket::parsed_date(text::trimmed(t@)) is Some
}

/// `ts` is when the date that was asked for begins; nothing if none was.
pub open spec fn date_begins(date: Option<String>, zone: Zone, ts: Option<i64>) -> bool {
    match date {
        Some(t) => ts is Some && bucket::starts(
            zone,
            bucket::parsed_date(text::trimmed(t@))->0 as int,
            ts->0 as int,
        ),
        None => ts is None,
    }
}

fn resolve_date(date: &Option<String>, option: &str, zone: &Zone) -> (r: Result<
    Option<i64>,
    BadDate,
>)
    requires
        zone.valid(),
    ensures
        r is Ok <==> date_ok(*date),
        r matches Ok(ts) ==> date_begins(*date, *zone, ts),
        r matches Err(e) ==> date matches Some(t) && e.option@ == option@ && e.given@ == t@,
{
    match date {
        None => Ok(None),
        Some(t) => match parse_date(t.as_str(), zone) {
            Some(ts) => Ok(Some(ts)),
            None => Err(BadDate { option: option.to_owned(), given: t.clone() }),
        },
    }
}

impl Range {
    /// When the range begins and ends, in the days of a zone. A date that is none
    /// is an error that names it, the beginning before the end.
    pub fn resolve(&self, zone: &Zone) -> (r: Result<(Option<i64>, Option<i64>), BadDate>)
        requires
            zone.valid(),
        ensures
            r is Ok <==> date_ok(self.since) && date_ok(self.until),
            r matches Ok((since, until)) ==> date_begins(self.since, *zone, since) && date_begins(
                self.until,
                *zone,
                until,
            ),
            r matches Err(e) ==> (if !date_ok(self.since) {
                e.option@ == "--since"@ && e.given@ == self.since->0@
            } else {
                e.option@ == "--until"@ && e.given@ == self.until->0@
            }),
    {
        match resolve_date(&self.since, "--since", zone) {
            Ok(since) => match resolve_date(&self.until, "--until", zone) {
                Ok(until) => Ok((since, until)),
                Err(e) => Err(e),
            },
            Err(e) => Err(e),
        }
    }
}

// ---------------------------------------------------------------------------
// Sessions
// ---------------------------------------------------------------------------

/// What is said where there are no sessions.
pub const NO_SESSIONS: &'static str = "No sessions recorded.";

/// A line of the list of sessions.
pub open spec fn session_columns(
    a: Seq<char>,
    b: Seq<char>,
    c: Seq<char>,
    d: Seq<char>,
) -> Seq<char> {
    text::left_aligned(a, 38) + " "@ + text::right_aligned(b, 12) + " "@ + text::right_aligned(
        c,
        12,
    ) + "  "@ + d
}

/// The list of sessions, where `labels[i]` is the day that session `i` was last
/// heard of.
pub open spec fn session_lines(
    sessions: Seq<SessionRow>,
    labels: Seq<Seq<char>>,
    home: Seq<char>,
) -> Seq<Seq<char>> {
    seq![session_columns("session"@, "tokens"@, "last seen"@, "project"@)] + Seq::new(
        sessions.len(),
        |i: int|
            session_columns(
                sessions[i].session_id@,
                thousands_text(sessions[i].tokens as int),
                labels[i],
                render::from_home(sessions[i].project_dir@, home),
            ),
    )
}

fn write_session(a: &str, b: &str, c: &str, d: &str) -> (r: String)
    ensures
        r@ == session_columns(a@, b@, c@, d@),
{
    let mut out = String::new();
    push_left_aligned(&mut out, a, 38);
    out.append(" ");
    push_right_aligned(&mut out, b, 12);
    out.append(" ");
    push_right_aligned(&mut out, c, 12);
    out.append("  ");
    out.append(d);
    assert(out@ =~= session_columns(a@, b@, c@, d@));
    out
}

/// The list of sessions, given the day that each was last heard of.
pub fn sessions_of(sessions: &Vec<SessionRow>, labels: &Vec<String>, home: &str) -> (r: Vec<
    String,
>)
    requires
        labels@.len() == sessions@.len(),
    ensures
        text::texts(r@) == session_lines(sessions@, text::texts(labels@), home@),
{
    let ghost want = session_lines(sessions@, text::texts(labels@), home@);
    let mut lines: Vec<String> = Vec::new();
    assert(text::texts(lines@) =~= Seq::<Seq<char>>::empty());
    push_line(&mut lines, write_session("session", "tokens", "last seen", "project"));
    assert(text::texts(lines@) =~= want.take(1));
    let mut i: usize = 0;
    while i < sessions.len()
        invariant
            i <= sessions@.len(),
            labels@.len() == sessions@.len(),
            want == session_lines(sessions@, text::texts(labels@), home@),
            text::texts(lines@) =~= want.take(i + 1),
        decreases sessions@.len() - i,
    {
        let s = &sessions[i];
        assert(text::texts(labels@)[i as int] == labels@[i as int]@);
        let line = write_session(
            s.session_id.as_str(),
            thousands(s.tokens as i128).as_str(),
            labels[i].as_str(),
            tilde(s.project_dir.as_str(), home).as_str(),
        );
        assert(line@ == want[i + 1]);
        push_line(&mut lines, line);
        i += 1;
    }
    assert(text::texts(lines@) =~= want);
    lines
}

/// Each session's last day is its label.
pub open spec fn days_labelled(
    sessions: Seq<SessionRow>,
    zone: Zone,
    labels: Seq<Seq<char>>,
) -> bool {
    &&& labels.len() == sessions.len()
    &&& forall|i: int|
        0 <= i < sessions.len() ==> bucket::day_labelled(
            zone,
            (#[trigger] sessions[i]).last_seen,
            labels[i],
        )
}

/// The list of sessions, in the days of a zone.
pub fn sessions(rows: &Vec<SessionRow>, zone: &Zone, home: &str) -> (r: Vec<String>)
    requires
        zone.valid(),
    ensures
        rows@.len() == 0 ==> text::texts(r@) == seq![NO_SESSIONS@],
        rows@.len() > 0 ==> exists|labels: Seq<Seq<char>>| #[trigger]
            days_labelled(rows@, *zone, labels) && text::texts(r@) == session_lines(
                rows@,
                labels,
                home@,
            ),
{
    if rows.len() == 0 {
        let mut lines: Vec<String> = Vec::new();
        assert(text::texts(lines@) =~= Seq::<Seq<char>>::empty());
        push_line(&mut lines, NO_SESSIONS.to_owned());
        assert(text::texts(lines@) =~= seq![NO_SESSIONS@]);
        return lines;
    }
    let mut labels: Vec<String> = Vec::new();
    let mut i: usize = 0;
    while i < rows.len()
        invariant
            i <= rows@.len(),
            zone.valid(),
            labels@.len() == i,
            forall|j: int|
                0 <= j < i ==> bucket::day_labelled(
                    *zone,
                    (#[trigger] rows@[j]).last_seen,
                    text::texts(labels@)[j],
                ),
        decreases rows@.len() - i,
    {
        let ghost before = text::texts(labels@);
        push_line(&mut labels, day_label(rows[i].last_seen, zone));
        assert(labels@.len() == text::texts(labels@).len());
        assert forall|j: int| 0 <= j < i + 1 implies bucket::day_labelled(
            *zone,
            (#[trigger] rows@[j]).last_seen,
            text::texts(labels@)[j],
        ) by {
            if j < i {
                assert(text::texts(labels@)[j] == before[j]);
            }
        }
        i += 1;
    }
    assert(days_labelled(rows@, *zone, text::texts(labels@)));
    sessions_of(rows, &labels, home)
}

// ---------------------------------------------------------------------------
// Export
// ---------------------------------------------------------------------------

/// Every quotation mark twice.
pub open spec fn doubled(s: Seq<char>) -> Seq<char>
    decreases s.len(),
{
    if s.len() == 0 {
        s
    } else if s.last() == '"' {
        doubled(s.drop_last()).push('"').push('"')
    } else {
        doubled(s.drop_last()).push(s.last())
    }
}

/// A field of a line of comma-separated values: in quotation marks where it holds
/// a comma or a quotation mark.
pub open spec fn csv_field(s: Seq<char>) -> Seq<char> {
    if s.contains(',') || s.contains('"') {
        seq!['"'] + doubled(s) + seq!['"']
    } else {
        s
    }
}

/// A field of a line of comma-separated values.
pub fn csv_escape(s: &str) -> (r: String)
    ensures
        r@ == csv_field(s@),
{
    let chars = chars_of(s);
    if !contains_char(&chars, ',') && !contains_char(&chars, '"') {
        return s.to_owned();
    }
    let mut out = String::new();
    out.push('"');
    let mut i: usize = 0;
    assert(chars@.take(0) =~= Seq::<char>::empty());
    while i < chars.len()
        invariant
            i <= chars@.len(),
            out@ =~= seq!['"'] + doubled(chars@.take(i as int)),
        decreases chars@.len() - i,
    {
        let c = chars[i];
        assert(chars@.take(i + 1).drop_last() =~= chars@.take(i as int));
        if c == '"' {
            out.push('"');
        }
        out.push(c);
        i += 1;
    }
    assert(chars@.take(chars@.len() as int) =~= chars@);
    out.push('"');
    assert(out@ =~= csv_field(s@));
    out
}

/// Every pair of quotation marks once.
pub open spec fn halved(s: Seq<char>) -> Seq<char>
    decreases s.len(),
{
    if s.len() == 0 {
        s
    } else if s.last() == '"' && s.len() >= 2 {
        halved(s.drop_last().drop_last()).push('"')
    } else {
        halved(s.drop_last()).push(s.last())
    }
}

/// What a field says: what is between the quotation marks, with each pair of them
/// read as one, or the field itself.
pub open spec fn csv_value(field: Seq<char>) -> Seq<char> {
    if field.len() >= 2 && field[0] == '"' {
        halved(field.subrange(1, field.len() - 1))
    } else {
        field
    }
}

proof fn halving_undoes_doubling(s: Seq<char>)
    ensures
        halved(doubled(s)) == s,
    decreases s.len(),
{
    if s.len() > 0 {
        let init = doubled(s.drop_last());
        halving_undoes_doubling(s.drop_last());
        assert(s =~= s.drop_last().push(s.last()));
        if s.last() == '"' {
            assert(doubled(s).drop_last().drop_last() =~= init);
        } else {
            assert(doubled(s).drop_last() =~= init);
        }
    }
}

/// A field reads back as what was written into it, whatever commas and quotation
/// marks that holds.
pub proof fn law_csv_fields_read_back(s: Seq<char>)
    ensures
        csv_value(csv_field(s)) == s,
{
    let field = csv_field(s);
    if s.contains(',') || s.contains('"') {
        assert(field.subrange(1, field.len() - 1) =~= doubled(s));
        halving_undoes_doubling(s);
    } else if s.len() >= 2 && s[0] == '"' {
        assert(s.contains(s[0]));
    }
}

/// The head of the export.
pub const CSV_HEAD: &'static str = "timestamp,model,project_dir,input,output,cache_create,cache_read,total";

/// A row of the export.
pub open spec fn csv_line(row: Row) -> Seq<char> {
    bucket::instant_text(row.ts as int) + ","@ + csv_field(row.model@) + ","@ + csv_field(
        row.project_dir@,
    ) + ","@ + text::dec_signed(row.input as int) + ","@ + text::dec_signed(row.output as int)
        + ","@ + text::dec_signed(row.cache_create as int) + ","@ + text::dec_signed(
        row.cache_read as int,
    ) + ","@ + text::dec_signed(row.tokens())
}

fn write_csv_line(row: &Row) -> (r: String)
    ensures
        r@ == csv_line(*row),
{
    let mut out = timestamp_text(row.ts);
    out.append(",");
    out.append(csv_escape(row.model.as_str()).as_str());
    out.append(",");
    out.append(csv_escape(row.project_dir.as_str()).as_str());
    out.append(",");
    push_dec_signed(&mut out, row.input as i128);
    out.append(",");
    push_dec_signed(&mut out, row.output as i128);
    out.append(",");
    push_dec_signed(&mut out, row.cache_create as i128);
    out.append(",");
    push_dec_signed(&mut out, row.cache_read as i128);
    out.append(",");
    push_dec_signed(
        &mut out,
        row.input as i128 + row.output as i128 + row.cache_create as i128 + row.cache_read as i128,
    );
    assert(out@ =~= csv_line(*row));
    out
}

/// The rows as comma-separated values.
pub fn export_csv(rows: &Vec<Row>) -> (r: Vec<String>)
    ensures
        text::texts(r@) == seq![CSV_HEAD@] + rows@.map_values(|row: Row| csv_line(row)),
{
    let ghost want = seq![CSV_HEAD@] + rows@.map_values(|row: Row| csv_line(row));
    let mut lines: Vec<String> = Vec::new();
    assert(text::texts(lines@) =~= Seq::<Seq<char>>::empty());
    push_line(&mut lines, CSV_HEAD.to_owned());
    assert(text::texts(lines@) =~= want.take(1));
    let mut i: usize = 0;
    while i < rows.len()
        invariant
            i <= rows@.len(),
            want == seq![CSV_HEAD@] + rows@.map_values(|row: Row| csv_line(row)),
            text::texts(lines@) =~= want.take(i + 1),
        decreases rows@.len() - i,
    {
        let line = write_csv_line(&rows[i]);
        assert(line@ == want[i + 1]);
        push_line(&mut lines, line);
        i += 1;
    }
    assert(text::texts(lines@) =~= want);
    lines
}

/// An object of a JSON document: its texts and its numbers, by name.
#[derive(Debug, Clone)]
pub struct JsonItem {
    pub texts: Vec<(String, String)>,
    pub numbers: Vec<(String, i64)>,
}

impl View for JsonItem {
    type V = (Seq<(Seq<char>, Seq<char>)>, Seq<(Seq<char>, int)>);

    open spec fn view(&self) -> Self::V {
        (
            self.texts@.map_values(|t: (String, String)| (t.0@, t.1@)),
            self.numbers@.map_values(|n: (String, i64)| (n.0@, n.1 as int)),
        )
    }
}

/// The text of a JSON list of such objects, with indentation.
pub uninterp spec fn pretty_json(
    items: Seq<(Seq<(Seq<char>, Seq<char>)>, Seq<(Seq<char>, int)>)>,
) -> Seq<char>;

/// What the objects of a list say.
pub open spec fn items_said(items: Seq<JsonItem>) -> Seq<
    (Seq<(Seq<char>, Seq<char>)>, Seq<(Seq<char>, int)>),
> {
    items.map_values(|i: JsonItem| i@)
}

/// `serde_json::to_string_pretty` on a list of maps. What it writes depends on the
/// names, texts and numbers alone. It fails only for values that refuse to be
/// written and for keys that are no strings, and here are neither.
#[verifier::external_body]
fn to_pretty(items: &Vec<JsonItem>) -> (r: String)
    ensures
        r@ == pretty_json(items_said(items@)),
{
    let values: Vec<serde_json::Map<String, serde_json::Value>> = items.iter().map(|item| {
        let texts = item.texts.iter().map(|(k, t)| (k.clone(), serde_json::Value::from(t.as_str())));
        let numbers = item.numbers.iter().map(|(k, n)| (k.clone(), serde_json::Value::from(*n)));
        texts.chain(numbers).collect()
    }).collect();
    serde_json::to_string_pretty(&values).unwrap()
}

/// A row of the export as an object.
pub open spec fn json_row(row: Row) -> (Seq<(Seq<char>, Seq<char>)>, Seq<(Seq<char>, int)>) {
    (
        seq![
            ("timestamp"@, bucket::instant_text(row.ts as int)),
            ("model"@, row.model@),
            ("project_dir"@, row.project_dir@),
        ],
        seq![
            ("input"@, row.input as int),
            ("output"@, row.output as int),
            ("cache_create"@, row.cache_create as int),
            ("cache_read"@, row.cache_read as int),
            ("total"@, row.tokens()),
        ],
    )
}

/// Every row comes to a total that can be counted.
pub open spec fn countable(rows: Seq<Row>) -> bool {
    forall|i: int| 0 <= i < rows.len() ==> i64::MIN <= (#[trigger] rows[i]).tokens() <= i64::MAX
}

fn json_item(row: &Row) -> (r: JsonItem)
    requires
        i64::MIN <= row.tokens() <= i64::MAX,
    ensures
        r@ == json_row(*row),
{
    let mut texts: Vec<(String, String)> = Vec::new();
    texts.push(("timestamp".to_owned(), timestamp_text(row.ts)));
    texts.push(("model".to_owned(), row.model.as_str().to_owned()));
    texts.push(("project_dir".to_owned(), row.project_dir.as_str().to_owned()));
    let mut numbers: Vec<(String, i64)> = Vec::new();
    numbers.push(("input".to_owned(), row.input));
    numbers.push(("output".to_owned(), row.output));
    numbers.push(("cache_create".to_owned(), row.cache_create));
    numbers.push(("cache_read".to_owned(), row.cache_read));
    numbers.push(("total".to_owned(), row.total()));
    let r = JsonItem { texts, numbers };
    assert(r@.0 =~= json_row(*row).0);
    assert(r@.1 =~= json_row(*row).1);
    r
}

/// The rows as objects of a JSON document.
pub fn json_items(rows: &Vec<Row>) -> (r: Vec<JsonItem>)
    requires
        countable(rows@),
    ensures
        items_said(r@) == rows@.map_values(|row: Row| json_row(row)),
{
    let ghost want = rows@.map_values(|row: Row| json_row(row));
    let mut items: Vec<JsonItem> = Vec::new();
    let mut i: usize = 0;
    while i < rows.len()
        invariant
            i <= rows@.len(),
            countable(rows@),
            want == rows@.map_values(|row: Row| json_row(row)),
            items_said(items@) =~= want.take(i as int),
        decreases rows@.len() - i,
    {
        let ghost before = items@;
        assert(i64::MIN <= rows@[i as int].tokens() <= i64::MAX);
        let item = json_item(&rows[i]);
        items.push(item);
        assert(items_said(items@) =~= items_said(before).push(item@));
        i += 1;
    }
    assert(items_said(items@) =~= want);
    items
}

/// The rows as a JSON document.
pub fn export_json(rows: &Vec<Row>) -> (r: String)
    requires
        countable(rows@),
    ensures
        r@ == pretty_json(rows@.map_values(|row: Row| json_row(row))),
{
    to_pretty(&json_items(rows))
}

// ---------------------------------------------------------------------------
// What stands where
// ---------------------------------------------------------------------------

/// The larger of two lengths.
pub open spec fn larger(a: nat, b: nat) -> nat {
    if a < b {
        b
    } else {
        a
    }
}

/// The cell holds `s` at its left and spaces behind it.
pub open spec fn stands_left(cell: Seq<char>, s: Seq<char>, width: nat) -> bool {
    &&& cell.len() == larger(width, s.len())
    &&& cell.take(s.len() as int) == s
    &&& forall|i: int| s.len() <= i < cell.len() ==> #[trigger] cell[i] == ' '
}

/// The cell holds `s` at its right and spaces before it.
pub open spec fn stands_right(cell: Seq<char>, s: Seq<char>, width: nat) -> bool {
    &&& cell.len() == larger(width, s.len())
    &&& cell.skip(cell.len() - s.len()) == s
    &&& forall|i: int| 0 <= i < cell.len() - s.len() ==> #[trigger] cell[i] == ' '
}

/// The line shows an id on the left of 38 characters, a count and a day on the
/// right of twelve each, and a project behind them, with one space behind the
/// first two and two behind the third.
pub open spec fn session_line_shows(
    line: Seq<char>,
    id: Seq<char>,
    count: Seq<char>,
    day: Seq<char>,
    project: Seq<char>,
) -> bool {
    let a = larger(38, id.len()) as int;
    let b = a + 1 + larger(12, count.len());
    let c = b + 1 + larger(12, day.len());
    &&& line.len() == c + 2 + project.len()
    &&& stands_left(line.subrange(0, a), id, 38)
    &&& line[a] == ' '
    &&& stands_right(line.subrange(a + 1, b), count, 12)
    &&& line[b] == ' '
    &&& stands_right(line.subrange(b + 1, c), day, 12)
    &&& line[c] == ' ' && line[c + 1] == ' '
    &&& line.skip(c + 2) == project
}

#[verifier::rlimit(50)]
proof fn session_columns_show(a: Seq<char>, b: Seq<char>, c: Seq<char>, d: Seq<char>)
    ensures
        session_line_shows(session_columns(a, b, c, d), a, b, c, d),
{
    reveal_strlit(" ");
    reveal_strlit("  ");
    let line = session_columns(a, b, c, d);
    text::law_how_texts_are_aligned(a, 38);
    text::law_how_texts_are_aligned(b, 12);
    text::law_how_texts_are_aligned(c, 12);
    let x = larger(38, a.len()) as int;
    let y = x + 1 + larger(12, b.len());
    let z = y + 1 + larger(12, c.len());
    assert(line.subrange(0, x) =~= text::left_aligned(a, 38));
    assert(line.subrange(x + 1, y) =~= text::right_aligned(b, 12));
    assert(line.subrange(y + 1, z) =~= text::right_aligned(c, 12));
    assert(line.skip(z + 2) =~= d);
}

/// Line `i + 1` of the list of sessions shows session `i`: its own id, its own
/// tokens, its own label and its own project, each in its column, behind a line of
/// heads.
pub proof fn law_a_line_shows_its_own_session(
    sessions: &Vec<SessionRow>,
    labels: &Vec<String>,
    home: &str,
    lines: Vec<String>,
    i: int,
)
    requires
        labels@.len() == sessions@.len(),
        call_ensures(sessions_of, (sessions, labels, home), lines),
    ensures
        lines@.len() == sessions@.len() + 1,
        session_line_shows(lines@[0]@, "session"@, "tokens"@, "last seen"@, "project"@),
        0 <= i < sessions@.len() ==> session_line_shows(
            lines@[i + 1]@,
            sessions@[i].session_id@,
            thousands_text(sessions@[i].tokens as int),
            labels@[i]@,
            render::from_home(sessions@[i].project_dir@, home@),
        ),
{
    let shown = text::texts(lines@);
    assert(shown.len() == lines@.len());
    assert(shown[0] == lines@[0]@);
    session_columns_show("session"@, "tokens"@, "last seen"@, "project"@);
    if 0 <= i < sessions@.len() {
        assert(shown[i + 1] == lines@[i + 1]@);
        assert(text::texts(labels@)[i] == labels@[i]@);
        session_columns_show(
            sessions@[i].session_id@,
            thousands_text(sessions@[i].tokens as int),
            labels@[i]@,
            render::from_home(sessions@[i].project_dir@, home@),
        );
    }
}

/// Line `i + 1` of the list of sessions shows, in its third column, the label of
/// the day of session `i`'s own `last_seen`, beside its own id, tokens and project.
pub proof fn law_a_session_is_shown_on_its_own_last_day(
    rows: &Vec<SessionRow>,
    zone: &Zone,
    home: &str,
    lines: Vec<String>,
    i: int,
)
    requires
        zone.valid(),
        call_ensures(sessions, (rows, zone, home), lines),
        0 <= i < rows@.len(),
    ensures
        lines@.len() == rows@.len() + 1,
        exists|day: Seq<char>|
            #![trigger bucket::day_labelled(*zone, rows@[i].last_seen, day)]
            bucket::day_labelled(*zone, rows@[i].last_seen, day) && session_line_shows(
                lines@[i + 1]@,
                rows@[i].session_id@,
                thousands_text(rows@[i].tokens as int),
                day,
                render::from_home(rows@[i].project_dir@, home@),
            ),
{
    let shown = text::texts(lines@);
    assert(shown.len() == lines@.len());
    let labels = choose|labels: Seq<Seq<char>>| #[trigger]
        days_labelled(rows@, *zone, labels) && shown == session_lines(rows@, labels, home@);
    assert(shown[i + 1] == lines@[i + 1]@);
    let day = labels[i];
    let row = rows@[i];
    assert(bucket::day_labelled(*zone, rows@[i].last_seen, day));
    session_columns_show(
        row.session_id@,
        thousands_text(row.tokens as int),
        day,
        render::from_home(row.project_dir@, home@),
    );
}

/// Without sessions the list says so.
pub proof fn law_no_sessions_are_said_to_be_none(
    rows: &Vec<SessionRow>,
    zone: &Zone,
    home: &str,
    lines: Vec<String>,
)
    requires
        zone.valid(),
        call_ensures(sessions, (rows, zone, home), lines),
        rows@.len() == 0,
    ensures
        lines@.len() == 1,
        lines@[0]@ == "No sessions recorded."@,
{
    let shown = text::texts(lines@);
    assert(shown.len() == lines@.len());
    assert(shown[0] == lines@[0]@);
}

/// The widths of the columns of sums.
pub open spec fn sum_widths() -> Seq<nat> {
    seq![8nat, 12, 12, 13, 13, 14]
}

/// Where column `k` of a line of sums begins, in a line whose first column holds
/// `first`.
pub open spec fn column_begins(first: Seq<char>, width: nat, cells: Seq<Seq<char>>, k: nat) -> int
    decreases k,
{
    if k == 0 {
        larger(width, first.len()) as int + 1
    } else {
        let j = (k - 1) as nat;
        column_begins(first, width, cells, j) + larger(
            sum_widths()[j as int],
            cells[j as int].len(),
        ) + 1
    }
}

/// The line shows `first` on the left and the six cells on the right, each in its
/// own column, with one space between each two.
#[verifier::opaque]
pub open spec fn line_shows(
    line: Seq<char>,
    first: Seq<char>,
    width: nat,
    cells: Seq<Seq<char>>,
) -> bool {
    &&& cells.len() == 6
    &&& line.len() + 1 == column_begins(first, width, cells, 6)
    &&& stands_left(line.subrange(0, larger(width, first.len()) as int), first, width)
    &&& forall|k: nat|
        k < 6 ==> line[#[trigger] column_begins(first, width, cells, k) - 1] == ' '
            && stands_right(
            line.subrange(
                column_begins(first, width, cells, k),
                column_begins(first, width, cells, k + 1) - 1,
            ),
            cells[k as int],
            sum_widths()[k as int],
        )
}

/// What follows a beginning of a line stands behind it.
#[verifier::rlimit(50)]
proof fn next_column(line: Seq<char>, p: Seq<char>, r: Seq<char>)
    requires
        (p + r + " "@).is_prefix_of(line),
    ensures
        p.is_prefix_of(line),
        line.subrange(p.len() as int, p.len() as int + r.len()) == r,
        line[p.len() as int + r.len()] == ' ',
        line.len() >= p.len() + r.len() + 1,
{
    reveal_strlit(" ");
    let q = p + r + " "@;
    assert(p =~= line.subrange(0, p.len() as int)) by {
        assert forall|i: int| 0 <= i < p.len() implies p[i] == line[i] by {
            assert(q[i] == line[i]);
        }
    }
    assert(line.subrange(p.len() as int, p.len() as int + r.len()) =~= r) by {
        assert forall|i: int| 0 <= i < r.len() implies r[i] == line[p.len() + i] by {
            assert(q[p.len() + i] == line[p.len() + i]);
        }
    }
    assert(q[p.len() as int + r.len()] == line[p.len() as int + r.len()]);
}

#[verifier::spinoff_prover]
#[verifier::rlimit(50)]
proof fn columns_show(first: Seq<char>, width: nat, cells: Seq<Seq<char>>)
    requires
        cells.len() == 6,
    ensures
        line_shows(columns(first, width, cells), first, width, cells),
{
    let line = columns(first, width, cells);
    text::law_how_texts_are_aligned(first, width);
    text::law_how_texts_are_aligned(cells[0], 8);
    text::law_how_texts_are_aligned(cells[1], 12);
    text::law_how_texts_are_aligned(cells[2], 12);
    text::law_how_texts_are_aligned(cells[3], 13);
    text::law_how_texts_are_aligned(cells[4], 13);
    text::law_how_texts_are_aligned(cells[5], 14);
    let l = text::left_aligned(first, width);
    let r0 = text::right_aligned(cells[0], 8);
    let r1 = text::right_aligned(cells[1], 12);
    let r2 = text::right_aligned(cells[2], 12);
    let r3 = text::right_aligned(cells[3], 13);
    let r4 = text::right_aligned(cells[4], 13);
    let r5 = text::right_aligned(cells[5], 14);
    let p0 = l + " "@;
    let p1 = p0 + r0 + " "@;
    let p2 = p1 + r1 + " "@;
    let p3 = p2 + r2 + " "@;
    let p4 = p3 + r3 + " "@;
    let p5 = p4 + r4 + " "@;
    assert(line == p5 + r5);
    assert(p5 =~= line.subrange(0, p5.len() as int));
    assert(line.subrange(p5.len() as int, p5.len() as int + r5.len()) =~= r5);
    next_column(line, p4, r4);
    next_column(line, p3, r3);
    next_column(line, p2, r2);
    next_column(line, p1, r1);
    next_column(line, p0, r0);
    assert(Seq::<char>::empty() + l + " "@ =~= p0);
    next_column(line, Seq::empty(), l);
    reveal_strlit(" ");
    columns_begin(first, width, cells);
    reveal(line_shows);
    assert forall|k: nat| k < 6 implies line[#[trigger] column_begins(first, width, cells, k) - 1]
        == ' ' && stands_right(
        line.subrange(
            column_begins(first, width, cells, k),
            column_begins(first, width, cells, k + 1) - 1,
        ),
        cells[k as int],
        sum_widths()[k as int],
    ) by {
        if k == 0 {
            assert(column_begins(first, width, cells, k) == p0.len());
        } else if k == 1 {
            assert(column_begins(first, width, cells, k) == p1.len());
        } else if k == 2 {
            assert(column_begins(first, width, cells, k) == p2.len());
        } else if k == 3 {
            assert(column_begins(first, width, cells, k) == p3.len());
        } else if k == 4 {
            assert(column_begins(first, width, cells, k) == p4.len());
        } else {
            assert(k == 5);
            assert(column_begins(first, width, cells, k) == p5.len());
        }
    }
}

proof fn columns_begin(first: Seq<char>, width: nat, cells: Seq<Seq<char>>)
    ensures
        column_begins(first, width, cells, 0) == larger(width, first.len()) + 1,
        column_begins(first, width, cells, 1) == column_begins(first, width, cells, 0) + larger(
            8,
            cells[0].len(),
        ) + 1,
        column_begins(first, width, cells, 2) == column_begins(first, width, cells, 1) + larger(
            12,
            cells[1].len(),
        ) + 1,
        column_begins(first, width, cells, 3) == column_begins(first, width, cells, 2) + larger(
            12,
            cells[2].len(),
        ) + 1,
        column_begins(first, width, cells, 4) == column_begins(first, width, cells, 3) + larger(
            13,
            cells[3].len(),
        ) + 1,
        column_begins(first, width, cells, 5) == column_begins(first, width, cells, 4) + larger(
            13,
            cells[4].len(),
        ) + 1,
        column_begins(first, width, cells, 6) == column_begins(first, width, cells, 5) + larger(
            14,
            cells[5].len(),
        ) + 1,
{
    assert(sum_widths()[0] == 8 && sum_widths()[1] == 12 && sum_widths()[2] == 12
        && sum_widths()[3] == 13 && sum_widths()[4] == 13 && sum_widths()[5] == 14);
}

/// The cells of a line of sums, in order: the requests, the input, the output, the
/// writes, the reads, and all four kinds of tokens together.
pub open spec fn shows_sums(line: Seq<char>, first: Seq<char>, width: nat, t: Tally) -> bool {
    line_shows(
        line,
        first,
        width,
        seq![
            thousands_text(t.requests),
            thousands_text(t.input),
            thousands_text(t.output),
            thousands_text(t.cache_create),
            thousands_text(t.cache_read),
            thousands_text(t.input + t.output + t.cache_create + t.cache_read),
        ],
    )
}

/// The heads of the columns, in the order of the sums.
pub open spec fn shows_heads(line: Seq<char>, first: Seq<char>, width: nat) -> bool {
    line_shows(
        line,
        first,
        width,
        seq!["requests"@, "input"@, "output"@, "cache-create"@, "cache-read"@, "total"@],
    )
}

proof fn sums_show(first: Seq<char>, width: nat, t: Tally)
    ensures
        shows_sums(columns(first, width, tally_cells(t)), first, width, t),
        shows_heads(columns(first, width, heads()), first, width),
{
    columns_show(first, width, tally_cells(t));
    columns_show(first, width, heads());
}

/// A line of sums shows each sum under its own head, and the head shows the names
/// in the same order.
pub proof fn law_each_sum_stands_under_its_head(
    name: &str,
    t: &Totals,
    width: usize,
    line: String,
    head: String,
)
    requires
        t@.of_at_most(MANY as int),
        call_ensures(row_line, (name, t, width), line),
        call_ensures(header, (name, width), head),
    ensures
        shows_heads(head@, name@, width as nat),
        line_shows(
            line@,
            name@,
            width as nat,
            seq![
                thousands_text(t.requests as int),
                thousands_text(t.input as int),
                thousands_text(t.output as int),
                thousands_text(t.cache_create as int),
                thousands_text(t.cache_read as int),
                thousands_text(t.input + t.output + t.cache_create + t.cache_read),
            ],
        ),
{
    sums_show(name@, width as nat, t@);
}

/// A number is grouped from its end: counted from there, every fourth character
/// and no other is a space, a minus aside.
pub proof fn law_thousands_are_grouped_from_the_end(n: nat, k: int)
    requires
        0 <= k < thousands_text(n as int).len(),
    ensures
        thousands_text(n as int)[thousands_text(n as int).len() - 1 - k] == ' ' <==> k % 4 == 3,
        n > 0 ==> thousands_text(-(n as int)) == seq!['-'] + thousands_text(n as int),
{
    text::dec_digits(n);
    text::dec_nonempty(n);
    let d = text::dec(n);
    assert(!d.contains(' '));
    text::law_where_separators_stand(d, ' ');
}

/// A table has a head and a line for each group, in order, which shows the group's
/// own label and its own sums. Each label is shown from the home directory.
#[verifier::rlimit(50)]
pub proof fn law_a_table_shows_every_group(
    title: Seq<char>,
    groups: Seq<Group>,
    home: Seq<char>,
    i: int,
)
    requires
        0 <= i < groups.len(),
    ensures
        table_lines(title, groups, home).len() == groups.len() + 1,
        shows_heads(table_lines(title, groups, home)[0], title, table_width(title, groups, home)),
        shows_sums(
            table_lines(title, groups, home)[i + 1],
            render::from_home(groups[i].label@, home),
            table_width(title, groups, home),
            groups[i].totals@,
        ),
        table_width(title, groups, home) == byte_len(title) || exists|j: int|
            0 <= j < groups.len() && table_width(title, groups, home) == byte_len(
                render::from_home((#[trigger] groups[j]).label@, home),
            ),
        table_width(title, groups, home) >= byte_len(title),
        table_width(title, groups, home) >= byte_len(render::from_home(groups[i].label@, home)),
{
    sums_show(title, table_width(title, groups, home), Tally::zero());
    sums_show(
        render::from_home(groups[i].label@, home),
        table_width(title, groups, home),
        groups[i].totals@,
    );
    let labels = shown_labels(groups, home);
    let width = table_width(title, groups, home);
    law_the_widest_fits_all(labels, groups.len(), byte_len(title));
    assert(labels[i] == render::from_home(groups[i].label@, home));
    if width != byte_len(title) {
        let j = choose|j: int| 0 <= j < groups.len() && byte_len(#[trigger] labels[j]) == width;
        assert(labels[j] == render::from_home(groups[j].label@, home));
    }
}

/// The widest of some texts is wide enough for each of them, and no wider than one
/// of them or the least asks for.
pub proof fn law_the_widest_fits_all(texts: Seq<Seq<char>>, n: nat, least: nat)
    requires
        n <= texts.len(),
    ensures
        widest(texts, n, least) >= least,
        forall|i: int| 0 <= i < n ==> byte_len(#[trigger] texts[i]) <= widest(texts, n, least),
        widest(texts, n, least) == least || exists|i: int|
            0 <= i < n && byte_len(#[trigger] texts[i]) == widest(texts, n, least),
    decreases n,
{
    if n > 0 {
        let k = (n - 1) as nat;
        law_the_widest_fits_all(texts, k, least);
        if byte_len(texts[k as int]) > widest(texts, k, least) {
            assert(byte_len(texts[k as int]) == widest(texts, n, least));
        }
    }
}

/// A breakdown shows the heads, then each group in order under its own title and
/// with its own sums, then, behind an empty line, the sums over all rows.
#[verifier::rlimit(50)]
pub proof fn law_a_breakdown_shows_every_group(
    rows: &Vec<Row>,
    labels: &Vec<String>,
    by: Option<GroupBy>,
    home: &str,
    lines: Vec<String>,
)
    requires
        rows@.len() < MANY,
        labels@.len() == rows@.len(),
        call_ensures(breakdown_of, (rows, labels, by, home), lines),
    ensures
        exists|groups: Seq<Group>, width: nat|
            #![trigger breakdown_shows(text::texts(lines@), groups, width, tally_all(rows@, rows@.len()))]
            is_grouping(
                groups,
                rows@,
                Keys { labels: text::texts(labels@), names: names_of(rows@, by, home@) },
                rows@.len(),
            ) && breakdown_shows(
                text::texts(lines@),
                groups,
                width,
                tally_all(rows@, rows@.len()),
            ) && (by is None ==> width == 10),
{
    let total = tally_all(rows@, rows@.len());
    let shown = text::texts(lines@);
    assert(shown.len() == lines@.len());
    let keys = Keys { labels: text::texts(labels@), names: names_of(rows@, by, home@) };
    let groups = choose|groups: Seq<Group>|
        #![trigger breakdown_lines(groups, by, total)]
        is_grouping(groups, rows@, keys, rows@.len()) && shown == breakdown_lines(
            groups,
            by,
            total,
        );
    let width = breakdown_width(groups, by);
    sums_show(""@, width, total);
    sums_show("TOTAL"@, width, total);
    assert forall|i: int| 0 <= i < groups.len() implies titled(
        #[trigger] shown[i + 1],
        groups[i],
        width,
    ) by {
        sums_show(group_title(groups[i]), width, groups[i].totals@);
        assert(shown[i + 1] == columns(
            group_title(groups[i]),
            width,
            tally_cells(groups[i].totals@),
        ));
    }
    assert(breakdown_shows(shown, groups, width, total));
}

/// The line shows the sums of a group under its label, and behind two spaces its
/// name if it has one.
pub open spec fn titled(line: Seq<char>, g: Group, width: nat) -> bool {
    &&& g.name@.len() == 0 ==> shows_sums(line, g.label@, width, g.totals@)
    &&& g.name@.len() > 0 ==> shows_sums(line, g.label@ + "  "@ + g.name@, width, g.totals@)
}

/// The heads, a line for each group, an empty line, and the total.
pub open spec fn breakdown_shows(
    lines: Seq<Seq<char>>,
    groups: Seq<Group>,
    width: nat,
    total: Tally,
) -> bool {
    &&& lines.len() == groups.len() + 3
    &&& shows_heads(lines[0], ""@, width)
    &&& forall|i: int| 0 <= i < groups.len() ==> titled(#[trigger] lines[i + 1], groups[i], width)
    &&& lines[lines.len() - 2].len() == 0
    &&& shows_sums(lines[lines.len() - 1], "TOTAL"@, width, total)
}

/// Within a period rows are told apart by the model, by the project as it is seen
/// from the home directory, or not at all.
pub proof fn law_what_rows_are_told_apart_by(rows: Seq<Row>, home: Seq<char>, i: int)
    requires
        0 <= i < rows.len(),
    ensures
        names_of(rows, Some(GroupBy::Model), home)[i] == rows[i].model@,
        names_of(rows, Some(GroupBy::Project), home)[i] == render::from_home(
            rows[i].project_dir@,
            home,
        ),
        names_of(rows, None, home)[i].len() == 0,
        models(rows)[i] == rows[i].model@,
        projects(rows)[i] == rows[i].project_dir@,
{
}

/// A period is named by the label of its own kind.
pub proof fn law_a_period_is_named_by_its_kind(zone: Zone, ts: i64, label: Seq<char>)
    ensures
        period_labelled(Period::Day, zone, ts, label) <==> bucket::day_labelled(zone, ts, label),
        period_labelled(Period::Week, zone, ts, label) <==> bucket::week_labelled(zone, ts, label),
        period_labelled(Period::Month, zone, ts, label) <==> bucket::month_labelled(
            zone,
            ts,
            label,
        ),
{
}

/// Each row of a breakdown is filed under the label of its own time.
pub proof fn law_a_breakdown_goes_by_each_rows_own_time(
    rows: &Vec<Row>,
    by: Option<GroupBy>,
    period: Period,
    zone: &Zone,
    home: &str,
    lines: Vec<String>,
)
    requires
        rows@.len() < MANY,
        zone.valid(),
        call_ensures(breakdown, (rows, by, period, zone, home), lines),
    ensures
        rows@.len() == 0 ==> lines@.len() == 1 && lines@[0]@ == "No requests in range."@,
        rows@.len() > 0 ==> exists|labels: Seq<Seq<char>>|
            #![trigger is_breakdown(text::texts(lines@), rows@, labels, by, home@)]
            is_breakdown(text::texts(lines@), rows@, labels, by, home@) && labels.len()
                == rows@.len() && forall|i: int|
                #![trigger labels[i]]
                0 <= i < rows@.len() ==> (match period {
                    Period::Day => bucket::day_labelled(*zone, rows@[i].ts, labels[i]),
                    Period::Week => bucket::week_labelled(*zone, rows@[i].ts, labels[i]),
                    Period::Month => bucket::month_labelled(*zone, rows@[i].ts, labels[i]),
                }),
{
    let shown = text::texts(lines@);
    assert(shown.len() == lines@.len());
    if rows@.len() == 0 {
        assert(shown[0] == lines@[0]@);
    } else {
        let labels = choose|labels: Seq<Seq<char>>| #[trigger]
            periods_labelled(rows@, period, *zone, labels) && is_breakdown(
                shown,
                rows@,
                labels,
                by,
                home@,
            );
        assert forall|i: int|
            #![trigger labels[i]]
            0 <= i < rows@.len() implies (match period {
            Period::Day => bucket::day_labelled(*zone, rows@[i].ts, labels[i]),
            Period::Week => bucket::week_labelled(*zone, rows@[i].ts, labels[i]),
            Period::Month => bucket::month_labelled(*zone, rows@[i].ts, labels[i]),
        }) by {
            assert(period_labelled(period, *zone, rows@[i].ts, labels[i]));
        }
    }
}

/// A summary says the span of days and the number of requests, shows the rows by
/// model and by project, and ends in the sums over all rows.
#[verifier::rlimit(50)]
pub proof fn law_what_a_summary_shows(
    lines: Seq<Seq<char>>,
    rows: Seq<Row>,
    first: Seq<char>,
    last: Seq<char>,
    home: Seq<char>,
)
    requires
        is_summary(lines, rows, first, last, home),
    ensures
        lines[0] == first + " .. "@ + last + "   "@ + text::dec(rows.len()) + " requests"@,
        exists|m: Seq<Group>, p: Seq<Group>|
            #![trigger table_lines("model"@, m, home), table_lines("project"@, p, home)]
            is_grouping(
                m,
                rows,
                Keys { labels: models(rows), names: blanks(rows.len()) },
                rows.len(),
            ) && is_grouping(
                p,
                rows,
                Keys { labels: projects(rows), names: blanks(rows.len()) },
                rows.len(),
            ) && lines.len() == m.len() + p.len() + 7 && lines.subrange(2, 3int + m.len())
                == table_lines("model"@, m, home) && lines.subrange(
                4int + m.len(),
                5int + m.len() + p.len(),
            ) == table_lines("project"@, p, home) && shows_sums(
                lines.last(),
                "TOTAL"@,
                table_width("project"@, p, home),
                tally_all(rows, rows.len()),
            ) && lines[1].len() == 0 && lines[3int + m.len()].len() == 0 && lines[lines.len()
                - 2].len() == 0,
{
    let total = tally_all(rows, rows.len());
    law_the_total_counts_every_row(rows, rows.len());
    let (m, p) = choose|m: Seq<Group>, p: Seq<Group>|
        #![trigger summary_lines(total, m, p, first, last, home)]
        is_grouping(m, rows, Keys { labels: models(rows), names: blanks(rows.len()) }, rows.len())
            && is_grouping(
            p,
            rows,
            Keys { labels: projects(rows), names: blanks(rows.len()) },
            rows.len(),
        ) && lines == summary_lines(total, m, p, first, last, home);
    where_summary_lines_stand(total, m, p, first, last, home);
    sums_show("TOTAL"@, table_width("project"@, p, home), total);
}

#[verifier::spinoff_prover]
proof fn where_summary_lines_stand(
    total: Tally,
    m: Seq<Group>,
    p: Seq<Group>,
    first: Seq<char>,
    last: Seq<char>,
    home: Seq<char>,
)
    ensures
        ({
            let lines = summary_lines(total, m, p, first, last, home);
            &&& lines.len() == m.len() + p.len() + 7
            &&& lines[0] == first + " .. "@ + last + "   "@ + text::dec(total.requests as nat)
                + " requests"@
            &&& lines[1].len() == 0
            &&& lines.subrange(2, 3int + m.len()) == table_lines("model"@, m, home)
            &&& lines[3int + m.len()].len() == 0
            &&& lines.subrange(4int + m.len(), 5int + m.len() + p.len()) == table_lines(
                "project"@,
                p,
                home,
            )
            &&& lines[lines.len() - 2].len() == 0
            &&& lines.last() == columns(
                "TOTAL"@,
                table_width("project"@, p, home),
                tally_cells(total),
            )
        }),
{
    let a = table_lines("model"@, m, home);
    let b = table_lines("project"@, p, home);
    assert(a.len() == m.len() + 1 && b.len() == p.len() + 1);
    let head = seq![
        first + " .. "@ + last + "   "@ + text::dec(total.requests as nat) + " requests"@,
        Seq::<char>::empty(),
    ];
    let blank = seq![Seq::<char>::empty()];
    let end = seq![
        Seq::<char>::empty(),
        columns("TOTAL"@, table_width("project"@, p, home), tally_cells(total)),
    ];
    pieces_stand_in_order(head, a, blank, b, end);
}

/// Where each of five lists stands when they are put behind each other.
proof fn pieces_stand_in_order(
    x: Seq<Seq<char>>,
    a: Seq<Seq<char>>,
    y: Seq<Seq<char>>,
    b: Seq<Seq<char>>,
    z: Seq<Seq<char>>,
)
    requires
        x.len() == 2,
        y.len() == 1,
        z.len() == 2,
    ensures
        ({
            let all = x + a + y + b + z;
            let m = a.len() as int;
            let n = b.len() as int;
            &&& all.len() == 5 + m + n
            &&& all[0] == x[0] && all[1] == x[1]
            &&& all.subrange(2, 2 + m) == a
            &&& all[2 + m] == y[0]
            &&& all.subrange(3 + m, 3 + m + n) == b
            &&& all[all.len() - 2] == z[0] && all.last() == z[1]
        }),
{
    let all = x + a + y + b + z;
    let m = a.len() as int;
    let n = b.len() as int;
    assert(all.subrange(2, 2 + m) =~= a);
    assert(all.subrange(3 + m, 3 + m + n) =~= b);
}

/// The span of a summary is from the day of the first row to that of the last.
pub proof fn law_a_summary_spans_its_rows(
    rows: &Vec<Row>,
    zone: &Zone,
    home: &str,
    lines: Vec<String>,
)
    requires
        rows@.len() < MANY,
        zone.valid(),
        call_ensures(summary, (rows, zone, home), lines),
    ensures
        rows@.len() > 0 ==> exists|first: Seq<char>, last: Seq<char>|
            #![trigger is_summary(text::texts(lines@), rows@, first, last, home@)]
            is_summary(text::texts(lines@), rows@, first, last, home@) && bucket::day_labelled(
                *zone,
                rows@.first().ts,
                first,
            ) && bucket::day_labelled(*zone, rows@.last().ts, last),
        rows@.len() == 0 ==> lines@.len() == 1 && lines@[0]@
            == "No requests in range. Run `cc-usage backfill` if the ledger is new."@,
{
    let shown = text::texts(lines@);
    assert(shown.len() == lines@.len());
    if rows@.len() == 0 {
        assert(shown[0] == lines@[0]@);
    }
}

/// Each sum of a total grows by the same field of the row that is added, and the
/// number of requests by one.
pub proof fn law_each_sum_is_of_its_own_field(rows: Seq<Row>, row: Row)
    ensures
        ({
            let before = tally_all(rows, rows.len());
            let after = tally_all(rows.push(row), rows.len() + 1);
            &&& after.requests - before.requests == 1
            &&& after.input - before.input == row.input
            &&& after.output - before.output == row.output
            &&& after.cache_create - before.cache_create == row.cache_create
            &&& after.cache_read - before.cache_read == row.cache_read
            &&& after.tokens() - before.tokens() == row.input + row.output + row.cache_create
                + row.cache_read
        }),
        tally_all(Seq::empty(), 0) == (Tally {
            requests: 0,
            input: 0,
            output: 0,
            cache_create: 0,
            cache_read: 0,
        }),
{
    same_rows_same_total(rows, rows.push(row), rows.len());
}

proof fn same_rows_same_total(a: Seq<Row>, b: Seq<Row>, n: nat)
    requires
        n <= a.len(),
        n <= b.len(),
        forall|i: int| 0 <= i < n ==> a[i] == b[i],
    ensures
        tally_all(a, n) == tally_all(b, n),
    decreases n,
{
    if n > 0 {
        same_rows_same_total(a, b, (n - 1) as nat);
    }
}

/// One row is one group: of its own label and name, with its own counts.
pub proof fn law_one_row_is_one_group(groups: Seq<Group>, row: Row, keys: Keys)
    requires
        is_grouping(groups, seq![row], keys, 1),
    ensures
        groups.len() == 1,
        groups[0].label@ == keys.labels[0],
        groups[0].name@ == keys.names[0],
        groups[0].totals.requests == 1,
        groups[0].totals.input == row.input,
        groups[0].totals.output == row.output,
        groups[0].totals.cache_create == row.cache_create,
        groups[0].totals.cache_read == row.cache_read,
{
    reveal_with_fuel(tally_of, 2);
    assert(filed(groups, keys, 0));
    assert forall|g: int| 0 <= g < groups.len() implies keys.at(
        0,
        (#[trigger] groups[g]).label@,
        groups[g].name@,
    ) by {
        assert(occurs(groups[g], keys, 1));
    }
    if groups.len() > 1 {
        let a = groups[0];
        let b = groups[1];
        assert(a.label@ == b.label@ && a.name@ == b.name@);
        key_lt_irreflexive(a.label@, a.name@);
    }
    assert(occurs(groups[0], keys, 1));
    let t = groups[0].totals@;
    assert(t == tally_of(seq![row], keys, groups[0].label@, groups[0].name@, 1));
}

/// Groups sort by label, and by name within a label only.
pub proof fn law_groups_sort_by_label_first(
    label: Seq<char>,
    other: Seq<char>,
    a: Seq<char>,
    b: Seq<char>,
)
    ensures
        text::text_lt(label, other) ==> key_lt(label, a, other, b) && !key_lt(other, b, label, a),
        key_lt(label, a, label, b) <==> text::text_lt(a, b),
{
    text::text_lt_irreflexive(label);
    if text::text_lt(label, other) && key_lt(other, b, label, a) {
        if text::text_lt(other, label) {
            text::text_lt_transitive(label, other, label);
        }
    }
}

/// A line of the export is its eight fields, in the order of the head, with commas
/// between them; its last field is the sum of the four before it.
#[verifier::rlimit(50)]
pub proof fn law_an_exported_line_holds_its_row(row: Row)
    ensures
        csv_line(row) == text::joined(
            seq![
                bucket::instant_text(row.ts as int),
                csv_field(row.model@),
                csv_field(row.project_dir@),
                text::dec_signed(row.input as int),
                text::dec_signed(row.output as int),
                text::dec_signed(row.cache_create as int),
                text::dec_signed(row.cache_read as int),
                text::dec_signed(row.input + row.output + row.cache_create + row.cache_read),
            ],
            ","@,
        ),
{
    let a = bucket::instant_text(row.ts as int);
    let b = csv_field(row.model@);
    let c = csv_field(row.project_dir@);
    let d = text::dec_signed(row.input as int);
    let e = text::dec_signed(row.output as int);
    let f = text::dec_signed(row.cache_create as int);
    let g = text::dec_signed(row.cache_read as int);
    let h = text::dec_signed(row.tokens());
    let sep = ","@;
    text::law_how_parts_are_joined(seq![a], b, sep);
    text::law_how_parts_are_joined(seq![a, b], c, sep);
    text::law_how_parts_are_joined(seq![a, b, c], d, sep);
    text::law_how_parts_are_joined(seq![a, b, c, d], e, sep);
    text::law_how_parts_are_joined(seq![a, b, c, d, e], f, sep);
    text::law_how_parts_are_joined(seq![a, b, c, d, e, f], g, sep);
    text::law_how_parts_are_joined(seq![a, b, c, d, e, f, g], h, sep);
    assert(seq![a].push(b) =~= seq![a, b]);
    assert(seq![a, b].push(c) =~= seq![a, b, c]);
    assert(seq![a, b, c].push(d) =~= seq![a, b, c, d]);
    assert(seq![a, b, c, d].push(e) =~= seq![a, b, c, d, e]);
    assert(seq![a, b, c, d, e].push(f) =~= seq![a, b, c, d, e, f]);
    assert(seq![a, b, c, d, e, f].push(g) =~= seq![a, b, c, d, e, f, g]);
    assert(seq![a, b, c, d, e, f, g].push(h) =~= seq![a, b, c, d, e, f, g, h]);
}

/// The export has a line for the head and one for each row, in order.
pub proof fn law_every_row_is_exported(rows: &Vec<Row>, lines: Vec<String>, i: int)
    requires
        call_ensures(export_csv, (rows,), lines),
    ensures
        lines@.len() == rows@.len() + 1,
        lines@[0]@
            == "timestamp,model,project_dir,input,output,cache_create,cache_read,total"@,
        0 <= i < rows@.len() ==> lines@[i + 1]@ == csv_line(rows@[i]),
{
    let shown = text::texts(lines@);
    assert(shown.len() == lines@.len());
    assert(shown[0] == lines@[0]@);
    if 0 <= i < rows@.len() {
        assert(shown[i + 1] == lines@[i + 1]@);
    }
}

/// A field that needs no quotation marks is written as it is, and any other is
/// put in quotation marks.
pub proof fn law_which_fields_are_quoted(s: Seq<char>)
    ensures
        !s.contains(',') && !s.contains('"') ==> csv_field(s) == s,
        s.contains(',') || s.contains('"') ==> csv_field(s).len() >= s.len() + 2 && csv_field(s)[0]
            == '"' && csv_field(s).last() == '"',
{
    doubling_adds(s);
}

proof fn doubling_adds(s: Seq<char>)
    ensures
        doubled(s).len() >= s.len(),
    decreases s.len(),
{
    if s.len() > 0 {
        doubling_adds(s.drop_last());
    }
}

/// An object of the export holds each field of its row under that field's name.
pub proof fn law_an_exported_object_holds_its_row(row: Row)
    ensures
        ({
            let (texts, numbers) = json_row(row);
            &&& texts.len() == 3 && numbers.len() == 5
            &&& texts.contains(("timestamp"@, bucket::instant_text(row.ts as int)))
            &&& texts.contains(("model"@, row.model@))
            &&& texts.contains(("project_dir"@, row.project_dir@))
            &&& numbers.contains(("input"@, row.input as int))
            &&& numbers.contains(("output"@, row.output as int))
            &&& numbers.contains(("cache_create"@, row.cache_create as int))
            &&& numbers.contains(("cache_read"@, row.cache_read as int))
            &&& numbers.contains(
                ("total"@, row.input + row.output + row.cache_create + row.cache_read),
            )
        }),
{
    let (texts, numbers) = json_row(row);
    assert(texts[0] == ("timestamp"@, bucket::instant_text(row.ts as int)));
    assert(texts[1] == ("model"@, row.model@));
    assert(texts[2] == ("project_dir"@, row.project_dir@));
    assert(numbers[0] == ("input"@, row.input as int));
    assert(numbers[1] == ("output"@, row.output as int));
    assert(numbers[2] == ("cache_create"@, row.cache_create as int));
    assert(numbers[3] == ("cache_read"@, row.cache_read as int));
    assert(numbers[4] == (
        "total"@,
        row.input + row.output + row.cache_create + row.cache_read,
    ));
}

/// A range is resolved end by end: an end is there exactly if its own date was
/// asked for, and is when that date begins.
pub proof fn law_each_end_of_a_range_is_its_own_date(
    range: &Range,
    zone: &Zone,
    since: Option<i64>,
    until: Option<i64>,
)
    requires
        zone.valid(),
        call_ensures(Range::resolve, (range, zone), Ok((since, until))),
    ensures
        since is Some <==> range.since is Some,
        until is Some <==> range.until is Some,
        range.since matches Some(t) ==> bucket::parsed_date(text::trimmed(t@)) is Some
            && bucket::starts(
            *zone,
            bucket::parsed_date(text::trimmed(t@))->0 as int,
            since->0 as int,
        ),
        range.until matches Some(t) ==> bucket::parsed_date(text::trimmed(t@)) is Some
            && bucket::starts(
            *zone,
            bucket::parsed_date(text::trimmed(t@))->0 as int,
            until->0 as int,
        ),
{
    assert(date_ok(range.since) && date_ok(range.until));
}

/// A range is refused exactly for a date that is none, and the refusal names it
/// and the option it was given for.
pub proof fn law_a_bad_date_is_named(range: &Range, zone: &Zone, e: BadDate, said: String)
    requires
        zone.valid(),
        call_ensures(Range::resolve, (range, zone), Err(e)),
        call_ensures(BadDate::message, (&e,), said),
    ensures
        e.option@ == "--since"@ || e.option@ == "--until"@,
        range.since matches Some(t) ==> bucket::parsed_date(text::trimmed(t@)) is None
            ==> said@ == "--since"@ + " is not a YYYY-MM-DD date: "@ + t@,
        (range.since matches Some(t) ==> bucket::parsed_date(text::trimmed(t@)) is Some)
            ==> range.until is Some && bucket::parsed_date(text::trimmed(range.until->0@)) is None
            && said@ == "--until"@ + " is not a YYYY-MM-DD date: "@ + range.until->0@,
{
}

/// A total grows by each field of a row or of another total, and all its tokens
/// are the four kinds together.
pub proof fn law_how_totals_grow(
    t: &mut Totals,
    row: &Row,
    u: &mut Totals,
    other: &Totals,
    all: i128,
)
    requires
        old(t)@.of_at_most(MANY as int),
        old(u)@.of_at_most(MANY as int),
        other@.of_at_most(MANY as int),
        call_ensures(Totals::add, (t, row), ()),
        call_ensures(Totals::join, (u, other), ()),
        call_ensures(Totals::total, (other,), all),
    ensures
        final(t).requests == old(t).requests + 1,
        final(t).input == old(t).input + row.input,
        final(t).output == old(t).output + row.output,
        final(t).cache_create == old(t).cache_create + row.cache_create,
        final(t).cache_read == old(t).cache_read + row.cache_read,
        final(u).requests == old(u).requests + other.requests,
        final(u).input == old(u).input + other.input,
        final(u).output == old(u).output + other.output,
        final(u).cache_create == old(u).cache_create + other.cache_create,
        final(u).cache_read == old(u).cache_read + other.cache_read,
        all == other.input + other.output + other.cache_create + other.cache_read,
{
}

/// Rows are grouped by the keys that are given for them, by their own models, or
/// by their own projects; the sums over all of them count each once.
#[verifier::rlimit(50)]
pub proof fn law_what_rows_are_grouped_by(
    rows: &Vec<Row>,
    labels: &Vec<String>,
    names: &Vec<String>,
    given: Vec<Group>,
    models_of: Vec<Group>,
    projects_of: Vec<Group>,
    all: Totals,
)
    requires
        rows@.len() < MANY,
        labels@.len() == rows@.len(),
        names@.len() == rows@.len(),
        call_ensures(group_rows, (rows, labels, names), given),
        call_ensures(by_model, (rows,), models_of),
        call_ensures(by_project, (rows,), projects_of),
        call_ensures(total_of, (rows,), all),
    ensures
        forall|i: int|
            0 <= i < rows@.len() ==> exists|g: int|
                0 <= g < given@.len() && (#[trigger] given@[g]).label@ == (
                #[trigger] labels@[i])@ && given@[g].name@ == names@[i]@,
        forall|i: int|
            0 <= i < rows@.len() ==> exists|g: int|
                0 <= g < models_of@.len() && (#[trigger] models_of@[g]).label@ == (
                #[trigger] rows@[i]).model@,
        forall|i: int|
            0 <= i < rows@.len() ==> exists|g: int|
                0 <= g < projects_of@.len() && (#[trigger] projects_of@[g]).label@ == (
                #[trigger] rows@[i]).project_dir@,
        all.requests == rows@.len(),
        sum_groups(given@, given@.len()) == all@,
        sum_groups(models_of@, models_of@.len()) == all@,
        sum_groups(projects_of@, projects_of@.len()) == all@,
{
    let keys = Keys { labels: text::texts(labels@), names: text::texts(names@) };
    let by_models = Keys { labels: models(rows@), names: blanks(rows@.len()) };
    let by_projects = Keys { labels: projects(rows@), names: blanks(rows@.len()) };
    law_groups_add_up_to_the_total(given@, rows@, keys);
    law_groups_add_up_to_the_total(models_of@, rows@, by_models);
    law_groups_add_up_to_the_total(projects_of@, rows@, by_projects);
    law_the_total_counts_every_row(rows@, rows@.len());
    assert forall|i: int| 0 <= i < rows@.len() implies exists|g: int|
        0 <= g < given@.len() && (#[trigger] given@[g]).label@ == (#[trigger] labels@[i])@
            && given@[g].name@ == names@[i]@ by {
        assert(filed(given@, keys, i));
        let g = choose|g: int|
            0 <= g < given@.len() && keys.at(i, (#[trigger] given@[g]).label@, given@[g].name@);
        assert(text::texts(labels@)[i] == labels@[i]@);
        assert(text::texts(names@)[i] == names@[i]@);
        assert(given@[g].label@ == labels@[i]@);
    }
    assert forall|i: int| 0 <= i < rows@.len() implies exists|g: int|
        0 <= g < models_of@.len() && (#[trigger] models_of@[g]).label@ == (
        #[trigger] rows@[i]).model@ by {
        assert(filed(models_of@, by_models, i));
        let g = choose|g: int|
            0 <= g < models_of@.len() && by_models.at(
                i,
                (#[trigger] models_of@[g]).label@,
                models_of@[g].name@,
            );
        assert(models_of@[g].label@ == rows@[i].model@);
    }
    assert forall|i: int| 0 <= i < rows@.len() implies exists|g: int|
        0 <= g < projects_of@.len() && (#[trigger] projects_of@[g]).label@ == (
        #[trigger] rows@[i]).project_dir@ by {
        assert(filed(projects_of@, by_projects, i));
        let g = choose|g: int|
            0 <= g < projects_of@.len() && by_projects.at(
                i,
                (#[trigger] projects_of@[g]).label@,
                projects_of@[g].name@,
            );
        assert(projects_of@[g].label@ == rows@[i].project_dir@);
    }
}

/// A number with its thousands apart reads back without the spaces.
pub proof fn law_thousands_read_back(n: i128, r: String)
    requires
        call_ensures(thousands, (n,), r),
    ensures
        n >= 0 ==> text::read_dec(text::without(r@, ' ')) == n,
        n < 0 ==> r@[0] == '-' && text::read_dec(text::without(r@, ' ').skip(1)) == -(n as int),
{
    law_thousands_keep_the_digits(n as int);
    text::law_a_signed_number_reads_back(n as int);
}

/// A table is added behind the lines that are there, and the width that is
/// answered is that of its own first column.
#[verifier::rlimit(50)]
pub proof fn law_a_table_is_added_behind(
    lines: &mut Vec<String>,
    title: &str,
    groups: &Vec<Group>,
    home: &str,
    width: usize,
)
    requires
        all_moderate(groups@),
        call_ensures(push_table, (lines, title, groups, home), width),
    ensures
        final(lines)@.len() == old(lines)@.len() + 1 + groups@.len(),
        forall|i: int|
            0 <= i < old(lines)@.len() ==> (#[trigger] final(lines)@[i])@ == old(lines)@[i]@,
        shows_heads(final(lines)@[old(lines)@.len() as int]@, title@, width as nat),
        forall|i: int|
            0 <= i < groups@.len() ==> shows_sums(
                final(lines)@[old(lines)@.len() + 1 + i]@,
                render::from_home((#[trigger] groups@[i]).label@, home@),
                width as nat,
                groups@[i].totals@,
            ),
{
    let before = text::texts(old(lines)@);
    let after = text::texts(final(lines)@);
    let table = table_lines(title@, groups@, home@);
    assert(before.len() == old(lines)@.len());
    assert(after.len() == final(lines)@.len());
    sums_show(title@, width as nat, Tally::zero());
    let n = old(lines)@.len() as int;
    assert(after[n] == table[0]);
    assert(after[n] == final(lines)@[n]@);
    assert forall|i: int| 0 <= i < n implies (#[trigger] final(lines)@[i])@ == old(lines)@[i]@ by {
        assert(after[i] == before[i]);
        assert(after[i] == final(lines)@[i]@);
    }
    assert forall|i: int| 0 <= i < groups@.len() implies shows_sums(
        final(lines)@[n + 1 + i]@,
        render::from_home((#[trigger] groups@[i]).label@, home@),
        width as nat,
        groups@[i].totals@,
    ) by {
        law_a_table_shows_every_group(title@, groups@, home@, i);
        assert(after[n + 1 + i] == table[i + 1]);
        assert(after[n + 1 + i] == final(lines)@[n + 1 + i]@);
    }
}

/// The width for names is that of the widest name, in bytes.
pub proof fn law_how_wide_names_are(groups: &Vec<Group>, width: usize)
    requires
        call_ensures(group_width, (groups,), width),
    ensures
        forall|i: int|
            0 <= i < groups@.len() ==> byte_len((#[trigger] groups@[i]).name@) <= width,
        width == 0 || exists|i: int|
            0 <= i < groups@.len() && byte_len((#[trigger] groups@[i]).name@) == width,
{
    let names = group_names(groups@);
    law_the_widest_fits_all(names, groups@.len(), 0);
    assert forall|i: int| 0 <= i < groups@.len() implies byte_len((#[trigger] groups@[i]).name@)
        <= width by {
        assert(names[i] == groups@[i].name@);
    }
    if width != 0 {
        let i = choose|i: int|
            0 <= i < groups@.len() && byte_len(#[trigger] names[i]) == widest(
                names,
                groups@.len(),
                0,
            );
        assert(names[i] == groups@[i].name@);
    }
}

/// The first column of a breakdown has ten characters for the label, and two and
/// the widest name behind them where rows are told apart by name.
pub proof fn law_how_wide_a_breakdown_is(groups: Seq<Group>, i: int)
    requires
        0 <= i < groups.len(),
        names_width(groups) <= usize::MAX - 12,
    ensures
        breakdown_width(groups, None) == 10,
        breakdown_width(groups, Some(GroupBy::Model)) >= 10 + 2 + byte_len(groups[i].name@),
        breakdown_width(groups, Some(GroupBy::Model)) == 10 + 2 || exists|j: int|
            0 <= j < groups.len() && breakdown_width(groups, Some(GroupBy::Model)) == 10 + 2
                + byte_len((#[trigger] groups[j]).name@),
        breakdown_width(groups, Some(GroupBy::Project)) == breakdown_width(
            groups,
            Some(GroupBy::Model),
        ),
{
    let names = group_names(groups);
    law_the_widest_fits_all(names, groups.len(), 0);
    assert(names[i] == groups[i].name@);
    if names_width(groups) != 0 {
        let j = choose|j: int|
            0 <= j < groups.len() && byte_len(#[trigger] names[j]) == names_width(groups);
        assert(names[j] == groups[j].name@);
    }
}

/// A field that is escaped reads back as what it was.
pub proof fn law_escaped_fields_read_back(s: &str, r: String)
    requires
        call_ensures(csv_escape, (s,), r),
    ensures
        csv_value(r@) == s@,
        !s@.contains(',') && !s@.contains('"') ==> r@ == s@,
        s@.contains(',') || s@.contains('"') ==> r@[0] == '"' && r@.last() == '"',
{
    law_csv_fields_read_back(s@);
    law_which_fields_are_quoted(s@);
}

/// A period is named by the label of its own kind, at its own time.
pub proof fn law_a_period_is_named(period: Period, ts: i64, zone: &Zone, r: String)
    requires
        zone.valid(),
        call_ensures(Period::label, (period, ts, zone), r),
    ensures
        period is Day ==> bucket::day_labelled(*zone, ts, r@),
        period is Week ==> bucket::week_labelled(*zone, ts, r@),
        period is Month ==> bucket::month_labelled(*zone, ts, r@),
{
}

/// Every row becomes an object, in order, that holds the row's own fields.
pub proof fn law_every_row_is_an_object(
    rows: &Vec<Row>,
    items: Vec<JsonItem>,
    document: String,
    i: int,
)
    requires
        countable(rows@),
        call_ensures(json_items, (rows,), items),
        call_ensures(export_json, (rows,), document),
        0 <= i < rows@.len(),
    ensures
        items@.len() == rows@.len(),
        items@[i]@ == json_row(rows@[i]),
        document@ == pretty_json(items_said(items@)),
{
    assert(items_said(items@).len() == items@.len());
    assert(items_said(items@)[i] == items@[i]@);
}

/// A summary is made of the rows and the span that it is given.
pub proof fn law_a_summary_is_of_its_rows(
    rows: &Vec<Row>,
    first: &str,
    last: &str,
    home: &str,
    lines: Vec<String>,
)
    requires
        rows@.len() < MANY,
        call_ensures(summary_of, (rows, first, last, home), lines),
    ensures
        is_summary(text::texts(lines@), rows@, first@, last@, home@),
        lines@[0]@ == first@ + " .. "@ + last@ + "   "@ + text::dec(rows@.len()) + " requests"@,
{
    law_what_a_summary_shows(text::texts(lines@), rows@, first@, last@, home@);
    let shown = text::texts(lines@);
    assert(shown.len() == lines@.len());
    assert(shown[0] == lines@[0]@);
}

/// Widths are counted in bytes, as far as a machine can count.
pub proof fn law_widths_are_in_bytes(s: Seq<char>)
    requires
        vstd::utf8::encode_utf8(s).len() <= usize::MAX,
    ensures
        byte_len(s) == vstd::utf8::encode_utf8(s).len(),
{
}

/// A table of no groups is its head.
pub proof fn law_a_table_of_no_groups_is_its_head(title: Seq<char>, home: Seq<char>)
    ensures
        table_lines(title, Seq::empty(), home).len() == 1,
        shows_heads(table_lines(title, Seq::empty(), home)[0], title, byte_len(title)),
{
    sums_show(title, byte_len(title), Tally::zero());
}

} // verus!
