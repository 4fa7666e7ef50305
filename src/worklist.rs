use vstd::prelude::*;

use crate::debt::{amounts, named, owed_by, sum_prefix, total, Debt};

verus! {

/// An entry of a working list: the position of a balance in its set, and the
/// amount still open for it.
pub type Entry = (int, int);

/// The mathematical view of an executable working list.
pub open spec fn view_entries(v: Seq<(usize, i32)>) -> Seq<Entry> {
    v.map_values(|e: (usize, i32)| (e.0 as int, e.1 as int))
}

/// The sort key of an entry: its amount, or the negated amount.
pub open spec fn key(e: Entry, negate: bool) -> int {
    if negate {
        -e.1
    } else {
        e.1
    }
}

/// Whether an entry of a sorted list stays in front of a newcomer `x`: with
/// `after_ties` every entry whose key does not exceed the newcomer's does,
/// otherwise only those whose key is smaller.
pub open spec fn stays_before(e: Entry, x: Entry, negate: bool, after_ties: bool) -> bool {
    if after_ties {
        key(e, negate) <= key(x, negate)
    } else {
        key(e, negate) < key(x, negate)
    }
}

/// Where `x` goes in `s`: after the leading entries that stay in front of it.
pub open spec fn insert_pos(s: Seq<Entry>, x: Entry, negate: bool, after_ties: bool) -> nat
    decreases s.len(),
{
    if s.len() == 0 {
        0
    } else if stays_before(s[0], x, negate, after_ties) {
        1 + insert_pos(s.drop_first(), x, negate, after_ties)
    } else {
        0
    }
}

/// `s` with `x` inserted at its place.
pub open spec fn insert_sorted(s: Seq<Entry>, x: Entry, negate: bool, after_ties: bool) -> Seq<
    Entry,
> {
    s.insert(insert_pos(s, x, negate, after_ties) as int, x)
}

/// Whether the keys of `s` never decrease.
pub open spec fn sorted_by(s: Seq<Entry>, negate: bool) -> bool {
    forall|i: int, j: int| 0 <= i < j < s.len() ==> key(s[i], negate) <= key(s[j], negate)
}

/// The amounts in `s` of the entries whose position satisfies `g`, added up.
pub open spec fn weight(s: Seq<Entry>, g: spec_fn(int) -> bool) -> int
    decreases s.len(),
{
    if s.len() == 0 {
        0
    } else {
        weight(s.drop_last(), g) + (if g(s.last().0) {
            s.last().1
        } else {
            0
        })
    }
}

/// The sum of all amounts in `s`.
pub open spec fn amount_sum(s: Seq<Entry>) -> int {
    weight(s, everyone())
}

/// The condition that every position satisfies.
pub open spec fn everyone() -> spec_fn(int) -> bool {
    |i: int| true
}

pub proof fn lemma_insert_pos(s: Seq<Entry>, x: Entry, negate: bool, after_ties: bool)
    ensures
        insert_pos(s, x, negate, after_ties) <= s.len(),
        forall|j: int|
            0 <= j < insert_pos(s, x, negate, after_ties) ==> stays_before(
                #[trigger] s[j],
                x,
                negate,
                after_ties,
            ),
        insert_pos(s, x, negate, after_ties) < s.len() ==> !stays_before(
            s[insert_pos(s, x, negate, after_ties) as int],
            x,
            negate,
            after_ties,
        ),
    decreases s.len(),
{
    if s.len() > 0 {
        lemma_insert_pos(s.drop_first(), x, negate, after_ties);
        if stays_before(s[0], x, negate, after_ties) {
            assert forall|j: int| 0 <= j < insert_pos(s, x, negate, after_ties) implies stays_before(
                #[trigger] s[j],
                x,
                negate,
                after_ties,
            ) by {
                if j > 0 {
                    assert(s[j] == s.drop_first()[j - 1]);
                }
            }
        }
    }
}

/// The place of `x` is the one index before which every entry stays in front
/// of it, and at which (if any) the entry does not.
pub proof fn lemma_insert_pos_unique(
    s: Seq<Entry>,
    x: Entry,
    negate: bool,
    after_ties: bool,
    p: int,
)
    requires
        0 <= p <= s.len(),
        forall|j: int| 0 <= j < p ==> stays_before(#[trigger] s[j], x, negate, after_ties),
        p < s.len() ==> !stays_before(s[p], x, negate, after_ties),
    ensures
        insert_pos(s, x, negate, after_ties) == p,
{
    lemma_insert_pos(s, x, negate, after_ties);
}

pub proof fn lemma_insert_sorted(s: Seq<Entry>, x: Entry, negate: bool, after_ties: bool)
    requires
        sorted_by(s, negate),
    ensures
        sorted_by(insert_sorted(s, x, negate, after_ties), negate),
        insert_sorted(s, x, negate, after_ties).len() == s.len() + 1,
{
    lemma_insert_pos(s, x, negate, after_ties);
    let p = insert_pos(s, x, negate, after_ties) as int;
    let r = insert_sorted(s, x, negate, after_ties);
    assert forall|i: int, j: int| 0 <= i < j < r.len() implies key(r[i], negate) <= key(
        r[j],
        negate,
    ) by {
        if j < p {
        } else if j == p {
            assert(stays_before(s[i], x, negate, after_ties));
        } else if i < p {
            assert(stays_before(s[i], x, negate, after_ties));
            assert(!stays_before(s[p], x, negate, after_ties));
            assert(key(s[p], negate) <= key(s[j - 1], negate));
        } else if i == p {
            assert(!stays_before(s[p], x, negate, after_ties));
            assert(p == j - 1 || key(s[p], negate) <= key(s[j - 1], negate));
        } else {
        }
    }
}

pub proof fn lemma_weight_concat(a: Seq<Entry>, b: Seq<Entry>, g: spec_fn(int) -> bool)
    ensures
        weight(a + b, g) == weight(a, g) + weight(b, g),
    decreases b.len(),
{
    if b.len() == 0 {
        assert(a + b =~= a);
    } else {
        lemma_weight_concat(a, b.drop_last(), g);
        assert((a + b).drop_last() =~= a + b.drop_last());
    }
}

pub proof fn lemma_weight_single(x: Entry, g: spec_fn(int) -> bool)
    ensures
        weight(seq![x], g) == (if g(x.0) {
            x.1
        } else {
            0
        }),
{
    assert(seq![x].drop_last() =~= Seq::<Entry>::empty());
    assert(weight(Seq::<Entry>::empty(), g) == 0);
}

/// What inserting one entry adds to any weight.
pub proof fn lemma_weight_insert(s: Seq<Entry>, p: int, x: Entry, g: spec_fn(int) -> bool)
    requires
        0 <= p <= s.len(),
    ensures
        weight(s.insert(p, x), g) == weight(s, g) + (if g(x.0) {
            x.1
        } else {
            0
        }),
{
    let a = s.subrange(0, p);
    let b = s.subrange(p, s.len() as int);
    assert(s =~= a + b);
    assert(s.insert(p, x) =~= a + (seq![x] + b));
    lemma_weight_concat(a, b, g);
    lemma_weight_concat(a, seq![x] + b, g);
    lemma_weight_concat(seq![x], b, g);
    lemma_weight_single(x, g);
}

/// What taking off the first entry removes from any weight.
pub proof fn lemma_weight_first(s: Seq<Entry>, g: spec_fn(int) -> bool)
    requires
        s.len() > 0,
    ensures
        weight(s, g) == weight(s.drop_first(), g) + (if g(s[0].0) {
            s[0].1
        } else {
            0
        }),
{
    assert(s =~= seq![s[0]] + s.drop_first());
    lemma_weight_concat(seq![s[0]], s.drop_first(), g);
    lemma_weight_single(s[0], g);
}

/// Every entry of a list whose amounts are all positive adds to its sum.
pub proof fn lemma_positive_sum(s: Seq<Entry>)
    requires
        forall|i: int| 0 <= i < s.len() ==> #[trigger] s[i].1 > 0,
    ensures
        s.len() > 0 ==> amount_sum(s) > 0,
    decreases s.len(),
{
    if s.len() > 0 {
        let t = s.drop_last();
        assert forall|i: int| 0 <= i < t.len() implies #[trigger] t[i].1 > 0 by {
            assert(t[i] == s[i]);
        }
        lemma_positive_sum(t);
        assert(s.last().1 > 0);
        if t.len() == 0 {
            assert(weight(t, everyone()) == 0);
        }
        assert(weight(s, everyone()) == weight(t, everyone()) + s.last().1);
    }
}

/// Every entry of a list whose amounts are all negative takes from its sum.
pub proof fn lemma_negative_sum(s: Seq<Entry>)
    requires
        forall|i: int| 0 <= i < s.len() ==> #[trigger] s[i].1 < 0,
    ensures
        s.len() > 0 ==> amount_sum(s) < 0,
    decreases s.len(),
{
    if s.len() > 0 {
        let t = s.drop_last();
        assert forall|i: int| 0 <= i < t.len() implies #[trigger] t[i].1 < 0 by {
            assert(t[i] == s[i]);
        }
        lemma_negative_sum(t);
        assert(s.last().1 < 0);
        if t.len() == 0 {
            assert(weight(t, everyone()) == 0);
        }
        assert(weight(s, everyone()) == weight(t, everyone()) + s.last().1);
    }
}

/// Whether entry `e` stays in front of newcomer `x` (see `stays_before`).
fn goes_first(e: (usize, i32), x: (usize, i32), negate: bool, after_ties: bool) -> (r: bool)
    ensures
        r == stays_before((e.0 as int, e.1 as int), (x.0 as int, x.1 as int), negate, after_ties),
{
    if negate {
        if after_ties {
            x.1 <= e.1
        } else {
            x.1 < e.1
        }
    } else {
        if after_ties {
            e.1 <= x.1
        } else {
            e.1 < x.1
        }
    }
}

/// Inserts `x` into `v` at its place (see `insert_sorted`).
pub fn insert_entry(v: &mut Vec<(usize, i32)>, x: (usize, i32), negate: bool, after_ties: bool)
    ensures
        view_entries(final(v)@) == insert_sorted(
            view_entries(old(v)@),
            (x.0 as int, x.1 as int),
            negate,
            after_ties,
        ),
{
    let ghost s = view_entries(v@);
    let ghost xe = (x.0 as int, x.1 as int);
    let mut p: usize = 0;
    while p < v.len()
        invariant
            p <= v@.len(),
            s == view_entries(v@),
            xe == (x.0 as int, x.1 as int),
            forall|j: int| 0 <= j < p ==> stays_before(#[trigger] s[j], xe, negate, after_ties),
        ensures
            p <= v@.len(),
            p < v@.len() ==> !stays_before(s[p as int], xe, negate, after_ties),
        decreases v@.len() - p,
    {
        assert(s[p as int] == (v@[p as int].0 as int, v@[p as int].1 as int));
        let e = v[p];
        let ahead = goes_first(e, x, negate, after_ties);
        assert(ahead == stays_before(s[p as int], xe, negate, after_ties));
        if !ahead {
            break;
        }
        p = p + 1;
    }
    proof {
        lemma_insert_pos_unique(s, xe, negate, after_ties, p as int);
    }
    v.insert(p, x);
    assert(view_entries(v@) =~= s.insert(p as int, xe));
}


/// A payment of a plan: the position of the payer, that of the payee, and
/// the amount paid.
pub type Payment = (int, int, int);

/// Each balance of a set as an entry, in order.
pub open spec fn positions(vals: Seq<i32>) -> Seq<Entry> {
    Seq::new(vals.len(), |i: int| (i, vals[i] as int))
}

/// Whether an amount belongs on a side: `0` takes every non-zero amount,
/// a positive side the positive amounts and a negative side the negative ones.
pub open spec fn on_side(amount: int, side: int) -> bool {
    if side == 0 {
        amount != 0
    } else if side > 0 {
        amount > 0
    } else {
        amount < 0
    }
}

/// The entries of `s` that lie on `side`, sorted by key; entries with equal
/// keys keep their order in `s`.
pub open spec fn sorted_side(s: Seq<Entry>, negate: bool, side: int) -> Seq<Entry>
    decreases s.len(),
{
    if s.len() == 0 {
        Seq::empty()
    } else {
        let r = sorted_side(s.drop_last(), negate, side);
        if on_side(s.last().1, side) {
            insert_sorted(r, s.last(), negate, true)
        } else {
            r
        }
    }
}

/// A working list that a settlement loop can run on: sorted by amount, with
/// no zero amount, and with amounts that cancel out.
pub open spec fn settleable(s: Seq<Entry>) -> bool {
    &&& sorted_by(s, false)
    &&& forall|i: int| 0 <= i < s.len() ==> #[trigger] s[i].1 != 0
    &&& amount_sum(s) == 0
}

/// Whether every position in `s` is below `n`.
pub open spec fn within(s: Seq<Entry>, n: int) -> bool {
    forall|i: int| 0 <= i < s.len() ==> 0 <= #[trigger] s[i].0 < n
}

/// Whether every payment of `p` is positive and between positions below `n`.
pub open spec fn plan_within(p: Seq<Payment>, n: int) -> bool {
    forall|k: int|
        0 <= k < p.len() ==> 0 <= #[trigger] p[k].0 < n && 0 <= p[k].1 < n && p[k].2 > 0
}

/// What the payments of `p` move out of the positions that satisfy `g`: paid
/// amounts count up, received amounts count down.
pub open spec fn flow(p: Seq<Payment>, g: spec_fn(int) -> bool) -> int
    decreases p.len(),
{
    if p.len() == 0 {
        0
    } else {
        (if g(p[0].0) {
            p[0].2
        } else {
            0
        }) - (if g(p[0].1) {
            p[0].2
        } else {
            0
        }) + flow(p.drop_first(), g)
    }
}

pub proof fn lemma_flow_cons(t: Payment, p: Seq<Payment>, g: spec_fn(int) -> bool)
    ensures
        flow(seq![t] + p, g) == (if g(t.0) {
            t.2
        } else {
            0
        }) - (if g(t.1) {
            t.2
        } else {
            0
        }) + flow(p, g),
{
    assert((seq![t] + p).drop_first() =~= p);
}

pub proof fn lemma_flow_concat(a: Seq<Payment>, b: Seq<Payment>, g: spec_fn(int) -> bool)
    ensures
        flow(a + b, g) == flow(a, g) + flow(b, g),
    decreases a.len(),
{
    if a.len() == 0 {
        assert(a + b =~= b);
    } else {
        lemma_flow_concat(a.drop_first(), b, g);
        assert((a + b).drop_first() =~= a.drop_first() + b);
    }
}

/// In a settleable list of two or more entries the first amount is negative
/// and the last one positive.
pub proof fn lemma_ends(s: Seq<Entry>)
    requires
        settleable(s),
        s.len() >= 2,
    ensures
        s[0].1 < 0,
        s.last().1 > 0,
{
    if s[0].1 > 0 {
        assert forall|i: int| 0 <= i < s.len() implies #[trigger] s[i].1 > 0 by {
            if i > 0 {
                assert(key(s[0], false) <= key(s[i], false));
            }
        }
        lemma_positive_sum(s);
    }
    if s.last().1 < 0 {
        assert forall|i: int| 0 <= i < s.len() implies #[trigger] s[i].1 < 0 by {
            if i < s.len() - 1 {
                assert(key(s[i], false) <= key(s[s.len() - 1], false));
            }
        }
        lemma_negative_sum(s);
    }
}

/// A settleable list never holds a single entry.
pub proof fn lemma_not_single(s: Seq<Entry>)
    requires
        settleable(s),
    ensures
        s.len() != 1,
{
    if s.len() == 1 {
        lemma_weight_single(s[0], everyone());
        assert(s =~= seq![s[0]]);
    }
}

/// Taking the first and the last entry off a list, and inserting one entry,
/// changes each weight by what those entries hold.
pub proof fn lemma_weight_step(
    s: Seq<Entry>,
    x: Entry,
    negate: bool,
    after_ties: bool,
    g: spec_fn(int) -> bool,
)
    requires
        s.len() >= 2,
    ensures
        weight(insert_sorted(s.subrange(1, s.len() - 1), x, negate, after_ties), g) == weight(s, g)
            - (if g(s[0].0) {
            s[0].1
        } else {
            0
        }) - (if g(s.last().0) {
            s.last().1
        } else {
            0
        }) + (if g(x.0) {
            x.1
        } else {
            0
        }),
        weight(s.subrange(1, s.len() - 1), g) == weight(s, g) - (if g(s[0].0) {
            s[0].1
        } else {
            0
        }) - (if g(s.last().0) {
            s.last().1
        } else {
            0
        }),
{
    let mid = s.subrange(1, s.len() - 1);
    lemma_weight_first(s, g);
    assert(s.drop_first().drop_last() =~= mid);
    assert(s.drop_first().last() == s.last());
    lemma_insert_pos(mid, x, negate, after_ties);
    lemma_weight_insert(mid, insert_pos(mid, x, negate, after_ties) as int, x, g);
}

/// The positions and the kept amounts of a sorted side.
pub proof fn lemma_sorted_side(s: Seq<Entry>, negate: bool, side: int, n: int)
    requires
        within(s, n),
    ensures
        sorted_by(sorted_side(s, negate, side), negate),
        within(sorted_side(s, negate, side), n),
        sorted_side(s, negate, side).len() <= s.len(),
        forall|i: int|
            0 <= i < sorted_side(s, negate, side).len() ==> on_side(
                #[trigger] sorted_side(s, negate, side)[i].1,
                side,
            ),
    decreases s.len(),
{
    if s.len() > 0 {
        let t = s.drop_last();
        assert forall|i: int| 0 <= i < t.len() implies 0 <= #[trigger] t[i].0 < n by {
            assert(t[i] == s[i]);
        }
        lemma_sorted_side(t, negate, side, n);
        let r = sorted_side(t, negate, side);
        if on_side(s.last().1, side) {
            lemma_insert_sorted(r, s.last(), negate, true);
            lemma_insert_pos(r, s.last(), negate, true);
            r.insert_ensures(insert_pos(r, s.last(), negate, true) as int, s.last());
        }
    }
}

/// A sorted side of all non-zero entries weighs what the whole list weighs,
/// and so do its positive and its negative sides together.
pub proof fn lemma_sorted_side_weight(
    s: Seq<Entry>,
    negate: bool,
    negate_other: bool,
    g: spec_fn(int) -> bool,
)
    ensures
        weight(sorted_side(s, negate, 0), g) == weight(s, g),
        weight(sorted_side(s, negate, 1), g) + weight(sorted_side(s, negate_other, -1), g)
            == weight(s, g),
    decreases s.len(),
{
    if s.len() > 0 {
        let t = s.drop_last();
        let x = s.last();
        lemma_sorted_side_weight(t, negate, negate_other, g);
        let r0 = sorted_side(t, negate, 0);
        let r1 = sorted_side(t, negate, 1);
        let r2 = sorted_side(t, negate_other, -1);
        lemma_insert_pos(r0, x, negate, true);
        lemma_weight_insert(r0, insert_pos(r0, x, negate, true) as int, x, g);
        lemma_insert_pos(r1, x, negate, true);
        lemma_weight_insert(r1, insert_pos(r1, x, negate, true) as int, x, g);
        lemma_insert_pos(r2, x, negate_other, true);
        lemma_weight_insert(r2, insert_pos(r2, x, negate_other, true) as int, x, g);
    }
}

/// The balances of `debts` on `side`, as a working list sorted by key (see
/// `sorted_side`).
pub fn open_entries(debts: &[&Debt], negate: bool, side: i8) -> (r: Vec<(usize, i32)>)
    ensures
        view_entries(r@) == sorted_side(positions(amounts(debts@)), negate, side as int),
{
    let ghost all = positions(amounts(debts@));
    let mut r: Vec<(usize, i32)> = Vec::new();
    let mut i: usize = 0;
    while i < debts.len()
        invariant
            i <= debts@.len(),
            all == positions(amounts(debts@)),
            view_entries(r@) == sorted_side(all.take(i as int), negate, side as int),
        decreases debts@.len() - i,
    {
        let v = debts[i].value;
        assert(all.take(i + 1).drop_last() =~= all.take(i as int));
        assert(all.take(i + 1).last() == (i as int, v as int));
        let keep = if side == 0 {
            v != 0
        } else if side > 0 {
            v > 0
        } else {
            v < 0
        };
        if keep {
            insert_entry(&mut r, (i, v), negate, true);
        }
        i = i + 1;
    }
    assert(all.take(debts@.len() as int) =~= all);
    r
}


/// The first and last entry of a settleable list taken off.
pub open spec fn middle(s: Seq<Entry>) -> Seq<Entry> {
    s.subrange(1, s.len() - 1)
}

pub proof fn lemma_middle(s: Seq<Entry>, n: int)
    requires
        settleable(s),
        s.len() >= 2,
        within(s, n),
    ensures
        sorted_by(middle(s), false),
        forall|i: int| 0 <= i < middle(s).len() ==> #[trigger] middle(s)[i].1 != 0,
        within(middle(s), n),
        middle(s).len() == s.len() - 2,
        amount_sum(middle(s)) == -(s[0].1 + s.last().1),
{
    let m = middle(s);
    assert forall|i: int, j: int| 0 <= i < j < m.len() implies key(m[i], false) <= key(
        m[j],
        false,
    ) by {
        assert(m[i] == s[i + 1] && m[j] == s[j + 1]);
    }
    assert forall|i: int| 0 <= i < m.len() implies #[trigger] m[i].1 != 0 && 0 <= m[i].0 < n by {
        assert(m[i] == s[i + 1]);
    }
    lemma_weight_step(s, s[0], false, true, everyone());
}

/// The list that a settlement step leaves: the middle of `s` with `x`
/// inserted at its place.
pub proof fn lemma_next(s: Seq<Entry>, x: Entry, after_ties: bool, n: int)
    requires
        settleable(s),
        s.len() >= 2,
        within(s, n),
        x.1 != 0,
        x.1 == s[0].1 + s.last().1,
        0 <= x.0 < n,
    ensures
        settleable(insert_sorted(middle(s), x, false, after_ties)),
        within(insert_sorted(middle(s), x, false, after_ties), n),
        insert_sorted(middle(s), x, false, after_ties).len() == s.len() - 1,
{
    let m = middle(s);
    lemma_middle(s, n);
    lemma_insert_sorted(m, x, false, after_ties);
    lemma_insert_pos(m, x, false, after_ties);
    let p = insert_pos(m, x, false, after_ties) as int;
    m.insert_ensures(p, x);
    let r = insert_sorted(m, x, false, after_ties);
    assert forall|i: int| 0 <= i < r.len() implies #[trigger] r[i].1 != 0 && 0 <= r[i].0 < n by {
        if i > p {
            assert(r[i] == m[i - 1]);
        }
    }
    lemma_weight_step(s, x, false, after_ties, everyone());
}

/// The positions of a balance set weigh, for the condition `named(debts, nm)`,
/// what the balances named `nm` owe together.
pub proof fn lemma_owed_weight(debts: Seq<&Debt>, nm: Seq<char>, k: int)
    requires
        0 <= k <= debts.len(),
    ensures
        weight(positions(amounts(debts)).take(k), named(debts, nm)) == owed_by(debts.take(k), nm),
    decreases k,
{
    if k > 0 {
        lemma_owed_weight(debts, nm, k - 1);
        assert(positions(amounts(debts)).take(k).drop_last() =~= positions(amounts(debts)).take(
            k - 1,
        ));
        assert(debts.take(k).drop_last() =~= debts.take(k - 1));
    }
}

/// The positions of a balance set weigh, in all, its total.
pub proof fn lemma_total_weight(vals: Seq<i32>, k: int)
    requires
        0 <= k <= vals.len(),
    ensures
        weight(positions(vals).take(k), everyone()) == sum_prefix(vals, k),
    decreases k,
{
    if k > 0 {
        lemma_total_weight(vals, k - 1);
        assert(positions(vals).take(k).drop_last() =~= positions(vals).take(k - 1));
    }
}

/// The working list with which a single-list settlement starts is
/// settleable when the amounts add up to zero.
pub proof fn lemma_start(debts: Seq<&Debt>)
    requires
        total(amounts(debts)) == 0,
    ensures
        settleable(sorted_side(positions(amounts(debts)), false, 0)),
        within(sorted_side(positions(amounts(debts)), false, 0), debts.len() as int),
        sorted_side(positions(amounts(debts)), false, 0).len() <= debts.len(),
        forall|nm: Seq<char>|
            weight(sorted_side(positions(amounts(debts)), false, 0), named(debts, nm)) == owed_by(
                debts,
                nm,
            ),
{
    let all = positions(amounts(debts));
    let n = debts.len() as int;
    assert(all.take(n) =~= all);
    assert(debts.take(n) =~= debts);
    lemma_sorted_side(all, false, 0, n);
    lemma_sorted_side_weight(all, false, false, everyone());
    lemma_total_weight(amounts(debts), n);
    assert forall|nm: Seq<char>|
        weight(sorted_side(all, false, 0), named(debts, nm)) == owed_by(debts, nm) by {
        lemma_sorted_side_weight(all, false, false, named(debts, nm));
        lemma_owed_weight(debts, nm, n);
    }
}

} // verus!
