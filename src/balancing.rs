use vstd::prelude::*;

use crate::debt::{amounts, named, owed_by, sum_prefix, total, total_owed, BalancingError, Debt};
use crate::worklist::{
    amount_sum, everyone, flow, insert_entry, insert_pos, insert_sorted, lemma_flow_concat,
    lemma_flow_cons, lemma_insert_pos, lemma_negative_sum, lemma_owed_weight, lemma_positive_sum,
    lemma_sorted_side, lemma_sorted_side_weight, lemma_total_weight, lemma_weight_insert,
    open_entries, plan_within, positions, sorted_side, view_entries, weight,
    within, Entry, Payment,
};

verus! {

/// A payment from `source` to `destination` of `value` minor units.
#[derive(Debug, Clone, PartialEq, Eq)]
pub struct Transaction {
    pub source: String,
    pub destination: String,
    pub value: u32,
}

impl Transaction {
    /// A transaction between the two names given.
    pub fn from(source: &str, destination: &str, value: u32) -> (r: Self)
        ensures
            r.source@ == source@,
            r.destination@ == destination@,
            r.value == value,
    {
        Transaction { source: source.to_string(), destination: destination.to_string(), value }
    }
}

/// What the transactions of `txs` move out of the parties named `nm`: paid
/// amounts count up, received amounts count down.
pub open spec fn net_sent(txs: Seq<Transaction>, nm: Seq<char>) -> int
    decreases txs.len(),
{
    if txs.len() == 0 {
        0
    } else {
        (if txs[0].source@ == nm {
            txs[0].value as int
        } else {
            0
        }) - (if txs[0].destination@ == nm {
            txs[0].value as int
        } else {
            0
        }) + net_sent(txs.drop_first(), nm)
    }
}

/// Whether `txs` carries out `plan` on `debts`, each payment between the
/// names at its positions.
pub open spec fn carries_out(txs: Seq<Transaction>, debts: Seq<&Debt>, plan: Seq<Payment>) -> bool {
    &&& txs.len() == plan.len()
    &&& plan_within(plan, debts.len() as int)
    &&& forall|k: int|
        0 <= k < txs.len() ==> {
            &&& (#[trigger] txs[k]).source@ == debts[plan[k].0].name@
            &&& txs[k].destination@ == debts[plan[k].1].name@
            &&& txs[k].value == plan[k].2
        }
}

pub proof fn lemma_net_sent(
    txs: Seq<Transaction>,
    debts: Seq<&Debt>,
    plan: Seq<Payment>,
    nm: Seq<char>,
)
    requires
        carries_out(txs, debts, plan),
    ensures
        net_sent(txs, nm) == flow(plan, named(debts, nm)),
    decreases txs.len(),
{
    if txs.len() > 0 {
        let t = txs.drop_first();
        let p = plan.drop_first();
        assert forall|k: int| 0 <= k < t.len() implies {
            &&& (#[trigger] t[k]).source@ == debts[p[k].0].name@
            &&& t[k].destination@ == debts[p[k].1].name@
            &&& t[k].value == p[k].2
        } by {
            assert(t[k] == txs[k + 1] && p[k] == plan[k + 1]);
        }
        assert forall|k: int| 0 <= k < p.len() implies 0 <= #[trigger] p[k].0 < debts.len() && 0
            <= p[k].1 < debts.len() && p[k].2 > 0 by {
            assert(p[k] == plan[k + 1]);
        }
        assert(txs[0].source@ == debts[plan[0].0].name@);
        lemma_net_sent(t, debts, p, nm);
    }
}

/// The payments made between a list of debtors sorted by amount and a list
/// of creditors sorted by key (the amount, or its magnitude with
/// `negate`): the last debtor pays its whole amount to the last creditor;
/// what the creditor is still owed goes back among the creditors, and what
/// it now owes among the debtors, in each case after the entries of equal
/// key.
pub open spec fn matching_plan(d: Seq<Entry>, c: Seq<Entry>, negate: bool) -> Seq<Payment>
    decreases d.len() + c.len(),
    via matching_plan_decreases
{
    if d.len() == 0 || c.len() == 0 {
        Seq::empty()
    } else {
        let x = d.last();
        let y = c.last();
        let rest = x.1 + y.1;
        seq![(x.0, y.0, x.1)] + (if rest < 0 {
            matching_plan(d.drop_last(), insert_sorted(c.drop_last(), (y.0, rest), negate, true), negate)
        } else if rest > 0 {
            matching_plan(insert_sorted(d.drop_last(), (y.0, rest), false, true), c.drop_last(), negate)
        } else {
            matching_plan(d.drop_last(), c.drop_last(), negate)
        })
    }
}

#[via_fn]
proof fn matching_plan_decreases(d: Seq<Entry>, c: Seq<Entry>, negate: bool) {
    if d.len() > 0 && c.len() > 0 {
        let y = c.last();
        let rest = d.last().1 + y.1;
        lemma_insert_pos(c.drop_last(), (y.0, rest), negate, true);
        lemma_insert_pos(d.drop_last(), (y.0, rest), false, true);
    }
}

/// Debtors that all owe, creditors that are all owed, and amounts that
/// cancel out.
pub open spec fn matchable(d: Seq<Entry>, c: Seq<Entry>, n: int) -> bool {
    &&& forall|i: int| 0 <= i < d.len() ==> #[trigger] d[i].1 > 0
    &&& forall|i: int| 0 <= i < c.len() ==> #[trigger] c[i].1 < 0
    &&& amount_sum(d) + amount_sum(c) == 0
    &&& within(d, n)
    &&& within(c, n)
}

/// Inserting an entry into a list whose entries all satisfy a condition on
/// amounts and positions keeps it so when the entry satisfies it too.
proof fn lemma_insert_keeps(s: Seq<Entry>, x: Entry, negate: bool, sign: int, n: int)
    requires
        forall|i: int| 0 <= i < s.len() ==> #[trigger] s[i].1 * sign > 0,
        within(s, n),
        x.1 * sign > 0,
        0 <= x.0 < n,
    ensures
        forall|i: int|
            0 <= i < insert_sorted(s, x, negate, true).len() ==> #[trigger] insert_sorted(
                s,
                x,
                negate,
                true,
            )[i].1 * sign > 0,
        within(insert_sorted(s, x, negate, true), n),
        insert_sorted(s, x, negate, true).len() == s.len() + 1,
        forall|g: spec_fn(int) -> bool|
            #[trigger] weight(insert_sorted(s, x, negate, true), g) == weight(s, g) + (if g(x.0) {
                x.1
            } else {
                0
            }),
{
    lemma_insert_pos(s, x, negate, true);
    let p = insert_pos(s, x, negate, true) as int;
    s.insert_ensures(p, x);
    let r = insert_sorted(s, x, negate, true);
    assert forall|i: int| 0 <= i < r.len() implies #[trigger] r[i].1 * sign > 0 && 0 <= r[i].0 < n by {
        if i > p {
            assert(r[i] == s[i - 1]);
        }
    }
    assert forall|g: spec_fn(int) -> bool|
        #[trigger] weight(insert_sorted(s, x, negate, true), g) == weight(s, g) + (if g(x.0) {
            x.1
        } else {
            0
        }) by {
        lemma_weight_insert(s, p, x, g);
    }
}

proof fn lemma_drop_last_keeps(s: Seq<Entry>, sign: int, n: int)
    requires
        s.len() > 0,
        forall|i: int| 0 <= i < s.len() ==> #[trigger] s[i].1 * sign > 0,
        within(s, n),
    ensures
        forall|i: int| 0 <= i < s.drop_last().len() ==> #[trigger] s.drop_last()[i].1 * sign > 0,
        within(s.drop_last(), n),
{
    assert forall|i: int| 0 <= i < s.drop_last().len() implies #[trigger] s.drop_last()[i].1 * sign
        > 0 && 0 <= s.drop_last()[i].0 < n by {
        assert(s.drop_last()[i] == s[i]);
    }
}

/// The two lists of a matching step and the payment made.
pub open spec fn matching_step(d: Seq<Entry>, c: Seq<Entry>, negate: bool) -> (
    Payment,
    Seq<Entry>,
    Seq<Entry>,
) {
    let x = d.last();
    let y = c.last();
    let rest = x.1 + y.1;
    if rest < 0 {
        ((x.0, y.0, x.1), d.drop_last(), insert_sorted(c.drop_last(), (y.0, rest), negate, true))
    } else if rest > 0 {
        ((x.0, y.0, x.1), insert_sorted(d.drop_last(), (y.0, rest), false, true), c.drop_last())
    } else {
        ((x.0, y.0, x.1), d.drop_last(), c.drop_last())
    }
}

/// One matching step keeps the lists matchable, takes one entry or two off
/// them, and moves out of the parties what it takes from the lists.
proof fn lemma_matching_step(d: Seq<Entry>, c: Seq<Entry>, negate: bool, n: int)
    requires
        matchable(d, c, n),
        d.len() > 0,
        c.len() > 0,
    ensures
        ({
            let (t, d2, c2) = matching_step(d, c, negate);
            &&& matchable(d2, c2, n)
            &&& d2.len() + c2.len() < d.len() + c.len()
            &&& matching_plan(d, c, negate) == seq![t] + matching_plan(d2, c2, negate)
            &&& 0 <= t.0 < n && 0 <= t.1 < n && t.2 > 0
            &&& forall|g: spec_fn(int) -> bool|
                (if g(t.0) {
                    t.2
                } else {
                    0
                }) - (if g(t.1) {
                    t.2
                } else {
                    0
                }) + #[trigger] weight(d2, g) + weight(c2, g) == weight(d, g) + weight(c, g)
        }),
{
    let x = d.last();
    let y = c.last();
    let rest = x.1 + y.1;
    lemma_drop_last_keeps(d, 1, n);
    lemma_drop_last_keeps(c, -1, n);
    assert(x.1 * 1 > 0);
    assert(y.1 * -1 > 0);
    let (t, d2, c2) = matching_step(d, c, negate);
    if rest < 0 {
        lemma_insert_keeps(c.drop_last(), (y.0, rest), negate, -1, n);
    } else if rest > 0 {
        lemma_insert_keeps(d.drop_last(), (y.0, rest), false, 1, n);
    }
    assert forall|g: spec_fn(int) -> bool|
        (if g(t.0) {
            t.2
        } else {
            0
        }) - (if g(t.1) {
            t.2
        } else {
            0
        }) + #[trigger] weight(d2, g) + weight(c2, g) == weight(d, g) + weight(c, g) by {
        if rest < 0 {
            assert(weight(c2, g) == weight(c.drop_last(), g) + (if g(y.0) {
                rest
            } else {
                0
            }));
        } else if rest > 0 {
            assert(weight(d2, g) == weight(d.drop_last(), g) + (if g(y.0) {
                rest
            } else {
                0
            }));
        }
    }
    assert(amount_sum(d2) + amount_sum(c2) == 0);
}

/// Matching debtors with creditors moves out of every party exactly what it
/// holds, in fewer payments than there are entries, each of them positive.
pub proof fn lemma_matching_plan(d: Seq<Entry>, c: Seq<Entry>, negate: bool, n: int)
    requires
        matchable(d, c, n),
    ensures
        forall|g: spec_fn(int) -> bool|
            #[trigger] flow(matching_plan(d, c, negate), g) == weight(d, g) + weight(c, g),
        plan_within(matching_plan(d, c, negate), n),
        matching_plan(d, c, negate).len() < d.len() + c.len() || d.len() + c.len() == 0,
    decreases d.len() + c.len(),
{
    if d.len() == 0 || c.len() == 0 {
        lemma_positive_sum(d);
        lemma_negative_sum(c);
        assert(d.len() == 0 && c.len() == 0);
        assert forall|g: spec_fn(int) -> bool|
            #[trigger] flow(matching_plan(d, c, negate), g) == weight(d, g) + weight(c, g) by {}
    } else {
        lemma_matching_step(d, c, negate, n);
        let (t, d2, c2) = matching_step(d, c, negate);
        lemma_matching_plan(d2, c2, negate, n);
        let p = matching_plan(d, c, negate);
        let q = matching_plan(d2, c2, negate);
        assert forall|g: spec_fn(int) -> bool|
            #[trigger] flow(matching_plan(d, c, negate), g) == weight(d, g) + weight(c, g) by {
            lemma_flow_cons(t, q, g);
            assert(flow(q, g) == weight(d2, g) + weight(c2, g));
        }
        assert forall|k: int| 0 <= k < p.len() implies 0 <= #[trigger] p[k].0 < n && 0 <= p[k].1
            < n && p[k].2 > 0 by {
            if k > 0 {
                assert(p[k] == q[k - 1]);
            }
        }
    }
}

/// The debtors of a balance set, sorted by amount (equal amounts in their
/// order in the set).
pub open spec fn debtors(debts: Seq<&Debt>) -> Seq<Entry> {
    sorted_side(positions(amounts(debts)), false, 1)
}

/// The creditors of a balance set, sorted by amount, or by magnitude with
/// `negate` (equal amounts in their order in the set).
pub open spec fn creditors(debts: Seq<&Debt>, negate: bool) -> Seq<Entry> {
    sorted_side(positions(amounts(debts)), negate, -1)
}

proof fn lemma_matching_start(debts: Seq<&Debt>, negate: bool)
    requires
        total(amounts(debts)) == 0,
    ensures
        matchable(debtors(debts), creditors(debts, negate), debts.len() as int),
        debtors(debts).len() + creditors(debts, negate).len() <= debts.len(),
        forall|nm: Seq<char>|
            weight(debtors(debts), named(debts, nm)) + weight(creditors(debts, negate), named(debts, nm))
                == owed_by(debts, nm),
{
    let all = positions(amounts(debts));
    let n = debts.len() as int;
    assert(all.take(n) =~= all);
    assert(debts.take(n) =~= debts);
    lemma_sorted_side(all, false, 1, n);
    lemma_sorted_side(all, negate, -1, n);
    lemma_sorted_side_weight(all, false, negate, everyone());
    lemma_total_weight(amounts(debts), n);
    lemma_side_len(all, false, negate);
    assert forall|nm: Seq<char>|
        weight(debtors(debts), named(debts, nm)) + weight(creditors(debts, negate), named(debts, nm))
            == owed_by(debts, nm) by {
        lemma_sorted_side_weight(all, false, negate, named(debts, nm));
        lemma_owed_weight(debts, nm, n);
    }
}

/// The two sides of a list hold no more entries than the list.
proof fn lemma_side_len(s: Seq<Entry>, negate: bool, negate_other: bool)
    ensures
        sorted_side(s, negate, 1).len() + sorted_side(s, negate_other, -1).len() <= s.len(),
    decreases s.len(),
{
    if s.len() > 0 {
        let t = s.drop_last();
        lemma_side_len(t, negate, negate_other);
        lemma_insert_pos(sorted_side(t, negate, 1), s.last(), negate, true);
        lemma_insert_pos(sorted_side(t, negate_other, -1), s.last(), negate_other, true);
    }
}

/// Matches the debtors with the creditors of a zero-sum group (see
/// `matching_plan`).
fn settle_by_matching(debts: &[&Debt], negate: bool) -> (r: Vec<Transaction>)
    requires
        total(amounts(debts@)) == 0,
    ensures
        carries_out(r@, debts@, matching_plan(debtors(debts@), creditors(debts@, negate), negate)),
        forall|nm: Seq<char>| net_sent(r@, nm) == owed_by(debts@, nm),
        r@.len() < debts@.len() || r@.len() == 0,
{
    let ghost n = debts@.len() as int;
    let mut ds = open_entries(debts, false, 1);
    let mut cs = open_entries(debts, negate, -1);
    proof {
        lemma_matching_start(debts@, negate);
        lemma_matching_plan(debtors(debts@), creditors(debts@, negate), negate, n);
    }
    let ghost whole = matching_plan(debtors(debts@), creditors(debts@, negate), negate);
    let mut txs: Vec<Transaction> = Vec::new();
    let ghost mut done: Seq<Payment> = Seq::empty();
    while ds.len() > 0 && cs.len() > 0
        invariant
            n == debts@.len(),
            matchable(view_entries(ds@), view_entries(cs@), n),
            done + matching_plan(view_entries(ds@), view_entries(cs@), negate) == whole,
            carries_out(txs@, debts@, done),
        decreases ds@.len() + cs@.len(),
    {
        let ghost d = view_entries(ds@);
        let ghost c = view_entries(cs@);
        proof {
            lemma_matching_step(d, c, negate, n);
        }
        let x = ds.pop().unwrap();
        let y = cs.pop().unwrap();
        assert(view_entries(ds@) =~= d.drop_last());
        assert(view_entries(cs@) =~= c.drop_last());
        assert(x.1 > 0 && y.1 < 0);
        txs.push(
            Transaction {
                source: debts[x.0].name.clone(),
                destination: debts[y.0].name.clone(),
                value: x.1 as u32,
            },
        );
        let rest = x.1 + y.1;
        if rest < 0 {
            insert_entry(&mut cs, (y.0, rest), negate, true);
        } else if rest > 0 {
            insert_entry(&mut ds, (y.0, rest), false, true);
        }
        proof {
            let (t, d2, c2) = matching_step(d, c, negate);
            assert(view_entries(ds@) == d2 && view_entries(cs@) == c2);
            assert(done.push(t) + matching_plan(d2, c2, negate) =~= done + (seq![t]
                + matching_plan(d2, c2, negate)));
            done = done.push(t);
            let k = done.len() - 1;
            assert(txs@[k].source@ == debts@[done[k].0].name@);
        }
    }
    proof {
        let d = view_entries(ds@);
        let c = view_entries(cs@);
        assert(matching_plan(d, c, negate) == Seq::<Payment>::empty());
        assert(done + matching_plan(d, c, negate) =~= done);
        lemma_matching_start(debts@, negate);
        assert forall|nm: Seq<char>| net_sent(txs@, nm) == owed_by(debts@, nm) by {
            lemma_net_sent(txs@, debts@, done, nm);
            assert(flow(whole, named(debts@, nm)) == weight(debtors(debts@), named(debts@, nm))
                + weight(creditors(debts@, negate), named(debts@, nm)));
        }
    }
    txs
}

/// Settles a group of balances from the most debted party to the most
/// credited one: each debtor, largest first, pays its whole amount to the
/// party that is owed most.
pub fn balance_by_debted_amounts_desc(debts: &[&Debt]) -> (r: Result<
    Vec<Transaction>,
    BalancingError,
>)
    ensures
        r is Err <==> total(amounts(debts@)) != 0,
        r matches Ok(txs) ==> carries_out(
            txs@,
            debts@,
            matching_plan(debtors(debts@), creditors(debts@, true), true),
        ),
        r matches Ok(txs) ==> forall|nm: Seq<char>| net_sent(txs@, nm) == owed_by(debts@, nm),
        r matches Ok(txs) ==> txs@.len() < debts@.len() || txs@.len() == 0,
{
    if total_owed(debts) != 0 {
        return Err(BalancingError::NonZeroGroup);
    }
    Ok(settle_by_matching(debts, true))
}

/// Settles a group of balances from the most debted party to the least
/// credited one: each debtor, largest first, pays its whole amount to the
/// party that is owed least.
pub fn balance_by_debted_amounts_asc(debts: &[&Debt]) -> (r: Result<
    Vec<Transaction>,
    BalancingError,
>)
    ensures
        r is Err <==> total(amounts(debts@)) != 0,
        r matches Ok(txs) ==> carries_out(
            txs@,
            debts@,
            matching_plan(debtors(debts@), creditors(debts@, false), false),
        ),
        r matches Ok(txs) ==> forall|nm: Seq<char>| net_sent(txs@, nm) == owed_by(debts@, nm),
        r matches Ok(txs) ==> txs@.len() < debts@.len() || txs@.len() == 0,
{
    if total_owed(debts) != 0 {
        return Err(BalancingError::NonZeroGroup);
    }
    Ok(settle_by_matching(debts, false))
}


/// The payments that routing the balances before position `k` through the
/// hub makes: each debtor pays the hub its amount, the hub pays each
/// creditor its amount, and settled balances take no part.
pub open spec fn hub_plan(vals: Seq<i32>, hub: int, k: int) -> Seq<Payment>
    decreases k,
{
    if k <= 0 {
        Seq::empty()
    } else {
        let p = hub_plan(vals, hub, k - 1);
        let i = k - 1;
        let v = vals[i] as int;
        if i == hub || v == 0 {
            p
        } else if v < 0 {
            p.push((hub, i, -v))
        } else {
            p.push((i, hub, v))
        }
    }
}

/// How many of the balances before position `k` are not settled.
pub open spec fn unsettled(vals: Seq<i32>, k: int) -> nat
    decreases k,
{
    if k <= 0 {
        0
    } else {
        unsettled(vals, k - 1) + (if vals[k - 1] != 0 {
            1nat
        } else {
            0nat
        })
    }
}

/// Routing through a hub moves out of every party what it holds, less the
/// total of the balances routed when the party is the hub; it pays once for
/// each unsettled balance but the hub.
pub proof fn lemma_hub_plan(vals: Seq<i32>, hub: int, k: int, g: spec_fn(int) -> bool)
    requires
        0 <= hub < vals.len(),
        0 <= k <= vals.len(),
    ensures
        flow(hub_plan(vals, hub, k), g) == weight(positions(vals).take(k), g) - (if g(hub) {
            sum_prefix(vals, k)
        } else {
            0
        }),
        hub_plan(vals, hub, k).len() == unsettled(vals, k) - (if hub < k && vals[hub] != 0 {
            1int
        } else {
            0int
        }),
        plan_within(hub_plan(vals, hub, k), vals.len() as int),
    decreases k,
{
    if k > 0 {
        let i = k - 1;
        let p = hub_plan(vals, hub, k - 1);
        lemma_hub_plan(vals, hub, k - 1, g);
        assert(positions(vals).take(k).drop_last() =~= positions(vals).take(k - 1));
        let v = vals[i] as int;
        if !(i == hub || v == 0) {
            let t = if v < 0 {
                (hub, i, -v)
            } else {
                (i, hub, v)
            };
            assert(hub_plan(vals, hub, k) == p.push(t));
            assert(p.push(t) =~= p + seq![t]);
            lemma_flow_concat(p, seq![t], g);
            lemma_flow_cons(t, Seq::empty(), g);
            assert(seq![t] + Seq::<Payment>::empty() =~= seq![t]);
            let q = p.push(t);
            assert forall|j: int| 0 <= j < q.len() implies 0 <= #[trigger] q[j].0 < vals.len() && 0
                <= q[j].1 < vals.len() && q[j].2 > 0 by {
                if j < p.len() {
                    assert(q[j] == p[j]);
                }
            }
        }
    }
}

/// No more balances are unsettled than there are, and a settled one is
/// not counted.
pub proof fn lemma_unsettled_bound(vals: Seq<i32>, hub: int, k: int)
    requires
        0 <= hub < k <= vals.len(),
    ensures
        unsettled(vals, k) <= k - (if vals[hub] == 0 {
            1int
        } else {
            0int
        }),
    decreases k,
{
    if k - 1 > hub {
        lemma_unsettled_bound(vals, hub, k - 1);
    } else {
        lemma_unsettled_le(vals, k - 1);
    }
}

proof fn lemma_unsettled_le(vals: Seq<i32>, k: int)
    requires
        0 <= k <= vals.len(),
    ensures
        unsettled(vals, k) <= k,
    decreases k,
{
    if k > 0 {
        lemma_unsettled_le(vals, k - 1);
    }
}

/// Settles a group of balances through the one at `hub_index`: every debtor
/// pays the hub and the hub pays every creditor, in the order of the group.
pub fn balance_by_spoke_hub(debts: &[&Debt], hub_index: usize) -> (r: Result<
    Vec<Transaction>,
    BalancingError,
>)
    requires
        hub_index < debts@.len(),
    ensures
        r is Err <==> total(amounts(debts@)) != 0,
        r matches Ok(txs) ==> carries_out(
            txs@,
            debts@,
            hub_plan(amounts(debts@), hub_index as int, debts@.len() as int),
        ),
        r matches Ok(txs) ==> forall|nm: Seq<char>| net_sent(txs@, nm) == owed_by(debts@, nm),
        r matches Ok(txs) ==> txs@.len() == unsettled(amounts(debts@), debts@.len() as int) - (
        if debts@[hub_index as int].value != 0 {
            1int
        } else {
            0int
        }),
        r matches Ok(txs) ==> txs@.len() < debts@.len(),
{
    if total_owed(debts) != 0 {
        return Err(BalancingError::NonZeroGroup);
    }
    let ghost vals = amounts(debts@);
    let ghost hub = hub_index as int;
    let ghost n = debts@.len() as int;
    let mut txs: Vec<Transaction> = Vec::new();
    let mut i: usize = 0;
    while i < debts.len()
        invariant
            i <= n,
            n == debts@.len(),
            vals == amounts(debts@),
            hub == hub_index as int,
            hub < n,
            carries_out(txs@, debts@, hub_plan(vals, hub, i as int)),
        decreases n - i,
    {
        let ghost before = hub_plan(vals, hub, i as int);
        proof {
            lemma_hub_plan(vals, hub, i as int + 1, everyone());
        }
        let v = debts[i].value;
        if i != hub_index && v != 0 {
            let hub_name = debts[hub_index].name.clone();
            let name = debts[i].name.clone();
            if v < 0 {
                txs.push(
                    Transaction { source: hub_name, destination: name, value: (-(v as i64)) as u32 },
                );
            } else {
                txs.push(Transaction { source: name, destination: hub_name, value: v as u32 });
            }
            proof {
                let k = txs@.len() - 1;
                assert(hub_plan(vals, hub, i + 1)[k] == hub_plan(vals, hub, i + 1).last());
                assert forall|j: int| 0 <= j < k implies #[trigger] hub_plan(vals, hub, i + 1)[j]
                    == before[j] by {}
                assert(txs@[k].source@ == debts@[hub_plan(vals, hub, i + 1)[k].0].name@);
            }
        }
        i = i + 1;
    }
    proof {
        lemma_hub_plan(vals, hub, n, everyone());
        lemma_unsettled_bound(vals, hub, n);
        assert(positions(vals).take(n) =~= positions(vals));
        assert(debts@.take(n) =~= debts@);
        assert forall|nm: Seq<char>| net_sent(txs@, nm) == owed_by(debts@, nm) by {
            lemma_hub_plan(vals, hub, n, named(debts@, nm));
            lemma_net_sent(txs@, debts@, hub_plan(vals, hub, n), nm);
            lemma_owed_weight(debts@, nm, n);
        }
    }
    Ok(txs)
}

} // verus!
