use vstd::prelude::*;

use crate::debt::{amounts, named, owed_by, total, total_owed, BalancingError, Debt};
use crate::worklist::{
    flow, insert_entry, insert_sorted, lemma_ends, lemma_flow_cons, lemma_insert_pos,
    lemma_middle, lemma_next, lemma_not_single, lemma_start, lemma_weight_step, middle,
    open_entries, plan_within, positions, settleable, sorted_side, view_entries, weight, within,
    Entry, Payment,
};

verus! {

/// A payment from `payer` to `payee` of `value` minor units.
#[derive(Debug, Clone, PartialEq, Eq)]
pub struct Transaction {
    pub payer: String,
    pub payee: String,
    pub value: i32,
}

/// What the transactions of `txs` move out of the parties named `nm`: paid
/// amounts count up, received amounts count down.
pub open spec fn net_paid(txs: Seq<Transaction>, nm: Seq<char>) -> int
    decreases txs.len(),
{
    if txs.len() == 0 {
        0
    } else {
        (if txs[0].payer@ == nm {
            txs[0].value as int
        } else {
            0
        }) - (if txs[0].payee@ == nm {
            txs[0].value as int
        } else {
            0
        }) + net_paid(txs.drop_first(), nm)
    }
}

/// Whether `txs` carries out `plan` on `debts`, each payment between the
/// names at its positions.
pub open spec fn names_plan(txs: Seq<Transaction>, debts: Seq<&Debt>, plan: Seq<Payment>) -> bool {
    &&& txs.len() == plan.len()
    &&& plan_within(plan, debts.len() as int)
    &&& forall|k: int|
        0 <= k < txs.len() ==> {
            &&& (#[trigger] txs[k]).payer@ == debts[plan[k].0].name@
            &&& txs[k].payee@ == debts[plan[k].1].name@
            &&& txs[k].value == plan[k].2
        }
}

pub proof fn lemma_net_paid(txs: Seq<Transaction>, debts: Seq<&Debt>, plan: Seq<Payment>, nm: Seq<char>)
    requires
        names_plan(txs, debts, plan),
    ensures
        net_paid(txs, nm) == flow(plan, named(debts, nm)),
    decreases txs.len(),
{
    if txs.len() > 0 {
        let t = txs.drop_first();
        let p = plan.drop_first();
        assert forall|k: int| 0 <= k < t.len() implies {
            &&& (#[trigger] t[k]).payer@ == debts[p[k].0].name@
            &&& t[k].payee@ == debts[p[k].1].name@
            &&& t[k].value == p[k].2
        } by {
            assert(t[k] == txs[k + 1] && p[k] == plan[k + 1]);
        }
        assert forall|k: int| 0 <= k < p.len() implies 0 <= #[trigger] p[k].0 < debts.len() && 0
            <= p[k].1 < debts.len() && p[k].2 > 0 by {
            assert(p[k] == plan[k + 1]);
        }
        assert(txs[0].payer@ == debts[plan[0].0].name@);
        lemma_net_paid(t, debts, p, nm);
    }
}

/// The payments that settling by credited amounts makes on a working list
/// sorted by amount: the most credited party (first) is paid by the most
/// debted one (last), as much as the smaller of the two amounts; a debtor's
/// remainder goes back after the entries of equal amount, a creditor's
/// remainder before them.
pub open spec fn credited_plan(s: Seq<Entry>) -> Seq<Payment>
    decreases s.len(),
    via credited_plan_decreases
{
    if s.len() < 2 {
        Seq::empty()
    } else {
        let c = s[0];
        let d = s.last();
        if -c.1 < d.1 {
            seq![(d.0, c.0, -c.1)] + credited_plan(
                insert_sorted(middle(s), (d.0, d.1 + c.1), false, true),
            )
        } else if -c.1 == d.1 {
            seq![(d.0, c.0, d.1)] + credited_plan(middle(s))
        } else {
            seq![(d.0, c.0, d.1)] + credited_plan(
                insert_sorted(middle(s), (c.0, c.1 + d.1), false, false),
            )
        }
    }
}

#[via_fn]
proof fn credited_plan_decreases(s: Seq<Entry>) {
    if s.len() >= 2 {
        let m = middle(s);
        lemma_insert_pos(m, (s.last().0, s.last().1 + s[0].1), false, true);
        lemma_insert_pos(m, (s[0].0, s[0].1 + s.last().1), false, false);
    }
}

/// The payments that settling by debted amounts makes on a working list
/// sorted by amount: the most debted party (last) pays its whole amount to
/// the most credited one (first), whose remainder, owed or owing, goes back
/// after the entries of equal amount.
pub open spec fn debted_plan(s: Seq<Entry>) -> Seq<Payment>
    decreases s.len(),
    via debted_plan_decreases
{
    if s.len() < 2 {
        Seq::empty()
    } else {
        let c = s[0];
        let d = s.last();
        if c.1 + d.1 == 0 {
            seq![(d.0, c.0, d.1)] + debted_plan(middle(s))
        } else {
            seq![(d.0, c.0, d.1)] + debted_plan(
                insert_sorted(middle(s), (c.0, c.1 + d.1), false, true),
            )
        }
    }
}

#[via_fn]
proof fn debted_plan_decreases(s: Seq<Entry>) {
    if s.len() >= 2 {
        lemma_insert_pos(middle(s), (s[0].0, s[0].1 + s.last().1), false, true);
    }
}

/// The working list that both settlements start from: the non-zero balances
/// sorted by amount, equal amounts in their order in `debts`.
pub open spec fn start(debts: Seq<&Debt>) -> Seq<Entry> {
    sorted_side(positions(amounts(debts)), false, 0)
}

/// Settling by credited amounts moves out of every party exactly what it
/// holds, in fewer payments than there are entries, each of them positive.
pub proof fn lemma_credited_plan(s: Seq<Entry>, n: int, g: spec_fn(int) -> bool)
    requires
        settleable(s),
        within(s, n),
    ensures
        flow(credited_plan(s), g) == weight(s, g),
        plan_within(credited_plan(s), n),
        credited_plan(s).len() < s.len() || s.len() == 0,
    decreases s.len(),
{
    lemma_not_single(s);
    if s.len() >= 2 {
        lemma_ends(s);
        let c = s[0];
        let d = s.last();
        let m = middle(s);
        let (t, next) = if -c.1 < d.1 {
            let x = (d.0, d.1 + c.1);
            lemma_next(s, x, true, n);
            lemma_weight_step(s, x, false, true, g);
            ((d.0, c.0, -c.1), insert_sorted(m, x, false, true))
        } else if -c.1 == d.1 {
            lemma_middle(s, n);
            lemma_weight_step(s, c, false, true, g);
            ((d.0, c.0, d.1), m)
        } else {
            let x = (c.0, c.1 + d.1);
            lemma_next(s, x, false, n);
            lemma_weight_step(s, x, false, false, g);
            ((d.0, c.0, d.1), insert_sorted(m, x, false, false))
        };
        assert(settleable(next) && within(next, n));
        lemma_credited_plan(next, n, g);
        assert(credited_plan(s) == seq![t] + credited_plan(next));
        lemma_flow_cons(t, credited_plan(next), g);
        lemma_not_single(next);
        let p = credited_plan(s);
        assert forall|k: int| 0 <= k < p.len() implies 0 <= #[trigger] p[k].0 < n && 0 <= p[k].1
            < n && p[k].2 > 0 by {
            if k > 0 {
                assert(p[k] == credited_plan(next)[k - 1]);
            }
        }
    }
}

/// Settling by debted amounts moves out of every party exactly what it holds,
/// in fewer payments than there are entries, each of them positive.
pub proof fn lemma_debted_plan(s: Seq<Entry>, n: int, g: spec_fn(int) -> bool)
    requires
        settleable(s),
        within(s, n),
    ensures
        flow(debted_plan(s), g) == weight(s, g),
        plan_within(debted_plan(s), n),
        debted_plan(s).len() < s.len() || s.len() == 0,
    decreases s.len(),
{
    lemma_not_single(s);
    if s.len() >= 2 {
        lemma_ends(s);
        let c = s[0];
        let d = s.last();
        let m = middle(s);
        let t = (d.0, c.0, d.1);
        let next = if c.1 + d.1 == 0 {
            lemma_middle(s, n);
            lemma_weight_step(s, c, false, true, g);
            m
        } else {
            let x = (c.0, c.1 + d.1);
            lemma_next(s, x, true, n);
            lemma_weight_step(s, x, false, true, g);
            insert_sorted(m, x, false, true)
        };
        assert(settleable(next) && within(next, n));
        lemma_debted_plan(next, n, g);
        assert(debted_plan(s) == seq![t] + debted_plan(next));
        lemma_flow_cons(t, debted_plan(next), g);
        lemma_not_single(next);
        let p = debted_plan(s);
        assert forall|k: int| 0 <= k < p.len() implies 0 <= #[trigger] p[k].0 < n && 0 <= p[k].1
            < n && p[k].2 > 0 by {
            if k > 0 {
                assert(p[k] == debted_plan(next)[k - 1]);
            }
        }
    }
}

/// The transactions of a plan that settles `debts` move out of every name
/// exactly what the balances of that name owe.
proof fn lemma_settles(txs: Seq<Transaction>, debts: Seq<&Debt>, plan: Seq<Payment>)
    requires
        names_plan(txs, debts, plan),
        forall|g: spec_fn(int) -> bool| #[trigger] flow(plan, g) == weight(start(debts), g),
        total(amounts(debts)) == 0,
    ensures
        forall|nm: Seq<char>| net_paid(txs, nm) == owed_by(debts, nm),
{
    lemma_start(debts);
    assert forall|nm: Seq<char>| net_paid(txs, nm) == owed_by(debts, nm) by {
        lemma_net_paid(txs, debts, plan, nm);
        assert(flow(plan, named(debts, nm)) == weight(start(debts), named(debts, nm)));
    }
}

/// Settles a group of balances by credited amounts: the most credited party
/// is paid first, by the most debted one.
pub fn pay_credited(debts: &[&Debt]) -> (r: Result<Vec<Transaction>, BalancingError>)
    ensures
        r is Err <==> total(amounts(debts@)) != 0,
        r matches Ok(txs) ==> names_plan(txs@, debts@, credited_plan(start(debts@))),
        r matches Ok(txs) ==> forall|nm: Seq<char>| net_paid(txs@, nm) == owed_by(debts@, nm),
        r matches Ok(txs) ==> txs@.len() < debts@.len() || txs@.len() == 0,
{
    if total_owed(debts) != 0 {
        return Err(BalancingError::NonZeroGroup);
    }
    let ghost n = debts@.len() as int;
    let mut work = open_entries(debts, false, 0);
    let ghost init = view_entries(work@);
    proof {
        lemma_start(debts@);
    }
    let mut txs: Vec<Transaction> = Vec::new();
    let ghost mut done: Seq<Payment> = Seq::empty();
    while work.len() >= 2
        invariant
            n == debts@.len(),
            init == start(debts@),
            settleable(view_entries(work@)),
            within(view_entries(work@), n),
            done + credited_plan(view_entries(work@)) == credited_plan(init),
            names_plan(txs@, debts@, done),
            plan_within(done, n),
        decreases work@.len(),
    {
        let ghost s = view_entries(work@);
        proof {
            lemma_ends(s);
            lemma_credited_plan(s, n, |i: int| true);
        }
        let c = work.remove(0);
        let d = work.pop().unwrap();
        assert(view_entries(work@) =~= middle(s));
        let payer = debts[d.0].name.clone();
        let payee = debts[c.0].name.clone();
        let ghost t: Payment;
        if -(c.1 as i64) < d.1 as i64 {
            proof {
                t = (d.0 as int, c.0 as int, -c.1);
                lemma_next(s, (d.0 as int, d.1 + c.1), true, n);
            }
            txs.push(Transaction { payer, payee, value: -c.1 });
            insert_entry(&mut work, (d.0, d.1 + c.1), false, true);
        } else if -(c.1 as i64) == d.1 as i64 {
            proof {
                t = (d.0 as int, c.0 as int, d.1 as int);
                lemma_middle(s, n);
            }
            txs.push(Transaction { payer, payee, value: d.1 });
        } else {
            proof {
                t = (d.0 as int, c.0 as int, d.1 as int);
                lemma_next(s, (c.0 as int, c.1 + d.1), false, n);
            }
            txs.push(Transaction { payer, payee, value: d.1 });
            insert_entry(&mut work, (c.0, c.1 + d.1), false, false);
        }
        proof {
            let next = view_entries(work@);
            assert(credited_plan(s) == seq![t] + credited_plan(next));
            assert(done.push(t) + credited_plan(next) =~= done + (seq![t] + credited_plan(next)));
            done = done.push(t);
            let k = done.len() - 1;
            assert(txs@[k].payer@ == debts@[done[k].0].name@);
        }
    }
    proof {
        assert(done + credited_plan(view_entries(work@)) =~= done);
        lemma_credited_plan(init, n, |i: int| true);
        assert forall|g: spec_fn(int) -> bool| #[trigger] flow(done, g) == weight(start(debts@), g) by {
            lemma_credited_plan(init, n, g);
        }
        lemma_settles(txs@, debts@, done);
    }
    Ok(txs)
}

/// Settles a group of balances by debted amounts: the most debted party pays
/// its whole amount first, to the most credited one.
pub fn pay_debted(debts: &[&Debt]) -> (r: Result<Vec<Transaction>, BalancingError>)
    ensures
        r is Err <==> total(amounts(debts@)) != 0,
        r matches Ok(txs) ==> names_plan(txs@, debts@, debted_plan(start(debts@))),
        r matches Ok(txs) ==> forall|nm: Seq<char>| net_paid(txs@, nm) == owed_by(debts@, nm),
        r matches Ok(txs) ==> txs@.len() < debts@.len() || txs@.len() == 0,
{
    if total_owed(debts) != 0 {
        return Err(BalancingError::NonZeroGroup);
    }
    let ghost n = debts@.len() as int;
    let mut work = open_entries(debts, false, 0);
    let ghost init = view_entries(work@);
    proof {
        lemma_start(debts@);
    }
    let mut txs: Vec<Transaction> = Vec::new();
    let ghost mut done: Seq<Payment> = Seq::empty();
    while work.len() >= 2
        invariant
            n == debts@.len(),
            init == start(debts@),
            settleable(view_entries(work@)),
            within(view_entries(work@), n),
            done + debted_plan(view_entries(work@)) == debted_plan(init),
            names_plan(txs@, debts@, done),
            plan_within(done, n),
        decreases work@.len(),
    {
        let ghost s = view_entries(work@);
        proof {
            lemma_ends(s);
            lemma_debted_plan(s, n, |i: int| true);
        }
        let c = work.remove(0);
        let d = work.pop().unwrap();
        assert(view_entries(work@) =~= middle(s));
        let payer = debts[d.0].name.clone();
        let payee = debts[c.0].name.clone();
        let ghost t: Payment = (d.0 as int, c.0 as int, d.1 as int);
        txs.push(Transaction { payer, payee, value: d.1 });
        if c.1 + d.1 == 0 {
            proof {
                lemma_middle(s, n);
            }
        } else {
            proof {
                lemma_next(s, (c.0 as int, c.1 + d.1), true, n);
            }
            insert_entry(&mut work, (c.0, c.1 + d.1), false, true);
        }
        proof {
            let next = view_entries(work@);
            assert(debted_plan(s) == seq![t] + debted_plan(next));
            assert(done.push(t) + debted_plan(next) =~= done + (seq![t] + debted_plan(next)));
            done = done.push(t);
            let k = done.len() - 1;
            assert(txs@[k].payer@ == debts@[done[k].0].name@);
        }
    }
    proof {
        assert(done + debted_plan(view_entries(work@)) =~= done);
        assert forall|g: spec_fn(int) -> bool| #[trigger] flow(done, g) == weight(start(debts@), g) by {
            lemma_debted_plan(init, n, g);
        }
        lemma_debted_plan(init, n, |i: int| true);
        lemma_settles(txs@, debts@, done);
    }
    Ok(txs)
}

} // verus!
