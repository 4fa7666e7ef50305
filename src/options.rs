use vstd::prelude::*;

use crate::balancing::{
    balance_by_debted_amounts_asc, balance_by_spoke_hub, creditors, debtors, hub_plan,
    matching_plan, Transaction,
};
use crate::debt::{amounts, Debt};
use crate::partitionings::{
    is_zero_sum_partitioning, lemma_longest_sound, longest_partitionings,
    longest_zero_sum_partitionings, view_partitioning, view_partitionings, MAX_BALANCES,
};
use crate::transactions::{credited_plan, debted_plan, names_plan, pay_credited, pay_debted, start};
use crate::worklist::Payment;

verus! {

/// How each zero-sum group of an option is settled.
#[derive(Debug, Clone, Copy, PartialEq, Eq)]
pub enum SettlementStrategy {
    /// The most credited party is paid first (see `pay_credited`).
    ByCreditedAmountDesc,
    /// The most debted party pays its whole amount first (see `pay_debted`).
    ByDebtedAmountDesc,
    /// The most debted party pays the least credited one first (see
    /// `balance_by_debted_amounts_asc`).
    ByDebtedAmountAsc,
    /// Every payment goes through one hub: the balance at this position when
    /// the group holds it, else the first balance of the group (see
    /// `balance_by_spoke_hub`).
    SpokeHub(usize),
}

/// A transaction as names and an amount.
pub open spec fn tx_view(t: Transaction) -> (Seq<char>, Seq<char>, int) {
    (t.source@, t.destination@, t.value as int)
}

/// The balances at the positions of a group.
pub open spec fn group_of<'a>(balances: Seq<&'a Debt>, q: Seq<usize>) -> Seq<&'a Debt> {
    q.map_values(|i: usize| balances[i as int])
}

/// Where the hub of a group stands in it: at the hub's position when the
/// group holds it, else first.
pub open spec fn hub_slot(q: Seq<usize>, hub: usize) -> int
    decreases q.len(),
{
    if q.len() == 0 {
        0
    } else if q.last() == hub {
        q.len() - 1
    } else {
        hub_slot(q.drop_last(), hub)
    }
}

/// The payments that a strategy makes for one group.
pub open spec fn group_plan(strategy: SettlementStrategy, q: Seq<usize>, group: Seq<&Debt>) -> Seq<
    Payment,
> {
    match strategy {
        SettlementStrategy::ByCreditedAmountDesc => credited_plan(start(group)),
        SettlementStrategy::ByDebtedAmountDesc => debted_plan(start(group)),
        SettlementStrategy::ByDebtedAmountAsc => matching_plan(
            debtors(group),
            creditors(group, false),
            false,
        ),
        SettlementStrategy::SpokeHub(hub) => hub_plan(
            amounts(group),
            hub_slot(q, hub),
            group.len() as int,
        ),
    }
}

/// The payments of a plan, by the names of the group's balances.
pub open spec fn named_plan(group: Seq<&Debt>, plan: Seq<Payment>) -> Seq<
    (Seq<char>, Seq<char>, int),
> {
    plan.map_values(|p: Payment| (group[p.0].name@, group[p.1].name@, p.2))
}

/// The transactions of one option: those of each group of a partitioning
/// in turn, the groups of the first `x` partitions.
pub open spec fn option_of(
    balances: Seq<&Debt>,
    p: Seq<Seq<usize>>,
    strategy: SettlementStrategy,
    x: int,
) -> Seq<(Seq<char>, Seq<char>, int)>
    decreases x,
{
    if x <= 0 {
        Seq::empty()
    } else {
        let q = p[x - 1];
        let group = group_of(balances, q);
        option_of(balances, p, strategy, x - 1) + named_plan(group, group_plan(strategy, q, group))
    }
}

/// The options for a balance set: one for each longest partitioning.
pub open spec fn options_of(balances: Seq<&Debt>, strategy: SettlementStrategy) -> Seq<
    Seq<(Seq<char>, Seq<char>, int)>,
> {
    let ps = longest_partitionings(amounts(balances));
    ps.map_values(|p: Seq<Seq<usize>>| option_of(balances, p, strategy, p.len() as int))
}

/// The amounts of a balance set, in order.
fn amounts_of(balances: &[&Debt]) -> (r: Vec<i32>)
    ensures
        r@ == amounts(balances@),
{
    let mut r: Vec<i32> = Vec::new();
    let mut i: usize = 0;
    while i < balances.len()
        invariant
            i <= balances@.len(),
            r@ == amounts(balances@.take(i as int)),
        decreases balances@.len() - i,
    {
        r.push(balances[i].value);
        i = i + 1;
        assert(r@ =~= amounts(balances@.take(i as int)));
    }
    assert(balances@.take(balances@.len() as int) =~= balances@);
    r
}

/// The slot of the hub in a group (see `hub_slot`).
fn find_hub(q: &Vec<usize>, hub: usize) -> (r: usize)
    ensures
        r == hub_slot(q@, hub),
        q@.len() > 0 ==> r < q@.len(),
{
    let mut slot: usize = 0;
    let mut j: usize = 0;
    while j < q.len()
        invariant
            j <= q@.len(),
            slot == hub_slot(q@.take(j as int), hub),
            j > 0 ==> slot < j,
        decreases q@.len() - j,
    {
        if q[j] == hub {
            slot = j;
        }
        j = j + 1;
        assert(q@.take(j as int).drop_last() =~= q@.take(j - 1));
    }
    assert(q@.take(q@.len() as int) =~= q@);
    slot
}

/// The transactions of a plan carried out with the payer and payee of
/// each transaction turned into its source and destination.
fn as_transfers(txs: Vec<crate::transactions::Transaction>) -> (r: Vec<Transaction>)
    requires
        forall|k: int| 0 <= k < txs@.len() ==> #[trigger] txs@[k].value > 0,
    ensures
        r@.len() == txs@.len(),
        forall|k: int|
            0 <= k < r@.len() ==> #[trigger] tx_view(r@[k]) == (
                txs@[k].payer@,
                txs@[k].payee@,
                txs@[k].value as int,
            ),
{
    let mut r: Vec<Transaction> = Vec::new();
    let mut k: usize = 0;
    while k < txs.len()
        invariant
            k <= txs@.len(),
            r@.len() == k,
            forall|i: int| 0 <= i < txs@.len() ==> #[trigger] txs@[i].value > 0,
            forall|i: int|
                0 <= i < k ==> #[trigger] tx_view(r@[i]) == (
                    txs@[i].payer@,
                    txs@[i].payee@,
                    txs@[i].value as int,
                ),
        decreases txs@.len() - k,
    {
        let t = &txs[k];
        r.push(
            Transaction {
                source: t.payer.clone(),
                destination: t.payee.clone(),
                value: t.value as u32,
            },
        );
        k = k + 1;
    }
    r
}

/// Settles one zero-sum group with a strategy.
fn settle_group(
    balances: &[&Debt],
    q: &Vec<usize>,
    strategy: SettlementStrategy,
) -> (r: Vec<Transaction>)
    requires
        forall|y: int| 0 <= y < q@.len() ==> #[trigger] q@[y] < balances@.len(),
        q@.len() > 0,
        crate::debt::total(amounts(group_of(balances@, q@))) == 0,
    ensures
        r@.map_values(|t: Transaction| tx_view(t)) == named_plan(
            group_of(balances@, q@),
            group_plan(strategy, q@, group_of(balances@, q@)),
        ),
{
    let ghost g = group_of(balances@, q@);
    let mut group: Vec<&Debt> = Vec::new();
    let mut y: usize = 0;
    while y < q.len()
        invariant
            y <= q@.len(),
            forall|z: int| 0 <= z < q@.len() ==> #[trigger] q@[z] < balances@.len(),
            g == group_of(balances@, q@),
            group@ == g.take(y as int),
        decreases q@.len() - y,
    {
        group.push(balances[q[y]]);
        y = y + 1;
        assert(group@ =~= g.take(y as int));
    }
    assert(g.take(q@.len() as int) =~= g);
    let members = group.as_slice();
    let ghost plan = group_plan(strategy, q@, g);
    let r = match strategy {
        SettlementStrategy::ByCreditedAmountDesc => {
            let txs = pay_credited(members).unwrap();
            assert(names_plan(txs@, g, plan));
            assert forall|k: int| 0 <= k < txs@.len() implies #[trigger] txs@[k].value > 0 by {
                assert(0 <= plan[k].0 < g.len());
                assert(plan[k].2 > 0);
            }
            as_transfers(txs)
        },
        SettlementStrategy::ByDebtedAmountDesc => {
            let txs = pay_debted(members).unwrap();
            assert(names_plan(txs@, g, plan));
            assert forall|k: int| 0 <= k < txs@.len() implies #[trigger] txs@[k].value > 0 by {
                assert(0 <= plan[k].0 < g.len());
                assert(plan[k].2 > 0);
            }
            as_transfers(txs)
        },
        SettlementStrategy::ByDebtedAmountAsc => balance_by_debted_amounts_asc(members).unwrap(),
        SettlementStrategy::SpokeHub(hub) => {
            let slot = find_hub(q, hub);
            balance_by_spoke_hub(members, slot).unwrap()
        },
    };
    assert(r@.map_values(|t: Transaction| tx_view(t)) =~= named_plan(g, plan));
    r
}

/// The settlement options for a balance set: for each longest zero-sum
/// partitioning, the transactions that settle its groups one after
/// another with the given strategy. A set that cannot be settled has none.
pub fn compute_options(balances: &[&Debt], strategy: SettlementStrategy) -> (r: Vec<
    Vec<Transaction>,
>)
    requires
        balances@.len() <= MAX_BALANCES,
    ensures
        r@.map_values(|o: Vec<Transaction>| o@.map_values(|t: Transaction| tx_view(t)))
            == options_of(balances@, strategy),
{
    let vals = amounts_of(balances);
    let ps = longest_zero_sum_partitionings(vals.as_slice());
    let ghost pv = view_partitionings(ps@);
    let ghost f = |t: Transaction| tx_view(t);
    proof {
        lemma_longest_sound(vals@);
    }
    let mut r: Vec<Vec<Transaction>> = Vec::new();
    let mut o: usize = 0;
    while o < ps.len()
        invariant
            o <= ps@.len(),
            pv == view_partitionings(ps@),
            pv == longest_partitionings(vals@),
            vals@ == amounts(balances@),
            f == (|t: Transaction| tx_view(t)),
            forall|z: int| 0 <= z < pv.len() ==> is_zero_sum_partitioning(vals@, #[trigger] pv[z]),
            r@.len() == o,
            forall|z: int|
                0 <= z < o ==> (#[trigger] r@[z])@.map_values(f) == option_of(
                    balances@,
                    pv[z],
                    strategy,
                    pv[z].len() as int,
                ),
        decreases ps@.len() - o,
    {
        let p = &ps[o];
        let ghost pp = pv[o as int];
        assert(pp == view_partitioning(p@));
        assert(is_zero_sum_partitioning(vals@, pp));
        let mut option: Vec<Transaction> = Vec::new();
        let mut x: usize = 0;
        while x < p.len()
            invariant
                x <= p@.len(),
                pp == view_partitioning(p@),
                is_zero_sum_partitioning(vals@, pp),
                vals@ == amounts(balances@),
                f == (|t: Transaction| tx_view(t)),
                option@.map_values(f) == option_of(balances@, pp, strategy, x as int),
            decreases p@.len() - x,
        {
            let q = &p[x];
            proof {
                assert(pp[x as int] == q@);
                assert(pp[x as int].len() > 0);
                assert forall|y: int| 0 <= y < q@.len() implies #[trigger] q@[y] < balances@.len() by {
                    assert(pp[x as int][y] < vals@.len());
                }
                assert(amounts(group_of(balances@, q@)) =~= q@.map_values(|i: usize| vals@[i as int]));
            }
            let ghost before = option@;
            let mut part = settle_group(balances, q, strategy);
            let ghost added = part@;
            option.append(&mut part);
            assert(option@.map_values(f) =~= before.map_values(f) + added.map_values(f));
            x = x + 1;
        }
        assert(pp.len() == p@.len());
        r.push(option);
        proof {
            assert forall|z: int| 0 <= z < o + 1 implies (#[trigger] r@[z])@.map_values(f) == option_of(
                balances@,
                pv[z],
                strategy,
                pv[z].len() as int,
            ) by {
                if z < o {
                    assert(r@[z] == r@.drop_last()[z]);
                }
            }
        }
        o = o + 1;
    }
    proof {
        assert(pv.len() == ps@.len());
        assert(r@.map_values(|o: Vec<Transaction>| o@.map_values(|t: Transaction| tx_view(t)))
            =~= options_of(balances@, strategy));
    }
    r
}


/// Settling the same balance set with the same strategy twice gives the
/// same options: what `compute_options` returns depends on its arguments
/// alone.
pub proof fn lemma_options_repeatable(
    balances: Seq<&Debt>,
    strategy: SettlementStrategy,
    first: Seq<Vec<Transaction>>,
    second: Seq<Vec<Transaction>>,
)
    requires
        first.map_values(|o: Vec<Transaction>| o@.map_values(|t: Transaction| tx_view(t)))
            == options_of(balances, strategy),
        second.map_values(|o: Vec<Transaction>| o@.map_values(|t: Transaction| tx_view(t)))
            == options_of(balances, strategy),
    ensures
        first.len() == second.len(),
        forall|o: int|
            0 <= o < first.len() ==> (#[trigger] first[o])@.map_values(|t: Transaction| tx_view(t))
                == second[o]@.map_values(|t: Transaction| tx_view(t)),
{
    let f = |o: Vec<Transaction>| o@.map_values(|t: Transaction| tx_view(t));
    assert(first.map_values(f).len() == second.map_values(f).len());
    assert forall|o: int| 0 <= o < first.len() implies (#[trigger] first[o])@.map_values(
        |t: Transaction| tx_view(t),
    ) == second[o]@.map_values(|t: Transaction| tx_view(t)) by {
        assert(first.map_values(f)[o] == second.map_values(f)[o]);
    }
}

} // verus!
