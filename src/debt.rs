use vstd::prelude::*;

verus! {

/// One party's signed balance, in minor currency units: positive when the
/// party owes money, negative when it is owed money, zero when settled.
#[derive(Debug, Clone, PartialEq, Eq, Default)]
pub struct Debt {
    pub name: String,
    pub value: i32,
}

/// The sum of the amounts `vals[i]` for `i < k`.
pub open spec fn sum_prefix(vals: Seq<i32>, k: int) -> int
    decreases k,
{
    if k <= 0 {
        0
    } else {
        sum_prefix(vals, k - 1) + vals[k - 1] as int
    }
}

/// The sum of all amounts of a balance set.
pub open spec fn total(vals: Seq<i32>) -> int {
    sum_prefix(vals, vals.len() as int)
}

/// The amounts of a sequence of balances, in order.
pub open spec fn amounts(debts: Seq<&Debt>) -> Seq<i32> {
    debts.map_values(|d: &Debt| d.value)
}

/// Adds up the amounts of a balance set in a 128-bit accumulator, which
/// cannot overflow for any slice of 32-bit amounts.
pub fn total_of(vals: &[i32]) -> (r: i128)
    ensures
        r as int == total(vals@),
{
    let mut acc: i128 = 0;
    let mut i: usize = 0;
    while i < vals.len()
        invariant
            i <= vals@.len(),
            acc as int == sum_prefix(vals@, i as int),
            -0x8000_0000 * (i as int) <= acc as int <= 0x7fff_ffff * (i as int),
        decreases vals@.len() - i,
    {
        acc = acc + vals[i] as i128;
        i = i + 1;
    }
    acc
}


/// Why a group of balances cannot be settled.
#[derive(Debug, Clone, Copy, PartialEq, Eq)]
pub enum BalancingError {
    /// The amounts of the group do not add up to zero.
    NonZeroGroup,
}

/// What the balances named `nm` amount to together.
pub open spec fn owed_by(debts: Seq<&Debt>, nm: Seq<char>) -> int
    decreases debts.len(),
{
    if debts.len() == 0 {
        0
    } else {
        owed_by(debts.drop_last(), nm) + (if debts.last().name@ == nm {
            debts.last().value as int
        } else {
            0
        })
    }
}

/// The condition on positions that picks the balances named `nm`.
pub open spec fn named(debts: Seq<&Debt>, nm: Seq<char>) -> spec_fn(int) -> bool {
    |i: int| debts[i].name@ == nm
}

/// Adds up the amounts of a sequence of balances (see `total_of`).
pub fn total_owed(debts: &[&Debt]) -> (r: i128)
    ensures
        r as int == total(amounts(debts@)),
{
    let ghost vals = amounts(debts@);
    let mut acc: i128 = 0;
    let mut i: usize = 0;
    while i < debts.len()
        invariant
            i <= debts@.len(),
            vals == amounts(debts@),
            acc as int == sum_prefix(vals, i as int),
            -0x8000_0000 * (i as int) <= acc as int <= 0x7fff_ffff * (i as int),
        decreases debts@.len() - i,
    {
        acc = acc + debts[i].value as i128;
        i = i + 1;
    }
    acc
}

} // verus!
