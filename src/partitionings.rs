use vstd::prelude::*;

use crate::debt::{sum_prefix, total, total_of};
use crate::optimality::lemma_zero_total_is_partitioned;

use crate::bits::{
    bit, bit_count, count, full, lemma_count_proper, lemma_count_within, lemma_full,
    lemma_member_and_or, lemma_member_zero, lemma_mask_ext, lemma_proper_subset_smaller, lemma_within_members,
    lemma_within_trans, masked_sum, member, within_mask,
};

verus! {

/// The largest balance set the finder takes: it walks every subset of the
/// set, and keeps one byte for each.
pub const MAX_BALANCES: usize = 24;

/// Whether mask `m` encodes a zero-sum subset of the balances that holds no
/// smaller zero-sum subset: an atom.
pub open spec fn is_atom(vals: Seq<i32>, m: u64) -> bool {
    &&& 0 < m <= full(vals.len())
    &&& masked_sum(vals, m, vals.len() as int) == 0
    &&& forall|s: u64|
        0 < s && s != m && #[trigger] within_mask(s, m) ==> masked_sum(vals, s, vals.len() as int)
            != 0
}

/// The atoms with `k` members among the masks `1..=m`, largest mask first.
pub open spec fn level_atoms(vals: Seq<i32>, k: int, m: int) -> Seq<u64>
    decreases m,
{
    if m <= 0 {
        Seq::empty()
    } else {
        let rest = level_atoms(vals, k, m - 1);
        if count(m as u64, vals.len() as int) == k && is_atom(vals, m as u64) {
            seq![m as u64] + rest
        } else {
            rest
        }
    }
}

/// The atoms with at most `k` members: fewer members first, then larger
/// masks first.
pub open spec fn atoms_upto(vals: Seq<i32>, k: int) -> Seq<u64>
    decreases k,
{
    if k <= 0 {
        Seq::empty()
    } else {
        atoms_upto(vals, k - 1) + level_atoms(vals, k, full(vals.len()) as int)
    }
}

/// All atoms of a balance set, in the order in which they are found.
pub open spec fn atoms(vals: Seq<i32>) -> Seq<u64> {
    atoms_upto(vals, vals.len() as int)
}

pub proof fn lemma_level_atoms(vals: Seq<i32>, k: int, m: int)
    ensures
        forall|j: int|
            0 <= j < level_atoms(vals, k, m).len() ==> {
                let a = #[trigger] level_atoms(vals, k, m)[j];
                &&& is_atom(vals, a)
                &&& count(a, vals.len() as int) == k
                &&& a <= m
            },
        forall|a: u64|
            0 < a <= m && is_atom(vals, a) && count(a, vals.len() as int) == k ==> level_atoms(
                vals,
                k,
                m,
            ).contains(a),
    decreases m,
{
    if m > 0 {
        lemma_level_atoms(vals, k, m - 1);
        let rest = level_atoms(vals, k, m - 1);
        let l = level_atoms(vals, k, m);
        if count(m as u64, vals.len() as int) == k && is_atom(vals, m as u64) {
            assert forall|j: int| 0 <= j < l.len() implies {
                let a = #[trigger] l[j];
                &&& is_atom(vals, a)
                &&& count(a, vals.len() as int) == k
                &&& a <= m
            } by {
                if j > 0 {
                    assert(l[j] == rest[j - 1]);
                }
            }
            assert forall|a: u64|
                0 < a <= m && is_atom(vals, a) && count(a, vals.len() as int) == k implies l.contains(
                a,
            ) by {
                if a == m {
                    assert(l[0] == a);
                } else {
                    let j = choose|j: int| 0 <= j < rest.len() && rest[j] == a;
                    assert(l[j + 1] == a);
                }
            }
        }
    }
}

/// A proper subset of a mask has fewer members.
pub proof fn lemma_count_strict(s: u64, m: u64, n: nat)
    requires
        n < 64,
        within_mask(s, m),
        s != m,
        m <= full(n),
    ensures
        count(s, n as int) < count(m, n as int),
{
    lemma_proper_subset_smaller(s, m);
    lemma_within_members(s, m);
    if forall|i: int| 0 <= i < n ==> member(s, i) == member(m, i) {
        lemma_mask_ext(s, m, n);
    }
    let i = choose|i: int| 0 <= i < n && member(s, i) != member(m, i);
    lemma_count_proper(s, m, n as int, i);
}

/// A mask that counts no member holds none.
pub proof fn lemma_count_zero(m: u64, k: int)
    requires
        count(m, k) == 0,
    ensures
        forall|i: int| 0 <= i < k ==> !#[trigger] member(m, i),
    decreases k,
{
    if k > 0 {
        lemma_count_zero(m, k - 1);
    }
}

/// A non-empty mask within the first `n` positions has a member among them.
pub proof fn lemma_count_positive(m: u64, n: nat)
    requires
        n < 64,
        0 < m <= full(n),
    ensures
        count(m, n as int) >= 1,
{
    if count(m, n as int) == 0 {
        lemma_count_zero(m, n as int);
        assert forall|i: int| 0 <= i < n implies member(m, i) == member(0, i) by {
            lemma_member_zero(i);
        }
        lemma_mask_ext(m, 0, n);
    }
}

/// A mask that counts a member below `k` holds one there.
pub proof fn lemma_count_positive_bits(m: u64, k: int)
    requires
        count(m, k) > 0,
    ensures
        exists|i: int| 0 <= i < k && #[trigger] member(m, i),
{
    if forall|i: int| 0 <= i < k ==> !#[trigger] member(m, i) {
        lemma_count_none(m, k);
    }
}

/// Every non-empty zero-sum subset holds an atom with no more members.
pub proof fn lemma_atom_inside(vals: Seq<i32>, s: u64)
    requires
        vals.len() < 64,
        0 < s <= full(vals.len()),
        masked_sum(vals, s, vals.len() as int) == 0,
    ensures
        exists|a: u64|
            is_atom(vals, a) && within_mask(a, s) && count(a, vals.len() as int) <= count(
                s,
                vals.len() as int,
            ),
    decreases s,
{
    let n = vals.len() as int;
    if is_atom(vals, s) {
        assert(s & s == s) by (bit_vector);
        assert(within_mask(s, s));
    } else {
        let t = choose|t: u64| 0 < t && t != s && #[trigger] within_mask(t, s) && masked_sum(vals, t, n) == 0;
        lemma_proper_subset_smaller(t, s);
        lemma_atom_inside(vals, t);
        let a = choose|a: u64| is_atom(vals, a) && within_mask(a, t) && count(a, n) <= count(t, n);
        lemma_within_trans(a, t, s);
        lemma_within_members(t, s);
        lemma_count_within(t, s, n);
    }
}

/// Whether some mask of `found` is a subset of `m`.
pub open spec fn holds_one_of(found: Seq<u64>, m: u64) -> bool {
    exists|j: int| 0 <= j < found.len() && within_mask(#[trigger] found[j], m)
}

/// What the search for atoms knows before it tests mask `m` at size `k`.
pub open spec fn atoms_so_far(vals: Seq<i32>, found: Seq<u64>, k: int, m: u64) -> bool {
    &&& forall|j: int|
        0 <= j < found.len() ==> {
            let a = #[trigger] found[j];
            &&& is_atom(vals, a)
            &&& (count(a, vals.len() as int) < k || (count(a, vals.len() as int) == k && a > m))
        }
    &&& forall|a: u64|
        is_atom(vals, a) && count(a, vals.len() as int) < k ==> #[trigger] found.contains(a)
}

/// A mask of `k` members is an atom exactly when its sum is zero and it
/// holds none of the atoms found before it.
pub proof fn lemma_atom_test(vals: Seq<i32>, found: Seq<u64>, k: int, m: u64)
    requires
        vals.len() < 64,
        0 < m <= full(vals.len()),
        count(m, vals.len() as int) == k,
        atoms_so_far(vals, found, k, m),
    ensures
        is_atom(vals, m) <==> (masked_sum(vals, m, vals.len() as int) == 0 && !holds_one_of(
            found,
            m,
        )),
{
    let n = vals.len() as int;
    if is_atom(vals, m) {
        if holds_one_of(found, m) {
            let j = choose|j: int| 0 <= j < found.len() && within_mask(#[trigger] found[j], m);
            let a = found[j];
            assert(a != m);
        }
    }
    if masked_sum(vals, m, n) == 0 && !holds_one_of(found, m) && !is_atom(vals, m) {
        let t = choose|t: u64| 0 < t && t != m && #[trigger] within_mask(t, m) && masked_sum(vals, t, n) == 0;
        lemma_proper_subset_smaller(t, m);
        lemma_atom_inside(vals, t);
        let a = choose|a: u64| is_atom(vals, a) && within_mask(a, t) && count(a, n) <= count(t, n);
        lemma_count_strict(t, m, vals.len());
        assert(found.contains(a));
        let j = choose|j: int| 0 <= j < found.len() && found[j] == a;
        lemma_within_trans(a, t, m);
        assert(within_mask(found[j], m));
    }
}

/// The members of each mask up to `full(n)`, counted: entry `m` is
/// `count(m, n)`.
fn count_table(n: usize) -> (r: Vec<u8>)
    requires
        0 < n <= MAX_BALANCES,
    ensures
        r@.len() == full(n as nat) + 1,
        full(n as nat) <= 0xff_ffff,
        forall|m: int| 0 <= m <= full(n as nat) ==> #[trigger] r@[m] as int == count(m as u64, n as int),
{
    proof {
        let nn = n as u64;
        assert(1u64 << nn >= 1 && (1u64 << nn) - 1 <= 0xff_ffff) by (bit_vector)
            requires
                0 < nn <= 24,
        ;
    }
    let top: u64 = (1u64 << (n as u64)) - 1;
    let mut r: Vec<u8> = Vec::new();
    let mut m: u64 = 0;
    while m <= top
        invariant
            top == full(n as nat),
            top <= 0xff_ffff,
            m <= top + 1,
            r@.len() == m,
            0 < n <= MAX_BALANCES,
            forall|i: int| 0 <= i < m ==> #[trigger] r@[i] as int == count(i as u64, n as int),
        decreases top + 1 - m,
    {
        let c = bit_count(m, n);
        r.push(c);
        m = m + 1;
    }
    r
}

/// Whether some mask of `found` is a subset of `m` (see `holds_one_of`).
fn holds_any(found: &Vec<u64>, m: u64) -> (r: bool)
    ensures
        r == holds_one_of(found@, m),
{
    let mut j: usize = 0;
    while j < found.len()
        invariant
            j <= found@.len(),
            forall|i: int| 0 <= i < j ==> !within_mask(#[trigger] found@[i], m),
        decreases found@.len() - j,
    {
        if found[j] & m == found[j] {
            return true;
        }
        j = j + 1;
    }
    false
}

/// The sum of the balances in mask `m`.
fn subset_sum(set: &[i32], m: u64) -> (r: i64)
    requires
        set@.len() <= MAX_BALANCES,
    ensures
        r as int == masked_sum(set@, m, set@.len() as int),
{
    let mut acc: i64 = 0;
    let mut i: usize = 0;
    while i < set.len()
        invariant
            i <= set@.len() <= MAX_BALANCES,
            acc as int == masked_sum(set@, m, i as int),
            -0x8000_0000 * (i as int) <= acc as int <= 0x7fff_ffff * (i as int),
        decreases set@.len() - i,
    {
        if bit(m, i) {
            acc = acc + set[i] as i64;
        }
        i = i + 1;
    }
    acc
}

/// The atoms of a balance set, fewer members first and larger masks first
/// among those of equal size: each mask is tested once, and one that holds
/// an atom found before it is passed over.
pub fn find_atoms(set: &[i32]) -> (r: Vec<u64>)
    requires
        0 < set@.len() <= MAX_BALANCES,
    ensures
        r@ == atoms(set@),
{
    let ghost vals = set@;
    let n = set.len();
    let counts = count_table(n);
    let top: u64 = (counts.len() - 1) as u64;
    let mut found: Vec<u64> = Vec::new();
    let mut k: usize = 1;
    proof {
        assert forall|a: u64| is_atom(vals, a) implies count(a, n as int) >= 1 by {
            lemma_count_positive(a, n as nat);
        }
    }
    while k <= n
        invariant
            vals == set@,
            n == vals.len(),
            0 < n <= MAX_BALANCES,
            1 <= k <= n + 1,
            top == full(n as nat),
            top <= 0xff_ffff,
            counts@.len() == top + 1,
            forall|m: int|
                0 <= m <= full(n as nat) ==> #[trigger] counts@[m] as int == count(m as u64, n as int),
            found@ == atoms_upto(vals, k - 1),
            atoms_so_far(vals, found@, k as int, top),
        decreases n + 1 - k,
    {
        let mut m: u64 = top;
        proof {
            lemma_level_atoms(vals, k as int, top as int);
            assert(found@ + level_atoms(vals, k as int, m as int) == atoms_upto(vals, k as int));
        }
        while m > 0
            invariant
                vals == set@,
                n == vals.len(),
                0 < n <= MAX_BALANCES,
                1 <= k <= n,
                top == full(n as nat),
                top <= 0xff_ffff,
                m <= top,
                counts@.len() == top + 1,
                forall|x: int|
                    0 <= x <= full(n as nat) ==> #[trigger] counts@[x] as int == count(x as u64, n as int),
                found@ + level_atoms(vals, k as int, m as int) == atoms_upto(vals, k as int),
                atoms_so_far(vals, found@, k as int, m),
            decreases m,
        {
            let ghost before = found@;
            let sized = counts[m as usize] as usize == k;
            let is_new = if sized {
                proof {
                    lemma_atom_test(vals, found@, k as int, m);
                }
                !holds_any(&found, m) && subset_sum(set, m) == 0
            } else {
                false
            };
            if is_new {
                found.push(m);
            }
            proof {
                let rest = level_atoms(vals, k as int, m - 1);
                if is_new {
                    assert(level_atoms(vals, k as int, m as int) == seq![m] + rest);
                    assert(found@ + rest =~= before + (seq![m] + rest));
                } else {
                    assert(level_atoms(vals, k as int, m as int) == rest);
                }
                assert forall|j: int| 0 <= j < found@.len() implies {
                    let a = #[trigger] found@[j];
                    &&& is_atom(vals, a)
                    &&& (count(a, n as int) < k || (count(a, n as int) == k && a > m - 1))
                } by {
                    if j < before.len() {
                        assert(found@[j] == before[j]);
                    }
                }
                assert forall|a: u64| is_atom(vals, a) && count(a, n as int) < k implies #[trigger] found@.contains(a) by {
                    assert(before.contains(a));
                    let j = choose|j: int| 0 <= j < before.len() && before[j] == a;
                    assert(found@[j] == a);
                }
            }
            m = m - 1;
        }
        proof {
            assert(level_atoms(vals, k as int, 0) == Seq::<u64>::empty());
            assert(found@ + Seq::<u64>::empty() =~= found@);
            lemma_level_atoms(vals, k as int, top as int);
            assert forall|a: u64| is_atom(vals, a) && count(a, n as int) < k + 1 implies #[trigger] found@.contains(a) by {
                if count(a, n as int) == k {
                    let l = level_atoms(vals, k as int, top as int);
                    assert(l.contains(a));
                    let j = choose|j: int| 0 <= j < l.len() && l[j] == a;
                    let before_len = atoms_upto(vals, k - 1).len();
                    assert(found@[before_len + j] == a);
                }
            }
            assert forall|j: int| 0 <= j < found@.len() implies {
                let a = #[trigger] found@[j];
                &&& is_atom(vals, a)
                &&& (count(a, n as int) < k + 1 || (count(a, n as int) == k + 1 && a > top))
            } by {}
        }
        k = k + 1;
    }
    found
}


/// The union of the atoms that selection `c` picks among the first `j`,
/// added one after another; `None` once two of them overlap.
pub open spec fn cover_fold(atoms: Seq<u64>, c: u64, j: int) -> Option<u64>
    decreases j,
{
    if j <= 0 {
        Some(0u64)
    } else {
        match cover_fold(atoms, c, j - 1) {
            None => None,
            Some(acc) => if member(c, j - 1) {
                if acc & atoms[j - 1] == 0 {
                    Some(acc | atoms[j - 1])
                } else {
                    None
                }
            } else {
                Some(acc)
            },
        }
    }
}

/// Whether the atoms that selection `c` picks are disjoint and together
/// hold all `n` positions.
pub open spec fn is_cover(atoms: Seq<u64>, c: u64, n: nat) -> bool {
    cover_fold(atoms, c, atoms.len() as int) == Some(full(n))
}

/// The covering selections of `k` atoms among the selections `1..=c`,
/// largest first.
pub open spec fn covers_at(atoms: Seq<u64>, n: nat, k: int, c: int) -> Seq<u64>
    decreases c,
{
    if c <= 0 {
        Seq::empty()
    } else {
        let rest = covers_at(atoms, n, k, c - 1);
        if count(c as u64, atoms.len() as int) == k && is_cover(atoms, c as u64, n) {
            seq![c as u64] + rest
        } else {
            rest
        }
    }
}

/// The covering selections of the largest size, at most `k`, that has any.
pub open spec fn best_covers(atoms: Seq<u64>, n: nat, k: int) -> Seq<u64>
    decreases k,
{
    if k <= 0 {
        Seq::empty()
    } else {
        let level = covers_at(atoms, n, k, full(atoms.len()) as int);
        if level.len() > 0 {
            level
        } else {
            best_covers(atoms, n, k - 1)
        }
    }
}

/// The atoms that selection `c` picks among the first `j`, in order.
pub open spec fn picked(atoms: Seq<u64>, c: u64, j: int) -> Seq<u64>
    decreases j,
{
    if j <= 0 {
        Seq::empty()
    } else {
        let p = picked(atoms, c, j - 1);
        if member(c, j - 1) {
            p.push(atoms[j - 1])
        } else {
            p
        }
    }
}

/// The positions below `k` in mask `b`, in increasing order.
pub open spec fn members(b: u64, k: int) -> Seq<usize>
    decreases k,
{
    if k <= 0 {
        Seq::empty()
    } else {
        let r = members(b, k - 1);
        if member(b, k - 1) {
            r.push((k - 1) as usize)
        } else {
            r
        }
    }
}

/// The partitioning that selection `c` of atoms stands for: one partition
/// for each picked atom, holding the positions of its balances.
pub open spec fn partitioning_of(atoms: Seq<u64>, c: u64, n: nat) -> Seq<Seq<usize>> {
    picked(atoms, c, atoms.len() as int).map_values(|b: u64| members(b, n as int))
}

/// The longest zero-sum partitionings of a balance set, each a sequence of
/// partitions of positions: for the empty set, the one empty partitioning;
/// for a set whose total is not zero, none; otherwise one for each covering
/// selection of atoms of the largest size, the selections in decreasing
/// order. Selections are 64-bit masks, so a set with 64 atoms or more
/// yields none.
pub open spec fn longest_partitionings(vals: Seq<i32>) -> Seq<Seq<Seq<usize>>> {
    if vals.len() == 0 {
        seq![Seq::empty()]
    } else if total(vals) != 0 || atoms(vals).len() >= 64 {
        Seq::empty()
    } else {
        let a = atoms(vals);
        best_covers(a, vals.len(), a.len() as int).map_values(
            |c: u64| partitioning_of(a, c, vals.len()),
        )
    }
}

/// The view of an executable partitioning.
pub open spec fn view_partitioning(p: Seq<Vec<usize>>) -> Seq<Seq<usize>> {
    p.map_values(|q: Vec<usize>| q@)
}

/// The view of a list of executable partitionings.
pub open spec fn view_partitionings(r: Seq<Vec<Vec<usize>>>) -> Seq<Seq<Seq<usize>>> {
    r.map_values(|p: Vec<Vec<usize>>| view_partitioning(p@))
}

/// The mask of the first `n` positions.
fn full_mask(n: usize) -> (r: u64)
    requires
        n < 64,
    ensures
        r == full(n as nat),
{
    proof {
        let nn = n as u64;
        assert(1u64 << nn >= 1) by (bit_vector)
            requires
                nn < 64,
        ;
    }
    (1u64 << (n as u64)) - 1
}

/// Whether selection `c` of atoms covers the `n` positions (see `is_cover`).
fn covers(atoms: &Vec<u64>, c: u64, n: usize) -> (r: bool)
    requires
        atoms@.len() < 64,
        n < 64,
    ensures
        r == is_cover(atoms@, c, n as nat),
{
    let mut acc: u64 = 0;
    let mut ok = true;
    let mut j: usize = 0;
    while j < atoms.len()
        invariant
            j <= atoms@.len() < 64,
            ok ==> cover_fold(atoms@, c, j as int) == Some(acc),
            !ok ==> cover_fold(atoms@, c, j as int) == None::<u64>,
        decreases atoms@.len() - j,
    {
        if ok && bit(c, j) {
            if acc & atoms[j] == 0 {
                acc = acc | atoms[j];
            } else {
                ok = false;
            }
        }
        j = j + 1;
    }
    ok && acc == full_mask(n)
}

/// The positions below `n` in mask `b` (see `members`).
fn members_of(b: u64, n: usize) -> (r: Vec<usize>)
    requires
        n < 64,
    ensures
        r@ == members(b, n as int),
{
    let mut r: Vec<usize> = Vec::new();
    let mut i: usize = 0;
    while i < n
        invariant
            i <= n < 64,
            r@ == members(b, i as int),
        decreases n - i,
    {
        if bit(b, i) {
            r.push(i);
        }
        i = i + 1;
    }
    r
}

/// The partitioning that selection `c` stands for (see `partitioning_of`).
fn partitioning(atoms: &Vec<u64>, c: u64, n: usize) -> (r: Vec<Vec<usize>>)
    requires
        atoms@.len() < 64,
        n < 64,
    ensures
        view_partitioning(r@) == partitioning_of(atoms@, c, n as nat),
{
    let mut r: Vec<Vec<usize>> = Vec::new();
    let mut j: usize = 0;
    while j < atoms.len()
        invariant
            j <= atoms@.len() < 64,
            n < 64,
            view_partitioning(r@) == picked(atoms@, c, j as int).map_values(
                |b: u64| members(b, n as int),
            ),
        decreases atoms@.len() - j,
    {
        let ghost before = r@;
        let ghost prev = picked(atoms@, c, j as int);
        if bit(c, j) {
            let q = members_of(atoms[j], n);
            r.push(q);
            proof {
                let next = picked(atoms@, c, j + 1);
                assert(next == prev.push(atoms@[j as int]));
                assert(view_partitioning(before).len() == before.len());
                assert(prev.map_values(|b: u64| members(b, n as int)).len() == prev.len());
                assert(before.len() == prev.len());
                assert(r@.len() == next.len());
                assert forall|x: int| 0 <= x < r@.len() implies #[trigger] r@[x]@ == members(
                    next[x],
                    n as int,
                ) by {
                    if x < before.len() {
                        assert(r@[x] == before[x]);
                        assert(before[x]@ == view_partitioning(before)[x]);
                    }
                }
                assert(view_partitioning(r@) =~= next.map_values(|b: u64| members(b, n as int)));
            }
        } else {
            assert(view_partitioning(r@) =~= picked(atoms@, c, j + 1).map_values(
                |b: u64| members(b, n as int),
            ));
        }
        j = j + 1;
    }
    r
}

/// Finds every longest way of splitting a balance set into zero-sum groups
/// of positions (see `longest_partitionings`).
pub fn longest_zero_sum_partitionings(set: &[i32]) -> (r: Vec<Vec<Vec<usize>>>)
    requires
        set@.len() <= MAX_BALANCES,
    ensures
        view_partitionings(r@) == longest_partitionings(set@),
        forall|x: int|
            0 <= x < r@.len() ==> is_zero_sum_partitioning(set@, #[trigger] view_partitionings(r@)[x]),
        forall|x: int| 0 <= x < r@.len() ==> (#[trigger] r@[x])@.len() == r@[0]@.len(),
        total(set@) != 0 ==> r@.len() == 0,
        set@.len() > 0 && total(set@) == 0 && atoms(set@).len() < 64 ==> r@.len() > 0,
{
    proof {
        lemma_longest_sound(set@);
        if set@.len() > 0 && total(set@) == 0 && atoms(set@).len() < 64 {
            lemma_zero_total_is_partitioned(set@);
        }
    }
    if set.len() == 0 {
        let mut r: Vec<Vec<Vec<usize>>> = Vec::new();
        let none: Vec<Vec<usize>> = Vec::new();
        r.push(none);
        assert(view_partitioning(none@) =~= Seq::<Seq<usize>>::empty());
        assert(view_partitionings(r@) =~= longest_partitionings(set@));
        return r;
    }
    // Zero-sum groups add up to the total, so a non-zero total has none.
    if total_of(set) != 0 {
        let r: Vec<Vec<Vec<usize>>> = Vec::new();
        assert(view_partitionings(r@) =~= longest_partitionings(set@));
        return r;
    }
    let n = set.len();
    let found_atoms = find_atoms(set);
    let ghost a = found_atoms@;
    let m = found_atoms.len();
    // Selections of atoms are 64-bit masks.
    if m >= 64 {
        let r: Vec<Vec<Vec<usize>>> = Vec::new();
        assert(view_partitionings(r@) =~= longest_partitionings(set@));
        return r;
    }
    let top = full_mask(m);
    let mut k: usize = m;
    while k > 0
        invariant
            a == found_atoms@,
            a == atoms(set@),
            m == a.len() < 64,
            n == set@.len(),
            0 < n <= MAX_BALANCES,
            total(set@) == 0,
            top == full(m as nat),
            k <= m,
            best_covers(a, n as nat, m as int) == best_covers(a, n as nat, k as int),
        decreases k,
    {
        let mut level: Vec<u64> = Vec::new();
        let mut c: u64 = top;
        assert(level@ + covers_at(a, n as nat, k as int, c as int) =~= covers_at(a, n as nat, k as int, top as int));
        while c > 0
            invariant
                a == found_atoms@,
                m == a.len() < 64,
                n == set@.len(),
                0 < n <= MAX_BALANCES,
                c <= top,
                level@ + covers_at(a, n as nat, k as int, c as int) == covers_at(a, n as nat, k as int, top as int),
            decreases c,
        {
            let ghost before = level@;
            let ghost rest = covers_at(a, n as nat, k as int, c - 1);
            if bit_count(c, m) as usize == k && covers(&found_atoms, c, n) {
                level.push(c);
                assert(level@ + rest =~= before + (seq![c] + rest));
            }
            c = c - 1;
        }
        assert(level@ + Seq::<u64>::empty() =~= level@);
        if level.len() > 0 {
            let ghost best = level@;
            assert(best == best_covers(a, n as nat, k as int));
            let mut r: Vec<Vec<Vec<usize>>> = Vec::new();
            let mut i: usize = 0;
            while i < level.len()
                invariant
                    a == found_atoms@,
                    m == a.len() < 64,
                    n == set@.len(),
                    0 < n <= MAX_BALANCES,
                    best == level@,
                    i <= level@.len(),
                    view_partitionings(r@) == best.take(i as int).map_values(
                        |c: u64| partitioning_of(a, c, n as nat),
                    ),
                decreases level@.len() - i,
            {
                let ghost before = r@;
                let p = partitioning(&found_atoms, level[i], n);
                r.push(p);
                proof {
                    assert(view_partitionings(before).len() == before.len());
                    assert(before.len() == i);
                    assert(r@.len() == i + 1);
                    assert forall|x: int| 0 <= x < r@.len() implies view_partitioning(
                        #[trigger] r@[x]@,
                    ) == partitioning_of(a, best.take(i + 1)[x], n as nat) by {
                        if x < before.len() {
                            assert(r@[x] == before[x]);
                            assert(view_partitioning(before[x]@) == view_partitionings(before)[x]);
                            assert(best.take(i + 1)[x] == best.take(i as int)[x]);
                        }
                    }
                    assert(view_partitionings(r@) =~= best.take(i + 1).map_values(
                        |c: u64| partitioning_of(a, c, n as nat),
                    ));
                }
                i = i + 1;
            }
            assert(best.take(best.len() as int) =~= best);
            proof {
                lemma_longest_sound(set@);
                let v = view_partitionings(r@);
                let a2 = atoms(set@);
                assert(v =~= best_covers(a2, n as nat, a2.len() as int).map_values(
                    |c: u64| partitioning_of(a2, c, n as nat),
                ));
                assert(v == longest_partitionings(set@));
                assert forall|x: int| 0 <= x < r@.len() implies (#[trigger] r@[x])@.len() == r@[0]@.len() by {
                    assert(v[x] == view_partitioning(r@[x]@));
                    assert(v[0] == view_partitioning(r@[0]@));
                    assert(v[x].len() == r@[x]@.len());
                    assert(v[0].len() == r@[0]@.len());
                    assert(v[x].len() == v[0].len());
                }
            }
            return r;
        }
        k = k - 1;
    }
    let r: Vec<Vec<Vec<usize>>> = Vec::new();
    assert(view_partitionings(r@) =~= longest_partitionings(set@));
    r
}


/// The sum of the balances at the positions of `q`.
pub open spec fn block_sum(vals: Seq<i32>, q: Seq<usize>) -> int {
    total(q.map_values(|i: usize| vals[i as int]))
}

/// Whether some group of `p` holds position `i`.
pub open spec fn in_some_group(p: Seq<Seq<usize>>, i: usize) -> bool {
    exists|x: int| 0 <= x < p.len() && #[trigger] p[x].contains(i)
}

/// Whether `p` splits the positions of `vals` into zero-sum groups: every
/// group is non-empty, adds up to zero and lists positions of the set in
/// increasing order, and every position lies in exactly one group.
pub open spec fn is_zero_sum_partitioning(vals: Seq<i32>, p: Seq<Seq<usize>>) -> bool {
    &&& forall|x: int|
        0 <= x < p.len() ==> {
            &&& (#[trigger] p[x]).len() > 0
            &&& block_sum(vals, p[x]) == 0
            &&& forall|y: int, z: int| 0 <= y < z < p[x].len() ==> p[x][y] < p[x][z]
            &&& forall|y: int| 0 <= y < p[x].len() ==> p[x][y] < vals.len()
        }
    &&& forall|i: usize| i < vals.len() ==> #[trigger] in_some_group(p, i)
    &&& forall|i: usize, x: int, y: int|
        0 <= x < y < p.len() && #[trigger] p[x].contains(i) ==> !#[trigger] p[y].contains(i)
}

pub proof fn lemma_sum_prefix_same(a: Seq<i32>, b: Seq<i32>, k: int)
    requires
        0 <= k <= a.len(),
        k <= b.len(),
        forall|i: int| 0 <= i < k ==> a[i] == b[i],
    ensures
        sum_prefix(a, k) == sum_prefix(b, k),
    decreases k,
{
    if k > 0 {
        lemma_sum_prefix_same(a, b, k - 1);
    }
}

/// The positions listed by `members` are those of the mask, in increasing
/// order.
pub proof fn lemma_members(b: u64, k: int, vals: Seq<i32>)
    requires
        0 <= k <= 64,
        k <= vals.len(),
    ensures
        forall|i: usize| #[trigger] members(b, k).contains(i) <==> (i < k && member(b, i as int)),
        forall|y: int, z: int|
            0 <= y < z < members(b, k).len() ==> members(b, k)[y] < members(b, k)[z],
        forall|y: int| 0 <= y < members(b, k).len() ==> members(b, k)[y] < k,
        block_sum(vals, members(b, k)) == masked_sum(vals, b, k),
    decreases k,
{
    if k > 0 {
        lemma_members(b, k - 1, vals);
        let r = members(b, k - 1);
        if member(b, k - 1) {
            let q = r.push((k - 1) as usize);
            assert forall|i: usize| #[trigger] q.contains(i) <==> (i < k && member(b, i as int)) by {
                if q.contains(i) {
                    let y = choose|y: int| 0 <= y < q.len() && q[y] == i;
                    if y < r.len() {
                        assert(r[y] == i);
                        assert(r.contains(i));
                    }
                }
                if i == k - 1 {
                    assert(q[r.len() as int] == i);
                } else if i < k && member(b, i as int) {
                    assert(r.contains(i));
                    let y = choose|y: int| 0 <= y < r.len() && r[y] == i;
                    assert(q[y] == i);
                }
            }
            let f = |i: usize| vals[i as int];
            let qm = q.map_values(f);
            let rm = r.map_values(f);
            assert(qm.drop_last() =~= rm);
            lemma_sum_prefix_same(qm, rm, rm.len() as int);
        }
    }
}

/// A mask whose first `k` positions are all missing counts none.
pub proof fn lemma_count_none(m: u64, k: int)
    requires
        forall|i: int| 0 <= i < k ==> !#[trigger] member(m, i),
    ensures
        count(m, k) == 0,
    decreases k,
{
    if k > 0 {
        lemma_count_none(m, k - 1);
    }
}

pub proof fn lemma_atoms_upto(vals: Seq<i32>, k: int)
    ensures
        forall|j: int| 0 <= j < atoms_upto(vals, k).len() ==> is_atom(vals, #[trigger] atoms_upto(vals, k)[j]),
    decreases k,
{
    if k > 0 {
        lemma_atoms_upto(vals, k - 1);
        lemma_level_atoms(vals, k, full(vals.len()) as int);
        let a = atoms_upto(vals, k - 1);
        let l = level_atoms(vals, k, full(vals.len()) as int);
        assert forall|j: int| 0 <= j < atoms_upto(vals, k).len() implies is_atom(vals, #[trigger] atoms_upto(vals, k)[j]) by {
            if j < a.len() {
                assert(atoms_upto(vals, k)[j] == a[j]);
            } else {
                assert(atoms_upto(vals, k)[j] == l[j - a.len()]);
            }
        }
    }
}

/// What a fold that has not failed has added up: the union of the picked
/// atoms, which are pairwise disjoint.
pub proof fn lemma_cover_fold(atoms: Seq<u64>, c: u64, j: int)
    requires
        0 <= j <= atoms.len(),
        cover_fold(atoms, c, j) is Some,
    ensures
        forall|i: int| 0 <= i < 64 ==> (member(cover_fold(atoms, c, j)->0, i) <==> exists|x: int|
            0 <= x < picked(atoms, c, j).len() && #[trigger] member(picked(atoms, c, j)[x], i)),
        forall|x: int, y: int, i: int|
            0 <= x < y < picked(atoms, c, j).len() && #[trigger] member(picked(atoms, c, j)[x], i)
                ==> !#[trigger] member(picked(atoms, c, j)[y], i),
        forall|x: int|
            0 <= x < picked(atoms, c, j).len() ==> atoms.contains(#[trigger] picked(atoms, c, j)[x]),
    decreases j,
{
    if j > 0 {
        lemma_cover_fold(atoms, c, j - 1);
        let acc = cover_fold(atoms, c, j - 1)->0;
        let p = picked(atoms, c, j - 1);
        if member(c, j - 1) {
            let b = atoms[j - 1];
            let q = p.push(b);
            assert(acc & b == 0);
            assert(cover_fold(atoms, c, j) == Some(acc | b));
            assert(picked(atoms, c, j) == q);
            assert forall|i: int| 0 <= i < 64 implies (member(acc | b, i) <==> exists|x: int|
                0 <= x < q.len() && #[trigger] member(q[x], i)) by {
                lemma_member_and_or(acc, b, i);
                if member(acc, i) {
                    let x = choose|x: int| 0 <= x < p.len() && #[trigger] member(p[x], i);
                    assert(q[x] == p[x]);
                }
                if member(b, i) {
                    assert(q[p.len() as int] == b);
                }
                if exists|x: int| 0 <= x < q.len() && #[trigger] member(q[x], i) {
                    let x = choose|x: int| 0 <= x < q.len() && #[trigger] member(q[x], i);
                    if x < p.len() {
                        assert(q[x] == p[x]);
                    }
                }
            }
            assert forall|x: int, y: int, i: int|
                0 <= x < y < q.len() && #[trigger] member(q[x], i) implies !#[trigger] member(q[y], i) by {
                assert(q[x] == p[x]);
                if y < p.len() {
                    assert(q[y] == p[y]);
                } else if 0 <= i < 64 {
                    assert(member(acc, i));
                    lemma_member_and_or(acc, b, i);
                    lemma_member_zero(i);
                }
            }
            assert forall|x: int| 0 <= x < q.len() implies atoms.contains(#[trigger] q[x]) by {
                if x < p.len() {
                    assert(q[x] == p[x]);
                } else {
                    assert(q[x] == atoms[j - 1]);
                }
            }
        } else {
            assert(cover_fold(atoms, c, j) == Some(acc));
            assert(picked(atoms, c, j) == p);
        }
    } else {
        assert forall|i: int| 0 <= i < 64 implies !member(0u64, i) by {
            lemma_member_zero(i);
        }
    }
}

/// The partitioning that a covering selection of atoms stands for splits
/// the set into zero-sum groups.
pub proof fn lemma_cover_sound(vals: Seq<i32>, c: u64)
    requires
        0 < vals.len() <= MAX_BALANCES,
        atoms(vals).len() < 64,
        is_cover(atoms(vals), c, vals.len()),
    ensures
        is_zero_sum_partitioning(vals, partitioning_of(atoms(vals), c, vals.len())),
        partitioning_of(atoms(vals), c, vals.len()).len() == count(c, atoms(vals).len() as int),
{
    let a = atoms(vals);
    let n = vals.len();
    let blocks = picked(a, c, a.len() as int);
    let p = partitioning_of(a, c, n);
    lemma_cover_fold(a, c, a.len() as int);
    lemma_atoms_upto(vals, n as int);
    lemma_picked_len(a, c, a.len() as int);
    assert forall|x: int| 0 <= x < p.len() implies {
        &&& (#[trigger] p[x]).len() > 0
        &&& block_sum(vals, p[x]) == 0
        &&& forall|y: int, z: int| 0 <= y < z < p[x].len() ==> p[x][y] < p[x][z]
        &&& forall|y: int| 0 <= y < p[x].len() ==> p[x][y] < vals.len()
    } by {
        let b = blocks[x];
        assert(a.contains(blocks[x]));
        let y = choose|y: int| 0 <= y < a.len() && a[y] == blocks[x];
        assert(is_atom(vals, a[y]));
        lemma_members(b, n as int, vals);
        lemma_count_positive(b, n);
        if forall|i: int| 0 <= i < n ==> !#[trigger] member(b, i) {
            lemma_count_none(b, n as int);
        }
        let i = choose|i: int| 0 <= i < n && #[trigger] member(b, i);
        assert(members(b, n as int).contains(i as usize));
    }
    assert forall|i: usize| i < vals.len() implies #[trigger] in_some_group(p, i) by {
        lemma_full(n, 0, i as int);
        assert(member(cover_fold(a, c, a.len() as int)->0, i as int));
        let x = choose|x: int| 0 <= x < blocks.len() && #[trigger] member(blocks[x], i as int);
        lemma_members(blocks[x], n as int, vals);
        assert(p[x].contains(i));
    }
    assert forall|i: usize, x: int, y: int|
        0 <= x < y < p.len() && #[trigger] p[x].contains(i) implies !#[trigger] p[y].contains(i) by {
        lemma_members(blocks[x], n as int, vals);
        lemma_members(blocks[y], n as int, vals);
        assert(member(blocks[x], i as int));
    }
}

/// One atom is picked for each bit of the selection.
pub proof fn lemma_picked_len(atoms: Seq<u64>, c: u64, j: int)
    ensures
        picked(atoms, c, j).len() == count(c, j),
    decreases j,
{
    if j > 0 {
        lemma_picked_len(atoms, c, j - 1);
    }
}

pub proof fn lemma_covers_at(atoms: Seq<u64>, n: nat, k: int, c: int)
    requires
        c <= 0xffff_ffff_ffff_ffff,
    ensures
        forall|j: int|
            0 <= j < covers_at(atoms, n, k, c).len() ==> {
                let s = #[trigger] covers_at(atoms, n, k, c)[j];
                &&& is_cover(atoms, s, n)
                &&& count(s, atoms.len() as int) == k
                &&& 0 < s <= c
            },
        forall|s: u64|
            0 < s <= c && is_cover(atoms, s, n) && count(s, atoms.len() as int) == k ==> covers_at(
                atoms,
                n,
                k,
                c,
            ).contains(s),
    decreases c,
{
    if c > 0 {
        lemma_covers_at(atoms, n, k, c - 1);
        let rest = covers_at(atoms, n, k, c - 1);
        let l = covers_at(atoms, n, k, c);
        if count(c as u64, atoms.len() as int) == k && is_cover(atoms, c as u64, n) {
            assert forall|j: int| 0 <= j < l.len() implies {
                let s = #[trigger] l[j];
                &&& is_cover(atoms, s, n)
                &&& count(s, atoms.len() as int) == k
                &&& 0 < s <= c
            } by {
                if j > 0 {
                    assert(l[j] == rest[j - 1]);
                }
            }
            assert forall|s: u64|
                0 < s <= c && is_cover(atoms, s, n) && count(s, atoms.len() as int) == k implies l.contains(s) by {
                if s == c {
                    assert(l[0] == s);
                } else {
                    let j = choose|j: int| 0 <= j < rest.len() && rest[j] == s;
                    assert(l[j + 1] == s);
                }
            }
        }
    }
}

/// The best selections all cover, with the same number of atoms.
pub proof fn lemma_best_covers(atoms: Seq<u64>, n: nat, k: int)
    ensures
        forall|j: int|
            0 <= j < best_covers(atoms, n, k).len() ==> {
                let s = #[trigger] best_covers(atoms, n, k)[j];
                &&& is_cover(atoms, s, n)
                &&& count(s, atoms.len() as int) == count(best_covers(atoms, n, k)[0], atoms.len() as int)
            },
    decreases k,
{
    if k > 0 {
        lemma_best_covers(atoms, n, k - 1);
        let l = covers_at(atoms, n, k, full(atoms.len()) as int);
        lemma_covers_at(atoms, n, k, full(atoms.len()) as int);
        if l.len() > 0 {
            assert(best_covers(atoms, n, k) == l);
            assert forall|j: int| 0 <= j < l.len() implies is_cover(atoms, #[trigger] l[j], n)
                && count(l[j], atoms.len() as int) == count(l[0], atoms.len() as int) by {
                assert(count(l[j], atoms.len() as int) == k);
                assert(count(l[0], atoms.len() as int) == k);
            }
        } else {
            assert(best_covers(atoms, n, k) == best_covers(atoms, n, k - 1));
        }
    }
}

/// Every longest partitioning splits the set into zero-sum groups, and all
/// of them have the same number of groups.
pub proof fn lemma_longest_sound(vals: Seq<i32>)
    requires
        vals.len() <= MAX_BALANCES,
    ensures
        forall|x: int|
            0 <= x < longest_partitionings(vals).len() ==> is_zero_sum_partitioning(
                vals,
                #[trigger] longest_partitionings(vals)[x],
            ),
        forall|x: int|
            0 <= x < longest_partitionings(vals).len() ==> (#[trigger] longest_partitionings(vals)[x]).len()
                == longest_partitionings(vals)[0].len(),
{
    let r = longest_partitionings(vals);
    if vals.len() == 0 {
        assert forall|x: int| 0 <= x < r.len() implies is_zero_sum_partitioning(vals, #[trigger] r[x]) by {
            assert(r[x] == Seq::<Seq<usize>>::empty());
        }
    } else if total(vals) == 0 && atoms(vals).len() < 64 {
        let a = atoms(vals);
        let best = best_covers(a, vals.len(), a.len() as int);
        lemma_best_covers(a, vals.len(), a.len() as int);
        assert forall|x: int| 0 <= x < r.len() implies is_zero_sum_partitioning(vals, #[trigger] r[x]) && r[x].len() == r[0].len() by {
            lemma_cover_sound(vals, best[x]);
            lemma_cover_sound(vals, best[0]);
        }
    }
}

} // verus!
