use vstd::prelude::*;

use crate::bits::{
    count, full, lemma_count_set_bit, lemma_full, lemma_member_and_or,
    lemma_member_zero, lemma_mask_ext, lemma_proper_subset_smaller, lemma_set_bit, lemma_single_bit,
    lemma_sum_disjoint, lemma_sum_same_positions, lemma_within_full, lemma_within_members, masked_sum,
    member, within_mask,
};
use crate::debt::{sum_prefix, total};
use crate::partitionings::{
    block_sum, in_some_group, is_zero_sum_partitioning, lemma_sum_prefix_same, atoms, atoms_upto, best_covers, cover_fold, covers_at, is_atom, is_cover,
    lemma_count_positive, lemma_count_positive_bits, lemma_cover_sound, lemma_covers_at, lemma_level_atoms,
    level_atoms, longest_partitionings, MAX_BALANCES,
};

verus! {

/// Whether no position lies in two of the masks.
pub open spec fn disjoint_masks(blocks: Seq<u64>) -> bool {
    forall|x: int, y: int, i: int|
        0 <= x < y < blocks.len() && #[trigger] member(blocks[x], i) ==> !#[trigger] member(
            blocks[y],
            i,
        )
}

/// Whether some mask of `blocks` holds position `i`.
pub open spec fn held_by(blocks: Seq<u64>, i: int) -> bool {
    exists|x: int| 0 <= x < blocks.len() && #[trigger] member(blocks[x], i)
}

/// Whether `blocks` split a balance set into zero-sum groups, each group a
/// mask of positions: every mask is a non-empty subset of the set with sum
/// zero, no two share a position, and together they hold every position.
pub open spec fn is_mask_partitioning(vals: Seq<i32>, blocks: Seq<u64>) -> bool {
    &&& forall|x: int|
        0 <= x < blocks.len() ==> 0 < #[trigger] blocks[x] <= full(vals.len()) && masked_sum(
            vals,
            blocks[x],
            vals.len() as int,
        ) == 0
    &&& disjoint_masks(blocks)
    &&& forall|i: int| 0 <= i < vals.len() ==> #[trigger] held_by(blocks, i)
}

/// A non-empty zero-sum subset splits into disjoint atoms that together
/// hold exactly its positions.
proof fn lemma_decompose(vals: Seq<i32>, b: u64) -> (d: Seq<u64>)
    requires
        vals.len() <= MAX_BALANCES,
        0 < b <= full(vals.len()),
        masked_sum(vals, b, vals.len() as int) == 0,
    ensures
        d.len() >= 1,
        forall|x: int| 0 <= x < d.len() ==> is_atom(vals, #[trigger] d[x]),
        disjoint_masks(d),
        forall|i: int| 0 <= i < 64 ==> (#[trigger] member(b, i) <==> held_by(d, i)),
    decreases b,
{
    let n = vals.len();
    if is_atom(vals, b) {
        let d = seq![b];
        assert forall|i: int| 0 <= i < 64 implies (#[trigger] member(b, i) <==> held_by(d, i)) by {
            if member(b, i) {
                assert(member(d[0], i));
            }
        }
        d
    } else {
        let t = choose|t: u64|
            0 < t && t != b && #[trigger] within_mask(t, b) && masked_sum(vals, t, n as int) == 0;
        let u = b & !t;
        lemma_proper_subset_smaller(t, b);
        lemma_within_members(t, b);
        lemma_within_full(b, t, n, 0);
        assert forall|i: int| 0 <= i < 64 implies #[trigger] member(u, i) == (member(b, i)
            && !member(t, i)) by {
            lemma_member_and_or(b, t, i);
        }
        if forall|i: int| 0 <= i < n ==> member(t, i) == member(b, i) {
            lemma_mask_ext(t, b, n);
        }
        let k = choose|k: int| 0 <= k < n && member(t, k) != member(b, k);
        assert(member(u, k));
        lemma_member_zero(k);
        assert(u != 0);
        lemma_count_positive(t, n);
        lemma_count_positive_bits(t, n as int);
        let j = choose|j: int| 0 <= j < n && #[trigger] member(t, j);
        assert(!member(u, j) && member(b, j));
        assert(u < b);
        assert forall|i: int| 0 <= i < n implies #[trigger] member(t | u, i) == member(b, i) by {
            lemma_member_and_or(t, u, i);
        }
        lemma_sum_same_positions(vals, t | u, b, n as int);
        assert forall|i: int| 0 <= i < n implies !(#[trigger] member(t, i) && member(u, i)) by {}
        lemma_sum_disjoint(vals, t, u, n as int);
        let d1 = lemma_decompose(vals, t);
        let d2 = lemma_decompose(vals, u);
        let d = d1 + d2;
        assert forall|x: int| 0 <= x < d.len() implies is_atom(vals, #[trigger] d[x]) by {
            if x < d1.len() {
                assert(d[x] == d1[x]);
            } else {
                assert(d[x] == d2[x - d1.len()]);
            }
        }
        assert forall|x: int, y: int, i: int|
            0 <= x < y < d.len() && #[trigger] member(d[x], i) implies !#[trigger] member(d[y], i) by {
            if y < d1.len() {
                assert(d[x] == d1[x] && d[y] == d1[y]);
            } else if x >= d1.len() {
                assert(d[x] == d2[x - d1.len()] && d[y] == d2[y - d1.len()]);
            } else {
                assert(d[x] == d1[x] && d[y] == d2[y - d1.len()]);
                assert(0 <= i < 64);
                assert(member(d1[x], i));
                assert(held_by(d1, i));
                assert(member(t, i));
                if member(d[y], i) {
                    assert(member(d2[y - d1.len()], i));
                    assert(held_by(d2, i));
                    assert(member(u, i));
                }
            }
        }
        assert forall|i: int| 0 <= i < 64 implies (#[trigger] member(b, i) <==> held_by(d, i)) by {
            if member(b, i) {
                if member(t, i) {
                    let x = choose|x: int| 0 <= x < d1.len() && #[trigger] member(d1[x], i);
                    assert(member(d[x], i));
                } else {
                    assert(member(u, i));
                    let x = choose|x: int| 0 <= x < d2.len() && #[trigger] member(d2[x], i);
                    assert(member(d[x + d1.len()], i));
                }
            }
            if held_by(d, i) {
                let x = choose|x: int| 0 <= x < d.len() && #[trigger] member(d[x], i);
                if x < d1.len() {
                    assert(member(d1[x], i));
                    assert(held_by(d1, i));
                    assert(member(t, i));
                } else {
                    assert(member(d2[x - d1.len()], i));
                    assert(held_by(d2, i));
                    assert(member(u, i));
                }
            }
        }
        d
    }
}

/// The groups of the first `k` masks of a split, each broken into atoms.
proof fn lemma_decompose_all(vals: Seq<i32>, blocks: Seq<u64>, k: int) -> (d: Seq<u64>)
    requires
        vals.len() <= MAX_BALANCES,
        is_mask_partitioning(vals, blocks),
        0 <= k <= blocks.len(),
    ensures
        d.len() >= k,
        forall|x: int| 0 <= x < d.len() ==> is_atom(vals, #[trigger] d[x]),
        disjoint_masks(d),
        forall|i: int| 0 <= i < 64 ==> (held_by(blocks.take(k), i) <==> #[trigger] held_by(d, i)),
    decreases k,
{
    if k == 0 {
        let d = Seq::<u64>::empty();
        assert forall|i: int| 0 <= i < 64 implies (held_by(blocks.take(k), i) <==> #[trigger] held_by(
            d,
            i,
        )) by {}
        d
    } else {
        let prev = lemma_decompose_all(vals, blocks, k - 1);
        let b = blocks[k - 1];
        let e = lemma_decompose(vals, b);
        let d = prev + e;
        let before = blocks.take(k - 1);
        assert forall|x: int| 0 <= x < d.len() implies is_atom(vals, #[trigger] d[x]) by {
            if x < prev.len() {
                assert(d[x] == prev[x]);
            } else {
                assert(d[x] == e[x - prev.len()]);
            }
        }
        assert forall|x: int, y: int, i: int|
            0 <= x < y < d.len() && #[trigger] member(d[x], i) implies !#[trigger] member(d[y], i) by {
            if y < prev.len() {
                assert(d[x] == prev[x] && d[y] == prev[y]);
            } else if x >= prev.len() {
                assert(d[x] == e[x - prev.len()] && d[y] == e[y - prev.len()]);
            } else {
                assert(d[x] == prev[x] && d[y] == e[y - prev.len()]);
                assert(0 <= i < 64);
                assert(held_by(prev, i));
                assert(held_by(before, i));
                let z = choose|z: int| 0 <= z < before.len() && #[trigger] member(before[z], i);
                assert(member(blocks[z], i));
                if member(d[y], i) {
                    assert(held_by(e, i));
                    assert(member(b, i));
                }
            }
        }
        assert forall|i: int| 0 <= i < 64 implies (held_by(blocks.take(k), i) <==> #[trigger] held_by(
            d,
            i,
        )) by {
            let now = blocks.take(k);
            if held_by(now, i) {
                let z = choose|z: int| 0 <= z < now.len() && #[trigger] member(now[z], i);
                if z < k - 1 {
                    assert(member(before[z], i));
                    assert(held_by(before, i));
                    assert(held_by(prev, i));
                    let x = choose|x: int| 0 <= x < prev.len() && #[trigger] member(prev[x], i);
                    assert(member(d[x], i));
                } else {
                    assert(member(b, i));
                    let x = choose|x: int| 0 <= x < e.len() && #[trigger] member(e[x], i);
                    assert(member(d[x + prev.len()], i));
                }
            }
            if held_by(d, i) {
                let x = choose|x: int| 0 <= x < d.len() && #[trigger] member(d[x], i);
                if x < prev.len() {
                    assert(member(prev[x], i));
                    assert(held_by(prev, i));
                    let z = choose|z: int| 0 <= z < before.len() && #[trigger] member(before[z], i);
                    assert(member(now[z], i));
                } else {
                    assert(member(e[x - prev.len()], i));
                    assert(held_by(e, i));
                    assert(member(now[k - 1], i));
                }
            }
        }
        d
    }
}

/// Every atom is among the atoms found.
proof fn lemma_atoms_complete(vals: Seq<i32>, a: u64, k: int)
    requires
        vals.len() <= MAX_BALANCES,
        is_atom(vals, a),
        count(a, vals.len() as int) <= k,
    ensures
        atoms_upto(vals, k).contains(a),
    decreases k,
{
    let n = vals.len();
    lemma_count_positive(a, n);
    if count(a, n as int) == k {
        lemma_level_atoms(vals, k, full(n) as int);
        let l = level_atoms(vals, k, full(n) as int);
        let before = atoms_upto(vals, k - 1);
        let j = choose|j: int| 0 <= j < l.len() && l[j] == a;
        assert(atoms_upto(vals, k)[before.len() + j] == a);
    } else {
        lemma_atoms_complete(vals, a, k - 1);
        let before = atoms_upto(vals, k - 1);
        let j = choose|j: int| 0 <= j < before.len() && before[j] == a;
        assert(atoms_upto(vals, k)[j] == a);
    }
}

/// The place of a found atom in the list of atoms.
pub open spec fn index_in(found: Seq<u64>, a: u64) -> int {
    choose|j: int| 0 <= j < found.len() && found[j] == a
}

/// The selection of the atoms `d[0..k]` among `found`.
proof fn lemma_select(found: Seq<u64>, d: Seq<u64>, k: int) -> (c: u64)
    requires
        found.len() < 64,
        0 <= k <= d.len(),
        forall|x: int| 0 <= x < d.len() ==> found.contains(#[trigger] d[x]),
        forall|x: int, y: int|
            0 <= x < y < d.len() ==> #[trigger] d[x] != #[trigger] d[y],
    ensures
        c <= full(found.len()),
        count(c, found.len() as int) == k,
        forall|j: int|
            0 <= j < 64 ==> (#[trigger] member(c, j) <==> exists|x: int|
                0 <= x < k && index_in(found, #[trigger] d[x]) == j),
    decreases k,
{
    let m = found.len();
    if k == 0 {
        assert(full(m) >= 0);
        assert forall|j: int| 0 <= j < 64 implies (#[trigger] member(0u64, j) <==> exists|x: int|
            0 <= x < k && index_in(found, #[trigger] d[x]) == j) by {
            lemma_member_zero(j);
        }
        lemma_count_zero_mask(m as int);
        0u64
    } else {
        let prev = lemma_select(found, d, k - 1);
        let a = d[k - 1];
        assert(found.contains(a));
        let j = index_in(found, a);
        assert(0 <= j < m && found[j] == a);
        if member(prev, j) {
            let x = choose|x: int| 0 <= x < k - 1 && index_in(found, #[trigger] d[x]) == j;
            assert(found.contains(d[x]));
            assert(d[x] == found[j]);
        }
        let c = prev | (1u64 << (j as u64));
        lemma_count_set_bit(prev, j, m as int);
        lemma_within_full(prev, 0, m, j);
        assert forall|i: int| 0 <= i < 64 implies (#[trigger] member(c, i) <==> exists|x: int|
            0 <= x < k && index_in(found, #[trigger] d[x]) == i) by {
            lemma_set_bit(prev, j, i);
            if member(prev, i) {
                let x = choose|x: int| 0 <= x < k - 1 && index_in(found, #[trigger] d[x]) == i;
                assert(index_in(found, d[x]) == i);
            }
            if exists|x: int| 0 <= x < k && index_in(found, #[trigger] d[x]) == i {
                let x = choose|x: int| 0 <= x < k && index_in(found, #[trigger] d[x]) == i;
                if x < k - 1 {
                    assert(member(prev, i));
                }
            }
        }
        c
    }
}

/// The empty mask counts no bit.
proof fn lemma_count_zero_mask(k: int)
    ensures
        count(0u64, k) == 0,
    decreases k,
{
    if k > 0 {
        lemma_count_zero_mask(k - 1);
        lemma_member_zero(k - 1);
    }
}

/// A fold over a selection whose atoms are pairwise disjoint does not fail,
/// and adds up their positions.
proof fn lemma_fold_ok(found: Seq<u64>, c: u64, j: int, n: nat)
    requires
        n < 64,
        0 <= j <= found.len(),
        forall|y: int| 0 <= y < found.len() ==> #[trigger] found[y] <= full(n),
        forall|y1: int, y2: int, i: int|
            0 <= y1 < y2 < found.len() && member(c, y1) && member(c, y2) && #[trigger] member(
                found[y1],
                i,
            ) ==> !#[trigger] member(found[y2], i),
    ensures
        cover_fold(found, c, j) is Some,
        cover_fold(found, c, j)->0 <= full(n),
        forall|i: int|
            0 <= i < 64 ==> (#[trigger] member(cover_fold(found, c, j)->0, i) <==> exists|y: int|
                0 <= y < j && member(c, y) && #[trigger] member(found[y], i)),
    decreases j,
{
    if j == 0 {
        assert forall|i: int| 0 <= i < 64 implies (#[trigger] member(
            cover_fold(found, c, j)->0,
            i,
        ) <==> exists|y: int| 0 <= y < j && member(c, y) && #[trigger] member(found[y], i)) by {
            lemma_member_zero(i);
        }
    } else {
        lemma_fold_ok(found, c, j - 1, n);
        let acc = cover_fold(found, c, j - 1)->0;
        let b = found[j - 1];
        if member(c, j - 1) {
            lemma_within_full(acc, b, n, 0);
            assert forall|i: int| 0 <= i < n implies member(acc & b, i) == member(0u64, i) by {
                lemma_member_and_or(acc, b, i);
                lemma_member_zero(i);
                if member(acc, i) && member(b, i) {
                    let y = choose|y: int| 0 <= y < j - 1 && member(c, y) && #[trigger] member(found[y], i);
                    assert(!member(found[j - 1], i));
                }
            }
            lemma_mask_ext(acc & b, 0u64, n);
            assert(cover_fold(found, c, j) == Some(acc | b));
            assert forall|i: int| 0 <= i < 64 implies (#[trigger] member(
                cover_fold(found, c, j)->0,
                i,
            ) <==> exists|y: int| 0 <= y < j && member(c, y) && #[trigger] member(found[y], i)) by {
                lemma_member_and_or(acc, b, i);
                if member(acc, i) {
                    let y = choose|y: int| 0 <= y < j - 1 && member(c, y) && #[trigger] member(found[y], i);
                    assert(member(found[y], i));
                }
                if member(b, i) {
                    assert(member(found[j - 1], i));
                }
                if exists|y: int| 0 <= y < j && member(c, y) && #[trigger] member(found[y], i) {
                    let y = choose|y: int| 0 <= y < j && member(c, y) && #[trigger] member(found[y], i);
                    if y < j - 1 {
                        assert(member(found[y], i));
                    }
                }
            }
        } else {
            assert(cover_fold(found, c, j) == Some(acc));
            assert forall|i: int| 0 <= i < 64 implies (#[trigger] member(
                cover_fold(found, c, j)->0,
                i,
            ) <==> exists|y: int| 0 <= y < j && member(c, y) && #[trigger] member(found[y], i)) by {
                if exists|y: int| 0 <= y < j && member(c, y) && #[trigger] member(found[y], i) {
                    let y = choose|y: int| 0 <= y < j && member(c, y) && #[trigger] member(found[y], i);
                    assert(y < j - 1);
                    assert(member(found[y], i));
                }
            }
        }
    }
}

/// Disjoint atoms that hold every position make a covering selection with
/// one bit for each of them.
proof fn lemma_cover_from_atoms(vals: Seq<i32>, d: Seq<u64>) -> (c: u64)
    requires
        0 < vals.len() <= MAX_BALANCES,
        atoms(vals).len() < 64,
        forall|x: int| 0 <= x < d.len() ==> is_atom(vals, #[trigger] d[x]),
        disjoint_masks(d),
        forall|i: int| 0 <= i < vals.len() ==> #[trigger] held_by(d, i),
    ensures
        0 < c <= full(atoms(vals).len()),
        is_cover(atoms(vals), c, vals.len()),
        count(c, atoms(vals).len() as int) == d.len(),
{
    let n = vals.len();
    let found = atoms(vals);
    let m = found.len();
    assert forall|x: int| 0 <= x < d.len() implies found.contains(#[trigger] d[x]) by {
        lemma_count_bound(d[x], n as int);
        lemma_atoms_complete(vals, d[x], n as int);
    }
    assert forall|x: int, y: int| 0 <= x < y < d.len() implies #[trigger] d[x] != #[trigger] d[y] by {
        lemma_count_positive(d[x], n);
        lemma_count_positive_bits(d[x], n as int);
        let i = choose|i: int| 0 <= i < n && #[trigger] member(d[x], i);
        assert(!member(d[y], i));
    }
    let c = lemma_select(found, d, d.len() as int);
    crate::partitionings::lemma_atoms_upto(vals, n as int);
    assert forall|y: int| 0 <= y < found.len() implies #[trigger] found[y] <= full(n) by {
        assert(is_atom(vals, found[y]));
    }
    assert forall|y1: int, y2: int, i: int|
        0 <= y1 < y2 < found.len() && member(c, y1) && member(c, y2) && #[trigger] member(
            found[y1],
            i,
        ) implies !#[trigger] member(found[y2], i) by {
        let x1 = choose|x: int| 0 <= x < d.len() && index_in(found, #[trigger] d[x]) == y1;
        let x2 = choose|x: int| 0 <= x < d.len() && index_in(found, #[trigger] d[x]) == y2;
        assert(found.contains(d[x1]) && found.contains(d[x2]));
        assert(found[y1] == d[x1] && found[y2] == d[x2]);
        if x1 < x2 {
            assert(!member(d[x2], i));
        } else if x2 < x1 {
            if member(d[x2], i) {
                assert(!member(d[x1], i));
            }
        }
    }
    lemma_fold_ok(found, c, m as int, n);
    let acc = cover_fold(found, c, m as int)->0;
    assert forall|i: int| 0 <= i < n implies member(acc, i) == member(full(n), i) by {
        lemma_full(n, 0, i);
        assert(held_by(d, i));
        let x = choose|x: int| 0 <= x < d.len() && #[trigger] member(d[x], i);
        let y = index_in(found, d[x]);
        assert(found.contains(d[x]));
        assert(member(c, y));
        assert(member(found[y], i));
    }
    lemma_full(n, 0, 0);
    lemma_mask_ext(acc, full(n), n);
    assert(d.len() > 0) by {
        assert(held_by(d, 0));
    }
    if c == 0 {
        lemma_count_zero_mask(m as int);
    }
    c
}

/// Among the best selections of size at most `k` there is one, and it has
/// at least as many atoms as any covering selection of that size or less.
proof fn lemma_best_at_least(found: Seq<u64>, n: nat, k: int, c: u64)
    requires
        found.len() < 64,
        0 < c <= full(found.len()),
        is_cover(found, c, n),
        count(c, found.len() as int) <= k,
    ensures
        best_covers(found, n, k).len() > 0,
        count(best_covers(found, n, k)[0], found.len() as int) >= count(c, found.len() as int),
    decreases k,
{
    let m = found.len();
    lemma_count_positive(c, m);
    let level = covers_at(found, n, k, full(m) as int);
    lemma_covers_at(found, n, k, full(m) as int);
    if level.len() > 0 {
        assert(best_covers(found, n, k) == level);
    } else {
        if count(c, m as int) == k {
            assert(level.contains(c));
        }
        lemma_best_at_least(found, n, k - 1, c);
    }
}

/// Over the first `k` positions, the mask of the first `n` positions sums
/// the amounts.
proof fn lemma_sum_full(vals: Seq<i32>, n: nat, k: int)
    requires
        n < 64,
        0 <= k <= n,
        n <= vals.len(),
    ensures
        masked_sum(vals, full(n), k) == sum_prefix(vals, k),
    decreases k,
{
    if k > 0 {
        lemma_sum_full(vals, n, k - 1);
        lemma_full(n, 0, k - 1);
    }
}

/// A balance set whose total is zero has a longest zero-sum partitioning,
/// provided its atoms fit a 64-bit selection.
pub proof fn lemma_zero_total_is_partitioned(vals: Seq<i32>)
    requires
        0 < vals.len() <= MAX_BALANCES,
        total(vals) == 0,
        atoms(vals).len() < 64,
    ensures
        longest_partitionings(vals).len() > 0,
{
    let n = vals.len();
    let blocks = seq![full(n)];
    lemma_full(n, 0, 0);
    lemma_sum_full(vals, n, n as int);
    assert forall|i: int| 0 <= i < n implies #[trigger] held_by(blocks, i) by {
        lemma_full(n, 0, i);
        assert(member(blocks[0], i));
    }
    let d = lemma_decompose_all(vals, blocks, 1);
    assert(blocks.take(1) =~= blocks);
    assert forall|i: int| 0 <= i < n implies #[trigger] held_by(d, i) by {
        assert(held_by(blocks.take(1), i));
    }
    let c = lemma_cover_from_atoms(vals, d);
    let found = atoms(vals);
    lemma_count_bound(c, found.len() as int);
    lemma_best_at_least(found, n, found.len() as int, c);
}

/// No split of a balance set into zero-sum groups has more groups than a
/// longest partitioning.
pub proof fn lemma_longest_is_maximal(vals: Seq<i32>, blocks: Seq<u64>)
    requires
        vals.len() <= MAX_BALANCES,
        is_mask_partitioning(vals, blocks),
        longest_partitionings(vals).len() > 0,
    ensures
        blocks.len() <= longest_partitionings(vals)[0].len(),
{
    let n = vals.len();
    if n == 0 {
        if blocks.len() > 0 {
            lemma_full(0, blocks[0], 0);
            assert(full(0) == 0);
        }
    } else {
        let found = atoms(vals);
        let d = lemma_decompose_all(vals, blocks, blocks.len() as int);
        assert(blocks.take(blocks.len() as int) =~= blocks);
        assert forall|i: int| 0 <= i < n implies #[trigger] held_by(d, i) by {
            assert(held_by(blocks, i));
        }
        let c = lemma_cover_from_atoms(vals, d);
        lemma_count_bound(c, found.len() as int);
        lemma_best_at_least(found, n, found.len() as int, c);
        let best = best_covers(found, n, found.len() as int);
        crate::partitionings::lemma_best_covers(found, n, found.len() as int);
        lemma_cover_sound(vals, best[0]);
    }
}

/// No mask counts more bits than it is asked about.
pub proof fn lemma_count_bound(m: u64, k: int)
    requires
        k >= 0,
    ensures
        count(m, k) <= k,
    decreases k,
{
    if k > 0 {
        lemma_count_bound(m, k - 1);
    }
}


/// The mask of the positions listed in `q`.
pub open spec fn mask_of(q: Seq<usize>) -> u64
    decreases q.len(),
{
    if q.len() == 0 {
        0
    } else {
        mask_of(q.drop_last()) | (1u64 << (q.last() as u64))
    }
}

/// Over the first `k` positions, a mask of the single position `j` sums
/// the amount at `j`.
proof fn lemma_sum_single(vals: Seq<i32>, j: int, k: int)
    requires
        0 <= j < 64,
        0 <= k <= vals.len(),
    ensures
        masked_sum(vals, 1u64 << (j as u64), k) == (if j < k {
            vals[j] as int
        } else {
            0
        }),
    decreases k,
{
    if k > 0 {
        lemma_sum_single(vals, j, k - 1);
        lemma_single_bit(j, k - 1);
    }
}

/// The mask of an increasing list of positions holds those positions, and
/// sums what the list sums.
proof fn lemma_mask_of(vals: Seq<i32>, q: Seq<usize>)
    requires
        vals.len() <= MAX_BALANCES,
        forall|y: int| 0 <= y < q.len() ==> q[y] < vals.len(),
        forall|y: int, z: int| 0 <= y < z < q.len() ==> q[y] < q[z],
    ensures
        forall|i: int| 0 <= i < 64 ==> (#[trigger] member(mask_of(q), i) <==> q.contains(i as usize)),
        mask_of(q) <= full(vals.len()),
        masked_sum(vals, mask_of(q), vals.len() as int) == block_sum(vals, q),
    decreases q.len(),
{
    let n = vals.len();
    if q.len() == 0 {
        assert forall|i: int| 0 <= i < 64 implies (#[trigger] member(mask_of(q), i) <==> q.contains(
            i as usize,
        )) by {
            lemma_member_zero(i);
        }
        lemma_sum_zero_mask(vals, n as int);
    } else {
        let r = q.drop_last();
        let j = q.last() as int;
        lemma_mask_of(vals, r);
        let prev = mask_of(r);
        let bit = 1u64 << (j as u64);
        assert forall|i: int| 0 <= i < 64 implies (#[trigger] member(mask_of(q), i) <==> q.contains(
            i as usize,
        )) by {
            lemma_set_bit(prev, j, i);
            if r.contains(i as usize) {
                let y = choose|y: int| 0 <= y < r.len() && r[y] == i as usize;
                assert(q[y] == i as usize);
            }
            if q.contains(i as usize) && i != j {
                let y = choose|y: int| 0 <= y < q.len() && q[y] == i as usize;
                assert(y < r.len());
                assert(r[y] == i as usize);
            }
        }
        lemma_within_full(prev, 0, n, j);
        assert forall|i: int| 0 <= i < n implies !(#[trigger] member(prev, i) && member(bit, i)) by {
            lemma_single_bit(j, i);
            if member(prev, i) && i == j {
                assert(r.contains(j as usize));
                let y = choose|y: int| 0 <= y < r.len() && r[y] == j as usize;
                assert(q[y] < q[q.len() - 1]);
            }
        }
        lemma_sum_disjoint(vals, prev, bit, n as int);
        lemma_sum_single(vals, j, n as int);
        let f = |i: usize| vals[i as int];
        let qm = q.map_values(f);
        let rm = r.map_values(f);
        lemma_sum_prefix_same(qm, rm, rm.len() as int);
    }
}

proof fn lemma_sum_zero_mask(vals: Seq<i32>, k: int)
    requires
        0 <= k <= vals.len(),
    ensures
        masked_sum(vals, 0u64, k) == 0,
    decreases k,
{
    if k > 0 {
        lemma_sum_zero_mask(vals, k - 1);
        lemma_member_zero(k - 1);
    }
}

/// No split of a balance set into zero-sum groups of positions has more
/// groups than a longest partitioning.
pub proof fn lemma_longest_has_most_groups(vals: Seq<i32>, p: Seq<Seq<usize>>)
    requires
        vals.len() <= MAX_BALANCES,
        is_zero_sum_partitioning(vals, p),
        longest_partitionings(vals).len() > 0,
    ensures
        p.len() <= longest_partitionings(vals)[0].len(),
{
    let n = vals.len();
    let blocks = p.map_values(|q: Seq<usize>| mask_of(q));
    assert forall|x: int| 0 <= x < blocks.len() implies 0 < #[trigger] blocks[x] <= full(n)
        && masked_sum(vals, blocks[x], n as int) == 0 by {
        let q = p[x];
        assert(q.len() > 0);
        lemma_mask_of(vals, q);
        assert(q.contains(q[0]));
        assert(member(blocks[x], q[0] as int));
        lemma_member_zero(q[0] as int);
    }
    assert forall|x: int, y: int, i: int|
        0 <= x < y < blocks.len() && #[trigger] member(blocks[x], i) implies !#[trigger] member(
        blocks[y],
        i,
    ) by {
        lemma_mask_of(vals, p[x]);
        lemma_mask_of(vals, p[y]);
        assert(p[x].contains(i as usize));
    }
    assert forall|i: int| 0 <= i < n implies #[trigger] held_by(blocks, i) by {
        assert(in_some_group(p, i as usize));
        let x = choose|x: int| 0 <= x < p.len() && #[trigger] p[x].contains(i as usize);
        lemma_mask_of(vals, p[x]);
        assert(member(blocks[x], i));
    }
    lemma_longest_is_maximal(vals, blocks);
}

} // verus!
