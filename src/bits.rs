use vstd::prelude::*;

verus! {

/// Whether bit `i` of mask `m` is set: the balance at position `i` belongs
/// to the subset that `m` encodes.
pub open spec fn member(m: u64, i: int) -> bool {
    0 <= i < 64 && (m >> (i as u64)) & 1 == 1
}

/// The mask of the first `n` positions.
pub open spec fn full(n: nat) -> u64 {
    ((1u64 << (n as u64)) - 1) as u64
}

/// How many of the first `k` bits of `m` are set.
pub open spec fn count(m: u64, k: int) -> nat
    decreases k,
{
    if k <= 0 {
        0
    } else {
        count(m, k - 1) + (if member(m, k - 1) {
            1nat
        } else {
            0nat
        })
    }
}

/// The sum of `vals[i]` over the first `k` positions `i` in mask `m`.
pub open spec fn masked_sum(vals: Seq<i32>, m: u64, k: int) -> int
    decreases k,
{
    if k <= 0 {
        0
    } else {
        masked_sum(vals, m, k - 1) + (if member(m, k - 1) {
            vals[k - 1] as int
        } else {
            0
        })
    }
}

/// Whether `s` is a subset of `m`.
pub open spec fn within_mask(s: u64, m: u64) -> bool {
    s & m == s
}

pub proof fn lemma_member_and_or(a: u64, b: u64, i: int)
    requires
        0 <= i < 64,
    ensures
        member(a & b, i) == (member(a, i) && member(b, i)),
        member(a | b, i) == (member(a, i) || member(b, i)),
        member(a & !b, i) == (member(a, i) && !member(b, i)),
{
    let k = i as u64;
    assert(((a & b) >> k) & 1 == 1 <==> ((a >> k) & 1 == 1 && (b >> k) & 1 == 1)) by (bit_vector)
        requires
            k < 64,
    ;
    assert(((a | b) >> k) & 1 == 1 <==> ((a >> k) & 1 == 1 || (b >> k) & 1 == 1)) by (bit_vector)
        requires
            k < 64,
    ;
    assert(((a & !b) >> k) & 1 == 1 <==> ((a >> k) & 1 == 1 && !((b >> k) & 1 == 1)))
        by (bit_vector)
        requires
            k < 64,
    ;
}

pub proof fn lemma_member_zero(i: int)
    ensures
        !member(0, i),
{
    if 0 <= i < 64 {
        let k = i as u64;
        assert((0u64 >> k) & 1 != 1) by (bit_vector);
    }
}

/// The mask of the first `n` positions holds exactly those positions, and
/// every mask no greater than it holds no other.
pub proof fn lemma_full(n: nat, m: u64, i: int)
    requires
        n < 64,
        0 <= i < 64,
    ensures
        member(full(n), i) == (i < n),
        m <= full(n) && i >= n ==> !member(m, i),
        full(n) > 0 <==> n > 0,
{
    let k = i as u64;
    let nn = n as u64;
    assert(((((1u64 << nn) - 1) as u64 >> k) & 1 == 1) <==> k < nn) by (bit_vector)
        requires
            nn < 64,
            k < 64,
    ;
    assert(m <= ((1u64 << nn) - 1) as u64 && k >= nn ==> (m >> k) & 1 != 1) by (bit_vector)
        requires
            nn < 64,
            k < 64,
    ;
    assert(((1u64 << nn) - 1) as u64 > 0 <==> nn > 0) by (bit_vector)
        requires
            nn < 64,
    ;
}

/// A subset that differs from its superset is smaller as a number.
pub proof fn lemma_proper_subset_smaller(s: u64, m: u64)
    requires
        within_mask(s, m),
        s != m,
    ensures
        s < m,
{
    assert(s & m == s && s != m ==> s < m) by (bit_vector);
}

/// Subsets compose.
pub proof fn lemma_within_trans(a: u64, b: u64, c: u64)
    requires
        within_mask(a, b),
        within_mask(b, c),
    ensures
        within_mask(a, c),
{
    assert(a & b == a && b & c == b ==> a & c == a) by (bit_vector);
}

/// Two masks that agree on the first `k` bits agree below bit `k`.
pub proof fn lemma_low_bits_equal(s: u64, m: u64, k: nat)
    requires
        k < 64,
        forall|i: int| 0 <= i < k ==> member(s, i) == member(m, i),
    ensures
        s & full(k) == m & full(k),
    decreases k,
{
    let kk = k as u64;
    if k == 0 {
        assert(s & (((1u64 << kk) - 1) as u64) == m & (((1u64 << kk) - 1) as u64)) by (bit_vector)
            requires
                kk == 0,
        ;
    } else {
        lemma_low_bits_equal(s, m, (k - 1) as nat);
        let j = (k - 1) as u64;
        assert(member(s, j as int) == member(m, j as int));
        assert(s & (((1u64 << j) - 1) as u64) == m & (((1u64 << j) - 1) as u64) && (((s >> j) & 1
            == 1) == ((m >> j) & 1 == 1)) ==> s & (((1u64 << (j + 1)) - 1) as u64) == m & (((1u64
            << (j + 1)) - 1) as u64)) by (bit_vector)
            requires
                j < 63,
        ;
    }
}

/// Two masks no greater than the mask of the first `n` positions are equal
/// when they hold the same positions.
pub proof fn lemma_mask_ext(s: u64, m: u64, n: nat)
    requires
        n < 64,
        s <= full(n),
        m <= full(n),
        forall|i: int| 0 <= i < n ==> member(s, i) == member(m, i),
    ensures
        s == m,
{
    lemma_low_bits_equal(s, m, n);
    let nn = n as u64;
    assert(s <= ((1u64 << nn) - 1) as u64 ==> s & (((1u64 << nn) - 1) as u64) == s) by (bit_vector)
        requires
            nn < 64,
    ;
    assert(m <= ((1u64 << nn) - 1) as u64 ==> m & (((1u64 << nn) - 1) as u64) == m) by (bit_vector)
        requires
            nn < 64,
    ;
}

/// A subset holds only positions of its superset.
pub proof fn lemma_within_members(s: u64, m: u64)
    requires
        within_mask(s, m),
    ensures
        forall|i: int| #[trigger] member(s, i) ==> member(m, i),
{
    assert forall|i: int| #[trigger] member(s, i) implies member(m, i) by {
        lemma_member_and_or(s, m, i);
    }
}

/// Setting bit `j` of `c` adds position `j` and nothing else.
pub proof fn lemma_set_bit(c: u64, j: int, i: int)
    requires
        0 <= j < 64,
    ensures
        member(c | (1u64 << (j as u64)), i) == (member(c, i) || i == j),
{
    if 0 <= i < 64 {
        let k = i as u64;
        let jj = j as u64;
        assert(((c | (1u64 << jj)) >> k) & 1 == 1 <==> ((c >> k) & 1 == 1 || k == jj))
            by (bit_vector)
            requires
                k < 64,
                jj < 64,
        ;
    }
}

/// Counting the bits of a subset gives no more than those of its superset,
/// and counting bits only sees positions.
pub proof fn lemma_count_within(s: u64, m: u64, k: int)
    requires
        forall|i: int| 0 <= i < k && #[trigger] member(s, i) ==> member(m, i),
    ensures
        count(s, k) <= count(m, k),
    decreases k,
{
    if k > 0 {
        lemma_count_within(s, m, k - 1);
    }
}

/// A subset that misses a position of its superset has fewer bits set.
pub proof fn lemma_count_proper(s: u64, m: u64, k: int, j: int)
    requires
        forall|i: int| 0 <= i < k && #[trigger] member(s, i) ==> member(m, i),
        0 <= j < k,
        member(m, j),
        !member(s, j),
    ensures
        count(s, k) < count(m, k),
    decreases k,
{
    if k - 1 == j {
        lemma_count_within(s, m, k - 1);
    } else {
        lemma_count_proper(s, m, k - 1, j);
    }
}

/// The sum over the union of two disjoint masks is the sum of their sums.
pub proof fn lemma_sum_disjoint(vals: Seq<i32>, a: u64, b: u64, k: int)
    requires
        forall|i: int| 0 <= i < k ==> !(#[trigger] member(a, i) && member(b, i)),
        k <= 64,
    ensures
        masked_sum(vals, a | b, k) == masked_sum(vals, a, k) + masked_sum(vals, b, k),
    decreases k,
{
    if k > 0 {
        lemma_sum_disjoint(vals, a, b, k - 1);
        lemma_member_and_or(a, b, k - 1);
    }
}

/// Sums, and counts, depend only on the positions a mask holds.
pub proof fn lemma_sum_same_positions(vals: Seq<i32>, a: u64, b: u64, k: int)
    requires
        forall|i: int| 0 <= i < k ==> #[trigger] member(a, i) == member(b, i),
    ensures
        masked_sum(vals, a, k) == masked_sum(vals, b, k),
        count(a, k) == count(b, k),
    decreases k,
{
    if k > 0 {
        lemma_sum_same_positions(vals, a, b, k - 1);
    }
}

/// Whether bit `i` of `m` is set (see `member`).
pub fn bit(m: u64, i: usize) -> (r: bool)
    requires
        i < 64,
    ensures
        r == member(m, i as int),
{
    (m >> (i as u64)) & 1 == 1
}

/// How many of the first `n` bits of `m` are set.
pub fn bit_count(m: u64, n: usize) -> (r: u8)
    requires
        n < 64,
    ensures
        r as int == count(m, n as int),
{
    let mut r: u8 = 0;
    let mut i: usize = 0;
    while i < n
        invariant
            i <= n < 64,
            r as int == count(m, i as int),
            r as int <= i,
        decreases n - i,
    {
        if bit(m, i) {
            r = r + 1;
        }
        i = i + 1;
    }
    r
}


/// Unions and single bits below `n` stay within the first `n` positions.
pub proof fn lemma_within_full(a: u64, b: u64, n: nat, j: int)
    requires
        n < 64,
        a <= full(n),
        b <= full(n),
    ensures
        a | b <= full(n),
        a & b <= full(n),
        a & !b <= a,
        0 <= j < n ==> a | (1u64 << (j as u64)) <= full(n),
{
    let nn = n as u64;
    assert(a <= ((1u64 << nn) - 1) as u64 && b <= ((1u64 << nn) - 1) as u64 ==> a | b <= ((1u64
        << nn) - 1) as u64) by (bit_vector)
        requires
            nn < 64,
    ;
    assert(a & b <= a) by (bit_vector);
    assert(a & !b <= a) by (bit_vector);
    if 0 <= j < n {
        let jj = j as u64;
        assert(a <= ((1u64 << nn) - 1) as u64 ==> a | (1u64 << jj) <= ((1u64 << nn) - 1) as u64)
            by (bit_vector)
            requires
                nn < 64,
                jj < nn,
        ;
    }
}

/// Setting a bit that was not set, below `k`, counts one more.
pub proof fn lemma_count_set_bit(c: u64, j: int, k: int)
    requires
        0 <= j < 64,
        !member(c, j),
    ensures
        count(c | (1u64 << (j as u64)), k) == count(c, k) + (if 0 <= j < k {
            1int
        } else {
            0int
        }),
    decreases k,
{
    if k > 0 {
        lemma_count_set_bit(c, j, k - 1);
        lemma_set_bit(c, j, k - 1);
    }
}

/// A mask with a single bit set.
pub proof fn lemma_single_bit(j: int, i: int)
    requires
        0 <= j < 64,
    ensures
        member(1u64 << (j as u64), i) == (i == j),
{
    lemma_set_bit(0, j, i);
    lemma_member_zero(i);
    assert(0u64 | (1u64 << (j as u64)) == 1u64 << (j as u64)) by (bit_vector);
}

} // verus!
