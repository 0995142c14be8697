//! Single-square masks and population counts over 64-bit occupancy masks,
//! together with the bit-level lemmas the rules engine is proved against.
use vstd::prelude::*;

verus! {

/// The mask holding exactly square `i` (zero when `i` is off the board).
pub open spec fn sq(i: u64) -> u64 {
    1u64 << i
}

/// Square `i` is set in `m`.
pub open spec fn bit(m: u64, i: u64) -> bool {
    m & sq(i) != 0
}

/// How many of the squares below `n` are set in `m`.
pub open spec fn count_bits(m: u64, n: nat) -> nat
    decreases n,
{
    if n == 0 {
        0
    } else {
        count_bits(m, (n - 1) as nat) + (if m & sq((n - 1) as u64) != 0 {
            1nat
        } else {
            0nat
        })
    }
}

/// How many squares are set in `m`.
pub open spec fn pop(m: u64) -> nat {
    count_bits(m, 64)
}

/// Shifting a single-square mask moves the square, as long as it stays on
/// the board.
pub proof fn lemma_shl_shl(p: u64, s: u64)
    by (bit_vector)
    requires
        p + s < 64,
    ensures
        (1u64 << p) << s == 1u64 << ((p + s) as u64),
{
}

/// The mirror of `lemma_shl_shl` for right shifts.
pub proof fn lemma_shr_shr(p: u64, s: u64)
    by (bit_vector)
    requires
        s <= p < 64,
    ensures
        (1u64 << p) >> s == 1u64 << ((p - s) as u64),
{
}

/// A square is set in a union exactly when it is set in one of the parts,
/// and in neither part of a disjoint pair at once.
pub proof fn lemma_bit_or(a: u64, b: u64, i: u64)
    by (bit_vector)
    ensures
        ((a | b) & (1u64 << i) != 0) == (a & (1u64 << i) != 0 || b & (1u64 << i) != 0),
        a & b == 0 ==> !(a & (1u64 << i) != 0 && b & (1u64 << i) != 0),
        0u64 & (1u64 << i) == 0,
{
}

/// Two single-square masks share a square exactly when they are the same
/// square.
pub proof fn lemma_bit_single(i: u64, j: u64)
    by (bit_vector)
    requires
        i < 64,
        j < 64,
    ensures
        ((1u64 << i) & (1u64 << j) != 0) == (i == j),
{
}

/// Union and intersection of masks are commutative.
pub proof fn lemma_or_comm(a: u64, b: u64)
    by (bit_vector)
    ensures
        a | b == b | a,
        a & b == b & a,
{
}

/// Adding a square that `b` does not hold keeps a mask disjoint from `b`.
pub proof fn lemma_or_bit_disjoint(a: u64, b: u64, j: u64)
    by (bit_vector)
    requires
        a & b == 0,
        b & (1u64 << j) == 0,
    ensures
        (a | (1u64 << j)) & b == 0,
{
}

/// Union with the empty mask changes nothing.
pub proof fn lemma_or_zero(a: u64)
    by (bit_vector)
    ensures
        a | 0u64 == a,
        0u64 | a == a,
        a & 0u64 == 0u64,
        0u64 & a == 0u64,
{
}

/// A union of two parts of `o` is itself a part of `o`.
pub proof fn lemma_subset_or(a: u64, b: u64, o: u64)
    by (bit_vector)
    ensures
        a & o == a && b & o == b ==> (a | b) & o == a | b,
{
}

/// A single square that meets `o` lies within `o`.
pub proof fn lemma_single_in(o: u64, i: u64)
    by (bit_vector)
    requires
        o & (1u64 << i) != 0,
    ensures
        (1u64 << i) & o == (1u64 << i),
{
}

/// Removing a part of `o` and the part itself split `o` disjointly.
pub proof fn lemma_split_off(o: u64, m: u64)
    by (bit_vector)
    requires
        m & o == m,
    ensures
        o == (o & !m) | m,
        ((o & !m) & m) == 0,
{
}

/// The pieces after a placement: the mover's old pieces, the flipped run and
/// the placed square are pairwise disjoint, and disjoint from what the
/// opponent keeps.
pub proof fn lemma_place_disjoint(p: u64, o: u64, m: u64, c: u64)
    by (bit_vector)
    requires
        p & o == 0,
        m & o == m,
        (p | o) & c == 0,
    ensures
        p & m == 0,
        m & c == 0,
        (p | m) & c == 0,
        ((p | m) | c) & (o & !m) == 0,
{
}

/// A count never exceeds the number of squares counted.
pub proof fn lemma_count_le(m: u64, n: nat)
    ensures
        count_bits(m, n) <= n,
    decreases n,
{
    if n > 0 {
        lemma_count_le(m, (n - 1) as nat);
    }
}

/// Disjoint masks count independently.
pub proof fn lemma_count_or_disjoint(a: u64, b: u64, n: nat)
    requires
        a & b == 0,
    ensures
        count_bits(a | b, n) == count_bits(a, n) + count_bits(b, n),
    decreases n,
{
    if n > 0 {
        lemma_count_or_disjoint(a, b, (n - 1) as nat);
        lemma_bit_or(a, b, (n - 1) as u64);
    }
}

/// A single square on the board counts exactly once.
pub proof fn lemma_count_single(i: u64, n: nat)
    requires
        i < 64,
        n <= 64,
    ensures
        count_bits(1u64 << i, n) == if (i as nat) < n {
            1nat
        } else {
            0nat
        },
    decreases n,
{
    if n > 0 {
        lemma_count_single(i, (n - 1) as nat);
        lemma_bit_single(i, (n - 1) as u64);
    }
}

/// Counts a mask's squares, one test per board square.
pub fn popcount(m: u64) -> (r: u32)
    ensures
        r as nat == pop(m),
        r <= 64,
{
    let mut count: u32 = 0;
    let mut i: usize = 0;
    while i < 64
        invariant
            i <= 64,
            count as nat == count_bits(m, i as nat),
            count <= i,
        decreases 64 - i,
    {
        if m & (1u64 << (i as u64)) != 0 {
            count = count + 1;
        }
        i = i + 1;
    }
    count
}

} // verus!
