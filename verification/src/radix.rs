//! Base-32 digits of trie indices: the arithmetic behind `SparseVec`'s levels.
use vstd::prelude::*;

verus! {

/// Number of index bits consumed by one level of the trie.
pub const BRANCHBITS: usize = 5;

/// Number of children of a branch node.
pub const BRANCH: usize = 32;

/// `k` with its lowest `n` base-32 digits dropped, i.e. `k / 32^n`.
pub open spec fn high_digits(k: nat, n: nat) -> nat
    decreases n,
{
    if n == 0 {
        k
    } else {
        high_digits(k / 32, (n - 1) as nat)
    }
}

/// The base-32 digit of `k` at position `lvl` (position 0 is the least significant).
pub open spec fn digit(k: nat, lvl: nat) -> nat {
    high_digits(k, lvl) % 32
}

/// Number of base-32 digits needed to write `k`; zero needs none.
pub open spec fn num_digits(k: nat) -> nat
    decreases k,
{
    if k == 0 {
        0
    } else {
        1 + num_digits(k / 32)
    }
}

/// `32^l`: the number of indices that fit in `l` base-32 digits.
pub open spec fn capacity(l: nat) -> nat
    decreases l,
{
    if l == 0 {
        1
    } else {
        32 * capacity((l - 1) as nat)
    }
}

/// Dropping one more digit divides by 32.
pub proof fn lemma_high_succ(k: nat, n: nat)
    ensures
        high_digits(k, n + 1) == high_digits(k, n) / 32,
    decreases n,
{
    if n > 0 {
        lemma_high_succ(k / 32, (n - 1) as nat);
        assert(high_digits(k, n + 1) == high_digits(k / 32, n));
        assert(high_digits(k, n) == high_digits(k / 32, (n - 1) as nat));
    } else {
        assert(high_digits(k, 1) == high_digits(k / 32, 0));
    }
}

/// The digits above position `n` followed by the digit at `n` give the digits above `n - 1`.
pub proof fn lemma_high_decompose(k: nat, n: nat)
    ensures
        high_digits(k, n) == 32 * high_digits(k, n + 1) + digit(k, n),
{
    lemma_high_succ(k, n);
}

/// Dropping digits keeps the order of indices.
pub proof fn lemma_high_mono(a: nat, b: nat, n: nat)
    requires
        a <= b,
    ensures
        high_digits(a, n) <= high_digits(b, n),
    decreases n,
{
    if n > 0 {
        lemma_high_mono(a / 32, b / 32, (n - 1) as nat);
    }
}

/// An index fits in `n` digits exactly when dropping `n` digits leaves nothing.
pub proof fn lemma_high_zero(k: nat, n: nat)
    ensures
        (high_digits(k, n) == 0) == (num_digits(k) <= n),
    decreases n,
{
    if n > 0 {
        lemma_high_zero(k / 32, (n - 1) as nat);
    }
}

/// An index fits in `l` digits exactly when it is below `32^l`.
pub proof fn lemma_num_digits_capacity(k: nat, l: nat)
    ensures
        (num_digits(k) <= l) == (k < capacity(l)),
    decreases l,
{
    if l > 0 {
        lemma_num_digits_capacity(k / 32, (l - 1) as nat);
    }
}

/// No number has more base-32 digits than its own value.
pub proof fn lemma_num_digits_le(k: nat)
    ensures
        num_digits(k) <= k,
    decreases k,
{
    if k > 0 {
        lemma_num_digits_le(k / 32);
    }
}

/// `32^l` never decreases with `l`.
pub proof fn lemma_capacity_mono(a: nat, b: nat)
    requires
        a <= b,
    ensures
        1 <= capacity(a) <= capacity(b),
    decreases b,
{
    if a < b {
        lemma_capacity_mono(a, (b - 1) as nat);
    } else if a > 0 {
        lemma_capacity_mono((a - 1) as nat, (a - 1) as nat);
    }
}

/// Levels whose digit shift fits in a `usize` describe indices that fit in a `usize`,
/// with room for one more.
pub proof fn lemma_capacity_fits(l: nat)
    requires
        5 * l < usize::BITS,
    ensures
        capacity(l) <= usize::MAX,
        capacity(l) * 4 <= usize::MAX + 1,
        capacity(l) < i64::MAX,
{
    reveal_with_fuel(capacity, 13);
    assert(capacity(6) == 1073741824);
    assert(capacity(12) == 1152921504606846976);
    if usize::BITS == 32 {
        lemma_capacity_mono(l, 6);
    } else {
        lemma_capacity_mono(l, 12);
    }
}

/// Right shift by five bits divides by 32.
pub proof fn lemma_shr5(i: usize)
    ensures
        (i >> 5usize) == i / 32,
{
    assert((i >> 5usize) == i / 32) by (bit_vector);
}

/// Shifting right by five bits per level drops that many base-32 digits.
pub proof fn lemma_shr_levels(i: usize, lvl: nat)
    requires
        5 * lvl < usize::BITS,
    ensures
        (i >> ((5 * lvl) as usize)) as nat == high_digits(i as nat, lvl),
    decreases lvl,
{
    let s = (5 * lvl) as usize;
    if lvl == 0 {
        assert((i >> 0usize) == i) by (bit_vector);
    } else {
        assert((i >> s) == ((i >> 5usize) >> ((s - 5) as usize))) by (bit_vector)
            requires
                5 <= s < usize::BITS,
        ;
        lemma_shr5(i);
        lemma_shr_levels(i / 32, (lvl - 1) as nat);
    }
}

/// Number of levels needed above the leaves for index `i`: its count of base-32 digits.
pub fn find_level(i: usize) -> (lvl: usize)
    ensures
        lvl == num_digits(i as nat),
{
    let ghost i0 = i;
    let mut i = i;
    let mut lvl: usize = 0;
    proof {
        lemma_num_digits_le(i0 as nat);
    }
    while i != 0
        invariant
            lvl + num_digits(i as nat) == num_digits(i0 as nat),
            num_digits(i0 as nat) <= i0,
        decreases i,
    {
        proof {
            lemma_shr5(i);
        }
        i >>= BRANCHBITS;
        lvl += 1;
    }
    lvl
}

/// The base-32 digit of `i` at level `lvl`.
pub fn level_bits(i: usize, lvl: usize) -> (d: usize)
    requires
        5 * lvl < usize::BITS,
    ensures
        d == digit(i as nat, lvl as nat),
        d < BRANCH,
{
    proof {
        lemma_shr_levels(i, lvl as nat);
    }
    let shifted = i >> (lvl * BRANCHBITS);
    assert(shifted & 31usize == shifted % 32) by (bit_vector);
    shifted & (BRANCH - 1)
}

/// A larger index needs no fewer digits.
pub proof fn lemma_num_digits_mono(a: nat, b: nat)
    requires
        a <= b,
    ensures
        num_digits(a) <= num_digits(b),
    decreases b,
{
    if a > 0 {
        lemma_num_digits_mono(a / 32, b / 32);
    }
}

/// Whether index `i` has few enough base-32 digits for the levels of a vector to be
/// addressed by shifts of the machine word.
pub fn index_fits(i: usize) -> (b: bool)
    ensures
        b == (5 * num_digits(i as nat) < usize::BITS),
{
    let lvl = find_level(i);
    proof {
        lemma_num_digits_le(i as nat);
    }
    if lvl >= 64 {
        false
    } else {
        5 * lvl < usize::BITS as usize
    }
}

} // verus!
