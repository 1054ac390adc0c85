//! Bit-level model for the packed 121-cell planes: a cell index selects one
//! bit of a `u128`, and every contract about masks is stated through `bit128`.
use vstd::prelude::*;

verus! {

/// True when bit `i` of `x` is set.
pub open spec fn bit128(x: u128, i: u128) -> bool {
    x & (1u128 << i) != 0
}

/// `x` with bit `i` forced to `v`.
pub open spec fn set_bit128(x: u128, i: u128, v: bool) -> u128 {
    if v {
        x | (1u128 << i)
    } else {
        x & !(1u128 << i)
    }
}

/// Number of set bits among the low `n` bits of `x`.
pub open spec fn pop_low(x: u128, n: nat) -> nat
    decreases n,
{
    if n == 0 {
        0
    } else {
        pop_low(x, (n - 1) as nat) + if bit128(x, (n - 1) as u128) {
            1nat
        } else {
            0nat
        }
    }
}

/// Pointwise reading of the boolean operations on masks.
pub proof fn lemma_bit_ops(x: u128, y: u128, i: u128)
    requires
        i < 128,
    ensures
        bit128(x | y, i) == (bit128(x, i) || bit128(y, i)),
        bit128(x & y, i) == (bit128(x, i) && bit128(y, i)),
        bit128(!x, i) == !bit128(x, i),
        !bit128(0u128, i),
{
    assert(((x | y) & (1u128 << i) != 0) == (x & (1u128 << i) != 0 || y & (1u128 << i) != 0)
        && ((x & y) & (1u128 << i) != 0) == (x & (1u128 << i) != 0 && y & (1u128 << i) != 0)
        && ((!x) & (1u128 << i) != 0) == !(x & (1u128 << i) != 0)
        && (0u128 & (1u128 << i) == 0)) by (bit_vector)
        requires
            i < 128,
    ;
}

/// Setting one bit changes that bit and no other.
pub proof fn lemma_set_bit(x: u128, i: u128, v: bool, j: u128)
    requires
        i < 128,
        j < 128,
    ensures
        bit128(set_bit128(x, i, v), j) == if j == i {
            v
        } else {
            bit128(x, j)
        },
{
    assert(((if v {
        x | (1u128 << i)
    } else {
        x & !(1u128 << i)
    }) & (1u128 << j) != 0) == (if j == i {
        v
    } else {
        x & (1u128 << j) != 0
    })) by (bit_vector)
        requires
            i < 128,
            j < 128,
    ;
}

/// Pointwise reading of a left shift.
pub proof fn lemma_shl_bit(x: u128, s: u128, j: u128)
    requires
        s < 128,
        j < 128,
    ensures
        j < s ==> !bit128(x << s, j),
        j >= s ==> bit128(x << s, j) == bit128(x, (j - s) as u128),
{
    assert((j < s ==> (x << s) & (1u128 << j) == 0) && (j >= s ==> (((x << s) & (1u128 << j) != 0)
        == (x & (1u128 << ((j - s) as u128)) != 0)))) by (bit_vector)
        requires
            s < 128,
            j < 128,
    ;
}

/// Pointwise reading of a right shift.
pub proof fn lemma_shr_bit(x: u128, s: u128, j: u128)
    requires
        s < 128,
        j < 128,
    ensures
        j + s < 128 ==> bit128(x >> s, j) == bit128(x, (j + s) as u128),
        j + s >= 128 ==> !bit128(x >> s, j),
{
    assert((j + s < 128 ==> (((x >> s) & (1u128 << j) != 0) == (x & (1u128 << ((j + s) as u128))
        != 0))) && (j + s >= 128 ==> (x >> s) & (1u128 << j) == 0)) by (bit_vector)
        requires
            s < 128,
            j < 128,
    ;
}

/// The mask of the low `n` bits, for `n < 128`.
pub open spec fn low_mask(n: u128) -> u128 {
    ((1u128 << n) - 1) as u128
}

proof fn lemma_ext_low(x: u128, y: u128, n: u128)
    requires
        n <= 127,
        forall|i: u128| i < n ==> bit128(x, i) == bit128(y, i),
    ensures
        x & low_mask(n) == y & low_mask(n),
    decreases n,
{
    if n == 0 {
        assert(x & low_mask(0) == y & low_mask(0)) by (bit_vector);
    } else {
        let m = (n - 1) as u128;
        lemma_ext_low(x, y, m);
        assert(bit128(x, m) == bit128(y, m));
        assert(x & low_mask(m) == y & low_mask(m) && (x & (1u128 << m) != 0) == (y & (1u128 << m)
            != 0) ==> x & low_mask((m + 1) as u128) == y & low_mask((m + 1) as u128))
            by (bit_vector)
            requires
                m < 127,
        ;
    }
}

/// Two masks that agree on every bit are equal.
pub proof fn lemma_u128_ext(x: u128, y: u128)
    requires
        forall|i: u128| i < 128 ==> bit128(x, i) == bit128(y, i),
    ensures
        x == y,
{
    lemma_ext_low(x, y, 127);
    assert(bit128(x, 127) == bit128(y, 127));
    assert(x & low_mask(127) == y & low_mask(127) && (x & (1u128 << 127) != 0) == (y & (1u128
        << 127) != 0) ==> x == y) by (bit_vector);
}

/// A mask with one bit holds that bit and no other.
pub proof fn lemma_single_bit(c: u128, j: u128)
    requires
        c < 128,
        j < 128,
    ensures
        bit128(1u128 << c, j) == (j == c),
{
    assert(((1u128 << c) & (1u128 << j) != 0) == (j == c)) by (bit_vector)
        requires
            c < 128,
            j < 128,
    ;
}

/// Masking can only shrink a value.
pub proof fn lemma_and_le(x: u128, m: u128)
    ensures
        x & m <= m,
{
    assert(x & m <= m) by (bit_vector);
}

/// Masking a 64-bit value can only shrink it.
pub proof fn lemma_and_le_64(x: u64, m: u64)
    ensures
        x & m <= m,
{
    assert(x & m <= m) by (bit_vector);
}

/// The bits of the low-bit mask.
pub proof fn lemma_low_mask_bit(n: u128, j: u128)
    requires
        n <= 127,
        j < 128,
    ensures
        bit128(low_mask(n), j) == (j < n),
{
    assert((((1u128 << n) - 1) as u128 & (1u128 << j) != 0) == (j < n)) by (bit_vector)
        requires
            n <= 127,
            j < 128,
    ;
}

/// A value whose bits all lie under `n` is at most the low-bit mask.
pub proof fn lemma_bits_bound(x: u128, n: u128)
    requires
        n <= 127,
        forall|j: u128| n <= j < 128 ==> !bit128(x, j),
    ensures
        x <= low_mask(n),
{
    assert forall|j: u128| j < 128 implies bit128(x & low_mask(n), j) == bit128(x, j) by {
        lemma_bit_ops(x, low_mask(n), j);
        lemma_low_mask_bit(n, j);
    }
    lemma_u128_ext(x & low_mask(n), x);
    lemma_and_le(x, low_mask(n));
}

/// The low `n` bits of `x` hold at most `n` set bits.
pub proof fn lemma_pop_low_le(x: u128, n: nat)
    ensures
        pop_low(x, n) <= n,
    decreases n,
{
    if n > 0 {
        lemma_pop_low_le(x, (n - 1) as nat);
    }
}

/// Counts the set bits of `x`.
pub fn popcount(x: u128) -> (c: u32)
    ensures
        c == pop_low(x, 128),
{
    let mut c: u32 = 0;
    let mut i: u32 = 0;
    while i < 128
        invariant
            i <= 128,
            c == pop_low(x, i as nat),
            c <= i,
        decreases 128 - i,
    {
        if x & (1u128 << (i as u128)) != 0 {
            c = c + 1;
        }
        i = i + 1;
    }
    c
}

} // verus!
