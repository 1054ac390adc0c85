//! Magic-number sliding-move tables: perfect-hash lookup tables that
//! replace ray casting by a multiply-shift-mask index, the arithmetic that
//! fills and checks them, and the randomized search for new multipliers.
use vstd::prelude::*;

use crate::bits::{
    bit128, lemma_and_le_64, lemma_bit_ops, lemma_bits_bound, lemma_low_mask_bit, lemma_shl_bit,
    lemma_shr_bit, lemma_single_bit, lemma_u128_ext, low_mask,
};

verus! {

/// One bit for each cell of a column: the cells of a vertical line lie 11
/// bits apart in the packed board.
pub const VERTICAL_MASK: u128 = 0x00004008010020040080100200400801;

/// The bits of the vertical line mask: every eleventh bit up to cell 110.
pub proof fn lemma_vmask_bit(b: u128)
    requires
        b < 128,
    ensures
        bit128(VERTICAL_MASK, b) == (b % 11 == 0 && b < 121),
{
    assert((VERTICAL_MASK & (1u128 << b) != 0) == (b == 0 || b == 11 || b == 22 || b == 33 || b
        == 44 || b == 55 || b == 66 || b == 77 || b == 88 || b == 99 || b == 110)) by (bit_vector)
        requires
            b < 128,
    ;
    if b % 11 == 0 && b < 121 {
        vstd::arithmetic::div_mod::lemma_fundamental_div_mod(b as int, 11);
        assert(b as int == 11 * (b as int / 11));
        assert(0 <= b as int / 11 < 11);
    }
}

/// Where line cell `c` sits in a packed pattern index whose origin cell `i`
/// is skipped.
pub open spec fn line_pos(i: int, c: int) -> int {
    if c < i {
        c
    } else {
        c - 1
    }
}

/// Whether line cell `c` is occupied under the packed pattern index `n`;
/// the origin cell `i` itself never is.
pub open spec fn line_occ(i: int, n: u128, c: int) -> bool {
    c != i && bit128(n, line_pos(i, c) as u128)
}

/// Whether a piece on line cell `i` can slide to line cell `k` under the
/// packed pattern index `n`: every cell on the way, `k` included, is free.
pub open spec fn line_dest(i: int, n: u128, k: int) -> bool {
    0 <= k < 11 && k != i && if k > i {
        forall|c: int| i < c <= k ==> !(#[trigger] line_occ(i, n, c))
    } else {
        forall|c: int| k <= c < i ==> !(#[trigger] line_occ(i, n, c))
    }
}

/// The mask of the line cells a pattern for origin `i` may occupy.
pub fn make_moves_mask(i: u16) -> (r: u128)
    requires
        i < 11,
    ensures
        forall|b: u128| b < 128 ==> (#[trigger] bit128(r, b) == (b % 11 == 0 && b < 121 && b != 11
            * i)),
{
    let r = VERTICAL_MASK & !(1u128 << ((11 * i) as u128));
    proof {
        assert forall|b: u128| b < 128 implies (bit128(r, b) == (b % 11 == 0 && b < 121 && b != 11
            * i)) by {
            lemma_bit_ops(VERTICAL_MASK, !(1u128 << ((11 * i) as u128)), b);
            lemma_bit_ops(1u128 << ((11 * i) as u128), 0, b);
            lemma_single_bit((11 * i) as u128, b);
            lemma_vmask_bit(b);
        }
    }
    r
}

/// Spreads the packed pattern index `n` over the absolute cells of the
/// line with origin `i`: bit `p` of `n` lands on the `p`-th line cell that
/// is not the origin.
pub fn make_obstructor(i: u16, n: u16) -> (r: u128)
    requires
        i < 11,
    ensures
        forall|b: u128| b < 128 ==> (#[trigger] bit128(r, b) == (b % 11 == 0 && b < 121 && line_occ(
            i as int,
            n as u128,
            b as int / 11,
        ))),
{
    let mut m: u128 = 0;
    proof {
        assert forall|b: u128| b < 128 implies !bit128(0u128, b) by {
            lemma_bit_ops(0, 0, b);
        }
    }
    let mut k: u16 = 0;
    while k < 11
        invariant
            i < 11,
            k <= 11,
            forall|b: u128|
                b < 128 ==> (#[trigger] bit128(m, b) == (b % 11 == 0 && b < 11 * k && line_occ(
                    i as int,
                    n as u128,
                    b as int / 11,
                ))),
        decreases 11 - k,
    {
        let hit = if k == i {
            false
        } else {
            let p: u16 = if k < i {
                k
            } else {
                k - 1
            };
            (n as u128) & (1u128 << (p as u128)) != 0
        };
        if hit {
            let old_m = m;
            m = m | (1u128 << ((11 * k) as u128));
            proof {
                assert(bit128(n as u128, line_pos(i as int, k as int) as u128));
                assert forall|b: u128| b < 128 implies (bit128(m, b) == (bit128(old_m, b) || b == (
                11 * k) as u128)) by {
                    lemma_bit_ops(old_m, 1u128 << ((11 * k) as u128), b);
                    lemma_single_bit((11 * k) as u128, b);
                }
                assert forall|b: u128| b < 128 implies (bit128(m, b) == (b % 11 == 0 && b < 11 * (k
                    + 1) && line_occ(i as int, n as u128, b as int / 11))) by {
                    if b == (11 * k) as u128 {
                        assert(b as int / 11 == k as int);
                    } else if b % 11 == 0 && b < 11 * (k + 1) && b >= 11 * k {
                        vstd::arithmetic::div_mod::lemma_fundamental_div_mod(b as int, 11);
                        assert(false);
                    }
                }
            }
        } else {
            proof {
                assert forall|b: u128| b < 128 implies (bit128(m, b) == (b % 11 == 0 && b < 11 * (k
                    + 1) && line_occ(i as int, n as u128, b as int / 11))) by {
                    if b % 11 == 0 && 11 * k <= b < 11 * (k + 1) {
                        vstd::arithmetic::div_mod::lemma_fundamental_div_mod(b as int, 11);
                        assert(b == 11 * k);
                        assert(b as int / 11 == k as int);
                        assert(!line_occ(i as int, n as u128, k as int));
                    }
                }
            }
        }
        k = k + 1;
    }
    m
}

/// The ray-cast ground truth for one line: the mask of the cells a piece
/// on line cell `i` reaches under the packed pattern index `n`.
pub fn make_actual_moves(i: u16, n: u16) -> (r: u128)
    requires
        i < 11,
    ensures
        forall|b: u128| b < 128 ==> (#[trigger] bit128(r, b) == (b % 11 == 0 && b < 121 && line_dest(
            i as int,
            n as u128,
            b as int / 11,
        ))),
{
    let obstructor = make_obstructor(i, n);
    let mut m: u128 = 0;
    proof {
        assert forall|b: u128| b < 128 implies !bit128(0u128, b) by {
            lemma_bit_ops(0, 0, b);
        }
        assert forall|c: int| 0 <= c < 11 implies (bit128(obstructor, (11 * c) as u128)
            == #[trigger] line_occ(i as int, n as u128, c)) by {
            assert((11 * c) as u128 as int / 11 == c);
        }
    }
    let mut k: u16 = i + 1;
    while k < 11
        invariant_except_break
            i < 11,
            i < k <= 11,
            forall|c: int| i < c < k ==> !(#[trigger] line_occ(i as int, n as u128, c)),
            forall|c: int|
                0 <= c < 11 ==> (bit128(obstructor, (11 * c) as u128) == #[trigger] line_occ(
                    i as int,
                    n as u128,
                    c,
                )),
            forall|b: u128|
                b < 128 ==> (#[trigger] bit128(m, b) == (b % 11 == 0 && 11 * i < b < 11 * k)),
        ensures
            i < k <= 11,
            forall|c: int| i < c < k ==> !(#[trigger] line_occ(i as int, n as u128, c)),
            k < 11 ==> line_occ(i as int, n as u128, k as int),
            forall|b: u128|
                b < 128 ==> (#[trigger] bit128(m, b) == (b % 11 == 0 && 11 * i < b < 11 * k)),
        decreases 11 - k,
    {
        if obstructor & (1u128 << ((11 * k) as u128)) != 0 {
            proof {
                assert(bit128(obstructor, (11 * k) as u128));
            }
            break ;
        }
        let old_m = m;
        m = m | (1u128 << ((11 * k) as u128));
        proof {
            assert(!bit128(obstructor, (11 * k) as u128));
            assert forall|b: u128| b < 128 implies (bit128(m, b) == (bit128(old_m, b) || b == (11
                * k) as u128)) by {
                lemma_bit_ops(old_m, 1u128 << ((11 * k) as u128), b);
                lemma_single_bit((11 * k) as u128, b);
            }
            assert forall|b: u128| b < 128 implies (bit128(m, b) == (b % 11 == 0 && 11 * i < b < 11
                * (k + 1))) by {
                if bit128(old_m, b) || b == (11 * k) as u128 {
                } else if b % 11 == 0 && 11 * k <= b < 11 * (k + 1) {
                    vstd::arithmetic::div_mod::lemma_fundamental_div_mod(b as int, 11);
                    assert(b == 11 * k);
                }
            }
        }
        k = k + 1;
    }
    let ghost up = k as int;
    let mut k: u16 = i;
    while k > 0
        invariant_except_break
            i < 11,
            k <= i,
            i < up <= 11,
            forall|c: int| i < c < up ==> !(#[trigger] line_occ(i as int, n as u128, c)),
            up < 11 ==> line_occ(i as int, n as u128, up),
            forall|c: int| k <= c < i ==> !(#[trigger] line_occ(i as int, n as u128, c)),
            forall|c: int|
                0 <= c < 11 ==> (bit128(obstructor, (11 * c) as u128) == #[trigger] line_occ(
                    i as int,
                    n as u128,
                    c,
                )),
            forall|b: u128|
                b < 128 ==> (#[trigger] bit128(m, b) == (b % 11 == 0 && (11 * i < b < 11 * up || 11
                    * k <= b < 11 * i))),
        ensures
            k <= i,
            i < up <= 11,
            forall|c: int| i < c < up ==> !(#[trigger] line_occ(i as int, n as u128, c)),
            up < 11 ==> line_occ(i as int, n as u128, up),
            forall|c: int| k <= c < i ==> !(#[trigger] line_occ(i as int, n as u128, c)),
            k > 0 ==> line_occ(i as int, n as u128, k - 1),
            forall|b: u128|
                b < 128 ==> (#[trigger] bit128(m, b) == (b % 11 == 0 && (11 * i < b < 11 * up || 11
                    * k <= b < 11 * i))),
        decreases k,
    {
        if obstructor & (1u128 << ((11 * (k - 1)) as u128)) != 0 {
            proof {
                assert(bit128(obstructor, (11 * (k - 1)) as u128));
            }
            break ;
        }
        let old_m = m;
        m = m | (1u128 << ((11 * (k - 1)) as u128));
        proof {
            assert(!bit128(obstructor, (11 * (k - 1)) as u128));
            assert forall|b: u128| b < 128 implies (bit128(m, b) == (bit128(old_m, b) || b == (11
                * (k - 1)) as u128)) by {
                lemma_bit_ops(old_m, 1u128 << ((11 * (k - 1)) as u128), b);
                lemma_single_bit((11 * (k - 1)) as u128, b);
            }
            assert forall|b: u128| b < 128 implies (bit128(m, b) == (b % 11 == 0 && (11 * i < b < 11
                * up || 11 * (k - 1) <= b < 11 * i))) by {
                if bit128(old_m, b) || b == (11 * (k - 1)) as u128 {
                } else if b % 11 == 0 && 11 * (k - 1) <= b < 11 * k {
                    vstd::arithmetic::div_mod::lemma_fundamental_div_mod(b as int, 11);
                    assert(b == 11 * (k - 1));
                }
            }
        }
        k = k - 1;
    }
    proof {
        let ghost down = k as int;
        assert forall|b: u128| b < 128 implies (bit128(m, b) == (b % 11 == 0 && b < 121
            && line_dest(i as int, n as u128, b as int / 11))) by {
            if b % 11 == 0 && b < 121 {
                vstd::arithmetic::div_mod::lemma_fundamental_div_mod(b as int, 11);
                let c = b as int / 11;
                assert(b == 11 * c);
                if c > i {
                    if c < up {
                        assert(forall|e: int| i < e <= c ==> !(#[trigger] line_occ(i as int, n as u128, e)));
                        assert(line_dest(i as int, n as u128, c));
                    } else {
                        if c < 11 {
                            assert(up < 11);
                            assert(line_occ(i as int, n as u128, up));
                            assert(!line_dest(i as int, n as u128, c));
                        }
                    }
                } else if c < i {
                    if c >= down {
                        assert(forall|e: int| c <= e < i ==> !(#[trigger] line_occ(i as int, n as u128, e)));
                        assert(line_dest(i as int, n as u128, c));
                    } else {
                        assert(down > 0);
                        assert(line_occ(i as int, n as u128, down - 1));
                        assert(c <= down - 1 < i);
                        assert(!line_dest(i as int, n as u128, c));
                    }
                }
            } else {
                if b < 128 && bit128(m, b) {
                    assert(b % 11 == 0 && b < 121);
                }
            }
        }
    }
    m
}

/// Every spread obstruction pattern for line origin `i`, indexed by its
/// packed pattern index.
pub fn make_all_obstructors(i: u16) -> (r: Vec<u128>)
    requires
        i < 11,
    ensures
        r@.len() == 1024,
        forall|n: int, b: u128|
            0 <= n < 1024 && b < 128 ==> ((#[trigger] bit128(r@[n], b)) == (b % 11 == 0 && b < 121
                && line_occ(i as int, n as u128, b as int / 11))),
{
    let mut r: Vec<u128> = Vec::new();
    let mut n: usize = 0;
    while n < 1024
        invariant
            i < 11,
            n <= 1024,
            r@.len() == n,
            forall|a: int, b: u128|
                0 <= a < n && b < 128 ==> ((#[trigger] bit128(r@[a], b)) == (b % 11 == 0 && b < 121
                    && line_occ(i as int, a as u128, b as int / 11))),
        decreases 1024 - n,
    {
        let o = make_obstructor(i, n as u16);
        r.push(o);
        n = n + 1;
    }
    r
}

/// Every ray-cast destination mask for line origin `i`, indexed by the
/// packed pattern index.
pub fn make_all_moves(i: u16) -> (r: Vec<u128>)
    requires
        i < 11,
    ensures
        r@.len() == 1024,
        forall|n: int, b: u128|
            0 <= n < 1024 && b < 128 ==> ((#[trigger] bit128(r@[n], b)) == (b % 11 == 0 && b < 121
                && line_dest(i as int, n as u128, b as int / 11))),
{
    let mut r: Vec<u128> = Vec::new();
    let mut n: usize = 0;
    while n < 1024
        invariant
            i < 11,
            n <= 1024,
            r@.len() == n,
            forall|a: int, b: u128|
                0 <= a < n && b < 128 ==> ((#[trigger] bit128(r@[a], b)) == (b % 11 == 0 && b < 121
                    && line_dest(i as int, a as u128, b as int / 11))),
        decreases 1024 - n,
    {
        let o = make_actual_moves(i, n as u16);
        r.push(o);
        n = n + 1;
    }
    r
}

/// The high 64 bits of the wrapping product of a pattern and a
/// multiplier.
pub open spec fn mul_hi(o: u128, m: u128) -> u64 {
    ((((o as nat * m as nat) % 0x100000000000000000000000000000000nat) as u128) >> 64) as u64
}

/// The unshifted hash of an obstruction pattern: the high 64 bits of the
/// wrapping product with the multiplier.
pub fn obstruction_to_ind(obstruction: u128, multiplier: u128) -> (r: u64)
    ensures
        r == mul_hi(obstruction, multiplier),
{
    (obstruction.wrapping_mul(multiplier) >> 64) as u64
}

/// The table slot of an obstruction pattern under multiplier `m`, shift
/// `s` and an index of `bits` bits.
pub open spec fn hash_slot(o: u128, m: u128, s: u32, bits: u32) -> u64 {
    (mul_hi(o, m) >> (s as u64)) & (((1u64 << (bits as u64)) - 1) as u64)
}

/// A multiplier and shift are collision-free over the given patterns:
/// patterns that share a table slot share their destination mask.
pub open spec fn magic_ok(obs: Seq<u128>, mvs: Seq<u128>, m: u128, s: u32, bits: u32) -> bool {
    forall|a: int, b: int|
        0 <= a < obs.len() && 0 <= b < obs.len() && hash_slot(obs[a], m, s, bits) == hash_slot(
            obs[b],
            m,
            s,
            bits,
        ) ==> mvs[a] == mvs[b]
}

fn try_shift(obstructors: &Vec<u128>, moves: &Vec<u128>, multiplier: u128, s: u32, bits: u32) -> (ok:
    bool)
    requires
        obstructors@.len() == 1024,
        moves@.len() == 1024,
        s < 64,
        10 <= bits <= 12,
    ensures
        ok == magic_ok(obstructors@, moves@, multiplier, s, bits),
{
    proof {
        assert(1024 <= (1usize << bits) && (1usize << bits) <= 4096 && ((1u64 << (bits as u64))
            - 1) as usize == (1usize << bits) - 1 && (1u64 << (bits as u64)) >= 1 && ((1u64 << (
        bits as u64)) - 1) < 4096) by (bit_vector)
            requires
                10 <= bits <= 12,
        ;
    }
    let size: usize = 1usize << bits;
    let mut lookup: Vec<Option<u128>> = Vec::new();
    let mut f: usize = 0;
    while f < size
        invariant
            f <= size,
            lookup@.len() == f,
            forall|j: int| 0 <= j < f ==> lookup@[j] is None,
        decreases size - f,
    {
        lookup.push(None);
        f = f + 1;
    }
    let mask: u64 = (1u64 << (bits as u64)) - 1;
    let mut a: usize = 0;
    while a < 1024
        invariant
            obstructors@.len() == 1024,
            moves@.len() == 1024,
            s < 64,
            10 <= bits <= 12,
            a <= 1024,
            size == 1usize << bits,
            1024 <= size <= 4096,
            mask == ((1u64 << (bits as u64)) - 1) as u64,
            mask <= 4095,
            mask as usize == size - 1,
            lookup@.len() == size,
            forall|x: int|
                0 <= x < a ==> lookup@[hash_slot(obstructors@[x], multiplier, s, bits) as int]
                    == Some(moves@[x]),
            forall|j: int|
                0 <= j < size ==> ((#[trigger] lookup@[j]) matches Some(v) ==> exists|x: int|
                    0 <= x < a && hash_slot(obstructors@[x], multiplier, s, bits) == j && moves@[x]
                        == v),
        decreases 1024 - a,
    {
        let raw = obstruction_to_ind(obstructors[a], multiplier);
        let ind = ((raw >> (s as u64)) & mask) as usize;
        proof {
            lemma_and_le_64(raw >> (s as u64), mask);
            assert(ind == hash_slot(obstructors@[a as int], multiplier, s, bits));
        }
        let entry = lookup[ind];
        match entry {
            None => {
                let ghost old_lookup = lookup@;
                lookup.set(ind, Some(moves[a]));
                proof {
                    assert forall|x: int| 0 <= x < a + 1 implies lookup@[hash_slot(
                        obstructors@[x],
                        multiplier,
                        s,
                        bits,
                    ) as int] == Some(moves@[x]) by {
                        lemma_and_le_64(
                            mul_hi(obstructors@[x], multiplier) >> (s as u64),
                            ((1u64 << (bits as u64)) - 1) as u64,
                        );
                        if x < a {
                            assert(old_lookup[hash_slot(obstructors@[x], multiplier, s, bits) as int]
                                == Some(moves@[x]));
                        }
                    }
                    assert forall|j: int|
                        0 <= j < size implies ((#[trigger] lookup@[j]) matches Some(v) ==> exists|
                        x: int,
                    |
                        0 <= x < a + 1 && hash_slot(obstructors@[x], multiplier, s, bits) == j
                            && moves@[x] == v) by {
                        if j == ind {
                        } else {
                            if old_lookup[j] is Some {
                                let x = choose|x: int|
                                    0 <= x < a && hash_slot(obstructors@[x], multiplier, s, bits)
                                        == j && moves@[x] == old_lookup[j]->0;
                                assert(0 <= x < a + 1 && hash_slot(
                                    obstructors@[x],
                                    multiplier,
                                    s,
                                    bits,
                                ) == j && moves@[x] == lookup@[j]->0);
                            }
                        }
                    }
                }
            },
            Some(v) => {
                proof {
                    assert forall|x: int| 0 <= x < a + 1 && v == moves@[a as int] implies lookup@[
                    hash_slot(obstructors@[x], multiplier, s, bits) as int] == Some(moves@[x]) by {
                        lemma_and_le_64(
                            mul_hi(obstructors@[x], multiplier) >> (s as u64),
                            ((1u64 << (bits as u64)) - 1) as u64,
                        );
                    }
                }
                if v != moves[a] {
                    proof {
                        let x = choose|x: int|
                            0 <= x < a && hash_slot(obstructors@[x], multiplier, s, bits)
                                == ind as int && moves@[x] == v;
                        assert(hash_slot(obstructors@[x], multiplier, s, bits) == hash_slot(
                            obstructors@[a as int],
                            multiplier,
                            s,
                            bits,
                        ));
                        assert(moves@[x] != moves@[a as int]);
                        assert(!magic_ok(obstructors@, moves@, multiplier, s, bits));
                    }
                    return false;
                }
            },
        }
        a = a + 1;
    }
    proof {
        assert forall|x: int, y: int|
            0 <= x < 1024 && 0 <= y < 1024 && hash_slot(obstructors@[x], multiplier, s, bits)
                == hash_slot(obstructors@[y], multiplier, s, bits) implies moves@[x]
            == moves@[y] by {
            lemma_and_le_64(
                mul_hi(obstructors@[x], multiplier) >> (s as u64),
                ((1u64 << (bits as u64)) - 1) as u64,
            );
            lemma_and_le_64(
                mul_hi(obstructors@[y], multiplier) >> (s as u64),
                ((1u64 << (bits as u64)) - 1) as u64,
            );
            assert(lookup@[hash_slot(obstructors@[x], multiplier, s, bits) as int] == Some(
                moves@[x],
            ));
            assert(lookup@[hash_slot(obstructors@[y], multiplier, s, bits) as int] == Some(
                moves@[y],
            ));
        }
    }
    true
}

/// Whether `multiplier` is a magic number for the given obstruction
/// patterns and destination masks with a table of `2^bits` slots: looks for
/// a shift that makes the multiply-shift-mask hash collision-free, and
/// returns the first one found.
pub fn test_magic_number(
    obstructors: &Vec<u128>,
    moves: &Vec<u128>,
    multiplier: u128,
    bits: u32,
) -> (r: Option<u32>)
    requires
        obstructors@.len() == 1024,
        moves@.len() == 1024,
        10 <= bits <= 12,
    ensures
        r matches Some(s) ==> s < 64 && magic_ok(obstructors@, moves@, multiplier, s, bits),
        r is None ==> forall|s: u32| s < 64 ==> !magic_ok(obstructors@, moves@, multiplier, s, bits),
{
    let mut s: u32 = 0;
    while s < 64
        invariant
            obstructors@.len() == 1024,
            moves@.len() == 1024,
            10 <= bits <= 12,
            s <= 64,
            forall|s2: u32| s2 < s ==> !magic_ok(obstructors@, moves@, multiplier, s2, bits),
        decreases 64 - s,
    {
        if try_shift(obstructors, moves, multiplier, s, bits) {
            return Some(s);
        }
        s = s + 1;
    }
    None
}

/// Relies on rand::random: a fresh 128-bit value; nothing is assumed of
/// which one.
#[verifier::external_body]
fn random_multiplier() -> u128 {
    rand::random()
}

/// Randomized search for a magic multiplier for line origin `i` with a
/// table of `2^bits` slots: samples up to `n_trials` random multipliers
/// and returns the first that is collision-free, with its shift and the
/// number of trials it took.
pub fn find_magic_number(bits: u32, i: u16, n_trials: usize) -> (r: Option<(u128, u32, usize)>)
    requires
        i < 11,
        10 <= bits <= 12,
    ensures
        r matches Some(found) ==> found.1 < 64 && exists|obs: Seq<u128>, mvs: Seq<u128>|
            obs.len() == 1024 && mvs.len() == 1024 && is_line_tables(i as int, obs, mvs)
                && magic_ok(obs, mvs, found.0, found.1, bits),
{
    let obstructors = make_all_obstructors(i);
    let moves = make_all_moves(i);
    let mut k: usize = 0;
    while k < n_trials
        invariant
            i < 11,
            10 <= bits <= 12,
            obstructors@.len() == 1024,
            moves@.len() == 1024,
            is_line_tables(i as int, obstructors@, moves@),
        decreases n_trials - k,
    {
        let m = random_multiplier();
        if let Some(s) = test_magic_number(&obstructors, &moves, m, bits) {
            return Some((m, s, k));
        }
        k = k + 1;
    }
    None
}

/// The given sequences are the spread obstruction patterns and ray-cast
/// destination masks of the line with origin `i`.
pub open spec fn is_line_tables(i: int, obs: Seq<u128>, mvs: Seq<u128>) -> bool {
    obs.len() == 1024 && mvs.len() == 1024 && forall|n: int, b: u128|
        #![trigger bit128(obs[n], b)]
        #![trigger bit128(mvs[n], b)]
        0 <= n < 1024 && b < 128 ==> (bit128(obs[n], b) == (b % 11 == 0 && b < 121 && line_occ(
            i,
            n as u128,
            b as int / 11,
        )) && bit128(mvs[n], b) == (b % 11 == 0 && b < 121 && line_dest(
            i,
            n as u128,
            b as int / 11,
        )))
}

/// Whether the line cell `c` of a spread pattern is occupied.
pub open spec fn line_occ_of(o: u128, c: int) -> bool {
    bit128(o, (11 * c) as u128)
}

/// A spread pattern for origin `i`: only line cells other than the origin
/// carry a bit.
pub open spec fn clean_pattern(i: int, o: u128) -> bool {
    forall|b: u128| b < 128 && #[trigger] bit128(o, b) ==> b % 11 == 0 && b < 121 && b != 11 * i
}

/// Whether a piece on line cell `i` can slide to line cell `k` under the
/// spread pattern `o`.
pub open spec fn line_dest_of(i: int, o: u128, k: int) -> bool {
    0 <= k < 11 && k != i && if k > i {
        forall|c: int| i < c <= k ==> !(#[trigger] line_occ_of(o, c))
    } else {
        forall|c: int| k <= c < i ==> !(#[trigger] line_occ_of(o, c))
    }
}

/// The line cell that bit `p` of a packed pattern index stands for, when
/// the origin cell `i` is skipped.
pub open spec fn unpos(i: int, p: int) -> int {
    if p < i {
        p
    } else {
        p + 1
    }
}

/// The packed pattern index of a spread pattern: bit `line_pos(i, c)` is
/// set for each occupied line cell `c` at or past `k`.
pub open spec fn pack_rec(o: u128, i: int, k: int) -> u128
    decreases 11 - k,
{
    if k < 0 || k >= 11 {
        0
    } else {
        pack_rec(o, i, k + 1) | (if k != i && line_occ_of(o, k) {
            1u128 << (line_pos(i, k) as u128)
        } else {
            0
        })
    }
}

proof fn lemma_pack_rec_bit(o: u128, i: int, k: int, p: u128)
    requires
        0 <= i < 11,
        0 <= k <= 11,
        p < 128,
    ensures
        bit128(pack_rec(o, i, k), p) == (p < 10 && k <= unpos(i, p as int) < 11 && line_occ_of(
            o,
            unpos(i, p as int),
        )),
    decreases 11 - k,
{
    if k >= 11 {
        lemma_bit_ops(0, 0, p);
    } else {
        lemma_pack_rec_bit(o, i, k + 1, p);
        let single: u128 = if k != i && line_occ_of(o, k) {
            1u128 << (line_pos(i, k) as u128)
        } else {
            0
        };
        lemma_bit_ops(pack_rec(o, i, k + 1), single, p);
        if k != i && line_occ_of(o, k) {
            lemma_single_bit(line_pos(i, k) as u128, p);
            assert(p == line_pos(i, k) as u128 ==> unpos(i, p as int) == k);
        }
        assert(k != i && line_occ_of(o, k) ==> line_pos(i, k) < 10);
    }
}

/// Every spread pattern is the spread of its own packed index: the index
/// is below 1024 and the pattern's bits read back as that index's line
/// occupancy.
pub proof fn lemma_pack_obstructor(o: u128, i: int)
    requires
        0 <= i < 11,
        clean_pattern(i, o),
    ensures
        pack_rec(o, i, 0) < 1024,
        forall|b: u128|
            b < 128 ==> (#[trigger] bit128(o, b) == (b % 11 == 0 && b < 121 && line_occ(
                i,
                pack_rec(o, i, 0),
                b as int / 11,
            ))),
{
    let n = pack_rec(o, i, 0);
    assert forall|p: u128| 10 <= p < 128 implies !bit128(n, p) by {
        lemma_pack_rec_bit(o, i, 0, p);
    }
    lemma_bits_bound(n, 10);
    assert(low_mask(10) == 1023) by (bit_vector);

    assert forall|b: u128| b < 128 implies (#[trigger] bit128(o, b) == (b % 11 == 0 && b < 121
        && line_occ(i, n, b as int / 11))) by {
        if b % 11 == 0 && b < 121 {
            vstd::arithmetic::div_mod::lemma_fundamental_div_mod(b as int, 11);
            let c = b as int / 11;
            assert(b == 11 * c && 0 <= c < 11);
            if c != i {
                lemma_pack_rec_bit(o, i, 0, line_pos(i, c) as u128);
                assert(unpos(i, line_pos(i, c)) == c);
                assert(line_occ(i, n, c) == line_occ_of(o, c));
                assert(line_occ_of(o, c) == bit128(o, b));
            } else {
                assert(!bit128(o, b));
                assert(!line_occ(i, n, c));
            }
        } else {
            assert(!bit128(o, b));
        }
    }
}

/// The stored magic multiplier of the vertical line with origin row `i`.
pub open spec fn vertical_magic(i: int) -> u128 {
    if i == 0 {
        0x501e1970a031effc2a07048e4fdb9fff
    } else if i == 1 {
        0x751bfde58826f7fdffaffbbfdff77fff
    } else if i == 2 {
        0xa04c5c46b05e0d6b298eeb8e10c1effe
    } else if i == 3 {
        0x2ae249b8c9983da0cdffe930c6c00b32
    } else if i == 4 {
        0xf9e9accbfff623354b06ca7bfff9542f
    } else if i == 5 {
        0xc068f9868341f917eda8040f97dac16c
    } else if i == 6 {
        0xa634d2305654600820312cc6083ea3c1
    } else if i == 7 {
        0x3d4f0e3637a1ab59743b9d175dd17146
    } else if i == 8 {
        0x9eafffde40e34b972146f8fffa64e154
    } else if i == 9 {
        0xa2227ffd6fb1f5d0112bada224aad389
    } else {
        0x76d837fff936da3d90a3a7af54efb580
    }
}

/// The stored shift of the vertical line with origin row `i`.
pub open spec fn vertical_shift(i: int) -> u32 {
    if i == 0 {
        37
    } else if i == 1 {
        37
    } else if i == 2 {
        38
    } else if i == 3 {
        38
    } else if i == 4 {
        37
    } else if i == 5 {
        38
    } else if i == 6 {
        36
    } else if i == 7 {
        37
    } else if i == 8 {
        39
    } else if i == 9 {
        37
    } else {
        33
    }
}

/// The stored magic multiplier of the vertical line with origin row `i`.
pub fn magic_number(i: usize) -> (r: u128)
    requires
        i < 11,
    ensures
        r == vertical_magic(i as int),
{
    if i == 0 {
        0x501e1970a031effc2a07048e4fdb9fff
    } else if i == 1 {
        0x751bfde58826f7fdffaffbbfdff77fff
    } else if i == 2 {
        0xa04c5c46b05e0d6b298eeb8e10c1effe
    } else if i == 3 {
        0x2ae249b8c9983da0cdffe930c6c00b32
    } else if i == 4 {
        0xf9e9accbfff623354b06ca7bfff9542f
    } else if i == 5 {
        0xc068f9868341f917eda8040f97dac16c
    } else if i == 6 {
        0xa634d2305654600820312cc6083ea3c1
    } else if i == 7 {
        0x3d4f0e3637a1ab59743b9d175dd17146
    } else if i == 8 {
        0x9eafffde40e34b972146f8fffa64e154
    } else if i == 9 {
        0xa2227ffd6fb1f5d0112bada224aad389
    } else {
        0x76d837fff936da3d90a3a7af54efb580
    }
}

/// The stored shift of the vertical line with origin row `i`.
pub fn magic_shift(i: usize) -> (r: u32)
    requires
        i < 11,
    ensures
        r == vertical_shift(i as int),
        r < 64,
{
    if i == 0 {
        37
    } else if i == 1 {
        37
    } else if i == 2 {
        38
    } else if i == 3 {
        38
    } else if i == 4 {
        37
    } else if i == 5 {
        38
    } else if i == 6 {
        36
    } else if i == 7 {
        37
    } else if i == 8 {
        39
    } else if i == 9 {
        37
    } else {
        33
    }
}

/// A genuine collision of the multiply-shift hash on the line with origin
/// `i`: two spread patterns share a table slot under `(m, s)` yet disagree
/// on some reachable destination, so no sound table exists for the pair.
pub open spec fn line_collision(i: int, m: u128, s: u32) -> bool {
    exists|o1: u128, o2: u128, k: int|
        #![trigger hash_slot(o1, m, s, 11), hash_slot(o2, m, s, 11), line_dest_of(i, o1, k)]
        clean_pattern(i, o1) && clean_pattern(i, o2) && hash_slot(o1, m, s, 11) == hash_slot(
            o2,
            m,
            s,
            11,
        ) && line_dest_of(i, o1, k) != line_dest_of(i, o2, k)
}

/// A pattern index and its spread value agree on every destination when
/// they agree on every cell's occupancy.
proof fn lemma_dest_index_value(i: int, nidx: u128, o: u128, k: int)
    requires
        0 <= i < 11,
        forall|c: int| 0 <= c < 11 ==> (#[trigger] line_occ(i, nidx, c) == line_occ_of(o, c)),
    ensures
        line_dest(i, nidx, k) == line_dest_of(i, o, k),
{
    if line_dest(i, nidx, k) {
        assert forall|c: int|
            (k > i && i < c && c <= k) || (k < i && k <= c && c < i) implies !(#[trigger]
        line_occ_of(o, c)) by {
            assert(!line_occ(i, nidx, c));
        }
    }
    if line_dest_of(i, o, k) {
        assert forall|c: int|
            (k > i && i < c && c <= k) || (k < i && k <= c && c < i) implies !(#[trigger] line_occ(
            i,
            nidx,
            c,
        )) by {
            assert(!line_occ_of(o, c));
        }
    }
}

/// A sound vertical lookup table for line origin `i`: every spread
/// pattern's slot holds exactly its ray-cast destination mask.
pub open spec fn wf_vline(t: Seq<u128>, i: int, m: u128, s: u32) -> bool {
    t.len() == 2048 && forall|o: u128, b: u128|
        clean_pattern(i, o) && b < 128 ==> ((#[trigger] bit128(
            t[hash_slot(o, m, s, 11) as int],
            b,
        )) == (b % 11 == 0 && b < 121 && line_dest_of(i, o, b as int / 11)))
}

/// Builds and checks the vertical lookup table of line origin `i` for the
/// multiplier `m` and shift `s`: fills the slot of every obstruction
/// pattern with its ray-cast destination mask. It fails exactly on a
/// mismatch: a `None` means the hash genuinely collides on this line.
pub fn build_vertical_line(i: u16, m: u128, s: u32) -> (r: Option<Vec<u128>>)
    requires
        i < 11,
        s < 64,
    ensures
        r matches Some(t) ==> wf_vline(t@, i as int, m, s),
        r is None ==> line_collision(i as int, m, s),
{
    proof {
        assert(((1u64 << (11u32 as u64)) - 1) == 0x7ffu64) by (bit_vector);
    }
    let obs = make_all_obstructors(i);
    let mvs = make_all_moves(i);
    let mut table: Vec<u128> = Vec::new();
    let mut used: Vec<bool> = Vec::new();
    let mut f: usize = 0;
    while f < 2048
        invariant
            f <= 2048,
            table@.len() == f,
            used@.len() == f,
            forall|x: int| 0 <= x < f ==> !(#[trigger] used@[x]),
        decreases 2048 - f,
    {
        table.push(0);
        used.push(false);
        f = f + 1;
    }
    let ghost mut owner: Seq<int> = Seq::new(2048, |x: int| 0);
    let mut n: usize = 0;
    while n < 1024
        invariant
            i < 11,
            s < 64,
            n <= 1024,
            table@.len() == 2048,
            used@.len() == 2048,
            owner.len() == 2048,
            is_line_tables(i as int, obs@, mvs@),
            forall|a: int|
                0 <= a < n ==> used@[hash_slot(#[trigger] obs@[a], m, s, 11) as int] && table@[
                    hash_slot(obs@[a], m, s, 11) as int] == mvs@[a],
            forall|jj: int|
                0 <= jj < 2048 ==> ((#[trigger] used@[jj]) ==> 0 <= owner[jj] < n && hash_slot(
                    obs@[owner[jj]],
                    m,
                    s,
                    11,
                ) == jj && table@[jj] == mvs@[owner[jj]]),
        decreases 1024 - n,
    {
        let raw = obstruction_to_ind(obs[n], m);
        let ind = ((raw >> (s as u64)) & 0x7ff) as usize;
        proof {
            lemma_and_le_64(raw >> (s as u64), 0x7ff);
            assert(((1u64 << (11u32 as u64)) - 1) == 0x7ffu64) by (bit_vector);
            assert(ind == hash_slot(obs@[n as int], m, s, 11));
        }
        if used[ind] {
            if table[ind] != mvs[n] {
                proof {
                    let a = owner[ind as int];
                    assert(table@[ind as int] == mvs@[a]);
                    let o1 = obs@[a];
                    let o2 = obs@[n as int];
                    let ma = mvs@[a];
                    let mn = mvs@[n as int];
                    assert(ma != mn);
                    assert(hash_slot(o1, m, s, 11) == hash_slot(o2, m, s, 11));
                    assert forall|x: int, b: u128|
                        (x == a || x == n) && b < 128 && #[trigger] bit128(obs@[x], b) implies (b
                        % 11 == 0 && b < 121 && b != 11 * i) by {
                        vstd::arithmetic::div_mod::lemma_fundamental_div_mod(b as int, 11);
                        assert(line_occ(i as int, x as u128, b as int / 11));
                    }
                    assert(clean_pattern(i as int, o1));
                    assert(clean_pattern(i as int, o2));
                    if !(exists|b: u128| b < 128 && bit128(ma, b) != bit128(mn, b)) {
                        assert forall|b: u128| b < 128 implies bit128(ma, b) == bit128(mn, b) by {
                            assert(!(b < 128 && bit128(ma, b) != bit128(mn, b)));
                        }
                        lemma_u128_ext(ma, mn);
                        assert(false);
                    }
                    let b = choose|b: u128| b < 128 && bit128(ma, b) != bit128(mn, b);
                    assert(b % 11 == 0 && b < 121) by {
                        if !(b % 11 == 0 && b < 121) {
                            assert(!bit128(ma, b) && !bit128(mn, b));
                        }
                    }
                    let k = b as int / 11;
                    assert(line_dest(i as int, a as u128, k) != line_dest(i as int, n as u128, k));
                    assert forall|x: int, c: int| (x == a || x == n) && 0 <= c < 11 implies (
                    #[trigger] line_occ(i as int, x as u128, c) == line_occ_of(obs@[x], c)) by {
                        assert(bit128(obs@[x], (11 * c) as u128) == ((11 * c) % 11 == 0 && 11 * c
                            < 121 && line_occ(i as int, x as u128, (11 * c) as int / 11)));
                        assert((11 * c) as int / 11 == c);
                    }
                    lemma_dest_index_value(i as int, a as u128, o1, k);
                    lemma_dest_index_value(i as int, n as u128, o2, k);
                    assert(line_dest_of(i as int, o1, k) != line_dest_of(i as int, o2, k));
                    assert(line_collision(i as int, m, s));
                }
                return None;
            }
        } else {
            used.set(ind, true);
            table.set(ind, mvs[n]);
            proof {
                owner = owner.update(ind as int, n as int);
            }
        }
        proof {
            assert forall|a: int| 0 <= a < n + 1 implies used@[hash_slot(
                #[trigger] obs@[a],
                m,
                s,
                11,
            ) as int] && table@[hash_slot(obs@[a], m, s, 11) as int] == mvs@[a] by {
                lemma_and_le_64(
                    mul_hi(obs@[a], m) >> (s as u64),
                    ((1u64 << (11u32 as u64)) - 1) as u64,
                );
            }

        }
        n = n + 1;
    }
    proof {
        assert forall|o: u128, b: u128| clean_pattern(i as int, o) && b < 128 implies ((
        #[trigger] bit128(table@[hash_slot(o, m, s, 11) as int], b)) == (b % 11 == 0 && b < 121
            && line_dest_of(i as int, o, b as int / 11))) by {
            lemma_pack_obstructor(o, i as int);
            let n = pack_rec(o, i as int, 0);
            assert forall|b2: u128| b2 < 128 implies bit128(#[trigger] obs@[n as int], b2)
                == bit128(o, b2) by {
                assert(bit128(obs@[n as int], b2) == (b2 % 11 == 0 && b2 < 121 && line_occ(
                    i as int,
                    n,
                    b2 as int / 11,
                )));
            }
            lemma_u128_ext(obs@[n as int], o);
            assert(used@[hash_slot(obs@[n as int], m, s, 11) as int] && table@[hash_slot(
                obs@[n as int],
                m,
                s,
                11,
            ) as int] == mvs@[n as int]);
            lemma_and_le_64(
                mul_hi(o, m) >> (s as u64),
                ((1u64 << (11u32 as u64)) - 1) as u64,
            );
            assert(bit128(mvs@[n as int], b) == (b % 11 == 0 && b < 121 && line_dest(
                i as int,
                n,
                b as int / 11,
            )));
            if b % 11 == 0 && b < 121 {
                let k = b as int / 11;
                assert forall|c: int| 0 <= c < 11 && c != i implies (#[trigger] line_occ(
                    i as int,
                    n,
                    c,
                ) == line_occ_of(o, c)) by {
                    assert(bit128(o, (11 * c) as u128) == (line_occ(i as int, n, c)));
                }
                let ghost ii = i as int;
                assert(line_dest(ii, n, k) == line_dest_of(ii, o, k)) by {
                    if line_dest(ii, n, k) {
                        assert forall|c: int|
                            (k > ii && ii < c && c <= k) || (k < ii && k <= c && c
                                < ii) implies !(#[trigger] line_occ_of(o, c)) by {
                            assert(!line_occ(ii, n, c));
                        }
                    }
                    if line_dest_of(ii, o, k) {
                        assert forall|c: int|
                            (k > ii && ii < c && c <= k) || (k < ii && k <= c && c
                                < ii) implies !(#[trigger] line_occ(ii, n, c)) by {
                            assert(!line_occ_of(o, c));
                        }
                    }
                }
            }
        }
    }
    Some(table)
}

/// Whether column `c` of a row pattern is occupied.
pub open spec fn row_occ(p: u128, c: int) -> bool {
    bit128(p, c as u128)
}

/// Whether a piece on column `j` can slide to column `k` under the row
/// pattern `p`: every column on the way, `k` included, is free. The
/// origin's own bit is never read.
pub open spec fn hline_dest(j: int, p: u128, k: int) -> bool {
    0 <= k < 11 && k != j && if k > j {
        forall|c: int| j < c <= k ==> !(#[trigger] row_occ(p, c))
    } else {
        forall|c: int| k <= c < j ==> !(#[trigger] row_occ(p, c))
    }
}

/// A sound horizontal lookup table for column `j`: the entry of every
/// 11-bit row pattern holds exactly its ray-cast destination columns, and
/// nothing above bit 10.
pub open spec fn wf_hline(t: Seq<u16>, j: int) -> bool {
    t.len() == 2048 && forall|n: int, b: u128|
        0 <= n < 2048 && b < 128 ==> ((#[trigger] bit128(t[n] as u128, b)) == (b < 11
            && hline_dest(j, n as u128, b as int)))
}

/// The ray-cast destination columns of one row pattern for origin column
/// `j`, as an 11-bit mask.
fn horizontal_entry(j: u16, n: u16) -> (r: u128)
    requires
        j < 11,
        n < 2048,
    ensures
        forall|b: u128| b < 128 ==> (#[trigger] bit128(r, b) == (b < 11 && hline_dest(
            j as int,
            n as u128,
            b as int,
        ))),
        r < 2048,
{
    let mut m: u128 = 0;
    proof {
        assert forall|b: u128| b < 128 implies !bit128(0u128, b) by {
            lemma_bit_ops(0, 0, b);
        }
    }
    let mut k: u16 = j + 1;
    while k < 11
        invariant_except_break
            j < 11,
            j < k <= 11,
            forall|c: int| j < c < k ==> !(#[trigger] row_occ(n as u128, c)),
            forall|b: u128| b < 128 ==> (#[trigger] bit128(m, b) == (j < b < k)),
        ensures
            j < k <= 11,
            forall|c: int| j < c < k ==> !(#[trigger] row_occ(n as u128, c)),
            k < 11 ==> row_occ(n as u128, k as int),
            forall|b: u128| b < 128 ==> (#[trigger] bit128(m, b) == (j < b < k)),
        decreases 11 - k,
    {
        if (n as u128) & (1u128 << (k as u128)) != 0 {
            proof {
                assert(row_occ(n as u128, k as int));
            }
            break ;
        }
        let old_m = m;
        m = m | (1u128 << (k as u128));
        proof {
            assert(!row_occ(n as u128, k as int));
            assert forall|b: u128| b < 128 implies (bit128(m, b) == (bit128(old_m, b) || b
                == k as u128)) by {
                lemma_bit_ops(old_m, 1u128 << (k as u128), b);
                lemma_single_bit(k as u128, b);
            }
        }
        k = k + 1;
    }
    let ghost up = k as int;
    let mut k: u16 = j;
    while k > 0
        invariant_except_break
            j < 11,
            k <= j,
            j < up <= 11,
            forall|c: int| j < c < up ==> !(#[trigger] row_occ(n as u128, c)),
            up < 11 ==> row_occ(n as u128, up),
            forall|c: int| k <= c < j ==> !(#[trigger] row_occ(n as u128, c)),
            forall|b: u128|
                b < 128 ==> (#[trigger] bit128(m, b) == (j < b < up || k <= b < j)),
        ensures
            k <= j,
            j < up <= 11,
            forall|c: int| j < c < up ==> !(#[trigger] row_occ(n as u128, c)),
            up < 11 ==> row_occ(n as u128, up),
            forall|c: int| k <= c < j ==> !(#[trigger] row_occ(n as u128, c)),
            k > 0 ==> row_occ(n as u128, k - 1),
            forall|b: u128|
                b < 128 ==> (#[trigger] bit128(m, b) == (j < b < up || k <= b < j)),
        decreases k,
    {
        if (n as u128) & (1u128 << ((k - 1) as u128)) != 0 {
            proof {
                assert(row_occ(n as u128, k - 1));
            }
            break ;
        }
        let old_m = m;
        m = m | (1u128 << ((k - 1) as u128));
        proof {
            assert(!row_occ(n as u128, k - 1));
            assert forall|b: u128| b < 128 implies (bit128(m, b) == (bit128(old_m, b) || b == (k
                - 1) as u128)) by {
                lemma_bit_ops(old_m, 1u128 << ((k - 1) as u128), b);
                lemma_single_bit((k - 1) as u128, b);
            }
        }
        k = k - 1;
    }
    proof {
        let ghost down = k as int;
        assert forall|b: u128| b < 128 implies (bit128(m, b) == (b < 11 && hline_dest(
            j as int,
            n as u128,
            b as int,
        ))) by {
            if b < 11 {
                let c = b as int;
                if c > j {
                    if c >= up && c < 11 {
                        assert(up < 11);
                        assert(row_occ(n as u128, up));
                        assert(!hline_dest(j as int, n as u128, c));
                    }
                } else if c < j {
                    if c < down {
                        assert(down > 0);
                        assert(row_occ(n as u128, down - 1));
                        assert(c <= down - 1 < j);
                        assert(!hline_dest(j as int, n as u128, c));
                    }
                }
            }
        }
        assert forall|b: u128| 11 <= b < 128 implies !bit128(m, b) by {}
        lemma_bits_bound(m, 11);
        assert(low_mask(11) == 2047) by (bit_vector);
    }
    m
}

/// Builds the horizontal lookup table of origin column `j`: the ray-cast
/// destination mask of every 11-bit row pattern, indexed by the pattern
/// itself.
pub fn build_horizontal_line(j: u16) -> (r: Vec<u16>)
    requires
        j < 11,
    ensures
        wf_hline(r@, j as int),
{
    let mut r: Vec<u16> = Vec::new();
    let mut n: usize = 0;
    while n < 2048
        invariant
            j < 11,
            n <= 2048,
            r@.len() == n,
            forall|a: int, b: u128|
                0 <= a < n && b < 128 ==> ((#[trigger] bit128(r@[a] as u128, b)) == (b < 11
                    && hline_dest(j as int, a as u128, b as int))),
        decreases 2048 - n,
    {
        let e = horizontal_entry(j, n as u16);
        let e16 = e as u16;
        proof {
            assert(e16 as u128 == e);
        }
        r.push(e16);
        n = n + 1;
    }
    r
}

/// The sliding-move lookup tables: one multiply-shift-mask table per
/// vertical line and one directly indexed table per horizontal origin
/// column, each checked sound against the ray-cast ground truth when
/// built.
pub struct MagicTables {
    pub vertical: Vec<Vec<u128>>,
    pub vmagic: Vec<u128>,
    pub vshift: Vec<u32>,
    pub horizontal: Vec<Vec<u16>>,
}

impl MagicTables {
    /// Eleven sound tables per axis, each shift small enough to apply.
    pub open spec fn wf(self) -> bool {
        &&& self.vertical@.len() == 11
        &&& self.vmagic@.len() == 11
        &&& self.vshift@.len() == 11
        &&& self.horizontal@.len() == 11
        &&& forall|i: int| 0 <= i < 11 ==> (#[trigger] self.vshift@[i]) < 64
        &&& forall|i: int|
            0 <= i < 11 ==> wf_vline(
                (#[trigger] self.vertical@[i])@,
                i,
                self.vmagic@[i],
                self.vshift@[i],
            )
        &&& forall|j: int| 0 <= j < 11 ==> wf_hline((#[trigger] self.horizontal@[j])@, j)
    }
}

/// Builds the sliding-move lookup tables from the stored multipliers and
/// shifts, verifying each vertical line against the ray-cast ground truth.
/// Construction fails only on a mismatch: a `None` means some line's
/// stored multiplier and shift genuinely collide.
pub fn build_magic_tables() -> (r: Option<MagicTables>)
    ensures
        r matches Some(t) ==> t.wf(),
        r is None ==> exists|i2: int|
            0 <= i2 < 11 && #[trigger] line_collision(i2, vertical_magic(i2), vertical_shift(i2)),
{
    let mut vertical: Vec<Vec<u128>> = Vec::new();
    let mut vmagic: Vec<u128> = Vec::new();
    let mut vshift: Vec<u32> = Vec::new();
    let mut i: usize = 0;
    while i < 11
        invariant
            i <= 11,
            vertical@.len() == i,
            vmagic@.len() == i,
            vshift@.len() == i,
            forall|x: int| 0 <= x < i ==> (#[trigger] vshift@[x]) < 64,
            forall|x: int|
                0 <= x < i ==> wf_vline((#[trigger] vertical@[x])@, x, vmagic@[x], vshift@[x]),
        decreases 11 - i,
    {
        let m = magic_number(i);
        let s = magic_shift(i);
        match build_vertical_line(i as u16, m, s) {
            Some(t) => {
                vertical.push(t);
                vmagic.push(m);
                vshift.push(s);
            },
            None => {
                proof {
                    assert(line_collision(
                        i as int,
                        vertical_magic(i as int),
                        vertical_shift(i as int),
                    ));
                }
                return None;
            },
        }
        i = i + 1;
    }
    let mut horizontal: Vec<Vec<u16>> = Vec::new();
    let mut j: usize = 0;
    while j < 11
        invariant
            j <= 11,
            horizontal@.len() == j,
            forall|x: int| 0 <= x < j ==> wf_hline((#[trigger] horizontal@[x])@, x),
        decreases 11 - j,
    {
        let t = build_horizontal_line(j as u16);
        horizontal.push(t);
        j = j + 1;
    }
    Some(MagicTables { vertical, vmagic, vshift, horizontal })
}

/// Whether the board-occupancy mask holds a piece on `[y, x]`.
pub open spec fn board_occ(occ: u128, y: int, x: int) -> bool {
    bit128(occ, (y * 11 + x) as u128)
}

/// A piece on `[i, j]` can slide down its column to row `k` under the
/// occupancy mask `occ`: every cell on the way, the destination included,
/// is free.
pub open spec fn vertical_reach(occ: u128, i: int, j: int, k: int) -> bool {
    0 <= k < 11 && k != i && if k > i {
        forall|c: int| i < c <= k ==> !(#[trigger] board_occ(occ, c, j))
    } else {
        forall|c: int| k <= c < i ==> !(#[trigger] board_occ(occ, c, j))
    }
}

/// A piece on `[i, j]` can slide along its row to column `k` under the
/// occupancy mask `occ`.
pub open spec fn horizontal_reach(occ: u128, i: int, j: int, k: int) -> bool {
    0 <= k < 11 && k != j && if k > j {
        forall|c: int| j < c <= k ==> !(#[trigger] board_occ(occ, i, c))
    } else {
        forall|c: int| k <= c < j ==> !(#[trigger] board_occ(occ, i, c))
    }
}

/// A number in `(110, 121)` is no multiple of 11.
proof fn lemma_no_line_cell(x: int)
    requires
        110 < x < 121,
    ensures
        x % 11 != 0,
{
    if x % 11 == 0 {
        vstd::arithmetic::div_mod::lemma_fundamental_div_mod(x, 11);
        assert(x == 11 * (x / 11));
    }
}

/// The vertical sliding moves of a piece on row `i`, column `j`, by
/// multiply-shift-mask lookup: the column's obstruction pattern is
/// extracted, hashed with the line's multiplier and shift, and the stored
/// destination mask shifted back to the piece's column. Exactly the
/// ray-cast column destinations.
pub fn get_vertical_moves(tables: &MagicTables, obstructors: u128, i: u16, j: u16) -> (r: u128)
    requires
        tables.wf(),
        i < 11,
        j < 11,
    ensures
        forall|t: int|
            0 <= t < 121 ==> (#[trigger] bit128(r, t as u128) == (t % 11 == j && vertical_reach(
                obstructors,
                i as int,
                j as int,
                t / 11,
            ))),
        forall|b: u128| 121 <= b < 128 ==> !bit128(r, b),
{
    let o = ((obstructors >> (j as u128)) & VERTICAL_MASK) & !(1u128 << ((11 * i) as u128));
    proof {
        assert forall|b: u128| b < 128 implies (#[trigger] bit128(o, b) == (b % 11 == 0 && b < 121
            && b != 11 * i && board_occ(obstructors, b as int / 11, j as int))) by {
            lemma_bit_ops(
                (obstructors >> (j as u128)) & VERTICAL_MASK,
                !(1u128 << ((11 * i) as u128)),
                b,
            );
            lemma_bit_ops(1u128 << ((11 * i) as u128), 0, b);
            lemma_single_bit((11 * i) as u128, b);
            lemma_bit_ops(obstructors >> (j as u128), VERTICAL_MASK, b);
            lemma_vmask_bit(b);
            lemma_shr_bit(obstructors, j as u128, b);
            if b % 11 == 0 && b < 121 {
                vstd::arithmetic::div_mod::lemma_fundamental_div_mod(b as int, 11);
                assert((b as int / 11) * 11 + j == b + j);
            }
        }
        assert(clean_pattern(i as int, o));
    }
    let mi = tables.vmagic[i as usize];
    let sh = tables.vshift[i as usize];
    let raw = obstruction_to_ind(o, mi);
    let ind = ((raw >> (sh as u64)) & 0x7ff) as usize;
    proof {
        lemma_and_le_64(raw >> (sh as u64), 0x7ff);
        assert(((1u64 << (11u32 as u64)) - 1) == 0x7ffu64) by (bit_vector);
        assert(ind == hash_slot(o, mi, sh, 11));
    }
    let entry = tables.vertical[i as usize][ind];
    proof {
        assert(wf_vline(tables.vertical@[i as int]@, i as int, mi, sh));
        assert forall|b: u128| b < 128 implies (#[trigger] bit128(entry, b) == (b % 11 == 0 && b
            < 121 && line_dest_of(i as int, o, b as int / 11))) by {
            assert(bit128(tables.vertical@[i as int]@[hash_slot(o, mi, sh, 11) as int], b) == (b
                % 11 == 0 && b < 121 && line_dest_of(i as int, o, b as int / 11)));
        }
        assert forall|c: int| 0 <= c < 11 implies (#[trigger] line_occ_of(o, c) == (c != i
            && board_occ(obstructors, c, j as int))) by {
            assert(bit128(o, (11 * c) as u128) == ((11 * c) % 11 == 0 && 11 * c < 121 && 11 * c
                != 11 * i && board_occ(obstructors, (11 * c) as int / 11, j as int)));
            assert((11 * c) as int / 11 == c);
        }
    }
    let r = entry << (j as u128);
    proof {
        let ghost ii = i as int;
        let ghost jj = j as int;
        assert forall|t: int| 0 <= t < 121 implies (#[trigger] bit128(r, t as u128) == (t % 11 == jj
            && vertical_reach(obstructors, ii, jj, t / 11))) by {
            crate::board::lemma_div_mod_11(t);
            lemma_shl_bit(entry, j as u128, t as u128);
            let q = t / 11;
            if t % 11 == jj {
                assert(t - jj == 11 * q);
                assert(bit128(r, t as u128) == bit128(entry, (11 * q) as u128));
                assert(bit128(entry, (11 * q) as u128) == (q != ii && line_dest_of(ii, o, q)))
                    by {
                    assert((11 * q) % 11 == 0 && (11 * q) as int / 11 == q);
                }
                assert(line_dest_of(ii, o, q) == vertical_reach(obstructors, ii, jj, q)) by {
                    if line_dest_of(ii, o, q) {
                        assert forall|c: int|
                            (q > ii && ii < c && c <= q) || (q < ii && q <= c && c
                                < ii) implies !(#[trigger] board_occ(obstructors, c, jj)) by {
                            assert(!line_occ_of(o, c));
                        }
                    }
                    if vertical_reach(obstructors, ii, jj, q) {
                        assert forall|c: int|
                            (q > ii && ii < c && c <= q) || (q < ii && q <= c && c
                                < ii) implies !(#[trigger] line_occ_of(o, c)) by {
                            assert(!board_occ(obstructors, c, jj));
                        }
                    }
                }
            } else {
                if t >= jj {
                    let b = t % 11;
                    let x = t - jj;
                    if b > jj {
                        vstd::arithmetic::div_mod::lemma_fundamental_div_mod_converse(
                            x,
                            11,
                            q,
                            b - jj,
                        );
                    } else {
                        assert(q >= 1);
                        vstd::arithmetic::div_mod::lemma_fundamental_div_mod_converse(
                            x,
                            11,
                            q - 1,
                            b - jj + 11,
                        );
                    }
                    assert(x % 11 != 0);
                    assert(!bit128(entry, (t - jj) as u128));
                }
            }
        }
        assert forall|b: u128| 121 <= b < 128 implies !bit128(r, b) by {
            lemma_shl_bit(entry, j as u128, b);
            if b >= j as u128 {
                let x = (b - j) as u128;
                if x % 11 == 0 && x < 121 {
                    assert(x > 110 ==> false) by {
                        if x > 110 {
                            lemma_no_line_cell(x as int);
                        }
                    }
                    assert(x <= 110);
                    assert(b < 121);
                }
            }
        }
    }
    r
}

/// The horizontal sliding moves of a piece on row `i`, column `j`, by
/// direct lookup: the row's 11-bit obstruction pattern indexes the origin
/// column's table and the stored destination mask is shifted back to the
/// piece's row. Exactly the ray-cast row destinations.
pub fn get_horizontal_moves(tables: &MagicTables, obstructors: u128, i: u16, j: u16) -> (r: u128)
    requires
        tables.wf(),
        i < 11,
        j < 11,
    ensures
        forall|t: int|
            0 <= t < 121 ==> (#[trigger] bit128(r, t as u128) == (t / 11 == i && horizontal_reach(
                obstructors,
                i as int,
                j as int,
                t % 11,
            ))),
        forall|b: u128| 121 <= b < 128 ==> !bit128(r, b),
{
    let o = ((obstructors >> ((11 * i) as u128)) & 0x7ff) & !(1u128 << (j as u128));
    proof {
        assert(low_mask(11) == 0x7ff) by (bit_vector);
        assert forall|b: u128| b < 128 implies (#[trigger] bit128(o, b) == (b < 11 && b != j
            && board_occ(obstructors, i as int, b as int))) by {
            lemma_bit_ops((obstructors >> ((11 * i) as u128)) & 0x7ff, !(1u128 << (j as u128)), b);
            lemma_bit_ops(1u128 << (j as u128), 0, b);
            lemma_single_bit(j as u128, b);
            lemma_bit_ops(obstructors >> ((11 * i) as u128), 0x7ff, b);
            lemma_low_mask_bit(11, b);
            lemma_shr_bit(obstructors, (11 * i) as u128, b);
        }
        assert forall|b: u128| 11 <= b < 128 implies !bit128(o, b) by {}
        lemma_bits_bound(o, 11);
    }
    let ind = o as usize;
    let entry = tables.horizontal[j as usize][ind];
    proof {
        assert(wf_hline(tables.horizontal@[j as int]@, j as int));
        assert(o as usize as int == o as int && (o as int) as u128 == o);
        assert forall|b: u128| b < 128 implies (#[trigger] bit128(entry as u128, b) == (b < 11
            && hline_dest(j as int, o, b as int))) by {
            assert(bit128(tables.horizontal@[j as int]@[o as int] as u128, b) == (b < 11
                && hline_dest(j as int, (o as int) as u128, b as int)));
        }
        assert forall|c: int| 0 <= c < 11 && c != j implies (#[trigger] row_occ(o, c) == board_occ(
            obstructors,
            i as int,
            c,
        )) by {
            assert(bit128(o, c as u128) == (c < 11 && c != j && board_occ(
                obstructors,
                i as int,
                c,
            )));
        }
    }
    let e128 = entry as u128;
    let r = e128 << ((11 * i) as u128);
    proof {
        let ghost ii = i as int;
        let ghost jj = j as int;
        assert forall|t: int| 0 <= t < 121 implies (#[trigger] bit128(r, t as u128) == (t / 11 == ii
            && horizontal_reach(obstructors, ii, jj, t % 11))) by {
            crate::board::lemma_div_mod_11(t);
            lemma_shl_bit(e128, (11 * i) as u128, t as u128);
            let k = t % 11;
            if t / 11 == ii {
                assert(t - 11 * ii == k);
                assert(bit128(r, t as u128) == bit128(e128, k as u128));
                assert(bit128(e128, k as u128) == (k < 11 && hline_dest(jj, o, k)));
                assert(hline_dest(jj, o, k) == horizontal_reach(obstructors, ii, jj, k)) by {
                    if hline_dest(jj, o, k) {
                        assert forall|c: int|
                            (k > jj && jj < c && c <= k) || (k < jj && k <= c && c
                                < jj) implies !(#[trigger] board_occ(obstructors, ii, c)) by {
                            assert(!row_occ(o, c));
                        }
                    }
                    if horizontal_reach(obstructors, ii, jj, k) {
                        assert forall|c: int|
                            (k > jj && jj < c && c <= k) || (k < jj && k <= c && c
                                < jj) implies !(#[trigger] row_occ(o, c)) by {
                            assert(!board_occ(obstructors, ii, c));
                        }
                    }
                }
            } else {
                if t >= 11 * ii {
                    assert(t - 11 * ii >= 11);
                    assert(!bit128(e128, (t - 11 * ii) as u128));
                }
            }
        }
        assert forall|b: u128| 121 <= b < 128 implies !bit128(r, b) by {
            lemma_shl_bit(e128, (11 * i) as u128, b);
            if b >= (11 * i) as u128 {
                assert(b - 11 * (i as u128) >= 11);
            }
        }
    }
    r
}

impl crate::board::BoardState {
    /// The legal destinations for the piece on `coord`, computed by
    /// magic-table lookup instead of ray casting, with the same meaning as
    /// `moves_from`: for every board state and origin the two generators
    /// return the same mask, bit for bit.
    pub fn moves_from_magic(&self, tables: &MagicTables, coord: [u16; 2]) -> (r: u128)
        requires
            self.wf(),
            tables.wf(),
            coord[0] < 11,
            coord[1] < 11,
        ensures
            forall|t: int|
                0 <= t < 121 ==> (#[trigger] bit128(r, t as u128) == crate::board::dest_ok(
                    *self,
                    coord[0] as int,
                    coord[1] as int,
                    t / 11,
                    t % 11,
                )),
            forall|b: u128| 121 <= b < 128 ==> !bit128(r, b),
    {
        let y = coord[0];
        let x = coord[1];
        let occ = self.occupied();
        let v = get_vertical_moves(tables, occ, y, x);
        let h = get_horizontal_moves(tables, occ, y, x);
        let moves = v | h;
        proof {
            let yy = y as int;
            let xx = x as int;
            assert forall|i2: u128| i2 < 128 implies #[trigger] bit128(moves, i2) == (bit128(v, i2)
                || bit128(h, i2)) by {
                lemma_bit_ops(v, h, i2);
            }
            assert forall|cy: int, cx: int| 0 <= cy < 11 && 0 <= cx < 11 implies (#[trigger]
            board_occ(occ, cy, cx) == !crate::board::empty_at(*self, cy, cx)) by {
                assert(bit128(occ, (cy * 11 + cx) as u128) <==> cy * 11 + cx < 121
                    && crate::board::piece_at(*self, cy * 11 + cx) != crate::board::Piece::Empty);
            }
            assert forall|t: int| 0 <= t < 121 implies (#[trigger] bit128(moves, t as u128)
                == crate::board::slide_ok(*self, yy, xx, t / 11, t % 11)) by {
                crate::board::lemma_div_mod_11(t);
                let q = t / 11;
                let k = t % 11;
                assert(bit128(v, t as u128) == (k == xx && vertical_reach(occ, yy, xx, q)));
                assert(bit128(h, t as u128) == (q == yy && horizontal_reach(occ, yy, xx, k)));
                if k == xx {
                    assert(vertical_reach(occ, yy, xx, q) == (q != yy && ((q > yy
                        && crate::board::south_clear(*self, yy, xx, q)) || (q < yy
                        && crate::board::north_clear(*self, yy, xx, q))))) by {
                        if vertical_reach(occ, yy, xx, q) {
                            if q > yy {
                                assert forall|c: int| yy < c <= q implies crate::board::empty_at(
                                    *self,
                                    c,
                                    xx,
                                ) by {
                                    assert(!board_occ(occ, c, xx));
                                }
                            } else {
                                assert forall|c: int| q <= c < yy implies crate::board::empty_at(
                                    *self,
                                    c,
                                    xx,
                                ) by {
                                    assert(!board_occ(occ, c, xx));
                                }
                            }
                        }
                        if q != yy {
                            if q > yy && crate::board::south_clear(*self, yy, xx, q) {
                                assert forall|c: int| yy < c <= q implies !(#[trigger] board_occ(
                                    occ,
                                    c,
                                    xx,
                                )) by {
                                    assert(crate::board::empty_at(*self, c, xx));
                                }
                                assert(vertical_reach(occ, yy, xx, q));
                            }
                            if q < yy && crate::board::north_clear(*self, yy, xx, q) {
                                assert forall|c: int| q <= c < yy implies !(#[trigger] board_occ(
                                    occ,
                                    c,
                                    xx,
                                )) by {
                                    assert(crate::board::empty_at(*self, c, xx));
                                }
                                assert(vertical_reach(occ, yy, xx, q));
                            }
                        }
                    }
                }
                if q == yy {
                    assert(horizontal_reach(occ, yy, xx, k) == (k != xx && ((k > xx
                        && crate::board::east_clear(*self, yy, xx, k)) || (k < xx
                        && crate::board::west_clear(*self, yy, xx, k))))) by {
                        if horizontal_reach(occ, yy, xx, k) {
                            if k > xx {
                                assert forall|c: int| xx < c <= k implies crate::board::empty_at(
                                    *self,
                                    yy,
                                    c,
                                ) by {
                                    assert(!board_occ(occ, yy, c));
                                }
                            } else {
                                assert forall|c: int| k <= c < xx implies crate::board::empty_at(
                                    *self,
                                    yy,
                                    c,
                                ) by {
                                    assert(!board_occ(occ, yy, c));
                                }
                            }
                        }
                        if k != xx {
                            if k > xx && crate::board::east_clear(*self, yy, xx, k) {
                                assert forall|c: int| xx < c <= k implies !(#[trigger] board_occ(
                                    occ,
                                    yy,
                                    c,
                                )) by {
                                    assert(crate::board::empty_at(*self, yy, c));
                                }
                                assert(horizontal_reach(occ, yy, xx, k));
                            }
                            if k < xx && crate::board::west_clear(*self, yy, xx, k) {
                                assert forall|c: int| k <= c < xx implies !(#[trigger] board_occ(
                                    occ,
                                    yy,
                                    c,
                                )) by {
                                    assert(crate::board::empty_at(*self, yy, c));
                                }
                                assert(horizontal_reach(occ, yy, xx, k));
                            }
                        }
                    }
                }
            }
        }
        if self.get((y as usize) * crate::board::W + (x as usize)) == crate::board::Piece::King {
            proof {
                assert(crate::board::piece_at(*self, crate::board::cell(y as int, x as int))
                    == crate::board::Piece::King);
            }
            moves
        } else {
            let r = moves & !crate::board::TOWERS;
            proof {
                assert(crate::board::piece_at(*self, crate::board::cell(y as int, x as int))
                    != crate::board::Piece::King);
                assert forall|i2: u128| i2 < 128 implies #[trigger] bit128(r, i2) == (bit128(
                    moves,
                    i2,
                ) && !crate::board::is_tower(i2 as int)) by {
                    lemma_bit_ops(moves, !crate::board::TOWERS, i2);
                    lemma_bit_ops(crate::board::TOWERS, crate::board::TOWERS, i2);
                    crate::board::lemma_towers_bit(i2);
                }
                assert forall|t: int| 0 <= t < 121 implies (#[trigger] bit128(r, t as u128)
                    == crate::board::dest_ok(*self, y as int, x as int, t / 11, t % 11)) by {
                    crate::board::lemma_div_mod_11(t);
                    assert(bit128(r, t as u128) == (bit128(moves, t as u128)
                        && !crate::board::is_tower(t)));
                    assert(bit128(moves, t as u128) == crate::board::slide_ok(
                        *self,
                        y as int,
                        x as int,
                        t / 11,
                        t % 11,
                    ));
                }
            }
            r
        }
    }
}

} // verus!
