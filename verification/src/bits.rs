//! Bitboards as sets of squares: the bit predicate and the facts about
//! `|`, `&`, `^`, `!` and single-bit masks that the rest of the crate uses.
use vstd::prelude::*;

verus! {

/// Square `i` (0..64) is a member of bitboard `bb`.
pub open spec fn bit(bb: u64, i: int) -> bool {
    0 <= i < 64 && (bb >> (i as u64)) & 1u64 == 1u64
}

/// The single-square bitboard of `i`.
pub open spec fn sq_bb(i: int) -> u64 {
    1u64 << (i as u64)
}

/// Two bitboards hold the same squares.
pub open spec fn same_bits(a: u64, b: u64) -> bool {
    forall|i: int| 0 <= i < 64 ==> #[trigger] bit(a, i) == bit(b, i)
}

pub proof fn lemma_bit_or(a: u64, b: u64)
    ensures
        forall|i: int| 0 <= i < 64 ==> #[trigger] bit(a | b, i) == (bit(a, i) || bit(b, i)),
{
    assert forall|i: int| 0 <= i < 64 implies #[trigger] bit(a | b, i) == (bit(a, i) || bit(b, i)) by {
        let j = i as u64;
        assert(((a | b) >> j) & 1u64 == 1u64 <==> ((a >> j) & 1u64 == 1u64 || (b >> j) & 1u64
            == 1u64)) by (bit_vector);
    }
}

pub proof fn lemma_bit_and(a: u64, b: u64)
    ensures
        forall|i: int| 0 <= i < 64 ==> #[trigger] bit(a & b, i) == (bit(a, i) && bit(b, i)),
{
    assert forall|i: int| 0 <= i < 64 implies #[trigger] bit(a & b, i) == (bit(a, i) && bit(b, i)) by {
        let j = i as u64;
        assert(((a & b) >> j) & 1u64 == 1u64 <==> ((a >> j) & 1u64 == 1u64 && (b >> j) & 1u64
            == 1u64)) by (bit_vector);
    }
}

pub proof fn lemma_bit_xor(a: u64, b: u64)
    ensures
        forall|i: int| 0 <= i < 64 ==> #[trigger] bit(a ^ b, i) == (bit(a, i) != bit(b, i)),
{
    assert forall|i: int| 0 <= i < 64 implies #[trigger] bit(a ^ b, i) == (bit(a, i) != bit(b, i)) by {
        let j = i as u64;
        assert(((a ^ b) >> j) & 1u64 == 1u64 <==> ((a >> j) & 1u64 == 1u64) != ((b >> j) & 1u64
            == 1u64)) by (bit_vector);
    }
}

pub proof fn lemma_bit_not(a: u64)
    ensures
        forall|i: int| 0 <= i < 64 ==> #[trigger] bit(!a, i) == !bit(a, i),
{
    assert forall|i: int| 0 <= i < 64 implies #[trigger] bit(!a, i) == !bit(a, i) by {
        let j = i as u64;
        assert(j < 64 ==> (((!a) >> j) & 1u64 == 1u64 <==> !((a >> j) & 1u64 == 1u64))) by (bit_vector);
    }
}

pub proof fn lemma_bit_single(k: int)
    requires
        0 <= k < 64,
    ensures
        forall|i: int| 0 <= i < 64 ==> #[trigger] bit(sq_bb(k), i) == (i == k),
{
    assert forall|i: int| 0 <= i < 64 implies #[trigger] bit(sq_bb(k), i) == (i == k) by {
        let j = i as u64;
        let kk = k as u64;
        assert(kk < 64 && j < 64 ==> (((1u64 << kk) >> j) & 1u64 == 1u64 <==> j == kk)) by (bit_vector);
    }
}

pub proof fn lemma_bit_zero()
    ensures
        forall|i: int| 0 <= i < 64 ==> !#[trigger] bit(0u64, i),
{
    assert forall|i: int| 0 <= i < 64 implies !#[trigger] bit(0u64, i) by {
        let j = i as u64;
        assert((0u64 >> j) & 1u64 != 1u64) by (bit_vector);
    }
}

/// A bitboard with no member square is zero, and a nonzero one has a member.
pub proof fn lemma_zero_iff_no_bits(a: u64)
    ensures
        a == 0 <==> (forall|i: int| 0 <= i < 64 ==> !#[trigger] bit(a, i)),
{
    lemma_bit_zero();
    if a != 0 {
        assert(a != 0 ==> exists|j: u64| j < 64 && (a >> j) & 1u64 == 1u64) by {
            lemma_nonzero_has_bit(a);
        }
        let j = choose|j: u64| j < 64 && (a >> j) & 1u64 == 1u64;
        assert(bit(a, j as int));
    }
}

proof fn lemma_nonzero_has_bit(a: u64)
    requires
        a != 0,
    ensures
        exists|j: u64| j < 64 && (a >> j) & 1u64 == 1u64,
{
    vstd::std_specs::bits::axiom_u64_trailing_zeros(a);
    let t = vstd::std_specs::bits::u64_trailing_zeros(a);
    assert(t < 64);
    let j = t as u64;
    assert((a >> j) & 1u64 == 1u64);
}

/// Equality of bitboards follows from equality of all member bits.
pub proof fn lemma_bits_ext(a: u64, b: u64)
    requires
        same_bits(a, b),
    ensures
        a == b,
{
    lemma_bit_xor(a, b);
    assert forall|i: int| 0 <= i < 64 implies !#[trigger] bit(a ^ b, i) by {
        assert(bit(a, i) == bit(b, i));
    }
    lemma_zero_iff_no_bits(a ^ b);
    assert((a ^ b) == 0u64 ==> a == b) by (bit_vector);
}

/// The squares of `bb` in ascending order, as a vector.
pub fn bb_squares(bb: u64) -> (v: Vec<u8>)
    ensures
        forall|i: int| 0 <= i < v.len() ==> #[trigger] v[i] < 64 && bit(bb, v[i] as int),
        forall|s: int| 0 <= s < 64 && bit(bb, s) ==> exists|i: int| 0 <= i < v.len() && #[trigger] v[i] == s,
        forall|i: int, j: int| 0 <= i < j < v.len() ==> #[trigger] v[i] < #[trigger] v[j],
{
    let mut v: Vec<u8> = Vec::new();
    let mut sq: u8 = 0;
    while sq < 64
        invariant
            sq <= 64,
            forall|i: int| 0 <= i < v.len() ==> #[trigger] v[i] < sq && bit(bb, v[i] as int),
            forall|s: int| 0 <= s < sq && bit(bb, s) ==> exists|i: int| 0 <= i < v.len() && #[trigger] v[i] == s,
            forall|i: int, j: int| 0 <= i < j < v.len() ==> #[trigger] v[i] < #[trigger] v[j],
        decreases 64 - sq,
    {
        let ghost old_v = v@;
        if (bb >> (sq as u64)) & 1u64 == 1u64 {
            v.push(sq);
            assert(v[v.len() - 1] == sq);
        }
        assert forall|s: int| 0 <= s < sq + 1 && bit(bb, s) implies exists|i: int|
            0 <= i < v.len() && #[trigger] v[i] == s by {
            if s < sq {
                let i = choose|i: int| 0 <= i < old_v.len() && #[trigger] old_v[i] == s;
                assert(v[i] == s);
            } else {
                assert(v[v.len() - 1] == s);
            }
        }
        sq = sq + 1;
    }
    v
}

/// The lowest member square of a nonzero bitboard (its count of trailing zeros).
pub fn lowest_square(bb: u64) -> (t: u32)
    requires
        bb != 0,
    ensures
        t < 64,
        bit(bb, t as int),
        forall|u: int| 0 <= u < t ==> !#[trigger] bit(bb, u),
{
    let t = bb.trailing_zeros();
    proof {
        vstd::std_specs::bits::axiom_u64_trailing_zeros(bb);
        assert forall|u: int| 0 <= u < t implies !#[trigger] bit(bb, u) by {
            let uu = u as u64;
            assert((bb >> uu) & 1u64 == 0u64);
        }
    }
    t
}

/// Clearing bits of a castling-rights byte never sets a right, and clearing a
/// side's both rights leaves it none.
pub proof fn lemma_castle_masks()
    by (bit_vector)
    ensures
        forall|k: u8, m: u8| #[trigger] ((k & !m) & 3u8) != 0 ==> (k & 3u8) != 0,
        forall|k: u8, m: u8| #[trigger] ((k & !m) & 12u8) != 0 ==> (k & 12u8) != 0,
        forall|k: u8, m: u8| (k & 3u8) == 0 ==> #[trigger] ((k & !m) & 3u8) == 0,
        forall|k: u8, m: u8| (k & 12u8) == 0 ==> #[trigger] ((k & !m) & 12u8) == 0,
        forall|k: u8| #[trigger] ((k & !(1u8 | 2u8)) & 3u8) == 0,
        forall|k: u8| #[trigger] ((k & !(4u8 | 8u8)) & 12u8) == 0,
        forall|c: u8| #[trigger] (c & 0xFu8) < 16,
        forall|c: u8| ((c & 1u8) != 0 || (c & 2u8) != 0) ==> #[trigger] (c & 3u8) != 0,
        forall|c: u8| ((c & 4u8) != 0 || (c & 8u8) != 0) ==> #[trigger] (c & 12u8) != 0,
{
}

/// Zero and self cancellation for `^`, and `0 | 0`.
pub proof fn lemma_xor_facts()
    by (bit_vector)
    ensures
        forall|x: u64| #[trigger] (x ^ 0u64) == x,
        forall|x: u64| #[trigger] (0u64 ^ x) == x,
        forall|x: u64| #[trigger] (x ^ x) == 0u64,
        (0u64 | 0u64) == 0u64,
{
}

} // verus!
