//! Zobrist keys: one pseudo-random 64-bit key per (piece, square), per castling
//! rights value, per en-passant file and for the side to move.
//!
//! The keys come from the splitmix64 finaliser applied to distinct indices, so
//! every key is a fixed function of what it stands for.
use vstd::prelude::*;
use crate::types::Piece;

verus! {

/// The splitmix64 finaliser.
pub open spec fn mix(x: u64) -> u64 {
    let z0 = x.wrapping_add(0x9E37_79B9_7F4A_7C15u64);
    let z1 = (z0 ^ (z0 >> 30u64)).wrapping_mul(0xBF58_476D_1CE4_E5B9u64);
    let z2 = (z1 ^ (z1 >> 27u64)).wrapping_mul(0x94D0_49BB_1331_11EBu64);
    z2 ^ (z2 >> 31u64)
}

pub fn mix_exec(x: u64) -> (r: u64)
    ensures
        r == mix(x),
{
    let z0 = x.wrapping_add(0x9E37_79B9_7F4A_7C15u64);
    let z1 = (z0 ^ (z0 >> 30u64)).wrapping_mul(0xBF58_476D_1CE4_E5B9u64);
    let z2 = (z1 ^ (z1 >> 27u64)).wrapping_mul(0x94D0_49BB_1331_11EBu64);
    z2 ^ (z2 >> 31u64)
}

/// Key of piece `p` on square `sq`; the empty square has key 0.
pub open spec fn spec_piece_key(p: Piece, sq: int) -> u64 {
    if p == Piece::Empty {
        0
    } else {
        mix((p.spec_index() * 64 + sq) as u64)
    }
}

pub open spec fn spec_castle_key(c: u8) -> u64 {
    mix((1000 + c) as u64)
}

pub open spec fn spec_ep_key(file: int) -> u64 {
    mix((1100 + file) as u64)
}

pub open spec fn spec_side_key() -> u64 {
    mix(1200u64)
}

pub fn piece_key(p: Piece, sq: usize) -> (k: u64)
    requires
        sq < 64,
    ensures
        k == spec_piece_key(p, sq as int),
{
    if p.is_empty() {
        0
    } else {
        mix_exec((p.index() * 64 + sq) as u64)
    }
}

pub fn castle_key(c: u8) -> (k: u64)
    requires
        c < 16,
    ensures
        k == spec_castle_key(c),
{
    mix_exec(1000u64 + c as u64)
}

pub fn ep_key(file: usize) -> (k: u64)
    requires
        file < 8,
    ensures
        k == spec_ep_key(file as int),
{
    mix_exec(1100u64 + file as u64)
}

pub fn side_key() -> (k: u64)
    ensures
        k == spec_side_key(),
{
    mix_exec(1200u64)
}

/// XOR of the keys of the first `n` squares.
pub open spec fn squares_hash(pieces: Seq<Piece>, n: nat) -> u64
    decreases n,
{
    if n == 0 {
        0
    } else {
        squares_hash(pieces, (n - 1) as nat) ^ spec_piece_key(pieces[n - 1], n - 1)
    }
}

proof fn lemma_squares_hash_prefix(a: Seq<Piece>, b: Seq<Piece>, n: nat)
    requires
        n <= a.len(),
        n <= b.len(),
        forall|j: int| 0 <= j < n ==> a[j] == b[j],
    ensures
        squares_hash(a, n) == squares_hash(b, n),
    decreases n,
{
    if n > 0 {
        lemma_squares_hash_prefix(a, b, (n - 1) as nat);
    }
}

/// Changing one square changes the hash by the keys of the old and new pieces there.
pub proof fn lemma_squares_hash_update(pieces: Seq<Piece>, i: int, p: Piece, n: nat)
    requires
        0 <= i < n,
        n <= pieces.len(),
    ensures
        squares_hash(pieces.update(i, p), n) == squares_hash(pieces, n) ^ spec_piece_key(
            pieces[i],
            i,
        ) ^ spec_piece_key(p, i),
    decreases n,
{
    let u = pieces.update(i, p);
    let x = squares_hash(pieces, (n - 1) as nat);
    let a = spec_piece_key(pieces[i], i);
    let c = spec_piece_key(p, i);
    if i == n - 1 {
        lemma_squares_hash_prefix(u, pieces, (n - 1) as nat);
        assert(x ^ c == x ^ a ^ a ^ c) by (bit_vector);
    } else {
        lemma_squares_hash_update(pieces, i, p, (n - 1) as nat);
        let k = spec_piece_key(pieces[n - 1], n - 1);
        assert(u[n - 1] == pieces[n - 1]);
        assert((x ^ a ^ c) ^ k == (x ^ k) ^ a ^ c) by (bit_vector);
    }
}

} // verus!
