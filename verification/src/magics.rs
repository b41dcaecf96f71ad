//! Attack sets of each piece type from a square, as bitboards.
//!
//! Leaper attacks are fixed geometric relations; slider attacks walk each ray
//! until the first occupied square, which they include.
use vstd::prelude::*;
use crate::bits::{bit, lemma_bit_or, lemma_bit_single, lemma_bit_zero, sq_bb};
use crate::types::Bitboard;

verus! {

pub open spec fn abs_diff(a: int, b: int) -> int {
    if a >= b {
        a - b
    } else {
        b - a
    }
}

/// `t` is a knight's jump away from `s`.
pub open spec fn knight_rel(s: int, t: int) -> bool {
    let df = abs_diff(s % 8, t % 8);
    let dr = abs_diff(s / 8, t / 8);
    (df == 1 && dr == 2) || (df == 2 && dr == 1)
}

/// `t` is a king's step away from `s`.
pub open spec fn king_rel(s: int, t: int) -> bool {
    let df = abs_diff(s % 8, t % 8);
    let dr = abs_diff(s / 8, t / 8);
    df <= 1 && dr <= 1 && !(df == 0 && dr == 0)
}

/// A white pawn on `s` attacks `t`.
pub open spec fn white_pawn_rel(s: int, t: int) -> bool {
    t / 8 == s / 8 + 1 && abs_diff(s % 8, t % 8) == 1
}

/// A black pawn on `s` attacks `t`.
pub open spec fn black_pawn_rel(s: int, t: int) -> bool {
    t / 8 == s / 8 - 1 && abs_diff(s % 8, t % 8) == 1
}

/// The squares a slider reaches from file `f`, rank `r` in direction (`df`, `dr`),
/// taking at most `n` steps and stopping on the first occupied square.
pub open spec fn ray_set(occ: u64, f: int, r: int, df: int, dr: int, n: nat) -> Set<int>
    decreases n,
{
    if n == 0 {
        Set::empty()
    } else {
        let nf = f + df;
        let nr = r + dr;
        if !(0 <= nf < 8 && 0 <= nr < 8) {
            Set::empty()
        } else if bit(occ, nr * 8 + nf) {
            Set::empty().insert(nr * 8 + nf)
        } else {
            ray_set(occ, nf, nr, df, dr, (n - 1) as nat).insert(nr * 8 + nf)
        }
    }
}

pub open spec fn ray_from(occ: u64, s: int, df: int, dr: int) -> Set<int> {
    ray_set(occ, s % 8, s / 8, df, dr, 7)
}

/// A rook on `s` attacks `t` given the occupancy `occ`.
pub open spec fn rook_att(s: int, occ: u64, t: int) -> bool {
    ray_from(occ, s, 1, 0).contains(t) || ray_from(occ, s, -1, 0).contains(t) || ray_from(
        occ,
        s,
        0,
        1,
    ).contains(t) || ray_from(occ, s, 0, -1).contains(t)
}

/// A bishop on `s` attacks `t` given the occupancy `occ`.
pub open spec fn bishop_att(s: int, occ: u64, t: int) -> bool {
    ray_from(occ, s, 1, 1).contains(t) || ray_from(occ, s, -1, 1).contains(t) || ray_from(
        occ,
        s,
        1,
        -1,
    ).contains(t) || ray_from(occ, s, -1, -1).contains(t)
}

/// The bitboard `bb` holds exactly the squares `t` with `rel(t)`.
pub open spec fn bb_is(bb: u64, rel: spec_fn(int) -> bool) -> bool {
    forall|t: int| 0 <= t < 64 ==> #[trigger] bit(bb, t) == rel(t)
}

/// Squares reached by one leaper relation from `sq`, as a bitboard.
fn leaper_attacks(sq: usize, kind: u8) -> (bb: Bitboard)
    requires
        sq < 64,
        kind < 4,
    ensures
        kind == 0 ==> bb_is(bb, |t: int| knight_rel(sq as int, t)),
        kind == 1 ==> bb_is(bb, |t: int| king_rel(sq as int, t)),
        kind == 2 ==> bb_is(bb, |t: int| white_pawn_rel(sq as int, t)),
        kind == 3 ==> bb_is(bb, |t: int| black_pawn_rel(sq as int, t)),
{
    let ghost rel: spec_fn(int) -> bool = if kind == 0 {
        |t: int| knight_rel(sq as int, t)
    } else if kind == 1 {
        |t: int| king_rel(sq as int, t)
    } else if kind == 2 {
        |t: int| white_pawn_rel(sq as int, t)
    } else {
        |t: int| black_pawn_rel(sq as int, t)
    };
    let sf = (sq % 8) as i32;
    let sr = (sq / 8) as i32;
    let mut bb: u64 = 0;
    let mut t: usize = 0;
    proof {
        lemma_bit_zero();
    }
    while t < 64
        invariant
            t <= 64,
            sq < 64,
            sf == sq % 8,
            sr == sq / 8,
            kind < 4,
            rel == (if kind == 0 {
                |t: int| knight_rel(sq as int, t)
            } else if kind == 1 {
                |t: int| king_rel(sq as int, t)
            } else if kind == 2 {
                |t: int| white_pawn_rel(sq as int, t)
            } else {
                |t: int| black_pawn_rel(sq as int, t)
            }),
            forall|u: int| 0 <= u < t ==> #[trigger] bit(bb, u) == rel(u),
            forall|u: int| t <= u < 64 ==> !#[trigger] bit(bb, u),
        decreases 64 - t,
    {
        let tf = (t % 8) as i32;
        let tr = (t / 8) as i32;
        let df = if tf >= sf {
            tf - sf
        } else {
            sf - tf
        };
        let dr = if tr >= sr {
            tr - sr
        } else {
            sr - tr
        };
        let hit = if kind == 0 {
            (df == 1 && dr == 2) || (df == 2 && dr == 1)
        } else if kind == 1 {
            df <= 1 && dr <= 1 && !(df == 0 && dr == 0)
        } else if kind == 2 {
            tr == sr + 1 && df == 1
        } else {
            tr == sr - 1 && df == 1
        };
        assert(hit == rel(t as int));
        if hit {
            let old_bb = bb;
            bb = bb | (1u64 << (t as u64));
            proof {
                lemma_bit_or(old_bb, sq_bb(t as int));
                lemma_bit_single(t as int);
            }
        }
        t = t + 1;
    }
    bb
}

pub fn knight_attacks_from(sq: usize) -> (bb: Bitboard)
    requires
        sq < 64,
    ensures
        forall|t: int| 0 <= t < 64 ==> #[trigger] bit(bb, t) == knight_rel(sq as int, t),
{
    let bb = leaper_attacks(sq, 0);
    assert forall|t: int| 0 <= t < 64 implies #[trigger] bit(bb, t) == knight_rel(sq as int, t) by {
        let rel = |t: int| knight_rel(sq as int, t);
        assert(bit(bb, t) == rel(t));
    }
    bb
}

pub fn king_attacks_from(sq: usize) -> (bb: Bitboard)
    requires
        sq < 64,
    ensures
        forall|t: int| 0 <= t < 64 ==> #[trigger] bit(bb, t) == king_rel(sq as int, t),
{
    let bb = leaper_attacks(sq, 1);
    assert forall|t: int| 0 <= t < 64 implies #[trigger] bit(bb, t) == king_rel(sq as int, t) by {
        let rel = |t: int| king_rel(sq as int, t);
        assert(bit(bb, t) == rel(t));
    }
    bb
}

/// Squares attacked by a white pawn standing on `sq`.
pub fn white_pawn_attacks(sq: usize) -> (bb: Bitboard)
    requires
        sq < 64,
    ensures
        forall|t: int| 0 <= t < 64 ==> #[trigger] bit(bb, t) == white_pawn_rel(sq as int, t),
{
    let bb = leaper_attacks(sq, 2);
    assert forall|t: int| 0 <= t < 64 implies #[trigger] bit(bb, t) == white_pawn_rel(sq as int, t) by {
        let rel = |t: int| white_pawn_rel(sq as int, t);
        assert(bit(bb, t) == rel(t));
    }
    bb
}

/// Squares attacked by a black pawn standing on `sq`.
pub fn black_pawn_attacks(sq: usize) -> (bb: Bitboard)
    requires
        sq < 64,
    ensures
        forall|t: int| 0 <= t < 64 ==> #[trigger] bit(bb, t) == black_pawn_rel(sq as int, t),
{
    let bb = leaper_attacks(sq, 3);
    assert forall|t: int| 0 <= t < 64 implies #[trigger] bit(bb, t) == black_pawn_rel(sq as int, t) by {
        let rel = |t: int| black_pawn_rel(sq as int, t);
        assert(bit(bb, t) == rel(t));
    }
    bb
}

/// Walks one ray from `sq` and returns the squares it reaches.
fn ray_attacks(sq: usize, occ: Bitboard, df: i32, dr: i32) -> (bb: Bitboard)
    requires
        sq < 64,
        -1 <= df <= 1,
        -1 <= dr <= 1,
    ensures
        forall|t: int| 0 <= t < 64 ==> #[trigger] bit(bb, t) == ray_from(
            occ,
            sq as int,
            df as int,
            dr as int,
        ).contains(t),
{
    let ghost f0 = (sq % 8) as int;
    let ghost r0 = (sq / 8) as int;
    let mut f: i32 = (sq % 8) as i32;
    let mut r: i32 = (sq / 8) as i32;
    let mut k: u32 = 0;
    let mut bb: u64 = 0;
    let mut done = false;
    proof {
        lemma_bit_zero();
    }
    while k < 7 && !done
        invariant
            k <= 7,
            0 <= f < 8,
            0 <= r < 8,
            -1 <= df <= 1,
            -1 <= dr <= 1,
            forall|t: int| 0 <= t < 64 ==> #[trigger] ray_set(occ, f0, r0, df as int, dr as int, 7).contains(
                t,
            ) == (bit(bb, t) || (!done && ray_set(
                occ,
                f as int,
                r as int,
                df as int,
                dr as int,
                (7 - k) as nat,
            ).contains(t))),
        decreases 7 - k,
    {
        let ghost old_bb = bb;
        let ghost n: nat = (7 - k) as nat;
        let nf = f + df;
        let nr = r + dr;
        if !(0 <= nf && nf < 8 && 0 <= nr && nr < 8) {
            assert(ray_set(occ, f as int, r as int, df as int, dr as int, n) == Set::<int>::empty());
            done = true;
        } else {
            let t = (nr * 8 + nf) as u64;
            let blocked = (occ >> t) & 1u64 == 1u64;
            bb = bb | (1u64 << t);
            proof {
                lemma_bit_or(old_bb, sq_bb(t as int));
                lemma_bit_single(t as int);
            }
            if blocked {
                assert(ray_set(occ, f as int, r as int, df as int, dr as int, n) == Set::<int>::empty().insert(
                    t as int,
                ));
                done = true;
            } else {
                assert(ray_set(occ, f as int, r as int, df as int, dr as int, n) == ray_set(
                    occ,
                    nf as int,
                    nr as int,
                    df as int,
                    dr as int,
                    (n - 1) as nat,
                ).insert(t as int));
                f = nf;
                r = nr;
            }
        }
        k = k + 1;
    }
    bb
}

pub fn get_rook_attacks(sq: usize, occupied: Bitboard) -> (bb: Bitboard)
    requires
        sq < 64,
    ensures
        forall|t: int| 0 <= t < 64 ==> #[trigger] bit(bb, t) == rook_att(sq as int, occupied, t),
{
    let a = ray_attacks(sq, occupied, 1, 0);
    let b = ray_attacks(sq, occupied, -1, 0);
    let c = ray_attacks(sq, occupied, 0, 1);
    let d = ray_attacks(sq, occupied, 0, -1);
    proof {
        lemma_bit_or(a, b);
        lemma_bit_or(a | b, c);
        lemma_bit_or(a | b | c, d);
    }
    a | b | c | d
}

pub fn get_bishop_attacks(sq: usize, occupied: Bitboard) -> (bb: Bitboard)
    requires
        sq < 64,
    ensures
        forall|t: int| 0 <= t < 64 ==> #[trigger] bit(bb, t) == bishop_att(sq as int, occupied, t),
{
    let a = ray_attacks(sq, occupied, 1, 1);
    let b = ray_attacks(sq, occupied, -1, 1);
    let c = ray_attacks(sq, occupied, 1, -1);
    let d = ray_attacks(sq, occupied, -1, -1);
    proof {
        lemma_bit_or(a, b);
        lemma_bit_or(a | b, c);
        lemma_bit_or(a | b | c, d);
    }
    a | b | c | d
}

/// The square `k` steps from file `f`, rank `r` in direction (`df`, `dr`).
pub open spec fn step_sq(f: int, r: int, df: int, dr: int, k: int) -> int {
    (r + k * dr) * 8 + (f + k * df)
}

/// A unit direction.
pub open spec fn unit_dir(df: int, dr: int) -> bool {
    -1 <= df <= 1 && -1 <= dr <= 1
}

/// The ray reaches the square `k` steps out: it is on the board, and the squares
/// before it are empty.
pub open spec fn ray_reaches(occ: u64, f: int, r: int, df: int, dr: int, k: int) -> bool {
    &&& 1 <= k
    &&& 0 <= f + k * df < 8
    &&& 0 <= r + k * dr < 8
    &&& forall|j: int| 1 <= j < k ==> !bit(occ, #[trigger] step_sq(f, r, df, dr, j))
}

proof fn lemma_mul_unit(k: int, d: int)
    requires
        -1 <= d <= 1,
    ensures
        k * d == (if d == 1 { k } else if d == -1 { -k } else { 0 }),
{
    if d == 1 {
        assert(k * d == k) by (nonlinear_arith) requires d == 1;
    } else if d == -1 {
        assert(k * d == -k) by (nonlinear_arith) requires d == -1;
    } else {
        assert(k * d == 0) by (nonlinear_arith) requires d == 0;
    }
}

proof fn lemma_step_shift(f: int, r: int, df: int, dr: int, k: int)
    requires
        unit_dir(df, dr),
    ensures
        step_sq(f + df, r + dr, df, dr, k) == step_sq(f, r, df, dr, k + 1),
        (f + df) + k * df == f + (k + 1) * df,
        (r + dr) + k * dr == r + (k + 1) * dr,
{
    assert((f + df) + k * df == f + (k + 1) * df) by (nonlinear_arith);
    assert((r + dr) + k * dr == r + (k + 1) * dr) by (nonlinear_arith);
}

/// What a ray holds: the squares it reaches within `n` steps.
proof fn lemma_ray_set_char(occ: u64, f: int, r: int, df: int, dr: int, n: nat, t: int)
    requires
        unit_dir(df, dr),
        0 <= f < 8,
        0 <= r < 8,
    ensures
        ray_set(occ, f, r, df, dr, n).contains(t) <==> exists|k: int|
            k <= n && #[trigger] ray_reaches(occ, f, r, df, dr, k) && t == step_sq(f, r, df, dr, k),
    decreases n,
{
    if n > 0 {
        let nf = f + df;
        let nr = r + dr;
        assert(step_sq(f, r, df, dr, 1) == nr * 8 + nf) by (nonlinear_arith)
            requires unit_dir(df, dr), nf == f + df, nr == r + dr;
        assert(f + 1 * df == nf && r + 1 * dr == nr) by (nonlinear_arith)
            requires nf == f + df, nr == r + dr;
        if !(0 <= nf < 8 && 0 <= nr < 8) {
            if exists|k: int| k <= n && #[trigger] ray_reaches(occ, f, r, df, dr, k) && t == step_sq(f, r, df, dr, k) {
                let k = choose|k: int| k <= n && #[trigger] ray_reaches(occ, f, r, df, dr, k) && t == step_sq(f, r, df, dr, k);
                // the first step already leaves the board, so every later one does too
                lemma_mul_unit(k, df);
                lemma_mul_unit(k, dr);
            }
        } else {
            lemma_ray_set_char(occ, nf, nr, df, dr, (n - 1) as nat, t);
            if ray_set(occ, f, r, df, dr, n).contains(t) {
                if t == nr * 8 + nf {
                    assert(ray_reaches(occ, f, r, df, dr, 1));
                } else {
                    assert(!bit(occ, nr * 8 + nf));
                    let k = choose|k: int| k <= n - 1 && #[trigger] ray_reaches(occ, nf, nr, df, dr, k) && t == step_sq(nf, nr, df, dr, k);
                    lemma_step_shift(f, r, df, dr, k);
                    assert forall|j: int| 1 <= j < k + 1 implies !bit(occ, #[trigger] step_sq(f, r, df, dr, j)) by {
                        if j >= 2 {
                            lemma_step_shift(f, r, df, dr, j - 1);
                            assert(!bit(occ, step_sq(nf, nr, df, dr, j - 1)));
                        }
                    }
                    assert(ray_reaches(occ, f, r, df, dr, k + 1));
                }
            }
            if exists|k: int| k <= n && #[trigger] ray_reaches(occ, f, r, df, dr, k) && t == step_sq(f, r, df, dr, k) {
                let k = choose|k: int| k <= n && #[trigger] ray_reaches(occ, f, r, df, dr, k) && t == step_sq(f, r, df, dr, k);
                if k == 1 {
                } else {
                    assert(!bit(occ, step_sq(f, r, df, dr, 1)));
                    lemma_step_shift(f, r, df, dr, k - 1);
                    assert forall|j: int| 1 <= j < k - 1 implies !bit(occ, #[trigger] step_sq(nf, nr, df, dr, j)) by {
                        lemma_step_shift(f, r, df, dr, j);
                        assert(!bit(occ, step_sq(f, r, df, dr, j + 1)));
                    }
                    assert(ray_reaches(occ, nf, nr, df, dr, k - 1));
                }
            }
        }
    }
}

/// Rays are symmetric: when a slider on `s` reaches `t` in one direction, a slider
/// on `t` reaches `s` in the opposite one over the same occupancy.
proof fn lemma_ray_symmetric(occ: u64, s: int, t: int, df: int, dr: int)
    requires
        unit_dir(df, dr),
        0 <= s < 64,
        ray_from(occ, s, df, dr).contains(t),
    ensures
        0 <= t < 64,
        ray_from(occ, t, -df, -dr).contains(s),
{
    let f = s % 8;
    let r = s / 8;
    lemma_ray_set_char(occ, f, r, df, dr, 7, t);
    let k = choose|k: int| k <= 7 && #[trigger] ray_reaches(occ, f, r, df, dr, k) && t == step_sq(f, r, df, dr, k);
    lemma_mul_unit(k, df);
    lemma_mul_unit(k, dr);
    let tf = f + k * df;
    let tr = r + k * dr;
    assert(t == tr * 8 + tf);
    assert(t % 8 == tf && t / 8 == tr);
    lemma_mul_unit(k, -df);
    lemma_mul_unit(k, -dr);
    assert(s == step_sq(tf, tr, -df, -dr, k));
    assert forall|j: int| 1 <= j < k implies !bit(occ, #[trigger] step_sq(tf, tr, -df, -dr, j)) by {
        lemma_mul_unit(j, -df);
        lemma_mul_unit(j, -dr);
        lemma_mul_unit(k - j, df);
        lemma_mul_unit(k - j, dr);
        assert(step_sq(tf, tr, -df, -dr, j) == step_sq(f, r, df, dr, k - j));
    }
    assert(ray_reaches(occ, tf, tr, -df, -dr, k));
    lemma_ray_set_char(occ, tf, tr, -df, -dr, 7, s);
}

/// A bishop on `s` attacking `t` means a bishop on `t` attacks `s`.
pub proof fn lemma_bishop_symmetric(s: int, occ: u64, t: int)
    requires
        0 <= s < 64,
        bishop_att(s, occ, t),
    ensures
        bishop_att(t, occ, s),
{
    if ray_from(occ, s, 1, 1).contains(t) {
        lemma_ray_symmetric(occ, s, t, 1, 1);
    } else if ray_from(occ, s, -1, 1).contains(t) {
        lemma_ray_symmetric(occ, s, t, -1, 1);
    } else if ray_from(occ, s, 1, -1).contains(t) {
        lemma_ray_symmetric(occ, s, t, 1, -1);
    } else {
        lemma_ray_symmetric(occ, s, t, -1, -1);
    }
}

/// A rook on `s` attacking `t` means a rook on `t` attacks `s`.
pub proof fn lemma_rook_symmetric(s: int, occ: u64, t: int)
    requires
        0 <= s < 64,
        rook_att(s, occ, t),
    ensures
        rook_att(t, occ, s),
{
    if ray_from(occ, s, 1, 0).contains(t) {
        lemma_ray_symmetric(occ, s, t, 1, 0);
    } else if ray_from(occ, s, -1, 0).contains(t) {
        lemma_ray_symmetric(occ, s, t, -1, 0);
    } else if ray_from(occ, s, 0, 1).contains(t) {
        lemma_ray_symmetric(occ, s, t, 0, 1);
    } else {
        lemma_ray_symmetric(occ, s, t, 0, -1);
    }
}

} // verus!
