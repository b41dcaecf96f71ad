//! The accumulator kept up to date move by move is the one computed from scratch:
//! with 16-bit wrapping, a lane is the bias plus the weights of the featured
//! pieces modulo 2^16, whatever the order of the additions.
use vstd::prelude::*;
use vstd::arithmetic::div_mod::{lemma_fundamental_div_mod, lemma_mod_bound, lemma_mod_multiples_vanish};
use crate::bits::{bit, lemma_bits_ext, same_bits};
use crate::board::Board;
use crate::makemove::sane_move;
use crate::nnue::{
    fresh_accumulator, half_after, half_lane, halfkp, has_feature, king_sq_of, lane_step, updated_by, Model,
    FT_INPUT_DIM,
};
use crate::types::{Accumulator, Color, Move, Piece, PieceKind, Undo, UpdateBody};

verus! {

/// A number reduced to a signed 16-bit value, as wrapping arithmetic leaves it.
pub open spec fn wrap16(x: int) -> i16 {
    let r = x % 65536;
    if r >= 32768 {
        (r - 65536) as i16
    } else {
        r as i16
    }
}

proof fn lemma_wrap16_small(x: int)
    requires
        -32768 <= x < 32768,
    ensures
        wrap16(x) == x,
{
    lemma_mod_bound(x, 65536);
    lemma_fundamental_div_mod(x, 65536);
    if x >= 0 {
        assert(x / 65536 == 0) by (nonlinear_arith)
            requires
                0 <= x < 65536,
                x == 65536 * (x / 65536) + x % 65536,
                0 <= x % 65536 < 65536,
        ;
    } else {
        assert(x / 65536 == -1) by (nonlinear_arith)
            requires
                -65536 <= x < 0,
                x == 65536 * (x / 65536) + x % 65536,
                0 <= x % 65536 < 65536,
        ;
    }
}

/// Adding a multiple of 2^16 does not change the wrapped value.
proof fn lemma_wrap16_shift(x: int, k: int)
    ensures
        wrap16(x + 65536 * k) == wrap16(x),
{
    lemma_mod_multiples_vanish(k, x, 65536);
    assert(65536 * k + x == x + 65536 * k);
}

/// Wrapping an intermediate result changes nothing in the end.
proof fn lemma_wrap16_wrap(x: int, y: int)
    ensures
        wrap16(wrap16(x) as int + y) == wrap16(x + y),
{
    lemma_mod_bound(x, 65536);
    lemma_fundamental_div_mod(x, 65536);
    let q = x / 65536;
    if x % 65536 >= 32768 {
        assert(wrap16(x) as int == x - 65536 * q - 65536);
        lemma_wrap16_shift(x + y, -q - 1);
        assert(x + y + 65536 * (-q - 1) == wrap16(x) as int + y) by (nonlinear_arith)
            requires
                wrap16(x) as int == x - 65536 * q - 65536,
        ;
    } else {
        assert(wrap16(x) as int == x - 65536 * q);
        lemma_wrap16_shift(x + y, -q);
        assert(x + y + 65536 * (-q) == wrap16(x) as int + y) by (nonlinear_arith)
            requires
                wrap16(x) as int == x - 65536 * q,
        ;
    }
}

proof fn lemma_wrapping_add(x: i16, y: i16)
    ensures
        vstd::wrapping::i16_specs::wrapping_add(x, y) == wrap16(x + y),
{
    let s = x + y;
    if s > 32767 {
        lemma_wrap16_small(s - 65536);
        lemma_wrap16_shift(s - 65536, 1);
    } else if s < -32768 {
        lemma_wrap16_small(s + 65536);
        lemma_wrap16_shift(s + 65536, -1);
    } else {
        lemma_wrap16_small(s);
    }
}

proof fn lemma_wrapping_sub(x: i16, y: i16)
    ensures
        vstd::wrapping::i16_specs::wrapping_sub(x, y) == wrap16(x - y),
{
    let s = x - y;
    if s > 32767 {
        lemma_wrap16_small(s - 65536);
        lemma_wrap16_shift(s - 65536, 1);
    } else if s < -32768 {
        lemma_wrap16_small(s + 65536);
        lemma_wrap16_shift(s + 65536, -1);
    } else {
        lemma_wrap16_small(s);
    }
}

/// The weight of feature `f` in lane `lane`; features past the table weigh nothing.
pub open spec fn feat_w(m: &Model, f: int, lane: int) -> int {
    if 0 <= f < FT_INPUT_DIM {
        m.ft_weights@[f * 256 + lane] as int
    } else {
        0
    }
}

/// What a piece on a square adds to a lane: its feature's weight, if it has one.
pub open spec fn piece_weight(m: &Model, pov: bool, ksq: int, p: Piece, sq: int, lane: int) -> int {
    if has_feature(p) {
        feat_w(m, halfkp(pov, ksq as usize, sq as usize, p), lane)
    } else {
        0
    }
}

/// The unwrapped sum of what the pieces of the first `n` squares add to a lane.
pub open spec fn csum(m: &Model, pov: bool, ksq: int, s: Seq<Piece>, n: int, lane: int) -> int
    decreases n,
{
    if n <= 0 {
        0
    } else {
        csum(m, pov, ksq, s, n - 1, lane) + piece_weight(m, pov, ksq, s[n - 1], n - 1, lane)
    }
}

/// The unwrapped effect of the first `n` updates on a lane.
pub open spec fn usum(m: &Model, pov: bool, ksq: int, ups: Seq<UpdateBody>, n: int, lane: int) -> int
    decreases n,
{
    if n <= 0 {
        0
    } else {
        let u = ups[n - 1];
        let w = feat_w(m, halfkp(pov, ksq as usize, u.sq, u.piece), lane);
        usum(m, pov, ksq, ups, n - 1, lane) + (if u.add { w } else { -w })
    }
}

proof fn lemma_lane_step(x: i16, m: &Model, f: int, lane: int, add: bool)
    ensures
        lane_step(x, m, f, lane, add) == wrap16(x + (if add { feat_w(m, f, lane) } else { -feat_w(m, f, lane) })),
{
    if 0 <= f < FT_INPUT_DIM {
        if add {
            lemma_wrapping_add(x, m.ft_weights@[f * 256 + lane]);
        } else {
            lemma_wrapping_sub(x, m.ft_weights@[f * 256 + lane]);
        }
    } else {
        lemma_wrap16_small(x as int);
    }
}

/// A lane from scratch is the bias plus the featured weights, wrapped once.
proof fn lemma_half_lane(m: &Model, pov: bool, ksq: int, s: Seq<Piece>, n: int, lane: int)
    requires
        n >= 0,
    ensures
        half_lane(m, pov, ksq, s, n, lane) == wrap16(m.ft_biases@[lane] + csum(m, pov, ksq, s, n, lane)),
    decreases n,
{
    if n == 0 {
        lemma_wrap16_small(m.ft_biases@[lane] as int);
    } else {
        lemma_half_lane(m, pov, ksq, s, n - 1, lane);
        let prev = half_lane(m, pov, ksq, s, n - 1, lane);
        let base = m.ft_biases@[lane] + csum(m, pov, ksq, s, n - 1, lane);
        let p = s[n - 1];
        if has_feature(p) {
            let f = halfkp(pov, ksq as usize, (n - 1) as usize, p);
            lemma_lane_step(prev, m, f, lane, true);
            lemma_wrap16_wrap(base, feat_w(m, f, lane));
        } else {
            lemma_wrap16_small(prev as int);
        }
    }
}

/// Updates add their weights, wrapped once.
proof fn lemma_half_after(x: i16, m: &Model, pov: bool, ksq: int, ups: Seq<UpdateBody>, n: int, lane: int)
    requires
        n >= 0,
    ensures
        half_after(x, m, pov, ksq, ups, n, lane) == wrap16(x + usum(m, pov, ksq, ups, n, lane)),
    decreases n,
{
    if n == 0 {
        lemma_wrap16_small(x as int);
    } else {
        lemma_half_after(x, m, pov, ksq, ups, n - 1, lane);
        let prev = half_after(x, m, pov, ksq, ups, n - 1, lane);
        let u = ups[n - 1];
        let f = halfkp(pov, ksq as usize, u.sq, u.piece);
        lemma_lane_step(prev, m, f, lane, u.add);
        lemma_wrap16_wrap(
            x + usum(m, pov, ksq, ups, n - 1, lane),
            if u.add { feat_w(m, f, lane) } else { -feat_w(m, f, lane) },
        );
    }
}

/// Replacing the piece on square `i` changes the sum by the difference of what
/// the two pieces add there.
proof fn lemma_csum_update(m: &Model, pov: bool, ksq: int, s: Seq<Piece>, i: int, p: Piece, n: int, lane: int)
    requires
        0 <= i < s.len(),
        0 <= n <= s.len(),
    ensures
        csum(m, pov, ksq, s.update(i, p), n, lane) == csum(m, pov, ksq, s, n, lane) + (if i < n {
            piece_weight(m, pov, ksq, p, i, lane) - piece_weight(m, pov, ksq, s[i], i, lane)
        } else {
            0
        }),
    decreases n,
{
    if n > 0 {
        lemma_csum_update(m, pov, ksq, s, i, p, n - 1, lane);
        assert(s.update(i, p)[n - 1] == if n - 1 == i { p } else { s[n - 1] });
    }
}

/// The feature weight of an update is what its piece adds on its square.
proof fn lemma_update_weight(m: &Model, pov: bool, ksq: int, p: Piece, sq: int, lane: int)
    requires
        has_feature(p),
        0 <= sq < 64,
    ensures
        feat_w(m, halfkp(pov, ksq as usize, sq as usize, p), lane) == piece_weight(m, pov, ksq, p, sq, lane),
{
}

/// The king bitboards of two boards whose kings stand on the same squares agree.
proof fn lemma_same_kings(a: Board, b: Board, c: Color)
    requires
        a.bb_wf(),
        b.bb_wf(),
        forall|s: int| 0 <= s < 64 ==> (a.piece_on[s] == Piece::spec_from_kind(PieceKind::King, c)) == (b.piece_on[s]
            == Piece::spec_from_kind(PieceKind::King, c)),
    ensures
        king_sq_of(a, c) == king_sq_of(b, c),
{
    let k = Piece::spec_from_kind(PieceKind::King, c);
    let idx = k.spec_index() as int;
    assert(0 < idx < 13);
    assert forall|s: int| 0 <= s < 64 implies bit(a.piece_bb[idx], s) == bit(b.piece_bb[idx], s) by {
        assert(bit(a.piece_bb[idx], s) == (a.piece_on[s].spec_index() == idx));
        assert(bit(b.piece_bb[idx], s) == (b.piece_on[s].spec_index() == idx));
        assert((a.piece_on[s].spec_index() == idx) == (a.piece_on[s] == k));
        assert((b.piece_on[s].spec_index() == idx) == (b.piece_on[s] == k));
    }
    lemma_bits_ext(a.piece_bb[idx], b.piece_bb[idx]);
}

/// The sums of a move that is neither a king move nor a castle nor a capture of a
/// king: the squares after it add what the squares before it add, plus the effect
/// of the move's updates.
proof fn lemma_move_sum(b: Board, m: Move, model: &Model, pov: bool, ksq: int, lane: int)
    requires
        b.pseudo_legal(m),
        sane_move(m),
        b.piece_on[m.from as int].spec_kind() != Some(PieceKind::King),
        m.capture ==> b.piece_on[b.cap_sq(m)].spec_kind() != Some(PieceKind::King),
    ensures
        csum(model, pov, ksq, b.after_squares(m), 64, lane) == csum(model, pov, ksq, b.piece_on@, 64, lane)
            + usum(model, pov, ksq, b.move_updates(m), b.move_updates(m).len() as int, lane),
{
    let from = m.from as int;
    let to = m.to as int;
    let moving = b.piece_on[from];
    let cap = b.cap_sq(m);
    let captured = b.piece_on[cap];
    let placed = match m.promotion {
        Some(pk) => Piece::spec_from_kind(pk, b.turn),
        None => moving,
    };
    assert(!m.castle);
    assert(has_feature(moving));
    assert(has_feature(placed)) by {
        if m.promotion is Some {
            assert(crate::movegen::promo_kind(m.promotion.unwrap()));
        }
    }
    let s0 = b.piece_on@;
    let s1 = s0.update(from, Piece::Empty);
    lemma_csum_update(model, pov, ksq, s0, from, Piece::Empty, 64, lane);
    let s2 = if m.capture {
        s1.update(cap, Piece::Empty)
    } else {
        s1
    };
    if m.capture {
        assert(0 <= cap < 64);
        assert(cap != from);
        lemma_csum_update(model, pov, ksq, s1, cap, Piece::Empty, 64, lane);
        assert(s1[cap] == captured);
    }
    lemma_csum_update(model, pov, ksq, s2, to, placed, 64, lane);
    assert(s2[to] == Piece::Empty || (m.capture && !m.en_passant && cap == to));
    assert(b.after_squares(m) == s2.update(to, placed));
    let ups = b.move_updates(m);
    lemma_update_weight(model, pov, ksq, moving, from, lane);
    lemma_update_weight(model, pov, ksq, placed, to, lane);
    if m.capture && captured != Piece::Empty {
        lemma_update_weight(model, pov, ksq, captured, cap, lane);
        assert(ups.len() == 3);
        assert(ups[0] == UpdateBody { piece: moving, sq: m.from as usize, add: false });
        assert(ups[1] == UpdateBody { piece: captured, sq: cap as usize, add: false });
        assert(ups[2] == UpdateBody { piece: placed, sq: m.to as usize, add: true });
    } else {
        assert(ups.len() == 2);
        assert(ups[0] == UpdateBody { piece: moving, sq: m.from as usize, add: false });
        assert(ups[1] == UpdateBody { piece: placed, sq: m.to as usize, add: true });
    }
    reveal_with_fuel(usum, 4);
}

/// The incremental update of the accumulator through a move that is neither a
/// king move nor the capture of a king gives the accumulator that a refresh of the
/// position after the move computes.
pub proof fn lemma_update_matches_refresh(
    b: Board,
    a: Board,
    m: Move,
    model: &Model,
    acc0: Accumulator,
    acc1: Accumulator,
)
    requires
        b.bb_wf(),
        a.bb_wf(),
        b.pseudo_legal(m),
        sane_move(m),
        b.piece_on[m.from as int].spec_kind() != Some(PieceKind::King),
        m.capture ==> b.piece_on[b.cap_sq(m)].spec_kind() != Some(PieceKind::King),
        a.piece_on@ == b.after_squares(m),
        fresh_accumulator(model, b, acc0),
        updated_by(
            acc0,
            acc1,
            Some(model),
            king_sq_of(a, Color::White),
            king_sq_of(a, Color::Black),
            b.move_updates(m),
        ),
    ensures
        fresh_accumulator(model, a, acc1),
{
    assert(!m.castle);
    let from = m.from as int;
    let to = m.to as int;
    let ups = b.move_updates(m);
    let n = ups.len() as int;
    assert forall|c: Color| #[trigger] king_sq_of(a, c) == king_sq_of(b, c) by {
        let k = Piece::spec_from_kind(PieceKind::King, c);
        assert forall|s: int| 0 <= s < 64 implies (a.piece_on[s] == k) == (b.piece_on[s] == k) by {
            assert(a.piece_on[s] == a.piece_on@[s]);
            assert(b.piece_on[s] == b.piece_on@[s]);
            if m.promotion is Some {
                assert(crate::movegen::promo_kind(m.promotion.unwrap()));
            }
        }
        lemma_same_kings(a, b, c);
    }
    assert forall|lane: int| 0 <= lane < 256 implies #[trigger] acc1.white[lane] == half_lane(
        model,
        true,
        king_sq_of(a, Color::White),
        a.piece_on@,
        64,
        lane,
    ) by {
        let ksq = king_sq_of(b, Color::White);
        lemma_half_lane(model, true, ksq, b.piece_on@, 64, lane);
        lemma_half_lane(model, true, ksq, a.piece_on@, 64, lane);
        lemma_half_after(acc0.white[lane], model, true, ksq, ups, n, lane);
        lemma_move_sum(b, m, model, true, ksq, lane);
        lemma_wrap16_wrap(
            model.ft_biases@[lane] + csum(model, true, ksq, b.piece_on@, 64, lane),
            usum(model, true, ksq, ups, n, lane),
        );
    }
    assert forall|lane: int| 0 <= lane < 256 implies #[trigger] acc1.black[lane] == half_lane(
        model,
        false,
        king_sq_of(a, Color::Black),
        a.piece_on@,
        64,
        lane,
    ) by {
        let ksq = king_sq_of(b, Color::Black);
        lemma_half_lane(model, false, ksq, b.piece_on@, 64, lane);
        lemma_half_lane(model, false, ksq, a.piece_on@, 64, lane);
        lemma_half_after(acc0.black[lane], model, false, ksq, ups, n, lane);
        lemma_move_sum(b, m, model, false, ksq, lane);
        lemma_wrap16_wrap(
            model.ft_biases@[lane] + csum(model, false, ksq, b.piece_on@, 64, lane),
            usum(model, false, ksq, ups, n, lane),
        );
    }
}


/// The sums of taking back a move that is not a castle and moves no king: the
/// squares before it add what the squares after it add, plus the effect of the
/// take-back's updates.
proof fn lemma_unmake_sum(a: Board, m: Move, u: Undo, model: &Model, pov: bool, ksq: int, lane: int)
    requires
        a.can_unmake(m, u),
        !m.castle,
        a.piece_on[m.to as int].spec_kind() != Some(PieceKind::King),
        m.capture && u.captured_piece != Piece::Empty ==> u.captured_piece.spec_kind() != Some(PieceKind::King),
    ensures
        csum(model, pov, ksq, a.before_squares(m, u), 64, lane) == csum(model, pov, ksq, a.piece_on@, 64, lane)
            + usum(model, pov, ksq, a.unmake_updates(m, u), a.unmake_updates(m, u).len() as int, lane),
{
    let from = m.from as int;
    let to = m.to as int;
    let mover = a.turn.spec_other();
    let on_to = a.piece_on[to];
    let moving = if m.promotion.is_some() {
        Piece::spec_from_kind(PieceKind::Pawn, mover)
    } else {
        on_to
    };
    let cap = if m.en_passant {
        if mover == Color::White {
            to - 8
        } else {
            to + 8
        }
    } else {
        to
    };
    assert(has_feature(on_to));
    assert(has_feature(moving));
    let s0 = a.piece_on@;
    let t1 = s0.update(to, Piece::Empty);
    lemma_csum_update(model, pov, ksq, s0, to, Piece::Empty, 64, lane);
    let s1 = t1.update(from, moving);
    lemma_csum_update(model, pov, ksq, t1, from, moving, 64, lane);
    assert(t1[from] == a.piece_on[from]);
    assert(a.piece_on[from] == Piece::Empty);
    let restore = m.capture && u.captured_piece != Piece::Empty;
    if restore {
        lemma_csum_update(model, pov, ksq, s1, cap, u.captured_piece, 64, lane);
        if m.en_passant {
            assert(s1[cap] == a.piece_on[cap]);
            assert(a.piece_on[cap] == Piece::Empty);
        } else {
            assert(s1[cap] == Piece::Empty);
        }
        lemma_update_weight(model, pov, ksq, u.captured_piece, cap, lane);
    }
    lemma_update_weight(model, pov, ksq, on_to, to, lane);
    lemma_update_weight(model, pov, ksq, moving, from, lane);
    let ups = a.unmake_updates(m, u);
    assert(ups[0] == UpdateBody { piece: on_to, sq: m.to as usize, add: false });
    assert(ups[1] == UpdateBody { piece: moving, sq: m.from as usize, add: true });
    if restore {
        assert(ups.len() == 3);
        assert(ups[2] == UpdateBody { piece: u.captured_piece, sq: cap as usize, add: true });
    } else {
        assert(ups.len() == 2);
    }
    reveal_with_fuel(usum, 4);
}

/// The incremental update that takes back a move which is not a castle and moves
/// no king (nor restores one) gives the accumulator that a refresh of the position
/// before the move computes.
pub proof fn lemma_unmake_matches_refresh(
    a: Board,
    c: Board,
    m: Move,
    u: Undo,
    model: &Model,
    acc_a: Accumulator,
    acc_c: Accumulator,
)
    requires
        a.can_unmake(m, u),
        c.bb_wf(),
        !m.castle,
        a.piece_on[m.to as int].spec_kind() != Some(PieceKind::King),
        m.capture && u.captured_piece != Piece::Empty ==> u.captured_piece.spec_kind() != Some(PieceKind::King),
        c.piece_on@ == a.before_squares(m, u),
        fresh_accumulator(model, a, acc_a),
        updated_by(
            acc_a,
            acc_c,
            Some(model),
            king_sq_of(a, Color::White),
            king_sq_of(a, Color::Black),
            a.unmake_updates(m, u),
        ),
    ensures
        fresh_accumulator(model, c, acc_c),
{
    let ups = a.unmake_updates(m, u);
    let n = ups.len() as int;
    assert forall|col: Color| #[trigger] king_sq_of(c, col) == king_sq_of(a, col) by {
        let k = Piece::spec_from_kind(PieceKind::King, col);
        assert forall|s: int| 0 <= s < 64 implies (c.piece_on[s] == k) == (a.piece_on[s] == k) by {
            assert(c.piece_on[s] == c.piece_on@[s]);
            assert(a.piece_on[s] == a.piece_on@[s]);
        }
        lemma_same_kings(c, a, col);
    }
    assert forall|lane: int| 0 <= lane < 256 implies #[trigger] acc_c.white[lane] == half_lane(
        model,
        true,
        king_sq_of(c, Color::White),
        c.piece_on@,
        64,
        lane,
    ) by {
        let ksq = king_sq_of(a, Color::White);
        lemma_half_lane(model, true, ksq, a.piece_on@, 64, lane);
        lemma_half_lane(model, true, ksq, c.piece_on@, 64, lane);
        lemma_half_after(acc_a.white[lane], model, true, ksq, ups, n, lane);
        lemma_unmake_sum(a, m, u, model, true, ksq, lane);
        lemma_wrap16_wrap(
            model.ft_biases@[lane] + csum(model, true, ksq, a.piece_on@, 64, lane),
            usum(model, true, ksq, ups, n, lane),
        );
    }
    assert forall|lane: int| 0 <= lane < 256 implies #[trigger] acc_c.black[lane] == half_lane(
        model,
        false,
        king_sq_of(c, Color::Black),
        c.piece_on@,
        64,
        lane,
    ) by {
        let ksq = king_sq_of(a, Color::Black);
        lemma_half_lane(model, false, ksq, a.piece_on@, 64, lane);
        lemma_half_lane(model, false, ksq, c.piece_on@, 64, lane);
        lemma_half_after(acc_a.black[lane], model, false, ksq, ups, n, lane);
        lemma_unmake_sum(a, m, u, model, false, ksq, lane);
        lemma_wrap16_wrap(
            model.ft_biases@[lane] + csum(model, false, ksq, a.piece_on@, 64, lane),
            usum(model, false, ksq, ups, n, lane),
        );
    }
}

/// Two accumulators that agree lane by lane are the same.
proof fn lemma_accumulator_eq(x: Accumulator, y: Accumulator)
    requires
        forall|l: int| 0 <= l < 256 ==> #[trigger] x.white[l] == y.white[l],
        forall|l: int| 0 <= l < 256 ==> #[trigger] x.black[l] == y.black[l],
    ensures
        x == y,
{
    vstd::array::lemma_array_index(x.white, 0);
    assert forall|l: int| 0 <= l < 256 implies x.white@[l] == y.white@[l] by {
        assert(x.white[l] == x.white@[l] && y.white[l] == y.white@[l]);
    }
    assert forall|l: int| 0 <= l < 256 implies x.black@[l] == y.black@[l] by {
        assert(x.black[l] == x.black@[l] && y.black[l] == y.black@[l]);
    }
    assert(x.white@ =~= y.white@);
    assert(x.black@ =~= y.black@);
    vstd::array::axiom_array_ext_equal(x.white, y.white);
    vstd::array::axiom_array_ext_equal(x.black, y.black);
    assert(x.white =~= y.white);
    assert(x.black =~= y.black);
}

/// A king move taken back: when the accumulator was computed from scratch before
/// the move, refreshing it on the board brought back gives it back exactly.
pub proof fn lemma_refresh_gives_back(b: Board, c: Board)
    requires
        b.bb_wf(),
        c.bb_wf(),
        c.piece_on@ == b.piece_on@,
        c.model == b.model,
        crate::nnue::refreshed(b.model, b, b.accumulator),
        crate::nnue::refreshed(c.model, c, c.accumulator),
    ensures
        c.accumulator == b.accumulator,
{
    crate::makemove::lemma_bb_determined(b, c);
    assert forall|col: Color| #[trigger] king_sq_of(c, col) == king_sq_of(b, col) by {
        let idx = Piece::spec_from_kind(PieceKind::King, col).spec_index() as int;
        assert(c.piece_bb[idx] == c.piece_bb@[idx]);
        assert(b.piece_bb[idx] == b.piece_bb@[idx]);
    }
    lemma_accumulator_eq(c.accumulator, b.accumulator);
}

/// A move of a piece other than a king taken back: the updates of the take-back
/// cancel those of the move, lane by lane, whatever the accumulator held (16-bit
/// wrapping additions cancel exactly).
pub proof fn lemma_updates_cancel(b: Board, a: Board, m: Move, u: Undo, acc0: Accumulator, acc1: Accumulator, acc2: Accumulator, wk: int, bk: int)
    requires
        b.pseudo_legal(m),
        b.piece_on[m.from as int].spec_kind() != Some(PieceKind::King),
        a.piece_on@ == b.after_squares(m),
        a.turn == b.turn.spec_other(),
        u.captured_piece == (if m.capture { b.piece_on[b.cap_sq(m)] } else { Piece::Empty }),
        updated_by(acc0, acc1, b.model, wk, bk, b.move_updates(m)),
        updated_by(acc1, acc2, b.model, wk, bk, a.unmake_updates(m, u)),
    ensures
        acc2 == acc0,
{
    match b.model {
        None => {},
        Some(model) => {
            let mu = b.move_updates(m);
            let uu = a.unmake_updates(m, u);
            let to = m.to as int;
            assert(!m.castle);
            assert(a.piece_on[to] == a.piece_on@[to]);
            let moving = b.piece_on[m.from as int];
            if m.promotion.is_some() {
                assert(moving == Piece::spec_from_kind(PieceKind::Pawn, b.turn));
            }
            assert forall|pov: bool, ksq: int, lane: int|
                #![trigger usum(model, pov, ksq, uu, uu.len() as int, lane)]
                usum(model, pov, ksq, uu, uu.len() as int, lane) == -usum(model, pov, ksq, mu, mu.len() as int, lane) by {
                reveal_with_fuel(usum, 4);
            }
            assert forall|lane: int| 0 <= lane < 256 implies #[trigger] acc2.white[lane] == acc0.white[lane] by {
                lemma_half_after(acc0.white[lane], model, true, wk, mu, mu.len() as int, lane);
                lemma_half_after(acc1.white[lane], model, true, wk, uu, uu.len() as int, lane);
                let x = acc0.white[lane] as int;
                let w = usum(model, true, wk, mu, mu.len() as int, lane);
                lemma_wrap16_wrap(x + w, -w);
                lemma_wrap16_small(x);
                assert(x + w + -w == x);
            }
            assert forall|lane: int| 0 <= lane < 256 implies #[trigger] acc2.black[lane] == acc0.black[lane] by {
                lemma_half_after(acc0.black[lane], model, false, bk, mu, mu.len() as int, lane);
                lemma_half_after(acc1.black[lane], model, false, bk, uu, uu.len() as int, lane);
                let x = acc0.black[lane] as int;
                let w = usum(model, false, bk, mu, mu.len() as int, lane);
                lemma_wrap16_wrap(x + w, -w);
                lemma_wrap16_small(x);
                assert(x + w + -w == x);
            }
            lemma_accumulator_eq(acc2, acc0);
        },
    }
}

/// How `make_move(m)` on `b` set the accumulator of `a`: refreshed after a king
/// move, else updated by the move's feature changes with the kings of `a`.
pub open spec fn acc_made(b: Board, a: Board, m: Move) -> bool {
    if b.piece_on[m.from as int].spec_kind() == Some(PieceKind::King) {
        crate::nnue::refreshed(a.model, a, a.accumulator)
    } else {
        updated_by(
            b.accumulator,
            a.accumulator,
            a.model,
            king_sq_of(a, Color::White),
            king_sq_of(a, Color::Black),
            b.move_updates(m),
        )
    }
}

/// A move made and taken back gives the accumulator back: the updates of a move of
/// another piece than a king cancel whatever the accumulator held; a king move is
/// refreshed on both sides, which gives it back when it was fresh before the move.
pub proof fn lemma_acc_back(b0: Board, c0: Board, c1: Board, m: Move, u: Undo)
    requires
        b0.bb_wf(),
        b0.pseudo_legal(m),
        sane_move(m),
        c0.piece_on@ == b0.after_squares(m),
        c0.turn == b0.turn.spec_other(),
        c0.model == b0.model,
        u.captured_piece == (if m.capture { b0.piece_on[b0.cap_sq(m)] } else { Piece::Empty }),
        acc_made(b0, c0, m),
        c1.bb_wf(),
        c1.piece_on@ == b0.piece_on@,
        c1.model == b0.model,
        (m.promotion.is_none() && c0.piece_on[m.to as int].spec_kind() == Some(PieceKind::King))
            ==> crate::nnue::refreshed(c1.model, c1, c1.accumulator),
        !(m.promotion.is_none() && c0.piece_on[m.to as int].spec_kind() == Some(PieceKind::King))
            ==> updated_by(
            c0.accumulator,
            c1.accumulator,
            c1.model,
            king_sq_of(c0, Color::White),
            king_sq_of(c0, Color::Black),
            c0.unmake_updates(m, u),
        ),
        b0.piece_on[m.from as int].spec_kind() == Some(PieceKind::King) ==> crate::nnue::refreshed(
            b0.model,
            b0,
            b0.accumulator,
        ),
    ensures
        c1.accumulator == b0.accumulator,
{
    let to = m.to as int;
    let from = m.from as int;
    assert(c0.piece_on[to] == c0.piece_on@[to]);
    if b0.piece_on[from].spec_kind() == Some(PieceKind::King) {
        assert(m.promotion.is_none());
        if m.castle {
            assert(crate::makemove::rook_from_sq(m) != to);
            assert(crate::makemove::rook_to_sq(m) != to);
        }
        assert(c0.piece_on[to] == b0.piece_on[from]);
        lemma_refresh_gives_back(b0, c1);
    } else {
        if m.promotion is Some {
            assert(crate::movegen::promo_kind(m.promotion.unwrap()));
        }
        lemma_updates_cancel(
            b0,
            c0,
            m,
            u,
            b0.accumulator,
            c0.accumulator,
            c1.accumulator,
            king_sq_of(c0, Color::White),
            king_sq_of(c0, Color::Black),
        );
    }
}

/// Freshness depends on the pieces and the accumulator alone.
pub proof fn lemma_refreshed_same(b: Board, c: Board)
    requires
        c.piece_on@ == b.piece_on@,
        c.piece_bb@ == b.piece_bb@,
        c.model == b.model,
        c.accumulator == b.accumulator,
        crate::nnue::refreshed(b.model, b, b.accumulator),
    ensures
        crate::nnue::refreshed(c.model, c, c.accumulator),
{
    assert forall|col: Color| #[trigger] king_sq_of(c, col) == king_sq_of(b, col) by {
        let idx = Piece::spec_from_kind(PieceKind::King, col).spec_index() as int;
        assert(c.piece_bb[idx] == c.piece_bb@[idx]);
        assert(b.piece_bb[idx] == b.piece_bb@[idx]);
    }
}

/// The colour of the side whose view a HalfKP feature takes.
pub open spec fn pov_color(pov: bool) -> Color {
    if pov {
        Color::White
    } else {
        Color::Black
    }
}

/// HalfKP puts a side's own pieces first: from either point of view, a piece of
/// the viewing side's colour has its feature 64 below the same kind of piece of the
/// other colour on the same square, and the viewing side's pawns take the block
/// right after the king's slot (white's pawn on a2 with its king on e1 is feature
/// 2573 from white's side).
pub proof fn lemma_halfkp_own_first(pov: bool, ksq: usize, sq: usize, kind: PieceKind)
    requires
        kind != PieceKind::King,
    ensures
        crate::nnue::halfkp(pov, ksq, sq, Piece::spec_from_kind(kind, pov_color(pov))) + 64 == crate::nnue::halfkp(
            pov,
            ksq,
            sq,
            Piece::spec_from_kind(kind, pov_color(pov).spec_other()),
        ),
        crate::nnue::halfkp(pov, ksq, sq, Piece::spec_from_kind(PieceKind::Pawn, pov_color(pov))) == (if pov {
            sq as int
        } else {
            (sq ^ 56usize) as int
        }) + 1 + 641 * (if pov {
            ksq as int
        } else {
            (ksq ^ 56usize) as int
        }),
        crate::nnue::halfkp(true, 4, 8, Piece::WP) == 2573,
{
}

} // verus!
