//! Static exchange evaluation: the material balance of the capture sequence on one
//! square when each side recaptures with its least valuable attacker.
use vstd::prelude::*;
use crate::bits::{bit, lemma_bit_and, lemma_bit_or, lemma_zero_iff_no_bits, lowest_square, sq_bb};
use crate::board::Board;
use crate::magics::{
    bishop_att, black_pawn_attacks, black_pawn_rel, get_bishop_attacks, get_rook_attacks,
    king_attacks_from, king_rel, knight_attacks_from, knight_rel, rook_att, white_pawn_attacks,
    white_pawn_rel,
};
use crate::types::{Color, Move, Piece, PieceKind};

verus! {

/// Material value of a piece kind in centipawns.
pub open spec fn kind_value(k: PieceKind) -> int {
    match k {
        PieceKind::Pawn => 100,
        PieceKind::Knight => 320,
        PieceKind::Bishop => 330,
        PieceKind::Rook => 500,
        PieceKind::Queen => 900,
        PieceKind::King => 20000,
    }
}

/// Material value of a piece; an empty square is worth nothing.
pub open spec fn piece_value(p: Piece) -> int {
    match p.spec_kind() {
        Some(k) => kind_value(k),
        None => 0,
    }
}

pub(crate) fn val(p: Piece) -> (v: i32)
    ensures
        v == piece_value(p),
{
    match p.kind() {
        Some(PieceKind::Pawn) => 100,
        Some(PieceKind::Knight) => 320,
        Some(PieceKind::Bishop) => 330,
        Some(PieceKind::Rook) => 500,
        Some(PieceKind::Queen) => 900,
        Some(PieceKind::King) => 20000,
        None => 0,
    }
}

/// A piece of kind `k` and colour `side` standing on `t` would reach `sq` over `occ`.
pub open spec fn reaches(sq: int, occ: u64, side: Color, k: PieceKind, t: int) -> bool {
    match k {
        PieceKind::Pawn => if side == Color::White {
            black_pawn_rel(sq, t)
        } else {
            white_pawn_rel(sq, t)
        },
        PieceKind::Knight => knight_rel(sq, t),
        PieceKind::Bishop => bishop_att(sq, occ, t),
        PieceKind::Rook => rook_att(sq, occ, t),
        PieceKind::Queen => bishop_att(sq, occ, t) || rook_att(sq, occ, t),
        PieceKind::King => king_rel(sq, t),
    }
}

/// Square `t`, still in `occ`, holds a piece of kind `k` and colour `side` that
/// attacks `sq`.
pub open spec fn hits(b: Board, sq: int, occ: u64, side: Color, k: PieceKind, t: int) -> bool {
    bit(occ, t) && b.piece_on[t] == Piece::spec_from_kind(k, side) && reaches(sq, occ, side, k, t)
}

/// Some piece of kind `k` and colour `side` attacks `sq`.
pub open spec fn has_hit(b: Board, sq: int, occ: u64, side: Color, k: PieceKind) -> bool {
    exists|t: int| 0 <= t < 64 && #[trigger] hits(b, sq, occ, side, k, t)
}

/// `t` is the lowest square holding such an attacker.
pub open spec fn lowest_hit(b: Board, sq: int, occ: u64, side: Color, k: PieceKind, t: int) -> bool {
    0 <= t < 64 && hits(b, sq, occ, side, k, t) && forall|u: int|
        0 <= u < t ==> !#[trigger] hits(b, sq, occ, side, k, u)
}

/// The kind of the least valuable attacker of `sq` for `side`, trying pawn, knight,
/// bishop, rook, queen, king in turn.
pub open spec fn lva_kind(b: Board, sq: int, occ: u64, side: Color) -> Option<PieceKind> {
    if has_hit(b, sq, occ, side, PieceKind::Pawn) {
        Some(PieceKind::Pawn)
    } else if has_hit(b, sq, occ, side, PieceKind::Knight) {
        Some(PieceKind::Knight)
    } else if has_hit(b, sq, occ, side, PieceKind::Bishop) {
        Some(PieceKind::Bishop)
    } else if has_hit(b, sq, occ, side, PieceKind::Rook) {
        Some(PieceKind::Rook)
    } else if has_hit(b, sq, occ, side, PieceKind::Queen) {
        Some(PieceKind::Queen)
    } else if has_hit(b, sq, occ, side, PieceKind::King) {
        Some(PieceKind::King)
    } else {
        None
    }
}

/// The least valuable attacker of `sq` for `side`: its kind and its lowest square.
pub open spec fn lva(b: Board, sq: int, occ: u64, side: Color) -> Option<(PieceKind, int)> {
    match lva_kind(b, sq, occ, side) {
        Some(k) => Some((k, choose|t: int| lowest_hit(b, sq, occ, side, k, t))),
        None => None,
    }
}

/// What `side`, to move, gains by going on with the exchange on `to`, where a piece
/// worth `victim` now stands and `n` captures have been counted: nothing if it has no
/// attacker left or the count reached 32, else the better of stopping and capturing
/// with its least valuable attacker.
pub open spec fn see_rest(b: Board, to: int, occ: u64, side: Color, victim: int, n: nat) -> int
    decreases 32 - n,
{
    if n >= 32 {
        0
    } else {
        match lva(b, to, occ, side) {
            None => 0,
            Some((k, t)) => {
                let rest = see_rest(b, to, occ ^ sq_bb(t), side.spec_other(), kind_value(k), n + 1);
                if victim - rest > 0 {
                    victim - rest
                } else {
                    0
                }
            },
        }
    }
}

/// The static exchange value of a move: 0 for a quiet move; for a capture, the value
/// of the captured piece less what the opponent gains from recapturing.
pub open spec fn see_value(b: Board, m: Move) -> int {
    if !m.capture {
        0
    } else {
        let from = m.from as int;
        let to = m.to as int;
        let captured = if m.en_passant {
            Piece::spec_from_kind(PieceKind::Pawn, b.turn.spec_other())
        } else {
            b.piece_on[to]
        };
        piece_value(captured) - see_rest(
            b,
            to,
            b.all_pieces ^ sq_bb(from),
            b.turn.spec_other(),
            piece_value(b.piece_on[from]),
            1,
        )
    }
}

proof fn lemma_see_rest_range(b: Board, to: int, occ: u64, side: Color, victim: int, n: nat)
    requires
        0 <= victim <= 20000,
    ensures
        0 <= see_rest(b, to, occ, side, victim, n) <= victim,
    decreases 32 - n,
{
    if n < 32 {
        if let Some((k, t)) = lva(b, to, occ, side) {
            lemma_see_rest_range(b, to, occ ^ sq_bb(t), side.spec_other(), kind_value(k), n + 1);
        }
    }
}

/// The attackers of one kind: `pattern` holds the squares a piece of kind `k` would
/// reach `sq` from.
fn class_bits(b: &Board, sq: usize, occ: u64, side: Color, k: PieceKind, pattern: u64) -> (r: u64)
    requires
        b.bb_wf(),
        sq < 64,
        forall|t: int| 0 <= t < 64 ==> #[trigger] bit(pattern, t) == reaches(sq as int, occ, side, k, t),
    ensures
        forall|t: int| 0 <= t < 64 ==> #[trigger] bit(r, t) == hits(*b, sq as int, occ, side, k, t),
        r == 0 <==> !has_hit(*b, sq as int, occ, side, k),
{
    let p = Piece::from_kind(k, side);
    let own = b.piece_bb[p.index()] & occ;
    let r = pattern & own;
    proof {
        lemma_bit_and(b.piece_bb[p.index() as int], occ);
        lemma_bit_and(pattern, own);
        assert forall|t: int| 0 <= t < 64 implies #[trigger] bit(r, t) == hits(*b, sq as int, occ, side, k, t) by {
            assert(bit(b.piece_bb[p.index() as int], t) == (b.piece_on[t].spec_index() == p.spec_index()));
        }
        lemma_zero_iff_no_bits(r);
        if r != 0 {
            let t = choose|t: int| 0 <= t < 64 && bit(r, t);
            assert(hits(*b, sq as int, occ, side, k, t));
        }
        if has_hit(*b, sq as int, occ, side, k) {
            let t = choose|t: int| 0 <= t < 64 && #[trigger] hits(*b, sq as int, occ, side, k, t);
            assert(bit(r, t));
        }
    }
    r
}

proof fn lemma_lowest_unique(b: Board, sq: int, occ: u64, side: Color, k: PieceKind, t: int)
    requires
        lowest_hit(b, sq, occ, side, k, t),
    ensures
        (choose|u: int| lowest_hit(b, sq, occ, side, k, u)) == t,
{
    let c = choose|u: int| lowest_hit(b, sq, occ, side, k, u);
    assert(lowest_hit(b, sq, occ, side, k, c));
    if c < t {
        assert(!hits(b, sq, occ, side, k, c));
    }
    if t < c {
        assert(!hits(b, sq, occ, side, k, t));
    }
}

/// The first nonempty class found: its bitboard and its lowest square.
fn found(b: &Board, sq: usize, occ: u64, side: Color, k: PieceKind, cls: u64) -> (r: (
    u64,
    Option<(Piece, usize)>,
))
    requires
        cls != 0,
        forall|t: int| 0 <= t < 64 ==> #[trigger] bit(cls, t) == hits(*b, sq as int, occ, side, k, t),
    ensures
        r.0 == cls,
        r.1 == Some((Piece::spec_from_kind(k, side), (choose|t: int| lowest_hit(*b, sq as int, occ, side, k, t)) as usize)),
        lowest_hit(*b, sq as int, occ, side, k, r.1.unwrap().1 as int),
{
    let t = lowest_square(cls);
    proof {
        assert forall|u: int| 0 <= u < t implies !#[trigger] hits(*b, sq as int, occ, side, k, u) by {
            assert(!bit(cls, u));
        }
        assert(lowest_hit(*b, sq as int, occ, side, k, t as int));
        lemma_lowest_unique(*b, sq as int, occ, side, k, t as int);
    }
    (cls, Some((Piece::from_kind(k, side), t as usize)))
}

/// The attackers of `sq` for `side` among the pieces still in `occupied`, by
/// increasing value: the bitboard of the first kind that has any, and that kind's
/// piece with its lowest square; `(0, None)` when there is none.
pub fn get_attackers(b: &Board, sq: usize, occupied: u64, side: Color) -> (r: (u64, Option<(Piece, usize)>))
    requires
        b.bb_wf(),
        sq < 64,
    ensures
        match lva(*b, sq as int, occupied, side) {
            None => r.0 == 0 && r.1 is None,
            Some((k, t)) => r.1 == Some((Piece::spec_from_kind(k, side), t as usize)) && 0 <= t
                < 64 && forall|u: int| 0 <= u < 64 ==> #[trigger] bit(r.0, u) == hits(*b, sq as int, occupied, side, k, u),
        },
{
    let pawn_pattern = if side == Color::White {
        black_pawn_attacks(sq)
    } else {
        white_pawn_attacks(sq)
    };
    let cls = class_bits(b, sq, occupied, side, PieceKind::Pawn, pawn_pattern);
    if cls != 0 {
        return found(b, sq, occupied, side, PieceKind::Pawn, cls);
    }
    let cls = class_bits(b, sq, occupied, side, PieceKind::Knight, knight_attacks_from(sq));
    if cls != 0 {
        return found(b, sq, occupied, side, PieceKind::Knight, cls);
    }
    let bishop_attacks = get_bishop_attacks(sq, occupied);
    let cls = class_bits(b, sq, occupied, side, PieceKind::Bishop, bishop_attacks);
    if cls != 0 {
        return found(b, sq, occupied, side, PieceKind::Bishop, cls);
    }
    let rook_attacks = get_rook_attacks(sq, occupied);
    let cls = class_bits(b, sq, occupied, side, PieceKind::Rook, rook_attacks);
    if cls != 0 {
        return found(b, sq, occupied, side, PieceKind::Rook, cls);
    }
    let queen_pattern = bishop_attacks | rook_attacks;
    proof {
        lemma_bit_or(bishop_attacks, rook_attacks);
    }
    let cls = class_bits(b, sq, occupied, side, PieceKind::Queen, queen_pattern);
    if cls != 0 {
        return found(b, sq, occupied, side, PieceKind::Queen, cls);
    }
    let cls = class_bits(b, sq, occupied, side, PieceKind::King, king_attacks_from(sq));
    if cls != 0 {
        return found(b, sq, occupied, side, PieceKind::King, cls);
    }
    (0, None)
}

fn see_from(b: &Board, to: usize, occ: u64, side: Color, victim: i32, n: usize) -> (r: i32)
    requires
        b.bb_wf(),
        to < 64,
        0 <= victim <= 20000,
    ensures
        r == see_rest(*b, to as int, occ, side, victim as int, n as nat),
    decreases 32 - n,
{
    if n >= 32 {
        return 0;
    }
    let (_, attacker) = get_attackers(b, to, occ, side);
    match attacker {
        None => 0,
        Some((piece, sq)) => {
            let ghost k = lva(*b, to as int, occ, side).unwrap().0;
            let next_occ = occ ^ (1u64 << (sq as u64));
            let v = val(piece);
            assert(v == kind_value(k));
            let rest = see_from(b, to, next_occ, side.other(), v, n + 1);
            proof {
                lemma_see_rest_range(*b, to as int, next_occ, side.spec_other(), v as int, (n + 1) as nat);
            }
            if victim - rest > 0 {
                victim - rest
            } else {
                0
            }
        },
    }
}

/// The static exchange value of `mov` on `b` (0 for a quiet move): the captured
/// piece's value less what the opponent wins by recapturing, each side using its
/// least valuable attacker and free to stop, over at most 32 captures.
pub fn see(b: &Board, mov: Move) -> (r: i32)
    requires
        b.bb_wf(),
        mov.from < 64,
        mov.to < 64,
    ensures
        r == see_value(*b, mov),
        mov.capture ==> -20000 <= r <= 20000,
{
    if !mov.capture {
        return 0;
    }
    let from_sq = mov.from as usize;
    let to_sq = mov.to as usize;
    let captured_piece = if mov.en_passant {
        Piece::from_kind(PieceKind::Pawn, b.turn.other())
    } else {
        b.piece_on[to_sq]
    };
    let v0 = val(captured_piece);
    let occ = b.all_pieces ^ (1u64 << (from_sq as u64));
    let v1 = val(b.piece_on[from_sq]);
    let rest = see_from(b, to_sq, occ, b.turn.other(), v1, 1);
    proof {
        lemma_see_rest_range(*b, to_sq as int, occ, b.turn.spec_other(), v1 as int, 1);
    }
    v0 - rest
}

/// An attacker on `t` means there is a lowest one.
proof fn lemma_lowest_exists(b: Board, sq: int, occ: u64, side: Color, k: PieceKind, t: int)
    requires
        0 <= t < 64,
        hits(b, sq, occ, side, k, t),
    ensures
        exists|u: int| #[trigger] lowest_hit(b, sq, occ, side, k, u),
    decreases t,
{
    if forall|u: int| 0 <= u < t ==> !#[trigger] hits(b, sq, occ, side, k, u) {
        assert(lowest_hit(b, sq, occ, side, k, t));
    } else {
        let u = choose|u: int| 0 <= u < t && #[trigger] hits(b, sq, occ, side, k, u);
        lemma_lowest_exists(b, sq, occ, side, k, u);
    }
}

/// The exchange value reads only the mailbox, the occupancy and the side to move.
pub proof fn lemma_see_rest_same(x: Board, y: Board, to: int, occ: u64, side: Color, victim: int, n: nat)
    requires
        x.piece_on == y.piece_on,
    ensures
        see_rest(x, to, occ, side, victim, n) == see_rest(y, to, occ, side, victim, n),
    decreases 32 - n,
{
    if n < 32 {
        assert forall|k: PieceKind, t: int|
            #![trigger hits(x, to, occ, side, k, t)]
            #![trigger hits(y, to, occ, side, k, t)]
            hits(x, to, occ, side, k, t) == hits(y, to, occ, side, k, t) by {}
        assert forall|k: PieceKind| #[trigger] has_hit(x, to, occ, side, k) == has_hit(y, to, occ, side, k) by {
            if has_hit(x, to, occ, side, k) {
                let t = choose|t: int| 0 <= t < 64 && #[trigger] hits(x, to, occ, side, k, t);
                assert(hits(y, to, occ, side, k, t));
            }
            if has_hit(y, to, occ, side, k) {
                let t = choose|t: int| 0 <= t < 64 && #[trigger] hits(y, to, occ, side, k, t);
                assert(hits(x, to, occ, side, k, t));
            }
        }
        assert(lva_kind(x, to, occ, side) == lva_kind(y, to, occ, side));
        match lva_kind(x, to, occ, side) {
            Some(k) => {
                assert forall|t: int| #[trigger] lowest_hit(x, to, occ, side, k, t) == lowest_hit(y, to, occ, side, k, t) by {}
                assert(has_hit(x, to, occ, side, k));
                let t0 = choose|t: int| 0 <= t < 64 && #[trigger] hits(x, to, occ, side, k, t);
                lemma_lowest_exists(x, to, occ, side, k, t0);
                let u = choose|u: int| #[trigger] lowest_hit(x, to, occ, side, k, u);
                assert(lowest_hit(y, to, occ, side, k, u));
                lemma_lowest_unique(x, to, occ, side, k, u);
                lemma_lowest_unique(y, to, occ, side, k, u);
                assert(lva(x, to, occ, side) == lva(y, to, occ, side));
                let t = lva(x, to, occ, side).unwrap().1;
                lemma_see_rest_same(x, y, to, occ ^ sq_bb(t), side.spec_other(), kind_value(k), n + 1);
            },
            None => {},
        }
    }
}

/// Boards with the same mailbox, occupancy and side to move give moves the same
/// exchange value.
pub proof fn lemma_see_value_same(x: Board, y: Board, m: Move)
    requires
        x.piece_on == y.piece_on,
        x.all_pieces == y.all_pieces,
        x.turn == y.turn,
    ensures
        see_value(x, m) == see_value(y, m),
{
    if m.capture {
        lemma_see_rest_same(x, y, m.to as int, x.all_pieces ^ sq_bb(m.from as int), x.turn.spec_other(), piece_value(x.piece_on[m.from as int]), 1);
    }
}

/// The exchange values: pawn 100, knight 320, bishop 330, rook 500, queen 900,
/// king 20000, each kind worth more than the one before it.
pub proof fn lemma_piece_values()
    ensures
        kind_value(PieceKind::Pawn) == 100,
        kind_value(PieceKind::Knight) == 320,
        kind_value(PieceKind::Bishop) == 330,
        kind_value(PieceKind::Rook) == 500,
        kind_value(PieceKind::Queen) == 900,
        kind_value(PieceKind::King) == 20000,
        kind_value(PieceKind::Pawn) < kind_value(PieceKind::Knight) < kind_value(PieceKind::Bishop) < kind_value(
            PieceKind::Rook,
        ) < kind_value(PieceKind::Queen) < kind_value(PieceKind::King),
{
}

/// A capture that the opponent cannot answer on the target square wins the whole
/// captured piece.
pub proof fn lemma_see_unanswered(b: Board, m: Move)
    requires
        m.capture,
        !m.en_passant,
        forall|k: PieceKind| !#[trigger] has_hit(b, m.to as int, b.all_pieces ^ sq_bb(m.from as int), b.turn.spec_other(), k),
    ensures
        see_value(b, m) == piece_value(b.piece_on[m.to as int]),
{
    let occ = b.all_pieces ^ sq_bb(m.from as int);
    let opp = b.turn.spec_other();
    assert(!has_hit(b, m.to as int, occ, opp, PieceKind::Pawn));
    assert(!has_hit(b, m.to as int, occ, opp, PieceKind::Knight));
    assert(!has_hit(b, m.to as int, occ, opp, PieceKind::Bishop));
    assert(!has_hit(b, m.to as int, occ, opp, PieceKind::Rook));
    assert(!has_hit(b, m.to as int, occ, opp, PieceKind::Queen));
    assert(!has_hit(b, m.to as int, occ, opp, PieceKind::King));
}

/// A capture that the opponent answers once, after which the capturing side has no
/// attacker left on the square, nets the captured piece less the capturing piece:
/// a bishop that takes a pawn guarded by a pawn loses 330 - 100 = 230.
pub proof fn lemma_see_answered_once(b: Board, m: Move)
    requires
        m.capture,
        !m.en_passant,
        b.piece_on[m.from as int].spec_kind() is Some,
        lva(b, m.to as int, b.all_pieces ^ sq_bb(m.from as int), b.turn.spec_other()) is Some,
        forall|k: PieceKind| !#[trigger] has_hit(
            b,
            m.to as int,
            (b.all_pieces ^ sq_bb(m.from as int)) ^ sq_bb(
                lva(b, m.to as int, b.all_pieces ^ sq_bb(m.from as int), b.turn.spec_other()).unwrap().1,
            ),
            b.turn,
            k,
        ),
    ensures
        see_value(b, m) == piece_value(b.piece_on[m.to as int]) - piece_value(b.piece_on[m.from as int]),
{
    let to = m.to as int;
    let occ = b.all_pieces ^ sq_bb(m.from as int);
    let opp = b.turn.spec_other();
    let (k, t) = lva(b, to, occ, opp).unwrap();
    let occ2 = occ ^ sq_bb(t);
    assert(!has_hit(b, to, occ2, b.turn, PieceKind::Pawn));
    assert(!has_hit(b, to, occ2, b.turn, PieceKind::Knight));
    assert(!has_hit(b, to, occ2, b.turn, PieceKind::Bishop));
    assert(!has_hit(b, to, occ2, b.turn, PieceKind::Rook));
    assert(!has_hit(b, to, occ2, b.turn, PieceKind::Queen));
    assert(!has_hit(b, to, occ2, b.turn, PieceKind::King));
    assert(opp.spec_other() == b.turn);
    assert(lva(b, to, occ2, b.turn) is None);
    assert(see_rest(b, to, occ2, b.turn, kind_value(k), 2) == 0);
    lemma_piece_values();
    assert(piece_value(b.piece_on[m.from as int]) > 0);
}

} // verus!
