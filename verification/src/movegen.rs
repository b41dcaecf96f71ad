//! Pseudo-legal move generation: all moves, the tactical ones (captures and
//! promotions) and the quiet ones, each as a list without repeats that holds
//! exactly the moves of its kind.
use vstd::prelude::*;
use crate::bits::{bb_squares, bit, lemma_bit_and, lemma_bit_not, lemma_bit_or};
use crate::board::Board;
use crate::magics::{
    bishop_att, get_bishop_attacks, get_rook_attacks, king_attacks_from, king_rel,
    knight_attacks_from, knight_rel, rook_att,
};
use crate::types::{Color, Move, MoveList, Piece, PieceKind};

verus! {

broadcast use vstd::seq_lib::group_seq_properties;

/// A move with no flag but possibly the capture flag.
pub open spec fn plain_flags(m: Move) -> bool {
    !m.en_passant && !m.double_push && !m.castle && m.promotion.is_none()
}

/// Captures and promotions.
pub open spec fn tactical(m: Move) -> bool {
    m.capture || m.promotion.is_some()
}

/// The four pieces a pawn may promote to.
pub open spec fn promo_kind(k: PieceKind) -> bool {
    k == PieceKind::Queen || k == PieceKind::Rook || k == PieceKind::Bishop || k == PieceKind::Knight
}

/// Which moves a generator keeps: all (0), tactical (1) or quiet (2).
pub open spec fn mode_keeps(mode: u8, m: Move) -> bool {
    if mode == 1 {
        tactical(m)
    } else if mode == 2 {
        !tactical(m)
    } else {
        true
    }
}

/// `s` holds no piece of `c`.
pub open spec fn not_color(b: &Board, s: int, c: Color) -> bool {
    b.piece_on[s].spec_color() != Some(c)
}

/// The pieces lists in `seq` differ pairwise.
pub open spec fn distinct(s: Seq<Move>) -> bool {
    forall|i: int, j: int| 0 <= i < s.len() && 0 <= j < s.len() && i != j ==> s[i] != s[j]
}

impl Board {
    /// `s` holds the king of the side to move and no lower square does.
    pub open spec fn first_king(&self, s: int) -> bool {
        let k = Piece::spec_from_kind(PieceKind::King, self.turn);
        0 <= s < 64 && self.piece_on[s] == k && forall|t: int| 0 <= t < s ==> self.piece_on[t] != k
    }

    /// The piece of kind `kind` on `from` reaches `to` by its movement pattern.
    pub open spec fn reach(&self, kind: PieceKind, from: int, to: int) -> bool {
        let occ = self.all_pieces;
        match kind {
            PieceKind::Knight => knight_rel(from, to),
            PieceKind::King => king_rel(from, to),
            PieceKind::Bishop => bishop_att(from, occ, to),
            PieceKind::Rook => rook_att(from, occ, to),
            PieceKind::Queen => bishop_att(from, occ, to) || rook_att(from, occ, to),
            PieceKind::Pawn => false,
        }
    }

    /// A generated move of a knight, bishop, rook, queen or of the first king:
    /// to a square in reach that holds no piece of the mover, flagged as a capture
    /// exactly when the square is occupied.
    pub open spec fn piece_move(&self, kind: PieceKind, m: Move) -> bool {
        let from = m.from as int;
        let to = m.to as int;
        &&& kind != PieceKind::Pawn
        &&& from < 64 && to < 64
        &&& self.piece_on[from] == Piece::spec_from_kind(kind, self.turn)
        &&& (kind == PieceKind::King ==> self.first_king(from))
        &&& self.reach(kind, from, to)
        &&& not_color(self, to, self.turn)
        &&& m.capture == self.occupied(to)
        &&& plain_flags(m)
    }

    /// A generated castling move: the first king's square is not attacked, and the
    /// move goes from the home square to a target that meets `castle_path_ok`.
    pub open spec fn castle_move(&self, m: Move) -> bool {
        &&& m.castle && !m.capture && !m.en_passant && !m.double_push && m.promotion.is_none()
        &&& m.from as int == self.home_sq()
        &&& self.castle_path_ok(m.to as int)
        &&& exists|k: int| #[trigger] self.first_king(k) && !self.attacked(k, self.turn.spec_other())
    }

    /// Rank step of the side to move's pawns.
    pub open spec fn pawn_dir(&self) -> int {
        if self.turn == Color::White {
            8
        } else {
            -8
        }
    }

    /// Rank from which the side to move's pawns promote on their next step.
    pub open spec fn promo_rank(&self) -> int {
        if self.turn == Color::White {
            6
        } else {
            1
        }
    }

    /// Rank from which the side to move's pawns may advance two squares.
    pub open spec fn start_rank(&self) -> int {
        if self.turn == Color::White {
            1
        } else {
            6
        }
    }

    /// The promotion field suits a pawn move from `from`: one of the four pieces
    /// on the promotion rank, none elsewhere.
    pub open spec fn promo_fits(&self, from: int, m: Move) -> bool {
        if from / 8 == self.promo_rank() {
            m.promotion.is_some() && promo_kind(m.promotion.unwrap())
        } else {
            m.promotion.is_none()
        }
    }

    /// A single step forward onto an empty square.
    pub open spec fn pawn_push(&self, m: Move) -> bool {
        let from = m.from as int;
        let to = m.to as int;
        &&& to == from + self.pawn_dir()
        &&& !self.occupied(to)
        &&& !m.capture && !m.en_passant && !m.double_push && !m.castle
        &&& self.promo_fits(from, m)
    }

    /// A double step from the start rank over an empty square onto an empty square.
    pub open spec fn pawn_double(&self, m: Move) -> bool {
        let from = m.from as int;
        let to = m.to as int;
        &&& from / 8 == self.start_rank()
        &&& to == from + 2 * self.pawn_dir()
        &&& !self.occupied(from + self.pawn_dir())
        &&& !self.occupied(to)
        &&& !m.capture && !m.en_passant && m.double_push && !m.castle && m.promotion.is_none()
    }

    /// `to` is a forward diagonal of `from` for the side to move, on the board.
    pub open spec fn pawn_diag(&self, from: int, to: int) -> bool {
        ||| (to == from + self.pawn_dir() - 1 && from % 8 != 0)
        ||| (to == from + self.pawn_dir() + 1 && from % 8 != 7)
    }

    /// A diagonal capture of an enemy piece.
    pub open spec fn pawn_capture(&self, m: Move) -> bool {
        let from = m.from as int;
        let to = m.to as int;
        &&& self.pawn_diag(from, to)
        &&& self.occupied(to) && not_color(self, to, self.turn)
        &&& m.capture && !m.en_passant && !m.double_push && !m.castle
        &&& self.promo_fits(from, m)
    }

    /// A diagonal capture onto the en-passant square.
    pub open spec fn pawn_ep(&self, m: Move) -> bool {
        let from = m.from as int;
        let to = m.to as int;
        &&& self.pawn_diag(from, to)
        &&& self.en_passant_sq == to
        &&& m.capture && m.en_passant && !m.double_push && !m.castle && m.promotion.is_none()
    }

    /// A generated pawn move: a push (promoting on the last step), a double push
    /// from the start rank, a diagonal capture (promoting on the last step) or an
    /// en-passant capture onto the en-passant square.
    pub open spec fn pawn_move(&self, m: Move) -> bool {
        &&& m.from < 64 && m.to < 64
        &&& self.piece_on[m.from as int] == Piece::spec_from_kind(PieceKind::Pawn, self.turn)
        &&& (self.pawn_push(m) || self.pawn_double(m) || self.pawn_capture(m) || self.pawn_ep(m))
    }

    /// A move that the generators make.
    pub open spec fn gen_move(&self, m: Move) -> bool {
        ||| self.pawn_move(m)
        ||| self.castle_move(m)
        ||| self.piece_move(PieceKind::Knight, m)
        ||| self.piece_move(PieceKind::Bishop, m)
        ||| self.piece_move(PieceKind::Rook, m)
        ||| self.piece_move(PieceKind::Queen, m)
        ||| self.piece_move(PieceKind::King, m)
    }
}

/// Appends a plain move from `from` to every member of `targets`, in ascending
/// order of target, with the capture flag set where `capmask` has the target.
fn push_targets(out: &mut MoveList, from: u8, targets: u64, capmask: u64)
    ensures
        final(out)@.len() >= old(out)@.len(),
        final(out)@.subrange(0, old(out)@.len() as int) == old(out)@,
        forall|j: int|
            old(out)@.len() <= j < final(out)@.len() ==> {
                let m = #[trigger] final(out)@[j];
                &&& m.from == from
                &&& bit(targets, m.to as int)
                &&& m.capture == bit(capmask, m.to as int)
                &&& plain_flags(m)
            },
        forall|t: int|
            0 <= t < 64 && bit(targets, t) ==> exists|j: int|
                old(out)@.len() <= j < final(out)@.len() && (#[trigger] final(out)@[j]).to == t,
        distinct(final(out)@.subrange(old(out)@.len() as int, final(out)@.len() as int)),
{
    let ghost start = out@.len();
    let ghost init = out@;
    let sqs = bb_squares(targets);
    let mut k: usize = 0;
    while k < sqs.len()
        invariant
            k <= sqs.len(),
            start == init.len(),
            out@.len() == start + k,
            out@.subrange(0, start as int) == init,
            forall|i: int| 0 <= i < sqs.len() ==> #[trigger] sqs[i] < 64 && bit(targets, sqs[i] as int),
            forall|s: int| 0 <= s < 64 && bit(targets, s) ==> exists|i: int| 0 <= i < sqs.len() && #[trigger] sqs[i] == s,
            forall|i: int, j: int| 0 <= i < j < sqs.len() ==> #[trigger] sqs[i] < #[trigger] sqs[j],
            forall|j: int|
                start <= j < out@.len() ==> {
                    let m = #[trigger] out@[j];
                    &&& m.from == from
                    &&& m.to == sqs[j - start]
                    &&& m.capture == bit(capmask, m.to as int)
                    &&& plain_flags(m)
                },
        decreases sqs.len() - k,
    {
        let to = sqs[k];
        let capture = (capmask >> (to as u64)) & 1u64 == 1u64;
        out.push(
            Move {
                from,
                to,
                capture,
                en_passant: false,
                double_push: false,
                castle: false,
                promotion: None,
            },
        );
        k = k + 1;
    }
    assert forall|t: int| 0 <= t < 64 && bit(targets, t) implies exists|j: int|
        start <= j < out@.len() && (#[trigger] out@[j]).to == t by {
        let i = choose|i: int| 0 <= i < sqs.len() && #[trigger] sqs[i] == t;
        assert(out@[start + i].to == t);
    }
    assert forall|j: int| start <= j < out@.len() implies bit(targets, (#[trigger] out@[j]).to as int) by {
        assert(out@[j].to == sqs[j - start]);
    }
    assert forall|i: int, j: int|
        0 <= i < out@.len() - start && 0 <= j < out@.len() - start && i != j implies out@.subrange(
        start as int,
        out@.len() as int,
    )[i] != out@.subrange(start as int, out@.len() as int)[j] by {
        assert(out@[start + i].to == sqs[i]);
        assert(out@[start + j].to == sqs[j]);
    }
}


impl Board {
    /// The squares that a piece of kind `kind` on `from` reaches.
    fn attacks_of(&self, kind: PieceKind, from: usize) -> (bb: u64)
        requires
            from < 64,
            kind != PieceKind::Pawn,
        ensures
            forall|t: int| 0 <= t < 64 ==> #[trigger] bit(bb, t) == self.reach(kind, from as int, t),
    {
        match kind {
            PieceKind::Knight => knight_attacks_from(from),
            PieceKind::King => king_attacks_from(from),
            PieceKind::Bishop => get_bishop_attacks(from, self.all_pieces),
            PieceKind::Rook => get_rook_attacks(from, self.all_pieces),
            _ => {
                let a = get_bishop_attacks(from, self.all_pieces);
                let b = get_rook_attacks(from, self.all_pieces);
                proof {
                    lemma_bit_or(a, b);
                }
                a | b
            },
        }
    }

    /// The target filter of a generator mode: not our piece (all), an enemy piece
    /// (tactical) or an empty square (quiet).
    fn target_filter(&self, mode: u8) -> (f: u64)
        requires
            self.bb_wf(),
            mode < 3,
        ensures
            forall|t: int|
                0 <= t < 64 ==> #[trigger] bit(f, t) == (not_color(self, t, self.turn) && if mode
                    == 1 {
                    self.occupied(t)
                } else if mode == 2 {
                    !self.occupied(t)
                } else {
                    true
                }),
    {
        proof {
            self.lemma_occupied();
            lemma_bit_not(self.w_pieces);
            lemma_bit_not(self.b_pieces);
            lemma_bit_not(self.all_pieces);
        }
        let white = self.turn == Color::White;
        if mode == 0 {
            if white {
                !self.w_pieces
            } else {
                !self.b_pieces
            }
        } else if mode == 1 {
            if white {
                self.b_pieces
            } else {
                self.w_pieces
            }
        } else {
            !self.all_pieces
        }
    }

    /// Appends the moves of every piece of kind `kind` (not the king) that `mode` keeps.
    fn gen_piece_kind(&self, out: &mut MoveList, kind: PieceKind, mode: u8)
        requires
            self.wf(),
            kind != PieceKind::Pawn,
            kind != PieceKind::King,
            mode < 3,
        ensures
            final(out)@.len() >= old(out)@.len(),
            final(out)@.subrange(0, old(out)@.len() as int) == old(out)@,
            forall|j: int|
                old(out)@.len() <= j < final(out)@.len() ==> self.piece_move(kind, #[trigger] final(out)@[j])
                    && mode_keeps(mode, final(out)@[j]),
            forall|m: Move|
                self.piece_move(kind, m) && mode_keeps(mode, m) ==> exists|j: int|
                    old(out)@.len() <= j < final(out)@.len() && #[trigger] final(out)@[j] == m,
            distinct(final(out)@.subrange(old(out)@.len() as int, final(out)@.len() as int)),
    {
        let ghost start = out@.len();
        let ghost init = out@;
        let filter = self.target_filter(mode);
        let capmask = self.all_pieces;
        proof {
            self.lemma_occupied();
        }
        let piece = Piece::from_kind(kind, self.turn);
        let froms = bb_squares(self.piece_bb[piece.index()]);
        proof {
            assert forall|m: Move|
                self.piece_move(kind, m) && mode_keeps(mode, m) && (0 < froms.len() ==> m.from
                    < froms[0]) implies exists|j: int| start <= j < out@.len() && #[trigger] out@[j] == m by {
                assert(bit(self.piece_bb[piece.spec_index() as int], m.from as int));
                let i = choose|i: int| 0 <= i < froms.len() && #[trigger] froms[i] == m.from;
                if i > 0 {
                    assert(froms[0] < froms[i]);
                }
            }
        }
        let mut k: usize = 0;
        while k < froms.len()
            invariant
                self.wf(),
                kind != PieceKind::Pawn,
                kind != PieceKind::King,
                mode < 3,
                piece == Piece::spec_from_kind(kind, self.turn),
                capmask == self.all_pieces,
                forall|t: int| 0 <= t < 64 ==> #[trigger] bit(capmask, t) == self.occupied(t),
                forall|t: int|
                    0 <= t < 64 ==> #[trigger] bit(filter, t) == (not_color(self, t, self.turn)
                        && if mode == 1 {
                        self.occupied(t)
                    } else if mode == 2 {
                        !self.occupied(t)
                    } else {
                        true
                    }),
                k <= froms.len(),
                start == init.len(),
                out@.len() >= start,
                out@.subrange(0, start as int) == init,
                forall|i: int| 0 <= i < froms.len() ==> #[trigger] froms[i] < 64 && bit(
                    self.piece_bb[piece.spec_index() as int],
                    froms[i] as int,
                ),
                forall|s: int|
                    0 <= s < 64 && bit(self.piece_bb[piece.spec_index() as int], s) ==> exists|i: int|
                        0 <= i < froms.len() && #[trigger] froms[i] == s,
                forall|i: int, j: int| 0 <= i < j < froms.len() ==> #[trigger] froms[i] < #[trigger] froms[j],
                forall|j: int|
                    start <= j < out@.len() ==> self.piece_move(kind, #[trigger] out@[j]) && mode_keeps(
                        mode,
                        out@[j],
                    ) && (k < froms.len() ==> out@[j].from < froms[k as int]),
                forall|m: Move|
                    self.piece_move(kind, m) && mode_keeps(mode, m) && (k < froms.len() ==> m.from
                        < froms[k as int]) ==> exists|j: int| start <= j < out@.len() && #[trigger] out@[j] == m,
                distinct(out@.subrange(start as int, out@.len() as int)),
            decreases froms.len() - k,
        {
            let from = froms[k];
            let att = self.attacks_of(kind, from as usize);
            let targets = att & filter;
            proof {
                lemma_bit_and(att, filter);
            }
            let ghost mid = out@;
            push_targets(out, from, targets, capmask);
            let ghost after = out@;
            proof {
                assert(bit(self.piece_bb[piece.spec_index() as int], from as int));
                assert(self.piece_on[from as int] == piece);
                assert forall|j: int| start <= j < after.len() implies self.piece_move(
                    kind,
                    #[trigger] after[j],
                ) && mode_keeps(mode, after[j]) && (k + 1 < froms.len() ==> after[j].from < froms[k + 1]) by {
                    if j < mid.len() {
                        assert(after[j] == mid[j]);
                    } else {
                        let t = after[j].to as int;
                        assert(bit(targets, t));
                        assert(bit(att, t) && bit(filter, t));
                    }
                }
                assert forall|m: Move|
                    self.piece_move(kind, m) && mode_keeps(mode, m) && (k + 1 < froms.len() ==> m.from
                        < froms[k + 1]) implies exists|j: int| start <= j < after.len() && #[trigger] after[j] == m by {
                    if k < froms.len() && m.from < froms[k as int] {
                        let j = choose|j: int| start <= j < mid.len() && #[trigger] mid[j] == m;
                        assert(after[j] == mid[j]);
                    } else {
                        assert(bit(self.piece_bb[piece.spec_index() as int], m.from as int));
                        let i = choose|i: int| 0 <= i < froms.len() && #[trigger] froms[i] == m.from;
                        assert(i == k);
                        let t = m.to as int;
                        assert(bit(att, t));
                        assert(bit(filter, t));
                        assert(bit(targets, t));
                        let j = choose|j: int| mid.len() <= j < after.len() && (#[trigger] after[j]).to == t;
                        assert(after[j] == m);
                    }
                }
                assert forall|a: int, b: int|
                    0 <= a < after.len() - start && 0 <= b < after.len() - start && a != b implies after.subrange(
                    start as int,
                    after.len() as int,
                )[a] != after.subrange(start as int, after.len() as int)[b] by {
                    let ia = start + a;
                    let ib = start + b;
                    if ia < mid.len() && ib < mid.len() {
                        assert(mid.subrange(start as int, mid.len() as int)[a] == after[ia]);
                        assert(mid.subrange(start as int, mid.len() as int)[b] == after[ib]);
                    } else if ia >= mid.len() && ib >= mid.len() {
                        assert(after.subrange(mid.len() as int, after.len() as int)[ia - mid.len()] == after[ia]);
                        assert(after.subrange(mid.len() as int, after.len() as int)[ib - mid.len()] == after[ib]);
                    } else if ia < mid.len() {
                        assert(after[ia] == mid[ia]);
                        assert(mid[ia].from < froms[k as int]);
                        assert(after[ia].from < from);
                    } else {
                        assert(after[ib] == mid[ib]);
                        assert(mid[ib].from < froms[k as int]);
                        assert(after[ib].from < from);
                    }
                }
            }
            k = k + 1;
        }
    }
}


impl Board {
    /// The first king square of the side to move, if it has a king.
    pub fn first_king_sq(&self) -> (r: Option<usize>)
        requires
            self.bb_wf(),
        ensures
            r matches Some(k) ==> self.first_king(k as int),
            r is None ==> forall|k: int| !#[trigger] self.first_king(k),
    {
        let kp = Piece::from_kind(PieceKind::King, self.turn);
        let kb = self.piece_bb[kp.index()];
        if kb == 0 {
            proof {
                crate::bits::lemma_bit_zero();
                assert forall|k: int| !#[trigger] self.first_king(k) by {
                    if 0 <= k < 64 {
                        assert(!bit(kb, k));
                    }
                }
            }
            None
        } else {
            let t = kb.trailing_zeros();
            proof {
                vstd::std_specs::bits::axiom_u64_trailing_zeros(kb);
                let tt = t as u64;
                assert(bit(kb, tt as int));
                assert forall|u: int| 0 <= u < t implies self.piece_on[u] != kp by {
                    let uu = u as u64;
                    assert((kb >> uu) & 1u64 == 0u64);
                    assert(!bit(kb, u));
                }
            }
            Some(t as usize)
        }
    }

    /// A king move or castle of the side to move.
    pub open spec fn king_or_castle(&self, m: Move) -> bool {
        self.piece_move(PieceKind::King, m) || self.castle_move(m)
    }

    /// Appends the moves of the first king, and in modes 0 and 2 its castles.
    fn gen_king(&self, out: &mut MoveList, mode: u8)
        requires
            self.wf(),
            mode < 3,
        ensures
            final(out)@.len() >= old(out)@.len(),
            final(out)@.subrange(0, old(out)@.len() as int) == old(out)@,
            forall|j: int|
                old(out)@.len() <= j < final(out)@.len() ==> self.king_or_castle(#[trigger] final(out)@[j])
                    && mode_keeps(mode, final(out)@[j]),
            forall|m: Move|
                self.king_or_castle(m) && mode_keeps(mode, m) ==> exists|j: int|
                    old(out)@.len() <= j < final(out)@.len() && #[trigger] final(out)@[j] == m,
            distinct(final(out)@.subrange(old(out)@.len() as int, final(out)@.len() as int)),
    {
        let ghost start = out@.len();
        let ghost init = out@;
        let kopt = self.first_king_sq();
        let from = match kopt {
            Some(k) => k,
            None => {
                proof {
                    assert forall|m: Move| self.king_or_castle(m) && mode_keeps(mode, m) implies exists|j: int|
                        start <= j < out@.len() && #[trigger] out@[j] == m by {
                        if self.castle_move(m) {
                            let k = choose|k: int| #[trigger] self.first_king(k) && !self.attacked(
                                k,
                                self.turn.spec_other(),
                            );
                        }
                    }
                    assert(out@.subrange(start as int, out@.len() as int) =~= Seq::<Move>::empty());
                }
                return ;
            },
        };
        let filter = self.target_filter(mode);
        let capmask = self.all_pieces;
        proof {
            self.lemma_occupied();
        }
        let att = self.attacks_of(PieceKind::King, from);
        let targets = att & filter;
        proof {
            lemma_bit_and(att, filter);
        }
        push_targets(out, from as u8, targets, capmask);
        let ghost mid = out@;
        proof {
            assert forall|j: int| start <= j < mid.len() implies self.piece_move(
                PieceKind::King,
                #[trigger] mid[j],
            ) && mode_keeps(mode, mid[j]) by {
                let t = mid[j].to as int;
                assert(bit(targets, t));
                assert(bit(att, t) && bit(filter, t));
            }
            assert forall|m: Move| self.piece_move(PieceKind::King, m) && mode_keeps(mode, m) implies exists|j: int|
                start <= j < mid.len() && #[trigger] mid[j] == m by {
                assert(m.from as int == from) by {
                    if (m.from as int) < from {
                        assert(self.piece_on[m.from as int] != Piece::spec_from_kind(PieceKind::King, self.turn));
                    } else if (m.from as int) > from {
                        assert(self.piece_on[from as int] != Piece::spec_from_kind(PieceKind::King, self.turn));
                    }
                }
                let t = m.to as int;
                assert(bit(att, t));
                assert(bit(filter, t));
                assert(bit(targets, t));
                let j = choose|j: int| start <= j < mid.len() && (#[trigger] mid[j]).to == t;
                assert(mid[j] == m);
            }
        }
        if mode == 1 {
            proof {
                assert forall|m: Move| self.king_or_castle(m) && mode_keeps(mode, m) implies exists|j: int|
                    start <= j < out@.len() && #[trigger] out@[j] == m by {
                    if self.castle_move(m) {
                        assert(!tactical(m));
                    }
                }
            }
            return ;
        }
        if self.is_square_attacked(from as i32, self.turn.other()) {
            proof {
                assert forall|m: Move| self.king_or_castle(m) && mode_keeps(mode, m) implies exists|j: int|
                    start <= j < out@.len() && #[trigger] out@[j] == m by {
                    if self.castle_move(m) {
                        let k = choose|k: int| #[trigger] self.first_king(k) && !self.attacked(
                            k,
                            self.turn.spec_other(),
                        );
                        assert(k == from as int) by {
                            if k < from {
                                assert(self.piece_on[k] != Piece::spec_from_kind(PieceKind::King, self.turn));
                            } else if k > from {
                                assert(self.piece_on[from as int] != Piece::spec_from_kind(
                                    PieceKind::King,
                                    self.turn,
                                ));
                            }
                        }
                    }
                }
            }
            return ;
        }
        let white = self.turn == Color::White;
        let home: u8 = if white {
            4
        } else {
            60
        };
        let t1: u8 = if white {
            6
        } else {
            62
        };
        let t2: u8 = if white {
            2
        } else {
            58
        };
        let ok1 = self.castle_path_allowed(t1 as usize);
        if ok1 {
            out.push(
                Move {
                    from: home,
                    to: t1,
                    capture: false,
                    en_passant: false,
                    double_push: false,
                    castle: true,
                    promotion: None,
                },
            );
        }
        let ghost mid2 = out@;
        let ok2 = self.castle_path_allowed(t2 as usize);
        if ok2 {
            out.push(
                Move {
                    from: home,
                    to: t2,
                    capture: false,
                    en_passant: false,
                    double_push: false,
                    castle: true,
                    promotion: None,
                },
            );
        }
        proof {
            let fin = out@;
            assert(self.first_king(from as int));
            assert forall|j: int| start <= j < fin.len() implies self.king_or_castle(#[trigger] fin[j])
                && mode_keeps(mode, fin[j]) by {
                if j < mid.len() {
                    assert(fin[j] == mid[j]);
                } else {
                    assert(self.castle_move(fin[j]));
                }
            }
            assert forall|m: Move| self.king_or_castle(m) && mode_keeps(mode, m) implies exists|j: int|
                start <= j < fin.len() && #[trigger] fin[j] == m by {
                if self.piece_move(PieceKind::King, m) {
                    let j = choose|j: int| start <= j < mid.len() && #[trigger] mid[j] == m;
                    assert(fin[j] == mid[j]);
                } else {
                    assert(self.castle_path_ok(m.to as int));
                    if m.to == t1 {
                        assert(fin[mid.len() as int] == m);
                    } else {
                        assert(m.to == t2);
                        assert(fin[mid2.len() as int] == m);
                    }
                }
            }
            assert forall|a: int, b: int|
                0 <= a < fin.len() - start && 0 <= b < fin.len() - start && a != b implies fin.subrange(
                start as int,
                fin.len() as int,
            )[a] != fin.subrange(start as int, fin.len() as int)[b] by {
                let ia = start + a;
                let ib = start + b;
                if ia < mid.len() && ib < mid.len() {
                    assert(mid.subrange(start as int, mid.len() as int)[a] == fin[ia]);
                    assert(mid.subrange(start as int, mid.len() as int)[b] == fin[ib]);
                } else if ia < mid.len() {
                    assert(!fin[ia].castle && fin[ib].castle);
                } else if ib < mid.len() {
                    assert(fin[ia].castle && !fin[ib].castle);
                } else {
                    assert(fin[ia].to != fin[ib].to);
                }
            }
        }
    }
}


/// A pawn move from `from` to `to` with the given capture flag and promotion.
pub open spec fn pawn_mv(from: u8, to: u8, capture: bool, promotion: Option<PieceKind>) -> Move {
    Move {
        from,
        to,
        capture,
        en_passant: false,
        double_push: false,
        castle: false,
        promotion,
    }
}

/// Appends the four promotions (queen, rook, bishop, knight) of a pawn move.
fn push_promos(out: &mut MoveList, from: u8, to: u8, capture: bool)
    ensures
        final(out)@ == old(out)@.push(pawn_mv(from, to, capture, Some(PieceKind::Queen))).push(
            pawn_mv(from, to, capture, Some(PieceKind::Rook)),
        ).push(pawn_mv(from, to, capture, Some(PieceKind::Bishop))).push(
            pawn_mv(from, to, capture, Some(PieceKind::Knight)),
        ),
{
    out.push(
        Move {
            from,
            to,
            capture,
            en_passant: false,
            double_push: false,
            castle: false,
            promotion: Some(PieceKind::Queen),
        },
    );
    out.push(
        Move {
            from,
            to,
            capture,
            en_passant: false,
            double_push: false,
            castle: false,
            promotion: Some(PieceKind::Rook),
        },
    );
    out.push(
        Move {
            from,
            to,
            capture,
            en_passant: false,
            double_push: false,
            castle: false,
            promotion: Some(PieceKind::Bishop),
        },
    );
    out.push(
        Move {
            from,
            to,
            capture,
            en_passant: false,
            double_push: false,
            castle: false,
            promotion: Some(PieceKind::Knight),
        },
    );
}

impl Board {
    /// The pawn moves from `from` that `mode` keeps, in a given case.
    pub open spec fn pawn_from(&self, from: int, mode: u8, m: Move) -> bool {
        m.from as int == from && self.pawn_move(m) && mode_keeps(mode, m)
    }

    /// Appends the pushes (and promotions by push) of the pawn on `from`.
    fn pawn_pushes(&self, out: &mut MoveList, from: u8, mode: u8)
        requires
            self.wf(),
            from < 64,
            mode < 3,
            self.piece_on[from as int] == Piece::spec_from_kind(PieceKind::Pawn, self.turn),
        ensures
            final(out)@.len() >= old(out)@.len(),
            final(out)@.subrange(0, old(out)@.len() as int) == old(out)@,
            forall|j: int|
                old(out)@.len() <= j < final(out)@.len() ==> self.pawn_from(from as int, mode, #[trigger] final(out)@[j])
                    && (self.pawn_push(final(out)@[j]) || self.pawn_double(final(out)@[j])),
            forall|m: Move|
                self.pawn_from(from as int, mode, m) && (self.pawn_push(m) || self.pawn_double(m))
                    ==> exists|j: int| old(out)@.len() <= j < final(out)@.len() && #[trigger] final(out)@[j] == m,
            distinct(final(out)@.subrange(old(out)@.len() as int, final(out)@.len() as int)),
            promo_runs(old(out)@) ==> promo_runs(final(out)@),
    {
        let ghost start: int = out@.len() as int;
        let ghost init = out@;
        let white = self.turn == Color::White;
        let dir: i32 = if white {
            8
        } else {
            -8
        };
        let start_rank: i32 = if white {
            1
        } else {
            6
        };
        let promo_rank: i32 = if white {
            6
        } else {
            1
        };
        let from_i = from as i32;
        let r = from_i / 8;
        let to = from_i + dir;
        if 0 <= to && to < 64 && self.empty_sq(to as u64) {
            if r == promo_rank {
                if mode != 2 {
                    push_promos(out, from, to as u8, false);
                    proof {
                        assert(promo_runs(init) ==> promo_runs(out@)) by {
                            if promo_runs(init) {
                                lemma_runs_push_promos(init, from, to as u8, false);
                            }
                        }
                        let fin = out@;
                        assert forall|m: Move|
                            self.pawn_from(from as int, mode, m) && (self.pawn_push(m) || self.pawn_double(
                                m,
                            )) implies exists|j: int| start <= j < fin.len() && #[trigger] fin[j] == m by {
                            let pk = m.promotion.unwrap();
                            if pk == PieceKind::Queen {
                                assert(fin[start as int] == m);
                            } else if pk == PieceKind::Rook {
                                assert(fin[start + 1] == m);
                            } else if pk == PieceKind::Bishop {
                                assert(fin[start + 2] == m);
                            } else {
                                assert(fin[start + 3] == m);
                            }
                        }
                        assert forall|a: int, b: int|
                            0 <= a < fin.len() - start && 0 <= b < fin.len() - start && a != b implies fin.subrange(
                            start as int,
                            fin.len() as int,
                        )[a] != fin.subrange(start as int, fin.len() as int)[b] by {
                            assert(fin[start + a].promotion != fin[start + b].promotion);
                        }
                    }
                } else {
                    proof {
                        assert(out@.subrange(start as int, out@.len() as int) =~= Seq::<Move>::empty());
                    }
                }
            } else if mode != 1 {
                out.push(Move::quiet(from, to as u8));
                let ghost mid = out@;
                let mut pushed_double = false;
                if r == start_rank {
                    let to2 = from_i + 2 * dir;
                    if self.empty_sq(to2 as u64) {
                        out.push(
                            Move {
                                from,
                                to: to2 as u8,
                                capture: false,
                                en_passant: false,
                                double_push: true,
                                castle: false,
                                promotion: None,
                            },
                        );
                        pushed_double = true;
                    }
                }
                proof {
                    let fin = out@;
                    assert(promo_runs(init) ==> promo_runs(fin)) by {
                        if promo_runs(init) {
                            assert forall|j: int| init.len() <= j < fin.len() implies (#[trigger] fin[j]).promotion
                                != Some(PieceKind::Queen) by {
                                if j > start {
                                    assert(fin[j] == fin[start + 1]);
                                }
                            }
                            assert(fin.subrange(0, init.len() as int) =~= init);
                            lemma_runs_extend_plain(init, fin);
                        }
                    }
                    assert forall|m: Move|
                        self.pawn_from(from as int, mode, m) && (self.pawn_push(m) || self.pawn_double(
                            m,
                        )) implies exists|j: int| start <= j < fin.len() && #[trigger] fin[j] == m by {
                        if self.pawn_push(m) {
                            assert(fin[start as int] == m);
                        } else {
                            assert(fin[start + 1] == m);
                        }
                    }
                    assert forall|a: int, b: int|
                        0 <= a < fin.len() - start && 0 <= b < fin.len() - start && a != b implies fin.subrange(
                        start as int,
                        fin.len() as int,
                    )[a] != fin.subrange(start as int, fin.len() as int)[b] by {
                        assert(fin[start + a].double_push != fin[start + b].double_push);
                    }
                }
            } else {
                proof {
                    assert(out@.subrange(start as int, out@.len() as int) =~= Seq::<Move>::empty());
                }
            }
        } else {
            proof {
                assert(out@.subrange(start as int, out@.len() as int) =~= Seq::<Move>::empty());
            }
        }
    }
}


impl Board {
    /// Appends the captures (with promotions) and the en-passant capture of the
    /// pawn on `from` toward file offset `df`.
    #[verifier::rlimit(40)]
    #[verifier::spinoff_prover]
    fn pawn_captures_dir(&self, out: &mut MoveList, from: u8, df: i32)
        requires
            self.wf(),
            from < 64,
            df == -1 || df == 1,
            self.piece_on[from as int] == Piece::spec_from_kind(PieceKind::Pawn, self.turn),
        ensures
            final(out)@.len() >= old(out)@.len(),
            final(out)@.subrange(0, old(out)@.len() as int) == old(out)@,
            forall|j: int|
                old(out)@.len() <= j < final(out)@.len() ==> self.pawn_from(from as int, 1, #[trigger] final(out)@[j])
                    && (self.pawn_capture(final(out)@[j]) || self.pawn_ep(final(out)@[j])) && final(out)@[j].to
                    == from + self.pawn_dir() + df,
            forall|m: Move|
                self.pawn_from(from as int, 1, m) && (self.pawn_capture(m) || self.pawn_ep(m)) && m.to
                    == from + self.pawn_dir() + df ==> exists|j: int|
                    old(out)@.len() <= j < final(out)@.len() && #[trigger] final(out)@[j] == m,
            distinct(final(out)@.subrange(old(out)@.len() as int, final(out)@.len() as int)),
            promo_runs(old(out)@) ==> promo_runs(final(out)@),
    {
        let ghost init = out@;
        let ghost start: int = out@.len() as int;
        let white = self.turn == Color::White;
        let dir: i32 = if white {
            8
        } else {
            -8
        };
        let promo_rank: i32 = if white {
            6
        } else {
            1
        };
        let from_i = from as i32;
        let r = from_i / 8;
        let f = from_i % 8;
        let cap = from_i + dir + df;
        if (df == -1 && f == 0) || (df == 1 && f == 7) || !(0 <= cap && cap < 64) {
            proof {
                assert(out@.subrange(start, out@.len() as int) =~= Seq::<Move>::empty());
            }
            return ;
        }
        let enemy = if white {
            self.b_pieces
        } else {
            self.w_pieces
        };
        let is_enemy = (enemy >> (cap as u64)) & 1u64 == 1u64;
        proof {
            assert(is_enemy == bit(enemy, cap as int));
            assert(is_enemy == (self.occupied(cap as int) && not_color(self, cap as int, self.turn)));
        }
        if is_enemy {
            if r == promo_rank {
                push_promos(out, from, cap as u8, true);
                proof {
                    if promo_runs(init) {
                        lemma_runs_push_promos(init, from, cap as u8, true);
                    }
                }
            } else {
                out.push(
                    Move {
                        from,
                        to: cap as u8,
                        capture: true,
                        en_passant: false,
                        double_push: false,
                        castle: false,
                        promotion: None,
                    },
                );
            }
        }
        let ghost mid = out@;
        proof {
            if promo_runs(init) && !promo_runs(mid) {
                assert forall|j: int| init.len() <= j < mid.len() implies (#[trigger] mid[j]).promotion
                    != Some(PieceKind::Queen) by {}
                assert(mid.subrange(0, init.len() as int) =~= init);
                lemma_runs_extend_plain(init, mid);
            }
        }
        if self.en_passant_sq == cap {
            out.push(
                Move {
                    from,
                    to: cap as u8,
                    capture: true,
                    en_passant: true,
                    double_push: false,
                    castle: false,
                    promotion: None,
                },
            );
        }
        proof {
            let fin = out@;
            if promo_runs(mid) {
                assert forall|j: int| mid.len() <= j < fin.len() implies (#[trigger] fin[j]).promotion
                    != Some(PieceKind::Queen) by {}
                assert(fin.subrange(0, mid.len() as int) =~= mid);
                lemma_runs_extend_plain(mid, fin);
            }
            assert forall|j: int| start <= j < fin.len() implies self.pawn_from(from as int, 1, #[trigger] fin[j])
                && (self.pawn_capture(fin[j]) || self.pawn_ep(fin[j])) && fin[j].to == from
                + self.pawn_dir() + df by {
                if j < mid.len() {
                    assert(fin[j] == mid[j]);
                }
            }
            assert forall|m: Move|
                self.pawn_from(from as int, 1, m) && (self.pawn_capture(m) || self.pawn_ep(m)) && m.to
                    == from + self.pawn_dir() + df implies exists|j: int| start <= j < fin.len() && #[trigger] fin[j]
                == m by {
                if self.pawn_ep(m) {
                    assert(fin[mid.len() as int] == m);
                } else if m.promotion.is_none() {
                    assert(fin[start] == m);
                } else {
                    let pk = m.promotion.unwrap();
                    if pk == PieceKind::Queen {
                        assert(fin[start] == m);
                    } else if pk == PieceKind::Rook {
                        assert(fin[start + 1] == m);
                    } else if pk == PieceKind::Bishop {
                        assert(fin[start + 2] == m);
                    } else {
                        assert(fin[start + 3] == m);
                    }
                }
            }
            assert forall|a: int, b: int|
                0 <= a < fin.len() - start && 0 <= b < fin.len() - start && a != b implies fin.subrange(
                start,
                fin.len() as int,
            )[a] != fin.subrange(start, fin.len() as int)[b] by {
                let ia = start + a;
                let ib = start + b;
                if ia < mid.len() && ib < mid.len() {
                    assert(fin[ia].promotion != fin[ib].promotion);
                } else {
                    assert(fin[ia].en_passant != fin[ib].en_passant);
                }
            }
        }
    }

    /// Appends the pawn moves from `from` that `mode` keeps.
    fn pawn_moves_from(&self, out: &mut MoveList, from: u8, mode: u8)
        requires
            self.wf(),
            from < 64,
            mode < 3,
            self.piece_on[from as int] == Piece::spec_from_kind(PieceKind::Pawn, self.turn),
        ensures
            final(out)@.len() >= old(out)@.len(),
            final(out)@.subrange(0, old(out)@.len() as int) == old(out)@,
            forall|j: int|
                old(out)@.len() <= j < final(out)@.len() ==> self.pawn_from(from as int, mode, #[trigger] final(out)@[j]),
            forall|m: Move|
                self.pawn_from(from as int, mode, m) ==> exists|j: int|
                    old(out)@.len() <= j < final(out)@.len() && #[trigger] final(out)@[j] == m,
            distinct(final(out)@.subrange(old(out)@.len() as int, final(out)@.len() as int)),
            promo_runs(old(out)@) ==> promo_runs(final(out)@),
    {
        let ghost start: int = out@.len() as int;
        self.pawn_pushes(out, from, mode);
        if mode == 2 {
            proof {
                assert forall|m: Move| self.pawn_from(from as int, mode, m) implies exists|j: int|
                    start <= j < out@.len() && #[trigger] out@[j] == m by {
                    assert(!self.pawn_capture(m) && !self.pawn_ep(m));
                }
            }
            return ;
        }
        let ghost m1 = out@;
        self.pawn_captures_dir(out, from, -1);
        let ghost m2 = out@;
        self.pawn_captures_dir(out, from, 1);
        proof {
            let fin = out@;
            assert forall|j: int| start <= j < fin.len() implies self.pawn_from(from as int, mode, #[trigger] fin[j]) by {
                if j < m1.len() {
                    assert(fin[j] == m1[j]);
                } else if j < m2.len() {
                    assert(fin[j] == m2[j]);
                }
            }
            assert forall|m: Move| self.pawn_from(from as int, mode, m) implies exists|j: int|
                start <= j < fin.len() && #[trigger] fin[j] == m by {
                if self.pawn_push(m) || self.pawn_double(m) {
                    let j = choose|j: int| start <= j < m1.len() && #[trigger] m1[j] == m;
                    assert(fin[j] == m1[j]);
                } else if m.to == from + self.pawn_dir() - 1 {
                    assert(self.pawn_from(from as int, 1, m));
                    let j = choose|j: int| m1.len() <= j < m2.len() && #[trigger] m2[j] == m;
                    assert(fin[j] == m2[j]);
                } else {
                    assert(self.pawn_from(from as int, 1, m));
                }
            }
            assert forall|a: int, b: int|
                0 <= a < fin.len() - start && 0 <= b < fin.len() - start && a != b implies fin.subrange(
                start,
                fin.len() as int,
            )[a] != fin.subrange(start, fin.len() as int)[b] by {
                let ia = start + a;
                let ib = start + b;
                if ia < m1.len() && ib < m1.len() {
                    assert(m1.subrange(start, m1.len() as int)[a] == fin[ia]);
                    assert(m1.subrange(start, m1.len() as int)[b] == fin[ib]);
                } else if ia >= m1.len() && ib >= m1.len() && ia < m2.len() && ib < m2.len() {
                    assert(m2.subrange(m1.len() as int, m2.len() as int)[ia - m1.len()] == fin[ia]);
                    assert(m2.subrange(m1.len() as int, m2.len() as int)[ib - m1.len()] == fin[ib]);
                } else if ia >= m2.len() && ib >= m2.len() {
                    assert(fin.subrange(m2.len() as int, fin.len() as int)[ia - m2.len()] == fin[ia]);
                    assert(fin.subrange(m2.len() as int, fin.len() as int)[ib - m2.len()] == fin[ib]);
                } else if ia < m1.len() || ib < m1.len() {
                    assert(fin[ia].capture != fin[ib].capture) by {
                        if ia < m1.len() {
                            assert(fin[ia] == m1[ia]);
                        } else {
                            assert(fin[ib] == m1[ib]);
                        }
                        if ia >= m1.len() && ia < m2.len() {
                            assert(fin[ia] == m2[ia]);
                        }
                        if ib >= m1.len() && ib < m2.len() {
                            assert(fin[ib] == m2[ib]);
                        }
                    }
                } else {
                    assert(fin[ia].to != fin[ib].to) by {
                        if ia < m2.len() {
                            assert(fin[ia] == m2[ia]);
                        } else {
                            assert(fin[ib] == m2[ib]);
                        }
                    }
                }
            }
        }
    }
}


/// Two lists without repeats whose members satisfy exclusive predicates join
/// into a list without repeats.
proof fn lemma_distinct_join(
    s: Seq<Move>,
    start: int,
    mid: int,
    end: int,
    p: spec_fn(Move) -> bool,
    q: spec_fn(Move) -> bool,
)
    requires
        0 <= start <= mid <= end <= s.len(),
        distinct(s.subrange(start, mid)),
        distinct(s.subrange(mid, end)),
        forall|i: int| start <= i < mid ==> p(#[trigger] s[i]),
        forall|i: int| mid <= i < end ==> q(#[trigger] s[i]),
        forall|m: Move| !(#[trigger] p(m) && q(m)),
    ensures
        distinct(s.subrange(start, end)),
{
    assert forall|a: int, b: int|
        0 <= a < end - start && 0 <= b < end - start && a != b implies s.subrange(start, end)[a]
        != s.subrange(start, end)[b] by {
        let ia = start + a;
        let ib = start + b;
        if ia < mid && ib < mid {
            assert(s.subrange(start, mid)[a] == s[ia]);
            assert(s.subrange(start, mid)[b] == s[ib]);
        } else if ia >= mid && ib >= mid {
            assert(s.subrange(mid, end)[ia - mid] == s[ia]);
            assert(s.subrange(mid, end)[ib - mid] == s[ib]);
        } else if ia < mid {
            assert(p(s[ia]) && q(s[ib]));
        } else {
            assert(q(s[ia]) && p(s[ib]));
        }
    }
}

impl Board {
    /// Appends the pawn moves that `mode` keeps, pawn by pawn in ascending order of square.
    fn gen_pawns(&self, out: &mut MoveList, mode: u8)
        requires
            self.wf(),
            mode < 3,
        ensures
            final(out)@.len() >= old(out)@.len(),
            final(out)@.subrange(0, old(out)@.len() as int) == old(out)@,
            forall|j: int|
                old(out)@.len() <= j < final(out)@.len() ==> self.pawn_move(#[trigger] final(out)@[j])
                    && mode_keeps(mode, final(out)@[j]),
            forall|m: Move|
                self.pawn_move(m) && mode_keeps(mode, m) ==> exists|j: int|
                    old(out)@.len() <= j < final(out)@.len() && #[trigger] final(out)@[j] == m,
            distinct(final(out)@.subrange(old(out)@.len() as int, final(out)@.len() as int)),
            promo_runs(old(out)@) ==> promo_runs(final(out)@),
    {
        let ghost start: int = out@.len() as int;
        let ghost init = out@;
        let piece = Piece::from_kind(PieceKind::Pawn, self.turn);
        let froms = bb_squares(self.piece_bb[piece.index()]);
        proof {
            assert forall|m: Move|
                self.pawn_move(m) && mode_keeps(mode, m) && (0 < froms.len() ==> m.from < froms[0])
                    implies exists|j: int| start <= j < out@.len() && #[trigger] out@[j] == m by {
                assert(bit(self.piece_bb[piece.spec_index() as int], m.from as int));
                let i = choose|i: int| 0 <= i < froms.len() && #[trigger] froms[i] == m.from;
                if i > 0 {
                    assert(froms[0] < froms[i]);
                }
            }
        }
        let mut k: usize = 0;
        while k < froms.len()
            invariant
                self.wf(),
                mode < 3,
                piece == Piece::spec_from_kind(PieceKind::Pawn, self.turn),
                k <= froms.len(),
                start == init.len(),
                out@.len() >= start,
                out@.subrange(0, start) == init,
                forall|i: int| 0 <= i < froms.len() ==> #[trigger] froms[i] < 64 && bit(
                    self.piece_bb[piece.spec_index() as int],
                    froms[i] as int,
                ),
                forall|s: int|
                    0 <= s < 64 && bit(self.piece_bb[piece.spec_index() as int], s) ==> exists|i: int|
                        0 <= i < froms.len() && #[trigger] froms[i] == s,
                forall|i: int, j: int| 0 <= i < j < froms.len() ==> #[trigger] froms[i] < #[trigger] froms[j],
                forall|j: int|
                    start <= j < out@.len() ==> self.pawn_move(#[trigger] out@[j]) && mode_keeps(
                        mode,
                        out@[j],
                    ) && (k < froms.len() ==> out@[j].from < froms[k as int]),
                forall|m: Move|
                    self.pawn_move(m) && mode_keeps(mode, m) && (k < froms.len() ==> m.from < froms[k as int])
                        ==> exists|j: int| start <= j < out@.len() && #[trigger] out@[j] == m,
                distinct(out@.subrange(start, out@.len() as int)),
                promo_runs(init) ==> promo_runs(out@),
            decreases froms.len() - k,
        {
            let from = froms[k];
            let ghost mid = out@;
            proof {
                assert(bit(self.piece_bb[piece.spec_index() as int], from as int));
            }
            self.pawn_moves_from(out, from, mode);
            let ghost after = out@;
            proof {
                assert forall|j: int| start <= j < after.len() implies self.pawn_move(#[trigger] after[j])
                    && mode_keeps(mode, after[j]) && (k + 1 < froms.len() ==> after[j].from < froms[k
                    + 1]) by {
                    if j < mid.len() {
                        assert(after[j] == mid[j]);
                    }
                }
                assert forall|m: Move|
                    self.pawn_move(m) && mode_keeps(mode, m) && (k + 1 < froms.len() ==> m.from < froms[k
                        + 1]) implies exists|j: int| start <= j < after.len() && #[trigger] after[j] == m by {
                    if k < froms.len() && m.from < froms[k as int] {
                        let j = choose|j: int| start <= j < mid.len() && #[trigger] mid[j] == m;
                        assert(after[j] == mid[j]);
                    } else {
                        assert(bit(self.piece_bb[piece.spec_index() as int], m.from as int));
                        let i = choose|i: int| 0 <= i < froms.len() && #[trigger] froms[i] == m.from;
                        assert(i == k);
                        assert(self.pawn_from(from as int, mode, m));
                    }
                }
                let fr = from;
                let p = |mm: Move| mm.from < fr;
                let q = |mm: Move| mm.from == fr;
                assert forall|i: int| start <= i < mid.len() implies p(#[trigger] after[i]) by {
                    assert(after[i] == mid[i]);
                }
                assert(after.subrange(start, mid.len() as int) =~= mid.subrange(start, mid.len() as int));
                lemma_distinct_join(after, start, mid.len() as int, after.len() as int, p, q);
            }
            k = k + 1;
        }
    }
}


impl Board {
    /// Appends every generated move that `mode` keeps: pawns, knights, the king
    /// with its castles, bishops, rooks and queens.
    fn gen_all(&self, out: &mut MoveList, mode: u8)
        requires
            self.wf(),
            mode < 3,
        ensures
            final(out)@.len() >= old(out)@.len(),
            final(out)@.subrange(0, old(out)@.len() as int) == old(out)@,
            forall|j: int|
                old(out)@.len() <= j < final(out)@.len() ==> self.gen_move(#[trigger] final(out)@[j])
                    && mode_keeps(mode, final(out)@[j]),
            forall|m: Move|
                self.gen_move(m) && mode_keeps(mode, m) ==> exists|j: int|
                    old(out)@.len() <= j < final(out)@.len() && #[trigger] final(out)@[j] == m,
            distinct(final(out)@.subrange(old(out)@.len() as int, final(out)@.len() as int)),
            promo_runs(old(out)@) ==> promo_runs(final(out)@),
            ranked_from(*self, final(out)@, old(out)@.len() as int),
    {
        let ghost start: int = out@.len() as int;
        let ghost init = out@;
        self.gen_pawns(out, mode);
        let ghost s1 = out@;
        self.gen_piece_kind(out, PieceKind::Knight, mode);
        let ghost s2 = out@;
        self.gen_king(out, mode);
        let ghost s3 = out@;
        self.gen_piece_kind(out, PieceKind::Bishop, mode);
        let ghost s4 = out@;
        self.gen_piece_kind(out, PieceKind::Rook, mode);
        let ghost s5 = out@;
        self.gen_piece_kind(out, PieceKind::Queen, mode);
        proof {
            let fin = out@;
            let l1 = s1.len() as int;
            let l2 = s2.len() as int;
            let l3 = s3.len() as int;
            let l4 = s4.len() as int;
            let l5 = s5.len() as int;
            assert forall|k: int| start <= k < fin.len() implies #[trigger] gen_rank(*self, fin[k]) == (if k < l1 {
                0int
            } else if k < l2 {
                1int
            } else if k < l3 {
                2int
            } else if k < l4 {
                3int
            } else if k < l5 {
                4int
            } else {
                5int
            }) by {
                if k < l1 {
                    assert(s2[k] == s1[k]);
                    assert(s3[k] == s2[k]);
                    assert(s4[k] == s3[k]);
                    assert(s5[k] == s4[k]);
                    assert(fin[k] == s5[k]);
                    assert(self.pawn_move(s1[k]));
                } else if k < l2 {
                    assert(s3[k] == s2[k]);
                    assert(s4[k] == s3[k]);
                    assert(s5[k] == s4[k]);
                    assert(fin[k] == s5[k]);
                    assert(self.piece_move(PieceKind::Knight, s2[k]));
                } else if k < l3 {
                    assert(s4[k] == s3[k]);
                    assert(s5[k] == s4[k]);
                    assert(fin[k] == s5[k]);
                    assert(self.king_or_castle(s3[k]));
                } else if k < l4 {
                    assert(s5[k] == s4[k]);
                    assert(fin[k] == s5[k]);
                    assert(self.piece_move(PieceKind::Bishop, s4[k]));
                } else if k < l5 {
                    assert(fin[k] == s5[k]);
                    assert(self.piece_move(PieceKind::Rook, s5[k]));
                } else {
                    assert(self.piece_move(PieceKind::Queen, fin[k]));
                }
            }
            if promo_runs(init) {
                lemma_runs_extend_plain(s1, s2);
                lemma_runs_extend_plain(s2, s3);
                lemma_runs_extend_plain(s3, s4);
                lemma_runs_extend_plain(s4, s5);
                lemma_runs_extend_plain(s5, fin);
            }
            let l1 = s1.len() as int;
            let l2 = s2.len() as int;
            let l3 = s3.len() as int;
            let l4 = s4.len() as int;
            let l5 = s5.len() as int;
            assert forall|j: int| start <= j < l1 implies fin[j] == s1[j] by {
                assert(s2[j] == s1[j]);
                assert(s3[j] == s2[j]);
                assert(s4[j] == s3[j]);
                assert(s5[j] == s4[j]);
            }
            assert forall|j: int| l1 <= j < l2 implies fin[j] == s2[j] by {
                assert(s3[j] == s2[j]);
                assert(s4[j] == s3[j]);
                assert(s5[j] == s4[j]);
            }
            assert forall|j: int| l2 <= j < l3 implies fin[j] == s3[j] by {
                assert(s4[j] == s3[j]);
                assert(s5[j] == s4[j]);
            }
            assert forall|j: int| l3 <= j < l4 implies fin[j] == s4[j] by {
                assert(s5[j] == s4[j]);
            }
            assert forall|j: int| l4 <= j < l5 implies fin[j] == s5[j] by {
            }
            assert forall|j: int| start <= j < fin.len() implies self.gen_move(#[trigger] fin[j])
                && mode_keeps(mode, fin[j]) by {
                if j < l1 {
                    assert(fin[j] == s1[j]);
                } else if j < l2 {
                    assert(fin[j] == s2[j]);
                } else if j < l3 {
                    assert(fin[j] == s3[j]);
                } else if j < l4 {
                    assert(fin[j] == s4[j]);
                } else if j < l5 {
                    assert(fin[j] == s5[j]);
                }
            }
            assert forall|m: Move| self.gen_move(m) && mode_keeps(mode, m) implies exists|j: int|
                start <= j < fin.len() && #[trigger] fin[j] == m by {
                if self.pawn_move(m) {
                    let j = choose|j: int| start <= j < l1 && #[trigger] s1[j] == m;
                    assert(fin[j] == s1[j]);
                } else if self.piece_move(PieceKind::Knight, m) {
                    let j = choose|j: int| l1 <= j < l2 && #[trigger] s2[j] == m;
                    assert(fin[j] == s2[j]);
                } else if self.king_or_castle(m) {
                    let j = choose|j: int| l2 <= j < l3 && #[trigger] s3[j] == m;
                    assert(fin[j] == s3[j]);
                } else if self.piece_move(PieceKind::Bishop, m) {
                    let j = choose|j: int| l3 <= j < l4 && #[trigger] s4[j] == m;
                    assert(fin[j] == s4[j]);
                } else if self.piece_move(PieceKind::Rook, m) {
                    let j = choose|j: int| l4 <= j < l5 && #[trigger] s5[j] == m;
                    assert(fin[j] == s5[j]);
                } else {
                    assert(self.piece_move(PieceKind::Queen, m));
                }
            }
            let p1 = |m: Move| self.pawn_move(m);
            let q1 = |m: Move| self.piece_move(PieceKind::Knight, m);
            assert(fin.subrange(start, l1) =~= s1.subrange(start, l1));
            assert(fin.subrange(l1, l2) =~= s2.subrange(l1, l2));
            assert(fin.subrange(l2, l3) =~= s3.subrange(l2, l3));
            assert(fin.subrange(l3, l4) =~= s4.subrange(l3, l4));
            assert(fin.subrange(l4, l5) =~= s5.subrange(l4, l5));
            lemma_distinct_join(fin, start, l1, l2, p1, q1);
            let p2 = |m: Move| self.pawn_move(m) || self.piece_move(PieceKind::Knight, m);
            let q2 = |m: Move| self.king_or_castle(m);
            lemma_distinct_join(fin, start, l2, l3, p2, q2);
            let p3 = |m: Move| self.pawn_move(m) || self.piece_move(PieceKind::Knight, m) || self.king_or_castle(m);
            let q3 = |m: Move| self.piece_move(PieceKind::Bishop, m);
            lemma_distinct_join(fin, start, l3, l4, p3, q3);
            let p4 = |m: Move|
                self.pawn_move(m) || self.piece_move(PieceKind::Knight, m) || self.king_or_castle(m)
                    || self.piece_move(PieceKind::Bishop, m);
            let q4 = |m: Move| self.piece_move(PieceKind::Rook, m);
            lemma_distinct_join(fin, start, l4, l5, p4, q4);
            let p5 = |m: Move|
                self.pawn_move(m) || self.piece_move(PieceKind::Knight, m) || self.king_or_castle(m)
                    || self.piece_move(PieceKind::Bishop, m) || self.piece_move(PieceKind::Rook, m);
            let q5 = |m: Move| self.piece_move(PieceKind::Queen, m);
            lemma_distinct_join(fin, start, l5, fin.len() as int, p5, q5);
        }
    }

    /// Fills `out` with every pseudo-legal move that the generator makes, each once:
    /// pawn moves first, then those of the knights, the king (with castles), bishops,
    /// rooks and queens; the promotions of a pawn move come together: queen, rook,
    /// bishop, knight.
    pub fn generate_pseudo_legal_moves(&self, out: &mut MoveList)
        requires
            self.wf(),
        ensures
            forall|i: int| 0 <= i < final(out)@.len() ==> self.gen_move(#[trigger] final(out)@[i]),
            forall|m: Move| self.gen_move(m) ==> final(out)@.contains(m),
            distinct(final(out)@),
            ranked_from(*self, final(out)@, 0),
            promo_runs(final(out)@),
    {
        out.clear();
        proof {
            reveal(promo_runs);
        }
        self.gen_all(out, 0);
        proof {
            assert(out@.subrange(0, out@.len() as int) =~= out@);
        }
    }

    /// Fills `out` with the generated captures and promotions, each once, in the
    /// generator's order of pieces; the promotions of a pawn move come together:
    /// queen, rook, bishop, knight.
    pub fn generate_captures(&self, out: &mut MoveList)
        requires
            self.wf(),
        ensures
            forall|i: int| 0 <= i < final(out)@.len() ==> self.gen_move(#[trigger] final(out)@[i]) && tactical(
                final(out)@[i],
            ),
            forall|m: Move| self.gen_move(m) && tactical(m) ==> final(out)@.contains(m),
            distinct(final(out)@),
            ranked_from(*self, final(out)@, 0),
            promo_runs(final(out)@),
    {
        out.clear();
        proof {
            reveal(promo_runs);
        }
        self.gen_all(out, 1);
        proof {
            assert(out@.subrange(0, out@.len() as int) =~= out@);
        }
    }

    /// Fills `out` with the generated moves that neither capture nor promote, each
    /// once, in the generator's order of pieces.
    pub fn generate_quiets(&self, out: &mut MoveList)
        requires
            self.wf(),
        ensures
            forall|i: int| 0 <= i < final(out)@.len() ==> self.gen_move(#[trigger] final(out)@[i]) && !tactical(
                final(out)@[i],
            ),
            forall|m: Move| self.gen_move(m) && !tactical(m) ==> final(out)@.contains(m),
            distinct(final(out)@),
            ranked_from(*self, final(out)@, 0),
    {
        out.clear();
        self.gen_all(out, 2);
        proof {
            assert(out@.subrange(0, out@.len() as int) =~= out@);
        }
    }
}


/// Lists without repeats that hold the same moves hold them the same number of times.
proof fn lemma_same_members_multiset(s: Seq<Move>, t: Seq<Move>)
    requires
        distinct(s),
        distinct(t),
        forall|m: Move| s.contains(m) <==> t.contains(m),
    ensures
        s.to_multiset() == t.to_multiset(),
{
    broadcast use vstd::multiset::group_multiset_axioms;

    assert(s.no_duplicates());
    assert(t.no_duplicates());
    s.lemma_multiset_has_no_duplicates();
    t.lemma_multiset_has_no_duplicates();
    assert forall|x: Move| s.to_multiset().count(x) == t.to_multiset().count(x) by {
        vstd::seq_lib::to_multiset_contains(s, x);
        vstd::seq_lib::to_multiset_contains(t, x);
        if s.contains(x) {
            assert(s.to_multiset().contains(x));
            assert(t.to_multiset().contains(x));
        } else {
            assert(!t.contains(x));
        }
    }
    assert(s.to_multiset() =~= t.to_multiset());
}

/// The tactical and the quiet generators split the full generator: the captures
/// followed by the quiet moves hold the same moves, each the same number of
/// times, as the list of all pseudo-legal moves.
pub proof fn lemma_split_generators(b: Board, all: Seq<Move>, caps: Seq<Move>, quiets: Seq<Move>)
    requires
        forall|i: int| 0 <= i < all.len() ==> b.gen_move(#[trigger] all[i]),
        forall|m: Move| b.gen_move(m) ==> all.contains(m),
        distinct(all),
        forall|i: int| 0 <= i < caps.len() ==> b.gen_move(#[trigger] caps[i]) && tactical(caps[i]),
        forall|m: Move| b.gen_move(m) && tactical(m) ==> caps.contains(m),
        distinct(caps),
        forall|i: int| 0 <= i < quiets.len() ==> b.gen_move(#[trigger] quiets[i]) && !tactical(quiets[i]),
        forall|m: Move| b.gen_move(m) && !tactical(m) ==> quiets.contains(m),
        distinct(quiets),
    ensures
        (caps + quiets).to_multiset() == all.to_multiset(),
        caps.len() + quiets.len() == all.len(),
{
    let both = caps + quiets;
    assert(both.subrange(0, caps.len() as int) =~= caps);
    assert(both.subrange(caps.len() as int, both.len() as int) =~= quiets);
    let p = |m: Move| tactical(m);
    let q = |m: Move| !tactical(m);
    assert forall|i: int| 0 <= i < caps.len() implies p(#[trigger] both[i]) by {
        assert(both[i] == caps[i]);
    }
    assert forall|i: int| caps.len() <= i < both.len() implies q(#[trigger] both[i]) by {
        assert(both[i] == quiets[i - caps.len()]);
    }
    lemma_distinct_join(both, 0, caps.len() as int, both.len() as int, p, q);
    assert(both.subrange(0, both.len() as int) =~= both);
    assert forall|m: Move| both.contains(m) <==> all.contains(m) by {
        if both.contains(m) {
            let i = choose|i: int| 0 <= i < both.len() && both[i] == m;
            if i < caps.len() {
                assert(both[i] == caps[i]);
            } else {
                assert(both[i] == quiets[i - caps.len()]);
            }
        }
        if all.contains(m) {
            let i = choose|i: int| 0 <= i < all.len() && all[i] == m;
            assert(b.gen_move(all[i]));
            if tactical(m) {
                let j = choose|j: int| 0 <= j < caps.len() && caps[j] == m;
                assert(both[j] == m);
            } else {
                let j = choose|j: int| 0 <= j < quiets.len() && quiets[j] == m;
                assert(both[caps.len() + j] == m);
            }
        }
    }
    lemma_same_members_multiset(both, all);
    vstd::seq_lib::to_multiset_len(both);
    vstd::seq_lib::to_multiset_len(all);
}


/// Every move that the generator makes in a consistent position is pseudo-legal,
/// so `is_pseudo_legal` accepts it and `make_move` may play it.
pub proof fn lemma_generated_is_pseudo_legal(b: Board, m: Move)
    requires
        b.wf(),
        b.consistent(),
        b.gen_move(m),
    ensures
        b.pseudo_legal(m),
{
    if b.castle_move(m) {
        let k = choose|k: int| #[trigger] b.first_king(k) && !b.attacked(k, b.turn.spec_other());
        let c = b.castle;
        crate::bits::lemma_castle_masks();
        
        if b.turn == Color::White {
            assert(b.piece_on[k] == Piece::WK);
            assert(b.piece_on[4] == Piece::WK);
            assert(k == 4);
        } else {
            assert(b.piece_on[k] == Piece::BK);
            assert(b.piece_on[60] == Piece::BK);
            assert(k == 60);
        }
    }
}


/// The bitboards and the attack relation are functions of the mailbox.
pub proof fn lemma_attacked_determined(x: Board, y: Board)
    requires
        x.bb_wf(),
        y.bb_wf(),
        x.piece_on@ == y.piece_on@,
    ensures
        forall|t: int, c: Color| x.attacked(t, c) == y.attacked(t, c),
        forall|c: Color, k: int| x.first_king_of(c, k) == y.first_king_of(c, k),
{
    crate::makemove::lemma_bb_determined(x, y);
    assert forall|s: int| 0 <= s < 64 implies x.piece_on[s] == y.piece_on[s] by {
        assert(x.piece_on[s] == x.piece_on@[s]);
    }
    assert forall|t: int, c: Color| x.attacked(t, c) == y.attacked(t, c) by {
        if x.attacked(t, c) {
            let s = choose|s: int| 0 <= s < 64 && #[trigger] x.attacker_on(s, t, c);
            assert(y.attacker_on(s, t, c));
        }
        if y.attacked(t, c) {
            let s = choose|s: int| 0 <= s < 64 && #[trigger] y.attacker_on(s, t, c);
            assert(x.attacker_on(s, t, c));
        }
    }
}

impl Board {
    /// After the move the mover still has a king and no enemy piece attacks its
    /// first king square (in any board with that mailbox).
    pub open spec fn leaves_king_safe(&self, m: Move) -> bool {
        forall|a: Board|
            a.bb_wf() && #[trigger] a.piece_on@ == self.after_squares(m) ==> exists|k: int|
                #[trigger] a.first_king_of(self.turn, k) && !a.attacked(k, self.turn.spec_other())
    }

    /// A legal move: a generated move that leaves the mover's king safe.
    pub open spec fn legal_move(&self, m: Move) -> bool {
        self.gen_move(m) && self.leaves_king_safe(m)
    }

    /// The last history entry, or 0 for an empty history.
    pub open spec fn last_key(&self) -> u64 {
        if self.history@.len() > 0 {
            self.history@.last()
        } else {
            0u64
        }
    }

    /// Fills `out` with the legal moves, each once, in the order of the generator
    /// (the generated list with the illegal moves taken out);
    /// the board is played forward and back and ends as it was (its hash ends as
    /// the last history entry, which it was already when the history is in step).
    pub fn generate_legal_moves(&mut self, out: &mut MoveList)
        requires
            old(self).wf(),
            old(self).consistent(),
            old(self).halfmove_clock < i32::MAX,
            old(self).fullmove_number < i32::MAX,
        ensures
            forall|i: int| 0 <= i < final(out)@.len() ==> old(self).legal_move(#[trigger] final(out)@[i]),
            forall|m: Move| old(self).legal_move(m) ==> final(out)@.contains(m),
            distinct(final(out)@),
            final(self).same_position_but_hash(&*old(self)),
            final(self).zobrist == old(self).zobrist || final(self).zobrist == old(self).last_key(),
            old(self).history_ok() ==> final(self).zobrist == old(self).zobrist,
            final(self).wf(),
            final(self).consistent(),
            final(self).model == old(self).model,
            crate::nnue::refreshed(old(self).model, *old(self), old(self).accumulator) ==> final(self).accumulator
                == old(self).accumulator,
            exists|ps: Seq<Move>| #[trigger] lists_generated(*old(self), ps) && final(out)@ == ps.filter(legal_in(*old(self))),
    {
        let ghost b0 = *self;
        let mut pseudo = MoveList::new();
        self.generate_pseudo_legal_moves(&mut pseudo);
        out.clear();
        let n = pseudo.len();
        let mut i: usize = 0;
        proof {
            reveal(Seq::filter);
            assert(pseudo@.take(0) =~= Seq::<Move>::empty());
        }
        while i < n
            invariant
                n == pseudo@.len(),
                i <= n,
                self.wf(),
                self.same_position_but_hash(&b0),
                self.zobrist == b0.zobrist || self.zobrist == b0.last_key(),
                b0.history_ok() ==> self.zobrist == b0.zobrist,
                self.model == b0.model,
                crate::nnue::refreshed(b0.model, b0, b0.accumulator) ==> self.accumulator == b0.accumulator,
                out@ == pseudo@.take(i as int).filter(legal_in(b0)),
                b0.wf(),
                b0.consistent(),
                b0.halfmove_clock < i32::MAX,
                b0.fullmove_number < i32::MAX,
                forall|k: int| 0 <= k < pseudo@.len() ==> b0.gen_move(#[trigger] pseudo@[k]),
                forall|m: Move| b0.gen_move(m) ==> pseudo@.contains(m),
                distinct(pseudo@),
                forall|j: int|
                    0 <= j < out@.len() ==> b0.legal_move(#[trigger] out@[j]) && exists|k: int|
                        0 <= k < i && pseudo@[k] == out@[j],
                forall|k: int| 0 <= k < i && b0.legal_move(#[trigger] pseudo@[k]) ==> out@.contains(pseudo@[k]),
                distinct(out@),
            decreases n - i,
        {
            let m = pseudo.moves[i];
            let ghost before = *self;
            proof {
                lemma_generated_is_pseudo_legal(b0, m);
                assert(self.piece_on@ == b0.piece_on@);
                assert(self.consistent() == b0.consistent());
                assert forall|s: int| 0 <= s < 64 implies self.piece_on[s] == b0.piece_on[s] by {
                    assert(self.piece_on[s] == self.piece_on@[s]);
                    assert(b0.piece_on[s] == b0.piece_on@[s]);
                }
                assert(self.pseudo_legal(m) == b0.pseudo_legal(m)) by {
                    lemma_attacked_determined(*self, b0);
                }
                assert(self.after_squares(m) == b0.after_squares(m));
            }
            let u = self.make_move(m);
            let ghost after = *self;
            let us = self.turn.other();
            let kopt = self.first_king_sq_of(us);
            let mut legal = false;
            match kopt {
                Some(k) => {
                    if !self.is_square_attacked(k as i32, self.turn) {
                        legal = true;
                    }
                },
                None => {},
            }
            proof {
                assert(legal == b0.leaves_king_safe(m)) by {
                    assert forall|a: Board|
                        a.bb_wf() && #[trigger] a.piece_on@ == b0.after_squares(m) implies (legal
                        ==> exists|k: int| #[trigger] a.first_king_of(b0.turn, k) && !a.attacked(
                        k,
                        b0.turn.spec_other(),
                    )) by {
                        lemma_attacked_determined(a, after);
                        if legal {
                            let k = kopt.unwrap() as int;
                            assert(a.first_king_of(b0.turn, k));
                        }
                    }
                    if !legal {
                        assert(!(exists|k: int| #[trigger] after.first_king_of(b0.turn, k) && !after.attacked(
                            k,
                            b0.turn.spec_other(),
                        ))) by {
                            if kopt is Some {
                                let k = kopt.unwrap() as int;
                                assert forall|k2: int| #[trigger] after.first_king_of(b0.turn, k2) implies k2
                                    == k by {
                                    if k2 < k {
                                        assert(after.piece_on[k2] != Piece::spec_from_kind(
                                            PieceKind::King,
                                            b0.turn,
                                        ));
                                    } else if k2 > k {
                                        assert(after.piece_on[k] != Piece::spec_from_kind(
                                            PieceKind::King,
                                            b0.turn,
                                        ));
                                    }
                                }
                            }
                        }
                    }
                }
            }
            let ghost out0 = out@;
            if legal {
                out.push(m);
            }
            proof {
                assert(pseudo@.take(i + 1).drop_last() =~= pseudo@.take(i as int));
                assert(pseudo@.take(i + 1).last() == m);
                assert(legal_in(b0)(m) == legal) by {
                    lemma_generated_is_pseudo_legal(b0, m);
                }
                reveal(Seq::filter);
                let t = pseudo@.take(i + 1);
                let pr = legal_in(b0);
                assert(t.len() == i + 1);
                assert(t.filter(pr) == (if pr(t.last()) {
                    t.drop_last().filter(pr).push(t.last())
                } else {
                    t.drop_last().filter(pr)
                }));
                assert(out0 == t.drop_last().filter(pr));
                assert(out@ == pseudo@.take(i + 1).filter(legal_in(b0)));
            }
            self.unmake_move(m, u);
            proof {
                crate::makemove::lemma_make_unmake_restores(before, after, *self, m, u);
                if crate::nnue::refreshed(b0.model, b0, b0.accumulator) {
                    crate::makemove::lemma_generated_is_sane(b0, m);
                    crate::nnue_laws::lemma_refreshed_same(b0, before);
                    crate::nnue_laws::lemma_acc_back(before, after, *self, m, u);
                }
                let fin = out@;
                assert forall|k: int| 0 <= k < i + 1 && b0.legal_move(#[trigger] pseudo@[k]) implies fin.contains(
                    pseudo@[k],
                ) by {
                    if k == i {
                        assert(fin[fin.len() - 1] == m);
                    }
                }
                if legal {
                    assert forall|j: int| 0 <= j < fin.len() - 1 implies fin[j] != m by {
                        let k = choose|k: int| 0 <= k < i && pseudo@[k] == fin[j];
                        assert(k != i);
                    }
                    assert(fin.last() == pseudo@[i as int]);
                }
                assert forall|j: int| 0 <= j < fin.len() implies b0.legal_move(#[trigger] fin[j]) && exists|k: int|
                    0 <= k < i + 1 && pseudo@[k] == fin[j] by {
                    if legal && j == fin.len() - 1 {
                        assert(pseudo@[i as int] == fin[j]);
                    }
                }
            }
            i = i + 1;
        }
        proof {
            assert(pseudo@.take(n as int) =~= pseudo@);
            assert(lists_generated(b0, pseudo@));
            assert forall|m: Move| b0.legal_move(m) implies out@.contains(m) by {
                let k = choose|k: int| 0 <= k < pseudo@.len() && pseudo@[k] == m;
                assert(b0.legal_move(pseudo@[k]));
            }
            assert(self.consistent()) by {
                assert forall|s: int| 0 <= s < 64 implies self.piece_on[s] == b0.piece_on[s] by {
                    assert(self.piece_on[s] == self.piece_on@[s]);
                    assert(b0.piece_on[s] == b0.piece_on@[s]);
                }
            }
        }
    }

    /// The first king square of colour `c`, if `c` has a king.
    pub fn first_king_sq_of(&self, c: Color) -> (r: Option<usize>)
        requires
            self.bb_wf(),
        ensures
            r matches Some(k) ==> self.first_king_of(c, k as int),
            r is None ==> forall|k: int| !#[trigger] self.first_king_of(c, k),
    {
        let kp = Piece::from_kind(PieceKind::King, c);
        let kb = self.piece_bb[kp.index()];
        if kb == 0 {
            proof {
                crate::bits::lemma_bit_zero();
                assert forall|k: int| !#[trigger] self.first_king_of(c, k) by {
                    if 0 <= k < 64 {
                        assert(!bit(kb, k));
                    }
                }
            }
            None
        } else {
            let t = kb.trailing_zeros();
            proof {
                vstd::std_specs::bits::axiom_u64_trailing_zeros(kb);
                let tt = t as u64;
                assert(bit(kb, tt as int));
                assert forall|u: int| 0 <= u < t implies self.piece_on[u] != kp by {
                    let uu = u as u64;
                    assert((kb >> uu) & 1u64 == 0u64);
                    assert(!bit(kb, u));
                }
            }
            Some(t as usize)
        }
    }
}

/// `ps` lists the moves the generator makes in `b`, each once.
pub open spec fn lists_generated(b: Board, ps: Seq<Move>) -> bool {
    &&& forall|k: int| 0 <= k < ps.len() ==> b.gen_move(#[trigger] ps[k])
    &&& forall|m: Move| b.gen_move(m) ==> ps.contains(m)
    &&& distinct(ps)
}

/// The test that keeps a move of `b` in the legal list.
pub open spec fn legal_in(b: Board) -> spec_fn(Move) -> bool {
    |m: Move| b.legal_move(m)
}

/// `m` with its promotion set to `k`.
pub open spec fn with_promo(m: Move, k: PieceKind) -> Move {
    Move {
        from: m.from,
        to: m.to,
        capture: m.capture,
        en_passant: m.en_passant,
        double_push: m.double_push,
        castle: m.castle,
        promotion: Some(k),
    }
}

/// Every queen promotion in `s` comes first of a run of four: the rook, bishop and
/// knight promotions of the same pawn move follow it, in that order.
#[verifier::opaque]
pub open spec fn promo_runs(s: Seq<Move>) -> bool {
    forall|i: int|
        0 <= i < s.len() && (#[trigger] s[i]).promotion == Some(PieceKind::Queen) ==> {
            &&& i + 3 < s.len()
            &&& s[i + 1] == with_promo(s[i], PieceKind::Rook)
            &&& s[i + 2] == with_promo(s[i], PieceKind::Bishop)
            &&& s[i + 3] == with_promo(s[i], PieceKind::Knight)
        }
}

/// Moves appended that are no queen promotions keep the runs.
proof fn lemma_runs_extend_plain(s: Seq<Move>, t: Seq<Move>)
    requires
        t.len() >= s.len(),
        t.subrange(0, s.len() as int) == s,
        forall|j: int| s.len() <= j < t.len() ==> (#[trigger] t[j]).promotion != Some(PieceKind::Queen),
        promo_runs(s),
    ensures
        promo_runs(t),
{
    reveal(promo_runs);
    assert forall|i: int| 0 <= i < t.len() && (#[trigger] t[i]).promotion == Some(PieceKind::Queen) implies {
        &&& i + 3 < t.len()
        &&& t[i + 1] == with_promo(t[i], PieceKind::Rook)
        &&& t[i + 2] == with_promo(t[i], PieceKind::Bishop)
        &&& t[i + 3] == with_promo(t[i], PieceKind::Knight)
    } by {
        assert(i < s.len());
        assert(t[i] == t.subrange(0, s.len() as int)[i]);
        assert(s[i].promotion == Some(PieceKind::Queen));
        assert(t[i + 1] == t.subrange(0, s.len() as int)[i + 1]);
        assert(t[i + 2] == t.subrange(0, s.len() as int)[i + 2]);
        assert(t[i + 3] == t.subrange(0, s.len() as int)[i + 3]);
    }
}

/// The four promotions of a pawn move appended in the generator's order keep the runs.
proof fn lemma_runs_push_promos(s: Seq<Move>, from: u8, to: u8, capture: bool)
    requires
        promo_runs(s),
    ensures
        promo_runs(
            s.push(pawn_mv(from, to, capture, Some(PieceKind::Queen))).push(
                pawn_mv(from, to, capture, Some(PieceKind::Rook)),
            ).push(pawn_mv(from, to, capture, Some(PieceKind::Bishop))).push(
                pawn_mv(from, to, capture, Some(PieceKind::Knight)),
            ),
        ),
{
    let t = s.push(pawn_mv(from, to, capture, Some(PieceKind::Queen))).push(
        pawn_mv(from, to, capture, Some(PieceKind::Rook)),
    ).push(pawn_mv(from, to, capture, Some(PieceKind::Bishop))).push(
        pawn_mv(from, to, capture, Some(PieceKind::Knight)),
    );
    let n = s.len() as int;
    reveal(promo_runs);
    assert forall|i: int| 0 <= i < t.len() && (#[trigger] t[i]).promotion == Some(PieceKind::Queen) implies {
        &&& i + 3 < t.len()
        &&& t[i + 1] == with_promo(t[i], PieceKind::Rook)
        &&& t[i + 2] == with_promo(t[i], PieceKind::Bishop)
        &&& t[i + 3] == with_promo(t[i], PieceKind::Knight)
    } by {
        if i < n {
            assert(t[i] == s[i]);
            assert(t[i + 1] == s[i + 1]);
            assert(t[i + 2] == s[i + 2]);
            assert(t[i + 3] == s[i + 3]);
        } else {
            assert(i == n);
        }
    }
}

/// Where a generated move stands in the generator's order of pieces: pawns,
/// knights, the king with its castles, bishops, rooks, queens.
pub open spec fn gen_rank(b: Board, m: Move) -> int {
    if b.pawn_move(m) {
        0
    } else if b.piece_move(PieceKind::Knight, m) {
        1
    } else if b.king_or_castle(m) {
        2
    } else if b.piece_move(PieceKind::Bishop, m) {
        3
    } else if b.piece_move(PieceKind::Rook, m) {
        4
    } else {
        5
    }
}

/// From index `start` on, the moves of `s` come in the generator's order of pieces.
pub open spec fn ranked_from(b: Board, s: Seq<Move>, start: int) -> bool {
    forall|i: int, j: int| start <= i < j < s.len() ==> gen_rank(b, #[trigger] s[i]) <= gen_rank(b, #[trigger] s[j])
}

} // verus!
