//! Pseudo-legality of a move: everything that `make_move` relies on.
use vstd::prelude::*;
use crate::bits::{bit, lemma_bit_and, lemma_bit_or, lemma_bit_single, lemma_zero_iff_no_bits, sq_bb};
use crate::board::Board;
use crate::magics::{
    bishop_att, get_bishop_attacks, get_rook_attacks, king_attacks_from, king_rel,
    knight_attacks_from, knight_rel, rook_att,
};
use crate::types::{Color, Move, Piece, PieceKind, BK_CASTLE, BQ_CASTLE, WK_CASTLE, WQ_CASTLE};

verus! {

/// The rights bit `flag` is set in `castle`.
pub open spec fn has_right(castle: u8, flag: u8) -> bool {
    castle & flag != 0
}

impl Board {
    /// The castling conditions on the side given by the king's target square `to`
    /// apart from the safety of the king's own square: the right is held, the rook
    /// stands in its corner, the squares between are empty and the squares the king
    /// passes are not attacked.
    pub open spec fn castle_path_ok(&self, to: int) -> bool {
        if self.turn == Color::White {
            if to == 6 {
                has_right(self.castle, WK_CASTLE) && self.piece_on[7] == Piece::WR
                    && !self.occupied(5) && !self.occupied(6) && !self.attacked(5, Color::Black)
                    && !self.attacked(6, Color::Black)
            } else if to == 2 {
                has_right(self.castle, WQ_CASTLE) && self.piece_on[0] == Piece::WR
                    && !self.occupied(1) && !self.occupied(2) && !self.occupied(3) && !self.attacked(
                    3,
                    Color::Black,
                ) && !self.attacked(2, Color::Black)
            } else {
                false
            }
        } else {
            if to == 62 {
                has_right(self.castle, BK_CASTLE) && self.piece_on[63] == Piece::BR
                    && !self.occupied(61) && !self.occupied(62) && !self.attacked(61, Color::White)
                    && !self.attacked(62, Color::White)
            } else if to == 58 {
                has_right(self.castle, BQ_CASTLE) && self.piece_on[56] == Piece::BR
                    && !self.occupied(57) && !self.occupied(58) && !self.occupied(59)
                    && !self.attacked(59, Color::White) && !self.attacked(58, Color::White)
            } else {
                false
            }
        }
    }

    /// The king's home square of the side to move.
    pub open spec fn home_sq(&self) -> int {
        if self.turn == Color::White {
            4
        } else {
            60
        }
    }

    /// Castling with the king's target square `to` is allowed: the home square is
    /// not attacked and `castle_path_ok` holds.
    pub open spec fn castle_ok(&self, to: int) -> bool {
        !self.attacked(self.home_sq(), self.turn.spec_other()) && self.castle_path_ok(to)
    }

    /// The target square suits the capture flags of the move.
    pub open spec fn target_ok(&self, m: Move) -> bool {
        let to = m.to as int;
        let to_piece = self.piece_on[to];
        if m.capture {
            if m.en_passant {
                let cap = if self.turn == Color::White {
                    to - 8
                } else {
                    to + 8
                };
                let enemy_pawn = if self.turn == Color::White {
                    Piece::BP
                } else {
                    Piece::WP
                };
                self.en_passant_sq == to && to_piece == Piece::Empty && 0 <= cap < 64
                    && self.piece_on[cap] == enemy_pawn
            } else {
                to_piece != Piece::Empty && to_piece.spec_color() != Some(self.turn)
            }
        } else {
            to_piece == Piece::Empty
        }
    }

    /// The piece on `from` can reach `to` by its movement pattern.
    pub open spec fn geometry_ok(&self, m: Move, kind: PieceKind) -> bool {
        let from = m.from as int;
        let to = m.to as int;
        let occ = self.all_pieces;
        match kind {
            PieceKind::Knight => knight_rel(from, to),
            PieceKind::Bishop => bishop_att(from, occ, to),
            PieceKind::Rook => rook_att(from, occ, to),
            PieceKind::Queen => bishop_att(from, occ, to) || rook_att(from, occ, to),
            PieceKind::King => king_rel(from, to),
            PieceKind::Pawn => {
                let white = self.turn == Color::White;
                let dir: int = if white {
                    8
                } else {
                    -8
                };
                let step_ok = if m.capture {
                    (to - from == dir - 1 && from % 8 != 0) || (to - from == dir + 1 && from % 8 != 7)
                } else if m.double_push {
                    let start_rank: int = if white {
                        1
                    } else {
                        6
                    };
                    from / 8 == start_rank && to == from + 2 * dir && !self.occupied(from + dir)
                } else {
                    to == from + dir
                };
                let promo_ok = m.promotion.is_some() ==> from / 8 == (if white {
                    6int
                } else {
                    1int
                });
                step_ok && promo_ok
            },
        }
    }

    /// The move is pseudo-legal: it is what `is_pseudo_legal` accepts.
    pub open spec fn pseudo_legal(&self, m: Move) -> bool {
        let from = m.from as int;
        let to = m.to as int;
        let piece = self.piece_on[from];
        &&& from < 64 && to < 64 && from != to
        &&& piece != Piece::Empty && piece.spec_color() == Some(self.turn)
        &&& (m.castle ==> piece.spec_kind() == Some(PieceKind::King))
        &&& ((m.en_passant || m.double_push || m.promotion.is_some()) ==> piece.spec_kind() == Some(
            PieceKind::Pawn,
        ))
        &&& if m.castle {
            from == (if self.turn == Color::White {
                4int
            } else {
                60int
            }) && self.castle_ok(to)
        } else {
            self.target_ok(m) && self.geometry_ok(m, piece.spec_kind().unwrap())
        }
    }

    /// Bit `s` of the occupancy is clear.
    pub fn empty_sq(&self, s: u64) -> (r: bool)
        requires
            self.bb_wf(),
            s < 64,
        ensures
            r == !self.occupied(s as int),
    {
        proof {
            self.lemma_occupied();
        }
        let a = self.all_pieces;
        assert((a >> s) & 1u64 == 0 <==> !((a >> s) & 1u64 == 1u64)) by (bit_vector);
        assert(bit(a, s as int) == ((a >> s) & 1u64 == 1u64));
        assert(bit(a, s as int) == self.occupied(s as int));
        (self.all_pieces >> s) & 1u64 == 0
    }

    /// Checks `castle_path_ok` for the king's target square `to`.
    pub fn castle_path_allowed(&self, to: usize) -> (r: bool)
        requires
            self.bb_wf(),
        ensures
            r == self.castle_path_ok(to as int),
    {
        if self.turn == Color::White {
            if to == 6 {
                (self.castle & WK_CASTLE) != 0 && self.piece_on[7] == Piece::WR && self.empty_sq(5)
                    && self.empty_sq(6) && !self.is_square_attacked(5, Color::Black)
                    && !self.is_square_attacked(6, Color::Black)
            } else if to == 2 {
                (self.castle & WQ_CASTLE) != 0 && self.piece_on[0] == Piece::WR && self.empty_sq(1)
                    && self.empty_sq(2) && self.empty_sq(3) && !self.is_square_attacked(
                    3,
                    Color::Black,
                ) && !self.is_square_attacked(2, Color::Black)
            } else {
                false
            }
        } else {
            if to == 62 {
                (self.castle & BK_CASTLE) != 0 && self.piece_on[63] == Piece::BR && self.empty_sq(61)
                    && self.empty_sq(62) && !self.is_square_attacked(61, Color::White)
                    && !self.is_square_attacked(62, Color::White)
            } else if to == 58 {
                (self.castle & BQ_CASTLE) != 0 && self.piece_on[56] == Piece::BR && self.empty_sq(57)
                    && self.empty_sq(58) && self.empty_sq(59) && !self.is_square_attacked(
                    59,
                    Color::White,
                ) && !self.is_square_attacked(58, Color::White)
            } else {
                false
            }
        }
    }

    /// Checks the castling conditions for a king move to `to`.
    fn castle_allowed(&self, to: usize) -> (r: bool)
        requires
            self.bb_wf(),
        ensures
            r == self.castle_ok(to as int),
    {
        let from: i32 = if self.turn == Color::White {
            4
        } else {
            60
        };
        if self.is_square_attacked(from, self.turn.other()) {
            return false;
        }
        self.castle_path_allowed(to)
    }

    /// Whether the move is pseudo-legal in the current position: the piece of the
    /// side to move can make it, its flags fit the piece and the target, and a castle
    /// meets every castling condition. This is everything `make_move` relies on.
    pub fn is_pseudo_legal(&self, m: Move) -> (r: bool)
        requires
            self.bb_wf(),
        ensures
            r == self.pseudo_legal(m),
    {
        let from = m.from as usize;
        let to = m.to as usize;
        if from >= 64 || to >= 64 || from == to {
            return false;
        }
        let piece = self.piece_on[from];
        if piece == Piece::Empty || piece.color() != Some(self.turn) {
            return false;
        }
        let kind = match piece.kind() {
            Some(k) => k,
            None => return false,
        };
        if m.castle && kind != PieceKind::King {
            return false;
        }
        if (m.en_passant || m.double_push || m.promotion.is_some()) && kind != PieceKind::Pawn {
            return false;
        }
        if m.castle {
            let white = self.turn == Color::White;
            let expected_from: usize = if white {
                4
            } else {
                60
            };
            if from != expected_from {
                return false;
            }
            return self.castle_allowed(to);
        }
        let to_piece = self.piece_on[to];
        if m.capture {
            if m.en_passant {
                if self.en_passant_sq != to as i32 {
                    return false;
                }
                if to_piece != Piece::Empty {
                    return false;
                }
                let cap_sq: i32 = if self.turn == Color::White {
                    to as i32 - 8
                } else {
                    to as i32 + 8
                };
                if cap_sq < 0 || cap_sq >= 64 {
                    return false;
                }
                let enemy_pawn = if self.turn == Color::White {
                    Piece::BP
                } else {
                    Piece::WP
                };
                if self.piece_on[cap_sq as usize] != enemy_pawn {
                    return false;
                }
            } else {
                if to_piece == Piece::Empty || to_piece.color() == Some(self.turn) {
                    return false;
                }
            }
        } else {
            if to_piece != Piece::Empty {
                return false;
            }
        }
        let occ = self.all_pieces;
        let to_bb: u64 = 1u64 << (to as u64);
        proof {
            lemma_bit_single(to as int);
            assert(to_bb == sq_bb(to as int));
        }
        match kind {
            PieceKind::Knight => {
                let a = knight_attacks_from(from);
                proof {
                    lemma_bit_and(a, to_bb);
                    lemma_zero_iff_no_bits(a & to_bb);
                    assert(bit(a & to_bb, to as int) == bit(a, to as int));
                }
                (a & to_bb) != 0
            },
            PieceKind::Bishop => {
                let a = get_bishop_attacks(from, occ);
                proof {
                    lemma_bit_and(a, to_bb);
                    lemma_zero_iff_no_bits(a & to_bb);
                    assert(bit(a & to_bb, to as int) == bit(a, to as int));
                }
                (a & to_bb) != 0
            },
            PieceKind::Rook => {
                let a = get_rook_attacks(from, occ);
                proof {
                    lemma_bit_and(a, to_bb);
                    lemma_zero_iff_no_bits(a & to_bb);
                    assert(bit(a & to_bb, to as int) == bit(a, to as int));
                }
                (a & to_bb) != 0
            },
            PieceKind::Queen => {
                let ba = get_bishop_attacks(from, occ);
                let ra = get_rook_attacks(from, occ);
                let a = ba | ra;
                proof {
                    lemma_bit_or(ba, ra);
                    lemma_bit_and(a, to_bb);
                    lemma_zero_iff_no_bits(a & to_bb);
                    assert(bit(a & to_bb, to as int) == bit(a, to as int));
                }
                (a & to_bb) != 0
            },
            PieceKind::King => {
                let a = king_attacks_from(from);
                proof {
                    lemma_bit_and(a, to_bb);
                    lemma_zero_iff_no_bits(a & to_bb);
                    assert(bit(a & to_bb, to as int) == bit(a, to as int));
                }
                (a & to_bb) != 0
            },
            PieceKind::Pawn => {
                let white = self.turn == Color::White;
                let dir: i32 = if white {
                    8
                } else {
                    -8
                };
                let from_i = from as i32;
                let to_i = to as i32;
                if m.capture {
                    let diff = to_i - from_i;
                    let file = from_i % 8;
                    if !((diff == dir - 1 && file != 0) || (diff == dir + 1 && file != 7)) {
                        return false;
                    }
                } else if m.double_push {
                    let start_rank: i32 = if white {
                        1
                    } else {
                        6
                    };
                    let mid = from_i + dir;
                    if from_i / 8 != start_rank || to_i != from_i + 2 * dir {
                        return false;
                    }
                    if !self.empty_sq(mid as u64) {
                        return false;
                    }
                } else {
                    if to_i != from_i + dir {
                        return false;
                    }
                }
                if m.promotion.is_some() {
                    let promo_rank: i32 = if white {
                        6
                    } else {
                        1
                    };
                    if from_i / 8 != promo_rank {
                        return false;
                    }
                }
                true
            },
        }
    }
}

/// A pseudo-legal capture that is neither en passant nor a castle is an attack: the
/// moving piece attacks the target square, as the board's attack test sees it.
pub proof fn lemma_capture_is_attack(b: Board, m: Move)
    requires
        b.pseudo_legal(m),
        m.capture,
        !m.en_passant,
        !m.castle,
    ensures
        b.attacked(m.to as int, b.turn),
{
    let from = m.from as int;
    let to = m.to as int;
    let occ = b.all_pieces;
    match b.piece_on[from].spec_kind() {
        Some(PieceKind::Bishop) => {
            crate::magics::lemma_bishop_symmetric(from, occ, to);
        },
        Some(PieceKind::Rook) => {
            crate::magics::lemma_rook_symmetric(from, occ, to);
        },
        Some(PieceKind::Queen) => {
            if bishop_att(from, occ, to) {
                crate::magics::lemma_bishop_symmetric(from, occ, to);
            } else {
                crate::magics::lemma_rook_symmetric(from, occ, to);
            }
        },
        _ => {},
    }
    assert(b.attacker_on(from, to, b.turn));
}

/// With one king a side, and the king of the side not to move out of attack, no
/// pseudo-legal move other than a castle captures a king.
pub proof fn lemma_no_king_capture(b: Board, m: Move)
    requires
        b.consistent(),
        b.king_untouchable(),
        b.pseudo_legal(m),
        m.capture,
        !m.castle,
    ensures
        b.piece_on[b.cap_sq(m)].spec_kind() != Some(PieceKind::King),
{
    if !m.en_passant {
        let to = m.to as int;
        let them = b.turn.spec_other();
        let kp = Piece::spec_from_kind(PieceKind::King, them);
        if b.piece_on[to].spec_kind() == Some(PieceKind::King) {
            assert(b.piece_on[to] == kp);
            assert forall|t: int| 0 <= t < to implies b.piece_on[t] != kp by {
                if b.piece_on[t] == kp {
                    assert(b.one_king(them));
                }
            }
            assert(b.first_king_of(them, to));
            lemma_capture_is_attack(b, m);
        }
    }
}

} // verus!
