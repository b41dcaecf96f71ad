//! Making and unmaking moves, with the bitboards, hash and counters kept in step.
use vstd::prelude::*;
use crate::bits::{bit, lemma_bit_and, lemma_bit_not, lemma_bit_or, lemma_bit_single, lemma_bits_ext, sq_bb};
use crate::board::Board;
use crate::nnue::{king_sq_of, refresh_accumulator, refreshed, update_accumulator, updated_by};
use crate::types::{
    Color, Move, Piece, PieceKind, UpdateBody, Undo, BK_CASTLE, BQ_CASTLE, NO_SQ, WK_CASTLE, WQ_CASTLE,
};
use crate::zobrist::{
    castle_key, ep_key, lemma_squares_hash_update, piece_key, side_key, spec_castle_key,
    spec_ep_key, spec_piece_key, spec_side_key, squares_hash,
};

verus! {

/// Castling rights after a move from `from` to `to` by `moving`: a king move
/// clears both rights of its side, and a move from or a capture on a corner
/// clears the right of that corner.
pub open spec fn rights_after(castle: u8, moving: Piece, from: int, to: int, capture: bool) -> u8 {
    let c1: u8 = if moving == Piece::WK {
        castle & !(WK_CASTLE | WQ_CASTLE)
    } else if moving == Piece::BK {
        castle & !(BK_CASTLE | BQ_CASTLE)
    } else {
        castle
    };
    let c2: u8 = corner_clear(c1, from);
    if capture {
        corner_clear(c2, to)
    } else {
        c2
    }
}

/// Clears the right tied to the rook corner `sq`, if `sq` is a corner.
pub open spec fn corner_clear(c: u8, sq: int) -> u8 {
    if sq == 0 {
        c & !WQ_CASTLE
    } else if sq == 7 {
        c & !WK_CASTLE
    } else if sq == 56 {
        c & !BQ_CASTLE
    } else if sq == 63 {
        c & !BK_CASTLE
    } else {
        c
    }
}

/// Clearing one right, or both rights of a side, from a set of castling rights:
/// the cleared bits become zero and every other right stays as it was.
proof fn lemma_castle_clear_bits(c: u8)
    by (bit_vector)
    ensures
        (c & !(WK_CASTLE | WQ_CASTLE)) & WK_CASTLE == 0,
        (c & !(WK_CASTLE | WQ_CASTLE)) & WQ_CASTLE == 0,
        (c & !(WK_CASTLE | WQ_CASTLE)) & BK_CASTLE == c & BK_CASTLE,
        (c & !(WK_CASTLE | WQ_CASTLE)) & BQ_CASTLE == c & BQ_CASTLE,
        (c & !(BK_CASTLE | BQ_CASTLE)) & WK_CASTLE == c & WK_CASTLE,
        (c & !(BK_CASTLE | BQ_CASTLE)) & WQ_CASTLE == c & WQ_CASTLE,
        (c & !(BK_CASTLE | BQ_CASTLE)) & BK_CASTLE == 0,
        (c & !(BK_CASTLE | BQ_CASTLE)) & BQ_CASTLE == 0,
        (c & !WK_CASTLE) & WK_CASTLE == 0,
        (c & !WK_CASTLE) & WQ_CASTLE == c & WQ_CASTLE,
        (c & !WK_CASTLE) & BK_CASTLE == c & BK_CASTLE,
        (c & !WK_CASTLE) & BQ_CASTLE == c & BQ_CASTLE,
        (c & !WQ_CASTLE) & WK_CASTLE == c & WK_CASTLE,
        (c & !WQ_CASTLE) & WQ_CASTLE == 0,
        (c & !WQ_CASTLE) & BK_CASTLE == c & BK_CASTLE,
        (c & !WQ_CASTLE) & BQ_CASTLE == c & BQ_CASTLE,
        (c & !BK_CASTLE) & WK_CASTLE == c & WK_CASTLE,
        (c & !BK_CASTLE) & WQ_CASTLE == c & WQ_CASTLE,
        (c & !BK_CASTLE) & BK_CASTLE == 0,
        (c & !BK_CASTLE) & BQ_CASTLE == c & BQ_CASTLE,
        (c & !BQ_CASTLE) & WK_CASTLE == c & WK_CASTLE,
        (c & !BQ_CASTLE) & WQ_CASTLE == c & WQ_CASTLE,
        (c & !BQ_CASTLE) & BK_CASTLE == c & BK_CASTLE,
        (c & !BQ_CASTLE) & BQ_CASTLE == 0,
{
}

/// A castling right after a move: the right of a side whose king moved is gone,
/// and so is the right tied to a rook corner (a1, h1, a8, h8) that the move left
/// or captured on; every other right is kept, and none is ever granted.
pub proof fn lemma_rights_after(castle: u8, moving: Piece, from: int, to: int, capture: bool)
    ensures
        rights_after(castle, moving, from, to, capture) & WK_CASTLE == (if moving == Piece::WK || from == 7 || (
        capture && to == 7) {
            0
        } else {
            castle & WK_CASTLE
        }),
        rights_after(castle, moving, from, to, capture) & WQ_CASTLE == (if moving == Piece::WK || from == 0 || (
        capture && to == 0) {
            0
        } else {
            castle & WQ_CASTLE
        }),
        rights_after(castle, moving, from, to, capture) & BK_CASTLE == (if moving == Piece::BK || from == 63 || (
        capture && to == 63) {
            0
        } else {
            castle & BK_CASTLE
        }),
        rights_after(castle, moving, from, to, capture) & BQ_CASTLE == (if moving == Piece::BK || from == 56 || (
        capture && to == 56) {
            0
        } else {
            castle & BQ_CASTLE
        }),
{
    let c1: u8 = if moving == Piece::WK {
        castle & !(WK_CASTLE | WQ_CASTLE)
    } else if moving == Piece::BK {
        castle & !(BK_CASTLE | BQ_CASTLE)
    } else {
        castle
    };
    let c2 = corner_clear(c1, from);
    lemma_castle_clear_bits(castle);
    lemma_castle_clear_bits(c1);
    lemma_castle_clear_bits(c2);
}

/// Rook's origin and destination squares of a castling move.
pub open spec fn rook_from_sq(m: Move) -> int {
    if m.to > m.from {
        m.to + 1
    } else {
        m.to - 2
    }
}

pub open spec fn rook_to_sq(m: Move) -> int {
    if m.to > m.from {
        m.to - 1
    } else {
        m.to + 1
    }
}

/// The castling rights after a move, as `rights_after` states them.
fn castle_rights_after(castle: u8, moving: Piece, from: usize, to: usize, capture: bool) -> (c: u8)
    ensures
        c == rights_after(castle, moving, from as int, to as int, capture),
{
    let mut c = castle;
    if moving == Piece::WK {
        c = c & !(WK_CASTLE | WQ_CASTLE);
    } else if moving == Piece::BK {
        c = c & !(BK_CASTLE | BQ_CASTLE);
    }
    c = corner_clear_exec(c, from);
    if capture {
        c = corner_clear_exec(c, to);
    }
    c
}

fn corner_clear_exec(c: u8, sq: usize) -> (r: u8)
    ensures
        r == corner_clear(c, sq as int),
{
    if sq == 0 {
        c & !WQ_CASTLE
    } else if sq == 7 {
        c & !WK_CASTLE
    } else if sq == 56 {
        c & !BQ_CASTLE
    } else if sq == 63 {
        c & !BK_CASTLE
    } else {
        c
    }
}

/// The hash bookkeeping of `make_move`: with the squares hash carried by the
/// square primitives and the rights, en-passant and side keys toggled, a
/// consistent hash stays consistent.
proof fn lemma_make_hash(
    pre: Board,
    post: Board,
    z0: u64,
    z1: u64,
    z2: u64,
    z3: u64,
    kc0: u64,
    kc1: u64,
    sk: u64,
)
    requires
        z0 == pre.zobrist,
        z1 == z0 ^ (if pre.en_passant_sq != -1 {
            spec_ep_key(pre.en_passant_sq as int % 8)
        } else {
            0u64
        }),
        z2 ^ squares_hash(post.piece_on@, 64) == z1 ^ squares_hash(pre.piece_on@, 64),
        z3 == z2 ^ (if post.en_passant_sq != -1 {
            spec_ep_key(post.en_passant_sq as int % 8)
        } else {
            0u64
        }),
        kc0 == spec_castle_key(pre.castle & 15u8),
        kc1 == spec_castle_key(post.castle & 15u8),
        sk == spec_side_key(),
        post.turn == pre.turn.spec_other(),
        post.zobrist == z3 ^ kc0 ^ kc1 ^ sk,
    ensures
        pre.hash_ok() ==> post.hash_ok(),
{
    let h0 = squares_hash(pre.piece_on@, 64);
    let h1 = squares_hash(post.piece_on@, 64);
    let e0: u64 = if pre.en_passant_sq != -1 {
        spec_ep_key(pre.en_passant_sq as int % 8)
    } else {
        0u64
    };
    let e1: u64 = if post.en_passant_sq != -1 {
        spec_ep_key(post.en_passant_sq as int % 8)
    } else {
        0u64
    };
    let s0k: u64 = if pre.turn == Color::Black {
        spec_side_key()
    } else {
        0u64
    };
    let s1k: u64 = if post.turn == Color::Black {
        spec_side_key()
    } else {
        0u64
    };
    assert(s1k == s0k ^ sk) by {
        crate::bits::lemma_xor_facts();
    }
    if pre.hash_ok() {
        assert(z0 == h0 ^ kc0 ^ e0 ^ s0k);
        assert(z0 == h0 ^ kc0 ^ e0 ^ s0k && z1 == z0 ^ e0 && z2 ^ h1 == z1 ^ h0 && z3 == z2 ^ e1 && s1k
            == s0k ^ sk ==> z3 ^ kc0 ^ kc1 ^ sk == h1 ^ kc1 ^ e1 ^ s1k) by (bit_vector);
    }
}

impl Board {
    /// Rank step of the side to move's pawns.
    pub open spec fn pawn_dir_of(&self) -> int {
        if self.turn == Color::White {
            8
        } else {
            -8
        }
    }

    /// The square of the piece that the move captures.
    pub open spec fn cap_sq(&self, m: Move) -> int {
        if m.en_passant {
            if self.turn == Color::White {
                m.to - 8
            } else {
                m.to + 8
            }
        } else {
            m.to as int
        }
    }

    /// The accumulator updates of a move that is not a king move: the moving piece
    /// leaves its square, the captured piece leaves its square, and the moved (or
    /// promoted) piece enters the target square.
    pub open spec fn move_updates(&self, m: Move) -> Seq<UpdateBody> {
        let from = m.from as int;
        let moving = self.piece_on[from];
        let captured = self.piece_on[self.cap_sq(m)];
        let added = match m.promotion {
            Some(pk) => Piece::spec_from_kind(pk, self.turn),
            None => moving,
        };
        seq![UpdateBody { piece: moving, sq: m.from as usize, add: false }] + (if m.capture && captured
            != Piece::Empty {
            seq![UpdateBody { piece: captured, sq: self.cap_sq(m) as usize, add: false }]
        } else {
            Seq::<UpdateBody>::empty()
        }) + seq![UpdateBody { piece: added, sq: m.to as usize, add: true }]
    }

    /// The accumulator updates that take back a move that was not a king move,
    /// read from the position after it: the piece on the target leaves, the moving
    /// piece (a pawn if it promoted) returns to its origin, the captured piece returns.
    pub open spec fn unmake_updates(&self, m: Move, u: Undo) -> Seq<UpdateBody> {
        let to = m.to as int;
        let mover = self.turn.spec_other();
        let piece_on_to = self.piece_on[to];
        let moving = if m.promotion.is_some() {
            Piece::spec_from_kind(PieceKind::Pawn, mover)
        } else {
            piece_on_to
        };
        let cap = if m.en_passant {
            if mover == Color::White {
                to - 8
            } else {
                to + 8
            }
        } else {
            to
        };
        seq![
            UpdateBody { piece: piece_on_to, sq: m.to as usize, add: false },
            UpdateBody { piece: moving, sq: m.from as usize, add: true },
        ] + (if m.capture && u.captured_piece != Piece::Empty {
            seq![UpdateBody { piece: u.captured_piece, sq: cap as usize, add: true }]
        } else {
            Seq::<UpdateBody>::empty()
        })
    }

    /// The mailbox after the move.
    pub open spec fn after_squares(&self, m: Move) -> Seq<Piece> {
        let from = m.from as int;
        let to = m.to as int;
        let moving = self.piece_on[from];
        let s1 = self.piece_on@.update(from, Piece::Empty);
        let s2 = if m.capture {
            s1.update(self.cap_sq(m), Piece::Empty)
        } else {
            s1
        };
        let placed = match m.promotion {
            Some(pk) => Piece::spec_from_kind(pk, self.turn),
            None => moving,
        };
        let s3 = s2.update(to, placed);
        if m.castle {
            let rf = rook_from_sq(m);
            let rt = rook_to_sq(m);
            s3.update(rf, Piece::Empty).update(rt, s3[rf])
        } else {
            s3
        }
    }

    /// The en-passant square after the move.
    pub open spec fn after_ep(&self, m: Move) -> i32 {
        if m.double_push {
            if self.turn == Color::White {
                (m.from + 8) as i32
            } else {
                (m.from - 8) as i32
            }
        } else {
            -1i32
        }
    }

    /// The half-move clock after the move: reset by pawn moves and captures.
    pub open spec fn after_halfmove(&self, m: Move) -> i32 {
        if self.piece_on[m.from as int].spec_kind() == Some(PieceKind::Pawn) || m.capture {
            0
        } else {
            (self.halfmove_clock + 1) as i32
        }
    }

    /// The fields that the square primitives leave alone.
    pub open spec fn same_state(&self, other: &Board) -> bool {
        &&& self.turn == other.turn
        &&& self.castle == other.castle
        &&& self.en_passant_sq == other.en_passant_sq
        &&& self.halfmove_clock == other.halfmove_clock
        &&& self.fullmove_number == other.fullmove_number
        &&& self.history == other.history
        &&& self.accumulator == other.accumulator
        &&& self.model == other.model
    }

    /// Everything of the position but the hash and the accumulator is equal.
    pub open spec fn same_position_but_hash(&self, other: &Board) -> bool {
        &&& self.piece_on@ == other.piece_on@
        &&& self.piece_bb@ == other.piece_bb@
        &&& self.w_pieces == other.w_pieces
        &&& self.b_pieces == other.b_pieces
        &&& self.all_pieces == other.all_pieces
        &&& self.turn == other.turn
        &&& self.castle == other.castle
        &&& self.en_passant_sq == other.en_passant_sq
        &&& self.halfmove_clock == other.halfmove_clock
        &&& self.fullmove_number == other.fullmove_number
        &&& self.history@ == other.history@
    }

    /// Everything of the position but the accumulator is equal.
    pub open spec fn same_position(&self, other: &Board) -> bool {
        &&& self.piece_on@ == other.piece_on@
        &&& self.piece_bb@ == other.piece_bb@
        &&& self.w_pieces == other.w_pieces
        &&& self.b_pieces == other.b_pieces
        &&& self.all_pieces == other.all_pieces
        &&& self.turn == other.turn
        &&& self.castle == other.castle
        &&& self.en_passant_sq == other.en_passant_sq
        &&& self.halfmove_clock == other.halfmove_clock
        &&& self.fullmove_number == other.fullmove_number
        &&& self.history@ == other.history@
        &&& self.zobrist == other.zobrist
    }

    /// Clears `sq`, returning what stood there.
    fn remove_piece(&mut self, sq: usize) -> (p: Piece)
        requires
            old(self).bb_wf(),
            sq < 64,
        ensures
            final(self).bb_wf(),
            p == old(self).piece_on[sq as int],
            final(self).piece_on@ == old(self).piece_on@.update(sq as int, Piece::Empty),
            final(self).zobrist == old(self).zobrist ^ spec_piece_key(p, sq as int),
            final(self).zobrist ^ squares_hash(final(self).piece_on@, 64) == old(self).zobrist
                ^ squares_hash(old(self).piece_on@, 64),
            final(self).same_state(&*old(self)),
    {
        let p = self.piece_on[sq];
        let m: u64 = 1u64 << (sq as u64);
        let ghost pre_bb = self.piece_bb;
        let ghost pre_w = self.w_pieces;
        let ghost pre_b = self.b_pieces;
        let ghost pre_z = self.zobrist;
        let ghost pre_on = self.piece_on@;
        proof {
            lemma_bit_single(sq as int);
            assert(m == sq_bb(sq as int));
            lemma_bit_not(m);
            lemma_squares_hash_update(pre_on, sq as int, Piece::Empty, 64);
        }
        if !p.is_empty() {
            let i = p.index();
            let old_bb = self.piece_bb[i];
            self.piece_bb[i] = old_bb & !m;
            proof {
                lemma_bit_and(old_bb, !m);
            }
            match p.color() {
                Some(Color::White) => {
                    let old_w = self.w_pieces;
                    self.w_pieces = old_w & !m;
                    proof {
                        lemma_bit_and(old_w, !m);
                    }
                },
                Some(Color::Black) => {
                    let old_b = self.b_pieces;
                    self.b_pieces = old_b & !m;
                    proof {
                        lemma_bit_and(old_b, !m);
                    }
                },
                _ => {},
            }
            self.all_pieces = self.w_pieces | self.b_pieces;
        }
        self.piece_on[sq] = Piece::Empty;
        let k = piece_key(p, sq);
        let z = self.zobrist;
        self.zobrist = z ^ k;
        proof {
            let h = squares_hash(pre_on, 64);
            assert(spec_piece_key(Piece::Empty, sq as int) == 0);
            assert((z ^ k) ^ (h ^ k ^ 0u64) == z ^ h) by (bit_vector);
            assert forall|q: int, s: int| 0 <= q < 13 && 0 <= s < 64 implies (#[trigger] bit(
                self.piece_bb[q],
                s,
            ) <==> (q != 0 && self.piece_on[s].spec_index() == q)) by {
                assert(bit(pre_bb[q], s) <==> (q != 0 && pre_on[s].spec_index() == q));
                if q == p.spec_index() && !p.spec_is_empty() {
                    assert(bit(self.piece_bb[q], s) == (bit(pre_bb[q], s) && s != sq));
                } else {
                    assert(self.piece_bb[q] == pre_bb[q]);
                }
            }
            assert forall|s: int| 0 <= s < 64 implies (#[trigger] bit(self.w_pieces, s) <==> self.piece_on[s].spec_color()
                == Some(Color::White)) by {
                assert(bit(pre_w, s) <==> pre_on[s].spec_color() == Some(Color::White));
            }
            assert forall|s: int| 0 <= s < 64 implies (#[trigger] bit(self.b_pieces, s) <==> self.piece_on[s].spec_color()
                == Some(Color::Black)) by {
                assert(bit(pre_b, s) <==> pre_on[s].spec_color() == Some(Color::Black));
            }
        }
        p
    }

    /// Puts `p` on the empty square `sq`.
    fn put_piece(&mut self, p: Piece, sq: usize)
        requires
            old(self).bb_wf(),
            sq < 64,
            old(self).piece_on[sq as int] == Piece::Empty,
            p != Piece::Empty,
        ensures
            final(self).bb_wf(),
            final(self).piece_on@ == old(self).piece_on@.update(sq as int, p),
            final(self).zobrist == old(self).zobrist ^ spec_piece_key(p, sq as int),
            final(self).zobrist ^ squares_hash(final(self).piece_on@, 64) == old(self).zobrist
                ^ squares_hash(old(self).piece_on@, 64),
            final(self).same_state(&*old(self)),
    {
        let m: u64 = 1u64 << (sq as u64);
        let ghost pre_bb = self.piece_bb;
        let ghost pre_w = self.w_pieces;
        let ghost pre_b = self.b_pieces;
        let ghost pre_on = self.piece_on@;
        proof {
            lemma_bit_single(sq as int);
            assert(m == sq_bb(sq as int));
            lemma_squares_hash_update(pre_on, sq as int, p, 64);
        }
        let i = p.index();
        let old_bb = self.piece_bb[i];
        self.piece_bb[i] = old_bb | m;
        proof {
            lemma_bit_or(old_bb, m);
        }
        match p.color() {
            Some(Color::White) => {
                let old_w = self.w_pieces;
                self.w_pieces = old_w | m;
                proof {
                    lemma_bit_or(old_w, m);
                }
            },
            Some(Color::Black) => {
                let old_b = self.b_pieces;
                self.b_pieces = old_b | m;
                proof {
                    lemma_bit_or(old_b, m);
                }
            },
            _ => {},
        }
        self.all_pieces = self.w_pieces | self.b_pieces;
        self.piece_on[sq] = p;
        let k = piece_key(p, sq);
        let z = self.zobrist;
        self.zobrist = z ^ k;
        proof {
            let h = squares_hash(pre_on, 64);
            assert(spec_piece_key(Piece::Empty, sq as int) == 0);
            assert((z ^ k) ^ (h ^ 0u64 ^ k) == z ^ h) by (bit_vector);
            assert forall|q: int, s: int| 0 <= q < 13 && 0 <= s < 64 implies (#[trigger] bit(
                self.piece_bb[q],
                s,
            ) <==> (q != 0 && self.piece_on[s].spec_index() == q)) by {
                assert(bit(pre_bb[q], s) <==> (q != 0 && pre_on[s].spec_index() == q));
                if q == p.spec_index() {
                    assert(bit(self.piece_bb[q], s) == (bit(pre_bb[q], s) || s == sq));
                } else {
                    assert(self.piece_bb[q] == pre_bb[q]);
                }
            }
            assert forall|s: int| 0 <= s < 64 implies (#[trigger] bit(self.w_pieces, s) <==> self.piece_on[s].spec_color()
                == Some(Color::White)) by {
                assert(bit(pre_w, s) <==> pre_on[s].spec_color() == Some(Color::White));
            }
            assert forall|s: int| 0 <= s < 64 implies (#[trigger] bit(self.b_pieces, s) <==> self.piece_on[s].spec_color()
                == Some(Color::Black)) by {
                assert(bit(pre_b, s) <==> pre_on[s].spec_color() == Some(Color::Black));
            }
        }
    }

    /// The facts about a move that moving the pieces needs.
    pub open spec fn movable(&self, m: Move) -> bool {
        let from = m.from as int;
        let to = m.to as int;
        let white = self.turn == Color::White;
        &&& from < 64 && to < 64 && from != to
        &&& self.piece_on[from] != Piece::Empty
        &&& (m.castle ==> !m.en_passant)
        &&& if m.castle {
            if white {
                from == 4 && ((to == 6 && self.piece_on[7] != Piece::Empty && !self.occupied(5)
                    && !self.occupied(6)) || (to == 2 && self.piece_on[0] != Piece::Empty
                    && !self.occupied(1) && !self.occupied(2) && !self.occupied(3)))
            } else {
                from == 60 && ((to == 62 && self.piece_on[63] != Piece::Empty && !self.occupied(61)
                    && !self.occupied(62)) || (to == 58 && self.piece_on[56] != Piece::Empty
                    && !self.occupied(57) && !self.occupied(58) && !self.occupied(59)))
            }
        } else if m.capture {
            if m.en_passant {
                let cap = self.cap_sq(m);
                0 <= cap < 64 && cap != from && cap != to && !self.occupied(to)
            } else {
                true
            }
        } else {
            !self.occupied(to)
        }
    }

    pub proof fn lemma_pseudo_legal_movable(&self, m: Move)
        requires
            self.pseudo_legal(m),
        ensures
            self.movable(m),
    {
    }

    /// Moves the pieces of a move on the mailbox and bitboards, keeping the hash
    /// in step with the squares; returns the captured piece.
    fn move_pieces(&mut self, m: Move) -> (captured: Piece)
        requires
            old(self).bb_wf(),
            old(self).movable(m),
        ensures
            final(self).bb_wf(),
            final(self).piece_on@ == old(self).after_squares(m),
            final(self).zobrist ^ squares_hash(final(self).piece_on@, 64) == old(self).zobrist
                ^ squares_hash(old(self).piece_on@, 64),
            final(self).same_state(&*old(self)),
            captured == (if m.capture {
                old(self).piece_on[old(self).cap_sq(m)]
            } else {
                Piece::Empty
            }),
    {
        let ghost pre = *self;
        let from = m.from as usize;
        let to = m.to as usize;
        let us = self.turn;
        let moving = self.piece_on[from];
        self.remove_piece(from);
        let mut captured = Piece::Empty;
        if m.capture {
            let cap_sq: usize = if m.en_passant {
                if us == Color::White {
                    to - 8
                } else {
                    to + 8
                }
            } else {
                to
            };
            captured = self.remove_piece(cap_sq);
        }
        let placed = match m.promotion {
            Some(pk) => Piece::from_kind(pk, us),
            None => moving,
        };
        self.put_piece(placed, to);
        if m.castle {
            let rook_from: usize = if to > from {
                to + 1
            } else {
                to - 2
            };
            let rook_to: usize = if to > from {
                to - 1
            } else {
                to + 1
            };
            let rook = self.remove_piece(rook_from);
            self.put_piece(rook, rook_to);
        }
        proof {
            assert(self.piece_on@ =~= pre.after_squares(m));
        }
        captured
    }

    /// Plays a pseudo-legal move: moves the piece (promoting it when asked), removes
    /// the captured piece, moves the rook of a castle, updates the en-passant square,
    /// the half-move clock, the castling rights, the move number and the side to
    /// move, and appends the new hash to the history.
    pub fn make_move(&mut self, m: Move) -> (undo: Undo)
        requires
            old(self).wf(),
            old(self).pseudo_legal(m),
            old(self).halfmove_clock < i32::MAX,
            old(self).fullmove_number < i32::MAX,
            (m.double_push && old(self).turn == Color::Black) ==> m.from >= 8,
        ensures
            final(self).wf(),
            final(self).piece_on@ == old(self).after_squares(m),
            final(self).turn == old(self).turn.spec_other(),
            final(self).castle == rights_after(
                old(self).castle,
                old(self).piece_on[m.from as int],
                m.from as int,
                m.to as int,
                m.capture,
            ),
            final(self).en_passant_sq == old(self).after_ep(m),
            final(self).halfmove_clock == old(self).after_halfmove(m),
            final(self).fullmove_number == old(self).fullmove_number + (if old(self).turn
                == Color::Black {
                1int
            } else {
                0int
            }),
            final(self).history@ == old(self).history@.push(final(self).zobrist),
            old(self).hash_ok() ==> final(self).hash_ok(),
            undo.captured_piece == (if m.capture {
                old(self).piece_on[old(self).cap_sq(m)]
            } else {
                Piece::Empty
            }),
            undo.old_castle == old(self).castle,
            undo.old_en_passant_sq == old(self).en_passant_sq,
            undo.old_halfmove_clock == old(self).halfmove_clock,
            final(self).model == old(self).model,
            old(self).piece_on[m.from as int].spec_kind() == Some(PieceKind::King) ==> refreshed(final(self).model, *final(self), final(self).accumulator),
            old(self).piece_on[m.from as int].spec_kind() != Some(PieceKind::King) ==> updated_by(
                old(self).accumulator,
                final(self).accumulator,
                final(self).model,
                king_sq_of(*final(self), Color::White),
                king_sq_of(*final(self), Color::Black),
                old(self).move_updates(m),
            ),
            final(self).can_unmake(m, undo),
            final(self).before_squares(m, undo) == old(self).piece_on@,
            old(self).consistent() && sane_move(m) ==> final(self).consistent(),
    {
        let ghost pre = *self;
        proof {
            self.lemma_pseudo_legal_movable(m);
        }
        let from = m.from as usize;
        let to = m.to as usize;
        let us = self.turn;
        let moving = self.piece_on[from];
        let mut undo = Undo {
            captured_piece: Piece::Empty,
            old_castle: self.castle,
            old_en_passant_sq: self.en_passant_sq,
            old_halfmove_clock: self.halfmove_clock,
        };
        let z0 = self.zobrist;
        if self.en_passant_sq != NO_SQ {
            let k = ep_key((self.en_passant_sq % 8) as usize);
            self.zobrist = z0 ^ k;
        } else {
            assert(z0 ^ 0u64 == z0) by {
                crate::bits::lemma_xor_facts();
            }
        }
        let z1 = self.zobrist;
        self.en_passant_sq = NO_SQ;
        let captured = self.move_pieces(m);
        undo.captured_piece = captured;
        let z2 = self.zobrist;
        if m.double_push {
            let ep: usize = if us == Color::White {
                from + 8
            } else {
                from - 8
            };
            self.en_passant_sq = ep as i32;
            let k = ep_key(ep % 8);
            self.zobrist = z2 ^ k;
        } else {
            assert(z2 ^ 0u64 == z2) by {
                crate::bits::lemma_xor_facts();
            }
        }
        let z3 = self.zobrist;
        if moving.kind() == Some(PieceKind::Pawn) || m.capture {
            self.halfmove_clock = 0;
        } else {
            self.halfmove_clock = self.halfmove_clock + 1;
        }
        let c0 = self.castle;
        assert(c0 & 0xFu8 < 16) by {
            crate::bits::lemma_castle_masks();
        }
        let kc0 = castle_key(c0 & 0xF);
        let c = castle_rights_after(c0, moving, from, to, m.capture);
        self.castle = c;
        assert(c & 0xFu8 < 16) by {
            crate::bits::lemma_castle_masks();
        }
        let kc1 = castle_key(c & 0xF);
        let sk = side_key();
        self.zobrist = z3 ^ kc0 ^ kc1 ^ sk;
        if us == Color::Black {
            self.fullmove_number = self.fullmove_number + 1;
        }
        self.turn = us.other();
        self.history.push(self.zobrist);
        let ghost before_acc = *self;
        if moving.kind() == Some(PieceKind::King) {
            self.accumulator = refresh_accumulator(self);
        } else {
            let mut updates: Vec<UpdateBody> = Vec::new();
            updates.push(UpdateBody { piece: moving, sq: from, add: false });
            if m.capture && !captured.is_empty() {
                let cap_sq: usize = if m.en_passant {
                    if us == Color::White {
                        to - 8
                    } else {
                        to + 8
                    }
                } else {
                    to
                };
                updates.push(UpdateBody { piece: captured, sq: cap_sq, add: false });
            }
            let added = match m.promotion {
                Some(pk) => Piece::from_kind(pk, us),
                None => moving,
            };
            updates.push(UpdateBody { piece: added, sq: to, add: true });
            proof {
                assert(updates@ =~= pre.move_updates(m));
                vstd::std_specs::bits::axiom_u64_trailing_zeros(self.piece_bb[Piece::WK.spec_index() as int]);
                vstd::std_specs::bits::axiom_u64_trailing_zeros(self.piece_bb[Piece::BK.spec_index() as int]);
            }
            let wk = self.king_square(Color::White) as usize;
            let bk = self.king_square(Color::Black) as usize;
            let model = self.model;
            update_accumulator(&mut self.accumulator, model, wk, bk, updates.as_slice());
        }
        proof {
            lemma_make_hash(pre, before_acc, z0, z1, z2, z3, kc0, kc1, sk);
            lemma_unmake_inverts_make(pre, *self, m, undo);
            if pre.consistent() && sane_move(m) {
                lemma_make_keeps_consistent(pre, *self, m);
            }
        }
        undo
    }

    /// The conditions `unmake_move` needs: the position looks like one that the
    /// move produced (its origin empty, its target occupied, the captured and rook
    /// squares in place) and the saved fields are in range.
    pub open spec fn can_unmake(&self, m: Move, u: Undo) -> bool {
        let from = m.from as int;
        let to = m.to as int;
        let mover = self.turn.spec_other();
        let cap = if m.en_passant {
            if mover == Color::White {
                to - 8
            } else {
                to + 8
            }
        } else {
            to
        };
        let rf = rook_from_sq(m);
        let rt = rook_to_sq(m);
        &&& self.bb_wf()
        &&& self.model_ok()
        &&& from < 64 && to < 64 && from != to
        &&& !self.occupied(from) && self.occupied(to)
        &&& (m.capture && m.en_passant) ==> (0 <= cap < 64 && cap != from && cap != to
            && !self.occupied(cap))
        &&& m.castle ==> (!m.en_passant && 0 <= rf < 64 && 0 <= rt < 64 && rf != from && rf != to
            && rt != from && rt != to && rf != rt && self.occupied(rt) && !self.occupied(rf))
        &&& (u.old_en_passant_sq == -1 || 0 <= u.old_en_passant_sq < 72)
        &&& u.old_halfmove_clock >= 0
        &&& (mover == Color::Black ==> self.fullmove_number > i32::MIN)
    }

    /// The mailbox before the move, as `unmake_move` rebuilds it.
    pub open spec fn before_squares(&self, m: Move, u: Undo) -> Seq<Piece> {
        let from = m.from as int;
        let to = m.to as int;
        let mover = self.turn.spec_other();
        let piece_on_to = self.piece_on[to];
        let moving = if m.promotion.is_some() {
            Piece::spec_from_kind(PieceKind::Pawn, mover)
        } else {
            piece_on_to
        };
        let cap = if m.en_passant {
            if mover == Color::White {
                to - 8
            } else {
                to + 8
            }
        } else {
            to
        };
        let s1 = self.piece_on@.update(to, Piece::Empty).update(from, moving);
        let s2 = if m.capture && u.captured_piece != Piece::Empty {
            s1.update(cap, u.captured_piece)
        } else {
            s1
        };
        if m.castle {
            let rf = rook_from_sq(m);
            let rt = rook_to_sq(m);
            s2.update(rt, Piece::Empty).update(rf, s2[rt])
        } else {
            s2
        }
    }

    /// Takes back the move `m` that produced this position, with the `Undo` that
    /// `make_move` returned: restores the pieces, the side to move, the move number,
    /// the castling rights, en-passant square and half-move clock, drops the last
    /// history entry and takes the hash from the entry before it.
    #[verifier::rlimit(40)]
    pub fn unmake_move(&mut self, m: Move, u: Undo)
        requires
            old(self).can_unmake(m, u),
        ensures
            final(self).wf(),
            final(self).piece_on@ == old(self).before_squares(m, u),
            final(self).turn == old(self).turn.spec_other(),
            final(self).fullmove_number == old(self).fullmove_number - (if final(self).turn
                == Color::Black {
                1int
            } else {
                0int
            }),
            final(self).castle == u.old_castle,
            final(self).en_passant_sq == u.old_en_passant_sq,
            final(self).halfmove_clock == u.old_halfmove_clock,
            final(self).history@ == (if old(self).history@.len() > 0 {
                old(self).history@.drop_last()
            } else {
                old(self).history@
            }),
            final(self).zobrist == (if final(self).history@.len() > 0 {
                final(self).history@.last()
            } else {
                0u64
            }),
            final(self).model == old(self).model,
            (m.promotion.is_none() && old(self).piece_on[m.to as int].spec_kind() == Some(PieceKind::King)) ==> refreshed(final(self).model, *final(self), final(self).accumulator),
            !(m.promotion.is_none() && old(self).piece_on[m.to as int].spec_kind() == Some(PieceKind::King)) ==> updated_by(
                old(self).accumulator,
                final(self).accumulator,
                final(self).model,
                king_sq_of(*old(self), Color::White),
                king_sq_of(*old(self), Color::Black),
                old(self).unmake_updates(m, u),
            ),
    {
        let ghost pre = *self;
        let from = m.from as usize;
        let to = m.to as usize;
        let mover = self.turn.other();
        let piece_on_to = self.piece_on[to];
        let moving_piece = if m.promotion.is_some() {
            Piece::from_kind(PieceKind::Pawn, mover)
        } else {
            piece_on_to
        };
        let is_king_move = moving_piece.kind() == Some(PieceKind::King);
        if !is_king_move {
            let mut updates: Vec<UpdateBody> = Vec::new();
            updates.push(UpdateBody { piece: piece_on_to, sq: to, add: false });
            updates.push(UpdateBody { piece: moving_piece, sq: from, add: true });
            if m.capture && !u.captured_piece.is_empty() {
                let cap_sq: usize = if m.en_passant {
                    if mover == Color::White {
                        to - 8
                    } else {
                        to + 8
                    }
                } else {
                    to
                };
                updates.push(UpdateBody { piece: u.captured_piece, sq: cap_sq, add: true });
            }
            proof {
                assert(updates@ =~= pre.unmake_updates(m, u));
                vstd::std_specs::bits::axiom_u64_trailing_zeros(self.piece_bb[Piece::WK.spec_index() as int]);
                vstd::std_specs::bits::axiom_u64_trailing_zeros(self.piece_bb[Piece::BK.spec_index() as int]);
                pre.lemma_occupied();
            }
            let wk = self.king_square(Color::White) as usize;
            let bk = self.king_square(Color::Black) as usize;
            let model = self.model;
            update_accumulator(&mut self.accumulator, model, wk, bk, updates.as_slice());
        }
        self.remove_piece(to);
        self.put_piece(moving_piece, from);
        if m.capture {
            let cap_sq: usize = if m.en_passant {
                if mover == Color::White {
                    to - 8
                } else {
                    to + 8
                }
            } else {
                to
            };
            let captured = u.captured_piece;
            if !captured.is_empty() {
                self.put_piece(captured, cap_sq);
            }
        }
        if m.castle {
            let rook_from: usize = if to > from {
                to + 1
            } else {
                to - 2
            };
            let rook_to: usize = if to > from {
                to - 1
            } else {
                to + 1
            };
            let rook = self.remove_piece(rook_to);
            self.put_piece(rook, rook_from);
        }
        proof {
            assert(self.piece_on@ =~= pre.before_squares(m, u));
        }
        self.history.pop();
        let n = self.history.len();
        self.zobrist = if n > 0 {
            self.history[n - 1]
        } else {
            0
        };
        self.turn = mover;
        if self.turn == Color::Black {
            self.fullmove_number = self.fullmove_number - 1;
        }
        self.castle = u.old_castle;
        self.en_passant_sq = u.old_en_passant_sq;
        self.halfmove_clock = u.old_halfmove_clock;
        if is_king_move {
            self.accumulator = refresh_accumulator(self);
        }
    }
}


/// Taking a move back restores the mailbox: for a pseudo-legal move on a
/// well-formed board, the position that `make_move` leaves (described by its
/// postconditions) meets `unmake_move`'s precondition, and the mailbox that
/// `unmake_move` rebuilds from it, with the returned `Undo`, is the mailbox it started from.
pub proof fn lemma_unmake_inverts_make(b: Board, a: Board, m: Move, u: Undo)
    requires
        b.wf(),
        b.pseudo_legal(m),
        b.fullmove_number < i32::MAX,
        a.bb_wf(),
        a.model_ok(),
        a.piece_on@ == b.after_squares(m),
        a.turn == b.turn.spec_other(),
        a.fullmove_number == b.fullmove_number + (if b.turn == Color::Black {
            1int
        } else {
            0int
        }),
        u.captured_piece == (if m.capture {
            b.piece_on[b.cap_sq(m)]
        } else {
            Piece::Empty
        }),
        u.old_castle == b.castle,
        u.old_en_passant_sq == b.en_passant_sq,
        u.old_halfmove_clock == b.halfmove_clock,
    ensures
        a.can_unmake(m, u),
        a.before_squares(m, u) == b.piece_on@,
{
    b.lemma_pseudo_legal_movable(m);
    assert(a.before_squares(m, u) =~= b.piece_on@);
}


/// The bitboards are a function of the mailbox.
pub proof fn lemma_bb_determined(x: Board, y: Board)
    requires
        x.bb_wf(),
        y.bb_wf(),
        x.piece_on@ == y.piece_on@,
    ensures
        x.piece_bb@ == y.piece_bb@,
        x.w_pieces == y.w_pieces,
        x.b_pieces == y.b_pieces,
        x.all_pieces == y.all_pieces,
{
    assert forall|p: int| 0 <= p < 13 implies x.piece_bb@[p] == y.piece_bb@[p] by {
        assert forall|s: int| 0 <= s < 64 implies #[trigger] bit(x.piece_bb[p], s) == bit(y.piece_bb[p], s) by {
            assert(x.piece_on[s] == x.piece_on@[s]);
            assert(y.piece_on[s] == y.piece_on@[s]);
        }
        lemma_bits_ext(x.piece_bb[p], y.piece_bb[p]);
    }
    assert(x.piece_bb@ =~= y.piece_bb@);
    assert forall|s: int| 0 <= s < 64 implies #[trigger] bit(x.w_pieces, s) == bit(y.w_pieces, s) by {
        assert(x.piece_on[s] == x.piece_on@[s]);
        assert(y.piece_on[s] == y.piece_on@[s]);
    }
    lemma_bits_ext(x.w_pieces, y.w_pieces);
    assert forall|s: int| 0 <= s < 64 implies #[trigger] bit(x.b_pieces, s) == bit(y.b_pieces, s) by {
        assert(x.piece_on[s] == x.piece_on@[s]);
        assert(y.piece_on[s] == y.piece_on@[s]);
    }
    lemma_bits_ext(x.b_pieces, y.b_pieces);
}

/// Making a move and taking it back gives the same position: mailbox, bitboards,
/// side to move, castling rights, en-passant square, counters and history; the
/// hash becomes the last history entry, which is the hash before the move when
/// the history ended with it.
pub proof fn lemma_make_unmake_restores(b: Board, a: Board, c: Board, m: Move, u: Undo)
    requires
        b.wf(),
        b.pseudo_legal(m),
        b.fullmove_number < i32::MAX,
        a.bb_wf(),
        a.model_ok(),
        a.piece_on@ == b.after_squares(m),
        a.turn == b.turn.spec_other(),
        a.fullmove_number == b.fullmove_number + (if b.turn == Color::Black {
            1int
        } else {
            0int
        }),
        a.history@ == b.history@.push(a.zobrist),
        u.captured_piece == (if m.capture {
            b.piece_on[b.cap_sq(m)]
        } else {
            Piece::Empty
        }),
        u.old_castle == b.castle,
        u.old_en_passant_sq == b.en_passant_sq,
        u.old_halfmove_clock == b.halfmove_clock,
        c.wf(),
        c.piece_on@ == a.before_squares(m, u),
        c.turn == a.turn.spec_other(),
        c.fullmove_number == a.fullmove_number - (if c.turn == Color::Black {
            1int
        } else {
            0int
        }),
        c.castle == u.old_castle,
        c.en_passant_sq == u.old_en_passant_sq,
        c.halfmove_clock == u.old_halfmove_clock,
        c.history@ == (if a.history@.len() > 0 {
            a.history@.drop_last()
        } else {
            a.history@
        }),
        c.zobrist == (if c.history@.len() > 0 {
            c.history@.last()
        } else {
            0u64
        }),
    ensures
        b.history_ok() ==> c.same_position(&b),
        c.same_position_but_hash(&b),
        c.zobrist == (if b.history@.len() > 0 {
            b.history@.last()
        } else {
            0u64
        }),
{
    lemma_unmake_inverts_make(b, a, m, u);
    lemma_bb_determined(c, b);
    assert(b.history@.push(a.zobrist).drop_last() =~= b.history@);
}


/// A move whose flags the generator could have made: promotions only to queen,
/// rook, bishop or knight, and no capture that is also a double push.
pub open spec fn sane_move(m: Move) -> bool {
    &&& (m.promotion.is_some() ==> crate::movegen::promo_kind(m.promotion.unwrap()))
    &&& !(m.capture && m.double_push)
}

/// Making a pseudo-legal move with sane flags keeps a position consistent.
pub proof fn lemma_make_keeps_consistent(b: Board, a: Board, m: Move)
    requires
        b.wf(),
        b.consistent(),
        b.pseudo_legal(m),
        sane_move(m),
        a.piece_on@ == b.after_squares(m),
        a.turn == b.turn.spec_other(),
        a.castle == rights_after(b.castle, b.piece_on[m.from as int], m.from as int, m.to as int, m.capture),
        a.en_passant_sq == b.after_ep(m),
    ensures
        a.consistent(),
{
    let from = m.from as int;
    let to = m.to as int;
    let moving = b.piece_on[from];
    b.lemma_pseudo_legal_movable(m);
    // Which squares change, and to what.
    assert forall|x: int|
        0 <= x < 64 && x != from && x != to && (!m.capture || x != b.cap_sq(m)) && (!m.castle || (x
            != rook_from_sq(m) && x != rook_to_sq(m))) implies #[trigger] a.piece_on[x] == b.piece_on[x] by {
        assert(a.piece_on[x] == a.piece_on@[x]);
    }
    assert(a.piece_on[from] == Piece::Empty) by {
        assert(a.piece_on[from] == a.piece_on@[from]);
    }
    let placed = match m.promotion {
        Some(pk) => Piece::spec_from_kind(pk, b.turn),
        None => moving,
    };
    assert(a.piece_on[to] == placed) by {
        assert(a.piece_on[to] == a.piece_on@[to]);
    }
    if m.capture && b.cap_sq(m) != to {
        assert(a.piece_on[b.cap_sq(m)] == Piece::Empty) by {
            assert(a.piece_on[b.cap_sq(m)] == a.piece_on@[b.cap_sq(m)]);
        }
    }
    if m.castle {
        assert(a.piece_on[rook_from_sq(m)] == Piece::Empty) by {
            assert(a.piece_on[rook_from_sq(m)] == a.piece_on@[rook_from_sq(m)]);
        }
        assert(a.piece_on[rook_to_sq(m)] == b.piece_on[rook_from_sq(m)]) by {
            assert(a.piece_on[rook_to_sq(m)] == a.piece_on@[rook_to_sq(m)]);
        }
    }
    // Kings: a king stands in the new position only where one stood before,
    // or on the target of a king move.
    assert forall|x: int| 0 <= x < 64 && #[trigger] a.piece_on[x] == Piece::WK implies (x != from
        && b.piece_on[x] == Piece::WK) || (x == to && moving == Piece::WK) by {
    }
    assert forall|x: int| 0 <= x < 64 && #[trigger] a.piece_on[x] == Piece::BK implies (x != from
        && b.piece_on[x] == Piece::BK) || (x == to && moving == Piece::BK) by {
    }
    assert(a.one_king(Color::White));
    assert(a.one_king(Color::Black));
    let c0 = b.castle;
    let c1 = a.castle;
    crate::bits::lemma_castle_masks();
    assert(c1 & 3u8 != 0 ==> c0 & 3u8 != 0) by {
        let k1 = if moving == Piece::WK {
            c0 & !(1u8 | 2u8)
        } else if moving == Piece::BK {
            c0 & !(4u8 | 8u8)
        } else {
            c0
        };
        assert(k1 & 3u8 != 0 ==> c0 & 3u8 != 0);
        let k2 = corner_clear(k1, from);
        assert(k2 & 3u8 != 0 ==> k1 & 3u8 != 0);
        let k3 = if m.capture {
            corner_clear(k2, to)
        } else {
            k2
        };
        assert(k3 & 3u8 != 0 ==> k2 & 3u8 != 0);
    }
    assert(c1 & 12u8 != 0 ==> c0 & 12u8 != 0) by {
        let k1 = if moving == Piece::WK {
            c0 & !(1u8 | 2u8)
        } else if moving == Piece::BK {
            c0 & !(4u8 | 8u8)
        } else {
            c0
        };
        assert(k1 & 12u8 != 0 ==> c0 & 12u8 != 0);
        let k2 = corner_clear(k1, from);
        assert(k2 & 12u8 != 0 ==> k1 & 12u8 != 0);
        let k3 = if m.capture {
            corner_clear(k2, to)
        } else {
            k2
        };
        assert(k3 & 12u8 != 0 ==> k2 & 12u8 != 0);
    }
    if moving == Piece::WK {
        let k1 = c0 & !(1u8 | 2u8);
        assert(k1 & 3u8 == 0);
        let k2 = corner_clear(k1, from);
        assert(k2 & 3u8 == 0);
        let k3 = if m.capture {
            corner_clear(k2, to)
        } else {
            k2
        };
        assert(k3 & 3u8 == 0);
    }
    if moving == Piece::BK {
        let k1 = c0 & !(4u8 | 8u8);
        assert(k1 & 12u8 == 0);
        let k2 = corner_clear(k1, from);
        assert(k2 & 12u8 == 0);
        let k3 = if m.capture {
            corner_clear(k2, to)
        } else {
            k2
        };
        assert(k3 & 12u8 == 0);
    }
    if c1 & 3u8 != 0 && a.piece_on[4] != Piece::WK {
        assert forall|x: int| 0 <= x < 64 implies #[trigger] a.piece_on[x] != Piece::WK by {
            if a.piece_on[x] == Piece::WK {
                if b.piece_on[4] == Piece::WK {
                    assert(x != 4);
                }
            }
        }
    }
    if c1 & 12u8 != 0 && a.piece_on[60] != Piece::BK {
        assert forall|x: int| 0 <= x < 64 implies #[trigger] a.piece_on[x] != Piece::BK by {
            if a.piece_on[x] == Piece::BK {
                if b.piece_on[60] == Piece::BK {
                    assert(x != 60);
                }
            }
        }
    }
    if m.double_push {
        let mid = from + b.pawn_dir_of();
        assert(a.piece_on[mid] == b.piece_on[mid]);
    }
}


impl Board {
    /// Passes the turn: clears the en-passant square, flips the side to move, counts
    /// a half-move and appends the new hash to the history. The pieces stay put.
    pub fn make_null_move(&mut self) -> (undo: Undo)
        requires
            old(self).wf(),
            old(self).halfmove_clock < i32::MAX,
        ensures
            final(self).wf(),
            final(self).piece_on@ == old(self).piece_on@,
            final(self).piece_bb@ == old(self).piece_bb@,
            final(self).w_pieces == old(self).w_pieces,
            final(self).b_pieces == old(self).b_pieces,
            final(self).all_pieces == old(self).all_pieces,
            final(self).turn == old(self).turn.spec_other(),
            final(self).castle == old(self).castle,
            final(self).en_passant_sq == NO_SQ,
            final(self).halfmove_clock == old(self).halfmove_clock + 1,
            final(self).fullmove_number == old(self).fullmove_number,
            final(self).zobrist == old(self).zobrist ^ (if old(self).en_passant_sq != NO_SQ {
                spec_ep_key(old(self).en_passant_sq as int % 8)
            } else {
                0u64
            }) ^ spec_side_key(),
            final(self).history@ == old(self).history@.push(final(self).zobrist),
            old(self).hash_ok() ==> final(self).hash_ok(),
            final(self).accumulator == old(self).accumulator,
            final(self).model == old(self).model,
            undo.captured_piece == Piece::Empty,
            undo.old_castle == old(self).castle,
            undo.old_en_passant_sq == old(self).en_passant_sq,
            undo.old_halfmove_clock == old(self).halfmove_clock,
    {
        let undo = Undo {
            captured_piece: Piece::Empty,
            old_castle: self.castle,
            old_en_passant_sq: self.en_passant_sq,
            old_halfmove_clock: self.halfmove_clock,
        };
        let z0 = self.zobrist;
        let ghost ep0 = self.en_passant_sq;
        let mut z1 = z0;
        if self.en_passant_sq != NO_SQ {
            z1 = z0 ^ ep_key((self.en_passant_sq % 8) as usize);
            self.en_passant_sq = NO_SQ;
        } else {
            assert(z0 ^ 0u64 == z0) by {
                crate::bits::lemma_xor_facts();
            }
        }
        self.turn = self.turn.other();
        let sk = side_key();
        self.zobrist = z1 ^ sk;
        self.halfmove_clock = self.halfmove_clock + 1;
        self.history.push(self.zobrist);
        proof {
            let sq = squares_hash(self.piece_on@, 64);
            let ck = spec_castle_key(self.castle & 15u8);
            let ek: u64 = if ep0 != -1 { spec_ep_key(ep0 as int % 8) } else { 0u64 };
            let side0: u64 = if self.turn == Color::White { spec_side_key() } else { 0u64 };
            let side1: u64 = if self.turn == Color::Black { spec_side_key() } else { 0u64 };
            assert(side1 == side0 ^ sk) by {
                if self.turn == Color::Black {
                    crate::bits::lemma_xor_facts();
                } else {
                    crate::bits::lemma_xor_facts();
                }
            }
            assert((sq ^ ck ^ ek ^ side0) ^ ek ^ sk == sq ^ ck ^ 0u64 ^ (side0 ^ sk)) by (bit_vector);
        }
        undo
    }

    /// Takes back a null move with the `Undo` that `make_null_move` returned: drops
    /// the last history entry, takes the hash from the entry before it, flips the side
    /// to move back and restores the en-passant square and half-move clock.
    pub fn unmake_null_move(&mut self, u: Undo)
        requires
            old(self).bb_wf(),
            old(self).model_ok(),
            u.old_en_passant_sq == -1 || 0 <= u.old_en_passant_sq < 72,
            u.old_halfmove_clock >= 0,
        ensures
            final(self).wf(),
            final(self).piece_on@ == old(self).piece_on@,
            final(self).piece_bb@ == old(self).piece_bb@,
            final(self).w_pieces == old(self).w_pieces,
            final(self).b_pieces == old(self).b_pieces,
            final(self).all_pieces == old(self).all_pieces,
            final(self).turn == old(self).turn.spec_other(),
            final(self).castle == old(self).castle,
            final(self).en_passant_sq == u.old_en_passant_sq,
            final(self).halfmove_clock == u.old_halfmove_clock,
            final(self).fullmove_number == old(self).fullmove_number,
            final(self).model == old(self).model,
            final(self).history@ == (if old(self).history@.len() > 0 {
                old(self).history@.drop_last()
            } else {
                old(self).history@
            }),
            final(self).zobrist == (if final(self).history@.len() > 0 {
                final(self).history@.last()
            } else {
                0u64
            }),
            final(self).accumulator == old(self).accumulator,
    {
        self.history.pop();
        let n = self.history.len();
        self.zobrist = if n > 0 {
            self.history[n - 1]
        } else {
            0
        };
        self.turn = self.turn.other();
        self.en_passant_sq = u.old_en_passant_sq;
        self.halfmove_clock = u.old_halfmove_clock;
    }
}

/// A null move taken back leaves the position as it was: same pieces, side to move,
/// castling rights, en-passant square, clocks, history and (when the history ended
/// in the current hash) the same hash.
pub proof fn lemma_null_move_roundtrip(b: Board, a: Board, c: Board, u: Undo)
    requires
        b.wf(),
        b.halfmove_clock < i32::MAX,
        a.wf(),
        a.piece_on@ == b.piece_on@,
        a.piece_bb@ == b.piece_bb@,
        a.w_pieces == b.w_pieces,
        a.b_pieces == b.b_pieces,
        a.all_pieces == b.all_pieces,
        a.turn == b.turn.spec_other(),
        a.castle == b.castle,
        a.en_passant_sq == NO_SQ,
        a.halfmove_clock == b.halfmove_clock + 1,
        a.fullmove_number == b.fullmove_number,
        a.history@ == b.history@.push(a.zobrist),
        u.captured_piece == Piece::Empty,
        u.old_castle == b.castle,
        u.old_en_passant_sq == b.en_passant_sq,
        u.old_halfmove_clock == b.halfmove_clock,
        c.piece_on@ == a.piece_on@,
        c.piece_bb@ == a.piece_bb@,
        c.w_pieces == a.w_pieces,
        c.b_pieces == a.b_pieces,
        c.all_pieces == a.all_pieces,
        c.turn == a.turn.spec_other(),
        c.castle == a.castle,
        c.en_passant_sq == u.old_en_passant_sq,
        c.halfmove_clock == u.old_halfmove_clock,
        c.fullmove_number == a.fullmove_number,
        c.history@ == a.history@.drop_last(),
        c.zobrist == (if c.history@.len() > 0 {
            c.history@.last()
        } else {
            0u64
        }),
    ensures
        c.piece_on@ == b.piece_on@,
        c.turn == b.turn,
        c.castle == b.castle,
        c.en_passant_sq == b.en_passant_sq,
        c.halfmove_clock == b.halfmove_clock,
        c.fullmove_number == b.fullmove_number,
        c.history@ == b.history@,
        b.history_ok() ==> c.zobrist == b.zobrist,
{
    assert(a.history@.drop_last() =~= b.history@);
}

/// Generated moves have flags the generator makes.
pub proof fn lemma_generated_is_sane(b: Board, m: Move)
    requires
        b.gen_move(m),
    ensures
        sane_move(m),
{
}

/// Moves decoded from a 16-bit code have sane flags and lie on the board.
pub proof fn lemma_decoded_is_sane(c: u16)
    ensures
        sane_move(crate::types::spec_move_from_u16(c)),
        crate::types::spec_move_from_u16(c).from < 64,
        crate::types::spec_move_from_u16(c).to < 64,
{
    assert((c & 0x3Fu16) < 64 && ((c >> 6u16) & 0x3Fu16) < 64) by (bit_vector);
}

} // verus!
