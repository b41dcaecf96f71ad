//! The board: a mailbox of 64 squares with bitboards derived from it, the side to
//! move, castling rights, en-passant square, move counters and hash history.
use vstd::prelude::*;
use crate::bits::{
    bit, lemma_bit_and, lemma_bit_not, lemma_bit_or, lemma_bit_single, lemma_bit_zero,
    lemma_zero_iff_no_bits, sq_bb,
};
use crate::magics::{
    bishop_att, black_pawn_attacks, black_pawn_rel, get_bishop_attacks, get_rook_attacks,
    king_attacks_from, king_rel, knight_attacks_from, knight_rel, rook_att, white_pawn_attacks,
    white_pawn_rel,
};
use crate::nnue::Model;
use crate::types::{Accumulator, Bitboard, Color, Piece, PieceKind, ZKey, NO_SQ};
use crate::zobrist::{
    castle_key, ep_key, lemma_squares_hash_update, piece_key, side_key, spec_castle_key,
    spec_ep_key, spec_piece_key, spec_side_key, squares_hash,
};

verus! {

#[derive(Clone)]
pub struct Board {
    pub piece_bb: [Bitboard; 13],
    pub piece_on: [Piece; 64],
    pub w_pieces: Bitboard,
    pub b_pieces: Bitboard,
    pub all_pieces: Bitboard,
    pub turn: Color,
    pub castle: u8,
    pub en_passant_sq: i32,
    pub halfmove_clock: i32,
    pub fullmove_number: i32,
    pub history: Vec<ZKey>,
    pub zobrist: ZKey,
    pub accumulator: Accumulator,
    pub model: Option<&'static Model>,
}

/// Number of positions `i` with `lo <= i < hi` whose key in `h` equals `key`.
pub open spec fn count_key(h: Seq<u64>, lo: int, hi: int, key: u64) -> nat
    decreases hi - lo,
{
    if hi <= lo {
        0
    } else {
        count_key(h, lo, hi - 1, key) + if h[hi - 1] == key {
            1nat
        } else {
            0nat
        }
    }
}

impl Board {
    /// The bitboards agree with the mailbox.
    pub open spec fn bb_wf(&self) -> bool {
        &&& forall|p: int, s: int|
            0 <= p < 13 && 0 <= s < 64 ==> (#[trigger] bit(self.piece_bb[p], s) <==> (p != 0
                && self.piece_on[s].spec_index() == p))
        &&& forall|s: int|
            0 <= s < 64 ==> (#[trigger] bit(self.w_pieces, s) <==> self.piece_on[s].spec_color()
                == Some(Color::White))
        &&& forall|s: int|
            0 <= s < 64 ==> (#[trigger] bit(self.b_pieces, s) <==> self.piece_on[s].spec_color()
                == Some(Color::Black))
        &&& self.all_pieces == (self.w_pieces | self.b_pieces)
    }

    /// A board that the move functions accept: bitboards agree with the mailbox,
    /// the en-passant square is `NO_SQ` or at most one rank past the board (a capture
    /// flagged as a double push from the last rank leaves it there), the half-move
    /// clock is not negative.
    pub open spec fn wf(&self) -> bool {
        &&& self.bb_wf()
        &&& self.model_ok()
        &&& (self.en_passant_sq == -1 || 0 <= self.en_passant_sq < 72)
        &&& 0 <= self.halfmove_clock
    }

    /// The network the board evaluates with, if any, has layers of the right sizes.
    pub open spec fn model_ok(&self) -> bool {
        self.model matches Some(m) ==> m.wf()
    }

    /// Square `s` holds a piece.
    pub open spec fn occupied(&self, s: int) -> bool {
        !self.piece_on[s].spec_is_empty()
    }

    /// The full Zobrist hash of the position.
    pub open spec fn pos_hash(&self) -> u64 {
        squares_hash(self.piece_on@, 64) ^ spec_castle_key(self.castle & 15u8) ^ (if self.en_passant_sq
            != -1 {
            spec_ep_key(self.en_passant_sq as int % 8)
        } else {
            0u64
        }) ^ (if self.turn == Color::Black {
            spec_side_key()
        } else {
            0u64
        })
    }

    /// The stored hash is the hash of the position.
    pub open spec fn hash_ok(&self) -> bool {
        self.zobrist == self.pos_hash()
    }

    /// The last entry of the history is the current hash.
    pub open spec fn history_ok(&self) -> bool {
        self.history@.len() >= 1 && self.history@.last() == self.zobrist
    }

    /// A piece of colour `by` on `s` attacks `t`, seen from `t` as the board's attack
    /// test looks: a pawn pattern from `t` of the opposite colour, a leaper pattern,
    /// or a slider ray from `t` over the current occupancy that ends on `s`.
    pub open spec fn attacker_on(&self, s: int, t: int, by: Color) -> bool {
        let p = self.piece_on[s];
        let occ = self.all_pieces;
        p.spec_color() == Some(by) && match p.spec_kind() {
            Some(PieceKind::Pawn) => if by == Color::White {
                black_pawn_rel(t, s)
            } else {
                white_pawn_rel(t, s)
            },
            Some(PieceKind::Knight) => knight_rel(t, s),
            Some(PieceKind::King) => king_rel(t, s),
            Some(PieceKind::Bishop) => bishop_att(t, occ, s),
            Some(PieceKind::Rook) => rook_att(t, occ, s),
            Some(PieceKind::Queen) => bishop_att(t, occ, s) || rook_att(t, occ, s),
            None => false,
        }
    }

    /// Square `t` is attacked by some piece of colour `by`.
    pub open spec fn attacked(&self, t: int, by: Color) -> bool {
        exists|s: int| 0 <= s < 64 && #[trigger] self.attacker_on(s, t, by)
    }

    /// Number of earlier positions in the reversible stretch with the current hash.
    pub open spec fn spec_repetitions(&self) -> nat {
        let n = self.history@.len() as int;
        let k = if (self.halfmove_clock as int) < n {
            self.halfmove_clock as int
        } else {
            n
        };
        count_key(self.history@, n - k, n - 1, self.zobrist)
    }

    /// Square `k` holds the king of colour `c` and no lower square does.
    pub open spec fn first_king_of(&self, c: Color, k: int) -> bool {
        let kp = Piece::spec_from_kind(PieceKind::King, c);
        0 <= k < 64 && self.piece_on[k] == kp && forall|t: int| 0 <= t < k ==> self.piece_on[t] != kp
    }

    /// The king of the side not to move, if it has one, is not attacked: the last
    /// move did not leave its own king en prise.
    pub open spec fn king_untouchable(&self) -> bool {
        forall|k: int| #[trigger] self.first_king_of(self.turn.spec_other(), k) ==> !self.attacked(k, self.turn)
    }

    /// Colour `c` has at most one king.
    pub open spec fn one_king(&self, c: Color) -> bool {
        let kp = Piece::spec_from_kind(PieceKind::King, c);
        forall|s: int, t: int|
            0 <= s < 64 && 0 <= t < 64 && #[trigger] self.piece_on[s] == kp && #[trigger] self.piece_on[t]
                == kp ==> s == t
    }

    /// Colour `c` has no king.
    pub open spec fn no_king(&self, c: Color) -> bool {
        let kp = Piece::spec_from_kind(PieceKind::King, c);
        forall|s: int| 0 <= s < 64 ==> #[trigger] self.piece_on[s] != kp
    }

    /// A position that the move generator and `make_move` agree on: each side has
    /// at most one king; a side holding a castling right has its king on its home
    /// square or no king at all; an en-passant square is an empty square with an
    /// enemy pawn just behind it.
    pub open spec fn consistent(&self) -> bool {
        &&& self.one_king(Color::White)
        &&& self.one_king(Color::Black)
        &&& (self.castle & 3u8 != 0 ==> self.piece_on[4] == Piece::WK || self.no_king(Color::White))
        &&& (self.castle & 12u8 != 0 ==> self.piece_on[60] == Piece::BK || self.no_king(Color::Black))
        &&& (self.en_passant_sq != -1 ==> {
            let ep = self.en_passant_sq as int;
            let behind = if self.turn == Color::White {
                ep - 8
            } else {
                ep + 8
            };
            let enemy_pawn = if self.turn == Color::White {
                Piece::BP
            } else {
                Piece::WP
            };
            0 <= ep < 64 && 0 <= behind < 64 && self.piece_on[ep] == Piece::Empty
                && self.piece_on[behind] == enemy_pawn
        })
    }

    pub proof fn lemma_occupied(&self)
        requires
            self.bb_wf(),
        ensures
            forall|s: int| 0 <= s < 64 ==> #[trigger] bit(self.all_pieces, s) == self.occupied(s),
    {
        lemma_bit_or(self.w_pieces, self.b_pieces);
        assert forall|s: int| 0 <= s < 64 implies #[trigger] bit(self.all_pieces, s) == self.occupied(s) by {
            assert(bit(self.w_pieces, s) == (self.piece_on[s].spec_color() == Some(Color::White)));
            assert(bit(self.b_pieces, s) == (self.piece_on[s].spec_color() == Some(Color::Black)));
        }
    }

    /// The board with no pieces, white to move, no rights and an empty history.
    pub fn empty() -> (b: Self)
        ensures
            b.wf(),
            forall|s: int| 0 <= s < 64 ==> b.piece_on[s] == Piece::Empty,
            b.turn == Color::White,
            b.castle == 0,
            b.en_passant_sq == NO_SQ,
            b.halfmove_clock == 0,
            b.fullmove_number == 1,
            b.history@ == Seq::<u64>::empty(),
            b.zobrist == 0,
            b.accumulator.is_zero(),
            b.model is None,
    {
        proof {
            lemma_bit_zero();
        }
        let b = Board {
            piece_bb: [0u64; 13],
            piece_on: [Piece::Empty; 64],
            w_pieces: 0,
            b_pieces: 0,
            all_pieces: 0,
            turn: Color::White,
            castle: 0,
            en_passant_sq: NO_SQ,
            halfmove_clock: 0,
            fullmove_number: 1,
            history: Vec::new(),
            zobrist: 0,
            accumulator: Accumulator::default(),
            model: None,
        };
        assert(0u64 | 0u64 == 0u64) by {
            crate::bits::lemma_xor_facts();
        }
        b
    }

    /// A copy of the board: the same position, history, accumulator and network.
    pub fn copy(&self) -> (b: Board)
        ensures
            b.piece_on == self.piece_on,
            b.piece_bb == self.piece_bb,
            b.w_pieces == self.w_pieces,
            b.b_pieces == self.b_pieces,
            b.all_pieces == self.all_pieces,
            b.turn == self.turn,
            b.castle == self.castle,
            b.en_passant_sq == self.en_passant_sq,
            b.halfmove_clock == self.halfmove_clock,
            b.fullmove_number == self.fullmove_number,
            b.history@ == self.history@,
            b.zobrist == self.zobrist,
            b.accumulator == self.accumulator,
            b.model == self.model,
    {
        let history = self.history.clone();
        proof {
            assert(history@ =~= self.history@);
        }
        Board {
            piece_bb: self.piece_bb,
            piece_on: self.piece_on,
            w_pieces: self.w_pieces,
            b_pieces: self.b_pieces,
            all_pieces: self.all_pieces,
            turn: self.turn,
            castle: self.castle,
            en_passant_sq: self.en_passant_sq,
            halfmove_clock: self.halfmove_clock,
            fullmove_number: self.fullmove_number,
            history,
            zobrist: self.zobrist,
            accumulator: self.accumulator,
            model: self.model,
        }
    }

    /// The square of the king of colour `c`: the lowest member of its bitboard,
    /// 64 where that colour has no king.
    pub fn king_square(&self, c: Color) -> (r: u32)
        ensures
            r == vstd::std_specs::bits::u64_trailing_zeros(
                self.piece_bb[Piece::spec_from_kind(PieceKind::King, c).spec_index() as int],
            ),
    {
        let king_piece = Piece::from_kind(PieceKind::King, c);
        self.piece_bb[king_piece.index()].trailing_zeros()
    }

    /// Puts `p` on `sq` in the mailbox only; `rebuild_derived` brings the bitboards after it.
    pub fn place_piece(&mut self, p: Piece, sq: usize)
        requires
            sq < 64,
        ensures
            final(self).piece_on@ == old(self).piece_on@.update(sq as int, p),
            final(self).piece_bb == old(self).piece_bb,
            final(self).w_pieces == old(self).w_pieces,
            final(self).b_pieces == old(self).b_pieces,
            final(self).all_pieces == old(self).all_pieces,
            final(self).turn == old(self).turn,
            final(self).castle == old(self).castle,
            final(self).en_passant_sq == old(self).en_passant_sq,
            final(self).halfmove_clock == old(self).halfmove_clock,
            final(self).fullmove_number == old(self).fullmove_number,
            final(self).history == old(self).history,
            final(self).zobrist == old(self).zobrist,
            final(self).model == old(self).model,
            final(self).accumulator == old(self).accumulator,
    {
        self.piece_on[sq] = p;
    }

    /// Recomputes every bitboard from the mailbox.
    pub fn rebuild_derived(&mut self)
        ensures
            final(self).bb_wf(),
            final(self).piece_on == old(self).piece_on,
            final(self).turn == old(self).turn,
            final(self).castle == old(self).castle,
            final(self).en_passant_sq == old(self).en_passant_sq,
            final(self).halfmove_clock == old(self).halfmove_clock,
            final(self).fullmove_number == old(self).fullmove_number,
            final(self).history == old(self).history,
            final(self).zobrist == old(self).zobrist,
            final(self).accumulator == old(self).accumulator,
            final(self).model == old(self).model,
    {
        self.piece_bb = [0u64; 13];
        self.w_pieces = 0;
        self.b_pieces = 0;
        proof {
            lemma_bit_zero();
        }
        let mut sq: usize = 0;
        while sq < 64
            invariant
                sq <= 64,
                self.piece_on == old(self).piece_on,
                self.turn == old(self).turn,
                self.castle == old(self).castle,
                self.en_passant_sq == old(self).en_passant_sq,
                self.halfmove_clock == old(self).halfmove_clock,
                self.fullmove_number == old(self).fullmove_number,
                self.history == old(self).history,
                self.zobrist == old(self).zobrist,
                self.accumulator == old(self).accumulator,
                self.model == old(self).model,
                forall|p: int, s: int|
                    0 <= p < 13 && 0 <= s < 64 ==> (#[trigger] bit(self.piece_bb[p], s) <==> (s < sq
                        && p != 0 && self.piece_on[s].spec_index() == p)),
                forall|s: int|
                    0 <= s < 64 ==> (#[trigger] bit(self.w_pieces, s) <==> (s < sq
                        && self.piece_on[s].spec_color() == Some(Color::White))),
                forall|s: int|
                    0 <= s < 64 ==> (#[trigger] bit(self.b_pieces, s) <==> (s < sq
                        && self.piece_on[s].spec_color() == Some(Color::Black))),
            decreases 64 - sq,
        {
            let p = self.piece_on[sq];
            let m: u64 = 1u64 << (sq as u64);
            let ghost pre_bb = self.piece_bb;
            let ghost pre_w = self.w_pieces;
            let ghost pre_b = self.b_pieces;
            proof {
                lemma_bit_single(sq as int);
                assert(m == sq_bb(sq as int));
            }
            if !p.is_empty() {
                let i = p.index();
                let old_bb = self.piece_bb[i];
                self.piece_bb[i] = old_bb | m;
                proof {
                    lemma_bit_or(old_bb, m);
                }
                match p.color() {
                    Some(Color::White) => {
                        let old_w = self.w_pieces;
                        self.w_pieces = old_w | m;
                        proof {
                            lemma_bit_or(old_w, m);
                        }
                    },
                    Some(Color::Black) => {
                        let old_b = self.b_pieces;
                        self.b_pieces = old_b | m;
                        proof {
                            lemma_bit_or(old_b, m);
                        }
                    },
                    _ => {},
                }
            }
            assert forall|q: int, s: int| 0 <= q < 13 && 0 <= s < 64 implies (#[trigger] bit(
                self.piece_bb[q],
                s,
            ) <==> (s < sq + 1 && q != 0 && self.piece_on[s].spec_index() == q)) by {
                assert(bit(pre_bb[q], s) <==> (s < sq && q != 0 && self.piece_on[s].spec_index() == q));
                if q == p.spec_index() && !p.spec_is_empty() {
                    assert(bit(self.piece_bb[q], s) == (bit(pre_bb[q], s) || s == sq));
                } else {
                    assert(self.piece_bb[q] == pre_bb[q]);
                }
            }
            assert forall|s: int| 0 <= s < 64 implies (#[trigger] bit(self.w_pieces, s) <==> (s < sq + 1
                && self.piece_on[s].spec_color() == Some(Color::White))) by {
                assert(bit(pre_w, s) <==> (s < sq && self.piece_on[s].spec_color() == Some(Color::White)));
            }
            assert forall|s: int| 0 <= s < 64 implies (#[trigger] bit(self.b_pieces, s) <==> (s < sq + 1
                && self.piece_on[s].spec_color() == Some(Color::Black))) by {
                assert(bit(pre_b, s) <==> (s < sq && self.piece_on[s].spec_color() == Some(Color::Black)));
            }
            sq = sq + 1;
        }
        self.all_pieces = self.w_pieces | self.b_pieces;
    }

    /// Recomputes the hash from the position.
    pub fn recompute_zobrist(&mut self)
        requires
            old(self).en_passant_sq == -1 || 0 <= old(self).en_passant_sq < 72,
        ensures
            final(self).hash_ok(),
            final(self).piece_on == old(self).piece_on,
            final(self).piece_bb == old(self).piece_bb,
            final(self).w_pieces == old(self).w_pieces,
            final(self).b_pieces == old(self).b_pieces,
            final(self).all_pieces == old(self).all_pieces,
            final(self).turn == old(self).turn,
            final(self).castle == old(self).castle,
            final(self).en_passant_sq == old(self).en_passant_sq,
            final(self).halfmove_clock == old(self).halfmove_clock,
            final(self).fullmove_number == old(self).fullmove_number,
            final(self).history == old(self).history,
            final(self).accumulator == old(self).accumulator,
            final(self).model == old(self).model,
    {
        let mut h: u64 = 0;
        let mut sq: usize = 0;
        while sq < 64
            invariant
                sq <= 64,
                h == squares_hash(self.piece_on@, sq as nat),
            decreases 64 - sq,
        {
            let p = self.piece_on[sq];
            h = h ^ piece_key(p, sq);
            sq = sq + 1;
        }
        let c = self.castle;
        assert(c & 0xFu8 < 16) by {
            crate::bits::lemma_castle_masks();
        }
        h = h ^ castle_key(self.castle & 0xF);
        if self.en_passant_sq != NO_SQ {
            h = h ^ ep_key((self.en_passant_sq % 8) as usize);
        } else {
            assert(h ^ 0u64 == h) by {
                crate::bits::lemma_xor_facts();
            }
        }
        if self.turn == Color::Black {
            h = h ^ side_key();
        } else {
            assert(h ^ 0u64 == h) by {
                crate::bits::lemma_xor_facts();
            }
        }
        self.zobrist = h;
    }

    /// How many earlier positions within the last `halfmove_clock` plies of the
    /// history repeat the current one (the current entry itself not counted).
    pub fn count_repetitions(&self) -> (n: usize)
        requires
            self.wf(),
        ensures
            n == self.spec_repetitions(),
    {
        let current_key = self.zobrist;
        let len = self.history.len();
        let hc = self.halfmove_clock as usize;
        let k = if hc < len {
            hc
        } else {
            len
        };
        if len == 0 {
            return 0;
        }
        let lo = len - k;
        let hi = len - 1;
        let mut count: usize = 0;
        let mut i = lo;
        while i < hi
            invariant
                lo <= i,
                i <= hi || i == lo,
                hi < len,
                len == self.history@.len(),
                count == count_key(self.history@, lo as int, i as int, current_key),
                count <= i - lo,
            decreases hi - i,
        {
            if self.history[i] == current_key {
                count = count + 1;
            }
            i = i + 1;
        }
        count
    }

    pub fn is_draw_by_repetition(&self) -> (b: bool)
        requires
            self.wf(),
        ensures
            b == (self.spec_repetitions() >= 2),
    {
        self.count_repetitions() >= 2
    }

    /// Whether a piece of colour `by` attacks `square`.
    pub fn is_square_attacked(&self, square: i32, by: Color) -> (r: bool)
        requires
            self.bb_wf(),
            0 <= square < 64,
        ensures
            r == self.attacked(square as int, by),
    {
        let sq = square as usize;
        let white = by == Color::White;
        let pawn = if white {
            Piece::WP
        } else {
            Piece::BP
        };
        let knight = if white {
            Piece::WN
        } else {
            Piece::BN
        };
        let king = if white {
            Piece::WK
        } else {
            Piece::BK
        };
        let bishop = if white {
            Piece::WB
        } else {
            Piece::BB
        };
        let rook = if white {
            Piece::WR
        } else {
            Piece::BR
        };
        let queen = if white {
            Piece::WQ
        } else {
            Piece::BQ
        };
        let bishop_like = self.piece_bb[bishop.index()] | self.piece_bb[queen.index()];
        let rook_like = self.piece_bb[rook.index()] | self.piece_bb[queen.index()];
        let pawn_attacks = if white {
            black_pawn_attacks(sq)
        } else {
            white_pawn_attacks(sq)
        };
        let natt = knight_attacks_from(sq);
        let katt = king_attacks_from(sq);
        let batt = get_bishop_attacks(sq, self.all_pieces);
        let ratt = get_rook_attacks(sq, self.all_pieces);
        let pa = pawn_attacks & self.piece_bb[pawn.index()];
        let na = natt & self.piece_bb[knight.index()];
        let ka = katt & self.piece_bb[king.index()];
        let ba = batt & bishop_like;
        let ra = ratt & rook_like;
        proof {
            let t = square as int;
            lemma_bit_or(self.piece_bb[bishop.spec_index() as int], self.piece_bb[queen.spec_index() as int]);
            lemma_bit_or(self.piece_bb[rook.spec_index() as int], self.piece_bb[queen.spec_index() as int]);
            lemma_bit_and(pawn_attacks, self.piece_bb[pawn.spec_index() as int]);
            lemma_bit_and(natt, self.piece_bb[knight.spec_index() as int]);
            lemma_bit_and(katt, self.piece_bb[king.spec_index() as int]);
            lemma_bit_and(batt, bishop_like);
            lemma_bit_and(ratt, rook_like);
            lemma_zero_iff_no_bits(pa);
            lemma_zero_iff_no_bits(na);
            lemma_zero_iff_no_bits(ka);
            lemma_zero_iff_no_bits(ba);
            lemma_zero_iff_no_bits(ra);
            assert forall|s: int| 0 <= s < 64 implies #[trigger] self.attacker_on(s, t, by) == (bit(
                pa,
                s,
            ) || bit(na, s) || bit(ka, s) || bit(ba, s) || bit(ra, s)) by {
                let p = self.piece_on[s];
                assert(bit(self.piece_bb[pawn.spec_index() as int], s) == (p == pawn));
                assert(bit(self.piece_bb[knight.spec_index() as int], s) == (p == knight));
                assert(bit(self.piece_bb[king.spec_index() as int], s) == (p == king));
                assert(bit(self.piece_bb[bishop.spec_index() as int], s) == (p == bishop));
                assert(bit(self.piece_bb[rook.spec_index() as int], s) == (p == rook));
                assert(bit(self.piece_bb[queen.spec_index() as int], s) == (p == queen));
            }
        }
        if pa != 0 {
            proof {
                let s = choose|s: int| 0 <= s < 64 && bit(pa, s);
                assert(self.attacker_on(s, square as int, by));
            }
            return true;
        }
        if na != 0 {
            proof {
                let s = choose|s: int| 0 <= s < 64 && bit(na, s);
                assert(self.attacker_on(s, square as int, by));
            }
            return true;
        }
        if ka != 0 {
            proof {
                let s = choose|s: int| 0 <= s < 64 && bit(ka, s);
                assert(self.attacker_on(s, square as int, by));
            }
            return true;
        }
        if ba != 0 {
            proof {
                let s = choose|s: int| 0 <= s < 64 && bit(ba, s);
                assert(self.attacker_on(s, square as int, by));
            }
            return true;
        }
        if ra != 0 {
            proof {
                let s = choose|s: int| 0 <= s < 64 && bit(ra, s);
                assert(self.attacker_on(s, square as int, by));
            }
            return true;
        }
        false
    }
}

} // verus!
