//! Forsyth-Edwards Notation: reading a position from text and writing it back.
//!
//! A FEN is split at spaces into fields (empty fields between repeated spaces are
//! dropped). The first four fields are required: piece placement (eight ranks
//! from the eighth down, separated by `/`, each a run of piece letters and digits
//! 1-8 covering eight squares), side to move (`w` or `b`), castling rights (`-`
//! or letters from `KQkq`) and the en-passant square (`-` or a square name). The
//! half-move clock and move number follow as decimal numbers and default to 0
//! and 1. Further fields are ignored.
use vstd::prelude::*;
use crate::board::Board;
use crate::types::{Color, Piece, BK_CASTLE, BQ_CASTLE, WK_CASTLE, WQ_CASTLE};
use vstd::string::{StringExecFns, StringSliceAdditionalSpecFns};

verus! {

/// Splits `s` at every `sep`, keeping empty pieces.
pub open spec fn split_on(s: Seq<u8>, sep: u8) -> Seq<Seq<u8>>
    decreases s.len(),
{
    if s.len() == 0 {
        seq![Seq::<u8>::empty()]
    } else {
        let prev = split_on(s.drop_last(), sep);
        if s.last() == sep {
            prev.push(Seq::<u8>::empty())
        } else {
            prev.update(prev.len() - 1, prev.last().push(s.last()))
        }
    }
}

/// The non-empty pieces of `s` split at spaces.
pub open spec fn fen_fields(s: Seq<u8>) -> Seq<Seq<u8>> {
    split_on(s, 32u8).filter(nonempty())
}

/// The predicate of non-empty byte strings.
pub open spec fn nonempty() -> spec_fn(Seq<u8>) -> bool {
    |f: Seq<u8>| f.len() > 0
}

/// The piece that a FEN letter stands for (`Empty` for other bytes).
pub open spec fn piece_of_byte(c: u8) -> Piece {
    Piece::spec_from_char(c as char)
}

/// The squares that one rank description stands for, left to right, or `None`
/// when it holds a byte that is neither a digit 1-8 nor a piece letter.
pub open spec fn rank_squares(s: Seq<u8>) -> Option<Seq<Piece>>
    decreases s.len(),
{
    if s.len() == 0 {
        Some(Seq::<Piece>::empty())
    } else {
        match rank_squares(s.drop_last()) {
            None => None,
            Some(r) => {
                let c = s.last();
                if 49 <= c <= 56 {
                    Some(r + Seq::new((c - 48) as nat, |i: int| Piece::Empty))
                } else if piece_of_byte(c) != Piece::Empty {
                    Some(r.push(piece_of_byte(c)))
                } else {
                    None
                }
            },
        }
    }
}

/// The 64 squares of a placement field, or `None` when it is malformed.
pub open spec fn placement(s: Seq<u8>) -> Option<Seq<Piece>> {
    let parts = split_on(s, 47u8);
    if parts.len() == 8 && forall|k: int|
        0 <= k < 8 ==> (#[trigger] rank_squares(parts[k])) is Some && rank_squares(parts[k]).unwrap().len()
            == 8 {
        Some(Seq::new(64, |sq: int| rank_squares(parts[7 - sq / 8]).unwrap()[sq % 8]))
    } else {
        None
    }
}

/// The castling rights that one letter grants.
pub open spec fn castle_bit(c: u8) -> Option<u8> {
    if c == 75 {
        Some(WK_CASTLE)
    } else if c == 81 {
        Some(WQ_CASTLE)
    } else if c == 107 {
        Some(BK_CASTLE)
    } else if c == 113 {
        Some(BQ_CASTLE)
    } else {
        None
    }
}

/// The rights of a castling field read from the left, or `None` for a bad letter.
pub open spec fn castle_fold(s: Seq<u8>) -> Option<u8>
    decreases s.len(),
{
    if s.len() == 0 {
        Some(0u8)
    } else {
        match (castle_fold(s.drop_last()), castle_bit(s.last())) {
            (Some(c), Some(b)) => Some(c | b),
            _ => None,
        }
    }
}

/// The rights of a castling field: `-` is none.
pub open spec fn castle_field(s: Seq<u8>) -> Option<u8> {
    if s == seq![45u8] {
        Some(0u8)
    } else {
        castle_fold(s)
    }
}

/// The en-passant square of the field: `-` is `NO_SQ`, else a square name.
pub open spec fn ep_field(s: Seq<u8>) -> Option<i32> {
    if s == seq![45u8] {
        Some(-1i32)
    } else if s.len() == 2 && 97 <= s[0] <= 104 && 49 <= s[1] <= 56 {
        Some(((s[1] - 49) * 8 + (s[0] - 97)) as i32)
    } else {
        None
    }
}

/// The value of a run of decimal digits.
pub open spec fn digits_value(s: Seq<u8>) -> int
    decreases s.len(),
{
    if s.len() == 0 {
        0
    } else {
        digits_value(s.drop_last()) * 10 + (s.last() - 48)
    }
}

/// A counter field: digits only, with a value that fits an `i32`.
pub open spec fn number_field(s: Seq<u8>) -> Option<i32> {
    if (forall|i: int| 0 <= i < s.len() ==> 48 <= #[trigger] s[i] <= 57) && digits_value(s) <= i32::MAX {
        Some(digits_value(s) as i32)
    } else {
        None
    }
}

/// What a FEN string says.
pub struct FenData {
    pub squares: Seq<Piece>,
    pub turn: Color,
    pub castle: u8,
    pub ep: i32,
    pub halfmove: i32,
    pub fullmove: i32,
}

/// The meaning of a FEN string, or `None` when it is malformed.
pub open spec fn fen_spec(s: Seq<u8>) -> Option<FenData> {
    let f = fen_fields(s);
    if f.len() < 4 {
        None
    } else {
        let sq = placement(f[0]);
        let turn = if f[1] == seq![119u8] {
            Some(Color::White)
        } else if f[1] == seq![98u8] {
            Some(Color::Black)
        } else {
            None
        };
        let c = castle_field(f[2]);
        let ep = ep_field(f[3]);
        let hm = if f.len() > 4 {
            number_field(f[4])
        } else {
            Some(0i32)
        };
        let fm = if f.len() > 5 {
            number_field(f[5])
        } else {
            Some(1i32)
        };
        if sq is Some && turn is Some && c is Some && ep is Some && hm is Some && fm is Some {
            Some(
                FenData {
                    squares: sq.unwrap(),
                    turn: turn.unwrap(),
                    castle: c.unwrap(),
                    ep: ep.unwrap(),
                    halfmove: hm.unwrap(),
                    fullmove: fm.unwrap(),
                },
            )
        } else {
            None
        }
    }
}


/// The pieces of `s` split at `sep`.
pub fn split_bytes(s: &[u8], sep: u8) -> (parts: Vec<Vec<u8>>)
    ensures
        parts@.len() == split_on(s@, sep).len(),
        forall|k: int| 0 <= k < parts@.len() ==> #[trigger] parts@[k]@ == split_on(s@, sep)[k],
{
    let mut done: Vec<Vec<u8>> = Vec::new();
    let mut cur: Vec<u8> = Vec::new();
    let mut i: usize = 0;
    proof {
        assert(s@.take(0) =~= Seq::<u8>::empty());
    }
    while i < s.len()
        invariant
            i <= s@.len(),
            done@.len() + 1 == split_on(s@.take(i as int), sep).len(),
            forall|k: int| 0 <= k < done@.len() ==> #[trigger] done@[k]@ == split_on(s@.take(i as int), sep)[k],
            cur@ == split_on(s@.take(i as int), sep).last(),
        decreases s@.len() - i,
    {
        let c = s[i];
        proof {
            assert(s@.take(i + 1).drop_last() =~= s@.take(i as int));
            assert(s@.take(i + 1).last() == c);
        }
        if c == sep {
            done.push(cur);
            cur = Vec::new();
        } else {
            cur.push(c);
        }
        i = i + 1;
    }
    done.push(cur);
    proof {
        assert(s@.take(s@.len() as int) =~= s@);
    }
    done
}

/// The non-empty pieces of `s` split at spaces.
pub fn fields_of(s: &[u8]) -> (f: Vec<Vec<u8>>)
    ensures
        f@.len() == fen_fields(s@).len(),
        forall|k: int| 0 <= k < f@.len() ==> #[trigger] f@[k]@ == fen_fields(s@)[k],
{
    let parts = split_bytes(s, 32u8);
    let ghost sp = split_on(s@, 32u8);
    let ghost pred = nonempty();
    assert forall|f: Seq<u8>| #[trigger] pred(f) == (f.len() > 0) by {}
    let mut out: Vec<Vec<u8>> = Vec::new();
    let mut i: usize = 0;
    proof {
        assert(sp.take(0) =~= Seq::<Seq<u8>>::empty());
        assert(sp.take(0).filter(pred) =~= Seq::<Seq<u8>>::empty());
    }
    while i < parts.len()
        invariant
            sp == split_on(s@, 32u8),
            pred == nonempty(),
            i <= parts@.len(),
            parts@.len() == sp.len(),
            forall|k: int| 0 <= k < parts@.len() ==> #[trigger] parts@[k]@ == sp[k],
            out@.len() == sp.take(i as int).filter(pred).len(),
            forall|k: int| 0 <= k < out@.len() ==> #[trigger] out@[k]@ == sp.take(i as int).filter(pred)[k],
        decreases parts@.len() - i,
    {
        proof {
            assert(sp.take(i + 1).drop_last() =~= sp.take(i as int));
            assert(sp.take(i + 1).last() == sp[i as int]);
            assert(sp.take(i + 1) =~= sp.take(i as int) + seq![sp[i as int]]);
            Seq::filter_distributes_over_add(sp.take(i as int), seq![sp[i as int]], pred);
            reveal_with_fuel(Seq::filter, 2);
            assert(seq![sp[i as int]].drop_last() =~= Seq::<Seq<u8>>::empty());
            assert(parts@[i as int]@ == sp[i as int]);
            assert(pred(sp[i as int]) == (parts@[i as int]@.len() > 0));
        }
        if parts[i].len() > 0 {
            let p = parts[i].clone();
            out.push(p);
        }
        i = i + 1;
    }
    proof {
        assert(sp.take(sp.len() as int) =~= sp);
    }
    out
}

/// Reads one rank description.
pub fn parse_rank(s: &Vec<u8>) -> (r: Option<Vec<Piece>>)
    ensures
        r is Some <==> rank_squares(s@) is Some,
        r matches Some(v) ==> v@ == rank_squares(s@).unwrap(),
{
    let mut acc: Vec<Piece> = Vec::new();
    let mut i: usize = 0;
    proof {
        assert(s@.take(0) =~= Seq::<u8>::empty());
    }
    while i < s.len()
        invariant
            i <= s@.len(),
            rank_squares(s@.take(i as int)) == Some(acc@),
            acc@.len() <= 8 * i,
        decreases s@.len() - i,
    {
        let c = s[i];
        proof {
            assert(s@.take(i + 1).drop_last() =~= s@.take(i as int));
            assert(s@.take(i + 1).last() == c);
        }
        if 49 <= c && c <= 56 {
            let n = c - 48;
            let mut j: u8 = 0;
            let ghost base = acc@;
            while j < n
                invariant
                    j <= n,
                    n <= 8,
                    acc@ == base + Seq::new(j as nat, |i: int| Piece::Empty),
                decreases n - j,
            {
                acc.push(Piece::Empty);
                j = j + 1;
                proof {
                    assert(acc@ =~= base + Seq::new(j as nat, |i: int| Piece::Empty));
                }
            }
        } else {
            let p = Piece::from_char(c as char);
            if p.is_empty() {
                proof {
                    assert(rank_squares(s@.take(i + 1)) is None);
                    assert(rank_squares(s@) is None) by {
                        lemma_rank_none_extends(s@, i + 1);
                    }
                }
                return None;
            }
            acc.push(p);
        }
        i = i + 1;
    }
    proof {
        assert(s@.take(s@.len() as int) =~= s@);
    }
    Some(acc)
}

/// Once a prefix fails to read as a rank, every longer prefix fails too.
proof fn lemma_rank_none_extends(s: Seq<u8>, n: int)
    requires
        0 <= n <= s.len(),
        rank_squares(s.take(n)) is None,
    ensures
        rank_squares(s) is None,
    decreases s.len() - n,
{
    if n < s.len() {
        assert(s.take(n + 1).drop_last() =~= s.take(n));
        lemma_rank_none_extends(s, n + 1);
    } else {
        assert(s.take(n) =~= s);
    }
}

/// Reads the placement field into 64 squares.
pub fn parse_placement(s: &Vec<u8>) -> (r: Option<Vec<Piece>>)
    ensures
        r is Some <==> placement(s@) is Some,
        r matches Some(v) ==> v@ == placement(s@).unwrap(),
{
    let parts = split_bytes(s.as_slice(), 47u8);
    let ghost sp = split_on(s@, 47u8);
    if parts.len() != 8 {
        return None;
    }
    let mut ranks: Vec<Vec<Piece>> = Vec::new();
    let mut k: usize = 0;
    while k < 8
        invariant
            sp == split_on(s@, 47u8),
            k <= 8,
            parts@.len() == 8,
            sp.len() == 8,
            forall|j: int| 0 <= j < 8 ==> #[trigger] parts@[j]@ == sp[j],
            ranks@.len() == k,
            forall|j: int|
                0 <= j < k ==> (#[trigger] rank_squares(sp[j])) is Some && rank_squares(sp[j]).unwrap().len()
                    == 8 && ranks@[j]@ == rank_squares(sp[j]).unwrap(),
        decreases 8 - k,
    {
        let pk = &parts[k];
        proof {
            assert(pk@ == parts@[k as int]@);
            assert(pk@ == sp[k as int]);
        }
        let r = parse_rank(pk);
        match r {
            Some(v) => {
                if v.len() != 8 {
                    proof {
                        assert(!(rank_squares(sp[k as int]) is Some && rank_squares(sp[k as int]).unwrap().len()
                            == 8));
                        lemma_placement_none(s@, k as int);
                    }
                    return None;
                }
                ranks.push(v);
            },
            None => {
                proof {
                    assert(rank_squares(sp[k as int]) is None);
                    lemma_placement_none(s@, k as int);
                }
                return None;
            },
        }
        k = k + 1;
    }
    let mut squares: Vec<Piece> = Vec::new();
    let mut sq: usize = 0;
    while sq < 64
        invariant
            sp == split_on(s@, 47u8),
            sq <= 64,
            ranks@.len() == 8,
            forall|j: int|
                0 <= j < 8 ==> (#[trigger] rank_squares(sp[j])) is Some && rank_squares(sp[j]).unwrap().len()
                    == 8 && ranks@[j]@ == rank_squares(sp[j]).unwrap(),
            squares@.len() == sq,
            forall|q: int| 0 <= q < sq ==> #[trigger] squares@[q] == rank_squares(sp[7 - q / 8]).unwrap()[q % 8],
        decreases 64 - sq,
    {
        let row = 7 - sq / 8;
        proof {
            assert(rank_squares(sp[row as int]) is Some);
        }
        let p = ranks[row][sq % 8];
        squares.push(p);
        sq = sq + 1;
    }
    proof {
        assert(squares@ =~= placement(s@).unwrap());
    }
    Some(squares)
}

proof fn lemma_placement_none(s: Seq<u8>, k: int)
    requires
        0 <= k < 8,
        !(rank_squares(split_on(s, 47u8)[k]) is Some && rank_squares(split_on(s, 47u8)[k]).unwrap().len()
            == 8),
    ensures
        placement(s) is None,
{
    let parts = split_on(s, 47u8);
    assert(!(forall|j: int|
        0 <= j < 8 ==> (#[trigger] rank_squares(parts[j])) is Some && rank_squares(parts[j]).unwrap().len()
            == 8));
}

/// Reads the castling field.
pub fn parse_castle(s: &Vec<u8>) -> (r: Option<u8>)
    ensures
        r == castle_field(s@),
{
    if s.len() == 1 && s[0] == 45u8 {
        proof {
            assert(s@ =~= seq![45u8]);
        }
        return Some(0);
    }
    proof {
        assert(s@ != seq![45u8]);
    }
    let mut c: u8 = 0;
    let mut i: usize = 0;
    proof {
        assert(s@.take(0) =~= Seq::<u8>::empty());
    }
    while i < s.len()
        invariant
            s@ != seq![45u8],
            i <= s@.len(),
            castle_fold(s@.take(i as int)) == Some(c),
        decreases s@.len() - i,
    {
        let b = s[i];
        proof {
            assert(s@.take(i + 1).drop_last() =~= s@.take(i as int));
            assert(s@.take(i + 1).last() == b);
        }
        let bito: Option<u8> = if b == 75 {
            Some(WK_CASTLE)
        } else if b == 81 {
            Some(WQ_CASTLE)
        } else if b == 107 {
            Some(BK_CASTLE)
        } else if b == 113 {
            Some(BQ_CASTLE)
        } else {
            None
        };
        assert(bito == castle_bit(b));
        let bitv = match bito {
            Some(v) => v,
            None => {
                proof {
                    assert(castle_fold(s@.take(i + 1)) is None);
                    lemma_castle_none_extends(s@, i + 1);
                }
                return None;
            },
        };
        c = c | bitv;
        i = i + 1;
    }
    proof {
        assert(s@.take(s@.len() as int) =~= s@);
    }
    Some(c)
}

proof fn lemma_castle_none_extends(s: Seq<u8>, n: int)
    requires
        0 <= n <= s.len(),
        castle_fold(s.take(n)) is None,
    ensures
        castle_fold(s) is None,
    decreases s.len() - n,
{
    if n < s.len() {
        assert(s.take(n + 1).drop_last() =~= s.take(n));
        lemma_castle_none_extends(s, n + 1);
    } else {
        assert(s.take(n) =~= s);
    }
}

/// Reads the en-passant field.
pub fn parse_ep(s: &Vec<u8>) -> (r: Option<i32>)
    ensures
        r == ep_field(s@),
{
    if s.len() == 1 && s[0] == 45u8 {
        proof {
            assert(s@ =~= seq![45u8]);
        }
        return Some(-1);
    }
    proof {
        assert(s@ != seq![45u8]);
    }
    if s.len() == 2 && 97 <= s[0] && s[0] <= 104 && 49 <= s[1] && s[1] <= 56 {
        let v = ((s[1] - 49) as i32) * 8 + ((s[0] - 97) as i32);
        Some(v)
    } else {
        None
    }
}

/// Reads a decimal counter.
pub fn parse_number(s: &Vec<u8>) -> (r: Option<i32>)
    ensures
        r == number_field(s@),
        r matches Some(v) ==> v >= 0,
{
    let mut v: i64 = 0;
    let mut i: usize = 0;
    proof {
        assert(s@.take(0) =~= Seq::<u8>::empty());
    }
    while i < s.len()
        invariant
            i <= s@.len(),
            forall|j: int| 0 <= j < i ==> 48 <= #[trigger] s@[j] <= 57,
            v == digits_value(s@.take(i as int)),
            0 <= v <= i32::MAX,
        decreases s@.len() - i,
    {
        let c = s[i];
        proof {
            assert(s@.take(i + 1).drop_last() =~= s@.take(i as int));
            assert(s@.take(i + 1).last() == c);
        }
        if c < 48 || c > 57 {
            return None;
        }
        v = v * 10 + (c - 48) as i64;
        if v > i32::MAX as i64 {
            proof {
                assert(v == digits_value(s@.take(i + 1)));
                if forall|j: int| 0 <= j < s@.len() ==> 48 <= #[trigger] s@[j] <= 57 {
                    lemma_digits_grow(s@, i + 1);
                }
            }
            return None;
        }
        i = i + 1;
    }
    proof {
        assert(s@.take(s@.len() as int) =~= s@);
    }
    Some(v as i32)
}

/// The value of a digit string is at least that of each of its prefixes.
proof fn lemma_digits_grow(s: Seq<u8>, n: int)
    requires
        0 <= n <= s.len(),
        forall|j: int| 0 <= j < s.len() ==> 48 <= #[trigger] s[j] <= 57,
    ensures
        digits_value(s) >= digits_value(s.take(n)),
        digits_value(s.take(n)) >= 0,
    decreases s.len() - n,
{
    lemma_digits_nonneg(s.take(n));
    if n < s.len() {
        assert(s.take(n + 1).drop_last() =~= s.take(n));
        lemma_digits_grow(s, n + 1);
    } else {
        assert(s.take(n) =~= s);
    }
}

proof fn lemma_digits_nonneg(s: Seq<u8>)
    requires
        forall|j: int| 0 <= j < s.len() ==> 48 <= #[trigger] s[j] <= 57,
    ensures
        digits_value(s) >= 0,
    decreases s.len(),
{
    if s.len() > 0 {
        lemma_digits_nonneg(s.drop_last());
    }
}


/// The board `x` holds what `d` says.
pub open spec fn board_matches(x: Board, d: FenData) -> bool {
    &&& x.piece_on@ == d.squares
    &&& x.turn == d.turn
    &&& x.castle == d.castle
    &&& x.en_passant_sq == d.ep
    &&& x.halfmove_clock == d.halfmove
    &&& x.fullmove_number == d.fullmove
}

/// Consistency depends on the mailbox, side to move, rights and en-passant square only.
pub proof fn lemma_consistent_congruent(x: Board, y: Board)
    requires
        x.piece_on@ == y.piece_on@,
        x.turn == y.turn,
        x.castle == y.castle,
        x.en_passant_sq == y.en_passant_sq,
    ensures
        x.consistent() == y.consistent(),
{
    assert forall|s: int| 0 <= s < 64 implies x.piece_on[s] == y.piece_on[s] by {
        assert(x.piece_on[s] == x.piece_on@[s]);
        assert(y.piece_on[s] == y.piece_on@[s]);
    }
}

impl Board {
    /// Whether the position is consistent (see `consistent`).
    pub fn is_consistent(&self) -> (r: bool)
        ensures
            r == self.consistent(),
    {
        let mut wk: usize = 0;
        let mut bk: usize = 0;
        let mut sq: usize = 0;
        while sq < 64
            invariant
                sq <= 64,
                wk <= sq,
                bk <= sq,
                wk == 0 ==> forall|t: int| 0 <= t < sq ==> self.piece_on[t] != Piece::WK,
                wk == 1 ==> exists|t: int| 0 <= t < sq && self.piece_on[t] == Piece::WK,
                wk <= 1 ==> forall|t: int, u: int|
                    0 <= t < sq && 0 <= u < sq && self.piece_on[t] == Piece::WK && self.piece_on[u]
                        == Piece::WK ==> t == u,
                wk >= 2 ==> !self.one_king(Color::White),
                bk == 0 ==> forall|t: int| 0 <= t < sq ==> self.piece_on[t] != Piece::BK,
                bk == 1 ==> exists|t: int| 0 <= t < sq && self.piece_on[t] == Piece::BK,
                bk <= 1 ==> forall|t: int, u: int|
                    0 <= t < sq && 0 <= u < sq && self.piece_on[t] == Piece::BK && self.piece_on[u]
                        == Piece::BK ==> t == u,
                bk >= 2 ==> !self.one_king(Color::Black),
            decreases 64 - sq,
        {
            let p = self.piece_on[sq];
            if p == Piece::WK {
                if wk == 1 {
                    proof {
                        let t = choose|t: int| 0 <= t < sq && self.piece_on[t] == Piece::WK;
                        assert(self.piece_on[t] == Piece::WK && self.piece_on[sq as int] == Piece::WK);
                    }
                }
                if wk < 2 {
                    wk = wk + 1;
                }
            } else if p == Piece::BK {
                if bk == 1 {
                    proof {
                        let t = choose|t: int| 0 <= t < sq && self.piece_on[t] == Piece::BK;
                        assert(self.piece_on[t] == Piece::BK && self.piece_on[sq as int] == Piece::BK);
                    }
                }
                if bk < 2 {
                    bk = bk + 1;
                }
            }
            sq = sq + 1;
        }
        if wk >= 2 || bk >= 2 {
            return false;
        }
        let c = self.castle;
        if (c & 3) != 0 && self.piece_on[4] != Piece::WK && wk != 0 {
            proof {
                let t = choose|t: int| 0 <= t < 64 && self.piece_on[t] == Piece::WK;
                assert(!self.no_king(Color::White));
            }
            return false;
        }
        if (c & 12) != 0 && self.piece_on[60] != Piece::BK && bk != 0 {
            proof {
                let t = choose|t: int| 0 <= t < 64 && self.piece_on[t] == Piece::BK;
                assert(!self.no_king(Color::Black));
            }
            return false;
        }
        let ep = self.en_passant_sq;
        if ep != -1 {
            let behind: i32 = if self.turn == Color::White {
                if ep < i32::MIN + 8 {
                    return false;
                }
                ep - 8
            } else {
                if ep > i32::MAX - 8 {
                    return false;
                }
                ep + 8
            };
            let enemy_pawn = if self.turn == Color::White {
                Piece::BP
            } else {
                Piece::WP
            };
            if !(0 <= ep && ep < 64 && 0 <= behind && behind < 64) {
                return false;
            }
            if self.piece_on[ep as usize] != Piece::Empty {
                return false;
            }
            if self.piece_on[behind as usize] != enemy_pawn {
                return false;
            }
        }
        true
    }

    /// Reads a position from FEN. It is refused when the text is not a FEN as the
    /// module describes, or when the position it describes is not consistent.
    /// The board comes with its bitboards, its hash and a history of that hash, no
    /// network and the empty accumulators that go with none.
        pub fn from_fen(fen_str: &str) -> (r: Result<Board, String>)
        ensures
            r matches Ok(b) ==> fen_spec(fen_str.spec_bytes()) is Some && board_matches(
                b,
                fen_spec(fen_str.spec_bytes()).unwrap(),
            ) && b.wf() && b.consistent() && b.hash_ok() && b.history@ == seq![b.zobrist],
            r matches Ok(b) ==> b.model is None && b.accumulator.is_zero() && crate::nnue::refreshed(b.model, b, b.accumulator),
            r is Err ==> fen_spec(fen_str.spec_bytes()) is None || forall|x: Board|
                board_matches(x, fen_spec(fen_str.spec_bytes()).unwrap()) ==> !x.consistent(),
    {
        let bytes = fen_str.as_bytes();
        let f = fields_of(bytes);
        let ghost ff = fen_fields(bytes@);
        if f.len() < 4 {
            return Err(String::from_str("FEN needs at least four fields"));
        }
        let squares = match parse_placement(&f[0]) {
            Some(v) => v,
            None => {
                return Err(String::from_str("bad piece placement in FEN"));
            },
        };
        let turn = if f[1].len() == 1 && f[1][0] == 119u8 {
            proof {
                assert(f@[1]@ =~= seq![119u8]);
            }
            Color::White
        } else if f[1].len() == 1 && f[1][0] == 98u8 {
            proof {
                assert(f@[1]@ =~= seq![98u8]);
            }
            Color::Black
        } else {
            proof {
                assert(f@[1]@ != seq![119u8]);
                assert(f@[1]@ != seq![98u8]);
            }
            return Err(String::from_str("bad side to move in FEN"));
        };
        let castle = match parse_castle(&f[2]) {
            Some(c) => c,
            None => {
                return Err(String::from_str("bad castling rights in FEN"));
            },
        };
        let ep = match parse_ep(&f[3]) {
            Some(e) => e,
            None => {
                return Err(String::from_str("bad en-passant square in FEN"));
            },
        };
        let halfmove = if f.len() > 4 {
            match parse_number(&f[4]) {
                Some(v) => v,
                None => {
                    return Err(String::from_str("bad half-move clock in FEN"));
                },
            }
        } else {
            0
        };
        let fullmove = if f.len() > 5 {
            match parse_number(&f[5]) {
                Some(v) => v,
                None => {
                    return Err(String::from_str("bad move number in FEN"));
                },
            }
        } else {
            1
        };
        let ghost d = fen_spec(bytes@).unwrap();
        let mut b = Board::empty();
        let mut sq: usize = 0;
        while sq < 64
            invariant
                sq <= 64,
                squares@.len() == 64,
                forall|t: int| 0 <= t < sq ==> b.piece_on[t] == squares@[t],
                b.history@ == Seq::<u64>::empty(),
                b.model is None,
                b.accumulator.is_zero(),
            decreases 64 - sq,
        {
            b.place_piece(squares[sq], sq);
            sq = sq + 1;
        }
        b.rebuild_derived();
        b.turn = turn;
        b.castle = castle;
        b.en_passant_sq = ep;
        b.halfmove_clock = halfmove;
        b.fullmove_number = fullmove;
        proof {
            assert(b.piece_on@ =~= squares@);
            assert(board_matches(b, d));
        }
        if !b.is_consistent() {
            proof {
                assert forall|x: Board| board_matches(x, d) implies !x.consistent() by {
                    lemma_consistent_congruent(x, b);
                }
            }
            return Err(String::from_str("inconsistent position in FEN"));
        }
        b.recompute_zobrist();
        b.history.push(b.zobrist);
        proof {
            assert(b.history@ =~= seq![b.zobrist]);
        }
        Ok(b)
    }
}

} // verus!
