//! Writing a position as FEN.
use vstd::prelude::*;
use crate::board::Board;
use crate::text::string_from_chars;
use crate::types::{spec_sq_str, Piece};

verus! {

/// The decimal digits of a number.
pub open spec fn dec_text(n: nat) -> Seq<char>
    decreases n,
{
    if n < 10 {
        seq![((n + 48) as u8) as char]
    } else {
        dec_text(n / 10) + seq![(((n % 10) + 48) as u8) as char]
    }
}

/// A number in decimal, with a minus sign when negative.
pub open spec fn int_text(n: int) -> Seq<char> {
    if n < 0 {
        seq!['-'] + dec_text((-n) as nat)
    } else {
        dec_text(n as nat)
    }
}

/// One rank of the placement, files in order, `run` empty squares pending: each
/// piece by its letter, each run of empty squares by its length.
pub open spec fn row_text(row: Seq<Piece>, run: nat) -> Seq<char>
    decreases row.len(),
{
    if row.len() == 0 {
        if run > 0 {
            dec_text(run)
        } else {
            Seq::empty()
        }
    } else if row[0] == Piece::Empty {
        row_text(row.drop_first(), run + 1)
    } else {
        (if run > 0 {
            dec_text(run)
        } else {
            Seq::empty()
        }) + seq![row[0].spec_to_char()] + row_text(row.drop_first(), 0)
    }
}

/// The ranks from the eighth down to rank `r`, separated by `/`.
pub open spec fn ranks_text(sq: Seq<Piece>, r: int) -> Seq<char>
    decreases 8 - r,
{
    if r >= 7 || r < 0 {
        row_text(sq.subrange(56, 64), 0)
    } else {
        ranks_text(sq, r + 1) + seq!['/'] + row_text(sq.subrange(8 * r, 8 * r + 8), 0)
    }
}

/// The castling field: `K`, `Q`, `k`, `q` for the rights held, or `-`.
pub open spec fn castle_text(c: u8) -> Seq<char> {
    let t = (if c & 1u8 != 0 { seq!['K'] } else { Seq::<char>::empty() })
        + (if c & 2u8 != 0 { seq!['Q'] } else { Seq::<char>::empty() })
        + (if c & 4u8 != 0 { seq!['k'] } else { Seq::<char>::empty() })
        + (if c & 8u8 != 0 { seq!['q'] } else { Seq::<char>::empty() });
    if t.len() == 0 {
        seq!['-']
    } else {
        t
    }
}

/// The FEN of a board: placement, side, castling, en-passant square, half-move
/// clock and move number, separated by spaces.
pub open spec fn fen_text(b: Board) -> Seq<char> {
    ranks_text(b.piece_on@, 0) + seq![' '] + (if b.turn == crate::types::Color::White {
        seq!['w']
    } else {
        seq!['b']
    }) + seq![' '] + castle_text(b.castle) + seq![' '] + (if b.en_passant_sq == -1 {
        seq!['-']
    } else {
        spec_sq_str(b.en_passant_sq as int)
    }) + seq![' '] + int_text(b.halfmove_clock as int) + seq![' '] + int_text(b.fullmove_number as int)
}

fn push_dec(out: &mut Vec<char>, n: u64)
    ensures
        final(out)@ == old(out)@ + dec_text(n as nat),
    decreases n,
{
    if n >= 10 {
        push_dec(out, n / 10);
        out.push(((n % 10) as u8 + 48u8) as char);
        proof {
            assert(final(out)@ =~= old(out)@ + dec_text((n / 10) as nat) + seq![(((n % 10) + 48) as u8) as char]);
        }
    } else {
        out.push((n as u8 + 48u8) as char);
    }
}

fn push_int(out: &mut Vec<char>, n: i32)
    ensures
        final(out)@ == old(out)@ + int_text(n as int),
{
    if n < 0 {
        out.push('-');
        let m: u64 = (-(n as i64)) as u64;
        let ghost o = out@;
        push_dec(out, m);
        proof {
            assert(out@ =~= old(out)@ + int_text(n as int));
        }
    } else {
        push_dec(out, n as u64);
    }
}

fn push_row(out: &mut Vec<char>, b: &Board, lo: usize)
    requires
        lo + 8 <= 64,
    ensures
        final(out)@ == old(out)@ + row_text(b.piece_on@.subrange(lo as int, lo + 8), 0),
{
    let ghost row = b.piece_on@.subrange(lo as int, lo + 8);
    proof {
        assert(row.skip(0) =~= row);
    }
    let mut run: u64 = 0;
    let mut f: usize = 0;
    while f < 8
        invariant
            f <= 8,
            run <= f,
            lo + 8 <= 64,
            row == b.piece_on@.subrange(lo as int, lo + 8),
            old(out)@ + row_text(row, 0) == out@ + row_text(row.skip(f as int), run as nat),
        decreases 8 - f,
    {
        let p = b.piece_on[lo + f];
        let ghost rest = row.skip(f as int);
        assert(rest[0] == p);
        assert(rest.drop_first() =~= row.skip(f + 1));
        if p == Piece::Empty {
            run = run + 1;
        } else {
            if run > 0 {
                push_dec(out, run);
            }
            out.push(p.to_char());
            run = 0;
            proof {
                assert(out@ + row_text(row.skip(f + 1), 0) =~= old(out)@ + row_text(row, 0));
            }
        }
        f = f + 1;
    }
    proof {
        assert(row.skip(8) =~= Seq::<Piece>::empty());
    }
    if run > 0 {
        push_dec(out, run);
    } else {
        proof {
            assert(out@ + Seq::<char>::empty() =~= out@);
        }
    }
}

fn push_placement(out: &mut Vec<char>, b: &Board)
    ensures
        final(out)@ == old(out)@ + ranks_text(b.piece_on@, 0),
{
    let ghost o = out@;
    let mut r: usize = 8;
    let ghost sq = b.piece_on@;
    while r > 0
        invariant
            r <= 8,
            sq == b.piece_on@,
            r < 8 ==> out@ == o + ranks_text(sq, r as int),
            r == 8 ==> out@ == o,
        decreases r,
    {
        let rank = r - 1;
        if rank < 7 {
            out.push('/');
        }
        push_row(out, b, 8 * rank);
        proof {
            if rank == 7 {
                assert(out@ =~= o + ranks_text(sq, 7));
            } else {
                assert(out@ =~= o + ranks_text(sq, rank as int));
            }
        }
        r = rank;
    }
}

fn push_castle(out: &mut Vec<char>, c: u8)
    ensures
        final(out)@ == old(out)@ + castle_text(c),
{
    let ghost mark = out@;
    if c & 1u8 != 0 {
        out.push('K');
    }
    if c & 2u8 != 0 {
        out.push('Q');
    }
    if c & 4u8 != 0 {
        out.push('k');
    }
    if c & 8u8 != 0 {
        out.push('q');
    }
    if c & 15u8 == 0 {
        out.push('-');
    }
    proof {
        assert(c & 15u8 == 0 <==> (c & 1u8 == 0 && c & 2u8 == 0 && c & 4u8 == 0 && c & 8u8 == 0)) by (bit_vector);
        assert(out@ =~= mark + castle_text(c));
    }
}

fn push_ep(out: &mut Vec<char>, e: i32)
    requires
        e == -1 || 0 <= e < 72,
    ensures
        final(out)@ == old(out)@ + (if e == -1 {
            seq!['-']
        } else {
            spec_sq_str(e as int)
        }),
{
    if e == -1 {
        out.push('-');
    } else {
        out.push(((e % 8) as u8 + 97u8) as char);
        out.push((((e / 8) % 256) as u8 + 49u8) as char);
    }
}

impl Board {
    /// The position as FEN.
    pub fn to_fen(&self) -> (s: String)
        requires
            self.wf(),
        ensures
            s@ == fen_text(*self),
    {
        let mut out: Vec<char> = Vec::new();
        push_placement(&mut out, self);
        out.push(' ');
        if self.turn == crate::types::Color::White {
            out.push('w');
        } else {
            out.push('b');
        }
        out.push(' ');
        push_castle(&mut out, self.castle);
        out.push(' ');
        push_ep(&mut out, self.en_passant_sq);
        out.push(' ');
        push_int(&mut out, self.halfmove_clock);
        out.push(' ');
        push_int(&mut out, self.fullmove_number);
        proof {
            assert(out@ =~= fen_text(*self));
        }
        string_from_chars(&out)
    }
}

} // verus!
