//! Moves in UCI coordinate notation (`e2e4`, `e7e8q`).
use vstd::prelude::*;
use crate::board::Board;
use vstd::string::StringSliceAdditionalSpecFns;
use crate::text::string_from_chars;
use crate::types::{Move, MoveList, PieceKind};

verus! {

/// A byte as `to_ascii_lowercase` leaves it: upper-case ASCII letters lowered.
pub open spec fn lower_byte(b: u8) -> u8 {
    if 65 <= b <= 90 {
        (b + 32) as u8
    } else {
        b
    }
}

/// The square named by a file byte and a rank byte (`e`, `4`), if both are on the board.
pub open spec fn square_of_bytes(f: u8, r: u8) -> Option<u8> {
    let lf = lower_byte(f);
    if 97 <= lf <= 104 && 49 <= r <= 56 {
        Some(((r - 49) * 8 + (lf - 97)) as u8)
    } else {
        None
    }
}

/// The promotion piece named by a fifth byte.
pub open spec fn promo_of_byte(b: u8) -> Option<PieceKind> {
    let l = lower_byte(b);
    if l == 113 {
        Some(PieceKind::Queen)
    } else if l == 114 {
        Some(PieceKind::Rook)
    } else if l == 98 {
        Some(PieceKind::Bishop)
    } else if l == 110 {
        Some(PieceKind::Knight)
    } else {
        None
    }
}

/// What a UCI move text asks for: origin, target and promotion, if its first four
/// bytes name two squares. Bytes past the fifth are ignored.
pub open spec fn uci_request(s: Seq<u8>) -> Option<(u8, u8, Option<PieceKind>)> {
    if s.len() < 4 {
        None
    } else {
        match (square_of_bytes(s[0], s[1]), square_of_bytes(s[2], s[3])) {
            (Some(from), Some(to)) => Some(
                (from, to, if s.len() >= 5 {
                    promo_of_byte(s[4])
                } else {
                    None
                }),
            ),
            _ => None,
        }
    }
}

/// `m` answers the request `(from, to, promotion)`.
pub open spec fn answers(m: Move, from: u8, to: u8, promo: Option<PieceKind>) -> bool {
    m.from == from && m.to == to && m.promotion == promo
}

fn lower(b: u8) -> (r: u8)
    ensures
        r == lower_byte(b),
{
    if 65 <= b && b <= 90 {
        b + 32
    } else {
        b
    }
}

fn square_from(f: u8, r: u8) -> (sq: Option<u8>)
    ensures
        sq == square_of_bytes(f, r),
{
    let lf = lower(f);
    if 97 <= lf && lf <= 104 && 49 <= r && r <= 56 {
        Some((r - 49) * 8 + (lf - 97))
    } else {
        None
    }
}

fn promo_from(b: u8) -> (p: Option<PieceKind>)
    ensures
        p == promo_of_byte(b),
{
    let l = lower(b);
    if l == 113 {
        Some(PieceKind::Queen)
    } else if l == 114 {
        Some(PieceKind::Rook)
    } else if l == 98 {
        Some(PieceKind::Bishop)
    } else if l == 110 {
        Some(PieceKind::Knight)
    } else {
        None
    }
}

/// Reads a move in UCI notation and finds it among the legal moves of `b`: `None`
/// when the text does not name two squares or no legal move has that origin, target
/// and promotion. The board is played forward and back and ends as it was.
pub fn parse_uci_move(b: &mut Board, s: &str) -> (r: Option<Move>)
    requires
        old(b).wf(),
        old(b).consistent(),
        old(b).halfmove_clock < i32::MAX,
        old(b).fullmove_number < i32::MAX,
    ensures
        final(b).same_position_but_hash(&*old(b)),
        old(b).history_ok() ==> final(b).zobrist == old(b).zobrist,
        final(b).wf(),
        final(b).consistent(),
        final(b).model == old(b).model,
        match uci_request(s.spec_bytes()) {
            None => r is None,
            Some((from, to, promo)) => match r {
                Some(m) => old(b).legal_move(m) && answers(m, from, to, promo),
                None => forall|m: Move| old(b).legal_move(m) ==> !answers(m, from, to, promo),
            },
        },
{
    let bytes = s.as_bytes();
    if bytes.len() < 4 {
        return None;
    }
    let from = match square_from(bytes[0], bytes[1]) {
        Some(x) => x,
        None => return None,
    };
    let to = match square_from(bytes[2], bytes[3]) {
        Some(x) => x,
        None => return None,
    };
    let promo = if bytes.len() >= 5 {
        promo_from(bytes[4])
    } else {
        None
    };
    let ghost b0 = *b;
    let mut moves = MoveList::new();
    b.generate_legal_moves(&mut moves);
    let n = moves.len();
    let mut i: usize = 0;
    while i < n
        invariant
            n == moves@.len(),
            i <= n,
            forall|k: int| 0 <= k < i ==> !answers(#[trigger] moves@[k], from, to, promo),
            forall|k: int| 0 <= k < n ==> b0.legal_move(#[trigger] moves@[k]),
            b.same_position_but_hash(&b0),
            b0 == *old(b),
            b0.history_ok() ==> b.zobrist == b0.zobrist,
            b.wf(),
            b.consistent(),
            b.model == b0.model,
            uci_request(s.spec_bytes()) == Some((from, to, promo)),
        decreases n - i,
    {
        let m = moves.moves[i];
        if m.from == from && m.to == to && m.promotion == promo {
            return Some(m);
        }
        i = i + 1;
    }
    proof {
        assert forall|m: Move| b0.legal_move(m) implies !answers(m, from, to, promo) by {
            assert(moves@.contains(m));
        }
    }
    None
}

/// The UCI text of a move: origin and target squares, then the promotion letter.
pub open spec fn spec_uci(m: Move) -> Seq<char> {
    let base = seq![
        ((m.from % 8) + 97) as char,
        ((m.from / 8) + 49) as char,
        ((m.to % 8) + 97) as char,
        ((m.to / 8) + 49) as char,
    ];
    match m.promotion {
        Some(PieceKind::Queen) => base.push('q'),
        Some(PieceKind::Rook) => base.push('r'),
        Some(PieceKind::Bishop) => base.push('b'),
        Some(PieceKind::Knight) => base.push('n'),
        _ => base,
    }
}

/// Writes a move in UCI notation.
pub fn format_uci(m: Move) -> (s: String)
    requires
        m.promotion != Some(PieceKind::Pawn),
        m.promotion != Some(PieceKind::King),
    ensures
        s@ == spec_uci(m),
{
    let mut v: Vec<char> = Vec::new();
    v.push(((m.from % 8) + 97) as char);
    v.push(((m.from / 8) + 49) as char);
    v.push(((m.to % 8) + 97) as char);
    v.push(((m.to / 8) + 49) as char);
    match m.promotion {
        Some(PieceKind::Queen) => v.push('q'),
        Some(PieceKind::Rook) => v.push('r'),
        Some(PieceKind::Bishop) => v.push('b'),
        Some(PieceKind::Knight) => v.push('n'),
        _ => {},
    }
    proof {
        assert(v@ =~= spec_uci(m));
    }
    string_from_chars(&v)
}


proof fn lemma_ascii_scalar(v: u32)
    requires
        v <= 0x7F,
    ensures
        vstd::utf8::encode_scalar(v) == seq![v as u8],
{
    assert((v & 0x7Fu32) == v) by (bit_vector)
        requires
            v <= 0x7F,
    ;
}

/// Reading back the UCI text of a move on the board (promoting, if at all, to a
/// queen, rook, bishop or knight) asks for exactly that origin, target and
/// promotion.
pub proof fn lemma_uci_text_roundtrip(m: Move)
    requires
        m.from < 64,
        m.to < 64,
        m.promotion matches Some(k) ==> crate::movegen::promo_kind(k),
    ensures
        uci_request(vstd::utf8::encode_utf8(spec_uci(m))) == Some((m.from, m.to, m.promotion)),
{
    let t = spec_uci(m);
    let f0 = (m.from % 8) + 97;
    let r0 = (m.from / 8) + 49;
    let f1 = (m.to % 8) + 97;
    let r1 = (m.to / 8) + 49;
    lemma_ascii_scalar(f0 as u32);
    lemma_ascii_scalar(r0 as u32);
    lemma_ascii_scalar(f1 as u32);
    lemma_ascii_scalar(r1 as u32);
    lemma_ascii_scalar('q' as u32);
    lemma_ascii_scalar('r' as u32);
    lemma_ascii_scalar('b' as u32);
    lemma_ascii_scalar('n' as u32);
    reveal_with_fuel(vstd::utf8::encode_utf8, 6);
    let e = vstd::utf8::encode_utf8(t);
    assert(t[0] as u32 == f0 && t[1] as u32 == r0 && t[2] as u32 == f1 && t[3] as u32 == r1);
    assert(t.drop_first().drop_first().drop_first().drop_first().len() == t.len() - 4);
    if m.promotion is Some {
        assert(t.len() == 5);
        assert(e =~= seq![f0 as u8, r0 as u8, f1 as u8, r1 as u8, t[4] as u32 as u8]);
    } else {
        assert(t.len() == 4);
        assert(e =~= seq![f0 as u8, r0 as u8, f1 as u8, r1 as u8]);
    }
    assert(square_of_bytes(f0 as u8, r0 as u8) == Some(m.from));
    assert(square_of_bytes(f1 as u8, r1 as u8) == Some(m.to));
}

} // verus!
