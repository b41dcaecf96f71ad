//! Reading back a written FEN gives the position that was written.
use vstd::prelude::*;
use vstd::utf8::{encode_utf8, is_ascii_chars, is_ascii_chars_encode_utf8};
use crate::fen::{board_matches, fen_fields, fen_spec, nonempty, FenData, castle_field, castle_fold, digits_value, ep_field, number_field, piece_of_byte, placement, rank_squares, split_on};
use crate::fen_out::{castle_text, dec_text, fen_text, int_text, ranks_text, row_text};
use crate::board::Board;
use crate::types::Color;
use crate::types::{BK_CASTLE, BQ_CASTLE, WK_CASTLE, WQ_CASTLE};
use crate::types::spec_sq_str;
use crate::types::Piece;

verus! {

/// The en-passant field as written.
pub open spec fn ep_text(e: i32) -> Seq<char> {
    if e == -1 {
        seq!['-']
    } else {
        spec_sq_str(e as int)
    }
}

/// The bytes of an ASCII text, one per character.
pub open spec fn bytes(t: Seq<char>) -> Seq<u8> {
    t.map_values(|c: char| c as u8)
}

proof fn lemma_bytes_concat(x: Seq<char>, y: Seq<char>)
    ensures
        bytes(x + y) == bytes(x) + bytes(y),
{
    assert(bytes(x + y) =~= bytes(x) + bytes(y));
}

proof fn lemma_ascii_concat(x: Seq<char>, y: Seq<char>)
    requires
        is_ascii_chars(x),
        is_ascii_chars(y),
    ensures
        is_ascii_chars(x + y),
{
    assert forall|i: int| 0 <= i < (x + y).len() implies '\0' <= #[trigger] (x + y)[i] <= '\u{7f}' by {
        if i < x.len() {
            assert((x + y)[i] == x[i]);
        } else {
            assert((x + y)[i] == y[i - x.len()]);
        }
    }
}

proof fn lemma_encode_ascii(t: Seq<char>)
    requires
        is_ascii_chars(t),
    ensures
        encode_utf8(t) == bytes(t),
{
    is_ascii_chars_encode_utf8(t);
    assert(encode_utf8(t) =~= bytes(t));
}

proof fn lemma_split_len(s: Seq<u8>, sep: u8)
    ensures
        split_on(s, sep).len() >= 1,
    decreases s.len(),
{
    if s.len() > 0 {
        lemma_split_len(s.drop_last(), sep);
    }
}

/// A text without the separator is one piece.
proof fn lemma_split_none(s: Seq<u8>, sep: u8)
    requires
        forall|i: int| 0 <= i < s.len() ==> s[i] != sep,
    ensures
        split_on(s, sep) == seq![s],
    decreases s.len(),
{
    if s.len() > 0 {
        lemma_split_none(s.drop_last(), sep);
        assert(s.drop_last().push(s.last()) =~= s);
        assert(split_on(s, sep) =~= seq![s]);
    } else {
        assert(s =~= Seq::<u8>::empty());
    }
}

/// Splitting at a separator splits the two sides apart.
proof fn lemma_split_join(x: Seq<u8>, y: Seq<u8>, sep: u8)
    ensures
        split_on(x + seq![sep] + y, sep) == split_on(x, sep) + split_on(y, sep),
    decreases y.len(),
{
    let s = x + seq![sep] + y;
    lemma_split_len(x, sep);
    if y.len() == 0 {
        assert(s.drop_last() =~= x);
        assert(split_on(s, sep) =~= split_on(x, sep) + split_on(y, sep));
    } else {
        let y1 = y.drop_last();
        lemma_split_join(x, y1, sep);
        lemma_split_len(y1, sep);
        assert(s.drop_last() =~= x + seq![sep] + y1);
        assert(s.last() == y.last());
        let a = split_on(x, sep);
        let b1 = split_on(y1, sep);
        if y.last() == sep {
            assert(split_on(s, sep) =~= a + split_on(y, sep));
        } else {
            let prev = a + b1;
            assert(prev.update(prev.len() - 1, prev.last().push(y.last())) =~= a + b1.update(
                b1.len() - 1,
                b1.last().push(y.last()),
            ));
        }
    }
}


proof fn lemma_rank_concat(x: Seq<u8>, y: Seq<u8>)
    requires
        rank_squares(x) is Some,
        rank_squares(y) is Some,
    ensures
        rank_squares(x + y) == Some(rank_squares(x).unwrap() + rank_squares(y).unwrap()),
    decreases y.len(),
{
    if y.len() == 0 {
        assert(x + y =~= x);
        assert(rank_squares(x).unwrap() + Seq::<Piece>::empty() =~= rank_squares(x).unwrap());
    } else {
        let y1 = y.drop_last();
        assert(rank_squares(y1) is Some);
        lemma_rank_concat(x, y1);
        assert((x + y).drop_last() =~= x + y1);
        assert((x + y).last() == y.last());
        let rx = rank_squares(x).unwrap();
        let ry1 = rank_squares(y1).unwrap();
        let c = y.last();
        if 49 <= c <= 56 {
            assert(rx + ry1 + Seq::new((c - 48) as nat, |i: int| Piece::Empty) =~= rx + (ry1 + Seq::new(
                (c - 48) as nat,
                |i: int| Piece::Empty,
            )));
        } else {
            assert((rx + ry1).push(piece_of_byte(c)) =~= rx + ry1.push(piece_of_byte(c)));
        }
    }
}

proof fn lemma_rank_single(c: u8)
    ensures
        rank_squares(seq![c]) == (if 49 <= c <= 56 {
            Some(Seq::new((c - 48) as nat, |i: int| Piece::Empty))
        } else if piece_of_byte(c) != Piece::Empty {
            Some(seq![piece_of_byte(c)])
        } else {
            None
        }),
{
    assert(seq![c].drop_last() =~= Seq::<u8>::empty());
    assert(rank_squares(Seq::<u8>::empty()) == Some(Seq::<Piece>::empty()));
    assert(Seq::<Piece>::empty() + Seq::new((c - 48) as nat, |i: int| Piece::Empty) =~= Seq::new(
        (c - 48) as nat,
        |i: int| Piece::Empty,
    ));
    assert(Seq::<Piece>::empty().push(piece_of_byte(c)) =~= seq![piece_of_byte(c)]);
}

/// A character that a rank of FEN may hold: a digit 1-8 or a piece letter.
pub open spec fn rank_char(c: char) -> bool {
    ('1' <= c <= '8') || Piece::spec_from_char(c) != Piece::Empty
}

proof fn lemma_piece_letter(p: Piece)
    requires
        p != Piece::Empty,
    ensures
        piece_of_byte(p.spec_to_char() as u8) == p,
        rank_char(p.spec_to_char()),
        (p.spec_to_char() as u8) as char == p.spec_to_char(),
        p.spec_to_char() <= '\u{7f}',
        !('1' <= p.spec_to_char() <= '8'),
{
}

/// One written rank reads back as its squares, with `run` empty squares before.
proof fn lemma_row(row: Seq<Piece>, run: nat)
    requires
        run + row.len() <= 8,
    ensures
        rank_squares(bytes(row_text(row, run))) == Some(Seq::new(run, |i: int| Piece::Empty) + row),
        is_ascii_chars(row_text(row, run)),
        forall|i: int| 0 <= i < row_text(row, run).len() ==> rank_char(#[trigger] row_text(row, run)[i]),
    decreases row.len(),
{
    let t = row_text(row, run);
    let digit = |n: nat| seq![((n + 48) as u8) as char];
    if run > 0 {
        assert(dec_text(run) == seq![((run + 48) as u8) as char]);
        assert(bytes(dec_text(run)) =~= seq![(run + 48) as u8]);
        lemma_rank_single((run + 48) as u8);
    }
    let d = if run > 0 {
        dec_text(run)
    } else {
        Seq::<char>::empty()
    };
    assert(rank_squares(bytes(d)) == Some(Seq::new(run, |i: int| Piece::Empty))) by {
        if run == 0 {
            assert(bytes(d) =~= Seq::<u8>::empty());
            assert(Seq::new(run, |i: int| Piece::Empty) =~= Seq::<Piece>::empty());
        }
    }
    assert(is_ascii_chars(d));
    assert(forall|i: int| 0 <= i < d.len() ==> rank_char(#[trigger] d[i]));
    if row.len() == 0 {
        assert(t == d);
        assert(Seq::new(run, |i: int| Piece::Empty) + row =~= Seq::new(run, |i: int| Piece::Empty));
    } else if row[0] == Piece::Empty {
        lemma_row(row.drop_first(), run + 1);
        assert(Seq::new(run + 1, |i: int| Piece::Empty) + row.drop_first() =~= Seq::new(run, |i: int| Piece::Empty)
            + row);
    } else {
        let p = row[0];
        let r = row.drop_first();
        lemma_row(r, 0);
        lemma_piece_letter(p);
        let ch = p.spec_to_char();
        assert(t == d + seq![ch] + row_text(r, 0));
        lemma_bytes_concat(d + seq![ch], row_text(r, 0));
        lemma_bytes_concat(d, seq![ch]);
        assert(bytes(seq![ch]) =~= seq![ch as u8]);
        lemma_rank_single(ch as u8);
        lemma_rank_concat(bytes(d), seq![ch as u8]);
        lemma_rank_concat(bytes(d) + seq![ch as u8], bytes(row_text(r, 0)));
        assert(Seq::new(0, |i: int| Piece::Empty) + r =~= r);
        assert(Seq::new(run, |i: int| Piece::Empty) + seq![p] + r =~= Seq::new(run, |i: int| Piece::Empty) + row);
        lemma_ascii_concat(d, seq![ch]);
        lemma_ascii_concat(d + seq![ch], row_text(r, 0));
        assert forall|i: int| 0 <= i < t.len() implies rank_char(#[trigger] t[i]) by {
            if i < d.len() {
                assert(t[i] == d[i]);
            } else if i == d.len() {
                assert(t[i] == ch);
            } else {
                assert(t[i] == row_text(r, 0)[i - d.len() - 1]);
            }
        }
    }
}


proof fn lemma_rank_char_byte(c: char)
    requires
        rank_char(c),
    ensures
        c <= '\u{7f}',
        (c as u8) != 47u8,
        (c as u8) != 32u8,
{
}

/// The rows of a placement, written, from the eighth rank down to rank `r`.
pub open spec fn written_rows(sq: Seq<Piece>, r: int) -> Seq<Seq<u8>> {
    Seq::new((8 - r) as nat, |k: int| bytes(row_text(sq.subrange(8 * (7 - k), 8 * (7 - k) + 8), 0)))
}

proof fn lemma_row_bytes(row: Seq<Piece>)
    requires
        row.len() == 8,
    ensures
        forall|i: int| 0 <= i < bytes(row_text(row, 0)).len() ==> #[trigger] bytes(row_text(row, 0))[i] != 47u8
            && bytes(row_text(row, 0))[i] != 32u8,
        is_ascii_chars(row_text(row, 0)),
        rank_squares(bytes(row_text(row, 0))) == Some(row),
{
    lemma_row(row, 0);
    let t = row_text(row, 0);
    assert forall|i: int| 0 <= i < bytes(t).len() implies #[trigger] bytes(t)[i] != 47u8 && bytes(t)[i] != 32u8 by {
        lemma_rank_char_byte(t[i]);
    }
    assert(Seq::new(0, |i: int| Piece::Empty) + row =~= row);
}

proof fn lemma_ranks_split(sq: Seq<Piece>, r: int)
    requires
        sq.len() == 64,
        0 <= r <= 7,
    ensures
        split_on(bytes(ranks_text(sq, r)), 47u8) == written_rows(sq, r),
        is_ascii_chars(ranks_text(sq, r)),
        forall|i: int| 0 <= i < bytes(ranks_text(sq, r)).len() ==> #[trigger] bytes(ranks_text(sq, r))[i] != 32u8,
    decreases 7 - r,
{
    let row = sq.subrange(8 * r, 8 * r + 8);
    lemma_row_bytes(row);
    if r == 7 {
        lemma_split_none(bytes(row_text(row, 0)), 47u8);
        assert(written_rows(sq, 7) =~= seq![bytes(row_text(row, 0))]);
    } else {
        lemma_ranks_split(sq, r + 1);
        let a = ranks_text(sq, r + 1);
        let t = row_text(row, 0);
        assert(ranks_text(sq, r) == a + seq!['/'] + t);
        lemma_bytes_concat(a + seq!['/'], t);
        lemma_bytes_concat(a, seq!['/']);
        assert(bytes(seq!['/']) =~= seq![47u8]);
        lemma_split_join(bytes(a), bytes(t), 47u8);
        lemma_split_none(bytes(t), 47u8);
        assert(written_rows(sq, r) =~= written_rows(sq, r + 1) + seq![bytes(t)]);
        lemma_ascii_concat(a, seq!['/']);
        lemma_ascii_concat(a + seq!['/'], t);
        let all = bytes(ranks_text(sq, r));
        assert forall|i: int| 0 <= i < all.len() implies #[trigger] all[i] != 32u8 by {
            if i < bytes(a).len() {
                assert(all[i] == bytes(a)[i]);
            } else if i == bytes(a).len() {
                assert(all[i] == 47u8);
            } else {
                assert(all[i] == bytes(t)[i - bytes(a).len() - 1]);
            }
        }
    }
}

/// A written placement reads back as its 64 squares.
proof fn lemma_placement(sq: Seq<Piece>)
    requires
        sq.len() == 64,
    ensures
        placement(bytes(ranks_text(sq, 0))) == Some(sq),
        is_ascii_chars(ranks_text(sq, 0)),
        forall|i: int| 0 <= i < bytes(ranks_text(sq, 0)).len() ==> #[trigger] bytes(ranks_text(sq, 0))[i] != 32u8,
{
    lemma_ranks_split(sq, 0);
    let parts = written_rows(sq, 0);
    assert forall|k: int| 0 <= k < 8 implies (#[trigger] rank_squares(parts[k])) == Some(
        sq.subrange(8 * (7 - k), 8 * (7 - k) + 8),
    ) by {
        lemma_row_bytes(sq.subrange(8 * (7 - k), 8 * (7 - k) + 8));
    }
    let got = Seq::new(64, |s: int| rank_squares(parts[7 - s / 8]).unwrap()[s % 8]);
    assert forall|s: int| 0 <= s < 64 implies got[s] == sq[s] by {
        let k = 7 - s / 8;
        assert(0 <= k < 8);
        assert(8 * (7 - k) + s % 8 == s);
    }
    assert(got =~= sq);
}


proof fn lemma_castle(c: u8)
    requires
        c <= 15,
    ensures
        castle_field(bytes(castle_text(c))) == Some(c),
        is_ascii_chars(castle_text(c)),
        castle_text(c).len() > 0,
        forall|i: int| 0 <= i < bytes(castle_text(c)).len() ==> #[trigger] bytes(castle_text(c))[i] != 32u8,
{
    let t1 = if c & 1u8 != 0 { seq!['K'] } else { Seq::<char>::empty() };
    let t2 = if c & 2u8 != 0 { seq!['Q'] } else { Seq::<char>::empty() };
    let t3 = if c & 4u8 != 0 { seq!['k'] } else { Seq::<char>::empty() };
    let t4 = if c & 8u8 != 0 { seq!['q'] } else { Seq::<char>::empty() };
    let t = t1 + t2 + t3 + t4;
    let v1: u8 = if c & 1u8 != 0 { 1u8 } else { 0u8 };
    let v2: u8 = if c & 2u8 != 0 { 2u8 } else { 0u8 };
    let v3: u8 = if c & 4u8 != 0 { 4u8 } else { 0u8 };
    let v4: u8 = if c & 8u8 != 0 { 8u8 } else { 0u8 };
    assert(c <= 15 ==> (((0u8 | v1) | v2) | v3) | v4 == c && (v1 == 0 && v2 == 0 && v3 == 0 && v4 == 0 ==> c == 0)
        && v1 | 0u8 == v1) by (bit_vector)
        requires
            v1 == (if c & 1u8 != 0 { 1u8 } else { 0u8 }),
            v2 == (if c & 2u8 != 0 { 2u8 } else { 0u8 }),
            v3 == (if c & 4u8 != 0 { 4u8 } else { 0u8 }),
            v4 == (if c & 8u8 != 0 { 8u8 } else { 0u8 }),
    ;
    assert((0u8 | v1) | 0u8 == 0u8 | v1 && ((0u8 | v1) | v2) | 0u8 == (0u8 | v1) | v2 && (((0u8 | v1) | v2) | v3)
        | 0u8 == ((0u8 | v1) | v2) | v3 && 0u8 | 0u8 == 0u8) by (bit_vector);
    let b1 = bytes(t1);
    let b2 = bytes(t1 + t2);
    let b3 = bytes(t1 + t2 + t3);
    let b4 = bytes(t);
    assert(castle_fold(Seq::<u8>::empty()) == Some(0u8));
    assert(castle_fold(b1) == Some(0u8 | v1)) by {
        if c & 1u8 != 0 {
            assert(b1 =~= Seq::<u8>::empty().push(75u8));
            assert(b1.drop_last() =~= Seq::<u8>::empty());
        } else {
            assert(b1 =~= Seq::<u8>::empty());
        }
    }
    assert(castle_fold(b2) == Some((0u8 | v1) | v2)) by {
        if c & 2u8 != 0 {
            assert(b2 =~= b1.push(81u8));
            assert(b2.drop_last() =~= b1);
        } else {
            assert(b2 =~= b1);
        }
    }
    assert(castle_fold(b3) == Some(((0u8 | v1) | v2) | v3)) by {
        if c & 4u8 != 0 {
            assert(b3 =~= b2.push(107u8));
            assert(b3.drop_last() =~= b2);
        } else {
            assert(b3 =~= b2);
        }
    }
    assert(castle_fold(b4) == Some((((0u8 | v1) | v2) | v3) | v4)) by {
        if c & 8u8 != 0 {
            assert(b4 =~= b3.push(113u8));
            assert(b4.drop_last() =~= b3);
        } else {
            assert(b4 =~= b3);
        }
    }
    assert forall|i: int| 0 <= i < t.len() implies t[i] == 'K' || t[i] == 'Q' || t[i] == 'k' || t[i] == 'q' by {
        if i < t1.len() {
            assert(t[i] == t1[i]);
        } else if i < t1.len() + t2.len() {
            assert(t[i] == t2[i - t1.len()]);
        } else if i < t1.len() + t2.len() + t3.len() {
            assert(t[i] == t3[i - t1.len() - t2.len()]);
        } else {
            assert(t[i] == t4[i - t1.len() - t2.len() - t3.len()]);
        }
    }
    if t.len() == 0 {
        assert(castle_text(c) == seq!['-']);
        assert(bytes(seq!['-']) =~= seq![45u8]);
    } else {
        assert(castle_text(c) == t);
        assert(bytes(t) != seq![45u8]) by {
            assert(bytes(t)[0] == t[0] as u8);
        }
    }
}

proof fn lemma_ep(e: i32)
    requires
        e == -1 || 0 <= e < 64,
    ensures
        ep_field(bytes(ep_text(e))) == Some(e),
        is_ascii_chars(ep_text(e)),
        ep_text(e).len() > 0,
        forall|i: int| 0 <= i < bytes(ep_text(e)).len() ==> #[trigger] bytes(ep_text(e))[i] != 32u8,
{
    if e == -1 {
        assert(bytes(seq!['-']) =~= seq![45u8]);
    } else {
        let t = spec_sq_str(e as int);
        assert(bytes(t) =~= seq![((e % 8) + 97) as u8, ((e / 8) + 49) as u8]);
        assert(bytes(t) != seq![45u8]);
        assert((e / 8) * 8 + e % 8 == e);
    }
}

/// The decimal digits of a number read back as the number.
proof fn lemma_dec(n: nat)
    ensures
        bytes(dec_text(n)).len() >= 1,
        forall|i: int| 0 <= i < bytes(dec_text(n)).len() ==> 48 <= #[trigger] bytes(dec_text(n))[i] <= 57,
        digits_value(bytes(dec_text(n))) == n,
        is_ascii_chars(dec_text(n)),
    decreases n,
{
    if n < 10 {
        assert(bytes(dec_text(n)) =~= seq![(n + 48) as u8]);
        assert(seq![(n + 48) as u8].drop_last() =~= Seq::<u8>::empty());
        assert(digits_value(Seq::<u8>::empty()) == 0);
        assert(digits_value(seq![(n + 48) as u8]) == digits_value(Seq::<u8>::empty()) * 10 + n);
    } else {
        lemma_dec(n / 10);
        let a = dec_text(n / 10);
        let d = (((n % 10) + 48) as u8) as char;
        assert(dec_text(n) == a + seq![d]);
        assert(bytes(dec_text(n)) =~= bytes(a).push(((n % 10) + 48) as u8));
        assert(bytes(a).push(((n % 10) + 48) as u8).drop_last() =~= bytes(a));
        assert((n / 10) * 10 + n % 10 == n);
        assert(digits_value(bytes(a).push(((n % 10) + 48) as u8)) == digits_value(bytes(a)) * 10 + n % 10);
        lemma_ascii_concat(a, seq![d]);
    }
}

proof fn lemma_number(n: i32)
    requires
        n >= 0,
    ensures
        number_field(bytes(int_text(n as int))) == Some(n),
        is_ascii_chars(int_text(n as int)),
        int_text(n as int).len() > 0,
        forall|i: int| 0 <= i < bytes(int_text(n as int)).len() ==> #[trigger] bytes(int_text(n as int))[i] != 32u8,
{
    lemma_dec(n as nat);
    let t = bytes(dec_text(n as nat));
    assert forall|i: int| 0 <= i < t.len() implies #[trigger] t[i] != 32u8 by {
        assert(48 <= t[i] <= 57);
    }
}


/// No byte of the text is a space.
pub open spec fn spaceless(t: Seq<char>) -> bool {
    forall|i: int| 0 <= i < bytes(t).len() ==> #[trigger] bytes(t)[i] != 32u8
}

proof fn lemma_field_join(x: Seq<char>, y: Seq<char>)
    requires
        is_ascii_chars(x),
        is_ascii_chars(y),
        spaceless(y),
    ensures
        split_on(bytes(x + seq![' '] + y), 32u8) == split_on(bytes(x), 32u8) + seq![bytes(y)],
        is_ascii_chars(x + seq![' '] + y),
{
    lemma_bytes_concat(x + seq![' '], y);
    lemma_bytes_concat(x, seq![' ']);
    assert(bytes(seq![' ']) =~= seq![32u8]);
    lemma_split_join(bytes(x), bytes(y), 32u8);
    lemma_split_none(bytes(y), 32u8);
    assert(is_ascii_chars(seq![' ']));
    lemma_ascii_concat(x, seq![' ']);
    lemma_ascii_concat(x + seq![' '], y);
}

proof fn lemma_filter_keep(s: Seq<Seq<u8>>)
    requires
        forall|i: int| 0 <= i < s.len() ==> (#[trigger] s[i]).len() > 0,
    ensures
        s.filter(nonempty()) == s,
    decreases s.len(),
{
    if s.len() > 0 {
        lemma_filter_keep(s.drop_last());
        s.drop_last().lemma_filter_push(s.last(), nonempty());
        assert(s.drop_last().push(s.last()) =~= s);
    }
}

/// What the written FEN of `b` says of it.
pub open spec fn fen_data_of(b: Board) -> FenData {
    FenData {
        squares: b.piece_on@,
        turn: b.turn,
        castle: b.castle,
        ep: b.en_passant_sq,
        halfmove: b.halfmove_clock,
        fullmove: b.fullmove_number,
    }
}

/// The written fields of `b`.
pub open spec fn written_fields(b: Board) -> Seq<Seq<u8>> {
    seq![
        bytes(ranks_text(b.piece_on@, 0)),
        bytes(if b.turn == Color::White { seq!['w'] } else { seq!['b'] }),
        bytes(castle_text(b.castle)),
        bytes(ep_text(b.en_passant_sq)),
        bytes(int_text(b.halfmove_clock as int)),
        bytes(int_text(b.fullmove_number as int)),
    ]
}

#[verifier::rlimit(60)]
#[verifier::spinoff_prover]
proof fn lemma_written_fields(b: Board)
    requires
        b.castle <= 15,
        b.en_passant_sq == -1 || 0 <= b.en_passant_sq < 64,
        b.halfmove_clock >= 0,
        b.fullmove_number >= 0,
    ensures
        fen_fields(encode_utf8(fen_text(b))) == written_fields(b),
{
    let sq = b.piece_on@;
    lemma_placement(sq);
    let p = ranks_text(sq, 0);
    let t = if b.turn == Color::White { seq!['w'] } else { seq!['b'] };
    let c = castle_text(b.castle);
    let e = ep_text(b.en_passant_sq);
    let h = int_text(b.halfmove_clock as int);
    let f = int_text(b.fullmove_number as int);
    lemma_castle(b.castle);
    lemma_ep(b.en_passant_sq);
    lemma_number(b.halfmove_clock);
    lemma_number(b.fullmove_number);
    assert(bytes(t) =~= seq![if b.turn == Color::White { 119u8 } else { 98u8 }]);
    assert(spaceless(t));
    assert(is_ascii_chars(t));
    lemma_split_none(bytes(p), 32u8);
    let x2 = p + seq![' '] + t;
    lemma_field_join(p, t);
    let x3 = x2 + seq![' '] + c;
    lemma_field_join(x2, c);
    let x4 = x3 + seq![' '] + e;
    lemma_field_join(x3, e);
    let x5 = x4 + seq![' '] + h;
    lemma_field_join(x4, h);
    let x6 = x5 + seq![' '] + f;
    lemma_field_join(x5, f);
    assert(fen_text(b) == x6);
    let fields = written_fields(b);
    assert(split_on(bytes(x6), 32u8) =~= fields);
    lemma_filter_keep(fields);
    lemma_encode_ascii(x6);
}

/// The FEN that `to_fen` writes reads back, as `from_fen` reads it, as exactly
/// the written position: squares, side to move, castling rights, en-passant
/// square and both counters. (Rights beyond the four castling bits, an
/// en-passant square off the board and negative counters are not written so
/// that they read back.)
pub proof fn lemma_fen_roundtrip(b: Board)
    requires
        b.castle <= 15,
        b.en_passant_sq == -1 || 0 <= b.en_passant_sq < 64,
        b.halfmove_clock >= 0,
        b.fullmove_number >= 0,
    ensures
        fen_spec(encode_utf8(fen_text(b))) == Some(fen_data_of(b)),
        board_matches(b, fen_data_of(b)),
{
    lemma_written_fields(b);
    lemma_placement(b.piece_on@);
    lemma_castle(b.castle);
    lemma_ep(b.en_passant_sq);
    lemma_number(b.halfmove_clock);
    lemma_number(b.fullmove_number);
    let f = written_fields(b);
    assert(f[1] == (if b.turn == Color::White { seq![119u8] } else { seq![98u8] })) by {
        assert(bytes(seq!['w']) =~= seq![119u8]);
        assert(bytes(seq!['b']) =~= seq![98u8]);
    }
    assert(f.len() == 6);
    assert(placement(f[0]) == Some(b.piece_on@));
    assert(castle_field(f[2]) == Some(b.castle));
    assert(ep_field(f[3]) == Some(b.en_passant_sq));
    assert(number_field(f[4]) == Some(b.halfmove_clock));
    assert(number_field(f[5]) == Some(b.fullmove_number));
    let s = encode_utf8(fen_text(b));
    assert(fen_fields(s) == f);
    assert(seq![98u8] != seq![119u8]) by {
        assert(seq![98u8][0] != seq![119u8][0]);
    }
    let turn = if f[1] == seq![119u8] {
        Some(Color::White)
    } else if f[1] == seq![98u8] {
        Some(Color::Black)
    } else {
        None
    };
    assert(turn == Some(b.turn));
}

/// Adding one castling right to a set: that right is held afterwards, the others
/// are as they were.
proof fn lemma_castle_add_bits(x: u8)
    by (bit_vector)
    ensures
        0u8 & WK_CASTLE == 0 && 0u8 & WQ_CASTLE == 0 && 0u8 & BK_CASTLE == 0 && 0u8 & BQ_CASTLE == 0,
        (x | WK_CASTLE) & WK_CASTLE != 0,
        (x | WK_CASTLE) & WQ_CASTLE == x & WQ_CASTLE,
        (x | WK_CASTLE) & BK_CASTLE == x & BK_CASTLE,
        (x | WK_CASTLE) & BQ_CASTLE == x & BQ_CASTLE,
        (x | WQ_CASTLE) & WK_CASTLE == x & WK_CASTLE,
        (x | WQ_CASTLE) & WQ_CASTLE != 0,
        (x | WQ_CASTLE) & BK_CASTLE == x & BK_CASTLE,
        (x | WQ_CASTLE) & BQ_CASTLE == x & BQ_CASTLE,
        (x | BK_CASTLE) & WK_CASTLE == x & WK_CASTLE,
        (x | BK_CASTLE) & WQ_CASTLE == x & WQ_CASTLE,
        (x | BK_CASTLE) & BK_CASTLE != 0,
        (x | BK_CASTLE) & BQ_CASTLE == x & BQ_CASTLE,
        (x | BQ_CASTLE) & WK_CASTLE == x & WK_CASTLE,
        (x | BQ_CASTLE) & WQ_CASTLE == x & WQ_CASTLE,
        (x | BQ_CASTLE) & BK_CASTLE == x & BK_CASTLE,
        (x | BQ_CASTLE) & BQ_CASTLE != 0,
{
}

/// A castling field grants exactly the rights its letters name: `K` white
/// kingside, `Q` white queenside, `k` black kingside, `q` black queenside.
pub proof fn lemma_castle_fold_letters(s: Seq<u8>)
    requires
        castle_fold(s) is Some,
    ensures
        (castle_fold(s).unwrap() & WK_CASTLE != 0) == s.contains(75u8),
        (castle_fold(s).unwrap() & WQ_CASTLE != 0) == s.contains(81u8),
        (castle_fold(s).unwrap() & BK_CASTLE != 0) == s.contains(107u8),
        (castle_fold(s).unwrap() & BQ_CASTLE != 0) == s.contains(113u8),
    decreases s.len(),
{
    if s.len() == 0 {
        lemma_castle_add_bits(0u8);
    } else {
        let p = s.drop_last();
        let x = s.last();
        lemma_castle_fold_letters(p);
        let c = castle_fold(p).unwrap();
        lemma_castle_add_bits(c);
        assert(s =~= p.push(x));
        assert forall|y: u8| s.contains(y) == (p.contains(y) || x == y) by {
            if s.contains(y) {
                let i = choose|i: int| 0 <= i < s.len() && s[i] == y;
                if i < p.len() {
                    assert(p[i] == y);
                }
            }
            if p.contains(y) {
                let i = choose|i: int| 0 <= i < p.len() && p[i] == y;
                assert(s[i] == y);
            }
            if x == y {
                assert(s[s.len() - 1] == y);
            }
        }
    }
}

/// The castling field of a FEN: `-` grants nothing; otherwise exactly the rights
/// named by its letters (so `K` alone is white kingside castling).
pub proof fn lemma_castle_field_letters(s: Seq<u8>)
    requires
        castle_field(s) is Some,
    ensures
        (castle_field(s).unwrap() & WK_CASTLE != 0) == s.contains(75u8),
        (castle_field(s).unwrap() & WQ_CASTLE != 0) == s.contains(81u8),
        (castle_field(s).unwrap() & BK_CASTLE != 0) == s.contains(107u8),
        (castle_field(s).unwrap() & BQ_CASTLE != 0) == s.contains(113u8),
        castle_field(seq![75u8]) == Some(WK_CASTLE),
{
    lemma_castle_add_bits(0u8);
    if s == seq![45u8] {
        assert(!s.contains(75u8) && !s.contains(81u8) && !s.contains(107u8) && !s.contains(113u8));
    } else {
        lemma_castle_fold_letters(s);
    }
    assert(seq![75u8].drop_last() =~= Seq::<u8>::empty());
    assert(castle_fold(Seq::<u8>::empty()) == Some(0u8));
    assert(seq![75u8].last() == 75u8);
    assert(castle_fold(seq![75u8]) == Some(0u8 | WK_CASTLE));
    assert(seq![75u8] != seq![45u8]) by {
        assert(seq![75u8][0] != seq![45u8][0]);
    }
    assert(0u8 | WK_CASTLE == WK_CASTLE) by (bit_vector);
}

/// A character sequence holds `x` when one of its two parts does.
proof fn lemma_concat_contains(a: Seq<char>, b: Seq<char>, x: char)
    ensures
        (a + b).contains(x) == (a.contains(x) || b.contains(x)),
{
    if (a + b).contains(x) {
        let i = choose|i: int| 0 <= i < (a + b).len() && (a + b)[i] == x;
        if i < a.len() {
            assert(a[i] == x);
        } else {
            assert(b[i - a.len()] == x);
        }
    }
    if a.contains(x) {
        let i = choose|i: int| 0 <= i < a.len() && a[i] == x;
        assert((a + b)[i] == x);
    }
    if b.contains(x) {
        let i = choose|i: int| 0 <= i < b.len() && b[i] == x;
        assert((a + b)[a.len() + i] == x);
    }
}

/// The castling field that `to_fen` writes names exactly the rights held: `K` for
/// white kingside, `Q` white queenside, `k` black kingside, `q` black queenside.
pub proof fn lemma_castle_text_letters(c: u8)
    ensures
        castle_text(c).contains('K') == (c & WK_CASTLE != 0),
        castle_text(c).contains('Q') == (c & WQ_CASTLE != 0),
        castle_text(c).contains('k') == (c & BK_CASTLE != 0),
        castle_text(c).contains('q') == (c & BQ_CASTLE != 0),
{
    let w1 = if c & 1u8 != 0 { seq!['K'] } else { Seq::<char>::empty() };
    let w2 = if c & 2u8 != 0 { seq!['Q'] } else { Seq::<char>::empty() };
    let w3 = if c & 4u8 != 0 { seq!['k'] } else { Seq::<char>::empty() };
    let w4 = if c & 8u8 != 0 { seq!['q'] } else { Seq::<char>::empty() };
    let w = w1 + w2 + w3 + w4;
    assert forall|x: char| w.contains(x) == (w1.contains(x) || w2.contains(x) || w3.contains(x) || w4.contains(x)) by {
        lemma_concat_contains(w1, w2, x);
        lemma_concat_contains(w1 + w2, w3, x);
        lemma_concat_contains(w1 + w2 + w3, w4, x);
    }
    assert forall|x: char| #[trigger] seq![x].contains(x) by {
        assert(seq![x][0] == x);
    }
    if w.len() == 0 {
        assert(!w.contains('K') && !w.contains('Q') && !w.contains('k') && !w.contains('q'));
        assert(!seq!['-'].contains('K') && !seq!['-'].contains('Q') && !seq!['-'].contains('k') && !seq!['-'].contains('q'));
    }
}

} // verus!
