//! Standard algebraic notation: writing a move (`Nbd7`, `exd5`, `e8=Q+`, `O-O`) and
//! reading a move typed at the terminal in either notation.
use vstd::prelude::*;
use crate::board::Board;
use crate::fen::lemma_consistent_congruent;
use crate::game_runner::{in_check, is_in_check, no_moves};
use crate::makemove::lemma_make_keeps_consistent;
use crate::search::made;
use crate::text::{chars_of, same_chars, string_from_chars};
use crate::types::{
    file_char, rank_char, spec_file_char, spec_rank_char, spec_sq_str, Color, Move, MoveList,
    PieceKind, Undo,
};
use crate::uci_io::parse_uci_move;
use vstd::string::StringSliceAdditionalSpecFns;

verus! {

/// `o` is another move of a piece of kind `k` to the target of `m`.
pub open spec fn rival(b: Board, m: Move, o: Move, k: PieceKind) -> bool {
    &&& o.from < 64
    &&& b.piece_on[o.from as int].spec_kind() == Some(k)
    &&& o.from != m.from
    &&& o.to == m.to
}

/// What tells `m` apart from the rivals in `legal`: nothing without rivals; the
/// origin file when no rival shares it, else the origin rank when no rival shares
/// that, else the whole origin square.
pub open spec fn disambiguation(b: Board, m: Move, legal: Seq<Move>, k: PieceKind) -> Seq<char> {
    let from = m.from as int;
    if !(exists|i: int| 0 <= i < legal.len() && rival(b, m, #[trigger] legal[i], k)) {
        Seq::empty()
    } else if forall|i: int| 0 <= i < legal.len() && rival(b, m, #[trigger] legal[i], k)
        ==> spec_file_char(legal[i].from as int) != spec_file_char(from) {
        seq![spec_file_char(from)]
    } else if forall|i: int| 0 <= i < legal.len() && rival(b, m, #[trigger] legal[i], k)
        ==> spec_rank_char(legal[i].from as int) != spec_rank_char(from) {
        seq![spec_rank_char(from)]
    } else {
        spec_sq_str(from)
    }
}

/// The notation of `m` before any check sign: castles as `O-O` / `O-O-O`; else the
/// piece letter and its disambiguation (a pawn capture: the origin file), `x` for a
/// capture, the target square, and `=` with the promotion letter.
pub open spec fn san_body(b: Board, m: Move, legal: Seq<Move>) -> Seq<char> {
    if m.castle {
        if m.to > m.from {
            "O-O"@
        } else {
            "O-O-O"@
        }
    } else {
        let from = m.from as int;
        let head = match b.piece_on[from].spec_kind() {
            Some(PieceKind::Pawn) => if m.capture {
                seq![spec_file_char(from)]
            } else {
                Seq::empty()
            },
            Some(k) => seq![k.spec_upper()] + disambiguation(b, m, legal, k),
            None => Seq::empty(),
        };
        let cap = if m.capture {
            seq!['x']
        } else {
            Seq::<char>::empty()
        };
        let promo = match m.promotion {
            Some(pk) => seq!['=', pk.spec_upper()],
            None => Seq::<char>::empty(),
        };
        head + cap + spec_sq_str(m.to as int) + promo
    }
}

fn push_str(out: &mut Vec<char>, s: &str)
    ensures
        final(out)@ == old(out)@ + s@,
{
    let c = chars_of(s);
    let mut i: usize = 0;
    let ghost o = out@;
    while i < c.len()
        invariant
            i <= c@.len(),
            c@ == s@,
            out@ == o + c@.take(i as int),
        decreases c@.len() - i,
    {
        out.push(c[i]);
        proof {
            assert(out@ =~= o + c@.take(i + 1));
        }
        i = i + 1;
    }
    proof {
        assert(c@.take(c@.len() as int) =~= c@);
    }
}

fn disambiguate(b: &Board, m: Move, legal: &[Move], k: PieceKind) -> (r: Vec<char>)
    requires
        m.from < 64,
    ensures
        r@ == disambiguation(*b, m, legal@, k),
{
    let from = m.from as usize;
    let mut any = false;
    let mut file_unique = true;
    let mut rank_unique = true;
    let mut i: usize = 0;
    while i < legal.len()
        invariant
            i <= legal@.len(),
            from == m.from,
            from < 64,
            any == exists|j: int| 0 <= j < i && rival(*b, m, #[trigger] legal@[j], k),
            file_unique == forall|j: int| 0 <= j < i && rival(*b, m, #[trigger] legal@[j], k)
                ==> spec_file_char(legal@[j].from as int) != spec_file_char(from as int),
            rank_unique == forall|j: int| 0 <= j < i && rival(*b, m, #[trigger] legal@[j], k)
                ==> spec_rank_char(legal@[j].from as int) != spec_rank_char(from as int),
        decreases legal@.len() - i,
    {
        let o = legal[i];
        let of = o.from as usize;
        if of < 64 && b.piece_on[of].kind() == Some(k) && of != from && o.to == m.to {
            any = true;
            if file_char(of) == file_char(from) {
                file_unique = false;
            }
            if rank_char(of) == rank_char(from) {
                rank_unique = false;
            }
        }
        i = i + 1;
    }
    let mut r: Vec<char> = Vec::new();
    if any {
        if file_unique {
            r.push(file_char(from));
        } else if rank_unique {
            r.push(rank_char(from));
        } else {
            r.push(file_char(from));
            r.push(rank_char(from));
        }
    }
    proof {
        assert(r@ =~= disambiguation(*b, m, legal@, k));
    }
    r
}

/// The check sign after a move: `#` when the side then to move is in check and
/// has no legal move, `+` when it is in check and has one, nothing otherwise.
pub open spec fn check_sign(a: Board) -> Seq<char> {
    if in_check(a) {
        if no_moves(a) {
            "#"@
        } else {
            "+"@
        }
    } else {
        Seq::empty()
    }
}

/// `make_move` takes `m` on `b`: it is pseudo-legal, and a black double push does
/// not start on the first rank.
pub open spec fn playable(b: Board, m: Move) -> bool {
    b.pseudo_legal(m) && (m.double_push && b.turn == Color::Black ==> m.from >= 8)
}

/// The sign that follows a move: the check sign of the position after it (nothing
/// when that position is not consistent).
pub open spec fn sign_after(a: Board) -> Seq<char> {
    if a.consistent() {
        check_sign(a)
    } else {
        Seq::empty()
    }
}

impl Board {
    fn san_chars(&self, m: Move, legal_moves: &[Move]) -> (out: Vec<char>)
        requires
            m.from < 64,
            m.to < 64,
        ensures
            out@ == san_body(*self, m, legal_moves@),
    {
        let mut out: Vec<char> = Vec::new();
        let from = m.from as usize;
        let to = m.to as usize;
        if m.castle {
            if m.to > m.from {
                push_str(&mut out, "O-O");
            } else {
                push_str(&mut out, "O-O-O");
            }
            return out;
        }
        match self.piece_on[from].kind() {
            Some(PieceKind::Pawn) => {
                if m.capture {
                    out.push(file_char(from));
                }
            },
            Some(k) => {
                out.push(k.to_char_upper());
                let d = disambiguate(self, m, legal_moves, k);
                let mut j: usize = 0;
                let ghost o = out@;
                while j < d.len()
                    invariant
                        j <= d@.len(),
                        out@ == o + d@.take(j as int),
                    decreases d@.len() - j,
                {
                    out.push(d[j]);
                    proof {
                        assert(out@ =~= o + d@.take(j + 1));
                    }
                    j = j + 1;
                }
                proof {
                    assert(d@.take(d@.len() as int) =~= d@);
                }
            },
            None => {},
        }
        if m.capture {
            out.push('x');
        }
        out.push(file_char(to));
        out.push(rank_char(to));
        match m.promotion {
            Some(pk) => {
                out.push('=');
                out.push(pk.to_char_upper());
            },
            None => {},
        }
        proof {
            assert(out@ =~= san_body(*self, m, legal_moves@));
        }
        out
    }

    fn check_suffix(&self, m: Move) -> (r: Vec<char>)
        requires
            self.wf(),
            self.consistent(),
            self.halfmove_clock < i32::MAX - 1,
            self.fullmove_number < i32::MAX - 1,
        ensures
            (r@ == Seq::<char>::empty() && !playable(*self, m)) || exists|c: Board, a: Board, u: Undo|
                c.same_position(self) && #[trigger] made(c, a, m, u) && r@ == sign_after(a),
    {
        let mut out: Vec<char> = Vec::new();
        let mut temp = self.copy();
        proof {
            lemma_consistent_congruent(temp, *self);
            assert(temp.pseudo_legal(m) == self.pseudo_legal(m)) by {
                crate::movegen::lemma_attacked_determined(temp, *self);
            }
        }
        if !temp.is_pseudo_legal(m) {
            return out;
        }
        if m.double_push && temp.turn == Color::Black && m.from < 8 {
            return out;
        }
        let ghost t0 = temp;
        let u = temp.make_move(m);
        let ghost a = temp;
        assert(made(t0, a, m, u));
        assert(t0.same_position(self));
        if is_in_check(&temp) && temp.is_consistent() {
            let mut next = MoveList::new();
            temp.generate_legal_moves(&mut next);
            if next.len() == 0 {
                out.push('#');
                proof {
                    reveal_strlit("#");
                    assert forall|x: Move| !a.legal_move(x) by {
                        if a.legal_move(x) {
                            assert(next@.contains(x));
                        }
                    }
                    assert(out@ =~= sign_after(a));
                }
            } else {
                out.push('+');
                proof {
                    reveal_strlit("+");
                    assert(a.legal_move(next@[0]));
                    assert(out@ =~= sign_after(a));
                }
            }
        } else {
            proof {
                assert(out@ =~= sign_after(a));
            }
        }
        out
    }

    /// The move `m` in standard algebraic notation, telling it apart from the other
    /// moves of `legal_moves`, with its check sign; a move that `make_move` cannot
    /// take here gets no sign.
    pub fn to_san(&self, m: Move, legal_moves: &[Move]) -> (s: String)
        requires
            self.wf(),
            self.consistent(),
            self.halfmove_clock < i32::MAX - 1,
            self.fullmove_number < i32::MAX - 1,
            m.from < 64,
            m.to < 64,
        ensures
            ({
                let body = san_body(*self, m, legal_moves@);
                ||| s@ == body && !playable(*self, m)
                ||| exists|c: Board, a: Board, u: Undo|
                    c.same_position(self) && #[trigger] made(c, a, m, u) && s@ == body + sign_after(a)
            }),
    {
        let mut out = self.san_chars(m, legal_moves);
        let suffix = self.check_suffix(m);
        let ghost body = out@;
        let mut j: usize = 0;
        while j < suffix.len()
            invariant
                j <= suffix@.len(),
                out@ == body + suffix@.take(j as int),
            decreases suffix@.len() - j,
        {
            out.push(suffix[j]);
            proof {
                assert(out@ =~= body + suffix@.take(j + 1));
            }
            j = j + 1;
        }
        proof {
            assert(suffix@.take(suffix@.len() as int) =~= suffix@);
            assert(body + Seq::<char>::empty() =~= body);
        }
        string_from_chars(&out)
    }
}


/// The characters of `s` without `+` and `#`.
pub open spec fn without_signs(s: Seq<char>) -> Seq<char> {
    s.filter(|c: char| c != '+' && c != '#')
}

fn strip_signs(s: &String) -> (r: Vec<char>)
    ensures
        r@ == without_signs(s@),
{
    let c = chars_of(s.as_str());
    let mut r: Vec<char> = Vec::new();
    let mut i: usize = 0;
    while i < c.len()
        invariant
            i <= c@.len(),
            c@ == s@,
            r@ == without_signs(c@.take(i as int)),
        decreases c@.len() - i,
    {
        proof {
            assert(c@.take(i + 1).drop_last() =~= c@.take(i as int));
            c@.take(i as int).lemma_filter_push(c@[i as int], |c: char| c != '+' && c != '#');
            assert(c@.take(i as int).push(c@[i as int]) =~= c@.take(i + 1));
        }
        if c[i] != '+' && c[i] != '#' {
            r.push(c[i]);
        }
        i = i + 1;
    }
    proof {
        assert(c@.take(c@.len() as int) =~= c@);
    }
    r
}

/// Equal mailboxes and sides give equal notation.
proof fn lemma_san_body_same(x: Board, y: Board, m: Move, legal: Seq<Move>)
    requires
        x.piece_on == y.piece_on,
        x.turn == y.turn,
    ensures
        san_body(x, m, legal) == san_body(y, m, legal),
{
    assert forall|o: Move, k: PieceKind| #[trigger] rival(x, m, o, k) == rival(y, m, o, k) by {}
    assert forall|k: PieceKind| #[trigger] disambiguation(x, m, legal, k) == disambiguation(y, m, legal, k) by {
        assert forall|i: int| 0 <= i < legal.len() implies rival(x, m, #[trigger] legal[i], k) == rival(y, m, legal[i], k) by {}
    }
}

/// A check sign goes when the signs are left out.
proof fn lemma_sign_stripped(body: Seq<char>, a: Board)
    ensures
        without_signs(body + sign_after(a)) == without_signs(body),
{
    let p = |c: char| c != '+' && c != '#';
    let t = sign_after(a);
    Seq::filter_distributes_over_add(body, t, p);
    reveal_strlit("+");
    reveal_strlit("#");
    assert(t.filter(p) =~= Seq::<char>::empty()) by {
        if t.len() > 0 {
            assert(t =~= Seq::<char>::empty().push(t[0]));
            Seq::<char>::empty().lemma_filter_push(t[0], p);
            assert(Seq::<char>::empty().filter(p) =~= Seq::<char>::empty()) by {
                reveal(Seq::filter);
            }
        } else {
            assert(t =~= Seq::<char>::empty());
            reveal(Seq::filter);
        }
    }
    assert(without_signs(body) + Seq::<char>::empty() =~= without_signs(body));
}

/// The text names a legal move of `b` in UCI notation.
pub open spec fn uci_named(b: Board, bytes: Seq<u8>) -> bool {
    match crate::uci_io::uci_request(bytes) {
        Some((from, to, promo)) => exists|m: Move| b.legal_move(m) && crate::uci_io::answers(m, from, to, promo),
        None => false,
    }
}

/// The move `legal[i]` is written `text` in algebraic notation, check signs left out.
pub open spec fn san_matches(b: Board, legal: Seq<Move>, i: int, text: Seq<char>) -> bool {
    &&& legal[i].from < 64
    &&& legal[i].to < 64
    &&& without_signs(san_body(b, legal[i], legal)) == text
}

/// A move typed at the terminal: in UCI notation when it reads as one of the
/// board's legal moves, else the first move of `legal` whose algebraic notation,
/// check signs left out, is the text itself.
pub fn read_user_move(b: &mut Board, input: &str, legal: &MoveList) -> (r: Option<Move>)
    requires
        old(b).wf(),
        old(b).consistent(),
        old(b).halfmove_clock < i32::MAX - 1,
        old(b).fullmove_number < i32::MAX - 1,
        forall|i: int| 0 <= i < legal@.len() ==> old(b).legal_move(#[trigger] legal@[i]),
    ensures
        final(b).wf(),
        final(b).consistent(),
        crate::search::restored_but_accumulator(*old(b), *final(b)),
        r matches Some(m) ==> old(b).legal_move(m),
        uci_named(*old(b), input.spec_bytes()) ==> (r matches Some(m) && match crate::uci_io::uci_request(input.spec_bytes()) {
            Some((from, to, promo)) => crate::uci_io::answers(m, from, to, promo),
            None => false,
        }),
        !uci_named(*old(b), input.spec_bytes()) ==> match r {
            Some(m) => exists|i: int|
                0 <= i < legal@.len() && legal@[i] == m && #[trigger] san_matches(*old(b), legal@, i, input@) && forall|j: int|
                    0 <= j < i ==> !#[trigger] san_matches(*old(b), legal@, j, input@),
            None => forall|i: int| 0 <= i < legal@.len() ==> !#[trigger] san_matches(*old(b), legal@, i, input@),
        },
{
    let ghost b0 = *b;
    let parsed = parse_uci_move(b, input);
    proof {
        lemma_consistent_congruent(*b, b0);
        crate::movepicker::lemma_same_setup_of(b0, *b);
    }
    if parsed.is_some() {
        return parsed;
    }
    let text = chars_of(input);
    let list = legal.as_slice();
    let mut i: usize = 0;
    while i < list.len()
        invariant
            i <= list@.len(),
            list@ == legal@,
            text@ == input@,
            b0 == *old(b),
            !uci_named(b0, input.spec_bytes()),
            b.wf(),
            b.consistent(),
            crate::search::restored_but_accumulator(b0, *b),
            crate::movepicker::same_setup(b0, *b),
            b.halfmove_clock < i32::MAX - 1,
            b.fullmove_number < i32::MAX - 1,
            forall|k: int| 0 <= k < legal@.len() ==> b0.legal_move(#[trigger] legal@[k]),
            forall|j: int| 0 <= j < i ==> !#[trigger] san_matches(b0, legal@, j, input@),
        decreases list@.len() - i,
    {
        let m = list[i];
        proof {
            assert(b0.legal_move(legal@[i as int]));
            crate::movegen::lemma_generated_is_pseudo_legal(b0, m);
        }
        if m.from < 64 && m.to < 64 {
            let san = b.to_san(m, list);
            let stripped = strip_signs(&san);
            proof {
                lemma_san_body_same(*b, b0, m, legal@);
                let body = san_body(*b, m, list@);
                if san@ != body {
                    let (c, a, u) = choose|c: Board, a: Board, u: Undo|
                        c.same_position(&*b) && #[trigger] made(c, a, m, u) && san@ == body + sign_after(a);
                    lemma_sign_stripped(body, a);
                }
                assert(stripped@ == without_signs(san_body(b0, legal@[i as int], legal@)));
            }
            if same_chars(&stripped, &text) {
                proof {
                    assert(san_matches(b0, legal@, i as int, input@));
                }
                return Some(m);
            }
        }
        i = i + 1;
    }
    None
}

} // verus!
