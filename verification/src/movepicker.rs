//! Staged move ordering. The main picker hands out the table move, winning and
//! even captures by exchange value, two killer moves and a counter move, quiet moves
//! by history score, and last the losing captures; the quiescence picker hands out
//! the captures by exchange value.
use vstd::prelude::*;
use crate::board::Board;
use crate::movegen::{distinct, lemma_generated_is_pseudo_legal, tactical};
use crate::see::{see, see_value};
use crate::types::{Move, MoveList};

verus! {

/// Offset that puts every capture that does not lose material ahead of the others.
pub const GOOD_CAPTURE_BASE: i32 = 1_000_000;

/// Most losing captures kept for the last stage.
pub const MAX_BAD_CAPTURES: usize = 64;

/// Two positions on which the same moves are pseudo-legal and generated: same
/// pieces, side to move, castling rights and en-passant square.
pub open spec fn same_setup(a: Board, b: Board) -> bool {
    &&& a.piece_on == b.piece_on
    &&& a.piece_bb == b.piece_bb
    &&& a.w_pieces == b.w_pieces
    &&& a.b_pieces == b.b_pieces
    &&& a.all_pieces == b.all_pieces
    &&& a.turn == b.turn
    &&& a.castle == b.castle
    &&& a.en_passant_sq == b.en_passant_sq
}

/// Positions with the same setup have the same pseudo-legal and generated moves.
pub proof fn lemma_same_setup_moves(a: Board, b: Board, m: Move)
    requires
        same_setup(a, b),
    ensures
        a.pseudo_legal(m) == b.pseudo_legal(m),
        a.gen_move(m) == b.gen_move(m),
{
    assert forall|t: int, c: crate::types::Color| #[trigger] a.attacked(t, c) == b.attacked(t, c) by {
        if a.attacked(t, c) {
            let s = choose|s: int| 0 <= s < 64 && #[trigger] a.attacker_on(s, t, c);
            assert(b.attacker_on(s, t, c));
        }
        if b.attacked(t, c) {
            let s = choose|s: int| 0 <= s < 64 && #[trigger] b.attacker_on(s, t, c);
            assert(a.attacker_on(s, t, c));
        }
    }
    assert forall|k: int| #[trigger] a.first_king(k) == b.first_king(k) by {}
    if a.castle_move(m) {
        let k = choose|k: int| #[trigger] a.first_king(k) && !a.attacked(k, a.turn.spec_other());
        assert(b.first_king(k) && !b.attacked(k, b.turn.spec_other()));
    }
    if b.castle_move(m) {
        let k = choose|k: int| #[trigger] b.first_king(k) && !b.attacked(k, b.turn.spec_other());
        assert(a.first_king(k) && !a.attacked(k, a.turn.spec_other()));
    }
}

/// Positions with the same setup have the same legal moves.
pub proof fn lemma_legal_same_setup(a: Board, b: Board, m: Move)
    requires
        same_setup(a, b),
    ensures
        a.legal_move(m) == b.legal_move(m),
{
    lemma_same_setup_moves(a, b, m);
    assert(a.after_squares(m) == b.after_squares(m));
}

/// Two boards whose mailbox, bitboards, side, rights and en-passant square agree
/// have the same setup.
pub proof fn lemma_same_setup_of(a: Board, b: Board)
    requires
        a.piece_on@ == b.piece_on@,
        a.piece_bb@ == b.piece_bb@,
        a.w_pieces == b.w_pieces,
        a.b_pieces == b.b_pieces,
        a.all_pieces == b.all_pieces,
        a.turn == b.turn,
        a.castle == b.castle,
        a.en_passant_sq == b.en_passant_sq,
    ensures
        same_setup(a, b),
{
    vstd::array::axiom_array_ext_equal(a.piece_on, b.piece_on);
    vstd::array::axiom_array_ext_equal(a.piece_bb, b.piece_bb);
    assert forall|i: int| 0 <= i < 64 implies a.piece_on[i] == b.piece_on[i] by {
        assert(a.piece_on@[i] == b.piece_on@[i]);
    }
    assert forall|i: int| 0 <= i < 13 implies a.piece_bb[i] == b.piece_bb[i] by {
        assert(a.piece_bb@[i] == b.piece_bb@[i]);
    }
    assert(a.piece_on =~= b.piece_on);
    assert(a.piece_bb =~= b.piece_bb);
}

/// The hint `h` is given, quiet, and pseudo-legal on `b`.
pub open spec fn due(b: Board, h: Option<Move>) -> bool {
    h matches Some(x) && !tactical(x) && b.pseudo_legal(x)
}

/// The position is one the pickers work on.
pub open spec fn pickable(b: Board) -> bool {
    b.wf() && b.consistent()
}

/// `s` holds `x`.
pub open spec fn in_list(s: Seq<Move>, x: Move) -> bool {
    s.contains(x)
}

/// A swap loses no move.
proof fn lemma_swap_covers(s: Seq<Move>, a: int, b: int)
    requires
        0 <= a < s.len(),
        0 <= b < s.len(),
    ensures
        forall|x: Move| in_list(s, x) ==> in_list(s.update(a, s[b]).update(b, s[a]), x),
{
    let t = s.update(a, s[b]).update(b, s[a]);
    assert forall|x: Move| in_list(s, x) implies in_list(t, x) by {
        let j = choose|j: int| 0 <= j < s.len() && s[j] == x;
        if j == a {
            assert(t[b] == x);
        } else if j == b {
            assert(t[a] == x);
        } else {
            assert(t[j] == x);
        }
    }
}

/// Extending the examined prefix of a capture list by its next move keeps every
/// examined move (but the table move) kept, or the bad list full.
proof fn lemma_capture_prefix_step(
    moves: Seq<Move>,
    idx: int,
    gb_old: Seq<Move>,
    gb_new: Seq<Move>,
    full_old: bool,
    full_new: bool,
    tt: Option<Move>,
)
    requires
        0 <= idx < moves.len(),
        forall|x: Move| in_list(moves.subrange(0, idx), x) && Some(x) != tt ==> in_list(gb_old, x) || full_old,
        forall|x: Move| in_list(gb_old, x) ==> in_list(gb_new, x),
        full_old ==> full_new,
        Some(moves[idx]) != tt ==> in_list(gb_new, moves[idx]) || full_new,
    ensures
        forall|x: Move| in_list(moves.subrange(0, idx + 1), x) && Some(x) != tt ==> in_list(gb_new, x) || full_new,
{
    assert forall|x: Move| in_list(moves.subrange(0, idx + 1), x) && Some(x) != tt implies in_list(gb_new, x) || full_new by {
        let pre = moves.subrange(0, idx + 1);
        let j = choose|j: int| 0 <= j < pre.len() && #[trigger] pre[j] == x;
        if j < idx {
            assert(moves.subrange(0, idx)[j] == x);
        }
    }
}

/// The same for the quiet list: every examined move was handed out or is a hint.
proof fn lemma_quiet_prefix_step(
    moves: Seq<Move>,
    idx: int,
    q_old: Seq<Move>,
    q_new: Seq<Move>,
    hint: spec_fn(Move) -> bool,
)
    requires
        0 <= idx < moves.len(),
        forall|x: Move| in_list(moves.subrange(0, idx), x) ==> in_list(q_old, x) || hint(x),
        forall|x: Move| in_list(q_old, x) ==> in_list(q_new, x),
        in_list(q_new, moves[idx]) || hint(moves[idx]),
    ensures
        forall|x: Move| in_list(moves.subrange(0, idx + 1), x) ==> in_list(q_new, x) || hint(x),
{
    assert forall|x: Move| in_list(moves.subrange(0, idx + 1), x) implies in_list(q_new, x) || hint(x) by {
        let pre = moves.subrange(0, idx + 1);
        let j = choose|j: int| 0 <= j < pre.len() && #[trigger] pre[j] == x;
        if j < idx {
            assert(moves.subrange(0, idx)[j] == x);
        }
    }
}

/// A move among the first `i + 1` of `s` is among the first `i` or is `s[i]`.
proof fn lemma_prefix_split(s: Seq<Move>, i: int)
    requires
        0 <= i < s.len(),
    ensures
        forall|x: Move| #[trigger] in_list(s.subrange(0, i + 1), x) ==> in_list(s.subrange(0, i), x) || x == s[i],
{
    assert forall|x: Move| #[trigger] in_list(s.subrange(0, i + 1), x) implies in_list(s.subrange(0, i), x) || x == s[i] by {
        let t = s.subrange(0, i + 1);
        let j = choose|j: int| 0 <= j < t.len() && #[trigger] t[j] == x;
        if j < i {
            assert(s.subrange(0, i)[j] == x);
        }
    }
}

/// A move that fails a property that every member of `s` has is not in `s`.
proof fn lemma_absent(s: Seq<Move>, m: Move, p: spec_fn(Move) -> bool)
    requires
        forall|i: int| 0 <= i < s.len() ==> #[trigger] p(s[i]),
        !p(m),
    ensures
        !in_list(s, m),
{
    if in_list(s, m) {
        let j = choose|j: int| 0 <= j < s.len() && s[j] == m;
        assert(p(s[j]));
    }
}

/// Swapping two entries keeps a list's members and its distinctness.
pub(crate) proof fn lemma_swap_keeps(s: Seq<Move>, a: int, b: int)
    requires
        0 <= a < s.len(),
        0 <= b < s.len(),
    ensures
        ({
            let t = s.update(a, s[b]).update(b, s[a]);
            &&& t.len() == s.len()
            &&& distinct(s) ==> distinct(t)
            &&& forall|i: int| 0 <= i < t.len() ==> exists|j: int| 0 <= j < s.len() && #[trigger] t[i] == s[j] && (i == a ==> j == b) && (i == b ==> j == a) && (i != a && i != b ==> j == i)
        }),
{
    let t = s.update(a, s[b]).update(b, s[a]);
    assert forall|i: int| 0 <= i < t.len() implies exists|j: int| 0 <= j < s.len() && #[trigger] t[i] == s[j] && (i == a ==> j == b) && (i == b ==> j == a) && (i != a && i != b ==> j == i) by {
        if i == b {
            assert(t[i] == s[a]);
        } else if i == a {
            assert(t[i] == s[b]);
        } else {
            assert(t[i] == s[i]);
        }
    }
    if distinct(s) {
        assert forall|i: int, j: int| 0 <= i < t.len() && 0 <= j < t.len() && i != j implies t[i] != t[j] by {
            let ii = if i == a { b } else if i == b { a } else { i };
            let jj = if j == a { b } else if j == b { a } else { j };
            assert(t[i] == s[ii]);
            assert(t[j] == s[jj]);
        }
    }
}

/// Puts the best-scored entry of `idx..` at `idx` (the first of equal best scores),
/// swapping it with the entry there in both lists.
pub(crate) fn select_best(moves: &mut MoveList, scores: &mut Vec<i32>, idx: usize)
    requires
        idx < old(moves)@.len(),
        old(scores)@.len() == old(moves)@.len(),
    ensures
        exists|k: int|
            idx <= k < old(moves)@.len() && final(moves)@ == old(moves)@.update(idx as int, old(moves)@[k]).update(
                k,
                old(moves)@[idx as int],
            ) && final(scores)@ == old(scores)@.update(idx as int, old(scores)@[k]).update(k, old(scores)@[idx as int]),
        final(scores)@.len() == final(moves)@.len(),
        forall|j: int| idx <= j < final(scores)@.len() ==> final(scores)@[idx as int] >= #[trigger] final(scores)@[j],
{
    let n = moves.len();
    let mut best_k = idx;
    let mut best_s = scores[idx];
    let mut j = idx + 1;
    while j < n
        invariant
            idx < j <= n,
            n == moves@.len(),
            scores@.len() == n,
            idx <= best_k < j,
            best_s == scores@[best_k as int],
            forall|t: int| idx <= t < j ==> scores@[t] <= best_s,
        decreases n - j,
    {
        if scores[j] > best_s {
            best_s = scores[j];
            best_k = j;
        }
        j = j + 1;
    }
    moves.swap(idx, best_k);
    let a = scores[idx];
    let b = scores[best_k];
    scores.set(idx, b);
    scores.set(best_k, a);
}

/// The ordering score of a capture of exchange value `v`: raised by
/// `GOOD_CAPTURE_BASE` when `v` is not negative.
pub open spec fn capture_score(v: int) -> int {
    if v >= 0 {
        GOOD_CAPTURE_BASE + v
    } else {
        v
    }
}

/// Ordering scores of captures: the exchange value, raised by `GOOD_CAPTURE_BASE`
/// when it is not negative.
fn capture_scores(board: &Board, moves: &MoveList) -> (scores: Vec<i32>)
    requires
        pickable(*board),
        forall|k: int| 0 <= k < moves@.len() ==> #[trigger] board.gen_move(moves@[k]),
    ensures
        scores@.len() == moves@.len(),
        forall|k: int| 0 <= k < moves@.len() ==> #[trigger] scores@[k] == capture_score(see_value(*board, moves@[k])),
        forall|k: int| 0 <= k < moves@.len() ==> -20000 <= #[trigger] see_value(*board, moves@[k]) <= 20000,
{
    let n = moves.len();
    let mut scores: Vec<i32> = Vec::new();
    let mut i: usize = 0;
    while i < n
        invariant
            i <= n,
            n == moves@.len(),
            scores@.len() == i,
            forall|k: int| 0 <= k < n ==> #[trigger] board.gen_move(moves@[k]),
            forall|k: int| 0 <= k < i ==> #[trigger] scores@[k] == capture_score(see_value(*board, moves@[k])),
            forall|k: int| 0 <= k < i ==> -20000 <= #[trigger] see_value(*board, moves@[k]) <= 20000,
            pickable(*board),
        decreases n - i,
    {
        let m = moves.moves[i];
        proof {
            lemma_generated_is_pseudo_legal(*board, m);
        }
        let see_val = see(board, m);
        scores.push(if see_val >= 0 {
            GOOD_CAPTURE_BASE + see_val
        } else {
            see_val
        });
        i = i + 1;
    }
    scores
}

/// Ordering scores of quiet moves: the history score of the moving piece and target.
/// The history score of `m` on `b`: the entry for the moving piece and the target.
pub open spec fn history_score(h: [[i32; 64]; 13], b: Board, m: Move) -> i32 {
    h[b.piece_on[m.from as int].spec_index() as int][m.to as int]
}

fn quiet_scores(board: &Board, moves: &MoveList, history: &[[i32; 64]; 13]) -> (scores: Vec<i32>)
    requires
        pickable(*board),
        forall|k: int| 0 <= k < moves@.len() ==> #[trigger] board.gen_move(moves@[k]),
    ensures
        scores@.len() == moves@.len(),
        forall|k: int| 0 <= k < moves@.len() ==> #[trigger] scores@[k] == history_score(*history, *board, moves@[k]),
{
    let n = moves.len();
    let mut scores: Vec<i32> = Vec::new();
    let mut i: usize = 0;
    while i < n
        invariant
            i <= n,
            n == moves@.len(),
            scores@.len() == i,
            forall|k: int| 0 <= k < n ==> #[trigger] board.gen_move(moves@[k]),
            forall|k: int| 0 <= k < i ==> #[trigger] scores@[k] == history_score(*history, *board, moves@[k]),
            pickable(*board),
        decreases n - i,
    {
        let m = moves.moves[i];
        proof {
            lemma_generated_is_pseudo_legal(*board, m);
        }
        let piece_idx = board.piece_on[m.from as usize].index();
        scores.push(history[piece_idx][m.to as usize]);
        i = i + 1;
    }
    scores
}

#[derive(Clone, Copy, PartialEq, Eq, Structural)]
enum Stage {
    TtMove,
    GenCaptures,
    GoodCaptures,
    Killer1,
    Killer2,
    CounterMove,
    GenQuiets,
    Quiets,
    BadCaptures,
    Done,
}

spec fn stage_ord(s: Stage) -> int {
    match s {
        Stage::TtMove => 0,
        Stage::GenCaptures => 1,
        Stage::GoodCaptures => 2,
        Stage::Killer1 => 3,
        Stage::Killer2 => 4,
        Stage::CounterMove => 5,
        Stage::GenQuiets => 6,
        Stage::Quiets => 7,
        Stage::BadCaptures => 8,
        Stage::Done => 9,
    }
}

/// The main search's move picker for one node.
pub struct MovePicker {
    stage: Stage,
    tt_move: Option<Move>,
    killer1: Option<Move>,
    killer2: Option<Move>,
    counter_move: Option<Move>,
    moves: MoveList,
    scores: Vec<i32>,
    idx: usize,
    bad_captures: Vec<Move>,
    bad_idx: usize,
    pos: Ghost<Option<Board>>,
    y_tt: Ghost<Seq<Move>>,
    y_good: Ghost<Seq<Move>>,
    y_hint: Ghost<Seq<Move>>,
    y_quiet: Ghost<Seq<Move>>,
    q_hist: Ghost<[[i32; 64]; 13]>,
}

impl MovePicker {
    /// The moves handed out so far, in order.
    pub closed spec fn yielded(&self) -> Seq<Move> {
        self.y_tt@ + self.y_good@ + self.y_hint@ + self.y_quiet@ + self.bad_captures@.subrange(
            0,
            self.bad_idx as int,
        )
    }

    /// The position the picker works on, fixed by its first call.
    pub closed spec fn position(&self) -> Option<Board> {
        self.pos@
    }

    /// All moves have been handed out.
    pub closed spec fn is_done(&self) -> bool {
        self.stage == Stage::Done
    }

    /// `m` is the table move, a killer or the counter move given to the picker.
    pub closed spec fn is_hint(&self, m: Move) -> bool {
        Some(m) == self.tt_move || Some(m) == self.killer1 || Some(m) == self.killer2 || Some(m) == self.counter_move
    }

    /// How far the picker has come, for termination: the stage, then what is left of
    /// the current list.
    pub closed spec fn progress(&self) -> (int, int) {
        (9 - stage_ord(self.stage), (self.moves@.len() - self.idx) + (self.bad_captures@.len() - self.bad_idx))
    }

    spec fn hint_ok(&self, m: Move) -> bool {
        Some(m) != self.tt_move && !tactical(m)
    }

    /// The bad-capture list is full, so further bad captures were dropped.
    pub closed spec fn overflowed(&self) -> bool {
        self.bad_captures@.len() == MAX_BAD_CAPTURES
    }

    /// What the stages passed so far guarantee about the moves that will be handed
    /// out: the table move if it is pseudo-legal, every generated capture kept (as
    /// good or bad) unless the bad list is full, the killers and the counter move
    /// when they qualify, every generated quiet move as itself or as one of those.
    spec fn covers(&self) -> bool {
        let st = stage_ord(self.stage);
        let b = self.pos@.unwrap();
        let gb = self.y_good@ + self.bad_captures@;
        let full = self.bad_captures@.len() == MAX_BAD_CAPTURES;
        let tt = self.tt_move;
        let k1 = self.killer1;
        let k2 = self.killer2;
        let cm = self.counter_move;
        &&& (st >= 1 && self.pos@ is Some && tt is Some && b.pseudo_legal(tt.unwrap())) ==> in_list(self.y_tt@, tt.unwrap())
        &&& st == 2 ==> (forall|x: Move| #[trigger] b.gen_move(x) && tactical(x) ==> in_list(self.moves@, x))
        &&& st == 2 ==> (forall|x: Move| #[trigger] in_list(self.moves@.subrange(0, self.idx as int), x) && Some(x) != tt ==> in_list(gb, x) || full)
        &&& st >= 3 ==> (forall|x: Move| #[trigger] b.gen_move(x) && tactical(x) && Some(x) != tt ==> in_list(gb, x) || full)
        &&& (st >= 4 && k1 is Some && k1 != tt && !tactical(k1.unwrap()) && b.pseudo_legal(k1.unwrap())) ==> in_list(self.y_hint@, k1.unwrap())
        &&& (st >= 5 && k2 is Some && k2 != tt && k2 != k1 && !tactical(k2.unwrap()) && b.pseudo_legal(k2.unwrap())) ==> in_list(self.y_hint@, k2.unwrap())
        &&& (st >= 6 && cm is Some && cm != tt && cm != k1 && cm != k2 && !tactical(cm.unwrap()) && b.pseudo_legal(cm.unwrap())) ==> in_list(self.y_hint@, cm.unwrap())
        &&& st == 7 ==> (forall|x: Move| #[trigger] b.gen_move(x) && !tactical(x) ==> in_list(self.moves@, x))
        &&& st == 7 ==> (forall|x: Move| #[trigger] in_list(self.moves@.subrange(0, self.idx as int), x) ==> in_list(self.y_quiet@, x) || self.is_hint(x))
        &&& st >= 8 ==> (forall|x: Move| #[trigger] b.gen_move(x) && !tactical(x) ==> in_list(self.y_quiet@, x) || self.is_hint(x))
        &&& st == 9 ==> self.bad_idx == self.bad_captures@.len()
    }

    /// The table move given to the picker.
    pub closed spec fn tt(&self) -> Option<Move> {
        self.tt_move
    }

    /// The first killer given to the picker.
    pub closed spec fn first_killer(&self) -> Option<Move> {
        self.killer1
    }

    /// The second killer given to the picker.
    pub closed spec fn second_killer(&self) -> Option<Move> {
        self.killer2
    }

    /// The counter move given to the picker.
    pub closed spec fn counter(&self) -> Option<Move> {
        self.counter_move
    }

    /// The quiet moves have been generated and scored.
    pub closed spec fn quiets_scored(&self) -> bool {
        stage_ord(self.stage) >= 7
    }

    /// The history table the quiet moves were scored with.
    pub closed spec fn quiet_history(&self) -> [[i32; 64]; 13] {
        self.q_hist@
    }

    /// Each killer or counter move that is due on `b` (given, quiet, pseudo-legal, and
    /// not the table move or an earlier hint) has been handed out.
    pub open spec fn hints_out(&self, b: Board) -> bool {
        &&& due(b, self.first_killer()) && self.first_killer() != self.tt() ==> self.yielded().contains(self.first_killer().unwrap())
        &&& due(b, self.second_killer()) && self.second_killer() != self.tt() && self.second_killer() != self.first_killer()
            ==> self.yielded().contains(self.second_killer().unwrap())
        &&& due(b, self.counter()) && self.counter() != self.tt() && self.counter() != self.first_killer() && self.counter()
            != self.second_killer() ==> self.yielded().contains(self.counter().unwrap())
    }

    /// What the picker's stages keep of the exchange values: the winning and even
    /// captures handed out so far and the losing ones kept for the end lie on their
    /// side of zero, the capture list is scored by `capture_score`, and every
    /// winning or even capture examined (all of them, past the capture stage) other
    /// than the table move has been handed out.
    spec fn ordered(&self) -> bool {
        let st = stage_ord(self.stage);
        let b = self.pos@.unwrap();
        let tt = self.tt_move;
        &&& forall|i: int| 0 <= i < self.y_good@.len() ==> see_value(b, #[trigger] self.y_good@[i]) >= 0
        &&& forall|i: int| 0 <= i < self.bad_captures@.len() ==> see_value(b, #[trigger] self.bad_captures@[i]) < 0
        &&& st == 2 ==> forall|k: int| 0 <= k < self.moves@.len() ==> #[trigger] self.scores@[k] == capture_score(see_value(b, self.moves@[k]))
        &&& st == 2 ==> forall|k: int| 0 <= k < self.moves@.len() ==> -20000 <= #[trigger] see_value(b, self.moves@[k]) <= 20000
        &&& st == 2 ==> forall|x: Move| #[trigger] in_list(self.moves@.subrange(0, self.idx as int), x) && Some(x) != tt && see_value(b, x) >= 0 ==> in_list(self.y_good@, x)
        &&& st >= 3 ==> forall|x: Move| #[trigger] b.gen_move(x) && tactical(x) && Some(x) != tt && see_value(b, x) >= 0 ==> in_list(self.y_good@, x)
        &&& forall|i: int, j: int| 0 <= i < j < self.bad_captures@.len() ==> see_value(b, #[trigger] self.bad_captures@[i]) >= see_value(b, #[trigger] self.bad_captures@[j])
        &&& (st == 2 && self.bad_captures@.len() > 0) ==> forall|k: int| self.idx <= k < self.moves@.len() ==> see_value(b, #[trigger] self.moves@[k]) <= see_value(b, self.bad_captures@.last())
        &&& (st == 2 && self.bad_captures@.len() < MAX_BAD_CAPTURES) ==> forall|x: Move| #[trigger] in_list(self.moves@.subrange(0, self.idx as int), x) && Some(x) != tt && see_value(b, x) < 0 ==> in_list(self.bad_captures@, x)
        &&& st == 2 ==> forall|x: Move| #[trigger] in_list(self.moves@.subrange(0, self.idx as int), x) && Some(x) != tt && see_value(b, x) < 0 && !in_list(self.bad_captures@, x)
            ==> forall|i: int| 0 <= i < self.bad_captures@.len() ==> see_value(b, x) <= see_value(b, #[trigger] self.bad_captures@[i])
        &&& st >= 3 ==> forall|x: Move| #[trigger] b.gen_move(x) && tactical(x) && Some(x) != tt && see_value(b, x) < 0 && !in_list(self.bad_captures@, x)
            ==> forall|i: int| 0 <= i < self.bad_captures@.len() ==> see_value(b, x) <= see_value(b, #[trigger] self.bad_captures@[i])
        &&& st == 7 ==> forall|k: int| 0 <= k < self.moves@.len() ==> #[trigger] self.scores@[k] == history_score(self.q_hist@, b, self.moves@[k])
    }

    /// The picker's bookkeeping is consistent.
    pub closed spec fn wf(&self) -> bool {
        let st = stage_ord(self.stage);
        let b = self.pos@.unwrap();
        let bad = self.bad_captures@;
        &&& (st >= 2 || self.y_tt@.len() > 0) ==> self.pos@ is Some
        &&& st == 0 ==> self.tt_move is Some && self.y_tt@.len() == 0
        &&& st == 1 && self.pos@ is None ==> self.tt_move is None
        &&& self.y_tt@.len() <= 1
        &&& self.y_tt@.len() == 1 ==> Some(self.y_tt@[0]) == self.tt_move
        &&& st <= 2 ==> self.y_hint@.len() == 0 && self.y_quiet@.len() == 0
        &&& st <= 1 ==> self.y_good@.len() == 0 && bad.len() == 0
        &&& st <= 7 ==> self.bad_idx == 0
        &&& st == 8 || st == 9 ==> self.bad_idx <= bad.len()
        &&& st < 7 ==> self.y_quiet@.len() == 0
        &&& bad.len() <= MAX_BAD_CAPTURES
        &&& self.scores@.len() == self.moves@.len()
        &&& self.idx <= self.moves@.len()
        &&& self.bad_idx <= bad.len()
        &&& self.pos@ is Some ==> pickable(b)
        &&& self.pos@ is Some ==> forall|i: int| 0 <= i < self.y_tt@.len() ==> b.pseudo_legal(#[trigger] self.y_tt@[i])
        &&& forall|i: int| 0 <= i < self.y_good@.len() ==> b.gen_move(#[trigger] self.y_good@[i]) && tactical(self.y_good@[i]) && Some(self.y_good@[i]) != self.tt_move
        &&& forall|i: int| 0 <= i < bad.len() ==> b.gen_move(#[trigger] bad[i]) && tactical(bad[i]) && Some(bad[i]) != self.tt_move
        &&& distinct(self.y_good@ + bad)
        &&& st == 2 ==> {
            &&& self.idx <= self.moves@.len()
            &&& distinct(self.moves@)
            &&& forall|i: int| 0 <= i < self.moves@.len() ==> b.gen_move(#[trigger] self.moves@[i]) && tactical(self.moves@[i])
            &&& forall|x: Move| in_list(self.y_good@ + bad, x) ==> in_list(self.moves@.subrange(0, self.idx as int), x)
        }
        &&& forall|i: int| 0 <= i < self.y_hint@.len() ==> b.pseudo_legal(#[trigger] self.y_hint@[i]) && self.hint_ok(self.y_hint@[i])
        &&& forall|i: int| 0 <= i < self.y_hint@.len() ==> (Some(#[trigger] self.y_hint@[i]) == self.killer1 || Some(self.y_hint@[i]) == self.killer2 || Some(self.y_hint@[i]) == self.counter_move)
        &&& distinct(self.y_hint@)
        &&& st <= 3 ==> self.y_hint@.len() == 0
        &&& st == 4 ==> forall|i: int| 0 <= i < self.y_hint@.len() ==> Some(#[trigger] self.y_hint@[i]) == self.killer1
        &&& st == 5 ==> forall|i: int| 0 <= i < self.y_hint@.len() ==> (Some(#[trigger] self.y_hint@[i]) == self.killer1 || Some(self.y_hint@[i]) == self.killer2)
        &&& forall|i: int| 0 <= i < self.y_quiet@.len() ==> b.gen_move(#[trigger] self.y_quiet@[i]) && !tactical(self.y_quiet@[i]) && Some(self.y_quiet@[i]) != self.tt_move && Some(self.y_quiet@[i]) != self.killer1 && Some(self.y_quiet@[i]) != self.killer2 && Some(self.y_quiet@[i]) != self.counter_move
        &&& distinct(self.y_quiet@)
        &&& st == 7 ==> {
            &&& self.idx <= self.moves@.len()
            &&& distinct(self.moves@)
            &&& forall|i: int| 0 <= i < self.moves@.len() ==> b.gen_move(#[trigger] self.moves@[i]) && !tactical(self.moves@[i])
            &&& forall|x: Move| in_list(self.y_quiet@, x) ==> in_list(self.moves@.subrange(0, self.idx as int), x)
        }
        &&& self.covers()
        &&& self.ordered()
    }

    /// A picker that will start with `tt_move` when it is pseudo-legal, and try the
    /// killers and the counter move before the other quiet moves.
    pub fn new(tt_move: Option<Move>, killer1: Option<Move>, killer2: Option<Move>, counter_move: Option<Move>) -> (p: Self)
        ensures
            p.wf(),
            p.yielded() == Seq::<Move>::empty(),
            p.position() is None,
            !p.is_done(),
            forall|m: Move| p.is_hint(m) <==> (Some(m) == tt_move || Some(m) == killer1 || Some(m) == killer2 || Some(m) == counter_move),
            p.tt() == tt_move,
            p.first_killer() == killer1,
            p.second_killer() == killer2,
            p.counter() == counter_move,
    {
        let p = MovePicker {
            stage: if tt_move.is_some() {
                Stage::TtMove
            } else {
                Stage::GenCaptures
            },
            tt_move,
            killer1,
            killer2,
            counter_move,
            moves: MoveList::new(),
            scores: Vec::new(),
            idx: 0,
            bad_captures: Vec::new(),
            bad_idx: 0,
            pos: Ghost(None),
            y_tt: Ghost(Seq::empty()),
            y_good: Ghost(Seq::empty()),
            y_hint: Ghost(Seq::empty()),
            y_quiet: Ghost(Seq::empty()),
            q_hist: Ghost(vstd::pervasive::arbitrary()),
        };
        proof {
            assert(p.yielded() =~= Seq::<Move>::empty());
            assert(p.y_good@ + p.bad_captures@ =~= Seq::<Move>::empty());
        }
        p
    }

    proof fn lemma_fresh(&self, m: Move)
        requires
            self.bad_idx <= self.bad_captures@.len(),
            !in_list(self.y_tt@, m),
            !in_list(self.y_good@, m),
            !in_list(self.y_hint@, m),
            !in_list(self.y_quiet@, m),
            !in_list(self.bad_captures@.subrange(0, self.bad_idx as int), m),
        ensures
            !self.yielded().contains(m),
    {
        let s1 = self.y_tt@;
        let s2 = self.y_good@;
        let s3 = self.y_hint@;
        let s4 = self.y_quiet@;
        let s5 = self.bad_captures@.subrange(0, self.bad_idx as int);
        assert(self.yielded() == s1 + s2 + s3 + s4 + s5);
        if self.yielded().contains(m) {
            let i = choose|i: int| 0 <= i < self.yielded().len() && self.yielded()[i] == m;
            if i < s1.len() {
                assert(s1[i] == m);
            } else if i < s1.len() + s2.len() {
                assert(s2[i - s1.len()] == m);
            } else if i < s1.len() + s2.len() + s3.len() {
                assert(s3[i - s1.len() - s2.len()] == m);
            } else if i < s1.len() + s2.len() + s3.len() + s4.len() {
                assert(s4[i - s1.len() - s2.len() - s3.len()] == m);
            } else {
                assert(s5[i - s1.len() - s2.len() - s3.len() - s4.len()] == m);
            }
        }
    }

    /// Where the kept moves sit among the moves handed out.
    proof fn lemma_yielded_parts(&self)
        requires
            self.bad_idx <= self.bad_captures@.len(),
        ensures
            forall|i: int| 0 <= i < self.y_good@.len() ==> self.yielded().contains(#[trigger] self.y_good@[i]),
            forall|i: int| 0 <= i < self.y_hint@.len() ==> self.yielded().contains(#[trigger] self.y_hint@[i]),
            forall|i: int| 0 <= i < self.y_quiet@.len() ==> self.yielded().contains(#[trigger] self.y_quiet@[i]),
            forall|i: int| 0 <= i < self.bad_idx ==> self.yielded().contains(#[trigger] self.bad_captures@[i]),
    {
        let y = self.yielded();
        let o2 = self.y_tt@.len() as int;
        let o3 = o2 + self.y_good@.len();
        let o4 = o3 + self.y_hint@.len();
        let o5 = o4 + self.y_quiet@.len();
        assert forall|i: int| 0 <= i < self.y_good@.len() implies self.yielded().contains(#[trigger] self.y_good@[i]) by {
            assert(y[o2 + i] == self.y_good@[i]);
        }
        assert forall|i: int| 0 <= i < self.y_hint@.len() implies self.yielded().contains(#[trigger] self.y_hint@[i]) by {
            assert(y[o3 + i] == self.y_hint@[i]);
        }
        assert forall|i: int| 0 <= i < self.y_quiet@.len() implies self.yielded().contains(#[trigger] self.y_quiet@[i]) by {
            assert(y[o4 + i] == self.y_quiet@[i]);
        }
        assert forall|i: int| 0 <= i < self.bad_idx implies self.yielded().contains(#[trigger] self.bad_captures@[i]) by {
            assert(y[o5 + i] == self.bad_captures@[i]);
        }
    }

    /// Past the capture stage, every winning or even capture but the table move has
    /// been handed out.
    proof fn lemma_good_out(&self, board: Board)
        requires
            self.wf(),
            self.pos@ is Some,
            same_setup(self.pos@.unwrap(), board),
            stage_ord(self.stage) >= 3,
        ensures
            forall|x: Move| #[trigger] board.gen_move(x) && tactical(x) && Some(x) != self.tt_move && see_value(board, x) >= 0
                ==> self.yielded().contains(x),
    {
        let b = self.pos@.unwrap();
        self.lemma_yielded_parts();
        assert forall|x: Move| #[trigger] board.gen_move(x) && tactical(x) && Some(x) != self.tt_move && see_value(board, x) >= 0
            implies self.yielded().contains(x) by {
            lemma_same_setup_moves(b, board, x);
            crate::see::lemma_see_value_same(b, board, x);
            assert(b.gen_move(x));
            assert(in_list(self.y_good@, x));
            let i = choose|i: int| 0 <= i < self.y_good@.len() && self.y_good@[i] == x;
            assert(self.yielded().contains(self.y_good@[i]));
        }
    }

    /// From the quiet stage on, every killer or counter move due has been handed out;
    /// from the losing-capture stage on, every quiet move too (or it is a hint).
    proof fn lemma_quiets_out(&self, board: Board)
        requires
            self.wf(),
            self.pos@ is Some,
            same_setup(self.pos@.unwrap(), board),
            stage_ord(self.stage) >= 7,
        ensures
            due(board, self.killer1) && self.killer1 != self.tt_move ==> self.yielded().contains(self.killer1.unwrap()),
            due(board, self.killer2) && self.killer2 != self.tt_move && self.killer2 != self.killer1 ==> self.yielded().contains(self.killer2.unwrap()),
            due(board, self.counter_move) && self.counter_move != self.tt_move && self.counter_move != self.killer1 && self.counter_move != self.killer2
                ==> self.yielded().contains(self.counter_move.unwrap()),
            stage_ord(self.stage) >= 8 ==> forall|x: Move| #[trigger] board.gen_move(x) && !tactical(x) ==> self.yielded().contains(x) || self.is_hint(x),
    {
        let b = self.pos@.unwrap();
        self.lemma_yielded_parts();
        assert forall|h: Move| #[trigger] in_list(self.y_hint@, h) implies self.yielded().contains(h) by {
            let i = choose|i: int| 0 <= i < self.y_hint@.len() && self.y_hint@[i] == h;
            assert(self.yielded().contains(self.y_hint@[i]));
        }
        if let Some(k) = self.killer1 {
            lemma_same_setup_moves(b, board, k);
        }
        if let Some(k) = self.killer2 {
            lemma_same_setup_moves(b, board, k);
        }
        if let Some(k) = self.counter_move {
            lemma_same_setup_moves(b, board, k);
        }
        if stage_ord(self.stage) >= 8 {
            assert forall|x: Move| #[trigger] board.gen_move(x) && !tactical(x) implies self.yielded().contains(x) || self.is_hint(x) by {
                lemma_same_setup_moves(b, board, x);
                assert(b.gen_move(x));
                if in_list(self.y_quiet@, x) {
                    let i = choose|i: int| 0 <= i < self.y_quiet@.len() && self.y_quiet@[i] == x;
                    assert(self.yielded().contains(self.y_quiet@[i]));
                }
            }
        }
    }

    /// Past the first killer's stage it has been handed out when due; past the
    /// second killer's, that one too.
    proof fn lemma_hints_before(&self, board: Board)
        requires
            self.wf(),
            self.pos@ is Some,
            same_setup(self.pos@.unwrap(), board),
        ensures
            stage_ord(self.stage) >= 4 && due(board, self.killer1) && self.killer1 != self.tt_move ==> self.yielded().contains(self.killer1.unwrap()),
            stage_ord(self.stage) >= 5 && due(board, self.killer2) && self.killer2 != self.tt_move && self.killer2 != self.killer1 ==> self.yielded().contains(self.killer2.unwrap()),
    {
        let b = self.pos@.unwrap();
        self.lemma_yielded_parts();
        assert forall|h: Move| #[trigger] in_list(self.y_hint@, h) implies self.yielded().contains(h) by {
            let i = choose|i: int| 0 <= i < self.y_hint@.len() && self.y_hint@[i] == h;
            assert(self.yielded().contains(self.y_hint@[i]));
        }
        if let Some(k) = self.killer1 {
            lemma_same_setup_moves(b, board, k);
        }
        if let Some(k) = self.killer2 {
            lemma_same_setup_moves(b, board, k);
        }
    }

    /// Once done, every generated move has been handed out, unless the bad-capture
    /// list filled up.
    proof fn lemma_overflow_witness(&self, board: Board)
        requires
            self.wf(),
            self.stage == Stage::Done,
            self.pos@ is Some,
            same_setup(self.pos@.unwrap(), board),
        ensures
            self.overflowed() ==> exists|l: Seq<Move>|
                l.len() == MAX_BAD_CAPTURES && distinct(l) && forall|i: int| 0 <= i < l.len() ==> self.yielded().contains(
                    #[trigger] l[i],
                ) && board.gen_move(l[i]) && tactical(l[i]) && see_value(board, l[i]) < 0,
    {
        let b = self.pos@.unwrap();
        let l = self.bad_captures@;
        self.lemma_yielded_parts();
        let gb = self.y_good@ + l;
        let g = self.y_good@.len() as int;
        assert forall|p: int, q: int| 0 <= p < l.len() && 0 <= q < l.len() && p != q implies l[p] != l[q] by {
            assert(gb[g + p] == l[p] && gb[g + q] == l[q]);
        }
        assert forall|i: int| 0 <= i < l.len() implies self.yielded().contains(#[trigger] l[i]) && board.gen_move(l[i]) && tactical(l[i])
            && see_value(board, l[i]) < 0 by {
            lemma_same_setup_moves(b, board, l[i]);
            crate::see::lemma_see_value_same(b, board, l[i]);
        }
        assert(distinct(l));
    }

    proof fn lemma_done_covers(&self, m: Move)
        requires
            self.wf(),
            self.stage == Stage::Done,
            self.pos@ is Some,
            self.pos@.unwrap().gen_move(m),
        ensures
            self.yielded().contains(m) || self.overflowed(),
    {
        let b = self.pos@.unwrap();
        lemma_generated_is_pseudo_legal(b, m);
        let s1 = self.y_tt@;
        let s2 = self.y_good@;
        let s3 = self.y_hint@;
        let s4 = self.y_quiet@;
        let s5 = self.bad_captures@.subrange(0, self.bad_idx as int);
        assert(s5 =~= self.bad_captures@);
        let y = self.yielded();
        assert(y == s1 + s2 + s3 + s4 + s5);
        let o1 = 0int;
        let o2 = s1.len() as int;
        let o3 = o2 + s2.len();
        let o4 = o3 + s3.len();
        let o5 = o4 + s4.len();
        assert forall|j: int| 0 <= j < s1.len() implies y[o1 + j] == s1[j] by {}
        assert forall|j: int| 0 <= j < s2.len() implies y[o2 + j] == s2[j] by {}
        assert forall|j: int| 0 <= j < s3.len() implies y[o3 + j] == s3[j] by {}
        assert forall|j: int| 0 <= j < s4.len() implies y[o4 + j] == s4[j] by {}
        assert forall|j: int| 0 <= j < s5.len() implies y[o5 + j] == s5[j] by {}
        if Some(m) == self.tt_move {
            assert(in_list(s1, m));
            let j = choose|j: int| 0 <= j < s1.len() && s1[j] == m;
            assert(y[o1 + j] == m);
        } else if tactical(m) {
            let gb = s2 + self.bad_captures@;
            if !self.overflowed() {
                assert(in_list(gb, m));
                let j = choose|j: int| 0 <= j < gb.len() && gb[j] == m;
                if j < s2.len() {
                    assert(y[o2 + j] == m);
                } else {
                    assert(s5[j - s2.len()] == m);
                    assert(y[o5 + j - s2.len()] == m);
                }
            }
        } else if in_list(s4, m) {
            let j = choose|j: int| 0 <= j < s4.len() && s4[j] == m;
            assert(y[o4 + j] == m);
        } else {
            assert(self.is_hint(m));
            assert(in_list(s3, m));
            let j = choose|j: int| 0 <= j < s3.len() && s3[j] == m;
            assert(y[o3 + j] == m);
        }
    }

    proof fn lemma_common_fresh_quiet(&self, m: Move)
        requires
            self.wf(),
            self.pos@ is Some,
            3 <= stage_ord(self.stage) <= 6,
            !tactical(m),
            Some(m) != self.tt_move,
            !in_list(self.y_hint@, m),
        ensures
            !self.yielded().contains(m),
    {
        lemma_absent(self.y_tt@, m, |x: Move| Some(x) == self.tt_move);
        lemma_absent(self.y_good@, m, |x: Move| tactical(x));
        assert(self.y_quiet@ =~= Seq::<Move>::empty());
        assert(self.bad_captures@.subrange(0, self.bad_idx as int) =~= Seq::<Move>::empty());
        self.lemma_fresh(m);
    }

    #[verifier::rlimit(100)]
    fn good_capture_step(&mut self, board: &Board, Ghost(b): Ghost<Board>, Ghost(y0): Ghost<Seq<Move>>) -> (r: Option<Move>)
        requires
            old(self).wf(),
            old(self).stage == Stage::GoodCaptures,
            old(self).pos@ == Some(b),
            same_setup(b, *board),
            pickable(*board),
            old(self).yielded() == y0,
        ensures
            final(self).wf(),
            final(self).pos@ == Some(b),
            forall|x: Move| final(self).is_hint(x) == old(self).is_hint(x),
            final(self).tt_move == old(self).tt_move,
            final(self).killer1 == old(self).killer1,
            final(self).killer2 == old(self).killer2,
            final(self).counter_move == old(self).counter_move,
            match r {
                Some(m) => {
                    &&& board.pseudo_legal(m)
                    &&& board.gen_move(m)
                    &&& !y0.contains(m)
                    &&& final(self).yielded() == y0.push(m)
                    &&& final(self).stage == old(self).stage
                    &&& final(self).progress().1 < old(self).progress().1
                    &&& tactical(m) && Some(m) != old(self).tt_move && see_value(b, m) >= 0
                    &&& forall|x: Move| #[trigger] b.gen_move(x) && tactical(x) && Some(x) != old(self).tt_move && see_value(b, x) >= 0
                        && !final(self).yielded().contains(x) ==> see_value(b, x) <= see_value(b, m)
                },
                None => final(self).yielded() == y0 && final(self).stage == Stage::Killer1,
            },
    {
        while self.idx < self.moves.len()
            invariant
                self.wf(),
                self.stage == Stage::GoodCaptures,
                old(self).stage == Stage::GoodCaptures,
                self.progress().1 <= old(self).progress().1,
                self.tt_move == old(self).tt_move,
                self.killer1 == old(self).killer1,
                self.killer2 == old(self).killer2,
                self.counter_move == old(self).counter_move,
                self.pos@ == Some(b),
                same_setup(b, *board),
                pickable(*board),
                self.yielded() == y0,
            decreases self.moves@.len() - self.idx,
        {
            let ghost pre = self.moves@;
            let ghost pre_s = self.scores@;
            let ghost good_bad = self.y_good@ + self.bad_captures@;
            let ghost g_old = self.y_good@;
            let ghost bad_top = self.bad_captures@;
            let idx = self.idx;
            proof {
                assert(forall|x: Move| #[trigger] in_list(pre.subrange(0, idx as int), x) && Some(x) != self.tt_move && see_value(b, x) < 0
                    && !in_list(bad_top, x) ==> forall|i: int| 0 <= i < bad_top.len() ==> see_value(b, x) <= see_value(b, #[trigger] bad_top[i]));
                assert(bad_top.len() < MAX_BAD_CAPTURES ==> forall|x: Move| #[trigger] in_list(pre.subrange(0, idx as int), x) && Some(x) != self.tt_move
                    && see_value(b, x) < 0 ==> in_list(bad_top, x));
                assert(bad_top.len() > 0 ==> forall|k: int| idx <= k < pre.len() ==> see_value(b, #[trigger] pre[k]) <= see_value(b, bad_top.last()));
                assert(forall|i: int, j: int| 0 <= i < j < bad_top.len() ==> see_value(b, #[trigger] bad_top[i]) >= see_value(b, #[trigger] bad_top[j]));
                assert(forall|x: Move| #[trigger] in_list(pre.subrange(0, idx as int), x) && Some(x) != self.tt_move && see_value(b, x) >= 0 ==> in_list(g_old, x));
                assert(forall|k: int| 0 <= k < pre.len() ==> #[trigger] pre_s[k] == capture_score(see_value(b, pre[k])));
                assert(forall|k: int| 0 <= k < pre.len() ==> -20000 <= #[trigger] see_value(b, pre[k]) <= 20000);
            }
            select_best(&mut self.moves, &mut self.scores, idx);
            proof {
                let k = choose|k: int|
                    idx <= k < pre.len() && self.moves@ == pre.update(idx as int, pre[k]).update(k, pre[idx as int])
                        && self.scores@ == pre_s.update(idx as int, pre_s[k]).update(k, pre_s[idx as int]);
                lemma_swap_keeps(pre, idx as int, k);
                lemma_swap_covers(pre, idx as int, k);
                assert forall|i: int| 0 <= i < self.moves@.len() implies #[trigger] self.scores@[i] == capture_score(see_value(b, self.moves@[i]))
                    && -20000 <= see_value(b, self.moves@[i]) <= 20000 by {
                    if i != idx && i != k {
                        assert(self.scores@[i] == pre_s[i] && self.moves@[i] == pre[i]);
                    }
                }
                assert forall|i: int| 0 <= i < self.moves@.len() implies b.gen_move(#[trigger] self.moves@[i]) && tactical(self.moves@[i]) by {
                    let j = choose|j: int| 0 <= j < pre.len() && #[trigger] self.moves@[i] == pre[j] && (i == idx ==> j == k) && (i == k ==> j == idx) && (i != idx && i != k ==> j == i);
                    assert(b.gen_move(pre[j]));
                }
                assert(self.moves@.subrange(0, idx as int) =~= pre.subrange(0, idx as int));
                assert forall|t: int| idx <= t < self.moves@.len() implies exists|j: int| idx <= j < pre.len() && #[trigger] self.moves@[t] == pre[j] by {
                    if t == idx {
                        assert(self.moves@[t] == pre[k]);
                    } else if t == k {
                        assert(self.moves@[t] == pre[idx as int]);
                    } else {
                        assert(self.moves@[t] == pre[t]);
                    }
                }
                if bad_top.len() > 0 {
                    assert forall|t: int| idx <= t < self.moves@.len() implies see_value(b, #[trigger] self.moves@[t]) <= see_value(b, bad_top.last()) by {
                        let j = choose|j: int| idx <= j < pre.len() && #[trigger] self.moves@[t] == pre[j];
                        assert(see_value(b, pre[j]) <= see_value(b, bad_top.last()));
                    }
                }
                assert forall|t: int| idx < t < self.moves@.len() implies #[trigger] capture_score(see_value(b, self.moves@[t])) <= capture_score(see_value(b, self.moves@[idx as int])) by {
                    assert(self.scores@[idx as int] >= self.scores@[t]);
                }
            }
            let m = self.moves.moves[idx];
            let s = self.scores[idx];
            self.idx = idx + 1;
            proof {
                // m sits past the old prefix, so nothing kept so far is m
                assert forall|x: Move| in_list(good_bad, x) implies in_list(self.moves@.subrange(0, self.idx as int), x) by {
                    let j = choose|j: int| 0 <= j < idx && pre.subrange(0, idx as int)[j] == x;
                    assert(self.moves@.subrange(0, self.idx as int)[j] == x);
                }
                if in_list(good_bad, m) {
                    let j = choose|j: int| 0 <= j < idx && self.moves@.subrange(0, idx as int)[j] == m;
                    assert(self.moves@[j] == self.moves@[idx as int]);
                }
                lemma_prefix_split(self.moves@, idx as int);
                assert(s == capture_score(see_value(b, m)));
            }
            let ghost full0 = self.bad_captures@.len() == MAX_BAD_CAPTURES;
            if Some(m) == self.tt_move {
                proof {
                    lemma_capture_prefix_step(self.moves@, idx as int, good_bad, good_bad, full0, full0, self.tt_move);
                    assert forall|x: Move| #[trigger] in_list(self.moves@.subrange(0, self.idx as int), x) && Some(x) != self.tt_move && see_value(b, x) >= 0 implies in_list(self.y_good@, x) by {
                    if x != m {
                        assert(in_list(pre.subrange(0, idx as int), x));
                    }
                }
                    assert forall|x: Move| #[trigger] in_list(self.moves@.subrange(0, self.idx as int), x) && Some(x) != self.tt_move && see_value(b, x) < 0
                        && !in_list(bad_top, x) implies forall|i: int| 0 <= i < bad_top.len() ==> see_value(b, x) <= see_value(b, #[trigger] bad_top[i]) by {
                        assert(in_list(pre.subrange(0, idx as int), x));
                    }
                    if bad_top.len() < MAX_BAD_CAPTURES {
                        assert forall|x: Move| #[trigger] in_list(self.moves@.subrange(0, self.idx as int), x) && Some(x) != self.tt_move && see_value(b, x) < 0
                            implies in_list(bad_top, x) by {
                            assert(in_list(pre.subrange(0, idx as int), x));
                        }
                    }
                }
                continue;
            }
            if s < GOOD_CAPTURE_BASE {
                proof {
                    assert(see_value(b, m) < 0);
                }
                if self.bad_captures.len() < MAX_BAD_CAPTURES {
                    let ghost bad0 = self.bad_captures@;
                    self.bad_captures.push(m);
                    proof {
                        let gb1 = self.y_good@ + self.bad_captures@;
                        assert(gb1 =~= good_bad.push(m));
                        assert(gb1[good_bad.len() as int] == m);
                        assert forall|x: Move| in_list(good_bad, x) implies in_list(gb1, x) by {
                            let j = choose|j: int| 0 <= j < good_bad.len() && good_bad[j] == x;
                            assert(gb1[j] == x);
                        }
                        lemma_capture_prefix_step(self.moves@, idx as int, good_bad, gb1, full0, self.bad_captures@.len() == MAX_BAD_CAPTURES, self.tt_move);
                        assert forall|x: Move| #[trigger] in_list(self.moves@.subrange(0, self.idx as int), x) && Some(x) != self.tt_move && see_value(b, x) >= 0 implies in_list(self.y_good@, x) by {
                            if x != m {
                                assert(in_list(pre.subrange(0, idx as int), x));
                            }
                        }
                        assert forall|i: int| 0 <= i < self.bad_captures@.len() implies see_value(b, #[trigger] self.bad_captures@[i]) < 0 by {
                            if i < bad0.len() {
                                assert(self.bad_captures@[i] == bad0[i]);
                            }
                        }
                        assert(self.y_good@ + self.bad_captures@ =~= good_bad.push(m));
                        assert(self.bad_captures@.subrange(0, 0) =~= bad0.subrange(0, 0));
                        assert forall|x: Move| in_list(self.y_good@ + self.bad_captures@, x) implies in_list(self.moves@.subrange(0, self.idx as int), x) by {
                            if x != m {
                                assert(in_list(good_bad, x));
                            } else {
                                assert(self.moves@.subrange(0, self.idx as int)[idx as int] == m);
                            }
                        }
                        assert forall|i: int| 0 <= i < self.bad_captures@.len() implies b.gen_move(#[trigger] self.bad_captures@[i]) && tactical(self.bad_captures@[i]) && Some(self.bad_captures@[i]) != self.tt_move by {
                            if i < bad0.len() {
                                assert(self.bad_captures@[i] == bad0[i]);
                            }
                        }
                        assert(self.yielded() =~= y0);
                        let nb = self.bad_captures@;
                        assert(nb[nb.len() - 1] == m);
                        assert forall|i: int, j: int| 0 <= i < j < nb.len() implies see_value(b, #[trigger] nb[i]) >= see_value(b, #[trigger] nb[j]) by {
                            if j < bad0.len() {
                                assert(nb[i] == bad0[i] && nb[j] == bad0[j]);
                            } else {
                                assert(nb[i] == bad0[i]);
                                assert(see_value(b, bad0[i]) >= see_value(b, bad0.last()));
                                assert(see_value(b, self.moves@[idx as int]) <= see_value(b, bad_top.last()));
                            }
                        }
                        assert forall|t: int| self.idx <= t < self.moves@.len() implies see_value(b, #[trigger] self.moves@[t]) <= see_value(b, nb.last()) by {
                            assert(capture_score(see_value(b, self.moves@[t])) <= capture_score(see_value(b, self.moves@[idx as int])));
                        }
                        assert forall|x: Move| #[trigger] in_list(self.moves@.subrange(0, self.idx as int), x) && Some(x) != self.tt_move
                            && see_value(b, x) < 0 implies in_list(nb, x) by {
                            if x != m {
                                assert(in_list(pre.subrange(0, idx as int), x));
                                assert(in_list(bad0, x));
                                let j = choose|j: int| 0 <= j < bad0.len() && bad0[j] == x;
                                assert(nb[j] == x);
                            }
                        }
                    }
                } else {
                    proof {
                        lemma_capture_prefix_step(self.moves@, idx as int, good_bad, good_bad, full0, full0, self.tt_move);
                        assert forall|x: Move| #[trigger] in_list(self.moves@.subrange(0, self.idx as int), x) && Some(x) != self.tt_move && see_value(b, x) >= 0 implies in_list(self.y_good@, x) by {
                            if x != m {
                                assert(in_list(pre.subrange(0, idx as int), x));
                            }
                        }
                        assert forall|t: int| self.idx <= t < self.moves@.len() implies see_value(b, #[trigger] self.moves@[t]) <= see_value(b, bad_top.last()) by {
                            assert(capture_score(see_value(b, self.moves@[t])) <= capture_score(see_value(b, self.moves@[idx as int])));
                        }
                        assert forall|x: Move| #[trigger] in_list(self.moves@.subrange(0, self.idx as int), x) && Some(x) != self.tt_move && see_value(b, x) < 0
                            && !in_list(bad_top, x) implies forall|i: int| 0 <= i < bad_top.len() ==> see_value(b, x) <= see_value(b, #[trigger] bad_top[i]) by {
                            if x != m {
                                assert(in_list(pre.subrange(0, idx as int), x));
                            } else {
                                assert forall|i: int| 0 <= i < bad_top.len() implies see_value(b, x) <= see_value(b, #[trigger] bad_top[i]) by {
                                    if i < bad_top.len() - 1 {
                                        assert(see_value(b, bad_top[i]) >= see_value(b, bad_top[bad_top.len() - 1]));
                                    }
                                }
                            }
                        }
                    }
                }
                continue;
            }
            proof {
                assert(b.gen_move(m));
                lemma_generated_is_pseudo_legal(b, m);
                lemma_same_setup_moves(b, *board, m);
                assert(!in_list(self.y_good@, m)) by {
                    if in_list(self.y_good@, m) {
                        let j = choose|j: int| 0 <= j < self.y_good@.len() && self.y_good@[j] == m;
                        assert(good_bad[j] == m);
                    }
                }
                lemma_absent(self.y_tt@, m, |x: Move| Some(x) == self.tt_move);
                assert(self.bad_captures@.subrange(0, self.bad_idx as int) =~= Seq::<Move>::empty());
                self.lemma_fresh(m);
                let g0 = self.y_good@;
                self.y_good@ = self.y_good@.push(m);
                assert(self.yielded() =~= y0.push(m));
                assert forall|i: int| 0 <= i < self.y_good@.len() implies b.gen_move(#[trigger] self.y_good@[i]) && tactical(self.y_good@[i]) && Some(self.y_good@[i]) != self.tt_move by {
                    if i < g0.len() {
                        assert(self.y_good@[i] == g0[i]);
                    }
                }
                let gb = self.y_good@ + self.bad_captures@;
                assert(gb[g0.len() as int] == m);
                assert forall|x: Move| in_list(good_bad, x) implies in_list(gb, x) by {
                    let j = choose|j: int| 0 <= j < good_bad.len() && good_bad[j] == x;
                    if j < g0.len() {
                        assert(gb[j] == x);
                    } else {
                        assert(gb[j + 1] == x);
                    }
                }
                lemma_capture_prefix_step(self.moves@, idx as int, good_bad, gb, full0, full0, self.tt_move);
                assert forall|x: Move| in_list(gb, x) implies in_list(self.moves@.subrange(0, self.idx as int), x) by {
                    let j = choose|j: int| 0 <= j < gb.len() && gb[j] == x;
                    if j < g0.len() {
                        assert(good_bad[j] == x);
                        assert(in_list(good_bad, x));
                    } else if j == g0.len() {
                        assert(self.moves@.subrange(0, self.idx as int)[idx as int] == m);
                    } else {
                        assert(good_bad[j - 1] == x);
                        assert(in_list(good_bad, x));
                    }
                }
                assert forall|p: int, q: int| 0 <= p < gb.len() && 0 <= q < gb.len() && p != q implies gb[p] != gb[q] by {
                    let pp = if p < g0.len() { p } else if p == g0.len() { -1 } else { p - 1 };
                    let qq = if q < g0.len() { q } else if q == g0.len() { -1 } else { q - 1 };
                    if pp >= 0 {
                        assert(gb[p] == good_bad[pp]);
                    }
                    if qq >= 0 {
                        assert(gb[q] == good_bad[qq]);
                    }
                    if pp < 0 && qq >= 0 {
                        assert(in_list(good_bad, gb[q]));
                    }
                    if qq < 0 && pp >= 0 {
                        assert(in_list(good_bad, gb[p]));
                    }
                }
            }
            proof {
                let yg = self.y_good@;
                assert(yg[yg.len() - 1] == m);
                assert forall|i: int| 0 <= i < yg.len() implies see_value(b, #[trigger] yg[i]) >= 0 by {
                    if i < yg.len() - 1 {
                        assert(yg[i] == g_old[i]);
                    }
                }
                assert forall|x: Move| in_list(g_old, x) implies in_list(yg, x) by {
                    let j = choose|j: int| 0 <= j < g_old.len() && g_old[j] == x;
                    assert(yg[j] == x);
                }
                assert forall|x: Move| #[trigger] in_list(self.moves@.subrange(0, self.idx as int), x) && Some(x) != self.tt_move && see_value(b, x) >= 0 implies in_list(yg, x) by {
                    if x != m {
                        assert(in_list(pre.subrange(0, idx as int), x));
                        assert(in_list(g_old, x));
                    }
                }
                let yl = self.yielded();
                let off = self.y_tt@.len() as int;
                assert forall|i: int| 0 <= i < yg.len() implies yl[off + i] == #[trigger] yg[i] by {}
                assert forall|x: Move| #[trigger] b.gen_move(x) && tactical(x) && Some(x) != self.tt_move && see_value(b, x) >= 0
                    && !self.yielded().contains(x) implies see_value(b, x) <= see_value(b, m) by {
                    assert(in_list(self.moves@, x));
                    let j = choose|j: int| 0 <= j < self.moves@.len() && self.moves@[j] == x;
                    if j <= idx {
                        assert(self.moves@.subrange(0, self.idx as int)[j] == x);
                        assert(in_list(self.moves@.subrange(0, self.idx as int), x));
                        assert(in_list(yg, x));
                        let i = choose|i: int| 0 <= i < yg.len() && yg[i] == x;
                        assert(yl[off + i] == x);
                    } else {
                        assert(self.scores@[idx as int] >= self.scores@[j]);
                    }
                }
            }
            return Some(m);
        }
        proof {
            assert(self.moves@.subrange(0, self.idx as int) =~= self.moves@);
            assert forall|x: Move| #[trigger] b.gen_move(x) && tactical(x) && Some(x) != self.tt_move && see_value(b, x) >= 0 implies in_list(self.y_good@, x) by {
                assert(in_list(self.moves@, x));
                assert(in_list(self.moves@.subrange(0, self.idx as int), x));
            }
        }
        self.stage = Stage::Killer1;
        None
    }

    fn quiet_step(&mut self, board: &Board, Ghost(b): Ghost<Board>, Ghost(y0): Ghost<Seq<Move>>) -> (r: Option<Move>)
        requires
            old(self).wf(),
            old(self).stage == Stage::Quiets,
            old(self).pos@ == Some(b),
            same_setup(b, *board),
            pickable(*board),
            old(self).yielded() == y0,
        ensures
            final(self).wf(),
            final(self).pos@ == Some(b),
            forall|x: Move| final(self).is_hint(x) == old(self).is_hint(x),
            final(self).tt_move == old(self).tt_move,
            final(self).killer1 == old(self).killer1,
            final(self).killer2 == old(self).killer2,
            final(self).counter_move == old(self).counter_move,
            match r {
                Some(m) => {
                    &&& board.pseudo_legal(m)
                    &&& board.gen_move(m)
                    &&& !y0.contains(m)
                    &&& final(self).yielded() == y0.push(m)
                    &&& final(self).stage == old(self).stage
                    &&& !tactical(m) && !old(self).is_hint(m)
                    &&& final(self).progress().1 < old(self).progress().1
                    &&& forall|x: Move| #[trigger] b.gen_move(x) && !tactical(x) && !old(self).is_hint(x) && !final(self).yielded().contains(x)
                        ==> history_score(old(self).q_hist@, b, x) <= history_score(old(self).q_hist@, b, m)
                },
                None => final(self).yielded() == y0 && final(self).stage == Stage::BadCaptures,
            },
            final(self).q_hist == old(self).q_hist,
    {
        while self.idx < self.moves.len()
            invariant
                self.wf(),
                self.stage == Stage::Quiets,
                old(self).stage == Stage::Quiets,
                self.progress().1 <= old(self).progress().1,
                self.tt_move == old(self).tt_move,
                self.killer1 == old(self).killer1,
                self.killer2 == old(self).killer2,
                self.counter_move == old(self).counter_move,
                self.pos@ == Some(b),
                same_setup(b, *board),
                pickable(*board),
                self.yielded() == y0,
                self.q_hist == old(self).q_hist,
            decreases self.moves@.len() - self.idx,
        {
            let ghost pre = self.moves@;
            let ghost pre_s = self.scores@;
            let idx = self.idx;
            proof {
                assert(forall|k: int| 0 <= k < pre.len() ==> #[trigger] pre_s[k] == history_score(self.q_hist@, b, pre[k]));
                assert(forall|x: Move| #[trigger] in_list(pre.subrange(0, idx as int), x) ==> in_list(self.y_quiet@, x) || self.is_hint(x));
                assert(forall|x: Move| #[trigger] b.gen_move(x) && !tactical(x) ==> in_list(pre, x));
            }
            select_best(&mut self.moves, &mut self.scores, idx);
            proof {
                let k = choose|k: int|
                    idx <= k < pre.len() && self.moves@ == pre.update(idx as int, pre[k]).update(k, pre[idx as int])
                        && self.scores@ == pre_s.update(idx as int, pre_s[k]).update(k, pre_s[idx as int]);
                lemma_swap_keeps(pre, idx as int, k);
                lemma_swap_covers(pre, idx as int, k);
                assert forall|i: int| 0 <= i < self.moves@.len() implies #[trigger] self.scores@[i] == history_score(self.q_hist@, b, self.moves@[i]) by {
                    if i != idx && i != k {
                        assert(self.scores@[i] == pre_s[i] && self.moves@[i] == pre[i]);
                    }
                }
                assert forall|i: int| 0 <= i < self.moves@.len() implies b.gen_move(#[trigger] self.moves@[i]) && !tactical(self.moves@[i]) by {
                    let j = choose|j: int| 0 <= j < pre.len() && #[trigger] self.moves@[i] == pre[j] && (i == idx ==> j == k) && (i == k ==> j == idx) && (i != idx && i != k ==> j == i);
                    assert(b.gen_move(pre[j]));
                }
                assert(self.moves@.subrange(0, idx as int) =~= pre.subrange(0, idx as int));
            }
            let m = self.moves.moves[idx];
            self.idx = idx + 1;
            let ghost q0 = self.y_quiet@;
            proof {
                assert forall|x: Move| in_list(q0, x) implies in_list(self.moves@.subrange(0, self.idx as int), x) by {
                    let j = choose|j: int| 0 <= j < idx && pre.subrange(0, idx as int)[j] == x;
                    assert(self.moves@.subrange(0, self.idx as int)[j] == x);
                }
                if in_list(q0, m) {
                    let j = choose|j: int| 0 <= j < idx && self.moves@.subrange(0, idx as int)[j] == m;
                    assert(self.moves@[j] == self.moves@[idx as int]);
                }
            }
            if Some(m) == self.tt_move || Some(m) == self.killer1 || Some(m) == self.killer2 || Some(m) == self.counter_move {
                proof {
                    lemma_quiet_prefix_step(self.moves@, idx as int, q0, q0, |x: Move| self.is_hint(x));
                }
                continue;
            }
            proof {
                assert(b.gen_move(m));
                lemma_generated_is_pseudo_legal(b, m);
                lemma_same_setup_moves(b, *board, m);
                lemma_absent(self.y_tt@, m, |x: Move| Some(x) == self.tt_move);
                lemma_absent(self.y_good@, m, |x: Move| tactical(x));
                lemma_absent(self.y_hint@, m, |x: Move| Some(x) == self.killer1 || Some(x) == self.killer2 || Some(x) == self.counter_move);
                assert(!in_list(q0, m));
                assert(self.bad_captures@.subrange(0, self.bad_idx as int) =~= Seq::<Move>::empty());
                self.lemma_fresh(m);
                self.y_quiet@ = q0.push(m);
                assert(self.yielded() =~= y0.push(m));
                assert forall|i: int| 0 <= i < self.y_quiet@.len() implies b.gen_move(#[trigger] self.y_quiet@[i]) && !tactical(self.y_quiet@[i]) && Some(self.y_quiet@[i]) != self.tt_move && Some(self.y_quiet@[i]) != self.killer1 && Some(self.y_quiet@[i]) != self.killer2 && Some(self.y_quiet@[i]) != self.counter_move by {
                    if i < q0.len() {
                        assert(self.y_quiet@[i] == q0[i]);
                    }
                }
                assert forall|x: Move| in_list(self.y_quiet@, x) implies in_list(self.moves@.subrange(0, self.idx as int), x) by {
                    let j = choose|j: int| 0 <= j < self.y_quiet@.len() && self.y_quiet@[j] == x;
                    if j < q0.len() {
                        assert(in_list(q0, x));
                    } else {
                        assert(self.moves@.subrange(0, self.idx as int)[idx as int] == m);
                    }
                }
                let q1 = self.y_quiet@;
                assert(q1[q0.len() as int] == m);
                assert forall|x: Move| in_list(q0, x) implies in_list(q1, x) by {
                    let j = choose|j: int| 0 <= j < q0.len() && q0[j] == x;
                    assert(q1[j] == x);
                }
                lemma_quiet_prefix_step(self.moves@, idx as int, q0, q1, |x: Move| self.is_hint(x));
                self.lemma_yielded_parts();
                assert forall|x: Move| #[trigger] b.gen_move(x) && !tactical(x) && !self.is_hint(x) && !self.yielded().contains(x)
                    implies history_score(self.q_hist@, b, x) <= history_score(self.q_hist@, b, m) by {
                    assert(in_list(self.moves@, x));
                    let j = choose|j: int| 0 <= j < self.moves@.len() && self.moves@[j] == x;
                    if j <= idx {
                        assert(self.moves@.subrange(0, self.idx as int)[j] == x);
                        assert(in_list(self.moves@.subrange(0, self.idx as int), x));
                        assert(in_list(self.y_quiet@, x));
                        let i = choose|i: int| 0 <= i < self.y_quiet@.len() && self.y_quiet@[i] == x;
                        assert(self.yielded().contains(self.y_quiet@[i]));
                    } else {
                        assert(self.scores@[idx as int] >= self.scores@[j]);
                    }
                }
            }
            return Some(m);
        }
        proof {
            assert(self.moves@.subrange(0, self.idx as int) =~= self.moves@);
        }
        self.stage = Stage::BadCaptures;
        self.bad_idx = 0;
        None
    }

    /// The next move to try, or `None` once all are handed out (and from then on).
    /// Every move handed out is pseudo-legal on the board and none is handed out
    /// twice. The order: the table move first when it is pseudo-legal; then the
    /// winning and even captures, best exchange value first; then the killers and
    /// the counter move that qualify; then the other quiet moves (by the history
    /// scores given when they were generated); then the losing captures, best
    /// exchange value first. By the time `None` comes, every generated move has been
    /// handed out, unless more losing captures turned up than the last stage keeps
    /// (and then that many of them have been handed out). `board` must be the
    /// position of the first call (the same pieces, side to move, castling rights and
    /// en-passant square).
    #[verifier::rlimit(100)]
    pub fn next(&mut self, board: &Board, history: &[[i32; 64]; 13]) -> (r: Option<Move>)
        requires
            old(self).wf(),
            pickable(*board),
            old(self).position() matches Some(p) ==> same_setup(p, *board),
        ensures
            final(self).wf(),
            final(self).position() == Some(old(self).position().unwrap_or(*board)),
            match r {
                Some(m) => {
                    &&& board.pseudo_legal(m)
                    &&& (board.gen_move(m) || old(self).is_hint(m))
                    &&& !old(self).yielded().contains(m)
                    &&& final(self).yielded() == old(self).yielded().push(m)
                    &&& (final(self).progress().0 < old(self).progress().0 || (final(self).progress().0 == old(self).progress().0 && 0 <= final(self).progress().1 < old(self).progress().1))
                    &&& (tactical(m) && Some(m) != old(self).tt() && see_value(*board, m) >= 0) ==> forall|x: Move|
                        #[trigger] board.gen_move(x) && tactical(x) && Some(x) != old(self).tt() && see_value(*board, x) >= 0
                            && !final(self).yielded().contains(x) ==> see_value(*board, x) <= see_value(*board, m)
                    &&& (!(tactical(m) && see_value(*board, m) >= 0) && Some(m) != old(self).tt()) ==> forall|x: Move|
                        #[trigger] board.gen_move(x) && tactical(x) && Some(x) != old(self).tt() && see_value(*board, x) >= 0
                            ==> old(self).yielded().contains(x)
                    &&& (!tactical(m) && !old(self).is_hint(m)) ==> old(self).hints_out(*board)
                    &&& (!tactical(m) && Some(m) == old(self).second_killer() && Some(m) != old(self).first_killer() && Some(m) != old(self).tt())
                        ==> (due(*board, old(self).first_killer()) && old(self).first_killer() != old(self).tt() ==> old(self).yielded().contains(
                        old(self).first_killer().unwrap(),
                    ))
                    &&& (!tactical(m) && Some(m) == old(self).counter() && Some(m) != old(self).first_killer() && Some(m) != old(self).second_killer()
                        && Some(m) != old(self).tt()) ==> (due(*board, old(self).first_killer()) && old(self).first_killer() != old(self).tt()
                        ==> old(self).yielded().contains(old(self).first_killer().unwrap())) && (due(*board, old(self).second_killer())
                        && old(self).second_killer() != old(self).tt() && old(self).second_killer() != old(self).first_killer()
                        ==> old(self).yielded().contains(old(self).second_killer().unwrap()))
                    &&& (!tactical(m) && !old(self).is_hint(m)) ==> forall|x: Move|
                        #[trigger] board.gen_move(x) && !tactical(x) && !old(self).is_hint(x) && !final(self).yielded().contains(x)
                            ==> history_score(final(self).quiet_history(), *board, x) <= history_score(final(self).quiet_history(), *board, m)
                    &&& (tactical(m) && see_value(*board, m) < 0 && Some(m) != old(self).tt()) ==> forall|x: Move|
                        #[trigger] board.gen_move(x) && !tactical(x) ==> old(self).yielded().contains(x) || old(self).is_hint(x)
                    &&& (tactical(m) && see_value(*board, m) < 0 && Some(m) != old(self).tt()) ==> forall|x: Move|
                        #[trigger] board.gen_move(x) && tactical(x) && Some(x) != old(self).tt() && see_value(*board, x) < 0
                            && !final(self).yielded().contains(x) ==> see_value(*board, x) <= see_value(*board, m)
                },
                None => {
                    &&& final(self).yielded() == old(self).yielded()
                    &&& final(self).is_done()
                    &&& forall|x: Move| #[trigger] board.gen_move(x) ==> final(self).yielded().contains(x) || final(self).overflowed()
                    &&& final(self).overflowed() ==> exists|l: Seq<Move>|
                        l.len() == MAX_BAD_CAPTURES && distinct(l) && forall|i: int| 0 <= i < l.len() ==> final(self).yielded().contains(
                            #[trigger] l[i],
                        ) && board.gen_move(l[i]) && tactical(l[i]) && see_value(*board, l[i]) < 0
                },
            },
            old(self).is_done() ==> r is None,
            old(self).quiets_scored() ==> final(self).quiet_history() == old(self).quiet_history(),
            !old(self).quiets_scored() && final(self).quiets_scored() ==> final(self).quiet_history() == *history,
            (old(self).yielded().len() == 0 && old(self).tt() is Some && board.pseudo_legal(old(self).tt().unwrap())) ==> r
                == old(self).tt(),
            forall|x: Move| final(self).is_hint(x) == old(self).is_hint(x),
            0 <= final(self).progress().0,
    {
        proof {
            if self.pos@ is None {
                self.pos = Ghost(Some(*board));
            }
        }
        let ghost b = self.pos@.unwrap();
        let ghost y0 = self.yielded();
        assert(same_setup(b, *board));
        proof {
            if y0.len() == 0 && self.tt_move is Some && board.pseudo_legal(self.tt_move.unwrap()) {
                lemma_same_setup_moves(b, *board, self.tt_move.unwrap());
                if stage_ord(self.stage) >= 1 && old(self).pos@ is Some {
                    assert(in_list(self.y_tt@, self.tt_move.unwrap()));
                    assert(self.yielded().len() >= self.y_tt@.len());
                }
            }
        }
        loop
            invariant
                self.wf(),
                self.pos@ == Some(b),
                same_setup(b, *board),
                pickable(*board),
                self.yielded() == y0,
                y0 == old(self).yielded(),
                b == old(self).position().unwrap_or(*board),
                forall|x: Move| self.is_hint(x) == old(self).is_hint(x),
                self.progress().0 < old(self).progress().0 || self.progress() == old(self).progress(),
                self.tt_move == old(self).tt_move,
                self.killer1 == old(self).killer1,
                self.killer2 == old(self).killer2,
                self.counter_move == old(self).counter_move,
                old(self).is_done() ==> self.stage == Stage::Done,
                stage_ord(old(self).stage) >= 7 ==> self.q_hist == old(self).q_hist,
                stage_ord(old(self).stage) < 7 && stage_ord(self.stage) >= 7 ==> self.q_hist@ == *history,
                stage_ord(self.stage) >= stage_ord(old(self).stage),
                (y0.len() == 0 && self.tt_move is Some && board.pseudo_legal(self.tt_move.unwrap())) ==> self.stage == Stage::TtMove,
            decreases 9 - stage_ord(self.stage),
        {
            match self.stage {
                Stage::TtMove => {
                    self.stage = Stage::GenCaptures;
                    if let Some(m) = self.tt_move {
                        proof {
                            lemma_same_setup_moves(b, *board, m);
                        }
                        if board.is_pseudo_legal(m) {
                            proof {
                                self.y_tt@ = self.y_tt@.push(m);
                                assert(self.y_tt@[0] == m);
                                assert(self.yielded() =~= y0.push(m));
                            }
                            return Some(m);
                        }
                    }
                },
                Stage::GenCaptures => {
                    board.generate_captures(&mut self.moves);
                    let scores = capture_scores(board, &self.moves);
                    self.scores = scores;
                    self.idx = 0;
                    self.stage = Stage::GoodCaptures;
                    proof {
                        assert forall|k: int| 0 <= k < self.moves@.len() implies b.gen_move(#[trigger] self.moves@[k]) && tactical(self.moves@[k]) by {
                            assert(board.gen_move(self.moves@[k]));
                            lemma_same_setup_moves(b, *board, self.moves@[k]);
                        }
                        assert forall|x: Move| #[trigger] b.gen_move(x) && tactical(x) implies in_list(self.moves@, x) by {
                            lemma_same_setup_moves(b, *board, x);
                        }
                        assert(self.moves@.subrange(0, 0) =~= Seq::<Move>::empty());
                        assert(self.y_good@ + self.bad_captures@ =~= Seq::<Move>::empty());
                        assert forall|k: int| 0 <= k < self.moves@.len() implies #[trigger] self.scores@[k] == capture_score(see_value(b, self.moves@[k]))
                            && -20000 <= see_value(b, self.moves@[k]) <= 20000 by {
                            crate::see::lemma_see_value_same(b, *board, self.moves@[k]);
                        }
                        assert(self.y_good@.len() == 0);
                        assert(self.bad_captures@.len() == 0);
                        assert(forall|x: Move| !#[trigger] in_list(self.moves@.subrange(0, self.idx as int), x));
                        assert forall|k: int| 0 <= k < self.moves@.len() implies -20000 <= #[trigger] see_value(b, self.moves@[k]) <= 20000 by {
                            crate::see::lemma_see_value_same(b, *board, self.moves@[k]);
                        }
                    }
                },
                Stage::GoodCaptures => {
                    let r = self.good_capture_step(board, Ghost(b), Ghost(y0));
                    if r.is_some() {
                        proof {
                            let m = r.unwrap();
                            crate::see::lemma_see_value_same(b, *board, m);
                            assert forall|x: Move| #[trigger] board.gen_move(x) && tactical(x) && Some(x) != self.tt_move && see_value(*board, x) >= 0
                                && !self.yielded().contains(x) implies see_value(*board, x) <= see_value(*board, m) by {
                                lemma_same_setup_moves(b, *board, x);
                                crate::see::lemma_see_value_same(b, *board, x);
                                assert(b.gen_move(x));
                            }
                        }
                        return r;
                    }
                },
                Stage::Killer1 => {
                    let ghost s0 = *self;
                    self.stage = Stage::Killer2;
                    if let Some(m) = self.killer1 {
                        proof {
                            lemma_same_setup_moves(b, *board, m);
                        }
                        if Some(m) != self.tt_move && !m.capture && m.promotion.is_none() && board.is_pseudo_legal(m) {
                            proof {
                                lemma_same_setup_moves(b, *board, m);
                                let h0 = self.y_hint@;
                                lemma_absent(h0, m, |x: Move| x != m);
                                s0.lemma_common_fresh_quiet(m);
                                s0.lemma_good_out(*board);
                                s0.lemma_hints_before(*board);
                                self.y_hint@ = h0.push(m);
                                assert(self.yielded() =~= y0.push(m));
                                assert(self.y_hint@[h0.len() as int] == m);
                                assert forall|x: Move| in_list(h0, x) implies in_list(self.y_hint@, x) by {
                                    let j = choose|j: int| 0 <= j < h0.len() && h0[j] == x;
                                    assert(self.y_hint@[j] == x);
                                }
                                assert forall|i: int| 0 <= i < self.y_hint@.len() implies b.pseudo_legal(#[trigger] self.y_hint@[i]) && self.hint_ok(self.y_hint@[i]) && (Some(self.y_hint@[i]) == self.killer1 || Some(self.y_hint@[i]) == self.killer2 || Some(self.y_hint@[i]) == self.counter_move) by {
                                    if i < h0.len() {
                                        assert(self.y_hint@[i] == h0[i]);
                                    }
                                }
                                assert(distinct(self.y_hint@)) by {
                                    assert forall|p: int, q: int| 0 <= p < self.y_hint@.len() && 0 <= q < self.y_hint@.len() && p != q implies self.y_hint@[p] != self.y_hint@[q] by {
                                        if p < h0.len() && q < h0.len() {
                                            assert(self.y_hint@[p] == h0[p] && self.y_hint@[q] == h0[q]);
                                        } else if p < h0.len() {
                                            assert(self.y_hint@[p] == h0[p]);
                                            assert(in_list(h0, h0[p]));
                                        } else if q < h0.len() {
                                            assert(self.y_hint@[q] == h0[q]);
                                            assert(in_list(h0, h0[q]));
                                        }
                                    }
                                }
                            }
                            return Some(m);
                        }
                    }
                },
                Stage::Killer2 => {
                    let ghost s0 = *self;
                    self.stage = Stage::CounterMove;
                    if let Some(m) = self.killer2 {
                        proof {
                            lemma_same_setup_moves(b, *board, m);
                        }
                        if Some(m) != self.tt_move && Some(m) != self.killer1 && !m.capture && m.promotion.is_none() && board.is_pseudo_legal(m) {
                            proof {
                                lemma_same_setup_moves(b, *board, m);
                                let h0 = self.y_hint@;
                                lemma_absent(h0, m, |x: Move| Some(x) == self.killer1);
                                s0.lemma_common_fresh_quiet(m);
                                s0.lemma_good_out(*board);
                                s0.lemma_hints_before(*board);
                                self.y_hint@ = h0.push(m);
                                assert(self.yielded() =~= y0.push(m));
                                assert(self.y_hint@[h0.len() as int] == m);
                                assert forall|x: Move| in_list(h0, x) implies in_list(self.y_hint@, x) by {
                                    let j = choose|j: int| 0 <= j < h0.len() && h0[j] == x;
                                    assert(self.y_hint@[j] == x);
                                }
                                assert forall|i: int| 0 <= i < self.y_hint@.len() implies b.pseudo_legal(#[trigger] self.y_hint@[i]) && self.hint_ok(self.y_hint@[i]) && (Some(self.y_hint@[i]) == self.killer1 || Some(self.y_hint@[i]) == self.killer2 || Some(self.y_hint@[i]) == self.counter_move) by {
                                    if i < h0.len() {
                                        assert(self.y_hint@[i] == h0[i]);
                                    }
                                }
                                assert(distinct(self.y_hint@)) by {
                                    assert forall|p: int, q: int| 0 <= p < self.y_hint@.len() && 0 <= q < self.y_hint@.len() && p != q implies self.y_hint@[p] != self.y_hint@[q] by {
                                        if p < h0.len() && q < h0.len() {
                                            assert(self.y_hint@[p] == h0[p] && self.y_hint@[q] == h0[q]);
                                        } else if p < h0.len() {
                                            assert(self.y_hint@[p] == h0[p]);
                                            assert(in_list(h0, h0[p]));
                                        } else if q < h0.len() {
                                            assert(self.y_hint@[q] == h0[q]);
                                            assert(in_list(h0, h0[q]));
                                        }
                                    }
                                }
                            }
                            return Some(m);
                        }
                    }
                },
                Stage::CounterMove => {
                    let ghost s0 = *self;
                    self.stage = Stage::GenQuiets;
                    if let Some(m) = self.counter_move {
                        proof {
                            lemma_same_setup_moves(b, *board, m);
                        }
                        if Some(m) != self.tt_move && Some(m) != self.killer1 && Some(m) != self.killer2 && !m.capture && m.promotion.is_none() && board.is_pseudo_legal(m) {
                            proof {
                                lemma_same_setup_moves(b, *board, m);
                                let h0 = self.y_hint@;
                                lemma_absent(h0, m, |x: Move| Some(x) == self.killer1 || Some(x) == self.killer2);
                                s0.lemma_common_fresh_quiet(m);
                                s0.lemma_good_out(*board);
                                s0.lemma_hints_before(*board);
                                self.y_hint@ = h0.push(m);
                                assert(self.yielded() =~= y0.push(m));
                                assert(self.y_hint@[h0.len() as int] == m);
                                assert forall|x: Move| in_list(h0, x) implies in_list(self.y_hint@, x) by {
                                    let j = choose|j: int| 0 <= j < h0.len() && h0[j] == x;
                                    assert(self.y_hint@[j] == x);
                                }
                                assert forall|i: int| 0 <= i < self.y_hint@.len() implies b.pseudo_legal(#[trigger] self.y_hint@[i]) && self.hint_ok(self.y_hint@[i]) && (Some(self.y_hint@[i]) == self.killer1 || Some(self.y_hint@[i]) == self.killer2 || Some(self.y_hint@[i]) == self.counter_move) by {
                                    if i < h0.len() {
                                        assert(self.y_hint@[i] == h0[i]);
                                    }
                                }
                                assert(distinct(self.y_hint@)) by {
                                    assert forall|p: int, q: int| 0 <= p < self.y_hint@.len() && 0 <= q < self.y_hint@.len() && p != q implies self.y_hint@[p] != self.y_hint@[q] by {
                                        if p < h0.len() && q < h0.len() {
                                            assert(self.y_hint@[p] == h0[p] && self.y_hint@[q] == h0[q]);
                                        } else if p < h0.len() {
                                            assert(self.y_hint@[p] == h0[p]);
                                            assert(in_list(h0, h0[p]));
                                        } else if q < h0.len() {
                                            assert(self.y_hint@[q] == h0[q]);
                                            assert(in_list(h0, h0[q]));
                                        }
                                    }
                                }
                            }
                            return Some(m);
                        }
                    }
                },
                Stage::GenQuiets => {
                    board.generate_quiets(&mut self.moves);
                    let scores = quiet_scores(board, &self.moves, history);
                    self.scores = scores;
                    self.idx = 0;
                    self.stage = Stage::Quiets;
                    proof {
                        self.q_hist = Ghost(*history);
                        assert(b.piece_on == board.piece_on);
                        assert forall|k: int| 0 <= k < self.moves@.len() implies b.gen_move(#[trigger] self.moves@[k]) && !tactical(self.moves@[k]) by {
                            assert(board.gen_move(self.moves@[k]));
                            lemma_same_setup_moves(b, *board, self.moves@[k]);
                        }
                        assert forall|x: Move| #[trigger] b.gen_move(x) && !tactical(x) implies in_list(self.moves@, x) by {
                            lemma_same_setup_moves(b, *board, x);
                        }
                        assert(self.moves@.subrange(0, 0) =~= Seq::<Move>::empty());
                    }
                },
                Stage::Quiets => {
                    proof {
                        self.lemma_good_out(*board);
                        self.lemma_quiets_out(*board);
                    }
                    let ghost qh = self.q_hist@;
                    let r = self.quiet_step(board, Ghost(b), Ghost(y0));
                    proof {
                        if let Some(m) = r {
                            assert(b.piece_on == board.piece_on);
                            assert forall|x: Move| #[trigger] board.gen_move(x) && !tactical(x) && !self.is_hint(x) && !self.yielded().contains(x)
                                implies history_score(qh, *board, x) <= history_score(qh, *board, m) by {
                                lemma_same_setup_moves(b, *board, x);
                                assert(b.gen_move(x));
                                assert(history_score(qh, b, x) <= history_score(qh, b, m));
                            }
                        }
                    }
                    if r.is_some() {
                        return r;
                    }
                },
                Stage::BadCaptures => {
                    proof {
                        self.lemma_good_out(*board);
                        self.lemma_quiets_out(*board);
                    }
                    if self.bad_idx < self.bad_captures.len() {
                        let m = self.bad_captures[self.bad_idx];
                        let ghost bad = self.bad_captures@;
                        let ghost bi = self.bad_idx as int;
                        proof {
                            assert(b.gen_move(bad[bi]));
                            lemma_generated_is_pseudo_legal(b, m);
                            lemma_same_setup_moves(b, *board, m);
                            lemma_absent(self.y_tt@, m, |x: Move| Some(x) == self.tt_move);
                            lemma_absent(self.y_hint@, m, |x: Move| !tactical(x));
                            lemma_absent(self.y_quiet@, m, |x: Move| !tactical(x));
                            let gb = self.y_good@ + bad;
                            let gl = self.y_good@.len() as int;
                            assert(gb[gl + bi] == m);
                            assert(!in_list(self.y_good@, m)) by {
                                if in_list(self.y_good@, m) {
                                    let j = choose|j: int| 0 <= j < self.y_good@.len() && self.y_good@[j] == m;
                                    assert(gb[j] == m);
                                }
                            }
                            assert(!in_list(bad.subrange(0, bi), m)) by {
                                if in_list(bad.subrange(0, bi), m) {
                                    let j = choose|j: int| 0 <= j < bi && bad.subrange(0, bi)[j] == m;
                                    assert(gb[gl + j] == m);
                                }
                            }
                            self.lemma_fresh(m);
                        }
                        proof {
                            assert(see_value(b, bad[bi]) < 0);
                            crate::see::lemma_see_value_same(b, *board, m);
                        }
                        self.bad_idx = self.bad_idx + 1;
                        proof {
                            assert(bad.subrange(0, bi + 1) =~= bad.subrange(0, bi).push(m));
                            assert(self.yielded() =~= y0.push(m));
                            self.lemma_yielded_parts();
                            assert forall|x: Move| #[trigger] board.gen_move(x) && tactical(x) && Some(x) != self.tt_move && see_value(*board, x) < 0
                                && !self.yielded().contains(x) implies see_value(*board, x) <= see_value(*board, m) by {
                                lemma_same_setup_moves(b, *board, x);
                                crate::see::lemma_see_value_same(b, *board, x);
                                assert(b.gen_move(x));
                                if in_list(bad, x) {
                                    let j = choose|j: int| 0 <= j < bad.len() && bad[j] == x;
                                    if j <= bi {
                                        assert(self.yielded().contains(bad[j]));
                                    } else {
                                        assert(see_value(b, bad[bi]) >= see_value(b, bad[j]));
                                    }
                                } else {
                                    assert(see_value(b, x) <= see_value(b, bad[bi]));
                                }
                            }
                        }
                        return Some(m);
                    }
                    self.stage = Stage::Done;
                },
                Stage::Done => {
                    proof {
                        assert forall|x: Move| #[trigger] board.gen_move(x) implies self.yielded().contains(x) || self.overflowed() by {
                            lemma_same_setup_moves(b, *board, x);
                            self.lemma_done_covers(x);
                        }
                        self.lemma_overflow_witness(*board);
                    }
                    return None;
                },
            }
        }
    }
}

#[derive(Clone, Copy, PartialEq, Eq, Structural)]
enum QStage {
    GenCaptures,
    Captures,
    Done,
}

/// The quiescence search's picker: the captures and promotions, best exchange value first.
pub struct QMovePicker {
    stage: QStage,
    moves: MoveList,
    scores: Vec<i32>,
    idx: usize,
    pos: Ghost<Option<Board>>,
}

impl QMovePicker {
    /// The moves handed out so far, in order.
    pub closed spec fn yielded(&self) -> Seq<Move> {
        if self.stage == QStage::GenCaptures {
            Seq::empty()
        } else {
            self.moves@.subrange(0, self.idx as int)
        }
    }

    /// The position the picker works on, fixed by its first call.
    pub closed spec fn position(&self) -> Option<Board> {
        self.pos@
    }

    pub closed spec fn is_done(&self) -> bool {
        self.stage == QStage::Done
    }

    /// How far the picker has come, for termination.
    pub closed spec fn progress(&self) -> (int, int) {
        (
            match self.stage {
                QStage::GenCaptures => 2int,
                QStage::Captures => 1int,
                QStage::Done => 0int,
            },
            self.moves@.len() - self.idx,
        )
    }

    /// The picker's bookkeeping is consistent.
    pub closed spec fn wf(&self) -> bool {
        let b = self.pos@.unwrap();
        &&& self.stage != QStage::GenCaptures ==> {
            &&& self.pos@ is Some
            &&& pickable(b)
            &&& self.idx <= self.moves@.len()
            &&& self.scores@.len() == self.moves@.len()
            &&& distinct(self.moves@)
            &&& forall|i: int| 0 <= i < self.moves@.len() ==> b.gen_move(#[trigger] self.moves@[i]) && tactical(self.moves@[i])
            &&& forall|m: Move| b.gen_move(m) && tactical(m) ==> self.moves@.contains(m)
            &&& forall|k: int| 0 <= k < self.moves@.len() ==> #[trigger] self.scores@[k] == see_value(b, self.moves@[k])
        }
        &&& self.stage == QStage::GenCaptures ==> self.pos@ is None
        &&& self.stage == QStage::Done ==> self.idx == self.moves@.len()
        &&& self.pos@ is Some ==> pickable(b)
    }

    pub fn new() -> (p: Self)
        ensures
            p.wf(),
            p.yielded() == Seq::<Move>::empty(),
            p.position() is None,
            !p.is_done(),
    {
        QMovePicker { stage: QStage::GenCaptures, moves: MoveList::new(), scores: Vec::new(), idx: 0, pos: Ghost(None) }
    }

    /// The next capture or promotion to try, or `None` once all of them are handed
    /// out (and from then on): each generated tactical move exactly once, the one with
    /// the best exchange value among those left first. `board` must have the setup
    /// of the first call.
    pub fn next(&mut self, board: &Board) -> (r: Option<Move>)
        requires
            old(self).wf(),
            pickable(*board),
            old(self).position() matches Some(p) ==> same_setup(p, *board),
        ensures
            final(self).wf(),
            0 <= final(self).progress().0,
            final(self).position() == Some(old(self).position().unwrap_or(*board)),
            match r {
                Some(m) => {
                    &&& board.gen_move(m) && tactical(m) && board.pseudo_legal(m)
                    &&& !old(self).yielded().contains(m)
                    &&& final(self).yielded() == old(self).yielded().push(m)
                    &&& forall|x: Move| #[trigger] board.gen_move(x) && tactical(x) && !final(self).yielded().contains(x)
                        ==> see_value(*board, x) <= see_value(*board, m)
                    &&& (final(self).progress().0 < old(self).progress().0 || (final(self).progress().0 == old(self).progress().0 && 0 <= final(self).progress().1 < old(self).progress().1))
                },
                None => {
                    &&& final(self).yielded() == old(self).yielded()
                    &&& final(self).is_done()
                    &&& forall|m: Move| board.gen_move(m) && tactical(m) ==> final(self).yielded().contains(m)
                },
            },
            old(self).is_done() ==> r is None,
    {
        proof {
            if self.pos@ is None {
                self.pos = Ghost(Some(*board));
            }
        }
        let ghost b = self.pos@.unwrap();
        if self.stage == QStage::GenCaptures {
            board.generate_captures(&mut self.moves);
            let scores = see_scores(board, &self.moves);
            self.scores = scores;
            self.idx = 0;
            self.stage = QStage::Captures;
            proof {
                assert forall|k: int| 0 <= k < self.moves@.len() implies b.gen_move(#[trigger] self.moves@[k]) && tactical(self.moves@[k]) by {
                    lemma_same_setup_moves(b, *board, self.moves@[k]);
                }
                assert forall|m: Move| b.gen_move(m) && tactical(m) implies self.moves@.contains(m) by {
                    lemma_same_setup_moves(b, *board, m);
                }
                assert(self.yielded() =~= old(self).yielded());
            }
        }
        if self.stage == QStage::Captures {
            if self.idx >= self.moves.len() {
                self.stage = QStage::Done;
                proof {
                    assert(self.yielded() =~= old(self).yielded());
                    assert forall|m: Move| board.gen_move(m) && tactical(m) implies self.yielded().contains(m) by {
                        lemma_same_setup_moves(b, *board, m);
                        assert(self.moves@.subrange(0, self.idx as int) =~= self.moves@);
                    }
                }
                return None;
            }
            let ghost pre = self.moves@;
            let ghost pre_s = self.scores@;
            let idx = self.idx;
            select_best(&mut self.moves, &mut self.scores, idx);
            proof {
                let k = choose|k: int|
                    idx <= k < pre.len() && self.moves@ == pre.update(idx as int, pre[k]).update(k, pre[idx as int])
                        && self.scores@ == pre_s.update(idx as int, pre_s[k]).update(k, pre_s[idx as int]);
                lemma_swap_keeps(pre, idx as int, k);
                assert forall|i: int| 0 <= i < self.moves@.len() implies #[trigger] self.scores@[i] == see_value(b, self.moves@[i]) by {
                    if i == idx {
                    } else if i == k {
                    } else {
                        assert(self.scores@[i] == pre_s[i] && self.moves@[i] == pre[i]);
                    }
                }
                assert forall|i: int| 0 <= i < self.moves@.len() implies b.gen_move(#[trigger] self.moves@[i]) && tactical(self.moves@[i]) by {
                    let j = choose|j: int| 0 <= j < pre.len() && #[trigger] self.moves@[i] == pre[j] && (i == idx ==> j == k) && (i == k ==> j == idx) && (i != idx && i != k ==> j == i);
                    assert(b.gen_move(pre[j]));
                }
                assert forall|m: Move| b.gen_move(m) && tactical(m) implies self.moves@.contains(m) by {
                    assert(pre.contains(m));
                    let j = choose|j: int| 0 <= j < pre.len() && pre[j] == m;
                    let i = if j == idx { k } else if j == k { idx as int } else { j };
                    assert(self.moves@[i] == m);
                }
                assert(self.moves@.subrange(0, idx as int) =~= pre.subrange(0, idx as int));
            }
            let m = self.moves.moves[idx];
            self.idx = idx + 1;
            proof {
                assert(b.gen_move(m));
                lemma_generated_is_pseudo_legal(b, m);
                lemma_same_setup_moves(b, *board, m);
                assert(self.yielded() =~= old(self).yielded().push(m));
                assert forall|x: Move| #[trigger] board.gen_move(x) && tactical(x) && !self.yielded().contains(x)
                    implies see_value(*board, x) <= see_value(*board, m) by {
                    lemma_same_setup_moves(b, *board, x);
                    crate::see::lemma_see_value_same(b, *board, x);
                    crate::see::lemma_see_value_same(b, *board, m);
                    assert(self.moves@.contains(x));
                    let j = choose|j: int| 0 <= j < self.moves@.len() && self.moves@[j] == x;
                    if j <= idx {
                        assert(self.yielded()[j] == x);
                    }
                    assert(self.scores@[idx as int] >= self.scores@[j]);
                }
                if old(self).yielded().contains(m) {
                    let j = choose|j: int| 0 <= j < idx && old(self).yielded()[j] == m;
                    assert(self.moves@[j] == self.moves@[idx as int]);
                }
            }
            return Some(m);
        }
        proof {
            assert forall|m: Move| board.gen_move(m) && tactical(m) implies self.yielded().contains(m) by {
                lemma_same_setup_moves(b, *board, m);
                assert(self.moves@.subrange(0, self.idx as int) =~= self.moves@);
            }
        }
        None
    }
}

/// Exchange values of a list of generated moves.
pub(crate) fn see_scores(board: &Board, moves: &MoveList) -> (scores: Vec<i32>)
    requires
        pickable(*board),
        forall|k: int| 0 <= k < moves@.len() ==> #[trigger] board.gen_move(moves@[k]),
    ensures
        scores@.len() == moves@.len(),
        forall|k: int| 0 <= k < moves@.len() ==> #[trigger] scores@[k] == see_value(*board, moves@[k]),
{
    let n = moves.len();
    let mut scores: Vec<i32> = Vec::new();
    let mut i: usize = 0;
    while i < n
        invariant
            i <= n,
            n == moves@.len(),
            scores@.len() == i,
            forall|k: int| 0 <= k < n ==> #[trigger] board.gen_move(moves@[k]),
            forall|k: int| 0 <= k < i ==> #[trigger] scores@[k] == see_value(*board, moves@[k]),
            pickable(*board),
        decreases n - i,
    {
        let m = moves.moves[i];
        proof {
            lemma_generated_is_pseudo_legal(*board, m);
        }
        scores.push(see(board, m));
        i = i + 1;
    }
    scores
}

} // verus!
