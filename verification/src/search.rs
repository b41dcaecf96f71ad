//! Alpha-beta search: principal-variation negamax with a transposition table,
//! null-move pruning, razoring, futility and late-move pruning, late-move
//! reductions, killer, counter-move and history ordering, and a quiescence search.
use vstd::prelude::*;
use std::sync::Arc;
use std::sync::atomic::AtomicBool;
use std::time::Instant;
use crate::board::Board;
use crate::clock::{clock_now, elapsed_ms, set_stop, stop_is_set};
use crate::makemove::{lemma_decoded_is_sane, lemma_generated_is_sane, lemma_make_keeps_consistent, lemma_make_unmake_restores, sane_move};
use crate::movegen::lemma_generated_is_pseudo_legal;
use crate::movepicker::{lemma_legal_same_setup, lemma_same_setup_moves, lemma_same_setup_of, pickable, same_setup, see_scores, select_best, MovePicker, QMovePicker};
use crate::nnue::{evaluate, king_sq_of};
use crate::nnue_laws::acc_made;
use crate::see::{see, val};
use crate::tt::{Bound, SharedTransTable};
use crate::types::{Color, Move, MoveList, Piece, PieceKind, Undo};

verus! {

pub const MATE_SCORE: i32 = 30_000;

pub const MATE_THRESHOLD: i32 = MATE_SCORE - 512;

pub const MAX_PLY: usize = 128;

pub const DRAW_SCORE: i32 = 0;

pub const HISTORY_PRUNE_THRESHOLD: i32 = 4000;

pub const IID_MIN_DEPTH: i32 = 5;

pub const RAZORING_MARGIN: i32 = 400;

pub const DELTA_MARGIN: i32 = 200;

pub const HISTORY_MAX: i32 = 16_384;

/// Every score the search passes around lies within this bound.
pub const SCORE_BOUND: i32 = 20_000_000;

/// Deepest search depth passed to the search (depths up to it do not overflow).
pub const MAX_SEARCH_DEPTH: i32 = 1_000_000;

/// The futility margin by remaining depth: 0, 125, 250, 450, 700, 950, 1200, 1500.
pub open spec fn futility_table(depth: int) -> int {
    if depth == 0 {
        0
    } else if depth == 1 {
        125
    } else if depth == 2 {
        250
    } else if depth == 3 {
        450
    } else if depth == 4 {
        700
    } else if depth == 5 {
        950
    } else if depth == 6 {
        1200
    } else {
        1500
    }
}

/// How many quiet moves late-move pruning lets through by remaining depth: 0, 3, 5, 8.
pub open spec fn lmp_table(depth: int) -> int {
    if depth == 0 {
        0
    } else if depth == 1 {
        3
    } else if depth == 2 {
        5
    } else {
        8
    }
}

fn futility_margin(depth: i32) -> (r: i32)
    requires
        0 <= depth < 8,
    ensures
        r == futility_table(depth as int),
        0 <= r <= 1500,
{
    if depth == 0 {
        0
    } else if depth == 1 {
        125
    } else if depth == 2 {
        250
    } else if depth == 3 {
        450
    } else if depth == 4 {
        700
    } else if depth == 5 {
        950
    } else if depth == 6 {
        1200
    } else {
        1500
    }
}

fn lmp_limit(depth: i32) -> (r: i32)
    requires
        0 <= depth < 4,
    ensures
        r == lmp_table(depth as int),
{
    if depth == 0 {
        0
    } else if depth == 1 {
        3
    } else if depth == 2 {
        5
    } else {
        8
    }
}

/// The score lies within `SCORE_BOUND`.
pub open spec fn bounded(x: i32) -> bool {
    -SCORE_BOUND <= x <= SCORE_BOUND
}

/// Base late-move reductions by depth and move number, both capped at 255.
pub struct LmrTable {
    cells: Vec<i32>,
}

impl LmrTable {
    pub closed spec fn wf(&self) -> bool {
        &&& self.cells@.len() == 65536
        &&& forall|i: int| 0 <= i < 65536 ==> 0 <= #[trigger] self.cells@[i] <= 1000
    }

    /// The reduction for depth `d` after `n` moves, both capped at 255.
    pub closed spec fn at(&self, d: int, n: int) -> i32 {
        self.cells@[(if d > 255 { 255 } else { d }) * 256 + (if n > 255 { 255 } else { n })]
    }

    /// A table from its cells, row by depth (256 rows of 256 move numbers); `None`
    /// unless there are 65536 cells, each from 0 to 1000.
    pub fn from_cells(cells: Vec<i32>) -> (r: Option<LmrTable>)
        ensures
            r matches Some(t) ==> t.wf() && forall|d: int, n: int| 0 <= d < 256 && 0 <= n < 256 ==> #[trigger] t.at(d, n) == cells@[d * 256 + n],
            r is None <==> !(cells@.len() == 65536 && forall|i: int| 0 <= i < 65536 ==> 0 <= #[trigger] cells@[i] <= 1000),
    {
        if cells.len() != 65536 {
            return None;
        }
        let mut i: usize = 0;
        while i < 65536
            invariant
                i <= 65536,
                cells@.len() == 65536,
                forall|k: int| 0 <= k < i ==> 0 <= #[trigger] cells@[k] <= 1000,
            decreases 65536 - i,
        {
            if cells[i] < 0 || cells[i] > 1000 {
                return None;
            }
            i = i + 1;
        }
        Some(LmrTable { cells })
    }

    fn get(&self, d: i32, n: usize) -> (r: i32)
        requires
            self.wf(),
            d >= 0,
        ensures
            r == self.at(d as int, n as int),
            r == self.at(if d > 255 { 255 } else { d as int }, if n > 255 { 255 } else { n as int }),
            0 <= r <= 1000,
    {
        let dd: usize = if d > 255 {
            255
        } else {
            d as usize
        };
        let nn: usize = if n > 255 {
            255
        } else {
            n
        };
        self.cells[dd * 256 + nn]
    }
}

/// The clock and node count of one search thread.
pub struct TimeManager {
    start_time: Instant,
    soft_limit: u64,
    hard_limit: u64,
    extension_limit: u64,
    stop_signal: Arc<AtomicBool>,
    is_main_thread: bool,
    nodes: u64,
    best_move_changes: usize,
    best_move_stability: usize,
    previous_best_move: Option<Move>,
    stop_seen: Ghost<bool>,
}

impl TimeManager {
    /// A check of the hard limit has told the search to stop.
    pub closed spec fn saw_stop(&self) -> bool {
        self.stop_seen@
    }

    pub closed spec fn node_count(&self) -> u64 {
        self.nodes
    }

    pub closed spec fn main_thread(&self) -> bool {
        self.is_main_thread
    }

    pub closed spec fn stability(&self) -> usize {
        self.best_move_stability
    }

    pub closed spec fn last_best(&self) -> Option<Move> {
        self.previous_best_move
    }

    /// A clock started now. `extension_limit` is how far past the soft limit a
    /// search whose best move just changed may go (one and a half soft limits).
    pub fn new(soft_limit: u64, hard_limit: u64, extension_limit: u64, stop_signal: Arc<AtomicBool>, is_main_thread: bool) -> (t: Self)
        ensures
            t.node_count() == 0,
            t.main_thread() == is_main_thread,
            t.stability() == 0,
            t.last_best() is None,
            !t.saw_stop(),
    {
        TimeManager {
            start_time: clock_now(),
            soft_limit,
            hard_limit,
            extension_limit,
            stop_signal,
            is_main_thread,
            nodes: 0,
            best_move_changes: 0,
            best_move_stability: 0,
            previous_best_move: None,
            stop_seen: Ghost(false),
        }
    }

    /// Milliseconds since the clock started.
    pub fn elapsed(&self) -> u64 {
        elapsed_ms(&self.start_time)
    }

    /// Whether the search must stop now: the stop flag is up, or (for the main
    /// thread, every 4096 nodes) the hard limit has passed, which raises the flag.
    /// What the flag and the clock say is not known in advance.
    fn check_hard_limit(&mut self) -> (r: bool)
        ensures
            final(self).saw_stop() == (old(self).saw_stop() || r),
            !r ==> *final(self) == *old(self),
            final(self).node_count() == old(self).node_count(),
            final(self).main_thread() == old(self).main_thread(),
            final(self).stability() == old(self).stability(),
            final(self).last_best() == old(self).last_best(),
    {
        if stop_is_set(&self.stop_signal) {
            proof {
                self.stop_seen = Ghost(true);
            }
            return true;
        }
        if self.is_main_thread && (self.nodes & 4095) == 0 {
            let elapsed = elapsed_ms(&self.start_time);
            if elapsed >= self.hard_limit {
                set_stop(&self.stop_signal);
                proof {
                    self.stop_seen = Ghost(true);
                }
                return true;
            }
        }
        false
    }

    /// Whether iterative deepening should stop after depth `depth` with best move
    /// `best_move`: the flag is up; or (main thread) the clock says so, as
    /// `soft_verdict` decides from the time elapsed. The main thread counts how long
    /// the best move has held, and raises the flag when it stops.
    pub fn check_soft_limit(&mut self, depth: usize, best_move: Option<Move>) -> (r: bool)
        ensures
            final(self).node_count() == old(self).node_count(),
            final(self).main_thread() == old(self).main_thread(),
            final(self).saw_stop() == old(self).saw_stop(),
            !old(self).main_thread() ==> *final(self) == *old(self),
            final(self).main_thread() && !r ==> final(self).last_best() == best_move && final(self).stability()
                == (if best_move != old(self).last_best() {
                0
            } else if old(self).stability() < usize::MAX {
                old(self).stability() + 1
            } else {
                old(self).stability() as int
            }),
    {
        if stop_is_set(&self.stop_signal) {
            return true;
        }
        if !self.is_main_thread {
            return false;
        }
        let elapsed = elapsed_ms(&self.start_time);
        if best_move != self.previous_best_move {
            if self.best_move_changes < usize::MAX {
                self.best_move_changes = self.best_move_changes + 1;
            }
            self.best_move_stability = 0;
        } else if self.best_move_stability < usize::MAX {
            self.best_move_stability = self.best_move_stability + 1;
        }
        self.previous_best_move = best_move;
        let stop = soft_verdict(
            elapsed,
            self.soft_limit,
            self.hard_limit,
            self.extension_limit,
            self.best_move_stability,
            depth,
        );
        if stop {
            set_stop(&self.stop_signal);
        }
        stop
    }
}

/// Whether the clock ends iterative deepening after depth `depth`: the hard limit
/// has passed; or the soft limit has passed, unless the best move just changed
/// (stability 0) and the extension (capped by the hard limit) is not used up; or,
/// past depth 8, the best move held for four iterations and half the soft limit
/// has passed.
pub open spec fn soft_stop(elapsed: u64, soft: u64, hard: u64, ext: u64, stability: usize, depth: usize) -> bool {
    if elapsed >= hard {
        true
    } else if elapsed >= soft {
        !(stability == 0 && elapsed < (if ext < hard { ext } else { hard }))
    } else {
        depth > 8 && stability >= 4 && elapsed > soft / 2
    }
}

/// The clock's verdict after an iteration (see `soft_stop`).
pub fn soft_verdict(elapsed: u64, soft: u64, hard: u64, ext: u64, stability: usize, depth: usize) -> (r: bool)
    ensures
        r == soft_stop(elapsed, soft, hard, ext, stability, depth),
{
    if elapsed >= hard {
        return true;
    }
    if elapsed >= soft {
        let limit = if ext < hard {
            ext
        } else {
            hard
        };
        return !(stability == 0 && elapsed < limit);
    }
    depth > 8 && stability >= 4 && elapsed > soft / 2
}

/// The board is back, all but its accumulator: the same position (up to its hash,
/// which is back too when the history ended in it), still well-formed and
/// consistent, same network. The accumulator is not compared.
pub open spec fn restored_but_accumulator(b0: Board, b1: Board) -> bool {
    &&& b1.same_position_but_hash(&b0)
    &&& (b0.history_ok() ==> b1.zobrist == b0.zobrist)
    &&& b1.wf()
    &&& b1.consistent()
    &&& b1.model == b0.model
}

/// `a` is `b` after `make_move(m)`, which returned `u`.
pub open spec fn made(b: Board, a: Board, m: Move, u: Undo) -> bool {
    &&& b.wf()
    &&& b.consistent()
    &&& b.pseudo_legal(m)
    &&& b.fullmove_number < i32::MAX
    &&& a.bb_wf()
    &&& a.model_ok()
    &&& a.model == b.model
    &&& a.piece_on@ == b.after_squares(m)
    &&& a.turn == b.turn.spec_other()
    &&& a.fullmove_number == b.fullmove_number + (if b.turn == Color::Black {
        1int
    } else {
        0int
    })
    &&& a.history@ == b.history@.push(a.zobrist)
    &&& u.captured_piece == (if m.capture {
        b.piece_on[b.cap_sq(m)]
    } else {
        Piece::Empty
    })
    &&& u.old_castle == b.castle
    &&& u.old_en_passant_sq == b.en_passant_sq
    &&& u.old_halfmove_clock == b.halfmove_clock
    &&& a.can_unmake(m, u)
}

/// The accumulator is the one a refresh of the position computes, and the king of
/// the side not to move is out of attack. Every move the search keeps from such a
/// position leads to another, and the search gives the accumulator back exactly.
pub open spec fn acc_fresh(b: Board) -> bool {
    &&& crate::nnue::refreshed(b.model, b, b.accumulator)
    &&& b.king_untouchable()
}

/// A position with the same pieces, side to move and accumulator is as fresh.
proof fn lemma_acc_fresh_same(b: Board, c: Board)
    requires
        b.bb_wf(),
        c.bb_wf(),
        c.same_position_but_hash(&b),
        c.model == b.model,
        c.accumulator == b.accumulator,
        acc_fresh(b),
    ensures
        acc_fresh(c),
{
    crate::nnue_laws::lemma_refreshed_same(b, c);
    crate::movegen::lemma_attacked_determined(b, c);
}

/// The side to move is in check: its king (the lowest, if several) is attacked. A
/// side without a king is not in check.
fn side_in_check(b: &Board) -> (r: bool)
    requires
        b.bb_wf(),
    ensures
        r == crate::game_runner::in_check(*b),
{
    match b.first_king_sq_of(b.turn) {
        Some(k) => b.is_square_attacked(k as i32, b.turn.other()),
        None => false,
    }
}

/// Every pseudo-legal move of `b` leaves the mover's king (the lowest, if several)
/// attacked: with a king on the board, the side to move has no legal move.
pub open spec fn no_safe_move(b: Board) -> bool {
    forall|m: Move, a: Board|
        #![trigger a.piece_on@, b.after_squares(m)]
        b.pseudo_legal(m) && a.bb_wf() && a.piece_on@ == b.after_squares(m) ==> exists|k: int|
            #[trigger] a.first_king_of(b.turn, k) && a.attacked(k, b.turn.spec_other())
}

/// The least score that a node `ply` plies below the root with a mate in one
/// returns under the bound `beta`: the mate's score, or `beta` when that is lower.
#[verifier::opaque]
pub open spec fn mate_floor(ply: int, beta: int) -> int {
    if MATE_SCORE - 1 - ply < beta {
        MATE_SCORE - 1 - ply
    } else {
        beta
    }
}

/// Checkmate: the side to move is in check and has no legal move.
#[verifier::opaque]
pub open spec fn checkmated(b: Board) -> bool {
    no_safe_move(b) && crate::game_runner::in_check(b)
}

/// What checkmate means.
proof fn lemma_checkmated(b: Board)
    ensures
        checkmated(b) == (no_safe_move(b) && crate::game_runner::in_check(b)),
{
    reveal(checkmated);
}

/// Playing `m` in `b` checkmates: in the position it leads to, the side to move
/// is in check and has no legal move.
#[verifier::opaque]
pub open spec fn mates(b: Board, m: Move) -> bool {
    forall|a: Board| a.bb_wf() && #[trigger] plays(b, m, a) ==> checkmated(a)
}

/// The score of a node without a legal move `ply` plies below the root: mated when
/// in check, else a draw (stalemate).
pub open spec fn no_move_score(b: Board, ply: int) -> i32 {
    if crate::game_runner::in_check(b) {
        (-MATE_SCORE + ply) as i32
    } else {
        DRAW_SCORE
    }
}

/// Positions with the same setup agree on having no safe move and on its score.
proof fn lemma_no_move_same(x: Board, y: Board)
    requires
        x.bb_wf(),
        y.bb_wf(),
        same_setup(x, y),
    ensures
        no_safe_move(x) == no_safe_move(y),
        forall|p: int| no_move_score(x, p) == #[trigger] no_move_score(y, p),
{
    crate::movegen::lemma_attacked_determined(x, y);
    assert forall|m: Move| #[trigger] x.after_squares(m) == y.after_squares(m) && x.pseudo_legal(m) == y.pseudo_legal(m) by {
        lemma_same_setup_moves(x, y, m);
    }
    if no_safe_move(x) {
        assert forall|m: Move, a: Board|
            #![trigger a.piece_on@, y.after_squares(m)]
            y.pseudo_legal(m) && a.bb_wf() && a.piece_on@ == y.after_squares(m) implies exists|k: int|
                #[trigger] a.first_king_of(y.turn, k) && a.attacked(k, y.turn.spec_other()) by {
            assert(x.after_squares(m) == y.after_squares(m) && x.pseudo_legal(m) == y.pseudo_legal(m));
            assert(a.piece_on@ == x.after_squares(m));
        }
    }
    if no_safe_move(y) {
        assert forall|m: Move, a: Board|
            #![trigger a.piece_on@, x.after_squares(m)]
            x.pseudo_legal(m) && a.bb_wf() && a.piece_on@ == x.after_squares(m) implies exists|k: int|
                #[trigger] a.first_king_of(x.turn, k) && a.attacked(k, x.turn.spec_other()) by {
            assert(x.after_squares(m) == y.after_squares(m) && x.pseudo_legal(m) == y.pseudo_legal(m));
            assert(a.piece_on@ == y.after_squares(m));
        }
    }
}

/// Plays `m` and keeps it when the mover's king is not attacked afterwards; else
/// takes it back at once. A side without a king never counts as attacked.
pub(crate) fn try_move(board: &mut Board, m: Move) -> (r: Option<Undo>)
    requires
        old(board).wf(),
        old(board).consistent(),
        old(board).pseudo_legal(m),
        sane_move(m),
        old(board).halfmove_clock < i32::MAX,
        old(board).fullmove_number < i32::MAX,
    ensures
        match r {
            None => {
                &&& restored_but_accumulator(*old(board), *final(board))
                &&& crate::nnue::refreshed(old(board).model, *old(board), old(board).accumulator)
                    ==> final(board).accumulator == old(board).accumulator
            },
            Some(u) => {
                &&& made(*old(board), *final(board), m, u)
                &&& acc_made(*old(board), *final(board), m)
                &&& final(board).king_untouchable()
                &&& acc_fresh(*old(board)) ==> acc_fresh(*final(board))
                &&& final(board).castle == crate::makemove::rights_after(
                    old(board).castle,
                    old(board).piece_on[m.from as int],
                    m.from as int,
                    m.to as int,
                    m.capture,
                )
                &&& final(board).en_passant_sq == old(board).after_ep(m)
                &&& final(board).wf()
                &&& final(board).consistent()
                &&& final(board).history_ok()
                &&& final(board).halfmove_clock <= old(board).halfmove_clock + 1
                &&& final(board).fullmove_number <= old(board).fullmove_number + 1
            },
        },
        old(board).leaves_king_safe(m) ==> r is Some,
        (forall|a: Board| a.bb_wf() && #[trigger] a.piece_on@ == old(board).after_squares(m) ==> exists|k: int|
            #[trigger] a.first_king_of(old(board).turn, k) && a.attacked(k, old(board).turn.spec_other())) ==> r is None,
{
    let ghost b0 = *board;
    proof {
        if m.double_push && b0.turn == Color::Black {
            assert(m.from >= 8);
        }
    }
    let u = board.make_move(m);
    let ghost a = *board;
    proof {
        lemma_make_keeps_consistent(b0, a, m);
    }
    let us = board.turn.other();
    proof {
        if forall|a2: Board| a2.bb_wf() && #[trigger] a2.piece_on@ == b0.after_squares(m) ==> exists|k: int|
            #[trigger] a2.first_king_of(b0.turn, k) && a2.attacked(k, b0.turn.spec_other()) {
            assert(a.piece_on@ == b0.after_squares(m));
        }
    }
    if let Some(k) = board.first_king_sq_of(us) {
        if board.is_square_attacked(k as i32, board.turn) {
            proof {
                if b0.leaves_king_safe(m) {
                    assert(a.piece_on@ == b0.after_squares(m));
                    let k2 = choose|k2: int| #[trigger] a.first_king_of(b0.turn, k2) && !a.attacked(k2, b0.turn.spec_other());
                    if k2 < k {
                        assert(a.piece_on[k2] != Piece::spec_from_kind(PieceKind::King, b0.turn));
                    } else if k2 > k {
                        assert(a.piece_on[k as int] != Piece::spec_from_kind(PieceKind::King, b0.turn));
                    }
                }
            }
            board.unmake_move(m, u);
            proof {
                lemma_make_unmake_restores(b0, a, *board, m, u);
                crate::fen::lemma_consistent_congruent(*board, b0);
                if crate::nnue::refreshed(b0.model, b0, b0.accumulator) {
                    crate::nnue_laws::lemma_acc_back(b0, a, *board, m, u);
                }
            }
            return None;
        }
        proof {
            assert forall|k2: int| #[trigger] a.first_king_of(a.turn.spec_other(), k2) implies !a.attacked(k2, a.turn) by {
                if k2 < k {
                    assert(a.piece_on[k2] != Piece::spec_from_kind(PieceKind::King, b0.turn));
                } else if k2 > k {
                    assert(a.piece_on[k as int] != Piece::spec_from_kind(PieceKind::King, b0.turn));
                }
            }
        }
    }
    proof {
        if acc_fresh(b0) {
            lemma_make_keeps_fresh(b0, a, m);
        }
    }
    Some(u)
}

/// A move made from a position whose accumulator is fresh and whose side not to
/// move has its king out of attack gives a fresh accumulator: a king move
/// refreshes it, any other move updates it to what a refresh computes, since such a
/// position allows no capture of a king.
pub proof fn lemma_make_keeps_fresh(b: Board, a: Board, m: Move)
    requires
        b.wf(),
        b.consistent(),
        b.pseudo_legal(m),
        sane_move(m),
        acc_fresh(b),
        a.bb_wf(),
        a.model == b.model,
        a.piece_on@ == b.after_squares(m),
        acc_made(b, a, m),
    ensures
        crate::nnue::refreshed(a.model, a, a.accumulator),
{
    if b.piece_on[m.from as int].spec_kind() != Some(PieceKind::King) {
        match b.model {
            Some(md) => {
                if m.capture {
                    crate::legality::lemma_no_king_capture(b, m);
                }
                crate::nnue_laws::lemma_update_matches_refresh(b, a, m, md, b.accumulator, a.accumulator);
            },
            None => {},
        }
    }
}

/// Takes back `m` from a position with the setup that `make_move(m)` left on `b0`.
pub(crate) fn take_back(board: &mut Board, m: Move, u: Undo, Ghost(b0): Ghost<Board>, Ghost(a): Ghost<Board>)
    requires
        made(b0, a, m, u),
        acc_made(b0, a, m),
        sane_move(m),
        restored_but_accumulator(a, *old(board)),
        a.history_ok(),
    ensures
        restored_but_accumulator(b0, *final(board)),
        old(board).accumulator == a.accumulator && crate::nnue::refreshed(b0.model, b0, b0.accumulator)
            ==> final(board).accumulator == b0.accumulator,
{
    proof {
        assert(old(board).piece_on@ == a.piece_on@);
    }
    let ghost c0 = *board;
    board.unmake_move(m, u);
    proof {
        assert(made(b0, c0, m, u));
        lemma_make_unmake_restores(b0, c0, *board, m, u);
        crate::fen::lemma_consistent_congruent(*board, b0);
        if c0.accumulator == a.accumulator && crate::nnue::refreshed(b0.model, b0, b0.accumulator) {
            assert forall|col: Color| #[trigger] king_sq_of(c0, col) == king_sq_of(a, col) by {
                let idx = Piece::spec_from_kind(PieceKind::King, col).spec_index() as int;
                assert(c0.piece_bb[idx] == c0.piece_bb@[idx]);
                assert(a.piece_bb[idx] == a.piece_bb@[idx]);
            }
            if b0.piece_on[m.from as int].spec_kind() == Some(PieceKind::King) {
                crate::nnue_laws::lemma_refreshed_same(a, c0);
            }
            crate::nnue_laws::lemma_acc_back(b0, c0, *board, m, u);
        }
    }
}

/// One search thread's state.
pub struct Search<'a> {
    board: Board,
    tt: &'a SharedTransTable,
    tm: TimeManager,
    killers: [[Option<Move>; 2]; 128],
    history: [[i32; 64]; 13],
    counter_moves: Vec<Option<Move>>,
    ply: usize,
    seldepth: usize,
    prev_move: [Option<Move>; 128],
    lmr: LmrTable,
    shortcut: Ghost<bool>,
}

/// A stored move that the search may play: on the board's squares, with sane flags.
pub open spec fn usable(m: Option<Move>) -> bool {
    m matches Some(mv) ==> mv.from < 64 && mv.to < 64 && sane_move(mv)
}

impl<'a> Search<'a> {
    /// The search's bookkeeping is consistent.
    pub closed spec fn inv(&self) -> bool {
        &&& self.ply < MAX_PLY
        &&& self.board.wf()
        &&& self.board.consistent()
        &&& self.board.halfmove_clock + (MAX_PLY - self.ply) < i32::MAX
        &&& self.board.fullmove_number + (MAX_PLY - self.ply) < i32::MAX
        &&& forall|p: int| 0 <= p < 128 ==> usable(#[trigger] self.prev_move[p])
        &&& forall|p: int, k: int| 0 <= p < 128 && 0 <= k < 2 ==> usable(#[trigger] self.killers[p][k])
        &&& self.counter_moves@.len() == 1664
        &&& forall|i: int| 0 <= i < 1664 ==> usable(#[trigger] self.counter_moves@[i])
        &&& self.lmr.wf()
    }

    pub closed spec fn position(&self) -> Board {
        self.board
    }

    pub closed spec fn depth_from_root(&self) -> usize {
        self.ply
    }
}

/// What `evaluate` gives for `b`: the network's output in centipawns, 0 without
/// a network.
pub open spec fn static_value(b: Board) -> int {
    match b.model {
        Some(m) => crate::nnue::to_centipawns(crate::nnue::net_output(m, b.accumulator, b.turn)) as int,
        None => 0,
    }
}

/// Quiescence search: captures and promotions (all evasions when in check) until
/// the position is quiet, with stand-pat, delta and exchange pruning.
fn quiesce(s: &mut Search, alpha: i32, beta: i32) -> (r: i32)
    requires
        old(s).inv(),
        bounded(alpha),
        bounded(beta),
        alpha < beta,
    ensures
        final(s).inv(),
        bounded(r),
        final(s).ply == old(s).ply,
        restored_but_accumulator(old(s).board, final(s).board),
        acc_fresh(old(s).board) ==> final(s).board.accumulator == old(s).board.accumulator,
        final(s).tt == old(s).tt,
        old(s).stop_seen() ==> final(s).stop_seen(),
        final(s).shortcut == old(s).shortcut,
        old(s).ply < MAX_PLY - 1 && checkmated(old(s).board) ==> r == -MATE_SCORE + old(s).ply || (r == 0
            && final(s).stop_seen()),
        old(s).ply < MAX_PLY - 1 ==> (r == 0 && final(s).stop_seen()) || alpha <= r <= beta || (
        crate::game_runner::in_check(old(s).board) && r == -MATE_SCORE + old(s).ply),
        old(s).ply < MAX_PLY - 1 && !crate::game_runner::in_check(old(s).board) ==> (r == 0 && final(s).stop_seen()) || r
            >= (if static_value(old(s).board) < beta {
            static_value(old(s).board)
        } else {
            beta as int
        }),
    decreases MAX_PLY - old(s).ply,
{
    let ghost b0 = s.board;
    proof {
        lemma_checkmated(b0);
    }
    proof {
        crate::fen::lemma_consistent_congruent(b0, b0);
    }
    if s.seldepth < s.ply {
        s.seldepth = s.ply;
    }
    s.tm.nodes = s.tm.nodes.wrapping_add(1);
    if s.tm.check_hard_limit() {
        return 0;
    }
    if s.ply >= MAX_PLY - 1 {
        return evaluate(&s.board);
    }
    let mut lo = alpha;
    let in_check = side_in_check(&s.board);
    let stand_pat = if !in_check {
        let v = evaluate(&s.board);
        if v >= beta {
            return beta;
        }
        if v > lo {
            lo = v;
        }
        v
    } else {
        -MATE_SCORE
    };
    if in_check {
        let mut move_list = MoveList::new();
        s.board.generate_pseudo_legal_moves(&mut move_list);
        let mut scores = see_scores(&s.board, &move_list);
        let mut legal_moves_found = false;
        let n = move_list.len();
        let mut i: usize = 0;
        while i < n
            invariant
                i <= n,
                n == move_list@.len(),
                scores@.len() == n,
                s.inv(),
                bounded(lo),
                bounded(beta),
                lo < beta,
                lo >= alpha,
                s.ply == old(s).ply,
                s.ply < MAX_PLY - 1,
                s.tt == old(s).tt,
                b0 == old(s).board,
                restored_but_accumulator(b0, s.board),
                acc_fresh(b0) ==> s.board.accumulator == b0.accumulator,
                old(s).stop_seen() ==> s.stop_seen(),
                s.shortcut == old(s).shortcut,
                no_safe_move(b0) ==> !legal_moves_found,
                checkmated(b0) == (no_safe_move(b0) && crate::game_runner::in_check(b0)),
                forall|k: int| 0 <= k < n ==> b0.gen_move(#[trigger] move_list@[k]),
            decreases n - i,
        {
            let ghost pre = move_list@;
            select_best(&mut move_list, &mut scores, i);
            proof {
                let k = choose|k: int|
                    i <= k < pre.len() && move_list@ == pre.update(i as int, pre[k]).update(k, pre[i as int]);
                crate::movepicker::lemma_swap_keeps(pre, i as int, k);
                assert forall|t: int| 0 <= t < n implies b0.gen_move(#[trigger] move_list@[t]) by {
                    let j = choose|j: int| 0 <= j < pre.len() && #[trigger] move_list@[t] == pre[j] && (t == i ==> j == k) && (t == k ==> j == i) && (t != i && t != k ==> j == t);
                    assert(b0.gen_move(pre[j]));
                }
            }
            let m = move_list.moves[i];
            proof {
                lemma_generated_is_pseudo_legal(b0, m);
                lemma_generated_is_sane(b0, m);
                lemma_same_setup_of(b0, s.board);
                lemma_same_setup_moves(b0, s.board, m);
            }
            let ghost bs = s.board;
            proof {
                if acc_fresh(b0) {
                    lemma_acc_fresh_same(b0, bs);
                }
                if no_safe_move(b0) {
                    assert(b0.piece_on == bs.piece_on);
                    assert(b0.after_squares(m) == bs.after_squares(m));
                    assert forall|a: Board| a.bb_wf() && #[trigger] a.piece_on@ == bs.after_squares(m) implies exists|k: int|
                        #[trigger] a.first_king_of(bs.turn, k) && a.attacked(k, bs.turn.spec_other()) by {
                        assert(a.piece_on@ == b0.after_squares(m));
                    }
                }
            }
            match try_move(&mut s.board, m) {
                None => {
                    proof {
                        crate::fen::lemma_consistent_congruent(s.board, b0);
                    }
                },
                Some(u) => {
                    let ghost a = s.board;
                    legal_moves_found = true;
                    s.ply = s.ply + 1;
                    s.prev_move[s.ply] = Some(m);
                    let child = quiesce(s, -beta, -lo);
                    let score = -child;
                    s.ply = s.ply - 1;
                    take_back(&mut s.board, m, u, Ghost(bs), Ghost(a));
                    if score >= beta {
                        return beta;
                    }
                    if score > lo {
                        lo = score;
                    }
                },
            }
            i = i + 1;
        }
        if !legal_moves_found {
            return -MATE_SCORE + s.ply as i32;
        }
        return lo;
    }
    let mut picker = QMovePicker::new();
    loop
        invariant
            s.inv(),
            bounded(lo),
            bounded(beta),
            lo < beta,
            lo >= alpha,
            stand_pat <= lo,
            stand_pat == static_value(b0),
            !crate::game_runner::in_check(b0),
            -10_400_000 <= stand_pat <= 10_400_000,
            s.ply == old(s).ply,
            s.ply < MAX_PLY - 1,
            s.tt == old(s).tt,
            b0 == old(s).board,
            restored_but_accumulator(b0, s.board),
            acc_fresh(b0) ==> s.board.accumulator == b0.accumulator,
            old(s).stop_seen() ==> s.stop_seen(),
            s.shortcut == old(s).shortcut,
            checkmated(b0) == (no_safe_move(b0) && crate::game_runner::in_check(b0)),
            picker.wf(),
            picker.position() matches Some(p) ==> same_setup(p, b0),
        decreases picker.progress().0, picker.progress().1,
    {
        proof {
            lemma_same_setup_of(b0, s.board);
            if let Some(p) = picker.position() {
                assert(same_setup(p, s.board));
            }
        }
        let next = picker.next(&s.board);
        let m = match next {
            None => {
                break;
            },
            Some(m) => m,
        };
        proof {
            lemma_generated_is_sane(s.board, m);
        }
        if m.capture && m.promotion.is_none() {
            let captured = s.board.piece_on[m.to as usize];
            if !captured.is_empty() {
                let piece_val = val(captured);
                if stand_pat + piece_val + DELTA_MARGIN < lo {
                    continue;
                }
            }
        }
        if m.capture && see(&s.board, m) < 0 {
            continue;
        }
        let ghost bs = s.board;
        proof {
            if acc_fresh(b0) {
                lemma_acc_fresh_same(b0, bs);
            }
        }
        match try_move(&mut s.board, m) {
            None => {
                continue;
            },
            Some(u) => {
                let ghost a = s.board;
                s.ply = s.ply + 1;
                s.prev_move[s.ply] = Some(m);
                let child = quiesce(s, -beta, -lo);
                let score = -child;
                s.ply = s.ply - 1;
                take_back(&mut s.board, m, u, Ghost(bs), Ghost(a));
                if score >= beta {
                    return beta;
                }
                if score > lo {
                    lo = score;
                }
            },
        }
    }
    lo
}

/// `a` is `b` after `make_null_move`, which returned `u`.
pub open spec fn made_null(b: Board, a: Board, u: Undo) -> bool {
    &&& b.wf()
    &&& b.consistent()
    &&& b.halfmove_clock < i32::MAX
    &&& a.wf()
    &&& a.model == b.model
    &&& a.piece_on@ == b.piece_on@
    &&& a.piece_bb@ == b.piece_bb@
    &&& a.w_pieces == b.w_pieces
    &&& a.b_pieces == b.b_pieces
    &&& a.all_pieces == b.all_pieces
    &&& a.turn == b.turn.spec_other()
    &&& a.castle == b.castle
    &&& a.en_passant_sq == crate::types::NO_SQ
    &&& a.halfmove_clock == b.halfmove_clock + 1
    &&& a.fullmove_number == b.fullmove_number
    &&& a.history@ == b.history@.push(a.zobrist)
    &&& u.captured_piece == Piece::Empty
    &&& u.old_castle == b.castle
    &&& u.old_en_passant_sq == b.en_passant_sq
    &&& u.old_halfmove_clock == b.halfmove_clock
}

fn null_try(board: &mut Board) -> (u: Undo)
    requires
        old(board).wf(),
        old(board).consistent(),
        old(board).halfmove_clock < i32::MAX,
    ensures
        made_null(*old(board), *final(board), u),
        final(board).consistent(),
        final(board).history_ok(),
        final(board).accumulator == old(board).accumulator,
{
    let ghost b0 = *board;
    let u = board.make_null_move();
    proof {
        assert forall|x: int| 0 <= x < 64 implies board.piece_on[x] == b0.piece_on[x] by {
            assert(board.piece_on@[x] == b0.piece_on@[x]);
        }
    }
    u
}

fn null_back(board: &mut Board, u: Undo, Ghost(b0): Ghost<Board>, Ghost(a): Ghost<Board>)
    requires
        made_null(b0, a, u),
        restored_but_accumulator(a, *old(board)),
        a.history_ok(),
    ensures
        restored_but_accumulator(b0, *final(board)),
        final(board).accumulator == old(board).accumulator,
{
    let ghost a1 = *board;
    board.unmake_null_move(u);
    proof {
        crate::makemove::lemma_null_move_roundtrip(b0, a1, *board, u);
        crate::fen::lemma_consistent_congruent(*board, b0);
    }
}

/// The null move keeps the accumulator fresh when the side to move was not in
/// check: its king, now the one of the side not to move, is out of attack.
proof fn lemma_null_fresh(b: Board, a: Board, u: Undo)
    requires
        made_null(b, a, u),
        a.accumulator == b.accumulator,
        acc_fresh(b),
        !crate::game_runner::in_check(b),
    ensures
        acc_fresh(a),
{
    crate::nnue_laws::lemma_refreshed_same(b, a);
    crate::movegen::lemma_attacked_determined(b, a);
    assert(a.turn.spec_other() == b.turn);
}

/// Index of a counter move: by capture flag, piece and target square.
pub open spec fn counter_index(capture: bool, piece_idx: int, to: int) -> int {
    ((if capture { 1int } else { 0int }) * 13 + piece_idx) * 64 + to
}

fn counter_slot(capture: bool, piece_idx: usize, to: u8) -> (i: usize)
    requires
        piece_idx < 13,
        to < 64,
    ensures
        i == counter_index(capture, piece_idx as int, to as int),
        i < 1664,
{
    let c: usize = if capture {
        1
    } else {
        0
    };
    (c * 13 + piece_idx) * 64 + to as usize
}

/// Remembers a quiet move that caused a cutoff at the current ply: as first killer
/// (the old first becomes second), as counter to the previous move, and in the
/// history (a depth-squared bonus, capped at 1000; all halved past the maximum),
/// taking the same bonus from the quiet moves searched before it.
fn record_cutoff(s: &mut Search, m: Move, depth: i32, prev_idx: usize, searched_quiets: &Vec<Move>)
    requires
        old(s).inv(),
        usable(Some(m)),
        1 <= depth,
        prev_idx < MAX_PLY,
        forall|k: int| 0 <= k < searched_quiets@.len() ==> usable(Some(#[trigger] searched_quiets@[k])),
    ensures
        final(s).inv(),
        final(s).board == old(s).board,
        final(s).ply == old(s).ply,
        final(s).tt == old(s).tt,
        final(s).tm == old(s).tm,
        final(s).shortcut == old(s).shortcut,
        final(s).killers[old(s).ply as int][0] == Some(m),
        final(s).killers[old(s).ply as int][1] == (if Some(m) != old(s).killers[old(s).ply as int][0] {
            old(s).killers[old(s).ply as int][0]
        } else {
            old(s).killers[old(s).ply as int][1]
        }),
        forall|p: int| 0 <= p < MAX_PLY && p != old(s).ply ==> #[trigger] final(s).killers[p] == old(s).killers[p],
        final(s).counter_moves@ == match old(s).prev_move[prev_idx as int] {
            Some(pm) => old(s).counter_moves@.update(
                counter_index(pm.capture, old(s).board.piece_on[pm.from as int].spec_index() as int, pm.to as int),
                Some(m),
            ),
            None => old(s).counter_moves@,
        },
{
    let ply = s.ply;
    if Some(m) != s.killers[ply][0] {
        let mut row = s.killers[ply];
        row[1] = row[0];
        row[0] = Some(m);
        s.killers[ply] = row;
    }
    match s.prev_move[prev_idx] {
        Some(prev_m) => {
            let piece_idx = s.board.piece_on[prev_m.from as usize].index();
            let slot = counter_slot(prev_m.capture, piece_idx, prev_m.to);
            s.counter_moves.set(slot, Some(m));
        },
        None => {},
    }
    let ghost kill1 = s.killers;
    let ghost count1 = s.counter_moves@;
    let piece_idx = s.board.piece_on[m.from as usize].index();
    assert(depth <= 31 ==> depth * depth <= 961) by (nonlinear_arith)
        requires
            1 <= depth,
    ;
    let bonus: i32 = if depth > 31 {
        1000
    } else if depth * depth < 1000 {
        depth * depth
    } else {
        1000
    };
    let mut row = s.history[piece_idx];
    row[m.to as usize] = row[m.to as usize].wrapping_add(bonus);
    s.history[piece_idx] = row;
    if s.history[piece_idx][m.to as usize] > HISTORY_MAX {
        let mut p: usize = 1;
        while p < 13
            invariant
                s.tm == old(s).tm,
                s.shortcut == old(s).shortcut,
                1 <= p <= 13,
                s.inv(),
                s.board == old(s).board,
                s.ply == old(s).ply,
                s.tt == old(s).tt,
                s.killers == kill1,
                s.counter_moves@ == count1,
            decreases 13 - p,
        {
            let mut row = s.history[p];
            let mut sq: usize = 0;
            while sq < 64
                invariant
                    s.tm == old(s).tm,
                    s.shortcut == old(s).shortcut,
                    sq <= 64,
                    1 <= p < 13,
                    s.inv(),
                    s.board == old(s).board,
                    s.ply == old(s).ply,
                    s.tt == old(s).tt,
                    s.killers == kill1,
                    s.counter_moves@ == count1,
                decreases 64 - sq,
            {
                row[sq] = row[sq] >> 1u32;
                sq = sq + 1;
            }
            s.history[p] = row;
            p = p + 1;
        }
    }
    let nq = searched_quiets.len();
    let mut k: usize = 0;
    while k < nq
        invariant
            s.tm == old(s).tm,
            s.shortcut == old(s).shortcut,
            k <= nq,
            nq == searched_quiets@.len(),
            s.inv(),
            s.board == old(s).board,
            s.ply == old(s).ply,
            s.tt == old(s).tt,
            s.killers == kill1,
            s.counter_moves@ == count1,
            forall|j: int| 0 <= j < searched_quiets@.len() ==> usable(Some(#[trigger] searched_quiets@[j])),
        decreases nq - k,
    {
        let failed_move = searched_quiets[k];
        assert(usable(Some(searched_quiets@[k as int])));
        let p_idx = s.board.piece_on[failed_move.from as usize].index();
        let mut row = s.history[p_idx];
        row[failed_move.to as usize] = row[failed_move.to as usize].wrapping_sub(bonus);
        s.history[p_idx] = row;
        k = k + 1;
    }
}

/// An entry's score seen from `ply` plies below the root: mate scores count the
/// plies from the root.
pub open spec fn score_at_ply(score: i32, ply: int) -> i32 {
    if score > MATE_THRESHOLD {
        (score - ply) as i32
    } else if score < -MATE_THRESHOLD {
        (score + ply) as i32
    } else {
        score
    }
}

/// What the entry `e` says at a node `ply` plies below the root with `depth` to go
/// and window `alpha`..`beta`: its score at once when it is deep enough, the node
/// is not the root, and its bound settles the window; else only its best move.
pub open spec fn table_verdict(e: crate::tt::TTEntry, depth: i32, alpha: i32, beta: i32, ply: int) -> (Option<i32>, Option<Move>) {
    let v = score_at_ply(e.spec_score(), ply);
    if e.spec_depth() >= depth as i16 && ply > 0 && (e.spec_bound() == Bound::Exact || (e.spec_bound() == Bound::Lower && v
        >= beta) || (e.spec_bound() == Bound::Upper && v <= alpha)) {
        (Some(v), None)
    } else {
        (None, e.spec_best_move())
    }
}

/// The table's verdict on a node: a score to return at once (when a deep enough
/// entry's bound settles the window below the root), and the stored best move.
/// Other threads write the table, so the entry found (if any) is only known to
/// carry the key.
fn probe_table(s: &Search, key: u64, depth: i32, alpha: i32, beta: i32) -> (r: (Option<i32>, Option<Move>))
    requires
        s.inv(),
    ensures
        r.0 matches Some(v) ==> -32768 - 128 <= v <= 32767 + 128,
        r.1 matches Some(m) ==> sane_move(m),
        r == (None::<i32>, None::<Move>) || exists|e: crate::tt::TTEntry| e.key == key && r == #[trigger] table_verdict(e, depth, alpha, beta, s.ply as int),
{
    match s.tt.probe(key) {
        Some(entry) => {
            if entry.depth() >= depth as i16 && s.ply > 0 {
                let mut score = entry.score();
                assert(-32768 <= score <= 32767) by {
                    let d = entry.data;
                    assert(-32768 <= ((d & 0xFFFFu64) as i16) as i32 <= 32767) by (bit_vector);
                }
                if score > MATE_THRESHOLD || score < -MATE_THRESHOLD {
                    if score > 0 {
                        score = score - s.ply as i32;
                    } else {
                        score = score + s.ply as i32;
                    }
                }
                match entry.bound() {
                    Bound::Exact => {
                        proof {
                            assert((Some(score), None::<Move>) == table_verdict(entry, depth, alpha, beta, s.ply as int));
                        }
                        return (Some(score), None);
                    },
                    Bound::Lower => {
                        if score >= beta {
                            proof {
                            assert((Some(score), None::<Move>) == table_verdict(entry, depth, alpha, beta, s.ply as int));
                        }
                        return (Some(score), None);
                        }
                    },
                    Bound::Upper => {
                        if score <= alpha {
                            proof {
                            assert((Some(score), None::<Move>) == table_verdict(entry, depth, alpha, beta, s.ply as int));
                        }
                        return (Some(score), None);
                        }
                    },
                }
            }
            proof {
                lemma_decoded_is_sane(crate::tt::data_code(entry.data));
                assert((None::<i32>, entry.spec_best_move()) == table_verdict(entry, depth, alpha, beta, s.ply as int));
            }
            (None, entry.best_move())
        },
        None => (None, None),
    }
}

/// The side to move's pieces other than pawns and kings.
fn piece_material(b: &Board) -> (r: u64)
    ensures
        r == (if b.turn == Color::White {
            b.w_pieces
        } else {
            b.b_pieces
        }) & !(b.piece_bb[Piece::WP.spec_index() as int] | b.piece_bb[Piece::BP.spec_index() as int] | b.piece_bb[Piece::WK.spec_index() as int]
            | b.piece_bb[Piece::BK.spec_index() as int]),
{
    let our_pieces = if b.turn == Color::White {
        b.w_pieces
    } else {
        b.b_pieces
    };
    our_pieces & !(b.piece_bb[Piece::WP.index()] | b.piece_bb[Piece::BP.index()] | b.piece_bb[Piece::WK.index()]
        | b.piece_bb[Piece::BK.index()])
}

/// The counter move stored for the previous move: by its capture flag, the piece
/// now on its origin square, and its target.
fn counter_of(s: &Search, prev_idx: usize) -> (r: Option<Move>)
    requires
        s.inv(),
        prev_idx < MAX_PLY,
    ensures
        usable(r),
        r == match s.prev_move[prev_idx as int] {
            Some(pm) => s.counter_moves@[counter_index(pm.capture, s.board.piece_on[pm.from as int].spec_index() as int, pm.to as int)],
            None => None,
        },
{
    match s.prev_move[prev_idx] {
        Some(prev_m) => {
            let piece_idx = s.board.piece_on[prev_m.from as usize].index();
            s.counter_moves[counter_slot(prev_m.capture, piece_idx, prev_m.to)]
        },
        None => None,
    }
}

/// Stores a node's result: as an upper bound when it did not beat the window's
/// lower end, a lower bound when it reached the upper end, else exact; mate scores
/// are stored relative to this node.
fn store_result(s: &Search, key: u64, depth: i32, best_score: i32, alpha_orig: i32, beta: i32, best_move: Option<Move>)
    requires
        s.inv(),
        bounded(best_score),
{
    let bound = if best_score <= alpha_orig {
        Bound::Upper
    } else if best_score >= beta {
        Bound::Lower
    } else {
        Bound::Exact
    };
    let mut score_to_store = best_score;
    if score_to_store > MATE_THRESHOLD {
        score_to_store = score_to_store + s.ply as i32;
    } else if score_to_store < -MATE_THRESHOLD {
        score_to_store = score_to_store - s.ply as i32;
    }
    s.tt.store(key, depth as i16, score_to_store, bound, best_move);
}

/// The position that a mating move leads to is checkmate, whichever board with the
/// same setup it was played on.
proof fn lemma_mating_child(b0: Board, bs: Board, a: Board, m: Move)
    requires
        same_setup(b0, bs),
        b0.legal_move(m),
        mates(b0, m),
        a.bb_wf(),
        bs.pseudo_legal(m),
        a.piece_on@ == bs.after_squares(m),
        a.turn == bs.turn.spec_other(),
        a.castle == crate::makemove::rights_after(bs.castle, bs.piece_on[m.from as int], m.from as int, m.to as int, m.capture),
        a.en_passant_sq == bs.after_ep(m),
    ensures
        checkmated(a),
{
    reveal(mates);
    lemma_same_setup_moves(b0, bs, m);
    assert(b0.after_squares(m) == bs.after_squares(m));
    assert(plays(b0, m, a));
}

/// A checkmate stays checkmate on a board with the same position.
proof fn lemma_mated_same(a: Board, c: Board)
    requires
        a.bb_wf(),
        c.bb_wf(),
        c.same_position_but_hash(&a),
        checkmated(a),
    ensures
        checkmated(c),
{
    reveal(checkmated);
    lemma_same_setup_of(a, c);
    lemma_no_move_same(a, c);
    crate::movegen::lemma_attacked_determined(a, c);
    let k = choose|k: int| a.first_king_of(a.turn, k) && a.attacked(k, a.turn.spec_other());
    assert(c.first_king_of(c.turn, k) && c.attacked(k, c.turn.spec_other()));
}

/// What a list holds after one more move is handed out: what it held, and that move.
proof fn lemma_yield_step(y: Seq<Move>, m: Move)
    ensures
        forall|x: Move| #[trigger] y.push(m).contains(x) == (y.contains(x) || x == m),
{
    assert forall|x: Move| #[trigger] y.push(m).contains(x) == (y.contains(x) || x == m) by {
        if y.push(m).contains(x) {
            let i = choose|i: int| 0 <= i < y.push(m).len() && y.push(m)[i] == x;
            if i < y.len() {
                assert(y[i] == x);
            }
        }
        if y.contains(x) {
            let i = choose|i: int| 0 <= i < y.len() && y[i] == x;
            assert(y.push(m)[i] == x);
        }
        if x == m {
            assert(y.push(m)[y.len() as int] == x);
        }
    }
}

/// The floor lies at or below both the mate's score and `beta`.
proof fn lemma_floor_below(ply: int, beta: int)
    ensures
        mate_floor(ply, beta) <= beta,
        mate_floor(ply, beta) <= MATE_SCORE - 1 - ply,
{
    reveal(mate_floor);
}

/// The side to move in `b` has a legal move that mates at once.
#[verifier::opaque]
pub open spec fn mate_in_one(b: Board) -> bool {
    exists|m: Move| b.legal_move(m) && #[trigger] mates(b, m)
}

/// At the end of a node's move loop: when the node has a mate in one and every
/// generated move was handed out, the best score reached the floor, unless the
/// search cut off at `beta` or took a shortcut.
proof fn lemma_root_mate(y: Seq<Move>, b0: Board, best: int, beta: int, ply: int, escaped: bool)
    requires
        mate_among(y, b0) ==> best >= mate_floor(ply, beta) || escaped,
        best >= beta || all_handed_out(y, b0) || escaped,
        mate_in_one(b0),
    ensures
        best >= mate_floor(ply, beta) || escaped,
{
    reveal(mate_in_one);
    lemma_floor_below(ply, beta);
    if !escaped && best < beta {
        let m0 = choose|mm: Move| b0.legal_move(mm) && #[trigger] mates(b0, mm);
        lemma_mate_among_all(y, b0, m0);
    }
}

/// No move of an empty list mates.
proof fn lemma_mate_among_empty(b: Board)
    ensures
        !mate_among(Seq::<Move>::empty(), b),
{
    reveal(mate_among);
}

/// Some move of `y` is legal in `b` and mates.
#[verifier::opaque]
pub open spec fn mate_among(y: Seq<Move>, b: Board) -> bool {
    exists|x: Move| #[trigger] y.contains(x) && b.legal_move(x) && mates(b, x)
}

/// A mating move among the moves handed out so far, plus one more, is among those
/// before or is the new one.
proof fn lemma_mate_among_push(y: Seq<Move>, m: Move, b: Board)
    ensures
        mate_among(y.push(m), b) ==> mate_among(y, b) || (b.legal_move(m) && mates(b, m)),
{
    reveal(mate_among);
    lemma_yield_step(y, m);
    if mate_among(y.push(m), b) {
        let x = choose|x: Move| #[trigger] y.push(m).contains(x) && b.legal_move(x) && mates(b, x);
        if x != m {
            assert(y.contains(x));
        }
    }
}

/// Every move the generator makes in `b` is in `y`.
#[verifier::opaque]
pub open spec fn all_handed_out(y: Seq<Move>, b: Board) -> bool {
    forall|x: Move| #[trigger] b.gen_move(x) ==> y.contains(x)
}

/// When every generated move was handed out, a legal mating move was too.
proof fn lemma_mate_among_all(y: Seq<Move>, b: Board, m: Move)
    requires
        all_handed_out(y, b),
        b.legal_move(m),
        mates(b, m),
    ensures
        mate_among(y, b),
{
    reveal(mate_among);
    reveal(all_handed_out);
    assert(b.gen_move(m));
    assert(y.contains(m));
}

/// Principal-variation negamax to `depth` (extended by one in check), with the
/// table, pruning and reductions of the engine; 0 when the search is stopped. The
/// board ends as it started, its accumulator too when it was fresh (`acc_fresh`).
#[verifier::rlimit(100)]
#[verifier::spinoff_prover]
fn negamax(s: &mut Search, alpha: i32, beta: i32, depth: i32) -> (r: i32)
    requires
        old(s).inv(),
        bounded(alpha),
        bounded(beta),
        alpha < beta,
        depth <= MAX_SEARCH_DEPTH,
    ensures
        final(s).inv(),
        bounded(r),
        final(s).ply == old(s).ply,
        restored_but_accumulator(old(s).board, final(s).board),
        acc_fresh(old(s).board) ==> final(s).board.accumulator == old(s).board.accumulator,
        final(s).tt == old(s).tt,
        old(s).ply == 0 && beta - alpha > 1 && depth >= 1 && no_safe_move(old(s).board) ==> r == no_move_score(
            old(s).board,
            0,
        ) || (r == 0 && final(s).stop_seen()),
        old(s).stop_seen() ==> final(s).stop_seen(),
        old(s).took_shortcut() ==> final(s).took_shortcut(),
        old(s).ply < MAX_PLY - 1 && checkmated(old(s).board) ==> r == -MATE_SCORE + old(s).ply || final(s).stop_seen()
            || final(s).took_shortcut(),
        old(s).ply < MAX_PLY - 2 && depth >= 1 && mate_in_one(old(s).board) ==> r >= mate_floor(old(s).ply as int, beta as int) || final(s).stop_seen() || final(s).took_shortcut(),
    decreases MAX_PLY - old(s).ply, depth,
{
    let ghost b0 = s.board;
    let ghost depth_in = depth;
    proof {
        lemma_floor_below(s.ply as int, beta as int);
    }
    proof {
        crate::fen::lemma_consistent_congruent(b0, b0);
    }
    if s.seldepth < s.ply {
        s.seldepth = s.ply;
    }
    if s.tm.check_hard_limit() {
        return 0;
    }
    if s.ply > 0 && (s.board.is_draw_by_repetition() || s.board.halfmove_clock >= 100) {
        proof {
            s.shortcut = Ghost(true);
        }
        return DRAW_SCORE;
    }
    if s.ply >= MAX_PLY - 1 {
        return evaluate(&s.board);
    }
    let mut alpha = alpha;
    let mut depth = depth;
    let is_pv = beta - alpha > 1;
    let alpha_orig = alpha;
    let key = s.board.zobrist;
    let (cutoff, first_tt_move) = probe_table(s, key, depth, alpha, beta);
    if let Some(score) = cutoff {
        proof {
            s.shortcut = Ghost(true);
        }
        return score;
    }
    let mut tt_move = first_tt_move;
    let in_check = side_in_check(&s.board);
    if in_check {
        depth = depth + 1;
    }
    if depth <= 0 {
        return quiesce(s, alpha, beta);
    }
    s.tm.nodes = s.tm.nodes.wrapping_add(1);
    let mut static_eval = MATE_SCORE;
    if !is_pv && !in_check {
        static_eval = evaluate(&s.board);
    }
    if !is_pv && !in_check && depth <= 3 && static_eval + RAZORING_MARGIN + 100 * depth < alpha {
        let q_score = quiesce(s, alpha, beta);
        if q_score < alpha {
            proof {
                s.shortcut = Ghost(true);
            }
            return alpha;
        }
    }
    if !is_pv && !in_check && depth < 8 && static_eval - futility_margin(depth) >= beta {
        proof {
            lemma_checkmated(b0);
        }
        return beta;
    }
    proof {
        if acc_fresh(b0) {
            lemma_acc_fresh_same(b0, s.board);
        }
    }
    if is_pv && depth >= IID_MIN_DEPTH && tt_move.is_none() && !s.tm.check_hard_limit() {
        let _ = negamax(s, alpha, beta, depth - 2);
        match s.tt.probe(key) {
            Some(entry) => {
                tt_move = entry.best_move();
                proof {
                    lemma_decoded_is_sane(crate::tt::data_code(entry.data));
                }
            },
            None => {},
        }
    }
    let non_pawn_king_material = piece_material(&s.board);
    if !is_pv && !in_check && depth >= 3 && non_pawn_king_material != 0 {
        let r = 3 + depth / 6;
        let ghost bn = s.board;
        let undo = null_try(&mut s.board);
        let ghost an = s.board;
        proof {
            if acc_fresh(b0) {
                lemma_acc_fresh_same(b0, bn);
                crate::movegen::lemma_attacked_determined(b0, bn);
                lemma_null_fresh(bn, an, undo);
            }
        }
        s.ply = s.ply + 1;
        let child = negamax(s, -beta, -beta + 1, depth - r);
        let null_score = -child;
        s.ply = s.ply - 1;
        null_back(&mut s.board, undo, Ghost(bn), Ghost(an));
        if null_score >= beta {
            if depth < 10 {
                proof {
                    lemma_checkmated(b0);
                }
                return beta;
            }
            proof {
                if acc_fresh(b0) {
                    lemma_acc_fresh_same(b0, s.board);
                }
            }
            let verification_score = negamax(s, beta - 1, beta, depth - 6);
            if verification_score >= beta {
                proof {
                    lemma_checkmated(b0);
                }
                return beta;
            }
        }
    }
    let killer1 = s.killers[s.ply][0];
    let killer2 = s.killers[s.ply][1];
    let prev_idx: usize = if s.ply > 0 {
        s.ply - 1
    } else {
        0
    };
    let counter_move = counter_of(s, prev_idx);
    let mut picker = MovePicker::new(tt_move, killer1, killer2, counter_move);
    proof {
        lemma_mate_among_empty(b0);
    }
    let mut best_score = -MATE_SCORE;
    let mut best_move: Option<Move> = None;
    let mut moves_searched: usize = 0;
    let mut searched_quiets: Vec<Move> = Vec::new();
    loop
        invariant_except_break
            alpha < beta,
        invariant
            moves_searched == 0 ==> best_score == -MATE_SCORE,
            s.inv(),
            bounded(alpha),
            bounded(beta),
            bounded(best_score),
            bounded(alpha_orig),
            1 <= depth <= MAX_SEARCH_DEPTH + 1,
            s.ply == old(s).ply,
            s.ply < MAX_PLY - 1,
            prev_idx < MAX_PLY,
            s.tt == old(s).tt,
            b0 == old(s).board,
            restored_but_accumulator(b0, s.board),
            acc_fresh(b0) ==> s.board.accumulator == b0.accumulator,
            picker.wf(),
            picker.position() matches Some(p) ==> same_setup(p, b0),
            forall|x: Move| picker.is_hint(x) ==> sane_move(x),
            searched_quiets@.len() <= 128,
            forall|k: int| 0 <= k < searched_quiets@.len() ==> usable(Some(#[trigger] searched_quiets@[k])),
            usable(best_move),
            no_safe_move(b0) ==> moves_searched == 0,
            old(s).stop_seen() ==> s.stop_seen(),
            old(s).took_shortcut() ==> s.took_shortcut(),
            s.ply < MAX_PLY - 2 && mate_among(picker.yielded(), b0) ==> best_score >= mate_floor(s.ply as int, beta as int)
                || s.stop_seen() || s.took_shortcut(),
        ensures
            best_score >= beta || all_handed_out(picker.yielded(), b0) || s.took_shortcut(),
        decreases picker.progress().0, picker.progress().1,
    {
        proof {
            lemma_same_setup_of(b0, s.board);
            if let Some(p) = picker.position() {
                assert(same_setup(p, s.board));
            }
        }
        let ghost y_before = picker.yielded();
        let ghost best_before = best_score;
        let next = picker.next(&s.board, &s.history);
        let m = match next {
            None => {
                proof {
                    if picker.overflowed() {
                        s.shortcut = Ghost(true);
                    }
                    if !picker.overflowed() {
                        assert(all_handed_out(picker.yielded(), b0)) by {
                            reveal(all_handed_out);
                            assert forall|x: Move| #[trigger] b0.gen_move(x) implies picker.yielded().contains(x) by {
                                lemma_same_setup_moves(b0, s.board, x);
                            }
                        }
                    }
                }
                break;
            },
            Some(m) => m,
        };
        proof {
            if s.board.gen_move(m) {
                lemma_generated_is_sane(s.board, m);
            }
            lemma_same_setup_moves(b0, s.board, m);
        }
        if !is_pv && !in_check && depth <= 3 && !m.capture && m.promotion.is_none() {
            let lmp = lmp_limit(depth);
            if moves_searched >= lmp as usize {
                proof {
                    s.shortcut = Ghost(true);
                }
                continue;
            }
        }
        if depth <= 2 && !in_check && !m.capture && m.promotion.is_none() {
            let piece_idx = s.board.piece_on[m.from as usize].index();
            let hist_score = s.history[piece_idx][m.to as usize];
            if hist_score < -HISTORY_PRUNE_THRESHOLD {
                proof {
                    s.shortcut = Ghost(true);
                }
                continue;
            }
        }
        let ghost bs = s.board;
        let ghost target = b0.legal_move(m) && mates(b0, m) && s.ply < MAX_PLY - 2;
        proof {
            lemma_legal_same_setup(b0, bs, m);
            if no_safe_move(b0) {
                assert(b0.pseudo_legal(m));
                assert(b0.piece_on == s.board.piece_on);
                assert(b0.after_squares(m) == s.board.after_squares(m));
                assert forall|a: Board| a.bb_wf() && #[trigger] a.piece_on@ == s.board.after_squares(m) implies exists|k: int|
                    #[trigger] a.first_king_of(s.board.turn, k) && a.attacked(k, s.board.turn.spec_other()) by {
                    assert(a.piece_on@ == b0.after_squares(m));
                }
            }
        }
        proof {
            if acc_fresh(b0) {
                lemma_acc_fresh_same(b0, bs);
            }
        }
        let undo = match try_move(&mut s.board, m) {
            None => {
                proof {
                    lemma_mate_among_push(y_before, m, b0);
                }
                continue;
            },
            Some(u) => u,
        };
        let ghost a = s.board;
        proof {
            if target {
                lemma_mating_child(b0, bs, a, m);
            }
        }
        s.ply = s.ply + 1;
        s.prev_move[s.ply] = Some(m);
        if moves_searched < usize::MAX {
            moves_searched = moves_searched + 1;
        }
        let score;
        if moves_searched == 1 {
            let child = negamax(s, -beta, -alpha, depth - 1);
            score = -child;
        } else {
            if depth < 8 && !in_check && m.capture && see(&s.board, m) < 0 {
                s.ply = s.ply - 1;
                take_back(&mut s.board, m, undo, Ghost(bs), Ghost(a));
                proof {
                    s.shortcut = Ghost(true);
                }
                continue;
            }
            let mut reduction: i32 = 0;
            if depth >= 3 && !m.capture && !in_check {
                reduction = s.lmr.get(depth, moves_searched);
                if !is_pv {
                    reduction = reduction + 1;
                }
                let history_score = s.history[s.board.piece_on[m.from as usize].index()][m.to as usize];
                reduction = reduction - history_score / 4096;
                if reduction < 0 {
                    reduction = 0;
                }
                if reduction > depth - 2 {
                    reduction = depth - 2;
                }
            }
            let child = negamax(s, -alpha - 1, -alpha, depth - 1 - reduction);
            let mut search_score = -child;
            if search_score > alpha && reduction > 0 {
                proof {
                    if acc_fresh(a) {
                        lemma_acc_fresh_same(a, s.board);
                    }
                }
                proof {
                    if target {
                        lemma_mated_same(a, s.board);
                    }
                }
                let child2 = negamax(s, -alpha - 1, -alpha, depth - 1);
                search_score = -child2;
            }
            if search_score > alpha && search_score < beta {
                proof {
                    if acc_fresh(a) {
                        lemma_acc_fresh_same(a, s.board);
                    }
                }
                proof {
                    if target {
                        lemma_mated_same(a, s.board);
                    }
                }
                let child3 = negamax(s, -beta, -alpha, depth - 1);
                search_score = -child3;
            }
            score = search_score;
        }
        s.ply = s.ply - 1;
        take_back(&mut s.board, m, undo, Ghost(bs), Ghost(a));
        if s.tm.check_hard_limit() {
            return 0;
        }
        if score > best_score {
            best_score = score;
            best_move = Some(m);
            if score > alpha {
                alpha = score;
                if alpha >= beta {
                    if !m.capture {
                        proof {
                            assert(sane_move(m));
                        }
                        record_cutoff(s, m, depth, prev_idx, &searched_quiets);
                    }
                    proof {
                        lemma_floor_below(s.ply as int, beta as int);
                    }
                    break;
                }
            }
        }
        if !m.capture && m.promotion.is_none() && searched_quiets.len() < 128 {
            searched_quiets.push(m);
        }
        proof {
            lemma_mate_among_push(y_before, m, b0);
            lemma_floor_below(s.ply as int, beta as int);
            if target && !s.stop_seen() && !s.took_shortcut() {
                assert(score == MATE_SCORE - 1 - s.ply);
            }
        }
    }
    proof {
        lemma_checkmated(b0);
        if old(s).ply < MAX_PLY - 2 && depth_in >= 1 && mate_in_one(b0) {
            lemma_root_mate(
                picker.yielded(),
                b0,
                best_score as int,
                beta as int,
                s.ply as int,
                s.stop_seen() || s.took_shortcut(),
            );
        }
    }
    if moves_searched == 0 {
        return if in_check {
            -MATE_SCORE + s.ply as i32
        } else {
            DRAW_SCORE
        };
    }
    store_result(s, key, depth, best_score, alpha_orig, beta, best_move);
    best_score
}

impl<'a> Search<'a> {
    /// A search of `b` sharing the table `tt`: the soft limit is `time_ms`, the hard
    /// limit four times that (the same above five minutes); `extension_limit` is the
    /// soft limit and a half; `lmr` holds the base late-move reductions.
    pub fn new(b: &Board, tt: &'a SharedTransTable, time_ms: u64, extension_limit: u64, stop_signal: Arc<AtomicBool>, is_main_thread: bool, lmr: LmrTable) -> (s: Search<'a>)
        requires
            b.wf(),
            b.consistent(),
            b.halfmove_clock + MAX_PLY < i32::MAX,
            b.fullmove_number + MAX_PLY < i32::MAX,
            lmr.wf(),
        ensures
            s.inv(),
            s.depth_from_root() == 0,
            s.position().same_position(b),
            s.tm_main() == is_main_thread,
            s.node_count() == 0,
    {
        let hard_limit = if time_ms > 300_000 {
            time_ms
        } else {
            time_ms * 4
        };
        let board = b.copy();
        proof {
            crate::fen::lemma_consistent_congruent(board, *b);
        }
        let mut counter_moves: Vec<Option<Move>> = Vec::new();
        let mut i: usize = 0;
        while i < 1664
            invariant
                i <= 1664,
                counter_moves@.len() == i,
                forall|k: int| 0 <= k < i ==> (#[trigger] counter_moves@[k]) is None,
            decreases 1664 - i,
        {
            counter_moves.push(None);
            i = i + 1;
        }
        Search {
            board,
            tt,
            tm: TimeManager::new(time_ms, hard_limit, extension_limit, stop_signal, is_main_thread),
            killers: [[None, None]; 128],
            history: [[0i32; 64]; 13],
            counter_moves,
            ply: 0,
            seldepth: 0,
            prev_move: [None; 128],
            lmr,
            shortcut: Ghost(false),
        }
    }

    /// A check of the hard limit has told this search to stop.
    pub closed spec fn stop_seen(&self) -> bool {
        self.tm.saw_stop()
    }

    /// The search has given a value that does not come from searching the moves:
    /// a table cutoff, a draw by repetition or the fifty-move rule, a razoring
    /// cutoff, or a move left unsearched by pruning.
    pub closed spec fn took_shortcut(&self) -> bool {
        self.shortcut@
    }

    pub closed spec fn tm_main(&self) -> bool {
        self.tm.is_main_thread
    }

    pub closed spec fn node_count(&self) -> u64 {
        self.tm.nodes
    }

    /// Nodes searched so far.
    pub fn nodes(&self) -> (n: u64)
        ensures
            n == self.node_count(),
    {
        self.tm.nodes
    }

    /// The deepest ply reached so far in the current iteration.
    pub closed spec fn deepest_ply(&self) -> usize {
        self.seldepth
    }

    /// The deepest ply reached in the last iteration.
    pub fn seldepth(&self) -> (r: usize)
        ensures
            r == self.deepest_ply(),
    {
        self.seldepth
    }

    /// Milliseconds since the search started.
    pub fn elapsed_ms(&self) -> u64 {
        self.tm.elapsed()
    }

    /// The position searched.
    pub fn board(&self) -> (b: &Board)
        ensures
            *b == self.position(),
    {
        &self.board
    }

    /// One iteration of iterative deepening to depth `d`: a search in a window of
    /// 40 around `score` past depth 3 (else the full window), widened to the full
    /// side that failed and repeated, until the score lands inside, the window is
    /// already full, or the search is stopped. Returns the score and, when the
    /// table holds the root, its best move (`None` when it does not).
    pub fn search_depth(&mut self, d: i32, score: i32) -> (r: (i32, Option<Option<Move>>))
        requires
            old(self).inv(),
            old(self).depth_from_root() == 0,
            1 <= d <= MAX_SEARCH_DEPTH,
            bounded(score),
        ensures
            final(self).inv(),
            final(self).depth_from_root() == 0,
            restored_but_accumulator(old(self).position(), final(self).position()),
            acc_fresh(old(self).position()) ==> final(self).position().accumulator == old(self).position().accumulator,
            bounded(r.0),
            r.1 matches Some(Some(m)) ==> usable(Some(m)),
            r.1 matches Some(bm) ==> exists|e: crate::tt::TTEntry| e.key == final(self).position().zobrist && bm == e.spec_best_move(),
            no_safe_move(old(self).position()) ==> r.0 == no_move_score(old(self).position(), 0) || (r.0 == 0
                && final(self).stop_seen()),
    {
        self.seldepth = 0;
        let (mut alpha, mut beta) = if d > 3 {
            let lo = if score < -SCORE_BOUND + 40 {
                -SCORE_BOUND
            } else {
                score - 40
            };
            let hi = if score > SCORE_BOUND - 40 {
                SCORE_BOUND
            } else {
                score + 40
            };
            (lo, hi)
        } else {
            (-MATE_SCORE, MATE_SCORE)
        };
        let ghost b0 = self.board;
        proof {
            crate::fen::lemma_consistent_congruent(b0, b0);
        }
        let mut result: i32 = 0;
        let ghost mut searched = false;
        loop
            invariant
                self.inv(),
                self.ply == 0,
                bounded(alpha),
                bounded(beta),
                alpha < beta,
                bounded(result),
                restored_but_accumulator(b0, self.board),
                acc_fresh(b0) ==> self.board.accumulator == b0.accumulator,
                b0 == old(self).board,
                1 <= d <= MAX_SEARCH_DEPTH,
                beta - alpha > 1,
                searched && no_safe_move(b0) ==> result == no_move_score(b0, 0) || (result == 0 && self.stop_seen()),
            ensures
                searched,
            decreases (if alpha > -MATE_SCORE { 1int } else { 0int }) + (if beta < MATE_SCORE { 1int } else { 0int }),
        {
            let ghost bl = self.board;
            proof {
                lemma_same_setup_of(b0, bl);
                lemma_no_move_same(b0, bl);
                if acc_fresh(b0) {
                    lemma_acc_fresh_same(b0, bl);
                }
            }
            result = negamax(self, alpha, beta, d);
            proof {
                crate::fen::lemma_consistent_congruent(self.board, b0);
                searched = true;
            }
            if self.tm.check_hard_limit() {
                break;
            }
            if result <= alpha {
                if alpha <= -MATE_SCORE {
                    break;
                }
                alpha = -MATE_SCORE;
            } else if result >= beta {
                if beta >= MATE_SCORE {
                    break;
                }
                beta = MATE_SCORE;
            } else {
                break;
            }
        }
        let best = match self.tt.probe(self.board.zobrist) {
            Some(entry) => {
                proof {
                    lemma_decoded_is_sane(crate::tt::data_code(entry.data));
                }
                Some(entry.best_move())
            },
            None => None,
        };
        (result, best)
    }

    /// Whether iterative deepening stops after depth `d` with best move `best_move`
    /// and score `score`: the clock says so (see `check_soft_limit`), or a mate
    /// score was found.
    pub fn should_stop(&mut self, d: usize, best_move: Option<Move>, score: i32) -> (r: bool)
        requires
            old(self).inv(),
        ensures
            final(self).inv(),
            final(self).position() == old(self).position(),
            final(self).depth_from_root() == old(self).depth_from_root(),
            (score > MATE_THRESHOLD || score < -MATE_THRESHOLD) ==> r,
            final(self).stop_seen() == old(self).stop_seen(),
    {
        if self.tm.check_soft_limit(d, best_move) {
            return true;
        }
        score > MATE_THRESHOLD || score < -MATE_THRESHOLD
    }
}

/// The only legal move of the side to move, if it has exactly one.
pub fn single_legal_move(b: &Board) -> (r: Option<Move>)
    requires
        b.wf(),
        b.consistent(),
        b.halfmove_clock < i32::MAX,
        b.fullmove_number < i32::MAX,
    ensures
        r matches Some(m) ==> b.legal_move(m) && forall|x: Move| b.legal_move(x) ==> x == m,
        r is None ==> !(exists|m: Move| b.legal_move(m) && forall|x: Move| b.legal_move(x) ==> x == m),
{
    let mut temp_board = b.copy();
    proof {
        crate::fen::lemma_consistent_congruent(temp_board, *b);
        lemma_same_setup_of(*b, temp_board);
        assert forall|x: Move| b.legal_move(x) == temp_board.legal_move(x) by {
            lemma_legal_same_setup(*b, temp_board, x);
        }
    }
    let mut legal_moves = MoveList::new();
    temp_board.generate_legal_moves(&mut legal_moves);
    if legal_moves.len() == 1 {
        let m = legal_moves.moves[0];
        proof {
            assert forall|x: Move| b.legal_move(x) implies x == m by {
                assert(legal_moves@.contains(x));
            }
        }
        Some(m)
    } else {
        proof {
            if exists|m: Move| b.legal_move(m) && forall|x: Move| b.legal_move(x) ==> x == m {
                let m = choose|m: Move| b.legal_move(m) && forall|x: Move| b.legal_move(x) ==> x == m;
                assert(legal_moves@.contains(m));
                if legal_moves@.len() == 0 {
                    assert(false);
                } else {
                    assert forall|i: int| 0 <= i < legal_moves@.len() implies legal_moves@[i] == m by {
                        assert(b.legal_move(legal_moves@[i]));
                    }
                    assert(legal_moves@[0] == legal_moves@[1]);
                }
            }
        }
        None
    }
}

/// `a` holds what `make_move(m)` leaves of `b`: the mailbox, side to move, castling
/// rights and en-passant square after the pseudo-legal move `m`.
pub open spec fn plays(b: Board, m: Move, a: Board) -> bool {
    &&& b.pseudo_legal(m)
    &&& a.piece_on@ == b.after_squares(m)
    &&& a.turn == b.turn.spec_other()
    &&& a.castle == crate::makemove::rights_after(b.castle, b.piece_on[m.from as int], m.from as int, m.to as int, m.capture)
    &&& a.en_passant_sq == b.after_ep(m)
}

/// The positions `bs` follow each other by the moves of `moves` from `bs[0]`.
pub open spec fn line_through(bs: Seq<Board>, moves: Seq<Move>) -> bool {
    &&& bs.len() == moves.len() + 1
    &&& forall|i: int| 0 <= i < moves.len() ==> #[trigger] plays(bs[i], moves[i], bs[i + 1])
}

/// What a line of play takes from a table entry's best move `best` in `b`: the
/// move when it is pseudo-legal there, else nothing (the line stops).
pub open spec fn pv_pick(b: Board, best: Option<Move>) -> Option<Move> {
    match best {
        Some(m) => if b.pseudo_legal(m) {
            Some(m)
        } else {
            None
        },
        None => None,
    }
}

/// The next move of a line in `b` from the table's best move `best` there.
pub fn pv_next(b: &Board, best: Option<Move>) -> (r: Option<Move>)
    requires
        b.bb_wf(),
    ensures
        r == pv_pick(*b, best),
{
    match best {
        Some(m) => {
            if b.is_pseudo_legal(m) {
                Some(m)
            } else {
                None
            }
        },
        None => None,
    }
}

/// Each move of `pv` is what `pv_pick` takes from the entry `es[i]`, which carries
/// the key of the position `bs[i]` that the move is played in, and each is played
/// from a position whose move counters are still short of their limit.
pub open spec fn from_table(bs: Seq<Board>, es: Seq<crate::tt::TTEntry>, pv: Seq<Move>) -> bool {
    &&& es.len() == pv.len()
    &&& forall|i: int| 0 <= i < pv.len() ==> (#[trigger] es[i]).key == bs[i].zobrist && pv_pick(bs[i], es[i].spec_best_move()) == Some(pv[i])
    &&& forall|i: int| 0 <= i < pv.len() ==> counters_short(#[trigger] bs[i])
}

/// Both move counters are short of the limit at which a line from the table stops.
pub open spec fn counters_short(b: Board) -> bool {
    b.halfmove_clock < i32::MAX - 1 && b.fullmove_number < i32::MAX - 1
}

/// The principal variation stored in the table from `pos`: follows the stored best
/// moves while they are pseudo-legal, for at most `max_len` moves, and stops early
/// when a move counter is about to run out.
pub fn get_pv_from_tt(pos: Board, tt: &SharedTransTable, max_len: usize) -> (pv: Vec<Move>)
    requires
        pos.wf(),
        pos.consistent(),
    ensures
        pv@.len() <= max_len,
        forall|i: int| 0 <= i < pv@.len() ==> sane_move(#[trigger] pv@[i]),
        exists|bs: Seq<Board>, es: Seq<crate::tt::TTEntry>| #[trigger] line_through(bs, pv@) && bs[0] == pos && #[trigger] from_table(bs, es, pv@),
{
    let ghost p0 = pos;
    let mut pos = pos;
    let mut pv: Vec<Move> = Vec::new();
    let mut i: usize = 0;
    let ghost mut bs: Seq<Board> = seq![p0];
    let ghost mut es: Seq<crate::tt::TTEntry> = Seq::empty();
    while i < max_len
        invariant
            i <= max_len,
            pv@.len() == i,
            pos.wf(),
            pos.consistent(),
            forall|k: int| 0 <= k < pv@.len() ==> sane_move(#[trigger] pv@[k]),
            line_through(bs, pv@),
            from_table(bs, es, pv@),
            bs[0] == p0,
            bs.last() == pos,
        decreases max_len - i,
    {
        if pos.halfmove_clock >= i32::MAX - 1 || pos.fullmove_number >= i32::MAX - 1 {
            break;
        }
        let entry = match tt.probe(pos.zobrist) {
            Some(e) => e,
            None => {
                break;
            },
        };
        proof {
            lemma_decoded_is_sane(crate::tt::data_code(entry.data));
        }
        let m = match pv_next(&pos, entry.best_move()) {
            Some(m) => m,
            None => {
                break;
            },
        };
        proof {
            if m.double_push && pos.turn == Color::Black {
                assert(m.from >= 8);
            }
        }
        let ghost b0 = pos;
        let ghost pv0 = pv@;
        pv.push(m);
        pos.make_move(m);
        proof {
            lemma_make_keeps_consistent(b0, pos, m);
            let bs0 = bs;
            bs = bs.push(pos);
            assert(plays(b0, m, pos));
            let es0 = es;
            es = es.push(entry);
            assert forall|k: int| 0 <= k < pv@.len() implies (#[trigger] es[k]).key == bs[k].zobrist && pv_pick(bs[k], es[k].spec_best_move()) == Some(pv@[k]) by {
                if k < pv0.len() {
                    assert(bs[k] == bs0[k] && pv@[k] == pv0[k] && es[k] == es0[k]);
                } else {
                    assert(bs[k] == b0);
                }
            }
            assert forall|k: int| 0 <= k < pv@.len() implies counters_short(#[trigger] bs[k]) by {
                if k < pv0.len() {
                    assert(bs[k] == bs0[k]);
                } else {
                    assert(bs[k] == b0);
                }
            }
            assert forall|k: int| 0 <= k < pv@.len() implies #[trigger] plays(bs[k], pv@[k], bs[k + 1]) by {
                if k < pv0.len() {
                    assert(bs[k] == bs0[k] && bs[k + 1] == bs0[k + 1] && pv@[k] == pv0[k]);
                }
            }
        }
        i = i + 1;
    }
    proof {
        assert(line_through(bs, pv@));
        assert(from_table(bs, es, pv@));
    }
    pv
}


/// A score as UCI reports it: mate in a number of moves (negative when being
/// mated), or centipawns.
#[derive(Copy, Clone, Debug, PartialEq, Eq, Structural)]
pub enum UciScore {
    Mate(i32),
    Cp(i32),
}

/// The report of `score`: past the mate threshold, mate in
/// `(MATE_SCORE - |score| + 1) / 2` moves (division truncating), signed as the
/// score; else the centipawns themselves.
pub open spec fn score_report(score: i32) -> UciScore {
    let a: int = if score < 0 { -score } else { score as int };
    if a > MATE_THRESHOLD {
        let n = crate::nnue::tdiv(MATE_SCORE - a + 1, 2);
        UciScore::Mate((if score > 0 { n } else { -n }) as i32)
    } else {
        UciScore::Cp(score)
    }
}

/// How UCI reports a search score.
pub fn uci_score(score: i32) -> (r: UciScore)
    requires
        bounded(score),
    ensures
        r == score_report(score),
{
    let a = if score < 0 {
        -score
    } else {
        score
    };
    if a > MATE_THRESHOLD {
        let n = (MATE_SCORE - a + 1) / 2;
        UciScore::Mate(if score > 0 {
            n
        } else {
            -n
        })
    } else {
        UciScore::Cp(score)
    }
}


/// What one finished iteration of iterative deepening reports.
#[derive(Copy, Clone, Debug)]
pub struct DepthReport {
    pub depth: usize,
    pub seldepth: usize,
    pub score: i32,
    pub nodes: u64,
    pub elapsed_ms: u64,
    pub best_move: Option<Move>,
}

/// Iterative deepening over a search: depth 1, 2, ... up to `max_depth`, each
/// iteration from the score of the last, until the clock, a mate score or the
/// depth limit ends it. The caller reports each iteration as it finishes.
pub struct Deepening<'a> {
    search: Search<'a>,
    next: usize,
    max_depth: usize,
    best: Option<Move>,
    score: i32,
    finished: bool,
}

impl<'a> Deepening<'a> {
    pub closed spec fn inv(&self) -> bool {
        &&& self.search.inv()
        &&& self.search.depth_from_root() == 0
        &&& bounded(self.score)
        &&& self.next >= 1
        &&& usable(self.best)
    }

    pub closed spec fn done(&self) -> bool {
        self.finished || self.next > self.max_depth || self.next > MAX_SEARCH_DEPTH as usize
    }

    /// The depth the next iteration searches.
    pub closed spec fn next_depth(&self) -> usize {
        self.next
    }

    pub closed spec fn best(&self) -> Option<Move> {
        self.best
    }

    pub closed spec fn position(&self) -> Board {
        self.search.position()
    }

    /// A check of the hard limit has told the search to stop.
    pub closed spec fn stop_seen(&self) -> bool {
        self.search.stop_seen()
    }

    /// The search being deepened.
    pub fn search(&self) -> (s: &Search<'a>)
        ensures
            s.position() == self.position(),
    {
        &self.search
    }

    /// Deepening that starts at depth 1 with no best move.
    pub fn new(search: Search<'a>, max_depth: usize) -> (r: Deepening<'a>)
        requires
            search.inv(),
            search.depth_from_root() == 0,
        ensures
            r.inv(),
            r.next_depth() == 1,
            r.best() is None,
            r.position() == search.position(),
    {
        Deepening { search, next: 1, max_depth, best: None, score: 0, finished: false }
    }

    /// Runs the next iteration, if deepening has not ended: searches its depth,
    /// takes the table's best move for the root when the table holds the root,
    /// and ends deepening when the search says to stop. Returns the iteration's
    /// report; `None` once deepening has ended.
    pub fn step(&mut self) -> (r: Option<DepthReport>)
        requires
            old(self).inv(),
        ensures
            final(self).inv(),
            restored_but_accumulator(old(self).position(), final(self).position()),
            acc_fresh(old(self).position()) ==> final(self).position().accumulator == old(self).position().accumulator,
            old(self).done() ==> r is None && final(self).best() == old(self).best(),
            !old(self).done() ==> (r matches Some(rep) && rep.depth == old(self).next_depth() && final(self).next_depth()
                == old(self).next_depth() + 1 && rep.best_move == final(self).best()),
            r matches Some(rep) ==> usable(rep.best_move) && bounded(rep.score),
            r matches Some(rep) ==> rep.best_move == old(self).best() || exists|e: crate::tt::TTEntry|
                e.key == final(self).position().zobrist && rep.best_move == e.spec_best_move(),
            r matches Some(rep) ==> (no_safe_move(old(self).position()) ==> rep.score == no_move_score(
                old(self).position(),
                0,
            ) || (rep.score == 0 && final(self).stop_seen())),
    {
        if self.finished || self.next > self.max_depth || self.next > MAX_SEARCH_DEPTH as usize {
            proof {
                crate::fen::lemma_consistent_congruent(self.search.position(), self.search.position());
            }
            return None;
        }
        let d = self.next;
        let (score, best) = self.search.search_depth(d as i32, self.score);
        match best {
            Some(m) => {
                self.best = m;
            },
            None => {},
        }
        self.score = score;
        let stop = self.search.should_stop(d, self.best, score);
        self.finished = stop;
        self.next = d + 1;
        Some(DepthReport {
            depth: d,
            seldepth: self.search.seldepth(),
            score,
            nodes: self.search.nodes(),
            elapsed_ms: self.search.elapsed_ms(),
            best_move: self.best,
        })
    }

    /// The best move found so far.
    pub fn best_move(&self) -> (r: Option<Move>)
        ensures
            r == self.best(),
    {
        self.best
    }

    /// Nodes searched so far.
    pub fn nodes(&self) -> (n: u64)
        ensures
            n == self.node_count(),
    {
        self.search.nodes()
    }

    pub closed spec fn node_count(&self) -> u64 {
        self.search.node_count()
    }
}

} // verus!
