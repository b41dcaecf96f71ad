//! Move-path counting (perft), the standard check of a move generator.
use vstd::prelude::*;
use crate::board::Board;
use crate::makemove::{lemma_bb_determined, lemma_generated_is_sane, rights_after};
use crate::movegen::{distinct, lemma_generated_is_pseudo_legal};
use crate::movepicker::{lemma_legal_same_setup, lemma_same_setup_of, same_setup};
use crate::search::{restored_but_accumulator, take_back, try_move};
use crate::types::{Color, Move, MoveList, Piece};

verus! {

/// `l` lists the legal moves of `b`, each once.
pub open spec fn lists_legal(b: Board, l: Seq<Move>) -> bool {
    &&& distinct(l)
    &&& forall|m: Move| l.contains(m) <==> b.legal_move(m)
}

/// What move generation reads of a position: the squares, the side to move, the
/// castling rights and the en-passant square.
pub open spec fn setup_key(b: Board) -> (Seq<Piece>, Color, u8, i32) {
    (b.piece_on@, b.turn, b.castle, b.en_passant_sq)
}

/// A position that the move functions accept, with the setup `k`.
pub open spec fn board_with(k: (Seq<Piece>, Color, u8, i32)) -> Board {
    choose|b: Board| b.wf() && b.consistent() && setup_key(b) == k
}

/// The legal moves of the setup `k`, each once, in some order.
pub open spec fn legal_list(k: (Seq<Piece>, Color, u8, i32)) -> Seq<Move> {
    choose|l: Seq<Move>| lists_legal(board_with(k), l)
}

/// The setup that the move `m` leads to from the setup `k`.
pub open spec fn child_key(k: (Seq<Piece>, Color, u8, i32), m: Move) -> (Seq<Piece>, Color, u8, i32) {
    let b = board_with(k);
    (
        b.after_squares(m),
        b.turn.spec_other(),
        rights_after(b.castle, b.piece_on[m.from as int], m.from as int, m.to as int, m.capture),
        b.after_ep(m),
    )
}

/// The number of legal move sequences of `d` plies from the setup `k`.
pub open spec fn paths(k: (Seq<Piece>, Color, u8, i32), d: nat) -> nat
    decreases d, 0nat,
{
    if d == 0 {
        1
    } else {
        paths_over(k, legal_list(k), (d - 1) as nat)
    }
}

/// The number of legal move sequences that start with a move of `l` from the setup
/// `k` and go on for `d` more plies.
pub open spec fn paths_over(k: (Seq<Piece>, Color, u8, i32), l: Seq<Move>, d: nat) -> nat
    decreases d, l.len() + 1,
{
    if l.len() == 0 {
        0
    } else {
        paths_over(k, l.drop_last(), d) + paths(child_key(k, l.last()), d)
    }
}

/// Taking one move out of a list takes its term out of the count.
proof fn lemma_over_remove(k: (Seq<Piece>, Color, u8, i32), l: Seq<Move>, j: int, d: nat)
    requires
        0 <= j < l.len(),
    ensures
        paths_over(k, l, d) == paths_over(k, l.remove(j), d) + paths(child_key(k, l[j]), d),
    decreases l.len(),
{
    if j == l.len() - 1 {
        assert(l.remove(j) =~= l.drop_last());
    } else {
        let r = l.remove(j);
        lemma_over_remove(k, l.drop_last(), j, d);
        assert(r.drop_last() =~= l.drop_last().remove(j));
        assert(r.last() == l.last());
    }
}

/// Two lists that hold the same moves, each once, give the same count.
proof fn lemma_over_perm(k: (Seq<Piece>, Color, u8, i32), l1: Seq<Move>, l2: Seq<Move>, d: nat)
    requires
        distinct(l1),
        distinct(l2),
        forall|m: Move| l1.contains(m) <==> l2.contains(m),
    ensures
        paths_over(k, l1, d) == paths_over(k, l2, d),
    decreases l1.len(),
{
    if l1.len() == 0 {
        if l2.len() > 0 {
            assert(l2.contains(l2[0]));
        }
    } else {
        let x = l1.last();
        assert(l1.contains(x));
        let j = choose|j: int| 0 <= j < l2.len() && l2[j] == x;
        let r1 = l1.drop_last();
        let r2 = l2.remove(j);
        lemma_over_remove(k, l2, j, d);
        assert(r2.len() == l2.len() - 1);
        assert forall|t: int| 0 <= t < r2.len() implies #[trigger] r2[t] == (if t < j { l2[t] } else { l2[t + 1] }) by {}
        assert forall|m: Move| r1.contains(m) <==> r2.contains(m) by {
            if r1.contains(m) {
                let i = choose|i: int| 0 <= i < r1.len() && r1[i] == m;
                assert(l1[i] == m);
                assert(l1[i] != l1[l1.len() - 1]);
                assert(l1.contains(m));
                let i2 = choose|i2: int| 0 <= i2 < l2.len() && l2[i2] == m;
                assert(i2 != j);
                if i2 < j {
                    assert(r2[i2] == m);
                } else {
                    assert(r2[i2 - 1] == m);
                }
            }
            if r2.contains(m) {
                let i = choose|i: int| 0 <= i < r2.len() && r2[i] == m;
                let i2 = if i < j { i } else { i + 1 };
                assert(l2[i2] == m);
                assert(i2 != j);
                assert(l2.contains(m));
                let i1 = choose|i1: int| 0 <= i1 < l1.len() && l1[i1] == m;
                assert(i1 != l1.len() - 1);
                assert(r1[i1] == m);
            }
        }
        assert(distinct(r2)) by {
            assert forall|p: int, q: int| 0 <= p < r2.len() && 0 <= q < r2.len() && p != q implies r2[p] != r2[q] by {
                let pp = if p < j { p } else { p + 1 };
                let qq = if q < j { q } else { q + 1 };
                assert(r2[p] == l2[pp] && r2[q] == l2[qq]);
            }
        }
        lemma_over_perm(k, r1, r2, d);
    }
}

/// The count over the first `i + 1` moves adds the count below move `i`.
proof fn lemma_over_step(k: (Seq<Piece>, Color, u8, i32), l: Seq<Move>, i: int, d: nat)
    requires
        0 <= i < l.len(),
    ensures
        paths_over(k, l.take(i + 1), d) == paths_over(k, l.take(i), d) + paths(child_key(k, l[i]), d),
{
    assert(l.take(i + 1).drop_last() =~= l.take(i));
}

/// With no plies to go, each move counts once.
proof fn lemma_over_last_ply(k: (Seq<Piece>, Color, u8, i32), l: Seq<Move>)
    ensures
        paths_over(k, l, 0) == l.len(),
    decreases l.len(),
{
    if l.len() > 0 {
        lemma_over_last_ply(k, l.drop_last());
        assert(paths(child_key(k, l.last()), 0) == 1);
    }
}

/// Positions with the same setup key have the same setup.
proof fn lemma_key_setup(a: Board, b: Board)
    requires
        a.bb_wf(),
        b.bb_wf(),
        setup_key(a) == setup_key(b),
    ensures
        same_setup(a, b),
{
    lemma_bb_determined(a, b);
    lemma_same_setup_of(a, b);
}

/// The representative of a position's setup shares its setup, and the generated
/// list of legal moves has the representative's sum.
proof fn lemma_representative(b: Board, l: Seq<Move>)
    requires
        b.wf(),
        b.consistent(),
        lists_legal(b, l),
    ensures
        board_with(setup_key(b)).wf(),
        board_with(setup_key(b)).consistent(),
        same_setup(board_with(setup_key(b)), b),
        lists_legal(board_with(setup_key(b)), legal_list(setup_key(b))),
        forall|d: nat| paths(setup_key(b), d + 1) == #[trigger] paths_over(setup_key(b), l, d),
{
    let k = setup_key(b);
    let w = board_with(k);
    assert(b.wf() && b.consistent() && setup_key(b) == k);
    lemma_key_setup(w, b);
    assert forall|m: Move| l.contains(m) <==> w.legal_move(m) by {
        lemma_legal_same_setup(w, b, m);
    }
    assert(lists_legal(w, l));
    let ll = legal_list(k);
    assert forall|m: Move| ll.contains(m) <==> l.contains(m) by {}
    assert forall|d: nat| paths(k, d + 1) == #[trigger] paths_over(k, l, d) by {
        lemma_over_perm(k, ll, l, d);
    }
}

/// The setup a position reaches by a move is the child of its setup.
proof fn lemma_child_key(b: Board, a: Board, m: Move)
    requires
        b.wf(),
        b.consistent(),
        a.piece_on@ == b.after_squares(m),
        a.turn == b.turn.spec_other(),
        a.castle == rights_after(b.castle, b.piece_on[m.from as int], m.from as int, m.to as int, m.capture),
        a.en_passant_sq == b.after_ep(m),
    ensures
        setup_key(a) == child_key(setup_key(b), m),
{
    let w = board_with(setup_key(b));
    assert(b.wf() && b.consistent() && setup_key(b) == setup_key(b));
    lemma_key_setup(w, b);
    assert(w.piece_on == b.piece_on);
    assert(w.after_squares(m) == b.after_squares(m));
}

/// The number of legal move sequences of `depth` plies from `b`, that is
/// `paths(setup_key(b), depth)`, as a sum that wraps at 64 bits. The board comes
/// back as it was.
pub fn perft(b: &mut Board, depth: usize) -> (n: u64)
    requires
        old(b).wf(),
        old(b).consistent(),
        old(b).halfmove_clock + depth < i32::MAX,
        old(b).fullmove_number + depth < i32::MAX,
    ensures
        restored_but_accumulator(*old(b), *final(b)),
        n as int == paths(setup_key(*old(b)), depth as nat) % 0x1_0000_0000_0000_0000,
        depth == 0 ==> n == 1,
        depth == 1 ==> exists|l: Seq<Move>| lists_legal(*old(b), l) && n == l.len(),
    decreases depth,
{
    let ghost b0 = *b;
    let ghost k0 = setup_key(b0);
    if depth == 0 {
        proof {
            crate::fen::lemma_consistent_congruent(*b, *b);
        }
        return 1;
    }
    let mut moves = MoveList::new();
    b.generate_legal_moves(&mut moves);
    proof {
        crate::fen::lemma_consistent_congruent(*b, b0);
        lemma_same_setup_of(b0, *b);
        assert forall|m: Move| moves@.contains(m) <==> b0.legal_move(m) by {
            if moves@.contains(m) {
                let i = choose|i: int| 0 <= i < moves@.len() && moves@[i] == m;
                assert(b0.legal_move(moves@[i]));
            }
        }
        assert(lists_legal(b0, moves@));
        lemma_representative(b0, moves@);
    }
    let ghost d1 = (depth - 1) as nat;
    proof {
        assert(paths(k0, d1 + 1) == paths_over(k0, moves@, d1));
    }
    if depth == 1 {
        proof {
            lemma_over_last_ply(k0, moves@);
        }
        return moves.len() as u64;
    }
    let list = moves.as_slice();
    let mut total: u64 = 0;
    let mut i: usize = 0;
    proof {
        assert(moves@.take(0) =~= Seq::<Move>::empty());
        assert(paths(k0, depth as nat) == paths(k0, d1 + 1));
    }
    while i < list.len()
        invariant
            i <= list@.len(),
            list@ == moves@,
            forall|k: int| 0 <= k < moves@.len() ==> b0.legal_move(#[trigger] moves@[k]),
            restored_but_accumulator(b0, *b),
            b0 == *old(b),
            k0 == setup_key(b0),
            d1 == depth - 1,
            paths(k0, depth as nat) == paths_over(k0, moves@, d1),
            total as int == paths_over(k0, moves@.take(i as int), d1) % 0x1_0000_0000_0000_0000,
            b0.wf(),
            b0.consistent(),
            b0.halfmove_clock + depth < i32::MAX,
            b0.fullmove_number + depth < i32::MAX,
            depth >= 2,
        decreases list@.len() - i,
    {
        let m = list[i];
        proof {
            assert(b0.legal_move(moves@[i as int]));
            lemma_generated_is_pseudo_legal(b0, m);
            lemma_generated_is_sane(b0, m);
            lemma_same_setup_of(b0, *b);
            lemma_legal_same_setup(b0, *b, m);
            lemma_generated_is_pseudo_legal(*b, m);
            lemma_over_step(k0, moves@, i as int, d1);
        }
        let ghost before = *b;
        match try_move(b, m) {
            Some(u) => {
                let ghost a = *b;
                proof {
                    lemma_child_key(before, a, m);
                    assert(setup_key(before) == k0);
                }
                let sub = perft(b, depth - 1);
                take_back(b, m, u, Ghost(before), Ghost(a));
                proof {
                    crate::fen::lemma_consistent_congruent(*b, b0);
                    let big: int = 0x1_0000_0000_0000_0000;
                    let s = paths_over(k0, moves@.take(i as int), d1);
                    let p = paths(child_key(k0, m), d1);
                    vstd::arithmetic::div_mod::lemma_add_mod_noop(s as int, p as int, big);
                }
                total = total.wrapping_add(sub);
            },
            None => {},
        }
        i = i + 1;
    }
    proof {
        assert(moves@.take(moves@.len() as int) =~= moves@);
    }
    total
}

/// The perft count below each legal move of `b`, in the generator's order, for
/// `depth` plies in all (at least one): every legal move once, each with
/// `paths` of the setup it leads to, wrapped at 64 bits.
pub fn perft_divide(b: &mut Board, depth: usize) -> (r: Vec<(Move, u64)>)
    requires
        old(b).wf(),
        old(b).consistent(),
        old(b).halfmove_clock + depth < i32::MAX,
        old(b).fullmove_number + depth < i32::MAX,
        depth >= 1,
    ensures
        restored_but_accumulator(*old(b), *final(b)),
        lists_legal(*old(b), r@.map_values(|e: (Move, u64)| e.0)),
        forall|k: int| 0 <= k < r@.len() ==> (#[trigger] r@[k]).1 as int == paths(
            child_key(setup_key(*old(b)), r@[k].0),
            (depth - 1) as nat,
        ) % 0x1_0000_0000_0000_0000,
{
    let ghost b0 = *b;
    let ghost k0 = setup_key(b0);
    let mut moves = MoveList::new();
    b.generate_legal_moves(&mut moves);
    proof {
        crate::fen::lemma_consistent_congruent(*b, b0);
    }
    let list = moves.as_slice();
    let mut out: Vec<(Move, u64)> = Vec::new();
    let mut i: usize = 0;
    while i < list.len()
        invariant
            i <= list@.len(),
            list@ == moves@,
            forall|k: int| 0 <= k < moves@.len() ==> b0.legal_move(#[trigger] moves@[k]),
            forall|m: Move| b0.legal_move(m) ==> moves@.contains(m),
            distinct(moves@),
            out@.map_values(|e: (Move, u64)| e.0) == moves@.take(i as int),
            forall|k: int| 0 <= k < out@.len() ==> (#[trigger] out@[k]).1 as int == paths(
                child_key(k0, out@[k].0),
                (depth - 1) as nat,
            ) % 0x1_0000_0000_0000_0000,
            restored_but_accumulator(b0, *b),
            b0 == *old(b),
            k0 == setup_key(b0),
            b0.wf(),
            b0.consistent(),
            b0.halfmove_clock + depth < i32::MAX,
            b0.fullmove_number + depth < i32::MAX,
            depth >= 1,
        decreases list@.len() - i,
    {
        let m = list[i];
        proof {
            assert(b0.legal_move(moves@[i as int]));
            lemma_generated_is_pseudo_legal(b0, m);
            lemma_generated_is_sane(b0, m);
            lemma_same_setup_of(b0, *b);
            lemma_legal_same_setup(b0, *b, m);
            lemma_generated_is_pseudo_legal(*b, m);
        }
        let ghost before = *b;
        let ghost out0 = out@;
        match try_move(b, m) {
            Some(u) => {
                let ghost a = *b;
                proof {
                    lemma_child_key(before, a, m);
                    assert(setup_key(before) == k0);
                }
                let sub = perft(b, depth - 1);
                take_back(b, m, u, Ghost(before), Ghost(a));
                proof {
                    crate::fen::lemma_consistent_congruent(*b, b0);
                }
                out.push((m, sub));
                proof {
                    assert(out@.map_values(|e: (Move, u64)| e.0) =~= out0.map_values(|e: (Move, u64)| e.0).push(m));
                    assert(moves@.take(i as int + 1) =~= moves@.take(i as int).push(m));
                    assert forall|k: int| 0 <= k < out@.len() implies (#[trigger] out@[k]).1 as int == paths(
                        child_key(k0, out@[k].0),
                        (depth - 1) as nat,
                    ) % 0x1_0000_0000_0000_0000 by {
                        if k < out0.len() {
                            assert(out@[k] == out0[k]);
                        }
                    }
                }
            },
            None => {},
        }
        i = i + 1;
    }
    proof {
        assert(moves@.take(moves@.len() as int) =~= moves@);
        let l = out@.map_values(|e: (Move, u64)| e.0);
        assert(l == moves@);
        assert forall|m: Move| l.contains(m) <==> b0.legal_move(m) by {
            if l.contains(m) {
                let i = choose|i: int| 0 <= i < l.len() && l[i] == m;
                assert(b0.legal_move(moves@[i]));
            }
        }
    }
    out
}

/// The counts of a divide list added up.
pub open spec fn count_sum(r: Seq<(Move, u64)>) -> int
    decreases r.len(),
{
    if r.len() == 0 {
        0
    } else {
        count_sum(r.drop_last()) + r.last().1
    }
}

/// Counts that each agree, modulo 2^64, with the count below their move add up to the
/// count over the moves.
proof fn lemma_counts_add_up(k: (Seq<Piece>, Color, u8, i32), r: Seq<(Move, u64)>, d: nat)
    requires
        forall|i: int| 0 <= i < r.len() ==> (#[trigger] r[i]).1 as int == paths(child_key(k, r[i].0), d) % 0x1_0000_0000_0000_0000,
    ensures
        count_sum(r) % 0x1_0000_0000_0000_0000 == paths_over(k, r.map_values(|e: (Move, u64)| e.0), d) % 0x1_0000_0000_0000_0000,
    decreases r.len(),
{
    let l = r.map_values(|e: (Move, u64)| e.0);
    if r.len() > 0 {
        let r0 = r.drop_last();
        assert forall|i: int| 0 <= i < r0.len() implies (#[trigger] r0[i]).1 as int == paths(child_key(k, r0[i].0), d) % 0x1_0000_0000_0000_0000 by {
            assert(r0[i] == r[i]);
        }
        lemma_counts_add_up(k, r0, d);
        assert(l.drop_last() =~= r0.map_values(|e: (Move, u64)| e.0));
        let big: int = 0x1_0000_0000_0000_0000;
        let a = count_sum(r0);
        let p = paths(child_key(k, l.last()), d) as int;
        let c = paths_over(k, l.drop_last(), d) as int;
        assert(r.last().1 as int == p % big);
        vstd::arithmetic::div_mod::lemma_add_mod_noop(a, r.last().1 as int, big);
        vstd::arithmetic::div_mod::lemma_add_mod_noop(c, p, big);
        vstd::arithmetic::div_mod::lemma_mod_twice(p, big);
        vstd::arithmetic::div_mod::lemma_mod_twice(a, big);
        assert((a % big + r.last().1 as int % big) % big == (c % big + p % big) % big);
    }
}

/// The counts that `perft_divide` hands out add up, modulo 2^64, to the perft count
/// one ply deeper: a legal move list of `b` with the count below each move sums to
/// `paths(setup_key(b), d + 1)`.
pub proof fn lemma_divide_adds_up(b: Board, r: Seq<(Move, u64)>, d: nat)
    requires
        b.wf(),
        b.consistent(),
        lists_legal(b, r.map_values(|e: (Move, u64)| e.0)),
        forall|i: int| 0 <= i < r.len() ==> (#[trigger] r[i]).1 as int == paths(child_key(setup_key(b), r[i].0), d) % 0x1_0000_0000_0000_0000,
    ensures
        count_sum(r) % 0x1_0000_0000_0000_0000 == paths(setup_key(b), d + 1) % 0x1_0000_0000_0000_0000,
{
    lemma_representative(b, r.map_values(|e: (Move, u64)| e.0));
    lemma_counts_add_up(setup_key(b), r, d);
    assert(paths(setup_key(b), d + 1) == paths_over(setup_key(b), r.map_values(|e: (Move, u64)| e.0), d));
}

} // verus!
