use chess::board::Board;
use std::sync::atomic::AtomicBool;
use std::sync::Arc;
use chess::search::{soft_verdict, uci_score, UciScore, MATE_SCORE};
use chess::see::see;
use chess::tt::{Bound, TTEntry, TransTable};
use chess::types::{Move, MoveList};

#[test]
fn scores_are_reported_as_mates_or_centipawns() {
    assert_eq!(uci_score(35), UciScore::Cp(35));
    assert_eq!(uci_score(-120), UciScore::Cp(-120));
    assert_eq!(uci_score(MATE_SCORE - 1), UciScore::Mate(1));
    assert_eq!(uci_score(MATE_SCORE - 4), UciScore::Mate(2));
    assert_eq!(uci_score(-(MATE_SCORE - 2)), UciScore::Mate(-1));
}

#[test]
fn the_clock_verdict() {
    // hard limit passed
    assert!(soft_verdict(400, 100, 400, 150, 3, 5));
    // soft limit passed, best move just changed, extension left
    assert!(!soft_verdict(120, 100, 400, 150, 0, 5));
    // soft limit passed, extension used up
    assert!(soft_verdict(160, 100, 400, 150, 0, 5));
    // soft limit passed, stable best move
    assert!(soft_verdict(120, 100, 400, 150, 2, 5));
    // before the soft limit: deep, stable, past half of it
    assert!(soft_verdict(60, 100, 400, 150, 4, 9));
    assert!(!soft_verdict(60, 100, 400, 150, 4, 8));
    assert!(!soft_verdict(40, 100, 400, 150, 4, 9));
}

#[test]
fn entries_read_back_what_was_packed() {
    let m = Move::quiet(12, 28);
    let e = TTEntry::new(0xABCD, 7, -345, Bound::Lower, Some(m), 3);
    assert_eq!(e.key, 0xABCD);
    assert_eq!(e.depth(), 7);
    assert_eq!(e.score(), -345);
    assert_eq!(e.bound(), Bound::Lower);
    assert_eq!(e.best_move(), Some(m));
    assert_eq!(e.age(), 3);
    let e = TTEntry::new(1, 1, 0, Bound::Exact, None, 0);
    assert_eq!(e.best_move(), None);
}

#[test]
fn a_stored_entry_is_found_again() {
    let mut t = TransTable::with_mb(1);
    let m = Move::quiet(6, 21);
    assert!(t.probe(0x1234_5678).is_none());
    t.store(0x1234_5678, 5, 42, Bound::Exact, Some(m));
    let e = t.probe(0x1234_5678).unwrap();
    assert_eq!((e.depth(), e.score(), e.best_move()), (5, 42, Some(m)));
    t.clear();
    assert!(t.probe(0x1234_5678).is_none());
}

#[test]
fn exchanges_are_valued() {
    // White pawn takes a pawn defended by a pawn: wins a pawn, loses a pawn.
    let mut b = Board::from_fen("4k3/8/3p4/4p3/3P4/8/8/4K3 w - - 0 1").unwrap();
    let mut legal = MoveList::new();
    b.generate_legal_moves(&mut legal);
    let cap = legal.as_slice().iter().copied().find(|m| m.capture).unwrap();
    assert_eq!(see(&b, cap), 0);
    // Rook takes a pawn defended by a pawn.
    let mut b = Board::from_fen("4k3/8/3p4/4p3/8/8/8/4R1K1 w - - 0 1").unwrap();
    let mut legal = MoveList::new();
    b.generate_legal_moves(&mut legal);
    let cap = legal.as_slice().iter().copied().find(|m| m.capture).unwrap();
    assert_eq!(see(&b, cap), -400);
}

fn zero_lmr() -> chess::search::LmrTable {
    chess::search::LmrTable::from_cells(vec![0i32; 65536]).unwrap()
}

fn first_report(fen: &str) -> chess::search::DepthReport {
    let b = Board::from_fen(fen).unwrap();
    let tt = chess::tt::SharedTransTable::new(1);
    let s = chess::search::Search::new(&b, &tt, 60_000, 90_000, Arc::new(AtomicBool::new(false)), true, zero_lmr());
    let mut deep = chess::search::Deepening::new(s, 1);
    deep.step().unwrap()
}

#[test]
fn stalemate_scores_as_a_draw() {
    let rep = first_report("7k/5Q2/6K1/8/8/8/8/8 b - - 0 1");
    assert_eq!(rep.score, 0);
}

#[test]
fn checkmate_scores_as_mate() {
    let rep = first_report("rnb1kbnr/pppp1ppp/8/4p3/6Pq/5P2/PPPPP2P/RNBQKBNR w KQkq - 1 3");
    assert_eq!(rep.score, -MATE_SCORE);
}

#[test]
fn a_fresh_table_gives_no_line() {
    let b = Board::from_fen("rnbqkbnr/pppppppp/8/8/8/8/PPPPPPPP/RNBQKBNR w KQkq - 0 1").unwrap();
    let tt = chess::tt::SharedTransTable::new(1);
    assert!(chess::search::get_pv_from_tt(b, &tt, 10).is_empty());
    assert_eq!(tt.hashfull_permill(), 0);
}

#[test]
fn the_line_follows_the_stored_best_moves() {
    let b = Board::from_fen("rnbqkbnr/pppppppp/8/8/8/8/PPPPPPPP/RNBQKBNR w KQkq - 0 1").unwrap();
    let tt = chess::tt::SharedTransTable::new(1);
    let e4 = Move { from: 12, to: 28, capture: false, en_passant: false, double_push: true, castle: false, promotion: None };
    tt.store(b.zobrist, 3, 20, Bound::Exact, Some(e4));
    let mut after = b.clone();
    after.make_move(e4);
    let e5 = Move { from: 52, to: 36, capture: false, en_passant: false, double_push: true, castle: false, promotion: None };
    tt.store(after.zobrist, 2, -20, Bound::Exact, Some(e5));
    assert_eq!(chess::search::get_pv_from_tt(b.clone(), &tt, 10), vec![e4, e5]);
    assert_eq!(chess::search::get_pv_from_tt(b, &tt, 1), vec![e4]);
    // a stored move that cannot be played ends the line
    let tt2 = chess::tt::SharedTransTable::new(1);
    let b2 = Board::from_fen("rnbqkbnr/pppppppp/8/8/8/8/PPPPPPPP/RNBQKBNR w KQkq - 0 1").unwrap();
    tt2.store(b2.zobrist, 3, 20, Bound::Exact, Some(Move::quiet(0, 8)));
    assert!(chess::search::get_pv_from_tt(b2, &tt2, 10).is_empty());
}

#[test]
fn fill_per_thousand() {
    assert_eq!(chess::tt::permill_of(0, 0), 0);
    assert_eq!(chess::tt::permill_of(1, 4), 250);
    assert_eq!(chess::tt::permill_of(3, 7), 428);
    assert_eq!(chess::tt::permill_of(7, 7), 1000);
}
