use chess::board::Board;
use chess::movepicker::{MovePicker, QMovePicker};
use chess::types::{Move, MoveList};

fn drain(b: &Board, mut p: MovePicker) -> Vec<Move> {
    let history = [[0i32; 64]; 13];
    let mut out = Vec::new();
    while let Some(m) = p.next(b, &history) {
        out.push(m);
    }
    out
}

#[test]
fn picker_hands_out_every_move_once() {
    let b = Board::from_fen("r1bqkbnr/pppp1ppp/2n5/4p3/3PP3/5N2/PPP2PPP/RNBQKB1R b KQkq - 0 3").unwrap();
    let got = drain(&b, MovePicker::new(None, None, None, None));
    let mut all = MoveList::new();
    b.generate_pseudo_legal_moves(&mut all);
    assert_eq!(got.len(), all.len());
    for m in all.as_slice() {
        assert_eq!(got.iter().filter(|x| *x == m).count(), 1);
    }
}

#[test]
fn picker_starts_with_the_table_move_and_captures() {
    let b = Board::from_fen("r1bqkbnr/pppp1ppp/2n5/4p3/3PP3/5N2/PPP2PPP/RNBQKB1R b KQkq - 0 3").unwrap();
    let tt = Move::quiet(62, 45);
    let killer = Move::quiet(48, 40);
    let got = drain(&b, MovePicker::new(Some(tt), Some(killer), None, None));
    assert_eq!(got[0], tt);
    // e5xd4 wins a pawn and comes before any quiet move
    assert!(got[1].capture);
    let first_quiet = got.iter().skip(1).position(|m| !m.capture).unwrap() + 1;
    assert_eq!(got[first_quiet], killer);
    assert_eq!(got.iter().filter(|x| **x == tt).count(), 1);
    assert_eq!(got.iter().filter(|x| **x == killer).count(), 1);
}

#[test]
fn a_table_move_that_cannot_be_played_is_skipped() {
    let b = Board::from_fen("4k3/8/8/8/8/8/8/4K3 w - - 0 1").unwrap();
    let got = drain(&b, MovePicker::new(Some(Move::quiet(0, 1)), None, None, None));
    assert_eq!(got.len(), 5);
    assert!(!got.contains(&Move::quiet(0, 1)));
}

#[test]
fn quiescence_picker_hands_out_the_captures() {
    let b = Board::from_fen("4k3/8/3p4/4p3/3P4/8/8/4K3 w - - 0 1").unwrap();
    let mut q = QMovePicker::new();
    let mut got = Vec::new();
    while let Some(m) = q.next(&b) {
        got.push(m);
    }
    assert_eq!(got.len(), 1);
    assert!(got[0].capture);
    assert_eq!((got[0].from, got[0].to), (27, 36));
}

#[test]
fn picker_starts_with_the_pawn_pushes_in_order_at_the_start() {
    let b = Board::from_fen("rnbqkbnr/pppppppp/8/8/8/8/PPPPPPPP/RNBQKBNR w KQkq - 0 1").unwrap();
    let got = drain(&b, MovePicker::new(None, None, None, None));
    assert_eq!(got.len(), 20);
    let t = Move { from: 12, to: 28, capture: false, en_passant: false, double_push: true, castle: false, promotion: None };
    let got = drain(&b, MovePicker::new(Some(t), None, None, None));
    assert_eq!(got[0], t);
    assert_eq!(got.iter().filter(|x| **x == t).count(), 1);
    assert_eq!(got.len(), 20);
}

#[test]
fn winning_captures_come_best_first() {
    // White can take the queen on d5 with the pawn or the knight, or a pawn on h7.
    let b = Board::from_fen("4k3/7p/8/3q4/4P3/2N5/8/4K2R w - - 0 1").unwrap();
    let got = drain(&b, MovePicker::new(None, None, None, None));
    assert!(got[0].capture && got[0].to == 35);
    assert!(got[1].capture && got[1].to == 35);
    assert!(got[2].capture && got[2].to == 55);
}

#[test]
fn a_finished_picker_stays_finished() {
    let b = Board::from_fen("4k3/8/8/8/8/8/8/4K3 w - - 0 1").unwrap();
    let history = [[0i32; 64]; 13];
    let mut p = MovePicker::new(None, None, None, None);
    while p.next(&b, &history).is_some() {}
    assert!(p.next(&b, &history).is_none());
}

#[test]
fn quiet_moves_come_in_generator_order_when_history_ties() {
    let b = Board::from_fen("rnbqkbnr/pppppppp/8/8/8/8/PPPPPPPP/RNBQKBNR w KQkq - 0 1").unwrap();
    let history = [[0i32; 64]; 13];
    let mut p = MovePicker::new(None, None, None, None);
    assert_eq!(p.next(&b, &history), Some(Move::quiet(8, 16)));
    let double = Move { from: 8, to: 24, capture: false, en_passant: false, double_push: true, castle: false, promotion: None };
    assert_eq!(p.next(&b, &history), Some(double));
}

#[test]
fn quiet_moves_come_best_history_first() {
    let b = Board::from_fen("rnbqkbnr/pppppppp/8/8/8/8/PPPPPPPP/RNBQKBNR w KQkq - 0 1").unwrap();
    let mut history = [[0i32; 64]; 13];
    // the white knight (index 2) to f3 and the white pawn (index 1) to e4
    history[2][21] = 500;
    history[1][28] = 300;
    let mut p = MovePicker::new(None, None, None, None);
    let first = p.next(&b, &history).unwrap();
    assert_eq!((first.from, first.to), (6, 21));
    let second = p.next(&b, &history).unwrap();
    assert_eq!((second.from, second.to), (12, 28));
}

#[test]
fn hints_come_killer_then_second_killer_then_counter_move() {
    let b = Board::from_fen("rnbqkbnr/pppppppp/8/8/8/8/PPPPPPPP/RNBQKBNR w KQkq - 0 1").unwrap();
    let history = [[0i32; 64]; 13];
    let k1 = Move::quiet(6, 21);
    let k2 = Move::quiet(1, 18);
    let cm = Move::quiet(11, 19);
    let got = drain_with(&b, MovePicker::new(None, Some(k1), Some(k2), Some(cm)), &history);
    assert_eq!(&got[0..3], &[k1, k2, cm]);
    assert_eq!(got.len(), 20);
}

fn drain_with(b: &Board, mut p: MovePicker, history: &[[i32; 64]; 13]) -> Vec<Move> {
    let mut out = Vec::new();
    while let Some(m) = p.next(b, history) {
        out.push(m);
    }
    out
}
