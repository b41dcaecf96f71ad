use chess::board::Board;
use chess::game_runner::{GameConfig, GameEndReason, GameOutcome, GameResult, GameState};
use chess::opening_book::{get_book_move, BookEntry, OpeningBook, Rng};
use chess::tournament::{
    e1_plays_white, engine_name, needs_single_thread, parse_option, result_text, Score,
};
use chess::types::{Move, MoveList, PieceKind, START_FEN};

fn config(fen: Option<&str>, max_moves: usize) -> GameConfig {
    GameConfig {
        base_time_ms: 1000,
        increment_ms: 10,
        max_moves,
        start_fen: fen.map(|s| s.to_string()),
    }
}

#[test]
fn a_game_starts_from_the_given_position() {
    let s = GameState::new(&config(None, 10)).ok().unwrap();
    assert_eq!(s.board.to_fen(), START_FEN);
    assert_eq!((s.wtime, s.btime, s.ply), (1000, 1000, 0));
    let bad = GameState::new(&config(Some("garbage"), 10));
    let o = bad.err().unwrap();
    assert_eq!(o, GameOutcome { result: GameResult::Draw, reason: GameEndReason::EngineCrash, move_count: 0 });
}

#[test]
fn checkmate_and_stalemate_end_the_game() {
    // Fool's mate: white is mated.
    let mut s = GameState::new(&config(
        Some("rnb1kbnr/pppp1ppp/8/4p3/6Pq/5P2/PPPPP2P/RNBQKBNR w KQkq - 1 3"),
        100,
    ))
    .ok()
    .unwrap();
    let o = s.end_check(100).unwrap();
    assert_eq!(o.result, GameResult::BlackWin);
    assert_eq!(o.reason, GameEndReason::Checkmate);
    let mut s = GameState::new(&config(Some("7k/5Q2/6K1/8/8/8/8/8 b - - 0 1"), 100)).ok().unwrap();
    let o = s.end_check(100).unwrap();
    assert_eq!(o.result, GameResult::Draw);
    assert_eq!(o.reason, GameEndReason::Stalemate);
}

#[test]
fn fifty_moves_and_the_move_limit_end_the_game() {
    let mut s = GameState::new(&config(Some("8/8/8/4k3/8/8/8/R3K3 w - - 100 80"), 300)).ok().unwrap();
    assert_eq!(s.end_check(300).unwrap().reason, GameEndReason::FiftyMoveRule);
    let mut s = GameState::new(&config(None, 0)).ok().unwrap();
    assert_eq!(s.end_check(0).unwrap().reason, GameEndReason::MoveLimitExceeded);
    let mut s = GameState::new(&config(None, 10)).ok().unwrap();
    assert_eq!(s.end_check(10), None);
}

#[test]
fn repetition_ends_the_game() {
    let mut s = GameState::new(&config(None, 100)).ok().unwrap();
    for mv in ["g1f3", "g8f6", "f3g1", "f6g8", "g1f3", "g8f6", "f3g1", "f6g8", "g1f3"] {
        assert_eq!(s.end_check(100), None);
        assert_eq!(s.apply_reply(mv, 0, 0), None);
    }
    let o = s.end_check(100).unwrap();
    assert_eq!(o.reason, GameEndReason::Repetition);
    assert_eq!(o.move_count, 9);
}

#[test]
fn replies_are_refereed() {
    let mut s = GameState::new(&config(None, 100)).ok().unwrap();
    assert_eq!(s.apply_reply("e2e4", 100, 10), None);
    assert_eq!(s.wtime, 910);
    assert_eq!(s.moves, vec!["e2e4".to_string()]);
    let o = s.apply_reply("e7e4", 5, 10).unwrap();
    assert_eq!(o, GameOutcome { result: GameResult::WhiteWin, reason: GameEndReason::IllegalMove, move_count: 1 });
    let mut s = GameState::new(&config(None, 100)).ok().unwrap();
    let o = s.apply_reply("e2e4", 1000, 10).unwrap();
    assert_eq!(o.reason, GameEndReason::FlagFall);
    assert_eq!(o.result, GameResult::BlackWin);
    let mut s = GameState::new(&config(None, 100)).ok().unwrap();
    let o = s.apply_reply("(none)", 1, 10).unwrap();
    assert_eq!(o.reason, GameEndReason::IllegalMove);
    assert_eq!(s.forfeit(GameEndReason::EngineCrash).result, GameResult::BlackWin);
}

#[test]
fn reasons_read_as_words() {
    assert_eq!(GameEndReason::FiftyMoveRule.to_text(), "50-move rule");
    assert_eq!(GameEndReason::FlagFall.to_text(), "flag fall");
    assert_eq!(result_text(GameResult::Draw), "1/2-1/2");
    assert_eq!(result_text(GameResult::BlackWin), "0-1");
}

#[test]
fn options_parse_as_name_value() {
    assert_eq!(parse_option(" Threads = 4 "), Ok(("Threads".to_string(), "4".to_string())));
    assert_eq!(parse_option("a=b=c"), Ok(("a".to_string(), "b=c".to_string())));
    assert_eq!(
        parse_option("Hash"),
        Err("Invalid option 'Hash', expected Name=Value".to_string())
    );
}

#[test]
fn engine_names_and_colours() {
    assert_eq!(engine_name("/usr/local/bin/stockfish"), "stockfish");
    assert_eq!(engine_name("engine"), "engine");
    assert_eq!(engine_name("dir/"), "");
    assert!(e1_plays_white(0));
    assert!(!e1_plays_white(3));
    let opts = vec![("threads".to_string(), "2".to_string())];
    assert!(!needs_single_thread(&opts));
    assert!(needs_single_thread(&vec![("Hash".to_string(), "2".to_string())]));
}

#[test]
fn the_score_counts_each_game_once() {
    let mut s = Score::new();
    s.record(GameOutcome { result: GameResult::WhiteWin, reason: GameEndReason::Checkmate, move_count: 40 }, true);
    s.record(GameOutcome { result: GameResult::WhiteWin, reason: GameEndReason::FlagFall, move_count: 20 }, false);
    s.record(GameOutcome { result: GameResult::Draw, reason: GameEndReason::Repetition, move_count: 60 }, false);
    assert_eq!((s.e1_wins, s.e2_wins, s.draws, s.completed), (1, 1, 1, 3));
    assert_eq!((s.e1_wins_as_white, s.e2_wins_as_black, s.draws_e1_black), (1, 1, 1));
    assert_eq!((s.checkmates, s.flag_falls, s.repetitions), (1, 1, 1));
    assert_eq!((s.total_plies, s.shortest_game, s.longest_game), (120, 20, 60));
    assert_eq!(s.games_by_colour(), (1, 2));
}

#[test]
fn book_moves_decode_castling_and_promotion() {
    let e = BookEntry { key: 1, raw_move: (4 << 6) | 7, weight: 1, _learn: 0 };
    let m = e.to_move().unwrap();
    assert_eq!((m.from, m.to, m.castle), (4, 6, true));
    let e = BookEntry { key: 1, raw_move: (4 << 12) | (52 << 6) | 60, weight: 1, _learn: 0 };
    let m = e.to_move().unwrap();
    assert_eq!((m.from, m.to, m.promotion), (52, 60, Some(PieceKind::Queen)));
    let e = BookEntry { key: 1, raw_move: (12 << 6) | 28, weight: 1, _learn: 0 };
    assert_eq!(e.to_move().unwrap(), Move::quiet(12, 28));
}

fn record(key: u64, raw: u16, weight: u16) -> Vec<u8> {
    let mut v = key.to_be_bytes().to_vec();
    v.extend_from_slice(&raw.to_be_bytes());
    v.extend_from_slice(&weight.to_be_bytes());
    v.extend_from_slice(&0u32.to_be_bytes());
    v
}

#[test]
fn books_read_and_find_entries() {
    let mut bytes = record(5, (12 << 6) | 28, 3);
    bytes.extend(record(7, (6 << 6) | 21, 0));
    bytes.extend(record(7, (1 << 6) | 18, 0));
    bytes.extend(record(9, (11 << 6) | 27, 1));
    bytes.extend([1u8, 2, 3]);
    let book = OpeningBook::from_bytes(&bytes);
    assert_eq!(book.entries.len(), 4);
    assert_eq!(book.entries[1].key, 7);
    assert_eq!(book.entries[0].weight, 3);
    assert_eq!(book.find_entries(7).len(), 2);
    assert_eq!(book.find_entries(6).len(), 0);
    let mut rng = Rng::new();
    assert_eq!(get_book_move(&book, 7, &mut rng), Some("g1f3".to_string()));
    assert_eq!(rng.0, Rng::new().0);
    assert_eq!(get_book_move(&book, 5, &mut rng), Some("e2e4".to_string()));
    assert_eq!(get_book_move(&book, 8, &mut rng), None);
}

#[test]
fn the_generator_steps_as_xorshift() {
    let mut r = Rng::new();
    let mut x: u64 = 0x1234_5678_9ABC_DEF0;
    x ^= x >> 12;
    x ^= x << 25;
    x ^= x >> 27;
    assert_eq!(r.rand(), x.wrapping_mul(0x2545_F491_4F6C_DD1D));
    assert_eq!(r.0, x);
}

#[test]
fn san_names_moves() {
    let mut b = Board::from_fen("r3k2r/p1ppqpb1/bn2pnp1/3PN3/1p2P3/2N2Q1p/PPPBBPPP/R3K2R w KQkq - 0 1").unwrap();
    let mut legal = MoveList::new();
    b.generate_legal_moves(&mut legal);
    let names: Vec<String> = legal.as_slice().iter().map(|&m| b.to_san(m, legal.as_slice())).collect();
    assert!(names.contains(&"O-O".to_string()));
    assert!(names.contains(&"O-O-O".to_string()));
    assert!(names.contains(&"dxe6".to_string()));
    assert!(names.contains(&"Qxf6".to_string()));
    assert!(names.contains(&"Ng4".to_string()));
    let mut b = Board::from_fen("rnbqkbnr/pppp1ppp/8/4p3/6P1/5P2/PPPPP2P/RNBQKBNR b KQkq - 0 2").unwrap();
    let mut legal = MoveList::new();
    b.generate_legal_moves(&mut legal);
    let mate = legal.as_slice().iter().copied().find(|m| m.from == 59 && m.to == 31).unwrap();
    assert_eq!(b.to_san(mate, legal.as_slice()), "Qh4#");
}

#[test]
fn typed_moves_are_read_in_either_notation() {
    let mut b = Board::from_fen(START_FEN).unwrap();
    let mut legal = MoveList::new();
    b.generate_legal_moves(&mut legal);
    let m = chess::san::read_user_move(&mut b, "Nf3", &legal).unwrap();
    assert_eq!((m.from, m.to), (6, 21));
    let m = chess::san::read_user_move(&mut b, "e2e4", &legal).unwrap();
    assert_eq!((m.from, m.to), (12, 28));
    assert!(chess::san::read_user_move(&mut b, "Ke2", &legal).is_none());
}

#[test]
fn fen_is_written_back() {
    for fen in [
        START_FEN,
        "r3k2r/p1ppqpb1/bn2pnp1/3PN3/1p2P3/2N2Q1p/PPPBBPPP/R3K2R w KQkq - 0 1",
        "rnbqkbnr/ppp1pppp/8/3pP3/8/8/PPPP1PPP/RNBQKBNR w KQkq d6 0 3",
        "8/2p5/3p4/KP5r/1R3p1k/8/4P1P1/8 b - - 12 40",
    ] {
        let b = Board::from_fen(fen).unwrap();
        assert_eq!(b.to_fen(), fen);
    }
}
