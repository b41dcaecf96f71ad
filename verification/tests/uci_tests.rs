use chess::board::Board;
use chess::time::TimeControl;
use chess::types::{Color, START_FEN};
use chess::uci::{
    extract_i64, parse_command, parse_go, parse_position, parse_setoption, play_uci_move,
    set_position, time_to_use, CommandKind, PositionBase, UciOptions,
};
use chess::types::MoveList;
use chess::uci_io::{format_uci, parse_uci_move};

#[test]
fn extract_finds_number_after_key() {
    assert_eq!(extract_i64("go wtime 1000 btime 2000", "btime"), Some(2000));
    assert_eq!(extract_i64("go WTIME 1000", "wtime"), Some(1000));
    assert_eq!(extract_i64("go wtime abc", "wtime"), None);
    assert_eq!(extract_i64("go depth -3", "depth"), Some(-3));
    assert_eq!(extract_i64("go", "depth"), None);
}

#[test]
fn setoption_splits_name_and_value() {
    assert_eq!(
        parse_setoption("name Hash value 128"),
        Some(("Hash".to_string(), "128".to_string()))
    );
    assert_eq!(
        parse_setoption("name Ponder VALUE true"),
        Some(("Ponder".to_string(), "VALUE true".to_string()))
    );
    assert_eq!(
        parse_setoption("name Clear Hash"),
        Some(("Clear Hash".to_string(), String::new()))
    );
    assert_eq!(parse_setoption("value 3"), None);
}

#[test]
fn commands_are_recognised() {
    assert_eq!(parse_command("  UCI \n").kind, CommandKind::Uci);
    assert_eq!(parse_command("isready").kind, CommandKind::IsReady);
    assert_eq!(parse_command("ucinewgame").kind, CommandKind::UciNewGame);
    let c = parse_command("setoption name Hash value 64");
    assert_eq!(c.kind, CommandKind::SetOption);
    assert_eq!(c.arg, "name Hash value 64");
    let c = parse_command("position startpos moves e2e4");
    assert_eq!(c.kind, CommandKind::Position);
    assert_eq!(c.arg, "startpos moves e2e4");
    let c = parse_command("go depth 5");
    assert_eq!(c.kind, CommandKind::Go);
    assert_eq!(c.arg, " depth 5");
    assert_eq!(parse_command("stop").kind, CommandKind::Stop);
    assert_eq!(parse_command("ponderhit").kind, CommandKind::PonderHit);
    assert_eq!(parse_command("quit").kind, CommandKind::Quit);
    assert_eq!(parse_command("hello").kind, CommandKind::Unknown);
}

#[test]
fn go_arguments_are_read() {
    let g = parse_go(" wtime 60000 btime 50000 winc 1000 binc 500 movestogo 20");
    assert!(!g.ponder && !g.infinite);
    assert_eq!(g.depth, 128);
    assert_eq!((g.wtime, g.btime, g.winc, g.binc, g.movestogo), (60000, 50000, 1000, 500, 20));
    assert_eq!(g.movetime, None);
    let g = parse_go(" depth 0 infinite");
    assert!(g.infinite);
    assert_eq!(g.depth, 1);
    assert_eq!(g.helper_depth(), 1);
    let g = parse_go(" depth 300 ponder movetime 250");
    assert!(g.ponder);
    assert_eq!(g.depth, 300);
    assert_eq!(g.helper_depth(), 128);
    assert_eq!(g.movetime, Some(250));
}

#[test]
fn time_to_use_follows_the_arguments() {
    let mut tc = TimeControl::default();
    let g = parse_go(" movetime 250");
    assert_eq!(time_to_use(&g, &mut tc, Color::White), 250);
    let g = parse_go(" movetime -5");
    assert_eq!(time_to_use(&g, &mut tc, Color::White), 0);
    let g = parse_go(" infinite");
    assert_eq!(time_to_use(&g, &mut tc, Color::White), u64::MAX / 4);
    let g = parse_go(" wtime 60000 btime 30000");
    assert_eq!(time_to_use(&g, &mut tc, Color::White), 2999);
    assert_eq!(tc.wtime, 60000);
    assert_eq!(tc.btime, 30000);
    let g = parse_go("");
    assert_eq!(time_to_use(&g, &mut tc, Color::Black), 10);
}

#[test]
fn allocation_with_moves_to_go() {
    let tc = TimeControl { wtime: 10_000, btime: 0, winc: 100, binc: 0, movestogo: 8, move_overhead_ms: 0 };
    // time left 9990, divided by 10, plus the increment
    assert_eq!(tc.allocation_ms(Color::White), (1099, 4396));
    assert_eq!(tc.allocation_ms(Color::Black), (10, 50));
}

#[test]
fn options_are_applied() {
    let mut o = UciOptions { hash_mb: 256, threads: 1, ponder: false };
    assert!(o.set("hash", "64"));
    assert_eq!(o.hash_mb, 64);
    assert!(!o.set("Hash", "64"));
    assert!(!o.set("Hash", "5000"));
    assert_eq!(o.hash_mb, 64);
    assert!(!o.set("Threads", "8"));
    assert_eq!(o.threads, 8);
    assert!(!o.set("Threads", "0"));
    assert_eq!(o.threads, 8);
    o.set("Ponder", "ON");
    assert!(o.ponder);
    o.set("Ponder", "no");
    assert!(!o.ponder);
    o.set("Other", "1");
    assert_eq!((o.hash_mb, o.threads, o.ponder), (64, 8, false));
}

#[test]
fn position_requests_are_read() {
    let r = parse_position("startpos moves e2e4 e7e5");
    assert_eq!(r.base, PositionBase::Startpos);
    assert_eq!(r.moves, vec!["e2e4".to_string(), "e7e5".to_string()]);
    let r = parse_position("fen 8/8/8/8/8/8/8/K6k w - - 0 1 MOVES a1a2");
    assert_eq!(r.base, PositionBase::Fen);
    assert_eq!(r.fen, "8/8/8/8/8/8/8/K6k w - - 0 1");
    assert_eq!(r.moves, vec!["a1a2".to_string()]);
    let r = parse_position("fen 8/8/8/8/8/8/8/K6k b - - 0 1");
    assert_eq!(r.fen, "8/8/8/8/8/8/8/K6k b - - 0 1");
    assert!(r.moves.is_empty());
    let r = parse_position("nonsense");
    assert_eq!(r.base, PositionBase::Keep);
}

#[test]
fn position_plays_the_listed_moves() {
    let mut b = Board::from_fen(START_FEN).unwrap();
    let r = parse_position("startpos moves e2e4 e7e5 g1f3 zzzz");
    set_position(&mut b, &r);
    assert_eq!(
        b.to_fen(),
        "rnbqkbnr/pppp1ppp/8/4p3/4P3/5N2/PPPP1PPP/RNBQKB1R b KQkq - 1 2"
    );
    let r = parse_position("fen not a fen");
    set_position(&mut b, &r);
    assert_eq!(b.to_fen(), START_FEN);
}

#[test]
fn play_uci_move_refuses_illegal_moves() {
    let mut b = Board::from_fen(START_FEN).unwrap();
    assert_eq!(play_uci_move(&mut b, "e2e5"), None);
    assert_eq!(b.to_fen(), START_FEN);
    let m = play_uci_move(&mut b, "e2e4").unwrap();
    assert_eq!(format_uci(m), "e2e4");
    assert_eq!(b.turn, Color::Black);
}

#[test]
fn written_moves_read_back() {
    for fen in [
        "r3k2r/p1ppqpb1/bn2pnp1/3PN3/1p2P3/2N2Q1p/PPPBBPPP/R3K2R w KQkq - 0 1",
        "r3k2r/Pppp1ppp/1b3nbN/nP6/BBP1P3/q4N2/Pp1P2PP/R2Q1RK1 w kq - 0 1",
    ] {
        let mut b = Board::from_fen(fen).unwrap();
        let mut legal = MoveList::new();
        b.generate_legal_moves(&mut legal);
        for &m in legal.as_slice() {
            assert_eq!(parse_uci_move(&mut b, &format_uci(m)), Some(m));
        }
    }
}

#[test]
fn white_space_is_what_std_calls_white_space() {
    for u in 0u32..0x3100 {
        if let Some(c) = char::from_u32(u) {
            let text: Vec<char> = vec!['a', c, 'b'];
            let parts = chess::text::split_whitespace(&text);
            if c.is_whitespace() {
                assert_eq!(parts, vec![vec!['a'], vec!['b']], "{:x}", u);
            } else {
                assert_eq!(parts, vec![vec!['a', c, 'b']], "{:x}", u);
            }
        }
    }
}
