use chess::board::Board;
use chess::perft::{perft, perft_divide};
use chess::types::{Move, MoveList, PieceKind};

fn move_key(m: &Move) -> (u8, u8, bool, bool, bool, bool, Option<PieceKind>) {
    (m.from, m.to, m.capture, m.en_passant, m.double_push, m.castle, m.promotion)
}

fn assert_split_equals_all(fen: &str) {
    let b = Board::from_fen(fen).unwrap();

    let mut all = MoveList::new();
    b.generate_pseudo_legal_moves(&mut all);

    let mut caps = MoveList::new();
    b.generate_captures(&mut caps);

    let mut quiets = MoveList::new();
    b.generate_quiets(&mut quiets);

    let mut all_sorted: Vec<_> = all.as_slice().iter().map(move_key).collect();
    all_sorted.sort();

    let mut split_sorted: Vec<_> = caps
        .as_slice()
        .iter()
        .chain(quiets.as_slice().iter())
        .map(move_key)
        .collect();
    split_sorted.sort();

    assert_eq!(
        all_sorted, split_sorted,
        "Split mismatch for FEN: {}.\n all={} captures={} quiets={}",
        fen,
        all.len(),
        caps.len(),
        quiets.len()
    );
}

#[test]
fn test_split_generators_startpos() {
    assert_split_equals_all("rnbqkbnr/pppppppp/8/8/8/8/PPPPPPPP/RNBQKBNR w KQkq - 0 1");
}

#[test]
fn test_split_generators_kiwipete() {
    assert_split_equals_all(
        "r3k2r/p1ppqpb1/bn2pnp1/3PN3/1p2P3/2N2Q1p/PPPBBPPP/R3K2R w KQkq - 0 1",
    );
}

#[test]
fn test_split_generators_position3() {
    assert_split_equals_all("8/2p5/3p4/KP5r/1R3p1k/8/4P1P1/8 w - - 0 1");
}

#[test]
fn test_split_generators_position4() {
    assert_split_equals_all(
        "r3k2r/Pppp1ppp/1b3nbN/nP6/BBP1P3/q4N2/Pp1P2PP/R2Q1RK1 w kq - 0 1",
    );
}

#[test]
fn test_split_generators_position5() {
    assert_split_equals_all("rnbq1k1r/pp1Pbppp/2p5/8/2B5/8/PPP1NnPP/RNBQK2R w KQ - 1 8");
}

#[test]
fn test_split_generators_en_passant() {
    assert_split_equals_all("rnbqkbnr/ppp1pppp/8/3pP3/8/8/PPPP1PPP/RNBQKBNR w KQkq d6 0 3");
}

/// Counts the leaf positions of the legal move tree to `depth`.
#[test]
fn perft_startpos_depth_3() {
    let mut b = Board::from_fen("rnbqkbnr/pppppppp/8/8/8/8/PPPPPPPP/RNBQKBNR w KQkq - 0 1").unwrap();
    assert_eq!(perft(&mut b, 1), 20);
    assert_eq!(perft(&mut b, 2), 400);
    assert_eq!(perft(&mut b, 3), 8902);
}

#[test]
fn perft_kiwipete_depth_2() {
    let mut b = Board::from_fen(
        "r3k2r/p1ppqpb1/bn2pnp1/3PN3/1p2P3/2N2Q1p/PPPBBPPP/R3K2R w KQkq - 0 1",
    )
    .unwrap();
    assert_eq!(perft(&mut b, 1), 48);
    assert_eq!(perft(&mut b, 2), 2039);
}

#[test]
fn perft_position3_depth_3() {
    let mut b = Board::from_fen("8/2p5/3p4/KP5r/1R3p1k/8/4P1P1/8 w - - 0 1").unwrap();
    assert_eq!(perft(&mut b, 1), 14);
    assert_eq!(perft(&mut b, 2), 191);
    assert_eq!(perft(&mut b, 3), 2812);
}

#[test]
fn perft_position4_depth_2() {
    let mut b = Board::from_fen(
        "r3k2r/Pppp1ppp/1b3nbN/nP6/BBP1P3/q4N2/Pp1P2PP/R2Q1RK1 w kq - 0 1",
    )
    .unwrap();
    assert_eq!(perft(&mut b, 1), 6);
    assert_eq!(perft(&mut b, 2), 264);
}

#[test]
fn perft_position5_depth_2() {
    let mut b = Board::from_fen("rnbq1k1r/pp1Pbppp/2p5/8/2B5/8/PPP1NnPP/RNBQK2R w KQ - 1 8").unwrap();
    assert_eq!(perft(&mut b, 1), 44);
    assert_eq!(perft(&mut b, 2), 1486);
}

#[test]
fn make_unmake_restores_position() {
    let mut b = Board::from_fen("r3k2r/p1ppqpb1/bn2pnp1/3PN3/1p2P3/2N2Q1p/PPPBBPPP/R3K2R w KQkq - 0 1").unwrap();
    let before = b.clone();
    let mut moves = MoveList::new();
    b.generate_pseudo_legal_moves(&mut moves);
    for &m in moves.as_slice() {
        let u = b.make_move(m);
        b.unmake_move(m, u);
        assert_eq!(b.piece_on, before.piece_on);
        assert_eq!(b.piece_bb, before.piece_bb);
        assert_eq!(b.zobrist, before.zobrist);
        assert_eq!(b.castle, before.castle);
        assert_eq!(b.en_passant_sq, before.en_passant_sq);
        assert_eq!(b.history, before.history);
    }
}

#[test]
fn bad_fen_is_refused() {
    assert!(Board::from_fen("").is_err());
    assert!(Board::from_fen("8/8/8 w - - 0 1").is_err());
    assert!(Board::from_fen("rnbqkbnr/pppppppp/8/8/8/8/PPPPPPPP/RNBQKBNR x KQkq - 0 1").is_err());
    assert!(Board::from_fen("rnbqkbnr/pppppppp/9/8/8/8/PPPPPPPP/RNBQKBNR w KQkq - 0 1").is_err());
    assert!(Board::from_fen("rnbqkbnr/pppppppp/8/8/8/8/PPPPPPPP/RNBQKBNR w KQkq e9 0 1").is_err());
    // two white kings
    assert!(Board::from_fen("K6K/8/8/8/8/8/8/7k w - - 0 1").is_err());
}

#[test]
fn divide_sums_to_perft() {
    let mut b = Board::from_fen("r3k2r/p1ppqpb1/bn2pnp1/3PN3/1p2P3/2N2Q1p/PPPBBPPP/R3K2R w KQkq - 0 1").unwrap();
    let parts = perft_divide(&mut b, 2);
    assert_eq!(parts.len(), 48);
    assert_eq!(parts.iter().map(|p| p.1).sum::<u64>(), 2039);
}

#[test]
fn null_move_is_undone() {
    let mut b = Board::from_fen("rnbqkbnr/ppp1pppp/8/3pP3/8/8/PPPP1PPP/RNBQKBNR w KQkq d6 0 3").unwrap();
    let before = b.to_fen();
    let key = b.zobrist;
    let u = b.make_null_move();
    assert_ne!(b.to_fen(), before);
    b.unmake_null_move(u);
    assert_eq!(b.to_fen(), before);
    assert_eq!(b.zobrist, key);
}

#[test]
fn pawn_captures_do_not_wrap_around_the_edge() {
    let b = chess::board::Board::from_fen("4k3/n7/8/7P/8/8/8/4K3 w - - 0 1").unwrap();
    let wrap = chess::types::Move {
        from: 39,
        to: 48,
        capture: true,
        en_passant: false,
        double_push: false,
        castle: false,
        promotion: None,
    };
    assert!(!b.is_pseudo_legal(wrap));
}

#[test]
fn promotions_come_queen_rook_bishop_knight() {
    let b = Board::from_fen("4k3/P7/8/8/8/8/8/4K3 w - - 0 1").unwrap();
    let mut caps = MoveList::new();
    b.generate_captures(&mut caps);
    let kinds: Vec<Option<PieceKind>> = caps.as_slice().iter().map(|m| m.promotion).collect();
    assert_eq!(
        kinds,
        vec![Some(PieceKind::Queen), Some(PieceKind::Rook), Some(PieceKind::Bishop), Some(PieceKind::Knight)]
    );
    for m in caps.as_slice() {
        assert_eq!((m.from, m.to, m.capture, m.en_passant, m.double_push, m.castle), (48, 56, false, false, false, false));
    }
}

#[test]
fn legal_moves_keep_the_generator_order() {
    let mut b = Board::from_fen("4k3/8/8/8/8/8/3r4/4K3 w - - 0 1").unwrap();
    let mut pseudo = MoveList::new();
    b.generate_pseudo_legal_moves(&mut pseudo);
    let mut legal = MoveList::new();
    b.generate_legal_moves(&mut legal);
    let mut it = pseudo.as_slice().iter();
    for m in legal.as_slice() {
        assert!(it.any(|x| x == m));
    }
    assert!(legal.len() < pseudo.len());
}

#[test]
fn moves_come_pawns_first_then_knights_at_the_start() {
    let b = Board::from_fen("rnbqkbnr/pppppppp/8/8/8/8/PPPPPPPP/RNBQKBNR w KQkq - 0 1").unwrap();
    let mut all = MoveList::new();
    b.generate_pseudo_legal_moves(&mut all);
    let s = all.as_slice();
    assert_eq!(s.len(), 20);
    for m in &s[0..16] {
        assert!(8 <= m.from && m.from < 16);
    }
    for m in &s[16..20] {
        assert!(m.from == 1 || m.from == 6);
    }
}
