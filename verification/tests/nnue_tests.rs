use chess::board::Board;
use chess::nnue::{evaluate, refresh_accumulator, Model, NnueError};
use chess::types::MoveList;
use std::sync::atomic::AtomicBool;
use std::sync::Arc;

fn test_model() -> &'static Model {
    let mut x: u64 = 0x9E37_79B9_7F4A_7C15;
    let mut next = move || {
        x ^= x << 13;
        x ^= x >> 7;
        x ^= x << 17;
        x
    };
    let ft_weights: Vec<i16> = (0..10502144).map(|_| next() as i16).collect();
    let ft_biases: Vec<i16> = (0..256).map(|_| next() as i16).collect();
    let hl1_weights: Vec<i8> = (0..512 * 32).map(|_| next() as i8).collect();
    let hl1_biases: Vec<i32> = (0..32).map(|_| (next() % 1000) as i32).collect();
    let hl2_weights: Vec<i8> = (0..32 * 32).map(|_| next() as i8).collect();
    let hl2_biases: Vec<i32> = (0..32).map(|_| (next() % 1000) as i32).collect();
    let out_weights: Vec<i8> = (0..32).map(|_| next() as i8).collect();
    Box::leak(Box::new(Model {
        ft_weights,
        ft_biases,
        hl1_weights,
        hl1_biases,
        hl2_weights,
        hl2_biases,
        out_weights,
        out_bias: 17,
    }))
}

#[test]
fn incremental_accumulator_matches_refresh() {
    let model = test_model();
    for fen in [
        "r3k2r/p1ppqpb1/bn2pnp1/3PN3/1p2P3/2N2Q1p/PPPBBPPP/R3K2R w KQkq - 0 1",
        "rnbqkbnr/ppp1pppp/8/3pP3/8/8/PPPP1PPP/RNBQKBNR w KQkq d6 0 3",
        "r3k2r/Pppp1ppp/1b3nbN/nP6/BBP1P3/q4N2/Pp1P2PP/R2Q1RK1 w kq - 0 1",
    ] {
        let mut b = Board::from_fen(fen).unwrap();
        b.attach_model(Some(model));
        let mut moves = MoveList::new();
        b.generate_legal_moves(&mut moves);
        for &m in moves.as_slice() {
            let before = b.accumulator;
            let u = b.make_move(m);
            let fresh = refresh_accumulator(&b);
            assert_eq!(b.accumulator.white, fresh.white);
            assert_eq!(b.accumulator.black, fresh.black);
            b.unmake_move(m, u);
            assert_eq!(b.accumulator.white, before.white);
            assert_eq!(b.accumulator.black, before.black);
        }
    }
}

#[test]
fn evaluation_without_a_network_is_zero() {
    let b = Board::from_fen("rnbqkbnr/pppppppp/8/8/8/8/PPPPPPPP/RNBQKBNR w KQkq - 0 1").unwrap();
    assert_eq!(evaluate(&b), 0);
}

#[test]
fn evaluation_is_bounded() {
    let model = test_model();
    let mut b = Board::from_fen("rnbqkbnr/pppppppp/8/8/8/8/PPPPPPPP/RNBQKBNR w KQkq - 0 1").unwrap();
    b.attach_model(Some(model));
    let e = evaluate(&b);
    assert!(-10_400_000 <= e && e <= 10_400_000);
}

#[test]
fn short_network_files_are_refused() {
    match Model::from_bytes(&[1, 2, 3]) {
        Err(NnueError::IoError(_)) => {}
        _ => panic!("a short file must be refused"),
    }
    let mut bytes = vec![0u8; 16];
    bytes[8] = 0;
    match Model::from_bytes(&bytes) {
        Err(NnueError::IoError(_)) | Err(NnueError::ValueError(_)) => {}
        _ => panic!("a file without parameters must be refused"),
    }
}

#[test]
fn legal_move_generation_gives_the_accumulator_back() {
    let model = test_model();
    let mut b = Board::from_fen("r3k2r/p1ppqpb1/bn2pnp1/3PN3/1p2P3/2N2Q1p/PPPBBPPP/R3K2R w KQkq - 0 1").unwrap();
    b.attach_model(Some(model));
    let before = b.accumulator;
    let mut moves = MoveList::new();
    b.generate_legal_moves(&mut moves);
    assert_eq!(b.accumulator.white, before.white);
    assert_eq!(b.accumulator.black, before.black);
}

#[test]
fn a_search_gives_the_accumulator_back() {
    let model = test_model();
    let mut b = Board::from_fen("r3k2r/p1ppqpb1/bn2pnp1/3PN3/1p2P3/2N2Q1p/PPPBBPPP/R3K2R w KQkq - 0 1").unwrap();
    b.attach_model(Some(model));
    let before = b.accumulator;
    let tt = chess::tt::SharedTransTable::new(1);
    let lmr = chess::search::LmrTable::from_cells(vec![0i32; 65536]).unwrap();
    let s = chess::search::Search::new(&b, &tt, 60_000, 90_000, Arc::new(AtomicBool::new(false)), true, lmr);
    let mut deep = chess::search::Deepening::new(s, 2);
    deep.step().unwrap();
    deep.step().unwrap();
    let after = deep.search().board().accumulator;
    assert_eq!(after.white, before.white);
    assert_eq!(after.black, before.black);
}
