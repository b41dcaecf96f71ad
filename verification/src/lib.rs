use vstd::prelude::*;

pub mod bits;
pub mod board;
pub mod clock;
pub mod fen;
pub mod fen_laws;
pub mod fen_out;
pub mod game_runner;
pub mod legality;
pub mod magics;
pub mod makemove;
pub mod movegen;
pub mod movepicker;
pub mod nnue;
pub mod nnue_laws;
pub mod opening_book;
pub mod perft;
pub mod san;
pub mod search;
pub mod see;
pub mod text;
pub mod time;
pub mod tournament;
pub mod tt;
pub mod uci;
pub mod types;
pub mod uci_io;
pub mod zobrist;

verus! {
} // verus!
