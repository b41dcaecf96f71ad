//! The NNUE evaluation: a HalfKP feature transformer kept as an accumulator per
//! point of view, two dense layers with clipped ReLU, and one output neuron; and
//! the loader of the network file.
use vstd::prelude::*;
use byteorder::{ByteOrder, LittleEndian};
use crate::board::Board;
use crate::types::{Accumulator, Color, Piece, PieceKind, UpdateBody, NNUE_FEATURE_SIZE};

verus! {

pub const FT_INPUT_DIM: usize = 41024;

pub const HL1_INPUT_DIM: usize = 512;

pub const HL1_OUTPUT_DIM: usize = 32;

pub const HL2_OUTPUT_DIM: usize = 32;

/// Number of feature-transformer weights: one column of 256 per feature.
pub const FT_WEIGHT_COUNT: usize = 10502144;

/// The network's parameters.
pub struct Model {
    pub ft_weights: Vec<i16>,
    pub ft_biases: Vec<i16>,
    pub hl1_weights: Vec<i8>,
    pub hl1_biases: Vec<i32>,
    pub hl2_weights: Vec<i8>,
    pub hl2_biases: Vec<i32>,
    pub out_weights: Vec<i8>,
    pub out_bias: i32,
}

impl Model {
    /// Every parameter array has the size of its layer.
    pub open spec fn wf(&self) -> bool {
        &&& self.ft_weights@.len() == FT_WEIGHT_COUNT
        &&& self.ft_biases@.len() == 256
        &&& self.hl1_weights@.len() == 512 * 32
        &&& self.hl1_biases@.len() == 32
        &&& self.hl2_weights@.len() == 32 * 32
        &&& self.hl2_biases@.len() == 32
        &&& self.out_weights@.len() == 32
    }
}

/// Why a network file was refused.
pub enum NnueError {
    /// The data ended before a field; the message is what a short read reports.
    IoError(String),
    /// A field holds a value the format does not allow.
    ValueError(String),
    /// A network was already installed.
    AlreadyInitialized,
}

// ---------------------------------------------------------------- file format

/// Little-endian 32-bit number at `at`.
pub open spec fn le_u32(s: Seq<u8>, at: int) -> u32 {
    (s[at] as int + 256 * (s[at + 1] as int) + 65536 * (s[at + 2] as int) + 16777216 * (s[at
        + 3] as int)) as u32
}

/// Little-endian 16-bit signed number at `at`.
pub open spec fn le_i16(s: Seq<u8>, at: int) -> i16 {
    (s[at] as int + 256 * (s[at + 1] as int)) as u16 as i16
}

/// Little-endian 32-bit signed number at `at`.
pub open spec fn le_i32(s: Seq<u8>, at: int) -> i32 {
    le_u32(s, at) as i32
}

/// `byteorder`'s `LittleEndian::read_u32`: the first four bytes of `buf` as a
/// little-endian number.
#[verifier::external_body]
fn read_u32_le(buf: &[u8]) -> (r: u32)
    requires
        buf@.len() >= 4,
    ensures
        r == le_u32(buf@, 0),
{
    <LittleEndian as ByteOrder>::read_u32(buf)
}

/// `byteorder`'s `LittleEndian::read_i16_into`: `src` as `n` little-endian signed
/// 16-bit numbers.
#[verifier::external_body]
fn read_i16s_le(src: &[u8], n: usize) -> (v: Vec<i16>)
    requires
        src@.len() == 2 * n,
    ensures
        v@.len() == n,
        forall|k: int| 0 <= k < n ==> #[trigger] v@[k] == le_i16(src@, 2 * k),
{
    let mut v = vec![0i16; n];
    <LittleEndian as ByteOrder>::read_i16_into(src, &mut v);
    v
}

/// `byteorder`'s `LittleEndian::read_i32_into`: `src` as `n` little-endian signed
/// 32-bit numbers.
#[verifier::external_body]
fn read_i32s_le(src: &[u8], n: usize) -> (v: Vec<i32>)
    requires
        src@.len() == 4 * n,
    ensures
        v@.len() == n,
        forall|k: int| 0 <= k < n ==> #[trigger] v@[k] == le_i32(src@, 4 * k),
{
    let mut v = vec![0i32; n];
    <LittleEndian as ByteOrder>::read_i32_into(src, &mut v);
    v
}

/// The header word that the feature transformer must carry.
pub open spec fn expected_ft_hash() -> u32 {
    (0x5D69D5B9u32 ^ 1u32) ^ 512u32
}

/// Offsets of the fields of a network file whose description has `d` bytes.
pub open spec fn ft_header_at(d: int) -> int {
    12 + d
}

pub open spec fn ft_biases_at(d: int) -> int {
    ft_header_at(d) + 4
}

pub open spec fn ft_weights_at(d: int) -> int {
    ft_biases_at(d) + 512
}

pub open spec fn hl1_biases_at(d: int) -> int {
    ft_weights_at(d) + 2 * FT_WEIGHT_COUNT + 4
}

pub open spec fn hl1_weights_at(d: int) -> int {
    hl1_biases_at(d) + 128
}

pub open spec fn hl2_biases_at(d: int) -> int {
    hl1_weights_at(d) + 16384
}

pub open spec fn hl2_weights_at(d: int) -> int {
    hl2_biases_at(d) + 128
}

pub open spec fn out_bias_at(d: int) -> int {
    hl2_weights_at(d) + 1024
}

pub open spec fn out_weights_at(d: int) -> int {
    out_bias_at(d) + 4
}

pub open spec fn file_end(d: int) -> int {
    out_weights_at(d) + 32
}

/// The model that a complete network file `s` with description size `d` holds.
pub open spec fn decoded(m: Model, s: Seq<u8>, d: int) -> bool {
    &&& m.wf()
    &&& forall|k: int| 0 <= k < 256 ==> #[trigger] m.ft_biases@[k] == le_i16(s, ft_biases_at(d) + 2 * k)
    &&& forall|k: int| 0 <= k < FT_WEIGHT_COUNT ==> #[trigger] m.ft_weights@[k] == le_i16(s, ft_weights_at(d) + 2 * k)
    &&& forall|k: int| 0 <= k < 32 ==> #[trigger] m.hl1_biases@[k] == le_i32(s, hl1_biases_at(d) + 4 * k)
    &&& forall|k: int| 0 <= k < 16384 ==> #[trigger] m.hl1_weights@[k] == s[hl1_weights_at(d) + k] as i8
    &&& forall|k: int| 0 <= k < 32 ==> #[trigger] m.hl2_biases@[k] == le_i32(s, hl2_biases_at(d) + 4 * k)
    &&& forall|k: int| 0 <= k < 1024 ==> #[trigger] m.hl2_weights@[k] == s[hl2_weights_at(d) + k] as i8
    &&& m.out_bias == le_i32(s, out_bias_at(d))
    &&& forall|k: int| 0 <= k < 32 ==> #[trigger] m.out_weights@[k] == s[out_weights_at(d) + k] as i8
}

/// The outcome of reading a network file: `None` when the file reads as a model,
/// else the error, which says whether the data ran short or a field is wrong.
pub open spec fn load_error(s: Seq<u8>) -> Option<bool> {
    if s.len() < 12 {
        Some(true)
    } else {
        let d = le_u32(s, 8) as int;
        if s.len() < ft_header_at(d) + 4 {
            Some(true)
        } else if le_u32(s, ft_header_at(d)) != expected_ft_hash() {
            Some(false)
        } else if s.len() < file_end(d) {
            Some(true)
        } else if s.len() > file_end(d) {
            Some(false)
        } else {
            None
        }
    }
}

fn short_read() -> (e: NnueError)
    ensures
        e matches NnueError::IoError(msg) && msg@ == "failed to fill whole buffer"@,
{
    NnueError::IoError(String::from_str("failed to fill whole buffer"))
}

fn read_i8s(src: &[u8]) -> (v: Vec<i8>)
    ensures
        v@.len() == src@.len(),
        forall|k: int| 0 <= k < src@.len() ==> #[trigger] v@[k] == src@[k] as i8,
{
    let mut v: Vec<i8> = Vec::new();
    let mut i: usize = 0;
    while i < src.len()
        invariant
            i <= src@.len(),
            v@.len() == i,
            forall|k: int| 0 <= k < i ==> #[trigger] v@[k] == src@[k] as i8,
        decreases src@.len() - i,
    {
        v.push(src[i] as i8);
        i = i + 1;
    }
    v
}

proof fn lemma_subrange_le(s: Seq<u8>, a: int, b: int)
    requires
        0 <= a <= b <= s.len(),
    ensures
        forall|k: int| 0 <= k && 2 * k + 1 < b - a ==> #[trigger] le_i16(s.subrange(a, b), 2 * k) == le_i16(s, a + 2 * k),
        forall|k: int| 0 <= k && 4 * k + 3 < b - a ==> #[trigger] le_i32(s.subrange(a, b), 4 * k) == le_i32(s, a + 4 * k),
        b - a >= 4 ==> le_u32(s.subrange(a, b), 0) == le_u32(s, a),
{
}

impl Model {
    /// Reads a network file: three header words (the third the length of a
    /// description that is skipped), the feature transformer's header word, biases
    /// and weights, the first layer's header word, biases and weights, the second
    /// layer's biases and weights, the output bias and weights, all little-endian.
    /// Refused when the data ends early, when the transformer's header word is not
    /// the expected one, or when bytes are left over.
    pub fn from_bytes(s: &[u8]) -> (r: Result<Model, NnueError>)
        ensures
            match load_error(s@) {
                None => r matches Ok(m) && decoded(m, s@, le_u32(s@, 8) as int),
                Some(short) => r matches Err(e) && (short ==> e is IoError) && (!short ==> e is ValueError),
            },
    {
        let len = s.len();
        if len < 12 {
            return Err(short_read());
        }
        let d32 = read_u32_le(vstd::slice::slice_subrange(s, 8, 12));
        proof {
            lemma_subrange_le(s@, 8, 12);
        }
        let d = d32 as usize;
        if len - 12 < d || len - 12 - d < 4 {
            return Err(short_read());
        }
        let h = 12 + d;
        let header = read_u32_le(vstd::slice::slice_subrange(s, h, h + 4));
        proof {
            lemma_subrange_le(s@, h as int, h + 4);
        }
        if header != (0x5D69D5B9u32 ^ 1u32) ^ 512u32 {
            return Err(NnueError::ValueError(String::from_str("Feature transformer header does not match expected hash!")));
        }
        let rest = len - h;
        let body: usize = 4 + 512 + 2 * FT_WEIGHT_COUNT + 4 + 128 + 16384 + 128 + 1024 + 4 + 32;
        if rest < body {
            return Err(short_read());
        }
        if rest > body {
            return Err(NnueError::ValueError(String::from_str("Did not read all parameters from NNUE file!")));
        }
        let fb = h + 4;
        let fw = fb + 512;
        let b1 = fw + 2 * FT_WEIGHT_COUNT + 4;
        let w1 = b1 + 128;
        let b2 = w1 + 16384;
        let w2 = b2 + 128;
        let ob = w2 + 1024;
        let ow = ob + 4;
        let ft_biases = read_i16s_le(vstd::slice::slice_subrange(s, fb, fw), 256);
        let ft_weights = read_i16s_le(vstd::slice::slice_subrange(s, fw, fw + 2 * FT_WEIGHT_COUNT), FT_WEIGHT_COUNT);
        let hl1_biases = read_i32s_le(vstd::slice::slice_subrange(s, b1, w1), 32);
        let s_w1 = vstd::slice::slice_subrange(s, w1, b2);
        let hl1_weights = read_i8s(s_w1);
        let hl2_biases = read_i32s_le(vstd::slice::slice_subrange(s, b2, w2), 32);
        let s_w2 = vstd::slice::slice_subrange(s, w2, ob);
        let hl2_weights = read_i8s(s_w2);
        let out_bias = read_u32_le(vstd::slice::slice_subrange(s, ob, ow)) as i32;
        let s_ow = vstd::slice::slice_subrange(s, ow, len);
        let out_weights = read_i8s(s_ow);
        proof {
            lemma_subrange_le(s@, fb as int, fw as int);
            lemma_subrange_le(s@, fw as int, fw + 2 * FT_WEIGHT_COUNT);
            lemma_subrange_le(s@, b1 as int, w1 as int);
            lemma_subrange_le(s@, b2 as int, w2 as int);
            lemma_subrange_le(s@, ob as int, ow as int);
        }
        let m = Model { ft_weights, ft_biases, hl1_weights, hl1_biases, hl2_weights, hl2_biases, out_weights, out_bias };
        proof {
            let dd = le_u32(s@, 8) as int;
            assert(d == dd);
            assert forall|k: int| 0 <= k < 16384 implies #[trigger] m.hl1_weights@[k] == s@[hl1_weights_at(dd) + k] as i8 by {
                assert(s_w1@[k] == s@[w1 + k]);
            }
            assert forall|k: int| 0 <= k < 1024 implies #[trigger] m.hl2_weights@[k] == s@[hl2_weights_at(dd) + k] as i8 by {
                assert(s_w2@[k] == s@[w2 + k]);
            }
            assert forall|k: int| 0 <= k < 32 implies #[trigger] m.out_weights@[k] == s@[out_weights_at(dd) + k] as i8 by {
                assert(s_ow@[k] == s@[ow + k]);
            }
        }
        Ok(m)
    }
}

// ---------------------------------------------------------------- features

/// Index of the HalfKP feature of `piece` on `sq`, seen from white's side
/// (`pov`) or black's (board flipped), with that side's king on `ksq`.
pub open spec fn halfkp(pov: bool, ksq: usize, sq: usize, piece: Piece) -> int {
    let oriented_sq: int = if pov { sq as int } else { (sq ^ 56usize) as int };
    let king_oriented: int = if pov { ksq as int } else { (ksq ^ 56usize) as int };
    let color_is_pov = (piece.spec_color() == Some(Color::White)) == pov;
    let color_offset: int = if color_is_pov { 0 } else { 1 };
    let piece_offset: int = match piece.spec_kind() {
        Some(PieceKind::Pawn) => 0,
        Some(PieceKind::Knight) => 1,
        Some(PieceKind::Bishop) => 2,
        Some(PieceKind::Rook) => 3,
        Some(PieceKind::Queen) => 4,
        _ => 5,
    };
    oriented_sq + (piece_offset * 2 + color_offset) * 64 + 1 + 641 * king_oriented
}

fn make_halfkp_index(is_white_pov: bool, king_sq: usize, sq: usize, piece: Piece, piece_color: Color) -> (r: usize)
    requires
        king_sq <= 64,
        sq < 64,
        piece.spec_color() == Some(piece_color),
    ensures
        r == halfkp(is_white_pov, king_sq, sq, piece),
{
    assert(sq < 64 ==> sq ^ 56 < 64) by (bit_vector);
    assert(king_sq <= 64 ==> king_sq ^ 56 <= 127) by (bit_vector);
    let oriented_sq = if is_white_pov { sq } else { sq ^ 56 };
    let king_oriented = if is_white_pov { king_sq } else { king_sq ^ 56 };
    let color_is_pov = (piece_color == Color::White) == is_white_pov;
    let color_offset: usize = if color_is_pov { 0 } else { 1 };
    let piece_offset: usize = match piece.kind() {
        Some(PieceKind::Pawn) => 0,
        Some(PieceKind::Knight) => 1,
        Some(PieceKind::Bishop) => 2,
        Some(PieceKind::Rook) => 3,
        Some(PieceKind::Queen) => 4,
        _ => 5,
    };
    let piece_idx = (piece_offset * 2 + color_offset) * 64 + 1;
    oriented_sq + piece_idx + 641 * king_oriented
}

/// A piece that has a feature of its own: any but a king.
pub open spec fn has_feature(p: Piece) -> bool {
    p != Piece::Empty && p.spec_kind() != Some(PieceKind::King)
}

/// One lane of a weight column added (or taken away) with 16-bit wrapping.
pub open spec fn lane_step(x: i16, m: &Model, f: int, lane: int, add: bool) -> i16 {
    if 0 <= f < FT_INPUT_DIM {
        if add {
            vstd::wrapping::i16_specs::wrapping_add(x, m.ft_weights@[f * 256 + lane])
        } else {
            vstd::wrapping::i16_specs::wrapping_sub(x, m.ft_weights@[f * 256 + lane])
        }
    } else {
        x
    }
}

/// Lane `lane` of the half of the accumulator for point of view `pov` (king on
/// `ksq`) after the featured pieces of the first `n` squares have been added to
/// the biases, in square order.
pub open spec fn half_lane(m: &Model, pov: bool, ksq: int, squares: Seq<Piece>, n: int, lane: int) -> i16
    decreases n,
{
    if n <= 0 {
        m.ft_biases@[lane]
    } else {
        let prev = half_lane(m, pov, ksq, squares, n - 1, lane);
        let p = squares[n - 1];
        if has_feature(p) {
            lane_step(prev, m, halfkp(pov, ksq as usize, (n - 1) as usize, p), lane, true)
        } else {
            prev
        }
    }
}

/// The square of the king of colour `c` as `king_square` reports it.
pub open spec fn king_sq_of(b: Board, c: Color) -> int {
    vstd::std_specs::bits::u64_trailing_zeros(b.piece_bb[Piece::spec_from_kind(PieceKind::King, c).spec_index() as int]) as int
}

/// The accumulator of a position computed from scratch.
pub open spec fn fresh_accumulator(m: &Model, b: Board, acc: Accumulator) -> bool {
    &&& forall|lane: int| 0 <= lane < 256 ==> #[trigger] acc.white[lane] == half_lane(m, true, king_sq_of(b, Color::White), b.piece_on@, 64, lane)
    &&& forall|lane: int| 0 <= lane < 256 ==> #[trigger] acc.black[lane] == half_lane(m, false, king_sq_of(b, Color::Black), b.piece_on@, 64, lane)
}

/// The accumulator is the one computed from scratch for `b` (all zero without a network).
pub open spec fn refreshed(model: Option<&Model>, b: Board, acc: Accumulator) -> bool {
    match model {
        Some(m) => fresh_accumulator(m, b, acc),
        None => acc.is_zero(),
    }
}

/// `a1` is `a0` after the updates `ups` with the kings on `wk` and `bk` (unchanged
/// without a network).
pub open spec fn updated_by(a0: Accumulator, a1: Accumulator, model: Option<&Model>, wk: int, bk: int, ups: Seq<UpdateBody>) -> bool {
    match model {
        Some(m) => {
            &&& forall|lane: int| 0 <= lane < 256 ==> #[trigger] a1.white[lane] == half_after(a0.white[lane], m, true, wk, ups, ups.len() as int, lane)
            &&& forall|lane: int| 0 <= lane < 256 ==> #[trigger] a1.black[lane] == half_after(a0.black[lane], m, false, bk, ups, ups.len() as int, lane)
        },
        None => a1 == a0,
    }
}

/// Adds (or takes away) the weight column of feature `idx`, with 16-bit wrapping;
/// a feature index past the table changes nothing.
fn apply_feature(half: &mut [i16; 256], m: &Model, idx: usize, add: bool)
    requires
        m.wf(),
    ensures
        forall|lane: int| 0 <= lane < 256 ==> #[trigger] final(half)[lane] == lane_step(old(half)[lane], m, idx as int, lane, add),
{
    if idx >= FT_INPUT_DIM {
        return;
    }
    let offset = idx * NNUE_FEATURE_SIZE;
    let ghost h0 = *half;
    let mut i: usize = 0;
    while i < NNUE_FEATURE_SIZE
        invariant
            i <= 256,
            offset == idx * 256,
            idx < FT_INPUT_DIM,
            m.wf(),
            forall|lane: int| 0 <= lane < i ==> #[trigger] half[lane] == lane_step(h0[lane], m, idx as int, lane, add),
            forall|lane: int| i <= lane < 256 ==> #[trigger] half[lane] == h0[lane],
        decreases 256 - i,
    {
        let w = m.ft_weights[offset + i];
        if add {
            half[i] = half[i].wrapping_add(w);
        } else {
            half[i] = half[i].wrapping_sub(w);
        }
        i = i + 1;
    }
}

/// The accumulator of `board` from scratch: the biases plus the weight column of
/// every piece but the kings, from each side's point of view; all zero when the
/// board has no network.
pub fn refresh_accumulator(board: &Board) -> (acc: Accumulator)
    requires
        board.model_ok(),
    ensures
        match board.model {
            Some(m) => fresh_accumulator(m, *board, acc),
            None => acc.is_zero(),
        },
{
    let model = match board.model {
        Some(m) => m,
        None => {
            return Accumulator::default();
        },
    };
    let mut acc = Accumulator::default();
    let mut i: usize = 0;
    while i < 256
        invariant
            i <= 256,
            model.wf(),
            forall|lane: int| 0 <= lane < i ==> #[trigger] acc.white[lane] == model.ft_biases@[lane],
            forall|lane: int| 0 <= lane < i ==> #[trigger] acc.black[lane] == model.ft_biases@[lane],
        decreases 256 - i,
    {
        acc.white[i] = model.ft_biases[i];
        acc.black[i] = model.ft_biases[i];
        i = i + 1;
    }
    let wk_sq = board.king_square(Color::White) as usize;
    let bk_sq = board.king_square(Color::Black) as usize;
    proof {
        vstd::std_specs::bits::axiom_u64_trailing_zeros(board.piece_bb[Piece::WK.spec_index() as int]);
        vstd::std_specs::bits::axiom_u64_trailing_zeros(board.piece_bb[Piece::BK.spec_index() as int]);
    }
    let mut sq: usize = 0;
    while sq < 64
        invariant
            sq <= 64,
            model.wf(),
            board.model == Some(model),
            wk_sq == king_sq_of(*board, Color::White),
            bk_sq == king_sq_of(*board, Color::Black),
            wk_sq <= 64,
            bk_sq <= 64,
            forall|lane: int| 0 <= lane < 256 ==> #[trigger] acc.white[lane] == half_lane(model, true, wk_sq as int, board.piece_on@, sq as int, lane),
            forall|lane: int| 0 <= lane < 256 ==> #[trigger] acc.black[lane] == half_lane(model, false, bk_sq as int, board.piece_on@, sq as int, lane),
        decreases 64 - sq,
    {
        let piece = board.piece_on[sq];
        if !piece.is_empty() && piece.kind() != Some(PieceKind::King) {
            let color = match piece.color() {
                Some(c) => c,
                None => Color::White,
            };
            let idx_w = make_halfkp_index(true, wk_sq, sq, piece, color);
            apply_feature(&mut acc.white, model, idx_w, true);
            let idx_b = make_halfkp_index(false, bk_sq, sq, piece, color);
            apply_feature(&mut acc.black, model, idx_b, true);
        }
        sq = sq + 1;
    }
    acc
}

/// One half of the accumulator after a list of updates, in order.
pub open spec fn half_after(x: i16, m: &Model, pov: bool, ksq: int, ups: Seq<UpdateBody>, n: int, lane: int) -> i16
    decreases n,
{
    if n <= 0 {
        x
    } else {
        let prev = half_after(x, m, pov, ksq, ups, n - 1, lane);
        let u = ups[n - 1];
        lane_step(prev, m, halfkp(pov, ksq as usize, u.sq, u.piece), lane, u.add)
    }
}

/// Pieces entering and leaving squares, applied to both halves of the accumulator
/// with the kings on `wk_sq` and `bk_sq`; nothing changes without a network.
pub fn update_accumulator(acc: &mut Accumulator, model: Option<&Model>, wk_sq: usize, bk_sq: usize, updates: &[UpdateBody])
    requires
        model matches Some(m) ==> m.wf(),
        wk_sq <= 64,
        bk_sq <= 64,
        forall|k: int| 0 <= k < updates@.len() ==> (#[trigger] updates@[k]).sq < 64 && updates@[k].piece != Piece::Empty,
    ensures
        match model {
            Some(m) => {
                &&& forall|lane: int| 0 <= lane < 256 ==> #[trigger] final(acc).white[lane] == half_after(old(acc).white[lane], m, true, wk_sq as int, updates@, updates@.len() as int, lane)
                &&& forall|lane: int| 0 <= lane < 256 ==> #[trigger] final(acc).black[lane] == half_after(old(acc).black[lane], m, false, bk_sq as int, updates@, updates@.len() as int, lane)
            },
            None => *final(acc) == *old(acc),
        },
{
    let m = match model {
        Some(m) => m,
        None => {
            return;
        },
    };
    let ghost a0 = *acc;
    let n = updates.len();
    let mut k: usize = 0;
    while k < n
        invariant
            k <= n,
            n == updates@.len(),
            m.wf(),
            wk_sq <= 64,
            bk_sq <= 64,
            forall|j: int| 0 <= j < updates@.len() ==> (#[trigger] updates@[j]).sq < 64 && updates@[j].piece != Piece::Empty,
            forall|lane: int| 0 <= lane < 256 ==> #[trigger] acc.white[lane] == half_after(a0.white[lane], m, true, wk_sq as int, updates@, k as int, lane),
            forall|lane: int| 0 <= lane < 256 ==> #[trigger] acc.black[lane] == half_after(a0.black[lane], m, false, bk_sq as int, updates@, k as int, lane),
        decreases n - k,
    {
        let u = updates[k];
        let color = match u.piece.color() {
            Some(c) => c,
            None => Color::White,
        };
        let idx_w = make_halfkp_index(true, wk_sq, u.sq, u.piece, color);
        apply_feature(&mut acc.white, m, idx_w, u.add);
        let idx_b = make_halfkp_index(false, bk_sq, u.sq, u.piece, color);
        apply_feature(&mut acc.black, m, idx_b, u.add);
        k = k + 1;
    }
}

// ---------------------------------------------------------------- forward pass

/// `sum_{k < n} input[k] * w[off + k]`.
pub open spec fn dot(input: Seq<i32>, w: Seq<i8>, off: int, n: int) -> int
    decreases n,
{
    if n <= 0 {
        0
    } else {
        dot(input, w, off, n - 1) + input[n - 1] * (w[off + n - 1] as int)
    }
}

/// Clipped ReLU of a layer sum: scaled down by 64 and clipped to 0..127.
pub open spec fn relu(x: i32) -> i32 {
    if x < 0 {
        0
    } else if x / 64 > 127 {
        127
    } else {
        (x / 64) as i32
    }
}

/// Every input is a clipped activation.
pub open spec fn activations(s: Seq<i32>) -> bool {
    forall|k: int| 0 <= k < s.len() ==> 0 <= #[trigger] s[k] <= 127
}

proof fn lemma_dot_bound(input: Seq<i32>, w: Seq<i8>, off: int, n: int)
    requires
        0 <= n <= input.len(),
        activations(input),
    ensures
        -16256 * n <= dot(input, w, off, n) <= 16256 * n,
    decreases n,
{
    if n > 0 {
        lemma_dot_bound(input, w, off, n - 1);
        let x = input[n - 1];
        let y = w[off + n - 1] as int;
        assert(0 <= x <= 127);
        assert(-128 <= y <= 127);
        assert(-16256 <= x * y <= 16256) by (nonlinear_arith)
            requires 0 <= x <= 127, -128 <= y <= 127;
    }
}

fn dot_product(input: &Vec<i32>, w: &Vec<i8>, off: usize, n: usize) -> (r: i32)
    requires
        n <= input@.len(),
        n <= 512,
        off + n <= w@.len(),
        activations(input@),
    ensures
        r == dot(input@, w@, off as int, n as int),
{
    let mut sum: i32 = 0;
    let mut k: usize = 0;
    while k < n
        invariant
            k <= n,
            n <= input@.len(),
            n <= 512,
            off + n <= w@.len(),
            w@.len() == w.len(),
            w.len() <= usize::MAX,
            activations(input@),
            sum == dot(input@, w@, off as int, k as int),
        decreases n - k,
    {
        proof {
            lemma_dot_bound(input@, w@, off as int, (k + 1) as int);
        }
        let x = input[k];
        assert(0 <= x <= 127) by {
            assert(input@[k as int] == x);
        }
        let y = w[off + k] as i32;
        assert(-16256 <= x * y <= 16256) by (nonlinear_arith)
            requires 0 <= x <= 127, -128 <= y <= 127;
        sum = sum + x * y;
        k = k + 1;
    }
    sum
}

/// Output `j` of a dense layer: bias plus dot product (32-bit wrapping), through
/// the clipped ReLU.
pub open spec fn neuron(input: Seq<i32>, w: Seq<i8>, b: Seq<i32>, in_dim: int, j: int) -> i32 {
    relu(vstd::wrapping::i32_specs::wrapping_add(b[j], dot(input, w, j * in_dim, in_dim) as i32))
}

fn dense_layer(input: &Vec<i32>, weights: &Vec<i8>, biases: &Vec<i32>, in_dim: usize) -> (out: Vec<i32>)
    requires
        in_dim == input@.len(),
        in_dim <= 512,
        weights@.len() == 32 * in_dim,
        biases@.len() == 32,
        activations(input@),
    ensures
        out@.len() == 32,
        activations(out@),
        forall|j: int| 0 <= j < 32 ==> #[trigger] out@[j] == neuron(input@, weights@, biases@, in_dim as int, j),
{
    let mut out: Vec<i32> = Vec::new();
    let mut j: usize = 0;
    while j < 32
        invariant
            j <= 32,
            in_dim == input@.len(),
            in_dim <= 512,
            weights@.len() == 32 * in_dim,
            biases@.len() == 32,
            activations(input@),
            out@.len() == j,
            activations(out@),
            forall|t: int| 0 <= t < j ==> #[trigger] out@[t] == neuron(input@, weights@, biases@, in_dim as int, t),
        decreases 32 - j,
    {
        assert((j + 1) * in_dim <= 32 * in_dim) by (nonlinear_arith)
            requires j < 32;
        assert(j * in_dim + in_dim == (j + 1) * in_dim) by (nonlinear_arith);
        let d = dot_product(input, weights, j * in_dim, in_dim);
        let x = biases[j].wrapping_add(d);
        let y = if x < 0 {
            0
        } else {
            let q = x / 64;
            if q > 127 {
                127
            } else {
                q
            }
        };
        out.push(y);
        j = j + 1;
    }
    out
}

/// A clipped accumulator lane: 0..127.
pub open spec fn clip(x: i16) -> i32 {
    if x < 0 {
        0
    } else if x > 127 {
        127
    } else {
        x as i32
    }
}

/// The network's input: the side to move's half, then the other half, clipped.
pub open spec fn net_input(acc: Accumulator, turn: Color) -> Seq<i32> {
    let (us, them) = if turn == Color::White {
        (acc.white, acc.black)
    } else {
        (acc.black, acc.white)
    };
    Seq::new(512, |k: int| if k < 256 { clip(us[k]) } else { clip(them[k - 256]) })
}

/// The raw network output for an accumulator and side to move.
pub open spec fn net_output(m: &Model, acc: Accumulator, turn: Color) -> i32 {
    let x = net_input(acc, turn);
    let h1 = Seq::new(32, |j: int| neuron(x, m.hl1_weights@, m.hl1_biases@, 512, j));
    let h2 = Seq::new(32, |j: int| neuron(h1, m.hl2_weights@, m.hl2_biases@, 32, j));
    vstd::wrapping::i32_specs::wrapping_add(m.out_bias, dot(h2, m.out_weights@, 0, 32) as i32)
}

/// Truncating division, as Rust's `/` on signed numbers.
pub open spec fn tdiv(a: int, b: int) -> int {
    if a >= 0 {
        a / b
    } else {
        -((-a) / b)
    }
}

/// The output in centipawns: divided by 8, times 100 (32-bit wrapping), over 208.
pub open spec fn to_centipawns(v: i32) -> i32 {
    tdiv(vstd::wrapping::i32_specs::wrapping_mul(tdiv(v as int, 8) as i32, 100) as int, 208) as i32
}

fn nn_value_to_centipawn(nn_value: i32) -> (r: i32)
    ensures
        r == to_centipawns(nn_value),
        -10_400_000 <= r <= 10_400_000,
{
    let v = nn_value / 8;
    let w = v.wrapping_mul(100);
    let r = w / 208;
    assert(-10_400_000 <= r <= 10_400_000) by (nonlinear_arith)
        requires
            r == (if w >= 0 { w / 208 } else { -((-w) / 208) }),
            -0x8000_0000 <= w <= 0x7fff_ffff,
    ;
    r
}

/// The static evaluation of `board` in centipawns for the side to move, from its
/// accumulator; 0 when the board has no network.
pub fn evaluate(board: &Board) -> (r: i32)
    requires
        board.model_ok(),
    ensures
        -10_400_000 <= r <= 10_400_000,
        r == match board.model {
            Some(m) => to_centipawns(net_output(m, board.accumulator, board.turn)),
            None => 0,
        },
{
    let model = match board.model {
        Some(m) => m,
        None => {
            return 0;
        },
    };
    let is_white = board.turn == Color::White;
    let (us, them) = if is_white {
        (&board.accumulator.white, &board.accumulator.black)
    } else {
        (&board.accumulator.black, &board.accumulator.white)
    };
    let mut input: Vec<i32> = Vec::new();
    let mut i: usize = 0;
    while i < 512
        invariant
            i <= 512,
            input@.len() == i,
            *us == (if board.turn == Color::White { board.accumulator.white } else { board.accumulator.black }),
            *them == (if board.turn == Color::White { board.accumulator.black } else { board.accumulator.white }),
            forall|k: int| 0 <= k < i ==> #[trigger] input@[k] == net_input(board.accumulator, board.turn)[k],
        decreases 512 - i,
    {
        let x = if i < 256 {
            us[i]
        } else {
            them[i - 256]
        };
        let c: i32 = if x < 0 {
            0
        } else if x > 127 {
            127
        } else {
            x as i32
        };
        assert(c == net_input(board.accumulator, board.turn)[i as int]);
        input.push(c);
        i = i + 1;
    }
    let ghost x = net_input(board.accumulator, board.turn);
    assert(input@ =~= x);
    let h1 = dense_layer(&input, &model.hl1_weights, &model.hl1_biases, 512);
    let h2 = dense_layer(&h1, &model.hl2_weights, &model.hl2_biases, 32);
    let d = dot_product(&h2, &model.out_weights, 0, 32);
    let out = model.out_bias.wrapping_add(d);
    proof {
        let sh1 = Seq::new(32, |j: int| neuron(x, model.hl1_weights@, model.hl1_biases@, 512, j));
        assert(h1@ =~= sh1);
        let sh2 = Seq::new(32, |j: int| neuron(sh1, model.hl2_weights@, model.hl2_biases@, 32, j));
        assert(h2@ =~= sh2);
    }
    nn_value_to_centipawn(out)
}


impl Board {
    /// Gives the board a network (or none) and its accumulator from scratch.
    pub fn attach_model(&mut self, model: Option<&'static Model>)
        requires
            model matches Some(m) ==> m.wf(),
        ensures
            final(self).model == model,
            final(self).same_position(&*old(self)),
            refreshed(model, *final(self), final(self).accumulator),
    {
        self.model = model;
        let acc = refresh_accumulator(self);
        self.accumulator = acc;
    }
}

} // verus!
