//! Basic chess types: colours, pieces, moves, move lists and square helpers.
use vstd::prelude::*;
use crate::text::string_from_chars;

verus! {

pub type Bitboard = u64;

pub type ZKey = u64;

pub const NO_SQ: i32 = -1;

pub const START_FEN: &'static str = "rnbqkbnr/pppppppp/8/8/8/8/PPPPPPPP/RNBQKBNR w KQkq - 0 1";

pub const NNUE_FEATURE_SIZE: usize = 256;

/// The two halves of the first NNUE layer, one per point of view.
#[derive(Copy, Clone)]
pub struct Accumulator {
    pub white: [i16; 256],
    pub black: [i16; 256],
}

impl Accumulator {
    /// Both halves zero.
    pub open spec fn is_zero(&self) -> bool {
        &&& forall|i: int| 0 <= i < 256 ==> #[trigger] self.white[i] == 0
        &&& forall|i: int| 0 <= i < 256 ==> #[trigger] self.black[i] == 0
    }
}

impl Default for Accumulator {
    fn default() -> (r: Self)
        ensures
            r.is_zero(),
    {
        Accumulator { white: [0i16; 256], black: [0i16; 256] }
    }
}

/// One piece entering or leaving a square, as seen by the accumulator.
#[derive(Copy, Clone, Debug)]
pub struct UpdateBody {
    pub piece: Piece,
    pub sq: usize,
    pub add: bool,
}

#[derive(Copy, Clone, Eq, PartialEq, Debug, Structural)]
pub enum Color {
    White,
    Black,
}

impl Color {
    pub open spec fn spec_other(self) -> Color {
        match self {
            Color::White => Color::Black,
            Color::Black => Color::White,
        }
    }

    #[verifier::when_used_as_spec(spec_other)]
    pub fn other(self) -> (r: Color)
        ensures
            r == self.spec_other(),
    {
        if self == Color::White {
            Color::Black
        } else {
            Color::White
        }
    }
}

#[derive(Copy, Clone, Eq, PartialEq, Ord, PartialOrd, Debug, Structural)]
pub enum PieceKind {
    Pawn,
    Knight,
    Bishop,
    Rook,
    Queen,
    King,
}

impl PieceKind {
    /// The position of the kind in the order Pawn, Knight, Bishop, Rook, Queen, King.
    pub open spec fn ord(self) -> int {
        match self {
            PieceKind::Pawn => 0,
            PieceKind::Knight => 1,
            PieceKind::Bishop => 2,
            PieceKind::Rook => 3,
            PieceKind::Queen => 4,
            PieceKind::King => 5,
        }
    }

    pub open spec fn spec_upper(self) -> char {
        match self {
            PieceKind::Pawn => 'P',
            PieceKind::Knight => 'N',
            PieceKind::Bishop => 'B',
            PieceKind::Rook => 'R',
            PieceKind::Queen => 'Q',
            PieceKind::King => 'K',
        }
    }

    pub fn to_char_upper(&self) -> (c: char)
        ensures
            c == self.spec_upper(),
    {
        match self {
            PieceKind::Pawn => 'P',
            PieceKind::Knight => 'N',
            PieceKind::Bishop => 'B',
            PieceKind::Rook => 'R',
            PieceKind::Queen => 'Q',
            PieceKind::King => 'K',
        }
    }
}

#[derive(Copy, Clone, Eq, PartialEq, Debug, Structural)]
pub enum Piece {
    Empty,
    WP,
    WN,
    WB,
    WR,
    WQ,
    WK,
    BP,
    BN,
    BB,
    BR,
    BQ,
    BK,
}

impl Piece {
    pub open spec fn spec_is_empty(self) -> bool {
        self == Piece::Empty
    }

    #[verifier::when_used_as_spec(spec_is_empty)]
    pub fn is_empty(self) -> (r: bool)
        ensures
            r == self.spec_is_empty(),
    {
        match self {
            Piece::Empty => true,
            _ => false,
        }
    }

    pub open spec fn spec_color(self) -> Option<Color> {
        match self {
            Piece::Empty => None,
            Piece::WP | Piece::WN | Piece::WB | Piece::WR | Piece::WQ | Piece::WK => Some(
                Color::White,
            ),
            _ => Some(Color::Black),
        }
    }

    #[verifier::when_used_as_spec(spec_color)]
    pub fn color(self) -> (r: Option<Color>)
        ensures
            r == self.spec_color(),
    {
        match self {
            Piece::WP | Piece::WN | Piece::WB | Piece::WR | Piece::WQ | Piece::WK => {
                Some(Color::White)
            },
            Piece::BP | Piece::BN | Piece::BB | Piece::BR | Piece::BQ | Piece::BK => {
                Some(Color::Black)
            },
            _ => None,
        }
    }

    pub open spec fn spec_kind(self) -> Option<PieceKind> {
        match self {
            Piece::WP | Piece::BP => Some(PieceKind::Pawn),
            Piece::WN | Piece::BN => Some(PieceKind::Knight),
            Piece::WB | Piece::BB => Some(PieceKind::Bishop),
            Piece::WR | Piece::BR => Some(PieceKind::Rook),
            Piece::WQ | Piece::BQ => Some(PieceKind::Queen),
            Piece::WK | Piece::BK => Some(PieceKind::King),
            _ => None,
        }
    }

    #[verifier::when_used_as_spec(spec_kind)]
    pub fn kind(self) -> (r: Option<PieceKind>)
        ensures
            r == self.spec_kind(),
    {
        match self {
            Piece::WP | Piece::BP => Some(PieceKind::Pawn),
            Piece::WN | Piece::BN => Some(PieceKind::Knight),
            Piece::WB | Piece::BB => Some(PieceKind::Bishop),
            Piece::WR | Piece::BR => Some(PieceKind::Rook),
            Piece::WQ | Piece::BQ => Some(PieceKind::Queen),
            Piece::WK | Piece::BK => Some(PieceKind::King),
            _ => None,
        }
    }

    pub open spec fn spec_from_kind(kind: PieceKind, color: Color) -> Piece {
        match (kind, color) {
            (PieceKind::Pawn, Color::White) => Piece::WP,
            (PieceKind::Knight, Color::White) => Piece::WN,
            (PieceKind::Bishop, Color::White) => Piece::WB,
            (PieceKind::Rook, Color::White) => Piece::WR,
            (PieceKind::Queen, Color::White) => Piece::WQ,
            (PieceKind::King, Color::White) => Piece::WK,
            (PieceKind::Pawn, Color::Black) => Piece::BP,
            (PieceKind::Knight, Color::Black) => Piece::BN,
            (PieceKind::Bishop, Color::Black) => Piece::BB,
            (PieceKind::Rook, Color::Black) => Piece::BR,
            (PieceKind::Queen, Color::Black) => Piece::BQ,
            (PieceKind::King, Color::Black) => Piece::BK,
        }
    }

    #[verifier::when_used_as_spec(spec_from_kind)]
    pub fn from_kind(kind: PieceKind, color: Color) -> (p: Self)
        ensures
            p == Self::spec_from_kind(kind, color),
            p.spec_kind() == Some(kind),
            p.spec_color() == Some(color),
    {
        match (kind, color) {
            (PieceKind::Pawn, Color::White) => Piece::WP,
            (PieceKind::Knight, Color::White) => Piece::WN,
            (PieceKind::Bishop, Color::White) => Piece::WB,
            (PieceKind::Rook, Color::White) => Piece::WR,
            (PieceKind::Queen, Color::White) => Piece::WQ,
            (PieceKind::King, Color::White) => Piece::WK,
            (PieceKind::Pawn, Color::Black) => Piece::BP,
            (PieceKind::Knight, Color::Black) => Piece::BN,
            (PieceKind::Bishop, Color::Black) => Piece::BB,
            (PieceKind::Rook, Color::Black) => Piece::BR,
            (PieceKind::Queen, Color::Black) => Piece::BQ,
            (PieceKind::King, Color::Black) => Piece::BK,
        }
    }

    /// The position of the piece in the declaration order Empty, WP, .., BK.
    pub open spec fn spec_index(self) -> usize {
        match self {
            Piece::Empty => 0,
            Piece::WP => 1,
            Piece::WN => 2,
            Piece::WB => 3,
            Piece::WR => 4,
            Piece::WQ => 5,
            Piece::WK => 6,
            Piece::BP => 7,
            Piece::BN => 8,
            Piece::BB => 9,
            Piece::BR => 10,
            Piece::BQ => 11,
            Piece::BK => 12,
        }
    }

    #[verifier::when_used_as_spec(spec_index)]
    pub fn index(self) -> (r: usize)
        ensures
            r == self.spec_index(),
            r < 13,
    {
        match self {
            Piece::Empty => 0,
            Piece::WP => 1,
            Piece::WN => 2,
            Piece::WB => 3,
            Piece::WR => 4,
            Piece::WQ => 5,
            Piece::WK => 6,
            Piece::BP => 7,
            Piece::BN => 8,
            Piece::BB => 9,
            Piece::BR => 10,
            Piece::BQ => 11,
            Piece::BK => 12,
        }
    }

    /// The piece that a FEN letter names, `Empty` for any other character.
    pub open spec fn spec_from_char(c: char) -> Piece {
        if c == 'P' {
            Piece::WP
        } else if c == 'N' {
            Piece::WN
        } else if c == 'B' {
            Piece::WB
        } else if c == 'R' {
            Piece::WR
        } else if c == 'Q' {
            Piece::WQ
        } else if c == 'K' {
            Piece::WK
        } else if c == 'p' {
            Piece::BP
        } else if c == 'n' {
            Piece::BN
        } else if c == 'b' {
            Piece::BB
        } else if c == 'r' {
            Piece::BR
        } else if c == 'q' {
            Piece::BQ
        } else if c == 'k' {
            Piece::BK
        } else {
            Piece::Empty
        }
    }

    pub fn from_char(c: char) -> (p: Piece)
        ensures
            p == Self::spec_from_char(c),
    {
        match c {
            'P' => Piece::WP,
            'N' => Piece::WN,
            'B' => Piece::WB,
            'R' => Piece::WR,
            'Q' => Piece::WQ,
            'K' => Piece::WK,
            'p' => Piece::BP,
            'n' => Piece::BN,
            'b' => Piece::BB,
            'r' => Piece::BR,
            'q' => Piece::BQ,
            'k' => Piece::BK,
            _ => Piece::Empty,
        }
    }

    /// The FEN letter of the piece, `.` for an empty square.
    pub open spec fn spec_to_char(self) -> char {
        match self {
            Piece::Empty => '.',
            Piece::WP => 'P',
            Piece::WN => 'N',
            Piece::WB => 'B',
            Piece::WR => 'R',
            Piece::WQ => 'Q',
            Piece::WK => 'K',
            Piece::BP => 'p',
            Piece::BN => 'n',
            Piece::BB => 'b',
            Piece::BR => 'r',
            Piece::BQ => 'q',
            Piece::BK => 'k',
        }
    }

    pub fn to_char(self) -> (c: char)
        ensures
            c == self.spec_to_char(),
    {
        match self {
            Piece::Empty => '.',
            Piece::WP => 'P',
            Piece::WN => 'N',
            Piece::WB => 'B',
            Piece::WR => 'R',
            Piece::WQ => 'Q',
            Piece::WK => 'K',
            Piece::BP => 'p',
            Piece::BN => 'n',
            Piece::BB => 'b',
            Piece::BR => 'r',
            Piece::BQ => 'q',
            Piece::BK => 'k',
        }
    }
}

impl From<char> for Piece {
    fn from(c: char) -> (p: Self) {
        Piece::from_char(c)
    }
}

impl vstd::std_specs::convert::FromSpecImpl<char> for Piece {
    open spec fn obeys_from_spec() -> bool {
        true
    }

    open spec fn from_spec(c: char) -> Piece {
        Piece::spec_from_char(c)
    }
}

pub const MOVE_FLAG_DOUBLE_PUSH: u16 = 1;

pub const MOVE_FLAG_KING_CASTLE: u16 = 2;

pub const MOVE_FLAG_QUEEN_CASTLE: u16 = 3;

pub const MOVE_FLAG_CAPTURE: u16 = 4;

pub const MOVE_FLAG_EN_PASSANT: u16 = 5;

pub const MOVE_FLAG_PROMOTION: u16 = 8;

pub const MOVE_FLAG_PROMO_CAPTURE: u16 = 12;

#[derive(Copy, Clone, Eq, PartialEq, Debug, Default, Structural)]
pub struct Move {
    pub from: u8,
    pub to: u8,
    pub capture: bool,
    pub en_passant: bool,
    pub double_push: bool,
    pub castle: bool,
    pub promotion: Option<PieceKind>,
}

/// The move with every field zero, false or `None` (the default move).
pub open spec fn spec_null_move() -> Move {
    Move {
        from: 0,
        to: 0,
        capture: false,
        en_passant: false,
        double_push: false,
        castle: false,
        promotion: None,
    }
}

/// The 4-bit flag nibble of a move's 16-bit encoding.
pub open spec fn spec_move_flags(m: Move) -> u16 {
    match m.promotion {
        Some(pk) => {
            let base: u16 = if m.capture {
                MOVE_FLAG_PROMO_CAPTURE
            } else {
                MOVE_FLAG_PROMOTION
            };
            let low: u16 = match pk {
                PieceKind::Bishop => 1,
                PieceKind::Rook => 2,
                PieceKind::Queen => 3,
                _ => 0,
            };
            (base + low) as u16
        },
        None => {
            if m.en_passant {
                MOVE_FLAG_EN_PASSANT
            } else if m.capture {
                MOVE_FLAG_CAPTURE
            } else if m.castle {
                if (m.to as int) % 8 > (m.from as int) % 8 {
                    MOVE_FLAG_KING_CASTLE
                } else {
                    MOVE_FLAG_QUEEN_CASTLE
                }
            } else if m.double_push {
                MOVE_FLAG_DOUBLE_PUSH
            } else {
                0
            }
        },
    }
}

/// The 16-bit encoding: bits 0..6 hold `from`, bits 6..12 `to`, bits 12..16 the flags.
/// Bits of `from` and `to` above the sixth overlap the next field, as `|` makes them.
pub open spec fn spec_move_to_u16(m: Move) -> u16 {
    (m.from as u16) | ((m.to as u16) << 6u16) | (spec_move_flags(m) << 12u16)
}

/// The move that a 16-bit code stands for.
pub open spec fn spec_move_from_u16(c: u16) -> Move {
    if c == 0 {
        spec_null_move()
    } else {
        let from = (c & 0x3F) as u8;
        let to = ((c >> 6u16) & 0x3F) as u8;
        let flags = c >> 12u16;
        let q = Move {
            from,
            to,
            capture: false,
            en_passant: false,
            double_push: false,
            castle: false,
            promotion: None,
        };
        if flags >= MOVE_FLAG_PROMOTION {
            let pk = if flags & 3 == 0 {
                PieceKind::Knight
            } else if flags & 3 == 1 {
                PieceKind::Bishop
            } else if flags & 3 == 2 {
                PieceKind::Rook
            } else {
                PieceKind::Queen
            };
            Move { promotion: Some(pk), capture: flags & 4 != 0, ..q }
        } else if flags == MOVE_FLAG_EN_PASSANT {
            Move { capture: true, en_passant: true, ..q }
        } else if flags == MOVE_FLAG_CAPTURE {
            Move { capture: true, ..q }
        } else if flags == MOVE_FLAG_KING_CASTLE || flags == MOVE_FLAG_QUEEN_CASTLE {
            Move { castle: true, ..q }
        } else if flags == MOVE_FLAG_DOUBLE_PUSH {
            Move { double_push: true, ..q }
        } else {
            q
        }
    }
}

/// A move whose flags are one of the combinations that the move generator makes,
/// on squares of the board: exactly the moves that the 16-bit code keeps intact.
pub open spec fn move_is_encodable(m: Move) -> bool {
    &&& m.from < 64
    &&& m.to < 64
    &&& match m.promotion {
        Some(pk) => {
            &&& !m.en_passant && !m.castle && !m.double_push
            &&& (pk == PieceKind::Knight || pk == PieceKind::Bishop || pk == PieceKind::Rook || pk
                == PieceKind::Queen)
        },
        None => {
            if m.en_passant {
                m.capture && !m.castle && !m.double_push
            } else if m.capture {
                !m.castle && !m.double_push
            } else if m.castle {
                !m.double_push
            } else {
                true
            }
        },
    }
}

impl Move {
    pub open spec fn spec_quiet(from: u8, to: u8) -> Move {
        Move {
            from,
            to,
            capture: false,
            en_passant: false,
            double_push: false,
            castle: false,
            promotion: None,
        }
    }

    #[verifier::when_used_as_spec(spec_quiet)]
    pub fn quiet(from: u8, to: u8) -> (m: Self)
        ensures
            m == Self::spec_quiet(from, to),
    {
        Move {
            from,
            to,
            capture: false,
            en_passant: false,
            double_push: false,
            castle: false,
            promotion: None,
        }
    }

    /// The move with every field zero, false or `None`.
    pub fn null() -> (m: Self)
        ensures
            m == spec_null_move(),
    {
        Move::quiet(0, 0)
    }

    /// The 16-bit encoding of the move.
    pub fn to_u16(self) -> (c: u16)
        ensures
            c == spec_move_to_u16(self),
    {
        let from_u16 = self.from as u16;
        let to_u16 = (self.to as u16) << 6u16;
        let mut flags: u16 = 0;
        if let Some(pk) = self.promotion {
            flags = if self.capture {
                MOVE_FLAG_PROMO_CAPTURE
            } else {
                MOVE_FLAG_PROMOTION
            };
            let low: u16 = match pk {
                PieceKind::Knight => 0,
                PieceKind::Bishop => 1,
                PieceKind::Rook => 2,
                PieceKind::Queen => 3,
                _ => 0,
            };
            assert((flags == 8 || flags == 12) && low <= 3 ==> flags | low == flags + low) by (bit_vector);
            flags = flags | low;
        } else if self.en_passant {
            flags = MOVE_FLAG_EN_PASSANT;
        } else if self.capture {
            flags = MOVE_FLAG_CAPTURE;
        } else if self.castle {
            flags = if file_of(self.to as i32) > file_of(self.from as i32) {
                MOVE_FLAG_KING_CASTLE
            } else {
                MOVE_FLAG_QUEEN_CASTLE
            };
        } else if self.double_push {
            flags = MOVE_FLAG_DOUBLE_PUSH;
        }
        assert(flags == spec_move_flags(self));
        from_u16 | to_u16 | (flags << 12u16)
    }

    /// The move that a 16-bit code stands for (0 decodes to the null move).
    pub fn from_u16(c: u16) -> (m: Self)
        ensures
            m == spec_move_from_u16(c),
    {
        if c == 0 {
            return Move::null();
        }
        let from = (c & 0x3F) as u8;
        let to = ((c >> 6u16) & 0x3F) as u8;
        let flags = c >> 12u16;
        let mut mov = Move::quiet(from, to);
        if flags >= MOVE_FLAG_PROMOTION {
            mov.promotion = Some(
                if flags & 3 == 0 {
                    PieceKind::Knight
                } else if flags & 3 == 1 {
                    PieceKind::Bishop
                } else if flags & 3 == 2 {
                    PieceKind::Rook
                } else {
                    PieceKind::Queen
                },
            );
            if (flags & 4) != 0 {
                mov.capture = true;
            }
        } else if flags == MOVE_FLAG_EN_PASSANT {
            mov.capture = true;
            mov.en_passant = true;
        } else if flags == MOVE_FLAG_CAPTURE {
            mov.capture = true;
        } else if flags == MOVE_FLAG_KING_CASTLE || flags == MOVE_FLAG_QUEEN_CASTLE {
            mov.castle = true;
        } else if flags == MOVE_FLAG_DOUBLE_PUSH {
            mov.double_push = true;
        }
        mov
    }
}

/// How the fields of a 16-bit move code read back.
proof fn lemma_code_fields(from: u16, to: u16, f: u16)
    by (bit_vector)
    requires
        from < 64,
        to < 64,
        f < 16,
    ensures
        ((from | (to << 6u16) | (f << 12u16)) & 0x3F) == from,
        (((from | (to << 6u16) | (f << 12u16)) >> 6u16) & 0x3F) == to,
        ((from | (to << 6u16) | (f << 12u16)) >> 12u16) == f,
        ((from | (to << 6u16) | (f << 12u16)) == 0 <==> (from == 0 && to == 0 && f == 0)),
        f >= 8 ==> (f & 3 == f - 8 || f & 3 == f - 12),
        f >= 8 && f < 12 ==> f & 4 == 0,
        f >= 12 ==> f & 4 != 0,
        f >= 8 && f < 12 ==> f & 3 == f - 8,
        f >= 12 ==> f & 3 == f - 12,
{
}

/// Decoding the 16-bit code of a move gives the move back, for every move
/// whose flags form a combination that the move generator makes.
pub proof fn lemma_move_code_roundtrip(m: Move)
    requires
        move_is_encodable(m),
    ensures
        spec_move_from_u16(spec_move_to_u16(m)) == m,
{
    let f = spec_move_flags(m);
    let from = m.from as u16;
    let to = m.to as u16;
    assert(f < 16);
    let c = spec_move_to_u16(m);
    lemma_code_fields(from, to, f);
}

/// Packing a move into 16 bits, as `u16::from` does.
impl From<Move> for u16 {
    fn from(m: Move) -> (c: u16) {
        m.to_u16()
    }
}

impl vstd::std_specs::convert::FromSpecImpl<Move> for u16 {
    open spec fn obeys_from_spec() -> bool {
        true
    }

    open spec fn from_spec(m: Move) -> u16 {
        spec_move_to_u16(m)
    }
}

impl From<u16> for Move {
    fn from(c: u16) -> (m: Move) {
        Move::from_u16(c)
    }
}

impl vstd::std_specs::convert::FromSpecImpl<u16> for Move {
    open spec fn obeys_from_spec() -> bool {
        true
    }

    open spec fn from_spec(c: u16) -> Move {
        spec_move_from_u16(c)
    }
}

/// A growable list of moves.
#[derive(Clone)]
pub struct MoveList {
    pub moves: Vec<Move>,
}

impl View for MoveList {
    type V = Seq<Move>;

    open spec fn view(&self) -> Seq<Move> {
        self.moves@
    }
}

impl MoveList {
    pub fn new() -> (l: Self)
        ensures
            l@ == Seq::<Move>::empty(),
    {
        MoveList { moves: Vec::new() }
    }

    pub fn push(&mut self, m: Move)
        ensures
            final(self)@ == old(self)@.push(m),
    {
        self.moves.push(m);
    }

    pub fn clear(&mut self)
        ensures
            final(self)@ == Seq::<Move>::empty(),
    {
        self.moves.clear();
    }

    pub fn as_slice(&self) -> (s: &[Move])
        ensures
            s@ == self@,
    {
        self.moves.as_slice()
    }

    pub fn len(&self) -> (n: usize)
        ensures
            n == self@.len(),
    {
        self.moves.len()
    }

    pub fn is_empty(&self) -> (b: bool)
        ensures
            b == (self@.len() == 0),
    {
        self.moves.len() == 0
    }

    pub fn swap(&mut self, a: usize, b: usize)
        requires
            a < old(self)@.len(),
            b < old(self)@.len(),
        ensures
            final(self)@ == old(self)@.update(a as int, old(self)@[b as int]).update(
                b as int,
                old(self)@[a as int],
            ),
    {
        let ma = self.moves[a];
        let mb = self.moves[b];
        self.moves.set(a, mb);
        self.moves.set(b, ma);
    }
}

impl Default for MoveList {
    fn default() -> (l: Self)
        ensures
            l@ == Seq::<Move>::empty(),
    {
        MoveList::new()
    }
}

/// What `unmake_move` needs to restore the position before a move.
#[derive(Clone, Copy)]
pub struct Undo {
    pub captured_piece: Piece,
    pub old_castle: u8,
    pub old_en_passant_sq: i32,
    pub old_halfmove_clock: i32,
}

pub const WK_CASTLE: u8 = 1;

pub const WQ_CASTLE: u8 = 2;

pub const BK_CASTLE: u8 = 4;

pub const BQ_CASTLE: u8 = 8;

/// File (0 = a) of a square index.
pub open spec fn spec_file(sq: int) -> int {
    sq % 8
}

/// Rank (0 = first rank) of a square index.
pub open spec fn spec_rank(sq: int) -> int {
    sq / 8
}

pub fn file_of(sq: i32) -> (r: i32)
    ensures
        r == sq % 8,
{
    assert((sq & 7) == sq % 8) by (bit_vector);
    sq & 7
}

/// Arithmetic shift: `sq >> 3` is the floor of `sq / 8`, for negative squares too.
pub fn rank_of(sq: i32) -> (r: i32)
    ensures
        r == sq / 8,
{
    assert((sq >> 3) == sq / 8) by (bit_vector);
    sq >> 3
}

pub fn in_board(sq: i32) -> (b: bool)
    ensures
        b == (0 <= sq < 64),
{
    0 <= sq && sq < 64
}

pub open spec fn spec_file_char(sq: int) -> char {
    ((sq % 8) + 97) as char
}

pub open spec fn spec_rank_char(sq: int) -> char {
    (((sq / 8) % 256) + 49) as char
}

pub fn file_char(sq: usize) -> (c: char)
    ensures
        c == spec_file_char(sq as int),
{
    let f = (sq % 8) as u8;
    (f + 97u8) as char
}

pub fn rank_char(sq: usize) -> (c: char)
    requires
        (sq / 8) % 256 <= 206,
    ensures
        c == spec_rank_char(sq as int),
{
    let r = ((sq / 8) % 256) as u8;
    (r + 49u8) as char
}

/// The algebraic name of a square, such as `e4`.
pub open spec fn spec_sq_str(sq: int) -> Seq<char> {
    seq![spec_file_char(sq), spec_rank_char(sq)]
}

pub fn sq_to_str(sq: usize) -> (s: String)
    requires
        (sq / 8) % 256 <= 206,
    ensures
        s@ == spec_sq_str(sq as int),
{
    let mut v: Vec<char> = Vec::new();
    v.push(file_char(sq));
    v.push(rank_char(sq));
    string_from_chars(&v)
}

} // verus!
