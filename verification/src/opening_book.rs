//! Polyglot opening books: their 16-byte big-endian records, the move encoding,
//! the lookup of a position's entries and the weighted choice among them.
use vstd::prelude::*;
use byteorder::{BigEndian, ByteOrder};
use crate::types::{Move, PieceKind};
use crate::uci_io::format_uci;

verus! {

/// A small xorshift generator for choosing book moves.
pub struct Rng(pub u64);

/// The state after one step: shifts right by 12, left by 25, right by 27, each
/// XORed in.
pub open spec fn xorshift(x: u64) -> u64 {
    let a = x ^ (x >> 12u64);
    let b = a ^ (a << 25u64);
    b ^ (b >> 27u64)
}

impl Rng {
    /// The generator with its fixed seed.
    pub fn new() -> (r: Rng)
        ensures
            r.0 == 0x1234_5678_9ABC_DEF0u64,
    {
        Rng(0x1234_5678_9ABC_DEF0)
    }

    /// Steps the state and returns it times 0x2545F4914F6CDD1D (wrapping).
    pub fn rand(&mut self) -> (r: u64)
        ensures
            final(self).0 == xorshift(old(self).0),
            r == vstd::wrapping::u64_specs::wrapping_mul(xorshift(old(self).0), 0x2545_F491_4F6C_DD1Du64),
    {
        self.0 = self.0 ^ (self.0 >> 12u64);
        self.0 = self.0 ^ (self.0 << 25u64);
        self.0 = self.0 ^ (self.0 >> 27u64);
        self.0.wrapping_mul(0x2545_F491_4F6C_DD1D)
    }
}

/// One record of a book: the position key, the move in Polyglot encoding, its
/// weight, and the learning field.
#[derive(Copy, Clone, Debug)]
pub struct BookEntry {
    pub key: u64,
    pub raw_move: u16,
    pub weight: u16,
    pub _learn: u32,
}

/// The promotion piece of a Polyglot code (1 knight to 4 queen).
pub open spec fn book_promo(p: u16) -> Option<PieceKind> {
    if p == 1 {
        Some(PieceKind::Knight)
    } else if p == 2 {
        Some(PieceKind::Bishop)
    } else if p == 3 {
        Some(PieceKind::Rook)
    } else if p == 4 {
        Some(PieceKind::Queen)
    } else {
        None
    }
}

/// The move of a Polyglot code: origin in bits 6 to 11, target in bits 0 to 5,
/// promotion in bits 12 to 14; a king taking its own rook from e1 or e8 is the
/// castle to the g or c file.
pub open spec fn book_move_of(raw: u16) -> Move {
    let from = ((raw >> 6u16) & 0x3Fu16) as u8;
    let to = (raw & 0x3Fu16) as u8;
    let (target, castle): (u8, bool) = if from == 4 && to == 7 {
        (6, true)
    } else if from == 4 && to == 0 {
        (2, true)
    } else if from == 60 && to == 63 {
        (62, true)
    } else if from == 60 && to == 56 {
        (58, true)
    } else {
        (to, false)
    };
    Move {
        from,
        to: target,
        capture: false,
        en_passant: false,
        double_push: false,
        castle,
        promotion: book_promo((raw >> 12u16) & 7u16),
    }
}

impl BookEntry {
    /// The move of the entry in the engine's terms (never `None`).
    pub fn to_move(self) -> (r: Option<Move>)
        ensures
            r == Some(book_move_of(self.raw_move)),
    {
        let from_sq = ((self.raw_move >> 6u16) & 0x3F) as u8;
        let mut to_sq = (self.raw_move & 0x3F) as u8;
        let promo_piece = (self.raw_move >> 12u16) & 0x7;
        let mut is_castle = false;
        if from_sq == 4 && to_sq == 7 {
            to_sq = 6;
            is_castle = true;
        } else if from_sq == 4 && to_sq == 0 {
            to_sq = 2;
            is_castle = true;
        } else if from_sq == 60 && to_sq == 63 {
            to_sq = 62;
            is_castle = true;
        } else if from_sq == 60 && to_sq == 56 {
            to_sq = 58;
            is_castle = true;
        }
        let promo_kind = if promo_piece == 1 {
            Some(PieceKind::Knight)
        } else if promo_piece == 2 {
            Some(PieceKind::Bishop)
        } else if promo_piece == 3 {
            Some(PieceKind::Rook)
        } else if promo_piece == 4 {
            Some(PieceKind::Queen)
        } else {
            None
        };
        let mut m = Move::quiet(from_sq, to_sq);
        m.promotion = promo_kind;
        m.castle = is_castle;
        Some(m)
    }
}

/// Big-endian 16-bit number at `at`.
pub open spec fn be_u16(s: Seq<u8>, at: int) -> u16 {
    (256 * (s[at] as int) + s[at + 1] as int) as u16
}

/// Big-endian 32-bit number at `at`.
pub open spec fn be_u32(s: Seq<u8>, at: int) -> u32 {
    (16777216 * (s[at] as int) + 65536 * (s[at + 1] as int) + 256 * (s[at + 2] as int) + s[at
        + 3] as int) as u32
}

/// Big-endian 64-bit number at `at`.
pub open spec fn be_u64(s: Seq<u8>, at: int) -> u64 {
    (be_u32(s, at) as int * 4294967296 + be_u32(s, at + 4) as int) as u64
}

/// `byteorder`'s `BigEndian::read_u16` on the bytes from `at`: they read as a
/// big-endian number.
#[verifier::external_body]
fn read_u16_be(buf: &[u8], at: usize) -> (r: u16)
    requires
        at + 2 <= buf@.len(),
    ensures
        r == be_u16(buf@, at as int),
{
    <BigEndian as ByteOrder>::read_u16(&buf[at..])
}

/// `byteorder`'s `BigEndian::read_u32` on the bytes from `at`.
#[verifier::external_body]
fn read_u32_be(buf: &[u8], at: usize) -> (r: u32)
    requires
        at + 4 <= buf@.len(),
    ensures
        r == be_u32(buf@, at as int),
{
    <BigEndian as ByteOrder>::read_u32(&buf[at..])
}

/// `byteorder`'s `BigEndian::read_u64` on the bytes from `at`.
#[verifier::external_body]
fn read_u64_be(buf: &[u8], at: usize) -> (r: u64)
    requires
        at + 8 <= buf@.len(),
    ensures
        r == be_u64(buf@, at as int),
{
    <BigEndian as ByteOrder>::read_u64(&buf[at..])
}

/// The record at byte `at`: key, move, weight, learning field, all big-endian.
pub open spec fn record_at(s: Seq<u8>, at: int) -> BookEntry {
    BookEntry {
        key: be_u64(s, at),
        raw_move: be_u16(s, at + 8),
        weight: be_u16(s, at + 10),
        _learn: be_u32(s, at + 12),
    }
}

/// Keys never decrease along the entries (as a book file keeps them).
pub open spec fn keys_sorted(e: Seq<BookEntry>) -> bool {
    forall|i: int, j: int| 0 <= i <= j < e.len() ==> e[i].key <= e[j].key
}

/// `part` is the stretch of `whole` that starts at `lo`.
pub open spec fn run_at(whole: Seq<BookEntry>, part: Seq<BookEntry>, lo: int) -> bool {
    0 <= lo && lo + part.len() <= whole.len() && part == whole.subrange(lo, lo + part.len())
}

/// A book: its entries in file order.
pub struct OpeningBook {
    pub entries: Vec<BookEntry>,
}

/// Total weight of the first `n` entries.
pub open spec fn weight_before(e: Seq<BookEntry>, n: int) -> int
    decreases n,
{
    if n <= 0 {
        0
    } else {
        weight_before(e, n - 1) + e[n - 1].weight as int
    }
}

/// The entry a draw of `r` (below the total weight) lands on: the first whose
/// running total passes `r`.
pub open spec fn lands_on(e: Seq<BookEntry>, r: int, i: int) -> bool {
    0 <= i < e.len() && weight_before(e, i) <= r < weight_before(e, i + 1)
}

proof fn lemma_weight_mono(e: Seq<BookEntry>, i: int, j: int)
    requires
        0 <= i <= j <= e.len(),
    ensures
        weight_before(e, i) <= weight_before(e, j),
        weight_before(e, j) <= 65535 * j,
        weight_before(e, i) >= 0,
    decreases j,
{
    if j > 0 && i < j {
        lemma_weight_mono(e, i, j - 1);
    }
    if j > 0 {
        lemma_weight_mono(e, j - 1, j - 1);
    }
}

impl OpeningBook {
    /// Reads the records of a book file: one per 16 bytes, a short tail ignored.
    pub fn from_bytes(bytes: &[u8]) -> (b: OpeningBook)
        ensures
            b.entries@.len() == bytes@.len() / 16,
            forall|i: int| 0 <= i < b.entries@.len() ==> #[trigger] b.entries@[i] == record_at(bytes@, 16 * i),
    {
        let len = bytes.len();
        let n = len / 16;
        let mut entries: Vec<BookEntry> = Vec::new();
        let mut i: usize = 0;
        while i < n
            invariant
                i <= n,
                n == bytes@.len() / 16,
                n == len / 16,
                len == bytes@.len(),
                entries@.len() == i,
                forall|k: int| 0 <= k < i ==> #[trigger] entries@[k] == record_at(bytes@, 16 * k),
            decreases n - i,
        {
            assert(16 * i + 16 <= len) by (nonlinear_arith)
                requires
                    i < n,
                    n == len / 16,
            ;
            let at = 16 * i;
            let key = read_u64_be(bytes, at);
            let raw_move = read_u16_be(bytes, at + 8);
            let weight = read_u16_be(bytes, at + 10);
            let learn = read_u32_be(bytes, at + 12);
            entries.push(BookEntry { key, raw_move, weight, _learn: learn });
            i = i + 1;
        }
        OpeningBook { entries }
    }

    /// The entries of the position with key `key`: a run of consecutive entries
    /// that all carry it, found by binary search; in a book whose keys are sorted,
    /// exactly the entries that carry it.
    pub fn find_entries(&self, key: u64) -> (r: Vec<BookEntry>)
        ensures
            exists|lo: int| #[trigger] run_at(self.entries@, r@, lo),
            forall|i: int| 0 <= i < r@.len() ==> (#[trigger] r@[i]).key == key,
            keys_sorted(self.entries@) ==> forall|i: int|
                0 <= i < self.entries@.len() && (#[trigger] self.entries@[i]).key == key ==> r@.contains(self.entries@[i]),
    {
        let e = &self.entries;
        let n = e.len();
        let mut lo: usize = 0;
        let mut hi: usize = n;
        while lo < hi
            invariant
                lo <= hi <= n == e@.len(),
                keys_sorted(e@) ==> forall|i: int| 0 <= i < lo ==> (#[trigger] e@[i]).key < key,
                keys_sorted(e@) ==> forall|i: int| hi <= i < n ==> (#[trigger] e@[i]).key >= key,
            decreases hi - lo,
        {
            let mid = lo + (hi - lo) / 2;
            if e[mid].key < key {
                lo = mid + 1;
            } else {
                hi = mid;
            }
        }
        let mut end = lo;
        while end < n && e[end].key == key
            invariant
                lo <= end <= n == e@.len(),
                forall|i: int| lo <= i < end ==> (#[trigger] e@[i]).key == key,
            decreases n - end,
        {
            end = end + 1;
        }
        let mut r: Vec<BookEntry> = Vec::new();
        let mut j = lo;
        while j < end
            invariant
                lo <= j <= end <= n == e@.len(),
                r@ == e@.subrange(lo as int, j as int),
            decreases end - j,
        {
            r.push(e[j]);
            proof {
                assert(r@ =~= e@.subrange(lo as int, j + 1));
            }
            j = j + 1;
        }
        proof {
            assert(r@.len() == end - lo);
            assert(run_at(e@, r@, lo as int));
            assert forall|i: int| 0 <= i < r@.len() implies (#[trigger] r@[i]).key == key by {
                assert(r@[i] == e@[lo + i]);
            }
            if keys_sorted(e@) {
                assert forall|i: int| 0 <= i < e@.len() && (#[trigger] e@[i]).key == key implies r@.contains(e@[i]) by {
                    if i >= end {
                        assert(end < n && e@[end as int].key != key);
                        assert(e@[end as int].key >= key);
                        assert(e@[end as int].key <= e@[i].key);
                        assert(false);
                    }
                    assert(r@[i - lo] == e@[i]);
                }
            }
        }
        r
    }
}

/// Which entry a book draw picks: none without entries; the first when all weigh
/// nothing; else the entry that `draw` modulo the total weight lands on.
pub fn choose_entry(entries: &Vec<BookEntry>, draw: u32) -> (r: Option<usize>)
    ensures
        entries@.len() == 0 ==> r is None,
        entries@.len() > 0 && weight_before(entries@, entries@.len() as int) == 0 ==> r == Some(0usize),
        entries@.len() > 0 && weight_before(entries@, entries@.len() as int) > 0 ==> (r matches Some(i) && lands_on(
            entries@,
            draw as int % weight_before(entries@, entries@.len() as int),
            i as int,
        )),
{
    let n = entries.len();
    if n == 0 {
        return None;
    }
    let mut total: u128 = 0;
    let mut i: usize = 0;
    while i < n
        invariant
            i <= n == entries@.len(),
            total == weight_before(entries@, i as int),
            total <= 65535 * i,
        decreases n - i,
    {
        proof {
            lemma_weight_mono(entries@, i as int, i as int);
        }
        total = total + entries[i].weight as u128;
        i = i + 1;
    }
    if total == 0 {
        return Some(0);
    }
    let mut left: u128 = draw as u128 % total;
    let ghost target = left as int;
    let mut k: usize = 0;
    while k < n
        invariant
            k <= n == entries@.len(),
            0 <= target < total,
            target == draw as int % total as int,
            total == weight_before(entries@, n as int),
            left as int == target - weight_before(entries@, k as int),
            weight_before(entries@, k as int) <= target,
        decreases n - k,
    {
        let w = entries[k].weight as u128;
        assert(weight_before(entries@, k + 1) == weight_before(entries@, k as int) + entries@[k as int].weight);
        if left < w {
            return Some(k);
        }
        left = left - w;
        k = k + 1;
    }
    None
}

/// The entry `i` that a draw picks among `run`: the first when no entry weighs
/// anything, else the one that the draw modulo the total weight lands on.
pub open spec fn picks(run: Seq<BookEntry>, draw: u32, i: int) -> bool {
    if weight_before(run, run.len() as int) == 0 {
        i == 0
    } else {
        lands_on(run, draw as int % weight_before(run, run.len() as int), i)
    }
}

/// The draw taken for `run` from a generator in state `seed`: none (0) when no entry
/// weighs anything, else the low 32 bits of the generator's next output.
pub open spec fn book_draw(run: Seq<BookEntry>, seed: u64) -> u32 {
    if weight_before(run, run.len() as int) == 0 {
        0
    } else {
        vstd::wrapping::u64_specs::wrapping_mul(xorshift(seed), 0x2545_F491_4F6C_DD1Du64) as u32
    }
}

/// The book move for the position whose Polyglot key is `key`, in UCI notation: an
/// entry chosen by weight with a draw of `rng` (no draw when every entry weighs
/// nothing, the first entry then); none when the book has no entry for it.
pub fn get_book_move(book: &OpeningBook, key: u64, rng: &mut Rng) -> (r: Option<String>)
    ensures
        keys_sorted(book.entries@) && (forall|i: int| 0 <= i < book.entries@.len() ==> (#[trigger] book.entries@[i]).key != key)
            ==> r is None,
        r matches Some(t) ==> exists|i: int| 0 <= i < book.entries@.len() && (#[trigger] book.entries@[i]).key == key
            && t@ == crate::uci_io::spec_uci(book_move_of(book.entries@[i].raw_move)),
        r matches Some(t) ==> exists|lo: int, run: Seq<BookEntry>, i: int|
            #[trigger] run_at(book.entries@, run, lo) && run.len() > 0 && (forall|j: int| 0 <= j < run.len() ==> (#[trigger] run[j]).key == key)
                && 0 <= i < run.len() && #[trigger] picks(run, book_draw(run, old(rng).0), i)
                && t@ == crate::uci_io::spec_uci(book_move_of(run[i].raw_move)),
        keys_sorted(book.entries@) && (exists|i: int| 0 <= i < book.entries@.len() && (#[trigger] book.entries@[i]).key == key)
            ==> r is Some,
        final(rng).0 == old(rng).0 || final(rng).0 == xorshift(old(rng).0),
{
    let entries = book.find_entries(key);
    if entries.len() == 0 {
        return None;
    }
    let mut total: u128 = 0;
    let mut i: usize = 0;
    while i < entries.len()
        invariant
            i <= entries@.len(),
            total == weight_before(entries@, i as int),
            total <= 65535 * i,
        decreases entries@.len() - i,
    {
        proof {
            lemma_weight_mono(entries@, i as int, i as int);
        }
        total = total + entries[i].weight as u128;
        i = i + 1;
    }
    let draw: u32 = if total == 0 {
        0
    } else {
        rng.rand() as u32
    };
    proof {
        assert(draw == book_draw(entries@, old(rng).0));
    }
    match choose_entry(&entries, draw) {
        Some(k) => {
            proof {
                let lo = choose|lo: int| run_at(book.entries@, entries@, lo);
                assert(book.entries@[lo + k] == entries@[k as int]);
                assert(picks(entries@, draw, k as int));
            }
            let m = entries[k].to_move();
            match m {
                Some(mv) => Some(format_uci(mv)),
                None => None,
            }
        },
        None => None,
    }
}

} // verus!
