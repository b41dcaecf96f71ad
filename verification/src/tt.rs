//! The transposition table: 16-byte entries packed into a key and a 64-bit word,
//! four entries per cluster, and a table of locked shards shared between threads.
use vstd::prelude::*;
use vstd::rwlock::{RwLock, RwLockPredicate};
use std::sync::Arc;
use crate::types::{spec_move_from_u16, spec_move_to_u16, Move, ZKey};

verus! {

/// Whether a stored score is exact or a bound.
#[derive(Copy, Clone, Debug, Eq, PartialEq, Structural)]
pub enum Bound {
    Exact,
    Lower,
    Upper,
}

/// The two-bit code of a bound.
pub open spec fn bound_code(b: Bound) -> u8 {
    match b {
        Bound::Exact => 0,
        Bound::Lower => 1,
        Bound::Upper => 2,
    }
}

/// The bound a code stands for; codes past 1 read as `Upper`.
pub open spec fn spec_bound_from_u8(v: u8) -> Bound {
    if v == 0 {
        Bound::Exact
    } else if v == 1 {
        Bound::Lower
    } else {
        Bound::Upper
    }
}

impl Bound {
    fn from_u8(val: u8) -> (b: Self)
        ensures
            b == spec_bound_from_u8(val),
    {
        if val == 0 {
            Bound::Exact
        } else if val == 1 {
            Bound::Lower
        } else {
            Bound::Upper
        }
    }

    fn code(self) -> (c: u8)
        ensures
            c == bound_code(self),
    {
        match self {
            Bound::Exact => 0,
            Bound::Lower => 1,
            Bound::Upper => 2,
        }
    }
}

/// The 16-bit code of an optional best move (0 for none).
pub open spec fn move_code(m: Option<Move>) -> u16 {
    match m {
        Some(mv) => spec_move_to_u16(mv),
        None => 0,
    }
}

/// The data word: score in bits 0..16, move in 16..32, depth in 32..40, age in
/// 40..48, bound in 48..50.
pub open spec fn pack_data(depth: i16, score: i32, bound: Bound, code: u16, age: u8) -> u64 {
    ((score as i16) as u16 as u64) | ((code as u64) << 16u64) | (((depth as u8) as u64) << 32u64)
        | ((age as u64) << 40u64) | ((bound_code(bound) as u64) << 48u64)
}

pub open spec fn data_score(d: u64) -> i32 {
    ((d & 0xFFFFu64) as i16) as i32
}

pub open spec fn data_code(d: u64) -> u16 {
    ((d >> 16u64) & 0xFFFFu64) as u16
}

pub open spec fn data_depth(d: u64) -> i16 {
    ((d >> 32u64) & 0xFFu64) as u8 as i16
}

pub open spec fn data_age(d: u64) -> u8 {
    ((d >> 40u64) & 0xFFu64) as u8
}

pub open spec fn data_bound(d: u64) -> Bound {
    spec_bound_from_u8(((d >> 48u64) & 3u64) as u8)
}

/// The move a stored code stands for: none for 0.
pub open spec fn code_move(c: u16) -> Option<Move> {
    if c == 0 {
        None
    } else {
        Some(spec_move_from_u16(c))
    }
}

/// What the fields of a packed data word read back as.
proof fn lemma_pack(score: i32, depth: i16, code: u16, age: u8, bc: u8)
    by (bit_vector)
    requires
        bc <= 2,
    ensures
        ((((score as i16) as u16 as u64) | ((code as u64) << 16u64) | (((depth as u8) as u64) << 32u64)
            | ((age as u64) << 40u64) | ((bc as u64) << 48u64)) & 0xFFFFu64) as i16 == score as i16,
        (((((score as i16) as u16 as u64) | ((code as u64) << 16u64) | (((depth as u8) as u64) << 32u64)
            | ((age as u64) << 40u64) | ((bc as u64) << 48u64)) >> 16u64) & 0xFFFFu64) as u16 == code,
        (((((score as i16) as u16 as u64) | ((code as u64) << 16u64) | (((depth as u8) as u64) << 32u64)
            | ((age as u64) << 40u64) | ((bc as u64) << 48u64)) >> 32u64) & 0xFFu64) as u8 == depth as u8,
        (((((score as i16) as u16 as u64) | ((code as u64) << 16u64) | (((depth as u8) as u64) << 32u64)
            | ((age as u64) << 40u64) | ((bc as u64) << 48u64)) >> 40u64) & 0xFFu64) as u8 == age,
        (((((score as i16) as u16 as u64) | ((code as u64) << 16u64) | (((depth as u8) as u64) << 32u64)
            | ((age as u64) << 40u64) | ((bc as u64) << 48u64)) >> 48u64) & 3u64) as u8 == bc,
        -32768 <= score <= 32767 ==> (score as i16) as i32 == score,
        0 <= depth <= 255 ==> (depth as u8) as i16 == depth,
{
}

/// A masked value is at most its mask.
pub proof fn lemma_and_le()
    by (bit_vector)
    ensures
        forall|x: usize, m: usize| #[trigger] (x & m) <= m,
{
}

/// A table entry: the position key and the packed data word (see `pack_data`).
#[derive(Copy, Clone, Debug)]
pub struct TTEntry {
    pub key: ZKey,
    pub data: u64,
}

impl Default for TTEntry {
    fn default() -> (e: Self)
        ensures
            e.key == 0 && e.data == 0,
    {
        TTEntry { key: 0, data: 0 }
    }
}

impl TTEntry {
    pub open spec fn spec_score(&self) -> i32 {
        data_score(self.data)
    }

    pub open spec fn spec_depth(&self) -> i16 {
        data_depth(self.data)
    }

    pub open spec fn spec_age(&self) -> u8 {
        data_age(self.data)
    }

    pub open spec fn spec_bound(&self) -> Bound {
        data_bound(self.data)
    }

    pub open spec fn spec_best_move(&self) -> Option<Move> {
        code_move(data_code(self.data))
    }

    /// Packs an entry. The score keeps its low 16 bits and the depth its low 8 bits;
    /// the move, age and bound come back as given.
    pub fn new(key: ZKey, depth: i16, score: i32, bound: Bound, best_move: Option<Move>, age: u8) -> (e: Self)
        ensures
            e.key == key,
            e.data == pack_data(depth, score, bound, move_code(best_move), age),
            e.spec_score() == (score as i16) as i32,
            e.spec_depth() == (depth as u8) as i16,
            e.spec_age() == age,
            e.spec_bound() == bound,
            data_code(e.data) == move_code(best_move),
    {
        let packed_score = (score as i16) as u16 as u64;
        let packed_depth = (depth as u8) as u64;
        let code: u16 = match best_move {
            Some(m) => m.to_u16(),
            None => 0,
        };
        let packed_move = code as u64;
        let packed_age = age as u64;
        let bc = bound.code();
        let packed_bound = bc as u64;
        let data = packed_score | (packed_move << 16u64) | (packed_depth << 32u64) | (packed_age
            << 40u64) | (packed_bound << 48u64);
        proof {
            lemma_pack(score, depth, code, age, bc);
        }
        TTEntry { key, data }
    }

    /// The stored score (16 bits, sign-extended).
    pub fn score(&self) -> (r: i32)
        ensures
            r == self.spec_score(),
    {
        ((self.data & 0xFFFF) as i16) as i32
    }

    /// The stored depth (8 bits).
    pub fn depth(&self) -> (r: i16)
        ensures
            r == self.spec_depth(),
    {
        ((self.data >> 32u64) & 0xFF) as u8 as i16
    }

    /// The stored best move; code 0 reads as none.
    pub fn best_move(&self) -> (r: Option<Move>)
        ensures
            r == self.spec_best_move(),
    {
        let packed_move = ((self.data >> 16u64) & 0xFFFF) as u16;
        if packed_move == 0 {
            None
        } else {
            Some(Move::from_u16(packed_move))
        }
    }

    /// The table age at which the entry was written.
    pub fn age(&self) -> (r: u8)
        ensures
            r == self.spec_age(),
    {
        ((self.data >> 40u64) & 0xFF) as u8
    }

    /// The kind of bound the score is.
    pub fn bound(&self) -> (r: Bound)
        ensures
            r == self.spec_bound(),
    {
        Bound::from_u8(((self.data >> 48u64) & 3) as u8)
    }

    /// An entry with key 0 is free.
    pub fn is_empty(&self) -> (r: bool)
        ensures
            r == (self.key == 0),
    {
        self.key == 0
    }
}

/// Reading an entry back gives what was packed into it: the score in 16 bits, the
/// depth in 8 bits, the age, the bound, and the best move for every move whose
/// code is nonzero and that the move code keeps intact.
pub proof fn lemma_entry_roundtrip(key: ZKey, depth: i16, score: i32, bound: Bound, best_move: Option<Move>, age: u8, e: TTEntry)
    requires
        e.key == key,
        e.data == pack_data(depth, score, bound, move_code(best_move), age),
        match best_move {
            Some(m) => crate::types::move_is_encodable(m) && spec_move_to_u16(m) != 0,
            None => true,
        },
    ensures
        e.spec_score() == (score as i16) as i32,
        e.spec_depth() == (depth as u8) as i16,
        e.spec_age() == age,
        e.spec_bound() == bound,
        e.spec_best_move() == best_move,
        -32768 <= score <= 32767 ==> e.spec_score() == score,
        0 <= depth <= 255 ==> e.spec_depth() == depth,
{
    lemma_pack(score, depth, move_code(best_move), age, bound_code(bound));
    if let Some(m) = best_move {
        crate::types::lemma_move_code_roundtrip(m);
    }
}

/// Four entries sharing one slot of the table.
#[derive(Copy, Clone, Debug)]
pub struct TTCluster {
    entries: [TTEntry; 4],
}

impl Default for TTCluster {
    fn default() -> (c: Self)
        ensures
            forall|i: int| 0 <= i < 4 ==> (#[trigger] c.view()[i]).key == 0 && c.view()[i].data == 0,
    {
        TTCluster { entries: [TTEntry::default(), TTEntry::default(), TTEntry::default(), TTEntry::default()] }
    }
}

impl View for TTCluster {
    type V = Seq<TTEntry>;

    closed spec fn view(&self) -> Seq<TTEntry> {
        self.entries@
    }
}

/// The first of the four entries with key `key`, or -1.
pub open spec fn first_with_key(c: Seq<TTEntry>, key: u64) -> int {
    if c[0].key == key {
        0
    } else if c[1].key == key {
        1
    } else if c[2].key == key {
        2
    } else if c[3].key == key {
        3
    } else {
        -1
    }
}

/// How much an entry is worth keeping: twice its depth less how many ages ago it was written.
pub open spec fn keep_quality(e: TTEntry, age: u8) -> int {
    (e.spec_depth() as int) * 2 - (((age - e.spec_age()) % 256) as int)
}

/// The entry to overwrite in a full cluster: the first with the lowest quality.
pub open spec fn weakest(c: Seq<TTEntry>, age: u8) -> int {
    let j1: int = if keep_quality(c[1], age) < keep_quality(c[0], age) { 1 } else { 0 };
    let j2: int = if keep_quality(c[2], age) < keep_quality(c[j1], age) { 2 } else { j1 };
    if keep_quality(c[3], age) < keep_quality(c[j2], age) { 3 } else { j2 }
}

/// The cluster after storing `e` (whose key is `key`) at table age `age`: an entry
/// with the same key is overwritten when it is from this age or not deeper, and
/// kept otherwise; else the first free entry takes it; else the weakest entry.
pub open spec fn stored_cluster(c: Seq<TTEntry>, key: u64, e: TTEntry, age: u8) -> Seq<TTEntry> {
    let j = first_with_key(c, key);
    if j >= 0 {
        if age == c[j].spec_age() || e.spec_depth() >= c[j].spec_depth() {
            c.update(j, e)
        } else {
            c
        }
    } else {
        let f = first_with_key(c, 0);
        if f >= 0 {
            c.update(f, e)
        } else {
            c.update(weakest(c, age), e)
        }
    }
}

/// Number of non-free entries in the first `n` clusters.
pub open spec fn filled(slots: Seq<TTCluster>, n: int) -> int
    decreases n,
{
    if n <= 0 {
        0
    } else {
        filled(slots, n - 1) + (if slots[n - 1]@[0].key != 0 { 1int } else { 0 }) + (if slots[n
            - 1]@[1].key != 0 { 1int } else { 0 }) + (if slots[n - 1]@[2].key != 0 { 1int } else { 0 })
            + (if slots[n - 1]@[3].key != 0 { 1int } else { 0 })
    }
}

proof fn lemma_filled_bound(slots: Seq<TTCluster>, n: int)
    requires
        0 <= n,
    ensures
        0 <= filled(slots, n) <= 4 * n,
    decreases n,
{
    if n > 0 {
        lemma_filled_bound(slots, n - 1);
    }
}

/// `n` is a power of two.
pub open spec fn is_power_of_two(n: int) -> bool
    decreases n,
{
    if n <= 0 {
        false
    } else if n == 1 {
        true
    } else {
        n % 2 == 0 && is_power_of_two(n / 2)
    }
}

/// The smallest power of two that is at least `n` (for `n >= 1`).
fn next_power_of_two(n: usize) -> (p: usize)
    requires
        1 <= n <= usize::MAX / 4,
    ensures
        is_power_of_two(p as int),
        n <= p < 2 * n,
{
    let mut p: usize = 1;
    while p < n
        invariant
            1 <= p < 2 * n,
            n <= usize::MAX / 4,
            is_power_of_two(p as int),
        decreases 2 * n - p,
    {
        assert((2 * p) as int / 2 == p);
        p = p * 2;
    }
    p
}

/// Bytes of one cluster: four entries of 16 bytes.
pub const CLUSTER_BYTES: usize = 64;

/// One shard of the table: a power-of-two number of clusters, indexed by the low
/// bits of the key, and the current age.
pub struct TransTable {
    slots: Vec<TTCluster>,
    mask: usize,
    age: u8,
}

impl TransTable {
    /// The clusters, the index mask and the age are in step.
    pub closed spec fn wf(&self) -> bool {
        &&& self.slots@.len() == self.mask + 1
        &&& is_power_of_two(self.slots@.len() as int)
        &&& self.slots@.len() <= usize::MAX / 32
    }

    /// The clusters, each as its four entries.
    pub closed spec fn clusters(&self) -> Seq<TTCluster> {
        self.slots@
    }

    pub closed spec fn spec_mask(&self) -> usize {
        self.mask
    }

    pub closed spec fn spec_age(&self) -> u8 {
        self.age
    }

    /// The cluster that a key belongs to.
    pub open spec fn slot_of(&self, key: u64) -> int {
        ((key as usize) & self.spec_mask()) as int
    }

    /// A table of at least 64 bytes and about `mb` megabytes: the number of
    /// clusters is the smallest power of two not below the byte size over 64. All
    /// entries are free and the age is 0.
    pub fn with_mb(mb: usize) -> (t: Self)
        ensures
            t.wf(),
            t.spec_age() == 0,
            ({
                let bytes: int = if mb * 1048576 > usize::MAX { usize::MAX as int } else { mb * 1048576 };
                let want: int = if bytes / 64 >= 1 { bytes / 64 } else { 1 };
                want <= t.clusters().len() < 2 * want
            }),
            forall|i: int, j: int| 0 <= i < t.clusters().len() && 0 <= j < 4 ==> (#[trigger] t.clusters()[i]@[j]).key == 0,
    {
        let bytes0 = match mb.checked_mul(1024 * 1024) {
            Some(b) => b,
            None => usize::MAX,
        };
        let bytes = if bytes0 < 64 {
            64
        } else {
            bytes0
        };
        let want = bytes / CLUSTER_BYTES;
        let want = if want < 1 {
            1
        } else {
            want
        };
        let count = next_power_of_two(want);
        let mut slots: Vec<TTCluster> = Vec::new();
        let mut i: usize = 0;
        while i < count
            invariant
                i <= count,
                slots@.len() == i,
                forall|a: int, j: int| 0 <= a < i && 0 <= j < 4 ==> (#[trigger] slots@[a]@[j]).key == 0,
            decreases count - i,
        {
            slots.push(TTCluster::default());
            i = i + 1;
        }
        TransTable { slots, mask: count - 1, age: 0 }
    }

    /// Moves the table one age on (wrapping).
    pub fn tick_age(&mut self)
        ensures
            final(self).spec_age() == (old(self).spec_age() + 1) % 256,
            final(self).clusters() == old(self).clusters(),
            final(self).spec_mask() == old(self).spec_mask(),
            old(self).wf() ==> final(self).wf(),
    {
        self.age = self.age.wrapping_add(1);
    }

    fn idx(&self, key: ZKey) -> (i: usize)
        requires
            self.wf(),
        ensures
            i == self.slot_of(key),
            i < self.clusters().len(),
    {
        let m = self.mask;
        let k = key as usize;
        proof {
            lemma_and_le();
        }
        k & m
    }

    /// Frees every entry and moves the table one age on.
    pub fn clear(&mut self)
        requires
            old(self).wf(),
        ensures
            final(self).wf(),
            final(self).clusters().len() == old(self).clusters().len(),
            final(self).spec_mask() == old(self).spec_mask(),
            forall|i: int, j: int| 0 <= i < final(self).clusters().len() && 0 <= j < 4 ==> (#[trigger] final(self).clusters()[i]@[j]).key == 0,
            final(self).spec_age() == (old(self).spec_age() + 1) % 256,
    {
        let n = self.slots.len();
        let mut i: usize = 0;
        while i < n
            invariant
                i <= n,
                n == self.slots@.len(),
                self.wf(),
                self.mask == old(self).mask,
                self.age == old(self).age,
                forall|a: int, j: int| 0 <= a < i && 0 <= j < 4 ==> (#[trigger] self.slots@[a]@[j]).key == 0,
            decreases n - i,
        {
            self.slots.set(i, TTCluster::default());
            i = i + 1;
        }
        self.tick_age();
    }

    /// The first entry of the key's cluster that has this key.
    pub fn probe(&self, key: ZKey) -> (r: Option<TTEntry>)
        requires
            self.wf(),
        ensures
            ({
                let c = self.clusters()[self.slot_of(key)]@;
                let j = first_with_key(c, key);
                r == (if j >= 0 {
                    Some(c[j])
                } else {
                    None::<TTEntry>
                })
            }),
    {
        let idx = self.idx(key);
        let cluster = &self.slots[idx];
        let mut j: usize = 0;
        while j < 4
            invariant
                j <= 4,
                idx == self.slot_of(key),
                *cluster == self.clusters()[idx as int],
                forall|k: int| 0 <= k < j ==> (#[trigger] cluster@[k]).key != key,
            decreases 4 - j,
        {
            if cluster.entries[j].key == key {
                return Some(cluster.entries[j]);
            }
            j = j + 1;
        }
        None
    }

    /// Stores an entry for `key` at the current age, by the replacement rule of
    /// `stored_cluster`; only the key's cluster changes.
    pub fn store(&mut self, key: ZKey, depth: i16, score: i32, bound: Bound, best_move: Option<Move>)
        requires
            old(self).wf(),
        ensures
            final(self).wf(),
            final(self).spec_mask() == old(self).spec_mask(),
            final(self).spec_age() == old(self).spec_age(),
            ({
                let i = old(self).slot_of(key);
                let e = TTEntry {
                    key,
                    data: pack_data(depth, score, bound, move_code(best_move), old(self).spec_age()),
                };
                &&& final(self).clusters().len() == old(self).clusters().len()
                &&& forall|k: int| 0 <= k < old(self).clusters().len() && k != i ==> #[trigger] final(self).clusters()[k] == old(self).clusters()[k]
                &&& final(self).clusters()[i]@ == stored_cluster(old(self).clusters()[i]@, key, e, old(self).spec_age())
            }),
    {
        let i = self.idx(key);
        let mut cluster = self.slots[i];
        let age = self.age;
        let new_entry = TTEntry::new(key, depth, score, bound, best_move, age);
        let ghost c0 = cluster@;
        let mut j: usize = 0;
        while j < 4
            invariant
                j <= 4,
                cluster@ == c0,
                c0 == old(self).clusters()[i as int]@,
                i == old(self).slot_of(key),
                i < old(self).clusters().len(),
                self.slots@ == old(self).slots@,
                self.mask == old(self).mask,
                self.age == old(self).age,
                age == self.age,
                old(self).wf(),
                new_entry == (TTEntry { key, data: pack_data(depth, score, bound, move_code(best_move), age) }),
                forall|k: int| 0 <= k < j ==> (#[trigger] c0[k]).key != key,
            decreases 4 - j,
        {
            if cluster.entries[j].key == key {
                let old_e = cluster.entries[j];
                if age == old_e.age() || new_entry.depth() >= old_e.depth() {
                    cluster.entries[j] = new_entry;
                }
                assert(first_with_key(c0, key) == j);
                self.slots.set(i, cluster);
                assert(cluster@ =~= stored_cluster(c0, key, new_entry, age));
                return;
            }
            j = j + 1;
        }
        assert(first_with_key(c0, key) == -1);
        let mut j: usize = 0;
        while j < 4
            invariant
                j <= 4,
                cluster@ == c0,
                c0 == old(self).clusters()[i as int]@,
                i == old(self).slot_of(key),
                i < old(self).clusters().len(),
                self.slots@ == old(self).slots@,
                self.mask == old(self).mask,
                self.age == old(self).age,
                age == self.age,
                old(self).wf(),
                new_entry == (TTEntry { key, data: pack_data(depth, score, bound, move_code(best_move), age) }),
                first_with_key(c0, key) == -1,
                forall|k: int| 0 <= k < j ==> (#[trigger] c0[k]).key != 0,
            decreases 4 - j,
        {
            if cluster.entries[j].is_empty() {
                cluster.entries[j] = new_entry;
                assert(first_with_key(c0, 0) == j);
                self.slots.set(i, cluster);
                assert(cluster@ =~= stored_cluster(c0, key, new_entry, age));
                return;
            }
            j = j + 1;
        }
        assert(first_with_key(c0, 0) == -1);
        let mut replace_idx: usize = 0;
        let mut worst_quality: i32 = i32::MAX;
        let mut k: usize = 0;
        while k < 4
            invariant
                k <= 4,
                cluster@ == c0,
                replace_idx < 4,
                age == self.age,
                k == 0 ==> worst_quality == i32::MAX && replace_idx == 0,
                k > 0 ==> worst_quality == keep_quality(c0[replace_idx as int], age),
                k == 1 ==> replace_idx == 0,
                k == 2 ==> replace_idx == (if keep_quality(c0[1], age) < keep_quality(c0[0], age) { 1int } else { 0 }),
                k == 3 ==> replace_idx == ({
                    let j1: int = if keep_quality(c0[1], age) < keep_quality(c0[0], age) { 1 } else { 0 };
                    if keep_quality(c0[2], age) < keep_quality(c0[j1], age) { 2 } else { j1 }
                }),
                k == 4 ==> replace_idx == weakest(c0, age),
            decreases 4 - k,
        {
            let e = cluster.entries[k];
            let d = e.depth() as i32;
            let gap = age.wrapping_sub(e.age()) as i32;
            assert(0 <= d <= 255);
            let quality = d * 2 - gap;
            if quality < worst_quality {
                worst_quality = quality;
                replace_idx = k;
            }
            k = k + 1;
        }
        cluster.entries[replace_idx] = new_entry;
        self.slots.set(i, cluster);
        assert(cluster@ =~= stored_cluster(c0, key, new_entry, age));
    }

    /// Free-entry count and entry count.
    pub fn stats(&self) -> (r: (usize, usize))
        requires
            self.wf(),
        ensures
            r.0 == filled(self.clusters(), self.clusters().len() as int),
            r.1 == 4 * self.clusters().len(),
            r.0 <= r.1,
    {
        let n = self.slots.len();
        let mut count: usize = 0;
        let mut i: usize = 0;
        while i < n
            invariant
                i <= n,
                n == self.slots@.len(),
                n <= usize::MAX / 32,
                count == filled(self.slots@, i as int),
            decreases n - i,
        {
            proof {
                lemma_filled_bound(self.slots@, i as int);
            }
            let c = &self.slots[i];
            let mut add: usize = 0;
            if c.entries[0].key != 0 {
                add = add + 1;
            }
            if c.entries[1].key != 0 {
                add = add + 1;
            }
            if c.entries[2].key != 0 {
                add = add + 1;
            }
            if c.entries[3].key != 0 {
                add = add + 1;
            }
            count = count + add;
            i = i + 1;
        }
        proof {
            lemma_filled_bound(self.slots@, n as int);
        }
        (count, n * 4)
    }
}

/// After storing an entry for a key, probing that key finds an entry with the key:
/// the new one, unless an entry for the key from an older age and greater depth was
/// kept in its place.
pub proof fn lemma_store_then_probe(t: TransTable, u: TransTable, key: u64, depth: i16, score: i32, bound: Bound, best_move: Option<Move>)
    requires
        t.wf(),
        u.wf(),
        u.spec_mask() == t.spec_mask(),
        u.clusters().len() == t.clusters().len(),
        u.clusters()[t.slot_of(key)]@ == stored_cluster(
            t.clusters()[t.slot_of(key)]@,
            key,
            TTEntry { key, data: pack_data(depth, score, bound, move_code(best_move), t.spec_age()) },
            t.spec_age(),
        ),
    ensures
        ({
            let c = u.clusters()[u.slot_of(key)]@;
            let j = first_with_key(c, key);
            let old_c = t.clusters()[t.slot_of(key)]@;
            let oj = first_with_key(old_c, key);
            let e = TTEntry { key, data: pack_data(depth, score, bound, move_code(best_move), t.spec_age()) };
            &&& j >= 0
            &&& c[j].key == key
            &&& (oj < 0 || t.spec_age() == old_c[oj].spec_age() || e.spec_depth() >= old_c[oj].spec_depth()) ==> c[j] == e
        }),
{
}

/// A key scrambled before it picks a shard: three right-shift XORs by 33 with two
/// wrapping multiplications between them.
pub open spec fn key_mix(key: u64) -> u64 {
    let x1 = key ^ (key >> 33u64);
    let x2 = vstd::wrapping::u64_specs::wrapping_mul(x1, 0xff51afd7ed558ccdu64);
    let x3 = x2 ^ (x2 >> 33u64);
    let x4 = vstd::wrapping::u64_specs::wrapping_mul(x3, 0xc4ceb9fe1a85ec53u64);
    x4 ^ (x4 >> 33u64)
}

/// How many shards a machine with `cpus` logical CPUs gets: `cpus / 8 + 1`, rounded
/// up to a power of two, at most 8.
pub open spec fn shards_for_cpus(cpus: usize) -> usize {
    let base = cpus / 8 + 1;
    if base <= 1 {
        1
    } else if base <= 2 {
        2
    } else if base <= 4 {
        4
    } else {
        8
    }
}

/// The lock's condition on a shard: it is a well-formed table of `clusters`
/// clusters.
pub struct ShardInv {
    pub clusters: usize,
}

impl RwLockPredicate<TransTable> for ShardInv {
    open spec fn inv(self, t: TransTable) -> bool {
        t.wf() && t.clusters().len() == self.clusters
    }
}

/// A cluster count that `TransTable::with_mb(mb)` makes: the smallest power of two
/// not below the byte size over 64 lies in this range.
pub open spec fn sized_for(mb: int, clusters: int) -> bool {
    let bytes: int = if mb * 1048576 > usize::MAX { usize::MAX as int } else { mb * 1048576 };
    let want: int = if bytes / 64 >= 1 { bytes / 64 } else { 1 };
    want <= clusters < 2 * want
}

/// The megabytes given to shard `i` of `n` for a table of `size_mb`: an even
/// share, one more for the first `size_mb % n` shards, at least one.
pub open spec fn shard_mb(size_mb: int, n: int, i: int) -> int {
    let per = size_mb / n;
    let mb = if per < usize::MAX { per + (if i < size_mb % n { 1int } else { 0int }) } else { per };
    if mb < 1 { 1 } else { mb }
}

/// Number of logical CPUs, through `num_cpus::get`, which documents a result of at least 1.
#[verifier::external_body]
fn cpu_count() -> (n: usize)
    ensures
        n >= 1,
{
    num_cpus::get()
}

/// The table shared by the search threads: a power-of-two number (at most 8) of
/// shards, each a `TransTable` behind a lock.
pub struct SharedTransTable {
    shards: Vec<Arc<RwLock<TransTable, ShardInv>>>,
    shard_mask: usize,
}

impl SharedTransTable {
    #[verifier::type_invariant]
    spec fn shards_ok(&self) -> bool {
        &&& 1 <= self.shards@.len() <= 8
        &&& self.shard_mask == self.shards@.len() - 1
        &&& is_power_of_two(self.shards@.len() as int)
    }

    /// The number of clusters of shard `i`.
    pub closed spec fn shard_clusters(&self, i: int) -> int {
        self.shards@[i].pred().clusters as int
    }

    /// Entry slots of the first `n` shards: four a cluster.
    pub closed spec fn slots_upto(&self, n: int) -> int
        decreases n,
    {
        if n <= 0 {
            0
        } else {
            self.slots_upto(n - 1) + 4 * self.shard_clusters(n - 1)
        }
    }

    /// Entry slots of the whole table.
    pub closed spec fn total_slots(&self) -> int {
        self.slots_upto(self.shard_count())
    }

    /// Number of shards.
    pub closed spec fn shard_count(&self) -> int {
        self.shards@.len() as int
    }

    /// The shard that holds `key`: the scrambled key masked to the shard count (a
    /// power of two), else the key modulo the shard count.
    pub closed spec fn shard_of(&self, key: u64) -> int {
        let n = self.shards@.len() as usize;
        if n & ((n - 1) as usize) == 0 {
            ((key_mix(key) as usize) & self.shard_mask) as int
        } else {
            ((key as usize) % n) as int
        }
    }

    /// One shard per 8 CPUs and one more, rounded up to a power of two, at most 8.
    fn pick_shard_count() -> (n: usize)
        ensures
            1 <= n <= 8,
            is_power_of_two(n as int),
            exists|cpus: usize| cpus >= 1 && n == shards_for_cpus(cpus),
    {
        let cpus = cpu_count();
        let base = cpus / 8 + 1;
        let n: usize = if base <= 1 {
            1
        } else if base <= 2 {
            2
        } else if base <= 4 {
            4
        } else {
            8
        };
        proof {
            assert(is_power_of_two(1));
            assert(is_power_of_two(2));
            assert(is_power_of_two(4));
            assert(is_power_of_two(8));
            assert(n == shards_for_cpus(cpus));
        }
        n
    }

    /// A table of about `size_mb` megabytes, split evenly over the shards (each at
    /// least one megabyte; the first `size_mb % shards` get one more).
    pub fn new(size_mb: usize) -> (t: Self)
        ensures
            1 <= t.shard_count() <= 8,
            is_power_of_two(t.shard_count()),
            exists|cpus: usize| cpus >= 1 && t.shard_count() == shards_for_cpus(cpus),
            forall|i: int| 0 <= i < t.shard_count() ==> sized_for(shard_mb(size_mb as int, t.shard_count(), i), #[trigger] t.shard_clusters(i)),
    {
        let count = Self::pick_shard_count();
        let per_shard = size_mb / count;
        let remainder = size_mb % count;
        let mut shards: Vec<Arc<RwLock<TransTable, ShardInv>>> = Vec::new();
        let mut i: usize = 0;
        while i < count
            invariant
                i <= count,
                count <= 8,
                per_shard <= size_mb,
                shards@.len() == i,
                count >= 1,
                per_shard == size_mb / count,
                remainder == size_mb % count,
                forall|k: int| 0 <= k < i ==> sized_for(shard_mb(size_mb as int, count as int, k), #[trigger] shards@[k].pred().clusters as int),
            decreases count - i,
        {
            let extra: usize = if i < remainder {
                1
            } else {
                0
            };
            let mb = if per_shard < usize::MAX {
                per_shard + extra
            } else {
                per_shard
            };
            let mb = if mb < 1 {
                1
            } else {
                mb
            };
            let table = TransTable::with_mb(mb);
            let ghost inv = ShardInv { clusters: table.clusters().len() as usize };
            proof {
                assert(mb as int == shard_mb(size_mb as int, count as int, i as int));
            }
            shards.push(Arc::new(RwLock::new(table, Ghost(inv))));
            i = i + 1;
        }
        SharedTransTable { shards, shard_mask: count - 1 }
    }

    fn shard_index(&self, key: ZKey) -> (i: usize)
        ensures
            i < self.shard_count(),
            i == (key_mix(key) as usize) & self.shard_mask,
    {
        proof {
            use_type_invariant(self);
        }
        let mut x = key;
        x = x ^ (x >> 33u64);
        x = x.wrapping_mul(0xff51afd7ed558ccd);
        x = x ^ (x >> 33u64);
        x = x.wrapping_mul(0xc4ceb9fe1a85ec53);
        x = x ^ (x >> 33u64);
        let m = self.shard_mask;
        let xs = x as usize;
        proof {
            lemma_and_le();
        }
        xs & m
    }

    fn shard_for(&self, key: ZKey) -> (r: &Arc<RwLock<TransTable, ShardInv>>)
        ensures
            0 <= self.shard_of(key) < self.shard_count(),
            *r == self.shards@[self.shard_of(key)],
    {
        proof {
            use_type_invariant(self);
        }
        let n = self.shards.len();
        let idx = if n & (n - 1) == 0 {
            self.shard_index(key)
        } else {
            (key as usize) % n
        };
        &self.shards[idx]
    }

    /// Looks the key up in its shard. What the shard holds depends on the other
    /// threads, so all that is known of a result is that it has this key.
    pub fn probe(&self, key: ZKey) -> (r: Option<TTEntry>)
        ensures
            r matches Some(e) ==> e.key == key,
    {
        let lock = self.shard_for(key);
        let handle = lock.acquire_read();
        let r = handle.borrow().probe(key);
        handle.release_read();
        proof {
            if let Some(e) = r {
                let t = handle.view();
                let c = t.clusters()[t.slot_of(key)]@;
                assert(c[first_with_key(c, key)].key == key);
            }
        }
        r
    }

    /// Stores an entry in the key's shard under its lock.
    pub fn store(&self, key: ZKey, depth: i16, score: i32, bound: Bound, best_move: Option<Move>) {
        let lock = self.shard_for(key);
        let (mut table, handle) = lock.acquire_write();
        table.store(key, depth, score, bound, best_move);
        handle.release_write(table);
    }

    /// Frees every entry of every shard (each also ages by one).
    pub fn clear(&self) {
        proof {
            use_type_invariant(self);
        }
        let n = self.shards.len();
        let mut i: usize = 0;
        while i < n
            invariant
                i <= n,
                n == self.shards@.len(),
            decreases n - i,
        {
            let lock = &self.shards[i];
            let (mut table, handle) = lock.acquire_write();
            table.clear();
            handle.release_write(table);
            i = i + 1;
        }
    }

    /// Moves every shard one age on.
    pub fn tick_age(&self) {
        proof {
            use_type_invariant(self);
        }
        let n = self.shards.len();
        let mut i: usize = 0;
        while i < n
            invariant
                i <= n,
                n == self.shards@.len(),
            decreases n - i,
        {
            let lock = &self.shards[i];
            let (mut table, handle) = lock.acquire_write();
            table.tick_age();
            handle.release_write(table);
            i = i + 1;
        }
    }

    /// Occupied entries per thousand over all shards, rounded down; at most 1000.
    pub fn hashfull_permill(&self) -> (r: u32)
        ensures
            r <= 1000,
            exists|f: int| 0 <= f <= self.total_slots() && r == permill(f, self.total_slots()),
    {
        proof {
            use_type_invariant(self);
        }
        let n = self.shards.len();
        let mut filled_total: u128 = 0;
        let mut slots_total: u128 = 0;
        let mut i: usize = 0;
        while i < n
            invariant
                i <= n,
                n == self.shards@.len(),
                n <= 8,
                filled_total <= slots_total,
                slots_total <= i * 0x1_0000_0000_0000_0000,
                slots_total == self.slots_upto(i as int),
            decreases n - i,
        {
            let lock = &self.shards[i];
            let handle = lock.acquire_read();
            let (f, s) = handle.borrow().stats();
            handle.release_read();
            filled_total = filled_total + f as u128;
            slots_total = slots_total + s as u128;
            i = i + 1;
        }
        let r = permill_of(filled_total, slots_total);
        proof {
            assert(0 <= filled_total as int <= self.total_slots() && r == permill(filled_total as int, self.total_slots()));
        }
        r
    }
}

/// Entries in use per thousand, rounded down: `filled` of `slots`; 0 without slots.
pub open spec fn permill(filled: int, slots: int) -> int {
    if slots == 0 {
        0
    } else {
        filled * 1000 / slots
    }
}

/// Computes `permill` of `filled` used entries among `slots`.
pub fn permill_of(filled: u128, slots: u128) -> (r: u32)
    requires
        filled <= slots,
        slots <= 8 * 0x1_0000_0000_0000_0000,
    ensures
        r == permill(filled as int, slots as int),
        r <= 1000,
{
    if slots == 0 {
        0
    } else {
        let prod = filled * 1000;
        let q = prod / slots;
        assert(q <= 1000) by (nonlinear_arith)
            requires
                prod <= slots * 1000,
                slots > 0,
                q == prod / slots,
        ;
        q as u32
    }
}

} // verus!
