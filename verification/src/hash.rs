//! A small fast hasher, and the buckets the tables keep by it.
//!
//! The keys are short byte and word slices, and the default hasher of the
//! standard library is a keyed one built for a different threat model.

use vstd::prelude::*;
use std::collections::HashMap;

verus! {

pub const SEED: u64 = 0x517c_c1b7_2722_0a95;

pub struct FxHasher {
    hash: u64,
}

/// The hash once a word is added to it.
pub open spec fn mixed(h: u64, word: u64) -> u64 {
    (((h << 5u64) | (h >> 59u64)) ^ word).wrapping_mul(SEED)
}

/// The first eight bytes of a sequence as one word, the first byte least,
/// zeros standing for the bytes that are missing.
pub open spec fn word_of(b: Seq<u8>, n: int) -> u64
    decreases n,
{
    if n <= 0 {
        0
    } else {
        word_of(b, n - 1) | ((if n <= b.len() { b[n - 1] } else { 0u8 }) as u64) << ((8 * (n - 1)) as u64)
    }
}

/// The hash once bytes are added to it, eight at a time.
pub open spec fn absorbed(h: u64, b: Seq<u8>) -> u64
    decreases b.len(),
{
    if b.len() == 0 {
        h
    } else if b.len() <= 8 {
        mixed(h, word_of(b, 8))
    } else {
        absorbed(mixed(h, word_of(b, 8)), b.skip(8))
    }
}

impl FxHasher {
    pub closed spec fn state(&self) -> u64 {
        self.hash
    }

    pub fn new() -> (r: FxHasher)
        ensures
            r.state() == 0,
    {
        FxHasher { hash: 0 }
    }

    fn add(&mut self, word: u64)
        ensures
            final(self).state() == mixed(old(self).state(), word),
    {
        self.hash = (((self.hash << 5u64) | (self.hash >> 59u64)) ^ word).wrapping_mul(SEED);
    }

    pub fn write(&mut self, bytes: &[u8])
        ensures
            final(self).state() == absorbed(old(self).state(), bytes@),
    {
        let mut at: usize = 0;
        let ghost whole = absorbed(self.state(), bytes@);
        assert(bytes@.skip(0) =~= bytes@);
        while at < bytes.len()
            invariant
                at <= bytes@.len(),
                absorbed(self.state(), bytes@.skip(at as int)) == whole,
            decreases bytes@.len() - at,
        {
            let ghost rest = bytes@.skip(at as int);
            let mut word: u64 = 0;
            for i in 0..8usize
                invariant
                    at <= bytes@.len(),
                    rest == bytes@.skip(at as int),
                    word == word_of(rest, i as int),
            {
                let b: u8 = if i < bytes.len() - at {
                    bytes[at + i]
                } else {
                    0
                };
                word = word | ((b as u64) << ((8 * i) as u64));
            }
            self.add(word);
            if bytes.len() - at <= 8 {
                assert(bytes@.skip(bytes@.len() as int) =~= Seq::empty());
                at = bytes.len();
            } else {
                assert(rest.skip(8) =~= bytes@.skip(at + 8));
                at = at + 8;
            }
        }
        assert(bytes@.skip(at as int) =~= Seq::empty());
    }

    pub fn write_u8(&mut self, i: u8)
        ensures
            final(self).state() == mixed(old(self).state(), i as u64),
    {
        self.add(i as u64);
    }

    pub fn write_u32(&mut self, i: u32)
        ensures
            final(self).state() == mixed(old(self).state(), i as u64),
    {
        self.add(i as u64);
    }

    pub fn finish(&self) -> (r: u64)
        ensures
            r == self.state(),
    {
        self.hash
    }
}

impl Default for FxHasher {
    fn default() -> (r: FxHasher)
        ensures
            r.state() == 0,
    {
        FxHasher::new()
    }
}

/// The hash of the first `n` entries of a state.
pub open spec fn state_hash(s: Seq<i8>, n: int) -> u64
    decreases n,
{
    if n <= 0 {
        0
    } else {
        mixed(state_hash(s, n - 1), (s[n - 1] as u8) as u64)
    }
}

/// The hash of the first `n` decisions of a history.
pub open spec fn dh_hash(d: Seq<u32>, n: int) -> u64
    decreases n,
{
    if n <= 0 {
        0
    } else {
        mixed(dh_hash(d, n - 1), d[n - 1] as u64)
    }
}

/// The shard a hash falls in.
pub open spec fn shard_v(h: u64, shards: int) -> int {
    (h >> 32u64) as int % shards
}

pub fn hash_of_state(state: &[i8]) -> (r: u64)
    ensures
        r == state_hash(state@, state@.len() as int),
{
    let mut h = FxHasher::new();
    for i in 0..state.len()
        invariant
            h.state() == state_hash(state@, i as int),
    {
        h.write_u8(state[i] as u8);
    }
    h.finish()
}

pub fn hash_of_dh(dh: &[u32]) -> (r: u64)
    ensures
        r == dh_hash(dh@, dh@.len() as int),
{
    let mut h = FxHasher::new();
    for i in 0..dh.len()
        invariant
            h.state() == dh_hash(dh@, i as int),
    {
        h.write_u32(dh[i]);
    }
    h.finish()
}

fn shard_of(h: u64, shards: usize) -> (r: usize)
    requires
        shards > 0,
    ensures
        r == shard_v(h, shards as int),
        r < shards,
{
    assert(h >> 32u64 <= 0xffff_ffff) by (bit_vector);
    ((h >> 32u64) as usize) % shards
}

pub fn shard_of_state(state: &[i8], shards: usize) -> (r: usize)
    requires
        shards > 0,
    ensures
        r == shard_v(state_hash(state@, state@.len() as int), shards as int),
        r < shards,
{
    shard_of(hash_of_state(state), shards)
}

pub fn shard_of_dh(dh: &[u32], shards: usize) -> (r: usize)
    requires
        shards > 0,
    ensures
        r == shard_v(dh_hash(dh@, dh@.len() as int), shards as int),
        r < shards,
{
    shard_of(hash_of_dh(dh), shards)
}

/// The positions kept under each hash, in the order they were added.
pub struct Buckets {
    map: HashMap<u64, Vec<usize>>,
}

impl Buckets {
    /// The positions under a hash.
    pub closed spec fn at(&self, h: u64) -> Seq<usize> {
        if self.map@.contains_key(h) {
            self.map@[h]@
        } else {
            Seq::empty()
        }
    }

    pub fn new() -> (r: Buckets)
        ensures
            forall|h: u64| #[trigger] r.at(h) == Seq::<usize>::empty(),
    {
        Buckets { map: HashMap::new() }
    }

    /// How many positions sit under a hash.
    pub fn count(&self, h: u64) -> (n: usize)
        ensures
            n == self.at(h).len(),
    {
        match self.map.get(&h) {
            Some(v) => v.len(),
            None => 0,
        }
    }

    /// One of the positions under a hash.
    pub fn nth(&self, h: u64, i: usize) -> (r: usize)
        requires
            i < self.at(h).len(),
        ensures
            r == self.at(h)[i as int],
    {
        match self.map.get(&h) {
            Some(v) => v[i],
            None => 0,
        }
    }

    /// Adds a position under a hash.
    pub fn add(&mut self, h: u64, at: usize)
        ensures
            final(self).at(h) =~= old(self).at(h).push(at),
            forall|o: u64| o != h ==> #[trigger] final(self).at(o) == old(self).at(o),
    {
        let mut v = match self.map.remove(&h) {
            Some(v) => v,
            None => Vec::new(),
        };
        v.push(at);
        self.map.insert(h, v);
    }
}

/// Buckets in shards: a hash falls in one shard, and its positions sit there.
pub struct Index {
    shards: Vec<Buckets>,
}

impl Index {
    pub closed spec fn width(&self) -> nat {
        self.shards@.len()
    }

    /// The positions under a hash.
    pub closed spec fn at(&self, h: u64) -> Seq<usize> {
        self.shards@[shard_v(h, self.shards@.len() as int)].at(h)
    }

    pub fn new(shards: usize) -> (r: Index)
        requires
            shards > 0,
        ensures
            r.width() == shards,
            forall|h: u64| #[trigger] r.at(h) == Seq::<usize>::empty(),
    {
        let mut v: Vec<Buckets> = Vec::new();
        for i in 0..shards
            invariant
                v@.len() == i,
                forall|j: int, h: u64|
                    0 <= j < i ==> #[trigger] v@[j].at(h) == Seq::<usize>::empty(),
        {
            v.push(Buckets::new());
        }
        Index { shards: v }
    }

    /// How many positions sit under a hash.
    pub fn count(&self, h: u64) -> (n: usize)
        requires
            self.width() > 0,
        ensures
            n == self.at(h).len(),
    {
        self.shards[shard_of(h, self.shards.len())].count(h)
    }

    /// One of the positions under a hash.
    pub fn nth(&self, h: u64, i: usize) -> (r: usize)
        requires
            self.width() > 0,
            i < self.at(h).len(),
        ensures
            r == self.at(h)[i as int],
    {
        self.shards[shard_of(h, self.shards.len())].nth(h, i)
    }

    /// Adds a position under a hash.
    pub fn add(&mut self, h: u64, at: usize)
        requires
            old(self).width() > 0,
        ensures
            final(self).width() == old(self).width(),
            final(self).at(h) =~= old(self).at(h).push(at),
            forall|o: u64| o != h ==> #[trigger] final(self).at(o) == old(self).at(o),
    {
        let n = self.shards.len();
        let s = shard_of(h, n);
        let ghost before = *self;
        self.shards[s].add(h, at);
        assert forall|o: u64| o != h implies #[trigger] self.at(o) == before.at(o) by {
            let x = shard_v(o, n as int);
            assert(0 <= x < n);
        }
    }
}

pub fn same_state(a: &[i8], b: &[i8]) -> (r: bool)
    ensures
        r == (a@ == b@),
{
    if a.len() != b.len() {
        return false;
    }
    for i in 0..a.len()
        invariant
            a@.len() == b@.len(),
            forall|j: int| 0 <= j < i ==> a@[j] == b@[j],
    {
        if a[i] != b[i] {
            return false;
        }
    }
    assert(a@ =~= b@);
    true
}

pub fn same_dh(a: &[u32], b: &[u32]) -> (r: bool)
    ensures
        r == (a@ == b@),
{
    if a.len() != b.len() {
        return false;
    }
    for i in 0..a.len()
        invariant
            a@.len() == b@.len(),
            forall|j: int| 0 <= j < i ==> a@[j] == b@[j],
    {
        if a[i] != b[i] {
            return false;
        }
    }
    assert(a@ =~= b@);
    true
}

} // verus!
