use std::collections::hash_map::DefaultHasher;
use std::hash::Hasher;
use vstd::prelude::*;
use vstd::std_specs::hash::DefaultHasherAdditionalSpecFns;

use crate::lru_shard::{
    BlockKey, CacheEntry, LruShard, PendingRequest, new_entry, pending_position, sat_inc, RequestOutcome, all_pinned, lemma_byte_budget, lemma_resident_xor_pending,
    lemma_single_flight, position, sum_unpinned, touch, unpinned_once,
};

verus! {

/// Number of bits of a key's hash that select its shard.
pub const CACHE_SHARD_BITS: u64 = 6;

/// `1 << CACHE_SHARD_BITS` shards spread the lock contention.
pub const NUM_SHARDS: usize = 64;

/// What a holder keeps alive besides its bytes.
pub enum BlockEntry {
    /// A pin on the cache entry of this key.
    Cache(BlockKey),
    /// The block belongs to the holder alone.
    Owned,
}

/// A read-only view of a block that is either owned or pinned in the cache.
pub struct BlockHolder {
    pub handle: BlockEntry,
    pub block: Vec<u8>,
}

impl BlockHolder {
    pub fn from_owned_block(block: Vec<u8>) -> (r: Self)
        ensures
            r.block@ == block@,
            r.handle is Owned,
    {
        BlockHolder { handle: BlockEntry::Owned, block }
    }

    /// A holder over the cache entry of `key`, whose pin it carries.
    pub fn from_cached_block(key: BlockKey, block: Vec<u8>) -> (r: Self)
        ensures
            r.block@ == block@,
            r.handle == BlockEntry::Cache(key),
    {
        BlockHolder { handle: BlockEntry::Cache(key), block }
    }

    /// The block's bytes.
    pub fn block(&self) -> (r: &Vec<u8>)
        ensures
            r@ == self.block@,
    {
        &self.block
    }
}

/// Little-endian bytes of `x`, as `u64::hash` writes them into a hasher.
pub open spec fn le_bytes(x: u64) -> Seq<u8> {
    seq![
        (x & 0xff) as u8,
        ((x >> 8u64) & 0xff) as u8,
        ((x >> 16u64) & 0xff) as u8,
        ((x >> 24u64) & 0xff) as u8,
        ((x >> 32u64) & 0xff) as u8,
        ((x >> 40u64) & 0xff) as u8,
        ((x >> 48u64) & 0xff) as u8,
        ((x >> 56u64) & 0xff) as u8,
    ]
}

/// The 64-bit hash of a block key.
pub open spec fn key_hash(sst_id: u64, block_idx: u64) -> u64 {
    DefaultHasher::spec_finish(seq![le_bytes(sst_id), le_bytes(block_idx)])
}

/// The shard that holds a block key.
pub open spec fn shard_index(sst_id: u64, block_idx: u64) -> int {
    (key_hash(sst_id, block_idx) % (NUM_SHARDS as u64)) as int
}

fn le_bytes_of(x: u64) -> (r: Vec<u8>)
    ensures
        r@ == le_bytes(x),
{
    let mut v: Vec<u8> = Vec::new();
    v.push((x & 0xff) as u8);
    v.push(((x >> 8u64) & 0xff) as u8);
    v.push(((x >> 16u64) & 0xff) as u8);
    v.push(((x >> 24u64) & 0xff) as u8);
    v.push(((x >> 32u64) & 0xff) as u8);
    v.push(((x >> 40u64) & 0xff) as u8);
    v.push(((x >> 48u64) & 0xff) as u8);
    v.push(((x >> 56u64) & 0xff) as u8);
    assert(v@ =~= le_bytes(x));
    v
}

/// What a request for a block finds in the cache.
pub enum LookupResult {
    /// The block is resident; the holder pins it.
    Cached(BlockHolder),
    /// Another caller is loading the block: wait for its outcome.
    WaitPendingRequest,
    /// The caller is the designated loader: it must end with `fill_request`
    /// or `clear_pending_request`.
    Miss,
}

/// A sharded, byte-budgeted LRU cache of SST blocks.
pub struct BlockCache {
    pub shards: Vec<LruShard>,
}


/// The most recently used entry of a shard is the resident entry of its key.
proof fn lemma_last_entry(s: LruShard)
    requires
        s.wf(),
        s.entries@.len() > 0,
    ensures
        s.resident(s.entries@.last().key),
        position(s.entries@, s.entries@.last().key) == s.entries@.len() - 1,
        s.entry_of(s.entries@.last().key) == s.entries@.last(),
{
    let n = s.entries@.len() - 1;
    let k = s.entries@.last().key;
    assert(s.entries@[n].key == k);
    let p = position(s.entries@, k);
    assert(s.entries@[p].key == k);
}


/// Across the cache, a key is never resident and pending at once.
pub proof fn lemma_cache_resident_xor_pending(c: BlockCache, sst_id: u64, block_idx: u64)
    requires
        c.wf(),
    ensures
        !(c.resident(sst_id, block_idx) && c.is_pending(sst_id, block_idx)),
{
    assert(0 <= shard_index(sst_id, block_idx) < NUM_SHARDS);
    lemma_resident_xor_pending(c.shard_of(sst_id, block_idx), (sst_id, block_idx));
}

/// While a key's load is in flight, a request for it only waits: it neither
/// finds the block nor becomes a second loader.
pub proof fn lemma_cache_single_flight(c: BlockCache, sst_id: u64, block_idx: u64)
    requires
        c.wf(),
        c.is_pending(sst_id, block_idx),
    ensures
        !c.resident(sst_id, block_idx),
        !c.shard_of(sst_id, block_idx).designates_loader((sst_id, block_idx)),
{
    assert(0 <= shard_index(sst_id, block_idx) < NUM_SHARDS);
    lemma_single_flight(c.shard_of(sst_id, block_idx), (sst_id, block_idx));
}

/// In every shard, the charges of the entries that no holder pins stay
/// within the shard's capacity.
pub proof fn lemma_cache_byte_budget(c: BlockCache)
    requires
        c.wf(),
    ensures
        forall|i: int| 0 <= i < NUM_SHARDS ==> sum_unpinned((#[trigger] c.shards@[i]).entries@) <= c.shards@[i].capacity,
{
    assert forall|i: int| 0 <= i < NUM_SHARDS implies sum_unpinned((#[trigger] c.shards@[i]).entries@) <= c.shards@[i].capacity by {
        lemma_byte_budget(c.shards@[i]);
    }
}

impl BlockCache {
    pub open spec fn wf(&self) -> bool {
        &&& self.shards@.len() == NUM_SHARDS
        &&& forall|i: int| 0 <= i < self.shards@.len() ==> (#[trigger] self.shards@[i]).wf()
    }

    /// The shard that `(sst_id, block_idx)` routes to.
    pub open spec fn shard_of(&self, sst_id: u64, block_idx: u64) -> LruShard {
        self.shards@[shard_index(sst_id, block_idx)]
    }

    pub open spec fn resident(&self, sst_id: u64, block_idx: u64) -> bool {
        self.shard_of(sst_id, block_idx).resident((sst_id, block_idx))
    }

    pub open spec fn is_pending(&self, sst_id: u64, block_idx: u64) -> bool {
        self.shard_of(sst_id, block_idx).is_pending((sst_id, block_idx))
    }

    /// Every shard other than the one of `(sst_id, block_idx)` is as in `other`.
    pub open spec fn others_unchanged(&self, other: &BlockCache, sst_id: u64, block_idx: u64) -> bool {
        &&& self.shards@.len() == other.shards@.len()
        &&& forall|i: int|
            0 <= i < self.shards@.len() && i != shard_index(sst_id, block_idx)
                ==> #[trigger] self.shards@[i] == other.shards@[i]
    }


    /// A cache of `capacity` bytes, split evenly over the shards.
    pub fn new(capacity: usize) -> (r: Self)
        ensures
            r.wf(),
            forall|i: int| 0 <= i < NUM_SHARDS ==> (#[trigger] r.shards@[i]).capacity == capacity / NUM_SHARDS
                && r.shards@[i].entries@.len() == 0 && r.shards@[i].pending@.len() == 0,
    {
        let mut shards: Vec<LruShard> = Vec::new();
        let per_shard = capacity / NUM_SHARDS;
        let mut i: usize = 0;
        while i < NUM_SHARDS
            invariant
                i <= NUM_SHARDS,
                shards@.len() == i,
                per_shard == capacity / NUM_SHARDS,
                forall|j: int| 0 <= j < i ==> (#[trigger] shards@[j]).wf() && shards@[j].capacity == per_shard
                    && shards@[j].entries@.len() == 0 && shards@[j].pending@.len() == 0,
            decreases NUM_SHARDS - i,
        {
            shards.push(LruShard::new(per_shard));
            i += 1;
        }
        BlockCache { shards }
    }

    /// Looks the block up without loading it; a hit pins the entry.
    pub fn get(&mut self, sst_id: u64, block_idx: u64) -> (r: Option<BlockHolder>)
        requires
            old(self).wf(),
        ensures
            final(self).wf(),
            final(self).others_unchanged(old(self), sst_id, block_idx),
            r is Some <==> old(self).resident(sst_id, block_idx),
            r matches Some(h) ==> h.handle == BlockEntry::Cache((sst_id, block_idx))
                && h.block@ == old(self).shard_of(sst_id, block_idx).entry_of((sst_id, block_idx)).block@,
            r is Some ==> final(self).shard_of(sst_id, block_idx).entries@ == touch(
                old(self).shard_of(sst_id, block_idx).entries@,
                position(old(self).shard_of(sst_id, block_idx).entries@, (sst_id, block_idx)),
            ),
            r is None ==> final(self).shards@ == old(self).shards@,
            final(self).shard_of(sst_id, block_idx).pending@ == old(self).shard_of(sst_id, block_idx).pending@,
    {
        let si = Self::shard_idx(sst_id, block_idx);
        let mut shard = self.shards.remove(si);
        let found = shard.lookup((sst_id, block_idx));
        self.shards.insert(si, shard);
        proof { self.lemma_reinsert(old(self), si as int); }
        match found {
            Some(block) => Some(BlockHolder::from_cached_block((sst_id, block_idx), block)),
            None => {
                assert(self.shards@ =~= old(self).shards@);
                None
            },
        }
    }


    /// Admits a block that the caller loaded itself. The pin that admission
    /// takes is given back at once. Returns how many waiters of a pending
    /// request on the key were resolved; each of them now holds a pin.
    pub fn insert(&mut self, sst_id: u64, block_idx: u64, block: Vec<u8>) -> (r: usize)
        requires
            old(self).wf(),
        ensures
            final(self).wf(),
            final(self).others_unchanged(old(self), sst_id, block_idx),
            !final(self).is_pending(sst_id, block_idx),
            r == (if old(self).is_pending(sst_id, block_idx) {
                old(self).shard_of(sst_id, block_idx).pending_of((sst_id, block_idx)).waiters
            } else {
                0
            }),
            forall|k2: BlockKey| k2 != (sst_id, block_idx)
                ==> (final(self).shard_of(sst_id, block_idx).is_pending(k2)
                <==> old(self).shard_of(sst_id, block_idx).is_pending(k2)),
            forall|k2: BlockKey| k2 != (sst_id, block_idx) && final(self).shard_of(sst_id, block_idx).resident(k2)
                ==> old(self).shard_of(sst_id, block_idx).resident(k2),
            forall|i: int|
                0 <= i < old(self).shard_of(sst_id, block_idx).entries@.len()
                    && (#[trigger] old(self).shard_of(sst_id, block_idx).entries@[i]).refs > 0
                    && old(self).shard_of(sst_id, block_idx).entries@[i].key != (sst_id, block_idx)
                    ==> final(self).shard_of(sst_id, block_idx).entries@.contains(
                    old(self).shard_of(sst_id, block_idx).entries@[i],
                ),
            old(self).shard_of(sst_id, block_idx).usage + block@.len() <= old(self).shard_of(sst_id, block_idx).capacity
                ==> final(self).resident(sst_id, block_idx)
                && final(self).shard_of(sst_id, block_idx).entry_of((sst_id, block_idx)).block@ == (
                if old(self).resident(sst_id, block_idx) {
                    old(self).shard_of(sst_id, block_idx).entry_of((sst_id, block_idx)).block@
                } else {
                    block@
                }),
            !old(self).resident(sst_id, block_idx) && old(self).shard_of(sst_id, block_idx).usage + block@.len() <= usize::MAX
                && (r > 0 || old(self).shard_of(sst_id, block_idx).usage + block@.len() <= old(self).shard_of(sst_id, block_idx).capacity)
                && r + 1 < usize::MAX
                ==> final(self).shard_of(sst_id, block_idx).entries@.len() > 0 && final(self).shard_of(sst_id, block_idx).entries@.last() == (CacheEntry {
                    key: (sst_id, block_idx),
                    charge: block@.len() as usize,
                    block,
                    refs: r,
                }),
            old(self).resident(sst_id, block_idx) ==> final(self).shard_of(sst_id, block_idx).entries@.len() > 0
                && final(self).shard_of(sst_id, block_idx).entries@.last().key == (sst_id, block_idx)
                && final(self).shard_of(sst_id, block_idx).entries@.last().charge == old(self).shard_of(sst_id, block_idx).entry_of((sst_id, block_idx)).charge
                && final(self).shard_of(sst_id, block_idx).entries@.last().block == old(self).shard_of(sst_id, block_idx).entry_of((sst_id, block_idx)).block,
    {
        let k = (sst_id, block_idx);
        let ghost bv = block@;
        let ghost bg = block;
        let si = Self::shard_idx(sst_id, block_idx);
        let mut shard = self.shards.remove(si);
        let ghost s0 = shard;
        let outcome = shard.insert(k, block);
        let ghost s1 = shard;
        if outcome.admitted {
            shard.release(k);
        }
        proof {
            if outcome.admitted {
                lemma_last_entry(s1);
                let e1 = s1.entries@.last();
                assert(e1.key == k);
                assert(e1.refs > 0);
                if s0.resident(k) {
                    lemma_last_entry(s0);
                    if e1.refs == 1 {
                        assert(s0.entry_of(k).refs == 0);
                        let p = position(s0.entries@, k);
                        assert(s0.entries@[p].refs == 0);
                        assert(!all_pinned(s0.entries@));
                        assert(s1.usage <= s1.capacity);
                        assert(shard.entries@ == s1.entries@.update(s1.entries@.len() - 1, unpinned_once(e1)));
                    }
                } else if s0.usage + bv.len() <= usize::MAX && (outcome.waiters > 0 || s0.usage + bv.len() <= s0.capacity)
                    && outcome.waiters + 1 < usize::MAX {
                    assert(e1 == new_entry(k, bg, outcome.waiters));
                    if e1.refs == 1 {
                        assert(s1.usage <= s1.capacity);
                        assert(shard.entries@ == s1.entries@.update(s1.entries@.len() - 1, unpinned_once(e1)));
                    } else if e1.refs < usize::MAX {
                        assert(shard.entries@.last() == unpinned_once(e1));
                    } else {
                        assert(shard.entries@ == s1.entries@);
                    }
                    assert(shard.entries@.last().refs == outcome.waiters);
                }
            }
        }
        proof {
            if s0.usage + bv.len() <= s0.capacity {
                let n = s1.entries@.len() - 1;
                lemma_last_entry(s1);
                assert(s1.entries@[n].key == k);
                assert(s1.entries@[n].block@ == outcome.block@);
                assert(s1.entries@[n].refs > 0);
                assert(s1.usage <= s1.capacity);
                if s1.entries@[n].refs < usize::MAX {
                    assert(shard.entries@ == s1.entries@.update(n, unpinned_once(s1.entries@[n])));
                } else {
                    assert(shard.entries@ == s1.entries@);
                }
                lemma_last_entry(shard);
                assert(shard.entries@[n].key == k);
            }
        }
        proof {
            assert forall|i: int|
                0 <= i < s0.entries@.len() && (#[trigger] s0.entries@[i]).refs > 0 && s0.entries@[i].key != k
                    implies shard.entries@.contains(s0.entries@[i]) by {
                if outcome.admitted {
                    let x = s0.entries@[i];
                    let a = choose|a: int| 0 <= a < s1.entries@.len() && s1.entries@[a] == x;
                    assert(s1.entries@[a].refs > 0 && s1.entries@[a].key != k);
                }
            }
        }
        self.shards.insert(si, shard);
        proof { self.lemma_reinsert(old(self), si as int); }
        outcome.waiters
    }


    /// First step of a load-through lookup. `Cached` pins the resident entry;
    /// `WaitPendingRequest` registers the caller as a waiter of the load in
    /// flight; `Miss` registers the key as pending and makes the caller its
    /// one loader.
    pub fn lookup_for_request(&mut self, sst_id: u64, block_idx: u64) -> (r: LookupResult)
        requires
            old(self).wf(),
        ensures
            final(self).wf(),
            final(self).others_unchanged(old(self), sst_id, block_idx),
            r is Cached <==> old(self).resident(sst_id, block_idx),
            r is WaitPendingRequest <==> !old(self).resident(sst_id, block_idx) && old(self).is_pending(sst_id, block_idx),
            r is Miss <==> old(self).shard_of(sst_id, block_idx).designates_loader((sst_id, block_idx)),
            r matches LookupResult::Cached(h) ==> h.handle == BlockEntry::Cache((sst_id, block_idx))
                && h.block@ == old(self).shard_of(sst_id, block_idx).entry_of((sst_id, block_idx)).block@,
            final(self).is_pending(sst_id, block_idx) <==> !old(self).resident(sst_id, block_idx),
            forall|k2: BlockKey| #[trigger] final(self).shard_of(sst_id, block_idx).resident(k2)
                <==> old(self).shard_of(sst_id, block_idx).resident(k2),
            forall|k2: BlockKey| k2 != (sst_id, block_idx)
                ==> (#[trigger] final(self).shard_of(sst_id, block_idx).is_pending(k2)
                <==> old(self).shard_of(sst_id, block_idx).is_pending(k2)),
            r is Cached ==> final(self).shard_of(sst_id, block_idx).entries@ == touch(old(self).shard_of(sst_id, block_idx).entries@, position(old(self).shard_of(sst_id, block_idx).entries@, (sst_id, block_idx)))
                && final(self).shard_of(sst_id, block_idx).pending@ == old(self).shard_of(sst_id, block_idx).pending@,
            r is WaitPendingRequest ==> final(self).shard_of(sst_id, block_idx).entries@ == old(self).shard_of(sst_id, block_idx).entries@
                && final(self).shard_of(sst_id, block_idx).pending@ == old(self).shard_of(sst_id, block_idx).pending@.update(
                    pending_position(old(self).shard_of(sst_id, block_idx).pending@, (sst_id, block_idx)),
                    PendingRequest { key: (sst_id, block_idx), waiters: sat_inc(old(self).shard_of(sst_id, block_idx).pending_of((sst_id, block_idx)).waiters) },
                ),
            r is Miss ==> final(self).shard_of(sst_id, block_idx).entries@ == old(self).shard_of(sst_id, block_idx).entries@
                && final(self).shard_of(sst_id, block_idx).pending@ == old(self).shard_of(sst_id, block_idx).pending@.push(PendingRequest { key: (sst_id, block_idx), waiters: 0 }),
    {
        let si = Self::shard_idx(sst_id, block_idx);
        let mut shard = self.shards.remove(si);
        let outcome = shard.lookup_for_request((sst_id, block_idx));
        self.shards.insert(si, shard);
        proof { self.lemma_reinsert(old(self), si as int); }
        match outcome {
            RequestOutcome::Cached(block) => LookupResult::Cached(
                BlockHolder::from_cached_block((sst_id, block_idx), block),
            ),
            RequestOutcome::WaitPendingRequest => LookupResult::WaitPendingRequest,
            RequestOutcome::Miss => LookupResult::Miss,
        }
    }

    /// The designated loader hands in the block it loaded. Returns the
    /// caller's holder and how many waiters were resolved with a pin each.
    /// The holder pins the entry, unless the shard's byte count would overflow
    /// `usize`: the block is then handed back owned, and the waiters are
    /// released without a pin.
    pub fn fill_request(&mut self, sst_id: u64, block_idx: u64, block: Vec<u8>) -> (r: (BlockHolder, usize))
        requires
            old(self).wf(),
        ensures
            final(self).wf(),
            final(self).others_unchanged(old(self), sst_id, block_idx),
            !final(self).is_pending(sst_id, block_idx),
            r.1 == (if old(self).is_pending(sst_id, block_idx) {
                old(self).shard_of(sst_id, block_idx).pending_of((sst_id, block_idx)).waiters
            } else {
                0
            }),
            r.0.block@ == (if old(self).resident(sst_id, block_idx) {
                old(self).shard_of(sst_id, block_idx).entry_of((sst_id, block_idx)).block@
            } else {
                block@
            }),
            (r.0.handle is Cache) <==> (old(self).resident(sst_id, block_idx)
                || old(self).shard_of(sst_id, block_idx).usage + block@.len() <= usize::MAX),
            r.0.handle is Cache ==> r.0.handle == BlockEntry::Cache((sst_id, block_idx))
                && final(self).resident(sst_id, block_idx)
                && final(self).shard_of(sst_id, block_idx).entry_of((sst_id, block_idx)).block@ == r.0.block@
                && final(self).shard_of(sst_id, block_idx).entry_of((sst_id, block_idx)).refs > 0,
            forall|i: int|
                0 <= i < old(self).shard_of(sst_id, block_idx).entries@.len()
                    && (#[trigger] old(self).shard_of(sst_id, block_idx).entries@[i]).refs > 0
                    && old(self).shard_of(sst_id, block_idx).entries@[i].key != (sst_id, block_idx)
                    ==> final(self).shard_of(sst_id, block_idx).entries@.contains(
                    old(self).shard_of(sst_id, block_idx).entries@[i],
                ),
            old(self).resident(sst_id, block_idx)
                ==> final(self).shard_of(sst_id, block_idx).entries@ == touch(old(self).shard_of(sst_id, block_idx).entries@, position(old(self).shard_of(sst_id, block_idx).entries@, (sst_id, block_idx))),
            !old(self).resident(sst_id, block_idx) && r.0.handle is Cache
                ==> final(self).shard_of(sst_id, block_idx).entries@.len() > 0 && final(self).shard_of(sst_id, block_idx).entries@.last() == new_entry((sst_id, block_idx), block, r.1),
            !(r.0.handle is Cache) ==> final(self).shard_of(sst_id, block_idx).entries@ == old(self).shard_of(sst_id, block_idx).entries@,
            forall|i: int, j: int|
                0 <= j < i < old(self).shard_of(sst_id, block_idx).entries@.len() && !final(self).shard_of(sst_id, block_idx).resident((#[trigger] old(self).shard_of(sst_id, block_idx).entries@[i]).key)
                    && (#[trigger] old(self).shard_of(sst_id, block_idx).entries@[j]).refs == 0
                    ==> !final(self).shard_of(sst_id, block_idx).resident(old(self).shard_of(sst_id, block_idx).entries@[j].key),
    {
        let k = (sst_id, block_idx);
        let si = Self::shard_idx(sst_id, block_idx);
        let mut shard = self.shards.remove(si);
        let outcome = shard.insert(k, block);
        self.shards.insert(si, shard);
        proof { self.lemma_reinsert(old(self), si as int); }
        let holder = if outcome.admitted {
            BlockHolder::from_cached_block(k, outcome.block)
        } else {
            BlockHolder::from_owned_block(outcome.block)
        };
        (holder, outcome.waiters)
    }

    /// The designated loader failed: the key stops being pending, with no
    /// block published. Returns how many waiters are to observe the failure.
    pub fn clear_pending_request(&mut self, sst_id: u64, block_idx: u64) -> (r: usize)
        requires
            old(self).wf(),
        ensures
            final(self).wf(),
            final(self).others_unchanged(old(self), sst_id, block_idx),
            !final(self).is_pending(sst_id, block_idx),
            final(self).shard_of(sst_id, block_idx).entries@ == old(self).shard_of(sst_id, block_idx).entries@,
            forall|k2: BlockKey| k2 != (sst_id, block_idx)
                ==> (#[trigger] final(self).shard_of(sst_id, block_idx).is_pending(k2)
                <==> old(self).shard_of(sst_id, block_idx).is_pending(k2)),
            r == (if old(self).is_pending(sst_id, block_idx) {
                old(self).shard_of(sst_id, block_idx).pending_of((sst_id, block_idx)).waiters
            } else {
                0
            }),
    {
        let si = Self::shard_idx(sst_id, block_idx);
        let mut shard = self.shards.remove(si);
        let w = shard.clear_pending_request((sst_id, block_idx));
        self.shards.insert(si, shard);
        proof { self.lemma_reinsert(old(self), si as int); }
        w
    }

    /// Gives back the pin of a holder over a cache entry; an owned holder
    /// leaves the cache as it is.
    pub fn release(&mut self, holder: BlockHolder)
        requires
            old(self).wf(),
        ensures
            final(self).wf(),
            holder.handle is Owned ==> final(self).shards@ == old(self).shards@,
            holder.handle matches BlockEntry::Cache(k) ==> final(self).others_unchanged(old(self), k.0, k.1)
                && final(self).shard_of(k.0, k.1).pending@ == old(self).shard_of(k.0, k.1).pending@
                && (forall|i: int|
                    0 <= i < old(self).shard_of(k.0, k.1).entries@.len()
                        && (#[trigger] old(self).shard_of(k.0, k.1).entries@[i]).refs > 0
                        && old(self).shard_of(k.0, k.1).entries@[i].key != k
                        ==> final(self).shard_of(k.0, k.1).entries@.contains(
                        old(self).shard_of(k.0, k.1).entries@[i],
                    ))
                && (old(self).shard_of(k.0, k.1).resident(k) && 0 < old(self).shard_of(k.0, k.1).entry_of(k).refs < usize::MAX && old(self).shard_of(k.0, k.1).usage <= old(self).shard_of(k.0, k.1).capacity
                    ==> final(self).shard_of(k.0, k.1).entries@ == old(self).shard_of(k.0, k.1).entries@.update(position(old(self).shard_of(k.0, k.1).entries@, k), unpinned_once(old(self).shard_of(k.0, k.1).entry_of(k))))
                && (old(self).shard_of(k.0, k.1).resident(k) && 1 < old(self).shard_of(k.0, k.1).entry_of(k).refs < usize::MAX
                    ==> final(self).shard_of(k.0, k.1).entries@.contains(unpinned_once(old(self).shard_of(k.0, k.1).entry_of(k))))
                && (!(old(self).shard_of(k.0, k.1).resident(k) && 0 < old(self).shard_of(k.0, k.1).entry_of(k).refs < usize::MAX) ==> final(self).shard_of(k.0, k.1).entries@ == old(self).shard_of(k.0, k.1).entries@)
                && (forall|i: int, j: int|
                    0 <= j < i < old(self).shard_of(k.0, k.1).entries@.len() && !final(self).shard_of(k.0, k.1).resident((#[trigger] old(self).shard_of(k.0, k.1).entries@[i]).key)
                        && (#[trigger] old(self).shard_of(k.0, k.1).entries@[j]).refs == 0
                        ==> !final(self).shard_of(k.0, k.1).resident(old(self).shard_of(k.0, k.1).entries@[j].key)),
    {
        match holder.handle {
            BlockEntry::Owned => {},
            BlockEntry::Cache(k) => {
                let si = Self::shard_idx(k.0, k.1);
                let mut shard = self.shards.remove(si);
                shard.release(k);
                self.shards.insert(si, shard);
                proof { self.lemma_reinsert(old(self), si as int); }
            },
        }
    }

    /// Evicts every entry that no holder pins.
    pub fn clear(&mut self)
        requires
            old(self).wf(),
        ensures
            final(self).wf(),
            forall|i: int| 0 <= i < NUM_SHARDS ==> all_pinned((#[trigger] final(self).shards@[i]).entries@)
                && final(self).shards@[i].pending@ == old(self).shards@[i].pending@
                && (forall|x: CacheEntry| final(self).shards@[i].entries@.contains(x) ==> old(self).shards@[i].entries@.contains(x))
                && (forall|j: int| 0 <= j < old(self).shards@[i].entries@.len() && (#[trigger] old(self).shards@[i].entries@[j]).refs > 0
                    ==> final(self).shards@[i].entries@.contains(old(self).shards@[i].entries@[j])),
    {
        let mut i: usize = 0;
        while i < NUM_SHARDS
            invariant
                i <= NUM_SHARDS,
                self.wf(),
                forall|j: int| 0 <= j < i ==> all_pinned((#[trigger] self.shards@[j]).entries@)
                    && (forall|x: CacheEntry| self.shards@[j].entries@.contains(x) ==> old(self).shards@[j].entries@.contains(x))
                    && (forall|m: int| 0 <= m < old(self).shards@[j].entries@.len() && (#[trigger] old(self).shards@[j].entries@[m]).refs > 0
                        ==> self.shards@[j].entries@.contains(old(self).shards@[j].entries@[m])),
                forall|j: int| i <= j < NUM_SHARDS ==> #[trigger] self.shards@[j] == old(self).shards@[j],
                forall|j: int| 0 <= j < NUM_SHARDS ==> (#[trigger] self.shards@[j]).pending@ == old(self).shards@[j].pending@,
            decreases NUM_SHARDS - i,
        {
            let ghost before = *self;
            let mut shard = self.shards.remove(i);
            shard.clear();
            self.shards.insert(i, shard);
            proof { self.lemma_reinsert(&before, i as int); }
            i += 1;
        }
    }

    /// Taking a shard out and putting its new state back at the same place.
    proof fn lemma_reinsert(&self, old_cache: &BlockCache, si: int)
        requires
            old_cache.wf(),
            0 <= si < NUM_SHARDS,
            self.shards@ == old_cache.shards@.remove(si).insert(si, self.shards@[si]),
            self.shards@[si].wf(),
        ensures
            self.wf(),
            self.shards@ == old_cache.shards@.update(si, self.shards@[si]),
            forall|i: int| 0 <= i < NUM_SHARDS && i != si ==> #[trigger] self.shards@[i] == old_cache.shards@[i],
    {
        assert(self.shards@ =~= old_cache.shards@.update(si, self.shards@[si]));
    }

    pub fn hash(sst_id: u64, block_idx: u64) -> (r: u64)
        ensures
            r == key_hash(sst_id, block_idx),
    {
        let mut hasher = DefaultHasher::new();
        let a = le_bytes_of(sst_id);
        let b = le_bytes_of(block_idx);
        hasher.write(a.as_slice());
        hasher.write(b.as_slice());
        let r = hasher.finish();
        assert(hasher@ =~= seq![le_bytes(sst_id), le_bytes(block_idx)]);
        r
    }

    fn shard_idx(sst_id: u64, block_idx: u64) -> (r: usize)
        ensures
            r == shard_index(sst_id, block_idx),
            r < NUM_SHARDS,
    {
        (Self::hash(sst_id, block_idx) % (NUM_SHARDS as u64)) as usize
    }
}

} // verus!
