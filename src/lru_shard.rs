use vstd::prelude::*;

verus! {

/// A block is identified by the SST it belongs to and its index inside it.
pub type BlockKey = (u64, u64);

/// One resident block of a shard.
pub struct CacheEntry {
    pub key: BlockKey,
    /// Bytes charged against the shard's budget.
    pub charge: usize,
    pub block: Vec<u8>,
    /// Live handles on this entry. A count that reaches `usize::MAX` is never
    /// decremented again, so such an entry stays pinned for good.
    pub refs: usize,
}

/// A key whose block is being fetched by one designated loader.
pub struct PendingRequest {
    pub key: BlockKey,
    /// Callers that wait for the loader (saturating at `usize::MAX`).
    pub waiters: usize,
}

/// A byte-budgeted LRU partition together with its table of in-flight fetches.
///
/// `entries` runs from least to most recently used.
pub struct LruShard {
    pub capacity: usize,
    pub usage: usize,
    pub entries: Vec<CacheEntry>,
    pub pending: Vec<PendingRequest>,
}


/// What a request for a block finds in its shard.
pub enum RequestOutcome {
    /// The block is resident; the entry is now pinned once more.
    Cached(Vec<u8>),
    /// Another caller is loading the block; this caller waits for it.
    WaitPendingRequest,
    /// Nobody holds or loads the block: the caller is now its designated loader.
    Miss,
}

/// What inserting a block did.
pub struct InsertOutcome {
    /// The bytes now resident under the key.
    pub block: Vec<u8>,
    /// Waiters that were registered on the key, each of which now holds a pin.
    pub waiters: usize,
    /// False only when the shard's byte count would overflow `usize`; the
    /// block is then handed back unadmitted.
    pub admitted: bool,
}

pub open spec fn pending_position(p: Seq<PendingRequest>, k: BlockKey) -> int {
    choose|i: int| 0 <= i < p.len() && (#[trigger] p[i]).key == k
}

pub open spec fn new_entry(k: BlockKey, block: Vec<u8>, waiters: usize) -> CacheEntry {
    CacheEntry { key: k, charge: block@.len() as usize, block, refs: sat_inc(waiters) }
}

/// Sum of the charges of a sequence of entries.
pub open spec fn sum_charges(s: Seq<CacheEntry>) -> nat
    decreases s.len(),
{
    if s.len() == 0 {
        0
    } else {
        sum_charges(s.drop_last()) + s.last().charge as nat
    }
}

/// Sum of the charges of the entries that no handle pins.
pub open spec fn sum_unpinned(s: Seq<CacheEntry>) -> nat
    decreases s.len(),
{
    if s.len() == 0 {
        0
    } else {
        sum_unpinned(s.drop_last()) + if s.last().refs == 0 {
            s.last().charge as nat
        } else {
            0nat
        }
    }
}

pub open spec fn has_key(s: Seq<CacheEntry>, k: BlockKey) -> bool {
    exists|i: int| 0 <= i < s.len() && (#[trigger] s[i]).key == k
}

/// Index of the entry holding `k` (meaningful when `has_key(s, k)`).
pub open spec fn position(s: Seq<CacheEntry>, k: BlockKey) -> int {
    choose|i: int| 0 <= i < s.len() && (#[trigger] s[i]).key == k
}

pub open spec fn keys_unique(s: Seq<CacheEntry>) -> bool {
    forall|i: int, j: int|
        0 <= i < s.len() && 0 <= j < s.len() && i != j ==> (#[trigger] s[i]).key != (#[trigger] s[j]).key
}

pub open spec fn pending_unique(p: Seq<PendingRequest>) -> bool {
    forall|i: int, j: int|
        0 <= i < p.len() && 0 <= j < p.len() && i != j ==> (#[trigger] p[i]).key != (#[trigger] p[j]).key
}

pub open spec fn all_pinned(s: Seq<CacheEntry>) -> bool {
    forall|i: int| 0 <= i < s.len() ==> (#[trigger] s[i]).refs > 0
}

/// The entry `e` with one more handle on it.
pub open spec fn pinned_once(e: CacheEntry) -> CacheEntry {
    CacheEntry { key: e.key, charge: e.charge, block: e.block, refs: sat_inc(e.refs) }
}

/// The entry `e` with one handle fewer on it.
pub open spec fn unpinned_once(e: CacheEntry) -> CacheEntry {
    CacheEntry { key: e.key, charge: e.charge, block: e.block, refs: (e.refs - 1) as usize }
}

pub open spec fn sat_inc(n: usize) -> usize {
    if n == usize::MAX { n } else { (n + 1) as usize }
}

/// `s` with the entry at `i` pinned once more and moved to the most recently used end.
pub open spec fn touch(s: Seq<CacheEntry>, i: int) -> Seq<CacheEntry> {
    s.remove(i).push(pinned_once(s[i]))
}

proof fn lemma_sum_push(s: Seq<CacheEntry>, e: CacheEntry)
    ensures
        sum_charges(s.push(e)) == sum_charges(s) + e.charge,
        sum_unpinned(s.push(e)) == sum_unpinned(s) + if e.refs == 0 { e.charge as nat } else { 0nat },
{
    assert(s.push(e).drop_last() =~= s);
}

proof fn lemma_sum_remove(s: Seq<CacheEntry>, i: int)
    requires
        0 <= i < s.len(),
    ensures
        sum_charges(s.remove(i)) + s[i].charge == sum_charges(s),
        sum_unpinned(s.remove(i)) + (if s[i].refs == 0 { s[i].charge as nat } else { 0nat })
            == sum_unpinned(s),
    decreases s.len(),
{
    if i == s.len() - 1 {
        assert(s.remove(i) =~= s.drop_last());
    } else {
        let t = s.drop_last();
        lemma_sum_remove(t, i);
        assert(s.remove(i) =~= t.remove(i).push(s.last()));
        lemma_sum_push(t.remove(i), s.last());
    }
}

proof fn lemma_unpinned_le(s: Seq<CacheEntry>)
    ensures
        sum_unpinned(s) <= sum_charges(s),
        all_pinned(s) ==> sum_unpinned(s) == 0,
    decreases s.len(),
{
    if s.len() > 0 {
        lemma_unpinned_le(s.drop_last());
        assert(all_pinned(s) ==> all_pinned(s.drop_last())) by {
            if all_pinned(s) {
                assert forall|i: int| 0 <= i < s.drop_last().len() implies (#[trigger] s.drop_last()[i]).refs > 0 by {
                    assert(s.drop_last()[i] == s[i]);
                }
            }
        }
        if all_pinned(s) {
            assert(s.last() == s[s.len() - 1]);
        }
    }
}


/// Indexing into `s.remove(i)`.
proof fn lemma_remove_index(s: Seq<CacheEntry>, i: int)
    requires
        0 <= i < s.len(),
    ensures
        s.remove(i).len() == s.len() - 1,
        forall|j: int| 0 <= j < i ==> #[trigger] s.remove(i)[j] == s[j],
        forall|j: int| i <= j < s.len() - 1 ==> #[trigger] s.remove(i)[j] == s[j + 1],
{
}

proof fn lemma_remove_contains(s: Seq<CacheEntry>, i: int)
    requires
        0 <= i < s.len(),
    ensures
        forall|x: CacheEntry| s.remove(i).contains(x) ==> s.contains(x),
        forall|j: int| 0 <= j < s.len() && j != i ==> s.remove(i).contains(#[trigger] s[j]),
{
    lemma_remove_index(s, i);
    assert forall|x: CacheEntry| s.remove(i).contains(x) implies s.contains(x) by {
        let j = choose|j: int| 0 <= j < s.remove(i).len() && s.remove(i)[j] == x;
        if j < i {
            assert(s[j] == x);
        } else {
            assert(s[j + 1] == x);
        }
    }
    assert forall|j: int| 0 <= j < s.len() && j != i implies s.remove(i).contains(#[trigger] s[j]) by {
        if j < i {
            assert(s.remove(i)[j] == s[j]);
        } else {
            assert(s.remove(i)[j - 1] == s[j]);
        }
    }
}

/// Removing an entry keeps the shard's structure, less its charge.
proof fn lemma_remove_core(sh: LruShard, t: LruShard, i: int)
    requires
        sh.core_wf(),
        0 <= i < sh.entries@.len(),
        t.entries@ == sh.entries@.remove(i),
        t.pending@ == sh.pending@,
        t.usage == sh.usage - sh.entries@[i].charge,
    ensures
        t.core_wf(),
        forall|k: BlockKey| t.resident(k) <==> (sh.resident(k) && k != sh.entries@[i].key),
        all_pinned(sh.entries@) ==> all_pinned(t.entries@),
        sh.entries@[i].refs == 0 ==> sum_unpinned(t.entries@) + sh.entries@[i].charge == sum_unpinned(sh.entries@),
{
    let s = sh.entries@;
    lemma_remove_index(s, i);
    lemma_sum_remove(s, i);
    assert forall|a: int, b: int|
        0 <= a < t.entries@.len() && 0 <= b < t.entries@.len() && a != b
        implies (#[trigger] t.entries@[a]).key != (#[trigger] t.entries@[b]).key by {
        let a2 = if a < i { a } else { a + 1 };
        let b2 = if b < i { b } else { b + 1 };
        assert(t.entries@[a] == s[a2]);
        assert(t.entries@[b] == s[b2]);
    }
    assert forall|a: int, b: int|
        0 <= a < t.entries@.len() && 0 <= b < t.pending@.len()
        implies (#[trigger] t.entries@[a]).key != (#[trigger] t.pending@[b]).key by {
        let a2 = if a < i { a } else { a + 1 };
        assert(t.entries@[a] == s[a2]);
    }
    assert forall|k: BlockKey| t.resident(k) <==> (sh.resident(k) && k != s[i].key) by {
        if t.resident(k) {
            let a = choose|a: int| 0 <= a < t.entries@.len() && (#[trigger] t.entries@[a]).key == k;
            let a2 = if a < i { a } else { a + 1 };
            assert(t.entries@[a] == s[a2]);
        }
        if sh.resident(k) && k != s[i].key {
            let a = choose|a: int| 0 <= a < s.len() && (#[trigger] s[a]).key == k;
            if a < i {
                assert(t.entries@[a] == s[a]);
            } else {
                assert(t.entries@[a - 1] == s[a]);
            }
        }
    }
    if all_pinned(s) {
        assert forall|a: int| 0 <= a < t.entries@.len() implies (#[trigger] t.entries@[a]).refs > 0 by {
            let a2 = if a < i { a } else { a + 1 };
            assert(t.entries@[a] == s[a2]);
        }
    }
}

/// Moving the entry at `i` to the most recently used end with one more pin.
proof fn lemma_touch(sh: LruShard, t: LruShard, i: int)
    requires
        sh.wf(),
        0 <= i < sh.entries@.len(),
        t.entries@ == touch(sh.entries@, i),
        t.pending@ == sh.pending@,
        t.usage == sh.usage,
        t.capacity == sh.capacity,
    ensures
        t.wf(),
        forall|k: BlockKey| t.resident(k) <==> sh.resident(k),
        t.entries@.last() == pinned_once(sh.entries@[i]),
{
    let s = sh.entries@;
    let r = s.remove(i);
    let e = pinned_once(s[i]);
    lemma_remove_index(s, i);
    lemma_sum_remove(s, i);
    lemma_sum_push(r, e);
    let mid = LruShard { capacity: sh.capacity, usage: (sh.usage - s[i].charge) as usize, entries: t.entries, pending: t.pending };
    assert forall|a: int| 0 <= a < r.len() implies #[trigger] t.entries@[a] == r[a] by {}
    assert(t.entries@[r.len() as int] == e);
    assert forall|a: int, b: int|
        0 <= a < t.entries@.len() && 0 <= b < t.entries@.len() && a != b
        implies (#[trigger] t.entries@[a]).key != (#[trigger] t.entries@[b]).key by {
        let a2 = if a == r.len() { i } else if a < i { a } else { a + 1 };
        let b2 = if b == r.len() { i } else if b < i { b } else { b + 1 };
        assert(t.entries@[a].key == s[a2].key);
        assert(t.entries@[b].key == s[b2].key);
    }
    assert forall|a: int, b: int|
        0 <= a < t.entries@.len() && 0 <= b < t.pending@.len()
        implies (#[trigger] t.entries@[a]).key != (#[trigger] t.pending@[b]).key by {
        let a2 = if a == r.len() { i } else if a < i { a } else { a + 1 };
        assert(t.entries@[a].key == s[a2].key);
    }
    assert forall|k: BlockKey| t.resident(k) <==> sh.resident(k) by {
        if t.resident(k) {
            let a = choose|a: int| 0 <= a < t.entries@.len() && (#[trigger] t.entries@[a]).key == k;
            let a2 = if a == r.len() { i } else if a < i { a } else { a + 1 };
            assert(t.entries@[a].key == s[a2].key);
        }
        if sh.resident(k) {
            let a = choose|a: int| 0 <= a < s.len() && (#[trigger] s[a]).key == k;
            if a == i {
                assert(t.entries@[r.len() as int].key == k);
            } else if a < i {
                assert(t.entries@[a] == s[a]);
            } else {
                assert(t.entries@[a - 1] == s[a]);
            }
        }
    }
    if !(sh.usage <= sh.capacity) {
        assert forall|a: int| 0 <= a < t.entries@.len() implies (#[trigger] t.entries@[a]).refs > 0 by {
            let a2 = if a == r.len() { i } else if a < i { a } else { a + 1 };
            assert(s[a2].refs > 0);
        }
    }
}


/// A key is never resident and pending at once.
pub proof fn lemma_resident_xor_pending(s: LruShard, k: BlockKey)
    requires
        s.wf(),
    ensures
        !(s.resident(k) && s.is_pending(k)),
{
    if s.resident(k) && s.is_pending(k) {
        let i = choose|i: int| 0 <= i < s.entries@.len() && (#[trigger] s.entries@[i]).key == k;
        let j = choose|j: int| 0 <= j < s.pending@.len() && (#[trigger] s.pending@[j]).key == k;
        assert(s.entries@[i].key != s.pending@[j].key);
    }
}

/// Single flight: while a load of `k` is in flight (its first request missed
/// and registered it as pending), no further request designates a loader, so
/// one miss-to-fill cycle runs the loader at most once.
pub proof fn lemma_single_flight(s: LruShard, k: BlockKey)
    requires
        s.wf(),
        s.is_pending(k),
    ensures
        !s.designates_loader(k),
        !s.resident(k),
{
    lemma_resident_xor_pending(s, k);
}

/// The charges of the resident entries that no handle pins stay within the
/// capacity.
pub proof fn lemma_byte_budget(s: LruShard)
    requires
        s.wf(),
    ensures
        sum_unpinned(s.entries@) <= s.capacity,
{
    lemma_unpinned_le(s.entries@);
}

impl LruShard {
    pub open spec fn resident(&self, k: BlockKey) -> bool {
        has_key(self.entries@, k)
    }

    pub open spec fn is_pending(&self, k: BlockKey) -> bool {
        exists|i: int| 0 <= i < self.pending@.len() && (#[trigger] self.pending@[i]).key == k
    }

    /// The resident entry of `k`.
    pub open spec fn entry_of(&self, k: BlockKey) -> CacheEntry {
        self.entries@[position(self.entries@, k)]
    }


    /// The pending request of `k` (meaningful when `is_pending(k)`).
    pub open spec fn pending_of(&self, k: BlockKey) -> PendingRequest {
        self.pending@[pending_position(self.pending@, k)]
    }

    /// A request for `k` would make its caller the one loader of the block.
    pub open spec fn designates_loader(&self, k: BlockKey) -> bool {
        !self.resident(k) && !self.is_pending(k)
    }

    /// Well-formed, with the budget clause left out.
    pub open spec fn core_wf(&self) -> bool {
        &&& keys_unique(self.entries@)
        &&& pending_unique(self.pending@)
        &&& forall|i: int, j: int|
            0 <= i < self.entries@.len() && 0 <= j < self.pending@.len()
                ==> (#[trigger] self.entries@[i]).key != (#[trigger] self.pending@[j]).key
        &&& self.usage == sum_charges(self.entries@)
    }

    /// Keys are unique, no key is both resident and pending, `usage` is the sum
    /// of the charges, and the budget holds unless every entry is pinned.
    pub open spec fn wf(&self) -> bool {
        &&& self.core_wf()
        &&& (self.usage <= self.capacity || all_pinned(self.entries@))
    }

    pub fn new(capacity: usize) -> (r: Self)
        ensures
            r.wf(),
            r.capacity == capacity,
            r.entries@.len() == 0,
            r.pending@.len() == 0,
    {
        LruShard { capacity, usage: 0, entries: Vec::new(), pending: Vec::new() }
    }


    fn first_unpinned(&self) -> (r: Option<usize>)
        ensures
            r is None ==> all_pinned(self.entries@),
            r matches Some(j) ==> j < self.entries@.len() && self.entries@[j as int].refs == 0
                && forall|a: int| 0 <= a < j ==> (#[trigger] self.entries@[a]).refs > 0,
    {
        let mut j: usize = 0;
        while j < self.entries.len()
            invariant
                j <= self.entries@.len(),
                forall|a: int| 0 <= a < j ==> (#[trigger] self.entries@[a]).refs > 0,
            decreases self.entries@.len() - j,
        {
            if self.entries[j].refs == 0 {
                return Some(j);
            }
            j += 1;
        }
        None
    }

    /// Evicts unpinned entries, least recently used first, until the charges fit
    /// the capacity or every remaining entry is pinned.
    fn evict(&mut self)
        requires
            old(self).core_wf(),
        ensures
            final(self).wf(),
            final(self).capacity == old(self).capacity,
            final(self).pending@ == old(self).pending@,
            forall|x: CacheEntry| final(self).entries@.contains(x) ==> old(self).entries@.contains(x),
            forall|i: int|
                0 <= i < old(self).entries@.len() && (#[trigger] old(self).entries@[i]).refs > 0
                    ==> final(self).entries@.contains(old(self).entries@[i]),
            forall|k: BlockKey| final(self).resident(k) ==> old(self).resident(k),
            old(self).usage <= old(self).capacity ==> final(self).entries@ == old(self).entries@,
            old(self).entries@.len() > 0 && old(self).entries@.last().refs > 0
                ==> final(self).entries@.len() > 0 && final(self).entries@.last() == old(self).entries@.last(),
            // least recently used first: an evicted entry had no unpinned entry
            // older than it left behind
            forall|i: int, j: int|
                0 <= j < i < old(self).entries@.len() && !final(self).resident((#[trigger] old(self).entries@[i]).key)
                    && (#[trigger] old(self).entries@[j]).refs == 0
                    ==> !final(self).resident(old(self).entries@[j].key),
    {
        let ghost start = *self;
        let ghost mut idx: Seq<int> = Seq::new(self.entries@.len(), |a: int| a);
        assert forall|i: int| 0 <= i < start.entries@.len() implies idx.contains(i) by {
            assert(idx[i] == i);
        }
        loop
            invariant
                self.core_wf(),
                self.capacity == start.capacity,
                self.pending@ == start.pending@,
                forall|x: CacheEntry| self.entries@.contains(x) ==> start.entries@.contains(x),
                forall|i: int|
                    0 <= i < start.entries@.len() && (#[trigger] start.entries@[i]).refs > 0
                        ==> self.entries@.contains(start.entries@[i]),
                forall|k: BlockKey| self.resident(k) ==> start.resident(k),
                start.usage <= start.capacity ==> self.entries@ == start.entries@,
                start.usage == sum_charges(start.entries@),
                start.entries@.len() > 0 && start.entries@.last().refs > 0
                    ==> self.entries@.len() > 0 && self.entries@.last() == start.entries@.last(),
                idx.len() == self.entries@.len(),
                forall|a: int| 0 <= a < idx.len() ==> 0 <= #[trigger] idx[a] < start.entries@.len()
                    && self.entries@[a] == start.entries@[idx[a]],
                forall|a: int, b: int| 0 <= a < b < idx.len() ==> #[trigger] idx[a] < #[trigger] idx[b],
                keys_unique(start.entries@),
                forall|i: int, j: int| #![trigger idx.contains(i), idx.contains(j)]
                    0 <= j < i < start.entries@.len() && !idx.contains(i) && start.entries@[j].refs == 0
                        ==> !idx.contains(j),
            ensures
                self.usage <= self.capacity || all_pinned(self.entries@),
            decreases self.entries@.len(),
        {
            if self.usage <= self.capacity {
                break;
            }
            match self.first_unpinned() {
                None => break,
                Some(j) => {
                    let ghost before = *self;
                    let victim = self.entries.remove(j);
                    proof { lemma_sum_remove(before.entries@, j as int); }
                    self.usage = self.usage - victim.charge;
                    proof { lemma_remove_core(before, *self, j as int); }
                    proof { lemma_remove_contains(before.entries@, j as int); }
                    assert forall|i: int|
                        0 <= i < start.entries@.len() && (#[trigger] start.entries@[i]).refs > 0
                            implies self.entries@.contains(start.entries@[i]) by {
                        let a = choose|a: int| 0 <= a < before.entries@.len() && before.entries@[a] == start.entries@[i];
                        assert(a != j);
                    }
                    let ghost old_idx = idx;
                    proof {
                        let i0 = old_idx[j as int];
                        idx = old_idx.remove(j as int);
                        assert forall|a: int| 0 <= a < idx.len() implies #[trigger] idx[a] == (if a < j { old_idx[a] } else { old_idx[a + 1] }) by {}
                        assert forall|x: int| idx.contains(x) <==> (old_idx.contains(x) && x != i0) by {
                            if idx.contains(x) {
                                let a = choose|a: int| 0 <= a < idx.len() && idx[a] == x;
                                if a < j { assert(old_idx[a] < old_idx[j as int]); } else { assert(old_idx[j as int] < old_idx[a + 1]); }
                                assert(old_idx[if a < j { a } else { a + 1 }] == x);
                            }
                            if old_idx.contains(x) && x != i0 {
                                let a = choose|a: int| 0 <= a < old_idx.len() && old_idx[a] == x;
                                if a < j { assert(idx[a] == x); } else { assert(a != j); assert(idx[a - 1] == x); }
                            }
                        }
                        assert forall|a: int| 0 <= a < idx.len() implies 0 <= #[trigger] idx[a] < start.entries@.len()
                            && self.entries@[a] == start.entries@[idx[a]] by {
                            if a < j { assert(self.entries@[a] == before.entries@[a]); } else { assert(self.entries@[a] == before.entries@[a + 1]); }
                        }
                        assert forall|a: int, b: int| 0 <= a < b < idx.len() implies #[trigger] idx[a] < #[trigger] idx[b] by {
                            let a2 = if a < j { a } else { a + 1 };
                            let b2 = if b < j { b } else { b + 1 };
                            assert(old_idx[a2] < old_idx[b2]);
                        }
                        assert forall|i: int, jj: int| #![trigger idx.contains(i), idx.contains(jj)]
                            0 <= jj < i < start.entries@.len() && !idx.contains(i) && start.entries@[jj].refs == 0
                                implies !idx.contains(jj) by {
                            if i != i0 {
                                assert(!old_idx.contains(i));
                                assert(!old_idx.contains(jj));
                            } else if old_idx.contains(jj) {
                                let a = choose|a: int| 0 <= a < old_idx.len() && old_idx[a] == jj;
                                if a >= j {
                                    if a > j { assert(old_idx[j as int] < old_idx[a]); }
                                }
                                assert(a < j);
                                assert(before.entries@[a] == start.entries@[jj]);
                                assert(before.entries@[a].refs > 0);
                            }
                        }
                    }
                },
            }
        }
        assert forall|i: int, j: int|
            0 <= j < i < start.entries@.len() && !self.resident((#[trigger] start.entries@[i]).key)
                && (#[trigger] start.entries@[j]).refs == 0 implies !self.resident(start.entries@[j].key) by {
            assert(!idx.contains(i)) by {
                if idx.contains(i) {
                    let a = choose|a: int| 0 <= a < idx.len() && idx[a] == i;
                    assert(self.entries@[a].key == start.entries@[i].key);
                }
            }
            assert(!idx.contains(j));
            if self.resident(start.entries@[j].key) {
                let a = choose|a: int| 0 <= a < self.entries@.len() && (#[trigger] self.entries@[a]).key == start.entries@[j].key;
                assert(start.entries@[idx[a]].key == start.entries@[j].key);
                assert(idx[a] == j);
            }
        }
    }

    /// A hit pins the entry and makes it the most recently used.
    pub fn lookup(&mut self, k: BlockKey) -> (r: Option<Vec<u8>>)
        requires
            old(self).wf(),
        ensures
            final(self).wf(),
            final(self).capacity == old(self).capacity,
            final(self).pending@ == old(self).pending@,
            r is Some <==> old(self).resident(k),
            r matches Some(b) ==> b@ == old(self).entry_of(k).block@ && final(self).entries@ == touch(
                old(self).entries@,
                position(old(self).entries@, k),
            ),
            r is None ==> *final(self) == *old(self),
            forall|k2: BlockKey| final(self).resident(k2) <==> old(self).resident(k2),
    {
        match self.find(k) {
            None => None,
            Some(i) => Some(self.pin_at(i)),
        }
    }

    fn pin_at(&mut self, i: usize) -> (b: Vec<u8>)
        requires
            old(self).wf(),
            i < old(self).entries@.len(),
        ensures
            final(self).wf(),
            final(self).capacity == old(self).capacity,
            final(self).pending@ == old(self).pending@,
            final(self).usage == old(self).usage,
            b@ == old(self).entries@[i as int].block@,
            final(self).entries@ == touch(old(self).entries@, i as int),
            forall|k2: BlockKey| final(self).resident(k2) <==> old(self).resident(k2),
    {
        let ghost before = *self;
        let e = self.entries.remove(i);
        let b = e.block.clone();
        assert(b@ =~= e.block@);
        let refs = if e.refs == usize::MAX { e.refs } else { e.refs + 1 };
        self.entries.push(CacheEntry { key: e.key, charge: e.charge, block: e.block, refs });
        assert(self.entries@ =~= touch(before.entries@, i as int));
        proof { lemma_touch(before, *self, i as int); }
        b
    }


    fn find_pending(&self, k: BlockKey) -> (r: Option<usize>)
        requires
            pending_unique(self.pending@),
        ensures
            r is Some <==> self.is_pending(k),
            r matches Some(i) ==> i == pending_position(self.pending@, k) && i < self.pending@.len()
                && self.pending@[i as int].key == k,
    {
        let mut i: usize = 0;
        while i < self.pending.len()
            invariant
                pending_unique(self.pending@),
                i <= self.pending@.len(),
                forall|j: int| 0 <= j < i ==> (#[trigger] self.pending@[j]).key != k,
            decreases self.pending@.len() - i,
        {
            if self.pending[i].key.0 == k.0 && self.pending[i].key.1 == k.1 {
                let ghost p = pending_position(self.pending@, k);
                assert(self.pending@[p].key == k);
                assert(self.pending@[i as int].key == k);
                return Some(i);
            }
            i += 1;
        }
        None
    }

    /// Looks `k` up for a caller that will load the block on a miss. A miss
    /// registers `k` as pending, so that later callers wait instead of loading.
    pub fn lookup_for_request(&mut self, k: BlockKey) -> (r: RequestOutcome)
        requires
            old(self).wf(),
        ensures
            final(self).wf(),
            final(self).capacity == old(self).capacity,
            r is Cached <==> old(self).resident(k),
            r is WaitPendingRequest <==> !old(self).resident(k) && old(self).is_pending(k),
            r is Miss <==> old(self).designates_loader(k),
            r matches RequestOutcome::Cached(b) ==> b@ == old(self).entry_of(k).block@
                && final(self).entries@ == touch(old(self).entries@, position(old(self).entries@, k))
                && final(self).pending@ == old(self).pending@,
            r is WaitPendingRequest ==> final(self).entries@ == old(self).entries@
                && final(self).pending@ == old(self).pending@.update(
                    pending_position(old(self).pending@, k),
                    PendingRequest { key: k, waiters: sat_inc(old(self).pending_of(k).waiters) },
                ),
            r is Miss ==> final(self).entries@ == old(self).entries@
                && final(self).pending@ == old(self).pending@.push(PendingRequest { key: k, waiters: 0 }),
            final(self).is_pending(k) <==> !old(self).resident(k),
            forall|k2: BlockKey| final(self).resident(k2) <==> old(self).resident(k2),
            forall|k2: BlockKey| k2 != k ==> (final(self).is_pending(k2) <==> old(self).is_pending(k2)),
    {
        if let Some(i) = self.find(k) {
            let b = self.pin_at(i);
            assert(!self.is_pending(k)) by {
                if self.is_pending(k) {
                    let j = choose|j: int| 0 <= j < self.pending@.len() && (#[trigger] self.pending@[j]).key == k;
                    assert(self.entries@.last().key == k);
                    assert(self.entries@[self.entries@.len() - 1].key != self.pending@[j].key);
                }
            }
            return RequestOutcome::Cached(b);
        }
        let ghost before = *self;
        match self.find_pending(k) {
            Some(j) => {
                let w = self.pending[j].waiters;
                let w2 = if w == usize::MAX { w } else { w + 1 };
                self.pending.set(j, PendingRequest { key: k, waiters: w2 });
                assert forall|a: int, b: int|
                    0 <= a < self.pending@.len() && 0 <= b < self.pending@.len() && a != b
                    implies (#[trigger] self.pending@[a]).key != (#[trigger] self.pending@[b]).key by {
                    assert(self.pending@[a].key == before.pending@[a].key);
                    assert(self.pending@[b].key == before.pending@[b].key);
                }
                assert forall|a: int, b: int|
                    0 <= a < self.entries@.len() && 0 <= b < self.pending@.len()
                    implies (#[trigger] self.entries@[a]).key != (#[trigger] self.pending@[b]).key by {
                    assert(self.pending@[b].key == before.pending@[b].key);
                }
                assert forall|k2: BlockKey| k2 != k implies (self.is_pending(k2) <==> before.is_pending(k2)) by {
                    if self.is_pending(k2) {
                        let b = choose|b: int| 0 <= b < self.pending@.len() && (#[trigger] self.pending@[b]).key == k2;
                        assert(before.pending@[b].key == k2);
                    }
                    if before.is_pending(k2) {
                        let b = choose|b: int| 0 <= b < before.pending@.len() && (#[trigger] before.pending@[b]).key == k2;
                        assert(self.pending@[b].key == k2);
                    }
                }
                assert(self.pending@[j as int].key == k);
                RequestOutcome::WaitPendingRequest
            },
            None => {
                self.pending.push(PendingRequest { key: k, waiters: 0 });
                let ghost n = before.pending@.len() as int;
                assert forall|a: int, b: int|
                    0 <= a < self.pending@.len() && 0 <= b < self.pending@.len() && a != b
                    implies (#[trigger] self.pending@[a]).key != (#[trigger] self.pending@[b]).key by {
                    if a == n {
                        assert(!before.is_pending(k));
                        assert(before.pending@[b].key != k);
                    } else if b == n {
                        assert(before.pending@[a].key != k);
                    } else {
                        assert(self.pending@[a] == before.pending@[a]);
                        assert(self.pending@[b] == before.pending@[b]);
                    }
                }
                assert forall|a: int, b: int|
                    0 <= a < self.entries@.len() && 0 <= b < self.pending@.len()
                    implies (#[trigger] self.entries@[a]).key != (#[trigger] self.pending@[b]).key by {
                    if b == n {
                        assert(!before.resident(k));
                        assert(self.entries@[a].key != k);
                    } else {
                        assert(self.pending@[b] == before.pending@[b]);
                    }
                }
                assert forall|k2: BlockKey| k2 != k implies (self.is_pending(k2) <==> before.is_pending(k2)) by {
                    if self.is_pending(k2) {
                        let b = choose|b: int| 0 <= b < self.pending@.len() && (#[trigger] self.pending@[b]).key == k2;
                        assert(b != n);
                        assert(before.pending@[b].key == k2);
                    }
                    if before.is_pending(k2) {
                        let b = choose|b: int| 0 <= b < before.pending@.len() && (#[trigger] before.pending@[b]).key == k2;
                        assert(self.pending@[b].key == k2);
                    }
                }
                assert(self.pending@[n].key == k);
                RequestOutcome::Miss
            },
        }
    }


    /// Drops the pending request of `k`, if any, and returns its waiter count.
    fn take_pending(&mut self, k: BlockKey) -> (w: usize)
        requires
            old(self).wf(),
        ensures
            final(self).wf(),
            final(self).capacity == old(self).capacity,
            final(self).usage == old(self).usage,
            final(self).entries@ == old(self).entries@,
            !final(self).is_pending(k),
            forall|k2: BlockKey| k2 != k ==> (final(self).is_pending(k2) <==> old(self).is_pending(k2)),
            w == (if old(self).is_pending(k) { old(self).pending_of(k).waiters } else { 0 }),
    {
        match self.find_pending(k) {
            None => 0,
            Some(j) => {
                let ghost before = *self;
                let req = self.pending.remove(j);
                let ghost p = before.pending@;
                assert forall|a: int| 0 <= a < self.pending@.len() implies
                    #[trigger] self.pending@[a] == (if a < j { p[a] } else { p[a + 1] }) by {}
                assert forall|a: int, b: int|
                    0 <= a < self.pending@.len() && 0 <= b < self.pending@.len() && a != b
                    implies (#[trigger] self.pending@[a]).key != (#[trigger] self.pending@[b]).key by {
                    let a2 = if a < j { a } else { a + 1 };
                    let b2 = if b < j { b } else { b + 1 };
                    assert(self.pending@[a] == p[a2]);
                    assert(self.pending@[b] == p[b2]);
                }
                assert forall|a: int, b: int|
                    0 <= a < self.entries@.len() && 0 <= b < self.pending@.len()
                    implies (#[trigger] self.entries@[a]).key != (#[trigger] self.pending@[b]).key by {
                    let b2 = if b < j { b } else { b + 1 };
                    assert(self.pending@[b] == p[b2]);
                }
                assert forall|k2: BlockKey| self.is_pending(k2) <==> (before.is_pending(k2) && k2 != k) by {
                    if self.is_pending(k2) {
                        let b = choose|b: int| 0 <= b < self.pending@.len() && (#[trigger] self.pending@[b]).key == k2;
                        let b2 = if b < j { b } else { b + 1 };
                        assert(self.pending@[b] == p[b2]);
                        assert(b2 != j);
                    }
                    if before.is_pending(k2) && k2 != k {
                        let b = choose|b: int| 0 <= b < p.len() && (#[trigger] p[b]).key == k2;
                        if b < j {
                            assert(self.pending@[b] == p[b]);
                        } else {
                            assert(b != j);
                            assert(self.pending@[b - 1] == p[b]);
                        }
                    }
                }
                req.waiters
            },
        }
    }

    /// Removes the pending request of `k` without publishing a block, and
    /// returns how many waiters are to be told that the load failed.
    pub fn clear_pending_request(&mut self, k: BlockKey) -> (w: usize)
        requires
            old(self).wf(),
        ensures
            final(self).wf(),
            final(self).capacity == old(self).capacity,
            final(self).entries@ == old(self).entries@,
            !final(self).is_pending(k),
            forall|k2: BlockKey| k2 != k ==> (final(self).is_pending(k2) <==> old(self).is_pending(k2)),
            w == (if old(self).is_pending(k) { old(self).pending_of(k).waiters } else { 0 }),
    {
        self.take_pending(k)
    }

    /// Admits `block` under `k`, pinned once for the caller and once for each
    /// waiter of a pending request on `k`, which is resolved. Entries are then
    /// evicted, least recently used first, until the budget holds or every entry
    /// is pinned. A key that is already resident keeps its bytes (the blocks of
    /// an SST never change) and is pinned once more.
    pub fn insert(&mut self, k: BlockKey, block: Vec<u8>) -> (r: InsertOutcome)
        requires
            old(self).wf(),
        ensures
            final(self).wf(),
            final(self).capacity == old(self).capacity,
            !final(self).is_pending(k),
            forall|k2: BlockKey| k2 != k ==> (final(self).is_pending(k2) <==> old(self).is_pending(k2)),
            r.waiters == (if old(self).is_pending(k) { old(self).pending_of(k).waiters } else { 0 }),
            old(self).resident(k) ==> r.admitted && r.block@ == old(self).entry_of(k).block@
                && final(self).entries@ == touch(old(self).entries@, position(old(self).entries@, k)),
            !old(self).resident(k) ==> r.block@ == block@ && (r.admitted <==> old(self).usage + block@.len() <= usize::MAX),
            r.admitted ==> final(self).resident(k) && final(self).entry_of(k).block@ == r.block@
                && final(self).entry_of(k).refs > 0,
            !r.admitted ==> final(self).entries@ == old(self).entries@,
            !old(self).resident(k) && old(self).usage + block@.len() <= old(self).capacity
                ==> final(self).entries@ == old(self).entries@.push(new_entry(k, block, r.waiters))
                && final(self).usage == old(self).usage + block@.len(),
            old(self).resident(k) ==> final(self).usage == old(self).usage,
            !old(self).resident(k) && r.admitted ==> final(self).entries@.len() > 0
                && final(self).entries@.last() == new_entry(k, block, r.waiters),
            forall|k2: BlockKey| k2 != k && final(self).resident(k2) ==> old(self).resident(k2),
            forall|i: int|
                0 <= i < old(self).entries@.len() && (#[trigger] old(self).entries@[i]).refs > 0
                    && old(self).entries@[i].key != k ==> final(self).entries@.contains(old(self).entries@[i]),
            forall|i: int, j: int|
                0 <= j < i < old(self).entries@.len() && !final(self).resident((#[trigger] old(self).entries@[i]).key)
                    && (#[trigger] old(self).entries@[j]).refs == 0
                    ==> !final(self).resident(old(self).entries@[j].key),
    {
        if let Some(i) = self.find(k) {
            let ghost before = *self;
            let b = self.pin_at(i);
            proof {
                assert(self.entries@.last().key == k);
                assert(self.resident(k));
                let p = position(self.entries@, k);
                assert(self.entries@[p].key == k);
                assert(self.entries@[self.entries@.len() - 1].key == k);
                assert(p == self.entries@.len() - 1);
                assert(!before.is_pending(k)) by {
                    if before.is_pending(k) {
                        let j = choose|j: int| 0 <= j < before.pending@.len() && (#[trigger] before.pending@[j]).key == k;
                        assert(before.entries@[i as int].key != before.pending@[j].key);
                    }
                }
                lemma_remove_index(before.entries@, i as int);
                assert forall|a: int|
                    0 <= a < before.entries@.len() && (#[trigger] before.entries@[a]).refs > 0
                        && before.entries@[a].key != k implies self.entries@.contains(before.entries@[a]) by {
                    if a < i {
                        assert(self.entries@[a] == before.entries@[a]);
                    } else {
                        assert(self.entries@[a - 1] == before.entries@[a]);
                    }
                }
                assert forall|k2: BlockKey| k2 != k && self.resident(k2) implies before.resident(k2) by {}
            }
            return InsertOutcome { block: b, waiters: 0, admitted: true };
        }
        let w = self.take_pending(k);
        let charge = block.len();
        if charge > usize::MAX - self.usage {
            return InsertOutcome { block, waiters: w, admitted: false };
        }
        let ghost before = *self;
        let refs = if w == usize::MAX { w } else { w + 1 };
        let copy = block.clone();
        assert(copy@ =~= block@);
        let e = CacheEntry { key: k, charge, block, refs };
        let ghost eg = e;
        self.entries.push(e);
        self.usage = self.usage + charge;
        proof {
            lemma_sum_push(before.entries@, eg);
            let n = before.entries@.len() as int;
            assert forall|a: int, b: int|
                0 <= a < self.entries@.len() && 0 <= b < self.entries@.len() && a != b
                implies (#[trigger] self.entries@[a]).key != (#[trigger] self.entries@[b]).key by {
                if a == n {
                    assert(before.entries@[b].key != k);
                } else if b == n {
                    assert(before.entries@[a].key != k);
                } else {
                    assert(self.entries@[a] == before.entries@[a]);
                    assert(self.entries@[b] == before.entries@[b]);
                }
            }
            assert forall|a: int, b: int|
                0 <= a < self.entries@.len() && 0 <= b < self.pending@.len()
                implies (#[trigger] self.entries@[a]).key != (#[trigger] self.pending@[b]).key by {
                if a == n {
                    assert(self.pending@[b].key != k);
                } else {
                    assert(self.entries@[a] == before.entries@[a]);
                }
            }
            assert(self.entries@[n] == eg);
        }
        let ghost mid = *self;
        self.evict();
        proof {
            let n = before.entries@.len() as int;
            assert(mid.entries@[n].refs > 0);
            assert(self.entries@.contains(eg));
            let q = choose|q: int| 0 <= q < self.entries@.len() && self.entries@[q] == eg;
            assert(self.entries@[q].key == k);
            assert(self.resident(k));
            let p = position(self.entries@, k);
            assert(self.entries@[p].key == k);
            assert(p == q);
            assert forall|a: int|
                0 <= a < before.entries@.len() && (#[trigger] before.entries@[a]).refs > 0
                    implies self.entries@.contains(before.entries@[a]) by {
                assert(mid.entries@[a] == before.entries@[a]);
            }
            assert forall|k2: BlockKey| k2 != k && self.resident(k2) implies before.resident(k2) by {
                let b = choose|b: int| 0 <= b < mid.entries@.len() && (#[trigger] mid.entries@[b]).key == k2;
                assert(b != n);
                assert(before.entries@[b].key == k2);
            }
            assert forall|i: int, j: int|
                0 <= j < i < before.entries@.len() && !self.resident((#[trigger] before.entries@[i]).key)
                    && (#[trigger] before.entries@[j]).refs == 0 implies !self.resident(before.entries@[j].key) by {
                assert(mid.entries@[i] == before.entries@[i]);
                assert(mid.entries@[j] == before.entries@[j]);
            }
        }
        InsertOutcome { block: copy, waiters: w, admitted: true }
    }


    /// Gives back one pin on `k`. An entry that this leaves unpinned becomes
    /// eligible for eviction at once. A count stuck at `usize::MAX` stays.
    pub fn release(&mut self, k: BlockKey)
        requires
            old(self).wf(),
        ensures
            final(self).wf(),
            final(self).capacity == old(self).capacity,
            final(self).pending@ == old(self).pending@,
            forall|k2: BlockKey| final(self).resident(k2) ==> old(self).resident(k2),
            !(old(self).resident(k) && 0 < old(self).entry_of(k).refs < usize::MAX)
                ==> final(self).entries@ == old(self).entries@,
            forall|i: int|
                0 <= i < old(self).entries@.len() && (#[trigger] old(self).entries@[i]).refs > 0
                    && old(self).entries@[i].key != k ==> final(self).entries@.contains(old(self).entries@[i]),
            old(self).resident(k) && 1 < old(self).entry_of(k).refs < usize::MAX
                ==> final(self).entries@.contains(unpinned_once(old(self).entry_of(k))),
            old(self).resident(k) && 0 < old(self).entry_of(k).refs < usize::MAX && old(self).usage <= old(self).capacity
                ==> final(self).entries@ == old(self).entries@.update(
                    position(old(self).entries@, k),
                    unpinned_once(old(self).entry_of(k)),
                ),
            old(self).resident(k) && 1 < old(self).entry_of(k).refs < usize::MAX
                && position(old(self).entries@, k) == old(self).entries@.len() - 1
                ==> final(self).entries@.len() > 0 && final(self).entries@.last() == unpinned_once(old(self).entry_of(k)),
            forall|i: int, j: int|
                0 <= j < i < old(self).entries@.len() && !final(self).resident((#[trigger] old(self).entries@[i]).key)
                    && (#[trigger] old(self).entries@[j]).refs == 0
                    ==> !final(self).resident(old(self).entries@[j].key),
    {
        let i = match self.find(k) {
            None => return,
            Some(i) => i,
        };
        if self.entries[i].refs == 0 || self.entries[i].refs == usize::MAX {
            return;
        }
        let ghost before = *self;
        let e = self.entries.remove(i);
        let ghost eg = unpinned_once(e);
        self.entries.insert(i, CacheEntry { key: e.key, charge: e.charge, block: e.block, refs: e.refs - 1 });
        proof {
            let s = before.entries@;
            assert(self.entries@ =~= s.update(i as int, eg));
            lemma_sum_remove(s, i as int);
            lemma_sum_remove(self.entries@, i as int);
            assert(self.entries@.remove(i as int) =~= s.remove(i as int));
            assert forall|a: int, b: int|
                0 <= a < self.entries@.len() && 0 <= b < self.entries@.len() && a != b
                implies (#[trigger] self.entries@[a]).key != (#[trigger] self.entries@[b]).key by {
                assert(self.entries@[a].key == s[a].key);
                assert(self.entries@[b].key == s[b].key);
            }
            assert forall|a: int, b: int|
                0 <= a < self.entries@.len() && 0 <= b < self.pending@.len()
                implies (#[trigger] self.entries@[a]).key != (#[trigger] self.pending@[b]).key by {
                assert(self.entries@[a].key == s[a].key);
            }
        }
        let ghost mid = *self;
        self.evict();
        proof {
            let s = before.entries@;
            assert forall|a: int|
                0 <= a < s.len() && (#[trigger] s[a]).refs > 0 && s[a].key != k
                    implies self.entries@.contains(s[a]) by {
                assert(a != i);
                assert(mid.entries@[a] == s[a]);
            }
            if eg.refs > 0 {
                assert(mid.entries@[i as int] == eg);
            }
            assert forall|k2: BlockKey| self.resident(k2) implies before.resident(k2) by {
                let b = choose|b: int| 0 <= b < mid.entries@.len() && (#[trigger] mid.entries@[b]).key == k2;
                assert(s[b].key == k2);
            }
            assert forall|a: int, j: int|
                0 <= j < a < s.len() && !self.resident((#[trigger] s[a]).key)
                    && (#[trigger] s[j]).refs == 0 implies !self.resident(s[j].key) by {
                assert(mid.entries@[a].key == s[a].key);
                assert(j != i);
                assert(mid.entries@[j] == s[j]);
            }
        }
    }


    /// Evicts every entry that no handle pins.
    pub fn clear(&mut self)
        requires
            old(self).wf(),
        ensures
            final(self).wf(),
            final(self).capacity == old(self).capacity,
            final(self).pending@ == old(self).pending@,
            all_pinned(final(self).entries@),
            forall|x: CacheEntry| final(self).entries@.contains(x) ==> old(self).entries@.contains(x),
            forall|i: int|
                0 <= i < old(self).entries@.len() && (#[trigger] old(self).entries@[i]).refs > 0
                    ==> final(self).entries@.contains(old(self).entries@[i]),
    {
        let ghost start = *self;
        loop
            invariant
                self.core_wf(),
                self.capacity == start.capacity,
                self.pending@ == start.pending@,
                start.usage <= start.capacity || all_pinned(start.entries@),
                self.usage <= start.usage,
                forall|x: CacheEntry| self.entries@.contains(x) ==> start.entries@.contains(x),
                forall|i: int|
                    0 <= i < start.entries@.len() && (#[trigger] start.entries@[i]).refs > 0
                        ==> self.entries@.contains(start.entries@[i]),
            ensures
                all_pinned(self.entries@),
            decreases self.entries@.len(),
        {
            match self.first_unpinned() {
                None => break,
                Some(j) => {
                    let ghost before = *self;
                    let victim = self.entries.remove(j);
                    proof { lemma_sum_remove(before.entries@, j as int); }
                    self.usage = self.usage - victim.charge;
                    proof {
                        lemma_remove_core(before, *self, j as int);
                        lemma_remove_contains(before.entries@, j as int);
                    }
                    assert forall|i: int|
                        0 <= i < start.entries@.len() && (#[trigger] start.entries@[i]).refs > 0
                            implies self.entries@.contains(start.entries@[i]) by {
                        let a = choose|a: int| 0 <= a < before.entries@.len() && before.entries@[a] == start.entries@[i];
                        assert(a != j);
                    }
                },
            }
        }
    }

    fn find(&self, k: BlockKey) -> (r: Option<usize>)
        requires
            keys_unique(self.entries@),
        ensures
            r is Some <==> self.resident(k),
            r matches Some(i) ==> i == position(self.entries@, k) && i < self.entries@.len()
                && self.entries@[i as int].key == k,
    {
        let mut i: usize = 0;
        while i < self.entries.len()
            invariant
                keys_unique(self.entries@),
                i <= self.entries@.len(),
                forall|j: int| 0 <= j < i ==> (#[trigger] self.entries@[j]).key != k,
            decreases self.entries@.len() - i,
        {
            if self.entries[i].key.0 == k.0 && self.entries[i].key.1 == k.1 {
                let ghost p = position(self.entries@, k);
                assert(has_key(self.entries@, k));
                assert(self.entries@[p].key == k);
                assert(self.entries@[i as int].key == k);
                return Some(i);
            }
            i += 1;
        }
        None
    }
}

} // verus!
