//! Byte-budgeted shared storage for point and attribute buffers, keyed by
//! opaque handles. When the resident bytes exceed the budget, the least
//! recently used buffers are spilled to a backing arena; a later access
//! reloads and re-admits them. The logical view — which bytes every key
//! holds — never depends on residency, which is what makes the pipeline's
//! round trips exact.

use vstd::pervasive::unreached;
use vstd::prelude::*;

verus! {

/// Largest accepted cache budget, leaving headroom for one oversized buffer
/// in the byte bookkeeping.
pub const MAX_CACHE_BUDGET: u64 = 0x1000_0000_0000_0000;

/// Largest accepted size of a single logical buffer.
pub const MAX_BUFFER_BYTES: u64 = 0x1000_0000_0000_0000;

struct Entry {
    key: u64,
    resident: bool,
    data: Vec<u8>,
    spill: usize,
    stamp: u64,
}

/// Bytes a single entry logically holds, wherever they live.
spec fn entry_bytes(e: Entry, store: Seq<Vec<u8>>) -> Seq<u8> {
    if e.resident {
        e.data@
    } else {
        store[e.spill as int]@
    }
}

/// Bytes one entry keeps resident.
spec fn held_bytes(e: Entry) -> int {
    if e.resident {
        e.data@.len() as int
    } else {
        0
    }
}

/// The key-to-bytes map held by an entry list.
spec fn map_of(entries: Seq<Entry>, store: Seq<Vec<u8>>) -> Map<u64, Seq<u8>>
    decreases entries.len(),
{
    if entries.len() == 0 {
        Map::empty()
    } else {
        map_of(entries.drop_last(), store).insert(
            entries.last().key,
            entry_bytes(entries.last(), store),
        )
    }
}

spec fn distinct_keys(entries: Seq<Entry>) -> bool {
    forall|i: int, j: int|
        0 <= i < j < entries.len() ==> (#[trigger] entries[i]).key != (#[trigger] entries[j]).key
}

spec fn resident_sum(entries: Seq<Entry>) -> int
    decreases entries.len(),
{
    if entries.len() == 0 {
        0
    } else {
        resident_sum(entries.drop_last()) + held_bytes(entries.last())
    }
}

spec fn resident_count(entries: Seq<Entry>) -> int
    decreases entries.len(),
{
    if entries.len() == 0 {
        0
    } else {
        resident_count(entries.drop_last()) + if entries.last().resident {
            1int
        } else {
            0int
        }
    }
}

proof fn lemma_map_of_index(entries: Seq<Entry>, store: Seq<Vec<u8>>, i: int)
    requires
        distinct_keys(entries),
        0 <= i < entries.len(),
    ensures
        map_of(entries, store).contains_key(entries[i].key),
        map_of(entries, store)[entries[i].key] == entry_bytes(entries[i], store),
    decreases entries.len(),
{
    if i < entries.len() - 1 {
        lemma_map_of_index(entries.drop_last(), store, i);
    }
}

proof fn lemma_map_of_absent(entries: Seq<Entry>, store: Seq<Vec<u8>>, k: u64)
    requires
        forall|i: int| 0 <= i < entries.len() ==> (#[trigger] entries[i]).key != k,
    ensures
        !map_of(entries, store).contains_key(k),
    decreases entries.len(),
{
    if entries.len() > 0 {
        lemma_map_of_absent(entries.drop_last(), store, k);
    }
}

proof fn lemma_map_of_update(entries: Seq<Entry>, store: Seq<Vec<u8>>, i: int, e2: Entry)
    requires
        distinct_keys(entries),
        0 <= i < entries.len(),
        e2.key == entries[i].key,
    ensures
        map_of(entries.update(i, e2), store) == map_of(entries, store).insert(
            e2.key,
            entry_bytes(e2, store),
        ),
    decreases entries.len(),
{
    let upd = entries.update(i, e2);
    if i == entries.len() - 1 {
        assert(upd.drop_last() =~= entries.drop_last());
        assert(map_of(upd, store) =~= map_of(entries, store).insert(
            e2.key,
            entry_bytes(e2, store),
        ));
    } else {
        assert(upd.drop_last() =~= entries.drop_last().update(i, e2));
        lemma_map_of_update(entries.drop_last(), store, i, e2);
        assert(upd.last() == entries.last());
        assert(entries.last().key != e2.key);
        assert(map_of(upd, store) =~= map_of(entries, store).insert(
            e2.key,
            entry_bytes(e2, store),
        ));
    }
}

proof fn lemma_map_of_store_extend(entries: Seq<Entry>, store1: Seq<Vec<u8>>, store2: Seq<Vec<u8>>)
    requires
        forall|i: int|
            0 <= i < entries.len() && !(#[trigger] entries[i]).resident ==> entries[i].spill
                < store1.len(),
        store1.len() <= store2.len(),
        forall|j: int| 0 <= j < store1.len() ==> store2[j] == #[trigger] store1[j],
    ensures
        map_of(entries, store2) == map_of(entries, store1),
    decreases entries.len(),
{
    if entries.len() > 0 {
        lemma_map_of_store_extend(entries.drop_last(), store1, store2);
        assert(entry_bytes(entries.last(), store2) == entry_bytes(entries.last(), store1));
    }
}

proof fn lemma_resident_sum_update(entries: Seq<Entry>, i: int, e2: Entry)
    requires
        0 <= i < entries.len(),
    ensures
        resident_sum(entries.update(i, e2)) == resident_sum(entries) - held_bytes(entries[i])
            + held_bytes(e2),
        resident_count(entries.update(i, e2)) == resident_count(entries) - (if entries[i].resident
            {
            1int
        } else {
            0int
        }) + (if e2.resident {
            1int
        } else {
            0int
        }),
    decreases entries.len(),
{
    let upd = entries.update(i, e2);
    if i == entries.len() - 1 {
        assert(upd.drop_last() =~= entries.drop_last());
    } else {
        assert(upd.drop_last() =~= entries.drop_last().update(i, e2));
        lemma_resident_sum_update(entries.drop_last(), i, e2);
        assert(upd.last() == entries.last());
    }
}

proof fn lemma_resident_sum_nonneg(entries: Seq<Entry>)
    ensures
        resident_sum(entries) >= 0,
        resident_count(entries) >= 0,
    decreases entries.len(),
{
    if entries.len() > 0 {
        lemma_resident_sum_nonneg(entries.drop_last());
    }
}

proof fn lemma_contrib_le_sum(entries: Seq<Entry>, i: int)
    requires
        0 <= i < entries.len(),
    ensures
        held_bytes(entries[i]) <= resident_sum(entries),
    decreases entries.len(),
{
    lemma_resident_sum_nonneg(entries.drop_last());
    if i < entries.len() - 1 {
        lemma_contrib_le_sum(entries.drop_last(), i);
    }
}

proof fn lemma_resident_sum_all_spilled(entries: Seq<Entry>)
    requires
        forall|i: int| 0 <= i < entries.len() ==> !(#[trigger] entries[i]).resident,
    ensures
        resident_sum(entries) == 0,
    decreases entries.len(),
{
    if entries.len() > 0 {
        lemma_resident_sum_all_spilled(entries.drop_last());
    }
}

/// The memory-budgeted buffer cache shared by the pipeline stages.
pub struct Cache {
    budget: u64,
    resident_bytes: u64,
    clock: u64,
    entries: Vec<Entry>,
    store: Vec<Vec<u8>>,
}

impl View for Cache {
    type V = Map<u64, Seq<u8>>;

    /// The logical contents: every key's bytes, resident or spilled.
    closed spec fn view(&self) -> Map<u64, Seq<u8>> {
        map_of(self.entries@, self.store@)
    }
}

impl Cache {
    /// Structural invariant, short of the budget bound.
    spec fn wf0(self) -> bool {
        &&& distinct_keys(self.entries@)
        &&& forall|i: int|
            0 <= i < self.entries@.len() && !(#[trigger] self.entries@[i]).resident
                ==> self.entries@[i].spill < self.store@.len()
        &&& self.resident_bytes == resident_sum(self.entries@)
        &&& self.budget <= MAX_CACHE_BUDGET
        &&& forall|i: int|
            0 <= i < self.entries@.len() ==> entry_bytes(#[trigger] self.entries@[i], self.store@).len()
                <= MAX_BUFFER_BYTES
    }

    /// Structural invariant of the cache: consistent bookkeeping, and the
    /// resident bytes within the budget.
    pub closed spec fn wf(self) -> bool {
        &&& self.wf0()
        &&& self.resident_bytes <= self.budget
    }

    /// The configured byte budget.
    pub closed spec fn spec_budget(self) -> u64 {
        self.budget
    }

    /// Bytes currently held in memory rather than in the backing store.
    pub closed spec fn spec_resident_bytes(self) -> u64 {
        self.resident_bytes
    }

    /// A fresh cache with the given byte budget and no entries.
    pub fn new(budget: u64) -> (r: Cache)
        requires
            budget <= MAX_CACHE_BUDGET,
        ensures
            r.wf(),
            r@ == Map::<u64, Seq<u8>>::empty(),
            r.spec_budget() == budget,
            r.spec_resident_bytes() == 0,
    {
        Cache { budget, resident_bytes: 0, clock: 0, entries: Vec::new(), store: Vec::new() }
    }

    fn find(&self, key: u64) -> (r: Option<usize>)
        ensures
            match r {
                Some(i) => i < self.entries@.len() && self.entries@[i as int].key == key,
                None => forall|i: int|
                    0 <= i < self.entries@.len() ==> (#[trigger] self.entries@[i]).key != key,
            },
    {
        let n: usize = self.entries.len();
        let mut i: usize = 0;
        while i < n
            invariant
                i <= n,
                n == self.entries@.len(),
                forall|j: int| 0 <= j < i ==> (#[trigger] self.entries@[j]).key != key,
            decreases n - i,
        {
            if self.entries[i].key == key {
                return Some(i);
            }
            i = i + 1;
        }
        None
    }

    fn bump_clock(&mut self) -> (r: u64)
        ensures
            final(self).entries == old(self).entries,
            final(self).store == old(self).store,
            final(self).budget == old(self).budget,
            final(self).resident_bytes == old(self).resident_bytes,
    {
        if self.clock < 0xffff_ffff_ffff_ffff {
            self.clock = self.clock + 1;
        }
        self.clock
    }

    /// Spills least-recently-used resident buffers until the resident bytes
    /// are back under the budget.
    fn evict_to_budget(&mut self)
        requires
            old(self).wf0(),
        ensures
            final(self).wf(),
            final(self)@ == old(self)@,
            final(self).spec_budget() == old(self).spec_budget(),
    {
        loop
            invariant
                self.wf0(),
                self@ == old(self)@,
                self.budget == old(self).budget,
            decreases resident_count(self.entries@) + 1,
        {
            proof {
                lemma_resident_sum_nonneg(self.entries@);
            }
            if self.resident_bytes <= self.budget {
                return;
            }
            // pick the least-recently-used resident entry
            let n: usize = self.entries.len();
            let mut victim: Option<usize> = None;
            let mut best_stamp: u64 = 0;
            let mut i: usize = 0;
            while i < n
                invariant
                    i <= n,
                    n == self.entries@.len(),
                    match victim {
                        Some(v) => v < self.entries@.len() && self.entries@[v as int].resident,
                        None => forall|j: int|
                            0 <= j < i ==> !(#[trigger] self.entries@[j]).resident,
                    },
                decreases n - i,
            {
                if self.entries[i].resident {
                    match victim {
                        Some(_) => {
                            if self.entries[i].stamp < best_stamp {
                                victim = Some(i);
                                best_stamp = self.entries[i].stamp;
                            }
                        },
                        None => {
                            victim = Some(i);
                            best_stamp = self.entries[i].stamp;
                        },
                    }
                }
                i = i + 1;
            }
            match victim {
                None => {
                    proof {
                        lemma_resident_sum_all_spilled(self.entries@);
                    }
                    return;
                },
                Some(v) => {
                    let ghost entries0 = self.entries@;
                    let ghost store0 = self.store@;
                    proof {
                        lemma_contrib_le_sum(entries0, v as int);
                    }
                    let mut e: Entry = self.entries.remove(v);
                    let bytes: usize = e.data.len();
                    let spill_idx: usize = self.store.len();
                    let mut moved: Vec<u8> = Vec::new();
                    core::mem::swap(&mut moved, &mut e.data);
                    e.resident = false;
                    e.spill = spill_idx;
                    self.store.push(moved);
                    self.entries.insert(v, e);
                    self.resident_bytes = self.resident_bytes - bytes as u64;
                    proof {
                        let e2 = self.entries@[v as int];
                        assert(self.entries@ =~= entries0.update(v as int, e2));
                        assert(entry_bytes(e2, self.store@) == entry_bytes(
                            entries0[v as int],
                            store0,
                        ));
                        lemma_map_of_store_extend(entries0, store0, self.store@);
                        lemma_map_of_update(entries0, self.store@, v as int, e2);
                        lemma_map_of_index(entries0, self.store@, v as int);
                        assert(map_of(entries0, self.store@).insert(
                            e2.key,
                            entry_bytes(e2, self.store@),
                        ) =~= map_of(entries0, self.store@));
                        lemma_resident_sum_update(entries0, v as int, e2);
                    }
                },
            }
        }
    }

    /// Returns the opaque handle under which buffers for `key` are stored,
    /// creating an empty entry when the key is new. The handle is the key.
    pub fn get_or_create(&mut self, key: u64) -> (r: u64)
        requires
            old(self).wf(),
        ensures
            final(self).wf(),
            r == key,
            final(self)@ == if old(self)@.contains_key(key) {
                old(self)@
            } else {
                old(self)@.insert(key, Seq::<u8>::empty())
            },
            final(self)@.contains_key(key),
            final(self).spec_budget() == old(self).spec_budget(),
    {
        let stamp = self.bump_clock();
        match self.find(key) {
            Some(i) => {
                proof {
                    lemma_map_of_index(self.entries@, self.store@, i as int);
                }
            },
            None => {
                let ghost entries0 = self.entries@;
                proof {
                    lemma_map_of_absent(entries0, self.store@, key);
                }
                self.entries.push(Entry { key, resident: true, data: Vec::new(), spill: 0, stamp });
                proof {
                    assert(self.entries@.drop_last() =~= entries0);
                    assert(resident_sum(self.entries@) == resident_sum(entries0));
                    lemma_map_of_index(self.entries@, self.store@, self.entries@.len() - 1);
                }
            },
        }
        key
    }

    /// Appends `data` to the buffer under `key`, creating it when absent.
    /// Whatever spilling this triggers, the logical contents change only at
    /// `key`, and the resident bytes end under the budget.
    pub fn append(&mut self, key: u64, data: &Vec<u8>)
        requires
            old(self).wf(),
            (if old(self)@.contains_key(key) {
                old(self)@[key].len()
            } else {
                0
            }) + data@.len() <= MAX_BUFFER_BYTES,
        ensures
            final(self).wf(),
            final(self)@ == apply_append(old(self)@, key, data@),
            final(self).spec_budget() == old(self).spec_budget(),
    {
        let stamp = self.bump_clock();
        match self.find(key) {
            Some(i) => {
                let ghost entries0 = self.entries@;
                let ghost store0 = self.store@;
                proof {
                    lemma_map_of_index(entries0, store0, i as int);
                    lemma_contrib_le_sum(entries0, i as int);
                }
                let mut e: Entry = self.entries.remove(i);
                let freed: usize = if e.resident {
                    e.data.len()
                } else {
                    0
                };
                if !e.resident {
                    let reloaded = clone_bytes(&self.store[e.spill]);
                    e.data = reloaded;
                    e.resident = true;
                }
                extend_bytes(&mut e.data, data);
                e.stamp = stamp;
                let added: usize = e.data.len();
                self.entries.insert(i, e);
                self.resident_bytes = self.resident_bytes - freed as u64 + added as u64;
                proof {
                    let e2 = self.entries@[i as int];
                    assert(self.entries@ =~= entries0.update(i as int, e2));
                    lemma_map_of_update(entries0, store0, i as int, e2);
                    lemma_resident_sum_update(entries0, i as int, e2);
                    assert(entry_bytes(e2, store0) == old(self)@[key] + data@);
                }
                self.evict_to_budget();
            },
            None => {
                let ghost entries0 = self.entries@;
                proof {
                    lemma_map_of_absent(entries0, self.store@, key);
                }
                let buf = clone_bytes(data);
                let added: usize = buf.len();
                self.entries.push(Entry { key, resident: true, data: buf, spill: 0, stamp });
                self.resident_bytes = self.resident_bytes + added as u64;
                proof {
                    assert(self.entries@.drop_last() =~= entries0);
                    assert(resident_sum(self.entries@) == resident_sum(entries0) + added);
                    assert(Seq::<u8>::empty() + data@ =~= data@);
                }
                self.evict_to_budget();
            },
        }
    }


    /// Empties the buffer under `key`, creating it when absent: afterwards
    /// the key holds no bytes.
    pub fn clear(&mut self, key: u64)
        requires
            old(self).wf(),
        ensures
            final(self).wf(),
            final(self)@ == old(self)@.insert(key, Seq::<u8>::empty()),
            final(self).spec_budget() == old(self).spec_budget(),
    {
        let stamp = self.bump_clock();
        match self.find(key) {
            Some(i) => {
                let ghost entries0 = self.entries@;
                let ghost store0 = self.store@;
                proof {
                    lemma_map_of_index(entries0, store0, i as int);
                    lemma_contrib_le_sum(entries0, i as int);
                }
                let mut e: Entry = self.entries.remove(i);
                let freed: usize = if e.resident {
                    e.data.len()
                } else {
                    0
                };
                e.data = Vec::new();
                e.resident = true;
                e.stamp = stamp;
                self.entries.insert(i, e);
                self.resident_bytes = self.resident_bytes - freed as u64;
                proof {
                    let e2 = self.entries@[i as int];
                    assert(self.entries@ =~= entries0.update(i as int, e2));
                    lemma_map_of_update(entries0, store0, i as int, e2);
                    lemma_resident_sum_update(entries0, i as int, e2);
                    assert(entry_bytes(e2, store0) =~= Seq::<u8>::empty());
                }
            },
            None => {
                let ghost entries0 = self.entries@;
                proof {
                    lemma_map_of_absent(entries0, self.store@, key);
                }
                self.entries.push(Entry { key, resident: true, data: Vec::new(), spill: 0, stamp });
                proof {
                    assert(self.entries@.drop_last() =~= entries0);
                    assert(resident_sum(self.entries@) == resident_sum(entries0));
                }
            },
        }
    }

    /// Reads the whole buffer under `key`, reloading it when spilled.
    /// The logical contents are unchanged.
    pub fn read(&mut self, key: u64) -> (r: Vec<u8>)
        requires
            old(self).wf(),
            old(self)@.contains_key(key),
        ensures
            final(self).wf(),
            final(self)@ == old(self)@,
            r@ == old(self)@[key],
            final(self).spec_budget() == old(self).spec_budget(),
    {
        let stamp = self.bump_clock();
        match self.find(key) {
            None => {
                proof {
                    lemma_map_of_absent(self.entries@, self.store@, key);
                }
                unreached()
            },
            Some(i) => {
                let ghost entries0 = self.entries@;
                let ghost store0 = self.store@;
                proof {
                    lemma_map_of_index(entries0, store0, i as int);
                }
                let mut e: Entry = self.entries.remove(i);
                let mut delta: usize = 0;
                if !e.resident {
                    let reloaded = clone_bytes(&self.store[e.spill]);
                    delta = reloaded.len();
                    e.data = reloaded;
                    e.resident = true;
                }
                e.stamp = stamp;
                let r = clone_bytes(&e.data);
                self.entries.insert(i, e);
                self.resident_bytes = self.resident_bytes + delta as u64;
                proof {
                    let e2 = self.entries@[i as int];
                    assert(self.entries@ =~= entries0.update(i as int, e2));
                    assert(entry_bytes(e2, store0) == entry_bytes(entries0[i as int], store0));
                    lemma_map_of_update(entries0, store0, i as int, e2);
                    assert(map_of(entries0, store0).insert(
                        e2.key,
                        entry_bytes(e2, store0),
                    ) =~= map_of(entries0, store0));
                    lemma_resident_sum_update(entries0, i as int, e2);
                }
                self.evict_to_budget();
                r
            },
        }
    }
}

/// One append step on a logical view.
pub open spec fn apply_append(m: Map<u64, Seq<u8>>, key: u64, data: Seq<u8>) -> Map<u64, Seq<u8>> {
    m.insert(
        key,
        (if m.contains_key(key) {
            m[key]
        } else {
            Seq::<u8>::empty()
        }) + data,
    )
}

/// The logical view of a fresh cache after a whole sequence of appends,
/// each an `(key, bytes)` pair. No byte budget appears here: the view of a
/// cache never depends on what was spilled.
pub open spec fn replay(ops: Seq<(u64, Seq<u8>)>) -> Map<u64, Seq<u8>>
    decreases ops.len(),
{
    if ops.len() == 0 {
        Map::empty()
    } else {
        apply_append(replay(ops.drop_last()), ops.last().0, ops.last().1)
    }
}

/// All bytes appended for one key, in append order.
pub open spec fn appended_bytes(ops: Seq<(u64, Seq<u8>)>, key: u64) -> Seq<u8>
    decreases ops.len(),
{
    if ops.len() == 0 {
        Seq::empty()
    } else {
        appended_bytes(ops.drop_last(), key) + (if ops.last().0 == key {
            ops.last().1
        } else {
            Seq::empty()
        })
    }
}

/// Cache round trip: after any sequence of appends — under any byte budget,
/// whatever spilling and reloading it forced — the cache holds for every
/// touched key exactly the concatenation of the bytes appended to it, and
/// holds nothing for an untouched key. Together with the contract of
/// `Cache::read` this pins every later read to the written bytes.
pub proof fn lemma_cache_round_trip(ops: Seq<(u64, Seq<u8>)>, key: u64)
    ensures
        replay(ops).contains_key(key) <==> exists|i: int|
            0 <= i < ops.len() && (#[trigger] ops[i]).0 == key,
        replay(ops).contains_key(key) ==> replay(ops)[key] == appended_bytes(ops, key),
        !replay(ops).contains_key(key) ==> appended_bytes(ops, key) == Seq::<u8>::empty(),
    decreases ops.len(),
{
    if ops.len() > 0 {
        let pre = ops.drop_last();
        lemma_cache_round_trip(pre, key);
        let last = ops.last();
        if last.0 == key {
            assert(ops[ops.len() - 1].0 == key);
            if replay(pre).contains_key(key) {
                assert(replay(ops)[key] == appended_bytes(pre, key) + last.1);
            } else {
                assert(appended_bytes(pre, key) =~= Seq::<u8>::empty());
                assert(Seq::<u8>::empty() + last.1 =~= last.1);
                assert(replay(ops)[key] == appended_bytes(ops, key));
            }
        } else {
            assert(appended_bytes(ops, key) =~= appended_bytes(pre, key));
            assert(replay(ops).contains_key(key) == replay(pre).contains_key(key));
            if exists|i: int| 0 <= i < ops.len() && (#[trigger] ops[i]).0 == key {
                let i = choose|i: int| 0 <= i < ops.len() && (#[trigger] ops[i]).0 == key;
                assert(pre[i] == ops[i]);
            }
            if exists|i: int| 0 <= i < pre.len() && (#[trigger] pre[i]).0 == key {
                let i = choose|i: int| 0 <= i < pre.len() && (#[trigger] pre[i]).0 == key;
                assert(ops[i] == pre[i]);
            }
        }
    }
}

/// Copies a byte vector.
fn clone_bytes(src: &Vec<u8>) -> (r: Vec<u8>)
    ensures
        r@ == src@,
{
    let n: usize = src.len();
    let mut r: Vec<u8> = Vec::new();
    let mut i: usize = 0;
    while i < n
        invariant
            i <= n,
            n == src@.len(),
            r@ == src@.take(i as int),
        decreases n - i,
    {
        r.push(src[i]);
        proof {
            assert(r@ =~= src@.take(i as int + 1));
        }
        i = i + 1;
    }
    proof {
        assert(r@ =~= src@);
    }
    r
}

/// Appends all bytes of `src` to `dst`.
fn extend_bytes(dst: &mut Vec<u8>, src: &Vec<u8>)
    ensures
        final(dst)@ == old(dst)@ + src@,
{
    let n: usize = src.len();
    let mut i: usize = 0;
    while i < n
        invariant
            i <= n,
            n == src@.len(),
            dst@ == old(dst)@ + src@.take(i as int),
        decreases n - i,
    {
        dst.push(src[i]);
        proof {
            assert(dst@ =~= old(dst)@ + src@.take(i as int + 1));
        }
        i = i + 1;
    }
    proof {
        assert(dst@ =~= old(dst)@ + src@);
    }
}

} // verus!
