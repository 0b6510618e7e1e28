//! weighted least-recently-used caching
//!
//! entries are kept in a recency list and found again through a hash table of
//! their slots; trimming evicts least recently used entries until the total
//! weight fits, either on every insert or when the owner asks for it

use std::hash::{BuildHasher, Hash};

use vstd::multiset::Multiset;
use vstd::prelude::*;
use vstd::std_specs::cmp::PartialEqSpec;

use self::list::{select, LruList};

pub mod list;

verus! {

broadcast use vstd::multiset::group_multiset_axioms;

/// the weight an entry counts for against a cache's limit
pub trait Scale<K, V> {
    /// the weight of an entry of `key` and `value`
    spec fn spec_weight(&self, key: K, value: V) -> usize;

    fn weight(&self, key: &K, value: &V) -> (weight: usize)
        ensures
            weight == self.spec_weight(*key, *value),
    ;
}

/// a cached key and value, with the hash and weight they were inserted with
pub struct Entry<K, V> {
    pub key: K,
    pub value: V,
    pub hash: u64,
    pub weight: usize,
}

/// hashbrown's `HashTable` of entry slots, with the hasher that places them
#[verifier::external_body]
pub struct SlotTable {
    hash_builder: hashbrown::DefaultHashBuilder,
    table: hashbrown::HashTable<usize>,
}

/// the slots a table holds, each with the hash it was inserted under
pub uninterp spec fn table_slots(table: SlotTable) -> Multiset<(u64, usize)>;

impl SlotTable {
    /// `HashTable::new` with a `DefaultHashBuilder::default()`: an empty table
    #[verifier::external_body]
    fn new() -> (table: Self)
        ensures
            table_slots(table) == Multiset::<(u64, usize)>::empty(),
    {
        SlotTable { hash_builder: Default::default(), table: hashbrown::HashTable::new() }
    }

    /// `BuildHasher::hash_one` of the table's `DefaultHashBuilder`, whose seed is
    /// random: nothing is claimed of the value
    #[verifier::external_body]
    fn hash<Q: Hash + ?Sized>(&self, query: &Q) -> u64 {
        self.hash_builder.hash_one(query)
    }

    /// `HashTable::find`: a stored slot that `matches` accepts, looked for among
    /// the slots stored under `hash`
    ///
    /// `matches` is asked about every slot stored under `hash` before `None`
    /// comes back, and returned true for the slot that comes back; it may also be
    /// asked about slots stored under other hashes, so nothing says under which
    /// hash the slot that comes back is stored
    #[verifier::external_body]
    fn find<M: Fn(usize) -> bool>(&self, hash: u64, matches: M) -> (found: Option<usize>)
        requires
            forall|slot: usize| call_requires(matches, (slot,)),
        ensures
            found matches Some(slot) ==> (exists|stored_hash: u64| table_slots(*self).count((stored_hash, slot)) > 0)
                && call_ensures(matches, (slot,), true),
            found is None ==> forall|slot: usize|
                table_slots(*self).count((hash, slot)) > 0 ==> call_ensures(matches, (slot,), false),
    {
        self.table.find(hash, |slot| matches(*slot)).copied()
    }

    /// `HashTable::insert_unique`: stores `slot` under `hash`
    ///
    /// `hasher` gives, when the table grows, the hash each stored slot was
    /// inserted under
    #[verifier::external_body]
    fn insert<H: Fn(usize) -> u64>(&mut self, hash: u64, slot: usize, hasher: H)
        requires
            forall|stored: usize| call_requires(hasher, (stored,)),
            forall|result: u64| call_ensures(hasher, (slot,), result) ==> result == hash,
            forall|stored_hash: u64, stored: usize, result: u64|
                table_slots(*old(self)).count((stored_hash, stored)) > 0 && call_ensures(
                    hasher,
                    (stored,),
                    result,
                ) ==> result == stored_hash,
        ensures
            table_slots(*final(self)) == table_slots(*old(self)).insert((hash, slot)),
    {
        self.table.insert_unique(hash, slot, |stored| hasher(*stored));
    }

    /// `HashTable::find_entry` and `OccupiedEntry::remove`: removes the slot
    /// stored under `hash` that `matches` accepts
    #[verifier::external_body]
    fn remove<M: Fn(usize) -> bool>(&mut self, hash: u64, slot: usize, matches: M) -> (removed: bool)
        requires
            forall|stored: usize| call_requires(matches, (stored,)),
            forall|stored: usize, result: bool|
                call_ensures(matches, (stored,), result) ==> result == (stored == slot),
            forall|stored_hash: u64|
                table_slots(*old(self)).count((stored_hash, slot)) > 0 ==> stored_hash == hash,
        ensures
            table_slots(*old(self)).count((hash, slot)) > 0 ==> removed && table_slots(*final(self))
                == table_slots(*old(self)).remove((hash, slot)),
            table_slots(*old(self)).count((hash, slot)) == 0 ==> !removed && table_slots(*final(self))
                == table_slots(*old(self)),
    {
        match self.table.find_entry(hash, |stored| matches(*stored)) {
            Ok(entry) => {
                entry.remove();
                true
            },
            Err(_) => false,
        }
    }

    /// `HashTable::len`
    #[verifier::external_body]
    fn len(&self) -> (len: usize)
        ensures
            len == table_slots(*self).len(),
    {
        self.table.len()
    }
}

/// the total weight of the entries in `slots`
pub open spec fn weight_sum(slots: Seq<usize>, weight: spec_fn(usize) -> int) -> int
    decreases slots.len(),
{
    if slots.len() == 0 {
        0
    } else {
        weight_sum(slots.drop_last(), weight) + weight(slots.last())
    }
}

/// the weight of a sequence is that of one of its slots plus that of the rest
proof fn lemma_weight_remove(slots: Seq<usize>, weight: spec_fn(usize) -> int, k: int)
    requires
        0 <= k < slots.len(),
    ensures
        weight_sum(slots, weight) == weight_sum(slots.remove(k), weight) + weight(slots[k]),
    decreases slots.len(),
{
    if k < slots.len() - 1 {
        lemma_weight_remove(slots.drop_last(), weight, k);
        assert(slots.remove(k).drop_last() =~= slots.drop_last().remove(k));
        assert(slots.remove(k).last() == slots.last());
    } else {
        assert(slots.remove(k) =~= slots.drop_last());
    }
}

/// weights that agree on the slots of a sequence give it the same weight
proof fn lemma_weight_agree(slots: Seq<usize>, first: spec_fn(usize) -> int, second: spec_fn(usize) -> int)
    requires
        forall|slot: usize| #[trigger] slots.contains(slot) ==> first(slot) == second(slot),
    ensures
        weight_sum(slots, first) == weight_sum(slots, second),
    decreases slots.len(),
{
    if slots.len() > 0 {
        assert forall|slot: usize| #[trigger] slots.drop_last().contains(slot) implies first(slot) == second(slot) by {
            let k = slots.drop_last().index_of(slot);
            assert(slots.drop_last()[k] == slot);
            assert(slots[k] == slot);
            assert(slots.contains(slot));
        }
        lemma_weight_agree(slots.drop_last(), first, second);
        assert(slots.contains(slots.last()));
    }
}

/// weights are never negative, so no slot weighs more than all of them
proof fn lemma_weight_bounds(slots: Seq<usize>, weight: spec_fn(usize) -> int)
    requires
        forall|slot: usize| 0 <= #[trigger] weight(slot),
    ensures
        0 <= weight_sum(slots, weight),
        slots.len() > 0 ==> weight(slots.last()) <= weight_sum(slots, weight),
    decreases slots.len(),
{
    if slots.len() > 0 {
        lemma_weight_bounds(slots.drop_last(), weight);
    }
}

/// whether the entry in `slot` has a key equal to `key`
fn entry_has_key<K: PartialEq, V>(entries: &LruList<Entry<K, V>>, slot: usize, key: &K) -> (matches: bool)
    requires
        entries.wf(),
    ensures
        K::obeys_eq_spec() ==> matches == (entries.recency().contains(slot) && entries.value_of(slot).key.eq_spec(key)),
{
    match entries.lookup(slot) {
        Some(entry) => entry.key.eq(key),
        None => false,
    }
}

/// whether `equivalent` accepts the entry in `slot`
fn entry_is_equivalent<K, V, E: Fn(&K, &V) -> bool>(
    entries: &LruList<Entry<K, V>>,
    slot: usize,
    equivalent: &E,
) -> (matches: bool)
    requires
        entries.wf(),
        forall|key: &K, value: &V| call_requires(*equivalent, (key, value)),
    ensures
        matches ==> entries.recency().contains(slot) && call_ensures(
            *equivalent,
            (&entries.value_of(slot).key, &entries.value_of(slot).value),
            true,
        ),
        !matches && entries.recency().contains(slot) ==> call_ensures(
            *equivalent,
            (&entries.value_of(slot).key, &entries.value_of(slot).value),
            false,
        ),
{
    match entries.lookup(slot) {
        Some(entry) => equivalent(&entry.key, &entry.value),
        None => false,
    }
}

/// the hash the entry in `slot` was inserted with
fn stored_hash<K, V>(entries: &LruList<Entry<K, V>>, slot: usize) -> (hash: u64)
    requires
        entries.wf(),
    ensures
        entries.recency().contains(slot) ==> hash == entries.value_of(slot).hash,
{
    match entries.lookup(slot) {
        Some(entry) => entry.hash,
        None => 0,
    }
}

/// `slots` with `slot` moved to the most recently used end
pub open spec fn promoted(slots: Seq<usize>, slot: usize) -> Seq<usize> {
    slots.remove(slots.index_of(slot)).push(slot)
}

/// moving a slot to the end keeps the same slots
proof fn lemma_promoted_contains(slots: Seq<usize>, slot: usize, other: usize)
    requires
        slots.contains(slot),
    ensures
        promoted(slots, slot).contains(other) == slots.contains(other),
{
    let k = slots.index_of(slot);
    assert(slots[k] == slot);
    let moved = promoted(slots, slot);
    assert(moved[moved.len() - 1] == slot);
    if slots.contains(other) && other != slot {
        let j = slots.index_of(other);
        assert(slots[j] == other);
        if j < k {
            assert(slots.remove(k)[j] == other);
            assert(moved[j] == other);
        } else {
            assert(slots.remove(k)[j - 1] == other);
            assert(moved[j - 1] == other);
        }
    }
    if moved.contains(other) && other != slot {
        let j = moved.index_of(other);
        assert(moved[j] == other);
        assert(slots.remove(k)[j] == other);
        if j < k {
            assert(slots[j] == other);
        } else {
            assert(slots[j + 1] == other);
        }
    }
}

/// a least-recently-used cache whose entries weigh what `scale` says
///
/// with `TRIM_ON_INSERT` every insert evicts least recently used entries down to
/// the weight limit and refuses an entry heavier than the limit; otherwise the
/// owner evicts with `trim_to_weight`, for instance at the end of a frame
pub struct LruCache<K, V, S: Scale<K, V>, const TRIM_ON_INSERT: bool> {
    table: SlotTable,
    entries: LruList<Entry<K, V>>,
    scale: S,
    weight: usize,
    max_weight: usize,
}

/// a cache that trims on every insert
pub type Cache<K, V, S> = LruCache<K, V, S, true>;

/// a cache that trims when asked
pub type DeferredCache<K, V, S> = LruCache<K, V, S, false>;

impl<K, V, S: Scale<K, V>, const TRIM_ON_INSERT: bool> LruCache<K, V, S, TRIM_ON_INSERT> {
    /// the slots of the cached entries, least recently used first
    pub closed spec fn recency(&self) -> Seq<usize> {
        self.entries.recency()
    }

    /// the entry in a slot
    pub closed spec fn entry(&self, slot: usize) -> Entry<K, V> {
        self.entries.value_of(slot)
    }

    /// the weight of the cached entries
    pub closed spec fn total_weight(&self) -> usize {
        self.weight
    }

    /// what weighs the entries
    pub closed spec fn scale(&self) -> S {
        self.scale
    }

    /// the weight trimming brings the cache down to
    pub closed spec fn weight_limit(&self) -> usize {
        self.max_weight
    }

    /// the weight each slot's entry was inserted with
    pub open spec fn entry_weight(&self) -> spec_fn(usize) -> int {
        |slot: usize| self.entry(slot).weight as int
    }

    /// the table holds each cached slot once, under its entry's hash, and the
    /// weight is that of the cached entries
    pub closed spec fn wf(&self) -> bool {
        &&& self.entries.wf()
        &&& forall|hash: u64, slot: usize|
            #[trigger] table_slots(self.table).count((hash, slot)) == if self.entries.recency().contains(slot)
                && self.entries.value_of(slot).hash == hash {
                1nat
            } else {
                0nat
            }
        &&& table_slots(self.table).len() == self.entries.recency().len()
        &&& self.weight == weight_sum(self.entries.recency(), self.entry_weight())
    }

    /// every slot is taken and no more may be made
    pub closed spec fn is_full(&self) -> bool {
        self.entries.free_slots().len() == 0 && self.entries.slot_count() == self.entries.limit()
    }

    /// an entry of `weight` cannot be cached: with `TRIM_ON_INSERT` it is heavier
    /// than the limit, or the total weight cannot count it, or no slot is left
    pub open spec fn refuses(&self, weight: usize) -> bool {
        ||| TRIM_ON_INSERT && weight > self.weight_limit()
        ||| self.total_weight() + weight > usize::MAX
        ||| self.is_full()
    }

    /// the entries cached in both states are the same
    pub open spec fn keeps_entries(&self, before: &Self) -> bool {
        forall|slot: usize|
            #[trigger] self.recency().contains(slot) && before.recency().contains(slot) ==> self.entry(slot)
                == before.entry(slot)
    }

    /// an empty cache that trims to `max_weight`
    pub fn new(scale: S, max_weight: usize) -> (cache: Self)
        ensures
            cache.wf(),
            cache.recency() == Seq::<usize>::empty(),
            cache.total_weight() == 0,
            cache.weight_limit() == max_weight,
            cache.scale() == scale,
    {
        LruCache { table: SlotTable::new(), entries: LruList::new(usize::MAX), scale, weight: 0, max_weight }
    }

    /// the number of cached entries
    pub fn len(&self) -> (len: usize)
        requires
            self.wf(),
        ensures
            len == self.recency().len(),
    {
        self.table.len()
    }

    /// the weight of the cached entries
    pub fn weight(&self) -> (weight: usize)
        ensures
            weight == self.total_weight(),
    {
        self.weight
    }

    /// marks the cached entry in `slot` as the most recently used
    fn promote(&mut self, slot: usize)
        requires
            old(self).wf(),
            old(self).recency().contains(slot),
        ensures
            final(self).wf(),
            final(self).recency() == promoted(old(self).recency(), slot),
            final(self).total_weight() == old(self).total_weight(),
            final(self).weight_limit() == old(self).weight_limit(),
            final(self).scale() == old(self).scale(),
            forall|other: usize| #[trigger] old(self).recency().contains(other) ==> final(self).entry(other)
                == old(self).entry(other),
    {
        let ghost before = self.entries.recency();
        self.entries.promote(slot);
        proof {
            let k = before.index_of(slot);
            assert(before[k] == slot);
            lemma_weight_remove(before, old(self).entry_weight(), k);
            assert(promoted(before, slot).drop_last() =~= before.remove(k));
            assert forall|other: usize| #[trigger] self.entries.recency().contains(other) implies old(
                self,
            ).entry_weight()(other) == self.entry_weight()(other) by {
                lemma_promoted_contains(before, slot, other);
            }
            lemma_weight_agree(self.entries.recency(), old(self).entry_weight(), self.entry_weight());
            assert forall|hash: u64, other: usize| #[trigger]
                table_slots(self.table).count((hash, other)) == if self.entries.recency().contains(other)
                    && self.entries.value_of(other).hash == hash {
                    1nat
                } else {
                    0nat
                } by {
                lemma_promoted_contains(before, slot, other);
                assert(table_slots(old(self).table).count((hash, other)) == table_slots(self.table).count((hash, other)));
            }
        }
    }

    /// removes the least recently used entry, with the slot it held
    fn evict(&mut self) -> (evicted: usize)
        requires
            old(self).wf(),
            old(self).recency().len() > 0,
        ensures
            final(self).wf(),
            evicted == old(self).recency()[0],
            final(self).recency() == old(self).recency().drop_first(),
            final(self).total_weight() == old(self).total_weight() - old(self).entry(evicted).weight,
            final(self).weight_limit() == old(self).weight_limit(),
            final(self).scale() == old(self).scale(),
            forall|other: usize| #[trigger] final(self).recency().contains(other) ==> final(self).entry(other)
                == old(self).entry(other),
    {
        let ghost before = self.entries.recency();
        proof {
            lemma_weight_remove(before, self.entry_weight(), 0);
            assert(before.remove(0) =~= before.drop_first());
            self.entries.lemma_recency();
        }
        let (entry, slot) = match self.entries.pop_with_index() {
            Some(popped) => popped,
            None => vstd::pervasive::unreached(),
        };
        let matches = |stored: usize| -> (same: bool)
            ensures
                same == (stored == slot),
            { stored == slot };
        let removed = self.table.remove(entry.hash, slot, matches);
        proof {
            lemma_weight_bounds(before.drop_first(), old(self).entry_weight());
        }
        self.weight = self.weight - entry.weight;
        proof {
            assert(table_slots(old(self).table).count((entry.hash, slot)) == 1);
            assert forall|other: usize| #[trigger] self.entries.recency().contains(other) implies old(
                self,
            ).entry_weight()(other) == self.entry_weight()(other) by {
                let j = self.entries.recency().index_of(other);
                assert(before[j + 1] == other);
            }
            lemma_weight_agree(self.entries.recency(), old(self).entry_weight(), self.entry_weight());
            lemma_weight_bounds(before.drop_first(), old(self).entry_weight());
            assert forall|hash: u64, other: usize| #[trigger]
                table_slots(self.table).count((hash, other)) == if self.entries.recency().contains(other)
                    && self.entries.value_of(other).hash == hash {
                    1nat
                } else {
                    0nat
                } by {
                assert(table_slots(old(self).table).count((hash, other)) == if before.contains(other)
                    && old(self).entries.value_of(other).hash == hash {
                    1nat
                } else {
                    0nat
                });
                if other == slot {
                    assert(!self.entries.recency().contains(slot)) by {
                        if self.entries.recency().contains(slot) {
                            let j = self.entries.recency().index_of(slot);
                            assert(before[j + 1] == slot);
                            assert(before[0] == slot);
                        }
                    }
                } else if self.entries.recency().contains(other) {
                    let j = self.entries.recency().index_of(other);
                    assert(before[j + 1] == other);
                } else if before.contains(other) {
                    let j = before.index_of(other);
                    assert(j != 0);
                    assert(self.entries.recency()[j - 1] == other);
                }
            }
        }
        slot
    }

    /// removes the cached entry in `slot`
    fn discard(&mut self, slot: usize) -> (removed: Entry<K, V>)
        requires
            old(self).wf(),
            old(self).recency().contains(slot),
        ensures
            final(self).wf(),
            removed == old(self).entry(slot),
            final(self).recency() == old(self).recency().remove(old(self).recency().index_of(slot)),
            final(self).total_weight() == old(self).total_weight() - old(self).entry(slot).weight,
            final(self).weight_limit() == old(self).weight_limit(),
            final(self).scale() == old(self).scale(),
            forall|other: usize| #[trigger] final(self).recency().contains(other) ==> final(self).entry(other)
                == old(self).entry(other),
    {
        let ghost before = self.entries.recency();
        let ghost k = before.index_of(slot);
        proof {
            assert(before[k] == slot);
            lemma_weight_remove(before, self.entry_weight(), k);
            self.entries.lemma_recency();
        }
        let entry = match self.entries.remove(slot) {
            Some(entry) => entry,
            None => vstd::pervasive::unreached(),
        };
        let matches = |stored: usize| -> (same: bool)
            ensures
                same == (stored == slot),
            { stored == slot };
        let removed = self.table.remove(entry.hash, slot, matches);
        proof {
            lemma_weight_bounds(before.remove(k), old(self).entry_weight());
        }
        self.weight = self.weight - entry.weight;
        proof {
            let after = self.entries.recency();
            assert(table_slots(old(self).table).count((entry.hash, slot)) == 1);
            assert forall|other: usize| #[trigger] after.contains(other) implies old(self).entry_weight()(other)
                == self.entry_weight()(other) by {}
            lemma_weight_agree(after, old(self).entry_weight(), self.entry_weight());
            assert forall|hash: u64, other: usize| #[trigger]
                table_slots(self.table).count((hash, other)) == if after.contains(other)
                    && self.entries.value_of(other).hash == hash {
                    1nat
                } else {
                    0nat
                } by {
                assert(table_slots(old(self).table).count((hash, other)) == if before.contains(other)
                    && old(self).entries.value_of(other).hash == hash {
                    1nat
                } else {
                    0nat
                });
                if other == slot {
                    assert(!after.contains(slot)) by {
                        if after.contains(slot) {
                            let j = after.index_of(slot);
                            if j < k {
                                assert(before[j] == slot);
                            } else {
                                assert(before[j + 1] == slot);
                            }
                        }
                    }
                } else if before.contains(other) {
                    let j = before.index_of(other);
                    if j < k {
                        assert(after[j] == other);
                    } else {
                        assert(after[j - 1] == other);
                    }
                }
            }
        }
        entry
    }

    /// evicts least recently used entries until the weight is within the limit
    ///
    /// the fewest entries that bring the weight within the limit are evicted
    pub fn trim_to_weight(&mut self)
        requires
            old(self).wf(),
        ensures
            final(self).wf(),
            final(self).total_weight() <= final(self).weight_limit(),
            final(self).weight_limit() == old(self).weight_limit(),
            final(self).scale() == old(self).scale(),
            final(self).keeps_entries(old(self)),
            exists|evicted: int|
                0 <= evicted <= old(self).recency().len() && final(self).recency()
                    == #[trigger] old(self).recency().subrange(evicted, old(self).recency().len() as int) && (
                evicted > 0 ==> weight_sum(
                    old(self).recency().subrange(evicted - 1, old(self).recency().len() as int),
                    old(self).entry_weight(),
                ) > old(self).weight_limit()),
    {
        let ghost all = self.recency();
        let ghost mut evicted: int = 0;
        proof {
            assert(all.subrange(0, all.len() as int) =~= all);
        }
        while self.weight > self.max_weight
            invariant
                self.wf(),
                self.max_weight == old(self).max_weight,
                self.scale == old(self).scale,
                0 <= evicted <= all.len(),
                all == old(self).recency(),
                self.recency() == all.subrange(evicted, all.len() as int),
                forall|other: usize| #[trigger] self.recency().contains(other) ==> self.entry(other)
                    == old(self).entry(other),
                evicted > 0 ==> weight_sum(all.subrange(evicted - 1, all.len() as int), old(self).entry_weight())
                    > self.max_weight,
            decreases all.len() - evicted,
        {
            proof {
                if self.recency().len() == 0 {
                    assert(weight_sum(self.recency(), self.entry_weight()) == 0);
                }
                assert forall|other: usize| #[trigger] self.recency().contains(other) implies old(
                    self,
                ).entry_weight()(other) == self.entry_weight()(other) by {}
                lemma_weight_agree(self.recency(), old(self).entry_weight(), self.entry_weight());
            }
            let ghost previous = *self;
            self.evict();
            proof {
                evicted = evicted + 1;
                assert(self.recency() =~= all.subrange(evicted, all.len() as int));
                assert forall|other: usize| #[trigger] self.recency().contains(other) implies self.entry(other)
                    == old(self).entry(other) by {
                    let j = self.recency().index_of(other);
                    assert(previous.recency()[j + 1] == other);
                    assert(previous.recency().contains(other));
                }
            }
        }
        proof {
            assert forall|other: usize| #[trigger] self.recency().contains(other) && old(self).recency().contains(
                other,
            ) implies self.entry(other) == old(self).entry(other) by {}
            assert(0 <= evicted <= all.len() && self.recency() == all.subrange(evicted, all.len() as int) && (
            evicted > 0 ==> weight_sum(all.subrange(evicted - 1, all.len() as int), old(self).entry_weight())
                > old(self).weight_limit()));
        }
    }

    /// the value of the cached entry in `slot`
    pub fn get_index(&self, slot: usize) -> (value: &V)
        requires
            self.wf(),
            self.recency().contains(slot),
        ensures
            *value == self.entry(slot).value,
    {
        &self.entries.get(slot).value
    }
}

impl<K: Hash + PartialEq, V, S: Scale<K, V>, const TRIM_ON_INSERT: bool> LruCache<K, V, S, TRIM_ON_INSERT> {
    /// the value cached for `key`, which becomes the most recently used entry
    ///
    /// `get_hashed` under the table's hash of `key`, which is seeded per
    /// process, so nothing states its value: a found entry has a key equal to
    /// `key`, and when none is found the cache is unchanged
    pub fn get(&mut self, key: &K) -> (found: Option<&V>)
        requires
            old(self).wf(),
        ensures
            final(self).wf(),
            final(self).total_weight() == old(self).total_weight(),
            final(self).weight_limit() == old(self).weight_limit(),
            final(self).scale() == old(self).scale(),
            forall|other: usize| #[trigger] old(self).recency().contains(other) ==> final(self).entry(other)
                == old(self).entry(other),
            found is None ==> final(self).recency() == old(self).recency(),
            found matches Some(value) ==> exists|slot: usize|
                {
                    &&& #[trigger] old(self).recency().contains(slot)
                    &&& K::obeys_eq_spec() ==> old(self).entry(slot).key.eq_spec(key)
                    &&& *value == old(self).entry(slot).value
                    &&& final(self).recency() == promoted(old(self).recency(), slot)
                },
    {
        let hash = self.table.hash(key);
        self.get_hashed(key, hash)
    }

    /// the value cached for `key` among the entries stored under `hash`, which
    /// becomes the most recently used entry
    ///
    /// an entry stored under `hash` with a key equal to `key` is found; a found
    /// entry has a key equal to `key`; when none is found the cache is unchanged
    pub fn get_hashed(&mut self, key: &K, hash: u64) -> (found: Option<&V>)
        requires
            old(self).wf(),
        ensures
            final(self).wf(),
            final(self).total_weight() == old(self).total_weight(),
            final(self).weight_limit() == old(self).weight_limit(),
            final(self).scale() == old(self).scale(),
            forall|other: usize| #[trigger] old(self).recency().contains(other) ==> final(self).entry(other)
                == old(self).entry(other),
            found is None ==> final(self).recency() == old(self).recency(),
            found matches Some(value) ==> exists|slot: usize|
                {
                    &&& #[trigger] old(self).recency().contains(slot)
                    &&& K::obeys_eq_spec() ==> old(self).entry(slot).key.eq_spec(key)
                    &&& *value == old(self).entry(slot).value
                    &&& final(self).recency() == promoted(old(self).recency(), slot)
                },
            K::obeys_eq_spec() && (exists|slot: usize|
                #[trigger] old(self).recency().contains(slot) && old(self).entry(slot).hash == hash && old(
                    self,
                ).entry(slot).key.eq_spec(key)) ==> found is Some,
    {
        let entries = &self.entries;
        let matches = |slot: usize| -> (matches: bool)
            requires
                entries.wf(),
            ensures
                K::obeys_eq_spec() ==> matches == (entries.recency().contains(slot)
                    && entries.value_of(slot).key.eq_spec(key)),
            { entry_has_key(entries, slot, key) };
        let found = self.table.find(hash, matches);
        match found {
            Some(slot) => {
                self.promote(slot);
                Some(&self.entries.get(slot).value)
            },
            None => {
                proof {
                    if K::obeys_eq_spec() && (exists|slot: usize|
                        #[trigger] old(self).recency().contains(slot) && old(self).entry(slot).hash == hash && old(
                            self,
                        ).entry(slot).key.eq_spec(key)) {
                        let slot = choose|slot: usize|
                            #[trigger] old(self).recency().contains(slot) && old(self).entry(slot).hash == hash && old(
                                self,
                            ).entry(slot).key.eq_spec(key);
                        assert(table_slots(self.table).count((hash, slot)) > 0);
                        assert(call_ensures(matches, (slot,), false));
                    }
                }
                None
            },
        }
    }

    /// caches `key` and `value` as the most recently used entry, in a new slot
    ///
    /// with `TRIM_ON_INSERT` an entry heavier than the limit is refused and other
    /// entries are evicted down to the limit; an entry whose weight the total
    /// cannot count, or for which no slot is left, is refused as well
    fn insert_entry(&mut self, key: K, value: V, hash: u64) -> (result: Result<(&V, usize), V>)
        requires
            old(self).wf(),
        ensures
            final(self).wf(),
            final(self).weight_limit() == old(self).weight_limit(),
            final(self).scale() == old(self).scale(),
            final(self).keeps_entries(old(self)),
            match result {
                Ok((stored, slot)) => {
                    &&& !old(self).recency().contains(slot)
                    &&& final(self).recency().contains(slot)
                    &&& final(self).recency().last() == slot
                    &&& final(self).entry(slot).key == key
                    &&& final(self).entry(slot).value == value
                    &&& final(self).entry(slot).hash == hash
                    &&& *stored == value
                    &&& TRIM_ON_INSERT ==> final(self).total_weight() <= final(self).weight_limit()
                    &&& !TRIM_ON_INSERT ==> final(self).recency() == old(self).recency().push(slot)
                        && final(self).total_weight() == old(self).total_weight() + final(self).entry(slot).weight
                    &&& TRIM_ON_INSERT ==> exists|evicted: int|
                        0 <= evicted <= old(self).recency().len() && final(self).recency()
                            == #[trigger] old(self).recency().push(slot).subrange(
                            evicted,
                            old(self).recency().len() + 1int,
                        )
                },
                Err(refused) => refused == value && final(self).recency() == old(self).recency()
                    && final(self).total_weight() == old(self).total_weight(),
            },
            result is Ok ==> final(self).entry(result->Ok_0.1).weight == old(self).scale().spec_weight(key, value),
            result is Err <==> old(self).refuses(old(self).scale().spec_weight(key, value)),
    {
        let weight = self.scale.weight(&key, &value);
        self.insert_weighted(key, value, hash, weight)
    }

    /// caches `key` and `value`, weighing `weight`, as the most recently used
    /// entry in a new slot, stored under `hash`
    ///
    /// it is refused exactly when `refuses(weight)`; with `TRIM_ON_INSERT` other
    /// entries are evicted down to the limit
    pub fn insert_weighted(&mut self, key: K, value: V, hash: u64, weight: usize) -> (result: Result<(&V, usize), V>)
        requires
            old(self).wf(),
        ensures
            final(self).wf(),
            final(self).weight_limit() == old(self).weight_limit(),
            final(self).scale() == old(self).scale(),
            final(self).keeps_entries(old(self)),
            match result {
                Ok((stored, slot)) => {
                    &&& !old(self).recency().contains(slot)
                    &&& final(self).recency().contains(slot)
                    &&& final(self).recency().last() == slot
                    &&& final(self).entry(slot).key == key
                    &&& final(self).entry(slot).value == value
                    &&& final(self).entry(slot).hash == hash
                    &&& final(self).entry(slot).weight == weight
                    &&& *stored == value
                    &&& TRIM_ON_INSERT ==> final(self).total_weight() <= final(self).weight_limit()
                    &&& !TRIM_ON_INSERT ==> final(self).recency() == old(self).recency().push(slot)
                        && final(self).total_weight() == old(self).total_weight() + final(self).entry(slot).weight
                    &&& TRIM_ON_INSERT ==> exists|evicted: int|
                        0 <= evicted <= old(self).recency().len() && final(self).recency()
                            == #[trigger] old(self).recency().push(slot).subrange(
                            evicted,
                            old(self).recency().len() + 1int,
                        )
                },
                Err(refused) => refused == value && final(self).recency() == old(self).recency()
                    && final(self).total_weight() == old(self).total_weight(),
            },
            result is Err <==> old(self).refuses(weight),
    {
        if TRIM_ON_INSERT && weight > self.max_weight {
            return Err(value);
        }
        let total = match self.weight.checked_add(weight) {
            Some(total) => total,
            None => {
                return Err(value);
            },
        };
        let ghost before = self.entries.recency();
        let ghost free = self.entries.free_slots();
        let ghost count = self.entries.slot_count();
        proof {
            self.entries.lemma_recency();
        }
        let inserted = self.entries.insert(Entry { key, value, hash, weight });
        let slot = match inserted {
            Ok((_, slot)) => slot,
            Err(entry) => {
                return Err(entry.value);
            },
        };
        proof {
            if free.len() > 0 {
                assert(slot == free[0]);
                assert(free.contains(slot));
            } else {
                assert(slot == count);
            }
            assert(!before.contains(slot));
            assert(self.entries.recency() == before.push(slot));
            assert(self.entries.recency()[before.len() as int] == slot);
            assert(self.entries.recency().contains(slot));
            assert(self.entries.value_of(slot).hash == hash);
            assert forall|h: u64, s: usize| #[trigger] table_slots(old(self).table).count((h, s)) > 0 implies self.entries.recency().contains(s)
                && self.entries.value_of(s).hash == h by {
                assert(table_slots(old(self).table).count((h, s)) == if before.contains(s)
                    && old(self).entries.value_of(s).hash == h {
                    1nat
                } else {
                    0nat
                });
                let j = before.index_of(s);
                assert(self.entries.recency()[j] == s);
            }
        }
        let entries = &self.entries;
        let hasher = |stored: usize| -> (hash: u64)
            requires
                entries.wf(),
            ensures
                entries.recency().contains(stored) ==> hash == entries.value_of(stored).hash,
            { stored_hash(entries, stored) };
        self.table.insert(hash, slot, hasher);
        self.weight = total;
        proof {
            let after = self.entries.recency();
            assert(after == before.push(slot));
            assert(after.contains(slot)) by {
                assert(after[after.len() - 1] == slot);
            }
            assert forall|other: usize| #[trigger] before.contains(other) implies old(self).entry_weight()(other)
                == self.entry_weight()(other) by {}
            lemma_weight_agree(before, old(self).entry_weight(), self.entry_weight());
            assert(after.drop_last() =~= before);
            assert forall|h: u64, other: usize| #[trigger]
                table_slots(self.table).count((h, other)) == if after.contains(other)
                    && self.entries.value_of(other).hash == h {
                    1nat
                } else {
                    0nat
                } by {
                assert(table_slots(old(self).table).count((h, other)) == if before.contains(other)
                    && old(self).entries.value_of(other).hash == h {
                    1nat
                } else {
                    0nat
                });
                if other != slot {
                    if after.contains(other) {
                        let j = after.index_of(other);
                        assert(j < before.len());
                        assert(before[j] == other);
                    }
                    if before.contains(other) {
                        let j = before.index_of(other);
                        assert(after[j] == other);
                    }
                }
            }
        }
        if TRIM_ON_INSERT {
            let ghost inserted = *self;
            self.trim_to_weight();
            proof {
                let all = inserted.recency();
                let evicted = choose|evicted: int|
                    0 <= evicted <= all.len() && self.recency() == #[trigger] all.subrange(evicted, all.len() as int)
                        && (evicted > 0 ==> weight_sum(
                        all.subrange(evicted - 1, all.len() as int),
                        inserted.entry_weight(),
                    ) > inserted.weight_limit());
                assert(all == before.push(slot));
                assert(all[all.len() - 1] == slot);
                if evicted == all.len() {
                    assert(all.subrange(evicted - 1, all.len() as int) =~= seq![slot]);
                    assert(seq![slot].drop_last() =~= Seq::<usize>::empty());
                    assert(seq![slot].last() == slot);
                    assert(weight_sum(Seq::<usize>::empty(), inserted.entry_weight()) == 0);
                    assert(weight_sum(seq![slot], inserted.entry_weight()) == weight_sum(
                        seq![slot].drop_last(),
                        inserted.entry_weight(),
                    ) + inserted.entry_weight()(seq![slot].last()));
                    assert(weight_sum(seq![slot], inserted.entry_weight()) == inserted.entry_weight()(slot));
                    assert(inserted.entry_weight()(slot) == weight as int);
                    assert(false);
                }
                assert(self.recency()[self.recency().len() - 1] == all[all.len() - 1]);
                assert(self.recency()[self.recency().len() - 1] == slot);
                assert(self.recency().contains(slot));
                assert(self.recency() == before.push(slot).subrange(evicted, before.len() + 1int));
                assert forall|other: usize| #[trigger] self.recency().contains(other) && old(self).recency().contains(
                    other,
                ) implies self.entry(other) == old(self).entry(other) by {}
            }
        }
        Ok((&self.entries.get(slot).value, slot))
    }

    /// the value cached for `key`, which becomes the most recently used entry, or
    /// else the value `f` makes, cached under `key` as the most recently used
    /// entry; with the slot that holds it
    ///
    /// a value that cannot be cached (see `insert_entry`) is handed back as the
    /// error; this is `get_or_insert_hashed` under the table's hash of `key`,
    /// whose value nothing states
    pub fn get_or_insert<F: FnOnce() -> V>(&mut self, key: K, f: F) -> (result: Result<(&V, usize), V>)
        requires
            old(self).wf(),
            call_requires(f, ()),
        ensures
            final(self).wf(),
            final(self).weight_limit() == old(self).weight_limit(),
            final(self).scale() == old(self).scale(),
            final(self).keeps_entries(old(self)),
            match result {
                Ok((stored, slot)) => {
                    &&& final(self).recency().contains(slot)
                    &&& final(self).recency().last() == slot
                    &&& *stored == final(self).entry(slot).value
                    &&& old(self).recency().contains(slot) ==> {
                        &&& K::obeys_eq_spec() ==> old(self).entry(slot).key.eq_spec(&key)
                        &&& final(self).entry(slot) == old(self).entry(slot)
                        &&& final(self).recency() == promoted(old(self).recency(), slot)
                        &&& final(self).total_weight() == old(self).total_weight()
                    }
                    &&& !old(self).recency().contains(slot) ==> {
                        &&& final(self).entry(slot).key == key
                        &&& call_ensures(f, (), final(self).entry(slot).value)
                        &&& final(self).entry(slot).weight == old(self).scale().spec_weight(
                            key,
                            final(self).entry(slot).value,
                        )
                        &&& !old(self).refuses(final(self).entry(slot).weight)
                        &&& TRIM_ON_INSERT ==> final(self).total_weight() <= final(self).weight_limit()
                        &&& !TRIM_ON_INSERT ==> final(self).recency() == old(self).recency().push(slot)
                            && final(self).total_weight() == old(self).total_weight() + final(self).entry(
                            slot,
                        ).weight
                    }
                },
                Err(refused) => call_ensures(f, (), refused) && final(self).recency() == old(self).recency()
                    && final(self).total_weight() == old(self).total_weight() && old(self).refuses(
                    old(self).scale().spec_weight(key, refused),
                ),
            },
    {
        let hash = self.table.hash(&key);
        self.get_or_insert_hashed(key, hash, f)
    }

    /// the value cached for `key` among the entries stored under `hash`, which
    /// becomes the most recently used entry, or else the value `f` makes, cached
    /// under `key` and `hash` as the most recently used entry; with the slot that
    /// holds it
    ///
    /// an entry stored under `hash` with a key equal to `key` is returned, and
    /// `f` is asked only when none is found
    pub fn get_or_insert_hashed<F: FnOnce() -> V>(&mut self, key: K, hash: u64, f: F) -> (result: Result<(&V, usize), V>)
        requires
            old(self).wf(),
            call_requires(f, ()),
        ensures
            final(self).wf(),
            final(self).weight_limit() == old(self).weight_limit(),
            final(self).scale() == old(self).scale(),
            final(self).keeps_entries(old(self)),
            match result {
                Ok((stored, slot)) => {
                    &&& final(self).recency().contains(slot)
                    &&& final(self).recency().last() == slot
                    &&& *stored == final(self).entry(slot).value
                    &&& old(self).recency().contains(slot) ==> {
                        &&& K::obeys_eq_spec() ==> old(self).entry(slot).key.eq_spec(&key)
                        &&& final(self).entry(slot) == old(self).entry(slot)
                        &&& final(self).recency() == promoted(old(self).recency(), slot)
                        &&& final(self).total_weight() == old(self).total_weight()
                    }
                    &&& !old(self).recency().contains(slot) ==> {
                        &&& final(self).entry(slot).key == key
                        &&& call_ensures(f, (), final(self).entry(slot).value)
                        &&& final(self).entry(slot).weight == old(self).scale().spec_weight(
                            key,
                            final(self).entry(slot).value,
                        )
                        &&& !old(self).refuses(final(self).entry(slot).weight)
                        &&& TRIM_ON_INSERT ==> final(self).total_weight() <= final(self).weight_limit()
                        &&& !TRIM_ON_INSERT ==> final(self).recency() == old(self).recency().push(slot)
                            && final(self).total_weight() == old(self).total_weight() + final(self).entry(
                            slot,
                        ).weight
                    }
                },
                Err(refused) => call_ensures(f, (), refused) && final(self).recency() == old(self).recency()
                    && final(self).total_weight() == old(self).total_weight() && old(self).refuses(
                    old(self).scale().spec_weight(key, refused),
                ),
            },
            result is Ok && !old(self).recency().contains(result->Ok_0.1) ==> final(self).entry(result->Ok_0.1).hash
                == hash,
            K::obeys_eq_spec() && (exists|slot: usize|
                #[trigger] old(self).recency().contains(slot) && old(self).entry(slot).hash == hash && old(
                    self,
                ).entry(slot).key.eq_spec(&key)) ==> result is Ok && old(self).recency().contains(result->Ok_0.1),
    {
        let entries = &self.entries;
        let wanted = &key;
        let matches = |slot: usize| -> (matches: bool)
            requires
                entries.wf(),
            ensures
                K::obeys_eq_spec() ==> matches == (entries.recency().contains(slot)
                    && entries.value_of(slot).key.eq_spec(wanted)),
            { entry_has_key(entries, slot, wanted) };
        let found = self.table.find(hash, matches);
        if let Some(slot) = found {
            self.promote(slot);
            proof {
                let after = self.recency();
                assert(after[after.len() - 1] == slot);
                assert forall|other: usize| #[trigger] self.recency().contains(other) && old(self).recency().contains(
                    other,
                ) implies self.entry(other) == old(self).entry(other) by {}
            }
            return Ok((&self.entries.get(slot).value, slot));
        }
        proof {
            if K::obeys_eq_spec() && (exists|slot: usize|
                #[trigger] old(self).recency().contains(slot) && old(self).entry(slot).hash == hash && old(
                    self,
                ).entry(slot).key.eq_spec(&key)) {
                let slot = choose|slot: usize|
                    #[trigger] old(self).recency().contains(slot) && old(self).entry(slot).hash == hash && old(
                        self,
                    ).entry(slot).key.eq_spec(&key);
                assert(table_slots(self.table).count((hash, slot)) > 0);
                assert(call_ensures(matches, (slot,), false));
            }
        }
        let value = f();
        self.insert_entry(key, value, hash)
    }

    /// the value of the entry `equivalent` accepts, which becomes the most
    /// recently used entry, or else the entry `insert` makes, cached as the most
    /// recently used one; with the slot that holds it
    ///
    /// this is `get_or_insert_by_hashed` under the table's hash of `query`,
    /// whose value nothing states
    pub fn get_or_insert_by<Q: Hash + ?Sized, E: Fn(&K, &V) -> bool, I: FnOnce() -> (K, V)>(
        &mut self,
        query: &Q,
        equivalent: E,
        insert: I,
    ) -> (result: Result<(&V, usize), V>)
        requires
            old(self).wf(),
            forall|key: &K, value: &V| call_requires(equivalent, (key, value)),
            call_requires(insert, ()),
        ensures
            final(self).wf(),
            final(self).weight_limit() == old(self).weight_limit(),
            final(self).scale() == old(self).scale(),
            final(self).keeps_entries(old(self)),
            match result {
                Ok((stored, slot)) => {
                    &&& final(self).recency().contains(slot)
                    &&& final(self).recency().last() == slot
                    &&& *stored == final(self).entry(slot).value
                    &&& old(self).recency().contains(slot) ==> {
                        &&& call_ensures(
                            equivalent,
                            (&old(self).entry(slot).key, &old(self).entry(slot).value),
                            true,
                        )
                        &&& final(self).entry(slot) == old(self).entry(slot)
                        &&& final(self).recency() == promoted(old(self).recency(), slot)
                        &&& final(self).total_weight() == old(self).total_weight()
                    }
                    &&& !old(self).recency().contains(slot) ==> {
                        &&& call_ensures(insert, (), (final(self).entry(slot).key, final(self).entry(slot).value))
                        &&& final(self).entry(slot).weight == old(self).scale().spec_weight(
                            final(self).entry(slot).key,
                            final(self).entry(slot).value,
                        )
                        &&& !old(self).refuses(final(self).entry(slot).weight)
                        &&& TRIM_ON_INSERT ==> final(self).total_weight() <= final(self).weight_limit()
                        &&& !TRIM_ON_INSERT ==> final(self).recency() == old(self).recency().push(slot)
                            && final(self).total_weight() == old(self).total_weight() + final(self).entry(
                            slot,
                        ).weight
                    }
                },
                Err(refused) => (exists|key: K|
                    call_ensures(insert, (), (key, refused)) && old(self).refuses(
                        #[trigger] old(self).scale().spec_weight(key, refused),
                    )) && final(self).recency() == old(self).recency() && final(self).total_weight()
                    == old(self).total_weight(),
            },
    {
        let hash = self.table.hash(query);
        self.get_or_insert_by_hashed(hash, equivalent, insert)
    }

    /// the value of the entry stored under `hash` that `equivalent` accepts,
    /// which becomes the most recently used entry, or else the entry `insert`
    /// makes, cached under `hash` as the most recently used one; with the slot
    /// that holds it
    ///
    /// `insert` is asked only when `equivalent` rejected every entry stored under
    /// `hash`
    pub fn get_or_insert_by_hashed<E: Fn(&K, &V) -> bool, I: FnOnce() -> (K, V)>(
        &mut self,
        hash: u64,
        equivalent: E,
        insert: I,
    ) -> (result: Result<(&V, usize), V>)
        requires
            old(self).wf(),
            forall|key: &K, value: &V| call_requires(equivalent, (key, value)),
            call_requires(insert, ()),
        ensures
            final(self).wf(),
            final(self).weight_limit() == old(self).weight_limit(),
            final(self).scale() == old(self).scale(),
            final(self).keeps_entries(old(self)),
            match result {
                Ok((stored, slot)) => {
                    &&& final(self).recency().contains(slot)
                    &&& final(self).recency().last() == slot
                    &&& *stored == final(self).entry(slot).value
                    &&& old(self).recency().contains(slot) ==> {
                        &&& call_ensures(
                            equivalent,
                            (&old(self).entry(slot).key, &old(self).entry(slot).value),
                            true,
                        )
                        &&& final(self).entry(slot) == old(self).entry(slot)
                        &&& final(self).recency() == promoted(old(self).recency(), slot)
                        &&& final(self).total_weight() == old(self).total_weight()
                    }
                    &&& !old(self).recency().contains(slot) ==> {
                        &&& call_ensures(insert, (), (final(self).entry(slot).key, final(self).entry(slot).value))
                        &&& final(self).entry(slot).weight == old(self).scale().spec_weight(
                            final(self).entry(slot).key,
                            final(self).entry(slot).value,
                        )
                        &&& !old(self).refuses(final(self).entry(slot).weight)
                        &&& TRIM_ON_INSERT ==> final(self).total_weight() <= final(self).weight_limit()
                        &&& !TRIM_ON_INSERT ==> final(self).recency() == old(self).recency().push(slot)
                            && final(self).total_weight() == old(self).total_weight() + final(self).entry(
                            slot,
                        ).weight
                    }
                },
                Err(refused) => (exists|key: K|
                    call_ensures(insert, (), (key, refused)) && old(self).refuses(
                        #[trigger] old(self).scale().spec_weight(key, refused),
                    )) && final(self).recency() == old(self).recency() && final(self).total_weight()
                    == old(self).total_weight(),
            },
            result is Ok && !old(self).recency().contains(result->Ok_0.1) ==> final(self).entry(result->Ok_0.1).hash
                == hash,
            result is Err || !old(self).recency().contains(result->Ok_0.1) ==> forall|slot: usize|
                #[trigger] old(self).recency().contains(slot) && old(self).entry(slot).hash == hash ==> call_ensures(
                    equivalent,
                    (&old(self).entry(slot).key, &old(self).entry(slot).value),
                    false,
                ),
    {
        let entries = &self.entries;
        let accepts = &equivalent;
        let matches = |slot: usize| -> (matches: bool)
            requires
                entries.wf(),
                forall|key: &K, value: &V| call_requires(*accepts, (key, value)),
            ensures
                matches ==> entries.recency().contains(slot) && call_ensures(
                    *accepts,
                    (&entries.value_of(slot).key, &entries.value_of(slot).value),
                    true,
                ),
                !matches && entries.recency().contains(slot) ==> call_ensures(
                    *accepts,
                    (&entries.value_of(slot).key, &entries.value_of(slot).value),
                    false,
                ),
            { entry_is_equivalent(entries, slot, accepts) };
        let found = self.table.find(hash, matches);
        if let Some(slot) = found {
            self.promote(slot);
            proof {
                let after = self.recency();
                assert(after[after.len() - 1] == slot);
                assert forall|other: usize| #[trigger] self.recency().contains(other) && old(self).recency().contains(
                    other,
                ) implies self.entry(other) == old(self).entry(other) by {}
            }
            return Ok((&self.entries.get(slot).value, slot));
        }
        proof {
            assert forall|slot: usize|
                #[trigger] old(self).recency().contains(slot) && old(self).entry(slot).hash == hash implies call_ensures(
                equivalent,
                (&old(self).entry(slot).key, &old(self).entry(slot).value),
                false,
            ) by {
                assert(table_slots(self.table).count((hash, slot)) > 0);
                assert(call_ensures(matches, (slot,), false));
            }
        }
        let (key, value) = insert();
        let ghost made_key = key;
        let result = self.insert_entry(key, value, hash);
        proof {
            if result is Err {
                assert(call_ensures(insert, (), (made_key, result->Err_0)));
            }
        }
        result
    }

    /// replaces the value of the cached entry in `slot` by what `update` makes of
    /// it, marks the entry as the most recently used, and returns what `update`
    /// returned besides
    ///
    /// the entry's weight becomes what the scale gives for the new value, lowered
    /// where the total could not count it; nothing is evicted
    pub fn update_index<R, F: FnOnce(V) -> (V, R)>(&mut self, slot: usize, update: F) -> (result: R)
        requires
            old(self).wf(),
            old(self).recency().contains(slot),
            call_requires(update, (old(self).entry(slot).value,)),
        ensures
            final(self).wf(),
            final(self).weight_limit() == old(self).weight_limit(),
            final(self).scale() == old(self).scale(),
            final(self).recency() == promoted(old(self).recency(), slot),
            final(self).entry(slot).key == old(self).entry(slot).key,
            final(self).entry(slot).hash == old(self).entry(slot).hash,
            call_ensures(update, (old(self).entry(slot).value,), (final(self).entry(slot).value, result)),
            final(self).total_weight() == old(self).total_weight() - old(self).entry(slot).weight
                + final(self).entry(slot).weight,
            ({
                let measured = old(self).scale().spec_weight(old(self).entry(slot).key, final(self).entry(slot).value) as int;
                let room = usize::MAX - (old(self).total_weight() - old(self).entry(slot).weight);
                final(self).entry(slot).weight == if measured <= room {
                    measured
                } else {
                    room
                }
            }),
            forall|other: usize|
                #[trigger] old(self).recency().contains(other) && other != slot ==> final(self).entry(other)
                    == old(self).entry(other),
    {
        let ghost before = self.entries.recency();
        let ghost k = before.index_of(slot);
        proof {
            assert(before[k] == slot);
            lemma_weight_remove(before, self.entry_weight(), k);
            lemma_weight_bounds(before.remove(k), self.entry_weight());
            self.entries.lemma_recency();
        }
        let entry = match self.entries.remove(slot) {
            Some(entry) => entry,
            None => vstd::pervasive::unreached(),
        };
        let Entry { key, value, hash, weight: previous } = entry;
        let (value, result) = update(value);
        let measured = self.scale.weight(&key, &value);
        let base = self.weight - previous;
        let weight = if measured <= usize::MAX - base {
            measured
        } else {
            usize::MAX - base
        };
        let ghost removed = self.entries.recency();
        let ghost free = self.entries.free_slots();
        proof {
            self.entries.lemma_recency();
            assert(free[0] == slot);
        }
        let inserted = self.entries.insert(Entry { key, value, hash, weight });
        let stored = match inserted {
            Ok((_, stored)) => stored,
            Err(_) => vstd::pervasive::unreached(),
        };
        self.weight = base + weight;
        proof {
            assert(stored == slot);
            let after = self.entries.recency();
            assert(after == removed.push(slot));
            assert(removed == before.remove(k));
            assert(after == promoted(before, slot));
            assert(after.drop_last() =~= removed);
            assert forall|other: usize| #[trigger] removed.contains(other) implies old(self).entry_weight()(other)
                == self.entry_weight()(other) by {}
            lemma_weight_agree(removed, old(self).entry_weight(), self.entry_weight());
            assert forall|h: u64, other: usize| #[trigger]
                table_slots(self.table).count((h, other)) == if after.contains(other)
                    && self.entries.value_of(other).hash == h {
                    1nat
                } else {
                    0nat
                } by {
                lemma_promoted_contains(before, slot, other);
                assert(table_slots(old(self).table).count((h, other)) == if before.contains(other)
                    && old(self).entries.value_of(other).hash == h {
                    1nat
                } else {
                    0nat
                });
                if other != slot && before.contains(other) {
                    let j = before.index_of(other);
                    if j < k {
                        assert(removed[j] == other);
                    } else {
                        assert(removed[j - 1] == other);
                    }
                    assert(removed.contains(other));
                }
                if other == slot {
                    assert(after.contains(slot)) by {
                        assert(after[after.len() - 1] == slot);
                    }
                }
            }
            assert forall|other: usize| #[trigger] old(self).recency().contains(other) && other != slot implies self.entry(
                other,
            ) == old(self).entry(other) by {
                let j = before.index_of(other);
                if j < k {
                    assert(removed[j] == other);
                } else {
                    assert(removed[j - 1] == other);
                }
                assert(removed.contains(other));
            }
        }
        result
    }

    /// keeps the entries `filter` accepts, asking from the least to the most
    /// recently used
    pub fn retain<F: Fn(&K, &V) -> bool>(&mut self, filter: F)
        requires
            old(self).wf(),
            forall|key: &K, value: &V| call_requires(filter, (key, value)),
        ensures
            final(self).wf(),
            final(self).weight_limit() == old(self).weight_limit(),
            final(self).scale() == old(self).scale(),
            forall|other: usize| #[trigger] final(self).recency().contains(other) ==> final(self).entry(other)
                == old(self).entry(other),
            exists|keep: Seq<bool>|
                {
                    &&& keep.len() == old(self).recency().len()
                    &&& final(self).recency() == #[trigger] select(old(self).recency(), keep)
                    &&& forall|p: int|
                        0 <= p < keep.len() ==> call_ensures(
                            filter,
                            (&old(self).entry(old(self).recency()[p]).key, &old(self).entry(old(self).recency()[p]).value),
                            #[trigger] keep[p],
                        )
                },
    {
        let order = self.entries.slots_in_order();
        proof {
            self.entries.lemma_recency();
        }
        let ghost all = order@;
        let ghost mut keep: Seq<bool> = Seq::empty();
        let mut index: usize = 0;
        proof {
            assert(select(all.subrange(0, 0), keep) =~= Seq::<usize>::empty());
            assert(all.subrange(0, all.len() as int) =~= all);
        }
        while index < order.len()
            invariant
                self.wf(),
                self.max_weight == old(self).max_weight,
                self.scale == old(self).scale,
                all == order@,
                all == old(self).recency(),
                all.no_duplicates(),
                index <= all.len(),
                keep.len() == index,
                forall|forall_key: &K, forall_value: &V| call_requires(filter, (forall_key, forall_value)),
                self.recency() == select(all.subrange(0, index as int), keep) + all.subrange(
                    index as int,
                    all.len() as int,
                ),
                forall|other: usize| #[trigger] self.recency().contains(other) ==> self.entry(other)
                    == old(self).entry(other),
                forall|p: int|
                    0 <= p < index ==> call_ensures(
                        filter,
                        (&old(self).entry(all[p]).key, &old(self).entry(all[p]).value),
                        #[trigger] keep[p],
                    ),
            decreases all.len() - index,
        {
            let slot = order[index];
            let ghost kept = select(all.subrange(0, index as int), keep);
            let ghost current = self.recency();
            proof {
                assert(current[kept.len() as int] == slot);
                assert(current.contains(slot));
            }
            let entry = self.entries.get(slot);
            let accepted = filter(&entry.key, &entry.value);
            proof {
                assert(all.subrange(0, index + 1).drop_last() =~= all.subrange(0, index as int));
                assert(keep.push(accepted).drop_last() =~= keep);
                assert(all.subrange(index + 1, all.len() as int) =~= all.subrange(index as int, all.len() as int).drop_first());
            }
            if !accepted {
                proof {
                    assert(current.index_of(slot) == kept.len()) by {
                        let j = current.index_of(slot);
                        assert(current[j] == slot);
                        if j != kept.len() {
                            self.entries.lemma_recency();
                            assert(current.no_duplicates());
                        }
                    }
                }
                let ghost previous = *self;
                self.discard(slot);
                proof {
                    assert forall|other: usize| #[trigger] self.recency().contains(other) implies self.entry(other)
                        == old(self).entry(other) by {
                        let j = self.recency().index_of(other);
                        if j < kept.len() {
                            assert(previous.recency()[j] == other);
                        } else {
                            assert(previous.recency()[j + 1] == other);
                        }
                        assert(previous.recency().contains(other));
                    }
                    assert(self.recency() =~= select(all.subrange(0, index + 1), keep.push(false)) + all.subrange(
                        index + 1,
                        all.len() as int,
                    ));
                }
            } else {
                proof {
                    assert(self.recency() =~= select(all.subrange(0, index + 1), keep.push(true)) + all.subrange(
                        index + 1,
                        all.len() as int,
                    ));
                }
            }
            proof {
                keep = keep.push(accepted);
            }
            index = index + 1;
        }
        proof {
            assert(all.subrange(index as int, all.len() as int) =~= Seq::<usize>::empty());
            assert(all.subrange(0, index as int) =~= all);
            assert(self.recency() =~= select(all, keep));
        }
    }
}

} // verus!
