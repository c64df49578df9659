//! A byte-bounded cache of encoded emissions that evicts the least recently used first.

use vstd::prelude::*;

use crate::text::push_bytes;

verus! {

/// One encoded emission is a function of the source image bytes (fingerprint and length), the
/// sampled source rectangle, and the target pixel size.
#[derive(Debug, Clone, Copy, PartialEq, Eq, Hash)]
pub struct SixelEncodeKey {
    pub data_fingerprint: u64,
    pub data_len: usize,
    pub source: (u32, u32, u32, u32),
    pub target: (u32, u32),
}

impl SixelEncodeKey {
    /// Whether two keys are the same.
    pub fn same(&self, other: &SixelEncodeKey) -> (yes: bool)
        ensures
            yes == (*self == *other),
    {
        self.data_fingerprint == other.data_fingerprint && self.data_len == other.data_len
            && self.source.0 == other.source.0 && self.source.1 == other.source.1 && self.source.2
            == other.source.2 && self.source.3 == other.source.3 && self.target.0 == other.target.0
            && self.target.1 == other.target.1
    }
}

/// A cached emission.
struct CacheEntry {
    key: SixelEncodeKey,
    data: Vec<u8>,
}

/// The default capacity: 64 MiB of encoded payloads.
pub const DEFAULT_CACHE_BYTES: usize = 64 * 1024 * 1024;

/// The cached emissions, the least recently used first.
pub type Recency = Seq<(SixelEncodeKey, Seq<u8>)>;

/// The number of bytes that the emissions take.
pub open spec fn bytes_held(entries: Recency) -> nat
    decreases entries.len(),
{
    if entries.len() == 0 {
        0
    } else {
        bytes_held(entries.drop_last()) + entries.last().1.len()
    }
}

/// The key has an emission.
pub open spec fn has_key(entries: Recency, key: SixelEncodeKey) -> bool {
    exists|i: int| 0 <= i < entries.len() && (#[trigger] entries[i]).0 == key
}

/// Where the emission of a key stands.
pub open spec fn place_of(entries: Recency, key: SixelEncodeKey) -> int {
    choose|i: int| 0 <= i < entries.len() && (#[trigger] entries[i]).0 == key
}

/// No key has two emissions.
pub open spec fn distinct_keys(entries: Recency) -> bool {
    forall|i: int, j: int|
        #![trigger entries[i], entries[j]]
        0 <= i < j < entries.len() ==> entries[i].0 != entries[j].0
}

/// The emission of a key, if there is one.
pub open spec fn emission_of(entries: Recency, key: SixelEncodeKey) -> Option<Seq<u8>> {
    if has_key(entries, key) {
        Some(entries[place_of(entries, key)].1)
    } else {
        None
    }
}

/// The entries without that of one key.
pub open spec fn without(entries: Recency, key: SixelEncodeKey) -> Recency {
    if has_key(entries, key) {
        entries.remove(place_of(entries, key))
    } else {
        entries
    }
}

/// The entries after one key was used: it comes last.
pub open spec fn refreshed(entries: Recency, key: SixelEncodeKey) -> Recency {
    if has_key(entries, key) {
        without(entries, key).push(entries[place_of(entries, key)])
    } else {
        entries
    }
}

/// The entries that are left once the oldest were evicted until the rest fits `cap` bytes; the
/// newest one always stays.
pub open spec fn trimmed(entries: Recency, cap: nat) -> Recency
    decreases entries.len(),
{
    if bytes_held(entries) > cap && entries.len() > 1 {
        trimmed(entries.drop_first(), cap)
    } else {
        entries
    }
}

/// The entries after an insertion.
pub open spec fn inserted(
    entries: Recency,
    key: SixelEncodeKey,
    data: Seq<u8>,
    cap: nat,
) -> Recency {
    trimmed(without(entries, key).push((key, data)), cap)
}

proof fn lemma_bytes_remove(entries: Recency, i: int)
    requires
        0 <= i < entries.len(),
    ensures
        bytes_held(entries) == bytes_held(entries.remove(i)) + entries[i].1.len(),
    decreases entries.len(),
{
    if i == entries.len() - 1 {
        assert(entries.remove(i) =~= entries.drop_last());
    } else {
        lemma_bytes_remove(entries.drop_last(), i);
        assert(entries.remove(i).drop_last() =~= entries.drop_last().remove(i));
        assert(entries.remove(i).last() == entries.last());
    }
}

proof fn lemma_bytes_push(entries: Recency, entry: (SixelEncodeKey, Seq<u8>))
    ensures
        bytes_held(entries.push(entry)) == bytes_held(entries) + entry.1.len(),
{
    assert(entries.push(entry).drop_last() =~= entries);
}

proof fn lemma_bytes_bound(entries: Recency)
    requires
        forall|i: int| 0 <= i < entries.len() ==> (#[trigger] entries[i]).1.len() <= usize::MAX,
    ensures
        bytes_held(entries) <= entries.len() * usize::MAX,
    decreases entries.len(),
{
    if entries.len() > 0 {
        lemma_bytes_bound(entries.drop_last());
        assert(entries.len() * usize::MAX == (entries.len() - 1) * usize::MAX + usize::MAX)
            by (nonlinear_arith)
            requires
                entries.len() > 0,
        ;
    }
}

/// In a list without repeated keys, a key stands in one place only.
proof fn lemma_place_unique(entries: Recency, key: SixelEncodeKey, i: int)
    requires
        distinct_keys(entries),
        0 <= i < entries.len(),
        entries[i].0 == key,
    ensures
        has_key(entries, key),
        place_of(entries, key) == i,
{
    let p = place_of(entries, key);
    assert(0 <= p < entries.len() && entries[p].0 == key);
    if p < i {
        assert(entries[p].0 != entries[i].0);
    } else if i < p {
        assert(entries[i].0 != entries[p].0);
    }
}

/// Byte-bounded cache of encoded emissions.
pub struct SixelEncodeCache {
    /// The least recently used entry comes first.
    entries: Vec<CacheEntry>,
    /// Wide enough for the sum of any number of lengths.
    total_bytes: u128,
    cap_bytes: usize,
}

impl SixelEncodeCache {
    /// The emissions, the least recently used first.
    pub closed spec fn view(&self) -> Recency {
        self.entries@.map_values(|entry: CacheEntry| (entry.key, entry.data@))
    }

    /// The number of bytes that the emissions may take.
    pub closed spec fn capacity(&self) -> nat {
        self.cap_bytes as nat
    }

    /// No key has two emissions, and the running total is right.
    pub closed spec fn well_formed(&self) -> bool {
        &&& distinct_keys(self@)
        &&& self.total_bytes == bytes_held(self@)
    }

    /// An empty cache.
    pub fn with_capacity(cap_bytes: usize) -> (cache: Self)
        ensures
            cache.well_formed(),
            cache@ == Recency::empty(),
            cache.capacity() == cap_bytes,
    {
        let cache = SixelEncodeCache { entries: Vec::new(), total_bytes: 0, cap_bytes };
        assert(cache@ =~= Recency::empty());
        cache
    }

    /// The place of a key.
    fn find(&self, key: &SixelEncodeKey) -> (found: Option<usize>)
        requires
            self.well_formed(),
        ensures
            match found {
                Some(i) => i < self@.len() && has_key(self@, *key) && place_of(self@, *key) == i,
                None => !has_key(self@, *key),
            },
    {
        let mut i: usize = 0;
        while i < self.entries.len()
            invariant
                self.well_formed(),
                i <= self.entries.len(),
                forall|k: int| 0 <= k < i ==> (#[trigger] self@[k]).0 != *key,
            decreases self.entries.len() - i,
        {
            assert(self@[i as int].0 == self.entries@[i as int].key);
            if self.entries[i].key.same(key) {
                proof {
                    lemma_place_unique(self@, *key, i as int);
                }
                return Some(i);
            }
            i += 1;
        }
        None
    }

    /// Whether an emission for `key` is cached; its recency stays as it is.
    pub fn contains(&self, key: &SixelEncodeKey) -> (yes: bool)
        requires
            self.well_formed(),
        ensures
            yes == has_key(self@, *key),
    {
        match self.find(key) {
            Some(_) => true,
            None => false,
        }
    }

    /// A copy of the cached emission, which becomes the most recently used one.
    pub fn get(&mut self, key: &SixelEncodeKey) -> (data: Option<Vec<u8>>)
        requires
            old(self).well_formed(),
        ensures
            final(self).well_formed(),
            final(self).capacity() == old(self).capacity(),
            final(self)@ == refreshed(old(self)@, *key),
            match data {
                Some(data) => emission_of(old(self)@, *key) == Some(data@),
                None => emission_of(old(self)@, *key) is None,
            },
    {
        match self.find(key) {
            None => None,
            Some(i) => {
                let ghost before = self@;
                let entry = self.entries.remove(i);
                let mut data: Vec<u8> = Vec::new();
                push_bytes(&mut data, entry.data.as_slice());
                assert(data@ =~= entry.data@);
                self.entries.push(entry);
                proof {
                    assert(self@ =~= refreshed(before, *key));
                    lemma_refresh_keeps(before, *key);
                }
                Some(data)
            },
        }
    }

    /// Inserts an emission, evicting the least recently used ones until the cache fits its
    /// byte budget. An emission that is larger than the budget is stored all the same.
    pub fn insert(&mut self, key: SixelEncodeKey, data: Vec<u8>)
        requires
            old(self).well_formed(),
        ensures
            final(self).well_formed(),
            final(self).capacity() == old(self).capacity(),
            final(self)@ == inserted(old(self)@, key, data@, old(self).capacity()),
    {
        let ghost bytes = data@;
        let ghost before = self@;
        let ghost cap = self.capacity();
        match self.find(&key) {
            Some(i) => {
                proof {
                    lemma_bytes_remove(before, i as int);
                }
                let old = self.entries.remove(i);
                self.total_bytes = self.total_bytes - old.data.len() as u128;
                assert(self@ =~= without(before, key));
            },
            None => {
                assert(self@ =~= without(before, key));
            },
        }
        proof {
            lemma_without(before, key);
            lemma_bytes_push(self@, (key, bytes));
            assert(self.entries.len() <= usize::MAX);
            lemma_total_bound(self.entries@);
        }
        let ghost rest = self@;
        self.total_bytes = self.total_bytes + data.len() as u128;
        self.entries.push(CacheEntry { key, data });
        assert(self@ =~= rest.push((key, bytes)));
        while self.total_bytes > self.cap_bytes as u128 && self.entries.len() > 1
            invariant
                self.well_formed(),
                self.capacity() == cap,
                trimmed(self@, cap) == inserted(before, key, bytes, cap),
            decreases self.entries.len(),
        {
            let ghost current = self@;
            proof {
                lemma_bytes_remove(current, 0);
                assert(current.remove(0) =~= current.drop_first());
                assert(current[0].1 == self.entries@[0].data@);
            }
            let old = self.entries.remove(0);
            self.total_bytes = self.total_bytes - old.data.len() as u128;
            assert(self@ =~= current.drop_first());
        }
    }

    /// The number of cached emissions.
    pub fn len(&self) -> (n: usize)
        ensures
            n == self@.len(),
    {
        self.entries.len()
    }
}

impl Default for SixelEncodeCache {
    fn default() -> (cache: Self)
        ensures
            cache.well_formed(),
            cache@ == Recency::empty(),
            cache.capacity() == DEFAULT_CACHE_BYTES,
    {
        Self::with_capacity(DEFAULT_CACHE_BYTES)
    }
}

proof fn lemma_total_bound(entries: Seq<CacheEntry>)
    requires
        entries.len() <= usize::MAX,
    ensures
        bytes_held(entries.map_values(|entry: CacheEntry| (entry.key, entry.data@))) + usize::MAX
            <= u128::MAX,
{
    let listed = entries.map_values(|entry: CacheEntry| (entry.key, entry.data@));
    assert forall|i: int| 0 <= i < listed.len() implies (#[trigger] listed[i]).1.len()
        <= usize::MAX by {
        assert(entries[i].data.len() <= usize::MAX);
    }
    lemma_bytes_bound(listed);
    assert(listed.len() * usize::MAX + usize::MAX <= u128::MAX) by (nonlinear_arith)
        requires
            listed.len() <= usize::MAX,
            usize::MAX <= 0xFFFF_FFFF_FFFF_FFFF,
    ;
}

/// Taking a key out keeps the keys distinct, and the key is gone.
proof fn lemma_without(entries: Recency, key: SixelEncodeKey)
    requires
        distinct_keys(entries),
    ensures
        distinct_keys(without(entries, key)),
        !has_key(without(entries, key), key),
{
    if has_key(entries, key) {
        let p = place_of(entries, key);
        let rest = without(entries, key);
        assert forall|i: int| 0 <= i < rest.len() implies (#[trigger] rest[i]).0 != key by {
            if i < p {
                assert(entries[i].0 != entries[p].0);
            } else {
                assert(entries[p].0 != entries[i + 1].0);
            }
        }
    }
}

proof fn lemma_refresh_keeps(entries: Recency, key: SixelEncodeKey)
    requires
        distinct_keys(entries),
    ensures
        distinct_keys(refreshed(entries, key)),
        bytes_held(refreshed(entries, key)) == bytes_held(entries),
{
    if has_key(entries, key) {
        let p = place_of(entries, key);
        lemma_without(entries, key);
        lemma_bytes_remove(entries, p);
        lemma_bytes_push(without(entries, key), entries[p]);
    }
}

/// No key of a cache has two emissions.
pub proof fn law_cache_keys_are_distinct(cache: SixelEncodeCache)
    requires
        cache.well_formed(),
    ensures
        distinct_keys(cache@),
{
}

/// Eviction drops the oldest entries and no others, and no more of them than it has to: the
/// entries that are left are the longest suffix that fits, or the newest entry alone.
pub proof fn law_eviction_is_oldest_first(entries: Recency, cap: nat) -> (dropped: int)
    requires
        entries.len() > 0,
    ensures
        0 <= dropped < entries.len(),
        trimmed(entries, cap) == entries.skip(dropped),
        bytes_held(trimmed(entries, cap)) <= cap || trimmed(entries, cap).len() == 1,
        forall|i: int| 0 <= i < dropped ==> bytes_held(#[trigger] entries.skip(i)) > cap,
    decreases entries.len(),
{
    assert(entries.skip(0) =~= entries);
    if bytes_held(entries) > cap && entries.len() > 1 {
        let rest = entries.drop_first();
        let n = law_eviction_is_oldest_first(rest, cap);
        assert(rest.skip(n) =~= entries.skip(n + 1));
        assert forall|i: int| 0 <= i < n + 1 implies bytes_held(#[trigger] entries.skip(i))
            > cap by {
            if i > 0 {
                assert(rest.skip(i - 1) =~= entries.skip(i));
            }
        }
        n + 1
    } else {
        0
    }
}

/// An emission that was just inserted is found, whatever its size.
pub proof fn law_insert_is_found(
    entries: Recency,
    key: SixelEncodeKey,
    data: Seq<u8>,
    cap: nat,
)
    requires
        distinct_keys(entries),
    ensures
        distinct_keys(inserted(entries, key, data, cap)),
        emission_of(inserted(entries, key, data, cap), key) == Some(data),
        inserted(entries, key, data, cap).last() == (key, data),
{
    let listed = without(entries, key).push((key, data));
    lemma_without(entries, key);
    let dropped = law_eviction_is_oldest_first(listed, cap);
    let after = inserted(entries, key, data, cap);
    assert forall|i: int, j: int|
        #![trigger after[i], after[j]]
        0 <= i < j < after.len() implies after[i].0 != after[j].0 by {
        assert(listed[i + dropped].0 != listed[j + dropped].0);
    }
    lemma_place_unique(after, key, after.len() - 1);
}

/// After an insertion the cache fits its budget, or holds the new emission alone.
pub proof fn law_insert_fits_budget(
    entries: Recency,
    key: SixelEncodeKey,
    data: Seq<u8>,
    cap: nat,
)
    ensures
        bytes_held(inserted(entries, key, data, cap)) <= cap || inserted(
            entries,
            key,
            data,
            cap,
        ) == seq![(key, data)],
{
    let listed = without(entries, key).push((key, data));
    let dropped = law_eviction_is_oldest_first(listed, cap);
    let after = inserted(entries, key, data, cap);
    if bytes_held(after) > cap {
        assert(after =~= seq![(key, data)]);
    }
}

/// An insertion that fits the budget evicts nothing.
pub proof fn law_insert_without_pressure(
    entries: Recency,
    key: SixelEncodeKey,
    data: Seq<u8>,
    cap: nat,
)
    requires
        bytes_held(without(entries, key)) + data.len() <= cap,
    ensures
        inserted(entries, key, data, cap) == without(entries, key).push((key, data)),
{
    lemma_bytes_push(without(entries, key), (key, data));
}

/// A used emission becomes the last to be evicted, and no emission changes.
pub proof fn law_get_refreshes(entries: Recency, key: SixelEncodeKey, other: SixelEncodeKey)
    requires
        distinct_keys(entries),
    ensures
        has_key(entries, key) ==> refreshed(entries, key).last().0 == key,
        emission_of(refreshed(entries, key), other) == emission_of(entries, other),
        refreshed(entries, key).len() == entries.len(),
        bytes_held(refreshed(entries, key)) == bytes_held(entries),
        distinct_keys(refreshed(entries, key)),
{
    lemma_refresh_keeps(entries, key);
    let after = refreshed(entries, key);
    if has_key(entries, key) {
        let p = place_of(entries, key);
        if has_key(entries, other) {
            let q = place_of(entries, other);
            let r = if q == p {
                after.len() - 1
            } else if q < p {
                q
            } else {
                q - 1
            };
            assert(after[r] == entries[q]);
            lemma_place_unique(after, other, r);
        } else if has_key(after, other) {
            let r = place_of(after, other);
            let q = if r == after.len() - 1 {
                p
            } else if r < p {
                r
            } else {
                r + 1
            };
            assert(entries[q] == after[r]);
        }
    }
}

/// An emission is evicted only when every less recently used one is evicted too.
pub proof fn law_recent_outlives_stale(entries: Recency, cap: nat, stale: int, recent: int)
    requires
        distinct_keys(entries),
        0 <= stale < recent < entries.len(),
        has_key(trimmed(entries, cap), entries[stale].0),
    ensures
        has_key(trimmed(entries, cap), entries[recent].0),
{
    let dropped = law_eviction_is_oldest_first(entries, cap);
    let left = trimmed(entries, cap);
    let p = place_of(left, entries[stale].0);
    assert(left[p] == entries[p + dropped]);
    if p + dropped < stale {
        assert(entries[p + dropped].0 != entries[stale].0);
    } else if stale < p + dropped {
        assert(entries[stale].0 != entries[p + dropped].0);
    }
    assert(left[recent - dropped] == entries[recent]);
}

/// The sum of the lengths of the emissions, the oldest first.
pub open spec fn length_sum(entries: Recency) -> int
    decreases entries.len(),
{
    if entries.len() == 0 {
        0
    } else {
        entries[0].1.len() + length_sum(entries.skip(1))
    }
}

proof fn lemma_bytes_are_lengths(entries: Recency)
    ensures
        bytes_held(entries) == length_sum(entries),
    decreases entries.len(),
{
    if entries.len() > 0 {
        lemma_bytes_remove(entries, 0);
        assert(entries.remove(0) =~= entries.skip(1));
        lemma_bytes_are_lengths(entries.skip(1));
    }
}

/// The emission of a key is the one that stands with it.
pub proof fn law_emission_stands_with_its_key(
    entries: Recency,
    key: SixelEncodeKey,
    data: Seq<u8>,
)
    requires
        distinct_keys(entries),
    ensures
        emission_of(entries, key) == Some(data) <==> exists|i: int|
            0 <= i < entries.len() && #[trigger] entries[i] == (key, data),
        emission_of(entries, key) is None <==> forall|i: int|
            0 <= i < entries.len() ==> (#[trigger] entries[i]).0 != key,
        has_key(entries, key) <==> emission_of(entries, key) is Some,
{
    if has_key(entries, key) {
        let p = place_of(entries, key);
        assert(0 <= p < entries.len() && entries[p].0 == key);
        if entries[p].1 == data {
            assert(entries[p] == (key, data));
        }
    }
    assert forall|i: int| 0 <= i < entries.len() && #[trigger] entries[i] == (key, data) implies emission_of(
        entries,
        key,
    ) == Some(data) by {
        lemma_place_unique(entries, key, i);
    }
}

/// Position `i` of a list without the entry at `gone` is this position of the list.
pub open spec fn skipping(i: int, gone: int) -> int {
    if i < gone {
        i
    } else {
        i + 1
    }
}

/// An insertion puts the new emission last, behind the entries of the other keys in their order.
/// Of those it evicts the `dropped` oldest: none while everything fits `cap` bytes, and otherwise
/// as few as make the rest fit, the new emission always staying.
pub proof fn law_insertion_evicts_as_few_as_it_must(
    entries: Recency,
    key: SixelEncodeKey,
    data: Seq<u8>,
    cap: nat,
    gone: int,
) -> (dropped: int)
    requires
        distinct_keys(entries),
        if 0 <= gone < entries.len() {
            entries[gone].0 == key
        } else {
            gone == entries.len() && forall|i: int|
                0 <= i < entries.len() ==> (#[trigger] entries[i]).0 != key
        },
    ensures
        ({
            let after = inserted(entries, key, data, cap);
            let others = if gone < entries.len() {
                entries.len() - 1
            } else {
                entries.len() as int
            };
            &&& 0 <= dropped <= others
            &&& after.len() == others - dropped + 1
            &&& after[after.len() - 1] == (key, data)
            &&& forall|i: int|
                0 <= i < after.len() - 1 ==> #[trigger] after[i] == entries[skipping(
                    i + dropped,
                    gone,
                )]
            &&& length_sum(after) <= cap || after.len() == 1
            &&& dropped > 0 ==> length_sum(after) + entries[skipping(dropped - 1, gone)].1.len()
                > cap
        }),
{
    let kept = without(entries, key);
    if gone < entries.len() {
        lemma_place_unique(entries, key, gone);
    }
    let listed = kept.push((key, data));
    let dropped = law_eviction_is_oldest_first(listed, cap);
    let after = inserted(entries, key, data, cap);
    lemma_bytes_are_lengths(after);
    assert forall|i: int| 0 <= i < kept.len() implies #[trigger] kept[i] == entries[skipping(
        i,
        gone,
    )] by {
    }
    assert forall|i: int| 0 <= i < after.len() - 1 implies #[trigger] after[i] == entries[skipping(
        i + dropped,
        gone,
    )] by {
        assert(after[i] == kept[i + dropped]);
    }
    if dropped > 0 {
        let wider = listed.skip(dropped - 1);
        assert(bytes_held(wider) > cap);
        lemma_bytes_are_lengths(wider);
        assert(wider.skip(1) =~= after);
        assert(wider[0] == kept[dropped - 1]);
    }
    dropped
}

/// Using a key moves its entry to the end and leaves the order of the others; a key that is not
/// there changes nothing.
pub proof fn law_use_moves_to_the_end(entries: Recency, key: SixelEncodeKey, used: int)
    requires
        distinct_keys(entries),
        if 0 <= used < entries.len() {
            entries[used].0 == key
        } else {
            used == entries.len() && forall|i: int|
                0 <= i < entries.len() ==> (#[trigger] entries[i]).0 != key
        },
    ensures
        ({
            let after = refreshed(entries, key);
            &&& after.len() == entries.len()
            &&& used == entries.len() ==> after == entries
            &&& used < entries.len() ==> after[after.len() - 1] == entries[used]
            &&& used < entries.len() ==> forall|i: int|
                0 <= i < after.len() - 1 ==> #[trigger] after[i] == entries[skipping(i, used)]
        }),
{
    if used < entries.len() {
        lemma_place_unique(entries, key, used);
    }
}

} // verus!
