//! Collections of outside crates, and what is known of them.
use vstd::arithmetic::power2::pow2;
use vstd::prelude::*;

verus! {

/// The least-recently-used cache of the `lru` crate.
#[verifier::external_type_specification]
#[verifier::external_body]
#[verifier::reject_recursive_types(K)]
#[verifier::reject_recursive_types(V)]
#[verifier::reject_recursive_types(S)]
pub struct ExLruCache<K, V, S>(lru::LruCache<K, V, S>);

/// The hasher that an `lru` cache is made with.
#[verifier::external_type_specification]
#[verifier::external_body]
pub struct ExLruHasher(lru::DefaultHasher);

/// What a cache slot holds: an address family, an address and a text.
pub type Slot = (u8, u128, String);

/// What a cache slot holds, with the text as its characters.
pub type SlotView = (u8, u128, Seq<char>);

/// A least-recently-used cache from slots to slots.
pub type SlotCache = lru::LruCache<Slot, Slot>;

/// A slot with the text as its characters.
pub open spec fn slot_view(slot: Slot) -> SlotView {
    (slot.0, slot.1, slot.2@)
}

/// The place of `key`, or the length of `entries` when it is not there.
pub open spec fn lru_place(entries: Seq<(SlotView, SlotView)>, key: SlotView) -> int
    decreases entries.len(),
{
    if entries.len() == 0 || entries[0].0 == key {
        0
    } else {
        1 + lru_place(entries.skip(1), key)
    }
}

/// The value at `key`.
pub open spec fn lru_get(entries: Seq<(SlotView, SlotView)>, key: SlotView) -> Option<SlotView> {
    if lru_place(entries, key) < entries.len() {
        Some(entries[lru_place(entries, key)].1)
    } else {
        None
    }
}

/// The entries without `key`.
pub open spec fn lru_popped(entries: Seq<(SlotView, SlotView)>, key: SlotView) -> Seq<
    (SlotView, SlotView),
> {
    if lru_place(entries, key) < entries.len() {
        entries.remove(lru_place(entries, key))
    } else {
        entries
    }
}

/// The entries once `key` is set to `value`, in front: without its earlier entry, or without the
/// last entry where the cache was full.
pub open spec fn lru_pushed(
    entries: Seq<(SlotView, SlotView)>,
    limit: nat,
    key: SlotView,
    value: SlotView,
) -> Seq<(SlotView, SlotView)> {
    if lru_get(entries, key) is Some {
        seq![(key, value)] + lru_popped(entries, key)
    } else if entries.len() == limit {
        seq![(key, value)] + entries.drop_last()
    } else {
        seq![(key, value)] + entries
    }
}

/// The entry that setting `key` takes out.
pub open spec fn lru_evicted(
    entries: Seq<(SlotView, SlotView)>,
    limit: nat,
    key: SlotView,
) -> Option<(SlotView, SlotView)> {
    if lru_get(entries, key) is Some {
        Some((key, lru_get(entries, key).unwrap()))
    } else if entries.len() == limit {
        Some(entries.last())
    } else {
        None
    }
}

/// The entries of a cache, the most recently used first.
pub uninterp spec fn lru_entries(cache: lru::LruCache<Slot, Slot>) -> Seq<(SlotView, SlotView)>;

/// How many entries a cache was made to hold.
pub uninterp spec fn lru_limit(cache: lru::LruCache<Slot, Slot>) -> nat;

/// `lru::LruCache::new`: an empty cache that holds at most `limit` entries.
#[verifier::external_body]
pub(crate) fn lru_new(limit: usize) -> (cache: SlotCache)
    requires
        limit > 0,
    ensures
        lru_entries(cache) == Seq::<(SlotView, SlotView)>::empty(),
        lru_limit(cache) == limit,
{
    lru::LruCache::new(std::num::NonZeroUsize::new(limit).unwrap())
}

/// `lru::LruCache::peek`: a copy of the value at `key`, without touching the order.
#[verifier::external_body]
pub(crate) fn lru_peek(cache: &SlotCache, key: &Slot) -> (res: Option<Slot>)
    ensures
        res is Some <==> lru_get(lru_entries(*cache), slot_view(*key)) is Some,
        res matches Some(v) ==> lru_get(lru_entries(*cache), slot_view(*key)) == Some(slot_view(v)),
{
    cache.peek(key).cloned()
}

/// `lru::LruCache::push`: sets `key` and puts it in front. What comes back is the key's earlier
/// entry, or else the last entry where the cache was full and gave it up.
#[verifier::external_body]
pub(crate) fn lru_push(cache: &mut SlotCache, key: Slot, value: Slot) -> (res: Option<(Slot, Slot)>)
    ensures
        lru_entries(*final(cache)) == lru_pushed(
            lru_entries(*old(cache)),
            lru_limit(*old(cache)),
            slot_view(key),
            slot_view(value),
        ),
        lru_limit(*final(cache)) == lru_limit(*old(cache)),
        match lru_evicted(lru_entries(*old(cache)), lru_limit(*old(cache)), slot_view(key)) {
            Some((k, v)) => res matches Some((rk, rv)) && slot_view(rk) == k && slot_view(rv) == v,
            None => res is None,
        },
{
    cache.push(key, value)
}

/// `lru::LruCache::pop`: takes `key` out and gives back its value.
#[verifier::external_body]
pub(crate) fn lru_pop(cache: &mut SlotCache, key: &Slot) -> (res: Option<Slot>)
    ensures
        lru_entries(*final(cache)) == lru_popped(lru_entries(*old(cache)), slot_view(*key)),
        lru_limit(*final(cache)) == lru_limit(*old(cache)),
        match lru_get(lru_entries(*old(cache)), slot_view(*key)) {
            Some(v) => res matches Some(rv) && slot_view(rv) == v,
            None => res is None,
        },
{
    cache.pop(key)
}

/// What a place in a cache means: the key stands there and nowhere before.
pub proof fn lemma_lru_place(entries: Seq<(SlotView, SlotView)>, key: SlotView)
    ensures
        0 <= lru_place(entries, key) <= entries.len(),
        forall|i: int| 0 <= i < lru_place(entries, key) ==> (#[trigger] entries[i]).0 != key,
        lru_place(entries, key) < entries.len() ==> entries[lru_place(entries, key)].0 == key,
    decreases entries.len(),
{
    if entries.len() > 0 && entries[0].0 != key {
        lemma_lru_place(entries.skip(1), key);
        assert forall|i: int| 0 <= i < lru_place(entries, key) implies (#[trigger] entries[i]).0
            != key by {
            if i > 0 {
                assert(entries.skip(1)[i - 1] == entries[i]);
            }
        }
    }
}

/// No key has two entries.
pub open spec fn lru_distinct(entries: Seq<(SlotView, SlotView)>) -> bool {
    forall|i: int, j: int|
        0 <= i < j < entries.len() ==> (#[trigger] entries[i]).0 != (#[trigger] entries[j]).0
}

/// Without duplicates an entry is found by its key.
pub proof fn lemma_lru_get_at(entries: Seq<(SlotView, SlotView)>, i: int)
    requires
        lru_distinct(entries),
        0 <= i < entries.len(),
    ensures
        lru_place(entries, entries[i].0) == i,
        lru_get(entries, entries[i].0) == Some(entries[i].1),
{
    lemma_lru_place(entries, entries[i].0);
}

/// Taking a key out leaves every other key as it is.
pub proof fn lemma_lru_popped(entries: Seq<(SlotView, SlotView)>, key: SlotView)
    requires
        lru_distinct(entries),
    ensures
        lru_distinct(lru_popped(entries, key)),
        lru_popped(entries, key).len() <= entries.len(),
        lru_get(entries, key) is Some ==> lru_popped(entries, key).len() == entries.len() - 1,
        lru_get(lru_popped(entries, key), key) is None,
        forall|other: SlotView|
            other != key ==> #[trigger] lru_get(lru_popped(entries, key), other) == lru_get(
                entries,
                other,
            ),
{
    let after = lru_popped(entries, key);
    let at = lru_place(entries, key);
    lemma_lru_place(entries, key);
    assert forall|i: int| 0 <= i < after.len() implies #[trigger] after[i] == entries[if at
        < entries.len() && i >= at {
        i + 1
    } else {
        i
    }] by {}
    lemma_lru_place(after, key);
    assert forall|other: SlotView| other != key implies #[trigger] lru_get(after, other) == lru_get(
        entries,
        other,
    ) by {
        lemma_lru_place(entries, other);
        lemma_lru_place(after, other);
        let p = lru_place(entries, other);
        if p < entries.len() {
            let q = if at < p {
                p - 1
            } else {
                p
            };
            assert(after[q] == entries[p]);
            lemma_lru_get_at(after, q);
        } else if lru_place(after, other) < after.len() {
            let q = lru_place(after, other);
            let r = if at < entries.len() && q >= at {
                q + 1
            } else {
                q
            };
            assert(entries[r].0 == other);
        }
    }
}

/// Setting a key sets it, takes out at most one other key, and leaves the rest as it is.
pub proof fn lemma_lru_pushed(
    entries: Seq<(SlotView, SlotView)>,
    limit: nat,
    key: SlotView,
    value: SlotView,
)
    requires
        lru_distinct(entries),
        entries.len() <= limit,
        limit > 0,
    ensures
        ({
            let after = lru_pushed(entries, limit, key, value);
            let evicted = lru_evicted(entries, limit, key);
            &&& lru_distinct(after)
            &&& after.len() <= limit
            &&& lru_get(after, key) == Some(value)
            &&& evicted matches Some((k, v)) ==> lru_get(entries, k) == Some(v)
            &&& evicted matches Some((k, _)) ==> k == key || lru_get(after, k) is None
            &&& forall|other: SlotView|
                other != key && !(evicted matches Some((k, _)) && k == other)
                    ==> #[trigger] lru_get(after, other) == lru_get(entries, other)
        }),
{
    let after = lru_pushed(entries, limit, key, value);
    lemma_lru_place(entries, key);
    let kept = after.skip(1);
    assert(after[0] == (key, value));
    assert(lru_place(after, key) == 0);
    if lru_get(entries, key) is Some {
        lemma_lru_popped(entries, key);
        assert(kept =~= lru_popped(entries, key));
    } else if entries.len() == limit {
        let last = entries.last();
        lemma_lru_get_at(entries, entries.len() - 1);
        assert(lru_popped(entries, last.0) =~= entries.drop_last());
        lemma_lru_popped(entries, last.0);
        assert(kept =~= entries.drop_last());
    } else {
        assert(kept =~= entries);
    }
    assert forall|i: int| 0 <= i < kept.len() implies (#[trigger] kept[i]).0 != key by {
        if lru_get(entries, key) is Some {
            lemma_lru_place(kept, key);
            lemma_lru_get_at(kept, i);
        } else {
            lemma_lru_get_at(entries, i);
        }
    }
    assert forall|i: int, j: int| 0 <= i < j < after.len() implies (#[trigger] after[i]).0 != (
    #[trigger] after[j]).0 by {
        assert(after[j] == kept[j - 1]);
        if i > 0 {
            assert(after[i] == kept[i - 1]);
        }
    }
    assert forall|other: SlotView| other != key implies #[trigger] lru_get(after, other) == lru_get(
        kept,
        other,
    ) by {
        lemma_lru_place(kept, other);
        assert(lru_place(after, other) == 1 + lru_place(kept, other));
    }
}

/// The type of address of the `ipnet` crate's IPv4 networks.
type Ipv4Key = <ipnet::Ipv4AddrRange as Iterator>::Item;

/// The type of address of the `ipnet` crate's IPv6 networks.
type Ipv6Key = <ipnet::Ipv6AddrRange as Iterator>::Item;

/// The `ip_network_table_deps_treebitmap` crate's lookup table of IPv4 prefixes.
#[verifier::external_body]
pub struct V4Table {
    table: ip_network_table_deps_treebitmap::IpLookupTable<Ipv4Key, ()>,
}

/// The `ip_network_table_deps_treebitmap` crate's lookup table of IPv6 prefixes.
#[verifier::external_body]
pub struct V6Table {
    table: ip_network_table_deps_treebitmap::IpLookupTable<Ipv6Key, ()>,
}

/// The prefixes in an IPv4 table: address and length.
pub uninterp spec fn v4_prefixes(table: V4Table) -> Set<(u32, u8)>;

/// The prefixes in an IPv6 table: address and length.
pub uninterp spec fn v6_prefixes(table: V6Table) -> Set<(u128, u8)>;

/// `prefix` is the head of `addr`, out of `bits` bits.
pub open spec fn covers(prefix: int, len: int, bits: int, addr: int) -> bool {
    addr - addr % (pow2((bits - len) as nat) as int) == prefix
}

/// A prefix covers the IPv4 address.
pub open spec fn v4_covered(prefixes: Set<(u32, u8)>, addr: u32) -> bool {
    exists|p: (u32, u8)| #[trigger]
        prefixes.contains(p) && covers(p.0 as int, p.1 as int, 32, addr as int)
}

/// `len` is the length of a prefix that covers the IPv4 address, and no longer one does.
pub open spec fn v4_longest(prefixes: Set<(u32, u8)>, addr: u32, len: u32) -> bool {
    &&& exists|p: (u32, u8)| #[trigger]
        prefixes.contains(p) && covers(p.0 as int, p.1 as int, 32, addr as int) && p.1 == len
    &&& forall|p: (u32, u8)| #[trigger]
        prefixes.contains(p) && covers(p.0 as int, p.1 as int, 32, addr as int) ==> p.1 <= len
}

/// A prefix covers the IPv6 address.
pub open spec fn v6_covered(prefixes: Set<(u128, u8)>, addr: u128) -> bool {
    exists|p: (u128, u8)| #[trigger]
        prefixes.contains(p) && covers(p.0 as int, p.1 as int, 128, addr as int)
}

/// `len` is the length of a prefix that covers the IPv6 address, and no longer one does.
pub open spec fn v6_longest(prefixes: Set<(u128, u8)>, addr: u128, len: u32) -> bool {
    &&& exists|p: (u128, u8)| #[trigger]
        prefixes.contains(p) && covers(p.0 as int, p.1 as int, 128, addr as int) && p.1 == len
    &&& forall|p: (u128, u8)| #[trigger]
        prefixes.contains(p) && covers(p.0 as int, p.1 as int, 128, addr as int) ==> p.1 <= len
}

/// `IpLookupTable::new`: an empty table.
#[verifier::external_body]
pub(crate) fn v4_table_new() -> (table: V4Table)
    ensures
        v4_prefixes(table) == Set::<(u32, u8)>::empty(),
{
    V4Table { table: ip_network_table_deps_treebitmap::IpLookupTable::new() }
}

/// `IpLookupTable::insert`: adds a prefix; one that is there stays there once. It panics on a
/// prefix with bits set behind its length.
#[verifier::external_body]
pub(crate) fn v4_table_insert(table: &mut V4Table, addr: u32, len: u8)
    requires
        len <= 32,
        addr as int % (pow2((32 - len) as nat) as int) == 0,
    ensures
        v4_prefixes(*final(table)) == v4_prefixes(*old(table)).insert((addr, len)),
{
    table.table.insert(addr.into(), len as u32, ());
}

/// `IpLookupTable::longest_match`: the length of the longest prefix that covers `addr`.
#[verifier::external_body]
pub(crate) fn v4_table_match(table: &V4Table, addr: u32) -> (res: Option<u32>)
    ensures
        res is Some <==> v4_covered(v4_prefixes(*table), addr),
        res matches Some(len) ==> v4_longest(v4_prefixes(*table), addr, len),
{
    table.table.longest_match(addr.into()).map(|found| found.1)
}

/// `IpLookupTable::len`: how many prefixes there are.
#[verifier::external_body]
pub(crate) fn v4_table_len(table: &V4Table) -> (res: usize)
    ensures
        res == v4_prefixes(*table).len(),
{
    table.table.len()
}

/// `IpLookupTable::iter`: every prefix once, in an order that the table chooses.
#[verifier::external_body]
pub(crate) fn v4_table_items(table: &V4Table) -> (res: Vec<(u32, u8)>)
    ensures
        res@.no_duplicates(),
        res@.to_set() == v4_prefixes(*table),
{
    table.table.iter().map(|item| (u32::from(item.0), item.1 as u8)).collect()
}

/// `IpLookupTable::new`: an empty table.
#[verifier::external_body]
pub(crate) fn v6_table_new() -> (table: V6Table)
    ensures
        v6_prefixes(table) == Set::<(u128, u8)>::empty(),
{
    V6Table { table: ip_network_table_deps_treebitmap::IpLookupTable::new() }
}

/// `IpLookupTable::insert`: adds a prefix; one that is there stays there once. It panics on a
/// prefix with bits set behind its length.
#[verifier::external_body]
pub(crate) fn v6_table_insert(table: &mut V6Table, addr: u128, len: u8)
    requires
        len <= 128,
        addr as int % (pow2((128 - len) as nat) as int) == 0,
    ensures
        v6_prefixes(*final(table)) == v6_prefixes(*old(table)).insert((addr, len)),
{
    table.table.insert(addr.into(), len as u32, ());
}

/// `IpLookupTable::longest_match`: the length of the longest prefix that covers `addr`.
#[verifier::external_body]
pub(crate) fn v6_table_match(table: &V6Table, addr: u128) -> (res: Option<u32>)
    ensures
        res is Some <==> v6_covered(v6_prefixes(*table), addr),
        res matches Some(len) ==> v6_longest(v6_prefixes(*table), addr, len),
{
    table.table.longest_match(addr.into()).map(|found| found.1)
}

/// `IpLookupTable::len`: how many prefixes there are.
#[verifier::external_body]
pub(crate) fn v6_table_len(table: &V6Table) -> (res: usize)
    ensures
        res == v6_prefixes(*table).len(),
{
    table.table.len()
}

/// `IpLookupTable::iter`: every prefix once, in an order that the table chooses.
#[verifier::external_body]
pub(crate) fn v6_table_items(table: &V6Table) -> (res: Vec<(u128, u8)>)
    ensures
        res@.no_duplicates(),
        res@.to_set() == v6_prefixes(*table),
{
    table.table.iter().map(|item| (u128::from(item.0), item.1 as u8)).collect()
}

/// The `quick_cache` crate's cache, from texts to verdicts.
#[verifier::external_body]
pub struct VerdictCache {
    cache: quick_cache::sync::Cache<String, bool>,
}

/// What a verdict cache holds.
pub uninterp spec fn verdicts(cache: VerdictCache) -> Map<Seq<char>, bool>;

/// No verdict at all.
pub open spec fn no_verdicts() -> Map<Seq<char>, bool> {
    Map::empty()
}

/// `quick_cache::sync::Cache::new`: an empty cache of about `limit` entries.
#[verifier::external_body]
pub(crate) fn verdicts_new(limit: usize) -> (cache: VerdictCache)
    ensures
        verdicts(cache) == no_verdicts(),
{
    VerdictCache { cache: quick_cache::sync::Cache::new(limit) }
}

/// `quick_cache::sync::Cache::get`: the value at `key`, if the cache holds one.
#[verifier::external_body]
pub(crate) fn verdicts_get(cache: &VerdictCache, key: &str) -> (res: Option<bool>)
    ensures
        res is Some <==> verdicts(*cache).contains_key(key@),
        res matches Some(v) ==> v == verdicts(*cache)[key@],
{
    cache.cache.get(key)
}

/// `quick_cache::sync::Cache::insert`: sets `key`. Which entries the cache then gives up, the new
/// one among them, is its own choice; what it keeps is unchanged.
#[verifier::external_body]
pub(crate) fn verdicts_insert(cache: &mut VerdictCache, key: String, value: bool)
    ensures
        verdicts(*final(cache)).submap_of(verdicts(*old(cache)).insert(key@, value)),
{
    cache.cache.insert(key, value);
}

/// `quick_cache::sync::Cache::clear`: takes every entry out.
#[verifier::external_body]
pub(crate) fn verdicts_clear(cache: &mut VerdictCache)
    ensures
        verdicts(*final(cache)) == no_verdicts(),
{
    cache.cache.clear();
}

/// A key of a timed store: a space, a name in it, and a number.
pub type TimedKey = (String, String, u128);

/// An entry of a timed store: a text, bytes, and two numbers.
pub type TimedEntry = (String, Vec<u8>, u64, u64);

/// A key of a timed store.
pub open spec fn timed_key(key: TimedKey) -> (Seq<char>, Seq<char>, u128) {
    (key.0@, key.1@, key.2)
}

/// An entry of a timed store.
pub open spec fn timed_entry(entry: TimedEntry) -> (Seq<char>, Seq<u8>, u64, u64) {
    (entry.0@, entry.1@, entry.2, entry.3)
}

/// The entries of a timed store, by their keys.
pub type TimedMap = Map<(Seq<char>, Seq<char>, u128), (Seq<char>, Seq<u8>, u64, u64)>;

/// What is known of a timed store.
#[verifier::ext_equal]
pub struct StoreView {
    /// What the store holds.
    pub entries: TimedMap,
    /// How many entries it was made to hold.
    pub limit: nat,
    /// It was never to hold more entries than its limit, so that it gave none up.
    pub roomy: bool,
}

impl StoreView {
    /// A store that was to be left with `entries` holds all of them, as long as it is roomy, and
    /// never another one.
    pub open spec fn left_with(&self, entries: TimedMap, after: StoreView) -> bool {
        &&& after.limit == self.limit
        &&& after.roomy == self.roomy
        &&& after.entries.submap_of(entries)
        &&& after.roomy ==> after.entries == entries
    }

    /// A store that an entry was put into holds it beside the others, as long as there is room for
    /// all of them, and never another one.
    pub open spec fn put_in(
        &self,
        key: (Seq<char>, Seq<char>, u128),
        entry: (Seq<char>, Seq<u8>, u64, u64),
        after: StoreView,
    ) -> bool {
        &&& after.limit == self.limit
        &&& after.roomy == self.room_for(key, entry)
        &&& after.entries.submap_of(self.entries.insert(key, entry))
        &&& after.roomy ==> after.entries == self.entries.insert(key, entry)
    }

    /// The store has always had room, and has it for one more entry, too.
    pub open spec fn room_for(
        &self,
        key: (Seq<char>, Seq<char>, u128),
        entry: (Seq<char>, Seq<u8>, u64, u64),
    ) -> bool {
        self.roomy && self.entries.insert(key, entry).len() <= self.limit
    }
}

/// Taking an entry out after a look leaves what taking it out alone would leave.
pub proof fn lemma_look_then_remove(
    a: StoreView,
    b: StoreView,
    c: StoreView,
    key: (Seq<char>, Seq<char>, u128),
)
    requires
        a.left_with(a.entries, b),
        b.left_with(b.entries.remove(key), c),
    ensures
        a.left_with(a.entries.remove(key), c),
{
    assert forall|k: (Seq<char>, Seq<char>, u128)| #[trigger]
        c.entries.contains_key(k) implies a.entries.remove(key).contains_key(k) && c.entries[k]
        == a.entries.remove(key)[k] by {
        assert(b.entries.remove(key).contains_key(k));
        assert(b.entries.contains_key(k));
    }
}

/// Putting an entry in after a look is putting it in.
pub proof fn lemma_look_then_put(
    a: StoreView,
    b: StoreView,
    c: StoreView,
    key: (Seq<char>, Seq<char>, u128),
    entry: (Seq<char>, Seq<u8>, u64, u64),
)
    requires
        a.left_with(a.entries, b),
        b.put_in(key, entry, c),
    ensures
        a.put_in(key, entry, c),
{
    assert forall|k: (Seq<char>, Seq<char>, u128)| #[trigger]
        c.entries.contains_key(k) implies a.entries.insert(key, entry).contains_key(k)
        && c.entries[k] == a.entries.insert(key, entry)[k] by {
        assert(b.entries.insert(key, entry).contains_key(k));
        if k != key {
            assert(b.entries.contains_key(k));
        }
    }
}

/// A store without entries, made to hold `limit` of them.
pub open spec fn empty_store(limit: nat) -> StoreView {
    StoreView { entries: Map::empty(), limit, roomy: true }
}

/// The `moka` crate's cache, from keys to entries.
#[verifier::external_body]
pub struct TimedStore {
    cache: moka::sync::Cache<TimedKey, TimedEntry>,
}

/// What a timed store holds.
pub uninterp spec fn timed_entries(store: TimedStore) -> Map<(Seq<char>, Seq<char>, u128), (Seq<char>, Seq<u8>, u64, u64)>;

/// How many entries a timed store was made to hold.
pub uninterp spec fn timed_limit(store: TimedStore) -> nat;

/// A timed store was never to hold more entries than its limit.
pub uninterp spec fn timed_roomy(store: TimedStore) -> bool;

/// What is known of a timed store.
pub open spec fn timed_view(store: TimedStore) -> StoreView {
    StoreView {
        entries: timed_entries(store),
        limit: timed_limit(store),
        roomy: timed_roomy(store),
    }
}

/// `moka::sync::Cache::new`: an empty cache that stores up to `limit` entries.
#[verifier::external_body]
pub(crate) fn timed_new(limit: u64) -> (store: TimedStore)
    ensures
        timed_entries(store) == empty_store(limit as nat).entries,
        timed_limit(store) == limit,
        timed_roomy(store),
{
    TimedStore { cache: moka::sync::Cache::new(limit) }
}

/// `moka::sync::Cache::get`: a copy of the entry at `key`, if the cache holds one. A look may make
/// the cache give entries up, the one that was found among them, where it was ever to hold more
/// than its limit; which ones is its own choice.
#[verifier::external_body]
pub(crate) fn timed_get(store: &mut TimedStore, key: &TimedKey) -> (res: Option<TimedEntry>)
    ensures
        res is Some <==> timed_entries(*old(store)).contains_key(timed_key(*key)),
        res matches Some(entry) ==> timed_entry(entry) == timed_entries(*old(store))[timed_key(
            *key,
        )],
        timed_view(*old(store)).left_with(timed_entries(*old(store)), timed_view(*final(store))),
{
    store.cache.get(key)
}

/// `moka::sync::Cache::insert`: puts an entry in, in place of one under the same key. Where the
/// cache was ever to hold more than its limit, which entries it then gives up, the new one among
/// them, is its own choice.
#[verifier::external_body]
pub(crate) fn timed_insert(store: &mut TimedStore, key: TimedKey, entry: TimedEntry)
    ensures
        timed_view(*old(store)).put_in(
            timed_key(key),
            timed_entry(entry),
            timed_view(*final(store)),
        ),
{
    store.cache.insert(key, entry);
}

/// `moka::sync::Cache::invalidate`: takes the entry at `key` out. It may make the cache give other
/// entries up, as a look may.
#[verifier::external_body]
pub(crate) fn timed_invalidate(store: &mut TimedStore, key: &TimedKey)
    ensures
        timed_view(*old(store)).left_with(
            timed_entries(*old(store)).remove(timed_key(*key)),
            timed_view(*final(store)),
        ),
{
    store.cache.invalidate(key);
}

} // verus!
