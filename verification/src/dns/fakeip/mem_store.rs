//! The fake-IP store in memory: two least-recently-used caches that evict each other's entries.
use vstd::prelude::*;

use crate::collections;
use crate::collections::{lru_new, lru_peek, lru_pop, lru_push, Slot, SlotCache, SlotView};
use crate::dns::fakeip::Store;
use crate::ip::IpAddr;
use crate::text;

verus! {

/// What a fake-IP store holds: hosts by address and addresses by host, the most recently set
/// first, and how many entries each table holds at most.
pub struct StoreState {
    pub hosts: Seq<(SlotView, SlotView)>,
    pub addrs: Seq<(SlotView, SlotView)>,
    pub limit: nat,
}

/// Whether the address is of version 6.
pub open spec fn is_v6(ip: IpAddr) -> bool {
    ip is V6
}

/// The slot of an address.
pub open spec fn ip_slot(ip: IpAddr) -> SlotView {
    match ip {
        IpAddr::V4(a) => (4u8, a as u128, Seq::empty()),
        IpAddr::V6(a) => (6u8, a, Seq::empty()),
    }
}

/// The slot of a text.
pub open spec fn text_slot(s: Seq<char>) -> SlotView {
    (0u8, 0u128, s)
}

/// The address in a slot.
pub open spec fn slot_ip(slot: SlotView) -> IpAddr {
    if slot.0 == 4 {
        IpAddr::V4(slot.1 as u32)
    } else {
        IpAddr::V6(slot.1)
    }
}

/// The slot holds an address.
pub open spec fn is_ip_slot(slot: SlotView) -> bool {
    slot == ip_slot(slot_ip(slot))
}

/// The slot holds a text.
pub open spec fn is_text_slot(slot: SlotView) -> bool {
    slot == text_slot(slot.2)
}

/// A host has one key for each address version.
pub open spec fn host_key(host: Seq<char>, v6: bool) -> Seq<char> {
    if v6 {
        host + "#v6"@
    } else {
        host + "#v4"@
    }
}

/// A key tells its host and its version.
pub proof fn lemma_host_key_injective(a: Seq<char>, va: bool, b: Seq<char>, vb: bool)
    requires
        host_key(a, va) == host_key(b, vb),
    ensures
        a == b,
        va == vb,
{
    reveal_strlit("#v4");
    reveal_strlit("#v6");
    let k = host_key(a, va);
    assert(k.last() == (if va {
        '6'
    } else {
        '4'
    }));
    assert(k.last() == (if vb {
        '6'
    } else {
        '4'
    }));
    assert(a =~= k.take(k.len() - 3));
    assert(b =~= k.take(k.len() - 3));
}

impl StoreState {
    /// The host of an address.
    pub open spec fn host_of(&self, ip: IpAddr) -> Option<Seq<char>> {
        match collections::lru_get(self.hosts, ip_slot(ip)) {
            Some(slot) => Some(slot.2),
            None => None,
        }
    }

    /// The address of a host in one version.
    pub open spec fn addr_of(&self, host: Seq<char>, v6: bool) -> Option<IpAddr> {
        match collections::lru_get(self.addrs, text_slot(host_key(host, v6))) {
            Some(slot) => Some(slot_ip(slot)),
            None => None,
        }
    }

    /// The tables are within their limit, hold what they should, and whatever address has a host
    /// is that host's address.
    pub open spec fn ok(&self) -> bool {
        &&& self.limit > 0
        &&& self.hosts.len() <= self.limit
        &&& self.addrs.len() <= self.limit
        &&& collections::lru_distinct(self.hosts)
        &&& collections::lru_distinct(self.addrs)
        &&& forall|i: int|
            0 <= i < self.hosts.len() ==> is_ip_slot((#[trigger] self.hosts[i]).0) && is_text_slot(
                self.hosts[i].1,
            )
        &&& forall|i: int|
            0 <= i < self.addrs.len() ==> is_text_slot((#[trigger] self.addrs[i]).0) && is_ip_slot(
                self.addrs[i].1,
            )
        &&& self.paired()
    }

    /// Whatever address has a host is that host's address.
    pub open spec fn paired(&self) -> bool {
        forall|ip: IpAddr|
            (#[trigger] self.host_of(ip)) matches Some(h) ==> self.addr_of(h, is_v6(ip)) == Some(
                ip,
            )
    }

    /// An empty store.
    pub open spec fn empty(limit: nat) -> StoreState {
        StoreState { hosts: Seq::empty(), addrs: Seq::empty(), limit }
    }

    /// The store once a host has an address in the table by host; the address that this takes out
    /// loses its host.
    pub open spec fn with_addr(&self, host: Seq<char>, ip: IpAddr) -> StoreState {
        let key = text_slot(host_key(host, is_v6(ip)));
        StoreState {
            addrs: collections::lru_pushed(self.addrs, self.limit, key, ip_slot(ip)),
            hosts: match collections::lru_evicted(self.addrs, self.limit, key) {
                Some((_, gone)) if gone != ip_slot(ip) => collections::lru_popped(self.hosts, gone),
                _ => self.hosts,
            },
            limit: self.limit,
        }
    }

    /// The store once an address has a host in the table by address; the host that this takes out
    /// loses its address.
    pub open spec fn with_host(&self, ip: IpAddr, host: Seq<char>) -> StoreState {
        StoreState {
            hosts: collections::lru_pushed(self.hosts, self.limit, ip_slot(ip), text_slot(host)),
            addrs: match collections::lru_evicted(self.hosts, self.limit, ip_slot(ip)) {
                Some((gone, gone_host)) if gone != ip_slot(ip) => collections::lru_popped(
                    self.addrs,
                    text_slot(host_key(gone_host.2, is_v6(slot_ip(gone)))),
                ),
                _ => self.addrs,
            },
            limit: self.limit,
        }
    }

    /// The store once a host is given an address.
    pub open spec fn put_host(&self, host: Seq<char>, ip: IpAddr) -> StoreState {
        self.with_addr(host, ip).with_host(ip, host)
    }

    /// The store once an address is given a host.
    pub open spec fn put_ip(&self, ip: IpAddr, host: Seq<char>) -> StoreState {
        self.with_host(ip, host).with_addr(host, ip)
    }

    /// The store without an address and without its host's entry for it.
    pub open spec fn without(&self, ip: IpAddr) -> StoreState {
        match self.host_of(ip) {
            None => *self,
            Some(host) => StoreState {
                hosts: collections::lru_popped(self.hosts, ip_slot(ip)),
                addrs: collections::lru_popped(
                    self.addrs,
                    text_slot(host_key(host, is_v6(ip))),
                ),
                limit: self.limit,
            },
        }
    }
}

/// The tables are in order, whatever they pair.
pub open spec fn tables_ok(s: StoreState) -> bool {
    &&& s.limit > 0
    &&& s.hosts.len() <= s.limit
    &&& s.addrs.len() <= s.limit
    &&& collections::lru_distinct(s.hosts)
    &&& collections::lru_distinct(s.addrs)
    &&& forall|i: int|
        0 <= i < s.hosts.len() ==> is_ip_slot((#[trigger] s.hosts[i]).0) && is_text_slot(
            s.hosts[i].1,
        )
    &&& forall|i: int|
        0 <= i < s.addrs.len() ==> is_text_slot((#[trigger] s.addrs[i]).0) && is_ip_slot(
            s.addrs[i].1,
        )
}

/// An address is found again in its slot.
proof fn lemma_ip_slot(ip: IpAddr)
    ensures
        slot_ip(ip_slot(ip)) == ip,
        is_ip_slot(ip_slot(ip)),
{
}

/// The entries that a cache keeps or gains are of the right kind.
proof fn lemma_kinds_kept(
    entries: Seq<(SlotView, SlotView)>,
    after: Seq<(SlotView, SlotView)>,
    key: SlotView,
    value: SlotView,
)
    requires
        collections::lru_distinct(entries),
        collections::lru_distinct(after),
        forall|other: SlotView|
            other != key ==> #[trigger] collections::lru_get(after, other) is None
                || collections::lru_get(after, other) == collections::lru_get(entries, other),
        collections::lru_get(after, key) is None || collections::lru_get(after, key) == Some(value),
    ensures
        forall|i: int|
            0 <= i < after.len() ==> #[trigger] after[i] == (key, value) || exists|j: int|
                0 <= j < entries.len() && entries[j] == after[i],
{
    assert forall|i: int| 0 <= i < after.len() implies #[trigger] after[i] == (key, value)
        || exists|j: int| 0 <= j < entries.len() && entries[j] == after[i] by {
        collections::lemma_lru_get_at(after, i);
        let k = after[i].0;
        if k != key {
            assert(collections::lru_get(after, k) == collections::lru_get(entries, k));
            collections::lemma_lru_place(entries, k);
            assert(entries[collections::lru_place(entries, k)] == after[i]);
        }
    }
}

/// Popping a key takes out no entry of another kind.
proof fn lemma_kinds_popped(entries: Seq<(SlotView, SlotView)>, key: SlotView)
    requires
        collections::lru_distinct(entries),
    ensures
        forall|i: int|
            0 <= i < collections::lru_popped(entries, key).len() ==> exists|j: int|
                0 <= j < entries.len() && entries[j] == #[trigger] collections::lru_popped(
                    entries,
                    key,
                )[i],
{
    collections::lemma_lru_popped(entries, key);
    let after = collections::lru_popped(entries, key);
    lemma_kinds_kept(entries, after, key, key);
    assert forall|i: int| 0 <= i < after.len() implies exists|j: int|
        0 <= j < entries.len() && entries[j] == #[trigger] after[i] by {
        collections::lemma_lru_get_at(after, i);
        assert(after[i].0 != key);
    }
}

/// What a table has at a slot is one of its entries.
proof fn lemma_get_is_entry(entries: Seq<(SlotView, SlotView)>, key: SlotView)
    requires
        collections::lru_get(entries, key) is Some,
    ensures
        exists|j: int|
            0 <= j < entries.len() && entries[j] == (
                key,
                collections::lru_get(entries, key).unwrap(),
            ),
{
    collections::lemma_lru_place(entries, key);
    assert(entries[collections::lru_place(entries, key)] == (
        key,
        collections::lru_get(entries, key).unwrap(),
    ));
}

/// The two belong together, and nothing else belongs to either.
pub open spec fn holds(s: StoreState, ip: IpAddr, host: Seq<char>) -> bool {
    s.host_of(ip) == Some(host) && s.addr_of(host, is_v6(ip)) == Some(ip)
}

/// Nothing belongs to either of the two, and there is room for them.
pub open spec fn has_room(s: StoreState, ip: IpAddr, host: Seq<char>) -> bool {
    &&& s.host_of(ip) is None
    &&& s.addr_of(host, is_v6(ip)) is None
    &&& s.hosts.len() < s.limit
    &&& s.addrs.len() < s.limit
}

/// The one store holds what the other does, and the pair besides.
pub open spec fn adds_only(s: StoreState, t: StoreState, ip: IpAddr, host: Seq<char>) -> bool {
    &&& tables_ok(t)
    &&& t.limit == s.limit
    &&& t.hosts.len() <= s.hosts.len() + 1
    &&& t.addrs.len() <= s.addrs.len() + 1
    &&& holds(t, ip, host)
    &&& forall|other: IpAddr| other != ip ==> #[trigger] t.host_of(other) == s.host_of(other)
    &&& forall|h: Seq<char>, v6: bool|
        (h != host || v6 != is_v6(ip)) ==> #[trigger] t.addr_of(h, v6) == s.addr_of(h, v6)
}

/// A table that is given an entry that it has, or one more entry than it has, loses none.
proof fn lemma_pushed_with_room(
    entries: Seq<(SlotView, SlotView)>,
    limit: nat,
    key: SlotView,
    value: SlotView,
)
    requires
        collections::lru_distinct(entries),
        entries.len() <= limit,
        limit > 0,
        collections::lru_get(entries, key) == Some(value) || (collections::lru_get(entries, key)
            is None && entries.len() < limit),
    ensures
        ({
            let after = collections::lru_pushed(entries, limit, key, value);
            &&& collections::lru_distinct(after)
            &&& after.len() <= limit
            &&& after.len() <= entries.len() + 1
            &&& collections::lru_get(entries, key) is Some ==> after.len() == entries.len()
            &&& collections::lru_get(after, key) == Some(value)
            &&& collections::lru_evicted(entries, limit, key) matches Some((k, v)) ==> k == key && v
                == value
            &&& forall|other: SlotView|
                other != key ==> #[trigger] collections::lru_get(after, other)
                    == collections::lru_get(entries, other)
        }),
{
    collections::lemma_lru_pushed(entries, limit, key, value);
    if collections::lru_get(entries, key) is Some {
        collections::lemma_lru_popped(entries, key);
    }
}

/// A pair that is there, or that there is room for, is put in without loss.
pub proof fn lemma_put_with_room(s: StoreState, ip: IpAddr, host: Seq<char>)
    requires
        tables_ok(s),
        holds(s, ip, host) || has_room(s, ip, host),
    ensures
        adds_only(s, s.put_host(host, ip), ip, host),
        adds_only(s, s.put_ip(ip, host), ip, host),
        holds(s, ip, host) ==> s.put_ip(ip, host).hosts.len() == s.hosts.len() && s.put_ip(
            ip,
            host,
        ).addrs.len() == s.addrs.len(),
{
    let key = text_slot(host_key(host, is_v6(ip)));
    let slot = ip_slot(ip);
    lemma_ip_slot(ip);
    if holds(s, ip, host) {
        lemma_get_is_entry(s.addrs, key);
        lemma_get_is_entry(s.hosts, slot);
    }
    lemma_pushed_with_room(s.addrs, s.limit, key, slot);
    lemma_pushed_with_room(s.hosts, s.limit, slot, text_slot(host));
    let addrs = collections::lru_pushed(s.addrs, s.limit, key, slot);
    let hosts = collections::lru_pushed(s.hosts, s.limit, slot, text_slot(host));
    lemma_kinds_kept(s.addrs, addrs, key, slot);
    lemma_kinds_kept(s.hosts, hosts, slot, text_slot(host));
    let t = StoreState { hosts, addrs, limit: s.limit };
    assert(s.put_host(host, ip) == t);
    assert(s.put_ip(ip, host) == t);
    assert forall|other: IpAddr| other != ip implies #[trigger] t.host_of(other) == s.host_of(
        other,
    ) by {
        lemma_ip_slot(other);
        assert(ip_slot(other) != slot);
    }
    assert forall|h: Seq<char>, v6: bool| (h != host || v6 != is_v6(ip)) implies #[trigger] t.addr_of(
        h,
        v6,
    ) == s.addr_of(h, v6) by {
        if host_key(h, v6) == host_key(host, is_v6(ip)) {
            lemma_host_key_injective(h, v6, host, is_v6(ip));
        }
        assert(text_slot(host_key(h, v6)) != key);
    }
}

/// Setting a host's address: the tables stay in order, the pairing holds, the host has the
/// address, and the address keeps or loses its host.
proof fn lemma_with_addr(s: StoreState, host: Seq<char>, ip: IpAddr)
    requires
        tables_ok(s),
        forall|other: IpAddr|
            other != ip ==> ((#[trigger] s.host_of(other)) matches Some(h) ==> s.addr_of(
                h,
                is_v6(other),
            ) == Some(other)),
        s.host_of(ip) matches Some(h) ==> h == host || s.addr_of(h, is_v6(ip)) == Some(ip),
    ensures
        ({
            let t = s.with_addr(host, ip);
            &&& tables_ok(t)
            &&& t.addr_of(host, is_v6(ip)) == Some(ip)
            &&& t.host_of(ip) == s.host_of(ip)
            &&& forall|other: IpAddr|
                other != ip ==> ((#[trigger] t.host_of(other)) matches Some(h) ==> t.addr_of(
                    h,
                    is_v6(other),
                ) == Some(other))
            &&& t.host_of(ip) matches Some(h) ==> h == host || t.addr_of(h, is_v6(ip)) == Some(ip)
                || t.addr_of(h, is_v6(ip)) is None
        }),
{
    let t = s.with_addr(host, ip);
    let key = text_slot(host_key(host, is_v6(ip)));
    collections::lemma_lru_pushed(s.addrs, s.limit, key, ip_slot(ip));
    lemma_kinds_kept(s.addrs, t.addrs, key, ip_slot(ip));
    lemma_ip_slot(ip);
    let evicted = collections::lru_evicted(s.addrs, s.limit, key);
    if let Some((k, gone)) = evicted {
        lemma_get_is_entry(s.addrs, k);
        collections::lemma_lru_popped(s.hosts, gone);
        lemma_kinds_popped(s.hosts, gone);
    }
    assert(tables_ok(t));
    assert forall|other: IpAddr| other != ip implies ((#[trigger] t.host_of(other)) matches Some(
        h,
    ) ==> t.addr_of(h, is_v6(other)) == Some(other)) by {
        if let Some(h) = t.host_of(other) {
            lemma_ip_slot(other);
            assert(ip_slot(other) != ip_slot(ip)) by {
                lemma_ip_slot(ip);
            }
            if let Some((k, gone)) = evicted {
                if gone != ip_slot(ip) {
                    assert(ip_slot(other) != gone);
                }
            }
            assert(s.host_of(other) == t.host_of(other));
            let hk = text_slot(host_key(h, is_v6(other)));
            assert(s.addr_of(h, is_v6(other)) == Some(other));
            lemma_get_is_entry(s.addrs, hk);
            assert(collections::lru_get(s.addrs, hk) == Some(ip_slot(other)));
            if let Some((k, gone)) = evicted {
                if k == hk {
                    assert(gone == ip_slot(other));
                }
            }
            assert(hk != key) by {
                if hk == key {
                    assert(evicted == Some((key, ip_slot(other))));
                }
            }
        }
    }
    if let Some(h) = t.host_of(ip) {
        if h != host {
            let hk = text_slot(host_key(h, is_v6(ip)));
            if hk == key {
                lemma_host_key_injective(h, is_v6(ip), host, is_v6(ip));
            }
        }
    }
}

/// Setting an address's host: the tables stay in order, the pairing of every other address
/// holds, and the address has the host.
proof fn lemma_with_host(s: StoreState, ip: IpAddr, host: Seq<char>)
    requires
        tables_ok(s),
        forall|other: IpAddr|
            other != ip ==> ((#[trigger] s.host_of(other)) matches Some(h) ==> s.addr_of(
                h,
                is_v6(other),
            ) == Some(other)),
    ensures
        ({
            let t = s.with_host(ip, host);
            &&& tables_ok(t)
            &&& t.host_of(ip) == Some(host)
            &&& forall|other: IpAddr|
                other != ip ==> ((#[trigger] t.host_of(other)) matches Some(h) ==> t.addr_of(
                    h,
                    is_v6(other),
                ) == Some(other))
            &&& s.addr_of(host, is_v6(ip)) == Some(ip) ==> t.addr_of(host, is_v6(ip)) == Some(ip)
        }),
{
    let t = s.with_host(ip, host);
    let slot = ip_slot(ip);
    collections::lemma_lru_pushed(s.hosts, s.limit, slot, text_slot(host));
    lemma_kinds_kept(s.hosts, t.hosts, slot, text_slot(host));
    lemma_ip_slot(ip);
    let evicted = collections::lru_evicted(s.hosts, s.limit, slot);
    if let Some((gone, gone_host)) = evicted {
        lemma_get_is_entry(s.hosts, gone);
        let gone_key = text_slot(host_key(gone_host.2, is_v6(slot_ip(gone))));
        collections::lemma_lru_popped(s.addrs, gone_key);
        lemma_kinds_popped(s.addrs, gone_key);
        assert(gone != slot ==> slot_ip(gone) != ip);
        assert(s.host_of(slot_ip(gone)) == Some(gone_host.2));
    }
    assert(tables_ok(t));
    assert forall|other: IpAddr| other != ip implies ((#[trigger] t.host_of(other)) matches Some(
        h,
    ) ==> t.addr_of(h, is_v6(other)) == Some(other)) by {
        if let Some(h) = t.host_of(other) {
            lemma_ip_slot(other);
            assert(ip_slot(other) != slot);
            if let Some((gone, _)) = evicted {
                assert(ip_slot(other) != gone);
            }
            assert(s.host_of(other) == Some(h));
            if let Some((gone, gone_host)) = evicted {
                if gone != slot {
                    let gone_ip = slot_ip(gone);
                    assert(s.addr_of(gone_host.2, is_v6(gone_ip)) == Some(gone_ip));
                    if text_slot(host_key(h, is_v6(other))) == text_slot(
                        host_key(gone_host.2, is_v6(gone_ip)),
                    ) {
                        assert(host_key(h, is_v6(other)) == host_key(gone_host.2, is_v6(gone_ip)));
                        lemma_host_key_injective(h, is_v6(other), gone_host.2, is_v6(gone_ip));
                        assert(other == gone_ip);
                    }
                }
            }
        }
    }
    if s.addr_of(host, is_v6(ip)) == Some(ip) {
        if let Some((gone, gone_host)) = evicted {
            if gone != slot {
                let gone_ip = slot_ip(gone);
                assert(s.addr_of(gone_host.2, is_v6(gone_ip)) == Some(gone_ip));
                if text_slot(host_key(host, is_v6(ip))) == text_slot(
                    host_key(gone_host.2, is_v6(gone_ip)),
                ) {
                    assert(host_key(host, is_v6(ip)) == host_key(gone_host.2, is_v6(gone_ip)));
                    lemma_host_key_injective(host, is_v6(ip), gone_host.2, is_v6(gone_ip));
                    assert(gone_ip == ip);
                }
            }
        }
    }
}

/// Once a host is given an address, each is found by the other, in a store in order, and the
/// store stays in order.
pub proof fn law_put_host_pairs(s: StoreState, host: Seq<char>, ip: IpAddr)
    requires
        s.ok(),
    ensures
        s.put_host(host, ip).ok(),
        s.put_host(host, ip).addr_of(host, is_v6(ip)) == Some(ip),
        s.put_host(host, ip).host_of(ip) == Some(host),
{
    assert(s.host_of(ip) matches Some(h) ==> s.addr_of(h, is_v6(ip)) == Some(ip));
    lemma_with_addr(s, host, ip);
    lemma_with_host(s.with_addr(host, ip), ip, host);
}

/// Once an address is given a host, each is found by the other, in a store in order, and the
/// store stays in order.
pub proof fn law_put_ip_pairs(s: StoreState, ip: IpAddr, host: Seq<char>)
    requires
        s.ok(),
    ensures
        s.put_ip(ip, host).ok(),
        s.put_ip(ip, host).addr_of(host, is_v6(ip)) == Some(ip),
        s.put_ip(ip, host).host_of(ip) == Some(host),
{
    lemma_with_host(s, ip, host);
    lemma_with_addr(s.with_host(ip, host), host, ip);
}

/// Once an address is taken out it has no host and its host has it no more, and the store stays
/// in order.
pub proof fn law_without_forgets(s: StoreState, ip: IpAddr)
    requires
        s.ok(),
    ensures
        s.without(ip).ok(),
        s.without(ip).host_of(ip) is None,
        s.host_of(ip) matches Some(h) ==> s.without(ip).addr_of(h, is_v6(ip)) is None,
{
    if let Some(h) = s.host_of(ip) {
        let t = s.without(ip);
        let key = text_slot(host_key(h, is_v6(ip)));
        lemma_ip_slot(ip);
        collections::lemma_lru_popped(s.hosts, ip_slot(ip));
        collections::lemma_lru_popped(s.addrs, key);
        lemma_kinds_popped(s.hosts, ip_slot(ip));
        lemma_kinds_popped(s.addrs, key);
        assert forall|other: IpAddr| (#[trigger] t.host_of(other)) matches Some(g) ==> t.addr_of(
            g,
            is_v6(other),
        ) == Some(other) by {
            if let Some(g) = t.host_of(other) {
                lemma_ip_slot(other);
                assert(other != ip);
                assert(ip_slot(other) != ip_slot(ip));
                assert(s.host_of(other) == Some(g));
                if text_slot(host_key(g, is_v6(other))) == key {
                    assert(host_key(g, is_v6(other)) == host_key(h, is_v6(ip)));
                    lemma_host_key_injective(g, is_v6(other), h, is_v6(ip));
                    assert(s.addr_of(h, is_v6(ip)) == Some(ip));
                    assert(false);
                }
            }
        }
    }
}

/// The slot of an address.
fn make_ip_slot(ip: IpAddr) -> (res: Slot)
    ensures
        collections::slot_view(res) == ip_slot(ip),
{
    let none: String = String::new();
    assert(none@ =~= Seq::empty());
    match ip {
        IpAddr::V4(a) => (4, a as u128, none),
        IpAddr::V6(a) => (6, a, none),
    }
}

/// The slot of a text.
fn make_text_slot(s: String) -> (res: Slot)
    ensures
        collections::slot_view(res) == text_slot(s@),
{
    (0, 0, s)
}

/// The address in a slot.
fn read_ip_slot(slot: &Slot) -> (res: IpAddr)
    requires
        is_ip_slot(collections::slot_view(*slot)),
    ensures
        res == slot_ip(collections::slot_view(*slot)),
{
    if slot.0 == 4 {
        IpAddr::V4(slot.1 as u32)
    } else {
        IpAddr::V6(slot.1)
    }
}

/// Whether the address is of version 6.
pub fn check_v6(ip: &IpAddr) -> (res: bool)
    ensures
        res == is_v6(*ip),
{
    match ip {
        IpAddr::V4(_) => false,
        IpAddr::V6(_) => true,
    }
}

/// A host has one key for each address version.
pub fn make_host_key(host: &str, v6: bool) -> (res: String)
    ensures
        res@ == host_key(host@, v6),
{
    if v6 {
        text::concat(host, "#v6")
    } else {
        text::concat(host, "#v4")
    }
}

/// A fake-IP store in memory.
pub struct InMemStore {
    itoh: SlotCache,
    htoi: SlotCache,
}

impl InMemStore {
    /// A store of at most `size` entries; one of no entries gets a thousand.
    pub fn new(size: usize) -> (res: InMemStore)
        ensures
            res.state() == StoreState::empty(
                if size == 0 {
                    1000
                } else {
                    size as nat
                },
            ),
            res.wf(),
            res.offset_v4() == 0,
            res.offset_v6() == 0,
    {
        let limit: usize = if size == 0 {
            1000
        } else {
            size
        };
        InMemStore { itoh: lru_new(limit), htoi: lru_new(limit) }
    }

    fn set_addr(&mut self, host: &str, ip: IpAddr)
        requires
            tables_ok(old(self).state()),
            collections::lru_limit(old(self).htoi) == collections::lru_limit(old(self).itoh),
        ensures
            final(self).state() == old(self).state().with_addr(host@, ip),
            collections::lru_limit(final(self).htoi) == collections::lru_limit(final(self).itoh),
    {
        let ghost before = self.state();
        let key: String = make_host_key(host, check_v6(&ip));
        let ghost slot = text_slot(key@);
        proof {
            if let Some((k, gone)) = collections::lru_evicted(before.addrs, before.limit, slot) {
                collections::lemma_lru_pushed(before.addrs, before.limit, slot, ip_slot(ip));
                lemma_get_is_entry(before.addrs, k);
            }
        }
        let evicted: Option<(Slot, Slot)> = lru_push(
            &mut self.htoi,
            make_text_slot(key),
            make_ip_slot(ip),
        );
        if let Some((_, gone)) = evicted {
            let gone_ip: IpAddr = read_ip_slot(&gone);
            proof {
                lemma_ip_slot(ip);
            }
            if gone_ip != ip {
                lru_pop(&mut self.itoh, &make_ip_slot(gone_ip));
            }
        }
    }

    fn set_host(&mut self, ip: IpAddr, host: &str)
        requires
            tables_ok(old(self).state()),
            collections::lru_limit(old(self).htoi) == collections::lru_limit(old(self).itoh),
        ensures
            final(self).state() == old(self).state().with_host(ip, host@),
            collections::lru_limit(final(self).htoi) == collections::lru_limit(final(self).itoh),
    {
        let ghost before = self.state();
        proof {
            let slot = ip_slot(ip);
            if let Some((k, _)) = collections::lru_evicted(before.hosts, before.limit, slot) {
                collections::lemma_lru_pushed(before.hosts, before.limit, slot, text_slot(host@));
                lemma_get_is_entry(before.hosts, k);
            }
        }
        let evicted: Option<(Slot, Slot)> = lru_push(
            &mut self.itoh,
            make_ip_slot(ip),
            make_text_slot(host.to_owned()),
        );
        if let Some((gone, gone_host)) = evicted {
            let gone_ip: IpAddr = read_ip_slot(&gone);
            proof {
                lemma_ip_slot(ip);
            }
            if gone_ip != ip {
                let key: String = make_host_key(gone_host.2.as_str(), check_v6(&gone_ip));
                lru_pop(&mut self.htoi, &make_text_slot(key));
            }
        }
    }
}

impl Store for InMemStore {
    closed spec fn state(&self) -> StoreState {
        StoreState {
            hosts: collections::lru_entries(self.itoh),
            addrs: collections::lru_entries(self.htoi),
            limit: collections::lru_limit(self.itoh),
        }
    }

    closed spec fn wf(&self) -> bool {
        &&& self.state().ok()
        &&& collections::lru_limit(self.htoi) == collections::lru_limit(self.itoh)
    }

    closed spec fn offset_v4(&self) -> u32 {
        0
    }

    closed spec fn offset_v6(&self) -> u128 {
        0
    }

    proof fn lemma_wf(&self) {
    }

    fn get_by_host(&self, host: &str) -> (res: Option<IpAddr>) {
        let key: Slot = make_text_slot(make_host_key(host, false));
        match lru_peek(&self.htoi, &key) {
            Some(slot) => {
                proof {
                    lemma_get_is_entry(self.state().addrs, collections::slot_view(key));
                }
                Some(read_ip_slot(&slot))
            },
            None => None,
        }
    }

    fn get_v6_by_host(&self, host: &str) -> (res: Option<IpAddr>) {
        let key: Slot = make_text_slot(make_host_key(host, true));
        match lru_peek(&self.htoi, &key) {
            Some(slot) => {
                proof {
                    lemma_get_is_entry(self.state().addrs, collections::slot_view(key));
                }
                Some(read_ip_slot(&slot))
            },
            None => None,
        }
    }

    fn put_by_host(&mut self, host: &str, ip: IpAddr) {
        proof {
            law_put_host_pairs(self.state(), host@, ip);
            lemma_with_addr(self.state(), host@, ip);
        }
        self.set_addr(host, ip);
        self.set_host(ip, host);
    }

    fn get_by_ip(&self, ip: IpAddr) -> (res: Option<String>) {
        match lru_peek(&self.itoh, &make_ip_slot(ip)) {
            Some(slot) => Some(slot.2),
            None => None,
        }
    }

    fn put_by_ip(&mut self, ip: IpAddr, host: &str) {
        proof {
            law_put_ip_pairs(self.state(), ip, host@);
            lemma_with_host(self.state(), ip, host@);
        }
        self.set_host(ip, host);
        self.set_addr(host, ip);
    }

    fn del_by_ip(&mut self, ip: IpAddr) {
        proof {
            law_without_forgets(self.state(), ip);
        }
        if let Some(host) = lru_pop(&mut self.itoh, &make_ip_slot(ip)) {
            let key: String = make_host_key(host.2.as_str(), check_v6(&ip));
            lru_pop(&mut self.htoi, &make_text_slot(key));
        } else {
            assert(collections::lru_popped(old(self).state().hosts, ip_slot(ip)) == old(self).state().hosts);
        }
    }

    fn exist(&self, ip: IpAddr) -> (res: bool) {
        lru_peek(&self.itoh, &make_ip_slot(ip)).is_some()
    }

    fn initial_offset_v4(&self) -> (res: u32) {
        0
    }

    fn initial_offset_v6(&self) -> (res: u128) {
        0
    }
}

/// A host that has no address does not get one when another host does.
pub proof fn law_put_ip_gives_no_other(s: StoreState, ip: IpAddr, host: Seq<char>, h: Seq<char>)
    requires
        s.ok(),
        h != host,
        s.addr_of(h, is_v6(ip)) is None,
    ensures
        s.put_ip(ip, host).addr_of(h, is_v6(ip)) is None,
{
    let v6 = is_v6(ip);
    let own = text_slot(host_key(host, v6));
    let key = text_slot(host_key(h, v6));
    if own == key {
        assert(host_key(host, v6) == host_key(h, v6));
        lemma_host_key_injective(host, v6, h, v6);
    }
    let mid = s.with_host(ip, host);
    lemma_with_host(s, ip, host);
    match collections::lru_evicted(s.hosts, s.limit, ip_slot(ip)) {
        Some((gone, gone_host)) => {
            let gone_key = text_slot(host_key(gone_host.2, is_v6(slot_ip(gone))));
            collections::lemma_lru_popped(s.addrs, gone_key);
        },
        None => {},
    }
    assert(mid.addr_of(h, v6) is None);
    collections::lemma_lru_pushed(mid.addrs, mid.limit, own, ip_slot(ip));
}

} // verus!
