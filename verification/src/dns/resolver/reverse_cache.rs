//! Which domain an address was given for.
use vstd::prelude::*;

use crate::collections;
use crate::collections::{
    timed_get, timed_insert, timed_invalidate, timed_new, StoreView, TimedEntry, TimedKey,
    TimedMap, TimedStore,
};
use crate::dns::resolver::cache;
use crate::ip::IpAddr;
use crate::text;

verus! {

/// What is known of an address. Times are in milliseconds.
#[derive(Debug)]
pub enum ReverseEntry {
    /// One domain has the address.
    Unique { domain: String, expires_at: u64 },
    /// Several domains share the address, so that none can be told from it.
    Ambiguous { expires_at: u64 },
}

/// What is known of an address.
pub enum ReverseView {
    Unique { domain: Seq<char>, expires_at: u64 },
    Ambiguous { expires_at: u64 },
}

impl View for ReverseEntry {
    type V = ReverseView;

    open spec fn view(&self) -> ReverseView {
        match self {
            ReverseEntry::Unique { domain, expires_at } => ReverseView::Unique {
                domain: domain@,
                expires_at: *expires_at,
            },
            ReverseEntry::Ambiguous { expires_at } => ReverseView::Ambiguous {
                expires_at: *expires_at,
            },
        }
    }
}

impl ReverseView {
    /// When the entry expires.
    pub open spec fn expiry(&self) -> u64 {
        match self {
            ReverseView::Unique { expires_at, .. } => *expires_at,
            ReverseView::Ambiguous { expires_at } => *expires_at,
        }
    }

    /// The one domain that has the address, unless the entry has expired.
    pub open spec fn name(&self, now: u64) -> Option<Seq<char>> {
        match self {
            ReverseView::Unique { domain, expires_at } if now < *expires_at => Some(*domain),
            _ => None,
        }
    }
}

impl ReverseEntry {
    /// Whether the entry has not expired.
    pub fn is_fresh(&self, now: u64) -> (res: bool)
        ensures
            res == (now < self@.expiry()),
    {
        match self {
            ReverseEntry::Unique { expires_at, .. } => now < *expires_at,
            ReverseEntry::Ambiguous { expires_at } => now < *expires_at,
        }
    }

    /// When the entry expires.
    pub fn expires_at(&self) -> (res: u64)
        ensures
            res == self@.expiry(),
    {
        match self {
            ReverseEntry::Unique { expires_at, .. } => *expires_at,
            ReverseEntry::Ambiguous { expires_at } => *expires_at,
        }
    }

    /// The one domain that has the address, unless the entry has expired.
    pub fn domain(&self, now: u64) -> (res: Option<&str>)
        ensures
            match (res, self@.name(now)) {
                (Some(s), Some(name)) => s@ == name,
                (None, None) => true,
                _ => false,
            },
    {
        match self {
            ReverseEntry::Unique { domain, expires_at } => if now < *expires_at {
                Some(domain.as_str())
            } else {
                None
            },
            ReverseEntry::Ambiguous { .. } => None,
        }
    }
}

/// What is known of an address once it was given for `host`, too. The same domain, in whatever
/// case, keeps its first spelling; another domain makes the address ambiguous, and an ambiguous
/// one stays so.
pub open spec fn merged(old: Option<ReverseView>, host: Seq<char>, expires_at: u64, now: u64) -> ReverseView {
    match old {
        Some(entry) if now < entry.expiry() => match entry {
            ReverseView::Unique { domain, .. } => if text::ascii_lowered(domain)
                == text::ascii_lowered(host) {
                ReverseView::Unique { domain, expires_at }
            } else {
                ReverseView::Ambiguous { expires_at }
            },
            ReverseView::Ambiguous { expires_at: before } => ReverseView::Ambiguous {
                expires_at: if before > expires_at {
                    before
                } else {
                    expires_at
                },
            },
        },
        _ => ReverseView::Unique { domain: host, expires_at },
    }
}

/// What is known of an address once it was given for `host`, too.
pub fn merge(old: Option<ReverseEntry>, host: &str, expires_at: u64, now: u64) -> (res: ReverseEntry)
    ensures
        res@ == merged(
            match old {
                Some(e) => Some(e@),
                None => None,
            },
            host@,
            expires_at,
            now,
        ),
{
    match old {
        Some(entry) => {
            if !entry.is_fresh(now) {
                return ReverseEntry::Unique { domain: host.to_owned(), expires_at };
            }
            match entry {
                ReverseEntry::Unique { domain, expires_at: _ } => {
                    let a: Vec<char> = text::ascii_lowercase(&text::chars(domain.as_str()));
                    let b: Vec<char> = text::ascii_lowercase(&text::chars(host));
                    if text::same_chars(&a, &b) {
                        ReverseEntry::Unique { domain, expires_at }
                    } else {
                        ReverseEntry::Ambiguous { expires_at }
                    }
                },
                ReverseEntry::Ambiguous { expires_at: before } => ReverseEntry::Ambiguous {
                    expires_at: if before > expires_at {
                        before
                    } else {
                        expires_at
                    },
                },
            }
        },
        None => ReverseEntry::Unique { domain: host.to_owned(), expires_at },
    }
}

/// The key of an address.
pub open spec fn addr_key(addr: IpAddr) -> (Seq<char>, Seq<char>, u128) {
    match addr {
        IpAddr::V4(a) => ("v4"@, ""@, a as u128),
        IpAddr::V6(a) => ("v6"@, ""@, a),
    }
}

fn make_key(addr: &IpAddr) -> (res: TimedKey)
    ensures
        collections::timed_key(res) == addr_key(*addr),
{
    match addr {
        IpAddr::V4(a) => ("v4".to_owned(), "".to_owned(), *a as u128),
        IpAddr::V6(a) => ("v6".to_owned(), "".to_owned(), *a),
    }
}

/// An entry as it is kept: its domain, its expiry, and 1 for an ambiguous one.
pub open spec fn kept(entry: ReverseView) -> (Seq<char>, Seq<u8>, u64, u64) {
    match entry {
        ReverseView::Unique { domain, expires_at } => (domain, Seq::empty(), expires_at, 0),
        ReverseView::Ambiguous { expires_at } => (""@, Seq::empty(), expires_at, 1),
    }
}

/// What a kept entry says.
pub open spec fn unkept(e: (Seq<char>, Seq<u8>, u64, u64)) -> ReverseView {
    if e.3 == 0 {
        ReverseView::Unique { domain: e.0, expires_at: e.2 }
    } else {
        ReverseView::Ambiguous { expires_at: e.2 }
    }
}

/// What the entries say of an address.
pub open spec fn entry_in(entries: TimedMap, addr: IpAddr) -> Option<ReverseView> {
    if entries.contains_key(addr_key(addr)) {
        Some(unkept(entries[addr_key(addr)]))
    } else {
        None
    }
}

/// What is known of addresses.
pub struct ReverseLookupCache {
    store: TimedStore,
}

impl View for ReverseLookupCache {
    type V = StoreView;

    closed spec fn view(&self) -> StoreView {
        collections::timed_view(self.store)
    }
}

/// What is known once an address was given for `host`, for `ttl_secs` seconds, one at least.
pub open spec fn told(
    before: StoreView,
    addr: IpAddr,
    host: Seq<char>,
    ttl_secs: u32,
    now: u64,
    after: StoreView,
) -> bool {
    let expires_at = (now + cache::at_least_one(ttl_secs) * 1000) as u64;
    before.put_in(
        addr_key(addr),
        kept(merged(entry_in(before.entries, addr), host, expires_at, now)),
        after,
    )
}

impl ReverseLookupCache {
    /// What is known of an address.
    pub open spec fn entry(&self, addr: IpAddr) -> Option<ReverseView> {
        entry_in(self@.entries, addr)
    }

    /// The one domain that an address was given for.
    pub open spec fn tells(&self, addr: IpAddr, now: u64) -> Option<Seq<char>> {
        match self.entry(addr) {
            Some(e) => e.name(now),
            None => None,
        }
    }

    /// What is left after a look at an address: everything, or everything but what is known of the
    /// address, where that has expired.
    pub open spec fn left_after_look(&self, after: ReverseLookupCache, addr: IpAddr, now: u64) -> bool {
        self@.left_with(
            match self.entry(addr) {
                Some(e) if now >= e.expiry() => self@.entries.remove(addr_key(addr)),
                _ => self@.entries,
            },
            after@,
        )
    }

    /// A cache of `capacity` addresses.
    pub fn new(capacity: usize) -> (res: ReverseLookupCache)
        ensures
            res@ == collections::empty_store(capacity as nat),
    {
        ReverseLookupCache { store: timed_new(capacity as u64) }
    }

    fn get(&mut self, addr: &IpAddr) -> (res: Option<ReverseEntry>)
        ensures
            match (res, old(self).entry(*addr)) {
                (Some(e), Some(known)) => e@ == known,
                (None, None) => true,
                _ => false,
            },
            old(self)@.left_with(old(self)@.entries, final(self)@),
    {
        let key: TimedKey = make_key(addr);
        match timed_get(&mut self.store, &key) {
            Some(found) => {
                let e: ReverseEntry = if found.3 == 0 {
                    ReverseEntry::Unique { domain: found.0, expires_at: found.2 }
                } else {
                    ReverseEntry::Ambiguous { expires_at: found.2 }
                };
                Some(e)
            },
            None => None,
        }
    }

    fn put(&mut self, addr: &IpAddr, entry: ReverseEntry)
        ensures
            old(self)@.put_in(addr_key(*addr), kept(entry@), final(self)@),
    {
        let key: TimedKey = make_key(addr);
        let value: TimedEntry = match entry {
            ReverseEntry::Unique { domain, expires_at } => (domain, Vec::new(), expires_at, 0),
            ReverseEntry::Ambiguous { expires_at } => ("".to_owned(), Vec::new(), expires_at, 1),
        };
        assert(value.1@ =~= Seq::empty());
        timed_insert(&mut self.store, key, value);
    }

    /// Learns that an address was given for a domain, for `ttl_secs` seconds, one at least. What is
    /// known of it counts.
    pub fn insert(&mut self, addr: IpAddr, host: &str, ttl_secs: u32, now: u64)
        requires
            now + cache::at_least_one(ttl_secs) * 1000 <= u64::MAX,
        ensures
            told(old(self)@, addr, host@, ttl_secs, now, final(self)@),
    {
        let secs: u64 = if ttl_secs >= 1 {
            ttl_secs as u64
        } else {
            1
        };
        let expires_at: u64 = now + secs * 1000;
        let existing: Option<ReverseEntry> = self.get(&addr);
        let ghost looked = self@;
        let entry: ReverseEntry = merge(existing, host, expires_at, now);
        let ghost view = entry@;
        self.put(&addr, entry);
        proof {
            collections::lemma_look_then_put(
                old(self)@,
                looked,
                self@,
                addr_key(addr),
                kept(view),
            );
        }
    }

    /// The one domain that an address was given for. An address that several domains share has
    /// none; what has expired is taken out.
    pub fn lookup(&mut self, addr: &IpAddr, now: u64) -> (res: Option<String>)
        ensures
            text::opt_view(res) == old(self).tells(*addr, now),
            old(self).left_after_look(*final(self), *addr, now),
    {
        let entry: ReverseEntry = match self.get(addr) {
            Some(entry) => entry,
            None => return None,
        };
        match entry.domain(now) {
            Some(name) => return Some(name.to_owned()),
            None => {},
        }
        if !entry.is_fresh(now) {
            let key: TimedKey = make_key(addr);
            let ghost looked = self@;
            timed_invalidate(&mut self.store, &key);
            proof {
                collections::lemma_look_then_remove(old(self)@, looked, self@, addr_key(*addr));
            }
        }
        None
    }
}

/// An address that was given for a domain alone tells the domain for as long as the time to live,
/// as long as there is room.
pub proof fn law_told_is_found(
    before: ReverseLookupCache,
    after: ReverseLookupCache,
    addr: IpAddr,
    host: Seq<char>,
    ttl_secs: u32,
    put: u64,
    now: u64,
)
    requires
        put + cache::at_least_one(ttl_secs) * 1000 <= u64::MAX,
        told(before@, addr, host, ttl_secs, put, after@),
        after@.roomy,
        before.entry(addr) is None,
    ensures
        after.tells(addr, now) == if now < put + cache::at_least_one(ttl_secs) * 1000 {
            Some(host)
        } else {
            None
        },
{
}

/// What is kept is what is read.
pub proof fn law_kept_read_back(entry: ReverseView)
    ensures
        unkept(kept(entry)) == entry,
{
}

/// An address that was given for two different domains tells neither, as long as either lasts.
pub proof fn law_shared_address_tells_none(
    a: Seq<char>,
    b: Seq<char>,
    first: u64,
    second: u64,
    now: u64,
    later: u64,
)
    requires
        text::ascii_lowered(a) != text::ascii_lowered(b),
        now < first,
    ensures
        merged(Some(merged(None, a, first, 0)), b, second, now).name(later) is None,
{
}

/// An address that several domains share, and that has not expired, stays so whatever is learnt of
/// it next, for no shorter time.
pub proof fn law_ambiguous_stays(e: ReverseView, host: Seq<char>, expires_at: u64, now: u64)
    requires
        e is Ambiguous,
        now < e.expiry(),
    ensures
        merged(Some(e), host, expires_at, now) is Ambiguous,
        merged(Some(e), host, expires_at, now).expiry() >= e.expiry(),
        merged(Some(e), host, expires_at, now).expiry() >= expires_at,
{
}

/// In a cache that has room, an address that several domains share stays so until it expires,
/// whatever is learnt of it or of another address, and never for a shorter time.
pub proof fn law_shared_through_insert(
    before: ReverseLookupCache,
    after: ReverseLookupCache,
    addr: IpAddr,
    learnt: IpAddr,
    host: Seq<char>,
    ttl_secs: u32,
    now: u64,
)
    requires
        now + cache::at_least_one(ttl_secs) * 1000 <= u64::MAX,
        told(before@, learnt, host, ttl_secs, now, after@),
        after@.roomy,
        before.entry(addr) is Some,
        before.entry(addr)->0 is Ambiguous,
        now < before.entry(addr)->0.expiry(),
    ensures
        after.entry(addr) is Some,
        after.entry(addr)->0 is Ambiguous,
        after.entry(addr)->0.expiry() >= before.entry(addr)->0.expiry(),
        forall|later: u64| #[trigger] after.tells(addr, later) is None,
{
    if addr_key(addr) == addr_key(learnt) {
        let expires_at = (now + cache::at_least_one(ttl_secs) * 1000) as u64;
        law_ambiguous_stays(before.entry(addr)->0, host, expires_at, now);
        law_kept_read_back(merged(before.entry(addr), host, expires_at, now));
    }
}

/// In a cache that has room, a look at any address leaves an address that several domains share,
/// and that has not expired, as it is.
pub proof fn law_shared_through_look(
    before: ReverseLookupCache,
    after: ReverseLookupCache,
    addr: IpAddr,
    looked: IpAddr,
    now: u64,
)
    requires
        before.left_after_look(after, looked, now),
        before@.roomy,
        before.entry(addr) is Some,
        before.entry(addr)->0 is Ambiguous,
        now < before.entry(addr)->0.expiry(),
    ensures
        after.entry(addr) == before.entry(addr),
{
    if addr_key(addr) == addr_key(looked) {
        assert(before.entry(looked) == before.entry(addr));
    }
}

/// An address that is learnt for a domain, then for another one before the first has expired, and
/// then for any domain before the second has, tells none after the second and after the third, and
/// the third does not shorten the time for which that is so. The cache may have known anything of
/// the address before, and has to have room.
pub proof fn law_conflict_lasts(
    start: ReverseLookupCache,
    one: ReverseLookupCache,
    two: ReverseLookupCache,
    three: ReverseLookupCache,
    addr: IpAddr,
    hosts: (Seq<char>, Seq<char>, Seq<char>),
    ttls: (u32, u32, u32),
    times: (u64, u64, u64),
)
    requires
        times.0 + cache::at_least_one(ttls.0) * 1000 <= u64::MAX,
        times.1 + cache::at_least_one(ttls.1) * 1000 <= u64::MAX,
        times.2 + cache::at_least_one(ttls.2) * 1000 <= u64::MAX,
        told(start@, addr, hosts.0, ttls.0, times.0, one@),
        told(one@, addr, hosts.1, ttls.1, times.1, two@),
        told(two@, addr, hosts.2, ttls.2, times.2, three@),
        three@.roomy,
        text::ascii_lowered(hosts.0) != text::ascii_lowered(hosts.1),
        times.1 < times.0 + cache::at_least_one(ttls.0) * 1000,
        times.2 < times.1 + cache::at_least_one(ttls.1) * 1000,
    ensures
        forall|later: u64| #[trigger] two.tells(addr, later) is None,
        forall|later: u64| #[trigger] three.tells(addr, later) is None,
        two.entry(addr) is Some && two.entry(addr)->0 is Ambiguous,
        three.entry(addr) is Some && three.entry(addr)->0 is Ambiguous,
        three.entry(addr)->0.expiry() >= two.entry(addr)->0.expiry(),
        two.entry(addr)->0.expiry() >= times.1 + cache::at_least_one(ttls.1) * 1000,
{
    let first = (times.0 + cache::at_least_one(ttls.0) * 1000) as u64;
    let second = (times.1 + cache::at_least_one(ttls.1) * 1000) as u64;
    let a = merged(start.entry(addr), hosts.0, first, times.0);
    law_kept_read_back(a);
    assert(one.entry(addr) == Some(a));
    assert(times.1 < a.expiry());
    law_kept_read_back(merged(Some(a), hosts.1, second, times.1));
    assert(two.entry(addr) == Some(merged(Some(a), hosts.1, second, times.1)));
    law_shared_through_insert(two, three, addr, addr, hosts.2, ttls.2, times.2);
}

/// Learning the same domain again, in whatever case, keeps the first spelling.
pub proof fn law_same_domain_refreshes(
    a: Seq<char>,
    b: Seq<char>,
    first: u64,
    second: u64,
    now: u64,
    later: u64,
)
    requires
        text::ascii_lowered(a) == text::ascii_lowered(b),
        now < first,
        later < second,
    ensures
        merged(Some(merged(None, a, first, 0)), b, second, now).name(later) == Some(a),
{
}

/// What has expired is gone once it is looked at, from the very moment at which it expires; what has
/// not is told, and stays where there is room.
pub proof fn law_expired_leaves(
    before: ReverseLookupCache,
    after: ReverseLookupCache,
    addr: IpAddr,
    now: u64,
)
    requires
        before.left_after_look(after, addr, now),
        before.entry(addr) is Some,
    ensures
        before.entry(addr)->0.expiry() <= now ==> after.entry(addr) is None && before.tells(
            addr,
            now,
        ) is None,
        now < before.entry(addr)->0.expiry() && before@.roomy ==> after.entry(addr)
            == before.entry(addr),
{
    let key = addr_key(addr);
    if before.entry(addr)->0.expiry() <= now && after@.entries.contains_key(key) {
        let left = before@.entries.remove(key);
        assert(after@.entries.submap_of(left));
        assert(left.contains_key(key));
    }
}

} // verus!
