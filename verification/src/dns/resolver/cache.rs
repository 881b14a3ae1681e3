//! Cached answers, which are served for some time after they have expired.
use vstd::prelude::*;

use crate::collections;
use crate::collections::{
    timed_get, timed_insert, timed_invalidate, timed_new, StoreView, TimedEntry, TimedKey,
    TimedStore,
};
use crate::dns::query::{QType, QueryContext, QueryView};
use crate::dns::response::ResponseTemplate;

verus! {

/// The time to live, in seconds, that expired answers are served with.
pub const SERVE_STALE_WIRE_TTL: u32 = 30;

/// A cached answer. Times are in milliseconds.
#[derive(Debug)]
pub struct CachedEntry {
    pub template: ResponseTemplate,
    pub expires_at: u64,
    pub stale_until: u64,
}

/// A cached answer.
pub struct EntryView {
    pub wire: Seq<u8>,
    pub expires_at: u64,
    pub stale_until: u64,
}

impl View for CachedEntry {
    type V = EntryView;

    open spec fn view(&self) -> EntryView {
        EntryView {
            wire: self.template.wire@,
            expires_at: self.expires_at,
            stale_until: self.stale_until,
        }
    }
}

impl EntryView {
    /// The answer has not expired.
    pub open spec fn fresh(&self, now: u64) -> bool {
        now < self.expires_at
    }

    /// The answer has expired and can still be served.
    pub open spec fn stale_valid(&self, now: u64) -> bool {
        self.expires_at <= now < self.stale_until
    }

    /// How many whole seconds are left until the answer expires, in 32 bits.
    pub open spec fn remaining(&self, now: u64) -> u32 {
        if now <= self.expires_at {
            ((self.expires_at - now) / 1000) as u32
        } else {
            0
        }
    }
}

impl CachedEntry {
    /// Whether the answer has not expired.
    pub fn is_fresh(&self, now: u64) -> (res: bool)
        ensures
            res == self@.fresh(now),
    {
        now < self.expires_at
    }

    /// Whether the answer has expired and can still be served.
    pub fn is_stale_valid(&self, now: u64) -> (res: bool)
        ensures
            res == self@.stale_valid(now),
    {
        now >= self.expires_at && now < self.stale_until
    }

    /// How many whole seconds are left until the answer expires, in 32 bits.
    pub fn remaining_ttl_secs(&self, now: u64) -> (res: u32)
        ensures
            res == self@.remaining(now),
    {
        if now <= self.expires_at {
            #[verifier::truncate]
            (((self.expires_at - now) / 1000) as u32)
        } else {
            0
        }
    }
}

/// What a cache knows of a query.
#[derive(Debug)]
pub enum CacheLookup {
    /// An answer and the seconds it is good for.
    Hit(ResponseTemplate, u32),
    /// An answer that has expired and can still be served.
    Stale(ResponseTemplate),
    /// Nothing.
    Miss,
}

/// What a cache knows of a query.
pub enum LookupView {
    Hit(Seq<u8>, u32),
    Stale(Seq<u8>),
    Miss,
}

impl View for CacheLookup {
    type V = LookupView;

    open spec fn view(&self) -> LookupView {
        match self {
            CacheLookup::Hit(t, ttl) => LookupView::Hit(t.wire@, *ttl),
            CacheLookup::Stale(t) => LookupView::Stale(t.wire@),
            CacheLookup::Miss => LookupView::Miss,
        }
    }
}

/// What an entry says of a query: an answer that has not expired is good for a second at least.
pub open spec fn known(entry: EntryView, now: u64) -> LookupView {
    if entry.fresh(now) {
        LookupView::Hit(
            entry.wire,
            if entry.remaining(now) >= 1 {
                entry.remaining(now)
            } else {
                1
            },
        )
    } else if entry.stale_valid(now) {
        LookupView::Stale(entry.wire)
    } else {
        LookupView::Miss
    }
}

/// What an entry says of a query.
pub fn classify(entry: CachedEntry, now: u64) -> (res: CacheLookup)
    ensures
        res@ == known(entry@, now),
{
    if entry.is_fresh(now) {
        let left: u32 = entry.remaining_ttl_secs(now);
        CacheLookup::Hit(
            entry.template,
            if left >= 1 {
                left
            } else {
                1
            },
        )
    } else if entry.is_stale_valid(now) {
        CacheLookup::Stale(entry.template)
    } else {
        CacheLookup::Miss
    }
}

/// What answers are kept by: who gave the answer, and what was asked.
#[derive(Debug)]
pub struct DnsCacheKey {
    pub scope: String,
    pub domain: String,
    pub qtype: QType,
}

impl View for DnsCacheKey {
    type V = (Seq<char>, Seq<char>, u128);

    open spec fn view(&self) -> (Seq<char>, Seq<char>, u128) {
        (self.scope@, self.domain@, self.qtype.code_spec() as u128)
    }
}

/// The key of a query.
pub open spec fn key_of(scope: Seq<char>, q: QueryView) -> (Seq<char>, Seq<char>, u128) {
    (scope, q.domain, q.qtype.code_spec() as u128)
}

impl DnsCacheKey {
    /// The key of a query.
    pub fn new(scope: &str, query: &QueryContext) -> (res: DnsCacheKey)
        ensures
            res@ == key_of(scope@, query@),
    {
        DnsCacheKey { scope: scope.to_owned(), domain: query.domain.clone(), qtype: query.qtype }
    }

    fn timed(self) -> (res: TimedKey)
        ensures
            collections::timed_key(res) == self@,
    {
        let code: u16 = self.qtype.code();
        (self.scope, self.domain, code as u128)
    }
}

/// Answers that are kept.
pub struct DnsCache {
    store: TimedStore,
}

impl View for DnsCache {
    type V = StoreView;

    closed spec fn view(&self) -> StoreView {
        collections::timed_view(self.store)
    }
}

impl DnsCache {
    /// The answer that is kept for a query.
    pub open spec fn entry(&self, scope: Seq<char>, q: QueryView) -> Option<EntryView> {
        let key = key_of(scope, q);
        if self@.entries.contains_key(key) {
            let e = self@.entries[key];
            Some(EntryView { wire: e.1, expires_at: e.2, stale_until: e.3 })
        } else {
            None
        }
    }

    /// What the cache knows of a query.
    pub open spec fn finds(&self, scope: Seq<char>, q: QueryView, now: u64) -> LookupView {
        match self.entry(scope, q) {
            Some(e) => known(e, now),
            None => LookupView::Miss,
        }
    }

    /// What is left after a look at a query: everything, or everything but the answer to the query,
    /// where that is too old.
    pub open spec fn left_after_look(
        &self,
        after: DnsCache,
        scope: Seq<char>,
        q: QueryView,
        now: u64,
    ) -> bool {
        self@.left_with(
            if self.finds(scope, q, now) is Miss {
                self@.entries.remove(key_of(scope, q))
            } else {
                self@.entries
            },
            after@,
        )
    }

    /// A cache of `capacity` answers.
    pub fn new(capacity: usize) -> (res: DnsCache)
        ensures
            res@ == collections::empty_store(capacity as nat),
    {
        DnsCache { store: timed_new(capacity as u64) }
    }

    /// What the cache knows of a query. What is too old is not found, and is taken out.
    pub fn lookup_scoped(&mut self, scope: &str, query: &QueryContext, now: u64) -> (res: CacheLookup)
        ensures
            res@ == old(self).finds(scope@, query@, now),
            old(self).left_after_look(*final(self), scope@, query@, now),
    {
        let key: TimedKey = DnsCacheKey::new(scope, query).timed();
        let found: TimedEntry = match timed_get(&mut self.store, &key) {
            Some(found) => found,
            None => {
                assert(old(self)@.entries.remove(key_of(scope@, query@)) =~= old(self)@.entries);
                return CacheLookup::Miss;
            },
        };
        let entry = CachedEntry {
            template: ResponseTemplate { wire: found.1 },
            expires_at: found.2,
            stale_until: found.3,
        };
        assert(old(self).entry(scope@, query@) == Some(entry@));
        let res: CacheLookup = classify(entry, now);
        match res {
            CacheLookup::Miss => {
                let ghost looked = self@;
                timed_invalidate(&mut self.store, &key);
                proof {
                    collections::lemma_look_then_remove(
                        old(self)@,
                        looked,
                        self@,
                        key_of(scope@, query@),
                    );
                }
            },
            _ => {},
        }
        res
    }

    /// What the cache knows of a query, in the scope that has no name.
    pub fn lookup(&mut self, query: &QueryContext, now: u64) -> (res: CacheLookup)
        ensures
            res@ == old(self).finds(""@, query@, now),
            old(self).left_after_look(*final(self), ""@, query@, now),
    {
        self.lookup_scoped("", query, now)
    }

    /// Keeps an answer for `min_ttl` seconds, one at least, and `stale_retention` milliseconds
    /// longer for use after it has expired.
    pub fn insert_scoped(
        &mut self,
        scope: &str,
        query: &QueryContext,
        template: ResponseTemplate,
        min_ttl: u32,
        stale_retention: u64,
        now: u64,
    )
        requires
            now + at_least_one(min_ttl) * 1000 + stale_retention <= u64::MAX,
        ensures
            old(self)@.put_in(
                key_of(scope@, query@),
                stored(template.wire@, min_ttl, stale_retention, now),
                final(self)@,
            ),
    {
        let secs: u64 = if min_ttl >= 1 {
            min_ttl as u64
        } else {
            1
        };
        let expires_at: u64 = now + secs * 1000;
        let stale_until: u64 = expires_at + stale_retention;
        let key: TimedKey = DnsCacheKey::new(scope, query).timed();
        let entry: TimedEntry = ("".to_owned(), template.wire, expires_at, stale_until);
        timed_insert(&mut self.store, key, entry);
    }

    /// Keeps an answer, in the scope that has no name.
    pub fn insert(
        &mut self,
        query: &QueryContext,
        template: ResponseTemplate,
        min_ttl: u32,
        stale_retention: u64,
        now: u64,
    )
        requires
            now + at_least_one(min_ttl) * 1000 + stale_retention <= u64::MAX,
        ensures
            old(self)@.put_in(
                key_of(""@, query@),
                stored(template.wire@, min_ttl, stale_retention, now),
                final(self)@,
            ),
    {
        self.insert_scoped("", query, template, min_ttl, stale_retention, now)
    }
}

/// The number, one at least.
pub open spec fn at_least_one(n: u32) -> int {
    if n >= 1 {
        n as int
    } else {
        1
    }
}

/// An answer as it is kept.
pub open spec fn stored(wire: Seq<u8>, min_ttl: u32, stale_retention: u64, now: u64) -> (
    Seq<char>,
    Seq<u8>,
    u64,
    u64,
) {
    (
        ""@,
        wire,
        (now + at_least_one(min_ttl) * 1000) as u64,
        (now + at_least_one(min_ttl) * 1000 + stale_retention) as u64,
    )
}

/// An answer that is kept is served until it expires, then served as an expired one for the
/// retention, then not at all.
pub proof fn law_served_while_kept(wire: Seq<u8>, min_ttl: u32, retention: u64, put: u64, now: u64)
    requires
        put + at_least_one(min_ttl) * 1000 + retention <= u64::MAX,
        put <= now,
    ensures
        ({
            let e = stored(wire, min_ttl, retention, put);
            let entry = EntryView { wire: e.1, expires_at: e.2, stale_until: e.3 };
            let age = now - put;
            match known(entry, now) {
                LookupView::Hit(w, ttl) => age < at_least_one(min_ttl) * 1000 && w == wire && 1
                    <= ttl <= at_least_one(min_ttl),
                LookupView::Stale(w) => at_least_one(min_ttl) * 1000 <= age < at_least_one(min_ttl)
                    * 1000 + retention && w == wire,
                LookupView::Miss => age >= at_least_one(min_ttl) * 1000 + retention,
            }
        }),
{
}

/// An answer that is kept in one scope changes nothing in another, as long as there is room; where
/// there is none, answers may be lost and are never changed.
pub proof fn law_scopes_apart(
    before: DnsCache,
    after: DnsCache,
    a: Seq<char>,
    b: Seq<char>,
    q: QueryView,
    r: QueryView,
    kept: (Seq<char>, Seq<u8>, u64, u64),
)
    requires
        before@.put_in(key_of(a, q), kept, after@),
        a != b,
    ensures
        after.entry(b, r) is None || after.entry(b, r) == before.entry(b, r),
        after@.roomy ==> after.entry(b, r) == before.entry(b, r),
{
    if after@.entries.contains_key(key_of(b, r)) {
        assert(before@.entries.insert(key_of(a, q), kept).contains_key(key_of(b, r)));
    }
}

/// An answer that is kept is what a look at the same query finds, as long as there is room, and
/// looking does not change that.
pub proof fn law_kept_is_found(
    before: DnsCache,
    after: DnsCache,
    scope: Seq<char>,
    q: QueryView,
    wire: Seq<u8>,
    min_ttl: u32,
    retention: u64,
    put: u64,
    now: u64,
    looked: DnsCache,
)
    requires
        before@.room_for(key_of(scope, q), stored(wire, min_ttl, retention, put)),
        before@.put_in(key_of(scope, q), stored(wire, min_ttl, retention, put), after@),
        after.left_after_look(looked, scope, q, now),
    ensures
        ({
            let e = stored(wire, min_ttl, retention, put);
            after.finds(scope, q, now) == known(
                EntryView { wire: e.1, expires_at: e.2, stale_until: e.3 },
                now,
            )
        }),
        !(after.finds(scope, q, now) is Miss) ==> looked@ == after@,
{
}

/// Answers to one query that are kept in two scopes are both found, each in its own scope, and no
/// other scope has either, as long as there is room. Only the name and the type of a query count,
/// and the name in lower case at that: see `law_case_of_name_is_nothing`.
pub proof fn law_each_scope_finds_its_own(
    start: DnsCache,
    one: DnsCache,
    two: DnsCache,
    scopes: (Seq<char>, Seq<char>, Seq<char>),
    q: QueryView,
    r: QueryView,
    wires: (Seq<u8>, Seq<u8>),
    ttls: (u32, u32),
    retentions: (u64, u64),
    puts: (u64, u64),
    now: u64,
)
    requires
        puts.0 + at_least_one(ttls.0) * 1000 + retentions.0 <= u64::MAX,
        puts.1 + at_least_one(ttls.1) * 1000 + retentions.1 <= u64::MAX,
        start@.put_in(
            key_of(scopes.0, q),
            stored(wires.0, ttls.0, retentions.0, puts.0),
            one@,
        ),
        one@.put_in(key_of(scopes.1, q), stored(wires.1, ttls.1, retentions.1, puts.1), two@),
        two@.roomy,
        scopes.0 != scopes.1,
        scopes.2 != scopes.0,
        scopes.2 != scopes.1,
        r.domain == q.domain,
        r.qtype == q.qtype,
    ensures
        now < puts.0 + at_least_one(ttls.0) * 1000 ==> (two.finds(scopes.0, r, now) matches
            LookupView::Hit(wire, _) && wire == wires.0),
        now < puts.1 + at_least_one(ttls.1) * 1000 ==> (two.finds(scopes.1, r, now) matches
            LookupView::Hit(wire, _) && wire == wires.1),
        two.finds(scopes.2, r, now) == start.finds(scopes.2, r, now),
{
    let a = key_of(scopes.0, r);
    let b = key_of(scopes.1, r);
    assert(a == key_of(scopes.0, q) && b == key_of(scopes.1, q));
    assert(a != b);
}

/// A look at a query leaves the answers to all others, as long as there is room.
pub proof fn law_look_leaves_others(
    before: DnsCache,
    after: DnsCache,
    scope: Seq<char>,
    q: QueryView,
    other: Seq<char>,
    r: QueryView,
    now: u64,
)
    requires
        before.left_after_look(after, scope, q, now),
        before@.roomy,
        key_of(other, r) != key_of(scope, q),
    ensures
        after.entry(other, r) == before.entry(other, r),
{
}

/// The time that is left of an answer runs down by the second, rounded down, and is a second at least
/// while the answer is served.
pub proof fn law_time_left_runs_down(entry: EntryView, now: u64, later: u64)
    requires
        now <= later,
        entry.expires_at - now < 4_294_967_296_000,
    ensures
        known(entry, now) matches LookupView::Hit(wire, left) ==> wire == entry.wire && now
            < entry.expires_at && 1 <= left && (left == 1 || left * 1000 <= entry.expires_at - now)
            && entry.expires_at - now < (left + 1) * 1000,
        known(entry, later) matches LookupView::Hit(_, less) ==> (known(entry, now)
            matches LookupView::Hit(_, left) && less <= left),
        known(entry, later) is Stale ==> !(known(entry, now) is Miss),
        known(entry, now) is Miss ==> known(entry, later) is Miss,
{
}

/// Queries share an answer exactly where they ask for the same domain and type in the same scope;
/// neither their identifiers nor anything else of the messages matters.
pub proof fn law_what_shares_an_answer(a: Seq<char>, b: Seq<char>, q: QueryView, r: QueryView)
    ensures
        key_of(a, q) == key_of(b, r) <==> a == b && q.domain == r.domain && q.qtype.code_spec()
            == r.qtype.code_spec(),
{
}

} // verus!
