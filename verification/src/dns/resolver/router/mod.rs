//! A resolver that sends queries to servers by rules.
use vstd::prelude::*;

use crate::collections;
use crate::dns::collector::DnsCollector;
use crate::dns::fakeip;
use crate::dns::fakeip::{FakeDns, FakeIpFilterMode, Opts, Store};
use crate::dns::nameserver;
use crate::dns::nameserver::{NameServer, NameServerView};
use crate::dns::query;
use crate::dns::query::{QueryContext, QueryView};
use crate::dns::resolver;
use crate::dns::resolver::cache;
use crate::dns::resolver::cache::DnsCache;
use crate::dns::resolver::reverse_cache::ReverseLookupCache;
use crate::dns::resolver::router::config::{RouterConfig, UpstreamType, UpstreamView};
use crate::dns::resolver::router::hosts::HostsSnapshot;
use crate::dns::resolver::router::routing::{
    DnsRouter, RejectCode, RequestAction, RequestActionView, ResponseAction, ResponseActionView,
    RouterView,
};
use crate::dns::resolver::router::transport::{
    CachedTransport, DnsCachePolicy, DnsResolvedNotifier, Endpoint, FakeIpTransport,
};
use crate::dns::resolver::{resolve_version, ResolveStep, ResolverKind};
use crate::dns::response;
use crate::dns::response::{
    build_dns_nodata, build_dns_nxdomain, build_dns_refused, extract_ips_from_dns_response,
};
use crate::dns::upstream_pool;
use crate::dns::upstream_pool::{EntryView, UpstreamTable};
use crate::dns::wire;
use crate::error;
use crate::error::debug_str;
use crate::ip::{IpAddr, Ipv4Net, Ipv6Net};
use crate::net;
use crate::providers::rule_provider::RuleProviderImpl;
use crate::text;
use crate::trie;
use crate::trie::StringTrie;

pub mod config;
pub mod hosts;
pub mod matcher;
pub mod routing;
pub mod transport;

verus! {

/// The outbound that queries to a server go through: its own, else the upstream's.
pub open spec fn effective_proxy(ns: NameServerView, proxy: Option<Seq<char>>) -> Option<Seq<char>> {
    match ns.proxy {
        Some(own) => Some(own),
        None => proxy,
    }
}

/// What a server is kept by: the server and the outbound.
pub open spec fn server_key(ns: NameServerView, proxy: Option<Seq<char>>) -> Seq<char> {
    ns.text() + "#proxy="@ + net::debug_opt(
        match effective_proxy(ns, proxy) {
            Some(name) => Some(error::debug_string(name)),
            None => None,
        },
    )
}

fn choose_proxy(ns: &NameServer, proxy: &Option<String>) -> (res: Option<String>)
    ensures
        text::opt_view(res) == effective_proxy(ns@, text::opt_view(*proxy)),
{
    match &ns.proxy {
        Some(own) => Some(own.clone()),
        None => text::copy_opt(proxy),
    }
}

fn make_key(ns: &NameServer, proxy: &Option<String>) -> (res: String)
    ensures
        res@ == server_key(ns@, text::opt_view(*proxy)),
{
    let mut out: Vec<char> = text::chars(ns.as_text().as_str());
    text::append(&mut out, &text::chars("#proxy="));
    let name: Option<Vec<char>> = match choose_proxy(ns, proxy) {
        Some(name) => Some(text::chars(debug_str(name.as_str()).as_str())),
        None => None,
    };
    text::append(&mut out, &net::write_debug_opt(name));
    text::text(&out)
}

/// The table with the first `n` servers, and their keys, each once. Servers that cannot be used are
/// passed over.
pub open spec fn registered(
    table: Seq<(Seq<char>, EntryView)>,
    servers: Seq<NameServerView>,
    n: int,
    proxy: Option<Seq<char>>,
) -> (Seq<(Seq<char>, EntryView)>, Seq<Seq<char>>)
    decreases n,
{
    if n <= 0 {
        (table, Seq::empty())
    } else {
        let (before, keys) = registered(table, servers, n - 1, proxy);
        let ns = servers[n - 1];
        let key = server_key(ns, proxy);
        let after = upstream_pool::table_with(before, key, ns, effective_proxy(ns, proxy), None);
        (
            after,
            if upstream_pool::table_has(after, key) && !keys.contains(key) {
                keys.push(key)
            } else {
                keys
            },
        )
    }
}

fn register_all(table: &mut UpstreamTable, servers: &Vec<NameServer>, proxy: &Option<String>) -> (res:
    Vec<String>)
    ensures
        final(table)@ == registered(
            old(table)@,
            nameserver::ns_views(servers@),
            servers@.len() as int,
            text::opt_view(*proxy),
        ).0,
        text::string_views(res@) == registered(
            old(table)@,
            nameserver::ns_views(servers@),
            servers@.len() as int,
            text::opt_view(*proxy),
        ).1,
{
    let ghost all = nameserver::ns_views(servers@);
    let ghost p = text::opt_view(*proxy);
    let mut keys: Vec<String> = Vec::new();
    assert(text::string_views(keys@) =~= Seq::empty());
    let mut i: usize = 0;
    while i < servers.len()
        invariant
            i <= servers@.len(),
            all == nameserver::ns_views(servers@),
            p == text::opt_view(*proxy),
            table@ == registered(old(table)@, all, i as int, p).0,
            text::string_views(keys@) == registered(old(table)@, all, i as int, p).1,
        decreases servers@.len() - i,
    {
        assert(all[i as int] == servers@[i as int]@);
        let key: String = make_key(&servers[i], proxy);
        let outbound: Option<String> = choose_proxy(&servers[i], proxy);
        if table.register(key.as_str(), &servers[i], &outbound, &None) && !text::list_contains(
            &keys,
            key.as_str(),
        ) {
            let ghost before = keys@;
            keys.push(key);
            assert(text::string_views(keys@) =~= text::string_views(before).push(key@));
        }
        i = i + 1;
    }
    keys
}

/// The table with the servers of the remote upstreams among the first `n`.
pub open spec fn remote_table(upstreams: Seq<UpstreamView>, n: int) -> Seq<(Seq<char>, EntryView)>
    decreases n,
{
    if n <= 0 {
        Seq::empty()
    } else {
        let u = upstreams[n - 1];
        let before = remote_table(upstreams, n - 1);
        if u.kind is Remote {
            registered(before, u.servers, u.servers.len() as int, u.proxy).0
        } else {
            before
        }
    }
}

/// The keys of the first `n` servers that the table has, each once.
pub open spec fn keys_in(
    table: Seq<(Seq<char>, EntryView)>,
    servers: Seq<NameServerView>,
    n: int,
    proxy: Option<Seq<char>>,
) -> Seq<Seq<char>>
    decreases n,
{
    if n <= 0 {
        Seq::empty()
    } else {
        let keys = keys_in(table, servers, n - 1, proxy);
        let key = server_key(servers[n - 1], proxy);
        if upstream_pool::table_has(table, key) && !keys.contains(key) {
            keys.push(key)
        } else {
            keys
        }
    }
}

fn find_keys(table: &UpstreamTable, servers: &Vec<NameServer>, proxy: &Option<String>) -> (res: Vec<
    String,
>)
    ensures
        text::string_views(res@) == keys_in(
            table@,
            nameserver::ns_views(servers@),
            servers@.len() as int,
            text::opt_view(*proxy),
        ),
{
    let ghost all = nameserver::ns_views(servers@);
    let ghost p = text::opt_view(*proxy);
    let mut keys: Vec<String> = Vec::new();
    assert(text::string_views(keys@) =~= Seq::empty());
    let mut i: usize = 0;
    while i < servers.len()
        invariant
            i <= servers@.len(),
            all == nameserver::ns_views(servers@),
            p == text::opt_view(*proxy),
            text::string_views(keys@) == keys_in(table@, all, i as int, p),
        decreases servers@.len() - i,
    {
        assert(all[i as int] == servers@[i as int]@);
        let key: String = make_key(&servers[i], proxy);
        if table.find(key.as_str()).is_some() && !text::list_contains(&keys, key.as_str()) {
            let ghost before = keys@;
            keys.push(key);
            assert(text::string_views(keys@) =~= text::string_views(before).push(key@));
        }
        i = i + 1;
    }
    keys
}

/// An upstream in use.
pub enum Transport {
    /// One whose answers are kept.
    Cached(CachedTransport),
    /// One that gives fake addresses, from the pool at a place.
    FakeIp(FakeIpTransport, usize),
}

/// Where an upstream's answers come from.
pub enum EndpointView {
    /// Servers that are asked in turn, by their keys.
    Remote { tag: Seq<char>, keys: Seq<Seq<char>> },
    /// The machine's own resolver.
    Local { tag: Seq<char> },
}

/// Where an upstream's answers come from.
pub open spec fn endpoint_view(e: Endpoint) -> EndpointView {
    match e {
        Endpoint::Remote(e) => EndpointView::Remote {
            tag: e.tag@,
            keys: text::string_views(e.upstream_keys@),
        },
        Endpoint::Local(e) => EndpointView::Local { tag: e.tag@ },
    }
}

/// An upstream in use. The queries that are under way are not part of it.
pub enum TransportView {
    Cached {
        /// What its answers are kept under.
        name: Seq<char>,
        kind: UpstreamType,
        ttl: Option<u32>,
        source: EndpointView,
        policy: DnsCachePolicy,
    },
    FakeIp { name: Seq<char>, ttl: u32, pool: nat },
}

impl TransportView {
    /// What the upstream calls itself.
    pub open spec fn called(&self) -> Seq<char> {
        match self {
            TransportView::Cached { name, .. } => *name,
            TransportView::FakeIp { name, .. } => *name,
        }
    }
}

/// An upstream and what it is called.
pub struct NamedTransport {
    pub tag: String,
    pub transport: Transport,
}

/// The upstream as it is known.
pub open spec fn transport_view(t: Transport) -> TransportView {
    match t {
        Transport::Cached(c) => TransportView::Cached {
            name: c.name(),
            kind: c.kind(),
            ttl: c.fixed_ttl(),
            source: endpoint_view(c.source()),
            policy: c.keeping(),
        },
        Transport::FakeIp(f, pool) => TransportView::FakeIp {
            name: f.tag@,
            ttl: f.ttl,
            pool: pool as nat,
        },
    }
}

/// The upstreams as they are known.
pub open spec fn transport_views(list: Seq<NamedTransport>) -> Seq<(Seq<char>, TransportView)> {
    list.map_values(|t: NamedTransport| (t.tag@, transport_view(t.transport)))
}

/// The place of the first upstream with a name, from `from` on.
pub open spec fn tag_place(list: Seq<(Seq<char>, TransportView)>, tag: Seq<char>, from: int) -> int
    decreases list.len() - from,
{
    if from < 0 || from >= list.len() || list[from].0 == tag {
        from
    } else {
        tag_place(list, tag, from + 1)
    }
}

/// The upstreams with one more, in place of one with the same name.
pub open spec fn tag_set(
    list: Seq<(Seq<char>, TransportView)>,
    tag: Seq<char>,
    t: TransportView,
) -> Seq<(Seq<char>, TransportView)> {
    let at = tag_place(list, tag, 0);
    if at < list.len() {
        list.update(at, (tag, t))
    } else {
        list.push((tag, t))
    }
}

/// How many of the first `n` upstreams give fake addresses.
pub open spec fn fake_count(upstreams: Seq<UpstreamView>, n: int) -> nat
    decreases n,
{
    if n <= 0 {
        0
    } else if upstreams[n - 1].kind is FakeIp {
        fake_count(upstreams, n - 1) + 1
    } else {
        fake_count(upstreams, n - 1)
    }
}

/// The local and the fake ones of the first `n` upstreams. Pools of fake addresses are numbered in
/// order; fake addresses are good for a second unless the upstream says otherwise.
pub open spec fn own_transports(upstreams: Seq<UpstreamView>, n: int, policy: DnsCachePolicy) -> Seq<
    (Seq<char>, TransportView),
>
    decreases n,
{
    if n <= 0 {
        Seq::empty()
    } else {
        let u = upstreams[n - 1];
        let before = own_transports(upstreams, n - 1, policy);
        match u.kind {
            UpstreamType::Remote => before,
            UpstreamType::Local => tag_set(
                before,
                u.tag,
                TransportView::Cached {
                    name: u.tag,
                    kind: UpstreamType::Local,
                    ttl: u.ttl,
                    source: EndpointView::Local { tag: u.tag },
                    policy,
                },
            ),
            UpstreamType::FakeIp => tag_set(
                before,
                u.tag,
                TransportView::FakeIp {
                    name: u.tag,
                    ttl: match u.ttl {
                        Some(ttl) => ttl,
                        None => 1,
                    },
                    pool: fake_count(upstreams, n - 1),
                },
            ),
        }
    }
}

/// The upstreams with the remote ones of the first `n`.
pub open spec fn with_remote(
    list: Seq<(Seq<char>, TransportView)>,
    upstreams: Seq<UpstreamView>,
    n: int,
    table: Seq<(Seq<char>, EntryView)>,
    policy: DnsCachePolicy,
) -> Seq<(Seq<char>, TransportView)>
    decreases n,
{
    if n <= 0 {
        list
    } else {
        let u = upstreams[n - 1];
        let before = with_remote(list, upstreams, n - 1, table, policy);
        if u.kind is Remote {
            tag_set(
                before,
                u.tag,
                TransportView::Cached {
                    name: u.tag,
                    kind: UpstreamType::Remote,
                    ttl: u.ttl,
                    source: EndpointView::Remote {
                        tag: u.tag,
                        keys: keys_in(table, u.servers, u.servers.len() as int, u.proxy),
                    },
                    policy,
                },
            )
        } else {
            before
        }
    }
}

/// Every upstream calls itself what it is called, its queries under way are in order, and the pool
/// that it refers to is there. No two upstreams are called the same.
pub open spec fn transports_ok(list: Seq<NamedTransport>, pools: int) -> bool {
    &&& forall|i: int|
        0 <= i < list.len() ==> transport_ok((#[trigger] list[i]).transport, list[i].tag@, pools)
    &&& forall|i: int, j: int|
        0 <= i < j < list.len() ==> (#[trigger] list[i]).tag@ != (#[trigger] list[j]).tag@
}

/// The upstream calls itself by the name, its queries under way are in order, and the pool that it
/// refers to is there.
pub open spec fn transport_ok(transport: Transport, tag: Seq<char>, pools: int) -> bool {
    &&& transport_view(transport).called() == tag
    &&& match transport {
        Transport::Cached(c) => c.flights().ok(),
        Transport::FakeIp(_, pool) => pool < pools,
    }
}

/// No upstream has a query under way, nor ever had one.
pub open spec fn all_idle(list: Seq<NamedTransport>) -> bool {
    forall|i: int|
        0 <= i < list.len() ==> ((#[trigger] list[i]).transport matches Transport::Cached(c)
            ==> c.idle())
}

fn find_tag(list: &Vec<NamedTransport>, tag: &str) -> (res: usize)
    ensures
        res == tag_place(transport_views(list@), tag@, 0),
        res <= list@.len(),
{
    let ghost all = transport_views(list@);
    let mut i: usize = 0;
    while i < list.len()
        invariant
            i <= list@.len(),
            all == transport_views(list@),
            tag_place(all, tag@, 0) == tag_place(all, tag@, i as int),
        decreases list@.len() - i,
    {
        assert(all[i as int].0 == list@[i as int].tag@);
        if text::same(list[i].tag.as_str(), tag) {
            return i;
        }
        i = i + 1;
    }
    i
}

fn set_transport(list: &mut Vec<NamedTransport>, tag: &str, transport: Transport, Ghost(pools): Ghost<
    int,
>)
    requires
        transports_ok(old(list)@, pools),
        all_idle(old(list)@),
        transport_ok(transport, tag@, pools),
        transport matches Transport::Cached(c) ==> c.idle(),
    ensures
        transport_views(final(list)@) == tag_set(
            transport_views(old(list)@),
            tag@,
            transport_view(transport),
        ),
        transports_ok(final(list)@, pools),
        all_idle(final(list)@),
{
    let at: usize = find_tag(list, tag);
    let ghost start = list@;
    let ghost before = transport_views(list@);
    proof {
        lemma_tag_place(before, tag@, 0);
        assert forall|i: int| 0 <= i < at implies (#[trigger] start[i]).tag@ != tag@ by {
            assert(before[i].0 == start[i].tag@);
        }
        if at < start.len() {
            assert(before[at as int].0 == start[at as int].tag@);
        }
    }
    let ghost view = transport_view(transport);
    let named = NamedTransport { tag: tag.to_owned(), transport };
    if at < list.len() {
        list.set(at, named);
        assert(transport_views(list@) =~= before.update(at as int, (tag@, view)));
    } else {
        list.push(named);
        assert(transport_views(list@) =~= before.push((tag@, view)));
    }
}

/// The patterns of the names of the first `n` servers of proxies.
pub open spec fn name_patterns(names: Seq<Seq<char>>, n: int) -> Seq<(Seq<Seq<char>>, usize)>
    decreases n,
{
    if n <= 0 {
        Seq::empty()
    } else {
        trie::text_set(name_patterns(names, n - 1), names[n - 1], 0)
    }
}

/// The patterns of the names of servers of proxies.
pub fn make_name_trie(names: &Vec<String>) -> (res: StringTrie)
    ensures
        res@ == name_patterns(text::string_views(names@), names@.len() as int),
{
    let ghost all = text::string_views(names@);
    let mut trie: StringTrie = StringTrie::new();
    let mut i: usize = 0;
    while i < names.len()
        invariant
            i <= names@.len(),
            all == text::string_views(names@),
            trie@ == name_patterns(all, i as int),
        decreases names@.len() - i,
    {
        assert(all[i as int] == names@[i as int]@);
        trie.insert(&text::chars(names[i].as_str()), 0);
        i = i + 1;
    }
    trie
}

/// A resolver that sends queries to servers by rules.
pub struct RouterResolver<S: Store> {
    pub use_hosts: bool,
    pub ipv6: bool,
    /// The servers that names of servers are looked up with.
    pub default_table: UpstreamTable,
    pub default_upstreams: Vec<String>,
    pub table: UpstreamTable,
    pub transports: Vec<NamedTransport>,
    pub fake_dns: Vec<FakeDns<S>>,
    pub hosts: HostsSnapshot,
    pub router: DnsRouter,
    pub notifier: DnsResolvedNotifier,
    pub cache: DnsCache,
    /// The names of servers of proxies.
    pub proxy_server_domains: Option<StringTrie>,
    /// The upstream that these are looked up with.
    pub proxy_server_transport: Option<CachedTransport>,
}

/// The ranges of fake addresses are wide enough.
pub open spec fn ranges_ok(upstreams: Seq<UpstreamView>) -> bool {
    forall|i: int|
        0 <= i < upstreams.len() && (#[trigger] upstreams[i]).kind is FakeIp
            ==> upstreams[i].inet4_range.wf() && upstreams[i].inet4_range.prefix_len <= 30
            && upstreams[i].inet6_range.wf() && upstreams[i].inet6_range.prefix_len <= 126
}

/// The upstreams of a configuration.
pub open spec fn upstreams_in(cfg: RouterConfig) -> Seq<UpstreamView> {
    config::upstream_views(cfg.upstreams@)
}

/// The policy of a configuration.
pub open spec fn policy_of(cfg: RouterConfig) -> DnsCachePolicy {
    DnsCachePolicy {
        optimistic_cache_ttl: cfg.optimistic_cache_ttl,
        stale_cache_retention: (cfg.stale_cache_retention * 1000) as u64,
    }
}

/// How many answers, and addresses, are kept: one at least.
pub open spec fn capacity_of(cfg: RouterConfig) -> nat {
    if cfg.cache_capacity >= 1 {
        cfg.cache_capacity as nat
    } else {
        1
    }
}

/// The keys of the servers for names of servers of proxies: those that the upstreams' servers are
/// among.
pub open spec fn proxy_keys(cfg: RouterConfig) -> Seq<Seq<char>> {
    let servers = nameserver::ns_views(cfg.proxy_server_nameserver@);
    keys_in(
        remote_table(upstreams_in(cfg), upstreams_in(cfg).len() as int),
        servers,
        servers.len() as int,
        None,
    )
}

/// What is to be done with a query.
pub enum RequestPlan {
    /// This is the answer.
    Reply(Vec<u8>),
    /// Ask the upstream for names of servers of proxies; where it fails, go by the rules.
    AskProxies(QueryContext),
    /// Ask the upstream at this place.
    Ask(usize, QueryContext),
    /// There is no upstream with this name.
    Missing(String),
}

/// What is to be done with a query.
pub enum RequestPlanView {
    Reply(Seq<u8>),
    AskProxies,
    Ask(int),
    Missing(Seq<char>),
}

/// The plan is the expected one, for the query.
pub open spec fn plan_is(plan: RequestPlan, view: RequestPlanView, q: Option<QueryView>) -> bool {
    match (plan, view) {
        (RequestPlan::Reply(a), RequestPlanView::Reply(b)) => a@ == b,
        (RequestPlan::AskProxies(p), RequestPlanView::AskProxies) => Some(p@) == q,
        (RequestPlan::Ask(i, p), RequestPlanView::Ask(j)) => i == j && Some(p@) == q,
        (RequestPlan::Missing(a), RequestPlanView::Missing(b)) => a@ == b,
        _ => false,
    }
}

/// The number of a way to turn a query down.
pub open spec fn reject_number(code: RejectCode) -> u8 {
    match code {
        RejectCode::Nodata => 0,
        RejectCode::Nxdomain => 3,
        RejectCode::Refused => 5,
    }
}

/// What is to be done with an answer.
pub enum ResponsePlan {
    /// Hand it out.
    Accept,
    /// Hand this out in its place.
    Reject(Vec<u8>),
    /// Ask the upstream at this place; where that fails, hand the answer out.
    Requery(usize),
}

/// What is to be done with an answer.
pub enum ResponsePlanView {
    Accept,
    Reject(Seq<u8>),
    Requery(int),
}

/// The plan is the expected one.
pub open spec fn verdict_is(plan: ResponsePlan, view: ResponsePlanView) -> bool {
    match (plan, view) {
        (ResponsePlan::Accept, ResponsePlanView::Accept) => true,
        (ResponsePlan::Reject(a), ResponsePlanView::Reject(b)) => a@ == b,
        (ResponsePlan::Requery(i), ResponsePlanView::Requery(j)) => i == j,
        _ => false,
    }
}

/// An answer from a server was taken note of: its addresses are known to be the domain's, unless it
/// has no time to live, and the domain is recorded.
pub open spec fn told(
    before: DnsResolvedNotifier,
    after: DnsResolvedNotifier,
    domain: Seq<char>,
    resp: Seq<u8>,
    ttl: u32,
    now: u64,
    ips: Seq<IpAddr>,
) -> bool {
    &&& ips == response::answer_ips(resp)
    &&& ttl > 0 ==> transport::learns(
        before.reverse_lookup_cache,
        after.reverse_lookup_cache,
        ips,
        domain,
        ttl,
        now,
        false,
    )
    &&& ttl == 0 ==> after.reverse_lookup_cache == before.reverse_lookup_cache
    &&& transport::recorded(before.collector, after.collector, domain, false)
}

/// The pool is that of the ranges, with the store, and gives every domain a fake address.
pub open spec fn pool_made<S: Store>(pool: FakeDns<S>, v4: Ipv4Net, v6: Ipv6Net, store: S) -> bool {
    &&& fakeip::made_over(pool, v4, v6, store)
    &&& pool.filter() is None
    &&& pool.mode() == FakeIpFilterMode::Blacklist
}

/// The pools of the first `n` upstreams are those of their ranges, each with its store.
pub open spec fn pools_made<S: Store>(
    pools: Seq<FakeDns<S>>,
    stores: Seq<S>,
    upstreams: Seq<UpstreamView>,
    n: int,
) -> bool {
    forall|i: int|
        0 <= i < n && (#[trigger] upstreams[i]).kind is FakeIp ==> pool_made(
            pools[fake_count(upstreams, i) as int],
            upstreams[i].inet4_range,
            upstreams[i].inet6_range,
            stores[fake_count(upstreams, i) as int],
        )
}

fn add_pool<S: Store>(pools: &mut Vec<FakeDns<S>>, left: &mut Vec<S>, v4: Ipv4Net, v6: Ipv6Net)
    requires
        v4.wf(),
        v4.prefix_len <= 30,
        v6.wf(),
        v6.prefix_len <= 126,
        old(left)@.len() > 0,
        old(left)@[0].wf(),
    ensures
        final(pools)@.len() == old(pools)@.len() + 1,
        final(pools)@.drop_last() == old(pools)@,
        final(pools)@.last().wf(),
        pool_made(final(pools)@.last(), v4, v6, old(left)@[0]),
        final(left)@ == old(left)@.skip(1),
{
    let store: S = left.remove(0);
    assert(left@ =~= old(left)@.skip(1));
    let made = FakeDns::new(
        Opts {
            ipnet: v4,
            ipnet6: v6,
            domain_filter: None,
            filter_mode: FakeIpFilterMode::Blacklist,
            store,
        },
    );
    match made {
        Ok(dns) => {
            pools.push(dns);
            assert(pools@.drop_last() =~= old(pools)@);
        },
        Err(_) => {
            assert(false);
        },
    }
}

proof fn lemma_pool_added<S: Store>(
    pools: Seq<FakeDns<S>>,
    more: Seq<FakeDns<S>>,
    stores: Seq<S>,
    upstreams: Seq<UpstreamView>,
    n: int,
)
    requires
        0 <= n,
        pools_made(pools, stores, upstreams, n),
        pools.len() == fake_count(upstreams, n),
        more.len() == pools.len() + 1,
        more.drop_last() == pools,
        pool_made(
            more.last(),
            upstreams[n].inet4_range,
            upstreams[n].inet6_range,
            stores[pools.len() as int],
        ),
    ensures
        pools_made(more, stores, upstreams, n + 1),
{
    assert forall|i: int|
        0 <= i < n + 1 && (#[trigger] upstreams[i]).kind is FakeIp implies pool_made(
        more[fake_count(upstreams, i) as int],
        upstreams[i].inet4_range,
        upstreams[i].inet6_range,
        stores[fake_count(upstreams, i) as int],
    ) by {
        if i < n {
            lemma_fake_count(upstreams, i + 1, n);
            let at = fake_count(upstreams, i) as int;
            assert(more.drop_last()[at] == more[at]);
        }
    }
}

impl<S: Store> RouterResolver<S> {
    /// The upstreams as they are known.
    pub open spec fn upstreams(&self) -> Seq<(Seq<char>, TransportView)> {
        transport_views(self.transports@)
    }

    /// The upstreams, the pools and the queries under way are in order.
    pub open spec fn wf(&self) -> bool {
        &&& transports_ok(self.transports@, self.fake_dns@.len() as int)
        &&& forall|i: int| 0 <= i < self.fake_dns@.len() ==> (#[trigger] self.fake_dns@[i]).wf()
        &&& self.proxy_server_transport matches Some(t) ==> t.flights().ok()
    }

    /// Makes the resolver of a configuration. `stores` are the stores of the pools of fake addresses,
    /// `server_names` the names of servers of proxies, `hosts_files` what the hosts files hold.
    pub fn new(
        cfg: &RouterConfig,
        stores: Vec<S>,
        server_names: &Vec<String>,
        hosts_files: &Vec<String>,
        collector: Option<DnsCollector>,
    ) -> (res: RouterResolver<S>)
        requires
            cfg.wf(),
            ranges_ok(upstreams_in(*cfg)),
            stores@.len() == fake_count(upstreams_in(*cfg), upstreams_in(*cfg).len() as int),
            forall|i: int| 0 <= i < stores@.len() ==> (#[trigger] stores@[i]).wf(),
        ensures
            res.wf(),
            res.use_hosts == cfg.use_hosts,
            res.ipv6 == cfg.ipv6,
            ({
                let servers = nameserver::ns_views(cfg.default_nameserver@);
                let (table, keys) = registered(Seq::empty(), servers, servers.len() as int, None);
                res.default_table@ == table && text::string_views(res.default_upstreams@) == keys
            }),
            res.table@ == remote_table(upstreams_in(*cfg), upstreams_in(*cfg).len() as int),
            res.upstreams() == with_remote(
                own_transports(
                    upstreams_in(*cfg),
                    upstreams_in(*cfg).len() as int,
                    policy_of(*cfg),
                ),
                upstreams_in(*cfg),
                upstreams_in(*cfg).len() as int,
                res.table@,
                policy_of(*cfg),
            ),
            all_idle(res.transports@),
            res.fake_dns@.len() == stores@.len(),
            pools_made(res.fake_dns@, stores@, upstreams_in(*cfg), upstreams_in(*cfg).len() as int),
            res.cache@ == collections::empty_store(capacity_of(*cfg)),
            res.notifier.reverse_lookup_cache@ == collections::empty_store(capacity_of(*cfg)),
            res.hosts.entries_spec() == hosts::with_inline(
                hosts::file_entries(text::string_views(hosts_files@), hosts_files@.len() as int),
                config::host_views(cfg.hosts@),
                cfg.hosts@.len() as int,
            ),
            res.router@ == (RouterView {
                requests: config::request_views(cfg.request_rules@),
                request_fallback: cfg.request_fallback@,
                responses: config::response_views(cfg.response_rules@),
                response_fallback: cfg.response_fallback@,
            }),
            res.notifier.collector == collector,
            res.proxy_server_transport is Some <==> proxy_keys(*cfg).len() > 0,
            res.proxy_server_transport matches Some(t) ==> transport_view(Transport::Cached(t))
                == (TransportView::Cached {
                name: "__proxy_server_dns"@,
                kind: UpstreamType::Remote,
                ttl: None,
                source: EndpointView::Remote {
                    tag: "__proxy_server_dns"@,
                    keys: proxy_keys(*cfg),
                },
                policy: policy_of(*cfg),
            }) && t.idle(),
            res.proxy_server_domains is Some <==> proxy_keys(*cfg).len() > 0 && server_names@.len()
                > 0,
            res.proxy_server_domains matches Some(t) ==> t@ == name_patterns(
                text::string_views(server_names@),
                server_names@.len() as int,
            ),
    {
        let ghost ups = upstreams_in(*cfg);
        let ghost given = stores@;
        let ghost total = given.len();
        let ghost policy_view = policy_of(*cfg);
        let mut default_table: UpstreamTable = UpstreamTable::new();
        let default_upstreams: Vec<String> = register_all(
            &mut default_table,
            &cfg.default_nameserver,
            &None,
        );
        let capacity: usize = if cfg.cache_capacity >= 1 {
            cfg.cache_capacity
        } else {
            1
        };
        let policy: DnsCachePolicy = DnsCachePolicy::new(
            cfg.optimistic_cache_ttl,
            cfg.stale_cache_retention,
        );
        assert(policy == policy_view);
        let mut table: UpstreamTable = UpstreamTable::new();
        let mut transports: Vec<NamedTransport> = Vec::new();
        assert(transport_views(transports@) =~= Seq::empty());
        let mut fake_dns: Vec<FakeDns<S>> = Vec::new();
        let mut left: Vec<S> = stores;
        let mut i: usize = 0;
        while i < cfg.upstreams.len()
            invariant
                i <= cfg.upstreams@.len(),
                ups == upstreams_in(*cfg),
                ups.len() == cfg.upstreams@.len(),
                ranges_ok(ups),
                policy == policy_view,
                total == fake_count(ups, ups.len() as int),
                fake_dns@.len() == fake_count(ups, i as int),
                left@ == given.skip(fake_dns@.len() as int),
                given.len() == total,
                pools_made(fake_dns@, given, ups, i as int),
                forall|j: int| 0 <= j < left@.len() ==> (#[trigger] left@[j]).wf(),
                forall|j: int| 0 <= j < fake_dns@.len() ==> (#[trigger] fake_dns@[j]).wf(),
                table@ == remote_table(ups, i as int),
                transport_views(transports@) == own_transports(ups, i as int, policy_view),
                transports_ok(transports@, total as int),
                all_idle(transports@),
            decreases cfg.upstreams@.len() - i,
        {
            let u = &cfg.upstreams[i];
            assert(ups[i as int] == u@);
            match u.upstream_type {
                UpstreamType::Remote => {
                    register_all(&mut table, &u.servers, &u.proxy);
                    assert(nameserver::ns_views(u.servers@).len() == u.servers@.len());
                },
                UpstreamType::Local => {
                    let t: CachedTransport = CachedTransport::new_local(
                        u.tag.clone(),
                        u.ttl,
                        policy,
                    );
                    set_transport(
                        &mut transports,
                        u.tag.as_str(),
                        Transport::Cached(t),
                        Ghost(total as int),
                    );
                },
                UpstreamType::FakeIp => {
                    proof {
                        lemma_fake_count(ups, i + 1, ups.len() as int);
                    }
                    assert(left@[0] == given[fake_dns@.len() as int]);
                    let ghost before = fake_dns@;
                    let pool: usize = fake_dns.len();
                    add_pool(&mut fake_dns, &mut left, u.inet4_range, u.inet6_range);
                    assert(left@ =~= given.skip(before.len() as int + 1));
                    proof {
                        lemma_pool_added(before, fake_dns@, given, ups, i as int);
                        assert forall|j: int| 0 <= j < fake_dns@.len() implies (
                        #[trigger] fake_dns@[j]).wf() by {
                            assert(j < before.len() ==> fake_dns@.drop_last()[j] == fake_dns@[j]);
                        }
                    }
                    let ttl: u32 = match u.ttl {
                        Some(ttl) => ttl,
                        None => 1,
                    };
                    let t: FakeIpTransport = FakeIpTransport::new(u.tag.clone(), ttl);
                    set_transport(
                        &mut transports,
                        u.tag.as_str(),
                        Transport::FakeIp(t, pool),
                        Ghost(total as int),
                    );
                },
            }
            i = i + 1;
        }
        let ghost own = transport_views(transports@);
        let mut k: usize = 0;
        while k < cfg.upstreams.len()
            invariant
                k <= cfg.upstreams@.len(),
                ups == upstreams_in(*cfg),
                ups.len() == cfg.upstreams@.len(),
                policy == policy_view,
                transport_views(transports@) == with_remote(
                    own,
                    ups,
                    k as int,
                    table@,
                    policy_view,
                ),
                transports_ok(transports@, total as int),
                all_idle(transports@),
            decreases cfg.upstreams@.len() - k,
        {
            let u = &cfg.upstreams[k];
            assert(ups[k as int] == u@);
            match u.upstream_type {
                UpstreamType::Remote => {
                    let keys: Vec<String> = find_keys(&table, &u.servers, &u.proxy);
                    assert(nameserver::ns_views(u.servers@).len() == u.servers@.len());
                    let t: CachedTransport = CachedTransport::new_remote(
                        u.tag.clone(),
                        u.ttl,
                        keys,
                        policy,
                    );
                    set_transport(
                        &mut transports,
                        u.tag.as_str(),
                        Transport::Cached(t),
                        Ghost(total as int),
                    );
                },
                _ => {},
            }
            k = k + 1;
        }
        let keys: Vec<String> = find_keys(&table, &cfg.proxy_server_nameserver, &None);
        let ghost found = proxy_keys(*cfg);
        assert(text::string_views(keys@) == found) by {
            let servers = nameserver::ns_views(cfg.proxy_server_nameserver@);
            assert(servers.len() == cfg.proxy_server_nameserver@.len());
        }
        assert(found.len() == keys@.len());
        let has_proxy: bool = keys.len() > 0;
        let proxy_server_transport: Option<CachedTransport> = if has_proxy {
            Some(
                CachedTransport::new_remote("__proxy_server_dns".to_owned(), None, keys, policy),
            )
        } else {
            None
        };
        let proxy_server_domains: Option<StringTrie> = if has_proxy && server_names.len() > 0 {
            Some(make_name_trie(server_names))
        } else {
            None
        };
        let router: DnsRouter = DnsRouter::new(
            &cfg.request_rules,
            &cfg.request_fallback,
            &cfg.response_rules,
            &cfg.response_fallback,
        );
        RouterResolver {
            use_hosts: cfg.use_hosts,
            ipv6: cfg.ipv6,
            default_table,
            default_upstreams,
            table,
            transports,
            fake_dns,
            hosts: HostsSnapshot::new(&cfg.hosts, hosts_files),
            router,
            notifier: DnsResolvedNotifier {
                reverse_lookup_cache: ReverseLookupCache::new(capacity),
                collector,
            },
            cache: DnsCache::new(capacity),
            proxy_server_domains,
            proxy_server_transport,
        }
    }

    /// What the rules say of a query.
    pub open spec fn routed(
        &self,
        message: Seq<u8>,
        q: QueryView,
        registry: Seq<RuleProviderImpl>,
    ) -> RequestPlanView {
        match self.router@.request(q.domain, q.qtype, None, registry) {
            RequestActionView::Reject(code) => RequestPlanView::Reply(
                response::empty_response(message, reject_number(code)),
            ),
            RequestActionView::Route(tag) => {
                let at = tag_place(self.upstreams(), tag, 0);
                if at < self.upstreams().len() {
                    RequestPlanView::Ask(at)
                } else {
                    RequestPlanView::Missing(tag)
                }
            },
        }
    }

    /// The name is one of a server of a proxy, and there is an upstream for these.
    pub open spec fn is_proxy_name(&self, domain: Seq<char>) -> bool {
        self.proxy_server_transport is Some && self.proxy_server_domains is Some && trie::found(
            self.proxy_server_domains.unwrap()@,
            domain,
        ) is Some
    }

    /// What is to be done with a query: a malformed one is refused; the table of hosts answers
    /// before anything else; names of servers of proxies have an upstream of their own; the rules
    /// decide on the rest.
    pub open spec fn planned(&self, message: Seq<u8>, registry: Seq<RuleProviderImpl>) -> RequestPlanView {
        match query::query_of(message) {
            None => RequestPlanView::Reply(response::empty_response(message, 5)),
            Some(q) => {
                let known = if self.use_hosts {
                    self.hosts.answer(message, q.domain, q.qtype, self.ipv6)
                } else {
                    None
                };
                match known {
                    Some(bytes) => RequestPlanView::Reply(bytes),
                    None => if self.is_proxy_name(q.domain) {
                        RequestPlanView::AskProxies
                    } else {
                        self.routed(message, q, registry)
                    },
                }
            },
        }
    }

    /// What the rules say of a query.
    pub fn route(&self, message: &[u8], query: QueryContext, registry: &Vec<RuleProviderImpl>) -> (res:
        RequestPlan)
        ensures
            plan_is(res, self.routed(message@, query@, registry@), Some(query@)),
    {
        match self.router.route_request(query.domain.as_str(), query.qtype, None, registry) {
            RequestAction::Reject(code) => RequestPlan::Reply(
                match code {
                    RejectCode::Nodata => build_dns_nodata(message),
                    RejectCode::Nxdomain => build_dns_nxdomain(message),
                    RejectCode::Refused => build_dns_refused(message),
                },
            ),
            RequestAction::Route(tag) => {
                let at: usize = find_tag(&self.transports, tag.as_str());
                if at < self.transports.len() {
                    RequestPlan::Ask(at, query)
                } else {
                    RequestPlan::Missing(tag.clone())
                }
            },
        }
    }

    /// What is to be done with a query.
    pub fn exchange(&self, message: &[u8], registry: &Vec<RuleProviderImpl>) -> (res: RequestPlan)
        ensures
            plan_is(res, self.planned(message@, registry@), query::query_of(message@)),
    {
        let query: QueryContext = match QueryContext::parse(message) {
            Some(query) => query,
            None => return RequestPlan::Reply(build_dns_refused(message)),
        };
        if self.use_hosts {
            match self.hosts.make_response(
                message,
                query.domain.as_str(),
                query.qtype,
                self.ipv6,
            ) {
                Some(resp) => return RequestPlan::Reply(resp),
                None => {},
            }
        }
        if self.proxy_server_transport.is_some() {
            match &self.proxy_server_domains {
                Some(domains) => {
                    if domains.search(&text::chars(query.domain.as_str())).is_some() {
                        return RequestPlan::AskProxies(query);
                    }
                },
                None => {},
            }
        }
        self.route(message, query, registry)
    }

    /// What is to be done with an answer of the upstream at a place. Fake addresses and answers
    /// without addresses are handed out; the rules decide on the rest. An answer is asked for again
    /// only from another upstream, and only from one that is there.
    pub open spec fn judged(
        &self,
        place: int,
        message: Seq<u8>,
        q: QueryView,
        resp: Seq<u8>,
        registry: Seq<RuleProviderImpl>,
    ) -> ResponsePlanView {
        let (tag, kind) = self.upstreams()[place];
        let ips = response::answer_ips(resp);
        if kind is FakeIp || ips.len() == 0 {
            ResponsePlanView::Accept
        } else {
            match self.router@.response(tag, q.domain, q.qtype, ips, registry) {
                ResponseActionView::Accept => ResponsePlanView::Accept,
                ResponseActionView::Reject => ResponsePlanView::Reject(
                    response::empty_response(message, 0),
                ),
                ResponseActionView::Requery(next) => {
                    let at = tag_place(self.upstreams(), next, 0);
                    if next != tag && at < self.upstreams().len() {
                        ResponsePlanView::Requery(at)
                    } else {
                        ResponsePlanView::Accept
                    }
                },
            }
        }
    }

    /// What is to be done with an answer of the upstream at a place.
    pub fn judge(
        &self,
        place: usize,
        message: &[u8],
        query: &QueryContext,
        resp: &[u8],
        registry: &Vec<RuleProviderImpl>,
    ) -> (res: ResponsePlan)
        requires
            place < self.transports@.len(),
        ensures
            verdict_is(res, self.judged(place as int, message@, query@, resp@, registry@)),
    {
        assert(self.upstreams()[place as int] == (
            self.transports@[place as int].tag@,
            transport_view(self.transports@[place as int].transport),
        ));
        match &self.transports[place].transport {
            Transport::FakeIp(_, _) => return ResponsePlan::Accept,
            Transport::Cached(_) => {},
        }
        let ips: Vec<IpAddr> = extract_ips_from_dns_response(resp);
        if ips.len() == 0 {
            return ResponsePlan::Accept;
        }
        let tag: &str = self.transports[place].tag.as_str();
        match self.router.route_response(tag, query.domain.as_str(), query.qtype, &ips, registry) {
            ResponseAction::Accept => ResponsePlan::Accept,
            ResponseAction::Reject => ResponsePlan::Reject(build_dns_nodata(message)),
            ResponseAction::Requery(next) => {
                if text::same(next.as_str(), tag) {
                    return ResponsePlan::Accept;
                }
                let at: usize = find_tag(&self.transports, next.as_str());
                if at < self.transports.len() {
                    ResponsePlan::Requery(at)
                } else {
                    ResponsePlan::Accept
                }
            },
        }
    }

    /// Takes in an answer of the upstream at a place, and says what is to be done with it. One that
    /// came from a server (`fresh` is its time to live) and is handed out is taken note of; the
    /// addresses that are to be told of come back. An answer that is dropped or asked for again
    /// leaves no trace.
    pub fn take_answer(
        &mut self,
        place: usize,
        message: &[u8],
        query: &QueryContext,
        resp: &[u8],
        fresh: Option<u32>,
        registry: &Vec<RuleProviderImpl>,
        now: u64,
    ) -> (res: (ResponsePlan, Vec<IpAddr>))
        requires
            place < old(self).transports@.len(),
            fresh matches Some(ttl) ==> now + cache::at_least_one(ttl) * 1000 <= u64::MAX,
        ensures
            verdict_is(
                res.0,
                old(self).judged(place as int, message@, query@, resp@, registry@),
            ),
            *final(self) == (RouterResolver { notifier: final(self).notifier, ..*old(self) }),
            match fresh {
                Some(ttl) => if res.0 is Accept && old(self).transports@[place as int].transport
                    is Cached {
                    told(
                        old(self).notifier,
                        final(self).notifier,
                        query@.domain,
                        resp@,
                        ttl,
                        now,
                        res.1@,
                    )
                } else {
                    res.1@.len() == 0 && final(self).notifier == old(self).notifier
                },
                None => res.1@.len() == 0 && final(self).notifier == old(self).notifier,
            },
    {
        let plan: ResponsePlan = self.judge(place, message, query, resp, registry);
        let cached: bool = match &self.transports[place].transport {
            Transport::Cached(_) => true,
            Transport::FakeIp(_, _) => false,
        };
        let accepted: bool = match &plan {
            ResponsePlan::Accept => true,
            _ => false,
        };
        match fresh {
            Some(ttl) => {
                if accepted && cached {
                    let ips: Vec<IpAddr> = self.notifier.on_fresh_response(
                        query.domain.as_str(),
                        resp,
                        ttl,
                        now,
                    );
                    return (plan, ips);
                }
            },
            None => {},
        }
        (plan, Vec::new())
    }

    /// Takes in an answer that was asked for again, of the upstream at a place. It is handed out
    /// whatever it says; one that came from a server (`fresh` is its time to live) is taken note of,
    /// and the addresses that are to be told of come back.
    pub fn take_requeried(
        &mut self,
        place: usize,
        query: &QueryContext,
        resp: &[u8],
        fresh: Option<u32>,
        now: u64,
    ) -> (res: Vec<IpAddr>)
        requires
            place < old(self).transports@.len(),
            fresh matches Some(ttl) ==> now + cache::at_least_one(ttl) * 1000 <= u64::MAX,
        ensures
            *final(self) == (RouterResolver { notifier: final(self).notifier, ..*old(self) }),
            match fresh {
                Some(ttl) if old(self).transports@[place as int].transport is Cached => told(
                    old(self).notifier,
                    final(self).notifier,
                    query@.domain,
                    resp@,
                    ttl,
                    now,
                    res@,
                ),
                _ => res@.len() == 0 && final(self).notifier == old(self).notifier,
            },
    {
        let cached: bool = match &self.transports[place].transport {
            Transport::Cached(_) => true,
            Transport::FakeIp(_, _) => false,
        };
        match fresh {
            Some(ttl) => {
                if cached {
                    return self.notifier.on_fresh_response(
                        query.domain.as_str(),
                        resp,
                        ttl,
                        now,
                    );
                }
            },
            None => {},
        }
        Vec::new()
    }

    /// What is to be done to find an IPv4 address of a host.
    pub fn resolve_v4(&self, host: &str) -> (res: ResolveStep)
        ensures
            resolver::version_step(host@, false, res),
    {
        resolve_version(host, false)
    }

    /// What is to be done to find an IPv6 address of a host. There is none where IPv6 is switched
    /// off.
    pub fn resolve_v6(&self, host: &str) -> (res: ResolveStep)
        ensures
            self.ipv6 ==> resolver::version_step(host@, true, res),
            !self.ipv6 ==> res == ResolveStep::Known(None),
    {
        if !self.ipv6 {
            return ResolveStep::Known(None);
        }
        resolve_version(host, true)
    }

    /// What is to be done once an IPv4 address of a host was looked for: where there is none, an
    /// IPv6 address is looked for, unless IPv6 is switched off.
    pub fn resolve(&self, host: &str, found: Option<IpAddr>) -> (res: ResolveStep)
        ensures
            found is Some ==> res == ResolveStep::Known(found),
            found is None && self.ipv6 ==> resolver::version_step(host@, true, res),
            found is None && !self.ipv6 ==> res == ResolveStep::Known(None),
    {
        match found {
            Some(addr) => ResolveStep::Known(Some(addr)),
            None => self.resolve_v6(host),
        }
    }

    /// The one domain that an address was given for, from what is known of real addresses.
    pub fn cached_for(&mut self, addr: IpAddr, now: u64) -> (res: Option<String>)
        ensures
            text::opt_view(res) == old(self).notifier.reverse_lookup_cache.tells(addr, now),
            old(self).notifier.reverse_lookup_cache.left_after_look(
                final(self).notifier.reverse_lookup_cache,
                addr,
                now,
            ),
            *final(self) == (RouterResolver {
                notifier: DnsResolvedNotifier {
                    reverse_lookup_cache: final(self).notifier.reverse_lookup_cache,
                    ..old(self).notifier
                },
                ..*old(self)
            }),
    {
        self.notifier.reverse_lookup_cache.lookup(&addr, now)
    }

    /// The address is a fake one, of the last pool.
    pub open spec fn is_fake(&self, addr: IpAddr) -> bool {
        self.fake_dns@.len() > 0 && ({
            let dns = self.fake_dns@.last();
            fakeip::in_pools(dns.pool4(), dns.pool6(), addr) && dns.held().host_of(addr) is Some
        })
    }

    /// Whether an address is a fake one.
    pub fn is_fake_ip(&self, addr: IpAddr) -> (res: bool)
        requires
            self.wf(),
        ensures
            res == self.is_fake(addr),
    {
        let n: usize = self.fake_dns.len();
        if n == 0 {
            return false;
        }
        assert(self.fake_dns@[n - 1].wf());
        self.fake_dns[n - 1].is_fake_ip(addr)
    }

    /// The domain that an address stands for: a fake one for its host, a real one for the one domain
    /// that it was given for.
    pub fn reverse_lookup(&mut self, addr: IpAddr, now: u64) -> (res: Option<String>)
        requires
            old(self).wf(),
        ensures
            old(self).is_fake(addr) ==> text::opt_view(res) == old(
                self
            ).fake_dns@.last().held().host_of(addr) && *final(self) == *old(self),
            !old(self).is_fake(addr) ==> text::opt_view(res) == old(
                self
            ).notifier.reverse_lookup_cache.tells(addr, now) && old(
                self
            ).notifier.reverse_lookup_cache.left_after_look(
                final(self).notifier.reverse_lookup_cache,
                addr,
                now,
            ),
            *final(self) == (RouterResolver {
                notifier: DnsResolvedNotifier {
                    reverse_lookup_cache: final(self).notifier.reverse_lookup_cache,
                    ..old(self).notifier
                },
                ..*old(self)
            }),
    {
        if self.is_fake_ip(addr) {
            let n: usize = self.fake_dns.len();
            assert(self.fake_dns@[n - 1].wf());
            return self.fake_dns[n - 1].reverse_lookup(addr);
        }
        self.cached_for(addr, now)
    }

    /// Whether there are fake addresses.
    pub fn fake_ip_enabled(&self) -> (res: bool)
        ensures
            res == (self.fake_dns@.len() > 0),
    {
        self.fake_dns.len() > 0
    }

    /// Finds the rule sets that the rules name.
    pub fn after_router_inited(&mut self, registry: &Vec<RuleProviderImpl>)
        ensures
            final(self).router@ == old(self).router@.bound_to(registry@),
            *final(self) == (RouterResolver { router: final(self).router, ..*old(self) }),
    {
        self.router.bind_rule_providers(registry);
    }

    /// The kind of resolver.
    pub fn kind(&self) -> (res: ResolverKind)
        ensures
            res == ResolverKind::Clash,
    {
        ResolverKind::Clash
    }

    /// Switches IPv6 on or off.
    pub fn set_ipv6(&mut self, enable: bool)
        ensures
            *final(self) == (RouterResolver { ipv6: enable, ..*old(self) }),
    {
        self.ipv6 = enable;
    }
}

proof fn lemma_fake_count(upstreams: Seq<UpstreamView>, n: int, m: int)
    requires
        0 <= n <= m,
    ensures
        fake_count(upstreams, n) <= fake_count(upstreams, m),
    decreases m - n,
{
    if n < m {
        lemma_fake_count(upstreams, n, m - 1);
    }
}

/// An answer is asked for again from another upstream than it came from, and from one that is
/// there.
pub proof fn law_requery_goes_elsewhere<S: Store>(
    r: RouterResolver<S>,
    place: int,
    message: Seq<u8>,
    q: QueryView,
    resp: Seq<u8>,
    registry: Seq<RuleProviderImpl>,
)
    requires
        0 <= place < r.upstreams().len(),
        r.judged(place, message, q, resp, registry) is Requery,
    ensures
        ({
            let at = r.judged(place, message, q, resp, registry)->Requery_0;
            0 <= at < r.upstreams().len() && r.upstreams()[at].0 != r.upstreams()[place].0
        }),
{
    let (tag, kind) = r.upstreams()[place];
    let ips = response::answer_ips(resp);
    let next = r.router@.response(tag, q.domain, q.qtype, ips, registry)->Requery_0;
    lemma_tag_place(r.upstreams(), next, 0);
}

/// Two upstreams keep their answers apart: what one of them keeps changes nothing that another one
/// finds, as long as there is room in the cache that they share; where there is none, the other one
/// may lose answers and never sees another.
pub proof fn law_upstreams_keep_apart<S: Store>(
    r: RouterResolver<S>,
    i: int,
    j: int,
    one: CachedTransport,
    other: CachedTransport,
    q: QueryView,
    p: QueryView,
    kept: (Seq<char>, Seq<u8>, u64, u64),
    before: DnsCache,
    after: DnsCache,
)
    requires
        r.wf(),
        0 <= i < r.transports@.len(),
        0 <= j < r.transports@.len(),
        i != j,
        r.transports@[i].transport == Transport::Cached(one),
        r.transports@[j].transport == Transport::Cached(other),
        before@.put_in(cache::key_of(one.name(), q), kept, after@),
    ensures
        one.name() != other.name(),
        after.entry(other.name(), p) is None || after.entry(other.name(), p) == before.entry(
            other.name(),
            p,
        ),
        after@.roomy ==> after.entry(other.name(), p) == before.entry(other.name(), p),
{
    assert(transport_view(r.transports@[i].transport).called() == r.transports@[i].tag@);
    assert(transport_view(r.transports@[j].transport).called() == r.transports@[j].tag@);
    if i < j {
        assert(r.transports@[i].tag@ != r.transports@[j].tag@);
    } else {
        assert(r.transports@[j].tag@ != r.transports@[i].tag@);
    }
    cache::law_scopes_apart(before, after, one.name(), other.name(), q, p, kept);
}

/// A step of one upstream, which changes nothing but its queries under way, leaves the resolver in
/// order and its upstreams what they were.
pub proof fn law_upstream_step_keeps_order<S: Store>(
    before: RouterResolver<S>,
    after: RouterResolver<S>,
    i: int,
    one: CachedTransport,
    stepped: CachedTransport,
)
    requires
        before.wf(),
        0 <= i < before.transports@.len(),
        before.transports@[i].transport == Transport::Cached(one),
        stepped.same_settings(one),
        stepped.flights().ok(),
        after == (RouterResolver { transports: after.transports, ..before }),
        after.transports@ == before.transports@.update(
            i,
            (NamedTransport { transport: Transport::Cached(stepped), ..before.transports@[i] }),
        ),
    ensures
        after.wf(),
        after.upstreams() == before.upstreams(),
{
    assert(transport_ok(
        before.transports@[i].transport,
        before.transports@[i].tag@,
        before.fake_dns@.len() as int,
    ));
    assert(after.upstreams() =~= before.upstreams());
}

/// An answer that is to be replaced by another upstream's never reaches the client through the
/// cache: the upstream that is asked for the replacement knows of the query what it knew before the
/// answer was kept, or nothing at all. Where it knew nothing, it asks.
pub proof fn law_replaced_answer_is_not_found<S: Store>(
    r: RouterResolver<S>,
    place: int,
    one: CachedTransport,
    message: Seq<u8>,
    q: QueryView,
    resp: Seq<u8>,
    registry: Seq<RuleProviderImpl>,
    kept: (Seq<char>, Seq<u8>, u64, u64),
    before: DnsCache,
    after: DnsCache,
)
    requires
        r.wf(),
        0 <= place < r.transports@.len(),
        r.transports@[place].transport == Transport::Cached(one),
        r.judged(place, message, q, resp, registry) is Requery,
        before@.put_in(cache::key_of(one.name(), q), kept, after@),
    ensures
        ({
            let at = r.judged(place, message, q, resp, registry)->Requery_0;
            &&& 0 <= at < r.transports@.len()
            &&& at != place
            &&& r.transports@[at].transport matches Transport::Cached(other) ==> {
                &&& after.entry(other.name(), q) is None || after.entry(other.name(), q)
                    == before.entry(other.name(), q)
                &&& before.entry(other.name(), q) is None ==> forall|now: u64| #[trigger]
                    after.finds(other.name(), q, now) is Miss
            }
        }),
{
    law_requery_goes_elsewhere(r, place, message, q, resp, registry);
    let at = r.judged(place, message, q, resp, registry)->Requery_0;
    assert(r.upstreams()[at].0 == r.transports@[at].tag@);
    assert(r.upstreams()[place].0 == r.transports@[place].tag@);
    match r.transports@[at].transport {
        Transport::Cached(other) => {
            law_upstreams_keep_apart(r, place, at, one, other, q, q, kept, before, after);
        },
        Transport::FakeIp(_, _) => {},
    }
}

proof fn lemma_tag_place(list: Seq<(Seq<char>, TransportView)>, tag: Seq<char>, from: int)
    requires
        0 <= from <= list.len(),
    ensures
        from <= tag_place(list, tag, from) <= list.len(),
        tag_place(list, tag, from) < list.len() ==> list[tag_place(list, tag, from)].0 == tag,
        forall|i: int| from <= i < tag_place(list, tag, from) ==> (#[trigger] list[i]).0 != tag,
    decreases list.len() - from,
{
    if from < list.len() && list[from].0 != tag {
        lemma_tag_place(list, tag, from + 1);
    }
}

/// A query that the table of hosts answers is answered with that, before everything else; where the
/// table is switched off, it does not matter what it holds.
pub proof fn law_hosts_answer_first<S: Store>(
    r: RouterResolver<S>,
    other: RouterResolver<S>,
    message: Seq<u8>,
    q: QueryView,
    registry: Seq<RuleProviderImpl>,
)
    requires
        query::query_of(message) == Some(q),
        other == (RouterResolver { hosts: other.hosts, ..r }),
    ensures
        r.use_hosts ==> (r.hosts.answer(message, q.domain, q.qtype, r.ipv6) matches Some(bytes)
            ==> r.planned(message, registry) == RequestPlanView::Reply(bytes)),
        !r.use_hosts ==> other.planned(message, registry) == r.planned(message, registry),
        r.hosts.answer(message, q.domain, q.qtype, r.ipv6) is None ==> (RouterResolver {
            use_hosts: false,
            ..r
        }).planned(message, registry) == r.planned(message, registry),
{
}

/// The name of a proxy's server is asked of the servers for such names, whatever the rules say; where
/// there are no such servers, or the name is none, the rules alone decide.
pub proof fn law_proxy_names_skip_the_rules<S: Store>(
    r: RouterResolver<S>,
    message: Seq<u8>,
    q: QueryView,
    registry: Seq<RuleProviderImpl>,
)
    requires
        query::query_of(message) == Some(q),
        !r.use_hosts || r.hosts.answer(message, q.domain, q.qtype, r.ipv6) is None,
    ensures
        r.planned(message, registry) is AskProxies <==> (r.proxy_server_transport is Some
            && r.proxy_server_domains is Some && trie::found(
            r.proxy_server_domains.unwrap()@,
            q.domain,
        ) is Some),
{
}

/// The rules decide what is done with a query: it is turned down with the code that they give and no
/// address, or asked of the upstream that they name; where no upstream has that name, the plan says
/// so. A message that is no query is refused.
pub proof fn law_rules_route_queries<S: Store>(
    r: RouterResolver<S>,
    message: Seq<u8>,
    q: QueryView,
    registry: Seq<RuleProviderImpl>,
)
    requires
        query::query_of(message) == Some(q),
        !r.use_hosts || r.hosts.answer(message, q.domain, q.qtype, r.ipv6) is None,
        r.proxy_server_transport is None || r.proxy_server_domains is None,
    ensures
        match r.router@.request(q.domain, q.qtype, None, registry) {
            RequestActionView::Reject(code) => r.planned(message, registry) matches RequestPlanView::Reply(
                bytes,
            ) && response::answer_ips(bytes).len() == 0 && response::answers_query(q, bytes)
                && bytes[3] % 16 == (match code {
                RejectCode::Nodata => 0int,
                RejectCode::Nxdomain => 3int,
                RejectCode::Refused => 5int,
            }),
            RequestActionView::Route(tag) => match r.planned(message, registry) {
                RequestPlanView::Ask(at) => 0 <= at < r.upstreams().len() && r.upstreams()[at].0 == tag
                    && forall|k: int| 0 <= k < at ==> (#[trigger] r.upstreams()[k]).0 != tag,
                RequestPlanView::Missing(name) => name == tag && forall|k: int|
                    0 <= k < r.upstreams().len() ==> (#[trigger] r.upstreams()[k]).0 != tag,
                _ => false,
            },
        },
{
    query::law_query_has_question(message);
    wire::lemma_name_end_bounds(message, 12);
    match r.router@.request(q.domain, q.qtype, None, registry) {
        RequestActionView::Reject(code) => {
            response::law_refusal_is_one_to_the_query(message, q, reject_number(code));
            response::law_refusal_has_no_address(message, reject_number(code));
        },
        RequestActionView::Route(tag) => {
            lemma_tag_place(r.upstreams(), tag, 0);
        },
    }
}

/// A message that cannot be read is refused.
pub proof fn law_unreadable_message_is_refused<S: Store>(
    r: RouterResolver<S>,
    message: Seq<u8>,
    registry: Seq<RuleProviderImpl>,
)
    requires
        query::query_of(message) is None,
        message.len() >= 12,
    ensures
        r.planned(message, registry) matches RequestPlanView::Reply(bytes) && response::answer_ips(
            bytes,
        ).len() == 0 && bytes[3] % 16 == 5 && bytes[0] == message[0] && bytes[1] == message[1],
{
    wire::lemma_name_end_bounds(message, 12);
    response::law_refusal_has_no_address(message, 5);
    response::law_refusal_says_why(message, 5);
}

/// An answer is judged by the rules on answers exactly where it gives addresses and does not come
/// from an upstream of fake ones: a rejected one is replaced by an answer without addresses, and all
/// others are taken or asked for again elsewhere.
pub proof fn law_answers_are_judged<S: Store>(
    r: RouterResolver<S>,
    place: int,
    message: Seq<u8>,
    q: QueryView,
    resp: Seq<u8>,
    registry: Seq<RuleProviderImpl>,
)
    requires
        0 <= place < r.upstreams().len(),
        query::query_of(message) == Some(q),
    ensures
        r.upstreams()[place].1 is FakeIp || response::answer_ips(resp).len() == 0 ==> r.judged(
            place,
            message,
            q,
            resp,
            registry,
        ) is Accept,
        !(r.upstreams()[place].1 is FakeIp) && response::answer_ips(resp).len() > 0 ==> {
            let action = r.router@.response(
                r.upstreams()[place].0,
                q.domain,
                q.qtype,
                response::answer_ips(resp),
                registry,
            );
            match r.judged(place, message, q, resp, registry) {
                ResponsePlanView::Reject(bytes) => action is Reject && response::answer_ips(bytes).len()
                    == 0 && response::answers_query(q, bytes) && bytes[3] % 16 == 0,
                ResponsePlanView::Requery(at) => action matches ResponseActionView::Requery(tag) && 0
                    <= at < r.upstreams().len() && r.upstreams()[at].0 == tag,
                ResponsePlanView::Accept => !(action is Reject) && (
                action matches ResponseActionView::Requery(tag) ==> tag == r.upstreams()[place].0 || (
                forall|k: int| 0 <= k < r.upstreams().len() ==> (#[trigger] r.upstreams()[k]).0 != tag)),
            }
        },
{
    query::law_query_has_question(message);
    wire::lemma_name_end_bounds(message, 12);
    response::law_refusal_is_one_to_the_query(message, q, 0);
    response::law_refusal_has_no_address(message, 0);
    let ips = response::answer_ips(resp);
    let action = r.router@.response(r.upstreams()[place].0, q.domain, q.qtype, ips, registry);
    if let ResponseActionView::Requery(tag) = action {
        lemma_tag_place(r.upstreams(), tag, 0);
    }
}

/// An upstream that is set is found under its name with its settings, and other upstreams stay as
/// they are.
pub proof fn law_upstream_is_set(
    list: Seq<(Seq<char>, TransportView)>,
    tag: Seq<char>,
    t: TransportView,
    other: Seq<char>,
)
    ensures
        ({
            let after = tag_set(list, tag, t);
            let at = tag_place(after, tag, 0);
            &&& 0 <= at < after.len()
            &&& after[at] == (tag, t)
            &&& other != tag ==> {
                let before_at = tag_place(list, other, 0);
                let after_at = tag_place(after, other, 0);
                &&& before_at < list.len() <==> after_at < after.len()
                &&& before_at < list.len() ==> after[after_at] == list[before_at]
            }
        }),
{
    let after = tag_set(list, tag, t);
    lemma_tag_place(list, tag, 0);
    lemma_tag_place(list, other, 0);
    lemma_tag_place(after, tag, 0);
    lemma_tag_place(after, other, 0);
    let at = tag_place(list, tag, 0);
    if at < list.len() {
        assert(after[at] == (tag, t));
        assert forall|k: int| 0 <= k < at implies (#[trigger] after[k]).0 != tag by {
            assert(after[k] == list[k]);
        }
        let found = tag_place(after, tag, 0);
        if found < at {
            assert(after[found].0 != tag);
        }
    } else {
        assert(after[list.len() as int] == (tag, t));
        let found = tag_place(after, tag, 0);
        if found < list.len() {
            assert(after[found] == list[found]);
        }
    }
    if other != tag {
        let b = tag_place(list, other, 0);
        let a = tag_place(after, other, 0);
        if b < list.len() {
            assert(after[b] == list[b]);
            if b < a {
                assert(after[b].0 != other);
            }
        }
        if a < after.len() {
            if a < list.len() && a != at {
                assert(after[a] == list[a]);
                if a < b {
                    assert(list[a].0 != other);
                }
            }
        }
    }
}

/// A server's own outbound goes before the one that its upstream names.
pub proof fn law_own_outbound_wins(ns: NameServerView, proxy: Option<Seq<char>>)
    ensures
        ns.proxy is Some ==> effective_proxy(ns, proxy) == ns.proxy,
        ns.proxy is None ==> effective_proxy(ns, proxy) == proxy,
        ns.proxy is Some ==> server_key(ns, proxy) == server_key(ns, None),
{
}

/// A list of servers is asked in its order, each server once: no key stands twice, each is in the
/// table, and each server of the list that could be set up is asked under its key.
pub proof fn law_servers_are_keyed_once(
    table: Seq<(Seq<char>, EntryView)>,
    servers: Seq<NameServerView>,
    n: int,
    proxy: Option<Seq<char>>,
)
    requires
        0 <= n <= servers.len(),
    ensures
        ({
            let keys = keys_in(table, servers, n, proxy);
            &&& forall|i: int, j: int|
                0 <= i < j < keys.len() ==> (#[trigger] keys[i]) != (#[trigger] keys[j])
            &&& forall|i: int|
                0 <= i < keys.len() ==> upstream_pool::table_has(table, #[trigger] keys[i])
            &&& forall|k: int|
                0 <= k < n ==> (keys.contains(server_key(#[trigger] servers[k], proxy))
                    <==> upstream_pool::table_has(table, server_key(servers[k], proxy)))
        }),
    decreases n,
{
    if n > 0 {
        law_servers_are_keyed_once(table, servers, n - 1, proxy);
        let before = keys_in(table, servers, n - 1, proxy);
        let keys = keys_in(table, servers, n, proxy);
        let key = server_key(servers[n - 1], proxy);
        if upstream_pool::table_has(table, key) && !before.contains(key) {
            assert(keys == before.push(key));
            assert(keys[before.len() as int] == key);
            assert forall|i: int, j: int| 0 <= i < j < keys.len() implies (#[trigger] keys[i]) != (
            #[trigger] keys[j]) by {
                if j == before.len() {
                    assert(before.contains(before[i]));
                }
            }
            assert forall|k: int| 0 <= k < n implies (keys.contains(
                server_key(#[trigger] servers[k], proxy),
            ) <==> upstream_pool::table_has(table, server_key(servers[k], proxy))) by {
                let own = server_key(servers[k], proxy);
                if before.contains(own) {
                    let i = choose|i: int| 0 <= i < before.len() && before[i] == own;
                    assert(keys[i] == own);
                }
                if keys.contains(own) {
                    let i = choose|i: int| 0 <= i < keys.len() && keys[i] == own;
                    assert(upstream_pool::table_has(table, keys[i]));
                }
            }
        } else {
            assert forall|k: int| 0 <= k < n implies (keys.contains(
                server_key(#[trigger] servers[k], proxy),
            ) <==> upstream_pool::table_has(table, server_key(servers[k], proxy))) by {
                let own = server_key(servers[k], proxy);
                if keys.contains(own) {
                    let i = choose|i: int| 0 <= i < keys.len() && keys[i] == own;
                    assert(upstream_pool::table_has(table, keys[i]));
                }
            }
        }
    }
}

/// An answer's addresses are told of only where it lasts; what is told is what it gives.
pub proof fn law_told_is_what_was_answered(
    before: DnsResolvedNotifier,
    after: DnsResolvedNotifier,
    domain: Seq<char>,
    resp: Seq<u8>,
    ttl: u32,
    now: u64,
    ips: Seq<IpAddr>,
)
    requires
        told(before, after, domain, resp, ttl, now, ips),
    ensures
        ips == response::answer_ips(resp),
        ttl == 0 ==> after.reverse_lookup_cache == before.reverse_lookup_cache,
        ips.len() == 0 && ttl > 0 ==> after.reverse_lookup_cache@ == before.reverse_lookup_cache@,
{
}

/// The servers of an upstream go by the keys of those that could be set up, each key once, and what was
/// set up before stays.
pub proof fn law_registered_servers(
    table: Seq<(Seq<char>, EntryView)>,
    servers: Seq<NameServerView>,
    n: int,
    proxy: Option<Seq<char>>,
    known: Seq<char>,
)
    requires
        0 <= n <= servers.len(),
    ensures
        registered(table, servers, n, proxy).1.no_duplicates(),
        forall|i: int|
            0 <= i < registered(table, servers, n, proxy).1.len() ==> upstream_pool::table_has(
                registered(table, servers, n, proxy).0,
                #[trigger] registered(table, servers, n, proxy).1[i],
            ),
        forall|j: int|
            0 <= j < n ==> (registered(table, servers, n, proxy).1.contains(server_key(#[trigger] servers[j], proxy))
                <==> upstream_pool::table_has(registered(table, servers, n, proxy).0, server_key(servers[j], proxy))),
        upstream_pool::table_has(table, known) ==> upstream_pool::table_has(
            registered(table, servers, n, proxy).0,
            known,
        ),
    decreases n,
{
    if n > 0 {
        law_registered_servers(table, servers, n - 1, proxy, known);
        let before = registered(table, servers, n - 1, proxy);
        let after = registered(table, servers, n, proxy);
        let ns = servers[n - 1];
        let key = server_key(ns, proxy);
        upstream_pool::law_server_is_set_up_once(before.0, key, ns, effective_proxy(ns, proxy), None, ns, known);
        assert forall|i: int| 0 <= i < after.1.len() implies upstream_pool::table_has(
            after.0,
            #[trigger] after.1[i],
        ) by {
            if i < before.1.len() {
                assert(after.1[i] == before.1[i]);
                upstream_pool::law_server_is_set_up_once(before.0, key, ns, effective_proxy(ns, proxy), None, ns, after.1[i]);
            }
        }
        if after.1.len() > before.1.len() {
            assert(after.1[before.1.len() as int] == key);
        }
        assert(after.1.no_duplicates());
        assert forall|j: int| 0 <= j < n implies (after.1.contains(server_key(#[trigger] servers[j], proxy))
            <==> upstream_pool::table_has(after.0, server_key(servers[j], proxy))) by {
            let own = server_key(servers[j], proxy);
            upstream_pool::law_server_is_set_up_once(before.0, key, ns, effective_proxy(ns, proxy), None, ns, own);
            if after.1.contains(own) {
                let i = choose|i: int| 0 <= i < after.1.len() && after.1[i] == own;
                assert(upstream_pool::table_has(after.0, after.1[i]));
            }
            if before.1.contains(own) {
                let i = choose|i: int| 0 <= i < before.1.len() && before.1[i] == own;
                assert(after.1[i] == own);
            }
        }
    }
}

/// The upstreams that ask servers are listed under their tags, and no others are added.
pub proof fn law_remote_upstreams_are_listed(
    list: Seq<(Seq<char>, TransportView)>,
    upstreams: Seq<UpstreamView>,
    n: int,
    table: Seq<(Seq<char>, EntryView)>,
    policy: DnsCachePolicy,
    tag: Seq<char>,
)
    requires
        0 <= n <= upstreams.len(),
    ensures
        tag_place(with_remote(list, upstreams, n, table, policy), tag, 0) < with_remote(
            list,
            upstreams,
            n,
            table,
            policy,
        ).len() <==> tag_place(list, tag, 0) < list.len() || exists|i: int|
            0 <= i < n && (#[trigger] upstreams[i]).kind is Remote && upstreams[i].tag == tag,
    decreases n,
{
    if n > 0 {
        law_remote_upstreams_are_listed(list, upstreams, n - 1, table, policy, tag);
        let before = with_remote(list, upstreams, n - 1, table, policy);
        let after = with_remote(list, upstreams, n, table, policy);
        let u = upstreams[n - 1];
        lemma_tag_place(before, tag, 0);
        lemma_tag_place(before, u.tag, 0);
        lemma_tag_place(after, tag, 0);
        let b = tag_place(before, tag, 0);
        let a = tag_place(after, tag, 0);
        let own = tag_place(before, u.tag, 0);
        if u.kind is Remote {
            assert(after[own].0 == u.tag);
            assert forall|i: int| 0 <= i < before.len() implies (#[trigger] after[i]).0
                == before[i].0 by {}
            if b < before.len() {
                assert(after[b].0 == tag);
            }
            if u.tag == tag && a > own {
                assert(after[own].0 != tag);
            }
            if a < after.len() && a < before.len() {
                assert(before[a].0 == tag);
            }
        }
        if exists|i: int|
            0 <= i < n - 1 && (#[trigger] upstreams[i]).kind is Remote && upstreams[i].tag == tag {
            let i = choose|i: int|
                0 <= i < n - 1 && (#[trigger] upstreams[i]).kind is Remote && upstreams[i].tag
                    == tag;
            assert(0 <= i < n && upstreams[i].kind is Remote);
        }
        if exists|i: int|
            0 <= i < n && (#[trigger] upstreams[i]).kind is Remote && upstreams[i].tag == tag {
            let i = choose|i: int|
                0 <= i < n && (#[trigger] upstreams[i]).kind is Remote && upstreams[i].tag == tag;
            if i < n - 1 {
                assert(0 <= i < n - 1 && upstreams[i].kind is Remote);
            }
        }
    }
}

/// An address is a fake one where it lies in the pools that were made last and has a host there, and
/// without pools none is.
pub proof fn law_fake_addresses_have_hosts<S: Store>(r: RouterResolver<S>, addr: IpAddr)
    ensures
        r.fake_dns@.len() == 0 ==> !r.is_fake(addr),
        r.fake_dns@.len() > 0 ==> (r.is_fake(addr) <==> fakeip::in_pools(
            r.fake_dns@.last().pool4(),
            r.fake_dns@.last().pool6(),
            addr,
        ) && r.fake_dns@.last().held().host_of(addr) is Some),
{
}

} // verus!
