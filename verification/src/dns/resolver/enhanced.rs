//! A resolver with hosts, fake addresses, policies, fallbacks and a cache.
use vstd::prelude::*;

use crate::collections;
use crate::dns::collector::DnsCollector;
use crate::dns::config;
use crate::dns::config::{Config, DNSMode, EdnsClientSubnet, FixedTtl, Hosts};
use crate::dns::endpoint;
use crate::dns::endpoint::pick_version;
use crate::dns::fakeip;
use crate::dns::fakeip::{FakeDns, Opts, Store};
use crate::dns::filters::{DomainFilter, FallbackFilter};
use crate::dns::nameserver;
use crate::dns::nameserver::{NameServer, NameServerPolicy, NameServerView};
use crate::dns::query;
use crate::dns::query::{QType, QueryContext, QueryView};
use crate::dns::resolver;
use crate::dns::resolver::cache;
use crate::dns::resolver::cache::{CacheLookup, DnsCache, LookupView};
use crate::dns::resolver::policy::{NameServerPolicyContainer, PolicyView};
use crate::dns::resolver::reverse_cache::ReverseLookupCache;
use crate::dns::resolver::router;
use crate::dns::resolver::router::make_name_trie;
use crate::dns::resolver::router::transport;
use crate::dns::resolver::router::transport::{
    check_all_unspecified, exchange_flight, learn, record, use_shared, DnsCachePolicy,
    TransportStep,
};
use crate::dns::resolver::{address_query, choose_address, parse_ip_literal, resolve_version};
use crate::dns::resolver::{ResolveStep, ResolverKind};
use crate::dns::response;
use crate::dns::response::{
    build_dns_ip_response, build_dns_nodata, build_dns_nxdomain, extract_ips_from_dns_response,
    ResponseTemplate,
};
use crate::dns::singleflight;
use crate::dns::singleflight::{FlightLeader, Singleflight};
use crate::dns::upstream_pool;
use crate::dns::upstream_pool::{EntryView, UpstreamTable};
use crate::dns::wire;
use crate::error::Error;
use crate::ip;
use crate::ip::IpAddr;
use crate::providers::rule_provider;
use crate::providers::rule_provider::{change_counts, check_counts, RuleProviderImpl};
use crate::text;
use crate::trie;
use crate::trie::StringTrie;

verus! {

/// The table with the first `n` servers, and their keys, each once. Servers that cannot be used are
/// passed over.
pub open spec fn listed(
    table: Seq<(Seq<char>, EntryView)>,
    servers: Seq<NameServerView>,
    n: int,
    ecs: Option<EdnsClientSubnet>,
) -> (Seq<(Seq<char>, EntryView)>, Seq<Seq<char>>)
    decreases n,
{
    if n <= 0 {
        (table, Seq::empty())
    } else {
        let (before, keys) = listed(table, servers, n - 1, ecs);
        let ns = servers[n - 1];
        let after = upstream_pool::table_with(before, ns.text(), ns, ns.proxy, ecs);
        (
            after,
            if upstream_pool::table_has(after, ns.text()) && !keys.contains(ns.text()) {
                keys.push(ns.text())
            } else {
                keys
            },
        )
    }
}

/// The table with all the servers of a list, and their keys.
pub open spec fn all_listed(
    table: Seq<(Seq<char>, EntryView)>,
    servers: Seq<NameServerView>,
    ecs: Option<EdnsClientSubnet>,
) -> (Seq<(Seq<char>, EntryView)>, Seq<Seq<char>>) {
    listed(table, servers, servers.len() as int, ecs)
}

fn list_servers(table: &mut UpstreamTable, servers: &Vec<NameServer>, ecs: &Option<EdnsClientSubnet>) -> (res:
    Vec<String>)
    ensures
        final(table)@ == all_listed(old(table)@, nameserver::ns_views(servers@), *ecs).0,
        text::string_views(res@) == all_listed(
            old(table)@,
            nameserver::ns_views(servers@),
            *ecs,
        ).1,
{
    let ghost all = nameserver::ns_views(servers@);
    let mut keys: Vec<String> = Vec::new();
    assert(text::string_views(keys@) =~= Seq::empty());
    let mut i: usize = 0;
    while i < servers.len()
        invariant
            i <= servers@.len(),
            all == nameserver::ns_views(servers@),
            table@ == listed(old(table)@, all, i as int, *ecs).0,
            text::string_views(keys@) == listed(old(table)@, all, i as int, *ecs).1,
        decreases servers@.len() - i,
    {
        assert(all[i as int] == servers@[i as int]@);
        let key: String = servers[i].as_text();
        if table.register(key.as_str(), &servers[i], &servers[i].proxy, ecs)
            && !text::list_contains(&keys, key.as_str()) {
            let ghost before = keys@;
            keys.push(key);
            assert(text::string_views(keys@) =~= text::string_views(before).push(key@));
        }
        i = i + 1;
    }
    keys
}

/// A policy without entries.
pub open spec fn empty_policy() -> PolicyView {
    PolicyView {
        patterns: Seq::empty(),
        sites: Seq::empty(),
        sets: Seq::empty(),
        groups: Seq::empty(),
        has_entries: false,
        bound: None,
    }
}

/// The table with the servers of the first `n` entries of a policy, and the policy. Entries without
/// usable servers are passed over.
pub open spec fn policied(
    table: Seq<(Seq<char>, EntryView)>,
    entries: Seq<(Seq<char>, Seq<NameServerView>)>,
    n: int,
    ecs: Option<EdnsClientSubnet>,
) -> (Seq<(Seq<char>, EntryView)>, PolicyView)
    decreases n,
{
    if n <= 0 {
        (table, empty_policy())
    } else {
        let (before, policy) = policied(table, entries, n - 1, ecs);
        let (after, keys) = all_listed(before, entries[n - 1].1, ecs);
        (
            after,
            if keys.len() > 0 {
                policy.with_entry(entries[n - 1].0, keys)
            } else {
                policy
            },
        )
    }
}

fn list_policy(
    table: &mut UpstreamTable,
    entries: &Vec<NameServerPolicy>,
    ecs: &Option<EdnsClientSubnet>,
) -> (res: NameServerPolicyContainer)
    ensures
        final(table)@ == policied(
            old(table)@,
            nameserver::policy_views(entries@),
            entries@.len() as int,
            *ecs,
        ).0,
        res@ == policied(
            old(table)@,
            nameserver::policy_views(entries@),
            entries@.len() as int,
            *ecs,
        ).1,
{
    let ghost all = nameserver::policy_views(entries@);
    let mut policy: NameServerPolicyContainer = NameServerPolicyContainer::new();
    let mut i: usize = 0;
    while i < entries.len()
        invariant
            i <= entries@.len(),
            all == nameserver::policy_views(entries@),
            table@ == policied(old(table)@, all, i as int, *ecs).0,
            policy@ == policied(old(table)@, all, i as int, *ecs).1,
        decreases entries@.len() - i,
    {
        assert(all[i as int] == (
            entries@[i as int].domain@,
            nameserver::ns_views(entries@[i as int].nameservers@),
        ));
        let keys: Vec<String> = list_servers(table, &entries[i].nameservers, ecs);
        assert(text::string_views(keys@).len() == keys@.len());
        if keys.len() > 0 {
            policy.insert(entries[i].domain.as_str(), keys);
        }
        i = i + 1;
    }
    policy
}

/// The patterns of the first `n` domains with a fixed time to live.
pub open spec fn fixed_patterns(list: Seq<(Seq<char>, u32)>, n: int) -> Seq<(Seq<Seq<char>>, usize)>
    decreases n,
{
    if n <= 0 {
        Seq::empty()
    } else {
        trie::text_set(fixed_patterns(list, n - 1), list[n - 1].0, list[n - 1].1 as usize)
    }
}

fn make_fixed(list: &Vec<FixedTtl>) -> (res: StringTrie)
    ensures
        res@ == fixed_patterns(config::fixed_views(list@), list@.len() as int),
{
    let ghost all = config::fixed_views(list@);
    let mut trie: StringTrie = StringTrie::new();
    let mut i: usize = 0;
    while i < list.len()
        invariant
            i <= list@.len(),
            all == config::fixed_views(list@),
            trie@ == fixed_patterns(all, i as int),
        decreases list@.len() - i,
    {
        assert(all[i as int] == (list@[i as int].domain@, list@[i as int].ttl));
        trie.insert(&text::chars(list[i].domain.as_str()), list[i].ttl as usize);
        i = i + 1;
    }
    trie
}

/// The keys, where there are any.
pub open spec fn keys_are(list: Option<Vec<String>>, keys: Seq<Seq<char>>) -> bool {
    match list {
        Some(v) => keys.len() > 0 && text::string_views(v@) == keys,
        None => keys.len() == 0,
    }
}

fn some_keys(keys: Vec<String>) -> (res: Option<Vec<String>>)
    ensures
        keys_are(res, text::string_views(keys@)),
{
    assert(text::string_views(keys@).len() == keys@.len());
    if keys.len() > 0 {
        Some(keys)
    } else {
        None
    }
}

/// The filter for unwanted domains, or for domains that get no fake address, where there are
/// entries.
pub open spec fn filter_is(filter: Option<DomainFilter>, entries: Seq<Seq<char>>) -> bool {
    match filter {
        Some(f) => entries.len() > 0 && f.made_of(entries),
        None => entries.len() == 0,
    }
}

fn some_filter(entries: &Vec<String>) -> (res: Option<DomainFilter>)
    ensures
        filter_is(res, text::string_views(entries@)),
{
    assert(text::string_views(entries@).len() == entries@.len());
    if entries.len() > 0 {
        Some(DomainFilter::new(entries))
    } else {
        None
    }
}

/// The filter that calls for the fallback servers, where there is anything to filter by.
pub open spec fn fallback_is(filter: Option<FallbackFilter>, def: config::FallbackFilter) -> bool {
    exists|made: FallbackFilter|
        #[trigger] made.made_of(
            text::string_views(def.domain@),
            text::string_views(def.ip_cidr@),
            def.geo_ip,
            def.geo_ip_code@,
        ) && filter == if made.domains() is None && made.networks() is None && made.countries()
            is None {
            None
        } else {
            Some(made)
        }
}

fn some_fallback(def: &config::FallbackFilter) -> (res: Option<FallbackFilter>)
    ensures
        fallback_is(res, *def),
{
    let made: FallbackFilter = FallbackFilter::new(
        &def.domain,
        &def.ip_cidr,
        def.geo_ip,
        def.geo_ip_code.as_str(),
    );
    if made.is_empty() {
        None
    } else {
        Some(made)
    }
}

/// The resolver that the names of servers are looked up with.
pub struct BootstrapResolver {
    pub table: UpstreamTable,
    pub upstreams: Vec<String>,
}

impl BootstrapResolver {
    /// What is to be done to find an address of a host: an IPv4 address is looked for first.
    pub fn resolve(&self, host: &str) -> (res: ResolveStep)
        ensures
            ip::ip_value(host@) is Some ==> res == ResolveStep::Known(ip::ip_value(host@)),
            ip::ip_value(host@) is None ==> resolver::version_step(host@, false, res),
    {
        match parse_ip_literal(host) {
            Some(addr) => ResolveStep::Known(Some(addr)),
            None => resolve_version(host, false),
        }
    }

    /// What is to be done once an IPv4 address was looked for: where there is none, an IPv6 address
    /// is looked for.
    pub fn resolve_next(&self, host: &str, found: Option<IpAddr>) -> (res: ResolveStep)
        ensures
            found is Some ==> res == ResolveStep::Known(found),
            found is None ==> resolver::version_step(host@, true, res),
    {
        match found {
            Some(addr) => ResolveStep::Known(Some(addr)),
            None => resolve_version(host, true),
        }
    }
}

/// The servers that a configuration gives: where each list ends, the table is what the next one
/// starts from.
pub struct ServersView {
    pub table: Seq<(Seq<char>, EntryView)>,
    pub main: Seq<Seq<char>>,
    pub fallback: Seq<Seq<char>>,
    pub policy: PolicyView,
    pub proxy: Seq<Seq<char>>,
    pub direct: Seq<Seq<char>>,
}

/// The servers of a configuration, and those for names that get no fake address.
pub open spec fn servers_of(cfg: Config, direct: Seq<NameServerView>) -> ServersView {
    let ecs = cfg.edns_client_subnet;
    let (t1, main) = all_listed(Seq::empty(), nameserver::ns_views(cfg.nameserver@), ecs);
    let (t2, fallback) = all_listed(t1, nameserver::ns_views(cfg.fallback@), ecs);
    let (t3, policy) = policied(
        t2,
        nameserver::policy_views(cfg.nameserver_policy@),
        cfg.nameserver_policy@.len() as int,
        ecs,
    );
    let (t4, proxy) = match cfg.proxy_server_nameserver {
        Some(list) => all_listed(t3, nameserver::ns_views(list@), ecs),
        None => (t3, Seq::empty()),
    };
    let (t5, direct_keys) = all_listed(t4, direct, ecs);
    ServersView { table: t5, main, fallback, policy, proxy, direct: direct_keys }
}

/// A resolver with hosts, fake addresses, policies, fallbacks and a cache.
pub struct EnhancedResolver<S: Store> {
    pub ipv6: bool,
    pub hosts: Option<Hosts>,
    pub bootstrap: Option<BootstrapResolver>,
    pub table: UpstreamTable,
    pub main_upstreams: Vec<String>,
    pub fallback_upstreams: Option<Vec<String>>,
    pub fallback_filter: Option<FallbackFilter>,
    pub lru_cache: Option<DnsCache>,
    pub policy: Option<NameServerPolicyContainer>,
    pub proxy_upstreams: Option<Vec<String>>,
    /// The servers for names that get no fake address.
    pub direct_upstreams: Option<Vec<String>>,
    pub proxy_server_domains: Option<StringTrie>,
    pub fake_dns: Option<FakeDns<S>>,
    pub fake_ip_ttl: u32,
    pub reverse_lookup_cache: Option<ReverseLookupCache>,
    pub black_domain_filter: Option<DomainFilter>,
    pub collector: Option<DnsCollector>,
    pub singleflight: Singleflight,
    pub optimistic_cache_ttl: u32,
    /// In milliseconds.
    pub stale_cache_retention: u64,
    /// The domains with a fixed time to live, in seconds.
    pub fixed_domain_ttl: Option<StringTrie>,
    /// How often each rule set had changed when the filter's verdicts were last known to hold.
    pub seen_changes: Vec<u64>,
}

impl<S: Store> EnhancedResolver<S> {
    /// The pool of fake addresses, what it remembers of the rule sets and the queries under way are
    /// in order.
    pub open spec fn wf(&self, registry: Seq<RuleProviderImpl>) -> bool {
        &&& self.fake_dns matches Some(dns) ==> dns.wf() && dns.memory_ok(registry)
        &&& self.singleflight@.ok()
    }

    /// Makes the resolver of a configuration. `store` is the store of fake addresses,
    /// `server_names` are the names of servers of proxies, `direct` are the servers for names that
    /// get no fake address.
    pub fn new(
        cfg: Config,
        store: S,
        server_names: &Vec<String>,
        direct: &Vec<NameServer>,
        collector: Option<DnsCollector>,
    ) -> (res: EnhancedResolver<S>)
        requires
            cfg.enhance_mode is FakeIp ==> cfg.fake_ip_range.wf() && cfg.fake_ip_range.prefix_len
                <= 30 && cfg.fake_ip_range6.wf() && cfg.fake_ip_range6.prefix_len <= 126
                && store.wf(),
        ensures
            forall|registry: Seq<RuleProviderImpl>| res.wf(registry),
            res.ipv6 == cfg.ipv6,
            res.hosts == cfg.hosts,
            ({
                let servers = nameserver::ns_views(cfg.default_nameserver@);
                let (table, keys) = all_listed(Seq::empty(), servers, cfg.edns_client_subnet);
                match res.bootstrap {
                    Some(b) => keys.len() > 0 && b.table@ == table && text::string_views(
                        b.upstreams@,
                    ) == keys,
                    None => keys.len() == 0,
                }
            }),
            ({
                let servers = servers_of(cfg, nameserver::ns_views(direct@));
                &&& res.table@ == servers.table
                &&& text::string_views(res.main_upstreams@) == servers.main
                &&& keys_are(res.fallback_upstreams, servers.fallback)
                &&& res.policy is Some <==> servers.policy.has_entries
                &&& res.policy matches Some(p) ==> p@ == servers.policy
                &&& keys_are(res.proxy_upstreams, servers.proxy)
                &&& keys_are(res.direct_upstreams, servers.direct)
                &&& res.proxy_server_domains is Some <==> servers.proxy.len() > 0
                    && server_names@.len() > 0
            }),
            res.proxy_server_domains matches Some(t) ==> t@ == router::name_patterns(
                text::string_views(server_names@),
                server_names@.len() as int,
            ),
            res.fake_dns is Some <==> cfg.enhance_mode is FakeIp,
            res.fake_dns matches Some(dns) ==> filter_is(
                dns.filter(),
                text::string_views(cfg.fake_ip_filter@),
            ) && dns.mode() == cfg.fake_ip_filter_mode && fakeip::made_over(
                dns,
                cfg.fake_ip_range,
                cfg.fake_ip_range6,
                store,
            ),
            res.fake_ip_ttl == cfg.fake_ip_ttl,
            fallback_is(res.fallback_filter, cfg.fallback_filter),
            filter_is(res.black_domain_filter, text::string_views(cfg.black_filter@)),
            res.lru_cache matches Some(c) && c@ == collections::empty_store(4096),
            res.reverse_lookup_cache matches Some(c) && c@ == collections::empty_store(4096),
            res.singleflight@.flights.len() == 0,
            res.singleflight@.counters == singleflight::no_counts(),
            res.collector == collector,
            res.optimistic_cache_ttl == cfg.optimistic_cache_ttl,
            res.stale_cache_retention == cfg.stale_cache_retention * 1000,
            res.fixed_domain_ttl is Some <==> cfg.fixed_domain_ttl@.len() > 0,
            res.fixed_domain_ttl matches Some(t) ==> t@ == fixed_patterns(
                config::fixed_views(cfg.fixed_domain_ttl@),
                cfg.fixed_domain_ttl@.len() as int,
            ),
            res.seen_changes@.len() == 0,
    {
        let ecs: Option<EdnsClientSubnet> = cfg.edns_client_subnet;
        let mut default_table: UpstreamTable = UpstreamTable::new();
        let default_keys: Vec<String> = list_servers(
            &mut default_table,
            &cfg.default_nameserver,
            &ecs,
        );
        assert(text::string_views(default_keys@).len() == default_keys@.len());
        let bootstrap: Option<BootstrapResolver> = if default_keys.len() > 0 {
            Some(BootstrapResolver { table: default_table, upstreams: default_keys })
        } else {
            None
        };
        let mut table: UpstreamTable = UpstreamTable::new();
        let main_upstreams: Vec<String> = list_servers(&mut table, &cfg.nameserver, &ecs);
        let fallback_keys: Vec<String> = list_servers(&mut table, &cfg.fallback, &ecs);
        let policy: NameServerPolicyContainer = list_policy(
            &mut table,
            &cfg.nameserver_policy,
            &ecs,
        );
        let proxy_keys: Vec<String> = match &cfg.proxy_server_nameserver {
            Some(list) => list_servers(&mut table, list, &ecs),
            None => {
                let none: Vec<String> = Vec::new();
                assert(text::string_views(none@) =~= Seq::empty());
                none
            },
        };
        assert(text::string_views(proxy_keys@).len() == proxy_keys@.len());
        let direct_keys: Vec<String> = list_servers(&mut table, direct, &ecs);
        let proxy_server_domains: Option<StringTrie> = if server_names.len() > 0
            && proxy_keys.len() > 0 {
            Some(make_name_trie(server_names))
        } else {
            None
        };
        let fake_dns: Option<FakeDns<S>> = match cfg.enhance_mode {
            DNSMode::FakeIp => {
                let made = FakeDns::new(
                    Opts {
                        ipnet: cfg.fake_ip_range,
                        ipnet6: cfg.fake_ip_range6,
                        domain_filter: some_filter(&cfg.fake_ip_filter),
                        filter_mode: cfg.fake_ip_filter_mode,
                        store,
                    },
                );
                match made {
                    Ok(dns) => Some(dns),
                    Err(_) => {
                        assert(false);
                        None
                    },
                }
            },
            _ => None,
        };
        let fixed_domain_ttl: Option<StringTrie> = if cfg.fixed_domain_ttl.len() > 0 {
            Some(make_fixed(&cfg.fixed_domain_ttl))
        } else {
            None
        };
        EnhancedResolver {
            ipv6: cfg.ipv6,
            bootstrap,
            table,
            main_upstreams,
            fallback_upstreams: some_keys(fallback_keys),
            fallback_filter: some_fallback(&cfg.fallback_filter),
            lru_cache: Some(DnsCache::new(4096)),
            policy: if policy.is_empty() {
                None
            } else {
                Some(policy)
            },
            proxy_upstreams: some_keys(proxy_keys),
            direct_upstreams: some_keys(direct_keys),
            proxy_server_domains,
            fake_dns,
            fake_ip_ttl: cfg.fake_ip_ttl,
            reverse_lookup_cache: Some(ReverseLookupCache::new(4096)),
            black_domain_filter: some_filter(&cfg.black_filter),
            collector,
            singleflight: Singleflight::new(),
            optimistic_cache_ttl: cfg.optimistic_cache_ttl,
            stale_cache_retention: cfg.stale_cache_retention as u64 * 1000,
            fixed_domain_ttl,
            hosts: cfg.hosts,
            seen_changes: Vec::new(),
        }
    }
}

/// A domain gets a fake address.
pub open spec fn gets_fake<S: Store>(
    fake: Option<FakeDns<S>>,
    host: Seq<char>,
    registry: Seq<RuleProviderImpl>,
) -> bool {
    fake matches Some(dns) && !fakeip::skips(dns.filter(), dns.mode(), host, registry)
}

/// Nothing but what is remembered of the filter differs.
pub open spec fn same_fake<S: Store>(
    before: Option<FakeDns<S>>,
    after: Option<FakeDns<S>>,
    registry: Seq<RuleProviderImpl>,
) -> bool {
    match (before, after) {
        (Some(a), Some(b)) => fakeip::same_but_memory(a, b, registry),
        (None, None) => true,
        _ => false,
    }
}

/// A fake address of a host was found or allocated.
pub open spec fn found_fake<S: Store>(
    before: FakeDns<S>,
    after: FakeDns<S>,
    host: Seq<char>,
    v6: bool,
    addr: IpAddr,
) -> bool {
    if v6 {
        fakeip::found_v6(before, after, host, addr)
    } else {
        fakeip::found_v4(before, after, host, addr)
    }
}

/// A host was given a fake address.
pub open spec fn gave_fake<S: Store>(
    before: Option<FakeDns<S>>,
    after: Option<FakeDns<S>>,
    host: Seq<char>,
    v6: bool,
    registry: Seq<RuleProviderImpl>,
    addr: IpAddr,
) -> bool {
    before is Some && after is Some && exists|mid: FakeDns<S>|
        fakeip::same_but_memory(before.unwrap(), mid, registry) && #[trigger] found_fake(
            mid,
            after.unwrap(),
            host,
            v6,
            addr,
        )
}

fn check_fake<S: Store>(
    fake: &mut Option<FakeDns<S>>,
    host: &str,
    registry: &Vec<RuleProviderImpl>,
) -> (res: bool)
    requires
        *old(fake) matches Some(dns) ==> dns.wf() && dns.memory_ok(registry@),
    ensures
        res == gets_fake(*old(fake), host@, registry@),
        same_fake(*old(fake), *final(fake), registry@),
{
    match fake {
        Some(dns) => !dns.should_skip(host, registry),
        None => false,
    }
}

fn give_fake<S: Store>(fake: &mut Option<FakeDns<S>>, host: &str, v6: bool) -> (res: Option<IpAddr>)
    requires
        *old(fake) matches Some(dns) ==> dns.wf(),
    ensures
        *old(fake) is None ==> res is None && *final(fake) is None,
        *old(fake) is Some ==> res is Some && *final(fake) is Some && found_fake(
            (*old(fake)).unwrap(),
            (*final(fake)).unwrap(),
            host@,
            v6,
            res.unwrap(),
        ),
{
    match fake {
        Some(dns) => if v6 {
            Some(dns.lookupv6(host))
        } else {
            Some(dns.lookup(host))
        },
        None => None,
    }
}

/// What is known of a query before any server is asked.
pub enum EarlyView {
    /// This is the answer.
    Reply(Seq<u8>),
    /// The answer is a fake address, an IPv6 one where this says so.
    Fake(bool),
    /// Nothing.
    Rest,
}

/// The address answers a query of the type.
pub open spec fn fits_type(qtype: QType, addr: IpAddr) -> bool {
    match addr {
        IpAddr::V4(_) => qtype == QType::A,
        IpAddr::V6(_) => qtype == QType::AAAA,
    }
}

fn check_type(qtype: QType, addr: &IpAddr) -> (res: bool)
    ensures
        res == fits_type(qtype, *addr),
{
    match addr {
        IpAddr::V4(_) => qtype == QType::A,
        IpAddr::V6(_) => qtype == QType::AAAA,
    }
}

/// What is to be done with a query.
pub enum ExchangeStep {
    /// It is malformed.
    Invalid,
    /// This is the answer.
    Reply(Vec<u8>),
    /// Go on as the step says.
    Go(TransportStep, QueryContext),
}

/// What a cache knows of a query; without a cache, nothing is known.
pub open spec fn known_of(lru_cache: Option<DnsCache>, q: QueryView, now: u64) -> LookupView {
    match lru_cache {
        Some(lru) => lru.finds(""@, q, now),
        None => LookupView::Miss,
    }
}

/// What is left of a cache after a look at a query.
pub open spec fn after_look(
    before: Option<DnsCache>,
    after: Option<DnsCache>,
    q: QueryView,
    now: u64,
) -> bool {
    match (before, after) {
        (Some(a), Some(b)) => a.left_after_look(b, ""@, q, now),
        (None, None) => true,
        _ => false,
    }
}

/// Which servers are asked for a query.
pub enum UpstreamPlan {
    /// There are none.
    NoServers,
    /// These: the first answer counts.
    Servers(Vec<String>),
    /// Both lists; which answer counts is decided once both are there.
    WithFallback(Vec<String>, Vec<String>),
}

/// Which servers are asked for a query.
pub enum UpstreamPlanView {
    NoServers,
    Servers(Seq<Seq<char>>),
    WithFallback(Seq<Seq<char>>, Seq<Seq<char>>),
}

impl View for UpstreamPlan {
    type V = UpstreamPlanView;

    open spec fn view(&self) -> UpstreamPlanView {
        match self {
            UpstreamPlan::NoServers => UpstreamPlanView::NoServers,
            UpstreamPlan::Servers(v) => UpstreamPlanView::Servers(text::string_views(v@)),
            UpstreamPlan::WithFallback(a, b) => UpstreamPlanView::WithFallback(
                text::string_views(a@),
                text::string_views(b@),
            ),
        }
    }
}

/// The servers, where there are any.
pub open spec fn servers_plan(servers: Seq<Seq<char>>) -> UpstreamPlanView {
    if servers.len() == 0 {
        UpstreamPlanView::NoServers
    } else {
        UpstreamPlanView::Servers(servers)
    }
}

fn plan_servers(servers: Vec<String>) -> (res: UpstreamPlan)
    ensures
        res@ == servers_plan(text::string_views(servers@)),
{
    assert(text::string_views(servers@).len() == servers@.len());
    if servers.len() == 0 {
        UpstreamPlan::NoServers
    } else {
        UpstreamPlan::Servers(servers)
    }
}

/// Which of two answers counts.
#[derive(Clone, Copy, Debug, PartialEq, Eq, Structural)]
pub enum Pick {
    Main,
    Fallback,
    Neither,
}

/// The country of the address at a place, as far as it is known.
pub open spec fn country_at(countries: Seq<Option<String>>, i: int) -> Option<Seq<char>> {
    if 0 <= i < countries.len() {
        text::opt_view(countries[i])
    } else {
        None
    }
}

/// The answer of the main servers calls for the fallback servers: the filter matches the domain or
/// one of the addresses.
pub open spec fn calls_fallback(
    filter: FallbackFilter,
    domain: Seq<char>,
    ips: Seq<IpAddr>,
    countries: Seq<Option<String>>,
    registry: Seq<RuleProviderImpl>,
) -> bool {
    filter.domain_matches(domain, registry) || exists|i: int|
        0 <= i < ips.len() && filter.ip_matches(
            #[trigger] ips[i],
            country_at(countries, i),
            registry,
        )
}

fn check_fallback(
    filter: &FallbackFilter,
    domain: &str,
    ips: &Vec<IpAddr>,
    countries: &Vec<Option<String>>,
    registry: &Vec<RuleProviderImpl>,
) -> (res: bool)
    ensures
        res == calls_fallback(*filter, domain@, ips@, countries@, registry@),
{
    if filter.match_domain(domain, registry) {
        return true;
    }
    let mut i: usize = 0;
    while i < ips.len()
        invariant
            i <= ips@.len(),
            !filter.domain_matches(domain@, registry@),
            forall|j: int|
                0 <= j < i ==> !filter.ip_matches(
                    #[trigger] ips@[j],
                    country_at(countries@, j),
                    registry@,
                ),
        decreases ips@.len() - i,
    {
        let country: Option<String> = if i < countries.len() {
            text::copy_opt(&countries[i])
        } else {
            None
        };
        assert(text::opt_view(country) == country_at(countries@, i as int));
        if filter.match_ip(&ips[i], &country, registry) {
            assert(filter.ip_matches(
                ips@[i as int],
                country_at(countries@, i as int),
                registry@,
            ));
            return true;
        }
        i = i + 1;
    }
    false
}

/// What came of an answer from a server.
pub struct Fresh {
    /// The addresses that are to be told of.
    pub ips: Vec<IpAddr>,
    /// For how many seconds they are good.
    pub ttl: u32,
    /// What those who wait for the answer get; nothing where it is no answer to the query.
    pub shared: Option<Vec<u8>>,
}

/// What is to be done to find an address of a host.
#[derive(Debug)]
pub enum LookupStep {
    /// This is the answer.
    Known(Option<IpAddr>),
    /// Send this query.
    Ask(Vec<u8>),
    /// The host is no domain name.
    Invalid,
    /// IPv6 is switched off.
    Ipv6Disabled,
}

/// What is known of a host before any server is asked.
pub enum LocalView {
    Known(Option<IpAddr>),
    Fake,
    Ipv6Disabled,
    Ask,
}

/// The address, where it is of the version; `None` asks for no version.
pub open spec fn of_kind(addr: IpAddr, v6: Option<bool>) -> Option<IpAddr> {
    if v6 == Some(addr is V4) {
        None
    } else {
        Some(addr)
    }
}

fn keep_kind(addr: IpAddr, v6: Option<bool>) -> (res: Option<IpAddr>)
    ensures
        res == of_kind(addr, v6),
{
    match (addr, v6) {
        (IpAddr::V4(_), Some(true)) => None,
        (IpAddr::V6(_), Some(false)) => None,
        _ => Some(addr),
    }
}

/// An IPv6 address is asked for.
pub open spec fn wants_v6(v6: Option<bool>) -> bool {
    v6 == Some(true)
}

/// The addresses of the version; `None` asks for no version.
pub open spec fn kept_ips(ips: Seq<IpAddr>, v6: Option<bool>) -> Seq<IpAddr> {
    match v6 {
        Some(v6) => endpoint::of_version(ips, v6),
        None => ips,
    }
}

/// A query for addresses of a host is sent, unless the host is no domain name.
pub open spec fn asks_for(host: Seq<char>, v6: bool, step: LookupStep) -> bool {
    match query::wire_name(host) {
        Some(_) => step matches LookupStep::Ask(wire) && resolver::is_address_query(
            wire@,
            host,
            v6,
        ),
        None => step is Invalid,
    }
}

impl<S: Store> EnhancedResolver<S> {
    /// The domain is unwanted.
    pub open spec fn blacklisted(&self, host: Seq<char>, registry: Seq<RuleProviderImpl>) -> bool {
        self.black_domain_filter matches Some(f) && f.matches(host, registry)
    }

    /// Whether a domain is unwanted.
    pub fn is_blacklisted(&self, host: &str, registry: &Vec<RuleProviderImpl>) -> (res: bool)
        ensures
            res == self.blacklisted(host@, registry@),
    {
        match &self.black_domain_filter {
            Some(f) => f.apply(host, registry),
            None => false,
        }
    }

    /// The fixed time to live of a domain, in seconds.
    pub open spec fn fixed_ttl(&self, domain: Seq<char>) -> Option<u32> {
        match self.fixed_domain_ttl {
            Some(t) => match trie::found(t@, domain) {
                Some(ttl) => Some(ttl as u32),
                None => None,
            },
            None => None,
        }
    }

    /// The fixed time to live of a domain, in seconds.
    pub fn match_fixed_domain_ttl(&self, domain: &str) -> (res: Option<u32>)
        ensures
            res == self.fixed_ttl(domain@),
    {
        match &self.fixed_domain_ttl {
            Some(t) => match t.search(&text::chars(domain)) {
                Some(ttl) => Some(ttl as u32),
                None => None,
            },
            None => None,
        }
    }

    /// The address of a host in the table of hosts.
    pub open spec fn hosts_address(&self, host: Seq<char>) -> Option<IpAddr> {
        match self.hosts {
            Some(hosts) => hosts.address_of(host),
            None => None,
        }
    }

    fn search_hosts(&self, host: &str) -> (res: Option<IpAddr>)
        ensures
            res == self.hosts_address(host@),
    {
        match &self.hosts {
            Some(hosts) => hosts.search(host),
            None => None,
        }
    }

    /// What is known of a query before any server is asked: an unwanted domain does not exist;
    /// there are no IPv6 addresses where IPv6 is switched off; the table of hosts answers queries
    /// for the addresses it has; then come fake addresses.
    pub open spec fn early(&self, message: Seq<u8>, q: QueryView, registry: Seq<RuleProviderImpl>) -> EarlyView {
        let known = self.hosts_address(q.domain);
        if self.blacklisted(q.domain, registry) {
            EarlyView::Reply(response::empty_response(message, 3))
        } else if q.qtype == QType::AAAA && !self.ipv6 {
            EarlyView::Reply(response::empty_response(message, 0))
        } else if known is Some && fits_type(q.qtype, known.unwrap()) {
            EarlyView::Reply(response::ip_response(message, seq![known.unwrap()], 60).unwrap())
        } else if gets_fake(self.fake_dns, q.domain, registry) && (q.qtype == QType::A || q.qtype
            == QType::AAAA) {
            EarlyView::Fake(q.qtype == QType::AAAA)
        } else {
            EarlyView::Rest
        }
    }

    fn reply_locally(
        &self,
        message: &[u8],
        query: &QueryContext,
        registry: &Vec<RuleProviderImpl>,
    ) -> (res: Option<Vec<u8>>)
        requires
            query::query_of(message@) == Some(query@),
        ensures
            match self.early(message@, query@, registry@) {
                EarlyView::Reply(bytes) => res is Some && res.unwrap()@ == bytes,
                _ => res is None,
            },
    {
        proof {
            query::law_query_has_question(message@);
        }
        if self.is_blacklisted(query.domain.as_str(), registry) {
            return Some(build_dns_nxdomain(message));
        }
        if query.qtype == QType::AAAA && !self.ipv6 {
            return Some(build_dns_nodata(message));
        }
        match self.search_hosts(query.domain.as_str()) {
            Some(addr) => {
                if check_type(query.qtype, &addr) {
                    let mut ips: Vec<IpAddr> = Vec::new();
                    ips.push(addr);
                    assert(ips@ =~= seq![addr]);
                    return build_dns_ip_response(message, &ips, 60);
                }
            },
            None => {},
        }
        None
    }

    /// The query was answered with a fake address.
    pub open spec fn replied_fake(
        before: Option<FakeDns<S>>,
        after: Option<FakeDns<S>>,
        message: Seq<u8>,
        host: Seq<char>,
        v6: bool,
        ttl: u32,
        registry: Seq<RuleProviderImpl>,
        reply: Seq<u8>,
    ) -> bool {
        exists|addr: IpAddr|
            #[trigger] gave_fake(before, after, host, v6, registry, addr)
                && response::ip_response(message, seq![addr], ttl) == Some(reply)
    }

    fn reply_fake(
        fake_dns: &mut Option<FakeDns<S>>,
        message: &[u8],
        query: &QueryContext,
        ttl: u32,
        registry: &Vec<RuleProviderImpl>,
    ) -> (res: Option<Vec<u8>>)
        requires
            *old(fake_dns) matches Some(dns) ==> dns.wf() && dns.memory_ok(registry@),
            query::query_of(message@) == Some(query@),
        ensures
            *final(fake_dns) matches Some(dns) ==> dns.wf() && dns.memory_ok(registry@),
            if gets_fake(*old(fake_dns), query@.domain, registry@) && transport::asks_address(
                query@.qtype,
            ) {
                res is Some && Self::replied_fake(
                    *old(fake_dns),
                    *final(fake_dns),
                    message@,
                    query@.domain,
                    query@.qtype == QType::AAAA,
                    ttl,
                    registry@,
                    res.unwrap()@,
                )
            } else {
                res is None && same_fake(*old(fake_dns), *final(fake_dns), registry@)
            },
    {
        proof {
            query::law_query_has_question(message@);
        }
        let host: &str = query.domain.as_str();
        let fake: bool = check_fake(fake_dns, host, registry);
        let ghost mid = *fake_dns;
        if !fake || (query.qtype != QType::A && query.qtype != QType::AAAA) {
            return None;
        }
        let v6: bool = query.qtype == QType::AAAA;
        match give_fake(fake_dns, host, v6) {
            Some(addr) => {
                assert(found_fake(mid.unwrap(), fake_dns.unwrap(), host@, v6, addr));
                assert(gave_fake(*old(fake_dns), *fake_dns, host@, v6, registry@, addr));
                let mut ips: Vec<IpAddr> = Vec::new();
                ips.push(addr);
                assert(ips@ =~= seq![addr]);
                build_dns_ip_response(message, &ips, ttl)
            },
            None => None,
        }
    }

    fn lookup_cache(lru_cache: &mut Option<DnsCache>, query: &QueryContext, now: u64) -> (res:
        CacheLookup)
        ensures
            res@ == known_of(*old(lru_cache), query@, now),
            after_look(*old(lru_cache), *final(lru_cache), query@, now),
    {
        match lru_cache {
            Some(lru) => lru.lookup(query, now),
            None => CacheLookup::Miss,
        }
    }

    /// The step for a query that nothing is known of before any server is asked.
    pub open spec fn stepped(
        before: EnhancedResolver<S>,
        after: EnhancedResolver<S>,
        q: QueryView,
        now: u64,
        res: ExchangeStep,
    ) -> bool {
        let (flights, view) = transport::exchanged(
            before.singleflight@,
            known_of(before.lru_cache, q, now),
            q,
            None,
        );
        &&& after.singleflight@ == flights
        &&& res matches ExchangeStep::Go(step, qc) && qc@ == q && transport::step_is(step, view, q)
    }

    /// What a query leads to: a malformed one to nothing; else what is known of it before any server
    /// is asked is the answer; else the cache and the queries under way decide.
    pub open spec fn exchanged_as(
        before: EnhancedResolver<S>,
        after: EnhancedResolver<S>,
        message: Seq<u8>,
        registry: Seq<RuleProviderImpl>,
        now: u64,
        res: ExchangeStep,
    ) -> bool {
        match query::query_of(message) {
            None => res is Invalid && after == before,
            Some(q) => match before.early(message, q, registry) {
                EarlyView::Reply(bytes) => after == before && (res matches ExchangeStep::Reply(v)
                    && v@ == bytes),
                EarlyView::Fake(v6) => res matches ExchangeStep::Reply(v) && Self::replied_fake(
                    before.fake_dns,
                    after.fake_dns,
                    message,
                    q.domain,
                    v6,
                    before.fake_ip_ttl,
                    registry,
                    v@,
                ) && after.singleflight == before.singleflight && after.lru_cache
                    == before.lru_cache,
                EarlyView::Rest => Self::stepped(before, after, q, now, res) && same_fake(
                    before.fake_dns,
                    after.fake_dns,
                    registry,
                ) && after_look(before.lru_cache, after.lru_cache, q, now),
            },
        }
    }

    /// What is to be done with a query. What the cache knows of it is served; else equal queries
    /// are asked once.
    pub fn exchange(&mut self, message: &[u8], registry: &Vec<RuleProviderImpl>, now: u64) -> (res:
        ExchangeStep)
        requires
            old(self).wf(registry@),
        ensures
            final(self).wf(registry@),
            *final(self) == (EnhancedResolver {
                fake_dns: final(self).fake_dns,
                lru_cache: final(self).lru_cache,
                singleflight: final(self).singleflight,
                ..*old(self)
            }),
            Self::exchanged_as(*old(self), *final(self), message@, registry@, now, res),
    {
        let query: QueryContext = match QueryContext::parse(message) {
            Some(query) => query,
            None => return ExchangeStep::Invalid,
        };
        if let Some(resp) = self.reply_locally(message, &query, registry) {
            return ExchangeStep::Reply(resp);
        }
        let ttl: u32 = self.fake_ip_ttl;
        if let Some(resp) = Self::reply_fake(&mut self.fake_dns, message, &query, ttl, registry) {
            return ExchangeStep::Reply(resp);
        }
        let found: CacheLookup = Self::lookup_cache(&mut self.lru_cache, &query, now);
        let step: TransportStep = exchange_flight(&mut self.singleflight, found, &query, None);
        ExchangeStep::Go(step, query)
    }

    /// What is to be done once the caller that was waited for is done: its answer is used, or,
    /// where there is none, the query is asked.
    pub fn on_waited(&mut self, answer: Option<Vec<u8>>, query: &QueryContext) -> (res: TransportStep)
        requires
            old(self).singleflight@.ok(),
        ensures
            final(self).singleflight@ == match answer {
                Some(_) => old(self).singleflight@,
                None => old(self).singleflight@.retried(),
            },
            final(self).singleflight@.ok(),
            *final(self) == (EnhancedResolver {
                singleflight: final(self).singleflight,
                ..*old(self)
            }),
            transport::step_is(
                res,
                match answer {
                    Some(wire) => transport::shared_step(wire@, query@, None),
                    None => transport::StepView::Fetch(false),
                },
                query@,
            ),
    {
        match answer {
            Some(wire) => use_shared(wire, query, None),
            None => {
                self.singleflight.waiter_retries();
                TransportStep::Fetch(None)
            },
        }
    }
}

impl<S: Store> EnhancedResolver<S> {
    /// The name is one of a server of a proxy, and there are servers for these.
    pub open spec fn is_proxy_name(&self, domain: Seq<char>) -> bool {
        self.proxy_upstreams is Some && self.proxy_server_domains is Some && trie::found(
            self.proxy_server_domains.unwrap()@,
            domain,
        ) is Some
    }

    /// The servers for a domain in the policy.
    pub open spec fn policy_servers(
        &self,
        domain: Seq<char>,
        codes: Seq<Seq<char>>,
        registry: Seq<RuleProviderImpl>,
    ) -> Option<Seq<Seq<char>>> {
        match self.policy {
            Some(p) => p@.servers_for(domain, codes, registry),
            None => None,
        }
    }

    /// Which servers are asked for a query: those for names of servers of proxies; those for names
    /// that get no fake address, where there are fake addresses; those of the policy; else the main
    /// ones, together with the fallback ones where there are any.
    pub open spec fn asked(
        &self,
        domain: Seq<char>,
        codes: Seq<Seq<char>>,
        registry: Seq<RuleProviderImpl>,
    ) -> UpstreamPlanView {
        if self.is_proxy_name(domain) {
            servers_plan(text::string_views(self.proxy_upstreams.unwrap()@))
        } else if self.fake_dns is Some && self.direct_upstreams is Some && !gets_fake(
            self.fake_dns,
            domain,
            registry,
        ) {
            servers_plan(text::string_views(self.direct_upstreams.unwrap()@))
        } else {
            match self.policy_servers(domain, codes, registry) {
                Some(servers) => servers_plan(servers),
                None => match self.fallback_upstreams {
                    Some(fallback) => UpstreamPlanView::WithFallback(
                        text::string_views(self.main_upstreams@),
                        text::string_views(fallback@),
                    ),
                    None => servers_plan(text::string_views(self.main_upstreams@)),
                },
            }
        }
    }

    /// Which servers are asked for a query. `codes` are the site codes that its domain belongs to.
    pub fn exchange_no_cache(
        &mut self,
        query: &QueryContext,
        codes: &Vec<String>,
        registry: &Vec<RuleProviderImpl>,
    ) -> (res: UpstreamPlan)
        requires
            old(self).wf(registry@),
        ensures
            final(self).wf(registry@),
            *final(self) == (EnhancedResolver { fake_dns: final(self).fake_dns, ..*old(self) }),
            same_fake(old(self).fake_dns, final(self).fake_dns, registry@),
            res@ == old(self).asked(query@.domain, text::string_views(codes@), registry@),
    {
        let domain: &str = query.domain.as_str();
        if let Some(servers) = &self.proxy_upstreams {
            if let Some(domains) = &self.proxy_server_domains {
                if domains.search(&text::chars(domain)).is_some() {
                    return plan_servers(text::copy_list(servers));
                }
            }
        }
        let fake: bool = check_fake(&mut self.fake_dns, domain, registry);
        if self.fake_dns.is_some() && !fake {
            if let Some(servers) = &self.direct_upstreams {
                return plan_servers(text::copy_list(servers));
            }
        }
        if let Some(policy) = &self.policy {
            if let Some(servers) = policy.match_policy(domain, codes, registry) {
                return plan_servers(servers);
            }
        }
        match &self.fallback_upstreams {
            Some(fallback) => UpstreamPlan::WithFallback(
                text::copy_list(&self.main_upstreams),
                text::copy_list(fallback),
            ),
            None => plan_servers(text::copy_list(&self.main_upstreams)),
        }
    }

    /// Which of the answers of the main and the fallback servers counts: the main one, unless
    /// there is none, or it calls for the other and there is one.
    pub open spec fn picked(
        &self,
        domain: Seq<char>,
        main: Option<Seq<u8>>,
        has_fallback: bool,
        countries: Seq<Option<String>>,
        registry: Seq<RuleProviderImpl>,
    ) -> Pick {
        match main {
            Some(bytes) => if has_fallback && (self.fallback_filter matches Some(f)
                && calls_fallback(
                f,
                domain,
                response::answer_ips(bytes),
                countries,
                registry,
            )) {
                Pick::Fallback
            } else {
                Pick::Main
            },
            None => if has_fallback {
                Pick::Fallback
            } else {
                Pick::Neither
            },
        }
    }

    /// Which of the answers of the main and the fallback servers counts. `countries` are the
    /// countries of the addresses of the main answer.
    pub fn fallback_exchange(
        &self,
        query: &QueryContext,
        main: &Option<Vec<u8>>,
        has_fallback: bool,
        countries: &Vec<Option<String>>,
        registry: &Vec<RuleProviderImpl>,
    ) -> (res: Pick)
        ensures
            res == self.picked(
                query@.domain,
                match *main {
                    Some(v) => Some(v@),
                    None => None,
                },
                has_fallback,
                countries@,
                registry@,
            ),
    {
        match main {
            Some(bytes) => {
                if let Some(filter) = &self.fallback_filter {
                    let ips: Vec<IpAddr> = extract_ips_from_dns_response(bytes);
                    if has_fallback && check_fallback(
                        filter,
                        query.domain.as_str(),
                        &ips,
                        countries,
                        registry,
                    ) {
                        return Pick::Fallback;
                    }
                }
                Pick::Main
            },
            None => if has_fallback {
                Pick::Fallback
            } else {
                Pick::Neither
            },
        }
    }

    /// Only the fallback servers are asked for the domain: there are some, and the filter names it.
    pub open spec fn only_fallback(&self, domain: Seq<char>, registry: Seq<RuleProviderImpl>) -> bool {
        self.fallback_upstreams is Some && (self.fallback_filter matches Some(f)
            && f.domain_matches(domain, registry))
    }

    /// Whether only the fallback servers are asked for a domain.
    pub fn should_only_query_fallback(&self, domain: &str, registry: &Vec<RuleProviderImpl>) -> (res: bool)
        ensures
            res == self.only_fallback(domain@, registry@),
    {
        if self.fallback_upstreams.is_some() {
            if let Some(filter) = &self.fallback_filter {
                return filter.match_domain(domain, registry);
            }
        }
        false
    }

    /// The address calls for the fallback servers' answer.
    pub open spec fn ip_falls_back(
        &self,
        addr: IpAddr,
        country: Option<Seq<char>>,
        registry: Seq<RuleProviderImpl>,
    ) -> bool {
        self.fallback_filter matches Some(f) && f.ip_matches(addr, country, registry)
    }

    /// Whether an address calls for the fallback servers' answer.
    pub fn should_ip_fallback(
        &self,
        addr: &IpAddr,
        country: &Option<String>,
        registry: &Vec<RuleProviderImpl>,
    ) -> (res: bool)
        ensures
            res == self.ip_falls_back(*addr, text::opt_view(*country), registry@),
    {
        match &self.fallback_filter {
            Some(filter) => filter.match_ip(addr, country, registry),
            None => false,
        }
    }

    /// Which servers are asked for the addresses of a domain, one group after the other: those of
    /// the policy; else only the fallback ones, for domains that the filter names; else the main
    /// ones, and then the fallback ones where there are any.
    pub open spec fn asked_in_turn(
        &self,
        domain: Seq<char>,
        codes: Seq<Seq<char>>,
        registry: Seq<RuleProviderImpl>,
    ) -> UpstreamPlanView {
        match self.policy_servers(domain, codes, registry) {
            Some(servers) => servers_plan(servers),
            None => match self.fallback_upstreams {
                Some(fallback) => if self.only_fallback(domain, registry) {
                    servers_plan(text::string_views(fallback@))
                } else {
                    UpstreamPlanView::WithFallback(
                        text::string_views(self.main_upstreams@),
                        text::string_views(fallback@),
                    )
                },
                None => servers_plan(text::string_views(self.main_upstreams@)),
            },
        }
    }

    /// Which servers are asked for the addresses of a domain, one group after the other. `codes`
    /// are the site codes that the domain belongs to.
    pub fn ip_exchange(
        &self,
        query: &QueryContext,
        codes: &Vec<String>,
        registry: &Vec<RuleProviderImpl>,
    ) -> (res: UpstreamPlan)
        ensures
            res@ == self.asked_in_turn(query@.domain, text::string_views(codes@), registry@),
    {
        let domain: &str = query.domain.as_str();
        if let Some(policy) = &self.policy {
            if let Some(servers) = policy.match_policy(domain, codes, registry) {
                return plan_servers(servers);
            }
        }
        match &self.fallback_upstreams {
            Some(fallback) => {
                if self.should_only_query_fallback(domain, registry) {
                    return plan_servers(text::copy_list(fallback));
                }
                UpstreamPlan::WithFallback(
                    text::copy_list(&self.main_upstreams),
                    text::copy_list(fallback),
                )
            },
            None => plan_servers(text::copy_list(&self.main_upstreams)),
        }
    }

    /// Whether the main servers' answer stands, so that the fallback servers are not waited for:
    /// it gives addresses, and the first of them does not call for the fallback. `country` is the
    /// country of that address.
    pub fn main_stands(
        &self,
        main: &Option<Vec<u8>>,
        country: &Option<String>,
        registry: &Vec<RuleProviderImpl>,
    ) -> (res: bool)
        ensures
            res == (match *main {
                Some(bytes) => {
                    let ips = response::answer_ips(bytes@);
                    ips.len() > 0 && !self.ip_falls_back(
                        ips[0],
                        text::opt_view(*country),
                        registry@,
                    )
                },
                None => false,
            }),
    {
        match main {
            Some(bytes) => {
                let ips: Vec<IpAddr> = extract_ips_from_dns_response(bytes);
                ips.len() > 0 && !self.should_ip_fallback(&ips[0], country, registry)
            },
            None => false,
        }
    }

    /// The time to live of an answer: the domain's fixed one, else the answer's own, or 60 seconds
    /// where it has none, and no less than the optimistic one.
    pub open spec fn fresh_ttl(&self, host: Seq<char>, resp: Seq<u8>) -> u32 {
        let policy = DnsCachePolicy {
            optimistic_cache_ttl: self.optimistic_cache_ttl,
            stale_cache_retention: self.stale_cache_retention,
        };
        policy.effective(self.fixed_ttl(host), response::min_ttl(resp))
    }

    /// An answer to a query about the host can be kept: it is not one to a certificate challenge,
    /// does not give only addresses that stand for no host, and has a time to live.
    pub open spec fn keeps(&self, qtype: QType, host: Seq<char>, resp: Seq<u8>) -> bool {
        &&& !(qtype == QType::TXT && text::has_prefix(host, "_acme-challenge."@))
        &&& !transport::all_unspecified(response::answer_ips(resp))
        &&& self.fresh_ttl(host, resp) > 0
    }

    /// The cache after an answer came; `kept` where it is one to the query that was led.
    pub open spec fn cached(
        before: EnhancedResolver<S>,
        after: Option<DnsCache>,
        q: QueryView,
        host: Seq<char>,
        resp: Seq<u8>,
        kept: Option<Seq<u8>>,
        now: u64,
    ) -> bool {
        match (before.lru_cache, after) {
            (Some(b), Some(a)) => if kept is Some && before.keeps(q.qtype, host, resp) {
                b@.put_in(
                    cache::key_of(""@, q),
                    cache::stored(
                        kept.unwrap(),
                        before.fresh_ttl(host, resp),
                        before.stale_cache_retention,
                        now,
                    ),
                    a@,
                )
            } else {
                a == b
            },
            (None, None) => true,
            _ => false,
        }
    }

    /// What an answer's addresses taught of the host.
    pub open spec fn taught(
        before: EnhancedResolver<S>,
        after: Option<ReverseLookupCache>,
        host: Seq<char>,
        resp: Seq<u8>,
        now: u64,
    ) -> bool {
        match (before.reverse_lookup_cache, after) {
            (Some(b), Some(a)) => transport::learns(
                b,
                a,
                response::answer_ips(resp),
                host,
                before.fresh_ttl(host, resp),
                now,
                true,
            ),
            (None, None) => true,
            _ => false,
        }
    }

    /// Takes in an answer that came from a server. It is kept where it can be and `template` is
    /// given, its addresses are known to be the host's, and the host is recorded.
    pub fn process_fresh_response(
        &mut self,
        query: &QueryContext,
        host: &str,
        raw_resp: &[u8],
        template: Option<ResponseTemplate>,
        now: u64,
    ) -> (res: Fresh)
        requires
            now + cache::at_least_one(old(self).fresh_ttl(host@, raw_resp@)) * 1000 + old(
                self
            ).stale_cache_retention <= u64::MAX,
        ensures
            *final(self) == (EnhancedResolver {
                lru_cache: final(self).lru_cache,
                reverse_lookup_cache: final(self).reverse_lookup_cache,
                collector: final(self).collector,
                ..*old(self)
            }),
            res.ips@ == response::answer_ips(raw_resp@),
            res.ttl == old(self).fresh_ttl(host@, raw_resp@),
            match (template, res.shared) {
                (Some(t), Some(bytes)) => bytes@ == t.wire@,
                (None, None) => true,
                _ => false,
            },
            Self::cached(
                *old(self),
                final(self).lru_cache,
                query@,
                host@,
                raw_resp@,
                match template {
                    Some(t) => Some(t.wire@),
                    None => None,
                },
                now,
            ),
            Self::taught(*old(self), final(self).reverse_lookup_cache, host@, raw_resp@, now),
            transport::recorded(old(self).collector, final(self).collector, host@, false),
    {
        let ips: Vec<IpAddr> = extract_ips_from_dns_response(raw_resp);
        let fixed: Option<u32> = self.match_fixed_domain_ttl(host);
        let policy = DnsCachePolicy {
            optimistic_cache_ttl: self.optimistic_cache_ttl,
            stale_cache_retention: self.stale_cache_retention,
        };
        let ttl: u32 = policy.calculate_effective_ttl(fixed, raw_resp);
        let challenge: bool = query.qtype == QType::TXT && text::starts_with(
            &text::chars(host),
            &text::chars("_acme-challenge."),
        );
        let keeps: bool = !challenge && !check_all_unspecified(&ips) && ttl > 0;
        assert(keeps == self.keeps(query@.qtype, host@, raw_resp@));
        let shared: Option<Vec<u8>> = match &template {
            Some(template) => Some(template.copy().wire),
            None => None,
        };
        if let Some(template) = template {
            if let Some(lru) = &mut self.lru_cache {
                if keeps {
                    lru.insert(query, template, ttl, policy.stale_cache_retention, now);
                }
            }
        }
        if let Some(reverse) = &mut self.reverse_lookup_cache {
            learn(reverse, &ips, host, ttl, now, true);
        }
        record(&mut self.collector, host, false);
        Fresh { ips, ttl, shared }
    }

    /// Takes in an answer that came from a server for a query. Where a leader's place is held and
    /// the answer is one to the query, those who wait get it and it is kept.
    pub fn take_answer(
        &mut self,
        query: &QueryContext,
        resp: &[u8],
        leader: Option<FlightLeader>,
        now: u64,
    ) -> (res: Fresh)
        requires
            old(self).singleflight@.ok(),
            now + cache::at_least_one(old(self).fresh_ttl(query@.domain, resp@)) * 1000 + old(
                self
            ).stale_cache_retention <= u64::MAX,
        ensures
            final(self).singleflight@ == transport::settled(
                old(self).singleflight@,
                transport::leader_key(leader),
                query@,
                resp@,
            ),
            final(self).singleflight@.ok(),
            *final(self) == (EnhancedResolver {
                lru_cache: final(self).lru_cache,
                reverse_lookup_cache: final(self).reverse_lookup_cache,
                collector: final(self).collector,
                singleflight: final(self).singleflight,
                ..*old(self)
            }),
            res.ips@ == response::answer_ips(resp@),
            res.ttl == old(self).fresh_ttl(query@.domain, resp@),
            res.shared is Some <==> leader is Some && response::answers_query(query@, resp@),
            res.shared matches Some(bytes) ==> bytes@ == resp@,
            Self::cached(
                *old(self),
                final(self).lru_cache,
                query@,
                query@.domain,
                resp@,
                if leader is Some && response::answers_query(query@, resp@) {
                    Some(resp@)
                } else {
                    None
                },
                now,
            ),
            Self::taught(
                *old(self),
                final(self).reverse_lookup_cache,
                query@.domain,
                resp@,
                now,
            ),
            transport::recorded(old(self).collector, final(self).collector, query@.domain, false),
    {
        let template: Option<ResponseTemplate> = match leader {
            Some(l) => {
                let valid: Option<ResponseTemplate> = ResponseTemplate::validate(query, resp);
                if let Some(t) = &valid {
                    self.singleflight.publish(&l, t.copy().wire);
                }
                self.singleflight.finish(l);
                valid
            },
            None => None,
        };
        self.process_fresh_response(query, query.domain.as_str(), resp, template, now)
    }

    /// Gives a leader's place up after no answer could be had.
    pub fn take_failure(&mut self, leader: Option<FlightLeader>)
        requires
            old(self).singleflight@.ok(),
        ensures
            final(self).singleflight@ == match leader {
                Some(l) => old(self).singleflight@.finished(l.key@),
                None => old(self).singleflight@,
            },
            final(self).singleflight@.ok(),
            *final(self) == (EnhancedResolver {
                singleflight: final(self).singleflight,
                ..*old(self)
            }),
    {
        if let Some(l) = leader {
            self.singleflight.finish(l);
        }
    }
}

impl<S: Store> EnhancedResolver<S> {
    /// What is known of a host before any server is asked: an unwanted one has no address; an
    /// address is its own, though not of the other version; then come the table of hosts and,
    /// where they are asked for, fake addresses. IPv6 addresses are not looked up where IPv6 is
    /// switched off.
    pub open spec fn local(
        &self,
        host: Seq<char>,
        v6: Option<bool>,
        enhanced: bool,
        registry: Seq<RuleProviderImpl>,
    ) -> LocalView {
        let literal = ip::ip_value(host);
        if self.blacklisted(host, registry) {
            LocalView::Known(None)
        } else if v6 == Some(true) && !self.ipv6 && !(literal is Some && literal.unwrap() is V6) {
            LocalView::Ipv6Disabled
        } else if literal is Some {
            LocalView::Known(of_kind(literal.unwrap(), v6))
        } else if self.hosts_address(host) is Some {
            LocalView::Known(of_kind(self.hosts_address(host).unwrap(), v6))
        } else if enhanced && gets_fake(self.fake_dns, host, registry) {
            LocalView::Fake
        } else {
            LocalView::Ask
        }
    }

    /// The version that is asked for: IPv6 addresses where no version is given and IPv6 is switched
    /// on.
    pub open spec fn asked_version(&self, v6: Option<bool>) -> bool {
        match v6 {
            Some(v6) => v6,
            None => self.ipv6,
        }
    }

    /// The step is the expected one.
    pub open spec fn resolved(
        before: EnhancedResolver<S>,
        after: EnhancedResolver<S>,
        host: Seq<char>,
        v6: Option<bool>,
        enhanced: bool,
        registry: Seq<RuleProviderImpl>,
        step: LookupStep,
    ) -> bool {
        match before.local(host, v6, enhanced, registry) {
            LocalView::Known(addr) => step == LookupStep::Known(addr) && after == before,
            LocalView::Ipv6Disabled => step is Ipv6Disabled && after == before,
            LocalView::Fake => exists|addr: IpAddr|
                {
                    &&& #[trigger] gave_fake(
                        before.fake_dns,
                        after.fake_dns,
                        host,
                        wants_v6(v6),
                        registry,
                        addr,
                    )
                    &&& if of_kind(addr, v6) is Some {
                        step == LookupStep::Known(Some(addr)) && transport::recorded(
                            before.collector,
                            after.collector,
                            host,
                            true,
                        )
                    } else {
                        asks_for(host, before.asked_version(v6), step) && after.collector
                            == before.collector
                    }
                },
            LocalView::Ask => asks_for(host, before.asked_version(v6), step) && same_fake(
                before.fake_dns,
                after.fake_dns,
                registry,
            ) && after.collector == before.collector,
        }
    }

    fn ask(&self, host: &str, v6: Option<bool>) -> (res: LookupStep)
        ensures
            asks_for(host@, self.asked_version(v6), res),
    {
        let version: bool = match v6 {
            Some(v6) => v6,
            None => self.ipv6,
        };
        match address_query(host, version) {
            Some(wire) => LookupStep::Ask(wire),
            None => LookupStep::Invalid,
        }
    }

    fn resolve_as(
        &mut self,
        host: &str,
        v6: Option<bool>,
        enhanced: bool,
        registry: &Vec<RuleProviderImpl>,
    ) -> (res: LookupStep)
        requires
            old(self).wf(registry@),
        ensures
            final(self).wf(registry@),
            *final(self) == (EnhancedResolver {
                fake_dns: final(self).fake_dns,
                collector: final(self).collector,
                ..*old(self)
            }),
            Self::resolved(*old(self), *final(self), host@, v6, enhanced, registry@, res),
    {
        if self.is_blacklisted(host, registry) {
            return LookupStep::Known(None);
        }
        let literal: Option<IpAddr> = parse_ip_literal(host);
        let wants6: bool = match v6 {
            Some(v6) => v6,
            None => false,
        };
        if wants6 && !self.ipv6 {
            match literal {
                Some(IpAddr::V6(_)) => {},
                _ => return LookupStep::Ipv6Disabled,
            }
        }
        if let Some(addr) = literal {
            return LookupStep::Known(keep_kind(addr, v6));
        }
        if let Some(addr) = self.search_hosts(host) {
            return LookupStep::Known(keep_kind(addr, v6));
        }
        if !enhanced {
            return self.ask(host, v6);
        }
        let fake: bool = check_fake(&mut self.fake_dns, host, registry);
        let ghost mid = self.fake_dns;
        if fake {
            if let Some(addr) = give_fake(&mut self.fake_dns, host, wants6) {
                assert(found_fake(mid.unwrap(), self.fake_dns.unwrap(), host@, wants6, addr));
                assert(gave_fake(
                    old(self).fake_dns,
                    self.fake_dns,
                    host@,
                    wants_v6(v6),
                    registry@,
                    addr,
                ));
                if keep_kind(addr, v6).is_some() {
                    record(&mut self.collector, host, true);
                    return LookupStep::Known(Some(addr));
                }
            }
        }
        self.ask(host, v6)
    }

    /// What is to be done to find an address of a host.
    pub fn resolve(&mut self, host: &str, enhanced: bool, registry: &Vec<RuleProviderImpl>) -> (res:
        LookupStep)
        requires
            old(self).wf(registry@),
        ensures
            final(self).wf(registry@),
            *final(self) == (EnhancedResolver {
                fake_dns: final(self).fake_dns,
                collector: final(self).collector,
                ..*old(self)
            }),
            Self::resolved(*old(self), *final(self), host@, None, enhanced, registry@, res),
    {
        self.resolve_as(host, None, enhanced, registry)
    }

    /// What is to be done to find an IPv4 address of a host.
    pub fn resolve_v4(&mut self, host: &str, enhanced: bool, registry: &Vec<RuleProviderImpl>) -> (res:
        LookupStep)
        requires
            old(self).wf(registry@),
        ensures
            final(self).wf(registry@),
            *final(self) == (EnhancedResolver {
                fake_dns: final(self).fake_dns,
                collector: final(self).collector,
                ..*old(self)
            }),
            Self::resolved(*old(self), *final(self), host@, Some(false), enhanced, registry@, res),
    {
        self.resolve_as(host, Some(false), enhanced, registry)
    }

    /// What is to be done to find an IPv6 address of a host.
    pub fn resolve_v6(&mut self, host: &str, enhanced: bool, registry: &Vec<RuleProviderImpl>) -> (res:
        LookupStep)
        requires
            old(self).wf(registry@),
        ensures
            final(self).wf(registry@),
            *final(self) == (EnhancedResolver {
                fake_dns: final(self).fake_dns,
                collector: final(self).collector,
                ..*old(self)
            }),
            Self::resolved(*old(self), *final(self), host@, Some(true), enhanced, registry@, res),
    {
        self.resolve_as(host, Some(true), enhanced, registry)
    }

    /// Takes note of the address that was chosen for a host.
    pub fn settle_lookup(&mut self, host: &str, chosen: Option<IpAddr>) -> (res: Option<IpAddr>)
        ensures
            res == chosen,
            *final(self) == (EnhancedResolver { collector: final(self).collector, ..*old(self) }),
            chosen is Some ==> transport::recorded(
                old(self).collector,
                final(self).collector,
                host@,
                false,
            ),
            chosen is None ==> final(self).collector == old(self).collector,
    {
        if chosen.is_some() {
            record(&mut self.collector, host, false);
        }
        chosen
    }

    /// Chooses one of the addresses of a version that an answer gives. An answer without addresses
    /// is a failure.
    pub fn lookup_ip(&mut self, host: &str, v6: Option<bool>, resp: &[u8]) -> (res: Result<
        Option<IpAddr>,
        Error,
    >)
        ensures
            *final(self) == (EnhancedResolver { collector: final(self).collector, ..*old(self) }),
            match res {
                Ok(chosen) => {
                    let kept = kept_ips(response::answer_ips(resp@), v6);
                    &&& response::answer_ips(resp@).len() > 0
                    &&& chosen is Some <==> kept.len() > 0
                    &&& chosen matches Some(addr) ==> kept.contains(addr) && transport::recorded(
                        old(self).collector,
                        final(self).collector,
                        host@,
                        false,
                    )
                    &&& chosen is None ==> final(self).collector == old(self).collector
                },
                Err(e) => {
                    &&& response::answer_ips(resp@).len() == 0
                    &&& e is DNSError && e.text() == "no record for hostname: "@ + host@
                    &&& final(self).collector == old(self).collector
                },
            },
    {
        let ips: Vec<IpAddr> = extract_ips_from_dns_response(resp);
        if ips.len() == 0 {
            return Err(Error::DNSError(text::concat("no record for hostname: ", host)));
        }
        let kept: Vec<IpAddr> = match v6 {
            Some(v6) => pick_version(&ips, v6),
            None => ips,
        };
        Ok(self.settle_lookup(host, choose_address(&kept)))
    }

    /// What is left of what is known of real addresses after a look at one.
    pub open spec fn left_after_look(&self, after: EnhancedResolver<S>, addr: IpAddr, now: u64) -> bool {
        match (self.reverse_lookup_cache, after.reverse_lookup_cache) {
            (Some(a), Some(b)) => a.left_after_look(b, addr, now),
            (None, None) => true,
            _ => false,
        }
    }

    /// The one domain that an address was given for, from what is known of real addresses.
    pub open spec fn real_host(&self, addr: IpAddr, now: u64) -> Option<Seq<char>> {
        match self.reverse_lookup_cache {
            Some(c) => c.tells(addr, now),
            None => None,
        }
    }

    /// The one domain that an address was given for, from what is known of real addresses.
    pub fn cached_for(&mut self, addr: IpAddr, now: u64) -> (res: Option<String>)
        ensures
            text::opt_view(res) == old(self).real_host(addr, now),
            old(self).left_after_look(*final(self), addr, now),
            *final(self) == (EnhancedResolver {
                reverse_lookup_cache: final(self).reverse_lookup_cache,
                ..*old(self)
            }),
    {
        match &mut self.reverse_lookup_cache {
            Some(cache) => cache.lookup(&addr, now),
            None => None,
        }
    }

    /// The host that a fake address stands for.
    pub open spec fn fake_host(&self, addr: IpAddr) -> Option<Seq<char>> {
        match self.fake_dns {
            Some(dns) => dns.held().host_of(addr),
            None => None,
        }
    }

    /// The domain that an address stands for: a fake one for its host, and then nothing changes; a
    /// real one for the one domain that it was given for.
    pub open spec fn reversed(
        before: EnhancedResolver<S>,
        after: EnhancedResolver<S>,
        addr: IpAddr,
        now: u64,
        res: Option<Seq<char>>,
    ) -> bool {
        match before.fake_host(addr) {
            Some(host) => res == Some(host) && after == before,
            None => res == before.real_host(addr, now) && before.left_after_look(after, addr, now),
        }
    }

    /// The domain that an address stands for: a fake one for its host, a real one for the one domain
    /// that it was given for.
    pub fn reverse_lookup(&mut self, addr: IpAddr, now: u64) -> (res: Option<String>)
        requires
            old(self).fake_dns matches Some(dns) ==> dns.wf(),
        ensures
            Self::reversed(*old(self), *final(self), addr, now, text::opt_view(res)),
            *final(self) == (EnhancedResolver {
                reverse_lookup_cache: final(self).reverse_lookup_cache,
                ..*old(self)
            }),
    {
        if let Some(dns) = &self.fake_dns {
            if let Some(host) = dns.reverse_lookup(addr) {
                return Some(host);
            }
        }
        self.cached_for(addr, now)
    }

    /// Whether an address is a fake one.
    pub fn is_fake_ip(&self, addr: IpAddr) -> (res: bool)
        requires
            self.fake_dns matches Some(dns) ==> dns.wf(),
        ensures
            res == (self.fake_dns matches Some(dns) && fakeip::in_pools(
                dns.pool4(),
                dns.pool6(),
                addr,
            ) && dns.held().host_of(addr) is Some),
    {
        match &self.fake_dns {
            Some(dns) => dns.is_fake_ip(addr),
            None => false,
        }
    }

    /// Whether there are fake addresses.
    pub fn fake_ip_enabled(&self) -> (res: bool)
        ensures
            res == (self.fake_dns is Some),
    {
        self.fake_dns.is_some()
    }

    /// Finds the rule sets that the policy and the filters name.
    pub fn after_router_inited(&mut self, registry: &Vec<RuleProviderImpl>)
        requires
            old(self).fake_dns matches Some(dns) ==> dns.wf(),
            old(self).singleflight@.ok(),
        ensures
            final(self).wf(registry@),
            *final(self) == (EnhancedResolver {
                policy: final(self).policy,
                fake_dns: final(self).fake_dns,
                black_domain_filter: final(self).black_domain_filter,
                fallback_filter: final(self).fallback_filter,
                seen_changes: final(self).seen_changes,
                ..*old(self)
            }),
            final(self).seen_changes@ == rule_provider::counts_of(registry@),
            match (old(self).policy, final(self).policy) {
                (Some(a), Some(b)) => b@ == a@.bound_to(registry@),
                (None, None) => true,
                _ => false,
            },
            match (old(self).fake_dns, final(self).fake_dns) {
                (Some(a), Some(b)) => {
                    &&& a.pool4() == b.pool4() && a.pool6() == b.pool6()
                    &&& a.held() == b.held() && a.mode() == b.mode()
                    &&& match (a.filter(), b.filter()) {
                        (Some(f), Some(g)) => f.bound_as(g, registry@),
                        (None, None) => true,
                        _ => false,
                    }
                },
                (None, None) => true,
                _ => false,
            },
            match (old(self).black_domain_filter, final(self).black_domain_filter) {
                (Some(f), Some(g)) => f.bound_as(g, registry@),
                (None, None) => true,
                _ => false,
            },
            match (old(self).fallback_filter, final(self).fallback_filter) {
                (Some(f), Some(g)) => f.bound_as(g, registry@),
                (None, None) => true,
                _ => false,
            },
    {
        if let Some(policy) = &mut self.policy {
            policy.add_rule_set(registry);
        }
        if let Some(dns) = &mut self.fake_dns {
            dns.add_rule_set(registry);
            dns.rule_set_changed();
        }
        if let Some(filter) = &mut self.black_domain_filter {
            filter.add_rule_set(registry);
        }
        if let Some(filter) = &mut self.fallback_filter {
            filter.add_rule_set(registry);
        }
        self.seen_changes = change_counts(registry);
    }

    /// Forgets the filter's verdicts where a rule set may have changed since they were last known
    /// to hold.
    pub fn follow(&mut self, registry: &Vec<RuleProviderImpl>)
        requires
            old(self).fake_dns matches Some(dns) ==> dns.wf(),
        ensures
            *final(self) == (EnhancedResolver {
                fake_dns: final(self).fake_dns,
                seen_changes: final(self).seen_changes,
                ..*old(self)
            }),
            final(self).seen_changes@ == rule_provider::counts_of(registry@),
            old(self).seen_changes@ == rule_provider::counts_of(registry@) ==> final(self).fake_dns
                == old(self).fake_dns,
            match (old(self).fake_dns, final(self).fake_dns) {
                (Some(a), Some(b)) => {
                    &&& b.wf()
                    &&& a.pool4() == b.pool4() && a.pool6() == b.pool6()
                    &&& a.held() == b.held() && a.mode() == b.mode() && a.filter() == b.filter()
                    &&& old(self).seen_changes@ != rule_provider::counts_of(registry@)
                        ==> b.memory_ok(registry@)
                },
                (None, None) => true,
                _ => false,
            },
    {
        if check_counts(registry, &self.seen_changes) {
            return;
        }
        if let Some(dns) = &mut self.fake_dns {
            dns.rule_set_changed();
        }
        self.seen_changes = change_counts(registry);
    }

    /// The kind of resolver.
    pub fn kind(&self) -> (res: ResolverKind)
        ensures
            res == ResolverKind::Clash,
    {
        ResolverKind::Clash
    }

    /// Switches IPv6 on or off.
    pub fn set_ipv6(&mut self, enable: bool)
        ensures
            *final(self) == (EnhancedResolver { ipv6: enable, ..*old(self) }),
    {
        self.ipv6 = enable;
    }
}

/// What is to be done with a query that asks for everything at once.
pub enum AllStep {
    /// It is malformed.
    Invalid,
    /// This is the answer.
    Reply(Vec<u8>),
    /// Ask as for any other query.
    Forward,
}

/// What is known of a query that asks for everything at once.
pub enum AllView {
    /// This is the answer; the domain is recorded where this says so.
    Reply(Seq<u8>, bool),
    Fake(bool),
    Forward,
}

impl<S: Store> EnhancedResolver<S> {
    /// What is known of a query: as elsewhere, but an address that is asked for as a name is its
    /// own, and none of the other version.
    pub open spec fn answered(&self, message: Seq<u8>, q: QueryView, registry: Seq<RuleProviderImpl>) -> AllView {
        let literal = ip::ip_value(q.domain);
        let known = self.hosts_address(q.domain);
        if self.blacklisted(q.domain, registry) {
            AllView::Reply(response::empty_response(message, 3), false)
        } else if q.qtype == QType::AAAA && !self.ipv6 {
            AllView::Reply(response::empty_response(message, 0), false)
        } else if !transport::asks_address(q.qtype) {
            AllView::Forward
        } else if literal is Some {
            if fits_type(q.qtype, literal.unwrap()) {
                AllView::Reply(
                    response::ip_response(message, seq![literal.unwrap()], 60).unwrap(),
                    true,
                )
            } else {
                AllView::Reply(response::empty_response(message, 0), false)
            }
        } else if known is Some && fits_type(q.qtype, known.unwrap()) {
            AllView::Reply(response::ip_response(message, seq![known.unwrap()], 60).unwrap(), true)
        } else if gets_fake(self.fake_dns, q.domain, registry) {
            AllView::Fake(q.qtype == QType::AAAA)
        } else {
            AllView::Forward
        }
    }

    fn answer_with(message: &[u8], addr: IpAddr) -> (res: Option<Vec<u8>>)
        ensures
            match (res, response::ip_response(message@, seq![addr], 60)) {
                (Some(v), Some(bytes)) => v@ == bytes,
                (None, None) => true,
                _ => false,
            },
    {
        let mut ips: Vec<IpAddr> = Vec::new();
        ips.push(addr);
        assert(ips@ =~= seq![addr]);
        build_dns_ip_response(message, &ips, 60)
    }

    /// What a query leads to: a malformed one to nothing, one that is known here to its answer, any
    /// other to being asked. Fake addresses are good for a second.
    pub open spec fn answered_as(
        before: EnhancedResolver<S>,
        after: EnhancedResolver<S>,
        message: Seq<u8>,
        registry: Seq<RuleProviderImpl>,
        res: AllStep,
    ) -> bool {
        match query::query_of(message) {
            None => res is Invalid && after == before,
            Some(q) => match before.answered(message, q, registry) {
                AllView::Reply(bytes, recorded) => {
                    &&& res matches AllStep::Reply(v) && v@ == bytes
                    &&& after.fake_dns == before.fake_dns
                    &&& if recorded {
                        transport::recorded(before.collector, after.collector, q.domain, false)
                    } else {
                        after.collector == before.collector
                    }
                },
                AllView::Fake(v6) => {
                    &&& res matches AllStep::Reply(v) && Self::replied_fake(
                        before.fake_dns,
                        after.fake_dns,
                        message,
                        q.domain,
                        v6,
                        1,
                        registry,
                        v@,
                    )
                    &&& transport::recorded(before.collector, after.collector, q.domain, true)
                },
                AllView::Forward => res is Forward && same_fake(
                    before.fake_dns,
                    after.fake_dns,
                    registry,
                ) && after.collector == before.collector,
            },
        }
    }

    /// What is to be done with a query: it is answered from what is known here, or asked as any
    /// other. Fake addresses are good for a second.
    pub fn exchange_all(&mut self, message: &[u8], registry: &Vec<RuleProviderImpl>) -> (res: AllStep)
        requires
            old(self).wf(registry@),
        ensures
            final(self).wf(registry@),
            *final(self) == (EnhancedResolver {
                fake_dns: final(self).fake_dns,
                collector: final(self).collector,
                ..*old(self)
            }),
            Self::answered_as(*old(self), *final(self), message@, registry@, res),
    {
        let query: QueryContext = match QueryContext::parse(message) {
            Some(query) => query,
            None => return AllStep::Invalid,
        };
        proof {
            query::law_query_has_question(message@);
        }
        let host: &str = query.domain.as_str();
        if self.is_blacklisted(host, registry) {
            return AllStep::Reply(build_dns_nxdomain(message));
        }
        if query.qtype == QType::AAAA && !self.ipv6 {
            return AllStep::Reply(build_dns_nodata(message));
        }
        if query.qtype != QType::A && query.qtype != QType::AAAA {
            return AllStep::Forward;
        }
        let mut known: Option<IpAddr> = None;
        if let Some(addr) = parse_ip_literal(host) {
            if !check_type(query.qtype, &addr) {
                return AllStep::Reply(build_dns_nodata(message));
            }
            known = Some(addr);
        } else if let Some(addr) = self.search_hosts(host) {
            if check_type(query.qtype, &addr) {
                known = Some(addr);
            }
        }
        if let Some(addr) = known {
            if let Some(resp) = Self::answer_with(message, addr) {
                record(&mut self.collector, host, false);
                return AllStep::Reply(resp);
            }
        }
        if let Some(resp) = Self::reply_fake(&mut self.fake_dns, message, &query, 1, registry) {
            record(&mut self.collector, host, true);
            return AllStep::Reply(resp);
        }
        AllStep::Forward
    }
}

proof fn lemma_fixed_below(list: Seq<(Seq<char>, u32)>, n: int)
    ensures
        trie::values_below(fixed_patterns(list, n), 0x1_0000_0000),
    decreases n,
{
    if n > 0 {
        lemma_fixed_below(list, n - 1);
        trie::lemma_text_set_below(
            fixed_patterns(list, n - 1),
            list[n - 1].0,
            list[n - 1].1 as usize,
            0x1_0000_0000,
        );
    }
}

/// A fixed time to live is read back whole.
pub proof fn law_fixed_time_is_whole(list: Seq<(Seq<char>, u32)>, n: int, domain: Seq<char>)
    ensures
        trie::found(fixed_patterns(list, n), domain) matches Some(ttl) ==> ttl <= u32::MAX,
{
    lemma_fixed_below(list, n);
    let entries = fixed_patterns(list, n);
    match trie::labels(domain) {
        Some(name) => {
            trie::law_search_finds_closest(entries, name, entries.len() as int);
        },
        None => {},
    }
}

/// A domain whose fixed time to live is zero is never kept in the cache.
pub proof fn law_zero_is_never_kept<S: Store>(
    r: EnhancedResolver<S>,
    qtype: QType,
    host: Seq<char>,
    resp: Seq<u8>,
)
    requires
        r.fixed_ttl(host) == Some(0u32),
    ensures
        !r.keeps(qtype, host, resp),
{
}

/// A fixed time to live holds whatever the answer says, however long answers are kept otherwise.
pub proof fn law_fixed_time_holds<S: Store>(r: EnhancedResolver<S>, host: Seq<char>, resp: Seq<u8>)
    requires
        r.fixed_ttl(host) is Some,
    ensures
        r.fresh_ttl(host, resp) == r.fixed_ttl(host).unwrap(),
{
}

/// An unwanted domain is never answered with an address, and never asked for.
pub proof fn law_unwanted_is_not_resolved<S: Store>(
    r: EnhancedResolver<S>,
    message: Seq<u8>,
    q: QueryView,
    v6: Option<bool>,
    enhanced: bool,
    registry: Seq<RuleProviderImpl>,
)
    requires
        r.blacklisted(q.domain, registry),
    ensures
        r.early(message, q, registry) == EarlyView::Reply(response::empty_response(message, 3)),
        r.answered(message, q, registry) == AllView::Reply(
            response::empty_response(message, 3),
            false,
        ),
        r.local(q.domain, v6, enhanced, registry) == LocalView::Known(None),
{
}

/// An address needs no lookup: it is its own address, even an IPv6 one where IPv6 is switched off.
pub proof fn law_address_is_its_own<S: Store>(
    r: EnhancedResolver<S>,
    host: Seq<char>,
    enhanced: bool,
    registry: Seq<RuleProviderImpl>,
)
    requires
        ip::ip_value(host) is Some,
        !r.blacklisted(host, registry),
    ensures
        r.local(host, None, enhanced, registry) == LocalView::Known(ip::ip_value(host)),
        ip::ip_value(host).unwrap() is V6 ==> r.local(host, Some(true), enhanced, registry)
            == LocalView::Known(ip::ip_value(host)),
        ip::ip_value(host).unwrap() is V4 ==> r.local(host, Some(false), enhanced, registry)
            == LocalView::Known(ip::ip_value(host)),
{
}

/// What is answered for a wanted domain before any server is asked gives an address: the one of the
/// table of hosts, for a query of its version. So with IPv6 switched on no query is answered with
/// an empty message.
pub proof fn law_early_reply_gives_address<S: Store>(
    r: EnhancedResolver<S>,
    message: Seq<u8>,
    q: QueryView,
    registry: Seq<RuleProviderImpl>,
)
    requires
        query::query_of(message) == Some(q),
        r.ipv6 || q.qtype != QType::AAAA,
        r.black_domain_filter matches Some(f) ==> !f.matches(q.domain, registry),
    ensures
        r.early(message, q, registry) matches EarlyView::Reply(bytes) ==> (r.hosts matches Some(
            hosts,
        ) && hosts.address_of(q.domain) matches Some(addr) && {
            &&& response::answer_ips(bytes) == seq![addr]
            &&& response::min_ttl(bytes) == Some(60u32)
            &&& addr is V4 ==> q.qtype == QType::A
            &&& addr is V6 ==> q.qtype == QType::AAAA
        }),
        r.hosts matches Some(hosts) && hosts.address_of(q.domain) matches Some(addr) && (if addr is V4 {
            q.qtype == QType::A
        } else {
            q.qtype == QType::AAAA
        }) ==> r.early(message, q, registry) is Reply,
{
    query::law_query_has_question(message);
    let known = r.hosts_address(q.domain);
    if known is Some {
        let ips = seq![known.unwrap()];
        assert(response::ip_response(message, ips, 60) is Some);
        response::law_addresses_read_back(message, ips, 60);
    }
}

/// With IPv6 switched on a query for IPv6 addresses is treated as one for IPv4 addresses is: where
/// the table of hosts does not know the domain, both get fake addresses, each of its version, or
/// both go on to the cache and the servers, or both are turned down.
pub proof fn law_versions_are_treated_alike<S: Store>(
    r: EnhancedResolver<S>,
    v4: (Seq<u8>, QueryView),
    v6: (Seq<u8>, QueryView),
    registry: Seq<RuleProviderImpl>,
)
    requires
        r.ipv6,
        v4.1.qtype == QType::A,
        v6.1.qtype == QType::AAAA,
        v4.1.domain == v6.1.domain,
        r.hosts matches Some(hosts) ==> hosts.address_of(v4.1.domain) is None,
    ensures
        match (r.early(v4.0, v4.1, registry), r.early(v6.0, v6.1, registry)) {
            (EarlyView::Reply(_), EarlyView::Reply(_)) => r.black_domain_filter matches Some(f)
                && f.matches(v4.1.domain, registry),
            (EarlyView::Fake(a), EarlyView::Fake(b)) => !a && b && r.fake_dns is Some,
            (EarlyView::Rest, EarlyView::Rest) => r.fake_dns matches Some(dns) ==> fakeip::skips(
                dns.filter(),
                dns.mode(),
                v4.1.domain,
                registry,
            ),
            _ => false,
        },
{
}

/// An address of the other version in the table of hosts changes nothing of what is known of a
/// query.
pub proof fn law_other_version_in_hosts_is_ignored<S: Store>(
    r: EnhancedResolver<S>,
    without: EnhancedResolver<S>,
    message: Seq<u8>,
    q: QueryView,
    registry: Seq<RuleProviderImpl>,
)
    requires
        without == (EnhancedResolver { hosts: None, ..r }),
        r.hosts matches Some(hosts) ==> (hosts.address_of(q.domain) matches Some(addr) ==> if addr is V4 {
            q.qtype != QType::A
        } else {
            q.qtype != QType::AAAA
        }),
    ensures
        r.early(message, q, registry) == without.early(message, q, registry),
{
}

/// Where IPv6 is switched off a query for IPv6 addresses of any domain is answered at once, without
/// an address; queries of other types are treated as where it is switched on.
pub proof fn law_ipv6_off_concerns_ipv6_alone<S: Store>(
    off: EnhancedResolver<S>,
    on: EnhancedResolver<S>,
    message: Seq<u8>,
    q: QueryView,
    registry: Seq<RuleProviderImpl>,
)
    requires
        query::query_of(message) == Some(q),
        !off.ipv6,
        on == (EnhancedResolver { ipv6: true, ..off }),
    ensures
        q.qtype != QType::AAAA ==> off.early(message, q, registry) == on.early(
            message,
            q,
            registry,
        ),
        q.qtype == QType::AAAA ==> (off.early(message, q, registry) matches EarlyView::Reply(bytes)
            && response::answer_ips(bytes).len() == 0 && response::min_ttl(bytes) is None),
{
    query::law_query_has_question(message);
    wire::lemma_name_end_bounds(message, 12);
    response::law_refusal_has_no_address(message, 0);
    response::law_refusal_has_no_address(message, 3);
}

/// A query of a type that is not one of addresses goes to the cache and the servers, whatever the
/// table of hosts says and whether or not the domain gets fake addresses.
pub proof fn law_other_types_are_asked<S: Store>(
    r: EnhancedResolver<S>,
    message: Seq<u8>,
    q: QueryView,
    registry: Seq<RuleProviderImpl>,
)
    requires
        q.qtype != QType::A,
        q.qtype != QType::AAAA,
        r.black_domain_filter matches Some(f) ==> !f.matches(q.domain, registry),
    ensures
        r.early(message, q, registry) is Rest,
{
}

/// An answer with a fake address gives one address, with the time to live of fake addresses: the one
/// that the host has in the pool of the version that was asked for, and an address of that version
/// where it is a new one.
pub proof fn law_fake_reply_is_of_version<S: Store>(
    before: Option<FakeDns<S>>,
    after: Option<FakeDns<S>>,
    message: Seq<u8>,
    host: Seq<char>,
    v6: bool,
    ttl: u32,
    registry: Seq<RuleProviderImpl>,
    reply: Seq<u8>,
)
    requires
        EnhancedResolver::<S>::replied_fake(before, after, message, host, v6, ttl, registry, reply),
    ensures
        response::answer_ips(reply).len() == 1,
        before matches Some(dns) && dns.held().addr_of(host, v6) is None ==> (
        response::answer_ips(reply)[0] is V6) == v6,
        before matches Some(dns) && (dns.held().addr_of(host, v6) matches Some(known)
            ==> response::answer_ips(reply)[0] == known),
        response::min_ttl(reply) == Some(ttl),
        after matches Some(dns) && dns.held().addr_of(host, v6) == Some(
            response::answer_ips(reply)[0],
        ),
{
    let addr = choose|addr: IpAddr|
        #[trigger] gave_fake(before, after, host, v6, registry, addr) && response::ip_response(
            message,
            seq![addr],
            ttl,
        ) == Some(reply);
    let mid = choose|mid: FakeDns<S>|
        fakeip::same_but_memory(before.unwrap(), mid, registry) && #[trigger] found_fake(
            mid,
            after.unwrap(),
            host,
            v6,
            addr,
        );
    response::law_addresses_read_back(message, seq![addr], ttl);
}

/// The servers of the policy come first: where it has servers for a domain that is no proxy
/// server's name and is not sent to the direct servers, exactly those are asked, whatever the main
/// and the fallback servers are.
pub proof fn law_policy_servers_are_asked<S: Store>(
    r: EnhancedResolver<S>,
    domain: Seq<char>,
    codes: Seq<Seq<char>>,
    registry: Seq<RuleProviderImpl>,
)
    requires
        r.policy is Some,
        r.policy.unwrap()@.servers_for(domain, codes, registry) is Some,
        r.policy.unwrap()@.servers_for(domain, codes, registry).unwrap().len() > 0,
    ensures
        (r.proxy_upstreams is None || (r.proxy_server_domains matches Some(names) ==> trie::found(
            names@,
            domain,
        ) is None)) && (r.direct_upstreams is None || (r.fake_dns matches Some(dns)
            ==> !fakeip::skips(dns.filter(), dns.mode(), domain, registry))) ==> r.asked(
            domain,
            codes,
            registry,
        ) == UpstreamPlanView::Servers(
            r.policy.unwrap()@.servers_for(domain, codes, registry).unwrap(),
        ),
        r.asked_in_turn(domain, codes, registry) == UpstreamPlanView::Servers(
            r.policy.unwrap()@.servers_for(domain, codes, registry).unwrap(),
        ),
{
}

/// Adding or taking away fallback servers and their filter does not change who is asked for a domain
/// that the policy has servers for.
pub proof fn law_fallback_leaves_policy_alone<S: Store>(
    r: EnhancedResolver<S>,
    other: EnhancedResolver<S>,
    domain: Seq<char>,
    codes: Seq<Seq<char>>,
    registry: Seq<RuleProviderImpl>,
)
    requires
        other == (EnhancedResolver {
            fallback_upstreams: other.fallback_upstreams,
            fallback_filter: other.fallback_filter,
            ..r
        }),
        r.policy is Some,
        r.policy.unwrap()@.servers_for(domain, codes, registry) is Some,
    ensures
        other.asked(domain, codes, registry) == r.asked(domain, codes, registry),
        other.asked_in_turn(domain, codes, registry) == r.asked_in_turn(domain, codes, registry),
{
}

/// For the name of a proxy's server exactly the servers for such names are asked, before every other
/// choice.
pub proof fn law_proxy_names_have_their_servers<S: Store>(
    r: EnhancedResolver<S>,
    domain: Seq<char>,
    codes: Seq<Seq<char>>,
    registry: Seq<RuleProviderImpl>,
)
    requires
        r.proxy_upstreams matches Some(servers) && servers@.len() > 0,
        r.proxy_server_domains matches Some(names) && trie::found(names@, domain) is Some,
    ensures
        r.asked(domain, codes, registry) == UpstreamPlanView::Servers(
            text::string_views(r.proxy_upstreams.unwrap()@),
        ),
{
    assert(text::string_views(r.proxy_upstreams.unwrap()@).len() == r.proxy_upstreams.unwrap()@.len());
}

/// Where there are fake addresses, exactly the direct servers are asked for a domain that gets none,
/// whatever the policy says; without fake addresses the direct servers are never asked for being
/// such.
pub proof fn law_direct_servers_are_for_real_addresses<S: Store>(
    r: EnhancedResolver<S>,
    without: EnhancedResolver<S>,
    domain: Seq<char>,
    codes: Seq<Seq<char>>,
    registry: Seq<RuleProviderImpl>,
)
    requires
        r.direct_upstreams matches Some(servers) && servers@.len() > 0,
        r.proxy_upstreams is None || r.proxy_server_domains is None || trie::found(
            r.proxy_server_domains.unwrap()@,
            domain,
        ) is None,
        without == (EnhancedResolver { direct_upstreams: None, ..r }),
    ensures
        match r.fake_dns {
            Some(dns) => if fakeip::skips(dns.filter(), dns.mode(), domain, registry) {
                r.asked(domain, codes, registry) == UpstreamPlanView::Servers(
                    text::string_views(r.direct_upstreams.unwrap()@),
                )
            } else {
                r.asked(domain, codes, registry) == without.asked(domain, codes, registry)
            },
            None => r.asked(domain, codes, registry) == without.asked(domain, codes, registry),
        },
{
    assert(text::string_views(r.direct_upstreams.unwrap()@).len()
        == r.direct_upstreams.unwrap()@.len());
}

/// Without a policy for the domain the main servers are asked, and the fallback servers with them
/// where there are any. The direct servers and those for names of proxies' servers are left out
/// here.
pub proof fn law_main_servers_are_asked<S: Store>(
    r: EnhancedResolver<S>,
    domain: Seq<char>,
    codes: Seq<Seq<char>>,
    registry: Seq<RuleProviderImpl>,
)
    requires
        r.proxy_upstreams is None || r.proxy_server_domains is None,
        r.direct_upstreams is None || r.fake_dns is None,
        r.policy matches Some(p) ==> p@.servers_for(domain, codes, registry) is None,
        r.main_upstreams@.len() > 0,
    ensures
        match r.asked(domain, codes, registry) {
            UpstreamPlanView::WithFallback(main, fallback) => r.fallback_upstreams is Some && main
                == text::string_views(r.main_upstreams@) && fallback == text::string_views(
                r.fallback_upstreams.unwrap()@,
            ),
            UpstreamPlanView::Servers(servers) => r.fallback_upstreams is None && servers
                == text::string_views(r.main_upstreams@),
            UpstreamPlanView::NoServers => false,
        },
{
    assert(text::string_views(r.main_upstreams@).len() == r.main_upstreams@.len());
}

/// For addresses of a domain that the policy does not know, the fallback servers alone are asked
/// where the filter names the domain; else the main ones go first.
pub proof fn law_named_domains_skip_main<S: Store>(
    r: EnhancedResolver<S>,
    domain: Seq<char>,
    codes: Seq<Seq<char>>,
    registry: Seq<RuleProviderImpl>,
)
    requires
        r.policy matches Some(p) ==> p@.servers_for(domain, codes, registry) is None,
        r.main_upstreams@.len() > 0,
        r.fallback_upstreams matches Some(fallback) ==> fallback@.len() > 0,
    ensures
        match (r.fallback_upstreams, r.asked_in_turn(domain, codes, registry)) {
            (Some(fallback), UpstreamPlanView::Servers(servers)) => servers == text::string_views(
                fallback@,
            ) && (r.fallback_filter matches Some(f) && f.domain_matches(domain, registry)),
            (Some(fallback), UpstreamPlanView::WithFallback(first, second)) => first
                == text::string_views(r.main_upstreams@) && second == text::string_views(fallback@)
                && (r.fallback_filter matches Some(f) ==> !f.domain_matches(domain, registry)),
            (None, UpstreamPlanView::Servers(servers)) => servers == text::string_views(
                r.main_upstreams@,
            ),
            _ => false,
        },
{
    assert(text::string_views(r.main_upstreams@).len() == r.main_upstreams@.len());
    if r.fallback_upstreams is Some {
        let fallback = r.fallback_upstreams.unwrap();
        assert(text::string_views(fallback@).len() == fallback@.len());
    }
}

/// The answer of the main servers counts unless there is a fallback answer and the filter objects to
/// the domain or to one of the answer's addresses; the only answer there is always counts.
pub proof fn law_fallback_answer_replaces_objectionable<S: Store>(
    r: EnhancedResolver<S>,
    domain: Seq<char>,
    main: Seq<u8>,
    countries: Seq<Option<String>>,
    registry: Seq<RuleProviderImpl>,
)
    ensures
        r.picked(domain, Some(main), false, countries, registry) == Pick::Main,
        r.picked(domain, None, true, countries, registry) == Pick::Fallback,
        r.picked(domain, None, false, countries, registry) == Pick::Neither,
        r.fallback_filter is None ==> r.picked(domain, Some(main), true, countries, registry)
            == Pick::Main,
        r.fallback_filter matches Some(f) ==> (r.picked(
            domain,
            Some(main),
            true,
            countries,
            registry,
        ) == Pick::Fallback <==> f.domain_matches(domain, registry) || exists|i: int|
            0 <= i < response::answer_ips(main).len() && f.ip_matches(
                #[trigger] response::answer_ips(main)[i],
                if i < countries.len() {
                    text::opt_view(countries[i])
                } else {
                    None
                },
                registry,
            )),
        r.picked(domain, Some(main), true, countries, registry) != Pick::Neither,
{
    if let Some(f) = r.fallback_filter {
        let ips = response::answer_ips(main);
        assert forall|i: int| 0 <= i < ips.len() implies (if i < countries.len() {
            text::opt_view(countries[i])
        } else {
            None
        }) == #[trigger] country_at(countries, i) by {}
        if calls_fallback(f, domain, ips, countries, registry) && !f.domain_matches(
            domain,
            registry,
        ) {
            let i = choose|i: int|
                0 <= i < ips.len() && f.ip_matches(#[trigger] ips[i], country_at(countries, i), registry);
            assert(f.ip_matches(ips[i], country_at(countries, i), registry));
        }
    }
}

/// A query for addresses of a wanted domain that is answered at once gets exactly one address while
/// IPv6 is switched on, or where an IPv4 address is asked for; and an answer that is given at once
/// sends nothing and keeps nothing.
pub proof fn law_reply_gives_one_address<S: Store>(
    before: EnhancedResolver<S>,
    after: EnhancedResolver<S>,
    message: Seq<u8>,
    registry: Seq<RuleProviderImpl>,
    now: u64,
    res: ExchangeStep,
    q: QueryView,
)
    requires
        EnhancedResolver::<S>::exchanged_as(before, after, message, registry, now, res),
        query::query_of(message) == Some(q),
        before.ipv6 || q.qtype != QType::AAAA,
        before.black_domain_filter matches Some(f) ==> !f.matches(q.domain, registry),
    ensures
        res matches ExchangeStep::Reply(v) ==> response::answer_ips(v@).len() == 1 && (q.qtype
            == QType::A || q.qtype == QType::AAAA) && after.lru_cache == before.lru_cache
            && after.singleflight == before.singleflight,
        !(res is Invalid),
        q.qtype != QType::A && q.qtype != QType::AAAA ==> res is Go,
        before.hosts is None && before.fake_dns is None ==> res is Go,
{
    law_early_reply_gives_address(before, message, q, registry);
    if let EarlyView::Fake(v6) = before.early(message, q, registry) {
        if let ExchangeStep::Reply(v) = res {
            law_fake_reply_is_of_version(
                before.fake_dns,
                after.fake_dns,
                message,
                q.domain,
                v6,
                before.fake_ip_ttl,
                registry,
                v@,
            );
        }
    }
}

/// A query that cannot be read is turned down and changes nothing; every other one is answered or
/// goes on. An unwanted domain does not exist: the answer says so and gives no address.
pub proof fn law_unreadable_query_is_invalid<S: Store>(
    before: EnhancedResolver<S>,
    after: EnhancedResolver<S>,
    message: Seq<u8>,
    registry: Seq<RuleProviderImpl>,
    now: u64,
    res: ExchangeStep,
)
    requires
        EnhancedResolver::<S>::exchanged_as(before, after, message, registry, now, res),
    ensures
        res is Invalid <==> query::query_of(message) is None,
        res is Invalid ==> after == before,
        query::query_of(message) matches Some(q) ==> (before.black_domain_filter matches Some(f) ==> (
        f.matches(q.domain, registry) ==> (res matches ExchangeStep::Reply(v) && v@[3] % 16 == 3
            && response::answer_ips(v@).len() == 0 && after == before))),
{
    if let Some(q) = query::query_of(message) {
        query::law_query_has_question(message);
        wire::lemma_name_end_bounds(message, 12);
        response::law_refusal_is_one_to_the_query(message, q, 3);
        response::law_refusal_has_no_address(message, 3);
    }
}

/// A query that goes on and whose answer is in the cache and has not expired is done at once; one
/// that nothing is known of is asked or waited for.
pub proof fn law_cache_is_asked_first<S: Store>(
    before: EnhancedResolver<S>,
    after: EnhancedResolver<S>,
    q: QueryView,
    now: u64,
    res: ExchangeStep,
)
    requires
        EnhancedResolver::<S>::stepped(before, after, q, now, res),
    ensures
        before.lru_cache matches Some(lru) ==> (lru.finds(""@, q, now) matches LookupView::Hit(
            wire,
            left,
        ) ==> (wire.len() >= 12 ==> (res matches ExchangeStep::Go(TransportStep::Done(bytes, leader), _)
            && leader is None && wire::be16(bytes@, 0) == q.id && response::answer_ips(bytes@)
            == response::answer_ips(wire) && after.singleflight@ == before.singleflight@))),
        before.lru_cache is None || before.lru_cache.unwrap().finds(""@, q, now) is Miss ==> (res
            matches ExchangeStep::Go(step, _) && !(step matches TransportStep::Done(_, Some(_)))),
        (before.lru_cache is None || before.lru_cache.unwrap().finds(""@, q, now) is Miss)
            && before.singleflight@.flights.len() == 0 ==> res matches ExchangeStep::Go(
            TransportStep::Fetch(Some(_)),
            _,
        ),
{
    let known = known_of(before.lru_cache, q, now);
    if let LookupView::Hit(wire, left) = known {
        if wire.len() >= 12 {
            transport::law_fresh_answer_is_served(before.singleflight@, wire, left, q, None);
        }
    }
}

/// What is known of a host before any server is asked has the version that was asked for. Fake
/// addresses are given only where they are asked for and no address is known. With IPv6 switched on
/// no lookup is turned down for it; switched off, no IPv6 address is asked for.
pub proof fn law_known_address_is_of_version<S: Store>(
    r: EnhancedResolver<S>,
    host: Seq<char>,
    v6: Option<bool>,
    enhanced: bool,
    registry: Seq<RuleProviderImpl>,
)
    ensures
        match r.local(host, v6, enhanced, registry) {
            LocalView::Known(known) => known matches Some(addr) ==> {
                &&& v6 matches Some(six) ==> (addr is V6) == six
                &&& ip::ip_value(host) == Some(addr) || (ip::ip_value(host) is None && (
                r.hosts matches Some(hosts) && hosts.address_of(host) == Some(addr)))
            },
            LocalView::Fake => enhanced && r.fake_dns is Some && ip::ip_value(host) is None && (
            r.hosts matches Some(hosts) ==> hosts.address_of(host) is None),
            LocalView::Ipv6Disabled => v6 == Some(true) && !r.ipv6,
            LocalView::Ask => ip::ip_value(host) is None && (r.hosts matches Some(hosts)
                ==> hosts.address_of(host) is None) && (v6 == Some(true) ==> r.ipv6),
        },
        v6 is None && (r.black_domain_filter matches Some(f) ==> !f.matches(host, registry))
            && ip::ip_value(host) is None ==> (r.hosts matches Some(hosts) ==> (hosts.address_of(
            host,
        ) is Some ==> r.local(host, v6, enhanced, registry) == LocalView::Known(
            hosts.address_of(host),
        ))),
{
}

/// A host that nothing is known of is asked for under the version that was asked for; where none
/// was, for IPv6 addresses exactly where IPv6 is switched on.
pub proof fn law_lookup_asks_for_version<S: Store>(
    before: EnhancedResolver<S>,
    after: EnhancedResolver<S>,
    host: Seq<char>,
    v6: Option<bool>,
    registry: Seq<RuleProviderImpl>,
    step: LookupStep,
)
    requires
        EnhancedResolver::<S>::resolved(before, after, host, v6, false, registry, step),
        before.local(host, v6, false, registry) is Ask,
        query::wire_name(host) is Some,
    ensures
        step matches LookupStep::Ask(wire) && resolver::is_address_query(
            wire@,
            host,
            match v6 {
                Some(six) => six,
                None => before.ipv6,
            },
        ),
        after.collector == before.collector,
{
}

/// A lookup that does not ask for fake addresses never gets one, and leaves the pools as they are.
pub proof fn law_plain_lookup_gives_no_fake<S: Store>(
    before: EnhancedResolver<S>,
    after: EnhancedResolver<S>,
    host: Seq<char>,
    v6: Option<bool>,
    registry: Seq<RuleProviderImpl>,
    step: LookupStep,
)
    requires
        EnhancedResolver::<S>::resolved(before, after, host, v6, false, registry, step),
    ensures
        step matches LookupStep::Known(Some(addr)) ==> (ip::ip_value(host) == Some(addr) || (
        before.hosts matches Some(hosts) && hosts.address_of(host) == Some(addr))),
        match (before.fake_dns, after.fake_dns) {
            (Some(a), Some(b)) => a.held() == b.held() && a.pool4() == b.pool4() && a.pool6()
                == b.pool6(),
            (None, None) => true,
            _ => false,
        },
{
}

/// The answer to a certificate challenge is never kept, while other answers for the same name are
/// kept by the same measure as any; an answer that gives only addresses of no host is not kept, nor
/// one without a time to live.
pub proof fn law_what_is_kept<S: Store>(
    r: EnhancedResolver<S>,
    qtype: QType,
    host: Seq<char>,
    resp: Seq<u8>,
)
    ensures
        qtype == QType::TXT && text::has_prefix(host, "_acme-challenge."@) ==> !r.keeps(
            qtype,
            host,
            resp,
        ),
        qtype != QType::TXT ==> r.keeps(qtype, host, resp) == r.keeps(QType::A, host, resp),
        response::answer_ips(resp).len() == 1 && response::answer_ips(resp)[0] == IpAddr::V4(0)
            ==> !r.keeps(qtype, host, resp),
        r.fixed_domain_ttl is None && r.optimistic_cache_ttl == 0 && response::min_ttl(resp)
            == Some(0u32) ==> !r.keeps(qtype, host, resp),
        qtype == QType::A && response::answer_ips(resp).len() == 0 && r.fixed_domain_ttl is None
            && response::min_ttl(resp) is None ==> r.keeps(qtype, host, resp),
        qtype == QType::A && response::answer_ips(resp).len() > 0 && response::answer_ips(resp)[0]
            != IpAddr::V4(0) && response::answer_ips(resp)[0] != IpAddr::V6(0)
            && r.fixed_domain_ttl is None && r.optimistic_cache_ttl > 0 ==> r.keeps(qtype, host, resp),
{
    let ips = response::answer_ips(resp);
    if ips.len() == 1 && ips[0] == IpAddr::V4(0) {
        assert(transport::all_unspecified(ips));
    }
    if ips.len() > 0 && ips[0] != IpAddr::V4(0) && ips[0] != IpAddr::V6(0) {
        assert(!transport::unspecified(ips[0]));
    }
}

/// Without a fixed time an answer is good for the greater of its own time and the optimistic one.
pub proof fn law_time_of_an_answer<S: Store>(
    r: EnhancedResolver<S>,
    host: Seq<char>,
    resp: Seq<u8>,
)
    requires
        r.fixed_domain_ttl matches Some(t) ==> trie::found(t@, host) is None,
    ensures
        r.fresh_ttl(host, resp) >= r.optimistic_cache_ttl,
        response::min_ttl(resp) matches Some(ttl) ==> r.fresh_ttl(host, resp) >= ttl && (r.fresh_ttl(
            host,
            resp,
        ) == ttl || r.fresh_ttl(host, resp) == r.optimistic_cache_ttl),
        response::min_ttl(resp) is None && r.optimistic_cache_ttl <= 60 ==> r.fresh_ttl(host, resp)
            == 60,
{
}

/// An answer that comes is found again, under the same question, where it is kept and there is room:
/// for its time to live, and then as an expired one for the retention.
pub proof fn law_answer_is_found_again<S: Store>(
    before: EnhancedResolver<S>,
    after: Option<DnsCache>,
    q: QueryView,
    resp: Seq<u8>,
    put: u64,
    now: u64,
)
    requires
        EnhancedResolver::<S>::cached(before, after, q, q.domain, resp, Some(resp), put),
        before.lru_cache is Some,
        before.keeps(q.qtype, q.domain, resp),
        put <= now,
        put + before.fresh_ttl(q.domain, resp) * 1000 + before.stale_cache_retention <= u64::MAX,
        before.lru_cache.unwrap()@.room_for(
            cache::key_of(""@, q),
            cache::stored(
                resp,
                before.fresh_ttl(q.domain, resp),
                before.stale_cache_retention,
                put,
            ),
        ),
    ensures
        match known_of(after, q, now) {
            LookupView::Hit(wire, left) => wire == resp && now - put < before.fresh_ttl(
                q.domain,
                resp,
            ) * 1000 && 1 <= left <= before.fresh_ttl(q.domain, resp),
            LookupView::Stale(wire) => wire == resp && before.fresh_ttl(q.domain, resp) * 1000 <= now
                - put < before.fresh_ttl(q.domain, resp) * 1000 + before.stale_cache_retention,
            LookupView::Miss => now - put >= before.fresh_ttl(q.domain, resp) * 1000
                + before.stale_cache_retention,
        },
{
    cache::law_served_while_kept(
        resp,
        before.fresh_ttl(q.domain, resp),
        before.stale_cache_retention,
        put,
        now,
    );
}

/// What is no answer to the query, or is not to be kept, leaves the cache as it is.
pub proof fn law_other_answers_are_not_kept<S: Store>(
    before: EnhancedResolver<S>,
    after: Option<DnsCache>,
    q: QueryView,
    host: Seq<char>,
    resp: Seq<u8>,
    kept: Option<Seq<u8>>,
    now: u64,
)
    requires
        EnhancedResolver::<S>::cached(before, after, q, host, resp, kept, now),
        kept is None || !before.keeps(q.qtype, host, resp),
    ensures
        after == before.lru_cache,
{
}

/// The host of a fake address is told before anything that is known of real addresses, and telling
/// it changes nothing; without fake addresses the real ones alone count.
pub proof fn law_fake_host_comes_first<S: Store>(
    before: EnhancedResolver<S>,
    after: EnhancedResolver<S>,
    addr: IpAddr,
    now: u64,
    res: Option<Seq<char>>,
)
    requires
        EnhancedResolver::<S>::reversed(before, after, addr, now, res),
    ensures
        before.fake_dns matches Some(dns) ==> (dns.held().host_of(addr) matches Some(host) ==> res
            == Some(host) && after == before),
        before.fake_dns is None || before.fake_dns.unwrap().held().host_of(addr) is None ==> res == (
        match before.reverse_lookup_cache {
            Some(c) => c.tells(addr, now),
            None => None,
        }),
{
}

/// A query that asks for everything at once is answered with the one address that its name writes,
/// where it writes one of the version that was asked for; with none where it writes one of the
/// other version. Nothing else comes before that but unwanted domains and IPv6 being switched off.
pub proof fn law_name_that_is_an_address<S: Store>(
    before: EnhancedResolver<S>,
    after: EnhancedResolver<S>,
    message: Seq<u8>,
    registry: Seq<RuleProviderImpl>,
    res: AllStep,
    q: QueryView,
    addr: IpAddr,
)
    requires
        EnhancedResolver::<S>::answered_as(before, after, message, registry, res),
        query::query_of(message) == Some(q),
        q.qtype == QType::A || q.qtype == QType::AAAA,
        before.ipv6 || q.qtype == QType::A,
        before.black_domain_filter matches Some(f) ==> !f.matches(q.domain, registry),
        ip::ip_value(q.domain) == Some(addr),
    ensures
        res matches AllStep::Reply(v) && response::answer_ips(v@) == (if (addr is V6) == (q.qtype
            == QType::AAAA) {
            seq![addr]
        } else {
            Seq::empty()
        }),
        after.fake_dns == before.fake_dns,
{
    query::law_query_has_question(message);
    wire::lemma_name_end_bounds(message, 12);
    response::law_refusal_has_no_address(message, 0);
    assert(response::answer_ips(response::empty_response(message, 0)) =~= Seq::empty());
    assert(response::ip_response(message, seq![addr], 60) is Some);
    response::law_addresses_read_back(message, seq![addr], 60);
}

/// Queries that ask for everything at once are answered as others are before any server is asked,
/// where their name is no address.
pub proof fn law_all_at_once_agrees<S: Store>(
    r: EnhancedResolver<S>,
    message: Seq<u8>,
    q: QueryView,
    registry: Seq<RuleProviderImpl>,
)
    requires
        ip::ip_value(q.domain) is None,
    ensures
        match (r.early(message, q, registry), r.answered(message, q, registry)) {
            (EarlyView::Reply(a), AllView::Reply(b, _)) => a == b,
            (EarlyView::Fake(a), AllView::Fake(b)) => a == b,
            (EarlyView::Rest, AllView::Forward) => true,
            _ => false,
        },
{
}

/// Servers go by the names of those that could be set up, each name once, and what was set up before
/// stays.
pub proof fn law_servers_are_listed_once(
    table: Seq<(Seq<char>, EntryView)>,
    servers: Seq<NameServerView>,
    n: int,
    ecs: Option<EdnsClientSubnet>,
    known: Seq<char>,
)
    requires
        0 <= n <= servers.len(),
    ensures
        listed(table, servers, n, ecs).1.no_duplicates(),
        forall|i: int|
            0 <= i < listed(table, servers, n, ecs).1.len() ==> upstream_pool::table_has(
                listed(table, servers, n, ecs).0,
                #[trigger] listed(table, servers, n, ecs).1[i],
            ),
        forall|j: int|
            0 <= j < n ==> (listed(table, servers, n, ecs).1.contains((#[trigger] servers[j]).text())
                <==> upstream_pool::table_has(listed(table, servers, n, ecs).0, servers[j].text())),
        upstream_pool::table_has(table, known) ==> upstream_pool::table_has(
            listed(table, servers, n, ecs).0,
            known,
        ),
    decreases n,
{
    if n > 0 {
        law_servers_are_listed_once(table, servers, n - 1, ecs, known);
        let before = listed(table, servers, n - 1, ecs);
        let after = listed(table, servers, n, ecs);
        let ns = servers[n - 1];
        let key = ns.text();
        upstream_pool::law_server_is_set_up_once(before.0, key, ns, ns.proxy, ecs, ns, known);
        assert forall|i: int| 0 <= i < after.1.len() implies upstream_pool::table_has(
            after.0,
            #[trigger] after.1[i],
        ) by {
            if i < before.1.len() {
                assert(after.1[i] == before.1[i]);
                upstream_pool::law_server_is_set_up_once(before.0, key, ns, ns.proxy, ecs, ns, after.1[i]);
            }
        }
        if after.1.len() > before.1.len() {
            assert(after.1[before.1.len() as int] == key);
        }
        assert(after.1.no_duplicates());
        assert forall|j: int| 0 <= j < n implies (after.1.contains((#[trigger] servers[j]).text())
            <==> upstream_pool::table_has(after.0, servers[j].text())) by {
            let own = servers[j].text();
            upstream_pool::law_server_is_set_up_once(before.0, key, ns, ns.proxy, ecs, ns, own);
            if after.1.contains(own) {
                let i = choose|i: int| 0 <= i < after.1.len() && after.1[i] == own;
                assert(upstream_pool::table_has(after.0, after.1[i]));
            }
            if before.1.contains(own) {
                let i = choose|i: int| 0 <= i < before.1.len() && before.1[i] == own;
                assert(after.1[i] == own);
            }
        }
    }
}

/// Whatever a policy leads to has servers: an entry none of whose servers could be set up leads
/// nowhere, as if it were not there.
pub proof fn law_policy_has_servers(
    table: Seq<(Seq<char>, EntryView)>,
    entries: Seq<(Seq<char>, Seq<NameServerView>)>,
    n: int,
    ecs: Option<EdnsClientSubnet>,
    g: int,
)
    requires
        0 <= n <= entries.len(),
        0 <= g < policied(table, entries, n, ecs).1.groups.len(),
    ensures
        policied(table, entries, n, ecs).1.groups[g].len() > 0,
    decreases n,
{
    if n > 0 {
        let policy = policied(table, entries, n - 1, ecs).1;
        if g < policy.groups.len() {
            law_policy_has_servers(table, entries, n - 1, ecs, g);
        }
    }
}

} // verus!
