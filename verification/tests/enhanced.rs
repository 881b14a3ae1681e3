use clash_app::dns::collector::DnsCollector;
use clash_app::dns::config::{
    Config, DNSListenAddr, DNSMode, FallbackFilter as FallbackConfig, FixedTtl, HostDef, Hosts,
};
use clash_app::dns::fakeip::mem_store::InMemStore;
use clash_app::dns::fakeip::{FakeDns, FakeIpFilterMode, Opts};
use clash_app::dns::filters::FallbackFilter;
use clash_app::dns::nameserver::{DNSNetMode, NameServer, NameServerPolicy};
use clash_app::dns::query::{build_dns_query_wire_with_id, DnsName, QType, QueryContext};
use clash_app::dns::resolver::cache::DnsCache;
use clash_app::dns::resolver::enhanced::{
    AllStep, EnhancedResolver, ExchangeStep, LookupStep, Pick, UpstreamPlan,
};
use clash_app::dns::resolver::router::transport::TransportStep;
use clash_app::dns::resolver::{
    address_query, choose_resolver, first_address, parse_ip_literal, resolve_version,
    ResolveStep, ResolverChoice, ResolverKind,
};
use clash_app::dns::resolver::reverse_cache::ReverseLookupCache;
use clash_app::dns::resolver::system::{SystemResolver, SystemStep};
use clash_app::dns::response::{
    build_dns_ip_response, build_dns_nxdomain, extract_ips_from_dns_response,
    extract_min_ttl_from_dns_response, ResponseTemplate,
};
use clash_app::dns::singleflight::{FlightKey, FlightLeader, Singleflight};
use clash_app::dns::upstream_pool::UpstreamTable;
use clash_app::ip::{parse_ip, IpAddr, Ipv4Net, Ipv6Net};
use clash_app::providers::rule_provider::{RuleProviderImpl, RuleSetBehavior, RuleSetFormat};
use clash_app::uri::Host;

fn texts(list: &[&str]) -> Vec<String> {
    list.iter().map(|s| s.to_string()).collect()
}

fn ip(s: &str) -> IpAddr {
    parse_ip(s).unwrap()
}

fn query_wire(id: u16, domain: &str, qtype: QType) -> Vec<u8> {
    build_dns_query_wire_with_id(id, &DnsName::from_domain(domain).unwrap(), qtype)
}

fn server(addr: &str) -> NameServer {
    let host = match ip(addr) {
        IpAddr::V4(addr) => Host::Ipv4(addr),
        IpAddr::V6(addr) => Host::Ipv6(addr),
    };
    NameServer { net: DNSNetMode::Udp, host, port: 53, path: None, interface: None, proxy: None }
}

fn config() -> Config {
    Config {
        enable: true,
        ipv6: false,
        nameserver: vec![server("223.5.5.5")],
        fallback: vec![],
        fallback_filter: FallbackConfig {
            geo_ip: false,
            geo_ip_code: "CN".to_string(),
            ip_cidr: vec![],
            domain: vec![],
        },
        listen: DNSListenAddr { udp: None, tcp: None, doh: None, dot: None, doh3: None },
        enhance_mode: DNSMode::Normal,
        default_nameserver: vec![server("114.114.114.114")],
        proxy_server_nameserver: None,
        fake_ip_range: Ipv4Net { addr: 0xc612_0001, prefix_len: 16 },
        fake_ip_range6: Ipv6Net { addr: 0xfc << 120, prefix_len: 18 },
        fake_ip_filter: vec![],
        fake_ip_filter_mode: FakeIpFilterMode::Blacklist,
        fake_ip_ttl: 1,
        black_filter: vec![],
        store_fake_ip: false,
        store_smart_stats: false,
        hosts: Some(Hosts::localhost()),
        nameserver_policy: vec![],
        edns_client_subnet: None,
        fw_mark: None,
        respect_rules: false,
        optimistic_cache_ttl: 0,
        fixed_domain_ttl: vec![],
        stale_cache_retention: 3600,
    }
}

fn made(cfg: Config) -> EnhancedResolver<InMemStore> {
    EnhancedResolver::new(cfg, InMemStore::new(1000), &vec![], &vec![], None)
}

fn new_default() -> EnhancedResolver<InMemStore> {
    EnhancedResolver {
        ipv6: false,
        hosts: None,
        bootstrap: None,
        table: UpstreamTable::new(),
        main_upstreams: vec![],
        fallback_upstreams: None,
        fallback_filter: None,
        lru_cache: None,
        policy: None,
        proxy_upstreams: None,
        direct_upstreams: None,
        proxy_server_domains: None,
        fake_dns: None,
        fake_ip_ttl: 1,
        reverse_lookup_cache: None,
        black_domain_filter: None,
        collector: None,
        singleflight: Singleflight::new(),
        optimistic_cache_ttl: 0,
        stale_cache_retention: 3_600_000,
        fixed_domain_ttl: None,
        seen_changes: vec![],
    }
}

fn known(step: LookupStep) -> Option<IpAddr> {
    match step {
        LookupStep::Known(addr) => addr,
        other => panic!("{:?}", other),
    }
}

#[test]
fn enhanced_test_resolve_ipv6_literal_when_ipv6_disabled() {
    let mut resolver = new_default();
    resolver.set_ipv6(false);
    assert!(!resolver.ipv6, "ipv6 should be disabled");

    let result = known(resolver.resolve("::1", false, &vec![]));
    assert_eq!(result, Some(ip("::1")), "IPv6 literal should be returned as-is");
}

#[test]
fn enhanced_test_resolve_ipv4_literal_when_ipv6_disabled() {
    let mut resolver = new_default();
    resolver.set_ipv6(false);

    let result = known(resolver.resolve("127.0.0.1", false, &vec![]));
    assert_eq!(result, Some(ip("127.0.0.1")), "IPv4 literal should be returned as-is");
}

#[test]
fn tests_test_resolve_ipv6_literal_when_ipv6_disabled() {
    let mut resolver = made(config());
    resolver.set_ipv6(false);
    assert!(!resolver.ipv6, "ipv6 should be disabled");
    assert_eq!(known(resolver.resolve("::1", false, &vec![])), Some(ip("::1")));
}

#[test]
fn tests_test_resolve_ipv4_literal_when_ipv6_disabled() {
    let mut resolver = made(config());
    resolver.set_ipv6(false);
    assert_eq!(known(resolver.resolve("127.0.0.1", false, &vec![])), Some(ip("127.0.0.1")));
}

#[test]
fn test_resolve_v6_literal_when_ipv6_disabled() {
    let mut resolver = new_default();
    resolver.set_ipv6(false);

    let result = known(resolver.resolve_v6("::1", false, &vec![]));
    assert_eq!(result, Some(ip("::1")), "IPv6 literal should be returned directly");
    assert!(matches!(
        resolver.resolve_v6("a.com", false, &vec![]),
        LookupStep::Ipv6Disabled
    ));
}

#[test]
fn test_lru_cache_hit_with_recursion_desired() {
    let mut resolver = new_default();
    resolver.lru_cache = Some(DnsCache::new(16));
    let raw = query_wire(0, "example.com", QType::A);
    let query = QueryContext::parse(&raw).unwrap();
    let addr = ip("127.0.0.1");
    let resp = build_dns_ip_response(&raw, &vec![addr], 300).unwrap();
    let template = ResponseTemplate::validate(&query, &resp).unwrap();
    resolver.lru_cache.as_mut().unwrap().insert(&query, template, 300, 3_600_000, 1_000);

    match resolver.exchange(&raw, &vec![], 1_000) {
        ExchangeStep::Go(TransportStep::Done(answer, _), _) => {
            assert_eq!(extract_ips_from_dns_response(&answer), vec![addr]);
        }
        _ => panic!("should be served from cache"),
    }
}

#[test]
fn test_proxy_server_nameserver_initialization() {
    let mut cfg = config();
    cfg.proxy_server_nameserver = Some(vec![server("8.8.8.8")]);
    let resolver = made(cfg);

    assert!(resolver.proxy_upstreams.is_some());
    assert!(resolver.proxy_server_domains.is_none());
}

#[test]
fn test_proxy_server_nameserver_without_config() {
    let mut cfg = config();
    cfg.proxy_server_nameserver = None;
    let resolver = made(cfg);

    assert!(resolver.proxy_upstreams.is_none());
    assert!(resolver.proxy_server_domains.is_none());
}

#[test]
fn test_proxy_server_domains_populated_from_outbounds() {
    let mut cfg = config();
    cfg.proxy_server_nameserver = Some(vec![server("8.8.8.8")]);
    let names = texts(&["proxy.example.com", "vpn.example.net", "1.2.3.4"]);

    let mut resolver: EnhancedResolver<InMemStore> =
        EnhancedResolver::new(cfg, InMemStore::new(10), &names, &vec![], None);

    assert!(resolver.proxy_upstreams.is_some());
    let domains = resolver
        .proxy_server_domains
        .as_ref()
        .expect("proxy_server_domains should be Some when domain-named outbounds exist");
    let chars = |s: &str| -> Vec<char> { s.chars().collect() };
    assert!(domains.search(&chars("proxy.example.com")).is_some());
    assert!(domains.search(&chars("vpn.example.net")).is_some());
    assert!(domains.search(&chars("1.2.3.4")).is_some());

    let raw = query_wire(1, "proxy.example.com", QType::A);
    let query = QueryContext::parse(&raw).unwrap();
    let proxies = resolver.proxy_upstreams.as_ref().unwrap().clone();
    match resolver.exchange_no_cache(&query, &vec![], &vec![]) {
        UpstreamPlan::Servers(keys) => assert_eq!(keys, proxies),
        _ => panic!("the proxies' servers are asked"),
    }
}

#[test]
fn test_black_domain_filter() {
    let mut cfg = config();
    cfg.black_filter = texts(&["*.bad.domain", "exact-bad.domain", "rule-set:adblock"]);
    let mut resolver = made(cfg);
    let none = vec![];

    assert!(resolver.is_blacklisted("exact-bad.domain", &none));
    assert!(resolver.is_blacklisted("test.bad.domain", &none));
    assert!(!resolver.is_blacklisted("good.domain", &none));

    let mut provider = RuleProviderImpl::new(
        "adblock".to_string(),
        RuleSetBehavior::Domain,
        RuleSetFormat::Text,
        Some(texts(&["+.google.com"])),
    );
    provider.initialize().unwrap();
    let registry = vec![provider];

    assert!(!resolver.is_blacklisted("test.google.com", &registry));

    if let Some(black_filter) = &mut resolver.black_domain_filter {
        black_filter.add_rule_set(&registry);
    }

    assert!(resolver.is_blacklisted("test.google.com", &registry));
    assert!(!resolver.is_blacklisted("other.com", &registry));

    assert!(known(resolver.resolve_v4("exact-bad.domain", false, &registry)).is_none());
    assert!(known(resolver.resolve_v4("test.google.com", false, &registry)).is_none());
    assert!(known(resolver.resolve_v6("test.bad.domain", false, &registry)).is_none());

    let raw = query_wire(1, "exact-bad.domain", QType::A);
    match resolver.exchange(&raw, &registry, 0) {
        ExchangeStep::Reply(answer) => assert_eq!(answer[3] & 15, 3),
        _ => panic!("an answer is known"),
    }
    match resolver.exchange_all(&raw, &registry) {
        AllStep::Reply(answer) => assert_eq!(answer[3] & 15, 3),
        _ => panic!("an answer is known"),
    }
}

#[test]
fn test_direct_nameserver_routing_logic() {
    let mut cfg = config();
    cfg.enhance_mode = DNSMode::FakeIp;
    cfg.fake_ip_filter = texts(&["bypass.example.com"]);
    let mut resolver: EnhancedResolver<InMemStore> = EnhancedResolver::new(
        cfg,
        InMemStore::new(1000),
        &vec![],
        &vec![server("9.9.9.9")],
        None,
    );
    let direct = resolver.direct_upstreams.as_ref().unwrap().clone();
    assert_ne!(direct, resolver.main_upstreams);

    for qtype in [QType::A, QType::TXT] {
        let raw = query_wire(1, "bypass.example.com", qtype);
        assert!(matches!(resolver.exchange_all(&raw, &vec![]), AllStep::Forward));
        let query = QueryContext::parse(&raw).unwrap();
        match resolver.exchange_no_cache(&query, &vec![], &vec![]) {
            UpstreamPlan::Servers(keys) => {
                assert_eq!(keys, direct, "the direct servers should be asked")
            }
            _ => panic!("servers are known"),
        }
    }
}

#[test]
fn test_dns_resolution_hook_triggered() {
    let mut resolver = new_default();
    let raw = query_wire(0x1234, "hook-test.com", QType::A);
    let query = QueryContext::parse(&raw).unwrap();
    let resp = build_dns_ip_response(&raw, &vec![ip("93.184.216.34")], 120).unwrap();
    let fresh = resolver.process_fresh_response(&query, "hook-test.com", &resp, None, 0);
    assert_eq!(fresh.ips, vec![ip("93.184.216.34")]);
    assert_eq!(fresh.ttl, 120);
}

#[test]
fn test_dns_resolution_hook_end_to_end_on_exchange() {
    let mut cfg = config();
    cfg.nameserver = vec![server("127.0.0.1")];
    let mut resolver = made(cfg);
    let raw = query_wire(0x5678, "hook-e2e.com", QType::A);

    let (leader, query) = match resolver.exchange(&raw, &vec![], 0) {
        ExchangeStep::Go(TransportStep::Fetch(leader), query) => (leader, query),
        _ => panic!("the servers are to be asked"),
    };
    match resolver.exchange_no_cache(&query, &vec![], &vec![]) {
        UpstreamPlan::Servers(keys) => assert_eq!(keys, resolver.main_upstreams),
        _ => panic!("a server is known"),
    }
    let resp = build_dns_ip_response(&raw, &vec![ip("93.184.216.34")], 120).unwrap();
    let fresh = resolver.take_answer(&query, &resp, leader, 0);
    assert_eq!(fresh.ips, vec![ip("93.184.216.34")]);
    assert_eq!(fresh.ttl, 120);

    match resolver.exchange(&raw, &vec![], 1_000) {
        ExchangeStep::Go(TransportStep::Done(answer, None), _) => {
            assert_eq!(extract_ips_from_dns_response(&answer), vec![ip("93.184.216.34")]);
            assert_eq!(extract_min_ttl_from_dns_response(&answer), Some(119));
        }
        _ => panic!("the answer is kept"),
    }
}

#[test]
fn test_fake_ip_exchange() {
    let fake_dns = FakeDns::new(Opts {
        ipnet: Ipv4Net { addr: 0xc612_0001, prefix_len: 16 },
        ipnet6: Ipv6Net { addr: 0xfc << 120, prefix_len: 18 },
        domain_filter: None,
        filter_mode: FakeIpFilterMode::Blacklist,
        store: InMemStore::new(1000),
    });
    let mut resolver = new_default();
    resolver.fake_dns = fake_dns.ok();
    assert!(resolver.fake_ip_enabled());

    let raw = query_wire(0x1122, "example.com", QType::A);
    match resolver.exchange(&raw, &vec![], 0) {
        ExchangeStep::Reply(answer) => {
            let ips = extract_ips_from_dns_response(&answer);
            assert_eq!(ips.len(), 1);
            assert!(resolver.is_fake_ip(ips[0]));
            assert_eq!(resolver.reverse_lookup(ips[0], 0), Some("example.com".to_string()));
        }
        _ => panic!("fake ip exchange should succeed"),
    }
}

#[test]
fn test_optimistic_cache_ttl_and_never_cache() {
    let mut cfg = config();
    cfg.nameserver = vec![server("114.114.114.114")];
    cfg.optimistic_cache_ttl = 300;
    cfg.fixed_domain_ttl = vec![FixedTtl { domain: "never-cache.com".to_string(), ttl: 0 }];
    cfg.stale_cache_retention = 7200;
    let resolver = made(cfg);

    assert_eq!(resolver.optimistic_cache_ttl, 300);
    assert_eq!(resolver.stale_cache_retention, 7_200_000);
    assert_eq!(resolver.match_fixed_domain_ttl("never-cache.com"), Some(0));
    assert_eq!(resolver.match_fixed_domain_ttl("other.com"), None);
}

#[test]
fn test_reverse_lookup_cache_integration_and_conflict() {
    let mut cfg = config();
    cfg.enhance_mode = DNSMode::FakeIp;
    cfg.nameserver = vec![server("114.114.114.114")];
    let mut resolver = made(cfg);
    let addr = ip("1.2.3.4");

    let raw_a = query_wire(0x1234, "domain-a.com", QType::A);
    let resp_a = build_dns_ip_response(&raw_a, &vec![addr], 120).unwrap();
    let query_a = QueryContext::parse(&raw_a).unwrap();
    resolver.process_fresh_response(&query_a, "domain-a.com", &resp_a, None, 0);
    assert_eq!(resolver.reverse_lookup(addr, 0), Some("domain-a.com".to_string()));

    let raw_b = query_wire(0x5678, "domain-b.com", QType::A);
    let resp_b = build_dns_ip_response(&raw_b, &vec![addr], 120).unwrap();
    let query_b = QueryContext::parse(&raw_b).unwrap();
    resolver.process_fresh_response(&query_b, "domain-b.com", &resp_b, None, 0);
    assert_eq!(resolver.reverse_lookup(addr, 0), None);
}

#[test]
fn a_domain_that_is_never_kept_is_asked_for_again() {
    let mut cfg = config();
    cfg.fixed_domain_ttl = vec![
        FixedTtl { domain: "never.com".to_string(), ttl: 0 },
        FixedTtl { domain: "long.com".to_string(), ttl: 900 },
    ];
    let mut resolver = made(cfg);
    for (domain, ttl) in [("never.com", None), ("long.com", Some(900))] {
        let raw = query_wire(1, domain, QType::A);
        let (leader, query) = match resolver.exchange(&raw, &vec![], 0) {
            ExchangeStep::Go(TransportStep::Fetch(leader), query) => (leader, query),
            _ => panic!("nothing is known yet"),
        };
        let resp = build_dns_ip_response(&raw, &vec![ip("1.2.3.4")], 10).unwrap();
        resolver.take_answer(&query, &resp, leader, 0);
        match (resolver.exchange(&raw, &vec![], 0), ttl) {
            (ExchangeStep::Go(TransportStep::Fetch(leader), _), None) => {
                resolver.take_failure(leader);
            }
            (ExchangeStep::Go(TransportStep::Done(answer, None), _), Some(ttl)) => {
                assert_eq!(extract_min_ttl_from_dns_response(&answer), Some(ttl));
            }
            _ => panic!("{}", domain),
        }
    }
}

#[test]
fn a_second_caller_waits_for_the_first() {
    let mut resolver = made(config());
    let raw = query_wire(1, "a.com", QType::A);
    let (leader, query) = match resolver.exchange(&raw, &vec![], 0) {
        ExchangeStep::Go(TransportStep::Fetch(leader), query) => (leader, query),
        _ => panic!("nothing is known yet"),
    };
    assert!(leader.is_some());
    assert!(matches!(
        resolver.exchange(&raw, &vec![], 0),
        ExchangeStep::Go(TransportStep::Wait(_), _)
    ));
    let resp = build_dns_ip_response(&raw, &vec![ip("1.2.3.4")], 10).unwrap();
    match resolver.on_waited(Some(resp.clone()), &query) {
        TransportStep::Done(answer, None) => {
            assert_eq!(extract_ips_from_dns_response(&answer), vec![ip("1.2.3.4")])
        }
        _ => panic!("the answer is shared"),
    }
    assert!(matches!(resolver.on_waited(None, &query), TransportStep::Fetch(None)));
    let other = query_wire(9, "other.com", QType::A);
    let wrong = build_dns_ip_response(&other, &vec![ip("1.2.3.4")], 10).unwrap();
    assert_eq!(resolver.take_answer(&query, &resp, None, 0).shared, None);
    assert_eq!(resolver.take_answer(&query, &resp, leader, 0).shared, Some(resp));
    let leader = Some(FlightLeader { key: FlightKey::Query(query.canonical_wire()) });
    assert_eq!(resolver.take_answer(&query, &wrong, leader, 0).shared, None);
}

#[test]
fn an_expired_answer_is_used_while_it_is_renewed() {
    let mut cfg = config();
    cfg.optimistic_cache_ttl = 7;
    let mut resolver = made(cfg);
    let raw = query_wire(1, "a.com", QType::A);
    let (leader, query) = match resolver.exchange(&raw, &vec![], 0) {
        ExchangeStep::Go(TransportStep::Fetch(leader), query) => (leader, query),
        _ => panic!("nothing is known yet"),
    };
    let resp = build_dns_ip_response(&raw, &vec![ip("1.2.3.4")], 10).unwrap();
    resolver.take_answer(&query, &resp, leader, 0);
    match resolver.exchange(&raw, &vec![], 20_000) {
        ExchangeStep::Go(TransportStep::Done(answer, Some(_)), _) => {
            assert_eq!(extract_ips_from_dns_response(&answer), vec![ip("1.2.3.4")]);
        }
        _ => panic!("an expired answer is there"),
    }
}

#[test]
fn hosts_answer_at_once() {
    let mut cfg = config();
    let list = vec![HostDef { host: "a.com".to_string(), ip: "1.2.3.4".to_string() }];
    cfg.hosts = Config::parse_hosts(&list).ok();
    let mut resolver = made(cfg);
    assert_eq!(known(resolver.resolve("a.com", true, &vec![])), Some(ip("1.2.3.4")));
    match resolver.exchange(&query_wire(1, "a.com", QType::A), &vec![], 0) {
        ExchangeStep::Reply(answer) => {
            assert_eq!(extract_ips_from_dns_response(&answer), vec![ip("1.2.3.4")])
        }
        _ => panic!("the host is known"),
    }
    assert!(matches!(resolver.exchange(&[1, 2, 3], &vec![], 0), ExchangeStep::Invalid));
    assert!(matches!(resolver.exchange_all(&[1, 2, 3], &vec![]), AllStep::Invalid));
}

#[test]
fn a_lookup_asks_and_chooses() {
    let mut resolver = made(config());
    resolver.collector = Some(DnsCollector::new(&vec![]));
    let raw = match resolver.resolve_v4("a.com", false, &vec![]) {
        LookupStep::Ask(raw) => raw,
        other => panic!("{:?}", other),
    };
    let resp = build_dns_ip_response(&raw, &vec![ip("1.2.3.4"), ip("1.2.3.5")], 10).unwrap();
    let found = resolver.lookup_ip("a.com", Some(false), &resp).unwrap().unwrap();
    assert!(found == ip("1.2.3.4") || found == ip("1.2.3.5"));
    assert_eq!(resolver.collector.as_ref().unwrap().seen_count(), 1);
    assert_eq!(resolver.lookup_ip("a.com", Some(true), &resp).unwrap(), None);
    let none = build_dns_nxdomain(&raw);
    let e = resolver.lookup_ip("a.com", None, &none).unwrap_err();
    assert_eq!(e.message(), "no record for hostname: a.com");
    assert_eq!(resolver.settle_lookup("b.com", None), None);
    assert!(matches!(resolver.resolve("..", false, &vec![]), LookupStep::Invalid));
}

#[test]
fn the_fallback_counts_where_the_main_answer_is_not_trusted() {
    let mut cfg = config();
    cfg.fallback = vec![server("8.8.8.8")];
    let mut resolver = made(cfg);
    resolver.fallback_filter =
        Some(FallbackFilter::new(&texts(&["+.evil.com"]), &texts(&["240.0.0.0/4"]), false, "CN"));
    let none = vec![];
    let raw = query_wire(1, "a.com", QType::A);
    let query = QueryContext::parse(&raw).unwrap();
    match resolver.exchange_no_cache(&query, &vec![], &none) {
        UpstreamPlan::WithFallback(main, fallback) => {
            assert_eq!(main, resolver.main_upstreams);
            assert_eq!(Some(fallback), resolver.fallback_upstreams);
        }
        _ => panic!("both are asked"),
    }
    let good = build_dns_ip_response(&raw, &vec![ip("1.2.3.4")], 10);
    let bad = build_dns_ip_response(&raw, &vec![ip("240.0.0.1")], 10);
    let countries = vec![None];
    assert_eq!(resolver.fallback_exchange(&query, &good, true, &countries, &none), Pick::Main);
    assert_eq!(resolver.fallback_exchange(&query, &bad, true, &countries, &none), Pick::Fallback);
    assert_eq!(resolver.fallback_exchange(&query, &bad, false, &countries, &none), Pick::Main);
    assert_eq!(resolver.fallback_exchange(&query, &None, true, &countries, &none), Pick::Fallback);
    assert_eq!(resolver.fallback_exchange(&query, &None, false, &countries, &none), Pick::Neither);
}

#[test]
fn the_fallback_is_asked_alone_for_its_domains() {
    let mut cfg = config();
    cfg.fallback = vec![server("8.8.8.8")];
    let mut resolver = made(cfg);
    resolver.fallback_filter =
        Some(FallbackFilter::new(&texts(&["+.evil.com"]), &texts(&["240.0.0.0/4"]), false, "CN"));
    let none = vec![];
    let query = |domain: &str| QueryContext::parse(&query_wire(1, domain, QType::A)).unwrap();
    assert!(resolver.should_only_query_fallback("x.evil.com", &none));
    match resolver.ip_exchange(&query("x.evil.com"), &vec![], &none) {
        UpstreamPlan::Servers(keys) => assert_eq!(Some(keys), resolver.fallback_upstreams),
        _ => panic!("only the fallback is asked"),
    }
    assert!(matches!(
        resolver.ip_exchange(&query("a.com"), &vec![], &none),
        UpstreamPlan::WithFallback(_, _)
    ));
    assert!(resolver.should_ip_fallback(&ip("240.0.0.1"), &None, &none));
    let raw = query_wire(1, "a.com", QType::A);
    let good = build_dns_ip_response(&raw, &vec![ip("1.2.3.4"), ip("240.0.0.1")], 10);
    let bad = build_dns_ip_response(&raw, &vec![ip("240.0.0.1")], 10);
    assert!(resolver.main_stands(&good, &None, &none));
    assert!(!resolver.main_stands(&bad, &None, &none));
    assert!(!resolver.main_stands(&Some(build_dns_nxdomain(&raw)), &None, &none));
    assert!(!resolver.main_stands(&None, &None, &none));
    resolver.fallback_upstreams = None;
    match resolver.ip_exchange(&query("x.evil.com"), &vec![], &none) {
        UpstreamPlan::Servers(keys) => assert_eq!(keys, resolver.main_upstreams),
        _ => panic!("there is no fallback"),
    }
}

#[test]
fn a_policy_names_the_servers() {
    let mut cfg = config();
    cfg.nameserver_policy = vec![NameServerPolicy {
        domain: "+.corp.com".to_string(),
        nameservers: vec![server("10.0.0.53")],
    }];
    let mut resolver = made(cfg);
    let query = QueryContext::parse(&query_wire(1, "x.corp.com", QType::A)).unwrap();
    match resolver.exchange_no_cache(&query, &vec![], &vec![]) {
        UpstreamPlan::Servers(keys) => {
            assert_eq!(keys.len(), 1);
            assert_ne!(keys, resolver.main_upstreams);
        }
        _ => panic!("servers are known"),
    }
    let mut bare = new_default();
    assert!(matches!(
        bare.exchange_no_cache(&query, &vec![], &vec![]),
        UpstreamPlan::NoServers
    ));
    resolver.after_router_inited(&vec![]);
    assert_eq!(resolver.kind(), ResolverKind::Clash);
}

#[test]
fn an_address_that_was_given_is_known_by_its_name() {
    let mut resolver = new_default();
    assert_eq!(resolver.cached_for(ip("1.2.3.4"), 0), None);
    let mut cache = ReverseLookupCache::new(10);
    cache.insert(ip("1.2.3.4"), "a.com", 10, 0);
    resolver.reverse_lookup_cache = Some(cache);
    assert_eq!(resolver.cached_for(ip("1.2.3.4"), 0), Some("a.com".to_string()));
    assert_eq!(resolver.cached_for(ip("1.2.3.4"), 10_000), None);
    assert!(!resolver.is_fake_ip(ip("1.2.3.4")));
}

#[test]
fn the_bootstrap_servers_are_asked_for_one_version_after_the_other() {
    let resolver = made(config());
    let bootstrap = resolver.bootstrap.as_ref().unwrap();
    assert_eq!(bootstrap.upstreams.len(), 1);
    assert!(matches!(bootstrap.resolve("1.2.3.4"), ResolveStep::Known(Some(_))));
    assert!(matches!(bootstrap.resolve("a.com"), ResolveStep::Ask(_)));
    match bootstrap.resolve_next("a.com", Some(ip("1.2.3.4"))) {
        ResolveStep::Known(addr) => assert_eq!(addr, Some(ip("1.2.3.4"))),
        other => panic!("{:?}", other),
    }
    match bootstrap.resolve_next("a.com", None) {
        ResolveStep::Ask(raw) => {
            assert_eq!(QueryContext::parse(&raw).unwrap().qtype, QType::AAAA)
        }
        other => panic!("{:?}", other),
    }
}

#[test]
fn literals_need_no_server() {
    assert_eq!(parse_ip_literal("::1"), Some(ip("::1")));
    assert_eq!(parse_ip_literal("a.com"), None);
    assert!(matches!(resolve_version("1.2.3.4", false), ResolveStep::Known(Some(_))));
    assert!(matches!(resolve_version("1.2.3.4", true), ResolveStep::Known(None) | ResolveStep::Ask(_)));
    let raw = address_query("a.com", true).unwrap();
    assert_eq!(QueryContext::parse(&raw).unwrap().qtype, QType::AAAA);
    let resp = build_dns_ip_response(&raw, &vec![ip("::2")], 1).unwrap();
    assert_eq!(first_address(&resp, true), Some(ip("::2")));
    assert_eq!(first_address(&resp, false), None);
}

#[test]
fn a_resolver_is_chosen() {
    assert_eq!(choose_resolver(Some(true), true, true), ResolverChoice::Router);
    assert_eq!(choose_resolver(None, true, true), ResolverChoice::Enhanced);
    assert_eq!(choose_resolver(None, false, true), ResolverChoice::System);
    assert_eq!(choose_resolver(None, true, false), ResolverChoice::NoStore);
}

#[test]
fn test_system_resolver_default_config() {
    let resolver = SystemResolver::new(false).unwrap();
    match resolver.resolve("127.0.0.1") {
        SystemStep::Known(addr) => assert_eq!(addr, ip("127.0.0.1")),
        other => panic!("{:?}", other),
    }
}

#[test]
fn the_system_answers_within_the_switch() {
    let mut resolver = SystemResolver::new(false).unwrap();
    assert!(matches!(resolver.resolve("www.google.com"), SystemStep::Lookup));
    let found = || vec![ip("::1"), ip("1.2.3.4")];
    assert_eq!(resolver.filter(found()), vec![ip("1.2.3.4")]);
    assert_eq!(resolver.pick(found()), Some(ip("1.2.3.4")));
    assert_eq!(resolver.resolve_v4(&found()), Some(ip("1.2.3.4")));
    assert!(resolver.check_v6().is_err());
    resolver.set_ipv6(true);
    assert!(resolver.check_v6().is_ok());
    assert_eq!(resolver.resolve_v6(&found()), Some(ip("::1")));
    assert_eq!(resolver.filter(found()).len(), 2);
    assert!(resolver.exchange().is_err());
    assert_eq!(resolver.kind(), ResolverKind::System);
}

#[test]
fn verdicts_follow_the_rule_sets() {
    let mut cfg = config();
    cfg.enhance_mode = DNSMode::FakeIp;
    cfg.fake_ip_filter = texts(&["rule-set:direct"]);
    let mut provider = RuleProviderImpl::new(
        "direct".to_string(),
        RuleSetBehavior::Domain,
        RuleSetFormat::Yaml,
        None,
    );
    let content = provider.parse_yaml(&texts(&["+.a.com"])).unwrap();
    provider.update(content, false);
    let mut registry = vec![provider];
    let mut resolver = made(cfg);
    assert!(resolver.seen_changes.is_empty());
    resolver.after_router_inited(&registry);
    assert_eq!(resolver.seen_changes, vec![registry[0].changes()]);
    let mut is_fake = |domain: &str, registry: &Vec<RuleProviderImpl>| {
        resolver.follow(registry);
        let query = query_wire(1, domain, QType::A);
        matches!(resolver.exchange(&query, registry, 0), ExchangeStep::Reply(_))
    };
    assert!(!is_fake("x.a.com", &registry));
    assert!(is_fake("x.b.com", &registry));
    let content = registry[0].parse_yaml(&texts(&["+.b.com"])).unwrap();
    registry[0].update(content, false);
    assert!(is_fake("x.a.com", &registry));
    assert!(!is_fake("x.b.com", &registry));
}
