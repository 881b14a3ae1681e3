use clash_app::dns::config::{DNSListen, EdnsClientSubnet};
use clash_app::dns::fakeip::mem_store::InMemStore;
use clash_app::dns::fakeip::{FakeDns, FakeIpFilterMode, Opts};
use clash_app::dns::nameserver::{DNSNetMode, NameServer};
use clash_app::dns::query::{build_dns_query_wire, DnsName, QType, QueryContext};
use clash_app::dns::resolver::cache::{CacheLookup, DnsCache};
use clash_app::dns::resolver::reverse_cache::ReverseLookupCache;
use clash_app::dns::resolver::router::config::{
    Dns2Config, HostEntry, HostListDef, RequestRuleDef, ResponseRuleDef, RouterConfig,
    UpstreamConfig, UpstreamDef, UpstreamType,
};
use clash_app::dns::resolver::router::hosts::{parse_hosts_file, HostsSnapshot};
use clash_app::dns::resolver::router::matcher::{
    normalize, DomainMatcher, IpNetMatcher, QTypeMatcher, RuleSetMatcher,
};
use clash_app::dns::resolver::router::routing::{
    DnsRouter, RejectCode, RequestAction, RequestRule, ResponseAction, ResponseRule,
};
use clash_app::dns::resolver::router::transport::{
    check_all_unspecified, check_challenge, is_unspecified, learn, CachedTransport,
    DnsCachePolicy, DnsResolvedNotifier, FakeIpTransport, FetchPlan, LocalEndpoint, TransportStep,
};
use clash_app::dns::resolver::router::{
    make_name_trie, RequestPlan, ResponsePlan, RouterResolver, Transport,
};
use clash_app::dns::resolver::{ResolveStep, ResolverKind};
use clash_app::dns::response::{
    build_dns_ip_response, extract_ips_from_dns_response, extract_min_ttl_from_dns_response,
};
use clash_app::dns::singleflight::FlightLeader;
use clash_app::ip::{parse_ip, IpAddr, IpNet, Ipv4Net, Ipv6Net};
use clash_app::net::{Machine, Platform};
use clash_app::providers::rule_provider::{RuleProviderImpl, RuleSetBehavior, RuleSetFormat};
use clash_app::uri::Host;

fn texts(list: &[&str]) -> Vec<String> {
    list.iter().map(|s| s.to_string()).collect()
}

fn ip(s: &str) -> IpAddr {
    parse_ip(s).unwrap()
}

fn net(addr: &str, prefix_len: u8) -> IpNet {
    match ip(addr) {
        IpAddr::V4(addr) => IpNet::V4(Ipv4Net { addr, prefix_len }),
        IpAddr::V6(addr) => IpNet::V6(Ipv6Net { addr, prefix_len }),
    }
}

fn query_wire(domain: &str, qtype: QType) -> Vec<u8> {
    build_dns_query_wire(&DnsName::from_domain(domain).unwrap(), qtype)
}

fn request(domain: &[&str], query_type: Vec<QType>, action: RequestAction) -> RequestRule {
    RequestRule {
        domain: texts(domain),
        rule_set: vec![],
        query_type,
        source_ip_cidr: vec![],
        action,
        invert: false,
    }
}

fn response(
    from_upstream: Option<&str>,
    ip_cidr: Vec<IpNet>,
    action: ResponseAction,
    invert: bool,
) -> ResponseRule {
    ResponseRule {
        from_upstream: from_upstream.map(|s| s.to_string()),
        domain: vec![],
        rule_set: vec![],
        query_type: vec![],
        ip_cidr,
        action,
        invert,
    }
}

fn router_of(cfg: &RouterConfig) -> DnsRouter {
    DnsRouter::new(
        &cfg.request_rules,
        &cfg.request_fallback,
        &cfg.response_rules,
        &cfg.response_fallback,
    )
}

fn upstream(tag: &str, upstream_type: UpstreamType, port: u16) -> UpstreamConfig {
    UpstreamConfig {
        tag: tag.to_string(),
        upstream_type,
        servers: vec![NameServer {
            net: DNSNetMode::Udp,
            host: Host::Ipv4(0x7f00_0001),
            port,
            path: None,
            interface: None,
            proxy: None,
        }],
        proxy: None,
        client_subnet: None,
        inet4_range: Ipv4Net { addr: 0xc612_0000, prefix_len: 16 },
        inet6_range: Ipv6Net { addr: 0xfc << 120, prefix_len: 18 },
        ttl: None,
    }
}

fn resolver_of(cfg: &RouterConfig, stores: Vec<InMemStore>) -> RouterResolver<InMemStore> {
    RouterResolver::new(cfg, stores, &vec![], &vec![], None)
}

fn step(
    resolver: &mut RouterResolver<InMemStore>,
    place: usize,
    query: &QueryContext,
    now: u64,
) -> TransportStep {
    match &mut resolver.transports[place].transport {
        Transport::Cached(t) => t.exchange(&mut resolver.cache, query, now),
        _ => panic!("a cached upstream is expected"),
    }
}

fn fetched(
    resolver: &mut RouterResolver<InMemStore>,
    place: usize,
    query: &QueryContext,
    resp: Vec<u8>,
    leader: Option<FlightLeader>,
    now: u64,
) -> (Vec<u8>, u32) {
    match &mut resolver.transports[place].transport {
        Transport::Cached(t) => {
            let got = t.fetch_and_cache(&mut resolver.cache, resp, query, leader, now);
            (got.wire, got.effective_ttl)
        }
        _ => panic!("a cached upstream is expected"),
    }
}

fn asked(plan: RequestPlan) -> (usize, QueryContext) {
    match plan {
        RequestPlan::Ask(place, query) => (place, query),
        _ => panic!("an upstream is to be asked"),
    }
}

fn leader_of(step: TransportStep) -> Option<FlightLeader> {
    match step {
        TransportStep::Fetch(leader) => leader,
        _ => panic!("a server is to be asked"),
    }
}

#[test]
fn test_domain_matcher() {
    let patterns = texts(&["example.com", "+.google.com", "*.apple.com"]);
    let matcher = DomainMatcher::new(&patterns);

    assert!(matcher.matches("example.com"));
    assert!(matcher.matches("EXAMPLE.COM."));
    assert!(!matcher.matches("sub.example.com"));

    assert!(matcher.matches("google.com"));
    assert!(matcher.matches("www.google.com"));
    assert!(matcher.matches("mail.google.com."));
    assert!(!matcher.matches("notgoogle.com"));

    assert!(matcher.matches("test.apple.com"));
    assert!(!matcher.matches("apple.com"));
    assert!(!matcher.matches("otherapple.com"));
}

#[test]
fn test_hosts_snapshot() {
    let inline_hosts = vec![
        HostEntry {
            domain: "localhost".to_string(),
            ips: vec![ip("127.0.0.1"), ip("::1")],
        },
        HostEntry { domain: "myrouter.local".to_string(), ips: vec![ip("192.168.1.1")] },
    ];
    let contents =
        texts(&["# This is a comment\n1.2.3.4 custom.host\n2001:db8::1 ipv6.host\n"]);
    let snapshot = HostsSnapshot::new(&inline_hosts, &contents);

    let v4_only = snapshot.lookup("localhost", false).expect("lookup localhost v4");
    assert_eq!(v4_only.len(), 1);
    assert_eq!(v4_only[0], ip("127.0.0.1"));

    let v4_and_v6 = snapshot.lookup("localhost", true).expect("lookup localhost v6");
    assert_eq!(v4_and_v6.len(), 2);

    let file_v4 = snapshot.lookup("custom.host", false).expect("lookup custom.host");
    assert_eq!(file_v4[0], ip("1.2.3.4"));

    let file_v6 = snapshot.lookup("ipv6.host", true).expect("lookup ipv6.host");
    assert_eq!(file_v6[0], ip("2001:db8::1"));

    let q_a = query_wire("localhost", QType::A);
    let resp_a = snapshot
        .make_response(&q_a, "localhost", QType::A, true)
        .expect("make_response A");
    assert_eq!(extract_ips_from_dns_response(&resp_a), vec![ip("127.0.0.1")]);

    let q_aaaa = query_wire("localhost", QType::AAAA);
    let resp_aaaa = snapshot
        .make_response(&q_aaaa, "localhost", QType::AAAA, true)
        .expect("make_response AAAA");
    assert_eq!(extract_ips_from_dns_response(&resp_aaaa), vec![ip("::1")]);

    assert!(snapshot.make_response(&q_aaaa, "localhost", QType::AAAA, false).is_none());
    assert!(snapshot.make_response(&q_a, "localhost", QType::TXT, true).is_none());
}

#[test]
fn test_request_routing() {
    let cfg = RouterConfig {
        request_rules: vec![
            request(&[], vec![QType::HTTPS], RequestAction::Reject(RejectCode::Nodata)),
            request(&["+.baidu.com"], vec![], RequestAction::Route("local-dns".to_string())),
            request(&["+.google.com"], vec![], RequestAction::Route("foreign-dns".to_string())),
        ],
        request_fallback: RequestAction::Route("default-dns".to_string()),
        ..Default::default()
    };
    let router = router_of(&cfg);
    let none = vec![];

    let act1 = router.route_request("www.baidu.com", QType::HTTPS, None, &none);
    assert_eq!(*act1, RequestAction::Reject(RejectCode::Nodata));

    let act2 = router.route_request("tieba.baidu.com", QType::A, None, &none);
    assert_eq!(*act2, RequestAction::Route("local-dns".to_string()));

    let act3 = router.route_request("youtube.google.com", QType::A, None, &none);
    assert_eq!(*act3, RequestAction::Route("foreign-dns".to_string()));

    let act4 = router.route_request("github.com", QType::A, None, &none);
    assert_eq!(*act4, RequestAction::Route("default-dns".to_string()));
}

#[test]
fn test_response_routing_with_from_upstream() {
    let cfg = RouterConfig {
        response_rules: vec![response(
            Some("local-dns"),
            vec![net("127.0.0.0", 8)],
            ResponseAction::Requery("foreign-dns".to_string()),
            false,
        )],
        response_fallback: ResponseAction::Accept,
        ..Default::default()
    };
    let router = router_of(&cfg);
    let none = vec![];
    let polluted_ip = ip("127.0.0.1");
    let normal_ip = ip("110.242.68.66");

    let res1 =
        router.route_response("local-dns", "polluted.com", QType::A, &vec![polluted_ip], &none);
    assert_eq!(*res1, ResponseAction::Requery("foreign-dns".to_string()));

    let res2 = router.route_response("local-dns", "normal.com", QType::A, &vec![normal_ip], &none);
    assert_eq!(*res2, ResponseAction::Accept);

    let res3 =
        router.route_response("foreign-dns", "some.host", QType::A, &vec![polluted_ip], &none);
    assert_eq!(*res3, ResponseAction::Accept);
}

#[test]
fn test_response_routing_empty_ips_and_invert() {
    let cfg = RouterConfig {
        response_rules: vec![response(
            None,
            vec![net("10.0.0.0", 8)],
            ResponseAction::Requery("foreign-dns".to_string()),
            true,
        )],
        response_fallback: ResponseAction::Accept,
        ..Default::default()
    };
    let router = router_of(&cfg);
    let none = vec![];

    let res1 =
        router.route_response("local-dns", "example.com", QType::A, &vec![ip("1.1.1.1")], &none);
    assert_eq!(*res1, ResponseAction::Requery("foreign-dns".to_string()));

    let res2 = router.route_response("local-dns", "example.com", QType::TXT, &vec![], &none);
    assert_eq!(*res2, ResponseAction::Accept);
}

#[test]
fn test_fakeip_transport_ttl() {
    let mut fake = FakeDns::new(Opts {
        ipnet: Ipv4Net { addr: 0xc612_0001, prefix_len: 16 },
        ipnet6: Ipv6Net { addr: 0xfc << 120, prefix_len: 18 },
        domain_filter: None,
        filter_mode: FakeIpFilterMode::Blacklist,
        store: InMemStore::new(1000),
    })
    .ok()
    .unwrap();

    let custom_ttl = 60;
    let transport = FakeIpTransport::new("fakeip".to_string(), custom_ttl);

    let raw_query = query_wire("google.com", QType::A);
    let query_ctx = QueryContext::parse(&raw_query).unwrap();

    let resp = transport.exchange(&raw_query, &query_ctx, &mut fake).unwrap();
    assert_eq!(extract_ips_from_dns_response(&resp).len(), 1);
    assert_eq!(extract_min_ttl_from_dns_response(&resp), Some(custom_ttl));
    let again = transport.resolve_ip("google.com", false, &mut fake);
    assert_eq!(extract_ips_from_dns_response(&resp), vec![again]);
}

#[test]
fn test_request_routing_or_and_empty_conditions() {
    let cfg = RouterConfig {
        request_rules: vec![
            request(&[], vec![], RequestAction::Route("empty-dns".to_string())),
            request(
                &["+.baidu.com"],
                vec![QType::A],
                RequestAction::Route("baidu-a-dns".to_string()),
            ),
        ],
        request_fallback: RequestAction::Route("fallback-dns".to_string()),
        ..Default::default()
    };
    let router = router_of(&cfg);
    let none = vec![];

    let act_a = router.route_request("www.baidu.com", QType::A, None, &none);
    assert_eq!(*act_a, RequestAction::Route("baidu-a-dns".to_string()));

    let act_https = router.route_request("www.baidu.com", QType::HTTPS, None, &none);
    assert_eq!(*act_https, RequestAction::Route("fallback-dns".to_string()));

    let act_other = router.route_request("google.com", QType::A, None, &none);
    assert_eq!(*act_other, RequestAction::Route("fallback-dns".to_string()));
}

#[test]
fn test_dns2_cache_policy_effective_ttl() {
    let policy_default = DnsCachePolicy::default();
    assert_eq!(policy_default.optimistic_cache_ttl, 0);
    assert_eq!(policy_default.stale_cache_retention, 3_600_000);

    let raw = query_wire("example.com", QType::A);
    let resp = build_dns_ip_response(&raw, &vec![ip("93.184.216.34")], 60).unwrap();

    assert_eq!(policy_default.calculate_effective_ttl(None, &resp), 60);
    assert_eq!(policy_default.calculate_effective_ttl(Some(120), &resp), 120);

    let policy_optimistic = DnsCachePolicy::new(300, 7200);
    assert_eq!(policy_optimistic.calculate_effective_ttl(None, &resp), 300);
    assert_eq!(policy_optimistic.calculate_effective_ttl(Some(10), &resp), 10);
}

fn dns2() -> Dns2Config {
    Dns2Config {
        enable: true,
        listen: None,
        ipv6: true,
        use_hosts: true,
        hosts_files: vec![],
        hosts: vec![],
        default_nameserver: vec![],
        proxy_server_nameserver: vec![],
        upstreams: vec![],
        request: vec![],
        response: vec![],
        optimistic_cache_ttl: 300,
        stale_cache_retention: 7200,
        cache_capacity: Some(8192),
    }
}

fn machine() -> Machine {
    Machine { interfaces: vec![], platform: Platform::Linux }
}

#[test]
fn test_dns2_config_cache_fields_from_def() {
    let cfg = RouterConfig::from_def(dns2(), true, &machine()).expect("RouterConfig::from_def");
    assert_eq!(cfg.optimistic_cache_ttl, 300);
    assert_eq!(cfg.stale_cache_retention, 7200);
    assert_eq!(cfg.cache_capacity, 8192);
}

#[test]
fn a_router_config_is_read() {
    let mut def = dns2();
    def.cache_capacity = None;
    def.hosts = vec![HostListDef {
        domain: "a.com".to_string(),
        ips: texts(&["1.2.3.4", "nowhere"]),
    }];
    def.upstreams = vec![UpstreamDef {
        tag: "fake".to_string(),
        kind: "FakeIP".to_string(),
        servers: None,
        proxy: None,
        inet4_range: "198.18.0.1/16".to_string(),
        inet6_range: "fc00::/18".to_string(),
        ttl: Some(5),
    }];
    let rule = RequestRuleDef {
        fallback: None,
        domain: texts(&["+.a.com"]),
        rule_set: vec![],
        query_type: texts(&["A", "nothing"]),
        source_ip_cidr: texts(&["10.0.0.0/8"]),
        action: Some("Reject".to_string()),
        reject_code: Some("nxdomain".to_string()),
        upstream: None,
        invert: true,
    };
    let fallback = RequestRuleDef {
        fallback: Some("fake".to_string()),
        domain: vec![],
        rule_set: vec![],
        query_type: vec![],
        source_ip_cidr: vec![],
        action: None,
        reject_code: None,
        upstream: None,
        invert: false,
    };
    def.request = vec![rule, fallback];
    def.response = vec![ResponseRuleDef {
        fallback: None,
        from_upstream: Some("fake".to_string()),
        domain: vec![],
        rule_set: vec![],
        query_type: vec![],
        ip_cidr: texts(&["127.0.0.0/8"]),
        action: Some("accept".to_string()),
        upstream: None,
        invert: false,
    }];
    let cfg = RouterConfig::from_def(def, false, &machine()).unwrap();
    assert!(!cfg.ipv6);
    assert_eq!(cfg.default_nameserver.len(), 2);
    assert_eq!(cfg.hosts[0].ips, vec![ip("1.2.3.4")]);
    assert_eq!(cfg.upstreams[0].upstream_type, UpstreamType::FakeIp);
    assert_eq!(cfg.upstreams[0].ttl, Some(5));
    assert_eq!(cfg.request_rules.len(), 1);
    assert_eq!(cfg.request_rules[0].action, RequestAction::Reject(RejectCode::Nxdomain));
    assert_eq!(cfg.request_rules[0].query_type, vec![QType::A]);
    assert!(cfg.request_rules[0].invert);
    assert_eq!(cfg.request_fallback, RequestAction::Route("fake".to_string()));
    assert_eq!(cfg.response_rules[0].action, ResponseAction::Accept);
    assert_eq!(cfg.response_rules[0].ip_cidr, vec![net("127.0.0.0", 8)]);
    assert_eq!(cfg.response_fallback, ResponseAction::Accept);
    assert!(matches!(cfg.listen, None::<DNSListen>));
    assert!(matches!(cfg.upstreams[0].client_subnet, None::<EdnsClientSubnet>));
}

#[test]
fn a_bad_default_server_fails_the_config() {
    let mut def = dns2();
    def.default_nameserver = texts(&["ftp://1.1.1.1"]);
    assert!(RouterConfig::from_def(def, true, &machine()).is_err());
}

#[test]
fn test_router_resolver_fresh_vs_cache_hit_notification() {
    let mut cfg = RouterConfig::default();
    cfg.use_hosts = false;
    cfg.upstreams = vec![upstream("mock-ns", UpstreamType::Remote, 5300)];
    cfg.request_fallback = RequestAction::Route("mock-ns".to_string());
    let mut resolver = resolver_of(&cfg, vec![]);
    let none = vec![];
    let addr = ip("93.184.216.34");

    let raw = query_wire("example.com", QType::A);
    let (place, query) = asked(resolver.exchange(&raw, &none));
    let leader = leader_of(step(&mut resolver, place, &query, 0));
    let resp = build_dns_ip_response(&raw, &vec![addr], 60).unwrap();
    let (wire, ttl) = fetched(&mut resolver, place, &query, resp, leader, 0);
    let (plan, told) =
        resolver.take_answer(place, &raw, &query, &wire, Some(ttl), &none, 0);
    assert!(matches!(plan, ResponsePlan::Accept));
    assert_eq!(extract_ips_from_dns_response(&wire), vec![addr]);
    assert_eq!(told, vec![addr]);
    assert_eq!(resolver.cached_for(addr, 0), Some("example.com".to_string()));

    let (place, query) = asked(resolver.exchange(&raw, &none));
    let wire = match step(&mut resolver, place, &query, 1_000) {
        TransportStep::Done(wire, None) => wire,
        _ => panic!("the answer is kept"),
    };
    assert_eq!(extract_ips_from_dns_response(&wire), vec![addr]);
    let (_, told) = resolver.take_answer(place, &raw, &query, &wire, None, &none, 1_000);
    assert!(told.is_empty());
}

#[test]
fn test_router_resolver_polluted_requery_prevents_dirty_cache_and_hook() {
    let mut cfg = RouterConfig::default();
    cfg.use_hosts = false;
    cfg.upstreams = vec![
        upstream("local-up", UpstreamType::Remote, 5300),
        upstream("remote-up", UpstreamType::Remote, 5301),
    ];
    cfg.request_fallback = RequestAction::Route("local-up".to_string());
    cfg.response_rules = vec![response(
        Some("local-up"),
        vec![net("198.18.0.0", 16)],
        ResponseAction::Requery("remote-up".to_string()),
        false,
    )];
    let mut resolver = resolver_of(&cfg, vec![]);
    let none = vec![];
    let polluted = ip("198.18.0.1");
    let real = ip("93.184.216.34");

    let raw = query_wire("polluted-domain.com", QType::A);
    let (place, query) = asked(resolver.exchange(&raw, &none));
    let leader = leader_of(step(&mut resolver, place, &query, 0));
    let resp = build_dns_ip_response(&raw, &vec![polluted], 60).unwrap();
    let (wire, ttl) = fetched(&mut resolver, place, &query, resp, leader, 0);
    let (plan, mut hooked) =
        resolver.take_answer(place, &raw, &query, &wire, Some(ttl), &none, 0);
    let other = match plan {
        ResponsePlan::Requery(other) => other,
        _ => panic!("another upstream is to be asked"),
    };
    assert_ne!(other, place);

    let leader = leader_of(step(&mut resolver, other, &query, 0));
    let resp = build_dns_ip_response(&raw, &vec![real], 60).unwrap();
    let (wire, ttl) = fetched(&mut resolver, other, &query, resp, leader, 0);
    hooked.extend(resolver.take_requeried(other, &query, &wire, Some(ttl), 0));
    assert!(resolver.take_requeried(other, &query, &wire, None, 0).is_empty());

    assert_eq!(extract_ips_from_dns_response(&wire), vec![real]);
    assert_eq!(resolver.cached_for(polluted, 0), None);
    assert_eq!(resolver.cached_for(real, 0), Some("polluted-domain.com".to_string()));
    assert_eq!(hooked, vec![real]);
}

#[test]
fn test_router_resolver_stale_refresh_notification_with_rule_filter() {
    let mut cfg = RouterConfig::default();
    cfg.use_hosts = false;
    cfg.stale_cache_retention = 60;
    cfg.upstreams = vec![upstream("main-up", UpstreamType::Remote, 5300)];
    cfg.request_fallback = RequestAction::Route("main-up".to_string());
    let mut resolver = resolver_of(&cfg, vec![]);
    let none = vec![];

    let raw = query_wire("stale-domain.com", QType::A);
    let (place, query) = asked(resolver.exchange(&raw, &none));
    let leader = leader_of(step(&mut resolver, place, &query, 0));
    let resp = build_dns_ip_response(&raw, &vec![ip("1.1.1.1")], 1).unwrap();
    let (wire, ttl) = fetched(&mut resolver, place, &query, resp, leader, 0);
    let (_, mut hooked) = resolver.take_answer(place, &raw, &query, &wire, Some(ttl), &none, 0);
    assert_eq!(hooked, vec![ip("1.1.1.1")]);
    assert_eq!(resolver.cached_for(ip("1.1.1.1"), 0), Some("stale-domain.com".to_string()));

    let (wire, leader) = match step(&mut resolver, place, &query, 1_100) {
        TransportStep::Done(wire, leader) => (wire, leader),
        _ => panic!("an expired answer is there"),
    };
    assert_eq!(extract_ips_from_dns_response(&wire), vec![ip("1.1.1.1")]);
    assert!(leader.is_some());

    let resp = build_dns_ip_response(&raw, &vec![ip("1.1.1.2")], 1).unwrap();
    let (wire, ttl) = fetched(&mut resolver, place, &query, resp, leader, 1_200);
    let (_, told) = resolver.take_answer(place, &raw, &query, &wire, Some(ttl), &none, 1_200);
    hooked.extend(told);
    assert_eq!(hooked, vec![ip("1.1.1.1"), ip("1.1.1.2")]);
    assert_eq!(resolver.cached_for(ip("1.1.1.2"), 1_200), Some("stale-domain.com".to_string()));
}

#[test]
fn a_rejected_request_is_answered_at_once() {
    let mut cfg = RouterConfig::default();
    cfg.request_rules = vec![
        request(&["a.com"], vec![], RequestAction::Reject(RejectCode::Nxdomain)),
        request(&["b.com"], vec![], RequestAction::Reject(RejectCode::Refused)),
        request(&["c.com"], vec![], RequestAction::Route("nowhere".to_string())),
    ];
    cfg.hosts = vec![HostEntry { domain: "h.com".to_string(), ips: vec![ip("1.2.3.4")] }];
    let resolver = resolver_of(&cfg, vec![]);
    let none = vec![];
    let code = |domain: &str| match resolver.exchange(&query_wire(domain, QType::A), &none) {
        RequestPlan::Reply(answer) => answer[3] & 15,
        _ => panic!("an answer is known"),
    };
    assert_eq!((code("a.com"), code("b.com"), code("other.com")), (3, 5, 0));
    assert!(matches!(
        resolver.exchange(&query_wire("c.com", QType::A), &none),
        RequestPlan::Missing(tag) if tag == "nowhere"
    ));
    match resolver.exchange(&query_wire("h.com", QType::A), &none) {
        RequestPlan::Reply(answer) => {
            assert_eq!(extract_ips_from_dns_response(&answer), vec![ip("1.2.3.4")])
        }
        _ => panic!("the host is known"),
    }
}

#[test]
fn a_rejected_answer_is_dropped() {
    let mut cfg = RouterConfig::default();
    cfg.upstreams = vec![upstream("up", UpstreamType::Remote, 5300)];
    cfg.request_fallback = RequestAction::Route("up".to_string());
    cfg.response_rules =
        vec![response(None, vec![net("10.0.0.0", 8)], ResponseAction::Reject, false)];
    let mut resolver = resolver_of(&cfg, vec![]);
    let none = vec![];
    let raw = query_wire("a.com", QType::A);
    let (place, query) = asked(resolver.exchange(&raw, &none));
    let resp = build_dns_ip_response(&raw, &vec![ip("10.0.0.1")], 60).unwrap();
    let (plan, told) = resolver.take_answer(place, &raw, &query, &resp, Some(60), &none, 0);
    match plan {
        ResponsePlan::Reject(answer) => {
            assert!(extract_ips_from_dns_response(&answer).is_empty())
        }
        _ => panic!("the answer is refused"),
    }
    assert!(told.is_empty());
    assert_eq!(resolver.cached_for(ip("10.0.0.1"), 0), None);
}

#[test]
fn fake_upstreams_and_the_rest() {
    let mut cfg = RouterConfig::default();
    cfg.upstreams = vec![
        upstream("fake", UpstreamType::FakeIp, 0),
        upstream("here", UpstreamType::Local, 0),
    ];
    cfg.request_fallback = RequestAction::Route("fake".to_string());
    let mut resolver = resolver_of(&cfg, vec![InMemStore::new(100)]);
    assert!(resolver.fake_ip_enabled());
    assert_eq!(resolver.kind(), ResolverKind::Clash);
    let addr = match &mut resolver.transports[0].transport {
        Transport::FakeIp(t, pool) => {
            t.resolve_ip("a.com", false, &mut resolver.fake_dns[*pool])
        }
        _ => panic!("the first gives fake addresses"),
    };
    assert!(resolver.is_fake_ip(addr));
    assert_eq!(resolver.reverse_lookup(addr, 0), Some("a.com".to_string()));
    assert_eq!(resolver.reverse_lookup(ip("9.9.9.9"), 0), None);
    resolver.after_router_inited(&vec![]);
    resolver.set_ipv6(false);
    assert!(!resolver.ipv6);
    assert!(matches!(resolver.resolve_v4("1.2.3.4"), ResolveStep::Known(Some(_))));
    assert!(matches!(resolver.resolve_v4("a.com"), ResolveStep::Ask(_)));
    match &resolver.transports[1].transport {
        Transport::Cached(t) => {
            assert_eq!(t.tag(), "here");
            assert_eq!(t.upstream_type(), UpstreamType::Local);
            let raw = query_wire("a.com", QType::A);
            assert!(matches!(t.fetch(&raw, QType::A, 0), FetchPlan::Lookup));
        }
        _ => panic!("the second is cached"),
    }
}

#[test]
fn the_servers_of_proxies_have_servers_of_their_own() {
    let mut cfg = RouterConfig::default();
    cfg.proxy_server_nameserver = upstream("x", UpstreamType::Remote, 5300).servers;
    cfg.upstreams = vec![upstream("up", UpstreamType::Remote, 5300)];
    let resolver: RouterResolver<InMemStore> =
        RouterResolver::new(&cfg, vec![], &texts(&["proxy.com"]), &vec![], None);
    assert!(matches!(
        resolver.exchange(&query_wire("proxy.com", QType::A), &vec![]),
        RequestPlan::AskProxies(_)
    ));
    let chars: Vec<char> = "b.com".chars().collect();
    assert!(make_name_trie(&texts(&["b.com"])).search(&chars).is_some());
}

#[test]
fn servers_are_asked_in_turn() {
    let t = CachedTransport::new_remote(
        "r".to_string(),
        None,
        texts(&["k1", "k2"]),
        DnsCachePolicy::default(),
    );
    let raw = query_wire("a.com", QType::A);
    assert!(matches!(t.fetch(&raw, QType::A, 0), FetchPlan::Ask(k) if k == "k1"));
    assert!(matches!(t.fetch(&raw, QType::A, 1), FetchPlan::Ask(k) if k == "k2"));
    assert!(matches!(t.fetch(&raw, QType::A, 2), FetchPlan::GiveUp));
    let none =
        CachedTransport::new_remote("r".to_string(), None, vec![], DnsCachePolicy::default());
    assert!(matches!(none.fetch(&raw, QType::A, 0), FetchPlan::NoServers));
    let local = CachedTransport::new_local("l".to_string(), None, DnsCachePolicy::default());
    assert!(matches!(local.fetch(&raw, QType::A, 0), FetchPlan::Lookup));
    assert!(matches!(local.fetch(&raw, QType::TXT, 0), FetchPlan::Answer(_)));
    let answer = LocalEndpoint::new("l".to_string()).answer(
        &raw,
        QType::A,
        &Some(vec![ip("1.2.3.4"), ip("::1")]),
    );
    assert_eq!(extract_ips_from_dns_response(&answer), vec![ip("1.2.3.4")]);
}

#[test]
fn a_transport_keeps_what_it_fetched() {
    let mut cache = DnsCache::new(10);
    let mut t = CachedTransport::new_remote(
        "r".to_string(),
        Some(30),
        texts(&["k"]),
        DnsCachePolicy::default(),
    );
    let raw = query_wire("a.com", QType::A);
    let query = QueryContext::parse(&raw).unwrap();
    let leader = leader_of(t.exchange(&mut cache, &query, 0));
    assert!(matches!(t.exchange(&mut cache, &query, 0), TransportStep::Wait(_)));
    let resp = build_dns_ip_response(&raw, &vec![ip("1.2.3.4")], 5).unwrap();
    assert!(matches!(t.on_waited(Some(resp.clone()), &query), TransportStep::Done(_, None)));
    let got = t.fetch_and_cache(&mut cache, resp.clone(), &query, leader, 0);
    assert_eq!((got.effective_ttl, got.woken), (30, 1));
    assert_eq!(got.shared, Some(resp));
    assert_eq!(extract_min_ttl_from_dns_response(&got.wire), Some(30));
    assert!(matches!(cache.lookup_scoped("r", &query, 0), CacheLookup::Hit(_, 30)));
    assert!(matches!(
        t.exchange_with(CacheLookup::Miss, &query),
        TransportStep::Fetch(Some(_))
    ));
    t.fetch_failed(None);
}

#[test]
fn matchers_match() {
    assert!(QTypeMatcher::new(vec![QType::A]).matches(QType::A));
    assert!(!QTypeMatcher::new(vec![QType::A]).matches(QType::TXT));
    assert!(QTypeMatcher::new(vec![]).is_empty());
    let nets = IpNetMatcher::new(vec![net("10.0.0.0", 8), net("fd00::", 8)]);
    assert!(!nets.is_empty());
    assert!(nets.matches(&ip("10.1.1.1")) && nets.matches(&ip("fd00::1")));
    assert!(!nets.matches(&ip("11.1.1.1")));
    let mut sets = RuleSetMatcher::new(&texts(&["ads", "nets"]));
    assert!(!sets.is_empty());
    let mut ads = RuleProviderImpl::new(
        "ads".to_string(),
        RuleSetBehavior::Domain,
        RuleSetFormat::Text,
        Some(texts(&["ad.com"])),
    );
    ads.initialize().unwrap();
    let mut nets = RuleProviderImpl::new(
        "nets".to_string(),
        RuleSetBehavior::Ipcidr,
        RuleSetFormat::Text,
        Some(texts(&["10.0.0.0/8"])),
    );
    nets.initialize().unwrap();
    let registry = vec![ads, nets];
    assert!(!sets.matches_domain("ad.com", &registry));
    sets.bind_providers(&registry);
    assert!(sets.matches_domain("ad.com", &registry));
    assert!(sets.matches_ip(&ip("10.0.0.1"), &registry));
    assert!(!sets.matches_ip(&ip("11.0.0.1"), &registry));
}

#[test]
fn a_hosts_file_is_read_line_by_line() {
    let mut entries = vec![];
    parse_hosts_file("1.2.3.4 a.com b.com # both\nnot-an-address c.com\n", &mut entries);
    let names: Vec<&str> = entries.iter().map(|e| e.domain.as_str()).collect();
    assert_eq!(names, vec!["a.com", "b.com"]);
    assert_eq!(entries[1].ips, vec![ip("1.2.3.4")]);
}

#[test]
fn names_are_learnt_for_a_time() {
    let mut reverse = ReverseLookupCache::new(10);
    learn(&mut reverse, &vec![ip("1.2.3.4"), ip("0.0.0.0")], "a.com", 10, 0, false);
    assert_eq!(reverse.lookup(&ip("1.2.3.4"), 9_000), Some("a.com".to_string()));
    assert_eq!(reverse.lookup(&ip("1.2.3.4"), 10_000), None);
    assert!(is_unspecified(&ip("0.0.0.0")) && !is_unspecified(&ip("0.0.0.1")));
    assert!(check_all_unspecified(&vec![ip("0.0.0.0"), ip("::")]));
    assert!(!check_all_unspecified(&vec![ip("0.0.0.0"), ip("::1")]));
    let mut notifier = DnsResolvedNotifier { reverse_lookup_cache: reverse, collector: None };
    let raw = query_wire("b.com", QType::A);
    let resp = build_dns_ip_response(&raw, &vec![ip("5.6.7.8")], 10).unwrap();
    assert_eq!(notifier.on_fresh_response("b.com", &resp, 10, 0), vec![ip("5.6.7.8")]);
    assert_eq!(
        notifier.reverse_lookup_cache.lookup(&ip("5.6.7.8"), 0),
        Some("b.com".to_string())
    );
    let challenge = query_wire("_acme-challenge.a.com", QType::TXT);
    assert!(check_challenge(&QueryContext::parse(&challenge).unwrap()));
    assert!(!check_challenge(&QueryContext::parse(&raw).unwrap()));
}

#[test]
fn spelling_of_domains_does_not_matter() {
    let matcher = DomainMatcher::new(&vec![" Example.COM. ".to_string(), "  ".to_string()]);
    assert!(matcher.matches("example.com"));
    assert!(matcher.matches("EXAMPLE.com."));
    assert!(matcher.matches(" example.com"));
    assert!(!matcher.matches("example.org"));
    assert_eq!(normalize("A.b.").into_iter().collect::<String>(), "a.b");
}

#[test]
fn addresses_of_both_versions_are_looked_for() {
    let mut resolver = resolver_of(&RouterConfig::default(), vec![]);
    resolver.set_ipv6(true);
    match resolver.resolve("a.com", Some(ip("1.2.3.4"))) {
        ResolveStep::Known(addr) => assert_eq!(addr, Some(ip("1.2.3.4"))),
        _ => panic!("the address is known"),
    }
    match resolver.resolve("a.com", None) {
        ResolveStep::Ask(query) => {
            assert_eq!(QueryContext::parse(&query).unwrap().qtype, QType::AAAA)
        }
        _ => panic!("a query is sent"),
    }
    match resolver.resolve("::1", None) {
        ResolveStep::Known(addr) => assert_eq!(addr, Some(ip("::1"))),
        _ => panic!("the address is known"),
    }
    resolver.set_ipv6(false);
    assert!(matches!(resolver.resolve("::1", None), ResolveStep::Known(None)));
}

#[test]
fn what_is_no_answer_is_not_shared() {
    let mut cache = DnsCache::new(10);
    let mut t = CachedTransport::new_remote(
        "r".to_string(),
        None,
        texts(&["k"]),
        DnsCachePolicy::default(),
    );
    let query = QueryContext::parse(&query_wire("a.com", QType::A)).unwrap();
    let leader = leader_of(t.exchange(&mut cache, &query, 0));
    assert!(matches!(t.exchange(&mut cache, &query, 0), TransportStep::Wait(_)));
    let other = query_wire("b.com", QType::A);
    let resp = build_dns_ip_response(&other, &vec![ip("1.2.3.4")], 5).unwrap();
    let got = t.fetch_and_cache(&mut cache, resp.clone(), &query, leader, 0);
    assert_eq!((got.wire, got.woken, got.shared), (resp, 0, None));
    assert!(matches!(cache.lookup_scoped("r", &query, 0), CacheLookup::Miss));
    assert!(leader_of(t.exchange(&mut cache, &query, 0)).is_some());
}

#[test]
fn upstreams_keep_their_answers_apart() {
    let mut cfg = RouterConfig::default();
    cfg.upstreams = vec![
        upstream("a", UpstreamType::Remote, 5300),
        upstream("b", UpstreamType::Remote, 5300),
        upstream("c", UpstreamType::Local, 0),
        upstream("b", UpstreamType::Remote, 5301),
    ];
    let mut resolver = resolver_of(&cfg, vec![]);
    let tags: Vec<&str> = resolver.transports.iter().map(|t| t.tag.as_str()).collect();
    assert_eq!(tags, vec!["c", "a", "b"]);
    for t in &resolver.transports {
        match &t.transport {
            Transport::Cached(c) => assert_eq!(c.tag(), t.tag),
            _ => panic!("none gives fake addresses"),
        }
    }
    let raw = query_wire("a.com", QType::A);
    let query = QueryContext::parse(&raw).unwrap();
    let resp = build_dns_ip_response(&raw, &vec![ip("1.2.3.4")], 60).unwrap();
    let leader = leader_of(step(&mut resolver, 1, &query, 0));
    fetched(&mut resolver, 1, &query, resp, leader, 0);
    assert!(matches!(step(&mut resolver, 1, &query, 0), TransportStep::Done(_, None)));
    assert!(matches!(step(&mut resolver, 0, &query, 0), TransportStep::Fetch(Some(_))));
    assert!(matches!(step(&mut resolver, 2, &query, 0), TransportStep::Fetch(Some(_))));
}
