use clash_app::dns::filters::{
    bind, check_bound, find_provider, DomainFilter, FallbackFilter, GeoIPFilter, IPNetFilter,
};
use clash_app::dns::resolver::policy::NameServerPolicyContainer;
use clash_app::ip::{parse_ip, IpAddr};
use clash_app::outbound::{
    proxy_groups_dag_sort, OutboundGroupFallback, OutboundGroupLoadBalance, OutboundGroupProtocol,
    OutboundGroupRelay, OutboundGroupSelect, OutboundGroupSmart, OutboundGroupUrlTest,
};
use clash_app::providers::rule_provider::{RuleProviderImpl, RuleSetBehavior, RuleSetFormat};
use clash_app::session::Target;

fn texts(list: &[&str]) -> Vec<String> {
    list.iter().map(|s| s.to_string()).collect()
}

fn ip(s: &str) -> IpAddr {
    parse_ip(s).unwrap()
}

fn provider(name: &str, behavior: RuleSetBehavior, rules: &[&str]) -> RuleProviderImpl {
    let mut made = RuleProviderImpl::new(
        name.to_string(),
        behavior,
        RuleSetFormat::Text,
        Some(texts(rules)),
    );
    made.initialize().unwrap();
    made
}

#[test]
fn test_domain_filter_static_and_ruleset() {
    let mut filter = DomainFilter::new(&texts(&["*.bad.domain", "exact.com", "rule-set:adblock"]));
    let none = vec![];

    assert!(!filter.is_empty());
    assert!(filter.apply("exact.com", &none));
    assert!(filter.apply("sub.bad.domain", &none));
    assert!(!filter.apply("good.com", &none));
    assert!(!filter.apply("ad.com", &none));

    let registry = vec![provider("adblock", RuleSetBehavior::Domain, &["ad.com"])];

    let bound = filter.add_rule_set(&registry);
    assert!(bound.is_some());
    assert_eq!(bound.unwrap().len(), 1);

    assert!(filter.apply("ad.com", &registry));
}

#[test]
fn test_empty_domain_filter() {
    let empty_filter = DomainFilter::new(&vec![]);
    assert!(empty_filter.is_empty());
    assert!(!empty_filter.apply("example.com", &vec![]));
}

#[test]
fn test_ip_net_filter_static_and_ruleset() {
    let mut filter =
        IPNetFilter::new(&texts(&["192.168.0.0/16", "rule-set:blocked-ips"])).ok().unwrap();
    let none = vec![];

    assert!(!filter.is_empty());
    let ip1 = ip("192.168.1.1");
    let ip2 = ip("10.0.0.1");

    assert!(filter.apply(&ip1, &none));
    assert!(!filter.apply(&ip2, &none));

    let registry = vec![provider("blocked-ips", RuleSetBehavior::Ipcidr, &["10.0.0.0/8"])];

    let bound = filter.add_rule_set(&registry);
    assert!(bound.is_some());

    assert!(filter.apply(&ip2, &registry));
}

#[test]
fn test_fallback_filter_container() {
    let domains = texts(&["+.google.com", "rule-set:fallback-domains"]);
    let ip_cidrs = texts(&["10.0.0.0/8", "rule-set:fallback-ips"]);
    let none = vec![];

    let filter = FallbackFilter::new(&domains, &ip_cidrs, false, "CN");

    assert!(!filter.is_empty());
    assert!(filter.match_domain("www.google.com", &none));
    assert!(!filter.match_domain("baidu.com", &none));

    assert!(filter.match_ip(&ip("10.1.2.3"), &None, &none));
    assert!(!filter.match_ip(&ip("192.168.1.1"), &None, &none));
}

#[test]
fn a_bad_network_is_refused() {
    assert!(IPNetFilter::new(&texts(&["10.0.0.0"])).is_err());
    let filter = FallbackFilter::new(&vec![], &vec![], false, "CN");
    assert!(filter.is_empty());
    assert!(!filter.match_ip(&ip("10.1.2.3"), &None, &vec![]));
}

#[test]
fn a_country_that_is_not_its_own_is_foreign() {
    let filter = GeoIPFilter::new("CN");
    assert!(!filter.apply(&Some("CN".to_string())));
    assert!(filter.apply(&Some("US".to_string())));
    assert!(filter.apply(&None));
    let whole = FallbackFilter::new(&vec![], &vec![], true, "CN");
    assert!(whole.match_ip(&ip("10.1.2.3"), &Some("US".to_string()), &vec![]));
    assert!(!whole.match_ip(&ip("10.1.2.3"), &Some("CN".to_string()), &vec![]));
}

#[test]
fn lines_that_the_router_matched_count_for_lookups() {
    let mut set = provider("c", RuleSetBehavior::Classical, &["GEOSITE,cn", "DOMAIN,a.com"]);
    assert_eq!(set.open_lines(), texts(&["GEOSITE,cn"]));
    let mut filter = DomainFilter::new(&texts(&["rule-set:c"]));
    let count = set.changes();
    set.tell(Target::domain("x.com"), vec![]);
    assert_eq!(set.changes(), count);
    let mut registry = vec![set];
    filter.add_rule_set(&registry);
    assert!(filter.apply("a.com", &registry) && !filter.apply("x.com", &registry));
    registry[0].tell(Target::domain("x.com"), texts(&["GEOSITE,cn"]));
    assert_eq!(registry[0].changes(), count + 1);
    assert!(filter.apply("x.com", &registry) && !filter.apply("y.com", &registry));
    registry[0].tell(Target::Ip(ip("1.2.3.4")), texts(&["GEOSITE,cn"]));
    assert!(registry[0].search_target(&Target::Ip(ip("1.2.3.4"))));
    assert!(!registry[0].search_target(&Target::domain("1.2.3.4")));
    registry[0].forget_told();
    assert!(!filter.apply("x.com", &registry));
}

#[test]
fn providers_are_bound_by_name() {
    let registry = vec![
        provider("a", RuleSetBehavior::Domain, &["x.com"]),
        provider("b", RuleSetBehavior::Domain, &["y.com"]),
    ];
    assert_eq!(find_provider(&registry, "b"), Some(1));
    assert_eq!(find_provider(&registry, "c"), None);
    let bound = bind(&registry, &texts(&["b", "c"]));
    assert_eq!(bound, vec![1]);
    assert!(check_bound(&registry, &Some(bound), &Target::domain("y.com")));
    assert!(!check_bound(&registry, &Some(vec![0]), &Target::domain("y.com")));
    assert!(!check_bound(&registry, &None, &Target::domain("y.com")));
}

#[test]
fn test_nameserver_policy_container_basic() {
    let mut container = NameServerPolicyContainer::new();
    container.insert("+.example.com, geosite:cn, rule-set:adblock", texts(&["8.8.8.8"]));

    assert!(!container.is_empty());
    let matched = container.match_policy("test.example.com", &vec![], &vec![]);
    assert!(matched.is_some());
    assert_eq!(matched.unwrap(), texts(&["8.8.8.8"]));
    assert!(container.match_policy("other.com", &vec![], &vec![]).is_none());
}

#[test]
fn a_policy_looks_at_sites_and_rule_sets() {
    let mut container = NameServerPolicyContainer::new();
    assert!(container.is_empty());
    container.insert("geosite:cn", texts(&["1.1.1.1"]));
    container.insert("rule-set:ads", texts(&["2.2.2.2"]));
    let registry = vec![provider("ads", RuleSetBehavior::Domain, &["ad.com"])];
    assert_eq!(
        container.match_policy("a.com", &texts(&["cn"]), &registry),
        Some(texts(&["1.1.1.1"]))
    );
    assert_eq!(container.match_policy("ad.com", &vec![], &registry), None);
    container.add_rule_set(&registry);
    assert_eq!(container.match_policy("ad.com", &vec![], &registry), Some(texts(&["2.2.2.2"])));
}

#[test]
fn test_proxy_groups_dag_sort_ok() {
    let g1 = OutboundGroupRelay {
        name: "relay".to_owned(),
        proxies: Some(texts(&[
            "ss",
            "auto",
            "fallback-auto",
            "load-balance",
            "smart",
            "select",
            "DIRECT",
        ])),
    };
    let g2 = OutboundGroupUrlTest {
        name: "auto".to_owned(),
        proxies: Some(texts(&["ss", "DIRECT"])),
    };
    let g3 = OutboundGroupFallback {
        name: "fallback-auto".to_owned(),
        proxies: Some(texts(&["ss", "DIRECT"])),
    };
    let g4 = OutboundGroupLoadBalance {
        name: "load-balance".to_owned(),
        proxies: Some(texts(&["ss", "DIRECT"])),
    };
    let g5 = OutboundGroupSmart {
        name: "smart".to_owned(),
        proxies: Some(texts(&["ss", "DIRECT"])),
    };
    let g6 = OutboundGroupSelect {
        name: "select".to_owned(),
        proxies: Some(texts(&["ss", "DIRECT", "REJECT"])),
    };

    let mut groups = vec![
        OutboundGroupProtocol::Relay(g1),
        OutboundGroupProtocol::UrlTest(g2),
        OutboundGroupProtocol::Fallback(g3),
        OutboundGroupProtocol::LoadBalance(g4),
        OutboundGroupProtocol::Smart(g5),
        OutboundGroupProtocol::Select(g6),
    ];

    proxy_groups_dag_sort(&mut groups).unwrap();

    assert_eq!(groups.len(), 6);
    assert_eq!(groups.last().unwrap().name(), "relay");
}

#[test]
fn test_proxy_groups_dag_sort_cycle() {
    let g1 = OutboundGroupRelay {
        name: "relay".to_owned(),
        proxies: Some(texts(&["ss", "auto", "fallback-auto"])),
    };
    let g2 = OutboundGroupUrlTest {
        name: "auto".to_owned(),
        proxies: Some(texts(&["ss", "DIRECT", "cycle"])),
    };
    let g3 = OutboundGroupFallback {
        name: "cycle".to_owned(),
        proxies: Some(texts(&["ss", "DIRECT", "relay"])),
    };

    let mut groups = vec![
        OutboundGroupProtocol::Relay(g1),
        OutboundGroupProtocol::UrlTest(g2),
        OutboundGroupProtocol::Fallback(g3),
    ];

    let e = proxy_groups_dag_sort(&mut groups).unwrap_err();
    assert!(e.message().contains("loop detected in proxy groups"));
    assert!(e.message().contains("\"relay\""));
}

#[test]
fn sorting_sorted_groups_changes_nothing() {
    let group = |name: &str, proxies: &[&str]| {
        OutboundGroupProtocol::Select(OutboundGroupSelect {
            name: name.to_owned(),
            proxies: Some(texts(proxies)),
        })
    };
    let mut groups = vec![
        group("c", &["b", "a"]),
        group("b", &["x"]),
        group("d", &["a"]),
        group("a", &[]),
        group("e", &["c", "d"]),
    ];
    for _ in 0..2 {
        proxy_groups_dag_sort(&mut groups).unwrap();
        let names: Vec<&str> = groups.iter().map(|g| g.name()).collect();
        assert_eq!(names, ["b", "a", "c", "d", "e"]);
    }
}

#[test]
fn a_group_name_stands_once() {
    let group = |name: &str| {
        OutboundGroupProtocol::Select(OutboundGroupSelect {
            name: name.to_owned(),
            proxies: None,
        })
    };
    let mut groups = vec![group("a"), group("b"), group("a")];
    let e = proxy_groups_dag_sort(&mut groups).unwrap_err();
    assert_eq!(e.message(), "duplicate proxy group name: a");
    assert_eq!(groups[1].name(), "b");
    assert!(groups[1].proxies().is_none());
}
