use clash_app::dns::query::{
    build_dns_query_wire, build_dns_query_wire_with_id, DnsName, QType, QueryContext,
};
use clash_app::dns::resolver::cache::{classify, CacheLookup, CachedEntry, DnsCache, DnsCacheKey};
use clash_app::dns::resolver::reverse_cache::{merge, ReverseEntry, ReverseLookupCache};
use clash_app::dns::response::{
    build_dns_ip_response, build_dns_nodata, build_dns_nxdomain, build_dns_refused,
    extract_ips_from_dns_response, extract_min_ttl_from_dns_response, rewrite_dns_response_ttl,
    ResponseTemplate,
};
use clash_app::ip::{parse_ip, IpAddr};

fn ip(s: &str) -> IpAddr {
    parse_ip(s).unwrap()
}

fn wire(id: u16, domain: &str, qtype: QType) -> Vec<u8> {
    build_dns_query_wire_with_id(id, &DnsName::from_domain(domain).unwrap(), qtype)
}

fn template(query: &QueryContext, raw: &[u8], addr: &str, ttl: u32) -> ResponseTemplate {
    let resp = build_dns_ip_response(raw, &vec![ip(addr)], ttl).unwrap();
    ResponseTemplate::validate(query, &resp).unwrap()
}

#[test]
fn test_dns_cache_lookup_fresh_and_stale() {
    let mut cache = DnsCache::new(100);
    let query_bytes = wire(0x1234, "example.com", QType::A);
    let query = QueryContext::parse(&query_bytes).unwrap();
    let now: u64 = 1_000_000;

    assert!(matches!(cache.lookup(&query, now), CacheLookup::Miss));

    cache.insert(&query, template(&query, &query_bytes, "1.2.3.4", 10), 10, 60_000, now);

    match cache.lookup(&query, now) {
        CacheLookup::Hit(tmpl, remaining_ttl) => {
            let rendered = tmpl.render(&query).unwrap();
            assert_eq!(extract_ips_from_dns_response(&rendered), vec![ip("1.2.3.4")]);
            assert!(remaining_ttl <= 10);
        }
        _ => panic!("expected fresh cache hit"),
    }

    match cache.lookup(&query, now + 15_000) {
        CacheLookup::Stale(tmpl) => {
            let rendered = tmpl.render(&query).unwrap();
            assert_eq!(extract_ips_from_dns_response(&rendered), vec![ip("1.2.3.4")]);
        }
        _ => panic!("expected stale cache hit"),
    }

    assert!(matches!(cache.lookup(&query, now + 75_000), CacheLookup::Miss));
}

#[test]
fn test_dns_cache_scoped_isolation() {
    let mut cache = DnsCache::new(100);
    let query_bytes = wire(0x1234, "example.com", QType::A);
    let query = QueryContext::parse(&query_bytes).unwrap();
    let now: u64 = 1_000_000;

    let tmpl_remote = template(&query, &query_bytes, "1.1.1.1", 10);
    let tmpl_local = template(&query, &query_bytes, "127.0.0.1", 10);

    cache.insert_scoped("remote", &query, tmpl_remote, 10, 60_000, now);
    cache.insert_scoped("local", &query, tmpl_local, 10, 60_000, now);

    match cache.lookup_scoped("remote", &query, now) {
        CacheLookup::Hit(tmpl, _) => {
            let rendered = tmpl.render(&query).unwrap();
            assert_eq!(extract_ips_from_dns_response(&rendered), vec![ip("1.1.1.1")]);
        }
        _ => panic!("expected remote cache hit"),
    }

    match cache.lookup_scoped("local", &query, now) {
        CacheLookup::Hit(tmpl, _) => {
            let rendered = tmpl.render(&query).unwrap();
            assert_eq!(extract_ips_from_dns_response(&rendered), vec![ip("127.0.0.1")]);
        }
        _ => panic!("expected local cache hit"),
    }

    assert!(matches!(cache.lookup_scoped("other", &query, now), CacheLookup::Miss));
}

#[test]
fn test_dns_cache_case_insensitivity() {
    let mut cache = DnsCache::new(100);
    let query_upper_wire = wire(0x1111, "ExAmPlE.CoM", QType::A);
    let query_upper = QueryContext::parse(&query_upper_wire).unwrap();
    let now: u64 = 1_000_000;

    let tmpl = template(&query_upper, &query_upper_wire, "8.8.8.8", 60);
    cache.insert_scoped("upstream1", &query_upper, tmpl, 60, 60_000, now);

    let query_lower_wire = wire(0x2222, "example.com", QType::A);
    let query_lower = QueryContext::parse(&query_lower_wire).unwrap();

    match cache.lookup_scoped("upstream1", &query_lower, now) {
        CacheLookup::Hit(tmpl, remaining_ttl) => {
            let rendered = tmpl.render(&query_lower).unwrap();
            assert_eq!(u16::from_be_bytes([rendered[0], rendered[1]]), 0x2222);
            assert_eq!(extract_ips_from_dns_response(&rendered), vec![ip("8.8.8.8")]);
            assert!(remaining_ttl <= 60);
        }
        _ => panic!("expected case-insensitive cache hit"),
    }
}

#[test]
fn what_is_kept_is_found_while_there_is_room() {
    let mut cache = DnsCache::new(3);
    let queries: Vec<QueryContext> = (0..3)
        .map(|i| {
            let raw = wire(1, &format!("d{}.com", i), QType::A);
            let query = QueryContext::parse(&raw).unwrap();
            cache.insert(&query, template(&query, &raw, "1.2.3.4", 10), 10, 0, 0);
            query
        })
        .collect();
    for _ in 0..200 {
        for query in &queries {
            assert!(matches!(cache.lookup(query, 0), CacheLookup::Hit(_, 10)));
        }
    }
    assert!(matches!(cache.lookup(&queries[0], 10_000), CacheLookup::Miss));
    assert!(matches!(cache.lookup(&queries[0], 0), CacheLookup::Miss));
    assert!(matches!(cache.lookup(&queries[1], 0), CacheLookup::Hit(_, 10)));
    let raw = wire(1, "d3.com", QType::A);
    let query = QueryContext::parse(&raw).unwrap();
    cache.insert(&query, template(&query, &raw, "5.6.7.8", 10), 10, 0, 0);
    assert!(matches!(cache.lookup(&query, 0), CacheLookup::Hit(_, 10)));
    assert!(matches!(cache.lookup(&queries[2], 0), CacheLookup::Hit(_, 10)));
}

#[test]
fn what_was_told_is_found_while_there_is_room() {
    let mut cache = ReverseLookupCache::new(2);
    cache.insert(ip("1.2.3.4"), "a.com", 10, 0);
    cache.insert(ip("::1"), "b.com", 20, 0);
    for _ in 0..200 {
        assert_eq!(cache.lookup(&ip("1.2.3.4"), 9_999), Some("a.com".to_string()));
        assert_eq!(cache.lookup(&ip("::1"), 9_999), Some("b.com".to_string()));
    }
    assert_eq!(cache.lookup(&ip("1.2.3.4"), 10_000), None);
    assert_eq!(cache.lookup(&ip("::1"), 10_000), Some("b.com".to_string()));
}

#[test]
fn an_entry_has_three_ages() {
    let query_bytes = wire(1, "example.com", QType::A);
    let query = QueryContext::parse(&query_bytes).unwrap();
    let entry = || CachedEntry {
        template: template(&query, &query_bytes, "1.2.3.4", 10),
        expires_at: 10_000,
        stale_until: 20_000,
    };
    assert!(entry().is_fresh(9_999));
    assert!(!entry().is_fresh(10_000));
    assert!(entry().is_stale_valid(10_000));
    assert!(!entry().is_stale_valid(20_000));
    assert_eq!(entry().remaining_ttl_secs(7_500), 2);
    assert!(matches!(classify(entry(), 0), CacheLookup::Hit(_, 10)));
    assert!(matches!(classify(entry(), 15_000), CacheLookup::Stale(_)));
    assert!(matches!(classify(entry(), 25_000), CacheLookup::Miss));
    let key = DnsCacheKey::new("scope", &query);
    assert_eq!(key.scope, "scope");
    assert_eq!(key.domain, "example.com");
}

#[test]
fn test_reverse_cache_basic_and_refresh() {
    let mut cache = ReverseLookupCache::new(100);
    let addr = ip("1.2.3.4");
    let now: u64 = 1_000_000;

    cache.insert(addr, "example.com", 60, now);
    assert_eq!(cache.lookup(&addr, now), Some("example.com".to_string()));

    cache.insert(addr, "EXAMPLE.COM", 120, now);
    assert_eq!(cache.lookup(&addr, now), Some("example.com".to_string()));
    assert_eq!(cache.lookup(&addr, now + 100_000), Some("example.com".to_string()));
}

#[test]
fn test_reverse_cache_conflict_marks_ambiguous() {
    let mut cache = ReverseLookupCache::new(100);
    let addr = ip("1.2.3.4");
    let now: u64 = 1_000_000;

    cache.insert(addr, "domain-a.com", 60, now);
    assert_eq!(cache.lookup(&addr, now), Some("domain-a.com".to_string()));

    cache.insert(addr, "domain-b.com", 60, now);
    assert_eq!(cache.lookup(&addr, now), None);

    assert_eq!(cache.lookup(&addr, now), None);
}

#[test]
fn test_reverse_cache_expiration() {
    let mut cache = ReverseLookupCache::new(100);
    let addr = ip("1.2.3.4");
    let now: u64 = 1_000_000;

    cache.insert(addr, "expired.com", 60, now - 70_000);
    assert_eq!(cache.lookup(&addr, now), None);

    cache.insert(addr, "fresh.com", 60, now);
    assert_eq!(cache.lookup(&addr, now), Some("fresh.com".to_string()));
}

#[test]
fn reverse_entries_are_merged() {
    let one = merge(None, "A.com", 10, 0);
    assert_eq!(one.expires_at(), 10);
    assert_eq!(one.domain(5), Some("A.com"));
    assert_eq!(one.domain(10), None);
    let both = merge(Some(one), "b.com", 20, 5);
    assert!(matches!(both, ReverseEntry::Ambiguous { .. }));
    assert!(both.is_fresh(15));
    let again = merge(Some(both), "b.com", 40, 30);
    assert_eq!(again.domain(35), Some("b.com"));
}

#[test]
fn a_query_is_read_back() {
    let raw = wire(7, "Example.COM", QType::AAAA);
    let query = QueryContext::parse(&raw).unwrap();
    assert_eq!(query.id, 7);
    assert_eq!(query.qdomain(), "example.com");
    assert_eq!(query.qtype, QType::AAAA);
    assert_eq!(query.copy().canonical_wire(), query.canonical_wire());
    assert!(QueryContext::parse(&raw[..raw.len() - 1]).is_none());
    assert!(DnsName::from_domain(&"a".repeat(64)).is_none());
    let by_name = build_dns_query_wire(&DnsName::from_domain("a.com").unwrap(), QType::A);
    assert_eq!(QueryContext::parse(&by_name).unwrap().qdomain(), "a.com");
}

#[test]
fn query_types_have_codes() {
    assert_eq!(QType::A.code(), 1);
    assert_eq!(QType::AAAA.code(), 28);
    assert_eq!(QType::HTTPS.code(), 65);
    assert_eq!(QType::from_code(15), QType::MX);
    assert_eq!(QType::from_code(99), QType::Other(99));
    assert_eq!(QType::from_name("AAAA"), Some(QType::AAAA));
    assert_eq!(QType::from_name("nothing"), None);
    assert!(QType::TXT.same(&QType::from_code(16)));
}

#[test]
fn answers_are_built_and_read() {
    let raw = wire(9, "example.com", QType::A);
    let query = QueryContext::parse(&raw).unwrap();
    let mut resp = build_dns_ip_response(&raw, &vec![ip("1.2.3.4"), ip("5.6.7.8")], 30).unwrap();
    assert_eq!(extract_ips_from_dns_response(&resp), vec![ip("1.2.3.4"), ip("5.6.7.8")]);
    assert_eq!(extract_min_ttl_from_dns_response(&resp), Some(30));
    rewrite_dns_response_ttl(&mut resp, 5);
    assert_eq!(extract_min_ttl_from_dns_response(&resp), Some(5));
    assert_eq!(extract_ips_from_dns_response(&resp), vec![ip("1.2.3.4"), ip("5.6.7.8")]);
    assert!(ResponseTemplate::validate(&query, &resp).is_some());
    let other = QueryContext::parse(&wire(9, "other.com", QType::A)).unwrap();
    assert!(ResponseTemplate::validate(&other, &resp).is_none());
}

#[test]
fn refusals_carry_their_code() {
    let raw = wire(3, "example.com", QType::A);
    let nodata = build_dns_nodata(&raw);
    let nxdomain = build_dns_nxdomain(&raw);
    let refused = build_dns_refused(&raw);
    assert_eq!((nodata[3] & 15, nxdomain[3] & 15, refused[3] & 15), (0, 3, 5));
    assert_eq!(&nodata[..2], &raw[..2]);
    assert!(nodata[2] & 0x80 != 0);
    assert!(extract_ips_from_dns_response(&nodata).is_empty());
    assert_eq!(extract_min_ttl_from_dns_response(&nodata), None);
}

#[test]
fn a_conflict_lasts_until_it_expires() {
    let mut cache = ReverseLookupCache::new(100);
    let addr = ip("1.2.3.4");
    cache.insert(addr, "domain-a.com", 60, 0);
    cache.insert(addr, "domain-b.com", 60, 1_000);
    cache.insert(ip("5.6.7.8"), "domain-a.com", 60, 1_000);
    for (host, ttl) in [("domain-a.com", 1), ("domain-b.com", 1), ("domain-c.com", 1)] {
        cache.insert(addr, host, ttl, 2_000);
        assert_eq!(cache.lookup(&addr, 2_000), None);
    }
    cache.insert(addr, "domain-a.com", 1, 60_999);
    assert_eq!(cache.lookup(&addr, 60_999), None);
    cache.insert(addr, "domain-a.com", 1, 61_999);
    assert_eq!(cache.lookup(&addr, 61_999), Some("domain-a.com".to_string()));
}

#[test]
fn the_case_of_a_name_is_nothing_in_any_scope() {
    let lower = wire(1, "example.com", QType::A);
    let mixed = wire(2, "ExAmPlE.CoM", QType::A);
    let q = QueryContext::parse(&lower).unwrap();
    let r = QueryContext::parse(&mixed).unwrap();
    assert_eq!((&q.domain, q.qtype, &q.canonical), (&r.domain, r.qtype, &r.canonical));
    let mut cache = DnsCache::new(100);
    for (scope, addr) in [("remote", "1.1.1.1"), ("local", "127.0.0.1")] {
        cache.insert_scoped(scope, &q, template(&q, &lower, addr, 10), 10, 60_000, 0);
    }
    for (scope, addr) in [("remote", "1.1.1.1"), ("local", "127.0.0.1")] {
        match cache.lookup_scoped(scope, &r, 9_000) {
            CacheLookup::Hit(found, 1) => {
                assert_eq!(extract_ips_from_dns_response(&found.wire), vec![ip(addr)])
            }
            _ => panic!("the answer is kept"),
        }
    }
    assert!(matches!(cache.lookup_scoped("other", &r, 9_000), CacheLookup::Miss));
}
