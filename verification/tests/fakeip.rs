use clash_app::dns::fakeip::any_store::AnyStore;
use clash_app::dns::fakeip::file_store::FileStore;
use clash_app::dns::fakeip::mem_store::{make_host_key, InMemStore};
use clash_app::dns::fakeip::{
    compute_v4_range, compute_v6_range, FakeDns, FakeIpFilterMode, Opts, Store,
};
use clash_app::dns::filters::DomainFilter;
use clash_app::error::Error;
use clash_app::ip::{parse_ip, IpAddr, Ipv4Net, Ipv6Net};
use clash_app::profile::ThreadSafeCacheFile;

fn ip(s: &str) -> IpAddr {
    parse_ip(s).unwrap()
}

fn net4(addr: &str, prefix_len: u8) -> Ipv4Net {
    match ip(addr) {
        IpAddr::V4(addr) => Ipv4Net { addr, prefix_len },
        _ => panic!(),
    }
}

fn net6() -> Ipv6Net {
    match ip("fdfe:5a70:6451:982b::") {
        IpAddr::V6(addr) => Ipv6Net { addr, prefix_len: 64 },
        _ => panic!(),
    }
}

fn pool_with<S: Store>(
    ipnet: Ipv4Net,
    store: S,
    filter: Option<Vec<&str>>,
    filter_mode: FakeIpFilterMode,
) -> FakeDns<S> {
    let made = FakeDns::new(Opts {
        ipnet,
        ipnet6: net6(),
        domain_filter: filter
            .map(|list| DomainFilter::new(&list.iter().map(|s| s.to_string()).collect())),
        filter_mode,
        store,
    });
    match made {
        Ok(pool) => pool,
        Err(e) => panic!("{:?}", e),
    }
}

fn pool(ipnet: Ipv4Net, size: usize) -> FakeDns<InMemStore> {
    pool_with(ipnet, InMemStore::new(size), None, FakeIpFilterMode::Blacklist)
}

fn rows(rows: Vec<clash_app::profile::Row>) -> Vec<(String, String)> {
    rows.into_iter().map(|r| (r.key, r.value)).collect()
}

fn load(file: &ThreadSafeCacheFile, ipnet: Ipv4Net) -> FileStore {
    let (host_to_ip, ip_to_host) = file.get_fake_ip_tables();
    FileStore::new(&rows(host_to_ip), &rows(ip_to_host), ipnet, net6()).0
}

#[test]
fn test_in_mem_store_basic() {
    let mut store = InMemStore::new(100);
    let host = "example.com";
    let ip_v4 = ip("192.168.1.1");
    let ip_v6 = ip("fd00::1");

    store.put_by_host(host, ip_v4);
    store.put_by_host(host, ip_v6);

    assert_eq!(store.get_by_host(host), Some(ip_v4));
    assert_eq!(store.get_v6_by_host(host), Some(ip_v6));

    assert_eq!(store.get_by_ip(ip_v4), Some(host.to_string()));
    assert_eq!(store.get_by_ip(ip_v6), Some(host.to_string()));

    assert!(store.exist(ip_v4));
    assert!(store.exist(ip_v6));

    store.del_by_ip(ip_v4);
    assert!(!store.exist(ip_v4));
    assert_eq!(store.get_by_host(host), None);
    assert_eq!(store.get_v6_by_host(host), Some(ip_v6));
}

#[test]
fn test_inmem_basic() {
    let mut pool = pool(net4("192.168.0.0", 29), 10);

    let first = pool.lookup("foo.com");
    let last = pool.lookup("bar.com");

    let bar = pool.reverse_lookup(last);

    assert_eq!(first, ip("192.168.0.2"));
    assert_eq!(pool.lookup("foo.com"), ip("192.168.0.2"));
    assert_eq!(last, ip("192.168.0.3"));
    assert!(bar.is_some());
    assert_eq!(bar, Some("bar.com".into()));
    assert!(pool.exist(ip("192.168.0.3")));
    assert!(!pool.exist(ip("192.168.0.4")));
    assert!(!pool.exist(ip("::1")));
}

#[test]
fn test_inmem_cycle_used() {
    let mut pool = pool(net4("192.168.0.0", 29), 10);

    let foo = pool.lookup("foo.com");
    let bar = pool.lookup("bar.com");

    for i in 0..4 {
        pool.lookup(&format!("{}.com", i));
    }

    let baz = pool.lookup("baz.com");
    let next = pool.lookup("foo.com");
    assert_eq!(foo, baz);
    assert_eq!(next, bar);
}

#[test]
fn test_pool_skip() {
    let registry = vec![];
    let mut pool = pool_with(
        net4("192.168.0.0", 30),
        InMemStore::new(10),
        Some(vec!["example.com"]),
        FakeIpFilterMode::Blacklist,
    );

    assert!(pool.should_skip("example.com", &registry));
    assert!(pool.should_skip("example.com", &registry));

    assert!(!pool.should_skip("foo.com", &registry));
    assert!(!pool.should_skip("foo.com", &registry));

    pool.add_rule_set(&registry);
    assert!(pool.should_skip("example.com", &registry));
    assert!(!pool.should_skip("foo.com", &registry));
}

#[test]
fn test_pool_skip_whitelist() {
    let registry = vec![];
    let mut pool = pool_with(
        net4("192.168.0.0", 30),
        InMemStore::new(10),
        Some(vec!["example.com"]),
        FakeIpFilterMode::Whitelist,
    );

    assert!(!pool.should_skip("example.com", &registry));
    assert!(!pool.should_skip("example.com", &registry));

    assert!(pool.should_skip("foo.com", &registry));
    assert!(pool.should_skip("foo.com", &registry));

    pool.add_rule_set(&registry);
    assert!(!pool.should_skip("example.com", &registry));
    assert!(pool.should_skip("foo.com", &registry));
}

#[test]
fn test_pool_skip_empty_filters() {
    let registry = vec![];
    let mut blacklist_pool = pool(net4("192.168.0.0", 30), 10);

    assert!(!blacklist_pool.should_skip("example.com", &registry));
    assert!(!blacklist_pool.should_skip("foo.com", &registry));

    let mut whitelist_pool = pool_with(
        net4("192.168.0.0", 30),
        InMemStore::new(10),
        None,
        FakeIpFilterMode::Whitelist,
    );

    assert!(whitelist_pool.should_skip("example.com", &registry));
    assert!(whitelist_pool.should_skip("foo.com", &registry));
}

#[test]
fn test_pool_max_cache_size() {
    let mut pool = pool(net4("192.168.0.0", 24), 2);

    let first = pool.lookup("foo.com");

    for i in 0..10 {
        pool.lookup(&format!("domain{i}.com"));
    }
    let next = pool.lookup("foo.com");

    assert_ne!(first, next);
}

#[test]
fn test_is_fake_ip_excludes_broadcast_and_unallocated() {
    let mut pool = pool(net4("198.18.0.0", 16), 10);

    let allocated = pool.lookup("foo.com");
    assert!(pool.is_fake_ip(allocated), "allocated IP must be fake");

    assert!(
        !pool.is_fake_ip(ip("198.18.0.255")),
        "directed broadcast must not be treated as a fake IP"
    );
    assert!(!pool.is_fake_ip(ip("255.255.255.255")), "255.255.255.255 must not be a fake IP");
    assert!(!pool.is_fake_ip(ip("224.0.0.1")), "multicast must not be a fake IP");
    assert!(
        !pool.is_fake_ip(ip("198.18.1.1")),
        "unallocated in-range IP must not be treated as a fake IP"
    );
}

#[test]
fn test_file_store_basic() {
    let file = ThreadSafeCacheFile::new(true, vec![], vec![], vec![]);
    let ipnet = net4("192.168.0.0", 29);
    let mut pool = pool_with(ipnet, load(&file, ipnet), None, FakeIpFilterMode::Blacklist);

    let first = pool.lookup("foo.com");
    let first_v6 = pool.lookupv6("foo.com");

    assert_eq!(first, ip("192.168.0.2"));
    assert!(matches!(first_v6, IpAddr::V6(_)));

    let ip_v4 = pool.store.get_by_host("foo.com");
    let ip_v6 = pool.store.get_v6_by_host("foo.com");

    assert_eq!(ip_v4, Some(first));
    assert_eq!(ip_v6, Some(first_v6));

    assert_eq!(pool.reverse_lookup(first), Some("foo.com".to_string()));
    assert_eq!(pool.reverse_lookup(first_v6), Some("foo.com".to_string()));

    assert!(pool.exist(first));
    assert!(pool.exist(first_v6));

    pool.store.del_by_ip(first);
    assert!(!pool.exist(first));
    assert!(pool.exist(first_v6));

    assert_eq!(pool.store.get_by_host("foo.com"), None);
    assert_eq!(pool.store.get_v6_by_host("foo.com"), Some(first_v6));
}

#[test]
fn test_file_store_fallback() {
    let mut file = ThreadSafeCacheFile::new(true, vec![], vec![], vec![]);
    let ipnet = net4("192.168.0.0", 29);
    let host = "old-style.com";
    let ip_v4_str = "192.168.0.2";
    let ip_v6_str = "fdfe:5a70:6451:982b::2";

    let writes = file.set_host_to_ip(host, ip_v4_str);
    file.commit(&writes);
    let store = load(&file, ipnet);
    assert_eq!(store.get_by_host(host), Some(ip(ip_v4_str)));
    assert_eq!(store.get_v6_by_host(host), None);

    let writes = file.set_host_to_ip(host, ip_v6_str);
    file.commit(&writes);
    let store = load(&file, ipnet);
    assert_eq!(store.get_v6_by_host(host), Some(ip(ip_v6_str)));
    assert_eq!(store.get_by_host(host), None);
}

#[test]
fn a_file_store_goes_on_where_it_stopped() {
    let mut file = ThreadSafeCacheFile::new(true, vec![], vec![], vec![]);
    let ipnet = net4("192.168.0.0", 29);
    let mut pool = pool_with(ipnet, load(&file, ipnet), None, FakeIpFilterMode::Blacklist);
    let first = pool.lookup("foo.com");
    let (puts, deletes) = pool.store.take_batch();
    assert!(!puts.is_empty());
    let writes = file.apply_fake_ip_batch(&puts, &deletes);
    file.commit(&writes);
    assert_eq!(file.get_fake_ip("192.168.0.2"), Some("foo.com".to_string()));

    let mut pool = pool_with(ipnet, load(&file, ipnet), None, FakeIpFilterMode::Blacklist);
    assert_eq!(pool.lookup("foo.com"), first);
    assert_eq!(pool.lookup("bar.com"), ip("192.168.0.3"));
}

#[test]
fn pairs_outside_the_network_are_given_back() {
    let hosts = vec![("a.com#v4".to_string(), "10.0.0.1".to_string())];
    let addrs = vec![
        ("10.0.0.1".to_string(), "a.com".to_string()),
        ("192.168.0.4".to_string(), "b.com".to_string()),
    ];
    let (store, stale) = FileStore::new(&hosts, &addrs, net4("192.168.0.0", 29), net6());
    assert_eq!(store.get_by_ip(ip("192.168.0.4")), Some("b.com".to_string()));
    assert_eq!(store.get_by_host("a.com"), None);
    assert!(stale.contains(&("10.0.0.1".to_string(), Some("a.com#v4".to_string()))));
    assert_eq!(store.initial_offset_v4(), 3);
}

#[test]
fn a_store_waits_with_its_writes() {
    let (mut store, _) = FileStore::new(&vec![], &vec![], net4("192.168.0.0", 29), net6());
    assert!(!store.batch_due());
    store.put_by_host("a.com", ip("192.168.0.2"));
    store.del_by_ip(ip("192.168.0.2"));
    let (puts, deletes) = store.take_batch();
    assert_eq!(
        puts,
        vec![("192.168.0.2".to_string(), "a.com".to_string(), "a.com#v4".to_string())]
    );
    assert_eq!(deletes, vec![("192.168.0.2".to_string(), Some("a.com#v4".to_string()))]);
    assert!(store.take_batch().0.is_empty());
}

#[test]
fn v6_addresses_are_handed_out_in_order() {
    let mut pool = pool(net4("192.168.0.0", 29), 10);
    let a = pool.lookupv6("a.com");
    let b = pool.lookupv6("b.com");
    assert_eq!(pool.lookupv6("a.com"), a);
    match (a, b) {
        (IpAddr::V6(x), IpAddr::V6(y)) => assert_eq!(y, x + 1),
        _ => panic!(),
    }
    assert!(pool.is_in_pool(a));
    assert!(!pool.is_in_pool(ip("::1")));
    assert_eq!(pool.reverse_lookup(b), Some("b.com".to_string()));
}

#[test]
fn ranges_are_counted() {
    assert_eq!(compute_v4_range(&net4("192.168.0.0", 29)), Some((0xc0a8_0002, 0xc0a8_0007)));
    assert_eq!(compute_v4_range(&net4("192.168.0.0", 32)), None);
    let range = compute_v6_range(&net6()).unwrap();
    assert_eq!((range.1, range.2), (64, 1));
    assert_eq!(make_host_key("a.com", false), "a.com#v4");
    assert_eq!(make_host_key("a.com", true), "a.com#v6");
}

#[test]
fn what_a_pool_saved_is_found_again() {
    let mut file = ThreadSafeCacheFile::new(true, vec![], vec![], vec![]);
    let ipnet = net4("192.168.0.0", 29);
    let mut first = pool_with(ipnet, load(&file, ipnet), None, FakeIpFilterMode::Blacklist);
    let a = first.lookup("a.com");
    let b = first.lookup("b.com");
    let c = first.lookupv6("a.com");
    let (puts, deletes) = first.store.take_batch();
    let writes = file.apply_fake_ip_batch(&puts, &deletes);
    file.commit(&writes);
    let mut second = pool_with(ipnet, load(&file, ipnet), None, FakeIpFilterMode::Blacklist);
    assert_eq!(second.reverse_lookup(a), Some("a.com".to_string()));
    assert_eq!(second.reverse_lookup(c), Some("a.com".to_string()));
    assert_eq!(second.lookup("b.com"), b);
    assert_eq!(second.lookup("a.com"), a);
    assert_eq!(second.lookupv6("a.com"), c);
    assert_eq!(second.lookup("c.com"), ip("192.168.0.4"));
}

#[test]
fn a_store_is_kept_where_there_is_a_file() {
    let hosts = vec![("a.com#v4".to_string(), "192.168.0.3".to_string())];
    let addrs = vec![("192.168.0.3".to_string(), "a.com".to_string())];
    let (file, _) = FileStore::new(&hosts, &addrs, net4("192.168.0.0", 29), net6());
    let kept = AnyStore::new(Some(file));
    assert!(matches!(kept, AnyStore::File(_)));
    assert_eq!(kept.get_by_host("a.com"), Some(ip("192.168.0.3")));
    assert_eq!(kept.initial_offset_v4(), 2);
    let mut memory = AnyStore::new(None);
    assert!(matches!(memory, AnyStore::Memory(_)));
    assert_eq!(memory.get_by_host("a.com"), None);
    memory.put_by_ip(ip("192.168.0.5"), "b.com");
    memory.put_by_host("c.com", ip("fd00::1"));
    assert_eq!(memory.get_by_ip(ip("192.168.0.5")), Some("b.com".to_string()));
    assert_eq!(memory.get_v6_by_host("c.com"), Some(ip("fd00::1")));
    assert!(memory.exist(ip("fd00::1")));
    memory.del_by_ip(ip("fd00::1"));
    assert!(!memory.exist(ip("fd00::1")));
    assert_eq!(memory.initial_offset_v6(), 0);
}

#[test]
fn a_narrow_range_is_named_in_the_refusal() {
    let made = |v4: u8, v6: u8| {
        FakeDns::new(Opts {
            ipnet: net4("198.18.0.5", v4),
            ipnet6: Ipv6Net { addr: net6().addr, prefix_len: v6 },
            domain_filter: None,
            filter_mode: FakeIpFilterMode::Blacklist,
            store: InMemStore::new(10),
        })
    };
    assert!(made(30, 126).is_ok());
    match made(31, 126) {
        Err(Error::InvalidConfig(e)) => assert_eq!(
            e,
            "fake ip range 198.18.0.5/31 is too small, need /30 or wider"
        ),
        _ => panic!(),
    }
    match made(30, 127) {
        Err(Error::InvalidConfig(e)) => assert_eq!(
            e,
            "fake ipv6 range fdfe:5a70:6451:982b::/127 is too small, need /126 or wider"
        ),
        _ => panic!(),
    }
}
