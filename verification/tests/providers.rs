use clash_app::error::Error;
use clash_app::ip::{parse_ip, IpAddr, IpNet, Ipv4Net};
use clash_app::profile::{
    backup_path, open_or_init_db, pick_legacy, plan_opening, read_legacy, reset_corrupt_db,
    LegacyTable, OpenOutcome, OpenPlan, Row, Table, TableWrite, ThreadSafeCacheFile,
};
use clash_app::providers::cidr_trie::CidrTrie;
use clash_app::providers::fetcher::{
    Fetcher, ParsedStep, ProviderVehicleType, PullStep,
};
use clash_app::providers::filtered_provider::{fall_back, FilteredProxyProvider};
use clash_app::providers::healthcheck::HealthCheck;
use clash_app::providers::http_vehicle::{
    read_url, FetchError, HeaderDef, Location, ResponseStep, Vehicle, MAX_REDIRECTS,
};
use clash_app::providers::rule_provider::{
    text_payload, yaml_payload, ClassicalRule, ReadStep, RuleContent, RuleProviderImpl,
    RuleSetBehavior, RuleSetFormat,
};
use clash_app::session::{Session, SocksAddr};

fn texts(list: &[&str]) -> Vec<String> {
    list.iter().map(|s| s.to_string()).collect()
}

fn ip(s: &str) -> IpAddr {
    parse_ip(s).unwrap()
}

fn row(key: &str, value: &str) -> Row {
    Row { key: key.to_string(), value: value.to_string() }
}

fn vehicle(url: &str, path: &str, outbound: Option<&str>, headers: Vec<(&str, &str)>) -> Vehicle {
    Vehicle::new(
        url.to_string(),
        path,
        "0123456789abcdef",
        outbound.map(|s| s.to_string()),
        headers
            .into_iter()
            .map(|(n, v)| HeaderDef { name: n.to_string(), values: texts(&[v]) })
            .collect(),
    )
}

fn header(v: &Vehicle, name: &str) -> Vec<String> {
    v.request_headers("clash")
        .into_iter()
        .filter(|h| h.name == name)
        .map(|h| h.value)
        .collect()
}

fn provider(behavior: RuleSetBehavior, rules: &[&str]) -> RuleProviderImpl {
    RuleProviderImpl::new("test".to_string(), behavior, RuleSetFormat::Text, Some(texts(rules)))
}

fn apply(writes: &[TableWrite], table: Table, rows: &mut Vec<Row>) {
    for write in writes {
        match write {
            TableWrite::Put(t, key, value) if *t == table => {
                rows.retain(|r| r.key != *key);
                rows.push(row(key, value));
            }
            TableWrite::Remove(t, key) if *t == table => rows.retain(|r| r.key != *key),
            _ => {}
        }
    }
}

#[test]
fn test_selected_crud() {
    let mut cache = ThreadSafeCacheFile::new(true, vec![], vec![], vec![]);
    assert_eq!(cache.get_selected("PROXY"), None);

    let writes = cache.set_selected("PROXY", "Node-1");
    cache.commit(&writes);
    assert_eq!(cache.get_selected("PROXY"), Some("Node-1".to_string()));

    let writes = cache.set_selected("PROXY", "Node-2");
    cache.commit(&writes);
    assert_eq!(cache.get_selected("PROXY"), Some("Node-2".to_string()));

    let map = cache.get_selected_map();
    assert_eq!(map.len(), 1);
    assert_eq!((map[0].key.as_str(), map[0].value.as_str()), ("PROXY", "Node-2"));
}

#[test]
fn test_store_selected_disabled() {
    let mut cache = ThreadSafeCacheFile::new(false, vec![], vec![], vec![]);
    assert!(!cache.store_selected());
    let writes = cache.set_selected("PROXY", "Node-1");
    assert!(writes.is_empty());
    cache.commit(&writes);
    assert_eq!(cache.get_selected("PROXY"), None);
    assert!(cache.get_selected_map().is_empty());
}

#[test]
fn test_fake_ip_crud() {
    let mut cache = ThreadSafeCacheFile::new(true, vec![], vec![], vec![]);
    let writes = cache.set_ip_to_host("198.18.0.1", "google.com");
    cache.commit(&writes);
    let writes = cache.set_host_to_ip("google.com#v4", "198.18.0.1");
    cache.commit(&writes);

    assert_eq!(cache.get_fake_ip("198.18.0.1"), Some("google.com".to_string()));
    assert_eq!(cache.get_fake_ip("google.com#v4"), Some("198.18.0.1".to_string()));

    let writes = cache.delete_fake_ip_pair("198.18.0.1", "google.com#v4");
    cache.commit(&writes);
    assert_eq!(cache.get_fake_ip("198.18.0.1"), None);
    assert_eq!(cache.get_fake_ip("google.com#v4"), None);
}

#[test]
fn test_persistence_across_instances() {
    let mut selected = vec![];
    let mut ip_to_host = vec![];
    let mut host_to_ip = vec![];
    {
        let cache = ThreadSafeCacheFile::new(true, vec![], vec![], vec![]);
        for writes in [
            cache.set_selected("AUTO", "HK-01"),
            cache.set_ip_to_host("198.18.0.2", "github.com"),
        ] {
            apply(&writes, Table::Selected, &mut selected);
            apply(&writes, Table::IpToHost, &mut ip_to_host);
            apply(&writes, Table::HostToIp, &mut host_to_ip);
        }
    }
    let cache = ThreadSafeCacheFile::new(true, selected, ip_to_host, host_to_ip);
    assert_eq!(cache.get_selected("AUTO"), Some("HK-01".to_string()));
    assert_eq!(cache.get_fake_ip("198.18.0.2"), Some("github.com".to_string()));
}

#[test]
fn test_legacy_yaml_migration() {
    let yaml_content = r#"
selected:
  PROXY: "Legacy-Node"
ip_to_host:
  "198.18.0.99": "legacy.com"
host_to_ip:
  "legacy.com#v4": "198.18.0.99"
"#;
    let legacy = match open_or_init_db(Some(OpenOutcome::Failed), Some(yaml_content)) {
        OpenPlan::Migrate(legacy) => legacy,
        plan => panic!("unexpected plan {:?}", plan),
    };
    let mut cache = ThreadSafeCacheFile::new(true, vec![], vec![], vec![]);
    let writes = ThreadSafeCacheFile::migrate_legacy(&legacy);
    assert_eq!(writes.len(), 3);
    cache.commit(&writes);
    assert_eq!(cache.get_selected("PROXY"), Some("Legacy-Node".to_string()));
    assert_eq!(cache.get_fake_ip("198.18.0.99"), Some("legacy.com".to_string()));
    assert_eq!(cache.get_fake_ip("legacy.com#v4"), Some("198.18.0.99".to_string()));
}

#[test]
fn an_old_file_has_three_members() {
    let legacy = read_legacy("selected: {a: x, b: 1}\nip_to_host: [1, 2]\nother: {c: y}\n").unwrap();
    assert_eq!(legacy.selected.len(), 2);
    assert_eq!(legacy.selected[0].value, Some("x".to_string()));
    assert_eq!(legacy.selected[1].value, None);
    assert!(legacy.ip_to_host.is_empty() && legacy.host_to_ip.is_empty());
    assert_eq!(ThreadSafeCacheFile::migrate_legacy(&legacy).len(), 1);
    assert!(read_legacy("just a text").unwrap().selected.is_empty());
    assert!(read_legacy("a: [").is_none());
    assert!(matches!(open_or_init_db(Some(OpenOutcome::Failed), Some("a: [")), OpenPlan::Reset));
    let table = LegacyTable { name: "selected".to_string(), rows: None };
    assert!(pick_legacy(&vec![table]).selected.is_empty());
}

#[test]
fn what_the_database_refused_is_not_kept() {
    let cache = ThreadSafeCacheFile::new(true, vec![row("PROXY", "old")], vec![], vec![]);
    let writes = cache.set_selected("PROXY", "new");
    assert_eq!(writes.len(), 1);
    assert_eq!(cache.get_selected("PROXY"), Some("old".to_string()));
}

#[test]
fn a_batch_puts_and_then_deletes() {
    let mut cache = ThreadSafeCacheFile::new(true, vec![], vec![], vec![]);
    let puts = vec![
        ("198.18.0.1".to_string(), "a.com".to_string(), "a.com#v4".to_string()),
        ("198.18.0.2".to_string(), "b.com".to_string(), "b.com#v4".to_string()),
    ];
    let writes = cache.apply_fake_ip_batch(&puts, &vec![]);
    cache.commit(&writes);
    let (by_host, by_ip) = cache.get_fake_ip_tables();
    assert_eq!((by_ip.len(), by_host.len()), (2, 2));
    let writes = cache.apply_fake_ip_batch(&vec![], &vec![("198.18.0.1".to_string(), None)]);
    cache.commit(&writes);
    assert_eq!(cache.get_fake_ip("198.18.0.1"), None);
    assert_eq!(cache.get_fake_ip("198.18.0.2"), Some("b.com".to_string()));
}

#[test]
fn a_file_is_opened_or_put_aside() {
    assert!(matches!(open_or_init_db(None, None), OpenPlan::Create));
    assert!(matches!(open_or_init_db(Some(OpenOutcome::Opened), None), OpenPlan::Use));
    let busy = open_or_init_db(Some(OpenOutcome::AlreadyOpen), Some("a: b"));
    assert!(matches!(busy, OpenPlan::Reset));
    assert!(matches!(open_or_init_db(Some(OpenOutcome::Failed), None), OpenPlan::Reset));
    assert!(matches!(plan_opening(Some(OpenOutcome::Failed), Some(vec![])), OpenPlan::Migrate(_)));
    assert_eq!(backup_path("c.db"), "c.db.legacy-yaml");
    assert_eq!(reset_corrupt_db("c.db", 120), "c.db.corrupt-120");
}

#[test]
fn test_fetcher() {
    let mut f = Fetcher::new("test_fetcher".to_string(), 1_000, ProviderVehicleType::File);
    let mut parsed: Vec<Vec<u8>> = vec![];

    let plan = f.initial(Some(0), 10_000);
    assert!(plan.local);
    parsed.push(vec![1, 2, 3]);
    assert_eq!(Fetcher::on_parsed(&plan, true), ParsedStep::Accept);
    assert!(!f.saves(&plan));
    f.accept(123);
    assert!(f.pulls());

    let mut last = None;
    for i in 0..11u64 {
        let next = Fetcher::pull_loop(plan.immediately_update, last);
        if next == PullStep::Update {
            parsed.push(vec![4, 5, 6]);
            let update = f.update(456, 10_000 + i * 500);
            assert!(!update.save);
            assert_eq!(update.same, parsed.len() > 2);
            if !update.same {
                f.updated(456, 10_000 + i * 500);
            }
        }
        last = Some(next);
    }

    assert!(parsed.len() > 5);
    assert_eq!(parsed[0], vec![1, 2, 3]);
    assert_eq!(parsed[1], vec![4, 5, 6]);
}

#[test]
fn test_fetcher_corrupt_cache_repaired_and_hash_updated() {
    let mut f = Fetcher::new("test_corrupt_cache".to_string(), 60_000, ProviderVehicleType::Http);
    let plan = f.initial(Some(1_000), 2_000);
    assert_eq!(Fetcher::on_parsed(&plan, false), ParsedStep::Fetch);
    let plan = f.refetched(&plan, 2_000);
    assert_eq!(Fetcher::on_parsed(&plan, false), ParsedStep::Fail);
    assert_eq!(Fetcher::on_parsed(&plan, true), ParsedStep::Accept);
    assert!(f.saves(&plan), "the file is repaired");
    f.accept(0xfeed);
    assert_eq!(f.hash, 0xfeed);
    assert_eq!(f.updated_at, 2_000);
}

#[test]
fn test_fetcher_future_timestamp_does_not_panic() {
    let mut f = Fetcher::new("test_future_ts".to_string(), 60_000, ProviderVehicleType::Http);
    let plan = f.initial(Some(3_600_000 + 1_000), 1_000);
    assert!(plan.local);
    assert_eq!(Fetcher::on_parsed(&plan, true), ParsedStep::Accept);
    assert!(!f.saves(&plan));
    f.accept(1);
}

#[test]
fn a_provider_without_a_file_is_fetched() {
    let mut f = Fetcher::new("f".to_string(), 0, ProviderVehicleType::Http);
    let plan = f.initial(None, 5_000);
    assert!(!plan.local && plan.save);
    assert!(f.saves(&plan));
    f.accept(1);
    assert!(!f.pulls());
    assert_eq!(Fetcher::pull_loop(false, None), PullStep::Wait);
}

#[test]
fn content_that_was_not_written_is_told_of_again() {
    let mut f = Fetcher::new("f".to_string(), 60, ProviderVehicleType::Http);
    f.accept(1);
    for _ in 0..2 {
        let update = f.update(2, 9_000);
        assert!(!update.same && update.save);
        assert_eq!((f.hash, f.updated_at), (1, 0));
    }
    f.updated(2, 9_000);
    assert_eq!((f.hash, f.updated_at), (2, 9_000));
    assert!(f.update(2, 9_500).same);
    assert_eq!(f.updated_at, 9_500);
}

#[test]
fn test_http_vehicle() {
    let v = vehicle("http://127.0.0.1:80/test_http_vehicle", "/tmp/test_http_vehicle", None, vec![]);
    assert_eq!(v.path, "/tmp/test_http_vehicle");
    let mut left = MAX_REDIRECTS;
    let step = Vehicle::on_response(&v.url, 200, &Location::Missing, &mut left);
    assert!(matches!(step, ResponseStep::Done));
    assert_eq!(left, MAX_REDIRECTS);
}

#[test]
fn test_http_vehicle_redirect() {
    let v = vehicle("http://127.0.0.1:8080/redirect", "/tmp/redirect", None, vec![]);
    let mut left = MAX_REDIRECTS;
    let to = Location::Text("/target".to_string());
    let next = match Vehicle::on_response(&v.url, 302, &to, &mut left) {
        ResponseStep::Redirect(next) => next,
        other => panic!("{:?}", other),
    };
    assert_eq!(next, "http://127.0.0.1:8080/target");
    assert_eq!(left, MAX_REDIRECTS - 1);
    let step = Vehicle::on_response(&next, 200, &Location::Missing, &mut left);
    assert!(matches!(step, ResponseStep::Done));
}

#[test]
fn test_http_vehicle_empty_path() {
    let v = vehicle("http://example.com/test", "", None, vec![]);
    assert_eq!(v.path, "cache/0123456789abcdef");
}

#[test]
fn test_http_vehicle_with_proxy() {
    let v = vehicle("http://127.0.0.1/test_proxy_vehicle", "/tmp/p", Some("my-proxy"), vec![]);
    assert_eq!(v.outbound.as_deref(), Some("my-proxy"));
}

#[test]
fn test_http_vehicle_custom_headers() {
    let v = vehicle(
        "http://127.0.0.1/test_headers",
        "/tmp/h",
        None,
        vec![("Authorization", "Bearer token123"), ("X-Custom-Key", "custom-val")],
    );
    assert_eq!(header(&v, "authorization"), texts(&["Bearer token123"]));
    assert_eq!(header(&v, "x-custom-key"), texts(&["custom-val"]));
    assert_eq!(header(&v, "user-agent"), texts(&["clash"]));
}

#[test]
fn test_http_vehicle_custom_user_agent() {
    let v = vehicle(
        "http://127.0.0.1/test_custom_ua",
        "/tmp/ua",
        None,
        vec![("User-Agent", "MyCustomAgent/1.0"), ("bad name", "x")],
    );
    assert_eq!(header(&v, "user-agent"), texts(&["MyCustomAgent/1.0"]));
    assert_eq!(v.request_headers("clash").len(), 1);
}

#[test]
fn answers_that_are_no_content_fail() {
    let url = "http://a.com/x";
    let fail = |status: u16, location: Location, mut left: u32| {
        match Vehicle::on_response(url, status, &location, &mut left) {
            ResponseStep::Failed(e) => e,
            other => panic!("{:?}", other),
        }
    };
    assert_eq!(fail(404, Location::Missing, 10), FetchError::Status(404));
    assert_eq!(fail(301, Location::Missing, 10), FetchError::NoLocation);
    assert_eq!(fail(301, Location::Unreadable, 10), FetchError::BadLocation);
    assert_eq!(fail(301, Location::Text("http://".to_string()), 10), FetchError::BadLocation);
    assert_eq!(fail(301, Location::Text("/y".to_string()), 0), FetchError::TooManyRedirects);
}

#[test]
fn test_filtered_proxy_provider() {
    let proxies = texts(&["HK 01", "US 01", "TW 01"]);

    let mut filtered_provider = FilteredProxyProvider::new("HK.*".to_string(), None);
    let res = filtered_provider.proxies(&proxies);
    assert_eq!(res.len(), 1);
    assert_eq!(res[0], "HK 01");

    assert!(filtered_provider.remembers(&proxies));
    assert_eq!(filtered_provider.proxies(&proxies), res);

    let mut filtered_provider_empty = FilteredProxyProvider::new("SG.*".to_string(), None);
    assert_eq!(filtered_provider_empty.proxies(&proxies).len(), 0);

    let mut filtered_provider_fallback =
        FilteredProxyProvider::new("SG.*".to_string(), Some("REJECT".to_string()));
    let res_fb = filtered_provider_fallback.proxies(&proxies);
    assert_eq!(res_fb.len(), 1);
    assert_eq!(res_fb[0], "REJECT");
    assert_eq!(fall_back(texts(&["a"]), &Some("b".to_string())), texts(&["a"]));
}

#[test]
fn test_inline_provider() {
    let mut provider = provider(RuleSetBehavior::Classical, &["DOMAIN-SUFFIX, google.com"]);
    assert!(provider.initialize().is_ok());

    let mut sess = Session::to_domain("test.google.com");
    sess.destination = SocksAddr::Domain("test.google.com".to_owned(), 443);
    assert!(provider.search(&sess));
    assert!(!provider.search(&Session::to_domain("google.org")));
}

#[test]
fn test_file_provider_with_inline_rules() {
    let mut provider = provider(RuleSetBehavior::Domain, &["+.google.com"]);
    let content = match provider.parse_text("twitter.com") {
        Ok(content) => content,
        Err(e) => panic!("{:?}", e),
    };
    provider.update(content, false);

    assert!(provider.search(&Session::to_domain("test.google.com")));
    assert!(provider.search(&Session::to_domain("twitter.com")));
    assert_eq!(provider.changes(), 1);
    assert_eq!(provider.name(), "test");
}

#[test]
fn networks_are_matched() {
    let mut p = provider(RuleSetBehavior::Ipcidr, &["10.0.0.0/8", "nothing"]);
    p.initialize().unwrap();
    assert!(p.search(&Session::to_ip(ip("10.1.2.3"))));
    assert!(!p.search(&Session::to_ip(ip("11.1.2.3"))));
    assert_eq!(p.count(), 1);
    assert_eq!(p.get_ip_cidrs(), vec![IpNet::V4(Ipv4Net { addr: 0x0a00_0000, prefix_len: 8 })]);
    assert!(p.list_rules(10).is_empty());
    assert_eq!(p.behavior().as_text(), "IPCIDR");
    assert_eq!(p.format(), RuleSetFormat::Text);

    let mut trie = CidrTrie::new();
    assert!(trie.is_empty());
    assert!(trie.insert("fd00::/8") && trie.insert("1.2.3.4/32") && !trie.insert("x"));
    assert_eq!(trie.len(), 2);
    assert!(trie.contains(ip("fd00::1")) && trie.contains_v4(0x0102_0304));
    assert!(!trie.contains_v6(1) && !trie.contains(ip("1.2.3.5")));
}

#[test]
fn lists_are_read() {
    let inline = texts(&["z.com"]);
    assert_eq!(text_payload("a.com\n# no\n\n b.com \n", &inline).len(), 3);
    assert_eq!(yaml_payload(&texts(&["a.com"]), &inline).len(), 2);
    let p = provider(RuleSetBehavior::Domain, &[]);
    assert!(matches!(p.parse_yaml(&texts(&["a.com"])), Ok(RuleContent::Domain(_))));
    let mut classical = provider(RuleSetBehavior::Classical, &["NONSENSE"]);
    assert!(classical.initialize().is_err());
    assert!(p.check_format().is_ok());
    let mut classical = provider(RuleSetBehavior::Classical, &["DOMAIN,a.com", "DOMAIN,b.com"]);
    classical.initialize().unwrap();
    assert_eq!(classical.list_rules(1), texts(&["DOMAIN,a.com"]));
}

#[test]
fn bytes_are_read_as_the_format_says() {
    let make = |behavior, format| RuleProviderImpl::new("p".to_string(), behavior, format, None);
    let text = make(RuleSetBehavior::Domain, RuleSetFormat::Text);
    assert!(matches!(text.read("# \u{e9}\na.com".as_bytes()), Ok(ReadStep::Done(_))));
    match text.read(&[b'a', 0xff]) {
        Err(Error::InvalidConfig(e)) => assert_eq!(
            e,
            "invalid utf-8 in text rule provider p: invalid utf-8 sequence of 1 bytes from index 1"
        ),
        _ => panic!("not UTF-8"),
    }
    let yaml = make(RuleSetBehavior::Domain, RuleSetFormat::Yaml);
    assert!(matches!(yaml.read(&[0xff]), Ok(ReadStep::Yaml)));
    assert_eq!(yaml.yaml_error("x").message(), "rule provider parse error (yaml) p: x");
    let packed = make(RuleSetBehavior::Classical, RuleSetFormat::Mrs);
    assert!(matches!(packed.read(&[]), Err(Error::InvalidConfig(_))));
    assert!(matches!(make(RuleSetBehavior::Ipcidr, RuleSetFormat::Mrs).read(&[]), Ok(ReadStep::Mrs)));
    match make(RuleSetBehavior::Classical, RuleSetFormat::Text).parse_text("DOMAIN,a\nX") {
        Err(e) => assert_eq!(e.message(), "invalid rule line: X"),
        Ok(_) => panic!("no payload"),
    }
}

#[test]
fn classical_rules_are_read() {
    let rule = ClassicalRule::parse("IP-CIDR,10.0.0.0/8,no-resolve").ok().unwrap();
    assert!(rule.apply(&Session::to_ip(ip("10.0.0.1"))));
    assert!(!rule.apply(&Session::to_ip(ip("11.0.0.1"))));
    assert!(!rule.should_resolve_ip());
    assert!(ClassicalRule::parse("IP-CIDR,10.0.0.0/8").ok().unwrap().should_resolve_ip());
    let name = ClassicalRule::parse("PROCESS-NAME,curl").ok().unwrap();
    assert!(name.should_resolve_process());
    assert!(ClassicalRule::parse("x").is_err());
}

#[test]
fn checks_wait_for_their_turn() {
    let mut check = HealthCheck::new(texts(&["a"]), "http://x".to_string(), 60, true, 0);
    assert!(check.auto());
    assert!(!check.tick(59_999));
    check.touch(30_000);
    assert!(!check.tick(60_000));
    assert!(check.tick(90_000));
    assert_eq!(check.last_check, 30_000);
    check.touch(95_000);
    check.checked(90_000);
    assert_eq!(check.last_check, 90_000);
    check.update(texts(&["b"]));
    assert_eq!(check.proxies, texts(&["b"]));
    let eager = HealthCheck::new(vec![], "http://x".to_string(), 0, false, 0);
    assert!(eager.tick(1) && !eager.auto());
}

#[test]
fn urls_are_read_as_they_are_asked_for() {
    assert_eq!(read_url("http://a.com"), Some("http://a.com/".to_string()));
    assert_eq!(read_url("http://a.com/x?y"), Some("http://a.com/x?y".to_string()));
    assert_eq!(read_url("http://a b"), None);
}
