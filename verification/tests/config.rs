use clash_app::dns::collector::DnsCollector;
use clash_app::dns::config::{
    parse_edns_client_subnet, parse_listen, parse_listen_addr, Config, DNSListen, DNSMode, Def,
    DnsDef, DnsListenDef, EdnsClientSubnetDef, FallbackFilter, FixedTtl, HostDef, Hosts,
    TlsListenDef,
};
use clash_app::dns::fakeip::FakeIpFilterMode;
use clash_app::dns::nameserver::{DNSNetMode, NameServer, PolicyDef};
use clash_app::dns::upstream_pool::UpstreamEntry;
use clash_app::error::Error;
use clash_app::ip::{parse_ip, parse_socket_addr, IpAddr, IpNet, Ipv4Net, Ipv6Net};
use clash_app::net::{Machine, NetworkInterface, Platform};
use clash_app::uri::Host;

fn machine() -> Machine {
    Machine { interfaces: vec![], platform: Platform::Linux }
}

fn texts(list: &[&str]) -> Vec<String> {
    list.iter().map(|s| s.to_string()).collect()
}

fn ip(s: &str) -> IpAddr {
    parse_ip(s).unwrap()
}

fn message<T>(res: Result<T, Error>) -> String {
    match res {
        Err(Error::InvalidConfig(m)) => m,
        Err(Error::Operation(m)) => m,
        Err(Error::DNSError(m)) => m,
        Ok(_) => panic!("an error was expected"),
    }
}

fn entry(ns: &NameServer) -> UpstreamEntry {
    match UpstreamEntry::from_nameserver(ns) {
        Ok(entry) => entry,
        Err(e) => panic!("{:?}", e),
    }
}

fn def() -> Def {
    Def {
        dns: DnsDef {
            enable: true,
            ipv6: true,
            nameserver: texts(&["114.114.114.114"]),
            fallback: vec![],
            fallback_filter: FallbackFilter {
                geo_ip: true,
                geo_ip_code: "CN".to_string(),
                ip_cidr: vec![],
                domain: vec![],
            },
            listen: None,
            enhanced_mode: DNSMode::FakeIp,
            default_nameserver: texts(&["8.8.8.8"]),
            proxy_server_nameserver: vec![],
            fake_ip_range: "198.18.0.1/16".to_string(),
            fake_ip_range6: "fdfe::/64".to_string(),
            fake_ip_filter: texts(&["+.lan"]),
            fake_ip_filter_mode: FakeIpFilterMode::Blacklist,
            fake_ip_ttl: 1,
            black_filter: vec![],
            use_hosts: true,
            nameserver_policy: vec![],
            edns_client_subnet: None,
            respect_rules: false,
            optimistic_cache_ttl: 0,
            fixed_domain_ttl: vec![FixedTtl { domain: "a.com".to_string(), ttl: 5 }],
            stale_cache_retention: 30,
        },
        ipv6: true,
        routing_mark: Some(7),
        hosts: vec![],
        store_fake_ip: true,
        store_smart_stats: false,
    }
}

#[test]
fn test_dns_collector_deduplication() {
    let mut collector = DnsCollector::new(&vec![]);

    collector.record("example.com", true);
    collector.record("EXAMPLE.COM.", true);
    collector.record("google.com", false);
    collector.record("127.0.0.1", false);

    assert_eq!(collector.seen_count(), 2);

    let lines = collector.take_pending();
    assert_eq!(lines.len(), 2);
    assert!(lines.contains(&"example.com fakeip".to_string()));
    assert!(lines.contains(&"google.com realip".to_string()));

    assert!(collector.take_pending().is_empty());
}

#[test]
fn test_dns_collector_existing_file() {
    let mut collector = DnsCollector::new(&texts(&["existing.com realip", "another.org fakeip"]));
    assert_eq!(collector.seen_count(), 2);

    collector.record("existing.com", true);
    collector.record("newdomain.com", false);

    assert_eq!(collector.seen_count(), 3);

    let lines = collector.take_pending();
    assert_eq!(lines, texts(&["newdomain.com realip"]));
}

#[test]
fn collector_skips_comments_and_empty_lines() {
    let collector = DnsCollector::new(&texts(&["# a comment", "", "  A.com,fakeip", "a.com realip"]));
    assert_eq!(collector.seen_count(), 1);
}

#[test]
fn parse_nameserver_ipv6_without_scheme() {
    let servers = texts(&["2400:3200::1"]);
    let ns = Config::parse_nameserver(&servers, &machine()).expect("parse failed");
    assert_eq!(ns.len(), 1);
    assert_eq!(ns[0].host.as_text(), "[2400:3200::1]");
    assert_eq!(ns[0].port, 53);
    assert_eq!(ns[0].net, DNSNetMode::Udp);
    let written: Vec<char> = format!("{}:{}", ns[0].host.as_text(), ns[0].port).chars().collect();
    assert!(parse_socket_addr(&written).is_some());
}

#[test]
fn parse_nameserver_ipv6_with_brackets_and_port() {
    let servers = texts(&["[2400:3200::1]:5353"]);
    let ns = Config::parse_nameserver(&servers, &machine()).expect("parse failed");
    assert_eq!(ns.len(), 1);
    assert_eq!(ns[0].host.as_text(), "[2400:3200::1]");
    assert_eq!(ns[0].port, 5353);
    assert_eq!(ns[0].net, DNSNetMode::Udp);
    let written: Vec<char> = format!("{}:{}", ns[0].host.as_text(), ns[0].port).chars().collect();
    let sock = parse_socket_addr(&written).unwrap();
    assert_eq!(sock.ip, ip("2400:3200::1"));
    assert_eq!(sock.port, 5353);
}

#[test]
fn parse_nameserver_policy_with_geosite_and_ruleset() {
    let policy = vec![
        PolicyDef {
            domain: "geosite:cn,private".to_string(),
            servers: texts(&["114.114.114.114", "223.5.5.5"]),
        },
        PolicyDef { domain: "rule-set:adblock".to_string(), servers: texts(&["1.1.1.1"]) },
        PolicyDef { domain: "+.google.com".to_string(), servers: texts(&["8.8.8.8"]) },
    ];

    let res = Config::parse_nameserver_policy(&policy, &machine());
    assert!(res.is_ok());
    let list = res.unwrap();
    assert_eq!(list.len(), 3);
    let of = |domain: &str| list.iter().find(|p| p.domain == domain).unwrap();
    assert_eq!(of("geosite:cn,private").nameservers.len(), 2);
    assert_eq!(of("rule-set:adblock").nameservers.len(), 1);
}

#[test]
fn parse_nameserver_with_unicode_proxy() {
    let servers = texts(&[
        "https://8.8.8.8/dns-query#proxy=🚀 节点选择",
        "tls://1.1.1.1:853#🚀 节点选择",
        "https://1.1.1.1/dns-query#proxy=%F0%9F%9A%80%20%E8%8A%82%E7%82%B9%E9%80%89%E6%8B%A9",
    ]);
    let ns = Config::parse_nameserver(&servers, &machine()).expect("parse failed");
    assert_eq!(ns.len(), 3);
    assert_eq!(ns[0].proxy.as_deref(), Some("🚀 节点选择"));
    assert_eq!(ns[1].proxy.as_deref(), Some("🚀 节点选择"));
    assert_eq!(ns[2].proxy.as_deref(), Some("🚀 节点选择"));
}

#[test]
fn test_custom_doh_path_parsing() {
    let servers = texts(&["https://dns.nextdns.io/abcdef", "h3://dns.adguard-dns.com/dns-query"]);
    let nss = Config::parse_nameserver(&servers, &machine()).unwrap();
    assert_eq!(nss[0].path.as_deref(), Some("/abcdef"));
    assert_eq!(nss[1].path.as_deref(), Some("/dns-query"));

    let entry0 = entry(&nss[0]);
    assert_eq!(entry0.endpoint.path, "/abcdef");

    let entry1 = entry(&nss[1]);
    assert_eq!(entry1.endpoint.path, "/dns-query");
}

#[test]
fn every_scheme_has_its_port() {
    let servers = texts(&[
        "udp://1.1.1.1",
        "tcp://1.1.1.1",
        "tls://1.1.1.1",
        "https://1.1.1.1",
        "dhcp://en0",
        "system",
        "h3://1.1.1.1",
    ]);
    let ns = Config::parse_nameserver(&servers, &machine()).unwrap();
    let ports: Vec<u16> = ns.iter().map(|n| n.port).collect();
    assert_eq!(ports, vec![53, 53, 853, 443, 0, 443]);
    assert!(matches!(ns[4].host, Host::Domain(_)));
    assert_eq!(ns[3].path, None);
}

#[test]
fn bad_servers_are_named() {
    let m = machine();
    assert_eq!(
        message(Config::parse_nameserver(&texts(&["ftp://1.1.1.1"]), &m)),
        "DNS nameserver [0] unsupported scheme: ftp"
    );
    assert_eq!(
        message(Config::parse_nameserver(&texts(&["1.1.1.1", "udp://"]), &m)),
        "invalid dns server: no host found in udp://"
    );
    assert_eq!(
        message(Config::parse_nameserver(&texts(&["udp://[::1"]), &m)),
        "invalid dns server: udp://[::1"
    );
    assert_eq!(
        message(Config::parse_nameserver(&texts(&["1.1.1.1#interface=nowhere"]), &m)),
        "DNS nameserver [0] invalid interface: nowhere"
    );
    assert_eq!(
        message(Config::parse_nameserver(&texts(&["1.1.1.1#interface=auto"]), &m)),
        "DNS nameserver [auto] no outbound interface found"
    );
}

#[test]
fn an_interface_is_found_by_name() {
    let m = Machine {
        interfaces: vec![NetworkInterface {
            name: "eth7".to_string(),
            addr: vec![],
            mac_addr: None,
            index: 4,
        }],
        platform: Platform::Linux,
    };
    let ns = Config::parse_nameserver(&texts(&["1.1.1.1#interface=eth7"]), &m).unwrap();
    assert_eq!(ns[0].interface.as_ref().unwrap().name, "eth7");
    assert_eq!(ns[0].interface.as_ref().unwrap().index, 4);
    assert_eq!(ns[0].proxy, None);
}

#[test]
fn a_config_is_read() {
    let c = Config::try_from(&def(), &machine()).unwrap();
    assert!(c.enable && c.ipv6);
    assert_eq!(c.nameserver.len(), 1);
    assert_eq!(c.fake_ip_range.prefix_len, 16);
    assert_eq!(IpAddr::V4(c.fake_ip_range.addr), ip("198.18.0.1"));
    assert_eq!(IpAddr::V6(c.fake_ip_range6.addr), ip("fdfe::"));
    assert_eq!(c.fw_mark, Some(7));
    assert_eq!(c.fixed_domain_ttl[0].ttl, 5);
    assert_eq!(c.stale_cache_retention, 30);
    assert!(c.proxy_server_nameserver.is_none());
    assert_eq!(c.hosts.unwrap().search("localhost"), Some(ip("127.0.0.1")));
}

#[test]
fn ipv6_needs_both_switches() {
    let mut d = def();
    d.ipv6 = false;
    assert!(!Config::try_from(&d, &machine()).unwrap().ipv6);
    d.ipv6 = true;
    d.dns.ipv6 = false;
    assert!(!Config::try_from(&d, &machine()).unwrap().ipv6);
}

#[test]
fn bad_configs_are_refused() {
    let m = machine();
    let mut d = def();
    d.dns.nameserver = vec![];
    assert_eq!(message(Config::try_from(&d, &m)), "dns enabled, no nameserver specified");

    let mut d = def();
    d.dns.default_nameserver = vec![];
    assert_eq!(message(Config::try_from(&d, &m)), "default nameserver empty");

    let mut d = def();
    d.dns.default_nameserver = texts(&["dns.google"]);
    assert_eq!(message(Config::try_from(&d, &m)), "default dns must be ip address");

    let mut d = def();
    d.dns.proxy_server_nameserver = texts(&["system"]);
    assert_eq!(
        message(Config::try_from(&d, &m)),
        "proxy-server-nameserver has no usable entries (all skipped)"
    );

    let mut d = def();
    d.dns.fake_ip_range = "198.18.0.1".to_string();
    assert_eq!(message(Config::try_from(&d, &m)), "invalid fake ipv4 range");

    let mut d = def();
    d.dns.fake_ip_range6 = "198.18.0.1/16".to_string();
    assert_eq!(message(Config::try_from(&d, &m)), "invalid fake ipv6 range");

    let mut d = def();
    d.hosts = vec![HostDef { host: "a.com".to_string(), ip: "nowhere".to_string() }];
    assert_eq!(
        message(Config::try_from(&d, &m)),
        "invalid `hosts` entry: invalid IP address syntax"
    );
    d.dns.use_hosts = false;
    assert!(Config::try_from(&d, &m).is_ok());
}

#[test]
fn hosts_are_searched() {
    let list = vec![
        HostDef { host: "a.com".to_string(), ip: "1.2.3.4".to_string() },
        HostDef { host: "+.b.com".to_string(), ip: "::1".to_string() },
    ];
    let hosts = Config::parse_hosts(&list).unwrap();
    assert_eq!(hosts.search("a.com"), Some(ip("1.2.3.4")));
    assert_eq!(hosts.search("x.b.com"), Some(ip("::1")));
    assert_eq!(hosts.search("localhost"), Some(ip("127.0.0.1")));
    assert_eq!(hosts.search("c.com"), None);
    assert_eq!(Hosts::localhost().search("a.com"), None);
}

#[test]
fn fallback_networks_are_read() {
    let nets = Config::parse_fallback_ip_cidr(&texts(&["10.0.0.0/8", "fd00::/8"])).unwrap();
    assert_eq!(
        nets,
        vec![
            IpNet::V4(Ipv4Net { addr: 0x0a00_0000, prefix_len: 8 }),
            IpNet::V6(Ipv6Net { addr: 0xfd << 120, prefix_len: 8 }),
        ]
    );
    assert!(Config::parse_fallback_ip_cidr(&texts(&["10.0.0.0/33"])).is_err());
}

#[test]
fn listen_addresses_are_read() {
    let a = parse_listen_addr(":5353").unwrap();
    assert_eq!((a.ip, a.port), (ip("0.0.0.0"), 5353));
    let b = parse_listen_addr("[::1]:53").unwrap();
    assert_eq!((b.ip, b.port), (ip("::1"), 53));
    assert_eq!(message(parse_listen_addr("5353")), "invalid dns listen address: 5353");

    let l = parse_listen(&DNSListen::Multiple(DnsListenDef {
        udp: Some("127.0.0.1:53".to_string()),
        tcp: None,
        doh: Some(TlsListenDef {
            addr: ":443".to_string(),
            ca_cert: Some("c".to_string()),
            ca_key: None,
            hostname: Some("h".to_string()),
        }),
        dot: None,
        doh3: None,
    }))
    .unwrap();
    assert_eq!(l.udp.unwrap().port, 53);
    assert!(l.tcp.is_none());
    let doh = l.doh.unwrap();
    assert_eq!(doh.addr.port, 443);
    assert_eq!(doh.ca_cert.as_deref(), Some("c"));
    assert_eq!(doh.hostname.as_deref(), Some("h"));
    assert!(parse_listen(&DNSListen::Udp("x".to_string())).is_err());
}

#[test]
fn client_subnets_are_read() {
    let s = parse_edns_client_subnet(&EdnsClientSubnetDef {
        ipv4: Some("1.2.3.0/24".to_string()),
        ipv6: None,
    })
    .unwrap();
    assert_eq!(s.ipv4, Some(Ipv4Net { addr: 0x0102_0300, prefix_len: 24 }));
    assert_eq!(s.ipv6, None);
    let bad = |v4: Option<&str>, v6: Option<&str>| {
        message(parse_edns_client_subnet(&EdnsClientSubnetDef {
            ipv4: v4.map(|s| s.to_string()),
            ipv6: v6.map(|s| s.to_string()),
        }))
    };
    assert_eq!(bad(Some("x"), None), "invalid edns-client-subnet ipv4 network: x");
    assert_eq!(bad(None, Some("y")), "invalid edns-client-subnet ipv6 network: y");
    assert_eq!(bad(None, None), "edns-client-subnet requires at least one of ipv4/ipv6");
}
