use clash_app::ip::{
    parse_ip, parse_socket_addr, parse_v4, v6_host, write_ip, IpAddr, IpNet, Ipv4Net,
    Ipv6Net,
};
use clash_app::logging::{
    collect_event, find_trace_id, is_logged, line_prefix, setup_logging, span_trace_id,
    EventField, Level, LevelFilter, LogLevel, SpanField, SpanValue,
};
use clash_app::net::{
    get_interface_by_name, get_outbound_interface, get_tun_somark, set_tun_somark, Addr, Interface,
    NetConfig, NetworkInterface, OutboundInterface, Platform, V4IfAddr, V6IfAddr,
};
use clash_app::session::{Session, SocksAddr};
use clash_app::text;
use clash_app::trie::StringTrie;
use clash_app::uri::Host;

fn chars(s: &str) -> Vec<char> {
    s.chars().collect()
}

fn ip(s: &str) -> IpAddr {
    parse_ip(s).unwrap()
}

fn iface(name: &str, index: u32, v4: Option<u32>, v6: Option<u128>) -> NetworkInterface {
    let mut addr = vec![];
    if let Some(ip) = v4 {
        addr.push(Addr::V4(V4IfAddr { ip, broadcast: None, netmask: None }));
    }
    if let Some(ip) = v6 {
        addr.push(Addr::V6(V6IfAddr { ip, broadcast: None, netmask: None }));
    }
    NetworkInterface { name: name.to_string(), addr, mac_addr: None, index }
}

fn field(name: &str, value: &str) -> EventField {
    EventField { name: name.to_string(), value: value.to_string(), debug: name == "message" }
}

#[test]
fn collector_keeps_message_and_fields_inline() {
    let event = collect_event(
        Level::Info,
        None,
        &vec![
            field("message", "hello"),
            field("answer", "42"),
            field("kind", "demo"),
            field("success", "true"),
        ],
    );

    assert!(matches!(event.level, LogLevel::Info));
    assert!(event.msg.contains("hello"));
    assert!(event.msg.contains("answer=42"));
    assert!(event.msg.contains("kind=demo"));
    assert!(event.msg.contains("success=true"));
}

#[test]
fn collector_automatically_includes_trace_id() {
    let trace_id = span_trace_id(&vec![SpanField {
        name: "trace_id".to_string(),
        value: SpanValue::Unsigned(10000000),
    }]);
    let found = find_trace_id(&vec![trace_id]);
    let event =
        collect_event(Level::Info, found, &vec![field("message", "inner request log message")]);

    assert!(matches!(event.level, LogLevel::Info));
    assert!(event.msg.contains("[#10000000]"));
    assert!(event.msg.contains("inner request log message"));
    assert_eq!(line_prefix(found), "[#10000000] ");
    assert_eq!(line_prefix(None), "");
}

#[test]
fn a_trace_is_read_from_its_field() {
    let of = |name: &str, value: SpanValue| {
        span_trace_id(&vec![SpanField { name: name.to_string(), value }])
    };
    assert_eq!(of("trace_id", SpanValue::Signed(7)), Some(7));
    assert_eq!(of("trace_id", SpanValue::Signed(-7)), None);
    assert_eq!(of("other", SpanValue::Unsigned(7)), None);
    assert_eq!(find_trace_id(&vec![None, None]), None);
}

#[test]
fn logging_is_planned() {
    let plan = setup_logging(LogLevel::Debug, "/home", &Some("a.log".to_string()), false);
    assert_eq!(plan.directives, "warn,clash=debug");
    assert_eq!(plan.log_path.as_deref(), Some("/home/a.log"));
    let plan = setup_logging(LogLevel::Error, "/home", &Some("/a.log".to_string()), true);
    assert_eq!(plan.log_path.as_deref(), Some("/a.log"));
    assert_eq!(setup_logging(LogLevel::Info, "/", &None, false).log_path, None);
    assert_eq!(LogLevel::Silent.filter(), LevelFilter::Off);
    assert_eq!(LogLevel::Warning.filter(), LevelFilter::Warn);
    assert_eq!(LogLevel::of_event(Level::Trace), LogLevel::Trace);
    assert!(is_logged("clash_lib::app") && !is_logged("tokio::task"));
}

#[test]
fn an_outbound_interface_is_chosen() {
    let list = vec![
        iface("lo", 1, Some(0x7f00_0001), Some(1)),
        iface("wlan0", 3, Some(0xc0a8_0103), None),
        iface("eth0", 2, Some(0xc0a8_0102), None),
    ];
    let found = get_outbound_interface(&list, Platform::Linux).unwrap();
    assert_eq!(found.name, "eth0");
    assert_eq!(get_interface_by_name(&list, "wlan0").unwrap().index, 3);
    assert!(get_interface_by_name(&list, "nothing").is_none());
    assert!(get_outbound_interface(&vec![], Platform::Linux).is_none());
}

#[test]
fn the_default_interface_follows_the_machine() {
    let list = vec![iface("eth0", 2, Some(0xc0a8_0102), None)];
    let mut config = NetConfig::new();
    assert!(config.get_default_outbound_interface().is_none());
    config.init_net_config(&list, Platform::Linux, &None, Some(9));
    assert_eq!(config.get_default_outbound_interface().unwrap().name, "eth0");
    assert_eq!(config.tun_somark(), Some(9));
    let other = OutboundInterface::from_interface(&iface("eth1", 3, Some(0xc0a8_0103), None));
    assert!(config.update_default_outbound_interface_if_changed(other.copy()));
    assert!(!config.update_default_outbound_interface_if_changed(other));
    assert_eq!(get_tun_somark(set_tun_somark(Some(0))), Some(0));
    assert_eq!(get_tun_somark(set_tun_somark(None)), None);
}

#[test]
fn an_explicit_interface_stays() {
    let list = vec![
        iface("eth0", 2, Some(0xc0a8_0102), None),
        iface("eth1", 3, Some(0xc0a8_0103), None),
    ];
    let mut config = NetConfig::new();
    config.init_net_config(&list, Platform::Linux, &Some("eth1".to_string()), None);
    let found = get_outbound_interface(&list, Platform::Linux).unwrap();
    assert!(!config.update_default_outbound_interface_if_changed(found));
    assert_eq!(config.get_default_outbound_interface().unwrap().name, "eth1");
}

#[test]
fn interfaces_are_named_or_addressed() {
    assert_eq!(Interface::from_name("eth0").into_iface_name().as_deref(), Some("eth0"));
    assert_eq!(Interface::from_name("eth0").into_ip_addr(), None);
    assert_eq!(Interface::from_ip(ip("1.2.3.4")).into_ip_addr(), Some(ip("1.2.3.4")));
    assert_eq!(
        Interface::from_ip(ip("1.2.3.4")).into_socket_addr(),
        Some((ip("1.2.3.4"), 0))
    );
    assert_eq!(Interface::from_ip(ip("::1")).as_text(), "::1");
}

#[test]
fn addresses_are_read() {
    assert_eq!(parse_v4("1.2.3.4"), Some(0x0102_0304));
    assert_eq!(parse_v4("1.2.3"), None);
    assert_eq!(parse_v4("01.2.3.4"), None);
    assert_eq!(parse_v4("256.2.3.4"), None);
    assert_eq!(parse_ip("::ffff:1.2.3.4"), Some(IpAddr::V6(0xffff_0102_0304)));
    assert_eq!(parse_ip("1::2::3"), None);
    assert_eq!(parse_ip("2001:db8::1"), Some(IpAddr::V6(0x2001_0db8 << 96 | 1)));
    let sock = parse_socket_addr(&chars("1.2.3.4:80")).unwrap();
    assert_eq!((sock.ip, sock.port), (ip("1.2.3.4"), 80));
    assert!(parse_socket_addr(&chars("1.2.3.4:99999")).is_none());
}

#[test]
fn networks_contain_addresses() {
    let net = Ipv4Net { addr: 0x0102_03ff, prefix_len: 24 };
    assert_eq!(net.network(), 0x0102_0300);
    assert!(IpNet::V4(net).contains(&ip("1.2.3.7")));
    assert!(!IpNet::V4(net).contains(&ip("1.2.4.7")));
    assert!(!IpNet::V4(net).contains(&ip("::1")));
    let all = IpNet::V6(Ipv6Net { addr: 5, prefix_len: 0 });
    assert!(all.contains(&ip("ffff::")));
    assert_eq!(Ipv6Net { addr: 0xfd << 120 | 5, prefix_len: 8 }.network(), 0xfd << 120);
    assert_eq!(v6_host(0xfd << 120 | 5, 8), 5);
}

#[test]
fn patterns_are_searched() {
    let mut trie = StringTrie::new();
    assert!(trie.insert(&chars("a.com"), 1));
    assert!(trie.insert(&chars("*.a.com"), 2));
    assert!(trie.insert(&chars("+.b.com"), 3));
    assert!(!trie.insert(&chars("a..com"), 4));
    assert_eq!(trie.search(&chars("a.com")), Some(1));
    assert_eq!(trie.search(&chars("x.a.com")), Some(2));
    assert_eq!(trie.search(&chars("y.x.a.com")), None);
    assert_eq!(trie.search(&chars("b.com")), Some(3));
    assert_eq!(trie.search(&chars("y.x.b.com")), Some(3));
}

#[test]
fn texts_are_handled() {
    assert_eq!(text::trim(&chars("  a b ")), chars("a b"));
    assert_eq!(text::split(&chars("a,,b"), ','), vec![chars("a"), vec![], chars("b")]);
    assert_eq!(text::split_words(&chars(" a  b ")), vec![chars("a"), chars("b")]);
    assert_eq!(text::parse_number(&chars("65535"), 65535), Some(65535));
    assert_eq!(text::parse_number(&chars("65536"), 65535), None);
    assert_eq!(text::parse_number(&chars("18446744073709551616"), u64::MAX), None);
    assert_eq!(text::write_number(0), chars("0"));
    assert_eq!(text::write_number(1203), chars("1203"));
    assert_eq!(text::find(&chars("abcb"), 'b'), Some(1));
    assert_eq!(text::rfind(&chars("abcb"), 'b'), Some(3));
    assert!(text::contains(&chars("hello"), &chars("ell")));
    assert!(text::starts_with(&chars("hello"), &chars("he")));
    assert!(text::ends_with(&chars("hello"), &chars("lo")));
    assert_eq!(text::trim_end_of(&chars("a.."), '.'), chars("a"));
    assert_eq!(text::concat("a", "b"), "ab");
    assert_eq!(text::ascii_lowercase(&chars("AbÄ")), chars("abÄ"));
}

#[test]
fn destinations_are_told() {
    assert_eq!(SocksAddr::Domain("a.com".to_string(), 1).host(), "a.com");
    assert_eq!(SocksAddr::Ip(ip("1.2.3.4"), 1).host(), "1.2.3.4");
    assert_eq!(SocksAddr::Ip(ip("1.2.3.4"), 1).ip(), Some(ip("1.2.3.4")));
    assert_eq!(Session::to_domain("a.com").destination.host(), "a.com");
    assert_eq!(Host::Ipv4(0x0102_0304).as_text(), "1.2.3.4");
    assert_eq!(Host::Ipv6(1).as_text(), "[::1]");
    assert_eq!(Host::Domain("x".to_string()).copy().as_text(), "x");
}

#[test]
fn written_addresses_read_back() {
    for text in [
        "0.0.0.0",
        "9.10.99.100",
        "255.255.255.255",
        "::",
        "::1",
        "1::",
        "2001:db8::ff00:42:8329",
        "1:0:2:3:4:5:6:7",
        "::ffff:1.2.3.4",
        "ffff:ffff:ffff:ffff:ffff:ffff:ffff:ffff",
    ] {
        assert_eq!(write_ip(ip(text)), text);
    }
    assert_eq!(write_ip(ip("2001:DB8:0:0:0:0:0:1")), "2001:db8::1");
    assert_eq!(write_ip(ip("1:0:0:2:0:0:0:3")), "1:0:0:2::3");
    for i in 0..128u32 {
        for addr in [1u128 << i, !(1u128 << i), (1u128 << i) | 1, u128::MAX << i] {
            let addr = IpAddr::V6(addr);
            assert_eq!(parse_ip(&write_ip(addr)), Some(addr));
        }
    }
}
