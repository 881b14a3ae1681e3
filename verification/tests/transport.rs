use clash_app::dns::config::EdnsClientSubnet;
use clash_app::dns::ecs::{EcsQuery, EcsWireError};
use clash_app::dns::endpoint::{
    pick_version, AddrsStep, DnsEndpoint, DnsProtocol, DnsStrategy, EndpointError,
};
use clash_app::dns::framing::{
    body_length, read_length_prefixed, write_length_prefixed, FrameError,
};
use clash_app::dns::nameserver::{DNSNetMode, NameServer};
use clash_app::dns::query::{build_dns_query_wire_with_id, DnsName, QType};
use clash_app::dns::rule_dispatch::{Network, RuleDispatch};
use clash_app::dns::singleflight::{
    FlightKey, FlightLeader, FlightRole, Singleflight, MAX_ACTIVE_FLIGHTS, MAX_WAITERS_PER_FLIGHT,
};
use clash_app::dns::transport::dial::{dial_error, dial_step, DialStep};
use clash_app::dns::transport::lifecycle::{AcquireStep, CloseStep, LifecycleSlot};
use clash_app::dns::transport::message::{restore_id, zero_id};
use clash_app::dns::transport::doh::{
    build_doh_request, doh_content_length, finish_doh_response, DnsMessageBody, DohError,
};
use clash_app::dns::transport::pipelined::{PipelineError, PipelinedSession};
use clash_app::dns::transport::retry::{exchange_with_retry, RetryStep};
use clash_app::dns::transport::udp_pool::{UdpPool, UdpPoolError};
use clash_app::dns::upstream_pool::{
    choose_outbound, get_pooled_transport, query_entry, udp_attempt_addresses, OutboundChoice,
    OutgoingQuery, QueryStep, TransportKey, UdpState, UpstreamEntry, UpstreamError, UpstreamTable,
};
use clash_app::dns::wire::{question_end, read_u16, skip_dns_name};
use clash_app::ip::{parse_ip, IpAddr, Ipv4Net, SocketAddr};
use clash_app::session::SocksAddr;
use clash_app::uri::Host;

fn ip(s: &str) -> IpAddr {
    parse_ip(s).unwrap()
}

fn sock(addr: &str, port: u16) -> SocketAddr {
    SocketAddr { ip: ip(addr), port, scope_id: 0 }
}

fn query_key(name: &str) -> FlightKey {
    FlightKey::Query(name.as_bytes().to_vec())
}

fn leader_of(role: FlightRole) -> FlightLeader {
    match role {
        FlightRole::Leader(leader) => leader,
        _ => panic!("expected leader"),
    }
}

fn build_test_query(id: u16, domain: &str) -> Vec<u8> {
    build_dns_query_wire_with_id(id, &DnsName::from_domain(domain).unwrap(), QType::A)
}

fn server(net: DNSNetMode, host: Host, proxy: Option<&str>) -> NameServer {
    NameServer {
        net,
        host,
        port: 53,
        path: None,
        interface: None,
        proxy: proxy.map(|s| s.to_string()),
    }
}

fn entry(ns: &NameServer) -> UpstreamEntry {
    match UpstreamEntry::from_nameserver(ns) {
        Ok(entry) => entry,
        Err(e) => panic!("{:?}", e),
    }
}

#[test]
fn test_singleflight_leader_waiter_coalesce_and_publish() {
    let mut sf = Singleflight::new();
    let template = vec![1u8, 2, 3];

    let leader = leader_of(sf.acquire(query_key("example.com")));
    assert_eq!(sf.active_len(), 1);

    assert!(matches!(sf.acquire(query_key("example.com")), FlightRole::Waiter(_)));
    assert!(matches!(sf.acquire(query_key("example.com")), FlightRole::Waiter(_)));

    assert_eq!(sf.publish(&leader, template.clone()), 2);

    match sf.acquire(query_key("example.com")) {
        FlightRole::Ready(ready) => assert_eq!(ready, template),
        _ => panic!("expected ready"),
    }

    assert_eq!(sf.finish(leader), 0);
    assert_eq!(sf.active_len(), 0);

    let counters = sf.counters();
    assert_eq!(counters.leaders, 1);
    assert_eq!(counters.waiters, 3);
    assert_eq!(counters.amplification_avoided, 2);
    assert_eq!(counters.aborts, 0);
}

#[test]
fn test_singleflight_leader_abort() {
    let mut sf = Singleflight::new();

    let leader = leader_of(sf.acquire(query_key("abort.com")));
    assert!(matches!(sf.acquire(query_key("abort.com")), FlightRole::Waiter(_)));

    assert_eq!(sf.finish(leader), 1);
    assert_eq!(sf.active_len(), 0);
    sf.waiter_retries();

    let counters = sf.counters();
    assert_eq!(counters.leaders, 1);
    assert_eq!(counters.waiters, 1);
    assert_eq!(counters.aborts, 1);
    assert_eq!(counters.retries, 1);
}

#[test]
fn test_singleflight_waiter_saturation() {
    let mut sf = Singleflight::new();
    let _leader = leader_of(sf.acquire(query_key("saturated.com")));

    for _ in 0..MAX_WAITERS_PER_FLIGHT {
        assert!(matches!(sf.acquire(query_key("saturated.com")), FlightRole::Waiter(_)));
    }

    assert!(matches!(sf.acquire(query_key("saturated.com")), FlightRole::Rejected));
    assert_eq!(sf.counters().rejections, 1);
}

#[test]
fn test_singleflight_key_saturation() {
    let mut sf = Singleflight::new();

    for i in 0..MAX_ACTIVE_FLIGHTS {
        leader_of(sf.acquire(query_key(&format!("flight-{}.com", i))));
    }
    assert_eq!(sf.active_len(), MAX_ACTIVE_FLIGHTS);

    assert!(matches!(sf.acquire(query_key("overflow.com")), FlightRole::Rejected));
    assert_eq!(sf.counters().rejections, 1);
}

#[test]
fn test_singleflight_refresh_counter() {
    let mut sf = Singleflight::new();
    let leader = leader_of(sf.acquire(FlightKey::Refresh(b"refresh.com".to_vec())));

    assert_eq!(sf.counters().refreshes, 1);
    assert_eq!(sf.counters().leaders, 0);
    sf.finish(leader);
}

#[test]
fn test_singleflight_concurrent_shards() {
    let mut sf = Singleflight::new();
    let mut leaders = Vec::new();

    for i in 0..64 {
        match sf.acquire(query_key(&format!("concurrent-{}.com", i % 8))) {
            FlightRole::Leader(leader) => leaders.push(leader),
            FlightRole::Waiter(_) => {}
            FlightRole::Ready(_) | FlightRole::Rejected => {}
        }
    }
    assert_eq!(leaders.len(), 8);
    for leader in leaders {
        sf.finish(leader);
    }

    assert_eq!(sf.active_len(), 0);
}

#[test]
fn keys_of_queries_and_refreshes_differ() {
    let a = query_key("a.com");
    let b = FlightKey::Refresh(b"a.com".to_vec());
    assert!(!a.is_refresh() && b.is_refresh());
    assert!(!a.same(&b) && a.same(&a.copy()));
}

#[test]
fn test_lifecycle_slot_fast_path_and_deduplication() {
    let mut slot = LifecycleSlot::new();
    let mut build_count = 0;

    let generation = match slot.acquire(None) {
        AcquireStep::Build(generation) => generation,
        other => panic!("{:?}", other),
    };
    for _ in 1..10 {
        assert!(matches!(slot.acquire(None), AcquireStep::Wait(_)));
    }
    build_count += 1;
    slot.publish(17);
    for _ in 1..10 {
        assert!(matches!(slot.acquire(Some(generation)), AcquireStep::Ready(17)));
    }
    assert_eq!(build_count, 1);
    assert_eq!(slot.init_count(), 1);

    assert!(matches!(slot.acquire(None), AcquireStep::Ready(17)));

    assert_eq!(slot.close(), CloseStep::Close(17));
    slot.close_complete();
    assert_eq!(slot.close_count(), 1);
    assert_eq!(slot.close(), CloseStep::Done);

    assert!(matches!(slot.acquire(None), AcquireStep::Build(_)));
    slot.publish(18);
    assert!(matches!(slot.acquire(None), AcquireStep::Ready(18)));
    assert_eq!(slot.init_count(), 2);
}

#[test]
fn a_failed_build_is_told_to_those_who_waited() {
    let mut slot = LifecycleSlot::new();
    let generation = match slot.acquire(None) {
        AcquireStep::Build(generation) => generation,
        other => panic!("{:?}", other),
    };
    slot.fail(generation, "no".to_string());
    assert!(matches!(slot.acquire(Some(generation)), AcquireStep::Failed(why) if why == "no"));
    let again = match slot.acquire(None) {
        AcquireStep::Build(generation) => generation,
        other => panic!("{:?}", other),
    };
    assert_ne!(again, generation);
    slot.cancel_build(again);
    assert!(matches!(slot.acquire(None), AcquireStep::Build(_)));
    slot.publish(1);
    assert_eq!(slot.close(), CloseStep::Close(1));
    assert_eq!(slot.close(), CloseStep::Wait);
    slot.close_abandoned();
    assert_eq!(slot.close(), CloseStep::Close(1));
}

#[test]
fn test_pipelined_multiplexing_concurrent() {
    let mut session = PipelinedSession::new();
    let mut sent = Vec::new();
    for i in 0..5u16 {
        let q = build_test_query(0x1000 + i, &format!("domain{i}.com"));
        let (id, bytes) = session.send(&q, 0).unwrap();
        let (query, _) = read_length_prefixed(&bytes).unwrap();
        assert_eq!(u16::from_be_bytes([query[0], query[1]]), id);
        sent.push((0x1000 + i, id, query));
    }
    for (orig_id, id, query) in sent.into_iter().rev() {
        let mut resp = query;
        resp[2] |= 0x80;
        let (to, message) = session.handle_response(&resp, 1).unwrap();
        assert_eq!(to, id);
        assert_eq!(u16::from_be_bytes([message[0], message[1]]), orig_id);
        assert!(session.handle_response(&resp, 2).is_none());
    }
}

#[test]
fn test_pipelined_session_eof_handling() {
    let mut session = PipelinedSession::new();
    session.mark_closed();
    assert!(session.is_closed());
    let q = build_test_query(0x1234, "example.com");
    assert_eq!(session.send(&q, 0).unwrap_err(), PipelineError::Closed);
}

#[test]
fn a_session_refuses_what_it_cannot_send() {
    let mut session = PipelinedSession::new();
    assert_eq!(session.send(&[1, 2, 3], 0).unwrap_err(), PipelineError::TooShort);
    let q = build_test_query(1, "example.com");
    assert_eq!(
        session.send(&q[..14], 0).unwrap_err(),
        PipelineError::MalformedQuestion
    );
    let (id, bytes) = session.send_with(&q, 0, &vec![77, 78]).unwrap();
    assert_eq!((id, &bytes[..4]), (77, &[0, 29, 0, 77][..]));
    session.unregister(77, 0);
    let (id, _) = session.send_with(&q, 1, &vec![77, 78]).unwrap();
    assert_eq!(id, 78);
    let mut other = build_test_query(78, "other.com");
    other[2] |= 0x80;
    assert!(session.handle_response(&other, 2).is_none());
}

#[test]
fn test_udp_pool_slot_array_exchange_concurrent() {
    let mut pool = UdpPool::new();
    let mut sent = Vec::new();
    for i in 0..10u16 {
        let q = build_test_query(0x2000 + i, &format!("domain{i}.test"));
        sent.push((0x2000 + i, pool.send(&q, 0).unwrap()));
    }
    for (orig_id, (id, query)) in sent {
        let mut resp = query;
        resp[2] |= 0x80;
        resp[7] = 1;
        resp.extend_from_slice(&[0xc0, 0x0c]);
        resp.extend_from_slice(&[0x00, 0x01, 0x00, 0x01]);
        resp.extend_from_slice(&[0x00, 0x00, 0x00, 0x3c]);
        resp.extend_from_slice(&[0x00, 0x04]);
        resp.extend_from_slice(&[1, 2, 3, 4]);
        let (to, message) = pool.handle_response(&resp, 1).unwrap();
        assert_eq!(to, id);
        assert_eq!(u16::from_be_bytes([message[0], message[1]]), orig_id);
    }
    pool.close();
    let q = build_test_query(1, "a.com");
    assert_eq!(pool.send(&q, 0).unwrap_err(), UdpPoolError::Closed);
}

#[test]
fn a_full_pool_takes_no_more() {
    let mut pool = UdpPool::new();
    let q = build_test_query(1, "a.com");
    let (first, _) = pool.send(&q, 0).unwrap();
    for _ in 1..1024 {
        pool.send(&q, 0).unwrap();
    }
    assert_eq!(pool.send(&q, 0).unwrap_err(), UdpPoolError::Saturated);
    pool.unregister(first, 0);
    assert_eq!(pool.send(&q, 1).unwrap_err(), UdpPoolError::Saturated);
    assert!(pool.send(&q, 3_001).is_ok());
    assert_eq!(pool.send(&[0; 5], 0).unwrap_err(), UdpPoolError::MalformedQuery);
}

#[test]
fn test_udp_pool_outbound_resolution() {
    let ns = server(DNSNetMode::Udp, Host::Ipv4(0x0101_0101), Some("test_proxy"));
    let e = entry(&ns);
    assert_eq!(e.outbound.as_deref(), Some("test_proxy"));
    match choose_outbound(&None, &e.outbound, false, e.protocol) {
        OutboundChoice::Named(name) => assert_eq!(name, "test_proxy"),
        other => panic!("{:?}", other),
    }
    let mut state = UdpState::new();
    assert_eq!(state.get(sock("1.1.1.1", 53), &None), None);
    assert_eq!(state.offer(sock("1.1.1.1", 53), &None, 7), (7, false));
}

#[test]
fn test_respect_rules_upstream_routing() {
    let ns = server(DNSNetMode::Udp, Host::Ipv4(0x0808_0808), None);
    let e = entry(&ns);
    let mut rd = RuleDispatch::new();
    match choose_outbound(&None, &e.outbound, true, e.protocol) {
        OutboundChoice::ByRules(network) => assert_eq!(network, Network::Udp),
        other => panic!("{:?}", other),
    }
    assert!(
        rd.resolve_outbound(&e.endpoint).is_none(),
        "an uninitialized RuleDispatch should fall back to direct"
    );
    rd.router = true;
    rd.outbound_manager = true;
    match rd.resolve_outbound(&e.endpoint) {
        Some(SocksAddr::Ip(addr, port)) => assert_eq!((addr, port), (ip("8.8.8.8"), 53)),
        other => panic!("{:?}", other),
    }
}

#[test]
fn pools_are_kept_by_address_and_outbound() {
    let mut state = UdpState::new();
    let a = sock("1.1.1.1", 53);
    let via = Some("p".to_string());
    assert_eq!(state.offer(a, &None, 1), (1, false));
    assert_eq!(state.offer(a, &None, 2), (1, true));
    assert_eq!(state.offer(a, &via, 3), (3, false));
    assert_eq!(state.current_pool(&via), None);
    state.mark_current(a, &via);
    assert_eq!(state.current(), Some(a));
    assert_eq!(state.current_pool(&via), Some((a, 3)));
    let mut all = state.take_pools();
    all.sort();
    assert_eq!(all, vec![1, 3]);
    assert_eq!(state.get(a, &None), None);
}

#[test]
fn the_address_that_worked_is_tried_first() {
    let (a, b, c) = (sock("1.1.1.1", 53), sock("2.2.2.2", 53), sock("3.3.3.3", 53));
    assert_eq!(udp_attempt_addresses(&vec![], None), None);
    assert_eq!(udp_attempt_addresses(&vec![a], None), Some((a, a)));
    assert_eq!(udp_attempt_addresses(&vec![a, b, c], Some(b)).unwrap().0, b);
    assert_ne!(udp_attempt_addresses(&vec![a, b, c], Some(b)).unwrap().1, b);
    let found = Some(Some((a, b)));
    assert_eq!(query_entry(DnsProtocol::Udp, &None, 0), QueryStep::Resolve);
    assert_eq!(query_entry(DnsProtocol::Udp, &Some(None), 0), QueryStep::NoAddresses);
    assert_eq!(query_entry(DnsProtocol::Udp, &found, 0), QueryStep::TryUdp(a));
    assert_eq!(query_entry(DnsProtocol::Udp, &found, 1), QueryStep::TryUdp(b));
    assert_eq!(query_entry(DnsProtocol::Udp, &found, 2), QueryStep::Failed);
    assert_eq!(query_entry(DnsProtocol::Tls, &None, 0), QueryStep::UseTransport);
    assert_eq!(query_entry(DnsProtocol::Tls, &None, 1), QueryStep::Failed);
}

#[test]
fn servers_are_registered_once() {
    let mut table = UpstreamTable::new();
    let ns = server(DNSNetMode::Tls, Host::Domain("dns.google".to_string()), None);
    assert!(table.register("k", &ns, &Some("p".to_string()), &None));
    assert!(table.register("k", &ns, &None, &None));
    assert_eq!(table.entries.len(), 1);
    assert_eq!(table.find("k"), Some(0));
    assert_eq!(table.entries[0].entry.outbound.as_deref(), Some("p"));
    assert_eq!(table.entries[0].entry.protocol, DnsProtocol::Tls);
    let dhcp = server(DNSNetMode::Dhcp, Host::Domain("en0".to_string()), None);
    assert!(!table.register("d", &dhcp, &None, &None));
    assert_eq!(UpstreamEntry::from_nameserver(&dhcp).err(), Some(UpstreamError::Dhcp));
}

#[test]
fn connections_are_shared_by_outbound() {
    let mut keys: Vec<TransportKey> = vec![];
    assert_eq!(get_pooled_transport(&mut keys, &None), 0);
    assert_eq!(get_pooled_transport(&mut keys, &Some("p".to_string())), 1);
    assert_eq!(get_pooled_transport(&mut keys, &None), 0);
    assert_eq!(keys.len(), 2);
}

#[test]
fn messages_are_framed() {
    let framed = write_length_prefixed(&[9, 8, 7]).unwrap();
    assert_eq!(framed, vec![0, 3, 9, 8, 7]);
    assert_eq!(read_length_prefixed(&framed), Ok((vec![9, 8, 7], 5)));
    assert_eq!(body_length(&[0, 3]), Ok(3));
    assert_eq!(body_length(&[0, 0]), Err(FrameError::EmptyMessage));
    assert_eq!(write_length_prefixed(&vec![0; 65536]).unwrap_err(), FrameError::TooLarge);
    assert!(matches!(read_length_prefixed(&[0, 3, 9]), Err(FrameError::Incomplete(_))));
}

#[test]
fn identifiers_are_hidden_and_restored() {
    let q = build_test_query(0xabcd, "a.com");
    let (hidden, id) = zero_id(&q);
    assert_eq!(&hidden[..2], &[0, 0]);
    assert_eq!(&hidden[2..], &q[2..]);
    assert_eq!(restore_id(hidden, id), q);
}

#[test]
fn an_exchange_is_tried_twice() {
    assert!(matches!(
        exchange_with_retry("doh", Ok(vec![1]), &None),
        RetryStep::Done(bytes) if bytes == vec![1]
    ));
    assert!(matches!(
        exchange_with_retry("doh", Err("a".to_string()), &None),
        RetryStep::ResetAndRetry
    ));
    assert!(matches!(
        exchange_with_retry("doh", Err("b".to_string()), &Some("a".to_string())),
        RetryStep::Failed(why) if why == "doh failed after retry: b (first: a)"
    ));
}

#[test]
fn the_time_is_shared_among_addresses() {
    assert!(matches!(dial_step(4, 0, 400, "tcp", &None), DialStep::Try(0, 100)));
    assert!(matches!(dial_step(4, 3, 90, "tcp", &None), DialStep::Try(3, 90)));
    assert!(matches!(
        dial_step(0, 0, 90, "tcp", &None),
        DialStep::GiveUp(why) if why == "tcp resolved to no addresses"
    ));
    assert!(matches!(
        dial_step(1, 1, 90, "tcp", &Some("late".to_string())),
        DialStep::GiveUp(why) if why == "late"
    ));
    assert!(dial_error("tcp", "1.1.1.1:53", "late").contains("1.1.1.1:53"));
}

#[test]
fn the_client_subnet_is_told_and_hidden() {
    let q = build_test_query(5, "a.com");
    let subnet = Ipv4Net { addr: 0x0102_0300, prefix_len: 24 };
    let ecs = EcsQuery::prepare(&q, subnet).unwrap().unwrap();
    let sent = ecs.wire().to_vec();
    assert!(sent.len() > q.len());
    assert!(sent.windows(3).any(|w| w == [1, 2, 3]));
    assert_eq!(ecs.restore_response(sent.clone()), Ok(q.clone()));
    assert!(matches!(EcsQuery::prepare(&sent, subnet), Ok(None)));
    assert_eq!(EcsQuery::prepare(&q[..13], subnet).err(), Some(EcsWireError::Malformed));
    let both = Some(EdnsClientSubnet { ipv4: Some(subnet), ipv6: None });
    let out = OutgoingQuery::prepare(&q, &both);
    assert_eq!(out.wire(), &sent[..]);
    assert_eq!(out.finish(sent), Ok(q.clone()));
    let plain = OutgoingQuery::prepare(&q, &None);
    assert_eq!(plain.wire(), &q[..]);
    assert_eq!(plain.finish(vec![1, 2]), Ok(vec![1, 2]));
}

#[test]
fn addresses_of_servers_are_read() {
    let parse = |a: &str, p: DnsProtocol| DnsEndpoint::parse(a, p, &None, DnsStrategy::default());
    let e = parse("dns.google:8443/q", DnsProtocol::Https).unwrap();
    assert_eq!((e.host.as_str(), e.port, e.path.as_str()), ("dns.google", 8443, "/q"));
    assert_eq!(e.sni, "dns.google");
    assert_eq!(parse("[::1]", DnsProtocol::Tls).unwrap().port, 853);
    assert_eq!(parse("1.1.1.1", DnsProtocol::Udp).unwrap().port, 53);
    assert_eq!(parse(" ", DnsProtocol::Udp).err(), Some(EndpointError::Empty));
    assert_eq!(parse("[::1", DnsProtocol::Udp).err(), Some(EndpointError::UnclosedBracket));
    assert_eq!(parse("a.com:x", DnsProtocol::Udp).err(), Some(EndpointError::InvalidPort));
    assert_eq!(parse("[::1]x", DnsProtocol::Udp).err(), Some(EndpointError::TrailingText));
    let named = DnsEndpoint::parse(
        "1.1.1.1",
        DnsProtocol::Tls,
        &Some("one.one".to_string()),
        DnsStrategy::Ipv4Only,
    )
    .unwrap();
    assert_eq!(named.sni, "one.one");
    let ips = vec![ip("::1"), ip("1.2.3.4")];
    assert_eq!(named.order_addrs(&ips), Some(vec![ip("1.2.3.4")]));
    assert_eq!(named.order_addrs(&vec![ip("::1")]), None);
    assert_eq!(pick_version(&ips, true), vec![ip("::1")]);
}

#[test]
fn addresses_of_servers_are_found() {
    let made = |a: &str, s: DnsStrategy| DnsEndpoint::parse(a, DnsProtocol::Tls, &None, s).unwrap();
    let at = |a: &str| SocketAddr { ip: ip(a), port: 853, scope_id: 0 };
    let literal = made("1.1.1.1", DnsStrategy::PreferIpv6);
    assert_eq!(literal.resolve_addrs(true), AddrsStep::Done(vec![at("1.1.1.1")]));
    let wrong = made("1.1.1.1", DnsStrategy::Ipv6Only);
    assert_eq!(
        wrong.resolve_addrs(false),
        AddrsStep::Failed(
            "bootstrap resolve '1.1.1.1' had no addresses matching strategy Ipv6Only".to_string()
        )
    );
    let named = made("dns.example", DnsStrategy::PreferIpv6);
    assert_eq!(named.resolve_addrs(true), AddrsStep::AskResolver);
    assert_eq!(named.resolve_addrs(false), AddrsStep::AskMachine);
    assert_eq!(
        named.on_resolved(Some(0x0102_0304), Some(1)),
        AddrsStep::Done(vec![at("::1"), at("1.2.3.4")])
    );
    assert_eq!(
        named.on_resolved(None, None),
        AddrsStep::Failed("bootstrap resolve 'dns.example' returned no addresses".to_string())
    );
    assert_eq!(
        named.on_found(&vec![]),
        AddrsStep::Failed(
            "bootstrap resolve 'dns.example' had no addresses matching strategy PreferIpv6"
                .to_string()
        )
    );
}

#[test]
fn names_are_skipped() {
    let q = build_test_query(5, "a.com");
    let mut pos: usize = 12;
    assert!(skip_dns_name(&q, &mut pos));
    assert_eq!(pos, q.len() - 4);
    assert_eq!(question_end(&q), Some(q.len()));
    assert_eq!(read_u16(&q, 0), Some(5));
    assert_eq!(read_u16(&q, q.len() - 1), None);
}

#[test]
fn streams_of_short_messages_are_given_up() {
    assert_eq!(PipelinedSession::read_loop(&[0, 11]), None);
    assert_eq!(PipelinedSession::read_loop(&[0, 12]), Some(12));
    assert_eq!(PipelinedSession::read_loop(&[255, 255]), Some(65535));
}

#[test]
fn queries_over_http_have_a_place_to_go() {
    let made = |a: &str| {
        DnsEndpoint::parse(a, DnsProtocol::Https, &None, DnsStrategy::default()).unwrap()
    };
    assert_eq!(build_doh_request(&made("dns.google:8443/q")), "https://dns.google:8443/q");
    assert_eq!(build_doh_request(&made("[::1]/dns")), "https://[::1]:443/dns");
}

#[test]
fn answers_over_http_are_looked_at() {
    let said = |s: &str| doh_content_length(&Some(s.to_string()));
    assert_eq!(doh_content_length(&None), Ok(None));
    assert_eq!(said("65535"), Ok(Some(65535)));
    assert_eq!(said("65536"), Err(DohError::TooLarge));
    assert_eq!(said(""), Err(DohError::BadLength));
    assert_eq!(said("1x"), Err(DohError::BadLength));
    let mut body = DnsMessageBody::new();
    assert_eq!(body.push(&[1, 2]), Ok(()));
    assert_eq!(body.push(&[0; 65534]), Err(DohError::TooLarge));
    assert_eq!(body.push(&[3]), Ok(()));
    assert_eq!(body.into_bytes(), vec![1, 2, 3]);
    assert_eq!(finish_doh_response(200, vec![0, 0, 7], (8, 9)), Ok(vec![8, 9, 7]));
    assert_eq!(finish_doh_response(299, vec![1], (8, 9)), Ok(vec![1]));
    assert_eq!(finish_doh_response(404, vec![1], (8, 9)), Err(DohError::Status(404)));
    assert_eq!(finish_doh_response(200, vec![], (8, 9)), Err(DohError::Empty));
}
