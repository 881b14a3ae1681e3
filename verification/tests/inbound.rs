use clash_app::inbound::manager::{
    load_inbound_provider, HandleEntry, InboundManager, InboundProviderDef,
    Ports, ProviderSource,
};
use clash_app::inbound::network_listener::{
    build_handler, build_network_listeners, listen_with_rebind_retry, HandlerKind, ListenOutcome,
    ListenerTransport,
};
use clash_app::inbound::opts::{CommonInboundOpts, InboundDetail, InboundOpts, InboundUser};
use clash_app::ip::{parse_ip, IpAddr};

fn ip(s: &str) -> IpAddr {
    parse_ip(s).unwrap()
}

fn opts(name: &str, port: u16, detail: InboundDetail) -> InboundOpts {
    InboundOpts {
        common_opts: CommonInboundOpts {
            name: name.to_string(),
            listen: ip("127.0.0.1"),
            allow_lan: false,
            port,
            fw_mark: None,
        },
        detail,
        users: vec![],
    }
}

fn user(name: &str) -> InboundUser {
    InboundUser { name: name.to_string(), password: "p".to_string() }
}

fn anytls(name: &str, port: u16, users: &[&str]) -> InboundOpts {
    let mut made = opts(
        name,
        port,
        InboundDetail::Anytls {
            password: "x".to_string(),
            certificate: None,
            private_key: None,
            fallback: None,
        },
    );
    made.users = users.iter().map(|u| user(u)).collect();
    made
}

fn attempts(failures_before_success: usize, error: ListenOutcome) -> (usize, bool) {
    let mut attempt = 0;
    loop {
        let outcome =
            if attempt < failures_before_success { error } else { ListenOutcome::Finished };
        match listen_with_rebind_retry(attempt, outcome) {
            Some(_) => attempt += 1,
            None => return (attempt + 1, outcome == ListenOutcome::Finished),
        }
    }
}

#[test]
fn retries_transient_address_in_use() {
    assert_eq!(attempts(2, ListenOutcome::AddrInUse), (3, true));
}

#[test]
fn does_not_retry_other_bind_errors() {
    assert_eq!(attempts(usize::MAX, ListenOutcome::Failed), (1, false));
}

#[test]
fn an_address_that_stays_in_use_is_given_up() {
    assert_eq!(attempts(usize::MAX, ListenOutcome::AddrInUse), (4, false));
    assert_eq!(listen_with_rebind_retry(0, ListenOutcome::AddrInUse), Some(10));
    assert_eq!(listen_with_rebind_retry(2, ListenOutcome::AddrInUse), Some(40));
}

#[test]
fn handlers_are_planned() {
    let plan = build_handler(&opts("h", 80, InboundDetail::Http), true).unwrap();
    assert_eq!((plan.port, plan.listen, plan.takes_users), (80, ip("127.0.0.1"), false));
    assert!(plan.authenticates);
    assert!(build_handler(&opts("t", 80, InboundDetail::TProxy { udp: true }), true).is_some());
    assert!(build_handler(&opts("t", 80, InboundDetail::TProxy { udp: true }), false).is_none());
    let plan = build_handler(&anytls("a", 80, &["u"]), true).unwrap();
    match plan.kind {
        HandlerKind::Anytls { users, .. } => assert_eq!(users[0].name, "u"),
        other => panic!("{:?}", other),
    }
    let detail = InboundDetail::Shadowsocks {
        udp: true,
        cipher: "aes-128-gcm".to_string(),
        password: "pw".to_string(),
    };
    match build_handler(&opts("s", 80, detail), false).unwrap().kind {
        HandlerKind::Shadowsocks { udp, cipher, password, users } => {
            assert_eq!((udp, cipher.as_str(), password.as_str()), (true, "aes-128-gcm", "pw"));
            assert!(users.is_empty());
        }
        other => panic!("{:?}", other),
    }
    let detail = InboundDetail::Tunnel {
        network: vec!["tcp".to_string()],
        target: "example.com:80".to_string(),
    };
    match build_handler(&opts("t", 80, detail), false).unwrap().kind {
        HandlerKind::Tunnel { network, target } => {
            assert_eq!((network, target.as_str()), (vec!["tcp".to_string()], "example.com:80"));
        }
        other => panic!("{:?}", other),
    }
    assert_eq!(
        build_network_listeners(true, true),
        Some(vec![ListenerTransport::Tcp, ListenerTransport::Udp])
    );
    assert_eq!(build_network_listeners(false, true), Some(vec![ListenerTransport::Udp]));
    assert_eq!(build_network_listeners(false, false), None);
}

#[test]
fn ports_are_told_and_changed() {
    let mut m = InboundManager::new(vec![
        opts("http", 7890, InboundDetail::Http),
        opts("socks", 7891, InboundDetail::Socks { udp: true }),
    ]);
    let ports = m.get_ports();
    assert_eq!((ports.port, ports.socks_port, ports.mixed_port), (Some(7890), Some(7891), None));
    assert!(m.change_ports(Ports { port: Some(8000), ..Ports::default() }));
    let ports = m.get_ports();
    assert_eq!(ports.port, Some(8000));
    assert!(!m.change_ports(Ports { port: Some(8000), ..m.get_ports() }));
}

#[test]
fn listeners_start_and_stop() {
    let mut m = InboundManager::new(vec![
        opts("http", 7890, InboundDetail::Http),
        anytls("tls", 7891, &["u"]),
    ]);
    assert!(!m.start_plan(0).users_tx && m.start_plan(1).users_tx);
    assert!(m.start_plan(0).task_name.contains("http"));
    m.started(0, Some(11));
    m.started(1, Some(12));
    let list = m.get_listeners(&vec![12]);
    assert_eq!(list.len(), 2);
    assert_eq!((list[0].name.as_str(), list[0].inbound_type.as_str()), ("http", "http"));
    assert!(list[0].active && !list[1].active);
    let mut stopped = m.stop_all_listeners();
    stopped.sort();
    assert_eq!(stopped, vec![11, 12]);
    assert!(m.get_listeners(&vec![]).iter().all(|l| !l.active));
}

#[test]
fn the_network_can_be_let_in() {
    let mut m = InboundManager::new(vec![opts("http", 7890, InboundDetail::Http)]);
    assert!(!m.get_allow_lan());
    m.set_allow_lan(true);
    assert!(m.get_allow_lan());
    assert_eq!(m.get_bind_address(), ip("127.0.0.1"));
    m.set_bind_address(ip("0.0.0.0"));
    assert_eq!(m.get_bind_address(), ip("0.0.0.0"));
}

#[test]
fn a_provider_changes_its_listeners() {
    let mut m = InboundManager::new(vec![]);
    let first = m.update_provider("p", vec![anytls("a", 1, &["u"]), anytls("b", 2, &["u"])]);
    assert_eq!((first.kept.len(), first.added.len(), first.removed.len()), (0, 2, 0));
    let started: Vec<HandleEntry> = first
        .added
        .into_iter()
        .enumerate()
        .map(|(i, opts)| HandleEntry {
            users_tx: InboundManager::provider_start_plan(&opts).users_tx,
            opts,
            handle: Some(i as u64),
        })
        .collect();
    m.finish_update("p", first.kept, started);
    assert_eq!(m.get_listeners(&vec![]).len(), 2);

    let second = m.update_provider("p", vec![anytls("b", 2, &["u", "v"]), anytls("c", 3, &[])]);
    assert_eq!((second.kept.len(), second.added.len(), second.removed.len()), (1, 1, 1));
    assert_eq!(second.told, vec![0]);
    assert_eq!(second.kept[0].opts.users.len(), 2);
    assert_eq!(second.removed[0].handle, Some(0));
    m.finish_update("p", second.kept, vec![]);
    assert_eq!(m.get_listeners(&vec![]).len(), 1);
}

#[test]
fn the_same_listener_with_other_users_is_the_same() {
    assert!(anytls("a", 1, &["u"]).same(&anytls("a", 1, &["v"])));
    assert!(!anytls("a", 1, &["u"]).same(&anytls("a", 2, &["u"])));
    assert!(anytls("a", 1, &[]).takes_users());
    assert_eq!(opts("r", 1, InboundDetail::Redir).kind_name(), "redir");
}

#[test]
fn providers_come_from_the_network_or_a_file() {
    let http = InboundProviderDef::Http {
        url: "http://a.com/x".to_string(),
        path: None,
        interval: 60,
    };
    match load_inbound_provider(&http, "d1").unwrap() {
        ProviderSource::Http { uri, path, interval } => {
            assert_eq!(uri, "http://a.com/x");
            assert!(path.contains("d1"));
            assert_eq!(interval, 60);
        }
        other => panic!("{:?}", other),
    }
    let bad = InboundProviderDef::Http { url: "a b".to_string(), path: None, interval: 60 };
    assert!(load_inbound_provider(&bad, "d1").is_none());
    let file = InboundProviderDef::File { path: "p.yaml".to_string(), interval: None };
    assert!(matches!(
        load_inbound_provider(&file, "d1"),
        Some(ProviderSource::File { path, interval: 0 }) if path == "p.yaml"
    ));
}
