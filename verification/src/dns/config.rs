//! The configuration of the DNS service.
use vstd::prelude::*;

use crate::dns::fakeip::FakeIpFilterMode;
use crate::dns::filters;
use crate::dns::nameserver;
use crate::dns::nameserver::{NameServer, NameServerPolicy, NameServerView, PolicyDef};
use crate::error::Error;
use crate::ip;
use crate::ip::{
    parse_ip, parse_net, parse_socket_addr, parse_v4_net, parse_v6_net, IpAddr, IpNet, Ipv4Net,
    Ipv6Net, SocketAddr,
};
use crate::net::Machine;
use crate::text;
use crate::text::to_uppercase;
use crate::trie;
use crate::trie::StringTrie;
use crate::uri::Host;

verus! {

/// How names are answered.
#[derive(Clone, Copy, Debug, PartialEq, Eq, Structural)]
pub enum DNSMode {
    Normal,
    FakeIp,
    RedirHost,
}

/// What calls for the fallback servers.
#[derive(Debug)]
pub struct FallbackFilter {
    pub geo_ip: bool,
    pub geo_ip_code: String,
    pub ip_cidr: Vec<String>,
    pub domain: Vec<String>,
}

impl FallbackFilter {
    /// The filter that a configuration describes; the country code is put in upper case.
    pub fn from_def(c: &FallbackFilter) -> (res: FallbackFilter)
        ensures
            res.geo_ip == c.geo_ip,
            res.geo_ip_code@ == text::raised(c.geo_ip_code@),
            text::string_views(res.ip_cidr@) == text::string_views(c.ip_cidr@),
            text::string_views(res.domain@) == text::string_views(c.domain@),
    {
        FallbackFilter {
            geo_ip: c.geo_ip,
            geo_ip_code: to_uppercase(c.geo_ip_code.as_str()),
            ip_cidr: text::copy_list(&c.ip_cidr),
            domain: text::copy_list(&c.domain),
        }
    }
}

/// The networks that clients are said to be in.
#[derive(Clone, Copy, Debug, PartialEq, Eq, Structural)]
pub struct EdnsClientSubnet {
    pub ipv4: Option<Ipv4Net>,
    pub ipv6: Option<Ipv6Net>,
}

/// The networks that clients are said to be in, as a configuration writes them.
#[derive(Debug)]
pub struct EdnsClientSubnetDef {
    pub ipv4: Option<String>,
    pub ipv6: Option<String>,
}

/// The networks that a configuration writes, or what is wrong with them.
pub open spec fn subnet_of(ecs: EdnsClientSubnetDef) -> Result<EdnsClientSubnet, Seq<char>> {
    if ecs.ipv4 is Some && ip::v4_net_value(ecs.ipv4.unwrap()@) is None {
        Err("invalid edns-client-subnet ipv4 network: "@ + ecs.ipv4.unwrap()@)
    } else if ecs.ipv6 is Some && ip::v6_net_value(ecs.ipv6.unwrap()@) is None {
        Err("invalid edns-client-subnet ipv6 network: "@ + ecs.ipv6.unwrap()@)
    } else if ecs.ipv4 is None && ecs.ipv6 is None {
        Err("edns-client-subnet requires at least one of ipv4/ipv6"@)
    } else {
        Ok(
            EdnsClientSubnet {
                ipv4: match ecs.ipv4 {
                    Some(s) => ip::v4_net_value(s@),
                    None => None,
                },
                ipv6: match ecs.ipv6 {
                    Some(s) => ip::v6_net_value(s@),
                    None => None,
                },
            },
        )
    }
}

fn invalid(what: &str, value: &str) -> (res: Error)
    ensures
        res is InvalidConfig,
        res.text() == what@ + value@,
{
    Error::InvalidConfig(text::concat(what, value))
}

fn bad(what: &str) -> (res: Error)
    ensures
        res is InvalidConfig,
        res.text() == what@,
{
    Error::InvalidConfig(what.to_owned())
}

/// Reads the networks that clients are said to be in. At least one must be given.
pub fn parse_edns_client_subnet(ecs: &EdnsClientSubnetDef) -> (res: Result<EdnsClientSubnet, Error>)
    ensures
        match (res, subnet_of(*ecs)) {
            (Ok(a), Ok(b)) => a == b,
            (Err(e), Err(text)) => e is InvalidConfig && e.text() == text,
            _ => false,
        },
{
    let ipv4: Option<Ipv4Net> = match &ecs.ipv4 {
        Some(value) => match parse_v4_net(value.as_str()) {
            Some(net) => Some(net),
            None => return Err(
                invalid("invalid edns-client-subnet ipv4 network: ", value.as_str()),
            ),
        },
        None => None,
    };
    let ipv6: Option<Ipv6Net> = match &ecs.ipv6 {
        Some(value) => match parse_v6_net(value.as_str()) {
            Some(net) => Some(net),
            None => return Err(
                invalid("invalid edns-client-subnet ipv6 network: ", value.as_str()),
            ),
        },
        None => None,
    };
    if ipv4.is_none() && ipv6.is_none() {
        return Err(bad("edns-client-subnet requires at least one of ipv4/ipv6"));
    }
    Ok(EdnsClientSubnet { ipv4, ipv6 })
}

/// The address that a listen text writes; one that starts with a colon listens on every IPv4
/// address.
pub open spec fn listen_value(addr: Seq<char>) -> Option<SocketAddr> {
    if addr.len() > 0 && addr[0] == ':' {
        ip::socket_value("0.0.0.0"@ + addr)
    } else {
        ip::socket_value(addr)
    }
}

/// What is said of a listen text that cannot be read.
pub open spec fn listen_complaint(addr: Seq<char>) -> Seq<char> {
    "invalid dns listen address: "@ + addr
}

/// Reads an address to listen on.
pub fn parse_listen_addr(addr: &str) -> (res: Result<SocketAddr, Error>)
    ensures
        match listen_value(addr@) {
            Some(a) => res == Ok::<SocketAddr, Error>(a),
            None => res is Err && res->Err_0 is InvalidConfig && res->Err_0.text()
                == listen_complaint(addr@),
        },
{
    let all: Vec<char> = text::chars(addr);
    let parsed: Option<SocketAddr> = if all.len() > 0 && all[0] == ':' {
        let mut full: Vec<char> = text::chars("0.0.0.0");
        text::append(&mut full, &all);
        parse_socket_addr(&full)
    } else {
        parse_socket_addr(&all)
    };
    match parsed {
        Some(a) => Ok(a),
        None => Err(invalid("invalid dns listen address: ", addr)),
    }
}

/// A listener with certificates, as a configuration writes it.
#[derive(Debug)]
pub struct TlsListenDef {
    pub addr: String,
    pub ca_cert: Option<String>,
    pub ca_key: Option<String>,
    pub hostname: Option<String>,
}

/// The listeners that a configuration asks for.
#[derive(Debug)]
pub struct DnsListenDef {
    pub udp: Option<String>,
    pub tcp: Option<String>,
    pub doh: Option<TlsListenDef>,
    pub dot: Option<TlsListenDef>,
    pub doh3: Option<TlsListenDef>,
}

/// What a configuration says of the listeners: the address of one UDP listener, or several
/// listeners.
#[derive(Debug)]
pub enum DNSListen {
    Udp(String),
    Multiple(DnsListenDef),
}

/// A listener with certificates.
#[derive(Debug)]
pub struct TlsListen {
    pub addr: SocketAddr,
    pub ca_cert: Option<String>,
    pub ca_key: Option<String>,
    pub hostname: Option<String>,
}

/// The listeners.
#[derive(Debug)]
pub struct DNSListenAddr {
    pub udp: Option<SocketAddr>,
    pub tcp: Option<SocketAddr>,
    pub doh: Option<TlsListen>,
    pub dot: Option<TlsListen>,
    pub doh3: Option<TlsListen>,
}

/// The text asks for a listener on an address that cannot be read.
pub open spec fn bad_listen(addr: Option<Seq<char>>) -> bool {
    addr matches Some(a) && listen_value(a) is None
}

/// The address of a listener with certificates.
pub open spec fn tls_addr(def: Option<TlsListenDef>) -> Option<Seq<char>> {
    match def {
        Some(d) => Some(d.addr@),
        None => None,
    }
}

/// What is wrong with the first listener that cannot be had: UDP, TCP, DoH, DoT, DoH3 in turn.
pub open spec fn listen_error(l: DNSListen) -> Option<Seq<char>> {
    match l {
        DNSListen::Udp(addr) => if listen_value(addr@) is None {
            Some(listen_complaint(addr@))
        } else {
            None
        },
        DNSListen::Multiple(m) => if bad_listen(text::opt_view(m.udp)) {
            Some(listen_complaint(m.udp.unwrap()@))
        } else if bad_listen(text::opt_view(m.tcp)) {
            Some(listen_complaint(m.tcp.unwrap()@))
        } else if bad_listen(tls_addr(m.doh)) {
            Some(listen_complaint(m.doh.unwrap().addr@))
        } else if bad_listen(tls_addr(m.dot)) {
            Some(listen_complaint(m.dot.unwrap().addr@))
        } else if bad_listen(tls_addr(m.doh3)) {
            Some(listen_complaint(m.doh3.unwrap().addr@))
        } else {
            None
        },
    }
}

/// The listener is the one that is asked for, on the address that is written.
pub open spec fn plain_is(listen: Option<SocketAddr>, def: Option<String>) -> bool {
    match def {
        Some(addr) => listen == listen_value(addr@),
        None => listen is None,
    }
}

/// The listener is the one that is asked for, on the address that is written, with the
/// certificates that are named. `named` tells whether it has a host name.
pub open spec fn tls_is(listen: Option<TlsListen>, def: Option<TlsListenDef>, named: bool) -> bool {
    match (listen, def) {
        (Some(l), Some(d)) => {
            &&& Some(l.addr) == listen_value(d.addr@)
            &&& text::opt_view(l.ca_cert) == text::opt_view(d.ca_cert)
            &&& text::opt_view(l.ca_key) == text::opt_view(d.ca_key)
            &&& text::opt_view(l.hostname) == if named {
                text::opt_view(d.hostname)
            } else {
                None
            }
        },
        (None, None) => true,
        _ => false,
    }
}

/// The listeners are those that are asked for.
pub open spec fn listen_is(listen: DNSListenAddr, l: DNSListen) -> bool {
    match l {
        DNSListen::Udp(addr) => {
            &&& listen.udp == listen_value(addr@)
            &&& listen.tcp is None
            &&& listen.doh is None
            &&& listen.dot is None
            &&& listen.doh3 is None
        },
        DNSListen::Multiple(m) => {
            &&& plain_is(listen.udp, m.udp)
            &&& plain_is(listen.tcp, m.tcp)
            &&& tls_is(listen.doh, m.doh, true)
            &&& tls_is(listen.dot, m.dot, false)
            &&& tls_is(listen.doh3, m.doh3, true)
        },
    }
}

impl DNSListenAddr {
    /// No listener.
    pub open spec fn is_none(&self) -> bool {
        self.udp is None && self.tcp is None && self.doh is None && self.dot is None
            && self.doh3 is None
    }
}

fn parse_plain(def: &Option<String>) -> (res: Result<Option<SocketAddr>, Error>)
    ensures
        match res {
            Ok(l) => !bad_listen(text::opt_view(*def)) && plain_is(l, *def),
            Err(e) => bad_listen(text::opt_view(*def)) && e is InvalidConfig && e.text()
                == listen_complaint(def.unwrap()@),
        },
{
    match def {
        Some(addr) => match parse_listen_addr(addr.as_str()) {
            Ok(a) => Ok(Some(a)),
            Err(e) => Err(e),
        },
        None => Ok(None),
    }
}

fn parse_tls(def: &Option<TlsListenDef>, named: bool) -> (res: Result<Option<TlsListen>, Error>)
    ensures
        match res {
            Ok(l) => !bad_listen(tls_addr(*def)) && tls_is(l, *def, named),
            Err(e) => bad_listen(tls_addr(*def)) && e is InvalidConfig && e.text()
                == listen_complaint(def.unwrap().addr@),
        },
{
    match def {
        Some(d) => match parse_listen_addr(d.addr.as_str()) {
            Ok(addr) => Ok(
                Some(
                    TlsListen {
                        addr,
                        ca_cert: text::copy_opt(&d.ca_cert),
                        ca_key: text::copy_opt(&d.ca_key),
                        hostname: if named {
                            text::copy_opt(&d.hostname)
                        } else {
                            None
                        },
                    },
                ),
            ),
            Err(e) => Err(e),
        },
        None => Ok(None),
    }
}

/// Reads the listeners that a configuration asks for.
pub fn parse_listen(l: &DNSListen) -> (res: Result<DNSListenAddr, Error>)
    ensures
        match res {
            Ok(listen) => listen_error(*l) is None && listen_is(listen, *l),
            Err(e) => listen_error(*l) == Some(e.text()) && e is InvalidConfig,
        },
{
    match l {
        DNSListen::Udp(addr) => match parse_listen_addr(addr.as_str()) {
            Ok(a) => Ok(
                DNSListenAddr { udp: Some(a), tcp: None, doh: None, dot: None, doh3: None },
            ),
            Err(e) => Err(e),
        },
        DNSListen::Multiple(m) => {
            let udp: Option<SocketAddr> = match parse_plain(&m.udp) {
                Ok(a) => a,
                Err(e) => return Err(e),
            };
            let tcp: Option<SocketAddr> = match parse_plain(&m.tcp) {
                Ok(a) => a,
                Err(e) => return Err(e),
            };
            let doh: Option<TlsListen> = match parse_tls(&m.doh, true) {
                Ok(a) => a,
                Err(e) => return Err(e),
            };
            let dot: Option<TlsListen> = match parse_tls(&m.dot, false) {
                Ok(a) => a,
                Err(e) => return Err(e),
            };
            let doh3: Option<TlsListen> = match parse_tls(&m.doh3, true) {
                Ok(a) => a,
                Err(e) => return Err(e),
            };
            Ok(DNSListenAddr { udp, tcp, doh, dot, doh3 })
        },
    }
}

/// A name and its address, as a configuration writes them.
#[derive(Debug)]
pub struct HostDef {
    pub host: String,
    pub ip: String,
}

/// Names with fixed addresses.
pub struct Hosts {
    tree: StringTrie,
    addrs: Vec<IpAddr>,
}

/// The patterns of `localhost` and of the first `n` names. The value of a pattern is the place of
/// its address in the list of addresses.
pub open spec fn host_patterns(defs: Seq<HostDef>, n: int) -> Seq<(Seq<Seq<char>>, usize)>
    decreases n,
{
    if n <= 0 {
        trie::text_set(Seq::empty(), "localhost"@, 0)
    } else {
        trie::text_set(host_patterns(defs, n - 1), defs[n - 1].host@, n as usize)
    }
}

/// The addresses of `localhost` and of the first `n` names, or `None` when one cannot be read.
pub open spec fn host_addrs(defs: Seq<HostDef>, n: int) -> Option<Seq<IpAddr>>
    decreases n,
{
    if n <= 0 {
        Some(seq![IpAddr::V4(0x7f00_0001)])
    } else {
        match (host_addrs(defs, n - 1), ip::ip_value(defs[n - 1].ip@)) {
            (Some(list), Some(addr)) => Some(list.push(addr)),
            _ => None,
        }
    }
}

proof fn lemma_host_addrs_error(defs: Seq<HostDef>, n: int, m: int)
    requires
        n <= m,
        host_addrs(defs, n) is None,
    ensures
        host_addrs(defs, m) is None,
    decreases m - n,
{
    if n < m {
        lemma_host_addrs_error(defs, n, m - 1);
    }
}

impl Hosts {
    /// The patterns of the names.
    pub closed spec fn patterns(&self) -> Seq<(Seq<Seq<char>>, usize)> {
        self.tree@
    }

    /// The addresses, to which the patterns refer by place.
    pub closed spec fn addresses(&self) -> Seq<IpAddr> {
        self.addrs@
    }

    /// The address of the closest pattern that covers the name.
    pub open spec fn address_of(&self, domain: Seq<char>) -> Option<IpAddr> {
        match trie::found(self.patterns(), domain) {
            Some(place) if place < self.addresses().len() => Some(self.addresses()[place as int]),
            _ => None,
        }
    }

    /// The table of a list of names, with `localhost` in front.
    pub open spec fn is_of(&self, defs: Seq<HostDef>) -> bool {
        &&& self.patterns() == host_patterns(defs, defs.len() as int)
        &&& host_addrs(defs, defs.len() as int) == Some(self.addresses())
    }

    /// Just `localhost`.
    pub fn localhost() -> (res: Hosts)
        ensures
            res.is_of(Seq::empty()),
    {
        let mut tree: StringTrie = StringTrie::new();
        let mut addrs: Vec<IpAddr> = Vec::new();
        tree.insert(&text::chars("localhost"), 0);
        addrs.push(IpAddr::V4(0x7f00_0001));
        let ghost none: Seq<HostDef> = Seq::empty();
        assert(host_patterns(none, 0) == tree@);
        assert(addrs@ =~= seq![IpAddr::V4(0x7f00_0001)]);
        assert(host_addrs(none, 0) == Some(addrs@));
        Hosts { tree, addrs }
    }

    /// The address of the closest pattern that covers the name.
    pub fn search(&self, domain: &str) -> (res: Option<IpAddr>)
        ensures
            res == self.address_of(domain@),
    {
        match self.tree.search(&text::chars(domain)) {
            Some(place) => if place < self.addrs.len() {
                Some(self.addrs[place])
            } else {
                None
            },
            None => None,
        }
    }
}

/// Whether DNS is served, and how, as a configuration writes it.
#[derive(Debug)]
pub struct DnsDef {
    pub enable: bool,
    pub ipv6: bool,
    pub nameserver: Vec<String>,
    pub fallback: Vec<String>,
    pub fallback_filter: FallbackFilter,
    pub listen: Option<DNSListen>,
    pub enhanced_mode: DNSMode,
    pub default_nameserver: Vec<String>,
    pub proxy_server_nameserver: Vec<String>,
    pub fake_ip_range: String,
    pub fake_ip_range6: String,
    pub fake_ip_filter: Vec<String>,
    pub fake_ip_filter_mode: FakeIpFilterMode,
    pub fake_ip_ttl: u32,
    pub black_filter: Vec<String>,
    pub use_hosts: bool,
    pub nameserver_policy: Vec<PolicyDef>,
    pub edns_client_subnet: Option<EdnsClientSubnetDef>,
    pub respect_rules: bool,
    pub optimistic_cache_ttl: u32,
    pub fixed_domain_ttl: Vec<FixedTtl>,
    pub stale_cache_retention: u32,
}

/// What the configuration of the DNS service is read from.
#[derive(Debug)]
pub struct Def {
    pub dns: DnsDef,
    pub ipv6: bool,
    pub routing_mark: Option<u32>,
    pub hosts: Vec<HostDef>,
    pub store_fake_ip: bool,
    pub store_smart_stats: bool,
}

/// A domain whose answers are kept for a fixed time, in seconds.
#[derive(Debug)]
pub struct FixedTtl {
    pub domain: String,
    pub ttl: u32,
}

/// Domains and their fixed times.
pub open spec fn fixed_views(list: Seq<FixedTtl>) -> Seq<(Seq<char>, u32)> {
    list.map_values(|f: FixedTtl| (f.domain@, f.ttl))
}

fn copy_fixed(list: &Vec<FixedTtl>) -> (res: Vec<FixedTtl>)
    ensures
        fixed_views(res@) == fixed_views(list@),
{
    let mut res: Vec<FixedTtl> = Vec::new();
    let mut i: usize = 0;
    while i < list.len()
        invariant
            i <= list@.len(),
            fixed_views(res@) == fixed_views(list@.take(i as int)),
        decreases list@.len() - i,
    {
        let ghost before = res@;
        let ghost item = (list@[i as int].domain@, list@[i as int].ttl);
        res.push(FixedTtl { domain: list[i].domain.clone(), ttl: list[i].ttl });
        assert(fixed_views(res@) =~= fixed_views(before).push(item));
        assert(fixed_views(list@.take(i + 1)) =~= fixed_views(list@.take(i as int)).push(item));
        i = i + 1;
    }
    assert(list@.take(i as int) =~= list@);
    res
}

/// The configuration of the DNS service.
pub struct Config {
    pub enable: bool,
    pub ipv6: bool,
    pub nameserver: Vec<NameServer>,
    pub fallback: Vec<NameServer>,
    pub fallback_filter: FallbackFilter,
    pub listen: DNSListenAddr,
    pub enhance_mode: DNSMode,
    pub default_nameserver: Vec<NameServer>,
    pub proxy_server_nameserver: Option<Vec<NameServer>>,
    pub fake_ip_range: Ipv4Net,
    pub fake_ip_range6: Ipv6Net,
    pub fake_ip_filter: Vec<String>,
    pub fake_ip_filter_mode: FakeIpFilterMode,
    pub fake_ip_ttl: u32,
    pub black_filter: Vec<String>,
    pub store_fake_ip: bool,
    pub store_smart_stats: bool,
    pub hosts: Option<Hosts>,
    pub nameserver_policy: Vec<NameServerPolicy>,
    pub edns_client_subnet: Option<EdnsClientSubnet>,
    pub fw_mark: Option<u32>,
    pub respect_rules: bool,
    pub optimistic_cache_ttl: u32,
    pub fixed_domain_ttl: Vec<FixedTtl>,
    pub stale_cache_retention: u32,
}

/// The servers that a list names, or what is wrong with it.
pub open spec fn list_servers(list: Vec<String>, machine: Machine) -> Result<
    Seq<NameServerView>,
    Seq<char>,
> {
    nameserver::nameservers(text::string_views(list@), list@.len() as int, machine)
}

/// One of the servers is named by a domain.
pub open spec fn has_domain(list: Seq<NameServerView>) -> bool {
    exists|i: int| 0 <= i < list.len() && (#[trigger] list[i]).host is Domain
}

/// What is wrong with a configuration: the first of the following that does not hold. Servers are
/// given where DNS is served; the servers, the fallback servers and the policy can be read; default
/// servers are given, can be read and are named by addresses; the servers for proxies can be read
/// and are not all passed over; the networks of clients, the listeners, the ranges of fake
/// addresses and the addresses of hosts can be read.
pub open spec fn config_error(c: Def, machine: Machine) -> Option<Seq<char>> {
    let dc = c.dns;
    let default_servers = list_servers(dc.default_nameserver, machine);
    let proxy_servers = list_servers(dc.proxy_server_nameserver, machine);
    if dc.enable && dc.nameserver@.len() == 0 {
        Some("dns enabled, no nameserver specified"@)
    } else if list_servers(dc.nameserver, machine) is Err {
        list_servers(dc.nameserver, machine).err()
    } else if list_servers(dc.fallback, machine) is Err {
        list_servers(dc.fallback, machine).err()
    } else if nameserver::policies(
        dc.nameserver_policy@,
        dc.nameserver_policy@.len() as int,
        machine,
    ) is Err {
        nameserver::policies(
            dc.nameserver_policy@,
            dc.nameserver_policy@.len() as int,
            machine,
        ).err()
    } else if dc.default_nameserver@.len() == 0 {
        Some("default nameserver empty"@)
    } else if default_servers is Err {
        default_servers.err()
    } else if has_domain(default_servers->Ok_0) {
        Some("default dns must be ip address"@)
    } else if dc.proxy_server_nameserver@.len() > 0 && proxy_servers is Err {
        proxy_servers.err()
    } else if dc.proxy_server_nameserver@.len() > 0 && proxy_servers->Ok_0.len() == 0 {
        Some("proxy-server-nameserver has no usable entries (all skipped)"@)
    } else if dc.edns_client_subnet is Some && subnet_of(dc.edns_client_subnet.unwrap()) is Err {
        subnet_of(dc.edns_client_subnet.unwrap()).err()
    } else if dc.listen is Some && listen_error(dc.listen.unwrap()) is Some {
        listen_error(dc.listen.unwrap())
    } else if ip::v4_net_value(dc.fake_ip_range@) is None {
        Some("invalid fake ipv4 range"@)
    } else if ip::v6_net_value(dc.fake_ip_range6@) is None {
        Some("invalid fake ipv6 range"@)
    } else if dc.use_hosts && c.hosts@.len() > 0 && host_addrs(c.hosts@, c.hosts@.len() as int)
        is None {
        Some("invalid `hosts` entry: invalid IP address syntax"@)
    } else {
        None
    }
}

/// The configuration is what a sound one says.
pub open spec fn config_is(cfg: Config, c: Def, machine: Machine) -> bool {
    let dc = c.dns;
    &&& cfg.enable == dc.enable
    &&& cfg.ipv6 == (c.ipv6 && dc.ipv6)
    &&& cfg.fw_mark == c.routing_mark
    &&& Ok::<_, Seq<char>>(nameserver::ns_views(cfg.nameserver@)) == list_servers(
        dc.nameserver,
        machine,
    )
    &&& Ok::<_, Seq<char>>(nameserver::ns_views(cfg.fallback@)) == list_servers(
        dc.fallback,
        machine,
    )
    &&& cfg.fallback_filter.geo_ip == dc.fallback_filter.geo_ip
    &&& cfg.fallback_filter.geo_ip_code@ == text::raised(dc.fallback_filter.geo_ip_code@)
    &&& text::string_views(cfg.fallback_filter.ip_cidr@) == text::string_views(
        dc.fallback_filter.ip_cidr@,
    )
    &&& text::string_views(cfg.fallback_filter.domain@) == text::string_views(
        dc.fallback_filter.domain@,
    )
    &&& match dc.listen {
        Some(l) => listen_is(cfg.listen, l),
        None => cfg.listen.is_none(),
    }
    &&& cfg.enhance_mode == dc.enhanced_mode
    &&& Ok::<_, Seq<char>>(nameserver::ns_views(cfg.default_nameserver@)) == list_servers(
        dc.default_nameserver,
        machine,
    )
    &&& match cfg.proxy_server_nameserver {
        Some(list) => dc.proxy_server_nameserver@.len() > 0 && Ok::<_, Seq<char>>(
            nameserver::ns_views(list@),
        ) == list_servers(dc.proxy_server_nameserver, machine),
        None => dc.proxy_server_nameserver@.len() == 0,
    }
    &&& Some(cfg.fake_ip_range) == ip::v4_net_value(dc.fake_ip_range@)
    &&& Some(cfg.fake_ip_range6) == ip::v6_net_value(dc.fake_ip_range6@)
    &&& cfg.fake_ip_range.wf()
    &&& cfg.fake_ip_range6.wf()
    &&& text::string_views(cfg.fake_ip_filter@) == text::string_views(dc.fake_ip_filter@)
    &&& cfg.fake_ip_filter_mode == dc.fake_ip_filter_mode
    &&& cfg.fake_ip_ttl == dc.fake_ip_ttl
    &&& text::string_views(cfg.black_filter@) == text::string_views(dc.black_filter@)
    &&& cfg.store_fake_ip == c.store_fake_ip
    &&& cfg.store_smart_stats == c.store_smart_stats
    &&& cfg.hosts matches Some(hosts) && hosts.is_of(
        if dc.use_hosts {
            c.hosts@
        } else {
            Seq::empty()
        },
    )
    &&& Ok::<_, Seq<char>>(nameserver::policy_views(cfg.nameserver_policy@))
        == nameserver::policies(
        dc.nameserver_policy@,
        dc.nameserver_policy@.len() as int,
        machine,
    )
    &&& match dc.edns_client_subnet {
        Some(ecs) => cfg.edns_client_subnet is Some && Ok::<_, Seq<char>>(
            cfg.edns_client_subnet.unwrap(),
        ) == subnet_of(ecs),
        None => cfg.edns_client_subnet is None,
    }
    &&& cfg.respect_rules == dc.respect_rules
    &&& cfg.optimistic_cache_ttl == dc.optimistic_cache_ttl
    &&& fixed_views(cfg.fixed_domain_ttl@) == fixed_views(dc.fixed_domain_ttl@)
    &&& cfg.stale_cache_retention == dc.stale_cache_retention
}

fn any_domain(list: &Vec<NameServer>) -> (res: bool)
    ensures
        res == has_domain(nameserver::ns_views(list@)),
{
    let ghost all = nameserver::ns_views(list@);
    let mut i: usize = 0;
    while i < list.len()
        invariant
            i <= list@.len(),
            all == nameserver::ns_views(list@),
            forall|j: int| 0 <= j < i ==> !((#[trigger] all[j]).host is Domain),
        decreases list@.len() - i,
    {
        assert(all[i as int] == list@[i as int]@);
        match list[i].host {
            Host::Domain(_) => {
                assert(all[i as int].host is Domain);
                return true;
            },
            _ => {},
        }
        i = i + 1;
    }
    false
}

impl Config {
    /// Reads a list of networks.
    pub fn parse_fallback_ip_cidr(ipcidr: &Vec<String>) -> (res: Result<Vec<IpNet>, Error>)
        ensures
            match (res, filters::all_nets(text::string_views(ipcidr@), ipcidr@.len() as int)) {
                (Ok(v), Some(nets)) => v@ == nets,
                (Err(e), None) => e is InvalidConfig && e.text() == "invalid IP address syntax"@,
                _ => false,
            },
    {
        let ghost all = text::string_views(ipcidr@);
        let mut out: Vec<IpNet> = Vec::new();
        let mut i: usize = 0;
        while i < ipcidr.len()
            invariant
                i <= ipcidr@.len(),
                all == text::string_views(ipcidr@),
                filters::all_nets(all, i as int) == Some(out@),
            decreases ipcidr@.len() - i,
        {
            assert(all[i as int] == ipcidr@[i as int]@);
            match parse_net(ipcidr[i].as_str()) {
                Some(net) => {
                    out.push(net);
                },
                None => {
                    proof {
                        filters::lemma_all_nets_prefix(all, i + 1, ipcidr@.len() as int);
                    }
                    return Err(bad("invalid IP address syntax"));
                },
            }
            i = i + 1;
        }
        Ok(out)
    }

    /// Reads a table of names with fixed addresses; `localhost` is in it without being listed.
    pub fn parse_hosts(hosts_mapping: &Vec<HostDef>) -> (res: Result<Hosts, Error>)
        ensures
            match res {
                Ok(hosts) => hosts.is_of(hosts_mapping@),
                Err(e) => host_addrs(hosts_mapping@, hosts_mapping@.len() as int) is None
                    && e.text() == "invalid IP address syntax"@,
            },
    {
        let mut hosts: Hosts = Hosts::localhost();
        assert(host_patterns(hosts_mapping@, 0) == hosts.patterns()) by {
            assert(host_patterns(Seq::<HostDef>::empty(), 0) == host_patterns(hosts_mapping@, 0));
        }
        assert(host_addrs(hosts_mapping@, 0) == Some(hosts.addresses())) by {
            assert(host_addrs(Seq::<HostDef>::empty(), 0) == host_addrs(hosts_mapping@, 0));
        }
        let mut i: usize = 0;
        while i < hosts_mapping.len()
            invariant
                i <= hosts_mapping@.len(),
                hosts.patterns() == host_patterns(hosts_mapping@, i as int),
                host_addrs(hosts_mapping@, i as int) == Some(hosts.addresses()),
            decreases hosts_mapping@.len() - i,
        {
            let addr: IpAddr = match parse_ip(hosts_mapping[i].ip.as_str()) {
                Some(addr) => addr,
                None => {
                    proof {
                        lemma_host_addrs_error(
                            hosts_mapping@,
                            i + 1,
                            hosts_mapping@.len() as int,
                        );
                    }
                    return Err(Error::Operation("invalid IP address syntax".to_owned()));
                },
            };
            hosts.tree.insert(&text::chars(hosts_mapping[i].host.as_str()), i + 1);
            hosts.addrs.push(addr);
            i = i + 1;
        }
        Ok(hosts)
    }

    /// Reads the configuration of the DNS service.
    pub fn try_from(c: &Def, machine: &Machine) -> (res: Result<Config, Error>)
        ensures
            match res {
                Ok(cfg) => config_error(*c, *machine) is None && config_is(cfg, *c, *machine),
                Err(e) => e is InvalidConfig && config_error(*c, *machine) == Some(e.text()),
            },
    {
        let dc = &c.dns;
        if dc.enable && dc.nameserver.len() == 0 {
            return Err(bad("dns enabled, no nameserver specified"));
        }
        let nameserver: Vec<NameServer> = match Config::parse_nameserver(&dc.nameserver, machine) {
            Ok(list) => list,
            Err(e) => return Err(e),
        };
        let fallback: Vec<NameServer> = match Config::parse_nameserver(&dc.fallback, machine) {
            Ok(list) => list,
            Err(e) => return Err(e),
        };
        let nameserver_policy: Vec<NameServerPolicy> = match Config::parse_nameserver_policy(
            &dc.nameserver_policy,
            machine,
        ) {
            Ok(list) => list,
            Err(e) => return Err(e),
        };
        if dc.default_nameserver.len() == 0 {
            return Err(bad("default nameserver empty"));
        }
        let default_nameserver: Vec<NameServer> = match Config::parse_nameserver(
            &dc.default_nameserver,
            machine,
        ) {
            Ok(list) => list,
            Err(e) => return Err(e),
        };
        if any_domain(&default_nameserver) {
            return Err(bad("default dns must be ip address"));
        }
        let proxy_server_nameserver: Option<Vec<NameServer>> = if dc.proxy_server_nameserver.len()
            > 0 {
            match Config::parse_nameserver(&dc.proxy_server_nameserver, machine) {
                Ok(list) => {
                    if list.len() == 0 {
                        return Err(
                            bad("proxy-server-nameserver has no usable entries (all skipped)"),
                        );
                    }
                    Some(list)
                },
                Err(e) => return Err(e),
            }
        } else {
            None
        };
        let edns_client_subnet: Option<EdnsClientSubnet> = match &dc.edns_client_subnet {
            Some(ecs) => match parse_edns_client_subnet(ecs) {
                Ok(subnet) => Some(subnet),
                Err(e) => return Err(e),
            },
            None => None,
        };
        let listen: DNSListenAddr = match &dc.listen {
            Some(l) => match parse_listen(l) {
                Ok(listen) => listen,
                Err(e) => return Err(e),
            },
            None => DNSListenAddr { udp: None, tcp: None, doh: None, dot: None, doh3: None },
        };
        let fake_ip_range: Ipv4Net = match parse_v4_net(dc.fake_ip_range.as_str()) {
            Some(net) => net,
            None => return Err(bad("invalid fake ipv4 range")),
        };
        let fake_ip_range6: Ipv6Net = match parse_v6_net(dc.fake_ip_range6.as_str()) {
            Some(net) => net,
            None => return Err(bad("invalid fake ipv6 range")),
        };
        let hosts: Hosts = if dc.use_hosts && c.hosts.len() > 0 {
            match Config::parse_hosts(&c.hosts) {
                Ok(hosts) => hosts,
                Err(_) => return Err(bad("invalid `hosts` entry: invalid IP address syntax")),
            }
        } else {
            Hosts::localhost()
        };
        assert(c.hosts@.len() == 0 ==> c.hosts@ =~= Seq::empty());
        Ok(
            Config {
                enable: dc.enable,
                ipv6: c.ipv6 && dc.ipv6,
                nameserver,
                fallback,
                fallback_filter: FallbackFilter::from_def(&dc.fallback_filter),
                listen,
                enhance_mode: dc.enhanced_mode,
                default_nameserver,
                proxy_server_nameserver,
                fake_ip_range,
                fake_ip_range6,
                fake_ip_filter: text::copy_list(&dc.fake_ip_filter),
                fake_ip_filter_mode: dc.fake_ip_filter_mode,
                fake_ip_ttl: dc.fake_ip_ttl,
                black_filter: text::copy_list(&dc.black_filter),
                store_fake_ip: c.store_fake_ip,
                store_smart_stats: c.store_smart_stats,
                hosts: Some(hosts),
                nameserver_policy,
                edns_client_subnet,
                fw_mark: c.routing_mark,
                respect_rules: dc.respect_rules,
                optimistic_cache_ttl: dc.optimistic_cache_ttl,
                fixed_domain_ttl: copy_fixed(&dc.fixed_domain_ttl),
                stale_cache_retention: dc.stale_cache_retention,
            },
        )
    }
}

/// IPv6 is on exactly where it is switched on both for the whole program and for DNS.
pub proof fn law_ipv6_needs_both_switches(cfg: Config, c: Def, machine: Machine)
    requires
        config_is(cfg, c, machine),
    ensures
        cfg.ipv6 ==> c.ipv6 && c.dns.ipv6,
        c.ipv6 && c.dns.ipv6 ==> cfg.ipv6,
{
}

/// A sound configuration has servers where DNS is served, and default servers that are all named by
/// addresses.
pub proof fn law_sound_configuration(c: Def, machine: Machine)
    requires
        config_error(c, machine) is None,
    ensures
        c.dns.enable ==> c.dns.nameserver@.len() > 0,
        c.dns.default_nameserver@.len() > 0,
        nameserver::nameservers(
            text::string_views(c.dns.default_nameserver@),
            c.dns.default_nameserver@.len() as int,
            machine,
        ) matches Ok(list) && forall|i: int| 0 <= i < list.len() ==> !((#[trigger] list[i]).host is Domain),
        nameserver::nameservers(
            text::string_views(c.dns.nameserver@),
            c.dns.nameserver@.len() as int,
            machine,
        ) is Ok,
        nameserver::nameservers(
            text::string_views(c.dns.fallback@),
            c.dns.fallback@.len() as int,
            machine,
        ) is Ok,
        ip::v4_net_value(c.dns.fake_ip_range@) is Some,
        ip::v6_net_value(c.dns.fake_ip_range6@) is Some,
{
}

/// Without a table of its own every resolver knows `localhost`: it is the machine itself. Names are
/// left out where the table is switched off.
pub proof fn law_localhost_is_the_machine(hosts: Hosts)
    requires
        hosts.is_of(Seq::empty()),
    ensures
        hosts.address_of("localhost"@) == Some(IpAddr::V4(0x7f00_0001)),
{
    reveal_strlit("localhost");
    let name = "localhost"@;
    assert forall|i: int| 0 <= i < name.len() implies name[i] != '.' by {}
    text::lemma_one_field(name, '.');
    assert(trie::labels(name) == Some(seq![name]));
    assert(name.len() == 9);
    trie::law_exact_name_wins(Seq::empty(), name, 0);
}

/// A name in the table has the address that stands beside it: the last entry for a name counts,
/// whatever patterns before it cover the name.
pub proof fn law_host_has_its_address(hosts: Hosts, defs: Seq<HostDef>)
    requires
        defs.len() > 0,
        defs.len() < usize::MAX,
        hosts.is_of(defs),
        trie::labels(defs.last().host@) matches Some(p) && p[0].len() > 0 && p[0] != seq!['+'],
    ensures
        hosts.address_of(defs.last().host@) == ip::ip_value(defs.last().ip@),
        hosts.address_of(defs.last().host@) is Some,
{
    let n = defs.len() as int;
    lemma_host_count(defs, n);
    trie::law_exact_name_wins(host_patterns(defs, n - 1), defs.last().host@, n as usize);
}

proof fn lemma_host_count(defs: Seq<HostDef>, n: int)
    requires
        0 <= n <= defs.len(),
        host_addrs(defs, n) is Some,
    ensures
        host_addrs(defs, n).unwrap().len() == n + 1,
    decreases n,
{
    if n > 0 {
        lemma_host_count(defs, n - 1);
    }
}

/// A text that starts with a colon listens on every IPv4 address; any other text is the address
/// itself.
pub proof fn law_colon_listens_everywhere(port: Seq<char>)
    ensures
        listen_value(seq![':'] + port) == ip::socket_value("0.0.0.0"@ + (seq![':'] + port)),
        port.len() > 0 && port[0] != ':' ==> listen_value(port) == ip::socket_value(port),
{
    assert((seq![':'] + port)[0] == ':');
}

/// A text alone asks for a UDP listener and nothing else.
pub proof fn law_one_address_is_udp(listen: DNSListenAddr, addr: String)
    requires
        listen_is(listen, DNSListen::Udp(addr)),
    ensures
        listen.udp == listen_value(addr@),
        listen.tcp is None && listen.doh is None && listen.dot is None && listen.doh3 is None,
{
}

/// What is listened on is sound just where every address that is given can be read. Of several that
/// cannot, the first is told, in the order UDP, TCP, HTTPS, TLS and HTTP/3.
pub proof fn law_bad_listen_address_is_told(m: DnsListenDef)
    ensures
        listen_error(DNSListen::Multiple(m)) is None <==> !(bad_listen(text::opt_view(m.udp))
            || bad_listen(text::opt_view(m.tcp)) || bad_listen(tls_addr(m.doh)) || bad_listen(
            tls_addr(m.dot),
        ) || bad_listen(tls_addr(m.doh3))),
        m.udp matches Some(a) ==> (listen_value(a@) is None ==> (listen_error(
            DNSListen::Multiple(m),
        ) matches Some(why) && text::has_suffix(why, a@))),
        m.tcp matches Some(a) ==> (m.udp is None && listen_value(a@) is None ==> (listen_error(
            DNSListen::Multiple(m),
        ) matches Some(why) && text::has_suffix(why, a@))),
        m.doh matches Some(d) ==> (m.udp is None && m.tcp is None && listen_value(d.addr@) is None
            ==> (listen_error(DNSListen::Multiple(m)) matches Some(why) && text::has_suffix(
            why,
            d.addr@,
        ))),
        m.dot matches Some(d) ==> (m.udp is None && m.tcp is None && m.doh is None && listen_value(
            d.addr@,
        ) is None ==> (listen_error(DNSListen::Multiple(m)) matches Some(why) && text::has_suffix(
            why,
            d.addr@,
        ))),
        m.doh3 matches Some(d) ==> (m.udp is None && m.tcp is None && m.doh is None && m.dot is None
            && listen_value(d.addr@) is None ==> (listen_error(
            DNSListen::Multiple(m),
        ) matches Some(why) && text::has_suffix(why, d.addr@))),
{
    assert forall|a: Seq<char>| text::has_suffix(#[trigger] listen_complaint(a), a) by {
        let why = listen_complaint(a);
        assert(why.skip(why.len() - a.len()) =~= a);
    }
}

/// A single address is sound just where it can be read, and is told where it cannot.
pub proof fn law_bad_single_address_is_told(addr: String)
    ensures
        listen_error(DNSListen::Udp(addr)) is None <==> listen_value(addr@) is Some,
        listen_error(DNSListen::Udp(addr)) matches Some(why) ==> text::has_suffix(why, addr@),
{
    let why = listen_complaint(addr@);
    assert(why.skip(why.len() - addr@.len()) =~= addr@);
}

} // verus!
