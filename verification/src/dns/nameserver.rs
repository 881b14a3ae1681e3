//! DNS servers as a configuration names them.
use vstd::prelude::*;

use crate::dns::config::Config;
use crate::error::Error;
use crate::ip;
use crate::ip::parse_v4;
use crate::net;
use crate::net::{get_interface_by_name, get_outbound_interface, Machine, OutboundInterface, OutboundView};
use crate::text;
use crate::trie;
use crate::trie::valid_and_split_domain;
use crate::uri;
use crate::uri::{parse_url, percent_decode, Host, HostView, UrlParts, UrlView};

verus! {

/// How a DNS server is spoken to.
#[derive(Clone, Copy, Debug, PartialEq, Eq, Structural)]
pub enum DNSNetMode {
    Udp,
    Tcp,
    Tls,
    Https,
    Dhcp,
    Quic,
    H3,
}

impl DNSNetMode {
    /// What the mode is called.
    pub open spec fn name(&self) -> Seq<char> {
        match self {
            DNSNetMode::Udp => "UDP"@,
            DNSNetMode::Tcp => "TCP"@,
            DNSNetMode::Tls => "DoT"@,
            DNSNetMode::Https => "DoH"@,
            DNSNetMode::Dhcp => "DHCP"@,
            DNSNetMode::Quic => "DoQ"@,
            DNSNetMode::H3 => "DoH3"@,
        }
    }

    /// What the mode is called.
    pub fn as_text(&self) -> (res: &'static str)
        ensures
            res@ == self.name(),
    {
        match self {
            DNSNetMode::Udp => "UDP",
            DNSNetMode::Tcp => "TCP",
            DNSNetMode::Tls => "DoT",
            DNSNetMode::Https => "DoH",
            DNSNetMode::Dhcp => "DHCP",
            DNSNetMode::Quic => "DoQ",
            DNSNetMode::H3 => "DoH3",
        }
    }
}

/// A DNS server.
#[derive(Debug)]
pub struct NameServer {
    pub net: DNSNetMode,
    pub host: Host,
    pub port: u16,
    /// The request path, where the server has one of its own.
    pub path: Option<String>,
    /// The interface that queries leave by.
    pub interface: Option<OutboundInterface>,
    /// The outbound that queries go through.
    pub proxy: Option<String>,
}

/// A DNS server.
pub struct NameServerView {
    pub net: DNSNetMode,
    pub host: HostView,
    pub port: u16,
    pub path: Option<Seq<char>>,
    pub interface: Option<OutboundView>,
    pub proxy: Option<Seq<char>>,
}

impl View for NameServer {
    type V = NameServerView;

    open spec fn view(&self) -> NameServerView {
        NameServerView {
            net: self.net,
            host: self.host@,
            port: self.port,
            path: text::opt_view(self.path),
            interface: net::opt_outbound(self.interface),
            proxy: text::opt_view(self.proxy),
        }
    }
}

impl NameServerView {
    /// How the server is shown.
    pub open spec fn text(&self) -> Seq<char> {
        self.net.name() + "://"@ + self.host.text() + ":"@ + text::number_text(self.port as nat)
            + "#"@ + net::debug_opt(
            match self.interface {
                Some(iface) => Some(iface.debug()),
                None => None,
            },
        )
    }
}

impl NameServer {
    /// How the server is shown.
    pub fn as_text(&self) -> (res: String)
        ensures
            res@ == self@.text(),
    {
        let mut out: Vec<char> = text::chars(self.net.as_text());
        text::append(&mut out, &text::chars("://"));
        text::append(&mut out, &self.host.as_chars());
        text::append(&mut out, &text::chars(":"));
        text::append(&mut out, &text::write_number(self.port as u64));
        text::append(&mut out, &text::chars("#"));
        let iface: Option<Vec<char>> = match &self.interface {
            Some(iface) => Some(iface.debug_chars()),
            None => None,
        };
        text::append(&mut out, &net::write_debug_opt(iface));
        text::text(&out)
    }

    /// The same server once more.
    pub fn copy(&self) -> (res: NameServer)
        ensures
            res@ == self@,
    {
        NameServer {
            net: self.net,
            host: self.host.copy(),
            port: self.port,
            path: text::copy_opt(&self.path),
            interface: match &self.interface {
                Some(iface) => Some(iface.copy()),
                None => None,
            },
            proxy: text::copy_opt(&self.proxy),
        }
    }
}

/// The servers of a list.
pub open spec fn ns_views(list: Seq<NameServer>) -> Seq<NameServerView> {
    list.map_values(|ns: NameServer| ns@)
}

/// The text of a server as a URL: one without a scheme is a UDP server, and one that is a bare IPv6
/// address is put in brackets.
pub open spec fn server_url(server: Seq<char>) -> Seq<char> {
    if text::has_part(server, "://"@) {
        server
    } else if server.contains(':') && server[0] != '[' {
        "udp://["@ + server + "]"@
    } else {
        "udp://"@ + server
    }
}

fn make_server_url(server: &str) -> (res: String)
    ensures
        res@ == server_url(server@),
{
    let all: Vec<char> = text::chars(server);
    if text::contains(&all, &text::chars("://")) {
        return server.to_owned();
    }
    if text::find(&all, ':').is_some() && all[0] != '[' {
        let head: String = text::concat("udp://[", server);
        text::concat(head.as_str(), "]")
    } else {
        text::concat("udp://", server)
    }
}

/// How servers of a scheme are spoken to, and the port of those that give none.
pub open spec fn scheme_mode(scheme: Seq<char>) -> Option<(DNSNetMode, u16)> {
    if scheme == "udp"@ {
        Some((DNSNetMode::Udp, 53))
    } else if scheme == "tcp"@ {
        Some((DNSNetMode::Tcp, 53))
    } else if scheme == "tls"@ {
        Some((DNSNetMode::Tls, 853))
    } else if scheme == "https"@ {
        Some((DNSNetMode::Https, 443))
    } else if scheme == "h3"@ {
        Some((DNSNetMode::H3, 443))
    } else if scheme == "dhcp"@ {
        Some((DNSNetMode::Dhcp, 0))
    } else {
        None
    }
}

fn mode_of_scheme(scheme: &str) -> (res: Option<(DNSNetMode, u16)>)
    ensures
        res == scheme_mode(scheme@),
{
    if text::same(scheme, "udp") {
        Some((DNSNetMode::Udp, 53))
    } else if text::same(scheme, "tcp") {
        Some((DNSNetMode::Tcp, 53))
    } else if text::same(scheme, "tls") {
        Some((DNSNetMode::Tls, 853))
    } else if text::same(scheme, "https") {
        Some((DNSNetMode::Https, 443))
    } else if text::same(scheme, "h3") {
        Some((DNSNetMode::H3, 443))
    } else if text::same(scheme, "dhcp") {
        Some((DNSNetMode::Dhcp, 0))
    } else {
        None
    }
}

/// What one part of a fragment says of the outbound: `proxy=` and its name, or just the name.
pub open spec fn proxy_in(pair: Seq<char>) -> Option<Seq<char>> {
    let written = if text::has_prefix(pair, "proxy="@) {
        pair.skip("proxy="@.len() as int)
    } else {
        pair
    };
    if !text::has_prefix(pair, "proxy="@) && (pair.len() == 0 || pair.contains('=')) {
        None
    } else if uri::decoded(written).len() > 0 {
        Some(uri::decoded(written))
    } else {
        None
    }
}

/// What one part of a fragment says of the interface: `interface=` and its name.
pub open spec fn interface_in(pair: Seq<char>) -> Option<Seq<char>> {
    let written = pair.skip("interface="@.len() as int);
    if text::has_prefix(pair, "interface="@) && uri::decoded(written).len() > 0 {
        Some(uri::decoded(written))
    } else {
        None
    }
}

/// What the first part from `from` on that names an outbound says.
pub open spec fn first_proxy(pairs: Seq<Seq<char>>, from: int) -> Option<Seq<char>>
    decreases pairs.len() - from,
{
    if from < 0 || from >= pairs.len() {
        None
    } else if proxy_in(pairs[from]) is Some {
        proxy_in(pairs[from])
    } else {
        first_proxy(pairs, from + 1)
    }
}

/// What the first part from `from` on that names an interface says.
pub open spec fn first_interface(pairs: Seq<Seq<char>>, from: int) -> Option<Seq<char>>
    decreases pairs.len() - from,
{
    if from < 0 || from >= pairs.len() {
        None
    } else if interface_in(pairs[from]) is Some {
        interface_in(pairs[from])
    } else {
        first_interface(pairs, from + 1)
    }
}

/// The outbound that a URL's fragment names.
pub open spec fn outbound_proxy(url: UrlView) -> Option<Seq<char>> {
    match url.fragment {
        Some(frag) => first_proxy(text::fields(frag, '&'), 0),
        None => None,
    }
}

/// The interface that a URL's fragment names.
pub open spec fn outbound_interface(url: UrlView) -> Option<Seq<char>> {
    match url.fragment {
        Some(frag) => first_interface(text::fields(frag, '&'), 0),
        None => None,
    }
}

fn decode_nonempty(written: &[char]) -> (res: Option<String>)
    ensures
        res is Some <==> uri::decoded(written@).len() > 0,
        res matches Some(s) ==> s@ == uri::decoded(written@),
{
    let decoded: String = percent_decode(text::text(written).as_str());
    if text::chars(decoded.as_str()).len() > 0 {
        Some(decoded)
    } else {
        None
    }
}

fn read_proxy(pair: &[char]) -> (res: Option<String>)
    ensures
        text::opt_view(res) == proxy_in(pair@),
{
    let prefix: Vec<char> = text::chars("proxy=");
    if text::starts_with(pair, &prefix) {
        let written: Vec<char> = text::slice(pair, prefix.len(), pair.len());
        assert(written@ =~= pair@.skip("proxy="@.len() as int));
        decode_nonempty(&written)
    } else if pair.len() > 0 && text::find(pair, '=').is_none() {
        decode_nonempty(pair)
    } else {
        None
    }
}

fn read_interface(pair: &[char]) -> (res: Option<String>)
    ensures
        text::opt_view(res) == interface_in(pair@),
{
    let prefix: Vec<char> = text::chars("interface=");
    if text::starts_with(pair, &prefix) {
        let written: Vec<char> = text::slice(pair, prefix.len(), pair.len());
        assert(written@ =~= pair@.skip("interface="@.len() as int));
        decode_nonempty(&written)
    } else {
        None
    }
}

/// The interface with a name, where one is named: `auto` is the interface that connections leave
/// by.
pub open spec fn chosen_interface(i: int, name: Option<Seq<char>>, machine: Machine) -> Result<
    Option<OutboundView>,
    Seq<char>,
> {
    match name {
        None => Ok(None),
        Some(name) => if name == "auto"@ {
            match net::outbound_interface(machine.interfaces@, machine.platform) {
                Some(iface) => Ok(Some(iface)),
                None => Err("DNS nameserver [auto] no outbound interface found"@),
            }
        } else {
            match net::interface_named(machine.interfaces@, name) {
                Some(iface) => Ok(Some(iface)),
                None => Err(
                    "DNS nameserver ["@ + text::number_text(i as nat) + "] invalid interface: "@
                        + name,
                ),
            }
        },
    }
}

/// A domain that is an IPv4 address is that address.
pub open spec fn effective_host(host: HostView) -> HostView {
    match host {
        HostView::Domain(name) => match ip::v4_value(name) {
            Some(addr) => HostView::Ipv4(addr as u32),
            None => host,
        },
        _ => host,
    }
}

/// The request path that a URL gives, where the mode has one.
pub open spec fn own_path(mode: DNSNetMode, path: Seq<char>) -> Option<Seq<char>> {
    if (mode is Https || mode is H3) && path.len() > 0 && path != "/"@ {
        Some(path)
    } else {
        None
    }
}

/// The server that the URL at place `i` of a list names, or what is wrong with it. `written` is the
/// text of the URL.
pub open spec fn nameserver_at(i: int, url: UrlView, written: Seq<char>, machine: Machine) -> Result<
    NameServerView,
    Seq<char>,
> {
    match url.host {
        None => Err("invalid dns server: no host found in "@ + written),
        Some(host) => match scheme_mode(url.scheme) {
            None => Err(
                "DNS nameserver ["@ + text::number_text(i as nat) + "] unsupported scheme: "@
                    + url.scheme,
            ),
            Some((mode, port)) => match chosen_interface(i, outbound_interface(url), machine) {
                Err(e) => Err(e),
                Ok(interface) => Ok(
                    NameServerView {
                        net: mode,
                        host: effective_host(host),
                        port: match url.port {
                            Some(p) => p,
                            None => port,
                        },
                        path: own_path(mode, url.path),
                        interface,
                        proxy: outbound_proxy(url),
                    },
                ),
            },
        },
    }
}

/// The server that the text at place `i` of a list names, or what is wrong with it.
pub open spec fn nameserver_of(i: int, server: Seq<char>, machine: Machine) -> Result<
    NameServerView,
    Seq<char>,
> {
    match uri::url_parts(server_url(server)) {
        None => Err("invalid dns server: "@ + server_url(server)),
        Some(url) => nameserver_at(i, url, server_url(server), machine),
    }
}

/// The outcome is the expected server, or the expected complaint.
pub open spec fn server_is(
    res: Result<NameServer, Error>,
    expected: Result<NameServerView, Seq<char>>,
) -> bool {
    match (res, expected) {
        (Ok(ns), Ok(view)) => ns@ == view,
        (Err(e), Err(text)) => e is InvalidConfig && e.text() == text,
        _ => false,
    }
}

/// The servers that the first `n` texts name, or what is wrong with the first bad one. The text
/// `system` names none.
pub open spec fn nameservers(servers: Seq<Seq<char>>, n: int, machine: Machine) -> Result<
    Seq<NameServerView>,
    Seq<char>,
>
    decreases n,
{
    if n <= 0 {
        Ok(Seq::empty())
    } else {
        match nameservers(servers, n - 1, machine) {
            Err(e) => Err(e),
            Ok(list) => if servers[n - 1] == "system"@ {
                Ok(list)
            } else {
                match nameserver_of(n - 1, servers[n - 1], machine) {
                    Ok(ns) => Ok(list.push(ns)),
                    Err(e) => Err(e),
                }
            },
        }
    }
}

/// The outcome is the expected list of servers, or the expected complaint.
pub open spec fn servers_are(
    res: Result<Vec<NameServer>, Error>,
    expected: Result<Seq<NameServerView>, Seq<char>>,
) -> bool {
    match (res, expected) {
        (Ok(v), Ok(list)) => ns_views(v@) == list,
        (Err(e), Err(text)) => e is InvalidConfig && e.text() == text,
        _ => false,
    }
}

proof fn lemma_nameservers_error(servers: Seq<Seq<char>>, n: int, m: int, machine: Machine)
    requires
        n <= m,
        nameservers(servers, n, machine) is Err,
    ensures
        nameservers(servers, m, machine) == nameservers(servers, n, machine),
    decreases m - n,
{
    if n < m {
        lemma_nameservers_error(servers, n, m - 1, machine);
    }
}

fn complaint(i: usize, middle: &str, what: &str) -> (res: Error)
    ensures
        res is InvalidConfig,
        res.text() == "DNS nameserver ["@ + text::number_text(i as nat) + middle@ + what@,
{
    let mut out: Vec<char> = text::chars("DNS nameserver [");
    text::append(&mut out, &text::write_number(i as u64));
    text::append(&mut out, &text::chars(middle));
    text::append(&mut out, &text::chars(what));
    Error::InvalidConfig(text::text(&out))
}

fn choose_interface(i: usize, name: Option<String>, machine: &Machine) -> (res: Result<
    Option<OutboundInterface>,
    Error,
>)
    ensures
        match (res, chosen_interface(i as int, text::opt_view(name), *machine)) {
            (Ok(iface), Ok(view)) => net::opt_outbound(iface) == view,
            (Err(e), Err(text)) => e is InvalidConfig && e.text() == text,
            _ => false,
        },
{
    match name {
        None => Ok(None),
        Some(name) => {
            if text::same(name.as_str(), "auto") {
                match get_outbound_interface(&machine.interfaces, machine.platform) {
                    Some(iface) => Ok(Some(iface)),
                    None => Err(
                        Error::InvalidConfig(
                            "DNS nameserver [auto] no outbound interface found".to_owned(),
                        ),
                    ),
                }
            } else {
                match get_interface_by_name(&machine.interfaces, name.as_str()) {
                    Some(iface) => Ok(Some(iface)),
                    None => Err(complaint(i, "] invalid interface: ", name.as_str())),
                }
            }
        },
    }
}

fn choose_host(host: Host) -> (res: Host)
    ensures
        res@ == effective_host(host@),
{
    match host {
        Host::Domain(name) => match parse_v4(name.as_str()) {
            Some(addr) => Host::Ipv4(addr),
            None => Host::Domain(name),
        },
        other => other,
    }
}

fn choose_path(mode: DNSNetMode, path: &str) -> (res: Option<String>)
    ensures
        text::opt_view(res) == own_path(mode, path@),
{
    let wanted: bool = match mode {
        DNSNetMode::Https | DNSNetMode::H3 => true,
        _ => false,
    };
    if wanted && text::chars(path).len() > 0 && !text::same(path, "/") {
        Some(path.to_owned())
    } else {
        None
    }
}

/// The server that the URL at place `i` of a list names.
pub fn nameserver_from_url(i: usize, url: UrlParts, written: &str, machine: &Machine) -> (res: Result<
    NameServer,
    Error,
>)
    ensures
        server_is(res, nameserver_at(i as int, url@, written@, *machine)),
{
    let iface: Option<String> = Config::parse_outbound_interface(&url);
    let proxy: Option<String> = Config::parse_outbound_proxy(&url);
    let host: Host = match url.host {
        Some(host) => host,
        None => return Err(
            Error::InvalidConfig(text::concat("invalid dns server: no host found in ", written)),
        ),
    };
    let (mode, default_port): (DNSNetMode, u16) = match mode_of_scheme(url.scheme.as_str()) {
        Some(found) => found,
        None => return Err(complaint(i, "] unsupported scheme: ", url.scheme.as_str())),
    };
    let interface: Option<OutboundInterface> = match choose_interface(i, iface, machine) {
        Ok(interface) => interface,
        Err(e) => return Err(e),
    };
    Ok(
        NameServer {
            net: mode,
            host: choose_host(host),
            port: match url.port {
                Some(p) => p,
                None => default_port,
            },
            path: choose_path(mode, url.path.as_str()),
            interface,
            proxy,
        },
    )
}

fn parse_one(i: usize, server: &str, machine: &Machine) -> (res: Result<NameServer, Error>)
    ensures
        server_is(res, nameserver_of(i as int, server@, *machine)),
{
    let written: String = make_server_url(server);
    match parse_url(written.as_str()) {
        Some(url) => nameserver_from_url(i, url, written.as_str(), machine),
        None => Err(Error::InvalidConfig(text::concat("invalid dns server: ", written.as_str()))),
    }
}

/// One entry of a policy: domains, separated by commas, and the servers to ask for them.
#[derive(Debug)]
pub struct PolicyDef {
    pub domain: String,
    pub servers: Vec<String>,
}

/// One entry of a policy with its servers read.
#[derive(Debug)]
pub struct NameServerPolicy {
    pub domain: String,
    pub nameservers: Vec<NameServer>,
}

/// The entry names rule sets or sites, no domain.
pub open spec fn names_a_set(domain: Seq<char>) -> bool {
    text::has_prefix(domain, "geosite:"@) || text::has_prefix(domain, "rule-set:"@)
}

/// The first of the domains from `from` on that is no domain.
pub open spec fn bad_domain(domains: Seq<Seq<char>>, from: int) -> Option<Seq<char>>
    decreases domains.len() - from,
{
    if from < 0 || from >= domains.len() {
        None
    } else {
        let domain = text::trimmed(domains[from]);
        if !names_a_set(domain) && trie::labels(domain) is None {
            Some(domain)
        } else {
            bad_domain(domains, from + 1)
        }
    }
}

/// A policy entry with its servers read, or what is wrong with it.
pub open spec fn policy_of(def: PolicyDef, machine: Machine) -> Result<
    (Seq<char>, Seq<NameServerView>),
    Seq<char>,
> {
    match nameservers(text::string_views(def.servers@), def.servers@.len() as int, machine) {
        Err(e) => Err(e),
        Ok(list) => match bad_domain(text::fields(def.domain@, ','), 0) {
            Some(domain) => Err("DNS ResolverRule invalid domain: "@ + domain),
            None => Ok((def.domain@, list)),
        },
    }
}

/// The first `n` policy entries with their servers read, or what is wrong with the first bad one.
pub open spec fn policies(defs: Seq<PolicyDef>, n: int, machine: Machine) -> Result<
    Seq<(Seq<char>, Seq<NameServerView>)>,
    Seq<char>,
>
    decreases n,
{
    if n <= 0 {
        Ok(Seq::empty())
    } else {
        match policies(defs, n - 1, machine) {
            Err(e) => Err(e),
            Ok(list) => match policy_of(defs[n - 1], machine) {
                Ok(p) => Ok(list.push(p)),
                Err(e) => Err(e),
            },
        }
    }
}

/// The policy entries of a list.
pub open spec fn policy_views(list: Seq<NameServerPolicy>) -> Seq<(Seq<char>, Seq<NameServerView>)> {
    list.map_values(|p: NameServerPolicy| (p.domain@, ns_views(p.nameservers@)))
}

/// The outcome is the expected policy, or the expected complaint.
pub open spec fn policies_are(
    res: Result<Vec<NameServerPolicy>, Error>,
    expected: Result<Seq<(Seq<char>, Seq<NameServerView>)>, Seq<char>>,
) -> bool {
    match (res, expected) {
        (Ok(v), Ok(list)) => policy_views(v@) == list,
        (Err(e), Err(text)) => e is InvalidConfig && e.text() == text,
        _ => false,
    }
}

proof fn lemma_policies_error(defs: Seq<PolicyDef>, n: int, m: int, machine: Machine)
    requires
        n <= m,
        policies(defs, n, machine) is Err,
    ensures
        policies(defs, m, machine) == policies(defs, n, machine),
    decreases m - n,
{
    if n < m {
        lemma_policies_error(defs, n, m - 1, machine);
    }
}

fn find_bad_domain(domain: &str) -> (res: Option<String>)
    ensures
        text::opt_view(res) == bad_domain(text::fields(domain@, ','), 0),
{
    let parts: Vec<Vec<char>> = text::split(&text::chars(domain), ',');
    let ghost all = text::fields(domain@, ',');
    let mut i: usize = 0;
    while i < parts.len()
        invariant
            i <= parts@.len(),
            text::views(parts@) == all,
            all == text::fields(domain@, ','),
            bad_domain(all, 0) == bad_domain(all, i as int),
        decreases parts@.len() - i,
    {
        assert(all[i as int] == parts@[i as int]@);
        let sub: Vec<char> = text::trim(&parts[i]);
        if !text::starts_with(&sub, &text::chars("geosite:")) && !text::starts_with(
            &sub,
            &text::chars("rule-set:"),
        ) && valid_and_split_domain(&sub).is_none() {
            return Some(text::text(&sub));
        }
        i = i + 1;
    }
    assert(all.len() == parts@.len());
    None
}

impl Config {
    /// Reads a list of servers. The text `system` is passed over.
    pub fn parse_nameserver(servers: &Vec<String>, machine: &Machine) -> (res: Result<
        Vec<NameServer>,
        Error,
    >)
        ensures
            servers_are(
                res,
                nameservers(text::string_views(servers@), servers@.len() as int, *machine),
            ),
    {
        let ghost all = text::string_views(servers@);
        let mut out: Vec<NameServer> = Vec::new();
        assert(ns_views(out@) =~= Seq::empty());
        let mut i: usize = 0;
        while i < servers.len()
            invariant
                i <= servers@.len(),
                all == text::string_views(servers@),
                nameservers(all, i as int, *machine) == Ok::<_, Seq<char>>(ns_views(out@)),
            decreases servers@.len() - i,
        {
            assert(all[i as int] == servers@[i as int]@);
            if !text::same(servers[i].as_str(), "system") {
                match parse_one(i, servers[i].as_str(), machine) {
                    Ok(ns) => {
                        let ghost before = out@;
                        out.push(ns);
                        assert(ns_views(out@) =~= ns_views(before).push(ns@));
                    },
                    Err(e) => {
                        proof {
                            lemma_nameservers_error(
                                all,
                                i + 1,
                                servers@.len() as int,
                                *machine,
                            );
                        }
                        return Err(e);
                    },
                }
            }
            i = i + 1;
        }
        Ok(out)
    }

    /// Reads a policy. The servers of an entry are read before its domains are looked at.
    pub fn parse_nameserver_policy(policy: &Vec<PolicyDef>, machine: &Machine) -> (res: Result<
        Vec<NameServerPolicy>,
        Error,
    >)
        ensures
            policies_are(res, policies(policy@, policy@.len() as int, *machine)),
    {
        let mut out: Vec<NameServerPolicy> = Vec::new();
        assert(policy_views(out@) =~= Seq::empty());
        let mut i: usize = 0;
        while i < policy.len()
            invariant
                i <= policy@.len(),
                policies(policy@, i as int, *machine) == Ok::<_, Seq<char>>(policy_views(out@)),
            decreases policy@.len() - i,
        {
            let list: Vec<NameServer> = match Config::parse_nameserver(&policy[i].servers, machine) {
                Ok(list) => list,
                Err(e) => {
                    proof {
                        lemma_policies_error(policy@, i + 1, policy@.len() as int, *machine);
                    }
                    return Err(e);
                },
            };
            match find_bad_domain(policy[i].domain.as_str()) {
                Some(domain) => {
                    proof {
                        lemma_policies_error(policy@, i + 1, policy@.len() as int, *machine);
                    }
                    return Err(
                        Error::InvalidConfig(
                            text::concat("DNS ResolverRule invalid domain: ", domain.as_str()),
                        ),
                    );
                },
                None => {},
            }
            let ghost before = out@;
            let ghost view = ns_views(list@);
            out.push(NameServerPolicy { domain: policy[i].domain.clone(), nameservers: list });
            assert(policy_views(out@) =~= policy_views(before).push((policy@[i as int].domain@, view)));
            i = i + 1;
        }
        Ok(out)
    }

    /// The outbound that a URL's fragment names.
    pub fn parse_outbound_proxy(url: &UrlParts) -> (res: Option<String>)
        ensures
            text::opt_view(res) == outbound_proxy(url@),
    {
        let frag: Vec<char> = match &url.fragment {
            Some(frag) => text::chars(frag.as_str()),
            None => return None,
        };
        let pairs: Vec<Vec<char>> = text::split(&frag, '&');
        let ghost all = text::fields(frag@, '&');
        let mut i: usize = 0;
        while i < pairs.len()
            invariant
                i <= pairs@.len(),
                text::views(pairs@) == all,
                outbound_proxy(url@) == first_proxy(all, i as int),
            decreases pairs@.len() - i,
        {
            assert(all[i as int] == pairs@[i as int]@);
            let found: Option<String> = read_proxy(&pairs[i]);
            if found.is_some() {
                return found;
            }
            i = i + 1;
        }
        assert(all.len() == pairs@.len());
        None
    }

    /// The interface that a URL's fragment names.
    pub fn parse_outbound_interface(url: &UrlParts) -> (res: Option<String>)
        ensures
            text::opt_view(res) == outbound_interface(url@),
    {
        let frag: Vec<char> = match &url.fragment {
            Some(frag) => text::chars(frag.as_str()),
            None => return None,
        };
        let pairs: Vec<Vec<char>> = text::split(&frag, '&');
        let ghost all = text::fields(frag@, '&');
        let mut i: usize = 0;
        while i < pairs.len()
            invariant
                i <= pairs@.len(),
                text::views(pairs@) == all,
                outbound_interface(url@) == first_interface(all, i as int),
            decreases pairs@.len() - i,
        {
            assert(all[i as int] == pairs@[i as int]@);
            let found: Option<String> = read_interface(&pairs[i]);
            if found.is_some() {
                return found;
            }
            i = i + 1;
        }
        assert(all.len() == pairs@.len());
        None
    }
}

/// A server without a scheme is the UDP server of that text; a bare IPv6 address is put in brackets
/// first. A text with a scheme is taken as it is.
pub proof fn law_server_without_scheme_is_udp(i: int, server: Seq<char>, machine: Machine)
    ensures
        !text::has_part(server, "://"@) && !server.contains(':') ==> nameserver_of(i, server, machine)
            == nameserver_of(i, "udp://"@ + server, machine),
        !text::has_part(server, "://"@) && server.contains(':') && server[0] == '[' ==> nameserver_of(
            i,
            server,
            machine,
        ) == nameserver_of(i, "udp://"@ + server, machine),
        !text::has_part(server, "://"@) && server.contains(':') && server[0] != '[' ==> nameserver_of(
            i,
            server,
            machine,
        ) == nameserver_of(i, "udp://["@ + server + "]"@, machine),
        text::has_part(server, "://"@) ==> server_url(server) == server,
{
    reveal_strlit("://");
    reveal_strlit("udp://");
    reveal_strlit("udp://[");
    let plain = "udp://"@ + server;
    let boxed = "udp://["@ + server + "]"@;
    assert(plain.subrange(3, 3 + "://"@.len() as int) =~= "://"@);
    assert(boxed.subrange(3, 3 + "://"@.len() as int) =~= "://"@);
    assert(text::has_part(plain, "://"@));
    assert(text::has_part(boxed, "://"@));
}

/// A server listens on the port that its URL gives, and otherwise on that of its scheme. It has a
/// path only where it is asked over HTTP and its URL gives one; a domain that is an IPv4 address is
/// that address.
pub proof fn law_what_a_url_says(i: int, url: UrlView, written: Seq<char>, machine: Machine)
    ensures
        nameserver_at(i, url, written, machine) matches Ok(ns) ==> {
            &&& url.port matches Some(port) ==> ns.port == port
            &&& url.port is None ==> (match ns.net {
                DNSNetMode::Udp | DNSNetMode::Tcp => ns.port == 53,
                DNSNetMode::Tls => ns.port == 853,
                DNSNetMode::Https | DNSNetMode::H3 => ns.port == 443,
                DNSNetMode::Dhcp => ns.port == 0,
                DNSNetMode::Quic => false,
            })
            &&& ns.path matches Some(path) ==> (ns.net is Https || ns.net is H3) && path == url.path
                && path.len() > 0 && path != "/"@
            &&& (ns.net is Https || ns.net is H3) && url.path.len() > 0 && url.path != "/"@ ==> ns.path
                is Some
            &&& url.host matches Some(HostView::Domain(name)) ==> (match ip::v4_value(name) {
                Some(addr) => ns.host == HostView::Ipv4(addr as u32),
                None => ns.host == HostView::Domain(name),
            })
            &&& url.fragment is None ==> ns.proxy is None && ns.interface is None
        },
        url.host is None ==> nameserver_at(i, url, written, machine) is Err,
{
}

/// Each scheme is spoken in its own way, and no two schemes in the same.
pub proof fn law_schemes_differ(a: Seq<char>, b: Seq<char>)
    requires
        scheme_mode(a) is Some,
        scheme_mode(b) is Some,
        scheme_mode(a).unwrap().0 == scheme_mode(b).unwrap().0,
    ensures
        a == b,
        scheme_mode(a).unwrap().0 is Udp ==> a == "udp"@,
        scheme_mode(a).unwrap().0 is Tcp ==> a == "tcp"@,
        scheme_mode(a).unwrap().0 is Tls ==> a == "tls"@,
        scheme_mode(a).unwrap().0 is Https ==> a == "https"@,
        scheme_mode(a).unwrap().0 is H3 ==> a == "h3"@,
        scheme_mode(a).unwrap().0 is Dhcp ==> a == "dhcp"@,
{
}

/// A fragment that is one plain name, without an ampersand or an equals sign, names the outbound, and
/// no interface.
pub proof fn law_plain_fragment_names_outbound(url: UrlView, name: Seq<char>)
    requires
        url.fragment == Some(name),
        !name.contains('&'),
        !name.contains('='),
        uri::decoded(name).len() > 0,
        name.len() > 0,
    ensures
        outbound_proxy(url) == Some(uri::decoded(name)),
        outbound_interface(url) is None,
{
    reveal_strlit("proxy=");
    reveal_strlit("interface=");
    assert forall|i: int| 0 <= i < name.len() implies name[i] != '&' && name[i] != '=' by {
        assert(name.contains(name[i]));
    }
    text::lemma_one_field(name, '&');
    if text::has_prefix(name, "proxy="@) {
        assert(name.take("proxy="@.len() as int)[5] == name[5]);
    }
    if text::has_prefix(name, "interface="@) {
        assert(name.take("interface="@.len() as int)[9] == name[9]);
    }
    reveal_with_fuel(first_proxy, 2);
    reveal_with_fuel(first_interface, 2);
}

/// A part `proxy=` of a fragment names the outbound and a part `interface=` the interface, in either
/// order.
pub proof fn law_named_parts_of_a_fragment(a: Seq<char>, b: Seq<char>, proxy: Seq<char>, iface: Seq<char>)
    requires
        a == "proxy="@ + proxy,
        b == "interface="@ + iface,
        uri::decoded(proxy).len() > 0,
        uri::decoded(iface).len() > 0,
    ensures
        first_proxy(seq![a, b], 0) == Some(uri::decoded(proxy)),
        first_proxy(seq![b, a], 0) == Some(uri::decoded(proxy)),
        first_interface(seq![a, b], 0) == Some(uri::decoded(iface)),
        first_interface(seq![b, a], 0) == Some(uri::decoded(iface)),
{
    reveal_strlit("proxy=");
    reveal_strlit("interface=");
    assert(a.take("proxy="@.len() as int) =~= "proxy="@);
    assert(a.skip("proxy="@.len() as int) =~= proxy);
    assert(b.take("interface="@.len() as int) =~= "interface="@);
    assert(b.skip("interface="@.len() as int) =~= iface);
    assert(a[0] == 'p' && b[0] == 'i' && b[9] == '=');
    assert(b.contains('='));
    if text::has_prefix(a, "interface="@) {
        assert(a.take("interface="@.len() as int)[0] == a[0]);
    }
    if text::has_prefix(b, "proxy="@) {
        assert(b.take("proxy="@.len() as int)[0] == b[0]);
    }
    reveal_with_fuel(first_proxy, 3);
    reveal_with_fuel(first_interface, 3);
}

/// A list of servers is read in order, each at its place; the text `system` names none. One server
/// that cannot be read spoils the list.
pub proof fn law_servers_are_read_in_order(servers: Seq<Seq<char>>, n: int, machine: Machine)
    requires
        0 <= n <= servers.len(),
    ensures
        nameservers(servers, n, machine) is Err <==> exists|i: int|
            0 <= i < n && #[trigger] servers[i] != "system"@ && nameserver_of(i, servers[i], machine)
                is Err,
        nameservers(servers, n, machine) matches Ok(list) ==> list.len() <= n && forall|k: int|
            0 <= k < list.len() ==> exists|i: int|
                0 <= i < n && nameserver_of(i, #[trigger] servers[i], machine) == Ok::<
                    NameServerView,
                    Seq<char>,
                >(#[trigger] list[k]),
        (forall|i: int| 0 <= i < n ==> #[trigger] servers[i] != "system"@) ==> (nameservers(
            servers,
            n,
            machine,
        ) matches Ok(list) ==> list.len() == n && forall|i: int|
            0 <= i < n ==> nameserver_of(i, servers[i], machine) == Ok::<NameServerView, Seq<char>>(
                #[trigger] list[i],
            )),
    decreases n,
{
    if n > 0 {
        law_servers_are_read_in_order(servers, n - 1, machine);
        if nameservers(servers, n, machine) is Err {
            if nameservers(servers, n - 1, machine) is Ok {
                assert(servers[n - 1] != "system"@);
            }
        }
        if let Ok(list) = nameservers(servers, n, machine) {
            let before = nameservers(servers, n - 1, machine)->Ok_0;
            assert forall|k: int| 0 <= k < list.len() implies exists|i: int|
                0 <= i < n && nameserver_of(i, #[trigger] servers[i], machine) == Ok::<
                    NameServerView,
                    Seq<char>,
                >(#[trigger] list[k]) by {
                if k < before.len() {
                    assert(before[k] == list[k]);
                    let i = choose|i: int|
                        0 <= i < n - 1 && nameserver_of(i, #[trigger] servers[i], machine) == Ok::<
                            NameServerView,
                            Seq<char>,
                        >(before[k]);
                    assert(nameserver_of(i, servers[i], machine) == Ok::<NameServerView, Seq<char>>(
                        list[k],
                    ));
                } else {
                    assert(nameserver_of(n - 1, servers[n - 1], machine) == Ok::<
                        NameServerView,
                        Seq<char>,
                    >(list[k]));
                }
            }
        }
    }
}

/// Policies are read in their order, each with its own servers. One that cannot be read spoils them
/// all, and the first such one is told.
pub proof fn law_policies_are_read_in_order(defs: Seq<PolicyDef>, n: int, machine: Machine)
    requires
        0 <= n <= defs.len(),
    ensures
        policies(defs, n, machine) is Ok <==> forall|i: int|
            0 <= i < n ==> policy_of(#[trigger] defs[i], machine) is Ok,
        policies(defs, n, machine) matches Ok(list) ==> list.len() == n && forall|i: int|
            0 <= i < n ==> policy_of(#[trigger] defs[i], machine) == Ok::<
                (Seq<char>, Seq<NameServerView>),
                Seq<char>,
            >(list[i]),
        policies(defs, n, machine) matches Err(why) ==> exists|i: int|
            0 <= i < n && policy_of(#[trigger] defs[i], machine) == Err::<
                (Seq<char>, Seq<NameServerView>),
                Seq<char>,
            >(why) && forall|k: int| 0 <= k < i ==> policy_of(#[trigger] defs[k], machine) is Ok,
    decreases n,
{
    if n > 0 {
        law_policies_are_read_in_order(defs, n - 1, machine);
        if policies(defs, n, machine) is Ok {
            assert forall|i: int| 0 <= i < n implies policy_of(#[trigger] defs[i], machine) is Ok by {
                if i < n - 1 {
                    assert(policy_of(defs[i], machine) is Ok);
                }
            }
        } else if policies(defs, n - 1, machine) is Ok {
            assert(policy_of(defs[n - 1], machine) is Err);
        } else {
            let why = policies(defs, n - 1, machine)->Err_0;
            let i = choose|i: int|
                0 <= i < n - 1 && policy_of(#[trigger] defs[i], machine) == Err::<
                    (Seq<char>, Seq<NameServerView>),
                    Seq<char>,
                >(why) && forall|k: int|
                    0 <= k < i ==> policy_of(#[trigger] defs[k], machine) is Ok;
            assert(0 <= i < n && policy_of(defs[i], machine) is Err);
        }
    }
}

/// A policy is for the domains it names and has the servers it names, in their order. A part that is
/// neither a domain nor the name of a set spoils it.
pub proof fn law_policy_names_its_domains(def: PolicyDef, machine: Machine, i: int)
    requires
        0 <= i < text::fields(def.domain@, ',').len(),
    ensures
        policy_of(def, machine) matches Ok(p) ==> {
            let part = text::trimmed(text::fields(def.domain@, ',')[i]);
            &&& p.0 == def.domain@
            &&& nameservers(text::string_views(def.servers@), def.servers@.len() as int, machine)
                == Ok::<Seq<NameServerView>, Seq<char>>(p.1)
            &&& names_a_set(part) || trie::labels(part) is Some
        },
{
    if policy_of(def, machine) is Ok {
        lemma_no_bad_domain(text::fields(def.domain@, ','), 0, i);
    }
}

proof fn lemma_no_bad_domain(domains: Seq<Seq<char>>, from: int, i: int)
    requires
        0 <= from <= i < domains.len(),
        bad_domain(domains, from) is None,
    ensures
        names_a_set(text::trimmed(domains[i])) || trie::labels(text::trimmed(domains[i])) is Some,
    decreases i - from,
{
    if from < i {
        lemma_no_bad_domain(domains, from + 1, i);
    }
}

/// A part of a fragment names an outbound or an interface only where something stands in it; a part of
/// another kind names neither.
pub proof fn law_empty_part_names_nothing(pair: Seq<char>)
    ensures
        interface_in(pair) matches Some(name) ==> name.len() > 0 && text::has_prefix(
            pair,
            "interface="@,
        ),
        proxy_in(pair) matches Some(name) ==> name.len() > 0 && (text::has_prefix(pair, "proxy="@)
            || !pair.contains('=')),
        pair.len() == 0 ==> proxy_in(pair) is None && interface_in(pair) is None,
{
    reveal_strlit("interface=");
    reveal_strlit("proxy=");
}

} // verus!
