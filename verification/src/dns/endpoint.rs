//! Addresses of DNS servers: host, port, path and server name.
use vstd::prelude::*;

use crate::ip;
use crate::ip::{parse_ip, IpAddr, SocketAddr};
use crate::text;

verus! {

/// Which addresses of a server are tried, and in what order.
#[derive(Clone, Copy, Debug, PartialEq, Eq, Structural)]
pub enum DnsStrategy {
    PreferIpv4,
    PreferIpv6,
    Ipv4Only,
    Ipv6Only,
    Both,
}

impl DnsStrategy {
    /// What the strategy is called.
    pub open spec fn name(&self) -> Seq<char> {
        match self {
            DnsStrategy::PreferIpv4 => "PreferIpv4"@,
            DnsStrategy::PreferIpv6 => "PreferIpv6"@,
            DnsStrategy::Ipv4Only => "Ipv4Only"@,
            DnsStrategy::Ipv6Only => "Ipv6Only"@,
            DnsStrategy::Both => "Both"@,
        }
    }

    /// What the strategy is called.
    pub fn as_text(&self) -> (res: &'static str)
        ensures
            res@ == self.name(),
    {
        match self {
            DnsStrategy::PreferIpv4 => "PreferIpv4",
            DnsStrategy::PreferIpv6 => "PreferIpv6",
            DnsStrategy::Ipv4Only => "Ipv4Only",
            DnsStrategy::Ipv6Only => "Ipv6Only",
            DnsStrategy::Both => "Both",
        }
    }
}

impl Default for DnsStrategy {
    fn default() -> (res: DnsStrategy)
        ensures
            res == DnsStrategy::PreferIpv4,
    {
        DnsStrategy::PreferIpv4
    }
}

/// How a server is spoken to.
#[derive(Clone, Copy, Debug, PartialEq, Eq, Structural)]
pub enum DnsProtocol {
    Udp,
    Tcp,
    Tls,
    Https,
    Quic,
    H3,
}

impl DnsProtocol {
    /// The port that is used when none is given.
    pub open spec fn default_port(&self) -> u16 {
        match self {
            DnsProtocol::Udp | DnsProtocol::Tcp => 53,
            DnsProtocol::Tls | DnsProtocol::Quic => 853,
            DnsProtocol::Https | DnsProtocol::H3 => 443,
        }
    }

    /// The protocol's requests have a path.
    pub open spec fn has_path(&self) -> bool {
        self is Https || self is H3
    }
}

/// Why an address cannot be read.
#[derive(Clone, Copy, Debug, PartialEq, Eq, Structural)]
pub enum EndpointError {
    Empty,
    UnclosedBracket,
    InvalidPort,
    TrailingText,
}

/// The address without its path, and the path with its slash.
pub open spec fn hostport_path(address: Seq<char>) -> (Seq<char>, Seq<char>) {
    let slash = text::first_of(address, '/');
    (address.take(slash), address.skip(slash))
}

/// A port.
pub open spec fn port_value(s: Seq<char>) -> Result<Option<u16>, EndpointError> {
    match text::number(s, 65535) {
        Some(n) => Ok(Some(n as u16)),
        None => Err(EndpointError::InvalidPort),
    }
}

/// The host and the port. A host in brackets may hold colons; one without brackets and with more
/// than one colon is an IPv6 address without a port.
pub open spec fn host_port(s: Seq<char>) -> Result<(Seq<char>, Option<u16>), EndpointError> {
    if s.len() > 0 && s[0] == '[' {
        let close = text::first_of(s, ']');
        if close >= s.len() {
            Err(EndpointError::UnclosedBracket)
        } else {
            let host = s.subrange(1, close);
            let rest = s.skip(close + 1);
            if rest.len() == 0 {
                Ok((host, None))
            } else if rest[0] == ':' {
                match port_value(rest.skip(1)) {
                    Ok(port) => Ok((host, port)),
                    Err(e) => Err(e),
                }
            } else {
                Err(EndpointError::TrailingText)
            }
        }
    } else {
        let colon = text::last_of(s, ':');
        if colon < 0 || s.take(colon).contains(':') {
            Ok((s, None))
        } else {
            match port_value(s.skip(colon + 1)) {
                Ok(port) => Ok((s.take(colon), port)),
                Err(e) => Err(e),
            }
        }
    }
}

/// A request path: the usual one where none is given, and always with a slash in front.
pub open spec fn normal_path(path: Seq<char>) -> Seq<char> {
    let trimmed = text::trimmed(path);
    if trimmed.len() == 0 {
        "/dns-query"@
    } else if trimmed[0] == '/' {
        trimmed
    } else {
        seq!['/'] + trimmed
    }
}

fn split_hostport_path(address: &[char]) -> (res: (Vec<char>, Vec<char>))
    ensures
        res.0@ == hostport_path(address@).0,
        res.1@ == hostport_path(address@).1,
{
    let slash: usize = match text::find(address, '/') {
        Some(i) => i,
        None => address.len(),
    };
    let head: Vec<char> = text::slice(address, 0, slash);
    let tail: Vec<char> = text::slice(address, slash, address.len());
    assert(head@ =~= address@.take(slash as int));
    assert(tail@ =~= address@.skip(slash as int));
    (head, tail)
}

fn split_host_port(s: &[char]) -> (res: Result<(Vec<char>, Option<u16>), EndpointError>)
    ensures
        match (host_port(s@), res) {
            (Ok((host, port)), Ok((h, p))) => h@ == host && p == port,
            (Err(e), Err(f)) => e == f,
            _ => false,
        },
{
    if s.len() > 0 && s[0] == '[' {
        let close: usize = match text::find(s, ']') {
            Some(i) => i,
            None => return Err(EndpointError::UnclosedBracket),
        };
        proof {
            text::lemma_first_of(s@, ']');
        }
        let host: Vec<char> = text::slice(s, 1, close);
        let rest: Vec<char> = text::slice(s, close + 1, s.len());
        assert(rest@ =~= s@.skip(close + 1));
        if rest.len() == 0 {
            return Ok((host, None));
        }
        if rest[0] != ':' {
            return Err(EndpointError::TrailingText);
        }
        let digits: Vec<char> = text::slice(&rest, 1, rest.len());
        assert(digits@ =~= rest@.skip(1));
        return match text::parse_number(&digits, 65535) {
            Some(n) => Ok((host, Some(n as u16))),
            None => Err(EndpointError::InvalidPort),
        };
    }
    let colon: usize = match text::rfind(s, ':') {
        Some(i) => i,
        None => {
            let host: Vec<char> = text::slice(s, 0, s.len());
            assert(host@ =~= s@);
            return Ok((host, None));
        },
    };
    let host: Vec<char> = text::slice(s, 0, colon);
    assert(host@ =~= s@.take(colon as int));
    if text::find(&host, ':').is_some() {
        let all: Vec<char> = text::slice(s, 0, s.len());
        assert(all@ =~= s@);
        return Ok((all, None));
    }
    let digits: Vec<char> = text::slice(s, colon + 1, s.len());
    assert(digits@ =~= s@.skip(colon + 1));
    match text::parse_number(&digits, 65535) {
        Some(n) => Ok((host, Some(n as u16))),
        None => Err(EndpointError::InvalidPort),
    }
}

fn normalize_path(path: &[char]) -> (res: Vec<char>)
    ensures
        res@ == normal_path(path@),
{
    let trimmed: Vec<char> = text::trim(path);
    if trimmed.len() == 0 {
        text::chars("/dns-query")
    } else if trimmed[0] == '/' {
        trimmed
    } else {
        let mut res: Vec<char> = Vec::new();
        res.push('/');
        text::append(&mut res, &trimmed);
        assert(res@ =~= seq!['/'] + trimmed@);
        res
    }
}

/// The address of a DNS server.
#[derive(Debug)]
pub struct DnsEndpoint {
    pub host: String,
    pub port: u16,
    /// The request path, where the protocol has one.
    pub path: String,
    /// The name that the server proves in its certificate.
    pub sni: String,
    pub strategy: DnsStrategy,
}

/// What an address says of a server.
pub struct EndpointView {
    pub host: Seq<char>,
    pub port: u16,
    pub path: Seq<char>,
    pub sni: Seq<char>,
}

/// What an address says of a server that is spoken to in a protocol. A server name that is given
/// and not blank is used; else the host is.
pub open spec fn endpoint_of(
    address: Seq<char>,
    protocol: DnsProtocol,
    server_name: Option<Seq<char>>,
) -> Result<EndpointView, EndpointError> {
    let trimmed = text::trimmed(address);
    if trimmed.len() == 0 {
        Err(EndpointError::Empty)
    } else {
        let (hostport, path) = hostport_path(trimmed);
        match host_port(hostport) {
            Err(e) => Err(e),
            Ok((host, port)) => Ok(
                EndpointView {
                    host,
                    port: match port {
                        Some(p) => p,
                        None => protocol.default_port(),
                    },
                    path: if protocol.has_path() {
                        normal_path(path)
                    } else {
                        Seq::empty()
                    },
                    sni: match server_name {
                        Some(name) => if text::trimmed(name).len() > 0 {
                            text::trimmed(name)
                        } else {
                            host
                        },
                        None => host,
                    },
                },
            ),
        }
    }
}

/// The addresses of one version, in order.
pub open spec fn of_version(ips: Seq<IpAddr>, v6: bool) -> Seq<IpAddr> {
    ips.filter(|ip: IpAddr| (ip is V6) == v6)
}

/// The addresses that a strategy allows, the preferred version first.
pub open spec fn ordered(ips: Seq<IpAddr>, strategy: DnsStrategy) -> Seq<IpAddr> {
    let v4 = of_version(ips, false);
    let v6 = of_version(ips, true);
    match strategy {
        DnsStrategy::PreferIpv6 => v6 + v4,
        DnsStrategy::Ipv4Only => v4,
        DnsStrategy::Ipv6Only => v6,
        DnsStrategy::PreferIpv4 | DnsStrategy::Both => v4 + v6,
    }
}

/// What is to be done to find the addresses of a server.
#[derive(Clone, Debug, PartialEq, Eq)]
pub enum AddrsStep {
    /// These are the addresses, in the order in which they are tried.
    Done(Vec<SocketAddr>),
    /// There are none, and this is why.
    Failed(String),
    /// Ask the resolver of names of servers for an address of either version.
    AskResolver,
    /// Ask the machine.
    AskMachine,
}

/// Addresses with a port.
pub open spec fn at_port(ips: Seq<IpAddr>, port: u16) -> Seq<SocketAddr> {
    Seq::new(ips.len(), |i: int| SocketAddr { ip: ips[i], port, scope_id: 0 })
}

/// The addresses that a lookup of both versions found, IPv4 first.
pub open spec fn both_versions(v4: Option<u32>, v6: Option<u128>) -> Seq<IpAddr> {
    (match v4 {
        Some(addr) => seq![IpAddr::V4(addr)],
        None => Seq::empty(),
    }) + (match v6 {
        Some(addr) => seq![IpAddr::V6(addr)],
        None => Seq::empty(),
    })
}

/// Gives addresses a port.
fn add_port(ips: &Vec<IpAddr>, port: u16) -> (res: Vec<SocketAddr>)
    ensures
        res@ == at_port(ips@, port),
{
    let mut out: Vec<SocketAddr> = Vec::new();
    let mut i: usize = 0;
    while i < ips.len()
        invariant
            i <= ips@.len(),
            out@ =~= at_port(ips@, port).take(i as int),
        decreases ips@.len() - i,
    {
        out.push(SocketAddr { ip: ips[i], port, scope_id: 0 });
        i = i + 1;
    }
    assert(at_port(ips@, port).take(i as int) =~= at_port(ips@, port));
    out
}

impl DnsEndpoint {
    /// The host's addresses are these: they are tried as the strategy says, and it has to allow one
    /// of them.
    pub open spec fn settled(&self, ips: Seq<IpAddr>, step: AddrsStep) -> bool {
        let allowed = ordered(ips, self.strategy);
        match step {
            AddrsStep::Done(addrs) => allowed.len() > 0 && addrs@ == at_port(allowed, self.port),
            AddrsStep::Failed(e) => allowed.len() == 0 && e@ == "bootstrap resolve '"@ + self.host@
                + "' had no addresses matching strategy "@ + self.strategy.name(),
            _ => false,
        }
    }

    /// What is to be done to find the server's addresses. A host that is an address needs no
    /// lookup; a name is looked up by the resolver of names of servers, where there is one.
    pub fn resolve_addrs(&self, has_resolver: bool) -> (res: AddrsStep)
        ensures
            match ip::ip_value(self.host@) {
                Some(addr) => self.settled(seq![addr], res),
                None => res == if has_resolver {
                    AddrsStep::AskResolver
                } else {
                    AddrsStep::AskMachine
                },
            },
    {
        match parse_ip(self.host.as_str()) {
            Some(addr) => {
                let mut ips: Vec<IpAddr> = Vec::new();
                ips.push(addr);
                assert(ips@ =~= seq![addr]);
                self.on_found(&ips)
            },
            None => if has_resolver {
                AddrsStep::AskResolver
            } else {
                AddrsStep::AskMachine
            },
        }
    }

    /// The server's addresses, once the resolver of names of servers was asked for either version.
    pub fn on_resolved(&self, v4: Option<u32>, v6: Option<u128>) -> (res: AddrsStep)
        ensures
            v4 is None && v6 is None ==> (res matches AddrsStep::Failed(e) && e@
                == "bootstrap resolve '"@ + self.host@ + "' returned no addresses"@),
            v4 is Some || v6 is Some ==> self.settled(both_versions(v4, v6), res),
    {
        let mut ips: Vec<IpAddr> = Vec::new();
        if let Some(addr) = v4 {
            ips.push(IpAddr::V4(addr));
        }
        if let Some(addr) = v6 {
            ips.push(IpAddr::V6(addr));
        }
        assert(ips@ =~= both_versions(v4, v6));
        if ips.len() == 0 {
            let head: String = text::concat("bootstrap resolve '", self.host.as_str());
            return AddrsStep::Failed(text::concat(head.as_str(), "' returned no addresses"));
        }
        self.on_found(&ips)
    }

    /// The server's addresses, once the host's are known.
    pub fn on_found(&self, ips: &Vec<IpAddr>) -> (res: AddrsStep)
        ensures
            self.settled(ips@, res),
    {
        match self.order_addrs(ips) {
            Some(allowed) => AddrsStep::Done(add_port(&allowed, self.port)),
            None => {
                let mut why: Vec<char> = text::chars("bootstrap resolve '");
                text::append(&mut why, &text::chars(self.host.as_str()));
                text::append(&mut why, &text::chars("' had no addresses matching strategy "));
                text::append(&mut why, &text::chars(self.strategy.as_text()));
                AddrsStep::Failed(text::text(&why))
            },
        }
    }

    /// Reads the address of a server.
    pub fn parse(
        address: &str,
        protocol: DnsProtocol,
        tls_server_name: &Option<String>,
        strategy: DnsStrategy,
    ) -> (res: Result<DnsEndpoint, EndpointError>)
        ensures
            match (
                endpoint_of(
                    address@,
                    protocol,
                    match tls_server_name {
                        Some(name) => Some(name@),
                        None => None,
                    },
                ),
                res,
            ) {
                (Ok(view), Ok(endpoint)) => {
                    &&& endpoint.host@ == view.host
                    &&& endpoint.port == view.port
                    &&& endpoint.path@ == view.path
                    &&& endpoint.sni@ == view.sni
                    &&& endpoint.strategy == strategy
                },
                (Err(e), Err(f)) => e == f,
                _ => false,
            },
    {
        let trimmed: Vec<char> = text::trim(&text::chars(address));
        if trimmed.len() == 0 {
            return Err(EndpointError::Empty);
        }
        let (hostport, path_raw) = split_hostport_path(&trimmed);
        let (host, port_opt): (Vec<char>, Option<u16>) = match split_host_port(&hostport) {
            Ok(parts) => parts,
            Err(e) => return Err(e),
        };
        let port: u16 = match port_opt {
            Some(p) => p,
            None => match protocol {
                DnsProtocol::Udp | DnsProtocol::Tcp => 53,
                DnsProtocol::Tls | DnsProtocol::Quic => 853,
                DnsProtocol::Https | DnsProtocol::H3 => 443,
            },
        };
        let path: Vec<char> = match protocol {
            DnsProtocol::Https | DnsProtocol::H3 => normalize_path(&path_raw),
            _ => Vec::new(),
        };
        assert(!protocol.has_path() ==> path@ =~= Seq::<char>::empty());
        let name: Vec<char> = match tls_server_name {
            Some(name) => text::trim(&text::chars(name.as_str())),
            None => Vec::new(),
        };
        let sni: String = if name.len() > 0 {
            text::text(&name)
        } else {
            text::text(&host)
        };
        Ok(
            DnsEndpoint {
                host: text::text(&host),
                port,
                path: text::text(&path),
                sni,
                strategy,
            },
        )
    }

    /// Puts a server's addresses in the order in which they are tried; `None` when the strategy
    /// allows none of them.
    pub fn order_addrs(&self, ips: &Vec<IpAddr>) -> (res: Option<Vec<IpAddr>>)
        ensures
            res is None <==> ordered(ips@, self.strategy).len() == 0,
            res matches Some(v) ==> v@ == ordered(ips@, self.strategy),
    {
        let v4: Vec<IpAddr> = pick_version(ips, false);
        let v6: Vec<IpAddr> = pick_version(ips, true);
        let all: Vec<IpAddr> = match self.strategy {
            DnsStrategy::PreferIpv6 => join_addrs(v6, &v4),
            DnsStrategy::Ipv4Only => v4,
            DnsStrategy::Ipv6Only => v6,
            DnsStrategy::PreferIpv4 | DnsStrategy::Both => join_addrs(v4, &v6),
        };
        if all.len() == 0 {
            None
        } else {
            Some(all)
        }
    }
}

fn join_addrs(first: Vec<IpAddr>, second: &Vec<IpAddr>) -> (res: Vec<IpAddr>)
    ensures
        res@ == first@ + second@,
{
    let mut all: Vec<IpAddr> = first;
    let mut i: usize = 0;
    while i < second.len()
        invariant
            i <= second@.len(),
            all@ == first@ + second@.take(i as int),
        decreases second@.len() - i,
    {
        all.push(second[i]);
        i = i + 1;
    }
    assert(second@.take(i as int) =~= second@);
    all
}

/// The addresses of one version, in order.
pub fn pick_version(ips: &Vec<IpAddr>, v6: bool) -> (res: Vec<IpAddr>)
    ensures
        res@ == of_version(ips@, v6),
{
    let mut out: Vec<IpAddr> = Vec::new();
    let mut i: usize = 0;
    proof {
        reveal(Seq::filter);
    }
    assert(of_version(ips@.take(0), v6) =~= Seq::empty());
    while i < ips.len()
        invariant
            i <= ips@.len(),
            out@ == of_version(ips@.take(i as int), v6),
        decreases ips@.len() - i,
    {
        proof {
            reveal(Seq::filter);
            assert(ips@.take(i + 1).drop_last() =~= ips@.take(i as int));
        }
        let is6: bool = match ips[i] {
            IpAddr::V4(_) => false,
            IpAddr::V6(_) => true,
        };
        if is6 == v6 {
            out.push(ips[i]);
        }
        i = i + 1;
    }
    assert(ips@.take(i as int) =~= ips@);
    out
}

proof fn lemma_number_text(n: nat, max: int)
    requires
        n <= max,
    ensures
        text::number(text::number_text(n), max) == Some(n as int),
        forall|i: int|
            0 <= i < text::number_text(n).len() ==> '0' <= #[trigger] text::number_text(n)[i] <= '9',
        text::number_text(n).len() > 0,
{
    text::law_number_read_back(n);
    let s = text::number_text(n);
    assert('0' <= s[0] <= '9');
}

proof fn lemma_last_of(s: Seq<char>, c: char, at: int)
    requires
        -1 <= at < s.len(),
        at >= 0 ==> s[at] == c,
        forall|i: int| at < i < s.len() ==> s[i] != c,
    ensures
        text::last_of(s, c) == at,
    decreases s.len(),
{
    if s.len() > 0 && at < s.len() - 1 {
        lemma_last_of(s.drop_last(), c, at);
    }
}

/// A host and a port that are written with a colon between them are read back; a host alone has no
/// port. A host in brackets may hold colons, and one with several colons is a host alone.
pub proof fn law_host_and_port_read_back(host: Seq<char>, port: u16)
    ensures
        !host.contains(':') && !(host.len() > 0 && host[0] == '[') ==> host_port(host) == Ok::<
            (Seq<char>, Option<u16>),
            EndpointError,
        >((host, None)),
        !host.contains(':') && !(host.len() > 0 && host[0] == '[') ==> host_port(
            host + seq![':'] + text::number_text(port as nat),
        ) == Ok::<(Seq<char>, Option<u16>), EndpointError>((host, Some(port))),
        !host.contains(']') ==> host_port(seq!['['] + host + seq![']']) == Ok::<
            (Seq<char>, Option<u16>),
            EndpointError,
        >((host, None)),
        !host.contains(']') ==> host_port(
            seq!['['] + host + seq![']', ':'] + text::number_text(port as nat),
        ) == Ok::<(Seq<char>, Option<u16>), EndpointError>((host, Some(port))),
        forall|i: int, j: int|
            0 <= i < j < host.len() && #[trigger] host[i] == ':' && #[trigger] host[j] == ':'
                && host[0] != '[' ==> host_port(host) == Ok::<
                (Seq<char>, Option<u16>),
                EndpointError,
            >((host, None)),
{
    let digits = text::number_text(port as nat);
    lemma_number_text(port as nat, 65535);
    if !host.contains(':') && !(host.len() > 0 && host[0] == '[') {
        lemma_last_of(host, ':', -1);
        let s = host + seq![':'] + digits;
        let at = host.len() as int;
        assert(s[at] == ':');
        assert forall|i: int| at < i < s.len() implies s[i] != ':' by {
            assert(s[i] == digits[i - at - 1]);
        }
        lemma_last_of(s, ':', at);
        assert(s.take(at) =~= host);
        assert(s.skip(at + 1) =~= digits);
        assert(s[0] != '[') by {
            if host.len() > 0 {
                assert(s[0] == host[0]);
            }
        }
    }
    if !host.contains(']') {
        let s = seq!['['] + host + seq![']'];
        let t = seq!['['] + host + seq![']', ':'] + digits;
        let at = (host.len() + 1) as int;
        assert(s[0] == '[' && s[at] == ']' && t[0] == '[' && t[at] == ']' && t[at + 1] == ':');
        assert forall|i: int| 0 <= i < at implies s[i] != ']' && t[i] != ']' by {
            if i > 0 {
                assert(s[i] == host[i - 1] && t[i] == host[i - 1]);
                assert(host.contains(host[i - 1]));
            }
        }
        text::lemma_first_of_is(s, ']', at);
        text::lemma_first_of_is(t, ']', at);
        assert(s.subrange(1, at) =~= host);
        assert(t.subrange(1, at) =~= host);
        assert(s.skip(at + 1) =~= Seq::empty());
        assert(t.skip(at + 1).skip(1) =~= digits);
        assert(t.skip(at + 1)[0] == ':');
    }
    assert forall|i: int, j: int|
        0 <= i < j < host.len() && #[trigger] host[i] == ':' && #[trigger] host[j] == ':' && host[0]
            != '[' implies host_port(host) == Ok::<(Seq<char>, Option<u16>), EndpointError>(
        (host, None),
    ) by {
        lemma_last_at_least(host, ':', j);
        let colon = text::last_of(host, ':');
        assert(host.take(colon)[i] == ':');
    }
}

proof fn lemma_last_at_least(s: Seq<char>, c: char, at: int)
    requires
        0 <= at < s.len(),
        s[at] == c,
    ensures
        at <= text::last_of(s, c) < s.len(),
    decreases s.len(),
{
    if s.last() != c {
        lemma_last_at_least(s.drop_last(), c, at);
    }
}

/// The port of a server is the one that its address gives, and otherwise that of its protocol: 53 in
/// the clear, 853 under TLS and QUIC, 443 over HTTP. Only a server over HTTP has a path, and its path
/// starts with a slash. The name it proves is the one that is given, and otherwise its host.
pub proof fn law_what_an_address_says(
    address: Seq<char>,
    protocol: DnsProtocol,
    server_name: Option<Seq<char>>,
)
    ensures
        endpoint_of(address, protocol, server_name) matches Ok(e) ==> {
            &&& !(protocol is Https) && !(protocol is H3) ==> e.path.len() == 0
            &&& protocol is Https || protocol is H3 ==> e.path.len() > 0 && e.path[0] == '/'
            &&& server_name is None ==> e.sni == e.host
            &&& server_name matches Some(name) ==> (text::trimmed(name).len() > 0 ==> e.sni
                == text::trimmed(name))
            &&& server_name matches Some(name) ==> (text::trimmed(name).len() == 0 ==> e.sni == e.host)
            &&& host_port(hostport_path(text::trimmed(address)).0) matches Ok((host, port)) && host
                == e.host && (match port {
                Some(p) => e.port == p,
                None => e.port == (match protocol {
                    DnsProtocol::Udp | DnsProtocol::Tcp => 53u16,
                    DnsProtocol::Tls | DnsProtocol::Quic => 853u16,
                    DnsProtocol::Https | DnsProtocol::H3 => 443u16,
                }),
            })
        },
        text::trimmed(address).len() == 0 <==> endpoint_of(address, protocol, server_name) == Err::<
            EndpointView,
            EndpointError,
        >(EndpointError::Empty),
{
    reveal_strlit("/dns-query");
    assert("/dns-query"@[0] == '/' && "/dns-query"@.len() > 0);
}

/// A path that was made regular stays as it is.
pub proof fn law_path_is_regular_once(path: Seq<char>)
    requires
        path.len() > 0,
        path[0] == '/',
        text::trimmed(path) == path,
    ensures
        normal_path(path) == path,
{
}

/// The addresses that are tried are those that the server has, of the versions that the strategy
/// allows and no others, each version in its order; the preferred version goes first.
pub proof fn law_strategy_picks_and_orders(ips: Seq<IpAddr>, strategy: DnsStrategy, addr: IpAddr)
    ensures
        ordered(ips, strategy).contains(addr) <==> ips.contains(addr) && (strategy is Ipv4Only
            ==> addr is V4) && (strategy is Ipv6Only ==> addr is V6),
        forall|i: int, j: int|
            0 <= i < j < ordered(ips, strategy).len() ==> (if strategy is PreferIpv6 {
                (#[trigger] ordered(ips, strategy)[i]) is V4 ==> (#[trigger] ordered(
                    ips,
                    strategy,
                )[j]) is V4
            } else {
                ordered(ips, strategy)[i] is V6 ==> ordered(ips, strategy)[j] is V6
            }),
{
    let v4 = of_version(ips, false);
    let v6 = of_version(ips, true);
    let all = ordered(ips, strategy);
    lemma_of_version(ips, false, addr);
    lemma_of_version(ips, true, addr);
    if v4.contains(addr) {
        let i = choose|i: int| 0 <= i < v4.len() && v4[i] == addr;
        if !(strategy is Ipv6Only) {
            assert(all[if strategy is PreferIpv6 {
                v6.len() + i
            } else {
                i
            }] == addr);
        }
    }
    if v6.contains(addr) {
        let i = choose|i: int| 0 <= i < v6.len() && v6[i] == addr;
        if !(strategy is Ipv4Only) {
            assert(all[if strategy is PreferIpv6 || strategy is Ipv6Only {
                i
            } else {
                v4.len() + i
            }] == addr);
        }
    }
    if all.contains(addr) {
        let i = choose|i: int| 0 <= i < all.len() && all[i] == addr;
        let first = if strategy is PreferIpv6 || strategy is Ipv6Only {
            v6
        } else {
            v4
        };
        if i < first.len() {
            assert(first[i] == addr);
            assert(first.contains(addr));
        } else {
            let second = if strategy is PreferIpv6 {
                v4
            } else {
                v6
            };
            assert(second[i - first.len()] == addr);
            assert(second.contains(addr));
        }
    }
}

proof fn lemma_of_version(ips: Seq<IpAddr>, v6: bool, addr: IpAddr)
    ensures
        of_version(ips, v6).contains(addr) <==> ips.contains(addr) && (addr is V6) == v6,
        forall|i: int|
            0 <= i < of_version(ips, v6).len() ==> ((#[trigger] of_version(ips, v6)[i]) is V6) == v6,
    decreases ips.len(),
{
    reveal(Seq::filter);
    if ips.len() > 0 {
        let front = ips.drop_last();
        let before = of_version(front, v6);
        let all = of_version(ips, v6);
        lemma_of_version(front, v6, addr);
        if ips.contains(addr) {
            let i = choose|i: int| 0 <= i < ips.len() && ips[i] == addr;
            if i < front.len() {
                assert(front[i] == addr);
                assert(front.contains(addr));
            }
        }
        if front.contains(addr) {
            let i = choose|i: int| 0 <= i < front.len() && front[i] == addr;
            assert(ips[i] == addr);
        }
        if before.contains(addr) {
            let i = choose|i: int| 0 <= i < before.len() && before[i] == addr;
            assert(all[i] == addr);
        }
        if (ips.last() is V6) == v6 {
            assert(all == before.push(ips.last()));
            if ips.last() == addr {
                assert(all[all.len() - 1] == addr);
            }
            if all.contains(addr) {
                let i = choose|i: int| 0 <= i < all.len() && all[i] == addr;
                if i < before.len() {
                    assert(before[i] == addr);
                    assert(before.contains(addr));
                } else {
                    assert(ips[ips.len() - 1] == addr);
                }
            }
        }
    } else {
        assert(of_version(ips, v6) =~= Seq::empty());
    }
}

/// The addresses of one version are exactly those of the list that are of it.
pub proof fn lemma_of_version_members(ips: Seq<IpAddr>, v6: bool)
    ensures
        forall|addr: IpAddr|
            #[trigger] of_version(ips, v6).contains(addr) <==> ips.contains(addr) && (addr is V6)
                == v6,
        of_version(ips, v6).len() > 0 ==> ips.contains(of_version(ips, v6)[0]) && (of_version(
            ips,
            v6,
        )[0] is V6) == v6,
        of_version(ips, v6).len() == 0 ==> forall|i: int|
            0 <= i < ips.len() ==> ((#[trigger] ips[i]) is V6) != v6,
{
    assert forall|addr: IpAddr| #[trigger] of_version(ips, v6).contains(addr) <==> ips.contains(
        addr,
    ) && (addr is V6) == v6 by {
        lemma_of_version(ips, v6, addr);
    }
    if of_version(ips, v6).len() > 0 {
        assert(of_version(ips, v6).contains(of_version(ips, v6)[0]));
    } else {
        assert forall|i: int| 0 <= i < ips.len() implies ((#[trigger] ips[i]) is V6) != v6 by {
            assert(ips.contains(ips[i]));
            if (ips[i] is V6) == v6 {
                assert(of_version(ips, v6).contains(ips[i]));
            }
        }
    }
}

/// An address of the version that stands first in a list is the first of its version.
pub proof fn lemma_first_of_version(ips: Seq<IpAddr>, v6: bool)
    requires
        ips.len() > 0,
        (ips[0] is V6) == v6,
    ensures
        of_version(ips, v6).len() > 0,
        of_version(ips, v6)[0] == ips[0],
    decreases ips.len(),
{
    reveal(Seq::filter);
    if ips.len() > 1 {
        lemma_first_of_version(ips.drop_last(), v6);
    } else {
        assert(of_version(ips.drop_last(), v6) =~= Seq::empty());
    }
}

/// A port is a number that fits into two bytes; a greater one, like what is no number, is not one.
pub proof fn law_port_fits(s: Seq<char>, n: nat)
    ensures
        n <= 65535 ==> port_value(text::number_text(n)) == Ok::<Option<u16>, EndpointError>(
            Some(n as u16),
        ),
        n > 65535 ==> port_value(text::number_text(n)) == Err::<Option<u16>, EndpointError>(
            EndpointError::InvalidPort,
        ),
        port_value(s) is Ok <==> text::number(s, 65535) is Some,
{
    text::law_number_read_back(n);
}

} // verus!
