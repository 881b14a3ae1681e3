//! What a connection goes to, as far as rules read it.
use vstd::prelude::*;

use crate::ip;
use crate::ip::{write_ip, IpAddr};
use crate::text;

verus! {

/// Where a connection goes: an address or a domain, and a port.
#[derive(Debug)]
pub enum SocksAddr {
    Ip(IpAddr, u16),
    Domain(String, u16),
}

impl SocksAddr {
    /// The host as text.
    pub open spec fn host_spec(&self) -> Seq<char> {
        match self {
            SocksAddr::Ip(addr, _) => ip::ip_text(*addr),
            SocksAddr::Domain(name, _) => name@,
        }
    }

    /// The address, if the destination is one.
    pub open spec fn ip_spec(&self) -> Option<IpAddr> {
        match self {
            SocksAddr::Ip(addr, _) => Some(*addr),
            SocksAddr::Domain(_, _) => None,
        }
    }

    /// The domain, if the destination is one.
    pub open spec fn domain_spec(&self) -> Option<Seq<char>> {
        match self {
            SocksAddr::Ip(_, _) => None,
            SocksAddr::Domain(name, _) => Some(name@),
        }
    }

    /// The port.
    pub open spec fn port_spec(&self) -> u16 {
        match self {
            SocksAddr::Ip(_, port) => *port,
            SocksAddr::Domain(_, port) => *port,
        }
    }

    /// The host as text.
    pub fn host(&self) -> (res: String)
        ensures
            res@ == self.host_spec(),
    {
        match self {
            SocksAddr::Ip(addr, _) => write_ip(*addr),
            SocksAddr::Domain(name, _) => name.clone(),
        }
    }

    /// The address, if the destination is one.
    pub fn ip(&self) -> (res: Option<IpAddr>)
        ensures
            res == self.ip_spec(),
    {
        match self {
            SocksAddr::Ip(addr, _) => Some(*addr),
            SocksAddr::Domain(_, _) => None,
        }
    }
}

/// A connection as rules see it.
#[derive(Debug)]
pub struct Session {
    /// Where the connection goes.
    pub destination: SocksAddr,
    /// The address that the destination's domain was resolved to.
    pub resolved_ip: Option<IpAddr>,
    /// The rule lines that only the router can match and that it found to match this connection.
    pub matched_lines: Vec<String>,
}

/// What rules read of a connection.
pub struct SessionView {
    pub host: Seq<char>,
    pub port: u16,
    pub domain: Option<Seq<char>>,
    pub ip: Option<IpAddr>,
    pub resolved_ip: Option<IpAddr>,
    pub matched_lines: Seq<Seq<char>>,
}

/// A connection to port 443 of a domain.
pub open spec fn domain_session(domain: Seq<char>) -> SessionView {
    SessionView {
        host: domain,
        port: 443,
        domain: Some(domain),
        ip: None,
        resolved_ip: None,
        matched_lines: Seq::empty(),
    }
}

/// A connection to port 443 of an address.
pub open spec fn ip_session(addr: IpAddr) -> SessionView {
    SessionView {
        host: ip::ip_text(addr),
        port: 443,
        domain: None,
        ip: Some(addr),
        resolved_ip: None,
        matched_lines: Seq::empty(),
    }
}

/// What a lookup asks about: a domain or an address.
#[derive(Debug)]
pub enum Target {
    Domain(String),
    Ip(IpAddr),
}

/// What a lookup asks about.
pub enum TargetView {
    Domain(Seq<char>),
    Ip(IpAddr),
}

impl View for Target {
    type V = TargetView;

    open spec fn view(&self) -> TargetView {
        match self {
            Target::Domain(domain) => TargetView::Domain(domain@),
            Target::Ip(addr) => TargetView::Ip(*addr),
        }
    }
}

impl Target {
    /// A domain.
    pub fn domain(domain: &str) -> (res: Target)
        ensures
            res@ == TargetView::Domain(domain@),
    {
        Target::Domain(domain.to_owned())
    }

    /// Whether two are the same.
    pub fn same(&self, other: &Target) -> (res: bool)
        ensures
            res == (self@ == other@),
    {
        match (self, other) {
            (Target::Domain(a), Target::Domain(b)) => text::same(a.as_str(), b.as_str()),
            (Target::Ip(IpAddr::V4(a)), Target::Ip(IpAddr::V4(b))) => *a == *b,
            (Target::Ip(IpAddr::V6(a)), Target::Ip(IpAddr::V6(b))) => *a == *b,
            _ => false,
        }
    }
}

/// A connection to port 443 of a domain or an address, with the rule lines that the router found to
/// match it.
pub open spec fn target_session(target: TargetView, lines: Seq<Seq<char>>) -> SessionView {
    match target {
        TargetView::Domain(domain) => SessionView {
            matched_lines: lines,
            ..domain_session(domain)
        },
        TargetView::Ip(addr) => SessionView { matched_lines: lines, ..ip_session(addr) },
    }
}

impl View for Session {
    type V = SessionView;

    open spec fn view(&self) -> SessionView {
        SessionView {
            host: self.destination.host_spec(),
            port: self.destination.port_spec(),
            domain: self.destination.domain_spec(),
            ip: self.destination.ip_spec(),
            resolved_ip: self.resolved_ip,
            matched_lines: text::string_views(self.matched_lines@),
        }
    }
}

impl Session {
    /// A connection to port 443 of a domain.
    pub fn to_domain(domain: &str) -> (res: Session)
        ensures
            res@ == domain_session(domain@),
    {
        let res = Session {
            destination: SocksAddr::Domain(domain.to_owned(), 443),
            resolved_ip: None,
            matched_lines: Vec::new(),
        };
        assert(res@.matched_lines =~= Seq::empty());
        res
    }

    /// A connection to port 443 of an address.
    pub fn to_ip(addr: IpAddr) -> (res: Session)
        ensures
            res@ == ip_session(addr),
    {
        let res = Session {
            destination: SocksAddr::Ip(addr, 443),
            resolved_ip: None,
            matched_lines: Vec::new(),
        };
        assert(res@.matched_lines =~= Seq::empty());
        res
    }

    /// A connection to port 443 of a domain or an address, with the rule lines that the router found
    /// to match it.
    pub fn to_target(target: &Target, matched_lines: Vec<String>) -> (res: Session)
        ensures
            res@ == target_session(target@, text::string_views(matched_lines@)),
    {
        let destination: SocksAddr = match target {
            Target::Domain(domain) => SocksAddr::Domain(domain.clone(), 443),
            Target::Ip(addr) => SocksAddr::Ip(*addr, 443),
        };
        Session { destination, resolved_ip: None, matched_lines }
    }
}

/// A lookup about a domain or an address is asked as a connection to port 443 of it: the domain or
/// the address is the destination's, nothing was resolved, and the router's lines are as told.
pub proof fn law_lookup_is_a_connection(domain: Seq<char>, addr: IpAddr, lines: Seq<Seq<char>>)
    ensures
        target_session(TargetView::Domain(domain), lines).host == domain,
        target_session(TargetView::Domain(domain), lines).domain == Some(domain),
        target_session(TargetView::Domain(domain), lines).ip is None,
        target_session(TargetView::Ip(addr), lines).host == ip::ip_text(addr),
        target_session(TargetView::Ip(addr), lines).domain is None,
        target_session(TargetView::Ip(addr), lines).ip == Some(addr),
        forall|target: TargetView| (#[trigger] target_session(target, lines)).port == 443,
        forall|target: TargetView| (#[trigger] target_session(target, lines)).resolved_ip is None,
        forall|target: TargetView| (#[trigger] target_session(target, lines)).matched_lines == lines,
{
}

/// A destination is a domain or an address, never both; its host is the domain or the address as
/// text.
pub proof fn law_destination_is_one_of_two(d: SocksAddr)
    ensures
        (d.domain_spec() is Some) != (d.ip_spec() is Some),
        d.domain_spec() matches Some(name) ==> d.host_spec() == name,
        d.ip_spec() matches Some(addr) ==> d.host_spec() == ip::ip_text(addr),
{
}

/// A connection to a domain is to that domain, on the port for encrypted pages, with no address
/// known.
pub proof fn law_connection_to_a_domain(domain: Seq<char>)
    ensures
        domain_session(domain).host == domain,
        domain_session(domain).domain == Some(domain),
        domain_session(domain).port == 443,
        domain_session(domain).ip is None,
        domain_session(domain).resolved_ip is None,
        domain_session(domain) == target_session(TargetView::Domain(domain), Seq::empty()),
{
}

} // verus!
