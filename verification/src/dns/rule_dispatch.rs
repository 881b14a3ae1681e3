//! Sending queries through the outbound that the routing rules choose.
use vstd::prelude::*;

use crate::dns::endpoint::DnsEndpoint;
use crate::ip;
use crate::ip::parse_ip;
use crate::session::SocksAddr;

verus! {

/// What a server is reached over.
#[derive(Clone, Copy, Debug, PartialEq, Eq, Structural)]
pub enum Network {
    Tcp,
    Udp,
}

/// Whether the routing rules and the outbounds are there yet. Both come after the resolver, each
/// once.
#[derive(Debug)]
pub struct RuleDispatch {
    pub router: bool,
    pub outbound_manager: bool,
}

/// The destination of a connection to a server: its address, or its domain.
pub open spec fn destination_of(host: Seq<char>, port: u16, dest: SocksAddr) -> bool {
    match (ip::ip_value(host), dest) {
        (Some(addr), SocksAddr::Ip(a, p)) => a == addr && p == port,
        (None, SocksAddr::Domain(d, p)) => d@ == host && p == port,
        _ => false,
    }
}

impl RuleDispatch {
    /// What the rules are asked about a server; nothing, as long as they cannot be asked.
    pub open spec fn asked_about(
        &self,
        host: Seq<char>,
        port: u16,
        dest: Option<SocksAddr>,
    ) -> bool {
        &&& dest is Some <==> self.router && self.outbound_manager
        &&& dest matches Some(d) ==> destination_of(host, port, d)
    }

    /// Neither is there.
    pub fn new() -> (res: RuleDispatch)
        ensures
            !res.router,
            !res.outbound_manager,
    {
        RuleDispatch { router: false, outbound_manager: false }
    }

    /// The destination that the rules are asked about; `None` as long as they cannot be asked, in
    /// which case queries go directly.
    pub fn resolve_outbound(&self, endpoint: &DnsEndpoint) -> (res: Option<SocksAddr>)
        ensures
            self.asked_about(endpoint.host@, endpoint.port, res),
    {
        if !self.router || !self.outbound_manager {
            return None;
        }
        match parse_ip(endpoint.host.as_str()) {
            Some(addr) => Some(SocksAddr::Ip(addr, endpoint.port)),
            None => Some(SocksAddr::Domain(endpoint.host.clone(), endpoint.port)),
        }
    }
}

/// The rules are asked once both they and the outbounds are there, and not before. They are asked
/// about the very server: the address where its host is one, the domain where it is none, and its
/// port.
pub proof fn law_rules_are_asked_about_the_server(
    d: RuleDispatch,
    host: Seq<char>,
    port: u16,
    dest: Option<SocksAddr>,
)
    requires
        d.asked_about(host, port, dest),
    ensures
        !d.router || !d.outbound_manager ==> dest is None,
        d.router && d.outbound_manager ==> match dest {
            Some(SocksAddr::Ip(addr, p)) => ip::ip_value(host) == Some(addr) && p == port,
            Some(SocksAddr::Domain(name, p)) => ip::ip_value(host) is None && name@ == host && p
                == port,
            None => false,
        },
{
}

} // verus!
