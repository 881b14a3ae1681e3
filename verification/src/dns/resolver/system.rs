//! The machine's own resolver.
use vstd::prelude::*;

use crate::dns::endpoint;
use crate::dns::endpoint::pick_version;
use crate::dns::resolver::{choose_address, parse_ip_literal, ResolverKind};
use crate::error::Error;
use crate::ip;
use crate::ip::IpAddr;

verus! {

/// What is to be done to find an address of a host.
#[derive(Debug)]
pub enum SystemStep {
    /// This is the answer.
    Known(IpAddr),
    /// Look the host up with the machine's resolver.
    Lookup,
}

/// The machine's own resolver.
#[derive(Debug)]
pub struct SystemResolver {
    pub ipv6: bool,
}

/// The addresses that may be used: those of IPv6 only where IPv6 is switched on.
pub open spec fn usable(ipv6: bool, found: Seq<IpAddr>) -> Seq<IpAddr> {
    if ipv6 {
        found
    } else {
        endpoint::of_version(found, false)
    }
}

impl SystemResolver {
    /// The machine's own resolver.
    pub fn new(ipv6: bool) -> (res: Result<SystemResolver, Error>)
        ensures
            res matches Ok(r) && r.ipv6 == ipv6,
    {
        Ok(SystemResolver { ipv6 })
    }

    /// What is to be done to find an address of a host: an address is its own.
    pub fn resolve(&self, host: &str) -> (res: SystemStep)
        ensures
            match ip::ip_value(host@) {
                Some(addr) => res == SystemStep::Known(addr),
                None => res is Lookup,
            },
    {
        match parse_ip_literal(host) {
            Some(addr) => SystemStep::Known(addr),
            None => SystemStep::Lookup,
        }
    }

    /// The addresses that may be used, of those that a lookup found.
    pub fn filter(&self, found: Vec<IpAddr>) -> (res: Vec<IpAddr>)
        ensures
            res@ == usable(self.ipv6, found@),
    {
        if self.ipv6 {
            found
        } else {
            pick_version(&found, false)
        }
    }

    /// One of the addresses that a lookup found.
    pub fn pick(&self, found: Vec<IpAddr>) -> (res: Option<IpAddr>)
        ensures
            res is Some <==> usable(self.ipv6, found@).len() > 0,
            res matches Some(addr) ==> usable(self.ipv6, found@).contains(addr),
    {
        let kept: Vec<IpAddr> = self.filter(found);
        choose_address(&kept)
    }

    /// One of the IPv4 addresses that a lookup found.
    pub fn resolve_v4(&self, found: &Vec<IpAddr>) -> (res: Option<IpAddr>)
        ensures
            res is Some <==> endpoint::of_version(found@, false).len() > 0,
            res matches Some(addr) ==> endpoint::of_version(found@, false).contains(addr),
    {
        choose_address(&pick_version(found, false))
    }

    /// Whether IPv6 addresses can be looked up.
    pub fn check_v6(&self) -> (res: Result<(), Error>)
        ensures
            res is Ok <==> self.ipv6,
            res matches Err(e) ==> e is DNSError && e.text() == "ipv6 disabled"@,
    {
        if self.ipv6 {
            Ok(())
        } else {
            Err(Error::DNSError("ipv6 disabled".to_owned()))
        }
    }

    /// One of the IPv6 addresses that a lookup found.
    pub fn resolve_v6(&self, found: &Vec<IpAddr>) -> (res: Option<IpAddr>)
        ensures
            res is Some <==> endpoint::of_version(found@, true).len() > 0,
            res matches Some(addr) ==> endpoint::of_version(found@, true).contains(addr),
    {
        choose_address(&pick_version(found, true))
    }

    /// Queries are not passed on.
    pub fn exchange(&self) -> (res: Result<Vec<u8>, Error>)
        ensures
            res matches Err(e) && e is Operation && e.text() == "unsupported"@,
    {
        Err(Error::Operation("unsupported".to_owned()))
    }

    /// Switches IPv6 on or off.
    pub fn set_ipv6(&mut self, val: bool)
        ensures
            final(self).ipv6 == val,
    {
        self.ipv6 = val;
    }

    /// The kind of resolver.
    pub fn kind(&self) -> (res: ResolverKind)
        ensures
            res == ResolverKind::System,
    {
        ResolverKind::System
    }
}

/// Where IPv6 is switched off, no IPv6 address is used.
pub proof fn law_no_ipv6_when_off(found: Seq<IpAddr>, addr: IpAddr)
    requires
        usable(false, found).contains(addr),
    ensures
        addr is V4,
{
    found.lemma_filter_contains_rev(|ip: IpAddr| (ip is V6) == false, addr);
}

/// With IPv6 switched on every address that was found can be used, in order; switched off, exactly
/// the IPv4 ones.
pub proof fn law_usable_addresses(found: Seq<IpAddr>, addr: IpAddr)
    ensures
        usable(true, found) == found,
        usable(false, found).contains(addr) <==> found.contains(addr) && addr is V4,
{
    endpoint::lemma_of_version_members(found, false);
    assert(endpoint::of_version(found, false).contains(addr) <==> found.contains(addr) && (addr is V6)
        == false);
}

} // verus!
