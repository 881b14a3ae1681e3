//! Resolvers: which one is used, and how names are answered.
use vstd::prelude::*;

use crate::dns::endpoint;
use crate::dns::query;
use crate::dns::query::{build_dns_query_wire, DnsName, QType};
use crate::dns::response;
use crate::dns::response::extract_ips_from_dns_response;
use crate::ip;
use crate::ip::{parse_ip, IpAddr};
use crate::text;

pub mod cache;
pub mod enhanced;
pub mod policy;
pub mod reverse_cache;
pub mod router;
pub mod system;

verus! {

/// The kind of a resolver.
#[derive(Clone, Copy, Debug, PartialEq, Eq, Structural)]
pub enum ResolverKind {
    Clash,
    System,
}

/// The address, where the host is one.
pub fn parse_ip_literal(host: &str) -> (res: Option<IpAddr>)
    ensures
        res == ip::ip_value(host@),
{
    parse_ip(host)
}

/// Which resolver is used.
#[derive(Clone, Copy, Debug, PartialEq, Eq, Structural)]
pub enum ResolverChoice {
    /// The one that goes by rules.
    Router,
    /// The one with fake addresses, policies and fallbacks.
    Enhanced,
    /// The machine's own.
    System,
    /// None: there is no store for what the resolver keeps.
    NoStore,
}

/// The resolver that a configuration asks for: the one that goes by rules where it is enabled; else
/// the machine's own where DNS is not enabled; else the one with fake addresses, which needs a
/// store.
pub open spec fn chosen(rules_enabled: Option<bool>, enable: bool, has_store: bool) -> ResolverChoice {
    if rules_enabled == Some(true) {
        ResolverChoice::Router
    } else if !enable {
        ResolverChoice::System
    } else if has_store {
        ResolverChoice::Enhanced
    } else {
        ResolverChoice::NoStore
    }
}

/// Which resolver is used: the one that goes by rules where it is configured and switched on, else
/// the other one where DNS is switched on, else the machine's own. `rules_enabled` is `None` where
/// there is no configuration for the first.
pub fn choose_resolver(rules_enabled: Option<bool>, enable: bool, has_store: bool) -> (res:
    ResolverChoice)
    ensures
        res == chosen(rules_enabled, enable, has_store),
{
    match rules_enabled {
        Some(true) => return ResolverChoice::Router,
        _ => {},
    }
    if !enable {
        ResolverChoice::System
    } else if has_store {
        ResolverChoice::Enhanced
    } else {
        ResolverChoice::NoStore
    }
}

/// What is to be done to find an address of a host.
#[derive(Debug)]
pub enum ResolveStep {
    /// This is the answer.
    Known(Option<IpAddr>),
    /// Send this query.
    Ask(Vec<u8>),
    /// The host is no domain name.
    Invalid,
}

/// A query for the addresses of a host.
pub open spec fn is_address_query(wire: Seq<u8>, host: Seq<char>, v6: bool) -> bool {
    query::wire_name(host) is Some && exists|id: u16|
        wire == #[trigger] query::query_wire(
            id,
            query::wire_name(host).unwrap(),
            qtype_for(v6),
        )
}

/// The type of query for addresses of one version.
pub open spec fn qtype_for(v6: bool) -> QType {
    if v6 {
        QType::AAAA
    } else {
        QType::A
    }
}

/// A query for the addresses of a host; `None` when it is no domain name.
pub fn address_query(host: &str, v6: bool) -> (res: Option<Vec<u8>>)
    ensures
        res is Some <==> query::wire_name(host@) is Some,
        res matches Some(wire) ==> is_address_query(wire@, host@, v6),
{
    match DnsName::from_domain(host) {
        Some(name) => {
            let qtype: QType = if v6 {
                QType::AAAA
            } else {
                QType::A
            };
            Some(build_dns_query_wire(&name, qtype))
        },
        None => None,
    }
}

/// The first of the addresses of one version.
pub open spec fn first_of_version(ips: Seq<IpAddr>, v6: bool) -> Option<IpAddr> {
    if endpoint::of_version(ips, v6).len() > 0 {
        Some(endpoint::of_version(ips, v6)[0])
    } else {
        None
    }
}

/// The first address of one version that a response gives.
pub fn first_address(resp: &[u8], v6: bool) -> (res: Option<IpAddr>)
    ensures
        res == first_of_version(response::answer_ips(resp@), v6),
{
    let ips: Vec<IpAddr> = extract_ips_from_dns_response(resp);
    let kept: Vec<IpAddr> = endpoint::pick_version(&ips, v6);
    if kept.len() > 0 {
        Some(kept[0])
    } else {
        None
    }
}

/// What is to be done to find an address of one version: an address is its own where the version
/// is right, and has none of the other.
pub open spec fn version_step(host: Seq<char>, v6: bool, step: ResolveStep) -> bool {
    match ip::ip_value(host) {
        Some(addr) => step == ResolveStep::Known(
            if (addr is V6) == v6 {
                Some(addr)
            } else {
                None
            },
        ),
        None => match query::wire_name(host) {
            Some(_) => step matches ResolveStep::Ask(wire) && is_address_query(wire@, host, v6),
            None => step is Invalid,
        },
    }
}

/// What is to be done to find an address of one version.
pub fn resolve_version(host: &str, v6: bool) -> (res: ResolveStep)
    ensures
        version_step(host@, v6, res),
{
    match parse_ip_literal(host) {
        Some(addr) => {
            let is6: bool = match addr {
                IpAddr::V4(_) => false,
                IpAddr::V6(_) => true,
            };
            if is6 == v6 {
                return ResolveStep::Known(Some(addr));
            }
            return ResolveStep::Known(None);
        },
        None => {},
    }
    match address_query(host, v6) {
        Some(wire) => ResolveStep::Ask(wire),
        None => ResolveStep::Invalid,
    }
}

/// `rand`'s `IteratorRandom::choose`: one of the addresses, and none only where there are none;
/// which one is left to chance.
#[verifier::external_body]
pub(crate) fn choose_address(ips: &Vec<IpAddr>) -> (res: Option<IpAddr>)
    ensures
        res is Some <==> ips@.len() > 0,
        res matches Some(addr) ==> ips@.contains(addr),
{
    rand::seq::IteratorRandom::choose(ips.iter(), &mut rand::rng()).copied()
}

/// Rules go first: where they are enabled nothing else counts. Without them the machine's own
/// resolver is used exactly where DNS is not enabled, and only the one with fake addresses asks for a
/// store.
pub proof fn law_rules_go_first(rules: Option<bool>, enable: bool, store: bool)
    ensures
        chosen(Some(true), enable, store) is Router,
        rules != Some(true) ==> !(chosen(rules, enable, store) is Router),
        rules != Some(true) ==> (chosen(rules, enable, store) is System <==> !enable),
        rules != Some(true) && enable ==> (chosen(rules, enable, store) is Enhanced <==> store),
        chosen(None, enable, store) == chosen(Some(false), enable, store),
{
}

/// The address that is taken from an answer is one that it gives, of the version that was asked for,
/// and none of that version stands before it.
pub proof fn law_first_address_of_version(ips: Seq<IpAddr>, v6: bool)
    ensures
        first_of_version(ips, v6) matches Some(addr) ==> ips.contains(addr) && (addr is V6) == v6,
        first_of_version(ips, v6) is None ==> forall|i: int|
            0 <= i < ips.len() ==> ((#[trigger] ips[i]) is V6) != v6,
        ips.len() > 0 && (ips[0] is V6) == v6 ==> first_of_version(ips, v6) == Some(ips[0]),
{
    endpoint::lemma_of_version_members(ips, v6);
    if ips.len() > 0 && (ips[0] is V6) == v6 {
        endpoint::lemma_first_of_version(ips, v6);
    }
}

/// A host that is an address is its own address, and has none of the other version; any other host is
/// asked for under the version that was asked for.
pub proof fn law_address_is_of_one_version(host: Seq<char>, addr: IpAddr, step: ResolveStep, v6: bool)
    requires
        version_step(host, v6, step),
    ensures
        ip::ip_value(host) == Some(addr) && (addr is V6) == v6 ==> step == ResolveStep::Known(
            Some(addr),
        ),
        ip::ip_value(host) == Some(addr) && (addr is V6) != v6 ==> step == ResolveStep::Known(None),
        ip::ip_value(host) is None ==> !(step is Known),
        ip::ip_value(host) is None && query::wire_name(host) is Some ==> (
        step matches ResolveStep::Ask(wire) && query::query_of(wire@) matches Some(q) && q.domain
            == text::ascii_lowered(host) && q.qtype == (if v6 {
            QType::AAAA
        } else {
            QType::A
        })),
{
    if ip::ip_value(host) is None && query::wire_name(host) is Some {
        if let ResolveStep::Ask(wire) = step {
            let id = choose|id: u16|
                wire@ == #[trigger] query::query_wire(
                    id,
                    query::wire_name(host).unwrap(),
                    qtype_for(v6),
                );
            query::law_query_read_back(id, host, qtype_for(v6));
        }
    }
}

} // verus!
