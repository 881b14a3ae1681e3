//! The configuration of the resolver that goes by rules.
use vstd::prelude::*;

use crate::dns::config::{Config, DNSListen, EdnsClientSubnet};
use crate::dns::nameserver;
use crate::dns::nameserver::{NameServer, NameServerView};
use crate::dns::query::QType;
use crate::dns::resolver::router::matcher;
use crate::dns::resolver::router::matcher::RuleSetView;
use crate::dns::resolver::router::routing;
use crate::dns::resolver::router::routing::{
    RejectCode, RequestAction, RequestActionView, RequestRule, RequestRuleView, ResponseAction,
    ResponseActionView, ResponseRule, ResponseRuleView,
};
use crate::error::Error;
use crate::ip;
use crate::ip::{
    parse_ip, parse_net, parse_v4_net, parse_v6_net, IpAddr, IpNet, Ipv4Net, Ipv6Net,
};
use crate::net::Machine;
use crate::text;

verus! {

/// How many answers are kept unless a configuration says otherwise.
pub const DEFAULT_CACHE_CAPACITY: usize = 4096;

/// Where the answers of an upstream come from.
#[derive(Clone, Copy, Debug, PartialEq, Eq, Structural)]
pub enum UpstreamType {
    Remote,
    Local,
    FakeIp,
}

impl UpstreamType {
    /// The type that a text names, in whatever case.
    pub open spec fn named(s: Seq<char>) -> UpstreamType {
        let name = text::ascii_lowered(s);
        if name == "local"@ {
            UpstreamType::Local
        } else if name == "fakeip"@ {
            UpstreamType::FakeIp
        } else {
            UpstreamType::Remote
        }
    }

    /// The type that a text names, in whatever case.
    pub fn parse(s: &str) -> (res: UpstreamType)
        ensures
            res == UpstreamType::named(s@),
    {
        let name: String = lower(s);
        if text::same(name.as_str(), "local") {
            UpstreamType::Local
        } else if text::same(name.as_str(), "fakeip") {
            UpstreamType::FakeIp
        } else {
            UpstreamType::Remote
        }
    }
}

fn lower(s: &str) -> (res: String)
    ensures
        res@ == text::ascii_lowered(s@),
{
    text::text(&text::ascii_lowercase(&text::chars(s)))
}

/// An upstream.
#[derive(Debug)]
pub struct UpstreamConfig {
    pub tag: String,
    pub upstream_type: UpstreamType,
    pub servers: Vec<NameServer>,
    pub proxy: Option<String>,
    pub client_subnet: Option<EdnsClientSubnet>,
    pub inet4_range: Ipv4Net,
    pub inet6_range: Ipv6Net,
    pub ttl: Option<u32>,
}

/// A name and its addresses.
#[derive(Debug)]
pub struct HostEntry {
    pub domain: String,
    pub ips: Vec<IpAddr>,
}

/// The configuration of the resolver that goes by rules.
#[derive(Debug)]
pub struct RouterConfig {
    pub enable: bool,
    pub listen: Option<DNSListen>,
    pub ipv6: bool,
    pub use_hosts: bool,
    pub hosts_files: Vec<String>,
    pub hosts: Vec<HostEntry>,
    pub default_nameserver: Vec<NameServer>,
    pub proxy_server_nameserver: Vec<NameServer>,
    pub upstreams: Vec<UpstreamConfig>,
    pub request_rules: Vec<RequestRule>,
    pub request_fallback: RequestAction,
    pub response_rules: Vec<ResponseRule>,
    pub response_fallback: ResponseAction,
    pub optimistic_cache_ttl: u32,
    pub stale_cache_retention: u32,
    pub cache_capacity: usize,
}

impl Default for RouterConfig {
    fn default() -> (res: RouterConfig)
        ensures
            res.enable && res.ipv6 && res.use_hosts && res.listen is None,
            res.hosts_files@.len() == 0 && res.hosts@.len() == 0,
            res.default_nameserver@.len() == 0 && res.proxy_server_nameserver@.len() == 0,
            res.upstreams@.len() == 0 && res.request_rules@.len() == 0 && res.response_rules@.len()
                == 0,
            res.request_fallback@ == RequestActionView::Reject(RejectCode::Nodata),
            res.response_fallback@ == ResponseActionView::Accept,
            res.optimistic_cache_ttl == 0 && res.stale_cache_retention == 3600
                && res.cache_capacity == DEFAULT_CACHE_CAPACITY,
    {
        RouterConfig {
            enable: true,
            listen: None,
            ipv6: true,
            use_hosts: true,
            hosts_files: Vec::new(),
            hosts: Vec::new(),
            default_nameserver: Vec::new(),
            proxy_server_nameserver: Vec::new(),
            upstreams: Vec::new(),
            request_rules: Vec::new(),
            request_fallback: RequestAction::Reject(RejectCode::Nodata),
            response_rules: Vec::new(),
            response_fallback: ResponseAction::Accept,
            optimistic_cache_ttl: 0,
            stale_cache_retention: 3600,
            cache_capacity: DEFAULT_CACHE_CAPACITY,
        }
    }
}

/// A name and its addresses, as a configuration writes them.
#[derive(Debug)]
pub struct HostListDef {
    pub domain: String,
    pub ips: Vec<String>,
}

/// An upstream, as a configuration writes it.
#[derive(Debug)]
pub struct UpstreamDef {
    pub tag: String,
    pub kind: String,
    pub servers: Option<Vec<String>>,
    pub proxy: Option<String>,
    pub inet4_range: String,
    pub inet6_range: String,
    pub ttl: Option<u32>,
}

/// A rule on queries, as a configuration writes it. One with a fallback is no rule: it names the
/// upstream that is used where no rule applies.
#[derive(Debug)]
pub struct RequestRuleDef {
    pub fallback: Option<String>,
    pub domain: Vec<String>,
    pub rule_set: Vec<String>,
    pub query_type: Vec<String>,
    pub source_ip_cidr: Vec<String>,
    pub action: Option<String>,
    pub reject_code: Option<String>,
    pub upstream: Option<String>,
    pub invert: bool,
}

/// A rule on answers, as a configuration writes it. One with a fallback is no rule: it says what is
/// done where no rule applies.
#[derive(Debug)]
pub struct ResponseRuleDef {
    pub fallback: Option<String>,
    pub from_upstream: Option<String>,
    pub domain: Vec<String>,
    pub rule_set: Vec<String>,
    pub query_type: Vec<String>,
    pub ip_cidr: Vec<String>,
    pub action: Option<String>,
    pub upstream: Option<String>,
    pub invert: bool,
}

/// What the configuration is read from.
#[derive(Debug)]
pub struct Dns2Config {
    pub enable: bool,
    pub listen: Option<DNSListen>,
    pub ipv6: bool,
    pub use_hosts: bool,
    pub hosts_files: Vec<String>,
    pub hosts: Vec<HostListDef>,
    pub default_nameserver: Vec<String>,
    pub proxy_server_nameserver: Vec<String>,
    pub upstreams: Vec<UpstreamDef>,
    pub request: Vec<RequestRuleDef>,
    pub response: Vec<ResponseRuleDef>,
    pub optimistic_cache_ttl: u32,
    pub stale_cache_retention: u32,
    pub cache_capacity: Option<usize>,
}

/// The addresses that the first `n` texts write; others are passed over.
pub open spec fn parsed_ips(texts: Seq<Seq<char>>, n: int) -> Seq<IpAddr>
    decreases n,
{
    if n <= 0 {
        Seq::empty()
    } else {
        match ip::ip_value(texts[n - 1]) {
            Some(addr) => parsed_ips(texts, n - 1).push(addr),
            None => parsed_ips(texts, n - 1),
        }
    }
}

fn parse_ips(texts: &Vec<String>) -> (res: Vec<IpAddr>)
    ensures
        res@ == parsed_ips(text::string_views(texts@), texts@.len() as int),
{
    let ghost all = text::string_views(texts@);
    let mut out: Vec<IpAddr> = Vec::new();
    let mut i: usize = 0;
    while i < texts.len()
        invariant
            i <= texts@.len(),
            all == text::string_views(texts@),
            out@ == parsed_ips(all, i as int),
        decreases texts@.len() - i,
    {
        assert(all[i as int] == texts@[i as int]@);
        match parse_ip(texts[i].as_str()) {
            Some(addr) => {
                out.push(addr);
            },
            None => {},
        }
        i = i + 1;
    }
    out
}

/// The names, in lower case, and addresses of the first `n` entries; entries without an address
/// that can be read are passed over.
pub open spec fn parsed_hosts(defs: Seq<HostListDef>, n: int) -> Seq<(Seq<char>, Seq<IpAddr>)>
    decreases n,
{
    if n <= 0 {
        Seq::empty()
    } else {
        let ips = parsed_ips(text::string_views(defs[n - 1].ips@), defs[n - 1].ips@.len() as int);
        if ips.len() > 0 {
            parsed_hosts(defs, n - 1).push((text::ascii_lowered(defs[n - 1].domain@), ips))
        } else {
            parsed_hosts(defs, n - 1)
        }
    }
}

/// Names and their addresses.
pub open spec fn host_views(list: Seq<HostEntry>) -> Seq<(Seq<char>, Seq<IpAddr>)> {
    list.map_values(|h: HostEntry| (h.domain@, h.ips@))
}

fn parse_hosts(defs: &Vec<HostListDef>) -> (res: Vec<HostEntry>)
    ensures
        host_views(res@) == parsed_hosts(defs@, defs@.len() as int),
{
    let mut out: Vec<HostEntry> = Vec::new();
    assert(host_views(out@) =~= Seq::empty());
    let mut i: usize = 0;
    while i < defs.len()
        invariant
            i <= defs@.len(),
            host_views(out@) == parsed_hosts(defs@, i as int),
        decreases defs@.len() - i,
    {
        let ips: Vec<IpAddr> = parse_ips(&defs[i].ips);
        if ips.len() > 0 {
            let ghost before = out@;
            let ghost item = (text::ascii_lowered(defs@[i as int].domain@), ips@);
            out.push(HostEntry { domain: lower(defs[i].domain.as_str()), ips });
            assert(host_views(out@) =~= host_views(before).push(item));
        }
        i = i + 1;
    }
    out
}

/// The types that the first `n` texts name; others are passed over.
pub open spec fn parsed_types(texts: Seq<Seq<char>>, n: int) -> Seq<QType>
    decreases n,
{
    if n <= 0 {
        Seq::empty()
    } else {
        match QType::of_name(texts[n - 1]) {
            Some(qt) => parsed_types(texts, n - 1).push(qt),
            None => parsed_types(texts, n - 1),
        }
    }
}

fn parse_types(texts: &Vec<String>) -> (res: Vec<QType>)
    ensures
        res@ == parsed_types(text::string_views(texts@), texts@.len() as int),
{
    let ghost all = text::string_views(texts@);
    let mut out: Vec<QType> = Vec::new();
    let mut i: usize = 0;
    while i < texts.len()
        invariant
            i <= texts@.len(),
            all == text::string_views(texts@),
            out@ == parsed_types(all, i as int),
        decreases texts@.len() - i,
    {
        assert(all[i as int] == texts@[i as int]@);
        match QType::from_name(texts[i].as_str()) {
            Some(qt) => {
                out.push(qt);
            },
            None => {},
        }
        i = i + 1;
    }
    out
}

/// The network of one address.
pub open spec fn host_net(addr: IpAddr) -> IpNet {
    match addr {
        IpAddr::V4(a) => IpNet::V4(Ipv4Net { addr: a, prefix_len: 32 }),
        IpAddr::V6(a) => IpNet::V6(Ipv6Net { addr: a, prefix_len: 128 }),
    }
}

/// The network that a text writes; an address is a network of its own.
pub open spec fn net_or_host(s: Seq<char>) -> Option<IpNet> {
    match ip::net_value(s) {
        Some(net) => Some(net),
        None => match ip::ip_value(s) {
            Some(addr) => Some(host_net(addr)),
            None => None,
        },
    }
}

/// The networks that the first `n` texts write; others are passed over.
pub open spec fn parsed_nets(texts: Seq<Seq<char>>, n: int) -> Seq<IpNet>
    decreases n,
{
    if n <= 0 {
        Seq::empty()
    } else {
        match net_or_host(texts[n - 1]) {
            Some(net) => parsed_nets(texts, n - 1).push(net),
            None => parsed_nets(texts, n - 1),
        }
    }
}

fn parse_net_or_host(s: &str) -> (res: Option<IpNet>)
    ensures
        res == net_or_host(s@),
        res matches Some(net) ==> net.wf(),
{
    let net: Option<IpNet> = parse_net(s);
    if net.is_some() {
        return net;
    }
    match parse_ip(s) {
        Some(IpAddr::V4(a)) => Some(IpNet::V4(Ipv4Net { addr: a, prefix_len: 32 })),
        Some(IpAddr::V6(a)) => Some(IpNet::V6(Ipv6Net { addr: a, prefix_len: 128 })),
        None => None,
    }
}

fn parse_nets(texts: &Vec<String>) -> (res: Vec<IpNet>)
    ensures
        res@ == parsed_nets(text::string_views(texts@), texts@.len() as int),
        matcher::nets_wf(res@),
{
    let ghost all = text::string_views(texts@);
    let mut out: Vec<IpNet> = Vec::new();
    let mut i: usize = 0;
    while i < texts.len()
        invariant
            i <= texts@.len(),
            all == text::string_views(texts@),
            out@ == parsed_nets(all, i as int),
            matcher::nets_wf(out@),
        decreases texts@.len() - i,
    {
        assert(all[i as int] == texts@[i as int]@);
        match parse_net_or_host(texts[i].as_str()) {
            Some(net) => {
                out.push(net);
            },
            None => {},
        }
        i = i + 1;
    }
    out
}

/// The texts in lower case.
pub open spec fn all_lowered(texts: Seq<Seq<char>>) -> Seq<Seq<char>> {
    texts.map_values(|s: Seq<char>| text::ascii_lowered(s))
}

fn lower_all(texts: &Vec<String>) -> (res: Vec<String>)
    ensures
        text::string_views(res@) == all_lowered(text::string_views(texts@)),
{
    let mut out: Vec<String> = Vec::new();
    let mut i: usize = 0;
    while i < texts.len()
        invariant
            i <= texts@.len(),
            out@.len() == i,
            forall|j: int|
                0 <= j < i ==> (#[trigger] out@[j])@ == text::ascii_lowered(texts@[j]@),
        decreases texts@.len() - i,
    {
        out.push(lower(texts[i].as_str()));
        i = i + 1;
    }
    assert(text::string_views(out@) =~= all_lowered(text::string_views(texts@)));
    out
}

/// What a rule on queries does; `None` when it says nothing.
pub open spec fn request_action(def: RequestRuleDef) -> Option<RequestActionView> {
    match def.action {
        Some(action) => if text::ascii_lowered(action@) == "reject"@ {
            Some(
                RequestActionView::Reject(
                    match def.reject_code {
                        Some(code) => RejectCode::named(code@),
                        None => RejectCode::Nodata,
                    },
                ),
            )
        } else {
            Some(
                match def.upstream {
                    Some(tag) => RequestActionView::Route(tag@),
                    None => RequestActionView::Reject(RejectCode::Nodata),
                },
            )
        },
        None => match def.upstream {
            Some(tag) => Some(RequestActionView::Route(tag@)),
            None => None,
        },
    }
}

/// The rule on queries that a configuration writes; `None` when it says nothing.
pub open spec fn request_of(def: RequestRuleDef) -> Option<RequestRuleView> {
    let domains = all_lowered(text::string_views(def.domain@));
    match request_action(def) {
        None => None,
        Some(action) => Some(
            RequestRuleView {
                has_domain: def.domain@.len() > 0,
                patterns: matcher::domain_patterns(domains, domains.len() as int),
                sets: RuleSetView { names: text::string_views(def.rule_set@), bound: None },
                types: parsed_types(
                    text::string_views(def.query_type@),
                    def.query_type@.len() as int,
                ),
                sources: parsed_nets(
                    text::string_views(def.source_ip_cidr@),
                    def.source_ip_cidr@.len() as int,
                ),
                action,
                invert: def.invert,
            },
        ),
    }
}

/// The rules on queries among the first `n`.
pub open spec fn request_rules(defs: Seq<RequestRuleDef>, n: int) -> Seq<RequestRuleView>
    decreases n,
{
    if n <= 0 {
        Seq::empty()
    } else if defs[n - 1].fallback is Some || request_of(defs[n - 1]) is None {
        request_rules(defs, n - 1)
    } else {
        request_rules(defs, n - 1).push(request_of(defs[n - 1]).unwrap())
    }
}

/// What is done with queries that no rule applies to: the last fallback among the first `n` says
/// so.
pub open spec fn request_fallback(defs: Seq<RequestRuleDef>, n: int) -> RequestActionView
    decreases n,
{
    if n <= 0 {
        RequestActionView::Reject(RejectCode::Nodata)
    } else {
        match defs[n - 1].fallback {
            Some(tag) => RequestActionView::Route(tag@),
            None => request_fallback(defs, n - 1),
        }
    }
}

/// What a rule on answers does.
pub open spec fn response_action(def: ResponseRuleDef) -> ResponseActionView {
    let requery = match def.upstream {
        Some(tag) => ResponseActionView::Requery(tag@),
        None => ResponseActionView::Accept,
    };
    match def.action {
        Some(action) => if text::ascii_lowered(action@) == "reject"@ {
            ResponseActionView::Reject
        } else if text::ascii_lowered(action@) == "accept"@ {
            ResponseActionView::Accept
        } else {
            requery
        },
        None => requery,
    }
}

/// The rule on answers that a configuration writes.
pub open spec fn response_of(def: ResponseRuleDef) -> ResponseRuleView {
    let domains = all_lowered(text::string_views(def.domain@));
    ResponseRuleView {
        from_upstream: text::opt_view(def.from_upstream),
        has_domain: def.domain@.len() > 0,
        patterns: matcher::domain_patterns(domains, domains.len() as int),
        sets: RuleSetView { names: text::string_views(def.rule_set@), bound: None },
        types: parsed_types(text::string_views(def.query_type@), def.query_type@.len() as int),
        nets: parsed_nets(text::string_views(def.ip_cidr@), def.ip_cidr@.len() as int),
        action: response_action(def),
        invert: def.invert,
    }
}

/// The rules on answers among the first `n`.
pub open spec fn response_rules(defs: Seq<ResponseRuleDef>, n: int) -> Seq<ResponseRuleView>
    decreases n,
{
    if n <= 0 {
        Seq::empty()
    } else if defs[n - 1].fallback is Some {
        response_rules(defs, n - 1)
    } else {
        response_rules(defs, n - 1).push(response_of(defs[n - 1]))
    }
}

/// What is done with answers that no rule applies to: the last fallback among the first `n` says
/// so.
pub open spec fn response_fallback(defs: Seq<ResponseRuleDef>, n: int) -> ResponseActionView
    decreases n,
{
    if n <= 0 {
        ResponseActionView::Accept
    } else {
        match defs[n - 1].fallback {
            Some(fb) => if text::ascii_lowered(fb@) == "reject"@ {
                ResponseActionView::Reject
            } else {
                ResponseActionView::Accept
            },
            None => response_fallback(defs, n - 1),
        }
    }
}

fn make_request_action(def: &RequestRuleDef) -> (res: Option<RequestAction>)
    ensures
        match (res, request_action(*def)) {
            (Some(a), Some(b)) => a@ == b,
            (None, None) => true,
            _ => false,
        },
{
    match &def.action {
        Some(action) => {
            if text::same(lower(action.as_str()).as_str(), "reject") {
                let code: RejectCode = match &def.reject_code {
                    Some(code) => RejectCode::parse(code.as_str()),
                    None => RejectCode::Nodata,
                };
                Some(RequestAction::Reject(code))
            } else {
                match &def.upstream {
                    Some(tag) => Some(RequestAction::Route(tag.clone())),
                    None => Some(RequestAction::Reject(RejectCode::Nodata)),
                }
            }
        },
        None => match &def.upstream {
            Some(tag) => Some(RequestAction::Route(tag.clone())),
            None => None,
        },
    }
}

fn make_request_rule(def: &RequestRuleDef) -> (res: Option<RequestRule>)
    ensures
        match (res, request_of(*def)) {
            (Some(rule), Some(view)) => routing::request_view(rule) == view && matcher::nets_wf(
                rule.source_ip_cidr@,
            ),
            (None, None) => true,
            _ => false,
        },
{
    let action: RequestAction = match make_request_action(def) {
        Some(action) => action,
        None => return None,
    };
    let rule = RequestRule {
        domain: lower_all(&def.domain),
        rule_set: text::copy_list(&def.rule_set),
        query_type: parse_types(&def.query_type),
        source_ip_cidr: parse_nets(&def.source_ip_cidr),
        action,
        invert: def.invert,
    };
    assert(text::string_views(rule.domain@).len() == rule.domain@.len());
    assert(all_lowered(text::string_views(def.domain@)).len() == def.domain@.len());
    Some(rule)
}

fn make_response_action(def: &ResponseRuleDef) -> (res: ResponseAction)
    ensures
        res@ == response_action(*def),
{
    match &def.action {
        Some(action) => {
            let name: String = lower(action.as_str());
            if text::same(name.as_str(), "reject") {
                return ResponseAction::Reject;
            }
            if text::same(name.as_str(), "accept") {
                return ResponseAction::Accept;
            }
        },
        None => {},
    }
    match &def.upstream {
        Some(tag) => ResponseAction::Requery(tag.clone()),
        None => ResponseAction::Accept,
    }
}

fn make_response_rule(def: &ResponseRuleDef) -> (res: ResponseRule)
    ensures
        routing::response_view(res) == response_of(*def),
        matcher::nets_wf(res.ip_cidr@),
{
    let rule = ResponseRule {
        from_upstream: text::copy_opt(&def.from_upstream),
        domain: lower_all(&def.domain),
        rule_set: text::copy_list(&def.rule_set),
        query_type: parse_types(&def.query_type),
        ip_cidr: parse_nets(&def.ip_cidr),
        action: make_response_action(def),
        invert: def.invert,
    };
    assert(text::string_views(rule.domain@).len() == rule.domain@.len());
    assert(all_lowered(text::string_views(def.domain@)).len() == def.domain@.len());
    rule
}

/// Rules on queries as they are used.
pub open spec fn request_views(rules: Seq<RequestRule>) -> Seq<RequestRuleView> {
    rules.map_values(|r: RequestRule| routing::request_view(r))
}

/// Rules on answers as they are used.
pub open spec fn response_views(rules: Seq<ResponseRule>) -> Seq<ResponseRuleView> {
    rules.map_values(|r: ResponseRule| routing::response_view(r))
}

fn make_request_rules(defs: &Vec<RequestRuleDef>) -> (res: (Vec<RequestRule>, RequestAction))
    ensures
        request_views(res.0@) == request_rules(defs@, defs@.len() as int),
        res.1@ == request_fallback(defs@, defs@.len() as int),
        forall|i: int|
            0 <= i < res.0@.len() ==> matcher::nets_wf((#[trigger] res.0@[i]).source_ip_cidr@),
{
    let mut rules: Vec<RequestRule> = Vec::new();
    assert(request_views(rules@) =~= Seq::empty());
    let mut fallback: RequestAction = RequestAction::Reject(RejectCode::Nodata);
    let mut i: usize = 0;
    while i < defs.len()
        invariant
            i <= defs@.len(),
            request_views(rules@) == request_rules(defs@, i as int),
            fallback@ == request_fallback(defs@, i as int),
            forall|j: int|
                0 <= j < rules@.len() ==> matcher::nets_wf(
                    (#[trigger] rules@[j]).source_ip_cidr@,
                ),
        decreases defs@.len() - i,
    {
        match &defs[i].fallback {
            Some(tag) => {
                fallback = RequestAction::Route(tag.clone());
            },
            None => {
                match make_request_rule(&defs[i]) {
                    Some(rule) => {
                        let ghost before = rules@;
                        rules.push(rule);
                        assert(request_views(rules@) =~= request_views(before).push(
                            routing::request_view(rule),
                        ));
                    },
                    None => {},
                }
            },
        }
        i = i + 1;
    }
    (rules, fallback)
}

fn make_response_rules(defs: &Vec<ResponseRuleDef>) -> (res: (Vec<ResponseRule>, ResponseAction))
    ensures
        response_views(res.0@) == response_rules(defs@, defs@.len() as int),
        res.1@ == response_fallback(defs@, defs@.len() as int),
        forall|i: int|
            0 <= i < res.0@.len() ==> matcher::nets_wf((#[trigger] res.0@[i]).ip_cidr@),
{
    let mut rules: Vec<ResponseRule> = Vec::new();
    assert(response_views(rules@) =~= Seq::empty());
    let mut fallback: ResponseAction = ResponseAction::Accept;
    let mut i: usize = 0;
    while i < defs.len()
        invariant
            i <= defs@.len(),
            response_views(rules@) == response_rules(defs@, i as int),
            fallback@ == response_fallback(defs@, i as int),
            forall|j: int|
                0 <= j < rules@.len() ==> matcher::nets_wf((#[trigger] rules@[j]).ip_cidr@),
        decreases defs@.len() - i,
    {
        match &defs[i].fallback {
            Some(fb) => {
                fallback = if text::same(lower(fb.as_str()).as_str(), "reject") {
                    ResponseAction::Reject
                } else {
                    ResponseAction::Accept
                };
            },
            None => {
                let rule: ResponseRule = make_response_rule(&defs[i]);
                let ghost before = rules@;
                rules.push(rule);
                assert(response_views(rules@) =~= response_views(before).push(
                    routing::response_view(rule),
                ));
            },
        }
        i = i + 1;
    }
    (rules, fallback)
}

/// An upstream.
pub struct UpstreamView {
    pub tag: Seq<char>,
    pub kind: UpstreamType,
    pub servers: Seq<NameServerView>,
    pub proxy: Option<Seq<char>>,
    pub client_subnet: Option<EdnsClientSubnet>,
    pub inet4_range: Ipv4Net,
    pub inet6_range: Ipv6Net,
    pub ttl: Option<u32>,
}

impl View for UpstreamConfig {
    type V = UpstreamView;

    open spec fn view(&self) -> UpstreamView {
        UpstreamView {
            tag: self.tag@,
            kind: self.upstream_type,
            servers: nameserver::ns_views(self.servers@),
            proxy: text::opt_view(self.proxy),
            client_subnet: self.client_subnet,
            inet4_range: self.inet4_range,
            inet6_range: self.inet6_range,
            ttl: self.ttl,
        }
    }
}

/// The servers that a list of texts names, or what is wrong with it.
pub open spec fn servers_of(list: Seq<String>, machine: Machine) -> Result<
    Seq<NameServerView>,
    Seq<char>,
> {
    nameserver::nameservers(text::string_views(list), list.len() as int, machine)
}

/// The upstream that a configuration writes, or what is wrong with its servers. Ranges that cannot
/// be read are 198.18.0.1/16 and fc00::/18.
pub open spec fn upstream_of(def: UpstreamDef, machine: Machine) -> Result<UpstreamView, Seq<char>> {
    let list = match def.servers {
        Some(list) => list@,
        None => Seq::empty(),
    };
    match servers_of(list, machine) {
        Err(e) => Err(e),
        Ok(servers) => Ok(
            UpstreamView {
                tag: def.tag@,
                kind: UpstreamType::named(def.kind@),
                servers,
                proxy: text::opt_view(def.proxy),
                client_subnet: None,
                inet4_range: match ip::v4_net_value(def.inet4_range@) {
                    Some(net) => net,
                    None => Ipv4Net { addr: 0xc612_0001, prefix_len: 16 },
                },
                inet6_range: match ip::v6_net_value(def.inet6_range@) {
                    Some(net) => net,
                    None => Ipv6Net {
                        addr: 0xfc00_0000_0000_0000_0000_0000_0000_0000,
                        prefix_len: 18,
                    },
                },
                ttl: def.ttl,
            },
        ),
    }
}

/// The first `n` upstreams, or what is wrong with the first bad one.
pub open spec fn upstreams_of(defs: Seq<UpstreamDef>, n: int, machine: Machine) -> Result<
    Seq<UpstreamView>,
    Seq<char>,
>
    decreases n,
{
    if n <= 0 {
        Ok(Seq::empty())
    } else {
        match upstreams_of(defs, n - 1, machine) {
            Err(e) => Err(e),
            Ok(list) => match upstream_of(defs[n - 1], machine) {
                Ok(u) => Ok(list.push(u)),
                Err(e) => Err(e),
            },
        }
    }
}

/// Upstreams.
pub open spec fn upstream_views(list: Seq<UpstreamConfig>) -> Seq<UpstreamView> {
    list.map_values(|u: UpstreamConfig| u@)
}

/// The ranges fit their versions.
pub open spec fn ranges_wf(list: Seq<UpstreamConfig>) -> bool {
    forall|i: int|
        0 <= i < list.len() ==> (#[trigger] list[i]).inet4_range.wf() && list[i].inet6_range.wf()
}

proof fn lemma_upstreams_error(defs: Seq<UpstreamDef>, n: int, m: int, machine: Machine)
    requires
        n <= m,
        upstreams_of(defs, n, machine) is Err,
    ensures
        upstreams_of(defs, m, machine) == upstreams_of(defs, n, machine),
    decreases m - n,
{
    if n < m {
        lemma_upstreams_error(defs, n, m - 1, machine);
    }
}

fn make_upstream(def: &UpstreamDef, machine: &Machine) -> (res: Result<UpstreamConfig, Error>)
    ensures
        match (res, upstream_of(*def, *machine)) {
            (Ok(u), Ok(view)) => u@ == view && u.inet4_range.wf() && u.inet6_range.wf(),
            (Err(e), Err(text)) => e is InvalidConfig && e.text() == text,
            _ => false,
        },
{
    let servers: Vec<NameServer> = match &def.servers {
        Some(list) => match Config::parse_nameserver(list, machine) {
            Ok(servers) => servers,
            Err(e) => return Err(e),
        },
        None => Vec::new(),
    };
    assert(def.servers is None ==> nameserver::ns_views(servers@) =~= Seq::empty());
    let inet4_range: Ipv4Net = match parse_v4_net(def.inet4_range.as_str()) {
        Some(net) => net,
        None => Ipv4Net { addr: 0xc612_0001, prefix_len: 16 },
    };
    let inet6_range: Ipv6Net = match parse_v6_net(def.inet6_range.as_str()) {
        Some(net) => net,
        None => Ipv6Net { addr: 0xfc00_0000_0000_0000_0000_0000_0000_0000, prefix_len: 18 },
    };
    Ok(
        UpstreamConfig {
            tag: def.tag.clone(),
            upstream_type: UpstreamType::parse(def.kind.as_str()),
            servers,
            proxy: text::copy_opt(&def.proxy),
            client_subnet: None,
            inet4_range,
            inet6_range,
            ttl: def.ttl,
        },
    )
}

fn make_upstreams(defs: &Vec<UpstreamDef>, machine: &Machine) -> (res: Result<
    Vec<UpstreamConfig>,
    Error,
>)
    ensures
        match (res, upstreams_of(defs@, defs@.len() as int, *machine)) {
            (Ok(v), Ok(list)) => upstream_views(v@) == list && ranges_wf(v@),
            (Err(e), Err(text)) => e is InvalidConfig && e.text() == text,
            _ => false,
        },
{
    let mut out: Vec<UpstreamConfig> = Vec::new();
    assert(upstream_views(out@) =~= Seq::empty());
    let mut i: usize = 0;
    while i < defs.len()
        invariant
            i <= defs@.len(),
            upstreams_of(defs@, i as int, *machine) == Ok::<_, Seq<char>>(upstream_views(out@)),
            ranges_wf(out@),
        decreases defs@.len() - i,
    {
        match make_upstream(&defs[i], machine) {
            Ok(u) => {
                let ghost before = out@;
                out.push(u);
                assert(upstream_views(out@) =~= upstream_views(before).push(u@));
            },
            Err(e) => {
                proof {
                    lemma_upstreams_error(defs@, i + 1, defs@.len() as int, *machine);
                }
                return Err(e);
            },
        }
        i = i + 1;
    }
    Ok(out)
}

/// The servers that names of other servers are looked up with, unless a configuration says
/// otherwise.
pub open spec fn usual_servers() -> Seq<Seq<char>> {
    seq!["114.114.114.114"@, "8.8.8.8"@]
}

/// The servers that names of other servers are looked up with, or what is wrong with them.
pub open spec fn default_servers(def: Dns2Config, machine: Machine) -> Result<
    Seq<NameServerView>,
    Seq<char>,
> {
    if def.default_nameserver@.len() > 0 {
        servers_of(def.default_nameserver@, machine)
    } else {
        nameserver::nameservers(usual_servers(), 2, machine)
    }
}

/// What is wrong with a configuration: the servers that names of servers are looked up with, the
/// servers for proxies and the servers of the upstreams are read in turn.
pub open spec fn config_error(def: Dns2Config, machine: Machine) -> Option<Seq<char>> {
    if default_servers(def, machine) is Err {
        default_servers(def, machine).err()
    } else if servers_of(def.proxy_server_nameserver@, machine) is Err {
        servers_of(def.proxy_server_nameserver@, machine).err()
    } else {
        upstreams_of(def.upstreams@, def.upstreams@.len() as int, machine).err()
    }
}

/// The configuration is what a sound one says.
pub open spec fn config_is(
    cfg: RouterConfig,
    def: Dns2Config,
    global_ipv6: bool,
    machine: Machine,
) -> bool {
    &&& cfg.enable == def.enable
    &&& cfg.listen == def.listen
    &&& cfg.ipv6 == (global_ipv6 && def.ipv6)
    &&& cfg.use_hosts == def.use_hosts
    &&& cfg.hosts_files@ == def.hosts_files@
    &&& host_views(cfg.hosts@) == parsed_hosts(def.hosts@, def.hosts@.len() as int)
    &&& Ok::<_, Seq<char>>(nameserver::ns_views(cfg.default_nameserver@)) == default_servers(
        def,
        machine,
    )
    &&& Ok::<_, Seq<char>>(nameserver::ns_views(cfg.proxy_server_nameserver@)) == servers_of(
        def.proxy_server_nameserver@,
        machine,
    )
    &&& Ok::<_, Seq<char>>(upstream_views(cfg.upstreams@)) == upstreams_of(
        def.upstreams@,
        def.upstreams@.len() as int,
        machine,
    )
    &&& request_views(cfg.request_rules@) == request_rules(def.request@, def.request@.len() as int)
    &&& cfg.request_fallback@ == request_fallback(def.request@, def.request@.len() as int)
    &&& response_views(cfg.response_rules@) == response_rules(
        def.response@,
        def.response@.len() as int,
    )
    &&& cfg.response_fallback@ == response_fallback(def.response@, def.response@.len() as int)
    &&& cfg.optimistic_cache_ttl == def.optimistic_cache_ttl
    &&& cfg.stale_cache_retention == def.stale_cache_retention
    &&& cfg.cache_capacity == match def.cache_capacity {
        Some(n) => n,
        None => DEFAULT_CACHE_CAPACITY,
    }
}

impl RouterConfig {
    /// The networks of the rules and the ranges of the upstreams fit their versions.
    pub open spec fn wf(&self) -> bool {
        routing::rules_wf(self.request_rules@, self.response_rules@) && ranges_wf(self.upstreams@)
    }

    /// Reads the configuration.
    pub fn from_def(def: Dns2Config, global_ipv6: bool, machine: &Machine) -> (res: Result<
        RouterConfig,
        Error,
    >)
        ensures
            match res {
                Ok(cfg) => config_error(def, *machine) is None && config_is(
                    cfg,
                    def,
                    global_ipv6,
                    *machine,
                ) && cfg.wf(),
                Err(e) => e is InvalidConfig && config_error(def, *machine) == Some(e.text()),
            },
    {
        let hosts: Vec<HostEntry> = parse_hosts(&def.hosts);
        let default_parsed: Result<Vec<NameServer>, Error> = if def.default_nameserver.len() > 0 {
            Config::parse_nameserver(&def.default_nameserver, machine)
        } else {
            let mut usual: Vec<String> = Vec::new();
            usual.push("114.114.114.114".to_owned());
            usual.push("8.8.8.8".to_owned());
            assert(text::string_views(usual@) =~= usual_servers());
            Config::parse_nameserver(&usual, machine)
        };
        let default_nameserver: Vec<NameServer> = match default_parsed {
            Ok(list) => list,
            Err(e) => return Err(e),
        };
        let proxy_server_nameserver: Vec<NameServer> = match Config::parse_nameserver(
            &def.proxy_server_nameserver,
            machine,
        ) {
            Ok(list) => list,
            Err(e) => return Err(e),
        };
        let upstreams: Vec<UpstreamConfig> = match make_upstreams(&def.upstreams, machine) {
            Ok(list) => list,
            Err(e) => return Err(e),
        };
        let (request_rules, request_fallback): (Vec<RequestRule>, RequestAction) =
            make_request_rules(&def.request);
        let (response_rules, response_fallback): (Vec<ResponseRule>, ResponseAction) =
            make_response_rules(&def.response);
        Ok(
            RouterConfig {
                enable: def.enable,
                listen: def.listen,
                ipv6: global_ipv6 && def.ipv6,
                use_hosts: def.use_hosts,
                hosts_files: def.hosts_files,
                hosts,
                default_nameserver,
                proxy_server_nameserver,
                upstreams,
                request_rules,
                request_fallback,
                response_rules,
                response_fallback,
                optimistic_cache_ttl: def.optimistic_cache_ttl,
                stale_cache_retention: def.stale_cache_retention,
                cache_capacity: match def.cache_capacity {
                    Some(n) => n,
                    None => DEFAULT_CACHE_CAPACITY,
                },
            },
        )
    }
}

/// IPv6 is on exactly where it is switched on both for the whole program and here.
pub proof fn law_ipv6_needs_both_switches(
    cfg: RouterConfig,
    def: Dns2Config,
    global_ipv6: bool,
    machine: Machine,
)
    requires
        config_is(cfg, def, global_ipv6, machine),
    ensures
        cfg.ipv6 ==> global_ipv6 && def.ipv6,
        global_ipv6 && def.ipv6 ==> cfg.ipv6,
{
}

/// A rule with `reject`, in whatever case, turns queries down with its code, without data where it
/// names none; any other rule sends them to its upstream. A rule with neither is left out.
pub proof fn law_actions_of_request_rules(def: RequestRuleDef)
    ensures
        def.action matches Some(action) ==> (text::ascii_lowered(action@) == "reject"@
            ==> request_action(def) == Some(
            RequestActionView::Reject(
                match def.reject_code {
                    Some(code) => RejectCode::named(code@),
                    None => RejectCode::Nodata,
                },
            ),
        )),
        def.upstream matches Some(tag) ==> ((def.action matches Some(action) ==> text::ascii_lowered(
            action@,
        ) != "reject"@) ==> request_action(def) == Some(RequestActionView::Route(tag@))),
        request_of(def) is None <==> def.action is None && def.upstream is None,
{
}

/// A rule on answers with `reject` drops them and one with `accept` takes them, in whatever case; any
/// other asks its upstream again, and takes them where it names none.
pub proof fn law_actions_of_response_rules(def: ResponseRuleDef)
    ensures
        def.action matches Some(action) ==> (text::ascii_lowered(action@) == "reject"@
            ==> response_action(def) is Reject),
        def.action matches Some(action) ==> (text::ascii_lowered(action@) == "accept"@
            ==> response_action(def) is Accept),
        def.action is None ==> (def.upstream matches Some(tag) ==> response_action(def)
            == ResponseActionView::Requery(tag@)),
        def.action is None && def.upstream is None ==> response_action(def) is Accept,
        response_action(def) is Requery ==> def.upstream is Some,
{
    reveal_strlit("reject");
    reveal_strlit("accept");
    assert("reject"@[0] == 'r' && "accept"@[0] == 'a');
}

/// Rules keep their order: where none is a fallback and each has an action, the rules are those of
/// the list, one for one.
pub proof fn law_request_rules_in_order(defs: Seq<RequestRuleDef>, n: int)
    requires
        0 <= n <= defs.len(),
        forall|i: int|
            0 <= i < n ==> (#[trigger] defs[i]).fallback is None && (defs[i].action is Some
                || defs[i].upstream is Some),
    ensures
        request_rules(defs, n).len() == n,
        forall|i: int|
            0 <= i < n ==> Some(#[trigger] request_rules(defs, n)[i]) == request_of(defs[i]),
        request_fallback(defs, n) == RequestActionView::Reject(RejectCode::Nodata),
    decreases n,
{
    if n > 0 {
        law_request_rules_in_order(defs, n - 1);
        assert(defs[n - 1].fallback is None);
    }
}

/// Rules on answers keep their order in the same way.
pub proof fn law_response_rules_in_order(defs: Seq<ResponseRuleDef>, n: int)
    requires
        0 <= n <= defs.len(),
        forall|i: int| 0 <= i < n ==> (#[trigger] defs[i]).fallback is None,
    ensures
        response_rules(defs, n).len() == n,
        forall|i: int| 0 <= i < n ==> #[trigger] response_rules(defs, n)[i] == response_of(defs[i]),
        response_fallback(defs, n) is Accept,
    decreases n,
{
    if n > 0 {
        law_response_rules_in_order(defs, n - 1);
        assert(defs[n - 1].fallback is None);
    }
}

/// A fallback is no rule, and the last one given counts.
pub proof fn law_last_fallback_counts(
    requests: Seq<RequestRuleDef>,
    responses: Seq<ResponseRuleDef>,
    n: int,
    at: int,
)
    requires
        0 <= at < n <= requests.len(),
        n <= responses.len(),
        requests[at].fallback is Some,
        responses[at].fallback is Some,
        forall|i: int| at < i < n ==> (#[trigger] requests[i]).fallback is None,
        forall|i: int| at < i < n ==> (#[trigger] responses[i]).fallback is None,
    ensures
        request_fallback(requests, n) == RequestActionView::Route(requests[at].fallback.unwrap()@),
        response_fallback(responses, n) is Reject <==> text::ascii_lowered(
            responses[at].fallback.unwrap()@,
        ) == "reject"@,
        !(response_fallback(responses, n) is Requery),
        request_rules(requests, at + 1) == request_rules(requests, at),
        response_rules(responses, at + 1) == response_rules(responses, at),
    decreases n,
{
    if n - 1 > at {
        assert(requests[n - 1].fallback is None);
        assert(responses[n - 1].fallback is None);
        law_last_fallback_counts(requests, responses, n - 1, at);
    }
}

/// An address that is written where a network is asked for is the network of that one address.
pub proof fn law_address_is_its_own_network(s: Seq<char>, addr: IpAddr, other: IpAddr)
    requires
        ip::ip_value(s) == Some(addr),
    ensures
        ip::net_value(s) is None ==> (net_or_host(s) matches Some(net) && net.wf() && (net.has(other)
            <==> other == addr)),
        ip::net_value(s) is Some ==> net_or_host(s) == ip::net_value(s),
{
    let any4 = Ipv4Net { addr: 0, prefix_len: 32 };
    let any6 = Ipv6Net { addr: 0, prefix_len: 128 };
    match (addr, other) {
        (IpAddr::V4(a), IpAddr::V4(b)) => ip::law_network_is_its_prefix(
            Ipv4Net { addr: a, prefix_len: 32 },
            any6,
            b,
            0,
        ),
        (IpAddr::V6(a), IpAddr::V6(b)) => ip::law_network_is_its_prefix(
            any4,
            Ipv6Net { addr: a, prefix_len: 128 },
            0,
            b,
        ),
        _ => {},
    }
}

/// The default servers are those that are given; only where none is given are the usual ones taken.
pub proof fn law_usual_servers_stand_in(def: Dns2Config, machine: Machine)
    ensures
        def.default_nameserver@.len() > 0 ==> default_servers(def, machine) == nameserver::nameservers(
            text::string_views(def.default_nameserver@),
            def.default_nameserver@.len() as int,
            machine,
        ),
        def.default_nameserver@.len() == 0 ==> default_servers(def, machine)
            == nameserver::nameservers(seq!["114.114.114.114"@, "8.8.8.8"@], 2, machine),
{
}

/// The kind of an upstream is read in whatever case; everything that is neither `local` nor `fakeip`
/// is remote.
pub proof fn law_kinds_have_no_case(a: Seq<char>, b: Seq<char>)
    requires
        text::ascii_lowered(a) == text::ascii_lowered(b),
    ensures
        UpstreamType::named(a) == UpstreamType::named(b),
        UpstreamType::named(a) is Local <==> text::ascii_lowered(b) == "local"@,
        UpstreamType::named(a) is FakeIp <==> text::ascii_lowered(b) == "fakeip"@,
{
    reveal_strlit("local");
    reveal_strlit("fakeip");
    assert("local"@[0] == 'l' && "fakeip"@[0] == 'f');
}

/// Upstreams keep their order, and one whose servers cannot be read spoils the list.
pub proof fn law_upstreams_in_order(defs: Seq<UpstreamDef>, n: int, machine: Machine)
    requires
        0 <= n <= defs.len(),
    ensures
        match upstreams_of(defs, n, machine) {
            Ok(list) => list.len() == n && forall|i: int|
                0 <= i < n ==> upstream_of(defs[i], machine) == Ok::<UpstreamView, Seq<char>>(
                    #[trigger] list[i],
                ) && list[i].tag == defs[i].tag@ && list[i].ttl == defs[i].ttl,
            Err(_) => exists|i: int| 0 <= i < n && upstream_of(#[trigger] defs[i], machine) is Err,
        },
    decreases n,
{
    if n > 0 {
        law_upstreams_in_order(defs, n - 1, machine);
        if upstreams_of(defs, n, machine) is Err && upstreams_of(defs, n - 1, machine) is Ok {
            assert(upstream_of(defs[n - 1], machine) is Err);
        }
    }
}

proof fn lemma_parsed_types(texts: Seq<Seq<char>>, n: int, qt: QType)
    requires
        0 <= n <= texts.len(),
    ensures
        parsed_types(texts, n).contains(qt) <==> exists|i: int|
            0 <= i < n && QType::of_name(#[trigger] texts[i]) == Some(qt),
        parsed_types(texts, n).len() <= n,
    decreases n,
{
    if n > 0 {
        lemma_parsed_types(texts, n - 1, qt);
        let before = parsed_types(texts, n - 1);
        let after = parsed_types(texts, n);
        if QType::of_name(texts[n - 1]) is Some {
            assert(after[before.len() as int] == QType::of_name(texts[n - 1]).unwrap());
        }
        if before.contains(qt) {
            let k = choose|k: int| 0 <= k < before.len() && before[k] == qt;
            assert(after[k] == qt);
            let i = choose|i: int| 0 <= i < n - 1 && QType::of_name(#[trigger] texts[i]) == Some(qt);
            assert(0 <= i < n && QType::of_name(texts[i]) == Some(qt));
        }
        if after.contains(qt) {
            let k = choose|k: int| 0 <= k < after.len() && after[k] == qt;
            if k < before.len() {
                assert(before[k] == qt);
            } else {
                assert(QType::of_name(texts[n - 1]) == Some(qt));
            }
        }
        if exists|i: int| 0 <= i < n && QType::of_name(#[trigger] texts[i]) == Some(qt) {
            let i = choose|i: int| 0 <= i < n && QType::of_name(#[trigger] texts[i]) == Some(qt);
            if i < n - 1 {
                assert(0 <= i < n - 1 && QType::of_name(texts[i]) == Some(qt));
            }
        }
    }
}

/// A rule on queries has the conditions that are written down and no others: it minds domains where
/// some are written, and the types, rule sets and inversion that are.
pub proof fn law_request_rule_is_as_written(def: RequestRuleDef, rule: RequestRuleView, qt: QType)
    requires
        request_of(def) == Some(rule),
    ensures
        rule.has_domain <==> def.domain@.len() > 0,
        rule.invert == def.invert,
        rule.sets.names == text::string_views(def.rule_set@),
        rule.sets.bound is None,
        rule.types.contains(qt) <==> exists|i: int|
            0 <= i < def.query_type@.len() && QType::of_name((#[trigger] def.query_type@[i])@)
                == Some(qt),
        def.query_type@.len() == 0 ==> rule.types.len() == 0,
        def.source_ip_cidr@.len() == 0 ==> rule.sources.len() == 0,
{
    let texts = text::string_views(def.query_type@);
    lemma_parsed_types(texts, texts.len() as int, qt);
    assert forall|i: int| 0 <= i < texts.len() implies #[trigger] texts[i] == def.query_type@[i]@ by {}
    if exists|i: int| 0 <= i < texts.len() && QType::of_name(#[trigger] texts[i]) == Some(qt) {
        let i = choose|i: int|
            0 <= i < texts.len() && QType::of_name(#[trigger] texts[i]) == Some(qt);
        assert(QType::of_name(def.query_type@[i]@) == Some(qt));
    }
    if exists|i: int|
        0 <= i < def.query_type@.len() && QType::of_name((#[trigger] def.query_type@[i])@) == Some(
            qt,
        ) {
        let i = choose|i: int|
            0 <= i < def.query_type@.len() && QType::of_name((#[trigger] def.query_type@[i])@)
                == Some(qt);
        assert(QType::of_name(texts[i]) == Some(qt));
    }
}

/// A rule on answers has the conditions that are written down and no others.
pub proof fn law_response_rule_is_as_written(def: ResponseRuleDef, qt: QType)
    ensures
        response_of(def).has_domain <==> def.domain@.len() > 0,
        response_of(def).invert == def.invert,
        response_of(def).from_upstream == text::opt_view(def.from_upstream),
        response_of(def).sets.names == text::string_views(def.rule_set@),
        response_of(def).sets.bound is None,
        def.query_type@.len() == 0 ==> response_of(def).types.len() == 0,
        def.ip_cidr@.len() == 0 ==> response_of(def).nets.len() == 0,
        response_of(def).types.contains(qt) ==> exists|i: int|
            0 <= i < def.query_type@.len() && QType::of_name((#[trigger] def.query_type@[i])@)
                == Some(qt),
{
    let texts = text::string_views(def.query_type@);
    lemma_parsed_types(texts, texts.len() as int, qt);
    if response_of(def).types.contains(qt) {
        let i = choose|i: int|
            0 <= i < texts.len() && QType::of_name(#[trigger] texts[i]) == Some(qt);
        assert(QType::of_name(def.query_type@[i]@) == Some(qt));
    }
}

} // verus!
