//! Upstreams: where answers come from, and how they are kept.
use vstd::prelude::*;

use crate::collections::StoreView;
use crate::dns::collector;
use crate::dns::collector::DnsCollector;
use crate::dns::endpoint;
use crate::dns::endpoint::pick_version;
use crate::dns::fakeip;
use crate::dns::fakeip::{FakeDns, Store};
use crate::dns::query;
use crate::dns::query::{QType, QueryContext, QueryView};
use crate::dns::resolver::cache;
use crate::dns::resolver::cache::{CacheLookup, DnsCache, LookupView, SERVE_STALE_WIRE_TTL};
use crate::dns::resolver::reverse_cache;
use crate::dns::resolver::reverse_cache::ReverseLookupCache;
use crate::dns::resolver::router::config::UpstreamType;
use crate::dns::response;
use crate::dns::response::{
    build_dns_ip_response, build_dns_nodata, build_dns_nxdomain, extract_ips_from_dns_response,
    extract_min_ttl_from_dns_response, rewrite_dns_response_ttl, ResponseTemplate,
};
use crate::dns::singleflight;
use crate::dns::singleflight::{
    FlightKey, FlightLeader, FlightRole, FlightWaiter, FlightsView, RoleView, Singleflight,
};
use crate::dns::wire;
use crate::ip;
use crate::ip::IpAddr;
use crate::text;

verus! {

/// How long answers are kept. The retention is in milliseconds.
#[derive(Clone, Copy, Debug)]
pub struct DnsCachePolicy {
    pub optimistic_cache_ttl: u32,
    pub stale_cache_retention: u64,
}

impl Default for DnsCachePolicy {
    fn default() -> (res: DnsCachePolicy)
        ensures
            res.optimistic_cache_ttl == 0,
            res.stale_cache_retention == 3_600_000,
    {
        DnsCachePolicy { optimistic_cache_ttl: 0, stale_cache_retention: 3_600_000 }
    }
}

impl DnsCachePolicy {
    /// The time to live of an answer: a fixed one where there is one, else the answer's own, or 60
    /// seconds where it has none, and no less than the optimistic one.
    pub open spec fn effective(&self, fixed: Option<u32>, own: Option<u32>) -> u32 {
        match fixed {
            Some(ttl) => ttl,
            None => {
                let ttl = match own {
                    Some(ttl) => ttl,
                    None => 60,
                };
                if self.optimistic_cache_ttl > ttl {
                    self.optimistic_cache_ttl
                } else {
                    ttl
                }
            },
        }
    }

    /// A policy with a retention in seconds.
    pub fn new(optimistic_cache_ttl: u32, stale_cache_retention_secs: u32) -> (res: DnsCachePolicy)
        ensures
            res.optimistic_cache_ttl == optimistic_cache_ttl,
            res.stale_cache_retention == stale_cache_retention_secs * 1000,
    {
        DnsCachePolicy {
            optimistic_cache_ttl,
            stale_cache_retention: stale_cache_retention_secs as u64 * 1000,
        }
    }

    /// The time to live of an answer.
    pub fn calculate_effective_ttl(&self, override_ttl: Option<u32>, raw_resp: &[u8]) -> (res: u32)
        ensures
            res == self.effective(override_ttl, response::min_ttl(raw_resp@)),
    {
        match override_ttl {
            Some(ttl) => ttl,
            None => {
                let min_ttl: u32 = match extract_min_ttl_from_dns_response(raw_resp) {
                    Some(ttl) => ttl,
                    None => 60,
                };
                if self.optimistic_cache_ttl > 0 && self.optimistic_cache_ttl > min_ttl {
                    self.optimistic_cache_ttl
                } else {
                    min_ttl
                }
            },
        }
    }
}

/// The address stands for no host: 0.0.0.0 or ::.
pub open spec fn unspecified(addr: IpAddr) -> bool {
    match addr {
        IpAddr::V4(a) => a == 0,
        IpAddr::V6(a) => a == 0,
    }
}

/// Whether an address stands for no host.
pub fn is_unspecified(addr: &IpAddr) -> (res: bool)
    ensures
        res == unspecified(*addr),
{
    match addr {
        IpAddr::V4(a) => *a == 0,
        IpAddr::V6(a) => *a == 0,
    }
}

/// There are addresses, and none of them stands for a host.
pub open spec fn all_unspecified(ips: Seq<IpAddr>) -> bool {
    ips.len() > 0 && forall|i: int| 0 <= i < ips.len() ==> unspecified(#[trigger] ips[i])
}

/// Whether there are addresses of which none stands for a host.
pub fn check_all_unspecified(ips: &Vec<IpAddr>) -> (res: bool)
    ensures
        res == all_unspecified(ips@),
{
    let mut i: usize = 0;
    while i < ips.len()
        invariant
            i <= ips@.len(),
            forall|j: int| 0 <= j < i ==> unspecified(#[trigger] ips@[j]),
        decreases ips@.len() - i,
    {
        if !is_unspecified(&ips[i]) {
            assert(!unspecified(ips@[i as int]));
            return false;
        }
        i = i + 1;
    }
    ips.len() > 0
}

/// The query is for the answer to a certificate challenge, which must not be kept.
pub open spec fn is_challenge(q: QueryView) -> bool {
    q.qtype == QType::TXT && text::has_prefix(q.domain, "_acme-challenge."@)
}

/// Whether a query is for the answer to a certificate challenge.
pub fn check_challenge(query: &QueryContext) -> (res: bool)
    ensures
        res == is_challenge(query@),
{
    query.qtype == QType::TXT && text::starts_with(
        &text::chars(query.domain.as_str()),
        &text::chars("_acme-challenge."),
    )
}

/// What is known once a domain was found to have one more address; one that stands for no host is
/// passed over unless `every` one counts.
pub open spec fn learnt_one(
    before: StoreView,
    addr: IpAddr,
    host: Seq<char>,
    ttl: u32,
    now: u64,
    every: bool,
    after: StoreView,
) -> bool {
    if unspecified(addr) && !every {
        after == before
    } else {
        reverse_cache::told(before, addr, host, ttl, now, after)
    }
}

/// What is known once a domain was found to have the first `n` addresses, one after the other.
pub open spec fn learnt(
    before: StoreView,
    ips: Seq<IpAddr>,
    n: int,
    host: Seq<char>,
    ttl: u32,
    now: u64,
    every: bool,
    after: StoreView,
) -> bool
    decreases n,
{
    if n <= 0 {
        after == before
    } else {
        exists|mid: StoreView|
            learnt(before, ips, n - 1, host, ttl, now, every, mid) && #[trigger] learnt_one(
                mid,
                ips[n - 1],
                host,
                ttl,
                now,
                every,
                after,
            )
    }
}

/// A domain was found to have the addresses.
pub open spec fn learns(
    before: ReverseLookupCache,
    after: ReverseLookupCache,
    ips: Seq<IpAddr>,
    host: Seq<char>,
    ttl: u32,
    now: u64,
    every: bool,
) -> bool {
    learnt(before@, ips, ips.len() as int, host, ttl, now, every, after@)
}

/// Learns that a domain has the addresses; those that stand for no host are passed over unless
/// `every` one counts.
pub fn learn(
    reverse: &mut ReverseLookupCache,
    ips: &Vec<IpAddr>,
    host: &str,
    ttl: u32,
    now: u64,
    every: bool,
)
    requires
        now + cache::at_least_one(ttl) * 1000 <= u64::MAX,
    ensures
        learns(*old(reverse), *final(reverse), ips@, host@, ttl, now, every),
{
    let ghost start = reverse@;
    let mut i: usize = 0;
    while i < ips.len()
        invariant
            i <= ips@.len(),
            now + cache::at_least_one(ttl) * 1000 <= u64::MAX,
            learnt(start, ips@, i as int, host@, ttl, now, every, reverse@),
        decreases ips@.len() - i,
    {
        let ghost before = reverse@;
        if every || !is_unspecified(&ips[i]) {
            reverse.insert(ips[i], host, ttl, now);
        }
        i = i + 1;
        assert(learnt_one(before, ips@[i - 1], host@, ttl, now, every, reverse@));
    }
}

/// Tells of answers that came from a server.
pub struct DnsResolvedNotifier {
    pub reverse_lookup_cache: ReverseLookupCache,
    pub collector: Option<DnsCollector>,
}

/// The domain was recorded where domains are collected.
pub open spec fn recorded(
    before: Option<DnsCollector>,
    after: Option<DnsCollector>,
    domain: Seq<char>,
    is_fake_ip: bool,
) -> bool {
    match (before, after) {
        (None, None) => true,
        (Some(b), Some(a)) => if collector::is_new(b.domains(), domain) {
            &&& a.domains() == b.domains().push(collector::clean_domain(domain))
            &&& a.waiting() == b.waiting().push(
                collector::written_line(collector::clean_domain(domain), is_fake_ip),
            )
        } else {
            a.domains() == b.domains() && a.waiting() == b.waiting()
        },
        _ => false,
    }
}

/// Records a domain where domains are collected.
pub fn record(collector: &mut Option<DnsCollector>, domain: &str, is_fake_ip: bool)
    ensures
        recorded(*old(collector), *final(collector), domain@, is_fake_ip),
{
    match collector {
        Some(c) => {
            c.record(domain, is_fake_ip);
        },
        None => {},
    }
}

impl DnsResolvedNotifier {
    /// Takes note of an answer that came from a server: which addresses the domain has, and that it
    /// was asked for. Gives the addresses that are to be told of.
    pub fn on_fresh_response(&mut self, qname: &str, resp: &[u8], effective_ttl: u32, now: u64) -> (res:
        Vec<IpAddr>)
        requires
            now + cache::at_least_one(effective_ttl) * 1000 <= u64::MAX,
        ensures
            res@ == response::answer_ips(resp@),
            effective_ttl > 0 ==> learns(
                old(self).reverse_lookup_cache,
                final(self).reverse_lookup_cache,
                res@,
                qname@,
                effective_ttl,
                now,
                false,
            ),
            effective_ttl == 0 ==> final(self).reverse_lookup_cache == old(
                self
            ).reverse_lookup_cache,
            recorded(old(self).collector, final(self).collector, qname@, false),
    {
        let ips: Vec<IpAddr> = extract_ips_from_dns_response(resp);
        if effective_ttl > 0 {
            learn(&mut self.reverse_lookup_cache, &ips, qname, effective_ttl, now, false);
        }
        record(&mut self.collector, qname, false);
        ips
    }
}

/// What is to be done to get an answer.
#[derive(Debug)]
pub enum FetchPlan {
    /// Ask the server with this key.
    Ask(String),
    /// Look the name up on this machine.
    Lookup,
    /// This is the answer.
    Answer(Vec<u8>),
    /// There is no server to ask.
    NoServers,
    /// No server is left to ask.
    GiveUp,
}

/// What is to be done to get an answer.
pub enum PlanView {
    Ask(Seq<char>),
    Lookup,
    Answer(Seq<u8>),
    NoServers,
    GiveUp,
}

impl View for FetchPlan {
    type V = PlanView;

    open spec fn view(&self) -> PlanView {
        match self {
            FetchPlan::Ask(key) => PlanView::Ask(key@),
            FetchPlan::Lookup => PlanView::Lookup,
            FetchPlan::Answer(bytes) => PlanView::Answer(bytes@),
            FetchPlan::NoServers => PlanView::NoServers,
            FetchPlan::GiveUp => PlanView::GiveUp,
        }
    }
}

/// Where answers come from.
pub trait TransportEndpoint {
    /// What is to be done to get an answer, after a number of attempts have failed.
    spec fn plan(&self, raw_query: Seq<u8>, qtype: QType, failures: nat) -> PlanView;

    /// What is to be done to get an answer, after a number of attempts have failed.
    fn fetch(&self, raw_query: &[u8], qtype: QType, failures: usize) -> (res: FetchPlan)
        ensures
            res@ == self.plan(raw_query@, qtype, failures as nat),
    ;
}

/// Servers that are asked in turn.
#[derive(Debug)]
pub struct RemoteEndpoint {
    pub tag: String,
    pub upstream_keys: Vec<String>,
}

impl RemoteEndpoint {
    /// Servers that are asked in turn.
    pub fn new(tag: String, upstream_keys: Vec<String>) -> (res: RemoteEndpoint)
        ensures
            res.tag == tag,
            res.upstream_keys == upstream_keys,
    {
        RemoteEndpoint { tag, upstream_keys }
    }
}

impl TransportEndpoint for RemoteEndpoint {
    open spec fn plan(&self, raw_query: Seq<u8>, qtype: QType, failures: nat) -> PlanView {
        if self.upstream_keys@.len() == 0 {
            PlanView::NoServers
        } else if failures < self.upstream_keys@.len() {
            PlanView::Ask(self.upstream_keys@[failures as int]@)
        } else {
            PlanView::GiveUp
        }
    }

    fn fetch(&self, raw_query: &[u8], qtype: QType, failures: usize) -> (res: FetchPlan) {
        if self.upstream_keys.len() == 0 {
            FetchPlan::NoServers
        } else if failures < self.upstream_keys.len() {
            FetchPlan::Ask(self.upstream_keys[failures].clone())
        } else {
            FetchPlan::GiveUp
        }
    }
}

/// The machine's own resolver.
#[derive(Debug)]
pub struct LocalEndpoint {
    pub tag: String,
}

/// The query is for addresses.
pub open spec fn asks_address(qtype: QType) -> bool {
    qtype == QType::A || qtype == QType::AAAA
}

/// The answer to a query, once the machine's own resolver has looked the name up: `None` where it
/// found no such name.
pub open spec fn local_answer(raw_query: Seq<u8>, qtype: QType, found: Option<Seq<IpAddr>>) -> Seq<u8> {
    let nodata = response::empty_response(raw_query, 0);
    if !asks_address(qtype) {
        nodata
    } else {
        match found {
            None => response::empty_response(raw_query, 3),
            Some(ips) => {
                let matching = endpoint::of_version(ips, qtype == QType::AAAA);
                match response::ip_response(raw_query, matching, 60) {
                    Some(bytes) if matching.len() > 0 => bytes,
                    _ => nodata,
                }
            },
        }
    }
}

impl LocalEndpoint {
    /// The machine's own resolver.
    pub fn new(tag: String) -> (res: LocalEndpoint)
        ensures
            res.tag == tag,
    {
        LocalEndpoint { tag }
    }

    /// The answer to a query, once the name was looked up.
    pub fn answer(&self, raw_query: &[u8], qtype: QType, found: &Option<Vec<IpAddr>>) -> (res: Vec<u8>)
        ensures
            res@ == local_answer(
                raw_query@,
                qtype,
                match *found {
                    Some(v) => Some(v@),
                    None => None,
                },
            ),
    {
        if qtype != QType::A && qtype != QType::AAAA {
            return build_dns_nodata(raw_query);
        }
        let ips: &Vec<IpAddr> = match found {
            Some(ips) => ips,
            None => return build_dns_nxdomain(raw_query),
        };
        let matching: Vec<IpAddr> = pick_version(ips, qtype == QType::AAAA);
        if matching.len() == 0 {
            return build_dns_nodata(raw_query);
        }
        match build_dns_ip_response(raw_query, &matching, 60) {
            Some(resp) => resp,
            None => build_dns_nodata(raw_query),
        }
    }
}

impl TransportEndpoint for LocalEndpoint {
    open spec fn plan(&self, raw_query: Seq<u8>, qtype: QType, failures: nat) -> PlanView {
        if asks_address(qtype) {
            PlanView::Lookup
        } else {
            PlanView::Answer(response::empty_response(raw_query, 0))
        }
    }

    fn fetch(&self, raw_query: &[u8], qtype: QType, failures: usize) -> (res: FetchPlan) {
        if qtype != QType::A && qtype != QType::AAAA {
            FetchPlan::Answer(build_dns_nodata(raw_query))
        } else {
            FetchPlan::Lookup
        }
    }
}

/// Where an upstream's answers come from.
#[derive(Debug)]
pub enum Endpoint {
    Remote(RemoteEndpoint),
    Local(LocalEndpoint),
}

impl TransportEndpoint for Endpoint {
    open spec fn plan(&self, raw_query: Seq<u8>, qtype: QType, failures: nat) -> PlanView {
        match self {
            Endpoint::Remote(e) => e.plan(raw_query, qtype, failures),
            Endpoint::Local(e) => e.plan(raw_query, qtype, failures),
        }
    }

    fn fetch(&self, raw_query: &[u8], qtype: QType, failures: usize) -> (res: FetchPlan) {
        match self {
            Endpoint::Remote(e) => e.fetch(raw_query, qtype, failures),
            Endpoint::Local(e) => e.fetch(raw_query, qtype, failures),
        }
    }
}

/// Every server is asked once, in order, and no other.
pub proof fn law_servers_asked_in_turn(e: RemoteEndpoint, raw: Seq<u8>, qtype: QType, failures: nat)
    requires
        e.upstream_keys@.len() > 0,
    ensures
        failures < e.upstream_keys@.len() ==> e.plan(raw, qtype, failures) == PlanView::Ask(
            e.upstream_keys@[failures as int]@,
        ),
        failures >= e.upstream_keys@.len() ==> e.plan(raw, qtype, failures) is GiveUp,
{
}

/// What is to be done next for a query.
pub enum TransportStep {
    /// This is the answer. Where it is an expired one, whoever holds the leader's place asks for a
    /// new one.
    Done(Vec<u8>, Option<FlightLeader>),
    /// Wait for another caller's answer.
    Wait(FlightWaiter),
    /// Ask, and give the answer to those who wait where a leader's place is held.
    Fetch(Option<FlightLeader>),
    /// The answer that was shared cannot be used.
    Failed,
}

/// What is to be done next for a query.
pub enum StepView {
    Done(Seq<u8>, bool),
    Wait(nat),
    Fetch(bool),
    Failed,
}

/// The step is the expected one; a leader's place is the one for the key.
pub open spec fn step_is(step: TransportStep, view: StepView, q: QueryView) -> bool {
    match (step, view) {
        (TransportStep::Done(bytes, leader), StepView::Done(b, refresh)) => bytes@ == b && (leader
            is Some) == refresh && (leader matches Some(l) ==> l.key@ == (true, q.canonical)),
        (TransportStep::Wait(w), StepView::Wait(n)) => w.number == n,
        (TransportStep::Fetch(leader), StepView::Fetch(leads)) => (leader is Some) == leads && (
        leader matches Some(l) ==> l.key@ == (false, q.canonical)),
        (TransportStep::Failed, StepView::Failed) => true,
        _ => false,
    }
}

/// The shared answer under the query's identifier, with the upstream's time to live where it has
/// one.
pub open spec fn shared_step(wire: Seq<u8>, q: QueryView, fixed: Option<u32>) -> StepView {
    if wire.len() < 12 {
        StepView::Failed
    } else {
        StepView::Done(
            match fixed {
                Some(ttl) => response::with_ttl(response::rendered(wire, q.id), ttl),
                None => response::rendered(wire, q.id),
            },
            false,
        )
    }
}

/// What is to be done for a query that the cache has no answer to.
pub open spec fn missed(flights: FlightsView, q: QueryView, fixed: Option<u32>) -> (
    FlightsView,
    StepView,
) {
    let (after, role) = flights.acquired((false, q.canonical));
    (
        after,
        match role {
            RoleView::Ready(answer) => shared_step(answer, q, fixed),
            RoleView::Waiter(n) => StepView::Wait(n),
            RoleView::Leader => StepView::Fetch(true),
            RoleView::Rejected => StepView::Fetch(false),
        },
    )
}

/// What is to be done for a query, and what that changes. An answer that has not expired is served
/// with the time that is left; an expired one with a short time, and the first who gets it asks for
/// a new one; else equal queries are asked once.
pub open spec fn exchanged(
    flights: FlightsView,
    found: LookupView,
    q: QueryView,
    fixed: Option<u32>,
) -> (FlightsView, StepView) {
    let ttl_or = |ttl: u32|
        match fixed {
            Some(f) => f,
            None => ttl,
        };
    match found {
        LookupView::Hit(wire, left) => if wire.len() >= 12 {
            (
                flights,
                StepView::Done(
                    response::with_ttl(response::rendered(wire, q.id), ttl_or(left)),
                    false,
                ),
            )
        } else {
            missed(flights, q, fixed)
        },
        LookupView::Stale(wire) => {
            let (after, role) = flights.acquired((true, q.canonical));
            if wire.len() >= 12 {
                (
                    after,
                    StepView::Done(
                        response::with_ttl(
                            response::rendered(wire, q.id),
                            ttl_or(SERVE_STALE_WIRE_TTL),
                        ),
                        role is Leader,
                    ),
                )
            } else if role is Leader {
                missed(after.finished((true, q.canonical)), q, fixed)
            } else {
                missed(after, q, fixed)
            }
        },
        LookupView::Miss => missed(flights, q, fixed),
    }
}

/// Uses an answer that another caller asked for.
pub fn use_shared(wire: Vec<u8>, query: &QueryContext, fixed: Option<u32>) -> (res: TransportStep)
    ensures
        step_is(res, shared_step(wire@, query@, fixed), query@),
{
    let template = ResponseTemplate { wire };
    match template.render(query) {
        Some(rendered) => {
            let mut bytes: Vec<u8> = rendered;
            if let Some(ttl) = fixed {
                rewrite_dns_response_ttl(&mut bytes, ttl);
            }
            TransportStep::Done(bytes, None)
        },
        None => TransportStep::Failed,
    }
}

fn join_flight(flights: &mut Singleflight, query: &QueryContext, fixed: Option<u32>) -> (res:
    TransportStep)
    requires
        old(flights)@.ok(),
    ensures
        final(flights)@.ok(),
        final(flights)@ == missed(old(flights)@, query@, fixed).0,
        step_is(res, missed(old(flights)@, query@, fixed).1, query@),
{
    let role: FlightRole = flights.acquire(FlightKey::Query(query.canonical_wire()));
    match role {
        FlightRole::Ready(wire) => use_shared(wire, query, fixed),
        FlightRole::Waiter(w) => TransportStep::Wait(w),
        FlightRole::Leader(l) => TransportStep::Fetch(Some(l)),
        FlightRole::Rejected => TransportStep::Fetch(None),
    }
}

/// What is to be done for a query, given what a cache knows of it and which queries are under way.
pub fn exchange_flight(
    flights: &mut Singleflight,
    found: CacheLookup,
    query: &QueryContext,
    fixed: Option<u32>,
) -> (res: TransportStep)
    requires
        old(flights)@.ok(),
    ensures
        final(flights)@.ok(),
        final(flights)@ == exchanged(old(flights)@, found@, query@, fixed).0,
        step_is(res, exchanged(old(flights)@, found@, query@, fixed).1, query@),
{
    match found {
        CacheLookup::Hit(template, left) => {
            match template.render(query) {
                Some(rendered) => {
                    let mut bytes: Vec<u8> = rendered;
                    let ttl: u32 = match fixed {
                        Some(ttl) => ttl,
                        None => left,
                    };
                    rewrite_dns_response_ttl(&mut bytes, ttl);
                    return TransportStep::Done(bytes, None);
                },
                None => {},
            }
        },
        CacheLookup::Stale(template) => {
            let role: FlightRole = flights.acquire(FlightKey::Refresh(query.canonical_wire()));
            let leader: Option<FlightLeader> = match role {
                FlightRole::Leader(l) => Some(l),
                _ => None,
            };
            match template.render(query) {
                Some(rendered) => {
                    let mut bytes: Vec<u8> = rendered;
                    let ttl: u32 = match fixed {
                        Some(ttl) => ttl,
                        None => SERVE_STALE_WIRE_TTL,
                    };
                    rewrite_dns_response_ttl(&mut bytes, ttl);
                    return TransportStep::Done(bytes, leader);
                },
                None => {
                    if let Some(l) = leader {
                        flights.finish(l);
                    }
                },
            }
        },
        CacheLookup::Miss => {},
    }
    join_flight(flights, query, fixed)
}

/// The queries under way once an answer has come for the one that a caller leads: those who wait
/// for it get it where it is an answer to the query.
pub open spec fn settled(
    flights: FlightsView,
    leader: Option<(bool, Seq<u8>)>,
    q: QueryView,
    resp: Seq<u8>,
) -> FlightsView {
    match leader {
        Some(key) => if response::answers_query(q, resp) {
            flights.published(key, resp).finished(key)
        } else {
            flights.finished(key)
        },
        None => flights,
    }
}

/// What a leader's place is for.
pub open spec fn leader_key(leader: Option<FlightLeader>) -> Option<(bool, Seq<u8>)> {
    match leader {
        Some(l) => Some(l.key@),
        None => None,
    }
}

/// What came of an answer from a server.
pub struct Fetched {
    /// The answer to hand out.
    pub wire: Vec<u8>,
    /// The time to live that it is kept for, in seconds.
    pub effective_ttl: u32,
    /// How many waiting callers have it now.
    pub woken: usize,
    /// What those callers get; nothing where it is no answer to the query.
    pub shared: Option<Vec<u8>>,
}

/// An upstream whose answers are kept.
pub struct CachedTransport {
    tag: String,
    upstream_type: UpstreamType,
    override_ttl: Option<u32>,
    endpoint: Endpoint,
    singleflight: Singleflight,
    policy: DnsCachePolicy,
}

impl CachedTransport {
    /// What the upstream is called.
    pub closed spec fn name(&self) -> Seq<char> {
        self.tag@
    }

    /// Where its answers come from.
    pub closed spec fn kind(&self) -> UpstreamType {
        self.upstream_type
    }

    /// The time to live that its answers get.
    pub closed spec fn fixed_ttl(&self) -> Option<u32> {
        self.override_ttl
    }

    /// How long its answers are kept.
    pub closed spec fn keeping(&self) -> DnsCachePolicy {
        self.policy
    }

    /// Where its answers come from.
    pub closed spec fn source(&self) -> Endpoint {
        self.endpoint
    }

    /// The queries that are under way.
    pub closed spec fn flights(&self) -> FlightsView {
        self.singleflight@
    }

    /// No query is under way, nor ever was.
    pub open spec fn idle(&self) -> bool {
        self.flights().flights.len() == 0 && self.flights().counters == singleflight::no_counts()
    }

    /// Nothing but the queries under way differs.
    pub open spec fn same_settings(&self, other: CachedTransport) -> bool {
        &&& self.name() == other.name()
        &&& self.kind() == other.kind()
        &&& self.fixed_ttl() == other.fixed_ttl()
        &&& self.keeping() == other.keeping()
        &&& self.source() == other.source()
    }

    /// An upstream.
    pub fn new(
        tag: String,
        upstream_type: UpstreamType,
        override_ttl: Option<u32>,
        endpoint: Endpoint,
        policy: DnsCachePolicy,
    ) -> (res: CachedTransport)
        ensures
            res.name() == tag@,
            res.kind() == upstream_type,
            res.fixed_ttl() == override_ttl,
            res.source() == endpoint,
            res.keeping() == policy,
            res.flights().ok(),
            res.idle(),
    {
        CachedTransport {
            tag,
            upstream_type,
            override_ttl,
            endpoint,
            singleflight: Singleflight::new(),
            policy,
        }
    }

    /// An upstream of servers that are asked in turn.
    pub fn new_remote(
        tag: String,
        override_ttl: Option<u32>,
        upstream_keys: Vec<String>,
        policy: DnsCachePolicy,
    ) -> (res: CachedTransport)
        ensures
            res.name() == tag@,
            res.kind() == UpstreamType::Remote,
            res.fixed_ttl() == override_ttl,
            res.source() matches Endpoint::Remote(e) && e.tag@ == tag@ && e.upstream_keys
                == upstream_keys,
            res.keeping() == policy,
            res.flights().ok(),
            res.idle(),
    {
        let endpoint: Endpoint = Endpoint::Remote(RemoteEndpoint::new(tag.clone(), upstream_keys));
        CachedTransport::new(tag, UpstreamType::Remote, override_ttl, endpoint, policy)
    }

    /// An upstream that is the machine's own resolver.
    pub fn new_local(tag: String, override_ttl: Option<u32>, policy: DnsCachePolicy) -> (res:
        CachedTransport)
        ensures
            res.name() == tag@,
            res.kind() == UpstreamType::Local,
            res.fixed_ttl() == override_ttl,
            res.source() matches Endpoint::Local(e) && e.tag@ == tag@,
            res.keeping() == policy,
            res.flights().ok(),
            res.idle(),
    {
        let endpoint: Endpoint = Endpoint::Local(LocalEndpoint::new(tag.clone()));
        CachedTransport::new(tag, UpstreamType::Local, override_ttl, endpoint, policy)
    }

    /// What the upstream is called.
    pub fn tag(&self) -> (res: &str)
        ensures
            res@ == self.name(),
    {
        self.tag.as_str()
    }

    /// Where its answers come from.
    pub fn upstream_type(&self) -> (res: UpstreamType)
        ensures
            res == self.kind(),
    {
        self.upstream_type
    }

    /// What is to be done to get an answer from the upstream.
    pub fn fetch(&self, raw_query: &[u8], qtype: QType, failures: usize) -> (res: FetchPlan)
        ensures
            res@ == self.source().plan(raw_query@, qtype, failures as nat),
    {
        self.endpoint.fetch(raw_query, qtype, failures)
    }

    fn use_shared(&self, wire: Vec<u8>, query: &QueryContext) -> (res: TransportStep)
        ensures
            step_is(res, shared_step(wire@, query@, self.fixed_ttl()), query@),
    {
        use_shared(wire, query, self.override_ttl)
    }

    /// What is to be done for a query, given what the cache knows of it.
    pub fn exchange_with(&mut self, found: CacheLookup, query: &QueryContext) -> (res: TransportStep)
        requires
            old(self).flights().ok(),
        ensures
            final(self).flights().ok(),
            final(self).same_settings(*old(self)),
            final(self).flights() == exchanged(
                old(self).flights(),
                found@,
                query@,
                old(self).fixed_ttl(),
            ).0,
            step_is(
                res,
                exchanged(old(self).flights(), found@, query@, old(self).fixed_ttl()).1,
                query@,
            ),
    {
        exchange_flight(&mut self.singleflight, found, query, self.override_ttl)
    }

    /// What is to be done for a query. What the cache knows of it is looked up under the upstream's
    /// name.
    pub fn exchange(&mut self, cache: &mut DnsCache, query: &QueryContext, now: u64) -> (res:
        TransportStep)
        requires
            old(self).flights().ok(),
        ensures
            final(self).flights().ok(),
            final(self).same_settings(*old(self)),
            old(cache).left_after_look(*final(cache), old(self).name(), query@, now),
            final(self).flights() == exchanged(
                old(self).flights(),
                old(cache).finds(old(self).name(), query@, now),
                query@,
                old(self).fixed_ttl(),
            ).0,
            step_is(
                res,
                exchanged(
                    old(self).flights(),
                    old(cache).finds(old(self).name(), query@, now),
                    query@,
                    old(self).fixed_ttl(),
                ).1,
                query@,
            ),
    {
        let found: CacheLookup = cache.lookup_scoped(self.tag.as_str(), query, now);
        self.exchange_with(found, query)
    }

    /// What is to be done once the caller that was waited for is done: its answer is used, or,
    /// where there is none, the query is asked.
    pub fn on_waited(&mut self, answer: Option<Vec<u8>>, query: &QueryContext) -> (res: TransportStep)
        requires
            old(self).flights().ok(),
        ensures
            final(self).flights().ok(),
            final(self).same_settings(*old(self)),
            final(self).flights() == match answer {
                Some(_) => old(self).flights(),
                None => old(self).flights().retried(),
            },
            step_is(
                res,
                match answer {
                    Some(wire) => shared_step(wire@, query@, old(self).fixed_ttl()),
                    None => StepView::Fetch(false),
                },
                query@,
            ),
    {
        match answer {
            Some(wire) => self.use_shared(wire, query),
            None => {
                self.singleflight.waiter_retries();
                TransportStep::Fetch(None)
            },
        }
    }

    /// The answer is kept: it is one to the query, not one to a certificate challenge, does not
    /// give only addresses that stand for no host, and has a time to live.
    pub open spec fn keeps(&self, q: QueryView, resp: Seq<u8>) -> bool {
        &&& response::answers_query(q, resp)
        &&& !is_challenge(q)
        &&& !all_unspecified(response::answer_ips(resp))
        &&& self.keeping().effective(self.fixed_ttl(), response::min_ttl(resp)) > 0
    }

    /// The answer as it is handed out.
    pub open spec fn handed_out(&self, resp: Seq<u8>) -> Seq<u8> {
        if self.fixed_ttl() is Some || self.keeping().optimistic_cache_ttl > 0 {
            response::with_ttl(
                resp,
                self.keeping().effective(self.fixed_ttl(), response::min_ttl(resp)),
            )
        } else {
            resp
        }
    }

    /// Takes in an answer from a server: those who wait for it get it, and it is kept where it can
    /// be.
    pub fn fetch_and_cache(
        &mut self,
        cache: &mut DnsCache,
        resp: Vec<u8>,
        query: &QueryContext,
        leader: Option<FlightLeader>,
        now: u64,
    ) -> (res: Fetched)
        requires
            old(self).flights().ok(),
            now + cache::at_least_one(
                old(self).keeping().effective(old(self).fixed_ttl(), response::min_ttl(resp@)),
            ) * 1000 + old(self).keeping().stale_cache_retention <= u64::MAX,
        ensures
            final(self).flights().ok(),
            final(self).same_settings(*old(self)),
            final(self).flights() == settled(
                old(self).flights(),
                leader_key(leader),
                query@,
                resp@,
            ),
            res.wire@ == old(self).handed_out(resp@),
            res.woken == match leader {
                Some(l) if response::answers_query(query@, resp@) => old(self).flights().waiting(
                    l.key@,
                ),
                _ => 0,
            },
            res.shared is Some <==> leader is Some && response::answers_query(query@, resp@),
            res.shared matches Some(bytes) ==> bytes@ == resp@,
            res.effective_ttl == old(self).keeping().effective(
                old(self).fixed_ttl(),
                response::min_ttl(resp@),
            ),
            if old(self).keeps(query@, resp@) {
                old(cache)@.put_in(
                    cache::key_of(old(self).name(), query@),
                    cache::stored(
                        resp@,
                        res.effective_ttl,
                        old(self).keeping().stale_cache_retention,
                        now,
                    ),
                    final(cache)@,
                )
            } else {
                *final(cache) == *old(cache)
            },
    {
        let effective_ttl: u32 = self.policy.calculate_effective_ttl(self.override_ttl, &resp);
        let ips: Vec<IpAddr> = extract_ips_from_dns_response(&resp);
        let mut woken: usize = 0;
        let mut shared: Option<Vec<u8>> = None;
        match ResponseTemplate::validate(query, &resp) {
            Some(template) => {
                if let Some(l) = &leader {
                    woken = self.singleflight.publish(l, template.copy().wire);
                    shared = Some(template.copy().wire);
                }
                if !check_challenge(query) && !check_all_unspecified(&ips) && effective_ttl > 0 {
                    cache.insert_scoped(
                        self.tag.as_str(),
                        query,
                        template,
                        effective_ttl,
                        self.policy.stale_cache_retention,
                        now,
                    );
                }
            },
            None => {},
        }
        if let Some(l) = leader {
            self.singleflight.finish(l);
        }
        let mut wire: Vec<u8> = resp;
        if self.override_ttl.is_some() || self.policy.optimistic_cache_ttl > 0 {
            rewrite_dns_response_ttl(&mut wire, effective_ttl);
        }
        Fetched { wire, effective_ttl, woken, shared }
    }

    /// Gives a leader's place up after no answer could be had.
    pub fn fetch_failed(&mut self, leader: Option<FlightLeader>)
        requires
            old(self).flights().ok(),
        ensures
            final(self).flights().ok(),
            final(self).same_settings(*old(self)),
            final(self).flights() == match leader {
                Some(l) => old(self).flights().finished(l.key@),
                None => old(self).flights(),
            },
    {
        if let Some(l) = leader {
            self.singleflight.finish(l);
        }
    }
}

/// An upstream that gives fake addresses.
#[derive(Debug)]
pub struct FakeIpTransport {
    pub tag: String,
    pub ttl: u32,
}

impl FakeIpTransport {
    /// An upstream that gives fake addresses, with a time to live.
    pub fn new(tag: String, ttl: u32) -> (res: FakeIpTransport)
        ensures
            res.tag == tag,
            res.ttl == ttl,
    {
        FakeIpTransport { tag, ttl }
    }

    /// Answers a query with a fake address; one that is not for addresses with no record. `None`
    /// when the query is malformed.
    pub fn exchange<S: Store>(
        &self,
        raw_query: &[u8],
        query: &QueryContext,
        fake_dns: &mut FakeDns<S>,
    ) -> (res: Option<Vec<u8>>)
        requires
            old(fake_dns).wf(),
        ensures
            final(fake_dns).wf(),
            query@.qtype == QType::A ==> exists|ip: IpAddr|
                fakeip::found_v4(*old(fake_dns), *final(fake_dns), query@.domain, ip)
                    && #[trigger] response::ip_response(raw_query@, seq![ip], self.ttl) == (
                match res {
                    Some(v) => Some(v@),
                    None => None,
                }),
            query@.qtype == QType::AAAA ==> exists|ip: IpAddr|
                fakeip::found_v6(*old(fake_dns), *final(fake_dns), query@.domain, ip)
                    && #[trigger] response::ip_response(raw_query@, seq![ip], self.ttl) == (
                match res {
                    Some(v) => Some(v@),
                    None => None,
                }),
            !asks_address(query@.qtype) ==> *final(fake_dns) == *old(fake_dns) && res is Some
                && res.unwrap()@ == response::empty_response(raw_query@, 0),
    {
        if query.qtype == QType::A {
            let ip: IpAddr = fake_dns.lookup(query.domain.as_str());
            let mut ips: Vec<IpAddr> = Vec::new();
            ips.push(ip);
            assert(ips@ =~= seq![ip]);
            build_dns_ip_response(raw_query, &ips, self.ttl)
        } else if query.qtype == QType::AAAA {
            let ip: IpAddr = fake_dns.lookupv6(query.domain.as_str());
            let mut ips: Vec<IpAddr> = Vec::new();
            ips.push(ip);
            assert(ips@ =~= seq![ip]);
            build_dns_ip_response(raw_query, &ips, self.ttl)
        } else {
            Some(build_dns_nodata(raw_query))
        }
    }

    /// The fake address of a host.
    pub fn resolve_ip<S: Store>(&self, host: &str, ipv6: bool, fake_dns: &mut FakeDns<S>) -> (res: IpAddr)
        requires
            old(fake_dns).wf(),
        ensures
            ipv6 ==> fakeip::found_v6(*old(fake_dns), *final(fake_dns), host@, res),
            !ipv6 ==> fakeip::found_v4(*old(fake_dns), *final(fake_dns), host@, res),
    {
        if ipv6 {
            fake_dns.lookupv6(host)
        } else {
            fake_dns.lookup(host)
        }
    }
}

/// The time to live of an answer: the fixed one where there is one, and nothing else counts; else
/// the greater of the answer's own (60 seconds where it has none) and the optimistic one.
pub proof fn law_effective_time(policy: DnsCachePolicy, fixed: Option<u32>, own: Option<u32>)
    ensures
        fixed matches Some(ttl) ==> policy.effective(fixed, own) == ttl,
        fixed is None ==> policy.effective(fixed, own) >= policy.optimistic_cache_ttl,
        fixed is None ==> (own matches Some(ttl) ==> policy.effective(fixed, own) >= ttl),
        fixed is None && own is None ==> policy.effective(fixed, own) >= 60,
        fixed is None ==> policy.effective(fixed, own) == policy.optimistic_cache_ttl
            || Some(policy.effective(fixed, own)) == own || (own is None && policy.effective(fixed, own)
            == 60),
{
}

/// An answer is passed over for giving only addresses of no host exactly where it gives addresses and
/// each of them is all zero: one address of a host suffices to keep it, and so does giving none.
pub proof fn law_blocked_answers(ips: Seq<IpAddr>)
    ensures
        all_unspecified(ips) <==> ips.len() > 0 && !(exists|i: int|
            0 <= i < ips.len() && #[trigger] ips[i] != IpAddr::V4(0) && ips[i] != IpAddr::V6(0)),
{
    if all_unspecified(ips) {
        assert forall|i: int| 0 <= i < ips.len() implies #[trigger] ips[i] == IpAddr::V4(0) || ips[i]
            == IpAddr::V6(0) by {
            assert(unspecified(ips[i]));
        }
    }
}

/// An upstream keeps what answers the query and lasts, but never the answer to a certificate
/// challenge: of the same name only the text records are left out.
pub proof fn law_kept_answers(t: CachedTransport, q: QueryView, resp: Seq<u8>)
    ensures
        t.keeps(q, resp) ==> response::answers_query(q, resp),
        text::has_prefix(q.domain, "_acme-challenge."@) && q.qtype == QType::TXT ==> !t.keeps(q, resp),
        t.fixed_ttl() == Some(0u32) ==> !t.keeps(q, resp),
        t.fixed_ttl() is None && t.keeping().optimistic_cache_ttl == 0 && response::min_ttl(resp)
            == Some(0u32) ==> !t.keeps(q, resp),
        response::answers_query(q, resp) && !(text::has_prefix(q.domain, "_acme-challenge."@)
            && q.qtype == QType::TXT) && response::answer_ips(resp).len() == 0 && t.fixed_ttl() is None
            && response::min_ttl(resp) != Some(0u32) ==> t.keeps(q, resp),
        response::answers_query(q, resp) && q.qtype == QType::A && response::answer_ips(resp).len()
            > 0 && response::answer_ips(resp)[0] != IpAddr::V4(0) && response::answer_ips(resp)[0]
            != IpAddr::V6(0) && (t.fixed_ttl() matches Some(ttl) && ttl > 0) ==> t.keeps(q, resp),
{
    let ips = response::answer_ips(resp);
    if ips.len() > 0 && ips[0] != IpAddr::V4(0) && ips[0] != IpAddr::V6(0) {
        assert(!unspecified(ips[0]));
    }
}

/// What an upstream hands out gives the addresses that the server gave; with a time to live of the
/// upstream's own every answer has that time, and without one, and without an optimistic one, the
/// bytes are the server's.
pub proof fn law_handed_out_gives_addresses(t: CachedTransport, resp: Seq<u8>)
    requires
        resp.len() >= 12,
    ensures
        response::answer_ips(t.handed_out(resp)) == response::answer_ips(resp),
        t.fixed_ttl() matches Some(ttl) ==> (response::answers(resp).len() > 0 && (forall|k: int|
            0 <= k < response::answers(resp).len() ==> (#[trigger] response::answers(resp)[k]).rtype
                != 41) ==> response::min_ttl(t.handed_out(resp)) == Some(ttl)),
        t.fixed_ttl() is None && t.keeping().optimistic_cache_ttl == 0 ==> t.handed_out(resp)
            == resp,
        wire::be16(t.handed_out(resp), 0) == wire::be16(resp, 0),
{
    response::law_ttl_is_set(
        resp,
        t.keeping().effective(t.fixed_ttl(), response::min_ttl(resp)),
    );
}

/// An answer from the cache that has not expired is served at once: under the query's identifier,
/// with the same addresses, and for the time that is left, or the upstream's own. No query is sent.
pub proof fn law_fresh_answer_is_served(
    flights: FlightsView,
    wire: Seq<u8>,
    left: u32,
    q: QueryView,
    fixed: Option<u32>,
)
    requires
        wire.len() >= 12,
    ensures
        exchanged(flights, LookupView::Hit(wire, left), q, fixed).0 == flights,
        exchanged(flights, LookupView::Hit(wire, left), q, fixed).1 matches StepView::Done(
            bytes,
            refresh,
        ) && !refresh && wire::be16(bytes, 0) == q.id && response::answer_ips(bytes)
            == response::answer_ips(wire) && (response::answers(wire).len() > 0 && (forall|k: int|
            0 <= k < response::answers(wire).len() ==> (#[trigger] response::answers(wire)[k]).rtype
                != 41) ==> response::min_ttl(bytes) == Some(
            match fixed {
                Some(ttl) => ttl,
                None => left,
            },
        )),
{
    let ttl = match fixed {
        Some(ttl) => ttl,
        None => left,
    };
    response::law_identifier_changes_no_answer(wire, q.id);
    response::law_rendered_keeps_answer(wire, q.id);
    response::law_ttl_is_set(response::rendered(wire, q.id), ttl);
}

/// An expired answer that is still kept is served at once, and asked for anew by one caller: while
/// that one is at it, others get the expired answer and leave it at that.
pub proof fn law_expired_answer_is_refreshed_once(
    flights: FlightsView,
    wire: Seq<u8>,
    q: QueryView,
    again: QueryView,
    fixed: Option<u32>,
)
    requires
        flights.ok(),
        wire.len() >= 12,
        again.canonical == q.canonical,
    ensures
        exchanged(flights, LookupView::Stale(wire), q, fixed).1 matches StepView::Done(bytes, _)
            && wire::be16(bytes, 0) == q.id && response::answer_ips(bytes) == response::answer_ips(
            wire,
        ),
        exchanged(flights, LookupView::Stale(wire), q, fixed).1 matches StepView::Done(_, refresh)
            && (refresh ==> (exchanged(
            exchanged(flights, LookupView::Stale(wire), q, fixed).0,
            LookupView::Stale(wire),
            again,
            fixed,
        ).1 matches StepView::Done(_, more) && !more)),
        flights.flights.len() == 0 ==> (exchanged(flights, LookupView::Stale(wire), q, fixed).1
            matches StepView::Done(_, refresh) && refresh),
{
    let ttl = match fixed {
        Some(ttl) => ttl,
        None => SERVE_STALE_WIRE_TTL,
    };
    response::law_identifier_changes_no_answer(wire, q.id);
    response::law_rendered_keeps_answer(wire, q.id);
    response::law_ttl_is_set(response::rendered(wire, q.id), ttl);
    if flights.acquired((true, q.canonical)).1 is Leader {
        singleflight::law_one_leader(flights, (true, q.canonical));
    }
}

/// Equal queries that nothing is known of are asked once: the first caller asks, and the next waits
/// for the same answer, whatever its identifier is.
pub proof fn law_equal_queries_are_asked_once(
    flights: FlightsView,
    q: QueryView,
    again: QueryView,
    fixed: Option<u32>,
)
    requires
        flights.ok(),
        again.canonical == q.canonical,
    ensures
        exchanged(flights, LookupView::Miss, q, fixed).1 == StepView::Fetch(true) ==> exchanged(
            exchanged(flights, LookupView::Miss, q, fixed).0,
            LookupView::Miss,
            again,
            fixed,
        ).1 == StepView::Wait(0),
        flights.flights.len() == 0 ==> exchanged(flights, LookupView::Miss, q, fixed).1
            == StepView::Fetch(true),
{
    if flights.acquired((false, q.canonical)).1 is Leader {
        singleflight::law_one_leader(flights, (false, q.canonical));
    }
}

/// Once the leader of a query has its answer, the query is over: the next caller asks anew. What
/// other callers ask meanwhile is not touched.
pub proof fn law_settled_query_is_over(
    flights: FlightsView,
    key: (bool, Seq<u8>),
    q: QueryView,
    resp: Seq<u8>,
)
    requires
        flights.ok(),
        flights.has(key),
    ensures
        !settled(flights, Some(key), q, resp).has(key),
        settled(flights, Some(key), q, resp).flights.len() == flights.flights.len() - 1,
        settled(flights, Some(key), q, resp).acquired(key).1 is Leader,
        settled(flights, None, q, resp) == flights,
        response::answers_query(q, resp) ==> settled(flights, Some(key), q, resp).counters.aborts
            == flights.counters.aborts,
{
    if response::answers_query(q, resp) {
        singleflight::law_published_is_ready(flights, key, resp);
        singleflight::law_published_has_answer(flights, key, resp);
        singleflight::law_finished_is_gone(flights.published(key, resp), key);
    } else {
        singleflight::law_finished_is_gone(flights, key);
    }
}

/// What a waiting caller gets is the leader's answer under the caller's own identifier.
pub proof fn law_shared_answer_is_the_leaders(wire: Seq<u8>, q: QueryView, fixed: Option<u32>)
    ensures
        wire.len() < 12 ==> shared_step(wire, q, fixed) is Failed,
        wire.len() >= 12 ==> (shared_step(wire, q, fixed) matches StepView::Done(bytes, refresh)
            && !refresh && wire::be16(bytes, 0) == q.id && response::answer_ips(bytes)
            == response::answer_ips(wire) && (fixed is None ==> response::min_ttl(bytes)
            == response::min_ttl(wire))),
{
    if wire.len() >= 12 {
        response::law_identifier_changes_no_answer(wire, q.id);
        response::law_rendered_keeps_answer(wire, q.id);
        if let Some(ttl) = fixed {
            response::law_ttl_is_set(response::rendered(wire, q.id), ttl);
        }
    }
}

/// The machine's own resolver is asked for addresses alone, and answers with those of the version
/// that was asked for, in their order; a name that it does not find does not exist.
pub proof fn law_local_answer_is_of_version(raw: Seq<u8>, q: QueryView, ips: Seq<IpAddr>)
    requires
        query::query_of(raw) == Some(q),
        ips.len() <= 0xffff,
    ensures
        response::answer_ips(local_answer(raw, q.qtype, Some(ips))) == (if q.qtype == QType::A {
            ips.filter(|ip: IpAddr| ip is V4)
        } else if q.qtype == QType::AAAA {
            ips.filter(|ip: IpAddr| ip is V6)
        } else {
            Seq::empty()
        }),
        local_answer(raw, q.qtype, Some(ips))[3] % 16 == 0,
        q.qtype == QType::A || q.qtype == QType::AAAA ==> local_answer(raw, q.qtype, None)[3] % 16
            == 3,
        response::answers_query(q, local_answer(raw, q.qtype, Some(ips))),
{
    query::law_query_has_question(raw);
    wire::lemma_name_end_bounds(raw, 12);
    response::law_refusal_has_no_address(raw, 0);
    response::law_refusal_is_one_to_the_query(raw, q, 0);
    response::law_refusal_is_one_to_the_query(raw, q, 3);
    let v6 = q.qtype == QType::AAAA;
    let own = endpoint::of_version(ips, v6);
    let f = |ip: IpAddr| (ip is V6) == v6;
    let g = |ip: IpAddr| ip is V6;
    let h = |ip: IpAddr| ip is V4;
    ips.lemma_filter_len(f);
    lemma_filter_same(ips, f, if v6 {
        g
    } else {
        h
    });
    response::law_addresses_read_back(raw, own, 60);
    response::law_own_answer_is_one_to_the_query(raw, q, own, 60);
    if own.len() == 0 {
        assert(own =~= Seq::empty());
        assert(response::answer_ips(local_answer(raw, q.qtype, Some(ips))) =~= Seq::empty());
    }
    assert(response::answer_ips(response::empty_response(raw, 0)) =~= Seq::empty());
}

proof fn lemma_filter_same(
    ips: Seq<IpAddr>,
    f: spec_fn(IpAddr) -> bool,
    g: spec_fn(IpAddr) -> bool,
)
    requires
        forall|ip: IpAddr| #[trigger] f(ip) == g(ip),
    ensures
        ips.filter(f) == ips.filter(g),
    decreases ips.len(),
{
    reveal(Seq::filter);
    if ips.len() > 0 {
        lemma_filter_same(ips.drop_last(), f, g);
    }
}

/// What is asked for is collected, with the mark of what was answered, unless it is an address, is
/// empty or was collected before; without a collection nothing is.
pub proof fn law_asked_is_collected(
    before: DnsCollector,
    after: Option<DnsCollector>,
    domain: Seq<char>,
    is_fake_ip: bool,
)
    requires
        recorded(Some(before), after, domain, is_fake_ip),
    ensures
        after matches Some(a) && {
            &&& collector::clean_domain(domain).len() > 0 && ip::ip_value(
                collector::clean_domain(domain),
            ) is None ==> a.domains().contains(collector::clean_domain(domain))
            &&& a.waiting().len() > before.waiting().len() ==> a.waiting().last()
                == collector::clean_domain(domain) + (if is_fake_ip {
                " fakeip"@
            } else {
                " realip"@
            }) && !before.domains().contains(collector::clean_domain(domain))
            &&& before.waiting().is_prefix_of(a.waiting())
        },
{
    let a = after.unwrap();
    if collector::is_new(before.domains(), domain) {
        assert(a.domains()[before.domains().len() as int] == collector::clean_domain(domain));
        assert(a.waiting().take(before.waiting().len() as int) =~= before.waiting());
    } else {
        assert(a.waiting().take(before.waiting().len() as int) =~= before.waiting());
    }
}

} // verus!
