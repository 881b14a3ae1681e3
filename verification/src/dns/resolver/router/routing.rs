//! Rules on queries and on answers.
use vstd::prelude::*;

use crate::dns::filters;
use crate::dns::query::QType;
use crate::dns::resolver::router::matcher;
use crate::dns::resolver::router::matcher::{
    DomainMatcher, IpNetMatcher, QTypeMatcher, RuleSetMatcher, RuleSetView,
};
use crate::ip::{IpAddr, IpNet};
use crate::providers::rule_provider::RuleProviderImpl;
use crate::session::TargetView;
use crate::text;
use crate::trie;

verus! {

/// How a query is turned down.
#[derive(Clone, Copy, Debug, PartialEq, Eq, Structural)]
pub enum RejectCode {
    Nodata,
    Nxdomain,
    Refused,
}

impl RejectCode {
    /// The code that a text names.
    pub open spec fn named(s: Seq<char>) -> RejectCode {
        let name = text::ascii_lowered(text::trimmed(s));
        if name == "nxdomain"@ {
            RejectCode::Nxdomain
        } else if name == "refused"@ {
            RejectCode::Refused
        } else {
            RejectCode::Nodata
        }
    }

    /// The code that a text names.
    pub fn parse(s: &str) -> (res: RejectCode)
        ensures
            res == RejectCode::named(s@),
    {
        let name: String = text::text(&text::ascii_lowercase(&text::trim(&text::chars(s))));
        if text::same(name.as_str(), "nxdomain") {
            RejectCode::Nxdomain
        } else if text::same(name.as_str(), "refused") {
            RejectCode::Refused
        } else {
            RejectCode::Nodata
        }
    }
}

/// What is done with a query: it is sent to an upstream, or turned down.
#[derive(Debug, PartialEq, Eq)]
pub enum RequestAction {
    Route(String),
    Reject(RejectCode),
}

/// What is done with a query.
pub enum RequestActionView {
    Route(Seq<char>),
    Reject(RejectCode),
}

impl View for RequestAction {
    type V = RequestActionView;

    open spec fn view(&self) -> RequestActionView {
        match self {
            RequestAction::Route(tag) => RequestActionView::Route(tag@),
            RequestAction::Reject(code) => RequestActionView::Reject(*code),
        }
    }
}

impl RequestAction {
    /// The same action once more.
    pub fn copy(&self) -> (res: RequestAction)
        ensures
            res@ == self@,
    {
        match self {
            RequestAction::Route(tag) => RequestAction::Route(tag.clone()),
            RequestAction::Reject(code) => RequestAction::Reject(*code),
        }
    }
}

/// What is done with an answer: it is taken, dropped, or asked for again from another upstream.
#[derive(Debug, PartialEq, Eq)]
pub enum ResponseAction {
    Accept,
    Reject,
    Requery(String),
}

/// What is done with an answer.
pub enum ResponseActionView {
    Accept,
    Reject,
    Requery(Seq<char>),
}

impl View for ResponseAction {
    type V = ResponseActionView;

    open spec fn view(&self) -> ResponseActionView {
        match self {
            ResponseAction::Accept => ResponseActionView::Accept,
            ResponseAction::Reject => ResponseActionView::Reject,
            ResponseAction::Requery(tag) => ResponseActionView::Requery(tag@),
        }
    }
}

impl ResponseAction {
    /// The same action once more.
    pub fn copy(&self) -> (res: ResponseAction)
        ensures
            res@ == self@,
    {
        match self {
            ResponseAction::Accept => ResponseAction::Accept,
            ResponseAction::Reject => ResponseAction::Reject,
            ResponseAction::Requery(tag) => ResponseAction::Requery(tag.clone()),
        }
    }
}

/// A rule on queries.
#[derive(Debug)]
pub struct RequestRule {
    pub domain: Vec<String>,
    pub rule_set: Vec<String>,
    pub query_type: Vec<QType>,
    pub source_ip_cidr: Vec<IpNet>,
    pub action: RequestAction,
    pub invert: bool,
}

/// A rule on answers.
#[derive(Debug)]
pub struct ResponseRule {
    pub from_upstream: Option<String>,
    pub domain: Vec<String>,
    pub rule_set: Vec<String>,
    pub query_type: Vec<QType>,
    pub ip_cidr: Vec<IpNet>,
    pub action: ResponseAction,
    pub invert: bool,
}

/// What a rule on queries looks for, and what it does.
pub struct RequestRuleView {
    pub has_domain: bool,
    pub patterns: Seq<(Seq<Seq<char>>, usize)>,
    pub sets: RuleSetView,
    pub types: Seq<QType>,
    pub sources: Seq<IpNet>,
    pub action: RequestActionView,
    pub invert: bool,
}

impl RequestRuleView {
    /// The domain is one that the rule looks for, by a pattern or by a rule set.
    pub open spec fn finds_domain(&self, domain: Seq<char>, registry: Seq<RuleProviderImpl>) -> bool {
        (self.has_domain && trie::found(self.patterns, matcher::normalized(domain)) is Some)
            || self.sets.has_domain(domain, registry)
    }

    /// The query meets every condition of the rule.
    pub open spec fn meets(
        &self,
        domain: Seq<char>,
        qtype: QType,
        source: Option<IpAddr>,
        registry: Seq<RuleProviderImpl>,
    ) -> bool {
        &&& self.has_domain || self.sets.names.len() > 0 ==> self.finds_domain(domain, registry)
        &&& self.types.len() > 0 ==> self.types.contains(qtype)
        &&& self.sources.len() > 0 ==> source is Some && filters::some_net_has(
            self.sources,
            source.unwrap(),
        )
    }

    /// The rule has a condition.
    pub open spec fn has_condition(&self) -> bool {
        self.has_domain || self.sets.names.len() > 0 || self.types.len() > 0 || self.sources.len()
            > 0
    }

    /// The rule applies: a rule without conditions never does, an inverted one where its conditions
    /// are not all met.
    pub open spec fn applies(
        &self,
        domain: Seq<char>,
        qtype: QType,
        source: Option<IpAddr>,
        registry: Seq<RuleProviderImpl>,
    ) -> bool {
        self.has_condition() && self.meets(domain, qtype, source, registry) != self.invert
    }
}

/// A rule on queries, ready for use.
pub struct CompiledRequestRule {
    domain: DomainMatcher,
    rule_set: RuleSetMatcher,
    query_type: QTypeMatcher,
    source_ip: IpNetMatcher,
    action: RequestAction,
    invert: bool,
    has_domain: bool,
}

impl View for CompiledRequestRule {
    type V = RequestRuleView;

    closed spec fn view(&self) -> RequestRuleView {
        RequestRuleView {
            has_domain: self.has_domain,
            patterns: self.domain.patterns(),
            sets: self.rule_set@,
            types: self.query_type.types_spec(),
            sources: self.source_ip.nets_spec(),
            action: self.action@,
            invert: self.invert,
        }
    }
}

/// A rule on queries before its rule sets were found.
pub open spec fn request_view(rule: RequestRule) -> RequestRuleView {
    RequestRuleView {
        has_domain: rule.domain@.len() > 0,
        patterns: matcher::domain_patterns(
            text::string_views(rule.domain@),
            rule.domain@.len() as int,
        ),
        sets: RuleSetView { names: text::string_views(rule.rule_set@), bound: None },
        types: rule.query_type@,
        sources: rule.source_ip_cidr@,
        action: rule.action@,
        invert: rule.invert,
    }
}

fn copy_types(types: &Vec<QType>) -> (res: Vec<QType>)
    ensures
        res@ == types@,
{
    let mut res: Vec<QType> = Vec::new();
    let mut i: usize = 0;
    while i < types.len()
        invariant
            i <= types@.len(),
            res@ == types@.take(i as int),
        decreases types@.len() - i,
    {
        res.push(types[i]);
        i = i + 1;
    }
    assert(types@.take(i as int) =~= types@);
    res
}

fn copy_nets(nets: &Vec<IpNet>) -> (res: Vec<IpNet>)
    ensures
        res@ == nets@,
{
    let mut res: Vec<IpNet> = Vec::new();
    let mut i: usize = 0;
    while i < nets.len()
        invariant
            i <= nets@.len(),
            res@ == nets@.take(i as int),
        decreases nets@.len() - i,
    {
        res.push(nets[i]);
        i = i + 1;
    }
    assert(nets@.take(i as int) =~= nets@);
    res
}

impl CompiledRequestRule {
    /// Makes a rule ready for use.
    pub fn new(rule: &RequestRule) -> (res: CompiledRequestRule)
        requires
            matcher::nets_wf(rule.source_ip_cidr@),
        ensures
            res@ == request_view(*rule),
    {
        CompiledRequestRule {
            has_domain: rule.domain.len() > 0,
            domain: DomainMatcher::new(&rule.domain),
            rule_set: RuleSetMatcher::new(&rule.rule_set),
            query_type: QTypeMatcher::new(copy_types(&rule.query_type)),
            source_ip: IpNetMatcher::new(copy_nets(&rule.source_ip_cidr)),
            action: rule.action.copy(),
            invert: rule.invert,
        }
    }

    fn matches_domain(&self, domain: &str, registry: &Vec<RuleProviderImpl>) -> (res: bool)
        ensures
            res == self@.finds_domain(domain@, registry@),
    {
        (self.has_domain && self.domain.matches(domain)) || self.rule_set.matches_domain(
            domain,
            registry,
        )
    }

    fn matches_source_ip(&self, source_ip: Option<IpAddr>) -> (res: bool)
        ensures
            res == (source_ip is Some && filters::some_net_has(self@.sources, source_ip.unwrap())),
    {
        match source_ip {
            Some(addr) => self.source_ip.matches(&addr),
            None => false,
        }
    }

    /// Whether the rule applies to a query.
    pub fn matches(
        &self,
        domain: &str,
        qtype: QType,
        source_ip: Option<IpAddr>,
        registry: &Vec<RuleProviderImpl>,
    ) -> (res: bool)
        ensures
            res == self@.applies(domain@, qtype, source_ip, registry@),
    {
        let has_rule_set: bool = !self.rule_set.is_empty();
        let has_query_type: bool = !self.query_type.is_empty();
        let has_source_ip: bool = !self.source_ip.is_empty();
        if !self.has_domain && !has_rule_set && !has_query_type && !has_source_ip {
            return false;
        }
        if (self.has_domain || has_rule_set) && !self.matches_domain(domain, registry) {
            return self.invert;
        }
        if has_query_type && !self.query_type.matches(qtype) {
            return self.invert;
        }
        if has_source_ip && !self.matches_source_ip(source_ip) {
            return self.invert;
        }
        !self.invert
    }

    /// What the rule does.
    pub fn action(&self) -> (res: &RequestAction)
        ensures
            res@ == self@.action,
    {
        &self.action
    }
}

/// What a rule on answers looks for, and what it does.
pub struct ResponseRuleView {
    pub from_upstream: Option<Seq<char>>,
    pub has_domain: bool,
    pub patterns: Seq<(Seq<Seq<char>>, usize)>,
    pub sets: RuleSetView,
    pub types: Seq<QType>,
    pub nets: Seq<IpNet>,
    pub action: ResponseActionView,
    pub invert: bool,
}

impl ResponseRuleView {
    /// The address is one that the rule looks for, by a network or by a rule set.
    pub open spec fn finds_ip(&self, addr: IpAddr, registry: Seq<RuleProviderImpl>) -> bool {
        (self.nets.len() > 0 && filters::some_net_has(self.nets, addr)) || self.sets.has_ip(
            addr,
            registry,
        )
    }

    /// The rule looks for addresses.
    pub open spec fn wants_ips(&self) -> bool {
        self.nets.len() > 0 || self.sets.names.len() > 0
    }

    /// The rule has a condition.
    pub open spec fn has_condition(&self) -> bool {
        self.from_upstream is Some || self.has_domain || self.types.len() > 0 || self.wants_ips()
    }

    /// The answer meets the conditions on its question.
    pub open spec fn meets_question(&self, domain: Seq<char>, qtype: QType) -> bool {
        &&& self.has_domain ==> trie::found(self.patterns, matcher::normalized(domain)) is Some
        &&& self.types.len() > 0 ==> self.types.contains(qtype)
    }

    /// One of the addresses is one that the rule looks for.
    pub open spec fn finds_some(&self, ips: Seq<IpAddr>, registry: Seq<RuleProviderImpl>) -> bool {
        exists|i: int| 0 <= i < ips.len() && self.finds_ip(#[trigger] ips[i], registry)
    }

    /// The rule applies. A rule without conditions never does, nor one on another upstream's
    /// answers; one that looks for addresses does not where there are none, unless it is inverted
    /// and the question does not meet its conditions; an inverted rule applies where its other
    /// conditions are not all met.
    pub open spec fn applies(
        &self,
        upstream: Seq<char>,
        domain: Seq<char>,
        qtype: QType,
        ips: Seq<IpAddr>,
        registry: Seq<RuleProviderImpl>,
    ) -> bool {
        if !self.has_condition() || (self.from_upstream matches Some(expected) && expected
            != upstream) {
            false
        } else if !self.meets_question(domain, qtype) {
            self.invert
        } else if self.wants_ips() && ips.len() == 0 {
            false
        } else {
            (self.wants_ips() ==> self.finds_some(ips, registry)) != self.invert
        }
    }
}

/// A rule on answers, ready for use.
pub struct CompiledResponseRule {
    from_upstream: Option<String>,
    domain: DomainMatcher,
    rule_set: RuleSetMatcher,
    query_type: QTypeMatcher,
    ip_cidr: IpNetMatcher,
    action: ResponseAction,
    invert: bool,
    has_domain: bool,
}

impl View for CompiledResponseRule {
    type V = ResponseRuleView;

    closed spec fn view(&self) -> ResponseRuleView {
        ResponseRuleView {
            from_upstream: text::opt_view(self.from_upstream),
            has_domain: self.has_domain,
            patterns: self.domain.patterns(),
            sets: self.rule_set@,
            types: self.query_type.types_spec(),
            nets: self.ip_cidr.nets_spec(),
            action: self.action@,
            invert: self.invert,
        }
    }
}

/// A rule on answers before its rule sets were found.
pub open spec fn response_view(rule: ResponseRule) -> ResponseRuleView {
    ResponseRuleView {
        from_upstream: text::opt_view(rule.from_upstream),
        has_domain: rule.domain@.len() > 0,
        patterns: matcher::domain_patterns(
            text::string_views(rule.domain@),
            rule.domain@.len() as int,
        ),
        sets: RuleSetView { names: text::string_views(rule.rule_set@), bound: None },
        types: rule.query_type@,
        nets: rule.ip_cidr@,
        action: rule.action@,
        invert: rule.invert,
    }
}

impl CompiledResponseRule {
    /// Makes a rule ready for use.
    pub fn new(rule: &ResponseRule) -> (res: CompiledResponseRule)
        requires
            matcher::nets_wf(rule.ip_cidr@),
        ensures
            res@ == response_view(*rule),
    {
        CompiledResponseRule {
            from_upstream: text::copy_opt(&rule.from_upstream),
            has_domain: rule.domain.len() > 0,
            domain: DomainMatcher::new(&rule.domain),
            rule_set: RuleSetMatcher::new(&rule.rule_set),
            query_type: QTypeMatcher::new(copy_types(&rule.query_type)),
            ip_cidr: IpNetMatcher::new(copy_nets(&rule.ip_cidr)),
            action: rule.action.copy(),
            invert: rule.invert,
        }
    }

    fn matches_ip(&self, addr: &IpAddr, registry: &Vec<RuleProviderImpl>) -> (res: bool)
        ensures
            res == self@.finds_ip(*addr, registry@),
    {
        (!self.ip_cidr.is_empty() && self.ip_cidr.matches(addr)) || self.rule_set.matches_ip(
            addr,
            registry,
        )
    }

    fn matches_some(&self, ips: &Vec<IpAddr>, registry: &Vec<RuleProviderImpl>) -> (res: bool)
        ensures
            res == self@.finds_some(ips@, registry@),
    {
        let mut i: usize = 0;
        while i < ips.len()
            invariant
                i <= ips@.len(),
                forall|j: int| 0 <= j < i ==> !self@.finds_ip(#[trigger] ips@[j], registry@),
            decreases ips@.len() - i,
        {
            if self.matches_ip(&ips[i], registry) {
                assert(self@.finds_ip(ips@[i as int], registry@));
                return true;
            }
            i = i + 1;
        }
        false
    }

    /// Whether the rule applies to an answer.
    pub fn matches(
        &self,
        from_upstream: &str,
        domain: &str,
        qtype: QType,
        answer_ips: &Vec<IpAddr>,
        registry: &Vec<RuleProviderImpl>,
    ) -> (res: bool)
        ensures
            res == self@.applies(from_upstream@, domain@, qtype, answer_ips@, registry@),
    {
        let has_query_type: bool = !self.query_type.is_empty();
        let has_ip_cidr: bool = !self.ip_cidr.is_empty();
        let has_rule_set: bool = !self.rule_set.is_empty();
        if self.from_upstream.is_none() && !self.has_domain && !has_query_type && !has_ip_cidr
            && !has_rule_set {
            return false;
        }
        match &self.from_upstream {
            Some(expected) => {
                if !text::same(expected.as_str(), from_upstream) {
                    return false;
                }
            },
            None => {},
        }
        if self.has_domain && !self.domain.matches(domain) {
            return self.invert;
        }
        if has_query_type && !self.query_type.matches(qtype) {
            return self.invert;
        }
        if has_ip_cidr || has_rule_set {
            if answer_ips.len() == 0 {
                return false;
            }
            if !self.matches_some(answer_ips, registry) {
                return self.invert;
            }
        }
        !self.invert
    }

    /// What the rule does.
    pub fn action(&self) -> (res: &ResponseAction)
        ensures
            res@ == self@.action,
    {
        &self.action
    }
}

/// Rules on queries and on answers.
pub struct DnsRouter {
    request_rules: Vec<CompiledRequestRule>,
    request_fallback: RequestAction,
    response_rules: Vec<CompiledResponseRule>,
    response_fallback: ResponseAction,
}

/// Rules on queries and on answers.
#[verifier::ext_equal]
pub struct RouterView {
    pub requests: Seq<RequestRuleView>,
    pub request_fallback: RequestActionView,
    pub responses: Seq<ResponseRuleView>,
    pub response_fallback: ResponseActionView,
}

impl RouterView {
    /// What the first rule from `from` on that applies to a query does.
    pub open spec fn request_from(
        &self,
        domain: Seq<char>,
        qtype: QType,
        source: Option<IpAddr>,
        registry: Seq<RuleProviderImpl>,
        from: int,
    ) -> RequestActionView
        decreases self.requests.len() - from,
    {
        if from < 0 || from >= self.requests.len() {
            self.request_fallback
        } else if self.requests[from].applies(domain, qtype, source, registry) {
            self.requests[from].action
        } else {
            self.request_from(domain, qtype, source, registry, from + 1)
        }
    }

    /// What is done with a query.
    pub open spec fn request(
        &self,
        domain: Seq<char>,
        qtype: QType,
        source: Option<IpAddr>,
        registry: Seq<RuleProviderImpl>,
    ) -> RequestActionView {
        self.request_from(domain, qtype, source, registry, 0)
    }

    /// What the first rule from `from` on that applies to an answer does.
    pub open spec fn response_from(
        &self,
        upstream: Seq<char>,
        domain: Seq<char>,
        qtype: QType,
        ips: Seq<IpAddr>,
        registry: Seq<RuleProviderImpl>,
        from: int,
    ) -> ResponseActionView
        decreases self.responses.len() - from,
    {
        if from < 0 || from >= self.responses.len() {
            self.response_fallback
        } else if self.responses[from].applies(upstream, domain, qtype, ips, registry) {
            self.responses[from].action
        } else {
            self.response_from(upstream, domain, qtype, ips, registry, from + 1)
        }
    }

    /// What is done with an answer.
    pub open spec fn response(
        &self,
        upstream: Seq<char>,
        domain: Seq<char>,
        qtype: QType,
        ips: Seq<IpAddr>,
        registry: Seq<RuleProviderImpl>,
    ) -> ResponseActionView {
        self.response_from(upstream, domain, qtype, ips, registry, 0)
    }

    /// The rules once their rule sets were found.
    pub open spec fn bound_to(&self, registry: Seq<RuleProviderImpl>) -> RouterView {
        RouterView {
            requests: self.requests.map_values(
                |r: RequestRuleView| RequestRuleView { sets: sets_bound(r.sets, registry), ..r },
            ),
            responses: self.responses.map_values(
                |r: ResponseRuleView| ResponseRuleView { sets: sets_bound(r.sets, registry), ..r },
            ),
            ..*self
        }
    }
}

/// Rule sets once they were found; those found before stay.
pub open spec fn sets_bound(sets: RuleSetView, registry: Seq<RuleProviderImpl>) -> RuleSetView {
    RuleSetView {
        names: sets.names,
        bound: match sets.bound {
            Some(b) => Some(b),
            None => Some(
                filters::bound_places(
                    registry,
                    matcher::clean_names(sets.names),
                    sets.names.len() as int,
                ),
            ),
        },
    }
}

impl View for DnsRouter {
    type V = RouterView;

    closed spec fn view(&self) -> RouterView {
        RouterView {
            requests: self.request_rules@.map_values(|r: CompiledRequestRule| r@),
            request_fallback: self.request_fallback@,
            responses: self.response_rules@.map_values(|r: CompiledResponseRule| r@),
            response_fallback: self.response_fallback@,
        }
    }
}

/// Every network of the rules fits its version.
pub open spec fn rules_wf(requests: Seq<RequestRule>, responses: Seq<ResponseRule>) -> bool {
    &&& forall|i: int|
        0 <= i < requests.len() ==> matcher::nets_wf((#[trigger] requests[i]).source_ip_cidr@)
    &&& forall|i: int|
        0 <= i < responses.len() ==> matcher::nets_wf((#[trigger] responses[i]).ip_cidr@)
}

impl DnsRouter {
    /// Makes rules ready for use.
    pub fn new(
        request_rules: &Vec<RequestRule>,
        request_fallback: &RequestAction,
        response_rules: &Vec<ResponseRule>,
        response_fallback: &ResponseAction,
    ) -> (res: DnsRouter)
        requires
            rules_wf(request_rules@, response_rules@),
        ensures
            res@ == (RouterView {
                requests: request_rules@.map_values(|r: RequestRule| request_view(r)),
                request_fallback: request_fallback@,
                responses: response_rules@.map_values(|r: ResponseRule| response_view(r)),
                response_fallback: response_fallback@,
            }),
    {
        let mut requests: Vec<CompiledRequestRule> = Vec::new();
        let mut i: usize = 0;
        while i < request_rules.len()
            invariant
                i <= request_rules@.len(),
                rules_wf(request_rules@, response_rules@),
                requests@.len() == i,
                forall|j: int|
                    0 <= j < i ==> (#[trigger] requests@[j])@ == request_view(request_rules@[j]),
            decreases request_rules@.len() - i,
        {
            assert(matcher::nets_wf(request_rules@[i as int].source_ip_cidr@));
            requests.push(CompiledRequestRule::new(&request_rules[i]));
            i = i + 1;
        }
        let mut responses: Vec<CompiledResponseRule> = Vec::new();
        let mut k: usize = 0;
        while k < response_rules.len()
            invariant
                k <= response_rules@.len(),
                rules_wf(request_rules@, response_rules@),
                responses@.len() == k,
                forall|j: int|
                    0 <= j < k ==> (#[trigger] responses@[j])@ == response_view(response_rules@[j]),
            decreases response_rules@.len() - k,
        {
            assert(matcher::nets_wf(response_rules@[k as int].ip_cidr@));
            responses.push(CompiledResponseRule::new(&response_rules[k]));
            k = k + 1;
        }
        let res = DnsRouter {
            request_rules: requests,
            request_fallback: request_fallback.copy(),
            response_rules: responses,
            response_fallback: response_fallback.copy(),
        };
        assert(res@.requests =~= request_rules@.map_values(|r: RequestRule| request_view(r)));
        assert(res@.responses =~= response_rules@.map_values(|r: ResponseRule| response_view(r)));
        res
    }

    /// Finds the rule sets that the rules name, once.
    pub fn bind_rule_providers(&mut self, registry: &Vec<RuleProviderImpl>)
        ensures
            final(self)@ == old(self)@.bound_to(registry@),
    {
        let mut i: usize = 0;
        while i < self.request_rules.len()
            invariant
                i <= self.request_rules@.len(),
                self.request_rules@.len() == old(self).request_rules@.len(),
                self.response_rules@ == old(self).response_rules@,
                self.request_fallback == old(self).request_fallback,
                self.response_fallback == old(self).response_fallback,
                forall|j: int|
                    0 <= j < i ==> (#[trigger] self.request_rules@[j])@ == (RequestRuleView {
                        sets: sets_bound(old(self).request_rules@[j]@.sets, registry@),
                        ..old(self).request_rules@[j]@
                    }),
                forall|j: int|
                    i <= j < self.request_rules@.len() ==> #[trigger] self.request_rules@[j] == old(
                        self
                    ).request_rules@[j],
            decreases self.request_rules@.len() - i,
        {
            self.request_rules[i].rule_set.bind_providers(registry);
            i = i + 1;
        }
        let mut k: usize = 0;
        let ghost requests = self.request_rules@;
        while k < self.response_rules.len()
            invariant
                k <= self.response_rules@.len(),
                self.request_rules@ == requests,
                self.response_rules@.len() == old(self).response_rules@.len(),
                self.request_fallback == old(self).request_fallback,
                self.response_fallback == old(self).response_fallback,
                forall|j: int|
                    0 <= j < k ==> (#[trigger] self.response_rules@[j])@ == (ResponseRuleView {
                        sets: sets_bound(old(self).response_rules@[j]@.sets, registry@),
                        ..old(self).response_rules@[j]@
                    }),
                forall|j: int|
                    k <= j < self.response_rules@.len() ==> #[trigger] self.response_rules@[j] == old(
                        self
                    ).response_rules@[j],
            decreases self.response_rules@.len() - k,
        {
            self.response_rules[k].rule_set.bind_providers(registry);
            k = k + 1;
        }
        assert(self@.requests =~= old(self)@.bound_to(registry@).requests);
        assert(self@.responses =~= old(self)@.bound_to(registry@).responses);
    }

    /// What is done with a query: what the first rule that applies does, else the fallback.
    pub fn route_request(
        &self,
        domain: &str,
        qtype: QType,
        source_ip: Option<IpAddr>,
        registry: &Vec<RuleProviderImpl>,
    ) -> (res: &RequestAction)
        ensures
            res@ == self@.request(domain@, qtype, source_ip, registry@),
    {
        let mut i: usize = 0;
        while i < self.request_rules.len()
            invariant
                i <= self.request_rules@.len(),
                self@.request(domain@, qtype, source_ip, registry@) == self@.request_from(
                    domain@,
                    qtype,
                    source_ip,
                    registry@,
                    i as int,
                ),
            decreases self.request_rules@.len() - i,
        {
            assert(self@.requests[i as int] == self.request_rules@[i as int]@);
            if self.request_rules[i].matches(domain, qtype, source_ip, registry) {
                return self.request_rules[i].action();
            }
            i = i + 1;
        }
        &self.request_fallback
    }

    /// What is done with an answer: what the first rule that applies does, else the fallback.
    pub fn route_response(
        &self,
        from_upstream: &str,
        domain: &str,
        qtype: QType,
        answer_ips: &Vec<IpAddr>,
        registry: &Vec<RuleProviderImpl>,
    ) -> (res: &ResponseAction)
        ensures
            res@ == self@.response(from_upstream@, domain@, qtype, answer_ips@, registry@),
    {
        let mut i: usize = 0;
        while i < self.response_rules.len()
            invariant
                i <= self.response_rules@.len(),
                self@.response(from_upstream@, domain@, qtype, answer_ips@, registry@)
                    == self@.response_from(
                    from_upstream@,
                    domain@,
                    qtype,
                    answer_ips@,
                    registry@,
                    i as int,
                ),
            decreases self.response_rules@.len() - i,
        {
            assert(self@.responses[i as int] == self.response_rules@[i as int]@);
            if self.response_rules[i].matches(from_upstream, domain, qtype, answer_ips, registry) {
                return self.response_rules[i].action();
            }
            i = i + 1;
        }
        &self.response_fallback
    }
}

/// A rule without conditions never decides: what follows it does.
pub proof fn law_empty_request_rule_is_skipped(
    router: RouterView,
    domain: Seq<char>,
    qtype: QType,
    source: Option<IpAddr>,
    registry: Seq<RuleProviderImpl>,
    i: int,
)
    requires
        0 <= i < router.requests.len(),
        !router.requests[i].has_condition(),
    ensures
        router.request_from(domain, qtype, source, registry, i) == router.request_from(
            domain,
            qtype,
            source,
            registry,
            i + 1,
        ),
{
}

/// An answer without addresses is never taken for a polluted one: a rule that looks for addresses
/// alone does not apply to it, inverted or not.
pub proof fn law_no_addresses_no_match(
    rule: ResponseRuleView,
    upstream: Seq<char>,
    domain: Seq<char>,
    qtype: QType,
    registry: Seq<RuleProviderImpl>,
)
    requires
        rule.wants_ips(),
        !rule.has_domain,
        rule.types.len() == 0,
    ensures
        !rule.applies(upstream, domain, qtype, Seq::empty(), registry),
{
}

/// A rule on one upstream's answers never applies to another's, inverted or not.
pub proof fn law_other_upstream_no_match(
    rule: ResponseRuleView,
    upstream: Seq<char>,
    domain: Seq<char>,
    qtype: QType,
    ips: Seq<IpAddr>,
    registry: Seq<RuleProviderImpl>,
)
    requires
        rule.from_upstream is Some,
        rule.from_upstream.unwrap() != upstream,
    ensures
        !rule.applies(upstream, domain, qtype, ips, registry),
{
}

/// A rule on queries that only names rule sets applies exactly where one of the rule sets that were
/// found matches the domain, whatever the type of the query and its source.
pub proof fn law_rule_set_alone_decides(
    rule: RequestRuleView,
    domain: Seq<char>,
    qtype: QType,
    source: Option<IpAddr>,
    registry: Seq<RuleProviderImpl>,
)
    requires
        !rule.has_domain,
        rule.types.len() == 0,
        rule.sources.len() == 0,
        rule.sets.names.len() > 0,
        !rule.invert,
    ensures
        rule.applies(domain, qtype, source, registry) <==> (rule.sets.bound matches Some(places)
            && exists|i: int|
            0 <= i < places.len() && (#[trigger] places[i]) < registry.len()
                && registry[places[i] as int].finds(TargetView::Domain(domain))),
{
}

/// A rule on queries that names domains and rule sets applies where either of the two does alone.
pub proof fn law_domain_or_rule_set_suffices(
    rule: RequestRuleView,
    domain: Seq<char>,
    qtype: QType,
    source: Option<IpAddr>,
    registry: Seq<RuleProviderImpl>,
)
    requires
        rule.has_domain,
        rule.sets.names.len() > 0,
        !rule.invert,
    ensures
        rule.applies(domain, qtype, source, registry) == ((RequestRuleView {
            has_domain: false,
            ..rule
        }).applies(domain, qtype, source, registry) || (RequestRuleView {
            sets: RuleSetView { names: Seq::empty(), bound: None },
            ..rule
        }).applies(domain, qtype, source, registry)),
{
}

/// A rule on queries that only names domains applies exactly where one of its patterns covers the
/// domain.
pub proof fn law_domain_patterns_decide(
    rule: RequestRuleView,
    domain: Seq<char>,
    qtype: QType,
    source: Option<IpAddr>,
    registry: Seq<RuleProviderImpl>,
)
    requires
        rule.has_domain,
        rule.types.len() == 0,
        rule.sources.len() == 0,
        rule.sets.names.len() == 0,
        !rule.invert,
    ensures
        rule.applies(domain, qtype, source, registry) <==> trie::found(
            rule.patterns,
            matcher::normalized(domain),
        ) is Some,
{
}

/// The conditions of a rule on queries stand side by side: one that names domains or rule sets,
/// types and sources applies where the rules with each of these alone do.
pub proof fn law_request_conditions_add_up(
    rule: RequestRuleView,
    domain: Seq<char>,
    qtype: QType,
    source: Option<IpAddr>,
    registry: Seq<RuleProviderImpl>,
)
    requires
        rule.has_domain || rule.sets.names.len() > 0,
        rule.types.len() > 0,
        rule.sources.len() > 0,
        !rule.invert,
    ensures
        rule.applies(domain, qtype, source, registry) == ((RequestRuleView {
            types: Seq::empty(),
            sources: Seq::empty(),
            ..rule
        }).applies(domain, qtype, source, registry) && rule.types.contains(qtype) && (
        source matches Some(addr) && exists|i: int|
            0 <= i < rule.sources.len() && (#[trigger] rule.sources[i]).has(addr))),
{
}

/// An inverted rule on queries applies exactly where the rule itself does not, as long as it has a
/// condition.
pub proof fn law_inverted_request_rule_is_the_opposite(
    rule: RequestRuleView,
    domain: Seq<char>,
    qtype: QType,
    source: Option<IpAddr>,
    registry: Seq<RuleProviderImpl>,
)
    requires
        rule.has_domain || rule.sets.names.len() > 0 || rule.types.len() > 0 || rule.sources.len()
            > 0,
    ensures
        (RequestRuleView { invert: !rule.invert, ..rule }).applies(domain, qtype, source, registry)
            != rule.applies(domain, qtype, source, registry),
{
}

proof fn lemma_request_from(
    router: RouterView,
    domain: Seq<char>,
    qtype: QType,
    source: Option<IpAddr>,
    registry: Seq<RuleProviderImpl>,
    from: int,
    to: int,
)
    requires
        0 <= from <= to <= router.requests.len(),
        forall|k: int|
            from <= k < to ==> !(#[trigger] router.requests[k]).applies(
                domain,
                qtype,
                source,
                registry,
            ),
    ensures
        router.request_from(domain, qtype, source, registry, from) == router.request_from(
            domain,
            qtype,
            source,
            registry,
            to,
        ),
    decreases to - from,
{
    if from < to {
        assert(!router.requests[from].applies(domain, qtype, source, registry));
        lemma_request_from(router, domain, qtype, source, registry, from + 1, to);
    }
}

/// The first rule that applies to a query decides what is done with it; where none applies, the
/// fallback does.
pub proof fn law_first_request_rule_decides(
    router: RouterView,
    domain: Seq<char>,
    qtype: QType,
    source: Option<IpAddr>,
    registry: Seq<RuleProviderImpl>,
    at: int,
)
    requires
        0 <= at <= router.requests.len(),
        forall|k: int|
            0 <= k < at ==> !(#[trigger] router.requests[k]).applies(
                domain,
                qtype,
                source,
                registry,
            ),
        at < router.requests.len() ==> router.requests[at].applies(domain, qtype, source, registry),
    ensures
        router.request(domain, qtype, source, registry) == (if at < router.requests.len() {
            router.requests[at].action
        } else {
            router.request_fallback
        }),
{
    lemma_request_from(router, domain, qtype, source, registry, 0, at);
}

/// A rule on answers that only looks for addresses applies exactly where one of the answer's
/// addresses lies in one of its networks or is matched by one of the rule sets that were found.
pub proof fn law_answer_address_decides(
    rule: ResponseRuleView,
    upstream: Seq<char>,
    domain: Seq<char>,
    qtype: QType,
    ips: Seq<IpAddr>,
    registry: Seq<RuleProviderImpl>,
)
    requires
        rule.from_upstream is None,
        !rule.has_domain,
        rule.types.len() == 0,
        !rule.invert,
    ensures
        rule.applies(upstream, domain, qtype, ips, registry) <==> exists|i: int|
            0 <= i < ips.len() && ((exists|k: int|
                0 <= k < rule.nets.len() && (#[trigger] rule.nets[k]).has(#[trigger] ips[i])) || (
            rule.sets.names.len() > 0 && rule.sets.bound is Some && exists|k: int|
                0 <= k < rule.sets.bound.unwrap().len() && (#[trigger] rule.sets.bound.unwrap()[k])
                    < registry.len() && registry[rule.sets.bound.unwrap()[k] as int].finds(
                    TargetView::Ip(ips[i]),
                ))),
{
    if rule.applies(upstream, domain, qtype, ips, registry) {
        let i = choose|i: int| 0 <= i < ips.len() && rule.finds_ip(#[trigger] ips[i], registry);
        let addr = ips[i];
        if rule.nets.len() > 0 && filters::some_net_has(rule.nets, addr) {
            let k = choose|k: int| 0 <= k < rule.nets.len() && (#[trigger] rule.nets[k]).has(addr);
            assert(rule.nets[k].has(ips[i]));
        }
    }
    assert forall|i: int|
        0 <= i < ips.len() && ((exists|k: int|
            0 <= k < rule.nets.len() && (#[trigger] rule.nets[k]).has(#[trigger] ips[i])) || (
        rule.sets.names.len() > 0 && rule.sets.bound is Some && exists|k: int|
            0 <= k < rule.sets.bound.unwrap().len() && (#[trigger] rule.sets.bound.unwrap()[k])
                < registry.len() && registry[rule.sets.bound.unwrap()[k] as int].finds(
                TargetView::Ip(ips[i]),
            ))) implies rule.finds_ip(#[trigger] ips[i], registry) by {
        if exists|k: int| 0 <= k < rule.nets.len() && (#[trigger] rule.nets[k]).has(ips[i]) {
            assert(filters::some_net_has(rule.nets, ips[i]));
        }
    }
}

/// An inverted rule on answers applies exactly where the rule itself does not, on the answers of its
/// upstream that give the addresses it looks for, if any.
pub proof fn law_inverted_response_rule_is_the_opposite(
    rule: ResponseRuleView,
    upstream: Seq<char>,
    domain: Seq<char>,
    qtype: QType,
    ips: Seq<IpAddr>,
    registry: Seq<RuleProviderImpl>,
)
    requires
        rule.from_upstream is Some || rule.has_domain || rule.types.len() > 0 || rule.nets.len() > 0
            || rule.sets.names.len() > 0,
        rule.from_upstream matches Some(tag) ==> tag == upstream,
        ips.len() > 0 || (rule.nets.len() == 0 && rule.sets.names.len() == 0),
    ensures
        (ResponseRuleView { invert: !rule.invert, ..rule }).applies(
            upstream,
            domain,
            qtype,
            ips,
            registry,
        ) != rule.applies(upstream, domain, qtype, ips, registry),
{
    let other = ResponseRuleView { invert: !rule.invert, ..rule };
    assert(forall|addr: IpAddr|
        rule.finds_ip(addr, registry) == #[trigger] other.finds_ip(addr, registry));
    if rule.finds_some(ips, registry) {
        let i = choose|i: int| 0 <= i < ips.len() && rule.finds_ip(#[trigger] ips[i], registry);
        assert(other.finds_ip(ips[i], registry));
    }
    if other.finds_some(ips, registry) {
        let i = choose|i: int| 0 <= i < ips.len() && other.finds_ip(#[trigger] ips[i], registry);
        assert(rule.finds_ip(ips[i], registry));
    }
}

/// The conditions of a rule on answers stand side by side: it applies where its patterns cover the
/// domain, its types hold the type, and the rule with its addresses alone applies.
pub proof fn law_response_conditions_add_up(
    rule: ResponseRuleView,
    upstream: Seq<char>,
    domain: Seq<char>,
    qtype: QType,
    ips: Seq<IpAddr>,
    registry: Seq<RuleProviderImpl>,
)
    requires
        rule.from_upstream == Some(upstream),
        rule.has_domain,
        rule.types.len() > 0,
        rule.nets.len() > 0 || rule.sets.names.len() > 0,
        !rule.invert,
    ensures
        rule.applies(upstream, domain, qtype, ips, registry) == (trie::found(
            rule.patterns,
            matcher::normalized(domain),
        ) is Some && rule.types.contains(qtype) && (ResponseRuleView {
            from_upstream: None,
            has_domain: false,
            types: Seq::empty(),
            ..rule
        }).applies(upstream, domain, qtype, ips, registry)),
{
    let other = ResponseRuleView {
        from_upstream: None,
        has_domain: false,
        types: Seq::empty(),
        ..rule
    };
    assert(forall|addr: IpAddr|
        rule.finds_ip(addr, registry) == #[trigger] other.finds_ip(addr, registry));
    if rule.finds_some(ips, registry) {
        let i = choose|i: int| 0 <= i < ips.len() && rule.finds_ip(#[trigger] ips[i], registry);
        assert(other.finds_ip(ips[i], registry));
    }
    if other.finds_some(ips, registry) {
        let i = choose|i: int| 0 <= i < ips.len() && other.finds_ip(#[trigger] ips[i], registry);
        assert(rule.finds_ip(ips[i], registry));
    }
}

proof fn lemma_response_from(
    router: RouterView,
    upstream: Seq<char>,
    domain: Seq<char>,
    qtype: QType,
    ips: Seq<IpAddr>,
    registry: Seq<RuleProviderImpl>,
    from: int,
    to: int,
)
    requires
        0 <= from <= to <= router.responses.len(),
        forall|k: int|
            from <= k < to ==> !(#[trigger] router.responses[k]).applies(
                upstream,
                domain,
                qtype,
                ips,
                registry,
            ),
    ensures
        router.response_from(upstream, domain, qtype, ips, registry, from)
            == router.response_from(upstream, domain, qtype, ips, registry, to),
    decreases to - from,
{
    if from < to {
        assert(!router.responses[from].applies(upstream, domain, qtype, ips, registry));
        lemma_response_from(router, upstream, domain, qtype, ips, registry, from + 1, to);
    }
}

/// The first rule that applies to an answer decides what is done with it; where none applies, the
/// fallback does.
pub proof fn law_first_response_rule_decides(
    router: RouterView,
    upstream: Seq<char>,
    domain: Seq<char>,
    qtype: QType,
    ips: Seq<IpAddr>,
    registry: Seq<RuleProviderImpl>,
    at: int,
)
    requires
        0 <= at <= router.responses.len(),
        forall|k: int|
            0 <= k < at ==> !(#[trigger] router.responses[k]).applies(
                upstream,
                domain,
                qtype,
                ips,
                registry,
            ),
        at < router.responses.len() ==> router.responses[at].applies(
            upstream,
            domain,
            qtype,
            ips,
            registry,
        ),
    ensures
        router.response(upstream, domain, qtype, ips, registry) == (if at
            < router.responses.len() {
            router.responses[at].action
        } else {
            router.response_fallback
        }),
{
    lemma_response_from(router, upstream, domain, qtype, ips, registry, 0, at);
}

/// Once its rule sets were found, a rule on queries that only names rule sets applies exactly where
/// a provider that one of its names names, with or without `rule-set:` in front, matches the domain.
pub proof fn law_named_rule_sets_decide(
    router: RouterView,
    at: int,
    domain: Seq<char>,
    qtype: QType,
    source: Option<IpAddr>,
    registry: Seq<RuleProviderImpl>,
)
    requires
        0 <= at < router.requests.len(),
        registry.len() <= usize::MAX,
        !router.requests[at].has_domain,
        router.requests[at].types.len() == 0,
        router.requests[at].sources.len() == 0,
        router.requests[at].sets.bound is None,
        !router.requests[at].invert,
    ensures
        router.bound_to(registry).requests[at].applies(domain, qtype, source, registry)
            <==> exists|k: int, p: int|
            0 <= k < router.requests[at].sets.names.len() && 0 <= p < registry.len()
                && filters::is_first_named(
                registry,
                matcher::clean_name(#[trigger] router.requests[at].sets.names[k]),
                p,
            ) && (#[trigger] registry[p]).finds(TargetView::Domain(domain)),
        router.bound_to(registry).requests[at].action == router.requests[at].action,
{
    let rule = router.requests[at];
    let after = router.bound_to(registry).requests[at];
    let names = matcher::clean_names(rule.sets.names);
    let target = TargetView::Domain(domain);
    assert(after == RequestRuleView { sets: sets_bound(rule.sets, registry), ..rule });
    filters::law_bound_sets_match(registry, names, names.len() as int, target);
    if filters::bound_match(registry, after.sets.bound, target) {
        let (k, p) = choose|k: int, p: int|
            0 <= k < names.len() && 0 <= p < registry.len() && filters::is_first_named(
                registry,
                #[trigger] names[k],
                p,
            ) && (#[trigger] registry[p]).finds(target);
        assert(names[k] == matcher::clean_name(rule.sets.names[k]));
    }
    if exists|k: int, p: int|
        0 <= k < rule.sets.names.len() && 0 <= p < registry.len() && filters::is_first_named(
            registry,
            matcher::clean_name(#[trigger] rule.sets.names[k]),
            p,
        ) && (#[trigger] registry[p]).finds(target) {
        let (k, p) = choose|k: int, p: int|
            0 <= k < rule.sets.names.len() && 0 <= p < registry.len() && filters::is_first_named(
                registry,
                matcher::clean_name(#[trigger] rule.sets.names[k]),
                p,
            ) && (#[trigger] registry[p]).finds(target);
        assert(names[k] == matcher::clean_name(rule.sets.names[k]));
    }
}

/// The code of a rejection is read in whatever case and with white space around it; a text that names
/// none turns queries down without data.
pub proof fn law_reject_codes_have_no_case(a: Seq<char>, b: Seq<char>)
    requires
        text::ascii_lowered(text::trimmed(a)) == text::ascii_lowered(text::trimmed(b)),
    ensures
        RejectCode::named(a) == RejectCode::named(b),
        RejectCode::named(a) == RejectCode::Nxdomain <==> text::ascii_lowered(text::trimmed(b))
            == "nxdomain"@,
        RejectCode::named(a) == RejectCode::Refused <==> text::ascii_lowered(text::trimmed(b))
            == "refused"@,
{
    reveal_strlit("nxdomain");
    reveal_strlit("refused");
    assert("nxdomain"@[0] == 'n' && "refused"@[0] == 'r');
}

} // verus!
