//! Filters that decide by domain, address or country, with entries of their own and entries that
//! refer to rule sets.
use vstd::prelude::*;

use crate::error::Error;
use crate::ip;
use crate::ip::{parse_net, IpAddr, IpNet};
use crate::providers::rule_provider;
use crate::providers::rule_provider::RuleProviderImpl;
use crate::session::{Target, TargetView};
use crate::text;
use crate::trie;
use crate::trie::StringTrie;

verus! {

/// The entry refers to a rule set: it starts with `rule-set:`.
pub open spec fn is_rule_set_entry(entry: Seq<char>) -> bool {
    text::has_prefix(entry, "rule-set:"@)
}

/// The name of the rule set that an entry refers to.
pub open spec fn rule_set_name(entry: Seq<char>) -> Seq<char> {
    entry.skip("rule-set:"@.len() as int)
}

/// The names of the rule sets among the first `n` entries.
pub open spec fn rule_set_names(entries: Seq<Seq<char>>, n: int) -> Seq<Seq<char>>
    decreases n,
{
    if n <= 0 {
        Seq::empty()
    } else if is_rule_set_entry(entries[n - 1]) {
        rule_set_names(entries, n - 1).push(rule_set_name(entries[n - 1]))
    } else {
        rule_set_names(entries, n - 1)
    }
}

/// The first `n` entries without those that refer to rule sets.
pub open spec fn plain_entries(entries: Seq<Seq<char>>, n: int) -> Seq<Seq<char>>
    decreases n,
{
    if n <= 0 {
        Seq::empty()
    } else if is_rule_set_entry(entries[n - 1]) {
        plain_entries(entries, n - 1)
    } else {
        plain_entries(entries, n - 1).push(entries[n - 1])
    }
}

/// The rule set's name, where the entry refers to one.
fn strip_rule_set(entry: &str) -> (res: Option<String>)
    ensures
        res is Some <==> is_rule_set_entry(entry@),
        res matches Some(name) ==> name@ == rule_set_name(entry@),
{
    let all: Vec<char> = text::chars(entry);
    let prefix: Vec<char> = text::chars("rule-set:");
    if text::starts_with(&all, &prefix) {
        let rest: Vec<char> = text::slice(&all, prefix.len(), all.len());
        assert(rest@ =~= rule_set_name(entry@));
        Some(text::text(&rest))
    } else {
        None
    }
}

/// The place of the first provider called `name`, from `from` on.
pub open spec fn provider_place(registry: Seq<RuleProviderImpl>, name: Seq<char>, from: int) -> int
    decreases registry.len() - from,
{
    if from >= registry.len() || registry[from].name_spec() == name {
        from
    } else {
        provider_place(registry, name, from + 1)
    }
}

/// The places of the providers that the first `n` names name; unknown names are passed over.
pub open spec fn bound_places(registry: Seq<RuleProviderImpl>, names: Seq<Seq<char>>, n: int) -> Seq<
    usize,
>
    decreases n,
{
    if n <= 0 {
        Seq::empty()
    } else {
        let at = provider_place(registry, names[n - 1], 0);
        if at < registry.len() {
            bound_places(registry, names, n - 1).push(at as usize)
        } else {
            bound_places(registry, names, n - 1)
        }
    }
}

/// One of the bound providers matches the domain or address.
pub open spec fn bound_match(
    registry: Seq<RuleProviderImpl>,
    bound: Option<Seq<usize>>,
    target: TargetView,
) -> bool {
    bound matches Some(places) && exists|i: int|
        0 <= i < places.len() && (#[trigger] places[i]) < registry.len()
            && registry[places[i] as int].finds(target)
}

/// The place of the provider called `name`.
pub fn find_provider(registry: &Vec<RuleProviderImpl>, name: &str) -> (res: Option<usize>)
    ensures
        match res {
            Some(i) => i == provider_place(registry@, name@, 0) && i < registry@.len(),
            None => provider_place(registry@, name@, 0) >= registry@.len(),
        },
{
    let mut i: usize = 0;
    while i < registry.len()
        invariant
            i <= registry@.len(),
            provider_place(registry@, name@, 0) == provider_place(registry@, name@, i as int),
        decreases registry@.len() - i,
    {
        if text::same(registry[i].name(), name) {
            return Some(i);
        }
        i = i + 1;
    }
    None
}

/// The places of the providers that the names name.
pub fn bind(registry: &Vec<RuleProviderImpl>, names: &Vec<String>) -> (res: Vec<usize>)
    ensures
        res@ == bound_places(registry@, text::string_views(names@), names@.len() as int),
{
    let mut places: Vec<usize> = Vec::new();
    let mut i: usize = 0;
    while i < names.len()
        invariant
            i <= names@.len(),
            places@ == bound_places(registry@, text::string_views(names@), i as int),
        decreases names@.len() - i,
    {
        assert(text::string_views(names@)[i as int] == names@[i as int]@);
        if let Some(at) = find_provider(registry, names[i].as_str()) {
            places.push(at);
        }
        i = i + 1;
    }
    places
}

/// The bound places as plain values.
pub open spec fn bound_view(bound: Option<Vec<usize>>) -> Option<Seq<usize>> {
    match bound {
        Some(v) => Some(v@),
        None => None,
    }
}

/// Whether one of the bound providers matches the domain or address.
pub fn check_bound(
    registry: &Vec<RuleProviderImpl>,
    bound: &Option<Vec<usize>>,
    target: &Target,
) -> (res: bool)
    ensures
        res == bound_match(registry@, bound_view(*bound), target@),
{
    match bound {
        None => false,
        Some(places) => {
            let mut i: usize = 0;
            while i < places.len()
                invariant
                    i <= places@.len(),
                    *bound == Some(*places),
                    forall|k: int|
                        0 <= k < i ==> !((#[trigger] places@[k]) < registry@.len()
                            && registry@[places@[k] as int].finds(target@)),
                decreases places@.len() - i,
            {
                let at: usize = places[i];
                if at < registry.len() && registry[at].search_target(target) {
                    let ghost view = places@;
                    assert(view[i as int] < registry@.len() && registry@[view[i as int] as int].finds(
                        target@,
                    ));
                    assert(bound_match(registry@, Some(view), target@));
                    return true;
                }
                i = i + 1;
            }
            false
        },
    }
}

/// Lets through every address but those of one country.
#[derive(Debug)]
pub struct GeoIPFilter {
    code: String,
}

impl GeoIPFilter {
    /// The country's code.
    pub closed spec fn code_spec(&self) -> Seq<char> {
        self.code@
    }

    /// A filter against the country with the given code.
    pub fn new(code: &str) -> (res: GeoIPFilter)
        ensures
            res.code_spec() == code@,
    {
        GeoIPFilter { code: code.to_owned() }
    }

    /// An address of `country` passes. An address whose country is unknown, or looked up before
    /// there is a database, passes.
    pub open spec fn passes(&self, country: Option<Seq<char>>) -> bool {
        country != Some(self.code_spec())
    }

    /// Whether an address of `country` passes.
    pub fn apply(&self, country: &Option<String>) -> (res: bool)
        ensures
            res == self.passes(text::opt_view(*country)),
    {
        match country {
            Some(c) => !text::same(c.as_str(), self.code.as_str()),
            None => true,
        }
    }
}

/// Matches addresses in its networks or in its rule sets.
pub struct IPNetFilter {
    subnets: Vec<IpNet>,
    ruleset_names: Vec<String>,
    bound: Option<Vec<usize>>,
}

/// The networks that the first `n` texts write, or `None` when one of them writes none.
pub open spec fn all_nets(entries: Seq<Seq<char>>, n: int) -> Option<Seq<IpNet>>
    decreases n,
{
    if n <= 0 {
        Some(Seq::empty())
    } else {
        match (all_nets(entries, n - 1), ip::net_value(entries[n - 1])) {
            (Some(nets), Some(net)) => Some(nets.push(net)),
            _ => None,
        }
    }
}

/// One network of the list holds the address.
pub open spec fn some_net_has(nets: Seq<IpNet>, addr: IpAddr) -> bool {
    exists|i: int| 0 <= i < nets.len() && (#[trigger] nets[i]).has(addr)
}

pub proof fn lemma_all_nets_prefix(entries: Seq<Seq<char>>, n: int, m: int)
    requires
        n <= m,
        all_nets(entries, n) is None,
    ensures
        all_nets(entries, m) is None,
    decreases m - n,
{
    if n < m {
        lemma_all_nets_prefix(entries, n, m - 1);
    }
}

proof fn lemma_plain_entries_grow(entries: Seq<Seq<char>>, n: int, m: int)
    requires
        0 <= n <= m,
    ensures
        plain_entries(entries, n).len() <= plain_entries(entries, m).len(),
        plain_entries(entries, m).take(plain_entries(entries, n).len() as int) == plain_entries(
            entries,
            n,
        ),
    decreases m - n,
{
    if n < m {
        lemma_plain_entries_grow(entries, n, m - 1);
        let short = plain_entries(entries, n);
        let mid = plain_entries(entries, m - 1);
        let long = plain_entries(entries, m);
        assert(long.take(short.len() as int) =~= mid.take(short.len() as int));
    } else {
        assert(plain_entries(entries, m).take(plain_entries(entries, n).len() as int)
            =~= plain_entries(entries, n));
    }
}

proof fn lemma_all_nets_agree(a: Seq<Seq<char>>, b: Seq<Seq<char>>, n: int)
    requires
        0 <= n <= a.len(),
        n <= b.len(),
        a.take(n) == b.take(n),
    ensures
        all_nets(a, n) == all_nets(b, n),
    decreases n,
{
    if n > 0 {
        assert(a.take(n - 1) =~= a.take(n).take(n - 1));
        assert(b.take(n - 1) =~= b.take(n).take(n - 1));
        assert(a[n - 1] == a.take(n)[n - 1]);
        assert(b[n - 1] == b.take(n)[n - 1]);
        lemma_all_nets_agree(a, b, n - 1);
    }
}

impl IPNetFilter {
    /// The filter's own networks.
    pub closed spec fn nets(&self) -> Seq<IpNet> {
        self.subnets@
    }

    /// The names of the rule sets it refers to.
    pub closed spec fn names(&self) -> Seq<Seq<char>> {
        text::string_views(self.ruleset_names@)
    }

    /// The places of the rule sets it is bound to.
    pub closed spec fn places(&self) -> Option<Seq<usize>> {
        bound_view(self.bound)
    }

    /// Every network fits its version.
    #[verifier::type_invariant]
    spec fn wf(&self) -> bool {
        forall|i: int| 0 <= i < self.subnets@.len() ==> (#[trigger] self.subnets@[i]).wf()
    }

    /// Reads the entries; one that neither refers to a rule set nor writes a network is an error.
    pub fn new(entries: &Vec<String>) -> (res: Result<IPNetFilter, Error>)
        ensures
            ({
                let all = text::string_views(entries@);
                let plain = plain_entries(all, all.len() as int);
                match res {
                    Ok(filter) => {
                        &&& all_nets(plain, plain.len() as int) == Some(filter.nets())
                        &&& filter.names() == rule_set_names(all, all.len() as int)
                        &&& filter.places() is None
                    },
                    Err(e) => {
                        &&& all_nets(plain, plain.len() as int) is None
                        &&& e.text() == "invalid IP address syntax"@
                        &&& e is InvalidConfig
                    },
                }
            }),
    {
        let ghost all = text::string_views(entries@);
        let mut subnets: Vec<IpNet> = Vec::new();
        let mut ruleset_names: Vec<String> = Vec::new();
        let mut i: usize = 0;
        assert(text::string_views(ruleset_names@) =~= Seq::empty());
        while i < entries.len()
            invariant
                i <= entries@.len(),
                all == text::string_views(entries@),
                text::string_views(ruleset_names@) == rule_set_names(all, i as int),
                all_nets(plain_entries(all, i as int), plain_entries(all, i as int).len() as int)
                    == Some(subnets@),
                forall|k: int| 0 <= k < subnets@.len() ==> (#[trigger] subnets@[k]).wf(),
            decreases entries@.len() - i,
        {
            assert(all[i as int] == entries@[i as int]@);
            let ghost plain = plain_entries(all, i as int);
            match strip_rule_set(entries[i].as_str()) {
                Some(name) => {
                    let ghost before = ruleset_names@;
                    ruleset_names.push(name);
                    assert(text::string_views(ruleset_names@) =~= text::string_views(before).push(
                        name@,
                    ));
                },
                None => {
                    let ghost longer = plain_entries(all, i + 1);
                    assert(longer == plain.push(all[i as int]));
                    assert(longer.take(plain.len() as int) =~= plain.take(plain.len() as int));
                    proof {
                        lemma_all_nets_agree(plain, longer, plain.len() as int);
                    }
                    match parse_net(entries[i].as_str()) {
                        Some(net) => subnets.push(net),
                        None => {
                            proof {
                                let last = plain_entries(all, all.len() as int);
                                lemma_plain_entries_grow(all, i + 1, all.len() as int);
                                let n = longer.len() as int;
                                assert(longer.take(n) =~= longer);
                                lemma_all_nets_agree(longer, last, n);
                                lemma_all_nets_prefix(last, n, last.len() as int);
                            }
                            return Err(
                                Error::InvalidConfig("invalid IP address syntax".to_owned()),
                            );
                        },
                    }
                },
            }
            i = i + 1;
        }
        Ok(IPNetFilter { subnets, ruleset_names, bound: None })
    }

    /// The filter is this one, bound to its rule sets: once, where it names any.
    pub open spec fn bound_as(&self, after: IPNetFilter, registry: Seq<RuleProviderImpl>) -> bool {
        &&& after.nets() == self.nets()
        &&& after.names() == self.names()
        &&& after.places() == (if self.names().len() == 0 || self.places() is Some {
            self.places()
        } else {
            Some(bound_places(registry, self.names(), self.names().len() as int))
        })
    }

    /// Binds the filter to its rule sets, the first time it is called, and gives their places. A
    /// filter that refers to none is never bound.
    pub fn add_rule_set(&mut self, registry: &Vec<RuleProviderImpl>) -> (res: Option<Vec<usize>>)
        ensures
            old(self).bound_as(*final(self), registry@),
            bound_view(res) == (if old(self).names().len() == 0 {
                None
            } else {
                final(self).places()
            }),
    {
        proof {
            use_type_invariant(&*self);
        }
        if self.ruleset_names.len() == 0 {
            return None;
        }
        if self.bound.is_none() {
            let places: Vec<usize> = bind(registry, &self.ruleset_names);
            self.bound = Some(places);
        }
        self.bound.clone()
    }

    /// The filter matches the address: it lies in one of the networks, or a rule set matches it.
    pub open spec fn matches(&self, addr: IpAddr, registry: Seq<RuleProviderImpl>) -> bool {
        some_net_has(self.nets(), addr) || bound_match(
            registry,
            self.places(),
            TargetView::Ip(addr),
        )
    }

    /// Whether the filter matches the address.
    pub fn apply(&self, addr: &IpAddr, registry: &Vec<RuleProviderImpl>) -> (res: bool)
        ensures
            res == self.matches(*addr, registry@),
    {
        proof {
            use_type_invariant(self);
        }
        let mut i: usize = 0;
        while i < self.subnets.len()
            invariant
                i <= self.subnets@.len(),
                self.wf(),
                forall|k: int| 0 <= k < i ==> !(#[trigger] self.subnets@[k]).has(*addr),
            decreases self.subnets@.len() - i,
        {
            if self.subnets[i].contains(addr) {
                assert(self.nets()[i as int].has(*addr));
                return true;
            }
            i = i + 1;
        }
        check_bound(registry, &self.bound, &Target::Ip(*addr))
    }

    /// Whether the filter has no entries.
    pub fn is_empty(&self) -> (res: bool)
        ensures
            res == (self.nets().len() == 0 && self.names().len() == 0),
    {
        self.subnets.len() == 0 && self.ruleset_names.len() == 0
    }
}

/// Matches domains that its patterns cover or that its rule sets match.
pub struct DomainFilter {
    domains: StringTrie,
    ruleset_names: Vec<String>,
    bound: Option<Vec<usize>>,
    has_domains: bool,
}

/// A filter that matches unwanted domains.
pub type BlackDomainFilter = DomainFilter;

impl DomainFilter {
    /// The filter's own patterns.
    pub closed spec fn patterns(&self) -> Seq<(Seq<Seq<char>>, usize)> {
        self.domains@
    }

    /// The names of the rule sets it refers to.
    pub closed spec fn names(&self) -> Seq<Seq<char>> {
        text::string_views(self.ruleset_names@)
    }

    /// The places of the rule sets it is bound to.
    pub closed spec fn places(&self) -> Option<Seq<usize>> {
        bound_view(self.bound)
    }

    /// Some entry does not refer to a rule set.
    pub closed spec fn has_plain(&self) -> bool {
        self.has_domains
    }

    /// The filter matches the domain.
    pub open spec fn matches(&self, domain: Seq<char>, registry: Seq<RuleProviderImpl>) -> bool {
        trie::found(self.patterns(), domain) is Some || bound_match(
            registry,
            self.places(),
            TargetView::Domain(domain),
        )
    }

    /// The filter has the entries and is not bound yet.
    pub open spec fn made_of(&self, entries: Seq<Seq<char>>) -> bool {
        let plain = plain_entries(entries, entries.len() as int);
        &&& self.patterns() == rule_provider::domain_rules(plain, plain.len() as int)
        &&& self.names() == rule_set_names(entries, entries.len() as int)
        &&& self.places() is None
        &&& self.has_plain() == (plain.len() > 0)
    }

    /// The filter is this one, bound to its rule sets: once, where it names any.
    pub open spec fn bound_as(&self, after: DomainFilter, registry: Seq<RuleProviderImpl>) -> bool {
        &&& after.patterns() == self.patterns()
        &&& after.names() == self.names()
        &&& after.has_plain() == self.has_plain()
        &&& after.places() == (if self.names().len() == 0 || self.places() is Some {
            self.places()
        } else {
            Some(bound_places(registry, self.names(), self.names().len() as int))
        })
    }

    /// Reads the entries; those that are no pattern match nothing.
    pub fn new(entries: &Vec<String>) -> (res: DomainFilter)
        ensures
            res.made_of(text::string_views(entries@)),
    {
        let ghost all = text::string_views(entries@);
        let mut domains: StringTrie = StringTrie::new();
        let mut ruleset_names: Vec<String> = Vec::new();
        let mut has_domains: bool = false;
        let mut i: usize = 0;
        assert(text::string_views(ruleset_names@) =~= Seq::empty());
        while i < entries.len()
            invariant
                i <= entries@.len(),
                all == text::string_views(entries@),
                text::string_views(ruleset_names@) == rule_set_names(all, i as int),
                domains@ == rule_provider::domain_rules(
                    plain_entries(all, i as int),
                    plain_entries(all, i as int).len() as int,
                ),
                has_domains == (plain_entries(all, i as int).len() > 0),
            decreases entries@.len() - i,
        {
            assert(all[i as int] == entries@[i as int]@);
            let ghost plain = plain_entries(all, i as int);
            match strip_rule_set(entries[i].as_str()) {
                Some(name) => {
                    let ghost before = ruleset_names@;
                    ruleset_names.push(name);
                    assert(text::string_views(ruleset_names@) =~= text::string_views(before).push(
                        name@,
                    ));
                },
                None => {
                    let ghost longer = plain_entries(all, i + 1);
                    assert(longer == plain.push(all[i as int]));
                    proof {
                        lemma_domain_rules_agree(plain, longer, plain.len() as int);
                    }
                    domains.insert(&text::chars(entries[i].as_str()), 0);
                    has_domains = true;
                },
            }
            i = i + 1;
        }
        DomainFilter { domains, ruleset_names, bound: None, has_domains }
    }

    /// Whether the filter matches the domain.
    pub fn apply(&self, domain: &str, registry: &Vec<RuleProviderImpl>) -> (res: bool)
        ensures
            res == self.matches(domain@, registry@),
    {
        if self.domains.search(&text::chars(domain)).is_some() {
            return true;
        }
        check_bound(registry, &self.bound, &Target::domain(domain))
    }

    /// Binds the filter to its rule sets, the first time it is called, and gives their places.
    /// A filter that refers to none is never bound.
    pub fn add_rule_set(&mut self, registry: &Vec<RuleProviderImpl>) -> (res: Option<Vec<usize>>)
        ensures
            old(self).bound_as(*final(self), registry@),
            bound_view(res) == (if old(self).names().len() == 0 {
                None
            } else {
                final(self).places()
            }),
    {
        if self.ruleset_names.len() == 0 {
            return None;
        }
        if self.bound.is_none() {
            let places: Vec<usize> = bind(registry, &self.ruleset_names);
            self.bound = Some(places);
        }
        self.bound.clone()
    }

    /// Whether the filter has no entries.
    pub fn is_empty(&self) -> (res: bool)
        ensures
            res == (!self.has_plain() && self.names().len() == 0),
    {
        !self.has_domains && self.ruleset_names.len() == 0
    }
}

proof fn lemma_domain_rules_agree(a: Seq<Seq<char>>, b: Seq<Seq<char>>, n: int)
    requires
        0 <= n <= a.len(),
        n <= b.len(),
        forall|i: int| 0 <= i < n ==> a[i] == b[i],
    ensures
        rule_provider::domain_rules(a, n) == rule_provider::domain_rules(b, n),
    decreases n,
{
    if n > 0 {
        lemma_domain_rules_agree(a, b, n - 1);
    }
}

/// Decides which answers call for the fallback resolvers.
pub struct FallbackFilter {
    domain_filter: Option<DomainFilter>,
    ip_net_filter: Option<IPNetFilter>,
    geo_ip_filter: Option<GeoIPFilter>,
}

impl FallbackFilter {
    /// The filter on domains.
    pub closed spec fn domains(&self) -> Option<DomainFilter> {
        self.domain_filter
    }

    /// The filter on networks.
    pub closed spec fn networks(&self) -> Option<IPNetFilter> {
        self.ip_net_filter
    }

    /// The filter on countries.
    pub closed spec fn countries(&self) -> Option<GeoIPFilter> {
        self.geo_ip_filter
    }

    /// The filter has the entries and is not bound yet: one filter for each kind of entry that is
    /// given; network entries that cannot be read are left out as a whole.
    pub open spec fn made_of(
        &self,
        domains: Seq<Seq<char>>,
        nets: Seq<Seq<char>>,
        geo_ip: bool,
        code: Seq<char>,
    ) -> bool {
        let plain = plain_entries(nets, nets.len() as int);
        &&& self.domains() is Some <==> domains.len() > 0
        &&& self.domains() matches Some(f) ==> f.made_of(domains)
        &&& self.networks() is Some <==> nets.len() > 0 && all_nets(plain, plain.len() as int)
            is Some
        &&& self.networks() matches Some(f) ==> all_nets(plain, plain.len() as int) == Some(
            f.nets(),
        ) && f.names() == rule_set_names(nets, nets.len() as int) && f.places() is None
        &&& self.countries() is Some <==> geo_ip
        &&& self.countries() matches Some(f) ==> f.code_spec() == code
    }

    /// The filter is this one, bound to its rule sets.
    pub open spec fn bound_as(&self, after: FallbackFilter, registry: Seq<RuleProviderImpl>) -> bool {
        &&& after.countries() == self.countries()
        &&& after.domains() is Some <==> self.domains() is Some
        &&& after.networks() is Some <==> self.networks() is Some
        &&& self.domains() matches Some(f) ==> f.bound_as(after.domains().unwrap(), registry)
        &&& self.networks() matches Some(f) ==> f.bound_as(after.networks().unwrap(), registry)
    }

    /// Makes a filter for each kind of entry that is given. Network entries that cannot be read
    /// are left out as a whole.
    pub fn new(
        domains: &Vec<String>,
        ip_cidrs: &Vec<String>,
        geo_ip: bool,
        geo_ip_code: &str,
    ) -> (res: FallbackFilter)
        ensures
            res.made_of(
                text::string_views(domains@),
                text::string_views(ip_cidrs@),
                geo_ip,
                geo_ip_code@,
            ),
    {
        let domain_filter: Option<DomainFilter> = if domains.len() > 0 {
            Some(DomainFilter::new(domains))
        } else {
            None
        };
        let ip_net_filter: Option<IPNetFilter> = if ip_cidrs.len() > 0 {
            match IPNetFilter::new(ip_cidrs) {
                Ok(f) => Some(f),
                Err(_) => None,
            }
        } else {
            None
        };
        let geo_ip_filter: Option<GeoIPFilter> = if geo_ip {
            Some(GeoIPFilter::new(geo_ip_code))
        } else {
            None
        };
        FallbackFilter { domain_filter, ip_net_filter, geo_ip_filter }
    }

    /// The filter on domains matches.
    pub open spec fn domain_matches(&self, domain: Seq<char>, registry: Seq<RuleProviderImpl>) -> bool {
        self.domains() matches Some(f) && f.matches(domain, registry)
    }

    /// An address of `country` passes the filter on countries, or the filter on networks matches.
    pub open spec fn ip_matches(
        &self,
        addr: IpAddr,
        country: Option<Seq<char>>,
        registry: Seq<RuleProviderImpl>,
    ) -> bool {
        ||| self.countries() matches Some(f) && f.passes(country)
        ||| self.networks() matches Some(f) && f.matches(addr, registry)
    }

    /// Whether the filter on domains matches.
    pub fn match_domain(&self, domain: &str, registry: &Vec<RuleProviderImpl>) -> (res: bool)
        ensures
            res == self.domain_matches(domain@, registry@),
    {
        match &self.domain_filter {
            Some(f) => f.apply(domain, registry),
            None => false,
        }
    }

    /// Whether an address calls for the fallback resolvers. `country` is what the country
    /// database says of it.
    pub fn match_ip(
        &self,
        addr: &IpAddr,
        country: &Option<String>,
        registry: &Vec<RuleProviderImpl>,
    ) -> (res: bool)
        ensures
            res == self.ip_matches(
                *addr,
                (match country {
                    Some(c) => Some(c@),
                    None => None,
                }),
                registry@,
            ),
    {
        if let Some(f) = &self.geo_ip_filter {
            if f.apply(country) {
                return true;
            }
        }
        if let Some(f) = &self.ip_net_filter {
            if f.apply(addr, registry) {
                return true;
            }
        }
        false
    }

    /// Binds the filters to their rule sets.
    pub fn add_rule_set(&mut self, registry: &Vec<RuleProviderImpl>)
        ensures
            old(self).bound_as(*final(self), registry@),
    {
        if let Some(mut f) = self.domain_filter.take() {
            f.add_rule_set(registry);
            self.domain_filter = Some(f);
        }
        if let Some(mut f) = self.ip_net_filter.take() {
            f.add_rule_set(registry);
            self.ip_net_filter = Some(f);
        }
    }

    /// Whether there is no filter at all.
    pub fn is_empty(&self) -> (res: bool)
        ensures
            res == (self.domains() is None && self.networks() is None && self.countries() is None),
    {
        self.domain_filter.is_none() && self.ip_net_filter.is_none() && self.geo_ip_filter.is_none()
    }
}

/// The provider is the first one with the name.
pub open spec fn is_first_named(registry: Seq<RuleProviderImpl>, name: Seq<char>, at: int) -> bool {
    &&& 0 <= at < registry.len()
    &&& registry[at].name_spec() == name
    &&& forall|k: int| 0 <= k < at ==> (#[trigger] registry[k]).name_spec() != name
}

proof fn lemma_place_is_first(registry: Seq<RuleProviderImpl>, name: Seq<char>, from: int)
    requires
        0 <= from <= registry.len(),
        forall|k: int| 0 <= k < from ==> (#[trigger] registry[k]).name_spec() != name,
    ensures
        from <= provider_place(registry, name, from) <= registry.len(),
        provider_place(registry, name, from) < registry.len() ==> is_first_named(
            registry,
            name,
            provider_place(registry, name, from),
        ),
        provider_place(registry, name, from) == registry.len() ==> forall|k: int|
            0 <= k < registry.len() ==> (#[trigger] registry[k]).name_spec() != name,
    decreases registry.len() - from,
{
    if from < registry.len() && registry[from].name_spec() != name {
        lemma_place_is_first(registry, name, from + 1);
    }
}

/// A name stands for the first provider that has it: where some provider has the name, one place is
/// the first, and it is the one that is found.
pub proof fn law_name_finds_first_provider(registry: Seq<RuleProviderImpl>, name: Seq<char>, at: int)
    requires
        is_first_named(registry, name, at),
    ensures
        provider_place(registry, name, 0) == at,
{
    lemma_place_is_first(registry, name, 0);
    let found = provider_place(registry, name, 0);
    if found < at {
        assert(registry[found].name_spec() != name);
    }
    if at < found {
        assert(registry[at].name_spec() != name);
    }
}

/// Names of rule sets match what the providers that they name match, each the first of its name;
/// names that no provider has match nothing.
pub proof fn law_bound_sets_match(
    registry: Seq<RuleProviderImpl>,
    names: Seq<Seq<char>>,
    n: int,
    target: TargetView,
)
    requires
        0 <= n <= names.len(),
        registry.len() <= usize::MAX,
    ensures
        bound_match(registry, Some(bound_places(registry, names, n)), target) <==> exists|
            k: int,
            p: int,
        |
            0 <= k < n && 0 <= p < registry.len() && is_first_named(
                registry,
                #[trigger] names[k],
                p,
            ) && (#[trigger] registry[p]).finds(target),
    decreases n,
{
    if n > 0 {
        law_bound_sets_match(registry, names, n - 1, target);
        let before = bound_places(registry, names, n - 1);
        let places = bound_places(registry, names, n);
        let at = provider_place(registry, names[n - 1], 0);
        lemma_place_is_first(registry, names[n - 1], 0);
        if bound_match(registry, Some(places), target) {
            let i = choose|i: int|
                0 <= i < places.len() && (#[trigger] places[i]) < registry.len()
                    && registry[places[i] as int].finds(target);
            if i < before.len() {
                assert(places[i] == before[i]);
                assert(before[i] < registry.len() && registry[before[i] as int].finds(target));
                assert(bound_match(registry, Some(before), target));
                let (k, p) = choose|k: int, p: int|
                    0 <= k < n - 1 && 0 <= p < registry.len() && is_first_named(
                        registry,
                        #[trigger] names[k],
                        p,
                    ) && (#[trigger] registry[p]).finds(target);
                assert(is_first_named(registry, names[k], p) && registry[p].finds(target));
            } else {
                assert(places[i] == at);
                assert(is_first_named(registry, names[n - 1], at) && registry[at].finds(target));
            }
        }
        if exists|k: int, p: int|
            0 <= k < n && 0 <= p < registry.len() && is_first_named(
                registry,
                #[trigger] names[k],
                p,
            ) && (#[trigger] registry[p]).finds(target) {
            let (k, p) = choose|k: int, p: int|
                0 <= k < n && 0 <= p < registry.len() && is_first_named(
                    registry,
                    #[trigger] names[k],
                    p,
                ) && (#[trigger] registry[p]).finds(target);
            if k == n - 1 {
                law_name_finds_first_provider(registry, names[k], p);
                assert(places[places.len() - 1] == p);
                assert(registry[places[places.len() - 1] as int].finds(target));
            } else {
                assert(is_first_named(registry, names[k], p) && registry[p].finds(target));
                assert(bound_match(registry, Some(before), target));
                let i = choose|i: int|
                    0 <= i < before.len() && (#[trigger] before[i]) < registry.len()
                        && registry[before[i] as int].finds(target);
                assert(places[i] == before[i]);
                assert(registry[places[i] as int].finds(target));
            }
            assert(bound_match(registry, Some(places), target));
        }
    }
}

proof fn lemma_plain_find(entries: Seq<Seq<char>>, n: int, domain: Seq<char>)
    requires
        0 <= n <= entries.len(),
    ensures
        (exists|k: int|
            0 <= k < plain_entries(entries, n).len() && trie::found(
                trie::text_set(Seq::empty(), #[trigger] plain_entries(entries, n)[k], 0),
                domain,
            ) is Some) <==> (exists|i: int|
            0 <= i < n && !text::has_prefix(#[trigger] entries[i], "rule-set:"@) && trie::found(
                trie::text_set(Seq::empty(), entries[i], 0),
                domain,
            ) is Some),
    decreases n,
{
    if n > 0 {
        lemma_plain_find(entries, n - 1, domain);
        let before = plain_entries(entries, n - 1);
        let all = plain_entries(entries, n);
        if exists|k: int|
            0 <= k < all.len() && trie::found(
                trie::text_set(Seq::empty(), #[trigger] all[k], 0),
                domain,
            ) is Some {
            let k = choose|k: int|
                0 <= k < all.len() && trie::found(
                    trie::text_set(Seq::empty(), #[trigger] all[k], 0),
                    domain,
                ) is Some;
            if k < before.len() {
                assert(before[k] == all[k]);
            } else {
                assert(all[k] == entries[n - 1]);
            }
        }
        if exists|k: int|
            0 <= k < before.len() && trie::found(
                trie::text_set(Seq::empty(), #[trigger] before[k], 0),
                domain,
            ) is Some {
            let k = choose|k: int|
                0 <= k < before.len() && trie::found(
                    trie::text_set(Seq::empty(), #[trigger] before[k], 0),
                    domain,
                ) is Some;
            assert(all[k] == before[k]);
        }
        if !is_rule_set_entry(entries[n - 1]) {
            assert(all[before.len() as int] == entries[n - 1]);
        }
    }
}

proof fn lemma_set_names(entries: Seq<Seq<char>>, n: int, name: Seq<char>)
    requires
        0 <= n <= entries.len(),
    ensures
        rule_set_names(entries, n).contains(name) <==> exists|i: int|
            0 <= i < n && text::has_prefix(#[trigger] entries[i], "rule-set:"@) && entries[i].skip(
                "rule-set:"@.len() as int,
            ) == name,
    decreases n,
{
    if n > 0 {
        lemma_set_names(entries, n - 1, name);
        let before = rule_set_names(entries, n - 1);
        let all = rule_set_names(entries, n);
        if is_rule_set_entry(entries[n - 1]) {
            assert(all == before.push(rule_set_name(entries[n - 1])));
            if all.contains(name) {
                let k = choose|k: int| 0 <= k < all.len() && all[k] == name;
                if k < before.len() {
                    assert(before[k] == name);
                    assert(before.contains(name));
                }
            }
            if before.contains(name) {
                let k = choose|k: int| 0 <= k < before.len() && before[k] == name;
                assert(all[k] == name);
            }
            if rule_set_name(entries[n - 1]) == name {
                assert(all[all.len() - 1] == name);
            }
        }
    }
}

/// A domain filter that was read from entries and has found its rule sets matches a domain exactly
/// where one of its entries does: a pattern that covers it, or `rule-set:` and the name of a
/// provider, the first of that name, that matches it.
pub proof fn law_domain_filter_matches_its_entries(
    made: DomainFilter,
    bound: DomainFilter,
    entries: Seq<Seq<char>>,
    registry: Seq<RuleProviderImpl>,
    domain: Seq<char>,
)
    requires
        made.made_of(entries),
        made.bound_as(bound, registry),
        registry.len() <= usize::MAX,
    ensures
        bound.matches(domain, registry) <==> (exists|i: int|
            0 <= i < entries.len() && !text::has_prefix(#[trigger] entries[i], "rule-set:"@)
                && trie::found(trie::text_set(Seq::empty(), entries[i], 0), domain) is Some) || (exists|
            i: int,
            p: int,
        |
            0 <= i < entries.len() && text::has_prefix(#[trigger] entries[i], "rule-set:"@)
                && is_first_named(registry, entries[i].skip("rule-set:"@.len() as int), p) && (
            #[trigger] registry[p]).finds(TargetView::Domain(domain))),
{
    let n = entries.len() as int;
    let plain = plain_entries(entries, n);
    let names = rule_set_names(entries, n);
    let target = TargetView::Domain(domain);
    rule_provider::lemma_domain_rules(plain, plain.len() as int, domain);
    lemma_plain_find(entries, n, domain);
    law_bound_sets_match(registry, names, names.len() as int, target);
    if bound_match(registry, bound.places(), target) {
        let (k, p) = choose|k: int, p: int|
            0 <= k < names.len() && 0 <= p < registry.len() && is_first_named(
                registry,
                #[trigger] names[k],
                p,
            ) && (#[trigger] registry[p]).finds(target);
        lemma_set_names(entries, n, names[k]);
        assert(names.contains(names[k]));
        let i = choose|i: int|
            0 <= i < n && text::has_prefix(#[trigger] entries[i], "rule-set:"@) && entries[i].skip(
                "rule-set:"@.len() as int,
            ) == names[k];
        assert(is_first_named(registry, entries[i].skip("rule-set:"@.len() as int), p)
            && registry[p].finds(target));
    }
    if exists|i: int, p: int|
        0 <= i < entries.len() && text::has_prefix(#[trigger] entries[i], "rule-set:"@)
            && is_first_named(registry, entries[i].skip("rule-set:"@.len() as int), p) && (
        #[trigger] registry[p]).finds(target) {
        let (i, p) = choose|i: int, p: int|
            0 <= i < entries.len() && text::has_prefix(#[trigger] entries[i], "rule-set:"@)
                && is_first_named(registry, entries[i].skip("rule-set:"@.len() as int), p) && (
            #[trigger] registry[p]).finds(target);
        let name = entries[i].skip("rule-set:"@.len() as int);
        lemma_set_names(entries, n, name);
        let k = choose|k: int| 0 <= k < names.len() && names[k] == name;
        assert(is_first_named(registry, names[k], p) && registry[p].finds(target));
        assert(bound_match(registry, bound.places(), target));
    }
}

/// An address calls for the fallback answer exactly where it is of another country than the filter's,
/// or of none that is known, where countries are looked at; or where it lies in one of the networks,
/// or is matched by one of the rule sets. Without any of these filters no address does.
pub proof fn law_fallback_on_addresses(
    f: FallbackFilter,
    addr: IpAddr,
    country: Option<Seq<char>>,
    registry: Seq<RuleProviderImpl>,
)
    ensures
        f.countries() is None && f.networks() is None ==> !f.ip_matches(addr, country, registry),
        f.countries() matches Some(geo) ==> (country is None || country.unwrap() != geo.code_spec()
            ==> f.ip_matches(addr, country, registry)),
        f.countries() matches Some(geo) ==> (f.networks() is None && country == Some(geo.code_spec())
            ==> !f.ip_matches(addr, country, registry)),
        f.networks() matches Some(nets) ==> ((exists|i: int|
            0 <= i < nets.nets().len() && (#[trigger] nets.nets()[i]).has(addr)) ==> f.ip_matches(
            addr,
            country,
            registry,
        )),
        f.networks() matches Some(nets) ==> (f.countries() is None && f.ip_matches(
            addr,
            country,
            registry,
        ) ==> (exists|i: int| 0 <= i < nets.nets().len() && (#[trigger] nets.nets()[i]).has(addr))
            || (nets.places() matches Some(places) && exists|i: int|
            0 <= i < places.len() && (#[trigger] places[i]) < registry.len()
                && registry[places[i] as int].finds(TargetView::Ip(addr)))),
        f.domains() is None ==> forall|domain: Seq<char>| !#[trigger] f.domain_matches(domain, registry),
{
}

proof fn lemma_all_nets(entries: Seq<Seq<char>>, n: int)
    requires
        0 <= n <= entries.len(),
    ensures
        all_nets(entries, n) is Some <==> forall|i: int|
            0 <= i < n ==> ip::net_value(#[trigger] entries[i]) is Some,
        all_nets(entries, n) matches Some(nets) ==> nets.len() == n && forall|i: int|
            0 <= i < n ==> ip::net_value(entries[i]) == Some(#[trigger] nets[i]),
    decreases n,
{
    if n > 0 {
        lemma_all_nets(entries, n - 1);
        if all_nets(entries, n) is None && all_nets(entries, n - 1) is Some {
            assert(ip::net_value(entries[n - 1]) is None);
        }
    }
}

/// The networks of a filter are those that its entries write, in order; one entry that writes none
/// spoils the whole list.
pub proof fn law_every_network_is_read(entries: Seq<Seq<char>>)
    ensures
        match all_nets(entries, entries.len() as int) {
            Some(nets) => nets.len() == entries.len() && forall|i: int|
                0 <= i < entries.len() ==> ip::net_value(entries[i]) == Some(#[trigger] nets[i]),
            None => exists|i: int|
                0 <= i < entries.len() && ip::net_value(#[trigger] entries[i]) is None,
        },
{
    lemma_all_nets(entries, entries.len() as int);
}

} // verus!
