//! What rules look for: domains, rule sets, query types and networks.
use vstd::prelude::*;

use crate::dns::filters;
use crate::dns::filters::{bind, check_bound};
use crate::dns::query::QType;
use crate::ip::{IpAddr, IpNet};
use crate::providers::rule_provider::RuleProviderImpl;
use crate::session::{Target, TargetView};
use crate::text;
use crate::trie;
use crate::trie::StringTrie;

verus! {

/// A domain as it is compared: without white space around it, without trailing dots, in lower case.
pub open spec fn normalized(domain: Seq<char>) -> Seq<char> {
    text::ascii_lowered(text::trimmed_end_of(text::trimmed(domain), '.'))
}

/// A domain as it is compared.
pub fn normalize(domain: &str) -> (res: Vec<char>)
    ensures
        res@ == normalized(domain@),
{
    text::ascii_lowercase(&text::trim_end_of(&text::trim(&text::chars(domain)), '.'))
}

/// The patterns of the first `n` domains; empty ones are passed over.
pub open spec fn domain_patterns(domains: Seq<Seq<char>>, n: int) -> Seq<(Seq<Seq<char>>, usize)>
    decreases n,
{
    if n <= 0 {
        Seq::empty()
    } else if normalized(domains[n - 1]).len() == 0 {
        domain_patterns(domains, n - 1)
    } else {
        trie::text_set(domain_patterns(domains, n - 1), normalized(domains[n - 1]), 0)
    }
}

/// Looks for domains.
pub struct DomainMatcher {
    trie: StringTrie,
}

impl DomainMatcher {
    /// The patterns that are looked for.
    pub closed spec fn patterns(&self) -> Seq<(Seq<Seq<char>>, usize)> {
        self.trie@
    }

    /// Looks for the domains that the patterns cover.
    pub fn new(domains: &Vec<String>) -> (res: DomainMatcher)
        ensures
            res.patterns() == domain_patterns(
                text::string_views(domains@),
                domains@.len() as int,
            ),
    {
        let ghost all = text::string_views(domains@);
        let mut trie: StringTrie = StringTrie::new();
        let mut i: usize = 0;
        while i < domains.len()
            invariant
                i <= domains@.len(),
                all == text::string_views(domains@),
                trie@ == domain_patterns(all, i as int),
            decreases domains@.len() - i,
        {
            assert(all[i as int] == domains@[i as int]@);
            let domain: Vec<char> = normalize(domains[i].as_str());
            if domain.len() > 0 {
                trie.insert(&domain, 0);
            }
            i = i + 1;
        }
        DomainMatcher { trie }
    }

    /// Whether a pattern covers the domain.
    pub fn matches(&self, domain: &str) -> (res: bool)
        ensures
            res == (trie::found(self.patterns(), normalized(domain@)) is Some),
    {
        self.trie.search(&normalize(domain)).is_some()
    }
}

/// The name of a rule set, with or without `rule-set:` in front.
pub open spec fn clean_name(name: Seq<char>) -> Seq<char> {
    if filters::is_rule_set_entry(name) {
        filters::rule_set_name(name)
    } else {
        name
    }
}

/// The names of rule sets.
pub open spec fn clean_names(names: Seq<Seq<char>>) -> Seq<Seq<char>> {
    names.map_values(|n: Seq<char>| clean_name(n))
}

/// Looks for what rule sets match.
pub struct RuleSetMatcher {
    names: Vec<String>,
    bound: Option<Vec<usize>>,
}

/// The rule sets that are looked at: their names, and their places once they were found.
pub struct RuleSetView {
    pub names: Seq<Seq<char>>,
    pub bound: Option<Seq<usize>>,
}

impl RuleSetView {
    /// One of the rule sets matches the domain.
    pub open spec fn has_domain(&self, domain: Seq<char>, registry: Seq<RuleProviderImpl>) -> bool {
        self.names.len() > 0 && filters::bound_match(
            registry,
            self.bound,
            TargetView::Domain(domain),
        )
    }

    /// One of the rule sets matches the address.
    pub open spec fn has_ip(&self, addr: IpAddr, registry: Seq<RuleProviderImpl>) -> bool {
        self.names.len() > 0 && filters::bound_match(
            registry,
            self.bound,
            TargetView::Ip(addr),
        )
    }
}

impl View for RuleSetMatcher {
    type V = RuleSetView;

    closed spec fn view(&self) -> RuleSetView {
        RuleSetView {
            names: text::string_views(self.names@),
            bound: filters::bound_view(self.bound),
        }
    }
}

impl RuleSetMatcher {
    /// Looks at the rule sets with these names.
    pub fn new(names: &Vec<String>) -> (res: RuleSetMatcher)
        ensures
            res@ == (RuleSetView { names: text::string_views(names@), bound: None }),
    {
        RuleSetMatcher { names: text::copy_list(names), bound: None }
    }

    /// Whether no rule set is looked at.
    pub fn is_empty(&self) -> (res: bool)
        ensures
            res == (self@.names.len() == 0),
    {
        self.names.len() == 0
    }

    /// Finds the rule sets, once.
    pub fn bind_providers(&mut self, registry: &Vec<RuleProviderImpl>)
        ensures
            final(self)@.names == old(self)@.names,
            final(self)@.bound == match old(self)@.bound {
                Some(b) => Some(b),
                None => Some(
                    filters::bound_places(
                        registry@,
                        clean_names(old(self)@.names),
                        old(self)@.names.len() as int,
                    ),
                ),
            },
    {
        if self.bound.is_some() {
            return;
        }
        let mut clean: Vec<String> = Vec::new();
        let mut i: usize = 0;
        while i < self.names.len()
            invariant
                i <= self.names@.len(),
                clean@.len() == i,
                text::string_views(clean@) == clean_names(text::string_views(self.names@)).take(
                    i as int,
                ),
            decreases self.names@.len() - i,
        {
            let name: Vec<char> = text::chars(self.names[i].as_str());
            let prefix: Vec<char> = text::chars("rule-set:");
            let ghost before = clean@;
            let ghost all = clean_names(text::string_views(self.names@));
            if text::starts_with(&name, &prefix) {
                let rest: Vec<char> = text::slice(&name, prefix.len(), name.len());
                assert(rest@ =~= filters::rule_set_name(name@));
                clean.push(text::text(&rest));
            } else {
                clean.push(self.names[i].clone());
            }
            assert(text::string_views(self.names@)[i as int] == name@);
            assert(all[i as int] == clean@[i as int]@);
            assert(text::string_views(clean@) =~= text::string_views(before).push(all[i as int]));
            assert(all.take(i + 1) =~= all.take(i as int).push(all[i as int]));
            i = i + 1;
        }
        assert(text::string_views(clean@) =~= clean_names(text::string_views(self.names@)));
        self.bound = Some(bind(registry, &clean));
    }

    /// Whether one of the rule sets matches the domain.
    pub fn matches_domain(&self, domain: &str, registry: &Vec<RuleProviderImpl>) -> (res: bool)
        ensures
            res == self@.has_domain(domain@, registry@),
    {
        self.names.len() > 0 && check_bound(registry, &self.bound, &Target::domain(domain))
    }

    /// Whether one of the rule sets matches the address.
    pub fn matches_ip(&self, addr: &IpAddr, registry: &Vec<RuleProviderImpl>) -> (res: bool)
        ensures
            res == self@.has_ip(*addr, registry@),
    {
        self.names.len() > 0 && check_bound(registry, &self.bound, &Target::Ip(*addr))
    }
}

/// Looks for query types.
#[derive(Debug)]
pub struct QTypeMatcher {
    types: Vec<QType>,
}

impl QTypeMatcher {
    /// The types that are looked for.
    pub closed spec fn types_spec(&self) -> Seq<QType> {
        self.types@
    }

    /// Looks for these types.
    pub fn new(types: Vec<QType>) -> (res: QTypeMatcher)
        ensures
            res.types_spec() == types@,
    {
        QTypeMatcher { types }
    }

    /// Whether no type is looked for.
    pub fn is_empty(&self) -> (res: bool)
        ensures
            res == (self.types_spec().len() == 0),
    {
        self.types.len() == 0
    }

    /// Whether the type is looked for.
    pub fn matches(&self, qt: QType) -> (res: bool)
        ensures
            res == self.types_spec().contains(qt),
    {
        let mut i: usize = 0;
        while i < self.types.len()
            invariant
                i <= self.types@.len(),
                forall|j: int| 0 <= j < i ==> self.types@[j] != qt,
            decreases self.types@.len() - i,
        {
            if self.types[i] == qt {
                return true;
            }
            i = i + 1;
        }
        false
    }
}

/// Every network fits its version.
pub open spec fn nets_wf(nets: Seq<IpNet>) -> bool {
    forall|i: int| 0 <= i < nets.len() ==> (#[trigger] nets[i]).wf()
}

/// Looks for addresses in networks.
#[derive(Debug)]
pub struct IpNetMatcher {
    nets: Vec<IpNet>,
}

impl IpNetMatcher {
    /// The networks that are looked for.
    pub closed spec fn nets_spec(&self) -> Seq<IpNet> {
        self.nets@
    }

    #[verifier::type_invariant]
    spec fn wf(&self) -> bool {
        nets_wf(self.nets@)
    }

    /// Looks for addresses in these networks.
    pub fn new(nets: Vec<IpNet>) -> (res: IpNetMatcher)
        requires
            nets_wf(nets@),
        ensures
            res.nets_spec() == nets@,
    {
        IpNetMatcher { nets }
    }

    /// Whether no network is looked for.
    pub fn is_empty(&self) -> (res: bool)
        ensures
            res == (self.nets_spec().len() == 0),
    {
        self.nets.len() == 0
    }

    /// Whether the address lies in one of the networks.
    pub fn matches(&self, addr: &IpAddr) -> (res: bool)
        ensures
            res == filters::some_net_has(self.nets_spec(), *addr),
    {
        proof {
            use_type_invariant(self);
        }
        let mut i: usize = 0;
        while i < self.nets.len()
            invariant
                i <= self.nets@.len(),
                nets_wf(self.nets@),
                forall|j: int| 0 <= j < i ==> !(#[trigger] self.nets@[j]).has(*addr),
            decreases self.nets@.len() - i,
        {
            if self.nets[i].contains(addr) {
                assert(self.nets@[i as int].has(*addr));
                return true;
            }
            i = i + 1;
        }
        false
    }
}

proof fn lemma_lowering(s: Seq<char>)
    ensures
        text::trimmed_start(text::ascii_lowered(s)) == text::ascii_lowered(text::trimmed_start(s)),
    decreases s.len(),
{
    if s.len() > 0 && text::is_space(s[0]) {
        lemma_lowering(s.skip(1));
        assert(text::ascii_lowered(s).skip(1) =~= text::ascii_lowered(s.skip(1)));
    }
}

proof fn lemma_lowering_end(s: Seq<char>)
    ensures
        text::trimmed_end(text::ascii_lowered(s)) == text::ascii_lowered(text::trimmed_end(s)),
        text::trimmed_end_of(text::ascii_lowered(s), '.') == text::ascii_lowered(
            text::trimmed_end_of(s, '.'),
        ),
    decreases s.len(),
{
    if s.len() > 0 {
        lemma_lowering_end(s.drop_last());
        assert(text::ascii_lowered(s).drop_last() =~= text::ascii_lowered(s.drop_last()));
    }
}

proof fn lemma_start_keeps_end(s: Seq<char>, c: char)
    requires
        s.len() == 0 || !text::is_space(s.last()),
        !text::is_space(c),
    ensures
        text::trimmed_start(s.push(c)) == text::trimmed_start(s).push(c),
        text::trimmed_start(s).len() == 0 || !text::is_space(text::trimmed_start(s).last()),
    decreases s.len(),
{
    if s.len() > 0 && text::is_space(s[0]) {
        assert(s.push(c).skip(1) =~= s.skip(1).push(c));
        assert(s.skip(1).len() > 0 ==> s.skip(1).last() == s.last());
        lemma_start_keeps_end(s.skip(1), c);
    }
}

/// How a domain is spelt does not matter: neither the case of its letters nor a dot at its end.
pub proof fn law_spelling_does_not_matter(a: Seq<char>, b: Seq<char>)
    requires
        text::ascii_lowered(a) == text::ascii_lowered(b),
    ensures
        normalized(a) == normalized(b),
        a.len() == 0 || !text::is_space(a.last()) ==> normalized(a.push('.')) == normalized(b),
{
    lemma_lowering(a);
    lemma_lowering(b);
    lemma_lowering_end(text::trimmed_start(a));
    lemma_lowering_end(text::trimmed_start(b));
    lemma_lowering_end(text::trimmed(a));
    lemma_lowering_end(text::trimmed(b));
    if a.len() == 0 || !text::is_space(a.last()) {
        lemma_start_keeps_end(a, '.');
        let rest = text::trimmed_start(a);
        assert(rest.push('.').drop_last() =~= rest);
    }
}

/// A domain of a list stands for a searched one: its labels cover those of the searched one, with a
/// plus at its start for the domain itself and all below it.
pub open spec fn stands_for(domain: Seq<char>, searched: Seq<char>) -> bool {
    match (trie::labels(domain), trie::labels(searched)) {
        (Some(p), Some(name)) => name[0].len() > 0 && if p[0] == seq!['+'] {
            trie::pattern_covers(p.skip(1), name) || trie::pattern_covers(
                p.update(0, Seq::empty()),
                name,
            )
        } else {
            trie::pattern_covers(p, name)
        },
        _ => false,
    }
}

/// A list of domains matches just where one of its domains, however it is spelt, stands for the
/// searched one. Empty ones stand for none.
pub proof fn law_listed_domains_match(domains: Seq<Seq<char>>, n: int, searched: Seq<char>)
    requires
        0 <= n <= domains.len(),
    ensures
        trie::found(domain_patterns(domains, n), searched) is Some <==> exists|i: int|
            0 <= i < n && normalized(#[trigger] domains[i]).len() > 0 && stands_for(
                normalized(domains[i]),
                searched,
            ),
    decreases n,
{
    if n > 0 {
        law_listed_domains_match(domains, n - 1, searched);
        let last = normalized(domains[n - 1]);
        let before = domain_patterns(domains, n - 1);
        if last.len() > 0 {
            trie::law_set_adds_what_it_covers(before, last, 0, searched);
        }
        if exists|i: int|
            0 <= i < n - 1 && normalized(#[trigger] domains[i]).len() > 0 && stands_for(
                normalized(domains[i]),
                searched,
            ) {
            let i = choose|i: int|
                0 <= i < n - 1 && normalized(#[trigger] domains[i]).len() > 0 && stands_for(
                    normalized(domains[i]),
                    searched,
                );
            assert(0 <= i < n && stands_for(normalized(domains[i]), searched));
        }
    } else {
        reveal_with_fuel(trie::closest, 1);
    }
}

/// A rule set goes by its name, with or without the mark before it.
pub proof fn law_rule_set_by_name(name: Seq<char>)
    ensures
        clean_name("rule-set:"@ + name) == name,
        !text::has_prefix(name, "rule-set:"@) ==> clean_name(name) == name,
{
    let marked = "rule-set:"@ + name;
    assert(marked.take("rule-set:"@.len() as int) =~= "rule-set:"@);
    assert(marked.skip("rule-set:"@.len() as int) =~= name);
}

} // verus!
