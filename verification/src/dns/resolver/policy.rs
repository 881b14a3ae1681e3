//! Which servers are asked for which domains.
use vstd::prelude::*;

use crate::dns::filters;
use crate::providers::rule_provider::RuleProviderImpl;
use crate::session::{Target, TargetView};
use crate::text;
use crate::trie;
use crate::trie::StringTrie;

verus! {

/// An entry that names a set of domains, and the place of its servers.
#[derive(Debug)]
struct SetEntry {
    name: String,
    group: usize,
}

spec fn set_views(entries: Seq<SetEntry>) -> Seq<(Seq<char>, usize)> {
    entries.map_values(|e: SetEntry| (e.name@, e.group))
}

/// Lists of servers.
pub open spec fn group_views(groups: Seq<Vec<String>>) -> Seq<Seq<Seq<char>>> {
    groups.map_values(|g: Vec<String>| text::string_views(g@))
}

/// A policy: patterns, site codes and rule sets, each with the place of its servers in the list of
/// lists of servers.
#[verifier::ext_equal]
pub struct PolicyView {
    pub patterns: Seq<(Seq<Seq<char>>, usize)>,
    pub sites: Seq<(Seq<char>, usize)>,
    pub sets: Seq<(Seq<char>, usize)>,
    pub groups: Seq<Seq<Seq<char>>>,
    pub has_entries: bool,
    /// The places of rule sets that were found, each with the place of its servers.
    pub bound: Option<Seq<(usize, usize)>>,
}

impl PolicyView {
    /// The policy with one more domain, site code or rule set.
    pub open spec fn with_sub(&self, written: Seq<char>, group: usize) -> PolicyView {
        let sub = text::trimmed(written);
        if sub.len() == 0 {
            *self
        } else if text::has_prefix(sub, "geosite:"@) {
            PolicyView {
                sites: self.sites.push((sub.skip("geosite:"@.len() as int), group)),
                has_entries: true,
                ..*self
            }
        } else if text::has_prefix(sub, "rule-set:"@) {
            PolicyView {
                sets: self.sets.push((sub.skip("rule-set:"@.len() as int), group)),
                has_entries: true,
                ..*self
            }
        } else {
            PolicyView {
                patterns: trie::text_set(self.patterns, sub, group),
                has_entries: true,
                ..*self
            }
        }
    }

    /// The policy with the first `n` of the domains, site codes and rule sets.
    pub open spec fn with_subs(&self, subs: Seq<Seq<char>>, n: int, group: usize) -> PolicyView
        decreases n,
    {
        if n <= 0 {
            *self
        } else {
            self.with_subs(subs, n - 1, group).with_sub(subs[n - 1], group)
        }
    }

    /// The policy with an entry: domains, site codes and rule sets, separated by commas, and the
    /// servers to ask for them.
    pub open spec fn with_entry(&self, domain_key: Seq<char>, servers: Seq<Seq<char>>) -> PolicyView {
        let subs = text::fields(domain_key, ',');
        let added = self.with_subs(subs, subs.len() as int, self.groups.len() as usize);
        PolicyView { groups: self.groups.push(servers), ..added }
    }

    /// The policy once its rule sets were looked for, which is done once.
    pub open spec fn bound_to(&self, registry: Seq<RuleProviderImpl>) -> PolicyView {
        PolicyView {
            bound: if self.sets.len() > 0 && self.bound is None {
                Some(bound_sets(self.sets, registry, self.sets.len() as int))
            } else {
                self.bound
            },
            ..*self
        }
    }

    /// The place of the servers of the first site code from `from` on that the domain belongs to.
    pub open spec fn site_group(&self, codes: Seq<Seq<char>>, from: int) -> Option<usize>
        decreases self.sites.len() - from,
    {
        if from < 0 || from >= self.sites.len() {
            None
        } else if codes.contains(self.sites[from].0) {
            Some(self.sites[from].1)
        } else {
            self.site_group(codes, from + 1)
        }
    }

    /// The place of the servers for a domain: those of the closest pattern, else those of the first
    /// site code that the domain belongs to, else those of the first rule set that matches it.
    pub open spec fn group_of(
        &self,
        domain: Seq<char>,
        codes: Seq<Seq<char>>,
        registry: Seq<RuleProviderImpl>,
    ) -> Option<usize> {
        match trie::found(self.patterns, domain) {
            Some(group) => Some(group),
            None => match self.site_group(codes, 0) {
                Some(group) => Some(group),
                None => match self.bound {
                    Some(bound) => set_group(bound, registry, domain, 0),
                    None => None,
                },
            },
        }
    }

    /// The servers for a domain.
    pub open spec fn servers_for(
        &self,
        domain: Seq<char>,
        codes: Seq<Seq<char>>,
        registry: Seq<RuleProviderImpl>,
    ) -> Option<Seq<Seq<char>>> {
        match self.group_of(domain, codes, registry) {
            Some(group) if group < self.groups.len() => Some(self.groups[group as int]),
            _ => None,
        }
    }
}

/// The place of the servers of the first bound rule set from `from` on that matches the domain.
pub open spec fn set_group(
    bound: Seq<(usize, usize)>,
    registry: Seq<RuleProviderImpl>,
    domain: Seq<char>,
    from: int,
) -> Option<usize>
    decreases bound.len() - from,
{
    if from < 0 || from >= bound.len() {
        None
    } else if bound[from].0 < registry.len() && registry[bound[from].0 as int].finds(
        TargetView::Domain(domain),
    ) {
        Some(bound[from].1)
    } else {
        set_group(bound, registry, domain, from + 1)
    }
}

/// The places of the rule sets among the first `n` entries that there are, each with the place of
/// its servers.
pub open spec fn bound_sets(
    sets: Seq<(Seq<char>, usize)>,
    registry: Seq<RuleProviderImpl>,
    n: int,
) -> Seq<(usize, usize)>
    decreases n,
{
    if n <= 0 {
        Seq::empty()
    } else {
        let at = filters::provider_place(registry, sets[n - 1].0, 0);
        if at < registry.len() {
            bound_sets(sets, registry, n - 1).push((at as usize, sets[n - 1].1))
        } else {
            bound_sets(sets, registry, n - 1)
        }
    }
}

/// Which servers are asked for which domains.
pub struct NameServerPolicyContainer {
    static_trie: StringTrie,
    geosite_entries: Vec<SetEntry>,
    ruleset_entries: Vec<SetEntry>,
    groups: Vec<Vec<String>>,
    has_entries: bool,
    bound_rule_providers: Option<Vec<(usize, usize)>>,
}

impl View for NameServerPolicyContainer {
    type V = PolicyView;

    closed spec fn view(&self) -> PolicyView {
        PolicyView {
            patterns: self.static_trie@,
            sites: set_views(self.geosite_entries@),
            sets: set_views(self.ruleset_entries@),
            groups: group_views(self.groups@),
            has_entries: self.has_entries,
            bound: match self.bound_rule_providers {
                Some(v) => Some(v@),
                None => None,
            },
        }
    }
}

impl NameServerPolicyContainer {
    /// A policy without entries.
    pub fn new() -> (res: NameServerPolicyContainer)
        ensures
            res@ == (PolicyView {
                patterns: Seq::empty(),
                sites: Seq::empty(),
                sets: Seq::empty(),
                groups: Seq::empty(),
                has_entries: false,
                bound: None,
            }),
    {
        let res = NameServerPolicyContainer {
            static_trie: StringTrie::new(),
            geosite_entries: Vec::new(),
            ruleset_entries: Vec::new(),
            groups: Vec::new(),
            has_entries: false,
            bound_rule_providers: None,
        };
        assert(res@.sites =~= Seq::empty());
        assert(res@.sets =~= Seq::empty());
        assert(res@.groups =~= Seq::empty());
        res
    }

    fn insert_sub(&mut self, written: &[char], group: usize)
        ensures
            final(self)@ == old(self)@.with_sub(written@, group),
    {
        let sub: Vec<char> = text::trim(written);
        if sub.len() == 0 {
            return;
        }
        self.has_entries = true;
        let site: Vec<char> = text::chars("geosite:");
        let set: Vec<char> = text::chars("rule-set:");
        if text::starts_with(&sub, &site) {
            let rest: Vec<char> = text::slice(&sub, site.len(), sub.len());
            assert(rest@ =~= sub@.skip("geosite:"@.len() as int));
            let ghost before = self.geosite_entries@;
            self.geosite_entries.push(SetEntry { name: text::text(&rest), group });
            assert(set_views(self.geosite_entries@) =~= set_views(before).push((rest@, group)));
        } else if text::starts_with(&sub, &set) {
            let rest: Vec<char> = text::slice(&sub, set.len(), sub.len());
            assert(rest@ =~= sub@.skip("rule-set:"@.len() as int));
            let ghost before = self.ruleset_entries@;
            self.ruleset_entries.push(SetEntry { name: text::text(&rest), group });
            assert(set_views(self.ruleset_entries@) =~= set_views(before).push((rest@, group)));
        } else {
            self.static_trie.insert(&sub, group);
        }
    }

    /// Adds an entry: domains, site codes and rule sets, separated by commas, and the servers to
    /// ask for them.
    pub fn insert(&mut self, domain_key: &str, upstreams: Vec<String>)
        ensures
            final(self)@ == old(self)@.with_entry(domain_key@, text::string_views(upstreams@)),
    {
        let group: usize = self.groups.len();
        let subs: Vec<Vec<char>> = text::split(&text::chars(domain_key), ',');
        let ghost all = text::fields(domain_key@, ',');
        assert(all.len() == subs@.len());
        let mut i: usize = 0;
        while i < subs.len()
            invariant
                i <= subs@.len(),
                text::views(subs@) == all,
                group == old(self)@.groups.len(),
                self@ == old(self)@.with_subs(all, i as int, group),
            decreases subs@.len() - i,
        {
            assert(all[i as int] == subs@[i as int]@);
            self.insert_sub(&subs[i], group);
            i = i + 1;
        }
        let ghost before = self.groups@;
        let ghost servers = text::string_views(upstreams@);
        proof {
            lemma_subs_keep_groups(old(self)@, all, i as int, group);
        }
        self.groups.push(upstreams);
        assert(group_views(self.groups@) =~= group_views(before).push(servers));
    }

    /// Whether there are no entries.
    pub fn is_empty(&self) -> (res: bool)
        ensures
            res == !self@.has_entries,
    {
        !self.has_entries
    }

    /// Finds the rule sets that entries name, once.
    pub fn add_rule_set(&mut self, registry: &Vec<RuleProviderImpl>)
        ensures
            final(self)@ == old(self)@.bound_to(registry@),
    {
        if self.ruleset_entries.len() == 0 || self.bound_rule_providers.is_some() {
            return;
        }
        let ghost sets = set_views(self.ruleset_entries@);
        let mut bound: Vec<(usize, usize)> = Vec::new();
        let mut i: usize = 0;
        while i < self.ruleset_entries.len()
            invariant
                i <= self.ruleset_entries@.len(),
                sets == set_views(self.ruleset_entries@),
                bound@ == bound_sets(sets, registry@, i as int),
            decreases self.ruleset_entries@.len() - i,
        {
            assert(sets[i as int] == (
                self.ruleset_entries@[i as int].name@,
                self.ruleset_entries@[i as int].group,
            ));
            match filters::find_provider(registry, self.ruleset_entries[i].name.as_str()) {
                Some(at) => {
                    bound.push((at, self.ruleset_entries[i].group));
                },
                None => {},
            }
            i = i + 1;
        }
        self.bound_rule_providers = Some(bound);
    }

    fn find_group(&self, domain: &str, codes: &Vec<String>, registry: &Vec<RuleProviderImpl>) -> (res:
        Option<usize>)
        ensures
            res == self@.group_of(domain@, text::string_views(codes@), registry@),
    {
        let found: Option<usize> = self.static_trie.search(&text::chars(domain));
        if found.is_some() {
            return found;
        }
        let ghost view = self@;
        let mut i: usize = 0;
        while i < self.geosite_entries.len()
            invariant
                i <= self.geosite_entries@.len(),
                view == self@,
                trie::found(view.patterns, domain@) is None,
                view.site_group(text::string_views(codes@), 0) == view.site_group(
                    text::string_views(codes@),
                    i as int,
                ),
            decreases self.geosite_entries@.len() - i,
        {
            assert(view.sites[i as int] == (
                self.geosite_entries@[i as int].name@,
                self.geosite_entries@[i as int].group,
            ));
            if text::list_contains(codes, self.geosite_entries[i].name.as_str()) {
                return Some(self.geosite_entries[i].group);
            }
            i = i + 1;
        }
        match &self.bound_rule_providers {
            Some(bound) => find_set(bound, registry, domain),
            None => None,
        }
    }

    /// The servers for a domain. `codes` are the site codes that the domain belongs to.
    pub fn match_policy(&self, domain: &str, codes: &Vec<String>, registry: &Vec<RuleProviderImpl>) -> (res:
        Option<Vec<String>>)
        ensures
            match (res, self@.servers_for(domain@, text::string_views(codes@), registry@)) {
                (Some(v), Some(servers)) => text::string_views(v@) == servers,
                (None, None) => true,
                _ => false,
            },
    {
        match self.find_group(domain, codes, registry) {
            Some(group) => {
                if group >= self.groups.len() {
                    return None;
                }
                assert(self@.groups[group as int] == text::string_views(
                    self.groups@[group as int]@,
                ));
                Some(text::copy_list(&self.groups[group]))
            },
            None => None,
        }
    }
}

fn find_set(bound: &Vec<(usize, usize)>, registry: &Vec<RuleProviderImpl>, domain: &str) -> (res: Option<
    usize,
>)
    ensures
        res == set_group(bound@, registry@, domain@, 0),
{
    let target: Target = Target::domain(domain);
    let mut i: usize = 0;
    while i < bound.len()
        invariant
            i <= bound@.len(),
            target@ == TargetView::Domain(domain@),
            set_group(bound@, registry@, domain@, 0) == set_group(
                bound@,
                registry@,
                domain@,
                i as int,
            ),
        decreases bound@.len() - i,
    {
        let (at, group): (usize, usize) = bound[i];
        if at < registry.len() && registry[at].search_target(&target) {
            return Some(group);
        }
        i = i + 1;
    }
    None
}

proof fn lemma_subs_keep_groups(p: PolicyView, subs: Seq<Seq<char>>, n: int, group: usize)
    ensures
        p.with_subs(subs, n, group).groups == p.groups,
    decreases n,
{
    if n > 0 {
        lemma_subs_keep_groups(p, subs, n - 1, group);
    }
}

/// The places of servers in a policy are less than `bound`.
pub open spec fn places_below(p: PolicyView, bound: int) -> bool {
    &&& trie::values_below(p.patterns, bound)
    &&& forall|i: int| 0 <= i < p.sites.len() ==> (#[trigger] p.sites[i]).1 < bound
    &&& forall|i: int| 0 <= i < p.sets.len() ==> (#[trigger] p.sets[i]).1 < bound
}

proof fn lemma_subs_below(p: PolicyView, subs: Seq<Seq<char>>, n: int, group: usize, bound: int)
    requires
        places_below(p, bound),
        group < bound,
    ensures
        places_below(p.with_subs(subs, n, group), bound),
    decreases n,
{
    if n > 0 {
        lemma_subs_below(p, subs, n - 1, group, bound);
        let before = p.with_subs(subs, n - 1, group);
        trie::lemma_text_set_below(before.patterns, text::trimmed(subs[n - 1]), group, bound);
    }
}

/// The places of servers in a policy are places in its list, whatever entries are added.
pub proof fn law_entries_have_servers(p: PolicyView, domain_key: Seq<char>, servers: Seq<Seq<char>>)
    requires
        places_below(p, p.groups.len() as int),
        p.groups.len() < usize::MAX,
    ensures
        places_below(p.with_entry(domain_key, servers), (p.groups.len() + 1) as int),
        p.with_entry(domain_key, servers).groups.len() == p.groups.len() + 1,
{
    let subs = text::fields(domain_key, ',');
    let group = p.groups.len() as usize;
    lemma_subs_below(p, subs, subs.len() as int, group, (p.groups.len() + 1) as int);
}

/// A pattern decides before everything else: where one covers the domain, the servers are those of
/// the closest, whatever site codes and rule sets say.
pub proof fn law_pattern_decides_first(
    p: PolicyView,
    domain: Seq<char>,
    codes: Seq<Seq<char>>,
    registry: Seq<RuleProviderImpl>,
)
    requires
        trie::found(p.patterns, domain) is Some,
    ensures
        p.servers_for(domain, codes, registry) == p.servers_for(domain, Seq::empty(), Seq::empty()),
        trie::found(p.patterns, domain).unwrap() < p.groups.len() ==> p.servers_for(
            domain,
            codes,
            registry,
        ) == Some(p.groups[trie::found(p.patterns, domain).unwrap() as int]),
{
}

proof fn lemma_site_group(p: PolicyView, codes: Seq<Seq<char>>, from: int, at: int)
    requires
        0 <= from <= at <= p.sites.len(),
        forall|k: int| from <= k < at ==> !codes.contains((#[trigger] p.sites[k]).0),
        at < p.sites.len() ==> codes.contains(p.sites[at].0),
    ensures
        p.site_group(codes, from) == (if at < p.sites.len() {
            Some(p.sites[at].1)
        } else {
            None
        }),
    decreases at - from,
{
    if from < at {
        assert(!codes.contains(p.sites[from].0));
        lemma_site_group(p, codes, from + 1, at);
    }
}

/// Where no pattern covers the domain, the first site code that it belongs to decides, whatever the
/// rule sets say.
pub proof fn law_first_site_decides_next(
    p: PolicyView,
    domain: Seq<char>,
    codes: Seq<Seq<char>>,
    registry: Seq<RuleProviderImpl>,
    at: int,
)
    requires
        trie::found(p.patterns, domain) is None,
        0 <= at < p.sites.len(),
        codes.contains(p.sites[at].0),
        forall|k: int| 0 <= k < at ==> !codes.contains((#[trigger] p.sites[k]).0),
        p.sites[at].1 < p.groups.len(),
    ensures
        p.servers_for(domain, codes, registry) == Some(p.groups[p.sites[at].1 as int]),
{
    lemma_site_group(p, codes, 0, at);
}

proof fn lemma_set_group(
    bound: Seq<(usize, usize)>,
    registry: Seq<RuleProviderImpl>,
    domain: Seq<char>,
    from: int,
    at: int,
)
    requires
        0 <= from <= at <= bound.len(),
        forall|k: int|
            from <= k < at ==> !((#[trigger] bound[k]).0 < registry.len()
                && registry[bound[k].0 as int].finds(TargetView::Domain(domain))),
        at < bound.len() ==> bound[at].0 < registry.len() && registry[bound[at].0 as int].finds(
            TargetView::Domain(domain),
        ),
    ensures
        set_group(bound, registry, domain, from) == (if at < bound.len() {
            Some(bound[at].1)
        } else {
            None
        }),
    decreases at - from,
{
    if from < at {
        assert(!(bound[from].0 < registry.len() && registry[bound[from].0 as int].finds(
            TargetView::Domain(domain),
        )));
        lemma_set_group(bound, registry, domain, from + 1, at);
    }
}

/// Where neither a pattern nor a site code decides, the first rule set that was found and matches the
/// domain does; where none does either, the policy has no servers for the domain.
pub proof fn law_first_rule_set_decides_last(
    p: PolicyView,
    domain: Seq<char>,
    codes: Seq<Seq<char>>,
    registry: Seq<RuleProviderImpl>,
    at: int,
)
    requires
        trie::found(p.patterns, domain) is None,
        forall|k: int| 0 <= k < p.sites.len() ==> !codes.contains((#[trigger] p.sites[k]).0),
        p.bound is Some,
        0 <= at <= p.bound.unwrap().len(),
        forall|k: int|
            0 <= k < at ==> !((#[trigger] p.bound.unwrap()[k]).0 < registry.len()
                && registry[p.bound.unwrap()[k].0 as int].finds(TargetView::Domain(domain))),
        at < p.bound.unwrap().len() ==> p.bound.unwrap()[at].0 < registry.len()
            && registry[p.bound.unwrap()[at].0 as int].finds(TargetView::Domain(domain))
            && p.bound.unwrap()[at].1 < p.groups.len(),
    ensures
        p.servers_for(domain, codes, registry) == (if at < p.bound.unwrap().len() {
            Some(p.groups[p.bound.unwrap()[at].1 as int])
        } else {
            None
        }),
{
    lemma_site_group(p, codes, 0, p.sites.len() as int);
    lemma_set_group(p.bound.unwrap(), registry, domain, 0, at);
}

/// A policy without entries has no servers for any domain.
pub proof fn law_empty_policy_has_no_servers(
    p: PolicyView,
    domain: Seq<char>,
    codes: Seq<Seq<char>>,
    registry: Seq<RuleProviderImpl>,
)
    requires
        p.patterns.len() == 0,
        p.sites.len() == 0,
        p.sets.len() == 0,
        p.bound is None,
    ensures
        p.servers_for(domain, codes, registry) is None,
        p.bound_to(registry).servers_for(domain, codes, registry) is None,
{
    match trie::labels(domain) {
        Some(name) => trie::law_search_finds_closest(p.patterns, name, 0),
        None => {},
    }
}

/// An entry for a name that is written out gives exactly its servers to that name, whatever entries
/// were there before; white space around the name does not matter.
pub proof fn law_entry_serves_its_name(
    p: PolicyView,
    written: Seq<char>,
    servers: Seq<Seq<char>>,
    codes: Seq<Seq<char>>,
    registry: Seq<RuleProviderImpl>,
)
    requires
        p.groups.len() < usize::MAX,
        forall|i: int| 0 <= i < written.len() ==> written[i] != ',',
        trie::labels(text::trimmed(written)) matches Some(parts) && parts[0].len() > 0 && parts[0]
            != seq!['+'],
        text::trimmed(written).len() > 0,
        !text::has_prefix(text::trimmed(written), "geosite:"@),
        !text::has_prefix(text::trimmed(written), "rule-set:"@),
    ensures
        p.with_entry(written, servers).servers_for(text::trimmed(written), codes, registry) == Some(
            servers,
        ),
        p.with_entry(written, servers).has_entries,
{
    let sub = text::trimmed(written);
    let group = p.groups.len() as usize;
    let after = p.with_entry(written, servers);
    text::lemma_one_field(written, ',');
    reveal_with_fuel(PolicyView::with_subs, 2);
    assert(after.patterns == trie::text_set(p.patterns, sub, group));
    trie::law_exact_name_wins(p.patterns, sub, group);
}

/// An entry `geosite:` and a code gives its servers to the domains that belong to the code, where no
/// pattern covers them and no earlier entry names one of their codes.
pub proof fn law_site_entry_serves_its_code(
    p: PolicyView,
    written: Seq<char>,
    code: Seq<char>,
    servers: Seq<Seq<char>>,
    domain: Seq<char>,
    codes: Seq<Seq<char>>,
    registry: Seq<RuleProviderImpl>,
)
    requires
        p.groups.len() < usize::MAX,
        forall|i: int| 0 <= i < written.len() ==> written[i] != ',',
        text::trimmed(written) == "geosite:"@ + code,
        trie::found(p.patterns, domain) is None,
        codes.contains(code),
        forall|k: int| 0 <= k < p.sites.len() ==> !codes.contains((#[trigger] p.sites[k]).0),
    ensures
        p.with_entry(written, servers).servers_for(domain, codes, registry) == Some(servers),
{
    let sub = text::trimmed(written);
    let group = p.groups.len() as usize;
    let after = p.with_entry(written, servers);
    reveal_strlit("geosite:");
    text::lemma_one_field(written, ',');
    reveal_with_fuel(PolicyView::with_subs, 2);
    assert(sub.take("geosite:"@.len() as int) =~= "geosite:"@);
    assert(sub.skip("geosite:"@.len() as int) =~= code);
    assert(after.sites == p.sites.push((code, group)));
    assert forall|k: int| 0 <= k < p.sites.len() implies !codes.contains(
        (#[trigger] after.sites[k]).0,
    ) by {
        assert(after.sites[k] == p.sites[k]);
    }
    lemma_site_group(after, codes, 0, p.sites.len() as int);
}

/// An entry `rule-set:` and a name gives its servers to the domains that the provider of that name
/// matches, once it was found, where nothing decides before.
pub proof fn law_rule_set_entry_serves_its_set(
    p: PolicyView,
    written: Seq<char>,
    name: Seq<char>,
    servers: Seq<Seq<char>>,
    domain: Seq<char>,
    codes: Seq<Seq<char>>,
    registry: Seq<RuleProviderImpl>,
    at: int,
)
    requires
        p.groups.len() < usize::MAX,
        registry.len() <= usize::MAX,
        forall|i: int| 0 <= i < written.len() ==> written[i] != ',',
        text::trimmed(written) == "rule-set:"@ + name,
        trie::found(p.patterns, domain) is None,
        p.sites.len() == 0,
        p.sets.len() == 0,
        p.bound is None,
        filters::is_first_named(registry, name, at),
    ensures
        p.with_entry(written, servers).bound_to(registry).servers_for(domain, codes, registry) == (
        if registry[at].finds(TargetView::Domain(domain)) {
            Some(servers)
        } else {
            None
        }),
        p.with_entry(written, servers).servers_for(domain, codes, registry) is None,
{
    let sub = text::trimmed(written);
    let group = p.groups.len() as usize;
    let after = p.with_entry(written, servers);
    reveal_strlit("geosite:");
    reveal_strlit("rule-set:");
    text::lemma_one_field(written, ',');
    reveal_with_fuel(PolicyView::with_subs, 2);
    assert(sub.take("rule-set:"@.len() as int) =~= "rule-set:"@);
    assert(sub.skip("rule-set:"@.len() as int) =~= name);
    assert(sub[0] == 'r');
    if text::has_prefix(sub, "geosite:"@) {
        assert(sub.take("geosite:"@.len() as int)[0] == 'g');
    }
    assert(after.sets =~= seq![(name, group)]);
    filters::law_name_finds_first_provider(registry, name, at);
    reveal_with_fuel(bound_sets, 2);
    let bound = bound_sets(after.sets, registry, 1);
    assert(bound =~= seq![(at as usize, group)]);
    reveal_with_fuel(set_group, 2);
    assert(after.site_group(codes, 0) is None);
}

} // verus!
