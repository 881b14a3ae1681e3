//! Rule sets: their contents, how they are read, and how they match.
use vstd::prelude::*;

use crate::error::Error;
use crate::ip;
use crate::ip::{parse_net, IpAddr, IpNet};
use crate::providers::cidr_trie;
use crate::providers::cidr_trie::CidrTrie;
use crate::session;
use crate::session::{Session, SessionView, SocksAddr, Target, TargetView};
use crate::text;
use crate::trie;
use crate::trie::StringTrie;

verus! {

/// How a rule set is written down.
#[derive(Clone, Copy, Debug, PartialEq, Eq, Structural)]
pub enum RuleSetFormat {
    Yaml,
    Text,
    Mrs,
}

impl Default for RuleSetFormat {
    fn default() -> (res: RuleSetFormat)
        ensures
            res == RuleSetFormat::Yaml,
    {
        RuleSetFormat::Yaml
    }
}

impl RuleSetFormat {
    /// The format's name.
    pub open spec fn name(&self) -> Seq<char> {
        match self {
            RuleSetFormat::Yaml => "yaml"@,
            RuleSetFormat::Text => "text"@,
            RuleSetFormat::Mrs => "mrs"@,
        }
    }

    /// The format's name.
    pub fn as_text(&self) -> (res: &'static str)
        ensures
            res@ == self.name(),
    {
        match self {
            RuleSetFormat::Yaml => "yaml",
            RuleSetFormat::Text => "text",
            RuleSetFormat::Mrs => "mrs",
        }
    }
}

/// What the rules of a set speak of.
#[derive(Clone, Copy, Debug, PartialEq, Eq, Structural)]
pub enum RuleSetBehavior {
    /// Domain patterns.
    Domain,
    /// IP networks.
    Ipcidr,
    /// Rule lines of any kind.
    Classical,
}

impl RuleSetBehavior {
    /// The behavior's name.
    pub open spec fn name(&self) -> Seq<char> {
        match self {
            RuleSetBehavior::Domain => "Domain"@,
            RuleSetBehavior::Ipcidr => "IPCIDR"@,
            RuleSetBehavior::Classical => "Classical"@,
        }
    }

    /// The behavior's name.
    pub fn as_text(&self) -> (res: &'static str)
        ensures
            res@ == self.name(),
    {
        match self {
            RuleSetBehavior::Domain => "Domain",
            RuleSetBehavior::Ipcidr => "IPCIDR",
            RuleSetBehavior::Classical => "Classical",
        }
    }
}

/// The fields of a rule line: between commas, without the white space around them.
pub open spec fn line_fields(line: Seq<char>) -> Seq<Seq<char>> {
    text::fields(line, ',').map_values(|f: Seq<char>| text::trimmed(f))
}

/// A line of a classical rule set: the kind of rule, its payload and its parameters.
#[derive(Debug)]
pub struct ClassicalRule {
    pub line: String,
    pub kind: String,
    pub payload: String,
    pub params: Vec<String>,
}

impl ClassicalRule {
    /// The rule is what its line writes.
    pub open spec fn is_line(&self, line: Seq<char>) -> bool {
        let f = line_fields(line);
        &&& f.len() >= 2
        &&& self.line@ == line
        &&& self.kind@ == f[0]
        &&& self.payload@ == f[1]
        &&& text::string_views(self.params@) == f.skip(2)
    }

    /// The rule matches the connection: a domain that is the payload, lies under it or contains
    /// it; an address in the payload's network; or, for any other kind, the router says so.
    pub open spec fn applies(&self, sess: SessionView) -> bool {
        if self.kind@ == "DOMAIN"@ {
            sess.domain == Some(self.payload@)
        } else if self.kind@ == "DOMAIN-SUFFIX"@ {
            sess.domain matches Some(d) && (d == self.payload@
                || text::has_suffix(d, seq!['.'] + self.payload@))
        } else if self.kind@ == "DOMAIN-KEYWORD"@ {
            sess.domain matches Some(d) && text::has_part(d, self.payload@)
        } else if self.kind@ == "IP-CIDR"@ || self.kind@ == "IP-CIDR6"@ {
            effective_ip(sess) matches Some(addr) && ip::net_value(self.payload@) matches Some(net)
                && net.has(addr)
        } else {
            sess.matched_lines.contains(self.line@)
        }
    }

    /// Matching needs the address of the destination's domain.
    pub open spec fn needs_ip(&self) -> bool {
        (self.kind@ == "IP-CIDR"@ || self.kind@ == "IP-CIDR6"@ || self.kind@ == "GEOIP"@)
            && !text::string_views(self.params@).contains("no-resolve"@)
    }

    /// Matching needs the process behind the connection.
    pub open spec fn needs_process(&self) -> bool {
        self.kind@ == "PROCESS-NAME"@ || self.kind@ == "PROCESS-PATH"@
    }

    /// Some kinds can only be matched by the router.
    pub open spec fn is_open(&self) -> bool {
        !(self.kind@ == "DOMAIN"@ || self.kind@ == "DOMAIN-SUFFIX"@ || self.kind@
            == "DOMAIN-KEYWORD"@ || self.kind@ == "IP-CIDR"@ || self.kind@ == "IP-CIDR6"@)
    }

    /// Whether only the router can match the rule.
    pub fn check_open(&self) -> (res: bool)
        ensures
            res == self.is_open(),
    {
        !(text::same(self.kind.as_str(), "DOMAIN") || text::same(
            self.kind.as_str(),
            "DOMAIN-SUFFIX",
        ) || text::same(self.kind.as_str(), "DOMAIN-KEYWORD") || text::same(
            self.kind.as_str(),
            "IP-CIDR",
        ) || text::same(self.kind.as_str(), "IP-CIDR6"))
    }

    /// Reads a rule line; a line without a payload is an error. Whether there are rules of the
    /// kind, and whether the payload is one for it, is left to the router.
    pub fn parse(line: &str) -> (res: Result<ClassicalRule, Error>)
        ensures
            match res {
                Ok(rule) => rule.is_line(line@),
                Err(e) => line_fields(line@).len() < 2 && e == Error::InvalidConfig(e->InvalidConfig_0)
                    && e.text() == "invalid rule line: "@ + line@,
            },
    {
        let parts: Vec<Vec<char>> = text::split(&text::chars(line), ',');
        let ghost raw = text::fields(line@, ',');
        assert(raw.len() == parts@.len() && line_fields(line@).len() == parts@.len());
        if parts.len() < 2 {
            return Err(Error::InvalidConfig(text::concat("invalid rule line: ", line)));
        }
        let kind: String = text::text(&text::trim(&parts[0]));
        let payload: String = text::text(&text::trim(&parts[1]));
        assert(raw[0] == parts@[0]@ && raw[1] == parts@[1]@);
        let mut params: Vec<String> = Vec::new();
        let mut i: usize = 2;
        while i < parts.len()
            invariant
                2 <= i <= parts@.len(),
                raw == text::fields(line@, ','),
                raw == text::views(parts@),
                text::string_views(params@) == line_fields(line@).subrange(2, i as int),
            decreases parts@.len() - i,
        {
            let ghost before = params@;
            assert(raw[i as int] == parts@[i as int]@);
            params.push(text::text(&text::trim(&parts[i])));
            assert(text::string_views(params@) =~= text::string_views(before).push(
                line_fields(line@)[i as int],
            ));
            i = i + 1;
        }
        assert(line_fields(line@).subrange(2, i as int) =~= line_fields(line@).skip(2));
        Ok(ClassicalRule { line: line.to_owned(), kind, payload, params })
    }

    /// Whether the rule matches the connection.
    pub fn apply(&self, sess: &Session) -> (res: bool)
        ensures
            res == self.applies(sess@),
    {
        if text::same(self.kind.as_str(), "DOMAIN") {
            match &sess.destination {
                SocksAddr::Domain(d, _) => text::same(d.as_str(), self.payload.as_str()),
                SocksAddr::Ip(_, _) => false,
            }
        } else if text::same(self.kind.as_str(), "DOMAIN-SUFFIX") {
            match &sess.destination {
                SocksAddr::Domain(d, _) => {
                    let name: Vec<char> = text::chars(d.as_str());
                    let payload: Vec<char> = text::chars(self.payload.as_str());
                    let mut dotted: Vec<char> = Vec::new();
                    dotted.push('.');
                    text::append(&mut dotted, &payload);
                    assert(dotted@ =~= seq!['.'] + self.payload@);
                    text::same_chars(&name, &payload) || text::ends_with(&name, &dotted)
                },
                SocksAddr::Ip(_, _) => false,
            }
        } else if text::same(self.kind.as_str(), "DOMAIN-KEYWORD") {
            match &sess.destination {
                SocksAddr::Domain(d, _) => text::contains(
                    &text::chars(d.as_str()),
                    &text::chars(self.payload.as_str()),
                ),
                SocksAddr::Ip(_, _) => false,
            }
        } else if text::same(self.kind.as_str(), "IP-CIDR") || text::same(
            self.kind.as_str(),
            "IP-CIDR6",
        ) {
            match (session_ip(sess), parse_net(self.payload.as_str())) {
                (Some(addr), Some(net)) => net.contains(&addr),
                _ => false,
            }
        } else {
            text::list_contains(&sess.matched_lines, self.line.as_str())
        }
    }

    /// Whether matching needs the address of the destination's domain.
    pub fn should_resolve_ip(&self) -> (res: bool)
        ensures
            res == self.needs_ip(),
    {
        (text::same(self.kind.as_str(), "IP-CIDR") || text::same(self.kind.as_str(), "IP-CIDR6")
            || text::same(self.kind.as_str(), "GEOIP")) && !text::list_contains(
            &self.params,
            "no-resolve",
        )
    }

    /// Whether matching needs the process behind the connection.
    pub fn should_resolve_process(&self) -> (res: bool)
        ensures
            res == self.needs_process(),
    {
        text::same(self.kind.as_str(), "PROCESS-NAME") || text::same(
            self.kind.as_str(),
            "PROCESS-PATH",
        )
    }
}

/// The lines among the first `n` rules that only the router can match.
pub open spec fn open_among(rules: Seq<ClassicalRule>, n: int) -> Seq<Seq<char>>
    decreases n,
{
    if n <= 0 {
        Seq::empty()
    } else if rules[n - 1].is_open() {
        open_among(rules, n - 1).push(rules[n - 1].line@)
    } else {
        open_among(rules, n - 1)
    }
}

/// The address that rules match: the resolved one, or else that of the destination.
pub open spec fn effective_ip(sess: SessionView) -> Option<IpAddr> {
    match sess.resolved_ip {
        Some(addr) => Some(addr),
        None => sess.ip,
    }
}

/// The address that rules match: the resolved one, or else that of the destination.
pub fn session_ip(sess: &Session) -> (res: Option<IpAddr>)
    ensures
        res == effective_ip(sess@),
{
    match sess.resolved_ip {
        Some(addr) => Some(addr),
        None => sess.destination.ip(),
    }
}

/// Whether one of the rules matches the connection.
fn any_applies(rules: &Vec<ClassicalRule>, sess: &Session) -> (res: bool)
    ensures
        res == exists|i: int| 0 <= i < rules@.len() && (#[trigger] rules@[i]).applies(sess@),
{
    let mut i: usize = 0;
    while i < rules.len()
        invariant
            i <= rules@.len(),
            forall|k: int| 0 <= k < i ==> !(#[trigger] rules@[k]).applies(sess@),
        decreases rules@.len() - i,
    {
        if rules[i].apply(sess) {
            return true;
        }
        i = i + 1;
    }
    false
}

/// Whether one of the rules needs an address.
fn any_needs_ip(rules: &Vec<ClassicalRule>) -> (res: bool)
    ensures
        res == exists|i: int| 0 <= i < rules@.len() && (#[trigger] rules@[i]).needs_ip(),
{
    let mut i: usize = 0;
    while i < rules.len()
        invariant
            i <= rules@.len(),
            forall|k: int| 0 <= k < i ==> !(#[trigger] rules@[k]).needs_ip(),
        decreases rules@.len() - i,
    {
        if rules[i].should_resolve_ip() {
            return true;
        }
        i = i + 1;
    }
    false
}

/// Whether one of the rules needs a process.
fn any_needs_process(rules: &Vec<ClassicalRule>) -> (res: bool)
    ensures
        res == exists|i: int| 0 <= i < rules@.len() && (#[trigger] rules@[i]).needs_process(),
{
    let mut i: usize = 0;
    while i < rules.len()
        invariant
            i <= rules@.len(),
            forall|k: int| 0 <= k < i ==> !(#[trigger] rules@[k]).needs_process(),
        decreases rules@.len() - i,
    {
        if rules[i].should_resolve_process() {
            return true;
        }
        i = i + 1;
    }
    false
}

/// The contents of a rule set.
pub enum RuleContent {
    Domain(StringTrie),
    Ipcidr(CidrTrie),
    Classical(Vec<ClassicalRule>),
}

impl RuleContent {
    /// The set matches the connection. A domain set reads the destination's host as text; a
    /// network set needs an address and never makes one up.
    pub open spec fn matches(&self, sess: SessionView) -> bool {
        match self {
            RuleContent::Domain(set) => trie::found(set@, sess.host) is Some,
            RuleContent::Ipcidr(nets) => effective_ip(sess) matches Some(addr)
                && cidr_trie::any_has(nets@, addr),
            RuleContent::Classical(rules) => exists|i: int|
                0 <= i < rules@.len() && (#[trigger] rules@[i]).applies(sess),
        }
    }

    /// The set has no entries and is of the given kind.
    pub open spec fn is_blank(&self, behavior: RuleSetBehavior) -> bool {
        match (behavior, self) {
            (RuleSetBehavior::Domain, RuleContent::Domain(set)) => set@.len() == 0,
            (RuleSetBehavior::Ipcidr, RuleContent::Ipcidr(nets)) => nets@ == Set::<IpNet>::empty(),
            (RuleSetBehavior::Classical, RuleContent::Classical(rules)) => rules@.len() == 0,
            _ => false,
        }
    }

    /// An empty set.
    pub fn blank(behavior: RuleSetBehavior) -> (res: RuleContent)
        ensures
            res.is_blank(behavior),
    {
        match behavior {
            RuleSetBehavior::Domain => RuleContent::Domain(StringTrie::new()),
            RuleSetBehavior::Ipcidr => RuleContent::Ipcidr(CidrTrie::new()),
            RuleSetBehavior::Classical => RuleContent::Classical(Vec::new()),
        }
    }

    /// Whether the set matches the connection.
    pub fn search(&self, sess: &Session) -> (res: bool)
        ensures
            res == self.matches(sess@),
    {
        match self {
            RuleContent::Domain(set) => set.search(
                &text::chars(sess.destination.host().as_str()),
            ).is_some(),
            RuleContent::Ipcidr(nets) => match session_ip(sess) {
                Some(addr) => nets.contains(addr),
                None => false,
            },
            RuleContent::Classical(rules) => any_applies(rules, sess),
        }
    }
}

/// The patterns once the first `n` rules are set, in order.
pub open spec fn domain_rules(rules: Seq<Seq<char>>, n: int) -> Seq<(Seq<Seq<char>>, usize)>
    decreases n,
{
    if n <= 0 {
        Seq::empty()
    } else {
        trie::text_set(domain_rules(rules, n - 1), rules[n - 1], 0)
    }
}

/// Reads domain patterns; texts that are no pattern are passed over.
pub fn make_domain_rules(rules: &Vec<String>) -> (res: StringTrie)
    ensures
        res@ == domain_rules(text::string_views(rules@), rules@.len() as int),
{
    let mut set: StringTrie = StringTrie::new();
    let mut i: usize = 0;
    while i < rules.len()
        invariant
            i <= rules@.len(),
            set@ == domain_rules(text::string_views(rules@), i as int),
        decreases rules@.len() - i,
    {
        assert(text::string_views(rules@)[i as int] == rules@[i as int]@);
        set.insert(&text::chars(rules[i].as_str()), 0);
        i = i + 1;
    }
    set
}

/// The networks that the first `n` rules write; texts that write none are passed over.
pub open spec fn cidr_rules(rules: Seq<Seq<char>>, n: int) -> Set<IpNet>
    decreases n,
{
    if n <= 0 {
        Set::empty()
    } else {
        match ip::net_value(rules[n - 1]) {
            Some(net) => cidr_rules(rules, n - 1).insert(cidr_trie::truncated(net)),
            None => cidr_rules(rules, n - 1),
        }
    }
}

/// Reads IP networks; texts that write none are passed over.
pub fn make_ip_cidr_rules(rules: &Vec<String>) -> (res: CidrTrie)
    ensures
        res@ == cidr_rules(text::string_views(rules@), rules@.len() as int),
{
    let mut nets: CidrTrie = CidrTrie::new();
    let mut i: usize = 0;
    while i < rules.len()
        invariant
            i <= rules@.len(),
            nets@ == cidr_rules(text::string_views(rules@), i as int),
        decreases rules@.len() - i,
    {
        assert(text::string_views(rules@)[i as int] == rules@[i as int]@);
        nets.insert(rules[i].as_str());
        i = i + 1;
    }
    nets
}

/// The first line, from `from` on, without a payload.
pub open spec fn first_bad_line(rules: Seq<Seq<char>>, from: int) -> int
    decreases rules.len() - from,
{
    if from >= rules.len() || line_fields(rules[from]).len() < 2 {
        from
    } else {
        first_bad_line(rules, from + 1)
    }
}

/// A sweep never goes back.
proof fn lemma_first_bad_line(rules: Seq<Seq<char>>, from: int)
    ensures
        first_bad_line(rules, from) >= from,
    decreases rules.len() - from,
{
    if from < rules.len() && line_fields(rules[from]).len() >= 2 {
        lemma_first_bad_line(rules, from + 1);
    }
}

/// Reads rule lines; the first line without a payload is an error.
pub fn make_classical_rules(rules: &Vec<String>) -> (res: Result<Vec<ClassicalRule>, Error>)
    ensures
        match res {
            Ok(list) => {
                &&& first_bad_line(text::string_views(rules@), 0) == rules@.len()
                &&& list@.len() == rules@.len()
                &&& forall|i: int|
                    0 <= i < list@.len() ==> (#[trigger] list@[i]).is_line(rules@[i]@)
            },
            Err(e) => {
                let at = first_bad_line(text::string_views(rules@), 0);
                &&& at < rules@.len()
                &&& e is InvalidConfig
                &&& e.text() == "invalid rule line: "@ + rules@[at]@
            },
        },
{
    let mut list: Vec<ClassicalRule> = Vec::new();
    let mut i: usize = 0;
    let ghost lines = text::string_views(rules@);
    while i < rules.len()
        invariant
            i <= rules@.len(),
            lines == text::string_views(rules@),
            list@.len() == i,
            forall|k: int| 0 <= k < i ==> (#[trigger] list@[k]).is_line(rules@[k]@),
            first_bad_line(lines, 0) == first_bad_line(lines, i as int),
        decreases rules@.len() - i,
    {
        assert(lines[i as int] == rules@[i as int]@);
        match ClassicalRule::parse(rules[i].as_str()) {
            Ok(rule) => list.push(rule),
            Err(e) => return Err(e),
        }
        i = i + 1;
    }
    Ok(list)
}

/// What a list of rules makes of a set.
pub open spec fn content_of(content: RuleContent, behavior: RuleSetBehavior, rules: Seq<Seq<char>>) -> bool {
    match (behavior, content) {
        (RuleSetBehavior::Domain, RuleContent::Domain(set)) => set@ == domain_rules(
            rules,
            rules.len() as int,
        ),
        (RuleSetBehavior::Ipcidr, RuleContent::Ipcidr(nets)) => nets@ == cidr_rules(
            rules,
            rules.len() as int,
        ),
        (RuleSetBehavior::Classical, RuleContent::Classical(list)) => list@.len() == rules.len()
            && forall|i: int| 0 <= i < list@.len() ==> (#[trigger] list@[i]).is_line(rules[i]),
        _ => false,
    }
}

/// Reads the rules of a set. Only a classical set can fail, on a line without a payload.
pub fn make_rules(behavior: RuleSetBehavior, rules: &Vec<String>) -> (res: Result<
    RuleContent,
    Error,
>)
    ensures
        rules_read(res, behavior, text::string_views(rules@)),
{
    let ghost lines = text::string_views(rules@);
    proof {
        lemma_first_bad_line(lines, 0);
    }
    assert(lines.len() == rules@.len());
    assert(forall|i: int| 0 <= i < rules@.len() ==> #[trigger] lines[i] == rules@[i]@);
    match behavior {
        RuleSetBehavior::Domain => Ok(RuleContent::Domain(make_domain_rules(rules))),
        RuleSetBehavior::Ipcidr => Ok(RuleContent::Ipcidr(make_ip_cidr_rules(rules))),
        RuleSetBehavior::Classical => match make_classical_rules(rules) {
            Ok(list) => Ok(RuleContent::Classical(list)),
            Err(e) => Err(e),
        },
    }
}

/// A line of a text rule set that holds a rule: not empty and not a comment.
pub open spec fn is_rule_line(line: Seq<char>) -> bool {
    line.len() > 0 && line[0] != '#' && !(line.len() >= 2 && line[0] == '/' && line[1] == '/')
}

/// The rules among the first `n` lines, without the white space around them.
pub open spec fn rule_lines(lines: Seq<Seq<char>>, n: int) -> Seq<Seq<char>>
    decreases n,
{
    if n <= 0 {
        Seq::empty()
    } else if is_rule_line(text::trimmed(lines[n - 1])) {
        rule_lines(lines, n - 1).push(text::trimmed(lines[n - 1]))
    } else {
        rule_lines(lines, n - 1)
    }
}

/// The rules of a text rule set, and behind them the inline rules.
pub fn text_payload(input: &str, inline: &Vec<String>) -> (res: Vec<String>)
    ensures
        text::string_views(res@) == rule_lines(
            text::fields(input@, '\n'),
            text::fields(input@, '\n').len() as int,
        ) + text::string_views(inline@),
{
    let lines: Vec<Vec<char>> = text::split(&text::chars(input), '\n');
    let ghost all = text::fields(input@, '\n');
    let mut payload: Vec<String> = Vec::new();
    let mut i: usize = 0;
    assert(text::string_views(payload@) =~= Seq::empty());
    while i < lines.len()
        invariant
            i <= lines@.len(),
            all == text::views(lines@),
            all == text::fields(input@, '\n'),
            text::string_views(payload@) == rule_lines(all, i as int),
        decreases lines@.len() - i,
    {
        assert(all[i as int] == lines@[i as int]@);
        let line: Vec<char> = text::trim(&lines[i]);
        if line.len() > 0 && line[0] != '#' && !(line.len() >= 2 && line[0] == '/' && line[1] == '/') {
            let ghost before = payload@;
            payload.push(text::text(&line));
            assert(text::string_views(payload@) =~= text::string_views(before).push(line@));
        }
        i = i + 1;
    }
    extend_strings(&mut payload, inline);
    payload
}

/// The inline rules, and behind them the rules of a YAML rule set.
pub fn yaml_payload(rules: &Vec<String>, inline: &Vec<String>) -> (res: Vec<String>)
    ensures
        text::string_views(res@) == text::string_views(inline@) + text::string_views(rules@),
{
    let mut payload: Vec<String> = Vec::new();
    extend_strings(&mut payload, inline);
    extend_strings(&mut payload, rules);
    assert(text::string_views(payload@) =~= text::string_views(inline@) + text::string_views(
        rules@,
    ));
    payload
}

fn extend_strings(list: &mut Vec<String>, more: &Vec<String>)
    ensures
        text::string_views(final(list)@) == text::string_views(old(list)@) + text::string_views(
            more@,
        ),
{
    let mut i: usize = 0;
    assert(text::string_views(list@) =~= text::string_views(list@) + text::string_views(more@).take(
        0,
    ));
    while i < more.len()
        invariant
            i <= more@.len(),
            text::string_views(list@) == text::string_views(old(list)@) + text::string_views(
                more@,
            ).take(i as int),
        decreases more@.len() - i,
    {
        let ghost before = list@;
        list.push(more[i].clone());
        assert(text::string_views(list@) =~= text::string_views(before).push(more@[i as int]@));
        assert(text::string_views(more@).take(i + 1) =~= text::string_views(more@).take(
            i as int,
        ).push(more@[i as int]@));
        i = i + 1;
    }
    assert(text::string_views(more@).take(i as int) =~= text::string_views(more@));
}

/// The rule lines that the router found to match connections to a domain or an address.
#[derive(Debug)]
pub struct TargetLines {
    pub target: Target,
    pub lines: Vec<String>,
}

/// The place of a domain or an address, from `from` on.
pub open spec fn told_place(told: Seq<TargetLines>, target: TargetView, from: int) -> int
    decreases told.len() - from,
{
    if from < 0 || from >= told.len() || told[from].target@ == target {
        from
    } else {
        told_place(told, target, from + 1)
    }
}

/// The rule lines for a domain or an address; where the router told nothing, there are none.
pub open spec fn told_lines(told: Seq<TargetLines>, target: TargetView) -> Seq<Seq<char>> {
    let at = told_place(told, target, 0);
    if at < told.len() {
        text::string_views(told[at].lines@)
    } else {
        Seq::empty()
    }
}

proof fn lemma_told_place(told: Seq<TargetLines>, target: TargetView, from: int)
    requires
        0 <= from <= told.len(),
    ensures
        from <= told_place(told, target, from) <= told.len(),
        told_place(told, target, from) < told.len() ==> told[told_place(
            told,
            target,
            from,
        )].target@ == target,
        forall|i: int|
            from <= i < told_place(told, target, from) ==> (#[trigger] told[i]).target@ != target,
    decreases told.len() - from,
{
    if from < told.len() && told[from].target@ != target {
        lemma_told_place(told, target, from + 1);
    }
}

proof fn lemma_told_at(told: Seq<TargetLines>, target: TargetView, from: int, at: int)
    requires
        0 <= from <= at <= told.len(),
        at < told.len() ==> told[at].target@ == target,
        forall|i: int| from <= i < at ==> (#[trigger] told[i]).target@ != target,
    ensures
        told_place(told, target, from) == at,
    decreases at - from,
{
    if from < at {
        assert(told[from].target@ != target);
        lemma_told_at(told, target, from + 1, at);
    }
}

proof fn lemma_told_put(told: Seq<TargetLines>, after: Seq<TargetLines>, item: TargetLines)
    requires
        ({
            let at = told_place(told, item.target@, 0);
            after == if at < told.len() {
                told.update(at, item)
            } else {
                told.push(item)
            }
        }),
    ensures
        told_lines(after, item.target@) == text::string_views(item.lines@),
        forall|other: TargetView|
            other != item.target@ ==> #[trigger] told_lines(after, other) == told_lines(told, other),
{
    let at = told_place(told, item.target@, 0);
    lemma_told_place(told, item.target@, 0);
    assert forall|i: int| 0 <= i < at implies (#[trigger] after[i]).target@ != item.target@ by {
        assert(after[i] == told[i]);
    }
    lemma_told_at(after, item.target@, 0, at);
    assert forall|other: TargetView| other != item.target@ implies #[trigger] told_lines(
        after,
        other,
    ) == told_lines(told, other) by {
        lemma_told_place(told, other, 0);
        let o = told_place(told, other, 0);
        assert forall|i: int| 0 <= i < o implies (#[trigger] after[i]).target@ != other by {
            if i != at {
                assert(after[i] == told[i]);
            }
        }
        if o < told.len() {
            assert(after[o] == told[o]);
            lemma_told_at(after, other, 0, o);
        } else {
            assert forall|i: int| 0 <= i < after.len() implies (#[trigger] after[i]).target@
                != other by {
                if i != at {
                    assert(after[i] == told[i]);
                }
            }
            lemma_told_at(after, other, 0, after.len() as int);
        }
    }
}

/// The next change count.
pub open spec fn next_count(n: u64) -> u64 {
    if n == u64::MAX {
        0
    } else {
        (n + 1) as u64
    }
}

/// How often each of the rule sets may have changed.
pub open spec fn counts_of(registry: Seq<RuleProviderImpl>) -> Seq<u64> {
    Seq::new(registry.len(), |i: int| registry[i].changes_spec())
}

/// How often each of the rule sets may have changed.
pub fn change_counts(registry: &Vec<RuleProviderImpl>) -> (res: Vec<u64>)
    ensures
        res@ == counts_of(registry@),
{
    let mut out: Vec<u64> = Vec::new();
    let mut i: usize = 0;
    while i < registry.len()
        invariant
            i <= registry@.len(),
            out@ =~= counts_of(registry@).take(i as int),
        decreases registry@.len() - i,
    {
        out.push(registry[i].changes());
        i = i + 1;
    }
    assert(counts_of(registry@).take(i as int) =~= counts_of(registry@));
    out
}

/// Whether the rule sets may have changed as often as is given.
pub fn check_counts(registry: &Vec<RuleProviderImpl>, counts: &Vec<u64>) -> (res: bool)
    ensures
        res <==> counts@ == counts_of(registry@),
{
    if registry.len() != counts.len() {
        assert(counts_of(registry@).len() != counts@.len());
        return false;
    }
    let mut i: usize = 0;
    while i < registry.len()
        invariant
            i <= registry@.len() == counts@.len(),
            forall|j: int| 0 <= j < i ==> counts@[j] == #[trigger] counts_of(registry@)[j],
        decreases registry@.len() - i,
    {
        if registry[i].changes() != counts[i] {
            assert(counts_of(registry@)[i as int] != counts@[i as int]);
            return false;
        }
        i = i + 1;
    }
    assert(counts@ =~= counts_of(registry@));
    true
}

/// What is to be done with the bytes of a rule set.
pub enum ReadStep {
    /// They are YAML, whose payload is to be read.
    Yaml,
    /// They are of the packed format.
    Mrs,
    /// These are the contents.
    Done(RuleContent),
}

/// What is wrong with bytes that are no UTF-8.
pub uninterp spec fn utf8_fault(bytes: Seq<u8>) -> Seq<char>;

/// [`std::str::from_utf8`]: the text that bytes are in UTF-8, or what is wrong with them. How that
/// is worded depends on the bytes alone and is left to the error.
#[verifier::external_body]
fn read_utf8(bytes: &[u8]) -> (res: Result<String, String>)
    ensures
        match res {
            Ok(s) => vstd::utf8::valid_utf8(bytes@) && s@ == vstd::utf8::decode_utf8(bytes@),
            Err(e) => !vstd::utf8::valid_utf8(bytes@) && e@ == utf8_fault(bytes@),
        },
{
    std::str::from_utf8(bytes).map(String::from).map_err(|e| e.to_string())
}

/// What the rules of a text rule set make of a set.
pub open spec fn text_rules(input: Seq<char>, inline: Seq<Seq<char>>) -> Seq<Seq<char>> {
    let lines = text::fields(input, '\n');
    rule_lines(lines, lines.len() as int) + inline
}

/// The rules make the contents, or the error says which line is none.
pub open spec fn rules_read(
    res: Result<RuleContent, Error>,
    behavior: RuleSetBehavior,
    rules: Seq<Seq<char>>,
) -> bool {
    let at = first_bad_line(rules, 0);
    match res {
        Ok(content) => {
            &&& behavior != RuleSetBehavior::Classical || at >= rules.len()
            &&& content_of(content, behavior, rules)
        },
        Err(e) => {
            &&& behavior == RuleSetBehavior::Classical && at < rules.len()
            &&& e is InvalidConfig
            &&& e.text() == "invalid rule line: "@ + rules[at]
        },
    }
}

/// A rule set under its name.
pub struct RuleProviderImpl {
    name: String,
    behavior: RuleSetBehavior,
    format: RuleSetFormat,
    inline_rules: Vec<String>,
    content: RuleContent,
    told: Vec<TargetLines>,
    changes: u64,
}

impl RuleProviderImpl {
    /// The set's name.
    pub closed spec fn name_spec(&self) -> Seq<char> {
        self.name@
    }

    /// What the set's rules speak of.
    pub closed spec fn behavior_spec(&self) -> RuleSetBehavior {
        self.behavior
    }

    /// How the set is written down.
    pub closed spec fn format_spec(&self) -> RuleSetFormat {
        self.format
    }

    /// The rules that stand in the configuration itself.
    pub closed spec fn inline_spec(&self) -> Seq<Seq<char>> {
        text::string_views(self.inline_rules@)
    }

    /// What the set holds now.
    pub closed spec fn content_spec(&self) -> RuleContent {
        self.content
    }

    /// The rule lines that the router found to match connections to a domain or an address.
    pub closed spec fn lines_for(&self, target: TargetView) -> Seq<Seq<char>> {
        told_lines(self.told@, target)
    }

    /// The set matches connections to port 443 of a domain or an address.
    pub open spec fn finds(&self, target: TargetView) -> bool {
        self.content_spec().matches(session::target_session(target, self.lines_for(target)))
    }

    /// Nothing but the contents, the lines that the router told of and the change count differs.
    pub open spec fn same_set(&self, other: RuleProviderImpl) -> bool {
        &&& self.name_spec() == other.name_spec()
        &&& self.behavior_spec() == other.behavior_spec()
        &&& self.format_spec() == other.format_spec()
        &&& self.inline_spec() == other.inline_spec()
    }

    /// How often what the set matches may have changed.
    pub closed spec fn changes_spec(&self) -> u64 {
        self.changes
    }

    /// A rule set without contents.
    pub fn new(
        name: String,
        behavior: RuleSetBehavior,
        format: RuleSetFormat,
        inline_rules: Option<Vec<String>>,
    ) -> (res: RuleProviderImpl)
        ensures
            res.name_spec() == name@,
            res.behavior_spec() == behavior,
            res.format_spec() == format,
            res.inline_spec() == (match inline_rules {
                Some(list) => text::string_views(list@),
                None => Seq::empty(),
            }),
            res.content_spec().is_blank(behavior),
            forall|target: TargetView| #[trigger] res.lines_for(target).len() == 0,
            res.changes_spec() == 0,
    {
        let inline_rules: Vec<String> = match inline_rules {
            Some(list) => list,
            None => Vec::new(),
        };
        assert(text::string_views(Seq::<String>::empty()) =~= Seq::empty());
        RuleProviderImpl {
            name,
            behavior,
            format,
            inline_rules,
            content: RuleContent::blank(behavior),
            told: Vec::new(),
            changes: 0,
        }
    }

    /// Reads the rules of a YAML rule set; the inline rules come first.
    pub fn parse_yaml(&self, payload: &Vec<String>) -> (res: Result<RuleContent, Error>)
        ensures
            rules_read(
                res,
                self.behavior_spec(),
                self.inline_spec() + text::string_views(payload@),
            ),
    {
        let rules: Vec<String> = yaml_payload(payload, &self.inline_rules);
        make_rules(self.behavior, &rules)
    }

    /// Reads the rules of a text rule set; the inline rules come last.
    pub fn parse_text(&self, input: &str) -> (res: Result<RuleContent, Error>)
        ensures
            rules_read(res, self.behavior_spec(), text_rules(input@, self.inline_spec())),
    {
        let rules: Vec<String> = text_payload(input, &self.inline_rules);
        make_rules(self.behavior, &rules)
    }

    /// What is to be done with the bytes of the set, as it is written down: text is read, and must
    /// be UTF-8; the packed format must be able to hold the set.
    pub fn read(&self, input: &[u8]) -> (res: Result<ReadStep, Error>)
        ensures
            match self.format_spec() {
                RuleSetFormat::Yaml => res matches Ok(ReadStep::Yaml),
                RuleSetFormat::Text => if vstd::utf8::valid_utf8(input@) {
                    &&& res matches Ok(step) ==> step is Done
                    &&& rules_read(
                        match res {
                            Ok(step) => Ok(step->Done_0),
                            Err(e) => Err(e),
                        },
                        self.behavior_spec(),
                        text_rules(vstd::utf8::decode_utf8(input@), self.inline_spec()),
                    )
                } else {
                    res matches Err(e) && e is InvalidConfig && e.text()
                        == "invalid utf-8 in text rule provider "@ + self.name_spec() + ": "@
                        + utf8_fault(input@)
                },
                RuleSetFormat::Mrs => match res {
                    Ok(step) => step is Mrs && self.behavior_spec() != RuleSetBehavior::Classical,
                    Err(e) => self.behavior_spec() == RuleSetBehavior::Classical
                        && e is InvalidConfig && e.text()
                        == "MRS format is not supported for classical behavior in rule provider "@
                        + self.name_spec(),
                },
            },
    {
        match self.format {
            RuleSetFormat::Yaml => Ok(ReadStep::Yaml),
            RuleSetFormat::Text => match read_utf8(input) {
                Ok(s) => match self.parse_text(s.as_str()) {
                    Ok(content) => Ok(ReadStep::Done(content)),
                    Err(e) => Err(e),
                },
                Err(why) => Err(
                    self.read_error("invalid utf-8 in text rule provider ", why.as_str()),
                ),
            },
            RuleSetFormat::Mrs => match self.check_format() {
                Ok(_) => Ok(ReadStep::Mrs),
                Err(e) => Err(e),
            },
        }
    }

    fn read_error(&self, what: &str, why: &str) -> (res: Error)
        ensures
            res is InvalidConfig,
            res.text() == what@ + self.name_spec() + ": "@ + why@,
    {
        let head: String = text::concat(what, self.name.as_str());
        Error::InvalidConfig(text::concat(text::concat(head.as_str(), ": ").as_str(), why))
    }

    /// The error for bytes that are no YAML rule set; `why` is what the reader says.
    pub fn yaml_error(&self, why: &str) -> (res: Error)
        ensures
            res is InvalidConfig,
            res.text() == "rule provider parse error (yaml) "@ + self.name_spec() + ": "@ + why@,
    {
        self.read_error("rule provider parse error (yaml) ", why)
    }

    /// Whether the set can be written down as it is said to be: the packed format holds no rule
    /// lines.
    pub fn check_format(&self) -> (res: Result<(), Error>)
        ensures
            res is Err <==> self.format_spec() == RuleSetFormat::Mrs && self.behavior_spec()
                == RuleSetBehavior::Classical,
            res matches Err(e) ==> e is InvalidConfig && e.text()
                == "MRS format is not supported for classical behavior in rule provider "@
                + self.name_spec(),
    {
        if self.format == RuleSetFormat::Mrs && self.behavior == RuleSetBehavior::Classical {
            return Err(
                Error::InvalidConfig(
                    text::concat(
                        "MRS format is not supported for classical behavior in rule provider ",
                        self.name.as_str(),
                    ),
                ),
            );
        }
        Ok(())
    }

    /// How many rules the set holds.
    pub fn count(&self) -> (res: usize)
        requires
            self.content_spec() matches RuleContent::Ipcidr(nets) ==> nets.v4_nets().len()
                + nets.v6_nets().len() <= usize::MAX,
        ensures
            res == match self.content_spec() {
                RuleContent::Domain(set) => set@.len(),
                RuleContent::Ipcidr(nets) => nets.v4_nets().len() + nets.v6_nets().len(),
                RuleContent::Classical(rules) => rules@.len(),
            },
    {
        match &self.content {
            RuleContent::Domain(set) => set.len(),
            RuleContent::Ipcidr(nets) => nets.len(),
            RuleContent::Classical(rules) => rules.len(),
        }
    }

    /// Takes in contents that were read again; the same ones change nothing.
    pub fn update(&mut self, content: RuleContent, same: bool)
        ensures
            same ==> *final(self) == *old(self),
            !same ==> {
                &&& final(self).content_spec() == content
                &&& final(self).changes_spec() == next_count(old(self).changes_spec())
                &&& final(self).same_set(*old(self))
                &&& forall|target: TargetView|
                    #![auto]
                    final(self).lines_for(target) == old(self).lines_for(target)
            },
    {
        if !same {
            self.replace(content);
        }
    }

    /// Replaces the contents. Whoever remembers earlier answers sees the change count move.
    pub fn replace(&mut self, content: RuleContent)
        ensures
            final(self).content_spec() == content,
            final(self).changes_spec() == next_count(old(self).changes_spec()),
            final(self).same_set(*old(self)),
            forall|target: TargetView|
                #![auto]
                final(self).lines_for(target) == old(self).lines_for(target),
    {
        self.content = content;
        self.count_change();
    }

    fn count_change(&mut self)
        ensures
            final(self).content_spec() == old(self).content_spec(),
            final(self).changes_spec() == next_count(old(self).changes_spec()),
            final(self).same_set(*old(self)),
            final(self).told == old(self).told,
    {
        self.changes = if self.changes == 0xffff_ffff_ffff_ffff {
            0
        } else {
            self.changes + 1
        };
    }

    /// The rule lines that only the router can match.
    pub fn open_lines(&self) -> (res: Vec<String>)
        ensures
            text::string_views(res@) == (match self.content_spec() {
                RuleContent::Classical(rules) => open_among(rules@, rules@.len() as int),
                _ => Seq::empty(),
            }),
    {
        let mut out: Vec<String> = Vec::new();
        assert(text::string_views(out@) =~= Seq::empty());
        match &self.content {
            RuleContent::Classical(rules) => {
                let mut i: usize = 0;
                while i < rules.len()
                    invariant
                        i <= rules@.len(),
                        text::string_views(out@) == open_among(rules@, i as int),
                    decreases rules@.len() - i,
                {
                    let ghost before = out@;
                    if rules[i].check_open() {
                        out.push(rules[i].line.clone());
                        assert(text::string_views(out@) =~= text::string_views(before).push(
                            rules@[i as int].line@,
                        ));
                    }
                    i = i + 1;
                }
            },
            _ => {},
        }
        out
    }

    fn find_told(&self, target: &Target) -> (res: usize)
        ensures
            res == told_place(self.told@, target@, 0),
            res <= self.told@.len(),
    {
        let mut i: usize = 0;
        while i < self.told.len()
            invariant
                i <= self.told@.len(),
                told_place(self.told@, target@, 0) == told_place(self.told@, target@, i as int),
            decreases self.told@.len() - i,
        {
            if self.told[i].target.same(target) {
                return i;
            }
            i = i + 1;
        }
        i
    }

    fn get_told(&self, target: &Target) -> (res: Vec<String>)
        ensures
            text::string_views(res@) == self.lines_for(target@),
    {
        let at: usize = self.find_told(target);
        if at < self.told.len() {
            return text::copy_list(&self.told[at].lines);
        }
        let none: Vec<String> = Vec::new();
        assert(text::string_views(none@) =~= Seq::empty());
        none
    }

    /// Takes in which rule lines the router found to match connections to a domain or an address.
    /// Whoever remembers earlier answers sees the change count move where these lines are others
    /// than before.
    pub fn tell(&mut self, target: Target, lines: Vec<String>)
        ensures
            final(self).lines_for(target@) == text::string_views(lines@),
            forall|other: TargetView|
                other != target@ ==> #[trigger] final(self).lines_for(other) == old(
                    self
                ).lines_for(other),
            final(self).content_spec() == old(self).content_spec(),
            final(self).same_set(*old(self)),
            final(self).changes_spec() == if old(self).lines_for(target@) == text::string_views(
                lines@,
            ) {
                old(self).changes_spec()
            } else {
                next_count(old(self).changes_spec())
            },
    {
        let known: Vec<String> = self.get_told(&target);
        if text::same_list(&known, &lines) {
            return;
        }
        let at: usize = self.find_told(&target);
        let ghost before = self.told@;
        let item = TargetLines { target, lines };
        let ghost put = item;
        if at < self.told.len() {
            self.told.set(at, item);
        } else {
            self.told.push(item);
        }
        proof {
            lemma_told_put(before, self.told@, put);
        }
        self.count_change();
    }

    /// Forgets what the router told. Whoever remembers earlier answers sees the change count move.
    pub fn forget_told(&mut self)
        ensures
            forall|target: TargetView| #[trigger] final(self).lines_for(target).len() == 0,
            final(self).content_spec() == old(self).content_spec(),
            final(self).same_set(*old(self)),
            final(self).changes_spec() == next_count(old(self).changes_spec()),
    {
        self.told = Vec::new();
        self.count_change();
    }

    /// Reads the inline rules and makes them the contents; on an error nothing changes.
    pub fn initialize(&mut self) -> (res: Result<(), Error>)
        ensures
            final(self).same_set(*old(self)),
            forall|target: TargetView|
                #![auto]
                final(self).lines_for(target) == old(self).lines_for(target),
            res is Ok ==> final(self).changes_spec() == next_count(old(self).changes_spec()),
            res is Err <==> old(self).behavior_spec() == RuleSetBehavior::Classical
                && first_bad_line(old(self).inline_spec(), 0) < old(self).inline_spec().len(),
            res is Ok ==> content_of(
                final(self).content_spec(),
                old(self).behavior_spec(),
                old(self).inline_spec(),
            ),
            res is Err ==> final(self).content_spec() == old(self).content_spec()
                && final(self).changes_spec() == old(self).changes_spec(),
            res matches Err(e) ==> e.text() == "failed to initialize inline rule provider "@ + old(self).name_spec() + ": "@ + "invalid rule line: "@ + old(self).inline_spec()[first_bad_line(
                old(self).inline_spec(),
                0,
            )],
    {
        match make_rules(self.behavior, &self.inline_rules) {
            Ok(content) => {
                self.replace(content);
                Ok(())
            },
            Err(e) => {
                let why: String = e.message();
                let head: String = text::concat(
                    "failed to initialize inline rule provider ",
                    self.name.as_str(),
                );
                let ghost at = first_bad_line(self.inline_spec(), 0);
                proof {
                    lemma_first_bad_line(self.inline_spec(), 0);
                }
                assert(self.inline_spec()[at] == self.inline_rules@[at]@);
                let full: String = text::concat(text::concat(head.as_str(), ": ").as_str(), why.as_str());
                assert(full@ =~= "failed to initialize inline rule provider "@ + self.name@ + ": "@
                    + "invalid rule line: "@ + self.inline_spec()[at]);
                Err(Error::InvalidConfig(full))
            },
        }
    }

    /// Whether the set matches the connection.
    pub fn search(&self, sess: &Session) -> (res: bool)
        ensures
            res == self.content_spec().matches(sess@),
    {
        self.content.search(sess)
    }

    /// Whether the set matches connections to port 443 of a domain or an address.
    pub fn search_target(&self, target: &Target) -> (res: bool)
        ensures
            res == self.finds(target@),
    {
        let lines: Vec<String> = self.get_told(target);
        self.content.search(&Session::to_target(target, lines))
    }

    /// What the set's rules speak of.
    pub fn behavior(&self) -> (res: RuleSetBehavior)
        ensures
            res == self.behavior_spec(),
    {
        self.behavior
    }

    /// How the set is written down.
    pub fn format(&self) -> (res: RuleSetFormat)
        ensures
            res == self.format_spec(),
    {
        self.format
    }

    /// The set's name.
    pub fn name(&self) -> (res: &str)
        ensures
            res@ == self.name_spec(),
    {
        self.name.as_str()
    }

    /// How often what the set matches may have changed.
    pub fn changes(&self) -> (res: u64)
        ensures
            res == self.changes_spec(),
    {
        self.changes
    }

    /// Whether matching needs the address of the destination's domain: always for networks, for
    /// rule lines when one of them does.
    pub fn should_resolve_ip(&self) -> (res: bool)
        ensures
            res == (match self.behavior_spec() {
                RuleSetBehavior::Domain => false,
                RuleSetBehavior::Ipcidr => true,
                RuleSetBehavior::Classical => self.content_spec() matches RuleContent::Classical(
                    rules,
                ) && exists|i: int| 0 <= i < rules@.len() && (#[trigger] rules@[i]).needs_ip(),
            }),
    {
        match self.behavior {
            RuleSetBehavior::Domain => false,
            RuleSetBehavior::Ipcidr => true,
            RuleSetBehavior::Classical => match &self.content {
                RuleContent::Classical(rules) => any_needs_ip(rules),
                _ => false,
            },
        }
    }

    /// Whether matching needs the process behind the connection.
    pub fn should_resolve_process(&self) -> (res: bool)
        ensures
            res == (self.content_spec() matches RuleContent::Classical(rules) && exists|i: int|
                0 <= i < rules@.len() && (#[trigger] rules@[i]).needs_process()),
    {
        match &self.content {
            RuleContent::Classical(rules) => any_needs_process(rules),
            _ => false,
        }
    }

    /// Up to `limit` rules as `kind,payload`; only rule lines can be listed.
    pub fn list_rules(&self, limit: usize) -> (res: Vec<String>)
        ensures
            match self.content_spec() {
                RuleContent::Classical(rules) => {
                    &&& res@.len() == (if limit < rules@.len() {
                        limit as int
                    } else {
                        rules@.len() as int
                    })
                    &&& forall|i: int|
                        0 <= i < res@.len() ==> (#[trigger] res@[i])@ == rules@[i].kind@ + seq![
                            ',',
                        ] + rules@[i].payload@
                },
                _ => res@.len() == 0,
            },
    {
        let mut out: Vec<String> = Vec::new();
        match &self.content {
            RuleContent::Classical(rules) => {
                let mut i: usize = 0;
                while i < rules.len() && i < limit
                    invariant
                        i <= rules@.len(),
                        i <= limit,
                        out@.len() == i,
                        forall|k: int|
                            0 <= k < i ==> (#[trigger] out@[k])@ == rules@[k].kind@ + seq![',']
                                + rules@[k].payload@,
                    decreases rules@.len() - i,
                {
                    let mut line: Vec<char> = text::chars(rules[i].kind.as_str());
                    line.push(',');
                    text::append(&mut line, &text::chars(rules[i].payload.as_str()));
                    assert(line@ =~= rules@[i as int].kind@ + seq![',']
                        + rules@[i as int].payload@);
                    out.push(text::text(&line));
                    i = i + 1;
                }
            },
            _ => {},
        }
        out
    }

    /// The networks of a network set.
    pub fn get_ip_cidrs(&self) -> (res: Vec<IpNet>)
        ensures
            res@.no_duplicates(),
            res@.to_set() == (match self.content_spec() {
                RuleContent::Ipcidr(nets) => nets@,
                _ => Set::<IpNet>::empty(),
            }),
    {
        match &self.content {
            RuleContent::Ipcidr(nets) => nets.get_ip_cidrs(),
            _ => {
                let none: Vec<IpNet> = Vec::new();
                assert(none@.to_set() =~= Set::<IpNet>::empty());
                none
            },
        }
    }
}

/// A network set matches a connection with a resolved address exactly where one of its networks
/// holds that address, whatever the destination is; without a resolved address it is the
/// destination's own address that counts, and a domain alone is never matched.
pub proof fn law_network_set_reads_resolved_address(nets: CidrTrie, sess: SessionView)
    ensures
        sess.resolved_ip matches Some(addr) ==> (RuleContent::Ipcidr(nets).matches(sess)
            <==> exists|net: IpNet| #[trigger] nets@.contains(net) && net.has(addr)),
        sess.resolved_ip is None && sess.ip is Some ==> (RuleContent::Ipcidr(nets).matches(sess)
            <==> exists|net: IpNet| #[trigger] nets@.contains(net) && net.has(sess.ip.unwrap())),
        sess.resolved_ip is None && sess.ip is None ==> !RuleContent::Ipcidr(nets).matches(sess),
{
}

/// Two connections with the same resolved address are the same to a network set and to a rule line
/// on networks, wherever they go.
pub proof fn law_resolved_address_hides_destination(
    nets: CidrTrie,
    rule: ClassicalRule,
    a: SessionView,
    b: SessionView,
)
    requires
        a.resolved_ip is Some,
        a.resolved_ip == b.resolved_ip,
        rule.kind@ == "IP-CIDR"@ || rule.kind@ == "IP-CIDR6"@,
    ensures
        RuleContent::Ipcidr(nets).matches(a) == RuleContent::Ipcidr(nets).matches(b),
        rule.applies(a) == rule.applies(b),
{
    reveal_strlit("DOMAIN");
    reveal_strlit("DOMAIN-SUFFIX");
    reveal_strlit("DOMAIN-KEYWORD");
    reveal_strlit("IP-CIDR");
    reveal_strlit("IP-CIDR6");
    assert(rule.kind@[0] == 'I');
    assert("DOMAIN"@[0] == 'D' && "DOMAIN-SUFFIX"@[0] == 'D' && "DOMAIN-KEYWORD"@[0] == 'D');
}

/// A domain set reads the host of the destination and nothing else: neither the resolved address nor
/// the port changes what it matches.
pub proof fn law_domain_set_reads_host(set: StringTrie, a: SessionView, b: SessionView)
    requires
        a.host == b.host,
    ensures
        RuleContent::Domain(set).matches(a) == RuleContent::Domain(set).matches(b),
{
}

proof fn lemma_cidr_rules(rules: Seq<Seq<char>>, n: int, addr: IpAddr)
    requires
        0 <= n <= rules.len(),
        forall|i: int|
            0 <= i < rules.len() ==> (ip::net_value(#[trigger] rules[i]) matches Some(net) ==> net.wf()),
    ensures
        cidr_trie::any_has(cidr_rules(rules, n), addr) <==> exists|i: int|
            0 <= i < n && (ip::net_value(#[trigger] rules[i]) matches Some(net) && net.has(addr)),
    decreases n,
{
    if n > 0 {
        lemma_cidr_rules(rules, n - 1, addr);
        assert(rules[n - 1] == rules[n - 1]);
        if let Some(net) = ip::net_value(rules[n - 1]) {
            cidr_trie::law_insert_then_contains(cidr_rules(rules, n - 1), net, addr);
        }
    } else {
        assert(!cidr_trie::any_has(Set::<IpNet>::empty(), addr));
    }
}

/// A network set that was read from rules matches a resolved address exactly where one of the rules
/// writes a network that holds it; rules that write none are passed over.
pub proof fn law_network_rules_match(
    content: RuleContent,
    rules: Seq<Seq<char>>,
    sess: SessionView,
    addr: IpAddr,
)
    requires
        content_of(content, RuleSetBehavior::Ipcidr, rules),
        sess.resolved_ip == Some(addr),
    ensures
        (forall|i: int|
            0 <= i < rules.len() ==> (ip::net_value(#[trigger] rules[i]) matches Some(net)
                ==> net.wf())) ==> (content.matches(sess) <==> exists|i: int|
            0 <= i < rules.len() && (ip::net_value(#[trigger] rules[i]) matches Some(net)
                && net.has(addr))),
{
    if forall|i: int|
        0 <= i < rules.len() ==> (ip::net_value(#[trigger] rules[i]) matches Some(net) ==> net.wf()) {
        lemma_cidr_rules(rules, rules.len() as int, addr);
    }
}

/// Patterns that were set one after the other find what one of them finds alone.
pub proof fn lemma_domain_rules(rules: Seq<Seq<char>>, n: int, host: Seq<char>)
    requires
        0 <= n <= rules.len(),
    ensures
        trie::found(domain_rules(rules, n), host) is Some <==> exists|i: int|
            0 <= i < n && trie::found(trie::text_set(Seq::empty(), #[trigger] rules[i], 0), host)
                is Some,
    decreases n,
{
    let none = Seq::<(Seq<Seq<char>>, usize)>::empty();
    assert(trie::found(none, host) is None);
    if n > 0 {
        let before = domain_rules(rules, n - 1);
        lemma_domain_rules(rules, n - 1, host);
        trie::law_set_adds_what_it_covers(before, rules[n - 1], 0, host);
        trie::law_set_adds_what_it_covers(none, rules[n - 1], 0, host);
        if trie::found(domain_rules(rules, n), host) is Some && trie::found(before, host) is None {
            assert(trie::found(trie::text_set(none, rules[n - 1], 0), host) is Some);
        }
    }
}

/// A domain set that was read from rules matches a host exactly where one of the rules does alone.
pub proof fn law_domain_rules_match(content: RuleContent, rules: Seq<Seq<char>>, sess: SessionView)
    requires
        content_of(content, RuleSetBehavior::Domain, rules),
    ensures
        content.matches(sess) <==> exists|i: int|
            0 <= i < rules.len() && trie::found(
                trie::text_set(Seq::empty(), #[trigger] rules[i], 0),
                sess.host,
            ) is Some,
{
    lemma_domain_rules(rules, rules.len() as int, sess.host);
}

/// A rule line on domains matches the domain that a connection goes to: the very one, one that is it
/// or ends in a dot and it, or one that it stands in. The addresses of the connection do not matter,
/// and a connection to an address is never matched.
pub proof fn law_domain_lines_match(
    rule: ClassicalRule,
    line: Seq<char>,
    sess: SessionView,
    payload: Seq<char>,
)
    requires
        rule.is_line(line),
        line_fields(line)[1] == payload,
    ensures
        line_fields(line)[0] == "DOMAIN"@ ==> (rule.applies(sess) <==> sess.domain == Some(payload)),
        line_fields(line)[0] == "DOMAIN-SUFFIX"@ ==> (rule.applies(sess) <==> (
        sess.domain matches Some(d) && (d == payload || exists|head: Seq<char>|
            d == #[trigger] (head + (seq!['.'] + payload))))),
        line_fields(line)[0] == "DOMAIN-KEYWORD"@ ==> (rule.applies(sess) <==> (
        sess.domain matches Some(d) && exists|head: Seq<char>, tail: Seq<char>|
            d == #[trigger] (head + payload + tail))),
{
    reveal_strlit("DOMAIN");
    reveal_strlit("DOMAIN-SUFFIX");
    reveal_strlit("DOMAIN-KEYWORD");
    assert("DOMAIN"@.len() == 6 && "DOMAIN-SUFFIX"@.len() == 13 && "DOMAIN-KEYWORD"@.len() == 14);
    if let Some(d) = sess.domain {
        let dotted = seq!['.'] + payload;
        if text::has_suffix(d, dotted) {
            let head = d.take(d.len() - dotted.len());
            assert(d =~= head + (seq!['.'] + payload));
        }
        if exists|head: Seq<char>| d == #[trigger] (head + (seq!['.'] + payload)) {
            let head = choose|head: Seq<char>| d == #[trigger] (head + (seq!['.'] + payload));
            assert(d.skip(d.len() - dotted.len()) =~= dotted);
        }
        if text::has_part(d, payload) {
            let i = choose|i: int|
                0 <= i && i + payload.len() <= d.len() && #[trigger] d.subrange(
                    i,
                    i + payload.len(),
                ) == payload;
            let head = d.take(i);
            let tail = d.skip((i + payload.len()) as int);
            assert(d =~= head + payload + tail);
        }
        if exists|head: Seq<char>, tail: Seq<char>| d == #[trigger] (head + payload + tail) {
            let (head, tail) = choose|head: Seq<char>, tail: Seq<char>|
                d == #[trigger] (head + payload + tail);
            let i = head.len() as int;
            assert(d.subrange(i, i + payload.len()) =~= payload);
        }
    }
}

/// A rule line on networks matches the resolved address, or else the destination's own, where the
/// line's network holds it.
pub proof fn law_network_lines_match(rule: ClassicalRule, line: Seq<char>, sess: SessionView)
    requires
        rule.is_line(line),
        line_fields(line)[0] == "IP-CIDR"@ || line_fields(line)[0] == "IP-CIDR6"@,
    ensures
        rule.applies(sess) <==> (ip::net_value(line_fields(line)[1]) matches Some(net) && (
        match sess.resolved_ip {
            Some(addr) => net.has(addr),
            None => sess.ip matches Some(addr) && net.has(addr),
        })),
{
    reveal_strlit("DOMAIN");
    reveal_strlit("DOMAIN-SUFFIX");
    reveal_strlit("DOMAIN-KEYWORD");
    reveal_strlit("IP-CIDR");
    reveal_strlit("IP-CIDR6");
    assert(rule.kind@[0] == 'I');
    assert("DOMAIN"@[0] == 'D' && "DOMAIN-SUFFIX"@[0] == 'D' && "DOMAIN-KEYWORD"@[0] == 'D');
}

/// A set of rule lines matches exactly where one of its lines does; a line of a kind that only the
/// router knows matches where the router found that it does.
pub proof fn law_lines_match(content: RuleContent, rules: Seq<Seq<char>>, sess: SessionView)
    requires
        content_of(content, RuleSetBehavior::Classical, rules),
    ensures
        content matches RuleContent::Classical(list) && list@.len() == rules.len() && (
        content.matches(sess) <==> exists|i: int|
            0 <= i < rules.len() && (#[trigger] list@[i]).applies(sess)) && forall|i: int|
            0 <= i < rules.len() && !(line_fields(rules[i])[0] == "DOMAIN"@ || line_fields(rules[i])[0]
                == "DOMAIN-SUFFIX"@ || line_fields(rules[i])[0] == "DOMAIN-KEYWORD"@ || line_fields(
                rules[i],
            )[0] == "IP-CIDR"@ || line_fields(rules[i])[0] == "IP-CIDR6"@) ==> (
            #[trigger] list@[i]).applies(sess) == sess.matched_lines.contains(rules[i]),
{
}

/// A rule line that says `no-resolve` never asks for an address to be looked up, nor does one on
/// domains; one on networks or countries does otherwise.
pub proof fn law_no_resolve_is_kept(rule: ClassicalRule, line: Seq<char>)
    requires
        rule.is_line(line),
    ensures
        (exists|i: int| 2 <= i < line_fields(line).len() && #[trigger] line_fields(line)[i]
            == "no-resolve"@) ==> !rule.needs_ip(),
        rule.needs_ip() ==> line_fields(line)[0] == "IP-CIDR"@ || line_fields(line)[0]
            == "IP-CIDR6"@ || line_fields(line)[0] == "GEOIP"@,
        line_fields(line).len() == 2 && (line_fields(line)[0] == "IP-CIDR"@ || line_fields(line)[0]
            == "IP-CIDR6"@ || line_fields(line)[0] == "GEOIP"@) ==> rule.needs_ip(),
{
    let f = line_fields(line);
    if exists|i: int| 2 <= i < f.len() && #[trigger] f[i] == "no-resolve"@ {
        let i = choose|i: int| 2 <= i < f.len() && #[trigger] f[i] == "no-resolve"@;
        assert(f.skip(2)[i - 2] == "no-resolve"@);
        assert(text::string_views(rule.params@).contains("no-resolve"@));
    }
}

/// The rules of a text are its lines without the white space around them, but for empty lines and
/// those that start with `#` or `//`; their order is kept.
pub proof fn law_comments_are_no_rules(lines: Seq<Seq<char>>, n: int, rule: Seq<char>)
    requires
        0 <= n <= lines.len(),
    ensures
        rule_lines(lines, n).contains(rule) <==> rule.len() > 0 && rule[0] != '#'
            && !text::has_prefix(rule, seq!['/', '/']) && exists|k: int|
            0 <= k < n && text::trimmed(#[trigger] lines[k]) == rule,
        rule_lines(lines, n).len() <= n,
        (forall|k: int|
            0 <= k < n ==> text::trimmed(#[trigger] lines[k]).len() > 0 && text::trimmed(
                lines[k],
            )[0] != '#' && text::trimmed(lines[k])[0] != '/') ==> rule_lines(lines, n)
            == lines.take(n).map_values(|l: Seq<char>| text::trimmed(l)),
    decreases n,
{
    assert(text::has_prefix(rule, seq!['/', '/']) <==> rule.len() >= 2 && rule[0] == '/' && rule[1]
        == '/') by {
        if rule.len() >= 2 && rule[0] == '/' && rule[1] == '/' {
            assert(rule.take(2) =~= seq!['/', '/']);
        }
        if text::has_prefix(rule, seq!['/', '/']) {
            assert(rule.take(2)[0] == rule[0] && rule.take(2)[1] == rule[1]);
        }
    }
    if n > 0 {
        law_comments_are_no_rules(lines, n - 1, rule);
        let before = rule_lines(lines, n - 1);
        let all = rule_lines(lines, n);
        let last = text::trimmed(lines[n - 1]);
        if is_rule_line(last) {
            assert(all == before.push(last));
            if all.contains(rule) {
                let i = choose|i: int| 0 <= i < all.len() && all[i] == rule;
                if i < before.len() {
                    assert(before[i] == rule);
                    assert(before.contains(rule));
                } else {
                    assert(text::trimmed(lines[n - 1]) == rule);
                }
            }
            if before.contains(rule) {
                let i = choose|i: int| 0 <= i < before.len() && before[i] == rule;
                assert(all[i] == rule);
            }
            if last == rule {
                assert(all[all.len() - 1] == rule);
            }
        }
        if forall|k: int|
            0 <= k < n ==> text::trimmed(#[trigger] lines[k]).len() > 0 && text::trimmed(
                lines[k],
            )[0] != '#' && text::trimmed(lines[k])[0] != '/' {
            let f = |l: Seq<char>| text::trimmed(l);
            assert(text::trimmed(lines[n - 1]).len() > 0);
            assert(lines.take(n).map_values(f) =~= lines.take(n - 1).map_values(f).push(last));
        }
    } else {
        assert(lines.take(0).map_values(|l: Seq<char>| text::trimmed(l)) =~= Seq::empty());
    }
}

/// A set of domains answers lookups about domains by its patterns, and a network set those about
/// addresses by its networks; a network set never matches a domain.
pub proof fn law_lookup_asks_the_contents(p: RuleProviderImpl, domain: Seq<char>, addr: IpAddr)
    ensures
        p.content_spec() matches RuleContent::Domain(set) ==> (p.finds(TargetView::Domain(domain))
            <==> trie::found(set@, domain) is Some),
        p.content_spec() matches RuleContent::Ipcidr(nets) ==> (p.finds(TargetView::Ip(addr))
            <==> exists|net: IpNet| #[trigger] nets@.contains(net) && net.has(addr)),
        p.content_spec() is Ipcidr ==> !p.finds(TargetView::Domain(domain)),
{
}

/// The rules of a text are those of its lines, in their order, and then those that are given along
/// with it.
pub proof fn law_rules_of_a_text(
    input: Seq<char>,
    more: Seq<char>,
    inline: Seq<Seq<char>>,
    rule: Seq<char>,
)
    ensures
        text_rules(input + seq!['\n'] + more, inline) == text_rules(input, Seq::empty()) + text_rules(
            more,
            inline,
        ),
        inline.contains(rule) ==> text_rules(input, inline).contains(rule),
        text_rules(Seq::empty(), inline) == inline,
{
    let a = text::fields(input, '\n');
    let b = text::fields(more, '\n');
    text::law_fields_add_up(input, '\n', more);
    lemma_rule_lines_add_up(a, b, b.len() as int);
    assert(text_rules(input + seq!['\n'] + more, inline) =~= text_rules(input, Seq::empty())
        + text_rules(more, inline));
    let own = rule_lines(a, a.len() as int);
    if inline.contains(rule) {
        let k = choose|k: int| 0 <= k < inline.len() && inline[k] == rule;
        assert(text_rules(input, inline)[own.len() + k] == rule);
    }
    let none = text::fields(Seq::<char>::empty(), '\n');
    reveal_with_fuel(rule_lines, 2);
    assert(none.len() == 1 && none[0].len() == 0);
    assert(text::trimmed(none[0]).len() == 0);
    assert(text_rules(Seq::empty(), inline) =~= inline);
}

proof fn lemma_rule_lines_add_up(a: Seq<Seq<char>>, b: Seq<Seq<char>>, n: int)
    requires
        0 <= n <= b.len(),
    ensures
        rule_lines(a + b, a.len() + n) == rule_lines(a, a.len() as int) + rule_lines(b, n),
    decreases n,
{
    if n > 0 {
        lemma_rule_lines_add_up(a, b, n - 1);
        assert((a + b)[a.len() + n - 1] == b[n - 1]);
        assert(rule_lines(a + b, a.len() + n) =~= rule_lines(a, a.len() as int) + rule_lines(b, n));
    } else {
        lemma_rule_lines_agree(a, b, a.len() as int);
        assert(rule_lines(a, a.len() as int) + rule_lines(b, 0) =~= rule_lines(a, a.len() as int));
    }
}

proof fn lemma_rule_lines_agree(a: Seq<Seq<char>>, b: Seq<Seq<char>>, n: int)
    requires
        0 <= n <= a.len(),
    ensures
        rule_lines(a + b, n) == rule_lines(a, n),
    decreases n,
{
    if n > 0 {
        lemma_rule_lines_agree(a, b, n - 1);
    }
}

/// A rule without a payload spoils the rules of a classical set, and the first such one is told. Sets
/// of domains and of networks are always read.
pub proof fn law_bad_rule_is_told(
    res: Result<RuleContent, Error>,
    behavior: RuleSetBehavior,
    rules: Seq<Seq<char>>,
    i: int,
)
    requires
        rules_read(res, behavior, rules),
        0 <= i < rules.len(),
        forall|k: int| 0 <= k < i ==> line_fields(#[trigger] rules[k]).len() >= 2,
    ensures
        behavior != RuleSetBehavior::Classical ==> res is Ok,
        behavior == RuleSetBehavior::Classical && line_fields(rules[i]).len() < 2 ==> (
        res matches Err(e) && text::has_suffix(e.text(), rules[i])),
        behavior == RuleSetBehavior::Classical && i + 1 == rules.len() && line_fields(
            rules[i],
        ).len() >= 2 ==> res is Ok,
{
    lemma_bad_line_at(rules, 0, i);
    let why = "invalid rule line: "@ + rules[i];
    assert(why.skip(why.len() - rules[i].len()) =~= rules[i]);
}

proof fn lemma_bad_line_at(rules: Seq<Seq<char>>, from: int, i: int)
    requires
        0 <= from <= i < rules.len(),
        forall|k: int| from <= k < i ==> line_fields(#[trigger] rules[k]).len() >= 2,
    ensures
        line_fields(rules[i]).len() < 2 ==> first_bad_line(rules, from) == i,
        i + 1 == rules.len() && line_fields(rules[i]).len() >= 2 ==> first_bad_line(rules, from)
            == rules.len(),
    decreases i - from,
{
    if from < i {
        assert(line_fields(rules[from]).len() >= 2);
        lemma_bad_line_at(rules, from + 1, i);
    } else {
        reveal_with_fuel(first_bad_line, 2);
    }
}

/// The router is asked about just those rules that are neither on domains nor on networks.
pub proof fn law_router_is_asked_about_the_rest(rules: Seq<ClassicalRule>, n: int, line: Seq<char>)
    requires
        0 <= n <= rules.len(),
    ensures
        open_among(rules, n).contains(line) <==> exists|i: int|
            0 <= i < n && (#[trigger] rules[i]).line@ == line && rules[i].kind@ != "DOMAIN"@
                && rules[i].kind@ != "DOMAIN-SUFFIX"@ && rules[i].kind@ != "DOMAIN-KEYWORD"@
                && rules[i].kind@ != "IP-CIDR"@ && rules[i].kind@ != "IP-CIDR6"@,
    decreases n,
{
    if n > 0 {
        law_router_is_asked_about_the_rest(rules, n - 1, line);
        let before = open_among(rules, n - 1);
        let after = open_among(rules, n);
        let last = rules[n - 1];
        if last.is_open() {
            assert(after[before.len() as int] == last.line@);
        }
        if before.contains(line) {
            let k = choose|k: int| 0 <= k < before.len() && before[k] == line;
            assert(after[k] == line);
            let i = choose|i: int|
                0 <= i < n - 1 && (#[trigger] rules[i]).line@ == line && rules[i].is_open();
            assert(0 <= i < n && rules[i].line@ == line);
        }
        if after.contains(line) {
            let k = choose|k: int| 0 <= k < after.len() && after[k] == line;
            if k < before.len() {
                assert(before[k] == line);
            } else {
                assert(last.line@ == line);
            }
        }
        if exists|i: int| 0 <= i < n && (#[trigger] rules[i]).line@ == line && rules[i].is_open() {
            let i = choose|i: int|
                0 <= i < n && (#[trigger] rules[i]).line@ == line && rules[i].is_open();
            if i < n - 1 {
                assert(0 <= i < n - 1 && rules[i].line@ == line);
            }
        }
    }
}

/// The program behind a connection is looked up for the rules on programs alone.
pub proof fn law_program_rules(rule: ClassicalRule, line: Seq<char>)
    requires
        rule.is_line(line),
    ensures
        rule.needs_process() <==> line_fields(line)[0] == "PROCESS-NAME"@ || line_fields(line)[0]
            == "PROCESS-PATH"@,
{
}

} // verus!
