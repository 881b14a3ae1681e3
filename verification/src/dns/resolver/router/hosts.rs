//! Names with fixed addresses, from files and from the configuration.
use vstd::prelude::*;

use crate::dns::endpoint;
use crate::dns::endpoint::pick_version;
use crate::dns::query;
use crate::dns::query::{QType, QueryView};
use crate::dns::resolver::router::config;
use crate::dns::resolver::router::config::HostEntry;
use crate::dns::resolver::router::matcher;
use crate::dns::resolver::router::matcher::normalize;
use crate::dns::response;
use crate::dns::response::build_dns_ip_response;
use crate::ip;
use crate::ip::{parse_ip_chars, IpAddr};
use crate::text;
use crate::trie;
use crate::trie::StringTrie;

verus! {

/// The time to live, in seconds, of answers from the table.
pub const HOSTS_TTL: u32 = 3600;

/// The place of the first entry for a domain, from `from` on.
pub open spec fn entry_place(
    entries: Seq<(Seq<char>, Seq<IpAddr>)>,
    domain: Seq<char>,
    from: int,
) -> int
    decreases entries.len() - from,
{
    if from < 0 || from >= entries.len() || entries[from].0 == domain {
        from
    } else {
        entry_place(entries, domain, from + 1)
    }
}

/// The entries with one more address for a domain, unless it has it already.
pub open spec fn with_address(
    entries: Seq<(Seq<char>, Seq<IpAddr>)>,
    domain: Seq<char>,
    addr: IpAddr,
) -> Seq<(Seq<char>, Seq<IpAddr>)> {
    let at = entry_place(entries, domain, 0);
    if at >= entries.len() {
        entries.push((domain, seq![addr]))
    } else if entries[at].1.contains(addr) {
        entries
    } else {
        entries.update(at, (domain, entries[at].1.push(addr)))
    }
}

/// A domain of a hosts file as it is kept.
pub open spec fn file_domain(word: Seq<char>) -> Seq<char> {
    text::ascii_lowered(text::trimmed_end_of(word, '.'))
}

/// The entries with one more address for the first `n` of the words; empty domains are passed over.
pub open spec fn with_words(
    entries: Seq<(Seq<char>, Seq<IpAddr>)>,
    words: Seq<Seq<char>>,
    addr: IpAddr,
    n: int,
) -> Seq<(Seq<char>, Seq<IpAddr>)>
    decreases n,
{
    if n <= 1 {
        entries
    } else {
        let before = with_words(entries, words, addr, n - 1);
        if file_domain(words[n - 1]).len() == 0 {
            before
        } else {
            with_address(before, file_domain(words[n - 1]), addr)
        }
    }
}

/// The words of a line of a hosts file, the comment left out.
pub open spec fn line_words(line: Seq<char>) -> Seq<Seq<char>> {
    text::words(line.take(text::first_of(line, '#')))
}

/// The entries with those of one line of a hosts file: an address, and the domains that have it.
pub open spec fn with_line(entries: Seq<(Seq<char>, Seq<IpAddr>)>, line: Seq<char>) -> Seq<
    (Seq<char>, Seq<IpAddr>),
> {
    let words = line_words(line);
    if words.len() == 0 {
        entries
    } else {
        match ip::ip_value(words[0]) {
            Some(addr) => with_words(entries, words, addr, words.len() as int),
            None => entries,
        }
    }
}

/// The entries with those of the first `n` lines.
pub open spec fn with_lines(
    entries: Seq<(Seq<char>, Seq<IpAddr>)>,
    lines: Seq<Seq<char>>,
    n: int,
) -> Seq<(Seq<char>, Seq<IpAddr>)>
    decreases n,
{
    if n <= 0 {
        entries
    } else {
        with_line(with_lines(entries, lines, n - 1), lines[n - 1])
    }
}

/// The entries with those of a hosts file.
pub open spec fn with_file(entries: Seq<(Seq<char>, Seq<IpAddr>)>, content: Seq<char>) -> Seq<
    (Seq<char>, Seq<IpAddr>),
> {
    let lines = text::fields(content, '\n');
    with_lines(entries, lines, lines.len() as int)
}

/// The entries of the first `n` hosts files.
pub open spec fn file_entries(contents: Seq<Seq<char>>, n: int) -> Seq<(Seq<char>, Seq<IpAddr>)>
    decreases n,
{
    if n <= 0 {
        Seq::empty()
    } else {
        with_file(file_entries(contents, n - 1), contents[n - 1])
    }
}

/// The entries with the first `n` of the configuration; those without a domain or without an
/// address are passed over.
pub open spec fn with_inline(
    entries: Seq<(Seq<char>, Seq<IpAddr>)>,
    inline: Seq<(Seq<char>, Seq<IpAddr>)>,
    n: int,
) -> Seq<(Seq<char>, Seq<IpAddr>)>
    decreases n,
{
    if n <= 0 {
        entries
    } else {
        let before = with_inline(entries, inline, n - 1);
        let domain = matcher::normalized(inline[n - 1].0);
        if domain.len() > 0 && inline[n - 1].1.len() > 0 {
            before.push((domain, inline[n - 1].1))
        } else {
            before
        }
    }
}

/// The patterns of the first `n` entries. The value of a pattern is the place of its entry, so that
/// a later entry stands in for an earlier one with the same pattern.
pub open spec fn entry_patterns(entries: Seq<(Seq<char>, Seq<IpAddr>)>, n: int) -> Seq<
    (Seq<Seq<char>>, usize),
>
    decreases n,
{
    if n <= 0 {
        Seq::empty()
    } else {
        trie::text_set(entry_patterns(entries, n - 1), entries[n - 1].0, (n - 1) as usize)
    }
}

proof fn lemma_entry_patterns_below(entries: Seq<(Seq<char>, Seq<IpAddr>)>, n: int)
    requires
        0 <= n <= usize::MAX,
    ensures
        trie::values_below(entry_patterns(entries, n), n),
    decreases n,
{
    if n > 0 {
        lemma_entry_patterns_below(entries, n - 1);
        trie::lemma_text_set_below(
            entry_patterns(entries, n - 1),
            entries[n - 1].0,
            (n - 1) as usize,
            n,
        );
    }
}

fn find_entry(entries: &Vec<HostEntry>, domain: &[char]) -> (res: Option<usize>)
    ensures
        match res {
            Some(i) => i == entry_place(config::host_views(entries@), domain@, 0) && i
                < entries@.len() && entries@[i as int].domain@ == domain@,
            None => entry_place(config::host_views(entries@), domain@, 0) >= entries@.len(),
        },
{
    let ghost all = config::host_views(entries@);
    let mut i: usize = 0;
    while i < entries.len()
        invariant
            i <= entries@.len(),
            all == config::host_views(entries@),
            entry_place(all, domain@, 0) == entry_place(all, domain@, i as int),
        decreases entries@.len() - i,
    {
        assert(all[i as int] == (entries@[i as int].domain@, entries@[i as int].ips@));
        if text::same_chars(&text::chars(entries[i].domain.as_str()), domain) {
            return Some(i);
        }
        i = i + 1;
    }
    None
}

fn has_ip(ips: &Vec<IpAddr>, addr: IpAddr) -> (res: bool)
    ensures
        res == ips@.contains(addr),
{
    let mut i: usize = 0;
    while i < ips.len()
        invariant
            i <= ips@.len(),
            forall|j: int| 0 <= j < i ==> ips@[j] != addr,
        decreases ips@.len() - i,
    {
        if ips[i] == addr {
            return true;
        }
        i = i + 1;
    }
    false
}

fn add_address(entries: &mut Vec<HostEntry>, domain: &[char], addr: IpAddr)
    ensures
        config::host_views(final(entries)@) == with_address(
            config::host_views(old(entries)@),
            domain@,
            addr,
        ),
{
    let ghost before = entries@;
    match find_entry(entries, domain) {
        Some(i) => {
            assert(config::host_views(before)[i as int] == (
                before[i as int].domain@,
                before[i as int].ips@,
            ));
            if !has_ip(&entries[i].ips, addr) {
                let ghost ips = entries@[i as int].ips@;
                entries[i].ips.push(addr);
                assert(config::host_views(entries@) =~= config::host_views(before).update(
                    i as int,
                    (domain@, ips.push(addr)),
                ));
            }
        },
        None => {
            let mut ips: Vec<IpAddr> = Vec::new();
            ips.push(addr);
            assert(ips@ =~= seq![addr]);
            entries.push(HostEntry { domain: text::text(domain), ips });
            assert(config::host_views(entries@) =~= config::host_views(before).push(
                (domain@, seq![addr]),
            ));
        },
    }
}

fn add_line(entries: &mut Vec<HostEntry>, line: &[char])
    ensures
        config::host_views(final(entries)@) == with_line(config::host_views(old(entries)@), line@),
{
    let end: usize = match text::find(line, '#') {
        Some(i) => i,
        None => line.len(),
    };
    let kept: Vec<char> = text::slice(line, 0, end);
    assert(kept@ =~= line@.take(end as int));
    let words: Vec<Vec<char>> = text::split_words(&kept);
    let ghost all = line_words(line@);
    assert(all == text::views(words@));
    if words.len() == 0 {
        return;
    }
    assert(all[0] == words@[0]@);
    let addr: IpAddr = match parse_ip_chars(&words[0]) {
        Some(addr) => addr,
        None => return,
    };
    let mut i: usize = 1;
    while i < words.len()
        invariant
            1 <= i <= words@.len(),
            all == text::views(words@),
            config::host_views(entries@) == with_words(
                config::host_views(old(entries)@),
                all,
                addr,
                i as int,
            ),
        decreases words@.len() - i,
    {
        assert(all[i as int] == words@[i as int]@);
        let domain: Vec<char> = text::ascii_lowercase(&text::trim_end_of(&words[i], '.'));
        if domain.len() > 0 {
            add_address(entries, &domain, addr);
        }
        i = i + 1;
    }
    assert(all.len() == words@.len());
}

/// Takes in the entries of a hosts file.
pub fn parse_hosts_file(content: &str, entries: &mut Vec<HostEntry>)
    ensures
        config::host_views(final(entries)@) == with_file(
            config::host_views(old(entries)@),
            content@,
        ),
{
    let lines: Vec<Vec<char>> = text::split(&text::chars(content), '\n');
    let ghost all = text::fields(content@, '\n');
    assert(all.len() == lines@.len());
    let mut i: usize = 0;
    while i < lines.len()
        invariant
            i <= lines@.len(),
            all == text::views(lines@),
            config::host_views(entries@) == with_lines(
                config::host_views(old(entries)@),
                all,
                i as int,
            ),
        decreases lines@.len() - i,
    {
        assert(all[i as int] == lines@[i as int]@);
        add_line(entries, &lines[i]);
        i = i + 1;
    }
}

/// Names with fixed addresses.
pub struct HostsSnapshot {
    trie: StringTrie,
    entries: Vec<HostEntry>,
}

/// The addresses, those of version 6 only where they are wanted.
pub open spec fn allowed(ips: Seq<IpAddr>, ipv6: bool) -> Seq<IpAddr> {
    if ipv6 {
        ips
    } else {
        endpoint::of_version(ips, false)
    }
}

/// The addresses that answer a query of a type.
pub open spec fn answering(ips: Seq<IpAddr>, qtype: QType, ipv6: bool) -> Seq<IpAddr> {
    if qtype == QType::A {
        endpoint::of_version(ips, false)
    } else if qtype == QType::AAAA && ipv6 {
        endpoint::of_version(ips, true)
    } else {
        Seq::empty()
    }
}

fn copy_ips(ips: &Vec<IpAddr>) -> (res: Vec<IpAddr>)
    ensures
        res@ == ips@,
{
    let mut res: Vec<IpAddr> = Vec::new();
    let mut i: usize = 0;
    while i < ips.len()
        invariant
            i <= ips@.len(),
            res@ == ips@.take(i as int),
        decreases ips@.len() - i,
    {
        res.push(ips[i]);
        i = i + 1;
    }
    assert(ips@.take(i as int) =~= ips@);
    res
}

impl HostsSnapshot {
    /// The names and their addresses, those of files first.
    pub closed spec fn entries_spec(&self) -> Seq<(Seq<char>, Seq<IpAddr>)> {
        config::host_views(self.entries@)
    }

    #[verifier::type_invariant]
    spec fn wf(&self) -> bool {
        self.trie@ == entry_patterns(self.entries_spec(), self.entries@.len() as int)
    }

    /// The addresses of the closest pattern that covers a domain; later entries stand in for
    /// earlier ones with the same pattern.
    pub open spec fn ips_of(&self, domain: Seq<char>) -> Option<Seq<IpAddr>> {
        let all = self.entries_spec();
        match trie::found(entry_patterns(all, all.len() as int), matcher::normalized(domain)) {
            Some(place) if place < all.len() => Some(all[place as int].1),
            _ => None,
        }
    }

    /// The table of hosts files and of the configuration.
    pub fn new(inline_hosts: &Vec<HostEntry>, contents: &Vec<String>) -> (res: HostsSnapshot)
        ensures
            res.entries_spec() == with_inline(
                file_entries(text::string_views(contents@), contents@.len() as int),
                config::host_views(inline_hosts@),
                inline_hosts@.len() as int,
            ),
    {
        let ghost texts = text::string_views(contents@);
        let mut entries: Vec<HostEntry> = Vec::new();
        assert(config::host_views(entries@) =~= Seq::empty());
        let mut i: usize = 0;
        while i < contents.len()
            invariant
                i <= contents@.len(),
                texts == text::string_views(contents@),
                config::host_views(entries@) == file_entries(texts, i as int),
            decreases contents@.len() - i,
        {
            assert(texts[i as int] == contents@[i as int]@);
            parse_hosts_file(contents[i].as_str(), &mut entries);
            i = i + 1;
        }
        let ghost files = config::host_views(entries@);
        let ghost inline = config::host_views(inline_hosts@);
        let mut k: usize = 0;
        while k < inline_hosts.len()
            invariant
                k <= inline_hosts@.len(),
                inline == config::host_views(inline_hosts@),
                config::host_views(entries@) == with_inline(files, inline, k as int),
            decreases inline_hosts@.len() - k,
        {
            assert(inline[k as int] == (
                inline_hosts@[k as int].domain@,
                inline_hosts@[k as int].ips@,
            ));
            let domain: Vec<char> = normalize(inline_hosts[k].domain.as_str());
            if domain.len() > 0 && inline_hosts[k].ips.len() > 0 {
                let ghost before = entries@;
                entries.push(
                    HostEntry {
                        domain: text::text(&domain),
                        ips: copy_ips(&inline_hosts[k].ips),
                    },
                );
                assert(config::host_views(entries@) =~= config::host_views(before).push(
                    (domain@, inline[k as int].1),
                ));
            }
            k = k + 1;
        }
        let ghost all = config::host_views(entries@);
        let mut tree: StringTrie = StringTrie::new();
        let mut n: usize = 0;
        while n < entries.len()
            invariant
                n <= entries@.len(),
                all == config::host_views(entries@),
                tree@ == entry_patterns(all, n as int),
            decreases entries@.len() - n,
        {
            assert(all[n as int] == (entries@[n as int].domain@, entries@[n as int].ips@));
            tree.insert(&text::chars(entries[n].domain.as_str()), n);
            n = n + 1;
        }
        HostsSnapshot { trie: tree, entries }
    }

    fn find(&self, domain: &str) -> (res: Option<&Vec<IpAddr>>)
        ensures
            match (res, self.ips_of(domain@)) {
                (Some(v), Some(ips)) => v@ == ips,
                (None, None) => true,
                _ => false,
            },
    {
        proof {
            use_type_invariant(self);
        }
        match self.trie.search(&normalize(domain)) {
            Some(place) => {
                if place >= self.entries.len() {
                    return None;
                }
                assert(self.entries_spec()[place as int].1 == self.entries@[place as int].ips@);
                Some(&self.entries[place].ips)
            },
            None => None,
        }
    }

    /// The addresses of a domain, those of version 6 only where they are wanted; `None` when there
    /// are none.
    pub fn lookup(&self, domain: &str, ipv6: bool) -> (res: Option<Vec<IpAddr>>)
        ensures
            match res {
                Some(v) => self.ips_of(domain@) is Some && v@ == allowed(
                    self.ips_of(domain@).unwrap(),
                    ipv6,
                ) && v@.len() > 0,
                None => self.ips_of(domain@) is None || allowed(
                    self.ips_of(domain@).unwrap(),
                    ipv6,
                ).len() == 0,
            },
    {
        let ips: &Vec<IpAddr> = match self.find(domain) {
            Some(ips) => ips,
            None => return None,
        };
        let kept: Vec<IpAddr> = if ipv6 {
            copy_ips(ips)
        } else {
            pick_version(ips, false)
        };
        if kept.len() == 0 {
            None
        } else {
            Some(kept)
        }
    }

    /// The answer to a query, where the table has one.
    pub open spec fn answer(&self, query: Seq<u8>, domain: Seq<char>, qtype: QType, ipv6: bool) -> Option<
        Seq<u8>,
    > {
        match self.ips_of(domain) {
            Some(ips) => if answering(ips, qtype, ipv6).len() > 0 {
                response::ip_response(query, answering(ips, qtype, ipv6), HOSTS_TTL)
            } else {
                None
            },
            None => None,
        }
    }

    /// The answer to a query, where the table has one. Only queries for addresses are answered,
    /// those for IPv6 addresses only where these are wanted.
    pub fn make_response(&self, raw_query: &[u8], domain: &str, qtype: QType, ipv6: bool) -> (res:
        Option<Vec<u8>>)
        ensures
            match (res, self.answer(raw_query@, domain@, qtype, ipv6)) {
                (Some(v), Some(bytes)) => v@ == bytes,
                (None, None) => true,
                _ => false,
            },
    {
        let ips: &Vec<IpAddr> = match self.find(domain) {
            Some(ips) => ips,
            None => return None,
        };
        let matching: Vec<IpAddr> = if qtype == QType::A {
            pick_version(ips, false)
        } else if qtype == QType::AAAA && ipv6 {
            pick_version(ips, true)
        } else {
            return None;
        };
        if matching.len() == 0 {
            return None;
        }
        build_dns_ip_response(raw_query, &matching, HOSTS_TTL)
    }
}

/// Every pattern of a table refers to one of its entries.
pub proof fn law_patterns_have_entries(entries: Seq<(Seq<char>, Seq<IpAddr>)>)
    requires
        entries.len() <= usize::MAX,
    ensures
        trie::values_below(
            entry_patterns(entries, entries.len() as int),
            entries.len() as int,
        ),
{
    lemma_entry_patterns_below(entries, entries.len() as int);
}

/// The entries give the address to the name.
pub open spec fn gives(
    entries: Seq<(Seq<char>, Seq<IpAddr>)>,
    domain: Seq<char>,
    addr: IpAddr,
) -> bool {
    exists|i: int|
        0 <= i < entries.len() && (#[trigger] entries[i]).0 == domain && entries[i].1.contains(addr)
}

proof fn lemma_entry_place(entries: Seq<(Seq<char>, Seq<IpAddr>)>, domain: Seq<char>, from: int)
    requires
        0 <= from <= entries.len(),
    ensures
        from <= entry_place(entries, domain, from) <= entries.len(),
        entry_place(entries, domain, from) < entries.len() ==> entries[entry_place(
            entries,
            domain,
            from,
        )].0 == domain,
    decreases entries.len() - from,
{
    if from < entries.len() && entries[from].0 != domain {
        lemma_entry_place(entries, domain, from + 1);
    }
}

proof fn lemma_with_address(
    entries: Seq<(Seq<char>, Seq<IpAddr>)>,
    domain: Seq<char>,
    addr: IpAddr,
    name: Seq<char>,
    other: IpAddr,
)
    ensures
        gives(with_address(entries, domain, addr), name, other) <==> gives(entries, name, other) || (
        name == domain && other == addr),
{
    let at = entry_place(entries, domain, 0);
    let after = with_address(entries, domain, addr);
    lemma_entry_place(entries, domain, 0);
    if gives(entries, name, other) {
        let i = choose|i: int|
            0 <= i < entries.len() && (#[trigger] entries[i]).0 == name && entries[i].1.contains(
                other,
            );
        if i == at && !entries[at].1.contains(addr) {
            let k = choose|k: int| 0 <= k < entries[i].1.len() && entries[i].1[k] == other;
            assert(after[i].1[k] == other);
            assert(after[i].1.contains(other));
        } else {
            assert(after[i] == entries[i]);
        }
        assert(after[i].0 == name && after[i].1.contains(other));
    }
    if name == domain && other == addr {
        if at >= entries.len() {
            assert(after[entries.len() as int].1[0] == addr);
            assert(after[entries.len() as int].0 == name && after[entries.len() as int].1.contains(
                other,
            ));
        } else if entries[at].1.contains(addr) {
            assert(after[at].0 == name && after[at].1.contains(other));
        } else {
            assert(after[at].1[entries[at].1.len() as int] == addr);
            assert(after[at].0 == name && after[at].1.contains(other));
        }
    }
    if gives(after, name, other) {
        let i = choose|i: int|
            0 <= i < after.len() && (#[trigger] after[i]).0 == name && after[i].1.contains(other);
        if i < entries.len() {
            if i == at && !entries[at].1.contains(addr) {
                let k = choose|k: int| 0 <= k < after[i].1.len() && after[i].1[k] == other;
                if k < entries[i].1.len() {
                    assert(entries[i].1[k] == other);
                    assert(entries[i].1.contains(other));
                }
            } else {
                assert(after[i] == entries[i]);
            }
        }
    }
}

proof fn lemma_with_words(
    entries: Seq<(Seq<char>, Seq<IpAddr>)>,
    words: Seq<Seq<char>>,
    addr: IpAddr,
    n: int,
    name: Seq<char>,
    other: IpAddr,
)
    requires
        n <= words.len(),
    ensures
        gives(with_words(entries, words, addr, n), name, other) <==> gives(entries, name, other) || (
        other == addr && name.len() > 0 && exists|k: int|
            1 <= k < n && file_domain(#[trigger] words[k]) == name),
    decreases n,
{
    if n > 1 {
        lemma_with_words(entries, words, addr, n - 1, name, other);
        let before = with_words(entries, words, addr, n - 1);
        if file_domain(words[n - 1]).len() > 0 {
            lemma_with_address(before, file_domain(words[n - 1]), addr, name, other);
        }
    }
}

/// A line of a hosts file gives its address to each of the names behind it, in lower case and without
/// a dot at the end, and takes nothing away. A line that does not start with an address gives
/// nothing.
pub proof fn law_line_gives_its_names(
    entries: Seq<(Seq<char>, Seq<IpAddr>)>,
    line: Seq<char>,
    name: Seq<char>,
    other: IpAddr,
)
    ensures
        gives(with_line(entries, line), name, other) <==> gives(entries, name, other) || (line_words(
            line,
        ).len() > 0 && ip::ip_value(line_words(line)[0]) == Some(other) && name.len() > 0
            && exists|k: int|
            1 <= k < line_words(line).len() && text::ascii_lowered(
                text::trimmed_end_of(#[trigger] line_words(line)[k], '.'),
            ) == name),
{
    let words = line_words(line);
    if words.len() > 0 {
        if let Some(addr) = ip::ip_value(words[0]) {
            lemma_with_words(entries, words, addr, words.len() as int, name, other);
            if exists|k: int| 1 <= k < words.len() && file_domain(#[trigger] words[k]) == name {
                let k = choose|k: int| 1 <= k < words.len() && file_domain(#[trigger] words[k]) == name;
                assert(text::ascii_lowered(text::trimmed_end_of(words[k], '.')) == name);
            }
            if exists|k: int|
                1 <= k < words.len() && text::ascii_lowered(
                    text::trimmed_end_of(#[trigger] words[k], '.'),
                ) == name {
                let k = choose|k: int|
                    1 <= k < words.len() && text::ascii_lowered(
                        text::trimmed_end_of(#[trigger] words[k], '.'),
                    ) == name;
                assert(file_domain(words[k]) == name);
            }
        }
    }
}

/// What stands behind a `#` in a hosts file says nothing.
pub proof fn law_comment_in_hosts_says_nothing(
    entries: Seq<(Seq<char>, Seq<IpAddr>)>,
    line: Seq<char>,
    comment: Seq<char>,
)
    requires
        !line.contains('#'),
    ensures
        with_line(entries, line + seq!['#'] + comment) == with_line(entries, line),
        with_line(entries, seq!['#'] + comment) == entries,
{
    let full = line + seq!['#'] + comment;
    let at = line.len() as int;
    assert(full[at] == '#');
    assert forall|i: int| 0 <= i < at implies full[i] != '#' && line[i] != '#' by {
        assert(full[i] == line[i]);
        assert(line.contains(line[i]));
    }
    text::lemma_first_of_is(full, '#', at);
    text::lemma_first_of_is(line, '#', at);
    assert(full.take(at) =~= line);
    assert(line.take(at) =~= line);
    let alone = seq!['#'] + comment;
    assert(alone[0] == '#');
    text::lemma_first_of_is(alone, '#', 0);
    assert(alone.take(0) =~= Seq::empty());
    assert(text::words(Seq::<char>::empty()) =~= Seq::empty());
}

/// The table answers a query for addresses with those of the version that was asked for, each in its
/// order, good for an hour; it does not answer where it has none of that version, nor queries of
/// other types, nor queries for IPv6 addresses where IPv6 is switched off.
pub proof fn law_hosts_answer_is_of_version(
    hosts: HostsSnapshot,
    raw: Seq<u8>,
    q: QueryView,
    ipv6: bool,
)
    requires
        query::query_of(raw) == Some(q),
    ensures
        hosts.answer(raw, q.domain, q.qtype, ipv6) matches Some(bytes) ==> (hosts.ips_of(q.domain)
            matches Some(ips) && response::answer_ips(bytes) == endpoint::of_version(
            ips,
            q.qtype == QType::AAAA,
        ) && response::answer_ips(bytes).len() > 0 && response::min_ttl(bytes) == Some(3600u32)
            && response::answers_query(q, bytes) && (q.qtype == QType::A || (q.qtype == QType::AAAA
            && ipv6))),
        hosts.ips_of(q.domain) is None ==> hosts.answer(raw, q.domain, q.qtype, ipv6) is None,
        hosts.ips_of(q.domain) matches Some(ips) ==> (ips.len() <= 0xffff && (q.qtype == QType::A || (
        q.qtype == QType::AAAA && ipv6)) && endpoint::of_version(ips, q.qtype == QType::AAAA).len()
            > 0 ==> hosts.answer(raw, q.domain, q.qtype, ipv6) is Some),
{
    query::law_query_has_question(raw);
    if let Some(ips) = hosts.ips_of(q.domain) {
        let own = answering(ips, q.qtype, ipv6);
        let f = |ip: IpAddr| (ip is V6) == (q.qtype == QType::AAAA);
        ips.lemma_filter_len(f);
        if response::ip_response(raw, own, HOSTS_TTL) is Some {
            response::law_addresses_read_back(raw, own, HOSTS_TTL);
            response::law_own_answer_is_one_to_the_query(raw, q, own, HOSTS_TTL);
        }
    }
}

/// Of the addresses that a lookup may use, IPv6 ones are left out exactly where IPv6 is switched off.
pub proof fn law_lookup_in_hosts_minds_ipv6(ips: Seq<IpAddr>, addr: IpAddr)
    ensures
        allowed(ips, true) == ips,
        allowed(ips, false).contains(addr) <==> ips.contains(addr) && addr is V4,
{
    endpoint::lemma_of_version_members(ips, false);
    assert(endpoint::of_version(ips, false).contains(addr) <==> ips.contains(addr) && (addr is V6)
        == false);
}

/// What stands in the configuration goes before what stands in files: the last entry there for a
/// name gives all of its addresses, and they are its own, however the name is spelt.
pub proof fn law_inline_hosts_win(
    hosts: HostsSnapshot,
    files: Seq<(Seq<char>, Seq<IpAddr>)>,
    inline: Seq<(Seq<char>, Seq<IpAddr>)>,
    domain: Seq<char>,
)
    requires
        inline.len() > 0,
        hosts.entries_spec() == with_inline(files, inline, inline.len() as int),
        hosts.entries_spec().len() <= usize::MAX,
        inline.last().1.len() > 0,
        matcher::normalized(inline.last().0) == matcher::normalized(domain),
        trie::labels(matcher::normalized(domain)) matches Some(p) && p[0].len() > 0 && p[0]
            != seq!['+'],
        matcher::normalized(domain).len() > 0,
    ensures
        hosts.ips_of(domain) == Some(inline.last().1),
{
    let all = hosts.entries_spec();
    let n = all.len() as int;
    trie::law_exact_name_wins(
        entry_patterns(all, n - 1),
        matcher::normalized(domain),
        (n - 1) as usize,
    );
}

/// What two hosts files say one after the other is what they say as one file.
pub proof fn law_hosts_files_add_up(
    entries: Seq<(Seq<char>, Seq<IpAddr>)>,
    first: Seq<char>,
    second: Seq<char>,
)
    ensures
        with_file(entries, first + seq!['\n'] + second) == with_file(
            with_file(entries, first),
            second,
        ),
{
    let a = text::fields(first, '\n');
    let b = text::fields(second, '\n');
    text::law_fields_add_up(first, '\n', second);
    lemma_lines_add_up(entries, a, b, b.len() as int);
}

proof fn lemma_lines_add_up(
    entries: Seq<(Seq<char>, Seq<IpAddr>)>,
    a: Seq<Seq<char>>,
    b: Seq<Seq<char>>,
    n: int,
)
    requires
        0 <= n <= b.len(),
    ensures
        with_lines(entries, a + b, a.len() + n) == with_lines(
            with_lines(entries, a, a.len() as int),
            b,
            n,
        ),
    decreases n,
{
    if n > 0 {
        lemma_lines_add_up(entries, a, b, n - 1);
    } else {
        lemma_lines_agree(entries, a, b, a.len() as int);
    }
}

proof fn lemma_lines_agree(
    entries: Seq<(Seq<char>, Seq<IpAddr>)>,
    a: Seq<Seq<char>>,
    b: Seq<Seq<char>>,
    n: int,
)
    requires
        0 <= n <= a.len(),
    ensures
        with_lines(entries, a + b, n) == with_lines(entries, a, n),
    decreases n,
{
    if n > 0 {
        lemma_lines_agree(entries, a, b, n - 1);
    }
}

/// A file of one line says what the line says.
pub proof fn law_one_line_file(entries: Seq<(Seq<char>, Seq<IpAddr>)>, line: Seq<char>)
    requires
        !line.contains('\n'),
    ensures
        with_file(entries, line) == with_line(entries, line),
{
    text::lemma_one_field(line, '\n');
    reveal_with_fuel(with_lines, 2);
}

} // verus!
