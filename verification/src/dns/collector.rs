//! A collection of the domains that were asked for, each once.
use vstd::prelude::*;

use crate::ip;
use crate::ip::parse_ip;
use crate::text;
use crate::text::to_lowercase;

verus! {

/// The character separates the fields of a collected line.
pub open spec fn is_separator(c: char) -> bool {
    text::is_space(c) || c == ','
}

/// The first run of characters that are no separators.
pub open spec fn first_word(s: Seq<char>) -> Seq<char>
    decreases s.len(),
{
    if s.len() == 0 {
        s
    } else if is_separator(s[0]) {
        first_word(s.skip(1))
    } else {
        s.take(word_end(s))
    }
}

/// Where the run of characters at the start that are no separators ends.
pub open spec fn word_end(s: Seq<char>) -> int
    decreases s.len(),
{
    if s.len() == 0 || is_separator(s[0]) {
        0
    } else {
        1 + word_end(s.skip(1))
    }
}

/// The domain that a line of a collection holds; empty lines and comments hold none.
pub open spec fn line_domain(line: Seq<char>) -> Option<Seq<char>> {
    let trimmed = text::trimmed(line);
    if trimmed.len() == 0 || trimmed[0] == '#' || first_word(trimmed).len() == 0 {
        None
    } else {
        Some(text::lowered(first_word(trimmed)))
    }
}

/// A domain as it is collected: without white space around it, without trailing dots, in lower
/// case.
pub open spec fn clean_domain(domain: Seq<char>) -> Seq<char> {
    text::lowered(text::trimmed_end_of(text::trimmed(domain), '.'))
}

/// A list with an item at the end, unless it has it already.
pub open spec fn with_item(list: Seq<Seq<char>>, item: Seq<char>) -> Seq<Seq<char>> {
    if list.contains(item) {
        list
    } else {
        list.push(item)
    }
}

/// The domains that the first `n` lines hold, each once.
pub open spec fn loaded(lines: Seq<Seq<char>>, n: int) -> Seq<Seq<char>>
    decreases n,
{
    if n <= 0 {
        Seq::empty()
    } else {
        match line_domain(lines[n - 1]) {
            Some(domain) => with_item(loaded(lines, n - 1), domain),
            None => loaded(lines, n - 1),
        }
    }
}

/// The domain is collected: it is not empty, not an IP address, and new.
pub open spec fn is_new(seen: Seq<Seq<char>>, domain: Seq<char>) -> bool {
    clean_domain(domain).len() > 0 && ip::ip_value(clean_domain(domain)) is None && !seen.contains(
        clean_domain(domain),
    )
}

/// The line that is written for a domain.
pub open spec fn written_line(domain: Seq<char>, is_fake_ip: bool) -> Seq<char> {
    domain + (if is_fake_ip {
        " fakeip"@
    } else {
        " realip"@
    })
}

/// The domains that were asked for.
pub struct DnsCollector {
    seen: Vec<String>,
    pending: Vec<String>,
}

fn find_first_word(s: &[char]) -> (res: Vec<char>)
    ensures
        res@ == first_word(s@),
{
    let mut from: usize = 0;
    assert(s@.skip(0) =~= s@);
    while from < s.len() && (text::check_space(s[from]) || s[from] == ',')
        invariant
            from <= s@.len(),
            first_word(s@.skip(from as int)) == first_word(s@),
        decreases s@.len() - from,
    {
        assert(s@.skip(from as int).skip(1) =~= s@.skip(from + 1));
        from = from + 1;
    }
    let mut to: usize = from;
    while to < s.len() && !(text::check_space(s[to]) || s[to] == ',')
        invariant
            from <= to <= s@.len(),
            word_end(s@.skip(from as int)) == to - from + word_end(s@.skip(to as int)),
        decreases s@.len() - to,
    {
        assert(s@.skip(to as int).skip(1) =~= s@.skip(to + 1));
        to = to + 1;
    }
    let res: Vec<char> = text::slice(s, from, to);
    assert(res@ =~= s@.skip(from as int).take(to - from));
    res
}

impl DnsCollector {
    /// The domains collected so far, each once.
    pub closed spec fn domains(&self) -> Seq<Seq<char>> {
        text::string_views(self.seen@)
    }

    /// The lines that wait to be written.
    pub closed spec fn waiting(&self) -> Seq<Seq<char>> {
        text::string_views(self.pending@)
    }

    /// Takes over the domains of an earlier collection, given line by line.
    pub fn new(lines: &Vec<String>) -> (res: DnsCollector)
        ensures
            res.domains() == loaded(text::string_views(lines@), lines@.len() as int),
            res.waiting().len() == 0,
    {
        let mut seen: Vec<String> = Vec::new();
        let mut i: usize = 0;
        assert(text::string_views(seen@) =~= Seq::empty());
        while i < lines.len()
            invariant
                i <= lines@.len(),
                text::string_views(seen@) == loaded(text::string_views(lines@), i as int),
            decreases lines@.len() - i,
        {
            assert(text::string_views(lines@)[i as int] == lines@[i as int]@);
            let trimmed: Vec<char> = text::trim(&text::chars(lines[i].as_str()));
            if trimmed.len() > 0 && trimmed[0] != '#' {
                let word: Vec<char> = find_first_word(&trimmed);
                if word.len() > 0 {
                    let domain: String = to_lowercase(text::text(&word).as_str());
                    if !text::list_contains(&seen, domain.as_str()) {
                        let ghost before = seen@;
                        seen.push(domain);
                        assert(text::string_views(seen@) =~= text::string_views(before).push(
                            domain@,
                        ));
                    }
                }
            }
            i = i + 1;
        }
        DnsCollector { seen, pending: Vec::new() }
    }

    /// Collects a domain. Empty ones, IP addresses and known ones are passed over.
    pub fn record(&mut self, domain: &str, is_fake_ip: bool)
        ensures
            is_new(old(self).domains(), domain@) ==> {
                &&& final(self).domains() == old(self).domains().push(clean_domain(domain@))
                &&& final(self).waiting() == old(self).waiting().push(
                    written_line(clean_domain(domain@), is_fake_ip),
                )
            },
            !is_new(old(self).domains(), domain@) ==> {
                &&& final(self).domains() == old(self).domains()
                &&& final(self).waiting() == old(self).waiting()
            },
    {
        let trimmed: Vec<char> = text::trim_end_of(&text::trim(&text::chars(domain)), '.');
        let clean: String = to_lowercase(text::text(&trimmed).as_str());
        if text::chars(clean.as_str()).len() == 0 || parse_ip(clean.as_str()).is_some()
            || text::list_contains(&self.seen, clean.as_str()) {
            return;
        }
        let line: String = if is_fake_ip {
            text::concat(clean.as_str(), " fakeip")
        } else {
            text::concat(clean.as_str(), " realip")
        };
        let ghost seen = self.seen@;
        let ghost pending = self.pending@;
        self.seen.push(clean);
        self.pending.push(line);
        assert(text::string_views(self.seen@) =~= text::string_views(seen).push(clean@));
        assert(text::string_views(self.pending@) =~= text::string_views(pending).push(line@));
    }

    /// Hands over the lines that wait to be written.
    pub fn take_pending(&mut self) -> (res: Vec<String>)
        ensures
            text::string_views(res@) == old(self).waiting(),
            final(self).waiting().len() == 0,
            final(self).domains() == old(self).domains(),
    {
        let mut out: Vec<String> = Vec::new();
        std::mem::swap(&mut out, &mut self.pending);
        out
    }

    /// How many domains are collected.
    pub fn seen_count(&self) -> (res: usize)
        ensures
            res == self.domains().len(),
    {
        self.seen.len()
    }
}

/// Collecting a domain again, in whatever spelling comes to the same, changes nothing.
pub proof fn law_recorded_once(seen: Seq<Seq<char>>, domain: Seq<char>, again: Seq<char>)
    requires
        clean_domain(again) == clean_domain(domain),
    ensures
        is_new(seen, domain) ==> !is_new(seen.push(clean_domain(domain)), again),
{
    let after = seen.push(clean_domain(domain));
    assert(after[seen.len() as int] == clean_domain(domain));
}

/// A name goes into the collection without white space around it, without dots at its end and in
/// lower case: in whatever case, with a dot behind it or space around it, it is the same name.
pub proof fn law_spelling_is_nothing(domain: Seq<char>, again: Seq<char>)
    ensures
        text::lowered(text::trimmed_end_of(text::trimmed(again), '.')) == text::lowered(
            text::trimmed_end_of(text::trimmed(domain), '.'),
        ) ==> forall|seen: Seq<Seq<char>>| is_new(seen, again) == is_new(seen, domain),
{
}

/// An address is never collected, nor is an empty name, nor a name that is there already; whatever
/// else is asked for is.
pub proof fn law_what_is_collected(seen: Seq<Seq<char>>, domain: Seq<char>)
    ensures
        ip::ip_value(clean_domain(domain)) is Some ==> !is_new(seen, domain),
        clean_domain(domain) == Seq::<char>::empty() ==> !is_new(seen, domain),
        seen.contains(clean_domain(domain)) ==> !is_new(seen, domain),
        ip::ip_value(clean_domain(domain)) is None && clean_domain(domain) != Seq::<char>::empty()
            && !seen.contains(clean_domain(domain)) ==> is_new(seen, domain),
{
    assert(clean_domain(domain).len() == 0 ==> clean_domain(domain) =~= Seq::<char>::empty());
}

/// An earlier collection is taken over without repetition, and a domain is in it where some line
/// holds it.
pub proof fn law_loaded_once(lines: Seq<Seq<char>>, n: int, domain: Seq<char>)
    requires
        0 <= n <= lines.len(),
    ensures
        loaded(lines, n).no_duplicates(),
        loaded(lines, n).contains(domain) <==> exists|i: int|
            0 <= i < n && #[trigger] line_domain(lines[i]) == Some(domain),
    decreases n,
{
    if n > 0 {
        law_loaded_once(lines, n - 1, domain);
        let before = loaded(lines, n - 1);
        match line_domain(lines[n - 1]) {
            Some(d) => {
                if !before.contains(d) {
                    let after = before.push(d);
                    assert(after.no_duplicates());
                    assert(after[before.len() as int] == d);
                    assert forall|x: Seq<char>| after.contains(x) == (before.contains(x) || x
                        == d) by {
                        if before.contains(x) {
                            let k = choose|k: int| 0 <= k < before.len() && before[k] == x;
                            assert(after[k] == x);
                        }
                    }
                }
            },
            None => {},
        }
        if exists|i: int| 0 <= i < n - 1 && #[trigger] line_domain(lines[i]) == Some(domain) {
            let i = choose|i: int|
                0 <= i < n - 1 && #[trigger] line_domain(lines[i]) == Some(domain);
            assert(0 <= i < n && line_domain(lines[i]) == Some(domain));
        }
    }
}

/// A line is a domain and a mark behind it, which tells whether the answer was a fake address.
pub proof fn law_line_tells_domain_and_kind(domain: Seq<char>)
    ensures
        domain.is_prefix_of(written_line(domain, true)),
        domain.is_prefix_of(written_line(domain, false)),
        written_line(domain, true).skip(domain.len() as int) == " fakeip"@,
        written_line(domain, false).skip(domain.len() as int) == " realip"@,
        written_line(domain, true) != written_line(domain, false),
{
    reveal_strlit(" fakeip");
    reveal_strlit(" realip");
    assert(written_line(domain, true).take(domain.len() as int) =~= domain);
    assert(written_line(domain, false).take(domain.len() as int) =~= domain);
    assert(written_line(domain, true).skip(domain.len() as int) =~= " fakeip"@);
    assert(written_line(domain, false).skip(domain.len() as int) =~= " realip"@);
    assert(" fakeip"@[1] == 'f' && " realip"@[1] == 'r');
}

/// What was written down for a domain is read back as that domain: a domain in lower case without
/// separators in it that does not look like a comment.
pub proof fn law_written_is_read_back(domain: Seq<char>, is_fake_ip: bool)
    requires
        domain.len() > 0,
        domain[0] != '#',
        forall|i: int| 0 <= i < domain.len() ==> !is_separator(#[trigger] domain[i]),
    ensures
        text::lowered(domain) == domain ==> line_domain(written_line(domain, is_fake_ip)) == Some(
            domain,
        ),
{
    reveal_strlit(" fakeip");
    reveal_strlit(" realip");
    let line = written_line(domain, is_fake_ip);
    lemma_word_end(line, domain.len() as int);
    assert(line[line.len() - 1] == 'p');
    assert(text::trimmed_start(line) == line);
    assert(text::trimmed_end(line) == line);
    assert(line.take(domain.len() as int) =~= domain);
}

proof fn lemma_word_end(s: Seq<char>, n: int)
    requires
        0 <= n < s.len(),
        is_separator(s[n]),
        forall|i: int| 0 <= i < n ==> !is_separator(#[trigger] s[i]),
    ensures
        word_end(s) == n,
    decreases n,
{
    if n > 0 {
        assert forall|i: int| 0 <= i < n - 1 implies !is_separator(#[trigger] s.skip(1)[i]) by {
            assert(s.skip(1)[i] == s[i + 1]);
        }
        lemma_word_end(s.skip(1), n - 1);
    }
}

} // verus!
