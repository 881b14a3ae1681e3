//! Proxies whose names match a pattern.
use vstd::prelude::*;

use crate::text;

verus! {

/// Whether a regular expression matches somewhere in a text; `None` where it is no regular
/// expression. As the `regex` crate reads it.
pub uninterp spec fn regex_match(pattern: Seq<char>, s: Seq<char>) -> Option<bool>;

/// `regex::Regex::new`, and `is_match` on its result. What it gives is a function of the two texts
/// alone and is called `regex_match`; it is `None` where the pattern cannot be read.
#[verifier::external_body]
fn check_regex(pattern: &str, s: &str) -> (res: Option<bool>)
    ensures
        res == regex_match(pattern@, s@),
{
    regex::Regex::new(pattern).ok().map(|re| re.is_match(s))
}

/// Those of the first `n` names that a pattern matches.
pub open spec fn matching(pattern: Seq<char>, names: Seq<Seq<char>>, n: int) -> Seq<Seq<char>>
    decreases n,
{
    if n <= 0 {
        Seq::empty()
    } else if regex_match(pattern, names[n - 1]) == Some(true) {
        matching(pattern, names, n - 1).push(names[n - 1])
    } else {
        matching(pattern, names, n - 1)
    }
}

/// The names once they were filtered, or the fallback where none is left.
pub open spec fn or_fallback(kept: Seq<Seq<char>>, fallback: Option<Seq<char>>) -> Seq<Seq<char>> {
    if kept.len() == 0 && fallback is Some {
        seq![fallback.unwrap()]
    } else {
        kept
    }
}

/// The names that a pattern matches, or the fallback where there are none.
pub open spec fn filtered(
    pattern: Seq<char>,
    names: Seq<Seq<char>>,
    fallback: Option<Seq<char>>,
) -> Seq<Seq<char>> {
    or_fallback(matching(pattern, names, names.len() as int), fallback)
}

/// Names that were filtered, and what came of it.
#[derive(Debug)]
pub struct FilteredSnapshot {
    pub raw: Vec<String>,
    pub filtered: Vec<String>,
}

/// Proxies whose names match a pattern.
#[derive(Debug)]
pub struct FilteredProxyProvider {
    filter: String,
    empty_fallback: Option<String>,
    cache: Option<FilteredSnapshot>,
}

/// The names with the fallback, where none is left.
pub fn fall_back(kept: Vec<String>, fallback: &Option<String>) -> (res: Vec<String>)
    ensures
        text::string_views(res@) == or_fallback(
            text::string_views(kept@),
            text::opt_view(*fallback),
        ),
{
    assert(text::string_views(kept@).len() == kept@.len());
    if kept.len() == 0 {
        if let Some(name) = fallback {
            let mut res: Vec<String> = Vec::new();
            res.push(name.clone());
            assert(text::string_views(res@) =~= seq![name@]);
            return res;
        }
    }
    kept
}

fn same_names(a: &Vec<String>, b: &Vec<String>) -> (res: bool)
    ensures
        res ==> text::string_views(a@) == text::string_views(b@),
        text::string_views(a@) == text::string_views(b@) ==> res,
{
    if a.len() != b.len() {
        assert(text::string_views(a@).len() != text::string_views(b@).len());
        return false;
    }
    let mut i: usize = 0;
    while i < a.len()
        invariant
            i <= a@.len() == b@.len(),
            forall|j: int| 0 <= j < i ==> (#[trigger] a@[j])@ == b@[j]@,
        decreases a@.len() - i,
    {
        if !text::same(a[i].as_str(), b[i].as_str()) {
            assert(text::string_views(a@)[i as int] != text::string_views(b@)[i as int]);
            return false;
        }
        i = i + 1;
    }
    assert(text::string_views(a@) =~= text::string_views(b@));
    true
}

impl FilteredProxyProvider {
    /// The pattern.
    pub closed spec fn pattern(&self) -> Seq<char> {
        self.filter@
    }

    /// What there is where no name matches.
    pub closed spec fn fallback(&self) -> Option<Seq<char>> {
        text::opt_view(self.empty_fallback)
    }

    /// What is kept is what the pattern gives.
    pub closed spec fn wf(&self) -> bool {
        self.cache matches Some(c) ==> text::string_views(c.filtered@) == filtered(
            self.filter@,
            text::string_views(c.raw@),
            text::opt_view(self.empty_fallback),
        )
    }

    /// The names that were filtered last.
    pub closed spec fn last(&self) -> Option<Seq<Seq<char>>> {
        match self.cache {
            Some(c) => Some(text::string_views(c.raw@)),
            None => None,
        }
    }

    /// Proxies whose names match a pattern.
    pub fn new(filter: String, empty_fallback: Option<String>) -> (res: FilteredProxyProvider)
        ensures
            res.wf(),
            res.pattern() == filter@,
            res.fallback() == text::opt_view(empty_fallback),
            res.last() is None,
    {
        FilteredProxyProvider { filter, empty_fallback, cache: None }
    }

    fn keep_matching(&self, names: &Vec<String>) -> (res: Vec<String>)
        ensures
            text::string_views(res@) == matching(
                self.pattern(),
                text::string_views(names@),
                names@.len() as int,
            ),
    {
        let ghost all = text::string_views(names@);
        let mut res: Vec<String> = Vec::new();
        assert(text::string_views(res@) =~= Seq::empty());
        let mut i: usize = 0;
        while i < names.len()
            invariant
                i <= names@.len(),
                all == text::string_views(names@),
                text::string_views(res@) == matching(self.pattern(), all, i as int),
            decreases names@.len() - i,
        {
            assert(all[i as int] == names@[i as int]@);
            match check_regex(self.filter.as_str(), names[i].as_str()) {
                Some(true) => {
                    let ghost before = res@;
                    res.push(names[i].clone());
                    assert(text::string_views(res@) =~= text::string_views(before).push(
                        all[i as int],
                    ));
                },
                _ => {},
            }
            i = i + 1;
        }
        res
    }

    /// The proxies whose names match the pattern, or the fallback where there are none. The last
    /// outcome is remembered.
    pub fn proxies(&mut self, current: &Vec<String>) -> (res: Vec<String>)
        requires
            old(self).wf(),
        ensures
            final(self).wf(),
            final(self).pattern() == old(self).pattern(),
            final(self).fallback() == old(self).fallback(),
            final(self).last() == Some(text::string_views(current@)),
            text::string_views(res@) == filtered(
                old(self).pattern(),
                text::string_views(current@),
                old(self).fallback(),
            ),
    {
        if let Some(cached) = &self.cache {
            if same_names(&cached.raw, current) {
                return text::copy_list(&cached.filtered);
            }
        }
        let kept: Vec<String> = self.keep_matching(current);
        let res: Vec<String> = fall_back(kept, &self.empty_fallback);
        self.cache = Some(
            FilteredSnapshot { raw: text::copy_list(current), filtered: text::copy_list(&res) },
        );
        res
    }

    /// Whether the outcome for these names is remembered.
    pub fn remembers(&self, current: &Vec<String>) -> (res: bool)
        ensures
            res == (self.last() == Some(text::string_views(current@))),
    {
        match &self.cache {
            Some(cached) => same_names(&cached.raw, current),
            None => false,
        }
    }
}

proof fn lemma_matching_match(pattern: Seq<char>, names: Seq<Seq<char>>, n: int, i: int)
    requires
        0 <= i < matching(pattern, names, n).len(),
    ensures
        regex_match(pattern, matching(pattern, names, n)[i]) == Some(true),
    decreases n,
{
    if n > 0 {
        let before = matching(pattern, names, n - 1);
        if i < before.len() {
            lemma_matching_match(pattern, names, n - 1, i);
        }
    }
}

/// Every proxy that is left matches the pattern, unless it is the fallback.
pub proof fn law_left_match(
    pattern: Seq<char>,
    names: Seq<Seq<char>>,
    fallback: Option<Seq<char>>,
    i: int,
)
    requires
        0 <= i < filtered(pattern, names, fallback).len(),
    ensures
        regex_match(pattern, filtered(pattern, names, fallback)[i]) == Some(true) || Some(
            filtered(pattern, names, fallback)[i],
        ) == fallback,
{
    let kept = matching(pattern, names, names.len() as int);
    if kept.len() > 0 || fallback is None {
        lemma_matching_match(pattern, names, names.len() as int, i);
    }
}

/// A proxy that matches the pattern is left, in its turn among those that match; one that does not is
/// not. The fallback stands in where none is left, and in no other case.
pub proof fn law_matching_are_left(
    pattern: Seq<char>,
    names: Seq<Seq<char>>,
    fallback: Option<Seq<char>>,
    i: int,
)
    requires
        0 <= i < names.len(),
    ensures
        regex_match(pattern, names[i]) == Some(true) ==> filtered(
            pattern,
            names,
            fallback,
        ).contains(names[i]),
        (forall|k: int|
            0 <= k < names.len() ==> regex_match(pattern, #[trigger] names[k]) != Some(true))
            ==> filtered(pattern, names, fallback) == (match fallback {
            Some(f) => seq![f],
            None => Seq::empty(),
        }),
        (forall|k: int|
            0 <= k < names.len() ==> regex_match(pattern, #[trigger] names[k]) == Some(true))
            ==> filtered(pattern, names, fallback) == names,
{
    lemma_matching_kept(pattern, names, names.len() as int, i);
}

proof fn lemma_matching_kept(pattern: Seq<char>, names: Seq<Seq<char>>, n: int, i: int)
    requires
        0 <= n <= names.len(),
    ensures
        0 <= i < n && regex_match(pattern, names[i]) == Some(true) ==> matching(
            pattern,
            names,
            n,
        ).contains(names[i]),
        (forall|k: int| 0 <= k < n ==> regex_match(pattern, #[trigger] names[k]) != Some(true))
            ==> matching(pattern, names, n) == Seq::<Seq<char>>::empty(),
        (forall|k: int| 0 <= k < n ==> regex_match(pattern, #[trigger] names[k]) == Some(true))
            ==> matching(pattern, names, n) == names.take(n),
        n == names.len() ==> names.take(n) == names,
    decreases n,
{
    assert(names.take(names.len() as int) =~= names);
    if n > 0 {
        lemma_matching_kept(pattern, names, n - 1, i);
        let before = matching(pattern, names, n - 1);
        let after = matching(pattern, names, n);
        assert(names.take(n) =~= names.take(n - 1).push(names[n - 1]));
        assert(regex_match(pattern, names[n - 1]) == Some(true) || after == before);
        if 0 <= i < n && regex_match(pattern, names[i]) == Some(true) {
            if i == n - 1 {
                assert(after[before.len() as int] == names[i]);
            } else {
                let k = choose|k: int| 0 <= k < before.len() && before[k] == names[i];
                assert(after[k] == names[i]);
            }
        }
    } else {
        assert(names.take(0) =~= Seq::<Seq<char>>::empty());
    }
}

} // verus!
