//! Domain patterns: exact names, one-label wildcards and subdomain wildcards.
use vstd::prelude::*;

use crate::text;

verus! {

/// The labels of a domain, or `None` when it ends in a dot or has an empty label behind the first.
pub open spec fn labels(domain: Seq<char>) -> Option<Seq<Seq<char>>> {
    let f = text::fields(domain, '.');
    if (domain.len() > 0 && domain.last() == '.') || (f.len() == 1 && f[0].len() == 0) || (exists|
        k: int,
    |
        1 <= k < f.len() && (#[trigger] f[k]).len() == 0) {
        None
    } else {
        Some(f)
    }
}

/// Cuts a domain into its labels.
pub fn valid_and_split_domain(domain: &[char]) -> (res: Option<Vec<Vec<char>>>)
    ensures
        res is Some <==> labels(domain@) is Some,
        res matches Some(v) ==> labels(domain@) == Some(text::views(v@)),
{
    if domain.len() > 0 && domain[domain.len() - 1] == '.' {
        return None;
    }
    let parts: Vec<Vec<char>> = text::split(domain, '.');
    let ghost f = text::fields(domain@, '.');
    proof {
        text::lemma_fields_nonempty(domain@, '.');
    }
    assert(f.len() == parts@.len());
    assert(f[0] == parts@[0]@);
    if parts.len() == 1 && parts[0].len() == 0 {
        return None;
    }
    let mut k: usize = 1;
    while k < parts.len()
        invariant
            1 <= k <= parts@.len(),
            f == text::views(parts@),
            f == text::fields(domain@, '.'),
            forall|j: int| 1 <= j < k ==> (#[trigger] f[j]).len() > 0,
        decreases parts@.len() - k,
    {
        assert(f[k as int] == parts@[k as int]@);
        if parts[k].len() == 0 {
            return None;
        }
        k = k + 1;
    }
    Some(parts)
}

/// A pattern label that stands for any one label.
pub open spec fn is_star(label: Seq<char>) -> bool {
    label == seq!['*']
}

/// A pattern that also stands for every name below: one whose first label is empty.
pub open spec fn is_open(pattern: Seq<Seq<char>>) -> bool {
    pattern.len() > 0 && pattern[0].len() == 0
}

/// How well a pattern covers each label of a name, the rightmost first: 2 where the label is
/// written out, 1 where a star stands for it, 0 where it lies below an open pattern.
pub open spec fn fit(pattern: Seq<Seq<char>>, name: Seq<Seq<char>>, k: int) -> int {
    let own = if is_open(pattern) {
        pattern.len() - 1
    } else {
        pattern.len() as int
    };
    if k >= own {
        0
    } else if pattern[pattern.len() - 1 - k] == name[name.len() - 1 - k] {
        2
    } else {
        1
    }
}

/// The pattern covers the name: label by label from the right, each written out or starred; an
/// open pattern covers what lies below it, any other pattern names of its own length.
pub open spec fn pattern_covers(pattern: Seq<Seq<char>>, name: Seq<Seq<char>>) -> bool {
    let own = if is_open(pattern) {
        pattern.len() - 1
    } else {
        pattern.len() as int
    };
    &&& if is_open(pattern) {
        own < name.len()
    } else {
        own == name.len()
    }
    &&& forall|k: int|
        0 <= k < own ==> #[trigger] pattern[pattern.len() - 1 - k] == name[name.len() - 1 - k]
            || is_star(pattern[pattern.len() - 1 - k])
}

/// `a` is the closer of two patterns that cover a name: it fits better at the first label, from
/// the right, where they differ.
pub open spec fn closer(
    a: Seq<Seq<char>>,
    b: Seq<Seq<char>>,
    name: Seq<Seq<char>>,
    from: int,
) -> bool
    decreases name.len() - from,
{
    if from >= name.len() {
        false
    } else if fit(a, name, from) != fit(b, name, from) {
        fit(a, name, from) > fit(b, name, from)
    } else {
        closer(a, b, name, from + 1)
    }
}

/// The closest of the first `n` patterns that cover the name, the earliest of equals.
pub open spec fn closest(
    entries: Seq<(Seq<Seq<char>>, usize)>,
    name: Seq<Seq<char>>,
    n: int,
) -> Option<int>
    decreases n,
{
    if n <= 0 {
        None
    } else {
        let before = closest(entries, name, n - 1);
        if !pattern_covers(entries[n - 1].0, name) {
            before
        } else {
            match before {
                Some(b) if !closer(entries[n - 1].0, entries[b].0, name, 0) => before,
                _ => Some(n - 1),
            }
        }
    }
}

/// The value of the closest pattern that covers the domain.
pub open spec fn found(entries: Seq<(Seq<Seq<char>>, usize)>, domain: Seq<char>) -> Option<usize> {
    match labels(domain) {
        Some(name) => if name[0].len() == 0 {
            None
        } else {
            match closest(entries, name, entries.len() as int) {
                Some(i) => Some(entries[i].1),
                None => None,
            }
        },
        None => None,
    }
}

/// Being closer carries over a chain.
proof fn lemma_closer_transitive(
    a: Seq<Seq<char>>,
    b: Seq<Seq<char>>,
    c: Seq<Seq<char>>,
    name: Seq<Seq<char>>,
    from: int,
)
    requires
        !closer(a, b, name, from),
        !closer(b, c, name, from),
    ensures
        !closer(a, c, name, from),
    decreases name.len() - from,
{
    if from < name.len() {
        if fit(a, name, from) == fit(b, name, from) && fit(b, name, from) == fit(c, name, from) {
            lemma_closer_transitive(a, b, c, name, from + 1);
        }
    }
}

/// Of two patterns at most one is the closer.
proof fn lemma_closer_asymmetric(
    a: Seq<Seq<char>>,
    b: Seq<Seq<char>>,
    name: Seq<Seq<char>>,
    from: int,
)
    requires
        closer(a, b, name, from),
    ensures
        !closer(b, a, name, from),
    decreases name.len() - from,
{
    if from < name.len() && fit(a, name, from) == fit(b, name, from) {
        lemma_closer_asymmetric(a, b, name, from + 1);
    }
}

/// No pattern is closer than itself.
proof fn lemma_closer_irreflexive(a: Seq<Seq<char>>, name: Seq<Seq<char>>, from: int)
    ensures
        !closer(a, a, name, from),
    decreases name.len() - from,
{
    if from < name.len() {
        lemma_closer_irreflexive(a, name, from + 1);
    }
}

/// A search finds something exactly when some pattern covers the name, and what it finds covers
/// the name and is beaten by no other pattern that does.
pub proof fn law_search_finds_closest(
    entries: Seq<(Seq<Seq<char>>, usize)>,
    name: Seq<Seq<char>>,
    n: int,
)
    requires
        0 <= n <= entries.len(),
    ensures
        closest(entries, name, n) is Some <==> exists|i: int|
            0 <= i < n && pattern_covers((#[trigger] entries[i]).0, name),
        closest(entries, name, n) matches Some(b) ==> 0 <= b < n && pattern_covers(
            entries[b].0,
            name,
        ) && forall|i: int|
            0 <= i < n && pattern_covers((#[trigger] entries[i]).0, name) ==> !closer(
                entries[i].0,
                entries[b].0,
                name,
                0,
            ),
    decreases n,
{
    if n > 0 {
        law_search_finds_closest(entries, name, n - 1);
        if pattern_covers(entries[n - 1].0, name) {
            lemma_closer_irreflexive(entries[n - 1].0, name, 0);
            if let Some(b) = closest(entries, name, n - 1) {
                if closer(entries[n - 1].0, entries[b].0, name, 0) {
                    lemma_closer_asymmetric(entries[n - 1].0, entries[b].0, name, 0);
                    assert forall|i: int|
                        0 <= i < n && pattern_covers((#[trigger] entries[i]).0, name) implies !closer(
                        entries[i].0,
                        entries[n - 1].0,
                        name,
                        0,
                    ) by {
                        if i < n - 1 {
                            lemma_closer_transitive(
                                entries[i].0,
                                entries[b].0,
                                entries[n - 1].0,
                                name,
                                0,
                            );
                        }
                    }
                }
            }
        }
    }
}

/// The entries once `pattern` is set to `value`: in the place of an equal pattern, or at the end.
pub open spec fn pattern_set(
    entries: Seq<(Seq<Seq<char>>, usize)>,
    pattern: Seq<Seq<char>>,
    value: usize,
    from: int,
) -> Seq<(Seq<Seq<char>>, usize)>
    decreases entries.len() - from,
{
    if from >= entries.len() {
        entries.push((pattern, value))
    } else if entries[from].0 == pattern {
        entries.update(from, (pattern, value))
    } else {
        pattern_set(entries, pattern, value, from + 1)
    }
}

/// The entries once a pattern text is set. A leading `+` stands for the name itself and for
/// everything below it.
pub open spec fn text_set(
    entries: Seq<(Seq<Seq<char>>, usize)>,
    domain: Seq<char>,
    value: usize,
) -> Seq<(Seq<Seq<char>>, usize)> {
    match labels(domain) {
        None => entries,
        Some(parts) => if parts[0] == seq!['+'] {
            pattern_set(
                pattern_set(entries, parts.skip(1), value, 0),
                parts.update(0, Seq::empty()),
                value,
                0,
            )
        } else {
            pattern_set(entries, parts, value, 0)
        },
    }
}

/// Every value is less than `bound`.
pub open spec fn values_below(entries: Seq<(Seq<Seq<char>>, usize)>, bound: int) -> bool {
    forall|i: int| 0 <= i < entries.len() ==> (#[trigger] entries[i]).1 < bound
}

proof fn lemma_pattern_set_below(
    entries: Seq<(Seq<Seq<char>>, usize)>,
    pattern: Seq<Seq<char>>,
    value: usize,
    from: int,
    bound: int,
)
    requires
        0 <= from,
        values_below(entries, bound),
        value < bound,
    ensures
        values_below(pattern_set(entries, pattern, value, from), bound),
    decreases entries.len() - from,
{
    if from < entries.len() && entries[from].0 != pattern {
        lemma_pattern_set_below(entries, pattern, value, from + 1, bound);
    }
}

/// Setting a pattern brings in no value but its own.
pub proof fn lemma_text_set_below(
    entries: Seq<(Seq<Seq<char>>, usize)>,
    domain: Seq<char>,
    value: usize,
    bound: int,
)
    requires
        values_below(entries, bound),
        value < bound,
    ensures
        values_below(text_set(entries, domain, value), bound),
{
    match labels(domain) {
        None => {},
        Some(parts) => {
            lemma_pattern_set_below(entries, parts, value, 0, bound);
            lemma_pattern_set_below(entries, parts.skip(1), value, 0, bound);
            lemma_pattern_set_below(
                pattern_set(entries, parts.skip(1), value, 0),
                parts.update(0, Seq::empty()),
                value,
                0,
                bound,
            );
        },
    }
}

/// A pattern of a trie and its value.
struct Entry {
    pattern: Vec<Vec<char>>,
    value: usize,
}

/// Domain patterns, each with a value.
pub struct StringTrie {
    entries: Vec<Entry>,
}

spec fn entry_views(entries: Seq<Entry>) -> Seq<(Seq<Seq<char>>, usize)> {
    entries.map_values(|e: Entry| (text::views(e.pattern@), e.value))
}

fn label_fit(pattern: &Vec<Vec<char>>, own: usize, name: &Vec<Vec<char>>, k: usize) -> (res: u8)
    requires
        k < name@.len(),
        own == (if is_open(text::views(pattern@)) {
            pattern@.len() - 1
        } else {
            pattern@.len() as int
        }),
    ensures
        res == fit(text::views(pattern@), text::views(name@), k as int),
{
    if k >= own {
        return 0;
    }
    assert(text::views(pattern@)[pattern@.len() - 1 - k] == pattern@[pattern@.len() - 1 - k]@);
    assert(text::views(name@)[name@.len() - 1 - k] == name@[name@.len() - 1 - k]@);
    if text::same_chars(&pattern[pattern.len() - 1 - k], &name[name.len() - 1 - k]) {
        2
    } else {
        1
    }
}

/// How many labels a pattern writes out or stars.
fn own_labels(pattern: &Vec<Vec<char>>) -> (res: usize)
    ensures
        res == (if is_open(text::views(pattern@)) {
            pattern@.len() - 1
        } else {
            pattern@.len() as int
        }),
{
    assert(text::views(pattern@).len() == pattern@.len());
    if pattern.len() > 0 {
        assert(text::views(pattern@)[0] == pattern@[0]@);
    }
    if pattern.len() > 0 && pattern[0].len() == 0 {
        pattern.len() - 1
    } else {
        pattern.len()
    }
}

fn check_covers(pattern: &Vec<Vec<char>>, name: &Vec<Vec<char>>) -> (res: bool)
    ensures
        res == pattern_covers(text::views(pattern@), text::views(name@)),
{
    let ghost p = text::views(pattern@);
    let ghost d = text::views(name@);
    let own: usize = own_labels(pattern);
    assert(p.len() == pattern@.len() && d.len() == name@.len());
    let below: bool = own != pattern.len();
    assert(below == is_open(p));
    if below {
        if own >= name.len() {
            return false;
        }
    } else if own != name.len() {
        return false;
    }
    let mut k: usize = 0;
    while k < own
        invariant
            k <= own <= pattern@.len(),
            own <= name@.len(),
            p == text::views(pattern@),
            d == text::views(name@),
            own == (if is_open(p) {
                p.len() - 1
            } else {
                p.len() as int
            }),
            forall|j: int|
                0 <= j < k ==> #[trigger] p[p.len() - 1 - j] == d[d.len() - 1 - j] || is_star(
                    p[p.len() - 1 - j],
                ),
        decreases own - k,
    {
        let ghost at = p.len() - 1 - k;
        assert(p[at] == pattern@[at]@);
        assert(d[d.len() - 1 - k] == name@[name@.len() - 1 - k]@);
        let label: &Vec<char> = &pattern[pattern.len() - 1 - k];
        let star: bool = label.len() == 1 && label[0] == '*';
        assert(star == is_star(p[at])) by {
            if star {
                assert(label@ =~= seq!['*']);
            }
        }
        if !star && !text::same_chars(label, &name[name.len() - 1 - k]) {
            assert(p[p.len() - 1 - k] != d[d.len() - 1 - k]);
            return false;
        }
        k = k + 1;
    }
    true
}

fn check_closer(a: &Vec<Vec<char>>, b: &Vec<Vec<char>>, name: &Vec<Vec<char>>) -> (res: bool)
    ensures
        res == closer(text::views(a@), text::views(b@), text::views(name@), 0),
{
    let own_a: usize = own_labels(a);
    let own_b: usize = own_labels(b);
    let mut k: usize = 0;
    while k < name.len()
        invariant
            k <= name@.len(),
            own_a == (if is_open(text::views(a@)) {
                a@.len() - 1
            } else {
                a@.len() as int
            }),
            own_b == (if is_open(text::views(b@)) {
                b@.len() - 1
            } else {
                b@.len() as int
            }),
            closer(text::views(a@), text::views(b@), text::views(name@), 0) == closer(
                text::views(a@),
                text::views(b@),
                text::views(name@),
                k as int,
            ),
        decreases name@.len() - k,
    {
        let fa: u8 = label_fit(a, own_a, name, k);
        let fb: u8 = label_fit(b, own_b, name, k);
        if fa != fb {
            return fa > fb;
        }
        k = k + 1;
    }
    false
}

/// Whether two patterns have the same labels.
fn same_pattern(a: &Vec<Vec<char>>, b: &Vec<Vec<char>>) -> (res: bool)
    ensures
        res == (text::views(a@) == text::views(b@)),
{
    assert(text::views(a@).len() == a@.len() && text::views(b@).len() == b@.len());
    if a.len() != b.len() {
        return false;
    }
    let mut k: usize = 0;
    while k < a.len()
        invariant
            k <= a@.len() == b@.len(),
            forall|j: int| 0 <= j < k ==> #[trigger] text::views(a@)[j] == text::views(b@)[j],
        decreases a@.len() - k,
    {
        assert(text::views(a@)[k as int] == a@[k as int]@);
        assert(text::views(b@)[k as int] == b@[k as int]@);
        if !text::same_chars(&a[k], &b[k]) {
            return false;
        }
        k = k + 1;
    }
    assert(text::views(a@) =~= text::views(b@));
    true
}

impl StringTrie {
    /// The patterns and their values.
    pub closed spec fn view(&self) -> Seq<(Seq<Seq<char>>, usize)> {
        entry_views(self.entries@)
    }

    /// No patterns.
    pub fn new() -> (res: StringTrie)
        ensures
            res@ == Seq::<(Seq<Seq<char>>, usize)>::empty(),
    {
        let res = StringTrie { entries: Vec::new() };
        assert(res@ =~= Seq::empty());
        res
    }

    /// How many patterns there are.
    pub fn len(&self) -> (res: usize)
        ensures
            res == self@.len(),
    {
        assert(self@.len() == self.entries@.len());
        self.entries.len()
    }

    fn insert_inner(&mut self, pattern: Vec<Vec<char>>, value: usize)
        ensures
            final(self)@ == pattern_set(old(self)@, text::views(pattern@), value, 0),
    {
        let ghost before = self@;
        let ghost p = text::views(pattern@);
        let mut i: usize = 0;
        while i < self.entries.len()
            invariant
                i <= self.entries@.len(),
                self@ == before,
                before == old(self)@,
                p == text::views(pattern@),
                pattern_set(before, p, value, 0) == pattern_set(before, p, value, i as int),
            decreases self.entries@.len() - i,
        {
            assert(self@[i as int] == (
                text::views(self.entries@[i as int].pattern@),
                self.entries@[i as int].value,
            ));
            if same_pattern(&self.entries[i].pattern, &pattern) {
                self.entries.set(i, Entry { pattern, value });
                assert(self@ =~= before.update(i as int, (p, value)));
                return;
            }
            i = i + 1;
        }
        self.entries.push(Entry { pattern, value });
        assert(self@ =~= before.push((p, value)));
    }

    /// Sets the value of a pattern. A text that is no pattern changes nothing and gives `false`.
    pub fn insert(&mut self, domain: &[char], value: usize) -> (res: bool)
        ensures
            res == (labels(domain@) is Some),
            final(self)@ == text_set(old(self)@, domain@, value),
    {
        let parts: Vec<Vec<char>> = match valid_and_split_domain(domain) {
            Some(parts) => parts,
            None => return false,
        };
        let ghost p = text::views(parts@);
        proof {
            text::lemma_fields_nonempty(domain@, '.');
        }
        assert(p[0] == parts@[0]@);
        let plus: bool = parts[0].len() == 1 && parts[0][0] == '+';
        assert(plus == (p[0] == seq!['+'])) by {
            if plus {
                assert(p[0] =~= seq!['+']);
            }
        }
        if plus {
            let mut rest: Vec<Vec<char>> = Vec::new();
            let mut open: Vec<Vec<char>> = Vec::new();
            open.push(Vec::new());
            let mut i: usize = 1;
            while i < parts.len()
                invariant
                    1 <= i <= parts@.len(),
                    p == text::views(parts@),
                    text::views(rest@) == p.subrange(1, i as int),
                    text::views(open@) == seq![Seq::<char>::empty()] + p.subrange(1, i as int),
                decreases parts@.len() - i,
            {
                let ghost r = rest@;
                let ghost o = open@;
                assert(p[i as int] == parts@[i as int]@);
                rest.push(text::slice(&parts[i], 0, parts[i].len()));
                open.push(text::slice(&parts[i], 0, parts[i].len()));
                assert(parts@[i as int]@.subrange(0, parts@[i as int]@.len() as int)
                    =~= p[i as int]);
                assert(text::views(rest@) =~= text::views(r).push(p[i as int]));
                assert(text::views(open@) =~= text::views(o).push(p[i as int]));
                assert(p.subrange(1, i + 1) =~= p.subrange(1, i as int).push(p[i as int]));
                i = i + 1;
            }
            assert(p.subrange(1, i as int) =~= p.skip(1));
            assert(seq![Seq::<char>::empty()] + p.skip(1) =~= p.update(0, Seq::empty()));
            self.insert_inner(rest, value);
            self.insert_inner(open, value);
        } else {
            self.insert_inner(parts, value);
        }
        true
    }

    /// The value of the closest pattern that covers the domain.
    pub fn search(&self, domain: &[char]) -> (res: Option<usize>)
        ensures
            res == found(self@, domain@),
    {
        let name: Vec<Vec<char>> = match valid_and_split_domain(domain) {
            Some(name) => name,
            None => return None,
        };
        let ghost d = text::views(name@);
        proof {
            text::lemma_fields_nonempty(domain@, '.');
        }
        assert(d[0] == name@[0]@);
        if name[0].len() == 0 {
            return None;
        }
        let mut best: Option<usize> = None;
        let mut i: usize = 0;
        while i < self.entries.len()
            invariant
                i <= self.entries@.len(),
                d == text::views(name@),
                best matches Some(b) ==> b < i,
                closest(self@, d, i as int) == (match best {
                    Some(b) => Some(b as int),
                    None => None,
                }),
            decreases self.entries@.len() - i,
        {
            assert(self@[i as int].0 == text::views(self.entries@[i as int].pattern@));
            if check_covers(&self.entries[i].pattern, &name) {
                match best {
                    Some(b) => {
                        assert(self@[b as int].0 == text::views(self.entries@[b as int].pattern@));
                        if check_closer(&self.entries[i].pattern, &self.entries[b].pattern, &name) {
                            best = Some(i);
                        }
                    },
                    None => {
                        best = Some(i);
                    },
                }
            }
            i = i + 1;
        }
        match best {
            Some(b) => {
                assert(self@[b as int].1 == self.entries@[b as int].value);
                Some(self.entries[b].value)
            },
            None => None,
        }
    }
}

proof fn lemma_set_keeps_patterns(
    entries: Seq<(Seq<Seq<char>>, usize)>,
    pattern: Seq<Seq<char>>,
    value: usize,
    from: int,
) -> (at: int)
    requires
        0 <= from <= entries.len(),
    ensures
        0 <= at < pattern_set(entries, pattern, value, from).len(),
        pattern_set(entries, pattern, value, from)[at].0 == pattern,
        entries.len() <= pattern_set(entries, pattern, value, from).len(),
        pattern_set(entries, pattern, value, from).len() > entries.len() ==> at == entries.len()
            && pattern_set(entries, pattern, value, from).len() == entries.len() + 1,
        forall|i: int|
            0 <= i < entries.len() ==> (#[trigger] entries[i]).0 == pattern_set(
                entries,
                pattern,
                value,
                from,
            )[i].0,
    decreases entries.len() - from,
{
    if from >= entries.len() || entries[from].0 == pattern {
        from
    } else {
        lemma_set_keeps_patterns(entries, pattern, value, from + 1)
    }
}

proof fn lemma_set_adds_cover(
    entries: Seq<(Seq<Seq<char>>, usize)>,
    pattern: Seq<Seq<char>>,
    value: usize,
    after: Seq<(Seq<Seq<char>>, usize)>,
    name: Seq<Seq<char>>,
)
    requires
        after == pattern_set(entries, pattern, value, 0),
    ensures
        (exists|i: int| 0 <= i < after.len() && pattern_covers((#[trigger] after[i]).0, name))
            <==> (pattern_covers(pattern, name) || exists|i: int|
            0 <= i < entries.len() && pattern_covers((#[trigger] entries[i]).0, name)),
{
    let at = lemma_set_keeps_patterns(entries, pattern, value, 0);
    assert(after[at].0 == pattern);
    if exists|i: int| 0 <= i < entries.len() && pattern_covers((#[trigger] entries[i]).0, name) {
        let i = choose|i: int|
            0 <= i < entries.len() && pattern_covers((#[trigger] entries[i]).0, name);
        assert(after[i].0 == entries[i].0);
    }
    if exists|i: int| 0 <= i < after.len() && pattern_covers((#[trigger] after[i]).0, name) {
        let i = choose|i: int| 0 <= i < after.len() && pattern_covers((#[trigger] after[i]).0, name);
        if i != at {
            assert(after[i].0 == entries[i].0);
        }
    }
}

/// Setting a pattern adds what the pattern covers to what is found, and nothing else; a text that is
/// no pattern adds nothing. A pattern with `+` in front covers the name and what lies below it.
pub proof fn law_set_adds_what_it_covers(
    entries: Seq<(Seq<Seq<char>>, usize)>,
    domain: Seq<char>,
    value: usize,
    searched: Seq<char>,
)
    ensures
        labels(domain) is None ==> found(text_set(entries, domain, value), searched) == found(
            entries,
            searched,
        ),
        labels(domain) matches Some(p) ==> (found(text_set(entries, domain, value), searched)
            is Some <==> found(entries, searched) is Some || (labels(searched) matches Some(name)
            && name[0].len() > 0 && (if p[0] == seq!['+'] {
            pattern_covers(p.skip(1), name) || pattern_covers(p.update(0, Seq::empty()), name)
        } else {
            pattern_covers(p, name)
        }))),
{
    if let (Some(p), Some(name)) = (labels(domain), labels(searched)) {
        let after = text_set(entries, domain, value);
        law_search_finds_closest(entries, name, entries.len() as int);
        law_search_finds_closest(after, name, after.len() as int);
        if p[0] == seq!['+'] {
            let mid = pattern_set(entries, p.skip(1), value, 0);
            lemma_set_adds_cover(entries, p.skip(1), value, mid, name);
            lemma_set_adds_cover(mid, p.update(0, Seq::empty()), value, after, name);
        } else {
            lemma_set_adds_cover(entries, p, value, after, name);
        }
    }
}

proof fn lemma_covers_tail(pattern: Seq<Seq<char>>, name: Seq<Seq<char>>, own: int)
    requires
        0 <= own <= pattern.len(),
        own <= name.len(),
        forall|k: int| pattern.len() - own <= k < pattern.len() ==> !is_star(#[trigger] pattern[k]),
    ensures
        (forall|k: int|
            0 <= k < own ==> #[trigger] pattern[pattern.len() - 1 - k] == name[name.len() - 1 - k]
                || is_star(pattern[pattern.len() - 1 - k])) <==> pattern.skip(pattern.len() - own)
            == name.skip(name.len() - own),
{
    let p = pattern.skip(pattern.len() - own);
    let d = name.skip(name.len() - own);
    if forall|k: int|
        0 <= k < own ==> #[trigger] pattern[pattern.len() - 1 - k] == name[name.len() - 1 - k]
            || is_star(pattern[pattern.len() - 1 - k]) {
        assert forall|i: int| 0 <= i < own implies p[i] == d[i] by {
            let k = own - 1 - i;
            assert(pattern[pattern.len() - 1 - k] == p[i]);
            assert(name[name.len() - 1 - k] == d[i]);
        }
        assert(p =~= d);
    }
    if p == d {
        assert forall|k: int| 0 <= k < own implies #[trigger] pattern[pattern.len() - 1 - k]
            == name[name.len() - 1 - k] by {
            assert(p[own - 1 - k] == d[own - 1 - k]);
        }
    }
}

/// What one pattern is found for, where a star stands in front at most: written out, the name itself
/// alone; with `*` in front, names with exactly one label there; with nothing in front of the first
/// dot, every name below; with `+` in front, the name and every name below.
pub proof fn law_pattern_is_found_for(domain: Seq<char>, value: usize, searched: Seq<char>)
    requires
        labels(domain) is Some,
        labels(searched) is Some,
        labels(searched).unwrap()[0].len() > 0,
        forall|k: int|
            1 <= k < labels(domain).unwrap().len() ==> !is_star(#[trigger] labels(domain).unwrap()[k]),
    ensures
        ({
            let p = labels(domain).unwrap();
            let name = labels(searched).unwrap();
            let rest = p.len() - 1;
            let tail_is = name.len() >= rest && name.skip(name.len() - rest) == p.skip(1);
            found(text_set(Seq::empty(), domain, value), searched) == (if (if p[0] == seq!['+'] {
                tail_is && name.len() > 0
            } else if p[0] == seq!['*'] {
                tail_is && name.len() == p.len()
            } else if p[0].len() == 0 {
                tail_is && name.len() >= p.len()
            } else {
                searched == domain
            }) {
                Some(value)
            } else {
                None
            })
        }),
{
    let p = labels(domain).unwrap();
    let name = labels(searched).unwrap();
    let rest = p.len() - 1;
    let none = Seq::<(Seq<Seq<char>>, usize)>::empty();
    let after = text_set(none, domain, value);
    text::lemma_fields_nonempty(domain, '.');
    text::lemma_fields_nonempty(searched, '.');
    text::law_fields_join(domain, '.');
    text::law_fields_join(searched, '.');
    law_set_adds_what_it_covers(none, domain, value, searched);
    law_search_finds_closest(after, name, after.len() as int);
    reveal_with_fuel(pattern_set, 3);
    assert(forall|i: int| 0 <= i < after.len() ==> (#[trigger] after[i]).1 == value);
    if p[0] == seq!['+'] {
        let open = p.update(0, Seq::empty());
        let tail = p.skip(1);
        if name.len() > rest {
            lemma_covers_tail(open, name, rest);
            assert(open.skip(1) =~= p.skip(1));
        }
        if name.len() == rest {
            lemma_covers_tail(tail, name, rest);
            assert(tail.skip(0) =~= tail);
            assert(name.skip(0) =~= name);
        }
        if rest > 0 {
            assert(tail[0] == p[1]);
        }
    } else if p[0] == seq!['*'] {
        if name.len() == p.len() {
            lemma_covers_tail(p, name, rest);
            if pattern_covers(p, name) {
                assert(forall|k: int|
                    0 <= k < rest ==> #[trigger] p[p.len() - 1 - k] == name[name.len() - 1 - k]
                        || is_star(p[p.len() - 1 - k]));
            }
        }
    } else if p[0].len() == 0 {
        if name.len() > rest {
            lemma_covers_tail(p, name, rest);
        }
    } else {
        if name.len() == p.len() {
            lemma_covers_tail(p, name, p.len() as int);
            assert(p.skip(0) =~= p);
            assert(name.skip(0) =~= name);
        }
        if p == name {
            assert(searched == domain);
        }
    }
}

proof fn lemma_exact_is_closest(p: Seq<Seq<char>>, other: Seq<Seq<char>>, from: int)
    requires
        0 <= from <= p.len(),
        !is_open(p),
        pattern_covers(other, p),
        other != p,
        forall|k: int| 0 <= k < from ==> #[trigger] fit(other, p, k) == 2,
    ensures
        closer(p, other, p, from),
        !closer(other, p, p, from),
    decreases p.len() - from,
{
    if from < p.len() {
        assert(fit(p, p, from) == 2);
        if fit(other, p, from) == 2 {
            lemma_exact_is_closest(p, other, from + 1);
        }
    } else {
        if is_open(other) {
            assert(fit(other, p, other.len() - 1) == 0);
        } else {
            assert forall|i: int| 0 <= i < p.len() implies other[i] == p[i] by {
                assert(fit(other, p, p.len() - 1 - i) == 2);
            }
            assert(other =~= p);
        }
        assert(false);
    }
}

/// A name that is written out is found under its own value, whatever other patterns cover it and
/// whatever was set before.
pub proof fn law_exact_name_wins(
    entries: Seq<(Seq<Seq<char>>, usize)>,
    domain: Seq<char>,
    value: usize,
)
    requires
        labels(domain) matches Some(p) && p[0].len() > 0 && p[0] != seq!['+'],
    ensures
        found(text_set(entries, domain, value), domain) == Some(value),
{
    let p = labels(domain).unwrap();
    let after = text_set(entries, domain, value);
    text::lemma_fields_nonempty(domain, '.');
    lemma_set_first(entries, p, value, 0);
    let at = choose|at: int|
        0 <= at < after.len() && (#[trigger] after[at]) == (p, value) && forall|k: int|
            0 <= k < at ==> (#[trigger] after[k]).0 != p;
    assert(pattern_covers(p, p));
    lemma_closest_at(after, p, at, after.len() as int);
}

proof fn lemma_set_first(
    entries: Seq<(Seq<Seq<char>>, usize)>,
    pattern: Seq<Seq<char>>,
    value: usize,
    from: int,
)
    requires
        0 <= from <= entries.len(),
        forall|k: int| 0 <= k < from ==> (#[trigger] entries[k]).0 != pattern,
    ensures
        exists|at: int|
            0 <= at < pattern_set(entries, pattern, value, from).len() && (
            #[trigger] pattern_set(entries, pattern, value, from)[at]) == (pattern, value)
                && forall|k: int|
                0 <= k < at ==> (#[trigger] pattern_set(entries, pattern, value, from)[k]).0
                    != pattern,
    decreases entries.len() - from,
{
    let after = pattern_set(entries, pattern, value, from);
    if from >= entries.len() {
        assert(after[from] == (pattern, value));
    } else if entries[from].0 == pattern {
        assert(after[from] == (pattern, value));
    } else {
        lemma_set_first(entries, pattern, value, from + 1);
    }
}

proof fn lemma_closest_at(
    entries: Seq<(Seq<Seq<char>>, usize)>,
    p: Seq<Seq<char>>,
    at: int,
    n: int,
)
    requires
        0 <= at < n <= entries.len(),
        entries[at].0 == p,
        !is_open(p),
        pattern_covers(p, p),
        forall|k: int| 0 <= k < at ==> (#[trigger] entries[k]).0 != p,
    ensures
        closest(entries, p, n) == Some(at),
    decreases n,
{
    if n - 1 > at {
        lemma_closest_at(entries, p, at, n - 1);
        let other = entries[n - 1].0;
        if pattern_covers(other, p) {
            if other == p {
                lemma_closer_irreflexive(p, p, 0);
            } else {
                lemma_exact_is_closest(p, other, 0);
            }
        }
    } else {
        law_search_finds_closest(entries, p, at);
        if let Some(b) = closest(entries, p, at) {
            assert(entries[b].0 != p);
            lemma_exact_is_closest(p, entries[b].0, 0);
        }
    }
}

} // verus!
