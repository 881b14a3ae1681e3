//! Text operations on characters.
use vstd::prelude::*;

verus! {

/// [`String::push`] appends one character.
pub assume_specification[ String::push ](s: &mut String, c: char)
    ensures
        final(s)@ == old(s)@.push(c),
;

/// The characters of a string.
pub fn chars(s: &str) -> (res: Vec<char>)
    ensures
        res@ == s@,
{
    let mut res: Vec<char> = Vec::new();
    for c in it: s.chars()
        invariant
            res@ == it.seq().take(it.index() as int),
            it.seq() == s@,
    {
        res.push(c);
    }
    assert(s@.take(s@.len() as int) =~= s@);
    res
}

/// A string of the given characters.
pub fn text(chars: &[char]) -> (res: String)
    ensures
        res@ == chars@,
{
    let mut res: String = String::new();
    let mut i: usize = 0;
    while i < chars.len()
        invariant
            i <= chars@.len(),
            res@ == chars@.take(i as int),
        decreases chars@.len() - i,
    {
        res.push(chars[i]);
        i = i + 1;
    }
    assert(chars@.take(i as int) == chars@);
    res
}

/// Whether two character sequences are the same.
pub fn same_chars(a: &[char], b: &[char]) -> (res: bool)
    ensures
        res == (a@ == b@),
{
    if a.len() != b.len() {
        return false;
    }
    let mut i: usize = 0;
    while i < a.len()
        invariant
            i <= a@.len() == b@.len(),
            forall|j: int| 0 <= j < i ==> a@[j] == b@[j],
        decreases a@.len() - i,
    {
        if a[i] != b[i] {
            return false;
        }
        i = i + 1;
    }
    assert(a@ =~= b@);
    true
}

/// Whether two strings hold the same characters.
pub fn same(a: &str, b: &str) -> (res: bool)
    ensures
        res == (a@ == b@),
{
    same_chars(&chars(a), &chars(b))
}

/// A copy of `s[from..to]`.
pub fn slice(s: &[char], from: usize, to: usize) -> (res: Vec<char>)
    requires
        from <= to <= s@.len(),
    ensures
        res@ == s@.subrange(from as int, to as int),
{
    let mut res: Vec<char> = Vec::new();
    let mut i: usize = from;
    while i < to
        invariant
            from <= i <= to <= s@.len(),
            res@ == s@.subrange(from as int, i as int),
        decreases to - i,
    {
        res.push(s[i]);
        i = i + 1;
    }
    res
}

/// A Latin capital letter in lower case; any other character as it is.
pub open spec fn ascii_lower(c: char) -> char {
    if 'A' <= c <= 'Z' {
        (c as u32 + 32) as char
    } else {
        c
    }
}

/// `s` with its Latin letters in lower case.
pub open spec fn ascii_lowered(s: Seq<char>) -> Seq<char> {
    s.map_values(|c: char| ascii_lower(c))
}

/// A Latin capital letter in lower case; any other character as it is.
pub fn to_ascii_lower(c: char) -> (res: char)
    ensures
        res == ascii_lower(c),
{
    if 'A' <= c && c <= 'Z' {
        (c as u8 + 32) as char
    } else {
        c
    }
}

/// The characters with their Latin letters in lower case.
pub fn ascii_lowercase(s: &[char]) -> (res: Vec<char>)
    ensures
        res@ == ascii_lowered(s@),
{
    let mut res: Vec<char> = Vec::new();
    let mut i: usize = 0;
    while i < s.len()
        invariant
            i <= s@.len(),
            res@ == ascii_lowered(s@.take(i as int)),
        decreases s@.len() - i,
    {
        res.push(to_ascii_lower(s[i]));
        i = i + 1;
        assert(res@ =~= ascii_lowered(s@.take(i as int)));
    }
    assert(s@.take(i as int) == s@);
    res
}

/// The characters with Unicode's `White_Space` property.
pub open spec fn is_space(c: char) -> bool {
    let n = c as u32;
    ||| 0x09 <= n <= 0x0d
    ||| n == 0x20
    ||| n == 0x85
    ||| n == 0xa0
    ||| n == 0x1680
    ||| 0x2000 <= n <= 0x200a
    ||| n == 0x2028
    ||| n == 0x2029
    ||| n == 0x202f
    ||| n == 0x205f
    ||| n == 0x3000
}

/// Whether a character has Unicode's `White_Space` property.
pub fn check_space(c: char) -> (res: bool)
    ensures
        res == is_space(c),
{
    let n: u32 = c as u32;
    (0x09 <= n && n <= 0x0d) || n == 0x20 || n == 0x85 || n == 0xa0 || n == 0x1680 || (0x2000 <= n
        && n <= 0x200a) || n == 0x2028 || n == 0x2029 || n == 0x202f || n == 0x205f || n == 0x3000
}

/// `s` without the white space it starts with.
pub open spec fn trimmed_start(s: Seq<char>) -> Seq<char>
    decreases s.len(),
{
    if s.len() > 0 && is_space(s[0]) {
        trimmed_start(s.skip(1))
    } else {
        s
    }
}

/// `s` without the white space it ends with.
pub open spec fn trimmed_end(s: Seq<char>) -> Seq<char>
    decreases s.len(),
{
    if s.len() > 0 && is_space(s.last()) {
        trimmed_end(s.drop_last())
    } else {
        s
    }
}

/// `s` without the white space around it.
pub open spec fn trimmed(s: Seq<char>) -> Seq<char> {
    trimmed_end(trimmed_start(s))
}

/// `s` without the `c`s it ends with.
pub open spec fn trimmed_end_of(s: Seq<char>, c: char) -> Seq<char>
    decreases s.len(),
{
    if s.len() > 0 && s.last() == c {
        trimmed_end_of(s.drop_last(), c)
    } else {
        s
    }
}

/// The characters without the white space around them.
pub fn trim(s: &[char]) -> (res: Vec<char>)
    ensures
        res@ == trimmed(s@),
{
    let mut from: usize = 0;
    assert(s@.skip(0) =~= s@);
    while from < s.len() && check_space(s[from])
        invariant
            from <= s@.len(),
            trimmed_start(s@.skip(from as int)) == trimmed_start(s@),
        decreases s@.len() - from,
    {
        assert(s@.skip(from as int).skip(1) =~= s@.skip(from + 1));
        from = from + 1;
    }
    let ghost rest = s@.skip(from as int);
    assert(trimmed_start(s@) == rest);
    let mut to: usize = s.len();
    assert(s@.subrange(from as int, to as int) =~= rest);
    while to > from && check_space(s[to - 1])
        invariant
            from <= to <= s@.len(),
            trimmed_end(s@.subrange(from as int, to as int)) == trimmed_end(rest),
        decreases to,
    {
        assert(s@.subrange(from as int, to as int).drop_last() =~= s@.subrange(
            from as int,
            to - 1,
        ));
        to = to - 1;
    }
    slice(s, from, to)
}

/// The characters without the `c`s they end with.
pub fn trim_end_of(s: &[char], c: char) -> (res: Vec<char>)
    ensures
        res@ == trimmed_end_of(s@, c),
{
    let mut to: usize = s.len();
    assert(s@.subrange(0, to as int) =~= s@);
    while to > 0 && s[to - 1] == c
        invariant
            to <= s@.len(),
            trimmed_end_of(s@.subrange(0, to as int), c) == trimmed_end_of(s@, c),
        decreases to,
    {
        assert(s@.subrange(0, to as int).drop_last() =~= s@.subrange(0, to - 1));
        to = to - 1;
    }
    slice(s, 0, to)
}

/// What is left has nothing to trim, and is a prefix of the text.
pub proof fn lemma_trimmed_end_of(s: Seq<char>, c: char)
    ensures
        trimmed_end_of(s, c).len() <= s.len(),
        trimmed_end_of(s, c) == s.take(trimmed_end_of(s, c).len() as int),
        trimmed_end_of(s, c).len() > 0 ==> trimmed_end_of(s, c).last() != c,
    decreases s.len(),
{
    if s.len() > 0 && s.last() == c {
        lemma_trimmed_end_of(s.drop_last(), c);
        assert(s.drop_last().take(trimmed_end_of(s, c).len() as int) =~= s.take(
            trimmed_end_of(s, c).len() as int,
        ));
    } else {
        assert(s.take(s.len() as int) =~= s);
    }
}

/// Whether `s` starts with `prefix`.
pub open spec fn has_prefix(s: Seq<char>, prefix: Seq<char>) -> bool {
    s.len() >= prefix.len() && s.take(prefix.len() as int) == prefix
}

/// Whether `s` ends with `suffix`.
pub open spec fn has_suffix(s: Seq<char>, suffix: Seq<char>) -> bool {
    s.len() >= suffix.len() && s.skip(s.len() - suffix.len()) == suffix
}

/// Whether the characters start with `prefix`.
pub fn starts_with(s: &[char], prefix: &[char]) -> (res: bool)
    ensures
        res == has_prefix(s@, prefix@),
{
    s.len() >= prefix.len() && same_chars(&slice(s, 0, prefix.len()), prefix)
}

/// Whether the characters end with `suffix`.
pub fn ends_with(s: &[char], suffix: &[char]) -> (res: bool)
    ensures
        res == has_suffix(s@, suffix@),
{
    if s.len() < suffix.len() {
        return false;
    }
    let tail: Vec<char> = slice(s, s.len() - suffix.len(), s.len());
    assert(tail@ =~= s@.skip(s@.len() - suffix@.len()));
    same_chars(&tail, suffix)
}

/// Whether `part` occurs in `s`.
pub open spec fn has_part(s: Seq<char>, part: Seq<char>) -> bool {
    exists|i: int| 0 <= i && i + part.len() <= s.len() && #[trigger] s.subrange(i, i + part.len())
        == part
}

/// Whether `part` occurs in the characters.
pub fn contains(s: &[char], part: &[char]) -> (res: bool)
    ensures
        res == has_part(s@, part@),
{
    if part.len() > s.len() {
        return false;
    }
    let last: usize = s.len() - part.len();
    let mut i: usize = 0;
    while i <= last
        invariant
            last == s@.len() - part@.len(),
            i <= last + 1,
            s@.len() <= usize::MAX,
            forall|j: int|
                0 <= j < i ==> #[trigger] s@.subrange(j, j + part@.len()) != part@,
        decreases last + 1 - i,
    {
        if same_chars(&slice(s, i, i + part.len()), part) {
            assert(s@.subrange(i as int, i + part@.len()) == part@);
            return true;
        }
        if i == last {
            return false;
        }
        i = i + 1;
    }
    false
}

/// The first place of `c`, or the length of `s` when it does not occur.
pub open spec fn first_of(s: Seq<char>, c: char) -> int
    decreases s.len(),
{
    if s.len() == 0 || s[0] == c {
        0
    } else {
        1 + first_of(s.skip(1), c)
    }
}

/// What `first_of` means: `c` stands there and nowhere before.
pub proof fn lemma_first_of(s: Seq<char>, c: char)
    ensures
        0 <= first_of(s, c) <= s.len(),
        forall|i: int| 0 <= i < first_of(s, c) ==> s[i] != c,
        first_of(s, c) < s.len() ==> s[first_of(s, c)] == c,
        s.contains(c) <==> first_of(s, c) < s.len(),
    decreases s.len(),
{
    if s.len() > 0 && s[0] != c {
        lemma_first_of(s.skip(1), c);
        assert forall|i: int| 0 <= i < first_of(s, c) implies s[i] != c by {
            if i > 0 {
                assert(s[i] == s.skip(1)[i - 1]);
            }
        }
        if s.contains(c) {
            let i = choose|i: int| 0 <= i < s.len() && s[i] == c;
            assert(s.skip(1)[i - 1] == c);
        }
        if first_of(s, c) < s.len() {
            assert(s.skip(1)[first_of(s, c) - 1] == s[first_of(s, c)]);
        }
    }
}

/// The place is the first one when `c` stands there and nowhere before.
pub proof fn lemma_first_of_is(s: Seq<char>, c: char, at: int)
    requires
        0 <= at <= s.len(),
        forall|i: int| 0 <= i < at ==> s[i] != c,
        at < s.len() ==> s[at] == c,
    ensures
        first_of(s, c) == at,
{
    lemma_first_of(s, c);
}

/// The first place of `c`.
pub fn find(s: &[char], c: char) -> (res: Option<usize>)
    ensures
        res is Some <==> s@.contains(c),
        res matches Some(i) ==> i == first_of(s@, c) && i < s@.len(),
        res is None ==> first_of(s@, c) == s@.len(),
{
    let mut i: usize = 0;
    while i < s.len()
        invariant
            i <= s@.len(),
            forall|j: int| 0 <= j < i ==> s@[j] != c,
        decreases s@.len() - i,
    {
        if s[i] == c {
            proof {
                lemma_first_of_is(s@, c, i as int);
            }
            return Some(i);
        }
        i = i + 1;
    }
    proof {
        lemma_first_of_is(s@, c, i as int);
    }
    None
}

/// The last place of `c`, or -1 when it does not occur.
pub open spec fn last_of(s: Seq<char>, c: char) -> int
    decreases s.len(),
{
    if s.len() == 0 {
        -1
    } else if s.last() == c {
        s.len() - 1
    } else {
        last_of(s.drop_last(), c)
    }
}

/// The last place of `c`.
pub fn rfind(s: &[char], c: char) -> (res: Option<usize>)
    ensures
        res is Some <==> last_of(s@, c) >= 0,
        res matches Some(i) ==> i == last_of(s@, c) && i < s@.len() && s@[i as int] == c,
        res is None ==> last_of(s@, c) == -1,
{
    let mut i: usize = s.len();
    assert(s@.take(s@.len() as int) =~= s@);
    while i > 0
        invariant
            i <= s@.len(),
            last_of(s@.take(i as int), c) == last_of(s@, c),
        decreases i,
    {
        if s[i - 1] == c {
            return Some(i - 1);
        }
        assert(s@.take(i as int).drop_last() =~= s@.take(i - 1));
        i = i - 1;
    }
    None
}

/// The fields of `s` between the separators `c`; a text without one is its only field.
pub open spec fn fields(s: Seq<char>, c: char) -> Seq<Seq<char>>
    decreases s.len(),
{
    if s.len() == 0 {
        seq![Seq::empty()]
    } else {
        let before = fields(s.drop_last(), c);
        if s.last() == c {
            before.push(Seq::empty())
        } else {
            before.drop_last().push(before.last().push(s.last()))
        }
    }
}

/// There is always a field.
pub proof fn lemma_fields_nonempty(s: Seq<char>, c: char)
    ensures
        fields(s, c).len() > 0,
    decreases s.len(),
{
    if s.len() > 0 {
        lemma_fields_nonempty(s.drop_last(), c);
    }
}

/// The first `n` texts with the separators `c` between them.
pub open spec fn joined(list: Seq<Seq<char>>, c: char, n: int) -> Seq<char>
    decreases n,
{
    if n <= 0 {
        Seq::empty()
    } else if n == 1 {
        list[0]
    } else {
        joined(list, c, n - 1) + seq![c] + list[n - 1]
    }
}

proof fn lemma_joined_agree(a: Seq<Seq<char>>, b: Seq<Seq<char>>, c: char, n: int)
    requires
        forall|i: int| 0 <= i < n ==> a[i] == b[i],
    ensures
        joined(a, c, n) == joined(b, c, n),
    decreases n,
{
    if n > 1 {
        lemma_joined_agree(a, b, c, n - 1);
    }
}

/// A text without the separator is one field.
pub proof fn lemma_one_field(s: Seq<char>, c: char)
    requires
        forall|i: int| 0 <= i < s.len() ==> s[i] != c,
    ensures
        fields(s, c) == seq![s],
    decreases s.len(),
{
    if s.len() > 0 {
        lemma_one_field(s.drop_last(), c);
        assert(s.drop_last().push(s.last()) =~= s);
        assert(s[s.len() - 1] != c);
    } else {
        assert(s =~= Seq::empty());
    }
    assert(fields(s, c) =~= seq![s]);
}

/// What stands behind the last separator is the last field.
pub proof fn lemma_last_field(head: Seq<char>, c: char, tail: Seq<char>)
    requires
        forall|i: int| 0 <= i < tail.len() ==> tail[i] != c,
    ensures
        fields(head + seq![c] + tail, c) == fields(head, c).push(tail),
    decreases tail.len(),
{
    let s = head + seq![c] + tail;
    if tail.len() == 0 {
        assert(s.drop_last() =~= head);
        assert(tail =~= Seq::empty());
        assert(s.last() == c);
    } else {
        lemma_last_field(head, c, tail.drop_last());
        assert(s.drop_last() =~= head + seq![c] + tail.drop_last());
        assert(tail.drop_last().push(tail.last()) =~= tail);
        assert(s.last() == tail[tail.len() - 1]);
        assert(fields(s, c) =~= fields(head, c).push(tail));
    }
}

/// Joining the fields of a text gives it back.
pub proof fn law_fields_join(s: Seq<char>, c: char)
    ensures
        joined(fields(s, c), c, fields(s, c).len() as int) == s,
    decreases s.len(),
{
    if s.len() > 0 {
        let before = fields(s.drop_last(), c);
        let all = fields(s, c);
        let m = before.len() as int;
        lemma_fields_nonempty(s.drop_last(), c);
        law_fields_join(s.drop_last(), c);
        if s.last() == c {
            lemma_joined_agree(before, all, c, m);
            assert(joined(all, c, m + 1) =~= s.drop_last() + seq![c] + Seq::<char>::empty());
            assert(s =~= s.drop_last() + seq![c] + Seq::<char>::empty());
        } else {
            lemma_joined_agree(before, all, c, m - 1);
            assert(all[m - 1] == before[m - 1].push(s.last()));
            assert(joined(all, c, m) =~= joined(before, c, m).push(s.last()));
            assert(s =~= s.drop_last().push(s.last()));
        }
    } else {
        assert(fields(s, c).len() == 1);
        assert(joined(fields(s, c), c, 1) =~= s);
    }
}

/// The views of a list of character vectors.
pub open spec fn views(v: Seq<Vec<char>>) -> Seq<Seq<char>> {
    v.map_values(|x: Vec<char>| x@)
}

/// The views of a list of strings.
pub open spec fn string_views(v: Seq<String>) -> Seq<Seq<char>> {
    v.map_values(|x: String| x@)
}

/// Cuts the characters into fields at each `c`.
pub fn split(s: &[char], c: char) -> (res: Vec<Vec<char>>)
    ensures
        views(res@) == fields(s@, c),
{
    let mut done: Vec<Vec<char>> = Vec::new();
    let mut current: Vec<char> = Vec::new();
    let mut i: usize = 0;
    assert(views(done@).push(current@) =~= seq![Seq::<char>::empty()]);
    while i < s.len()
        invariant
            i <= s@.len(),
            views(done@).push(current@) == fields(s@.take(i as int), c),
        decreases s@.len() - i,
    {
        let ghost before = fields(s@.take(i as int), c);
        assert(s@.take(i + 1).drop_last() =~= s@.take(i as int));
        assert(s@.take(i + 1).last() == s@[i as int]);
        assert(before.last() == current@);
        assert(before.drop_last() =~= views(done@));
        if s[i] == c {
            let ghost held = done@;
            done.push(current);
            assert(views(done@) =~= views(held).push(held.push(current).last()@));
            current = Vec::new();
            assert(views(done@).push(current@) =~= before.push(Seq::empty()));
        } else {
            current.push(s[i]);
            assert(views(done@).push(current@) =~= before.drop_last().push(
                before.last().push(s@[i as int]),
            ));
        }
        i = i + 1;
    }
    assert(s@.take(i as int) =~= s@);
    let ghost held = done@;
    let ghost last = current@;
    done.push(current);
    assert(views(done@) =~= views(held).push(last));
    done
}

/// The value of a decimal digit.
pub open spec fn digit(c: char) -> int {
    c as int - '0' as int
}

/// Whether every character is a decimal digit and there is one.
pub open spec fn all_digits(s: Seq<char>) -> bool {
    s.len() > 0 && forall|i: int| 0 <= i < s.len() ==> '0' <= #[trigger] s[i] <= '9'
}

/// The value of a row of decimal digits.
pub open spec fn decimal(s: Seq<char>) -> int
    decreases s.len(),
{
    if s.len() == 0 {
        0
    } else {
        decimal(s.drop_last()) * 10 + digit(s.last())
    }
}

/// Digits never make a negative value.
proof fn lemma_decimal_nonneg(s: Seq<char>)
    requires
        forall|i: int| 0 <= i < s.len() ==> '0' <= #[trigger] s[i] <= '9',
    ensures
        decimal(s) >= 0,
    decreases s.len(),
{
    if s.len() > 0 {
        lemma_decimal_nonneg(s.drop_last());
        assert('0' <= s[s.len() - 1] <= '9');
    }
}

/// More digits never make a smaller value.
proof fn lemma_decimal_grows(s: Seq<char>, i: int)
    requires
        forall|j: int| 0 <= j < s.len() ==> '0' <= #[trigger] s[j] <= '9',
        0 <= i <= s.len(),
    ensures
        decimal(s.take(i)) <= decimal(s),
    decreases s.len(),
{
    if i == s.len() {
        assert(s.take(i) =~= s);
    } else {
        lemma_decimal_grows(s.drop_last(), i);
        lemma_decimal_nonneg(s.drop_last());
        assert(s.drop_last().take(i) =~= s.take(i));
        assert('0' <= s[s.len() - 1] <= '9');
    }
}

/// The number that `s` writes: decimal digits behind an optional plus sign, at most `max`.
pub open spec fn number(s: Seq<char>, max: int) -> Option<int> {
    let digits = if s.len() > 0 && s[0] == '+' {
        s.skip(1)
    } else {
        s
    };
    if all_digits(digits) && decimal(digits) <= max {
        Some(decimal(digits))
    } else {
        None
    }
}

/// Reads a row of decimal digits of value at most `max`.
pub fn parse_digits(s: &[char], max: u64) -> (res: Option<u64>)
    ensures
        res is Some <==> all_digits(s@) && decimal(s@) <= max,
        res matches Some(n) ==> n == decimal(s@),
{
    if s.len() == 0 {
        return None;
    }
    let mut value: u128 = 0;
    let mut over: bool = false;
    let mut i: usize = 0;
    while i < s.len()
        invariant
            i <= s@.len(),
            forall|j: int| 0 <= j < i ==> '0' <= #[trigger] s@[j] <= '9',
            !over ==> value == decimal(s@.take(i as int)) && value <= max,
            over ==> exists|j: int| 0 <= j <= i && #[trigger] decimal(s@.take(j)) > max,
        decreases s@.len() - i,
    {
        let c: char = s[i];
        if c < '0' || c > '9' {
            return None;
        }
        assert(s@.take(i + 1).drop_last() =~= s@.take(i as int));
        if !over {
            value = value * 10 + (c as u128 - '0' as u128);
            if value > max as u128 {
                over = true;
                assert(decimal(s@.take(i + 1)) > max);
            }
        }
        i = i + 1;
    }
    assert(s@.take(i as int) =~= s@);
    assert(all_digits(s@));
    if over {
        proof {
            let j = choose|j: int| 0 <= j <= i && #[trigger] decimal(s@.take(j)) > max;
            lemma_decimal_grows(s@, j);
        }
        None
    } else {
        Some(value as u64)
    }
}

/// Reads an unsigned number of value at most `max`.
pub fn parse_number(s: &[char], max: u64) -> (res: Option<u64>)
    ensures
        res is Some <==> number(s@, max as int) is Some,
        res matches Some(n) ==> number(s@, max as int) == Some(n as int),
{
    if s.len() > 0 && s[0] == '+' {
        let rest: Vec<char> = slice(s, 1, s.len());
        assert(rest@ =~= s@.skip(1));
        parse_digits(&rest, max)
    } else {
        parse_digits(s, max)
    }
}

/// Appends the characters of `more`.
pub fn append(s: &mut Vec<char>, more: &[char])
    ensures
        final(s)@ == old(s)@ + more@,
{
    let mut i: usize = 0;
    while i < more.len()
        invariant
            i <= more@.len(),
            s@ == old(s)@ + more@.take(i as int),
        decreases more@.len() - i,
    {
        s.push(more[i]);
        i = i + 1;
    }
    assert(more@.take(i as int) == more@);
}

/// One string behind the other.
pub fn concat(a: &str, b: &str) -> (res: String)
    ensures
        res@ == a@ + b@,
{
    let mut res: Vec<char> = chars(a);
    append(&mut res, &chars(b));
    text(&res)
}

/// Whether `list` holds a string with the characters of `item`.
pub fn list_contains(list: &Vec<String>, item: &str) -> (res: bool)
    ensures
        res == string_views(list@).contains(item@),
{
    let mut i: usize = 0;
    while i < list.len()
        invariant
            i <= list@.len(),
            forall|j: int| 0 <= j < i ==> #[trigger] string_views(list@)[j] != item@,
        decreases list@.len() - i,
    {
        if same(list[i].as_str(), item) {
            assert(string_views(list@)[i as int] == item@);
            return true;
        }
        i = i + 1;
    }
    false
}

/// Where the characters at the start that are no white space end.
pub open spec fn run_end(s: Seq<char>) -> int
    decreases s.len(),
{
    if s.len() == 0 || is_space(s[0]) {
        0
    } else {
        1 + run_end(s.skip(1))
    }
}

/// The runs of characters that are no white space.
pub open spec fn words(s: Seq<char>) -> Seq<Seq<char>>
    decreases s.len(),
{
    if s.len() == 0 {
        Seq::empty()
    } else if is_space(s[0]) {
        words(s.skip(1))
    } else if run_end(s) <= 0 || run_end(s) > s.len() {
        Seq::empty()
    } else {
        seq![s.take(run_end(s))] + words(s.skip(run_end(s)))
    }
}

proof fn lemma_run_end(s: Seq<char>)
    ensures
        0 <= run_end(s) <= s.len(),
        s.len() > 0 && !is_space(s[0]) ==> run_end(s) > 0,
    decreases s.len(),
{
    if s.len() > 0 && !is_space(s[0]) {
        lemma_run_end(s.skip(1));
    }
}

/// The runs of characters that are no white space.
pub fn split_words(s: &[char]) -> (res: Vec<Vec<char>>)
    ensures
        views(res@) == words(s@),
{
    let mut res: Vec<Vec<char>> = Vec::new();
    let mut i: usize = 0;
    assert(s@.skip(0) =~= s@);
    assert(views(res@) + words(s@) =~= words(s@));
    while i < s.len()
        invariant
            i <= s@.len(),
            views(res@) + words(s@.skip(i as int)) == words(s@),
        decreases s@.len() - i,
    {
        let ghost rest = s@.skip(i as int);
        if check_space(s[i]) {
            assert(rest.skip(1) =~= s@.skip(i + 1));
            i = i + 1;
        } else {
            let start: usize = i;
            while i < s.len() && !check_space(s[i])
                invariant
                    start <= i <= s@.len(),
                    run_end(s@.skip(start as int)) == i - start + run_end(s@.skip(i as int)),
                decreases s@.len() - i,
            {
                assert(s@.skip(i as int).skip(1) =~= s@.skip(i + 1));
                i = i + 1;
            }
            proof {
                lemma_run_end(rest);
            }
            let ghost before = res@;
            let word: Vec<char> = slice(s, start, i);
            assert(word@ =~= rest.take(run_end(rest)));
            assert(rest.skip(run_end(rest)) =~= s@.skip(i as int));
            res.push(word);
            assert(views(res@) =~= views(before).push(word@));
            assert(views(before) + (seq![word@] + words(s@.skip(i as int))) =~= views(res@) + words(
                s@.skip(i as int),
            ));
        }
    }
    assert(views(res@) + words(s@.skip(i as int)) =~= views(res@));
    res
}

/// The digit of value `d`.
pub open spec fn digit_char(d: nat) -> char {
    ((48 + d) as u8) as char
}

/// How a number is written: decimal digits, no leading zero.
pub open spec fn number_text(n: nat) -> Seq<char>
    decreases n,
{
    if n < 10 {
        seq![digit_char(n)]
    } else {
        number_text(n / 10).push(digit_char(n % 10))
    }
}

/// Writes a number.
pub fn write_number(n: u64) -> (res: Vec<char>)
    ensures
        res@ == number_text(n as nat),
    decreases n,
{
    let last: char = (48 + (n % 10) as u8) as char;
    let mut res: Vec<char> = if n < 10 {
        Vec::new()
    } else {
        write_number(n / 10)
    };
    res.push(last);
    assert(n < 10 ==> res@ =~= seq![digit_char(n as nat)]);
    res
}

proof fn lemma_digit_char(d: nat)
    requires
        d < 10,
    ensures
        '0' <= digit_char(d) <= '9',
        digit(digit_char(d)) == d,
{
}

/// Reading a written number gives it back.
pub proof fn law_number_read_back(n: nat)
    ensures
        all_digits(number_text(n)),
        decimal(number_text(n)) == n,
    decreases n,
{
    if n < 10 {
        lemma_digit_char(n);
        assert(number_text(n).drop_last() =~= Seq::empty());
        assert(decimal(number_text(n).drop_last()) == 0);
    } else {
        law_number_read_back(n / 10);
        lemma_digit_char(n % 10);
        assert(number_text(n).drop_last() =~= number_text(n / 10));
    }
}

/// Whether two lists hold the same texts in the same order.
pub fn same_list(a: &Vec<String>, b: &Vec<String>) -> (res: bool)
    ensures
        res == (string_views(a@) == string_views(b@)),
{
    assert(string_views(a@).len() == a@.len() && string_views(b@).len() == b@.len());
    if a.len() != b.len() {
        return false;
    }
    let mut i: usize = 0;
    while i < a.len()
        invariant
            i <= a@.len(),
            a@.len() == b@.len(),
            forall|k: int| 0 <= k < i ==> (#[trigger] a@[k])@ == b@[k]@,
        decreases a@.len() - i,
    {
        if !same(a[i].as_str(), b[i].as_str()) {
            assert(string_views(a@)[i as int] != string_views(b@)[i as int]);
            return false;
        }
        i = i + 1;
    }
    assert(string_views(a@) =~= string_views(b@));
    true
}

/// A copy of a list of strings.
pub fn copy_list(list: &Vec<String>) -> (res: Vec<String>)
    ensures
        string_views(res@) == string_views(list@),
{
    let mut res: Vec<String> = Vec::new();
    let mut i: usize = 0;
    while i < list.len()
        invariant
            i <= list@.len(),
            string_views(res@) == string_views(list@.take(i as int)),
        decreases list@.len() - i,
    {
        let ghost before = res@;
        res.push(list[i].clone());
        assert(string_views(res@) =~= string_views(before).push(list@[i as int]@));
        assert(string_views(list@.take(i + 1)) =~= string_views(list@.take(i as int)).push(
            list@[i as int]@,
        ));
        i = i + 1;
    }
    assert(list@.take(i as int) =~= list@);
    res
}

/// The characters of an optional string.
pub open spec fn opt_view(s: Option<String>) -> Option<Seq<char>> {
    match s {
        Some(t) => Some(t@),
        None => None,
    }
}

/// A copy of an optional string.
pub fn copy_opt(s: &Option<String>) -> (res: Option<String>)
    ensures
        opt_view(res) == opt_view(*s),
{
    match s {
        Some(t) => Some(t.clone()),
        None => None,
    }
}

/// A text in lower case.
pub uninterp spec fn lowered(s: Seq<char>) -> Seq<char>;

/// [`str::to_lowercase`]: the text in lower case, as Unicode defines it. What it gives is a function
/// of the text alone and is called `lowered`.
#[verifier::external_body]
pub(crate) fn to_lowercase(s: &str) -> (res: String)
    ensures
        res@ == lowered(s@),
{
    s.to_lowercase()
}

/// A text in upper case.
pub uninterp spec fn raised(s: Seq<char>) -> Seq<char>;

/// [`str::to_uppercase`]: the text in upper case, as Unicode defines it. What it gives is a function
/// of the text alone and is called `raised`.
#[verifier::external_body]
pub(crate) fn to_uppercase(s: &str) -> (res: String)
    ensures
        res@ == raised(s@),
{
    s.to_uppercase()
}

/// What is left of a text without the white space around it is the text between that space: only
/// white space was taken away, and it neither starts nor ends with any.
pub proof fn law_trimmed_is_the_middle(s: Seq<char>) -> (r: (int, int))
    ensures
        0 <= r.0 <= r.1 <= s.len(),
        trimmed(s) == s.subrange(r.0, r.1),
        forall|i: int| 0 <= i < r.0 || r.1 <= i < s.len() ==> is_space(#[trigger] s[i]),
        r.0 < r.1 ==> !is_space(s[r.0]) && !is_space(s[r.1 - 1]),
{
    let from = lemma_trimmed_start(s);
    let to = lemma_trimmed_end(s.skip(from));
    assert(s.skip(from).take(to) =~= s.subrange(from, from + to));
    assert forall|i: int| from + to <= i < s.len() implies is_space(#[trigger] s[i]) by {
        assert(s.skip(from)[i - from] == s[i]);
    }
    if to > 0 {
        assert(s.skip(from)[0] == s[from]);
        assert(s.skip(from)[to - 1] == s[from + to - 1]);
    }
    (from, from + to)
}

proof fn lemma_trimmed_start(s: Seq<char>) -> (from: int)
    ensures
        0 <= from <= s.len(),
        trimmed_start(s) == s.skip(from),
        forall|i: int| 0 <= i < from ==> is_space(#[trigger] s[i]),
        from < s.len() ==> !is_space(s[from]),
    decreases s.len(),
{
    if s.len() > 0 && is_space(s[0]) {
        let rest = lemma_trimmed_start(s.skip(1));
        assert(s.skip(1).skip(rest) =~= s.skip(rest + 1));
        assert forall|i: int| 0 <= i < rest + 1 implies is_space(#[trigger] s[i]) by {
            if i > 0 {
                assert(s.skip(1)[i - 1] == s[i]);
            }
        }
        if rest + 1 < s.len() {
            assert(s.skip(1)[rest] == s[rest + 1]);
        }
        rest + 1
    } else {
        assert(s.skip(0) =~= s);
        0
    }
}

proof fn lemma_trimmed_end(s: Seq<char>) -> (to: int)
    ensures
        0 <= to <= s.len(),
        trimmed_end(s) == s.take(to),
        forall|i: int| to <= i < s.len() ==> is_space(#[trigger] s[i]),
        to > 0 ==> !is_space(s[to - 1]),
    decreases s.len(),
{
    if s.len() > 0 && is_space(s.last()) {
        let to = lemma_trimmed_end(s.drop_last());
        assert(s.drop_last().take(to) =~= s.take(to));
        assert forall|i: int| to <= i < s.len() implies is_space(#[trigger] s[i]) by {
            if i < s.len() - 1 {
                assert(s.drop_last()[i] == s[i]);
            }
        }
        if to > 0 {
            assert(s.drop_last()[to - 1] == s[to - 1]);
        }
        to
    } else {
        assert(s.take(s.len() as int) =~= s);
        s.len() as int
    }
}

/// Two texts with a separator between them have the fields of the one and then those of the other.
pub proof fn law_fields_add_up(a: Seq<char>, c: char, b: Seq<char>)
    ensures
        fields(a + seq![c] + b, c) == fields(a, c) + fields(b, c),
    decreases b.len(),
{
    let s = a + seq![c] + b;
    lemma_fields_nonempty(a, c);
    if b.len() == 0 {
        assert(s.drop_last() =~= a);
        assert(fields(a, c).push(Seq::empty()) =~= fields(a, c) + fields(b, c));
    } else {
        let short = b.drop_last();
        law_fields_add_up(a, c, short);
        lemma_fields_nonempty(short, c);
        assert(s.drop_last() =~= a + seq![c] + short);
        assert(s.last() == b.last());
        let before = fields(a, c) + fields(short, c);
        if b.last() == c {
            assert(before.push(Seq::empty()) =~= fields(a, c) + fields(short, c).push(
                Seq::empty(),
            ));
        } else {
            assert(before.last() == fields(short, c).last());
            assert(before.drop_last().push(before.last().push(b.last())) =~= fields(a, c) + fields(
                short,
                c,
            ).drop_last().push(fields(short, c).last().push(b.last())));
        }
    }
}

/// Two texts with white space between them have the words of the one and then those of the other. A
/// text without white space is one word.
pub proof fn law_words_add_up(a: Seq<char>, c: char, b: Seq<char>)
    requires
        is_space(c),
    ensures
        words(a + seq![c] + b) == words(a) + words(b),
    decreases a.len(),
{
    let s = a + seq![c] + b;
    if a.len() == 0 {
        assert(s.skip(1) =~= b);
        assert(words(a) + words(b) =~= words(b));
    } else if is_space(a[0]) {
        assert(s.skip(1) =~= a.skip(1) + seq![c] + b);
        law_words_add_up(a.skip(1), c, b);
    } else {
        let end = run_end(a);
        lemma_run_end(a);
        lemma_run_end(s);
        lemma_run_end_before(a, seq![c] + b);
        assert(a + (seq![c] + b) =~= s);
        assert(end > 0);
        assert(s.take(end) =~= a.take(end));
        assert(s.skip(end) =~= a.skip(end) + seq![c] + b);
        law_words_add_up(a.skip(end), c, b);
        assert(seq![a.take(end)] + (words(a.skip(end)) + words(b)) =~= seq![a.take(end)] + words(
            a.skip(end),
        ) + words(b));
    }
}

proof fn lemma_run_end_before(a: Seq<char>, b: Seq<char>)
    requires
        b.len() > 0,
        is_space(b[0]),
    ensures
        run_end(a + b) == run_end(a),
    decreases a.len(),
{
    if a.len() == 0 {
        assert(a + b =~= b);
    } else if !is_space(a[0]) {
        assert((a + b).skip(1) =~= a.skip(1) + b);
        lemma_run_end_before(a.skip(1), b);
    }
}

/// A text without white space is one word, and no word where it is empty.
pub proof fn law_one_word(s: Seq<char>)
    requires
        forall|i: int| 0 <= i < s.len() ==> !is_space(#[trigger] s[i]),
    ensures
        s.len() > 0 ==> words(s) == seq![s],
        s.len() == 0 ==> words(s).len() == 0,
{
    if s.len() > 0 {
        lemma_run_all(s);
        assert(s.take(s.len() as int) =~= s);
        assert(words(s.skip(s.len() as int)).len() == 0);
        assert(seq![s] + words(s.skip(s.len() as int)) =~= seq![s]);
    }
}

proof fn lemma_run_all(s: Seq<char>)
    requires
        forall|i: int| 0 <= i < s.len() ==> !is_space(#[trigger] s[i]),
    ensures
        run_end(s) == s.len(),
    decreases s.len(),
{
    if s.len() > 0 {
        assert forall|i: int| 0 <= i < s.len() - 1 implies !is_space(#[trigger] s.skip(1)[i]) by {
            assert(s.skip(1)[i] == s[i + 1]);
        }
        lemma_run_all(s.skip(1));
    }
}

/// The last place of a character is one where it stands, with none behind it; a character that does
/// not occur has none.
pub proof fn law_last_place(s: Seq<char>, c: char)
    ensures
        last_of(s, c) == -1 <==> !s.contains(c),
        last_of(s, c) >= 0 ==> last_of(s, c) < s.len() && s[last_of(s, c)] == c,
        forall|i: int| last_of(s, c) < i < s.len() ==> #[trigger] s[i] != c,
    decreases s.len(),
{
    if s.len() > 0 {
        if s.last() == c {
            assert(s[s.len() - 1] == c);
        } else {
            let short = s.drop_last();
            law_last_place(short, c);
            assert forall|i: int| last_of(s, c) < i < s.len() implies #[trigger] s[i] != c by {
                if i < s.len() - 1 {
                    assert(short[i] == s[i]);
                }
            }
            if s.contains(c) {
                let k = choose|k: int| 0 <= k < s.len() && s[k] == c;
                assert(short[k] == c);
            }
            if short.contains(c) {
                let k = choose|k: int| 0 <= k < short.len() && short[k] == c;
                assert(s[k] == c);
            }
        }
    }
}

/// Lower case has no capital letter and is its own lower case; whatever is no capital letter stays.
pub proof fn law_lower_case(c: char)
    ensures
        !('A' <= ascii_lower(c) <= 'Z'),
        ascii_lower(ascii_lower(c)) == ascii_lower(c),
        !('A' <= c <= 'Z') ==> ascii_lower(c) == c,
        'A' <= c <= 'Z' ==> 'a' <= ascii_lower(c) <= 'z' && ascii_lower(c) as u32 - 'a' as u32 == c as u32
            - 'A' as u32,
{
}

} // verus!
