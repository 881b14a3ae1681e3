//! Ordering of proxy groups by their dependencies.
use std::collections::VecDeque;

use vstd::prelude::*;

use crate::error::{debug_list, Error};
use crate::text;

verus! {

/// A group that chains its proxies.
#[derive(Debug, Default)]
pub struct OutboundGroupRelay {
    pub name: String,
    pub proxies: Option<Vec<String>>,
}

/// A group that uses the fastest of its proxies.
#[derive(Debug, Default)]
pub struct OutboundGroupUrlTest {
    pub name: String,
    pub proxies: Option<Vec<String>>,
}

/// A group that uses the first of its proxies that works.
#[derive(Debug, Default)]
pub struct OutboundGroupFallback {
    pub name: String,
    pub proxies: Option<Vec<String>>,
}

/// A group that spreads its load over its proxies.
#[derive(Debug, Default)]
pub struct OutboundGroupLoadBalance {
    pub name: String,
    pub proxies: Option<Vec<String>>,
}

/// A group that learns which of its proxies to use.
#[derive(Debug, Default)]
pub struct OutboundGroupSmart {
    pub name: String,
    pub proxies: Option<Vec<String>>,
}

/// A group whose proxy the user selects.
#[derive(Debug, Default)]
pub struct OutboundGroupSelect {
    pub name: String,
    pub proxies: Option<Vec<String>>,
}

/// A proxy group of any kind.
#[derive(Debug)]
pub enum OutboundGroupProtocol {
    Relay(OutboundGroupRelay),
    UrlTest(OutboundGroupUrlTest),
    Fallback(OutboundGroupFallback),
    LoadBalance(OutboundGroupLoadBalance),
    Smart(OutboundGroupSmart),
    Select(OutboundGroupSelect),
}

impl OutboundGroupProtocol {
    /// The group's name.
    pub open spec fn name_spec(&self) -> Seq<char> {
        match self {
            OutboundGroupProtocol::Relay(g) => g.name@,
            OutboundGroupProtocol::UrlTest(g) => g.name@,
            OutboundGroupProtocol::Fallback(g) => g.name@,
            OutboundGroupProtocol::LoadBalance(g) => g.name@,
            OutboundGroupProtocol::Smart(g) => g.name@,
            OutboundGroupProtocol::Select(g) => g.name@,
        }
    }

    /// The group's proxy list, if it has one.
    pub open spec fn proxies_field(&self) -> Option<Vec<String>> {
        match self {
            OutboundGroupProtocol::Relay(g) => g.proxies,
            OutboundGroupProtocol::UrlTest(g) => g.proxies,
            OutboundGroupProtocol::Fallback(g) => g.proxies,
            OutboundGroupProtocol::LoadBalance(g) => g.proxies,
            OutboundGroupProtocol::Smart(g) => g.proxies,
            OutboundGroupProtocol::Select(g) => g.proxies,
        }
    }

    /// The names of the group's proxies.
    pub open spec fn proxies_spec(&self) -> Seq<Seq<char>> {
        match self.proxies_field() {
            Some(list) => text::string_views(list@),
            None => Seq::empty(),
        }
    }

    /// The group's name.
    pub fn name(&self) -> (res: &str)
        ensures
            res@ == self.name_spec(),
    {
        match self {
            OutboundGroupProtocol::Relay(g) => g.name.as_str(),
            OutboundGroupProtocol::UrlTest(g) => g.name.as_str(),
            OutboundGroupProtocol::Fallback(g) => g.name.as_str(),
            OutboundGroupProtocol::LoadBalance(g) => g.name.as_str(),
            OutboundGroupProtocol::Smart(g) => g.name.as_str(),
            OutboundGroupProtocol::Select(g) => g.name.as_str(),
        }
    }

    /// The group's proxy list, if it has one.
    pub fn proxies(&self) -> (res: Option<&Vec<String>>)
        ensures
            res is Some <==> self.proxies_field() is Some,
            res matches Some(list) ==> *list == self.proxies_field().unwrap(),
    {
        match self {
            OutboundGroupProtocol::Relay(g) => g.proxies.as_ref(),
            OutboundGroupProtocol::UrlTest(g) => g.proxies.as_ref(),
            OutboundGroupProtocol::Fallback(g) => g.proxies.as_ref(),
            OutboundGroupProtocol::LoadBalance(g) => g.proxies.as_ref(),
            OutboundGroupProtocol::Smart(g) => g.proxies.as_ref(),
            OutboundGroupProtocol::Select(g) => g.proxies.as_ref(),
        }
    }
}

/// Group `j` lists group `i` among its proxies.
pub open spec fn depends(groups: Seq<OutboundGroupProtocol>, j: int, i: int) -> bool {
    groups[j].proxies_spec().contains(groups[i].name_spec())
}

/// No two groups share a name.
pub open spec fn names_distinct(groups: Seq<OutboundGroupProtocol>) -> bool {
    forall|a: int, b: int|
        0 <= a < b < groups.len() ==> #[trigger] groups[a].name_spec()
            != #[trigger] groups[b].name_spec()
}

/// Group `i` can be placed within `depth` steps: every group that it lists can be placed in fewer.
pub open spec fn settles(groups: Seq<OutboundGroupProtocol>, i: int, depth: nat) -> bool
    decreases depth,
{
    depth > 0 && forall|k: int|
        0 <= k < groups.len() && #[trigger] depends(groups, i, k) ==> settles(
            groups,
            k,
            (depth - 1) as nat,
        )
}

/// The names, in order, of the first `upto` groups that no number of steps places: those on a
/// cycle or behind one.
pub open spec fn looped(groups: Seq<OutboundGroupProtocol>, upto: int) -> Seq<Seq<char>>
    decreases upto,
{
    if upto <= 0 {
        Seq::empty()
    } else if settles(groups, upto - 1, groups.len()) {
        looped(groups, upto - 1)
    } else {
        looped(groups, upto - 1).push(groups[upto - 1].name_spec())
    }
}

/// The first group, from `from` on, whose name an earlier group has.
pub open spec fn first_duplicate(groups: Seq<OutboundGroupProtocol>, from: int) -> int
    decreases groups.len() - from,
{
    if from >= groups.len() {
        groups.len() as int
    } else if exists|a: int|
        0 <= a < from && #[trigger] groups[a].name_spec() == groups[from].name_spec() {
        from
    } else {
        first_duplicate(groups, from + 1)
    }
}

/// `after` holds the groups of `before`, each once.
pub open spec fn rearranged(
    before: Seq<OutboundGroupProtocol>,
    after: Seq<OutboundGroupProtocol>,
    order: Seq<int>,
) -> bool {
    &&& order.len() == before.len()
    &&& after.len() == before.len()
    &&& order.no_duplicates()
    &&& forall|k: int|
        #![trigger order[k]]
        #![trigger after[k]]
        0 <= k < order.len() ==> 0 <= order[k] < before.len() && after[k] == before[order[k]]
}

/// The last of the first `upto` places at which a group that group `x` lists stands; -1 where there
/// is none.
pub open spec fn last_listed(
    groups: Seq<OutboundGroupProtocol>,
    order: Seq<int>,
    x: int,
    upto: int,
) -> int
    decreases upto,
{
    if upto <= 0 {
        -1
    } else if depends(groups, x, order[upto - 1]) {
        upto - 1
    } else {
        last_listed(groups, order, x, upto - 1)
    }
}

/// The one group comes before the other, given where the last of the groups that each lists
/// stands: that place decides, and else which group came first.
pub open spec fn comes_before(last_a: int, a: int, last_b: int, b: int) -> bool {
    last_a < last_b || (last_a == last_b && a < b)
}

/// Groups stand in the order in which they can be placed: by the place of the last group that they
/// list, and else in the order in which they came.
pub open spec fn in_turn(groups: Seq<OutboundGroupProtocol>, order: Seq<int>, upto: int) -> bool {
    forall|p: int, q: int|
        #![trigger order[p], order[q]]
        0 <= p < q < order.len() ==> comes_before(
            last_listed(groups, order, order[p], upto),
            order[p],
            last_listed(groups, order, order[q], upto),
            order[q],
        )
}

/// `after` holds the groups of `before` in the order in which they can be placed.
pub open spec fn sorted_as(
    before: Seq<OutboundGroupProtocol>,
    after: Seq<OutboundGroupProtocol>,
    order: Seq<int>,
) -> bool {
    &&& rearranged(before, after, order)
    &&& in_turn(before, order, order.len() as int)
}

/// Every group stands behind the groups that it lists.
pub open spec fn dependencies_first(groups: Seq<OutboundGroupProtocol>) -> bool {
    forall|j: int, i: int|
        0 <= j < groups.len() && 0 <= i < groups.len() && #[trigger] depends(groups, j, i) ==> i
            < j
}

/// How often `x` occurs in `list` from `from` on.
spec fn occurrences(list: Seq<usize>, from: int, x: int) -> int
    decreases list.len() - from,
{
    if from < 0 || from >= list.len() {
        0
    } else {
        (if list[from] == x {
            1int
        } else {
            0
        }) + occurrences(list, from + 1, x)
    }
}

/// How often `x` occurs in the first `n` lists, each from its mark in `done` on.
spec fn total(adj: Seq<Vec<usize>>, done: Seq<int>, x: int, n: int) -> int
    decreases n,
{
    if n <= 0 {
        0
    } else {
        total(adj, done, x, n - 1) + occurrences(adj[n - 1]@, done[n - 1], x)
    }
}

proof fn lemma_occurrences(list: Seq<usize>, from: int, x: int)
    requires
        0 <= from,
    ensures
        occurrences(list, from, x) >= 0,
        occurrences(list, from, x) == 0 ==> forall|t: int|
            from <= t < list.len() ==> list[t] != x,
        occurrences(list, from, x) > 0 ==> exists|t: int| from <= t < list.len() && list[t] == x,
    decreases list.len() - from,
{
    if from < list.len() {
        lemma_occurrences(list, from + 1, x);
    }
}

proof fn lemma_occurrences_push(list: Seq<usize>, from: int, x: int, y: usize)
    requires
        0 <= from <= list.len(),
    ensures
        occurrences(list.push(y), from, x) == occurrences(list, from, x) + (if y == x {
            1int
        } else {
            0
        }),
    decreases list.len() - from,
{
    if from < list.len() {
        lemma_occurrences_push(list, from + 1, x, y);
    } else {
        assert(occurrences(list.push(y), from + 1, x) == 0);
    }
}

proof fn lemma_total(adj: Seq<Vec<usize>>, done: Seq<int>, x: int, n: int)
    requires
        0 <= n <= adj.len(),
        done.len() == adj.len(),
        forall|i: int| 0 <= i < n ==> 0 <= #[trigger] done[i],
    ensures
        total(adj, done, x, n) >= 0,
        total(adj, done, x, n) == 0 ==> forall|i: int, t: int|
            0 <= i < n && done[i] <= t < adj[i]@.len() ==> #[trigger] adj[i]@[t] != x,
        total(adj, done, x, n) > 0 ==> exists|i: int, t: int|
            0 <= i < n && done[i] <= t < adj[i]@.len() && #[trigger] adj[i]@[t] == x,
    decreases n,
{
    if n > 0 {
        lemma_total(adj, done, x, n - 1);
        lemma_occurrences(adj[n - 1]@, done[n - 1], x);
        if occurrences(adj[n - 1]@, done[n - 1], x) > 0 {
            let list = adj[n - 1]@;
            let t = choose|t: int| done[n - 1] <= t < list.len() && list[t] == x;
            assert(adj[n - 1]@[t] == x);
        }
    }
}

proof fn lemma_total_step(adj: Seq<Vec<usize>>, done: Seq<int>, x: int, n: int, u: int)
    requires
        0 <= n <= adj.len(),
        done.len() == adj.len(),
        0 <= u < adj.len(),
        0 <= done[u] < adj[u]@.len(),
    ensures
        total(adj, done.update(u, done[u] + 1), x, n) == total(adj, done, x, n) - (if u < n
            && adj[u]@[done[u]] == x {
            1int
        } else {
            0
        }),
    decreases n,
{
    if n > 0 {
        lemma_total_step(adj, done, x, n - 1, u);
    }
}

proof fn lemma_total_push(
    adj: Seq<Vec<usize>>,
    grown: Seq<Vec<usize>>,
    done: Seq<int>,
    x: int,
    n: int,
    u: int,
    y: usize,
)
    requires
        0 <= n <= adj.len(),
        done.len() == adj.len(),
        grown.len() == adj.len(),
        0 <= u < adj.len(),
        grown[u]@ == adj[u]@.push(y),
        forall|i: int| 0 <= i < adj.len() && i != u ==> grown[i] == adj[i],
        forall|i: int| 0 <= i < done.len() ==> #[trigger] done[i] == 0,
    ensures
        total(grown, done, x, n) == total(adj, done, x, n) + (if u < n && y == x {
            1int
        } else {
            0
        }),
    decreases n,
{
    if n > 0 {
        lemma_total_push(adj, grown, done, x, n - 1, u, y);
        if n - 1 == u {
            lemma_occurrences_push(adj[u]@, 0, x, y);
        }
    }
}

proof fn lemma_settles_grows(groups: Seq<OutboundGroupProtocol>, i: int, a: nat, b: nat)
    requires
        settles(groups, i, a),
        a <= b,
    ensures
        settles(groups, i, b),
    decreases a,
{
    assert forall|k: int|
        0 <= k < groups.len() && #[trigger] depends(groups, i, k) implies settles(
        groups,
        k,
        (b - 1) as nat,
    ) by {
        lemma_settles_grows(groups, k, (a - 1) as nat, (b - 1) as nat);
    }
}

/// A group with a row of earlier groups behind it settles in as many steps.
proof fn lemma_placed_settles(groups: Seq<OutboundGroupProtocol>, order: Seq<usize>, p: int)
    requires
        0 <= p < order.len(),
        forall|q: int| 0 <= q < order.len() ==> #[trigger] order[q] < groups.len(),
        forall|q: int, i: int|
            0 <= q < order.len() && 0 <= i < groups.len() && #[trigger] depends(
                groups,
                order[q] as int,
                i,
            ) ==> exists|r: int| 0 <= r < q && order[r] == i,
    ensures
        settles(groups, order[p] as int, (p + 1) as nat),
    decreases p,
{
    assert forall|k: int|
        0 <= k < groups.len() && #[trigger] depends(groups, order[p] as int, k) implies settles(
        groups,
        k,
        p as nat,
    ) by {
        let r = choose|r: int| 0 <= r < p && order[r] == k;
        lemma_placed_settles(groups, order, r);
        lemma_settles_grows(groups, k, (r + 1) as nat, p as nat);
    }
}

/// Groups that each list another of their kind never settle.
proof fn lemma_stuck(groups: Seq<OutboundGroupProtocol>, stuck: Set<int>, i: int, depth: nat)
    requires
        stuck.contains(i),
        forall|j: int|
            #[trigger] stuck.contains(j) ==> exists|k: int|
                0 <= k < groups.len() && stuck.contains(k) && #[trigger] depends(groups, j, k),
    ensures
        !settles(groups, i, depth),
    decreases depth,
{
    if depth > 0 {
        let k = choose|k: int|
            0 <= k < groups.len() && stuck.contains(k) && #[trigger] depends(groups, i, k);
        lemma_stuck(groups, stuck, k, (depth - 1) as nat);
    }
}

/// The place of the group called `name`.
fn group_index(groups: &[OutboundGroupProtocol], upto: usize, name: &str) -> (res: Option<usize>)
    requires
        upto <= groups@.len(),
    ensures
        res matches Some(i) ==> i < upto && groups@[i as int].name_spec() == name@,
        res is None ==> forall|i: int|
            0 <= i < upto ==> #[trigger] groups@[i].name_spec() != name@,
{
    let mut i: usize = 0;
    while i < upto
        invariant
            i <= upto <= groups@.len(),
            forall|j: int| 0 <= j < i ==> #[trigger] groups@[j].name_spec() != name@,
        decreases upto - i,
    {
        if text::same(groups[i].name(), name) {
            return Some(i);
        }
        i = i + 1;
    }
    None
}

/// [`slice::swap`] exchanges two elements; it panics when an index is out of bounds.
pub assume_specification<Elem>[ <[Elem]>::swap ](slice: &mut [Elem], a: usize, b: usize)
    requires
        a < old(slice)@.len(),
        b < old(slice)@.len(),
    ensures
        final(slice)@ == old(slice)@.update(a as int, old(slice)@[b as int]).update(
            b as int,
            old(slice)@[a as int],
        ),
;

/// How many of the first `n` entries are not their own index.
spec fn misplaced(pos: Seq<usize>, n: int) -> nat
    decreases n,
{
    if n <= 0 {
        0
    } else {
        misplaced(pos, n - 1) + (if pos[n - 1] == n - 1 {
            0nat
        } else {
            1nat
        })
    }
}

proof fn lemma_misplaced_drops(before: Seq<usize>, after: Seq<usize>, n: int, at: int)
    requires
        0 <= n <= before.len(),
        after.len() == before.len(),
        0 <= at < before.len(),
        before[at] != at,
        after[at] == at,
        forall|i: int| 0 <= i < n && before[i] == i ==> after[i] == i,
    ensures
        misplaced(after, n) <= misplaced(before, n),
        at < n ==> misplaced(after, n) < misplaced(before, n),
    decreases n,
{
    if n > 0 {
        lemma_misplaced_drops(before, after, n - 1, at);
    }
}

/// Moves each group to its place, given by `pos`, by swapping along the cycles.
fn arrange(
    groups: &mut [OutboundGroupProtocol],
    pos: Vec<usize>,
    Ghost(target): Ghost<Seq<OutboundGroupProtocol>>,
)
    requires
        old(groups)@.len() == pos@.len() == target.len(),
        pos@.no_duplicates(),
        forall|i: int|
            0 <= i < pos@.len() ==> #[trigger] pos@[i] < target.len() && target[pos@[i] as int]
                == old(groups)@[i],
    ensures
        final(groups)@ == target,
{
    let n: usize = groups.len();
    let mut pos: Vec<usize> = pos;
    let mut i: usize = 0;
    while i < n
        invariant
            i <= n == groups@.len() == pos@.len() == target.len(),
            pos@.no_duplicates(),
            forall|k: int|
                0 <= k < n ==> #[trigger] pos@[k] < n && target[pos@[k] as int] == groups@[k],
            forall|k: int| 0 <= k < i ==> #[trigger] pos@[k] == k,
        decreases n - i,
    {
        while pos[i] != i
            invariant
                i < n == groups@.len() == pos@.len() == target.len(),
                pos@.no_duplicates(),
                forall|k: int|
                    0 <= k < n ==> #[trigger] pos@[k] < n && target[pos@[k] as int] == groups@[k],
                forall|k: int| 0 <= k < i ==> #[trigger] pos@[k] == k,
            decreases misplaced(pos@, n as int),
        {
            let ghost before = pos@;
            let next_idx: usize = pos[i];
            groups.swap(i, next_idx);
            let there: usize = pos[next_idx];
            pos.set(next_idx, next_idx);
            pos.set(i, there);
            assert(before[next_idx as int] != next_idx);
            assert forall|a: int, b: int| 0 <= a < pos@.len() && 0 <= b < pos@.len() && a
                != b implies pos@[a] != pos@[b] by {
                let pa = if a == i {
                    next_idx as int
                } else if a == next_idx {
                    i as int
                } else {
                    a
                };
                let pb = if b == i {
                    next_idx as int
                } else if b == next_idx {
                    i as int
                } else {
                    b
                };
                assert(pos@[a] == before[pa] && pos@[b] == before[pb] && pa != pb);
            }
            proof {
                lemma_misplaced_drops(before, pos@, n as int, next_idx as int);
            }
        }
        i = i + 1;
    }
    assert forall|k: int| 0 <= k < n implies groups@[k] == target[k] by {
        assert(pos@[k] == k);
    }
    assert(groups@ =~= target);
}

/// Numbers that never fall.
spec fn ascending(list: Seq<usize>) -> bool {
    forall|s: int, t: int| 0 <= s <= t < list.len() ==> list[s] <= list[t]
}

/// The indices as whole numbers.
spec fn ints(row: Seq<usize>) -> Seq<int> {
    row.map_values(|x: usize| x as int)
}

/// The dependency edges of the groups and how many edges lead to each group.
fn edges(groups: &[OutboundGroupProtocol]) -> (res: (Vec<Vec<usize>>, Vec<usize>))
    requires
        names_distinct(groups@),
    ensures
        ({
            let (adj, in_degree) = res;
            let zeros = Seq::new(groups@.len(), |i: int| 0int);
            &&& adj@.len() == groups@.len()
            &&& in_degree@.len() == groups@.len()
            &&& forall|i: int| 0 <= i < adj@.len() ==> ascending(#[trigger] adj@[i]@)
            &&& forall|i: int, t: int|
                0 <= i < adj@.len() && 0 <= t < adj@[i]@.len() ==> #[trigger] adj@[i]@[t]
                    < groups@.len() && depends(groups@, adj@[i]@[t] as int, i)
            &&& forall|j: int, i: int|
                0 <= j < groups@.len() && 0 <= i < groups@.len() && #[trigger] depends(
                    groups@,
                    j,
                    i,
                ) ==> exists|t: int| 0 <= t < adj@[i]@.len() && #[trigger] adj@[i]@[t] == j
            &&& forall|x: int|
                0 <= x < groups@.len() ==> #[trigger] in_degree@[x] == total(
                    adj@,
                    zeros,
                    x,
                    groups@.len() as int,
                )
        }),
{
    let n: usize = groups.len();
    let ghost zeros = Seq::new(groups@.len(), |i: int| 0int);
    let mut adj: Vec<Vec<usize>> = Vec::new();
    let mut in_degree: Vec<usize> = Vec::new();
    let mut i: usize = 0;
    while i < n
        invariant
            i <= n,
            adj@.len() == i,
            in_degree@.len() == i,
            forall|k: int| 0 <= k < i ==> #[trigger] adj@[k]@.len() == 0,
            forall|k: int| 0 <= k < i ==> #[trigger] in_degree@[k] == 0,
        decreases n - i,
    {
        adj.push(Vec::new());
        in_degree.push(0);
        i = i + 1;
    }
    assert forall|x: int| 0 <= x < n implies total(adj@, zeros, x, n as int) == 0 by {
        lemma_total(adj@, zeros, x, n as int);
    }
    let mut j: usize = 0;
    while j < n
        invariant
            j <= n == groups@.len(),
            names_distinct(groups@),
            zeros == Seq::new(groups@.len(), |i: int| 0int),
            adj@.len() == n,
            in_degree@.len() == n,
            forall|i: int| 0 <= i < n ==> ascending(#[trigger] adj@[i]@),
            forall|i: int, t: int|
                0 <= i < n && 0 <= t < adj@[i]@.len() ==> #[trigger] adj@[i]@[t] < j && depends(
                    groups@,
                    adj@[i]@[t] as int,
                    i,
                ),
            forall|x: int, i: int|
                0 <= x < j && 0 <= i < n && #[trigger] depends(groups@, x, i) ==> exists|t: int|
                    0 <= t < adj@[i]@.len() && #[trigger] adj@[i]@[t] == x,
            forall|x: int|
                0 <= x < n ==> #[trigger] in_degree@[x] == total(adj@, zeros, x, n as int),
        decreases n - j,
    {
        assert(in_degree@[j as int] == 0) by {
            lemma_total(adj@, zeros, j as int, n as int);
        }
        if let Some(proxies) = groups[j].proxies() {
            let ghost wanted = groups@[j as int].proxies_spec();
            let mut k: usize = 0;
            while k < proxies.len()
                invariant
                    j < n == groups@.len(),
                    names_distinct(groups@),
                    zeros == Seq::new(groups@.len(), |i: int| 0int),
                    wanted == groups@[j as int].proxies_spec(),
                    wanted == text::string_views(proxies@),
                    k <= proxies@.len(),
                    adj@.len() == n,
                    in_degree@.len() == n,
                    in_degree@[j as int] <= k,
                    forall|i: int| 0 <= i < n ==> ascending(#[trigger] adj@[i]@),
                    forall|i: int, t: int|
                        0 <= i < n && 0 <= t < adj@[i]@.len() ==> #[trigger] adj@[i]@[t] <= j
                            && depends(groups@, adj@[i]@[t] as int, i),
                    forall|x: int, i: int|
                        0 <= x < j && 0 <= i < n && #[trigger] depends(groups@, x, i) ==> exists|
                            t: int,
                        |
                            0 <= t < adj@[i]@.len() && #[trigger] adj@[i]@[t] == x,
                    forall|m: int, i: int|
                        0 <= m < k && 0 <= i < n && #[trigger] wanted[m]
                            == #[trigger] groups@[i].name_spec() ==> exists|t: int|
                            0 <= t < adj@[i]@.len() && #[trigger] adj@[i]@[t] == j,
                    forall|x: int|
                        0 <= x < n ==> #[trigger] in_degree@[x] == total(adj@, zeros, x, n as int),
                decreases proxies@.len() - k,
            {
                let ghost before = adj@;
                let ghost counts = in_degree@;
                assert(wanted[k as int] == proxies@[k as int]@);
                if let Some(i) = group_index(groups, n, proxies[k].as_str()) {
                    assert(depends(groups@, j as int, i as int)) by {
                        assert(wanted[k as int] == groups@[i as int].name_spec());
                    }
                    let mut list: Vec<usize> = adj[i].clone();
                    list.push(j);
                    adj.set(i, list);
                    let count: usize = in_degree[j];
                    in_degree.set(j, count + 1);
                    assert(adj@[i as int]@ == before[i as int]@.push(j));
                    assert(ascending(adj@[i as int]@)) by {
                        assert(ascending(before[i as int]@));
                        assert(forall|t: int|
                            0 <= t < before[i as int]@.len() ==> #[trigger] before[i as int]@[t] <= j);
                    }
                    assert forall|x: int| 0 <= x < n implies #[trigger] in_degree@[x] == total(
                        adj@,
                        zeros,
                        x,
                        n as int,
                    ) by {
                        lemma_total_push(before, adj@, zeros, x, n as int, i as int, j);
                        assert(counts[x] == total(before, zeros, x, n as int));
                    }
                    assert forall|x: int, m: int|
                        0 <= x < j && 0 <= m < n && #[trigger] depends(groups@, x, m) implies exists|
                        t: int,
                    |
                        0 <= t < adj@[m]@.len() && #[trigger] adj@[m]@[t] == x by {
                        let t = choose|t: int|
                            0 <= t < before[m]@.len() && #[trigger] before[m]@[t] == x;
                        assert(adj@[m]@[t] == x);
                    }
                    assert forall|m: int, i2: int|
                        0 <= m < k + 1 && 0 <= i2 < n && #[trigger] wanted[m]
                            == #[trigger] groups@[i2].name_spec() implies exists|t: int|
                        0 <= t < adj@[i2]@.len() && #[trigger] adj@[i2]@[t] == j by {
                        if m == k {
                            assert(i2 == i);
                            assert(adj@[i2]@[before[i2]@.len() as int] == j);
                        } else {
                            let t = choose|t: int|
                                0 <= t < before[i2]@.len() && #[trigger] before[i2]@[t] == j;
                            assert(adj@[i2]@[t] == j);
                        }
                    }
                }
                k = k + 1;
            }
            assert forall|i: int| 0 <= i < n && depends(groups@, j as int, i) implies exists|t: int|
                0 <= t < adj@[i]@.len() && #[trigger] adj@[i]@[t] == j by {
                let m = choose|m: int|
                    0 <= m < wanted.len() && wanted[m] == groups@[i].name_spec();
                assert(wanted[m] == groups@[i].name_spec());
            }
        }
        j = j + 1;
    }
    (adj, in_degree)
}

/// A sweep from `from` finds the first duplicate at `at` when nothing before it is one.
proof fn lemma_first_duplicate(groups: Seq<OutboundGroupProtocol>, from: int, at: int)
    requires
        0 <= from <= at <= groups.len(),
        forall|b: int, a: int|
            from <= b < at && 0 <= a < b ==> #[trigger] groups[a].name_spec()
                != #[trigger] groups[b].name_spec(),
        at < groups.len() ==> exists|a: int|
            0 <= a < at && #[trigger] groups[a].name_spec() == groups[at].name_spec(),
    ensures
        first_duplicate(groups, from) == at,
    decreases at - from,
{
    if from < at {
        lemma_first_duplicate(groups, from + 1, at);
    }
}

/// Every group that was placed has its dependencies in front of it.
spec fn sound_order(groups: Seq<OutboundGroupProtocol>, order: Seq<usize>) -> bool {
    forall|q: int, i: int|
        0 <= q < order.len() && 0 <= i < groups.len() && #[trigger] depends(
            groups,
            order[q] as int,
            i,
        ) ==> exists|r: int| 0 <= r < q && order[r] == i
}

/// The marks of a graph whose groups in `order` are dealt with.
spec fn marks(adj: Seq<Vec<usize>>, order: Seq<usize>) -> Seq<int> {
    Seq::new(
        adj.len(),
        |i: int|
            if order.contains(i as usize) {
                adj[i]@.len() as int
            } else {
                0
            },
    )
}

/// What the placing loop keeps, with `done` saying how far each group's edges are dealt with.
spec fn placing(
    groups: Seq<OutboundGroupProtocol>,
    adj: Seq<Vec<usize>>,
    in_degree: Seq<usize>,
    done: Seq<int>,
    seen: Seq<usize>,
) -> bool {
    let n = groups.len();
    &&& adj.len() == n
    &&& in_degree.len() == n
    &&& done.len() == n
    &&& forall|i: int| 0 <= i < n ==> 0 <= #[trigger] done[i] <= adj[i]@.len()
    &&& forall|i: int, t: int|
        0 <= i < n && 0 <= t < adj[i]@.len() ==> #[trigger] adj[i]@[t] < n && depends(
            groups,
            adj[i]@[t] as int,
            i,
        )
    &&& forall|j: int, i: int|
        0 <= j < n && 0 <= i < n && #[trigger] depends(groups, j, i) ==> exists|t: int|
            0 <= t < adj[i]@.len() && #[trigger] adj[i]@[t] == j
    &&& forall|x: int| 0 <= x < n ==> #[trigger] in_degree[x] == total(adj, done, x, n as int)
    &&& seen.no_duplicates()
    &&& forall|q: int| 0 <= q < seen.len() ==> #[trigger] seen[q] < n
    &&& forall|x: usize| x < n ==> (#[trigger] seen.contains(x) <==> in_degree[x as int] == 0)
}

/// A duplicate-free row of indices below `n` is at most `n` long.
proof fn lemma_bounded_row(row: Seq<usize>, n: int)
    requires
        row.no_duplicates(),
        0 <= n,
        forall|q: int| 0 <= q < row.len() ==> #[trigger] row[q] < n,
    ensures
        row.len() <= n,
{
    let ints = row.map_values(|x: usize| x as int);
    assert(ints.no_duplicates());
    ints.unique_seq_to_set();
    let range = vstd::set_lib::set_int_range(0, n);
    vstd::set_lib::lemma_int_range(0, n);
    assert(ints.to_set().subset_of(range)) by {
        assert forall|x: int| ints.to_set().contains(x) implies range.contains(x) by {
            let q = choose|q: int| 0 <= q < ints.len() && ints[q] == x;
            assert(row[q] < n);
        }
    }
    vstd::set_lib::lemma_len_subset(ints.to_set(), range);
}

/// A duplicate-free row of `n` indices below `n` has them all.
proof fn lemma_full_row(row: Seq<usize>, n: int, x: usize)
    requires
        row.no_duplicates(),
        row.len() == n,
        forall|q: int| 0 <= q < row.len() ==> #[trigger] row[q] < n,
        x < n,
    ensures
        row.contains(x),
{
    if !row.contains(x) {
        let more = row.push(x);
        assert(more.no_duplicates());
        lemma_bounded_row(more, n);
    }
}

/// The last place does not depend on groups that are not listed, or that stand further behind.
proof fn lemma_last_listed_agrees(
    groups: Seq<OutboundGroupProtocol>,
    a: Seq<int>,
    b: Seq<int>,
    x: int,
    upto: int,
)
    requires
        upto <= a.len(),
        upto <= b.len(),
        forall|p: int| 0 <= p < upto ==> a[p] == b[p],
    ensures
        last_listed(groups, a, x, upto) == last_listed(groups, b, x, upto),
        -1 <= last_listed(groups, a, x, upto),
        upto >= 0 ==> last_listed(groups, a, x, upto) < upto,
    decreases upto,
{
    if upto > 0 {
        lemma_last_listed_agrees(groups, a, b, x, upto - 1);
    }
}

/// Groups stay in turn while those that wait for group `u`, the next one, are put behind them.
proof fn lemma_in_turn_grows(
    groups: Seq<OutboundGroupProtocol>,
    all: Seq<usize>,
    seen: Seq<usize>,
    m: int,
    u: usize,
)
    requires
        0 <= m < all.len() <= seen.len(),
        all[m] == u,
        forall|q: int| 0 <= q < all.len() ==> #[trigger] seen[q] == all[q],
        in_turn(groups, ints(all), m),
        forall|q: int| 0 <= q < all.len() ==> !depends(groups, #[trigger] all[q] as int, u as int),
        forall|q: int|
            all.len() <= q < seen.len() ==> depends(groups, #[trigger] seen[q] as int, u as int),
        forall|p: int, q: int| all.len() <= p < q < seen.len() ==> seen[p] < seen[q],
    ensures
        in_turn(groups, ints(seen), m + 1),
{
    let a = ints(all);
    let b = ints(seen);
    assert forall|p: int, q: int|
        #![trigger b[p], b[q]]
        0 <= p < q < b.len() implies comes_before(
        last_listed(groups, b, b[p], m + 1),
        b[p],
        last_listed(groups, b, b[q], m + 1),
        b[q],
    ) by {
        lemma_last_listed_agrees(groups, a, b, b[p], m);
        lemma_last_listed_agrees(groups, a, b, b[q], m);
        assert(b[m] == u);
        if p < all.len() {
            assert(a[p] == b[p] && !depends(groups, all[p] as int, u as int));
        }
        if q < all.len() {
            assert(a[q] == b[q] && !depends(groups, all[q] as int, u as int));
        }
        if p >= all.len() {
            assert(seen[p] < seen[q]);
            assert(depends(groups, seen[p] as int, u as int));
        }
        if q >= all.len() {
            assert(depends(groups, seen[q] as int, u as int));
        }
    }
}

/// The indices of the groups in the order in which they can be placed, dependencies first, and
/// how many dependencies each group is still waiting for.
fn place(groups: &[OutboundGroupProtocol]) -> (res: (Vec<usize>, Vec<usize>))
    requires
        names_distinct(groups@),
    ensures
        ({
            let (order, in_degree) = res;
            &&& order@.no_duplicates()
            &&& forall|q: int| 0 <= q < order@.len() ==> #[trigger] order@[q] < groups@.len()
            &&& sound_order(groups@, order@)
            &&& in_turn(groups@, ints(order@), order@.len() as int)
            &&& in_degree@.len() == groups@.len()
            &&& forall|x: usize|
                x < groups@.len() ==> (#[trigger] order@.contains(x) <==> in_degree@[x as int]
                    == 0)
            &&& forall|x: int|
                0 <= x < groups@.len() ==> (#[trigger] in_degree@[x] == 0 <==> settles(
                    groups@,
                    x,
                    groups@.len(),
                ))
        }),
{
    let n: usize = groups.len();
    let (adj, in_degree) = edges(groups);
    let mut in_degree: Vec<usize> = in_degree;
    let ghost zeros = Seq::new(groups@.len(), |i: int| 0int);
    let mut queue: VecDeque<usize> = VecDeque::new();
    let mut i: usize = 0;
    while i < n
        invariant
            i <= n == in_degree@.len(),
            queue@.no_duplicates(),
            forall|q: int| 0 <= q < queue@.len() ==> #[trigger] queue@[q] < i,
            forall|p: int, q: int| 0 <= p < q < queue@.len() ==> queue@[p] < queue@[q],
            forall|x: usize| x < i ==> (#[trigger] queue@.contains(x) <==> in_degree@[x as int] == 0),
        decreases n - i,
    {
        let ghost before = queue@;
        if in_degree[i] == 0 {
            queue.push_back(i);
            assert(queue@[before.len() as int] == i);
        }
        i = i + 1;
        assert forall|x: usize| x < i implies (#[trigger] queue@.contains(x) <==> in_degree@[x as int]
            == 0) by {
            if before.contains(x) {
                let q = before.index_of(x);
                assert(queue@[q] == x);
            }
        }
    }
    let mut order: Vec<usize> = Vec::new();
    assert(order@ + queue@ =~= queue@);
    assert(marks(adj@, order@) =~= zeros);
    while queue.len() > 0
        invariant
            n == groups@.len(),
            placing(groups@, adj@, in_degree@, marks(adj@, order@), order@ + queue@),
            sound_order(groups@, order@),
            forall|i: int| 0 <= i < n ==> ascending(#[trigger] adj@[i]@),
            in_turn(groups@, ints(order@ + queue@), order@.len() as int),
        decreases n - order@.len(),
    {
        let ghost placed = order@;
        let ghost waiting = queue@;
        let ghost all = placed + waiting;
        let u: usize = queue.pop_front().unwrap();
        assert(all[placed.len() as int] == u);
        assert(!placed.contains(u)) by {
            if placed.contains(u) {
                let q = placed.index_of(u);
                assert(all[q] == u);
            }
        }
        assert(all.contains(u));
        proof {
            lemma_bounded_row(all, n as int);
        }
        order.push(u);
        assert(order@ + queue@ =~= all);
        let ghost done = marks(adj@, placed);
        assert forall|q: int| 0 <= q < all.len() implies !depends(
            groups@,
            #[trigger] all[q] as int,
            u as int,
        ) by {
            let x = all[q];
            assert(all.contains(x));
            lemma_total(adj@, done, x as int, n as int);
            if depends(groups@, x as int, u as int) {
                let t = choose|t: int|
                    0 <= t < adj@[u as int]@.len() && #[trigger] adj@[u as int]@[t] == x;
                assert(done[u as int] == 0);
                assert(adj@[u as int]@[t] != x);
            }
        }
        assert(sound_order(groups@, order@)) by {
            assert forall|q: int, i: int|
                0 <= q < order@.len() && 0 <= i < n && #[trigger] depends(
                    groups@,
                    order@[q] as int,
                    i,
                ) implies exists|r: int| 0 <= r < q && order@[r] == i by {
                if q < placed.len() {
                    assert(order@[q] == placed[q]);
                    let r = choose|r: int| 0 <= r < q && placed[r] == i;
                    assert(order@[r] == i);
                } else {
                    lemma_total(adj@, done, u as int, n as int);
                    let t = choose|t: int| 0 <= t < adj@[i]@.len() && #[trigger] adj@[i]@[t] == u;
                    assert(adj@[i]@[t] == u);
                    assert(placed.contains(i as usize));
                    let r = placed.index_of(i as usize);
                    assert(order@[r] == i);
                }
            }
        }
        let mut k: usize = 0;
        assert(done.update(u as int, 0) =~= done);
        while k < adj[u].len()
            invariant
                n == groups@.len(),
                u < n,
                k <= adj@[u as int]@.len(),
                done.len() == n,
                placing(
                    groups@,
                    adj@,
                    in_degree@,
                    done.update(u as int, k as int),
                    order@ + queue@,
                ),
                ascending(adj@[u as int]@),
                all.len() <= (order@ + queue@).len(),
                forall|q: int| 0 <= q < all.len() ==> #[trigger] (order@ + queue@)[q] == all[q],
                forall|q: int|
                    all.len() <= q < (order@ + queue@).len() ==> k > 0 && (#[trigger] (order@
                        + queue@)[q]) <= adj@[u as int]@[k - 1] && depends(
                        groups@,
                        (order@ + queue@)[q] as int,
                        u as int,
                    ),
                forall|p: int, q: int|
                    all.len() <= p < q < (order@ + queue@).len() ==> (order@ + queue@)[p] < (order@
                        + queue@)[q],
            decreases adj@[u as int]@.len() - k,
        {
            let ghost now = done.update(u as int, k as int);
            let ghost counts = in_degree@;
            let ghost seen = order@ + queue@;
            let v: usize = adj[u][k];
            assert(adj@[u as int]@[k as int] == v);
            proof {
                lemma_total(adj@, now, v as int, n as int);
            }
            let count: usize = in_degree[v];
            in_degree.set(v, count - 1);
            let ghost next = done.update(u as int, k + 1);
            assert(now.update(u as int, now[u as int] + 1) =~= next);
            assert forall|x: int| 0 <= x < n implies #[trigger] in_degree@[x] == total(
                adj@,
                next,
                x,
                n as int,
            ) by {
                lemma_total_step(adj@, now, x, n as int, u as int);
                assert(counts[x] == total(adj@, now, x, n as int));
            }
            assert(!seen.contains(v));
            if count - 1 == 0 {
                let ghost queued = queue@;
                queue.push_back(v);
                let ghost more = order@ + queue@;
                assert(more =~= seen.push(v));
                assert forall|q: int| all.len() <= q < seen.len() implies #[trigger] seen[q] < v by {
                    assert(seen[q] <= adj@[u as int]@[k - 1]);
                    assert(seen.contains(seen[q]));
                }
                assert(forall|q: int| 0 <= q < seen.len() ==> #[trigger] more[q] == seen[q]);
                assert(more[seen.len() as int] == v);
                assert forall|x: usize| x < n implies (#[trigger] more.contains(x)
                    <==> in_degree@[x as int] == 0) by {
                    if seen.contains(x) {
                        assert(more[seen.index_of(x)] == x);
                    }
                    if x == v {
                        assert(more[seen.len() as int] == v);
                    }
                    if more.contains(x) && x != v {
                        let q = more.index_of(x);
                        assert(seen[q] == x);
                    }
                }
            } else {
                assert forall|x: usize| x < n implies (#[trigger] seen.contains(x)
                    <==> in_degree@[x as int] == 0) by {}
            }
            k = k + 1;
        }
        proof {
            let seen = order@ + queue@;
            lemma_in_turn_grows(groups@, all, seen, placed.len() as int, u);
        }
        assert(marks(adj@, order@) =~= done.update(u as int, k as int)) by {
            assert forall|i: int| 0 <= i < n implies #[trigger] order@.contains(i as usize) == (
            placed.contains(i as usize) || i == u) by {
                if placed.contains(i as usize) {
                    assert(order@[placed.index_of(i as usize)] == i as usize);
                }
                assert(order@[placed.len() as int] == u);
                if order@.contains(i as usize) && i != u {
                    let q = order@.index_of(i as usize);
                    assert(placed[q] == i as usize);
                }
            }
        }
    }
    assert(order@ + queue@ =~= order@);
    let ghost done = marks(adj@, order@);
    assert forall|x: int| 0 <= x < n implies (#[trigger] in_degree@[x] == 0 <==> settles(
        groups@,
        x,
        groups@.len(),
    )) by {
        let stuck = Set::new(|j: int| 0 <= j < n && in_degree@[j] != 0);
        if in_degree@[x] == 0 {
            assert(order@.contains(x as usize));
            let p = order@.index_of(x as usize);
            lemma_placed_settles(groups@, order@, p);
            lemma_bounded_row(order@, n as int);
            lemma_settles_grows(groups@, x, (p + 1) as nat, groups@.len());
        } else {
            assert forall|j: int| #[trigger] stuck.contains(j) implies exists|k: int|
                0 <= k < groups@.len() && stuck.contains(k) && #[trigger] depends(
                    groups@,
                    j,
                    k,
                ) by {
                lemma_total(adj@, done, j, n as int);
                let (i, t) = choose|i: int, t: int|
                    0 <= i < n && done[i] <= t < adj@[i]@.len() && #[trigger] adj@[i]@[t] == j;
                assert(depends(groups@, j, i));
                assert(!order@.contains(i as usize));
                assert(stuck.contains(i));
            }
            lemma_stuck(groups@, stuck, x, groups@.len());
        }
    }
    (order, in_degree)
}

/// Reorders proxy groups so that each stands behind the groups that it lists, as soon as it can and
/// else in the order in which they came. Two groups of one name, or groups that list each other in
/// a circle, are refused and left in place.
pub fn proxy_groups_dag_sort(groups: &mut [OutboundGroupProtocol]) -> (res: Result<(), Error>)
    ensures
        match res {
            Ok(()) => {
                &&& exists|order: Seq<int>| sorted_as(old(groups)@, final(groups)@, order)
                &&& old(groups)@.len() <= 1 ==> final(groups)@ == old(groups)@
                &&& old(groups)@.len() > 1 ==> names_distinct(old(groups)@) && dependencies_first(
                    final(groups)@,
                )
            },
            Err(e) => {
                &&& final(groups)@ == old(groups)@
                &&& old(groups)@.len() > 1
                &&& e matches Error::InvalidConfig(why) && why@ == (if names_distinct(old(groups)@) {
                    "loop detected in proxy groups: "@ + crate::error::debug_strings(
                        looped(old(groups)@, old(groups)@.len() as int),
                    )
                } else {
                    "duplicate proxy group name: "@ + old(groups)@[first_duplicate(
                        old(groups)@,
                        0,
                    )].name_spec()
                })
            },
        },
        res is Ok <==> old(groups)@.len() <= 1 || (names_distinct(old(groups)@) && forall|i: int|
            0 <= i < old(groups)@.len() ==> settles(old(groups)@, i, old(groups)@.len())),
{
    let n: usize = groups.len();
    let ghost start = groups@;
    if n <= 1 {
        assert(sorted_as(start, groups@, Seq::new(n as nat, |i: int| i)));
        return Ok(());
    }
    let mut idx: usize = 0;
    while idx < n
        invariant
            idx <= n == groups@.len(),
            n > 1,
            groups@ == start,
            start == old(groups)@,
            forall|a: int, b: int|
                0 <= a < b < idx ==> #[trigger] groups@[a].name_spec()
                    != #[trigger] groups@[b].name_spec(),
        decreases n - idx,
    {
        if group_index(groups, idx, groups[idx].name()).is_some() {
            proof {
                lemma_first_duplicate(start, 0, idx as int);
            }
            return Err(
                Error::InvalidConfig(
                    text::concat("duplicate proxy group name: ", groups[idx].name()),
                ),
            );
        }
        idx = idx + 1;
    }
    let (order, in_degree) = place(groups);
    proof {
        lemma_bounded_row(order@, n as int);
    }
    if order.len() < n {
        let mut looped_groups: Vec<String> = Vec::new();
        let mut i: usize = 0;
        while i < n
            invariant
                i <= n == groups@.len(),
                in_degree@.len() == n,
                groups@ == start,
            start == old(groups)@,
                n > 1,
                names_distinct(start),
                text::string_views(looped_groups@) == looped(start, i as int),
                forall|x: int|
                    0 <= x < n ==> (#[trigger] in_degree@[x] == 0 <==> settles(start, x, n as nat)),
            decreases n - i,
        {
            if in_degree[i] > 0 {
                let ghost before = looped_groups@;
                looped_groups.push(groups[i].name().to_owned());
                assert(text::string_views(looped_groups@) =~= text::string_views(before).push(
                    start[i as int].name_spec(),
                ));
            }
            i = i + 1;
        }
        proof {
            if forall|i: int| 0 <= i < n ==> settles(start, i, n as nat) {
                assert forall|x: usize| x < n implies order@.contains(x) by {
                    assert(settles(start, x as int, n as nat));
                    assert(in_degree@[x as int] == 0);
                }
                lemma_covering_row(order@, n as int);
            }
        }
        return Err(
            Error::InvalidConfig(
                text::concat("loop detected in proxy groups: ", debug_list(&looped_groups).as_str()),
            ),
        );
    }
    let mut pos: Vec<usize> = Vec::new();
    let mut k: usize = 0;
    while k < n
        invariant
            k <= n,
            pos@.len() == k,
        decreases n - k,
    {
        pos.push(0);
        k = k + 1;
    }
    k = 0;
    while k < n
        invariant
            k <= n == pos@.len() == order@.len(),
            order@.no_duplicates(),
            forall|q: int| 0 <= q < order@.len() ==> #[trigger] order@[q] < n,
            forall|q: int| 0 <= q < k ==> pos@[#[trigger] order@[q] as int] == q,
        decreases n - k,
    {
        pos.set(order[k], k);
        k = k + 1;
    }
    let ghost target = Seq::new(n as nat, |q: int| start[order@[q] as int]);
    assert forall|i: int| 0 <= i < n implies #[trigger] pos@[i] < n && order@[pos@[i] as int]
        == i by {
        lemma_full_row(order@, n as int, i as usize);
        let q = order@.index_of(i as usize);
        assert(pos@[order@[q] as int] == q);
    }
    assert(pos@.no_duplicates());
    arrange(groups, pos, Ghost(target));
    proof {
        assert(sorted_as(start, target, ints(order@)));
        assert forall|j: int, i: int|
            0 <= j < n && 0 <= i < n && #[trigger] depends(target, j, i) implies i < j by {
            assert(depends(start, order@[j] as int, order@[i] as int));
            let r = choose|r: int| 0 <= r < j && order@[r] == order@[i];
            assert(r == i);
        }
        assert forall|i: int| 0 <= i < n implies settles(start, i, n as nat) by {
            lemma_full_row(order@, n as int, i as usize);
            assert(order@.contains(i as usize));
            assert(in_degree@[i] == 0);
        }
    }
    Ok(())
}

/// A row that has every index below `n` is at least `n` long.
proof fn lemma_covering_row(row: Seq<usize>, n: int)
    requires
        0 <= n <= usize::MAX,
        forall|x: usize| x < n ==> #[trigger] row.contains(x),
    ensures
        row.len() >= n,
{
    let ints = row.map_values(|x: usize| x as int);
    let range = vstd::set_lib::set_int_range(0, n);
    vstd::set_lib::lemma_int_range(0, n);
    assert(range.subset_of(ints.to_set())) by {
        assert forall|x: int| range.contains(x) implies ints.to_set().contains(x) by {
            assert(row.contains(x as usize));
            assert(ints[row.index_of(x as usize)] == x);
        }
    }
    ints.lemma_cardinality_of_set();
    vstd::set_lib::lemma_len_subset(range, ints.to_set());
}

/// Every group of an order stands behind the groups that it lists.
spec fn lists_earlier(groups: Seq<OutboundGroupProtocol>, order: Seq<int>) -> bool {
    forall|j: int, i: int|
        #![trigger order[j], order[i]]
        0 <= j < order.len() && 0 <= i < order.len() && depends(groups, order[j], order[i]) ==> i
            < j
}

/// Each index occurs once.
spec fn is_row(order: Seq<int>) -> bool {
    order.no_duplicates() && forall|k: int|
        0 <= k < order.len() ==> 0 <= #[trigger] order[k] < order.len()
}

/// A group's last place is reached once all the groups that it lists stand.
proof fn lemma_last_is_early(
    groups: Seq<OutboundGroupProtocol>,
    order: Seq<int>,
    x: int,
    k: int,
    upto: int,
)
    requires
        0 <= k <= upto <= order.len(),
        forall|i: int| k <= i < upto ==> !depends(groups, x, #[trigger] order[i]),
    ensures
        last_listed(groups, order, x, upto) == last_listed(groups, order, x, k),
    decreases upto - k,
{
    if k < upto {
        lemma_last_is_early(groups, order, x, k, upto - 1);
    }
}

/// There is one order in which the groups are in turn.
proof fn lemma_one_order(groups: Seq<OutboundGroupProtocol>, a: Seq<int>, b: Seq<int>, k: int)
    requires
        a.len() == b.len() == groups.len(),
        is_row(a),
        is_row(b),
        lists_earlier(groups, a),
        lists_earlier(groups, b),
        in_turn(groups, a, a.len() as int),
        in_turn(groups, b, b.len() as int),
        0 <= k <= a.len(),
    ensures
        forall|i: int| 0 <= i < k ==> a[i] == b[i],
    decreases k,
{
    if k > 0 {
        let m = k - 1;
        let n = a.len() as int;
        lemma_one_order(groups, a, b, m);
        let x = a[m];
        let y = b[m];
        if x != y {
            lemma_full_order(a, y);
            lemma_full_order(b, x);
            let at = a.index_of(y);
            let bt = b.index_of(x);
            assert(at > m) by {
                if at < m {
                    assert(b[at] == b[m]);
                }
            }
            assert(bt > m) by {
                if bt < m {
                    assert(a[bt] == a[m]);
                }
            }
            lemma_listed_in_front(groups, a, b, m, m);
            lemma_listed_in_front(groups, b, a, m, m);
            assert forall|i: int| m <= i < n implies !depends(groups, x, #[trigger] a[i]) by {
                assert(a[m] == x);
            }
            assert forall|i: int| m <= i < n implies !depends(groups, y, #[trigger] b[i]) by {
                assert(b[m] == y);
            }
            lemma_last_is_early(groups, a, x, m, n);
            lemma_last_is_early(groups, b, x, m, n);
            lemma_last_is_early(groups, a, y, m, n);
            lemma_last_is_early(groups, b, y, m, n);
            lemma_last_listed_agrees(groups, a, b, x, m);
            lemma_last_listed_agrees(groups, a, b, y, m);
            assert(comes_before(
                last_listed(groups, a, a[m], n),
                a[m],
                last_listed(groups, a, a[at], n),
                a[at],
            ));
            assert(comes_before(
                last_listed(groups, b, b[m], n),
                b[m],
                last_listed(groups, b, b[bt], n),
                b[bt],
            ));
        }
    }
}

/// Where two orders agree on the first `m` places, what the group at place `m` of the one lists
/// stands among these in the other, too.
proof fn lemma_listed_in_front(
    groups: Seq<OutboundGroupProtocol>,
    a: Seq<int>,
    b: Seq<int>,
    m: int,
    from: int,
)
    requires
        a.len() == b.len() == groups.len(),
        is_row(a),
        is_row(b),
        lists_earlier(groups, a),
        0 <= m < a.len(),
        m <= from,
        forall|i: int| 0 <= i < m ==> a[i] == b[i],
    ensures
        forall|i: int| from <= i < b.len() ==> !depends(groups, a[m], #[trigger] b[i]),
{
    assert forall|i: int| from <= i < b.len() implies !depends(groups, a[m], #[trigger] b[i]) by {
        if depends(groups, a[m], b[i]) {
            lemma_full_order(a, b[i]);
            let at = a.index_of(b[i]);
            assert(a[at] == b[i] && a[m] == a[m]);
            assert(at < m);
            assert(b[at] == b[i]);
        }
    }
}

/// Sorting sorted groups changes nothing: they can be sorted, and come out as they are.
pub proof fn law_sorted_stays(
    before: Seq<OutboundGroupProtocol>,
    after: Seq<OutboundGroupProtocol>,
    again: Seq<OutboundGroupProtocol>,
    first: Seq<int>,
    second: Seq<int>,
)
    requires
        sorted_as(before, after, first),
        before.len() > 1 ==> names_distinct(before) && dependencies_first(after),
        sorted_as(after, again, second),
        after.len() > 1 ==> dependencies_first(again),
    ensures
        again == after,
        after.len() <= 1 || (names_distinct(after) && forall|i: int|
            0 <= i < after.len() ==> settles(after, i, after.len())),
{
    if before.len() <= 1 {
        assert(again =~= after) by {
            if before.len() == 1 {
                assert(again[0] == after[second[0]]);
            }
        }
    } else {
        lemma_sorted_stays(before, after, again, first, second);
    }
}

proof fn lemma_sorted_stays(
    before: Seq<OutboundGroupProtocol>,
    after: Seq<OutboundGroupProtocol>,
    again: Seq<OutboundGroupProtocol>,
    first: Seq<int>,
    second: Seq<int>,
)
    requires
        names_distinct(before),
        sorted_as(before, after, first),
        dependencies_first(after),
        sorted_as(after, again, second),
        dependencies_first(again),
    ensures
        again == after,
        names_distinct(after),
        forall|i: int| 0 <= i < after.len() ==> settles(after, i, after.len()),
{
    let n = before.len() as int;
    let own = Seq::new(before.len(), |i: int| i);
    assert forall|p: int, upto: int| 0 <= p < n && 0 <= upto <= n implies #[trigger] last_listed(
        after,
        own,
        p,
        upto,
    ) == last_listed(before, first, first[p], upto) by {
        lemma_same_last(before, after, first, own, p, upto);
    }
    assert forall|p: int, q: int|
        #![trigger own[p], own[q]]
        0 <= p < q < n implies comes_before(
        last_listed(after, own, own[p], n),
        own[p],
        last_listed(after, own, own[q], n),
        own[q],
    ) by {
        assert(last_listed(after, own, p, n) == last_listed(before, first, first[p], n));
        assert(last_listed(after, own, q, n) == last_listed(before, first, first[q], n));
        assert(comes_before(
            last_listed(before, first, first[p], n),
            first[p],
            last_listed(before, first, first[q], n),
            first[q],
        ));
    }
    assert(is_row(own));
    assert(lists_earlier(after, own));
    assert forall|j: int, i: int|
        #![trigger second[j], second[i]]
        0 <= j < n && 0 <= i < n && depends(after, second[j], second[i]) implies i < j by {
        assert(depends(again, j, i));
    }
    lemma_one_order(after, own, second, n);
    assert forall|k: int| 0 <= k < n implies again[k] == after[k] by {
        assert(own[k] == second[k]);
        assert(again[k] == after[second[k]]);
    }
    assert(again =~= after);
    assert forall|a: int, b: int| 0 <= a < b < n implies #[trigger] after[a].name_spec()
        != #[trigger] after[b].name_spec() by {
        assert(after[a] == before[first[a]] && after[b] == before[first[b]]);
        assert(first[a] != first[b]);
    }
    assert forall|i: int| 0 <= i < n implies settles(after, i, after.len()) by {
        lemma_first_settles(after, i);
        lemma_settles_grows(after, i, (i + 1) as nat, after.len());
    }
}

/// Reading groups in another order moves the last places along.
proof fn lemma_same_last(
    before: Seq<OutboundGroupProtocol>,
    after: Seq<OutboundGroupProtocol>,
    order: Seq<int>,
    own: Seq<int>,
    p: int,
    upto: int,
)
    requires
        rearranged(before, after, order),
        own == Seq::new(before.len(), |i: int| i),
        0 <= p < before.len(),
        0 <= upto <= before.len(),
    ensures
        last_listed(after, own, p, upto) == last_listed(before, order, order[p], upto),
    decreases upto,
{
    if upto > 0 {
        lemma_same_last(before, after, order, own, p, upto - 1);
        assert(after[p] == before[order[p]]);
        assert(after[upto - 1] == before[order[upto - 1]]);
    }
}

/// A group that stands behind the groups that it lists settles in as many steps as its place.
proof fn lemma_first_settles(groups: Seq<OutboundGroupProtocol>, i: int)
    requires
        dependencies_first(groups),
        0 <= i < groups.len(),
    ensures
        settles(groups, i, (i + 1) as nat),
    decreases i,
{
    assert forall|k: int| 0 <= k < groups.len() && #[trigger] depends(groups, i, k) implies settles(
        groups,
        k,
        i as nat,
    ) by {
        lemma_first_settles(groups, k);
        lemma_settles_grows(groups, k, (k + 1) as nat, i as nat);
    }
}

/// Sorting keeps every group: how many groups have a given name does not change.
pub proof fn law_sort_keeps_groups(
    before: Seq<OutboundGroupProtocol>,
    after: Seq<OutboundGroupProtocol>,
    order: Seq<int>,
)
    requires
        rearranged(before, after, order),
    ensures
        after.to_multiset() == before.to_multiset(),
{
    assert(after =~= order.map_values(|k: int| before[k]));
    lemma_rearranged_multiset(before, order);
}

/// Reading a sequence at each of its places once, in any order, gives the same elements.
proof fn lemma_rearranged_multiset(before: Seq<OutboundGroupProtocol>, order: Seq<int>)
    requires
        order.len() == before.len(),
        order.no_duplicates(),
        forall|k: int| 0 <= k < order.len() ==> 0 <= #[trigger] order[k] < before.len(),
    ensures
        order.map_values(|k: int| before[k]).to_multiset() == before.to_multiset(),
    decreases before.len(),
{
    broadcast use vstd::seq_lib::group_to_multiset_ensures;

    let image = order.map_values(|k: int| before[k]);
    if before.len() == 0 {
        assert(image =~= before);
    } else {
        let n = before.len() - 1;
        lemma_full_order(order, n);
        let p = order.index_of(n);
        let rest = order.remove(p);
        assert(rest.no_duplicates());
        assert forall|k: int| 0 <= k < rest.len() implies 0 <= #[trigger] rest[k] < n by {
            if k < p {
                assert(rest[k] == order[k]);
            } else {
                assert(rest[k] == order[k + 1]);
            }
        }
        let short = before.drop_last();
        lemma_rearranged_multiset(short, rest);
        assert(rest.map_values(|k: int| short[k]) =~= image.remove(p));
        assert(before =~= short.push(before.last()));
        assert(image[p] == before.last());
    }
}

/// A duplicate-free row of indices as long as its bound has each of them.
proof fn lemma_full_order(order: Seq<int>, x: int)
    requires
        order.no_duplicates(),
        forall|k: int| 0 <= k < order.len() ==> 0 <= #[trigger] order[k] < order.len(),
        0 <= x < order.len(),
    ensures
        order.contains(x),
{
    let range = vstd::set_lib::set_int_range(0, order.len() as int);
    vstd::set_lib::lemma_int_range(0, order.len() as int);
    order.unique_seq_to_set();
    assert(order.to_set().subset_of(range));
    if !order.contains(x) {
        assert(order.to_set().subset_of(range.remove(x)));
        vstd::set_lib::lemma_len_subset(order.to_set(), range.remove(x));
    }
}

} // verus!
