//! Coalescing of equal queries: the first caller asks, the others wait for its answer.
use vstd::prelude::*;

use crate::dns::wire;
use crate::dns::wire::range_equals;

verus! {

/// How many flights there are at most.
pub const MAX_ACTIVE_FLIGHTS: usize = 2048;

/// How many callers wait for one flight at most.
pub const MAX_WAITERS_PER_FLIGHT: usize = 256;

/// What a flight is about: a query, or the refresh of a cached answer.
#[derive(Debug)]
pub enum FlightKey {
    Query(Vec<u8>),
    Refresh(Vec<u8>),
}

impl View for FlightKey {
    type V = (bool, Seq<u8>);

    open spec fn view(&self) -> (bool, Seq<u8>) {
        match self {
            FlightKey::Query(bytes) => (false, bytes@),
            FlightKey::Refresh(bytes) => (true, bytes@),
        }
    }
}

impl FlightKey {
    /// Whether the flight refreshes a cached answer.
    pub fn is_refresh(&self) -> (res: bool)
        ensures
            res == self@.0,
    {
        match self {
            FlightKey::Query(_) => false,
            FlightKey::Refresh(_) => true,
        }
    }

    /// A copy of the key.
    pub fn copy(&self) -> (res: FlightKey)
        ensures
            res@ == self@,
    {
        match self {
            FlightKey::Query(bytes) => FlightKey::Query(wire::slice_to_vec(bytes, 0, bytes.len())),
            FlightKey::Refresh(bytes) => FlightKey::Refresh(
                wire::slice_to_vec(bytes, 0, bytes.len()),
            ),
        }
    }

    /// Whether two keys are the same.
    pub fn same(&self, other: &FlightKey) -> (res: bool)
        ensures
            res == (self@ == other@),
    {
        match (self, other) {
            (FlightKey::Query(a), FlightKey::Query(b)) => {
                assert(a@.subrange(0, a@.len() as int) =~= a@);
                range_equals(a, 0, a.len(), b)
            },
            (FlightKey::Refresh(a), FlightKey::Refresh(b)) => {
                assert(a@.subrange(0, a@.len() as int) =~= a@);
                range_equals(a, 0, a.len(), b)
            },
            _ => false,
        }
    }
}

/// What has happened so far.
#[derive(Clone, Copy, Debug, PartialEq, Eq, Structural)]
pub struct FlightCounters {
    pub leaders: u64,
    pub waiters: u64,
    pub refreshes: u64,
    pub rejections: u64,
    pub amplification_avoided: u64,
    pub aborts: u64,
    pub retries: u64,
}

/// Nothing has happened yet.
pub open spec fn no_counts() -> FlightCounters {
    FlightCounters {
        leaders: 0,
        waiters: 0,
        refreshes: 0,
        rejections: 0,
        amplification_avoided: 0,
        aborts: 0,
        retries: 0,
    }
}

/// One more, from the greatest value back to zero.
pub open spec fn bumped(x: u64) -> u64 {
    if x == u64::MAX {
        0
    } else {
        (x + 1) as u64
    }
}

fn bump(x: u64) -> (res: u64)
    ensures
        res == bumped(x),
{
    if x == 0xffff_ffff_ffff_ffff {
        0
    } else {
        x + 1
    }
}

/// A flight: its key, how many callers wait, and the answer once it is there.
#[verifier::ext_equal]
pub struct FlightView {
    pub key: (bool, Seq<u8>),
    pub waiters: nat,
    pub answer: Option<Seq<u8>>,
}

/// All flights and what has happened so far.
#[verifier::ext_equal]
pub struct FlightsView {
    pub flights: Seq<FlightView>,
    pub counters: FlightCounters,
}

/// The place of the flight with the key, from `from` on.
pub open spec fn flight_place(flights: Seq<FlightView>, key: (bool, Seq<u8>), from: int) -> int
    decreases flights.len() - from,
{
    if from >= flights.len() || flights[from].key == key {
        from
    } else {
        flight_place(flights, key, from + 1)
    }
}

/// What a caller is told to do.
pub enum RoleView {
    Leader,
    Waiter(nat),
    Ready(Seq<u8>),
    Rejected,
}

impl FlightsView {
    /// The place of the flight with the key.
    pub open spec fn place(&self, key: (bool, Seq<u8>)) -> int {
        flight_place(self.flights, key, 0)
    }

    /// A flight with the key is under way.
    pub open spec fn has(&self, key: (bool, Seq<u8>)) -> bool {
        self.place(key) < self.flights.len()
    }

    /// No two flights share a key, and neither flights nor waiters are too many.
    pub open spec fn ok(&self) -> bool {
        &&& self.flights.len() <= MAX_ACTIVE_FLIGHTS
        &&& forall|i: int, j: int|
            0 <= i < j < self.flights.len() ==> (#[trigger] self.flights[i]).key != (
            #[trigger] self.flights[j]).key
        &&& forall|i: int|
            0 <= i < self.flights.len() ==> (#[trigger] self.flights[i]).waiters
                <= MAX_WAITERS_PER_FLIGHT
    }

    /// What a caller with the key is told, and what that changes. A caller joins the flight that
    /// is under way, takes its answer when it is there, or leads a new flight.
    pub open spec fn acquired(&self, key: (bool, Seq<u8>)) -> (FlightsView, RoleView) {
        let c = self.counters;
        let at = self.place(key);
        let rejected = (
            FlightsView {
                counters: FlightCounters { rejections: bumped(c.rejections), ..c },
                ..*self
            },
            RoleView::Rejected,
        );
        if at < self.flights.len() {
            let f = self.flights[at];
            match f.answer {
                Some(answer) => (
                    FlightsView {
                        counters: FlightCounters { waiters: bumped(c.waiters), ..c },
                        ..*self
                    },
                    RoleView::Ready(answer),
                ),
                None => if f.waiters >= MAX_WAITERS_PER_FLIGHT {
                    rejected
                } else {
                    (
                        FlightsView {
                            flights: self.flights.update(
                                at,
                                FlightView { waiters: f.waiters + 1, ..f },
                            ),
                            counters: FlightCounters {
                                waiters: bumped(c.waiters),
                                amplification_avoided: bumped(c.amplification_avoided),
                                ..c
                            },
                        },
                        RoleView::Waiter(f.waiters),
                    )
                },
            }
        } else if self.flights.len() >= MAX_ACTIVE_FLIGHTS {
            rejected
        } else {
            (
                FlightsView {
                    flights: self.flights.push(FlightView { key, waiters: 0, answer: None }),
                    counters: if key.0 {
                        FlightCounters { refreshes: bumped(c.refreshes), ..c }
                    } else {
                        FlightCounters { leaders: bumped(c.leaders), ..c }
                    },
                },
                RoleView::Leader,
            )
        }
    }

    /// How many callers wait for the flight with the key.
    pub open spec fn waiting(&self, key: (bool, Seq<u8>)) -> nat {
        if self.has(key) {
            self.flights[self.place(key)].waiters
        } else {
            0
        }
    }

    /// The flights once a caller whose leader is gone tries again.
    pub open spec fn retried(&self) -> FlightsView {
        FlightsView {
            counters: FlightCounters { retries: bumped(self.counters.retries), ..self.counters },
            ..*self
        }
    }

    /// The flights once the leader has published its answer: whoever waited has it.
    pub open spec fn published(&self, key: (bool, Seq<u8>), answer: Seq<u8>) -> FlightsView {
        if self.has(key) {
            FlightsView {
                flights: self.flights.update(
                    self.place(key),
                    FlightView { key, waiters: 0, answer: Some(answer) },
                ),
                ..*self
            }
        } else {
            *self
        }
    }

    /// The flights once the leader is gone. A flight without an answer counts as aborted.
    pub open spec fn finished(&self, key: (bool, Seq<u8>)) -> FlightsView {
        if self.has(key) {
            let c = self.counters;
            FlightsView {
                flights: self.flights.remove(self.place(key)),
                counters: if self.flights[self.place(key)].answer is None {
                    FlightCounters { aborts: bumped(c.aborts), ..c }
                } else {
                    c
                },
            }
        } else {
            *self
        }
    }
}

proof fn lemma_place(flights: Seq<FlightView>, key: (bool, Seq<u8>), from: int)
    requires
        0 <= from <= flights.len(),
    ensures
        from <= flight_place(flights, key, from) <= flights.len(),
        forall|i: int|
            from <= i < flight_place(flights, key, from) ==> (#[trigger] flights[i]).key != key,
        flight_place(flights, key, from) < flights.len() ==> flights[flight_place(
            flights,
            key,
            from,
        )].key == key,
    decreases flights.len() - from,
{
    if from < flights.len() && flights[from].key != key {
        lemma_place(flights, key, from + 1);
    }
}

proof fn lemma_place_is(flights: Seq<FlightView>, key: (bool, Seq<u8>), at: int)
    requires
        0 <= at < flights.len(),
        flights[at].key == key,
        forall|i: int| 0 <= i < at ==> (#[trigger] flights[i]).key != key,
    ensures
        flight_place(flights, key, 0) == at,
{
    lemma_place(flights, key, 0);
}

/// A caller leads only when nobody else does, and the next caller with the same key waits.
pub proof fn law_one_leader(s: FlightsView, key: (bool, Seq<u8>))
    requires
        s.ok(),
        s.acquired(key).1 is Leader,
    ensures
        !s.has(key),
        s.acquired(key).0.ok(),
        s.acquired(key).0.acquired(key).1 == RoleView::Waiter(0),
{
    let t = s.acquired(key).0;
    lemma_place(s.flights, key, 0);
    assert(t.flights[s.flights.len() as int].key == key);
    lemma_place_is(t.flights, key, s.flights.len() as int);
}

/// Once an answer is published, every further caller gets that very answer at once.
pub proof fn law_published_is_ready(s: FlightsView, key: (bool, Seq<u8>), answer: Seq<u8>)
    requires
        s.ok(),
        s.has(key),
    ensures
        s.published(key, answer).ok(),
        s.published(key, answer).acquired(key).1 == RoleView::Ready(answer),
{
    lemma_place(s.flights, key, 0);
    let t = s.published(key, answer);
    let at = s.place(key);
    lemma_place_is(t.flights, key, at);
}

/// Once a leader is gone its flight is too, so the next caller leads again.
pub proof fn law_finished_is_gone(s: FlightsView, key: (bool, Seq<u8>))
    requires
        s.ok(),
        s.has(key),
    ensures
        s.finished(key).ok(),
        !s.finished(key).has(key),
        s.finished(key).flights.len() == s.flights.len() - 1,
        s.finished(key).acquired(key).1 is Leader,
{
    lemma_place(s.flights, key, 0);
    let at = s.place(key);
    let t = s.finished(key);
    assert forall|i: int| 0 <= i < t.flights.len() implies (#[trigger] t.flights[i])
        == s.flights[if i < at {
        i
    } else {
        i + 1
    }] by {}
    lemma_place(t.flights, key, 0);
}

/// Acquiring keeps the flights in order: no two share a key and none are too many.
pub proof fn law_acquire_keeps_order(s: FlightsView, key: (bool, Seq<u8>))
    requires
        s.ok(),
    ensures
        s.acquired(key).0.ok(),
{
    lemma_place(s.flights, key, 0);
}

struct Flight {
    key: FlightKey,
    waiters: usize,
    answer: Option<Vec<u8>>,
}

spec fn flight_view(f: Flight) -> FlightView {
    FlightView {
        key: f.key@,
        waiters: f.waiters as nat,
        answer: match f.answer {
            Some(a) => Some(a@),
            None => None,
        },
    }
}

spec fn flight_views(flights: Seq<Flight>) -> Seq<FlightView> {
    flights.map_values(|f: Flight| flight_view(f))
}

/// What a caller is told to do.
pub enum FlightRole {
    /// Ask, publish the answer, and finish.
    Leader(FlightLeader),
    /// Wait for the leader's answer.
    Waiter(FlightWaiter),
    /// Take the answer.
    Ready(Vec<u8>),
    /// Give up: there are too many flights or waiters.
    Rejected,
}

/// The caller that asks.
#[derive(Debug)]
pub struct FlightLeader {
    pub key: FlightKey,
}

/// A caller that waits: it is the one with the given number among those of its flight.
#[derive(Clone, Copy, Debug, PartialEq, Eq, Structural)]
pub struct FlightWaiter {
    pub number: usize,
}

/// The flights under way.
pub struct Singleflight {
    flights: Vec<Flight>,
    counters: FlightCounters,
}

/// The role as plain values.
pub open spec fn role_is(role: FlightRole, view: RoleView, key: (bool, Seq<u8>)) -> bool {
    match (role, view) {
        (FlightRole::Leader(l), RoleView::Leader) => l.key@ == key,
        (FlightRole::Waiter(w), RoleView::Waiter(n)) => w.number == n,
        (FlightRole::Ready(a), RoleView::Ready(b)) => a@ == b,
        (FlightRole::Rejected, RoleView::Rejected) => true,
        _ => false,
    }
}

impl View for Singleflight {
    type V = FlightsView;

    closed spec fn view(&self) -> FlightsView {
        FlightsView { flights: flight_views(self.flights@), counters: self.counters }
    }
}

impl Singleflight {
    /// No flights.
    pub fn new() -> (res: Singleflight)
        ensures
            res@.flights.len() == 0,
            res@.counters == no_counts(),
            res@.ok(),
    {
        Singleflight {
            flights: Vec::new(),
            counters: FlightCounters {
                leaders: 0,
                waiters: 0,
                refreshes: 0,
                rejections: 0,
                amplification_avoided: 0,
                aborts: 0,
                retries: 0,
            },
        }
    }

    fn find(&self, key: &FlightKey) -> (res: usize)
        ensures
            res == self@.place(key@),
            res <= self.flights@.len(),
    {
        let mut i: usize = 0;
        while i < self.flights.len()
            invariant
                i <= self.flights@.len(),
                flight_place(self@.flights, key@, 0) == flight_place(
                    self@.flights,
                    key@,
                    i as int,
                ),
            decreases self.flights@.len() - i,
        {
            assert(self@.flights[i as int] == flight_view(self.flights@[i as int]));
            if self.flights[i].key.same(key) {
                return i;
            }
            i = i + 1;
        }
        i
    }

    /// Tells a caller what to do.
    pub fn acquire(&mut self, key: FlightKey) -> (res: FlightRole)
        requires
            old(self)@.ok(),
        ensures
            final(self)@ == old(self)@.acquired(key@).0,
            role_is(res, old(self)@.acquired(key@).1, key@),
            final(self)@.ok(),
    {
        proof {
            law_acquire_keeps_order(self@, key@);
        }
        let ghost start = self@;
        let at: usize = self.find(&key);
        if at < self.flights.len() {
            let ghost f = start.flights[at as int];
            assert(f == flight_view(self.flights@[at as int]));
            if let Some(answer) = &self.flights[at].answer {
                let copy: Vec<u8> = wire::slice_to_vec(answer, 0, answer.len());
                assert(copy@ =~= answer@);
                self.counters.waiters = bump(self.counters.waiters);
                return FlightRole::Ready(copy);
            }
            let waiters: usize = self.flights[at].waiters;
            if waiters >= MAX_WAITERS_PER_FLIGHT {
                self.counters.rejections = bump(self.counters.rejections);
                return FlightRole::Rejected;
            }
            let key: FlightKey = self.flights[at].key.copy();
            self.flights.set(at, Flight { key, waiters: waiters + 1, answer: None });
            assert(flight_views(self.flights@) =~= start.flights.update(
                at as int,
                (FlightView { waiters: f.waiters + 1, ..f }),
            ));
            self.counters.waiters = bump(self.counters.waiters);
            self.counters.amplification_avoided = bump(self.counters.amplification_avoided);
            return FlightRole::Waiter(FlightWaiter { number: waiters });
        }
        if self.flights.len() >= MAX_ACTIVE_FLIGHTS {
            self.counters.rejections = bump(self.counters.rejections);
            return FlightRole::Rejected;
        }
        let leader: FlightLeader = FlightLeader { key: key.copy() };
        if key.is_refresh() {
            self.counters.refreshes = bump(self.counters.refreshes);
        } else {
            self.counters.leaders = bump(self.counters.leaders);
        }
        self.flights.push(Flight { key, waiters: 0, answer: None });
        assert(flight_views(self.flights@) =~= start.flights.push(
            (FlightView { key: leader.key@, waiters: 0, answer: None }),
        ));
        FlightRole::Leader(leader)
    }

    /// Publishes the leader's answer and tells how many waiters get it.
    pub fn publish(&mut self, leader: &FlightLeader, answer: Vec<u8>) -> (res: usize)
        requires
            old(self)@.ok(),
        ensures
            final(self)@ == old(self)@.published(leader.key@, answer@),
            res == old(self)@.waiting(leader.key@),
            final(self)@.ok(),
    {
        let ghost start = self@;
        let at: usize = self.find(&leader.key);
        if at >= self.flights.len() {
            return 0;
        }
        proof {
            law_published_is_ready(start, leader.key@, answer@);
        }
        assert(start.flights[at as int] == flight_view(self.flights@[at as int]));
        let waiters: usize = self.flights[at].waiters;
        let ghost bytes = answer@;
        let key: FlightKey = leader.key.copy();
        self.flights.set(at, Flight { key, waiters: 0, answer: Some(answer) });
        assert(flight_views(self.flights@) =~= start.flights.update(
            at as int,
            (FlightView { key: leader.key@, waiters: 0, answer: Some(bytes) }),
        ));
        waiters
    }

    /// Ends a leader's flight and tells how many waiters are left without an answer.
    pub fn finish(&mut self, leader: FlightLeader) -> (res: usize)
        requires
            old(self)@.ok(),
        ensures
            final(self)@ == old(self)@.finished(leader.key@),
            res == old(self)@.waiting(leader.key@),
            final(self)@.ok(),
    {
        let ghost start = self@;
        let at: usize = self.find(&leader.key);
        if at >= self.flights.len() {
            return 0;
        }
        proof {
            law_finished_is_gone(start, leader.key@);
        }
        assert(start.flights[at as int] == flight_view(self.flights@[at as int]));
        let gone: Flight = self.flights.remove(at);
        assert(flight_views(self.flights@) =~= start.flights.remove(at as int));
        if gone.answer.is_none() {
            self.counters.aborts = bump(self.counters.aborts);
        }
        gone.waiters
    }

    /// Counts a waiter whose leader is gone and who has to try again.
    pub fn waiter_retries(&mut self)
        requires
            old(self)@.ok(),
        ensures
            final(self)@ == old(self)@.retried(),
            final(self)@.ok(),
    {
        self.counters.retries = bump(self.counters.retries);
    }

    /// What has happened so far.
    pub fn counters(&self) -> (res: FlightCounters)
        ensures
            res == self@.counters,
    {
        self.counters
    }

    /// How many flights are under way.
    pub fn active_len(&self) -> (res: usize)
        ensures
            res == self@.flights.len(),
    {
        self.flights.len()
    }
}

/// A flight whose answer was published has it, and nothing else has changed.
pub proof fn law_published_has_answer(s: FlightsView, key: (bool, Seq<u8>), answer: Seq<u8>)
    requires
        s.ok(),
        s.has(key),
    ensures
        s.published(key, answer).has(key),
        s.published(key, answer).flights.len() == s.flights.len(),
        s.published(key, answer).flights[s.published(key, answer).place(key)].answer == Some(answer),
        s.published(key, answer).waiting(key) == 0,
        s.published(key, answer).counters == s.counters,
{
    lemma_place(s.flights, key, 0);
    let t = s.published(key, answer);
    lemma_place_is(t.flights, key, s.place(key));
}

/// What one caller does leaves the flights of other keys alone.
pub proof fn law_flights_keep_apart(
    s: FlightsView,
    key: (bool, Seq<u8>),
    other: (bool, Seq<u8>),
    answer: Seq<u8>,
)
    requires
        s.ok(),
        key != other,
    ensures
        s.acquired(key).0.has(other) == s.has(other),
        s.published(key, answer).has(other) == s.has(other),
        s.finished(key).has(other) == s.has(other),
        s.has(other) ==> s.published(key, answer).waiting(other) == s.waiting(other),
        s.has(other) ==> s.acquired(key).0.waiting(other) == s.waiting(other),
{
    lemma_place(s.flights, key, 0);
    lemma_place(s.flights, other, 0);
    lemma_place(s.acquired(key).0.flights, other, 0);
    lemma_place(s.published(key, answer).flights, other, 0);
    lemma_place(s.finished(key).flights, other, 0);
    let at = s.place(other);
    if s.has(other) {
        let a = s.acquired(key).0.flights;
        let p = s.published(key, answer).flights;
        assert(a[at].key == other);
        assert(p[at].key == other);
        lemma_place_is(a, other, at);
        lemma_place_is(p, other, at);
        if s.has(key) {
            let f = s.finished(key).flights;
            let moved = if at < s.place(key) {
                at
            } else {
                at - 1
            };
            assert(f[moved].key == other);
        }
    }
    if s.has(key) {
        let f = s.finished(key).flights;
        assert forall|i: int| 0 <= i < f.len() implies #[trigger] f[i] == s.flights[if i < s.place(key) {
            i
        } else {
            i + 1
        }] by {}
    }
    if !s.has(other) {
        let a = s.acquired(key).0.flights;
        let p = s.published(key, answer).flights;
        assert forall|i: int| 0 <= i < a.len() implies (#[trigger] a[i]).key != other by {
            if i < s.flights.len() {
                assert(s.flights[i].key != other);
            }
        }
        assert forall|i: int| 0 <= i < p.len() implies (#[trigger] p[i]).key != other by {
            assert(s.flights[i].key != other);
        }
    }
}

/// Every caller is counted once: as the leader of a flight or of a refresh, as one who shares an
/// answer, or as one who is turned away. Nothing else is counted but the flights that are not
/// started for those who wait.
pub proof fn law_callers_are_counted(s: FlightsView, key: (bool, Seq<u8>))
    requires
        s.counters.leaders < u64::MAX,
        s.counters.refreshes < u64::MAX,
        s.counters.waiters < u64::MAX,
        s.counters.rejections < u64::MAX,
        s.counters.amplification_avoided < u64::MAX,
    ensures
        ({
            let (after, role) = s.acquired(key);
            let (c, d) = (s.counters, after.counters);
            &&& d.aborts == c.aborts && d.retries == c.retries
            &&& d.leaders - c.leaders == (if role is Leader && !key.0 {
                1int
            } else {
                0
            })
            &&& d.refreshes - c.refreshes == (if role is Leader && key.0 {
                1int
            } else {
                0
            })
            &&& d.waiters - c.waiters == (if role is Waiter || role is Ready {
                1int
            } else {
                0
            })
            &&& d.rejections - c.rejections == (if role is Rejected {
                1int
            } else {
                0
            })
            &&& d.amplification_avoided - c.amplification_avoided == (if role is Waiter {
                1int
            } else {
                0
            })
        }),
{
}

/// How many wait for an answer: none where nobody asks or the answer is there, and one more with each
/// who comes to wait.
pub proof fn law_waiters_are_known(s: FlightsView, key: (bool, Seq<u8>), answer: Seq<u8>)
    requires
        s.ok(),
    ensures
        !s.has(key) ==> s.waiting(key) == 0,
        s.acquired(key).1 is Waiter ==> s.acquired(key).0.waiting(key) == s.waiting(key) + 1,
        s.acquired(key).1 is Leader ==> s.acquired(key).0.waiting(key) == 0,
        s.has(key) ==> s.published(key, answer).waiting(key) == 0,
{
    lemma_place(s.flights, key, 0);
    let at = s.place(key);
    if s.has(key) {
        if s.acquired(key).1 is Waiter {
            lemma_place_is(s.acquired(key).0.flights, key, at);
        }
        lemma_place_is(s.published(key, answer).flights, key, at);
    } else if s.acquired(key).1 is Leader {
        lemma_place_is(s.acquired(key).0.flights, key, s.flights.len() as int);
    }
}

} // verus!
