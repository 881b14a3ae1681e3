//! Many queries on one stream: each gets an identifier of its own, and its answer is given back
//! under the identifier that the client used.
use std::collections::{HashMap, VecDeque};

use vstd::prelude::*;

use crate::dns::wire;
use crate::dns::wire::{push_all, push_u16, put_u16, question_end, range_equals, slice_to_vec};

verus! {

broadcast use vstd::std_specs::hash::group_hash_axioms;

/// How many queries wait for an answer at most.
pub const MAX_PENDING: usize = 1024;

/// How long an identifier rests once its query is over, in milliseconds.
pub const ID_QUARANTINE: u64 = 3000;

/// How many words the set of resting identifiers has.
pub const ID_BITMAP_WORDS: usize = 1024;

/// How often an identifier is drawn before giving up.
pub const ID_DRAWS: usize = 128;

/// Why a query cannot be sent.
#[derive(Clone, Copy, Debug, PartialEq, Eq, Structural)]
pub enum PipelineError {
    TooShort,
    MalformedQuestion,
    Closed,
    Saturated,
    IdsExhausted,
}

/// A query that waits for its answer.
struct Pending {
    question: Vec<u8>,
    original_id: (u8, u8),
}

/// A query that waits, as plain values: its question and the client's identifier.
pub struct PendingView {
    pub question: Seq<u8>,
    pub original_id: (u8, u8),
}

/// A session as plain values.
#[verifier::ext_equal]
pub struct PipelineView {
    pub closed: bool,
    pub pending: Map<u16, PendingView>,
    pub retired: Seq<(u64, u16)>,
}

/// The session once the identifiers whose rest is over have been freed.
pub open spec fn purged(retired: Seq<(u64, u16)>, now: u64) -> Seq<(u64, u16)>
    decreases retired.len(),
{
    if retired.len() > 0 && retired[0].0 <= now {
        purged(retired.skip(1), now)
    } else {
        retired
    }
}

/// The identifier rests.
pub open spec fn rests(retired: Seq<(u64, u16)>, id: u16) -> bool {
    exists|i: int| 0 <= i < retired.len() && (#[trigger] retired[i]).1 == id
}

/// The time at which an identifier that is retired now is free again.
pub open spec fn rest_until(now: u64) -> u64 {
    if now + ID_QUARANTINE > u64::MAX {
        u64::MAX
    } else {
        (now + ID_QUARANTINE) as u64
    }
}

/// A query on the stream: its length, and the query under another identifier.
pub open spec fn piped(query: Seq<u8>, id: u16) -> Seq<u8> {
    wire::be16_bytes((query.len() % 65536) as u16) + wire::with_be16(query, 0, id)
}

/// A message under another identifier.
pub open spec fn with_id(message: Seq<u8>, id: (u8, u8)) -> Seq<u8> {
    message.update(0, id.0).update(1, id.1)
}

/// How long the message is that follows two length bytes; none is shorter than its header.
pub open spec fn message_length(prefix: Seq<u8>) -> Option<usize> {
    if wire::be16(prefix, 0) < 12 {
        None
    } else {
        Some(wire::be16(prefix, 0) as usize)
    }
}

/// The first of the drawn identifiers that is neither resting nor in use.
pub open spec fn first_usable(s: PipelineView, drawn: Seq<u16>, from: int) -> Option<u16>
    decreases drawn.len() - from,
{
    if from >= drawn.len() {
        None
    } else if !rests(s.retired, drawn[from]) && !s.pending.contains_key(drawn[from]) {
        Some(drawn[from])
    } else {
        first_usable(s, drawn, from + 1)
    }
}

impl PipelineView {
    /// What sending a query comes to, given the identifiers that are drawn for it.
    pub open spec fn sent(&self, query: Seq<u8>, now: u64, drawn: Seq<u16>) -> Result<
        (PipelineView, u16, Seq<u8>),
        PipelineError,
    > {
        let fresh = PipelineView { retired: purged(self.retired, now), ..*self };
        if query.len() < 12 {
            Err(PipelineError::TooShort)
        } else {
            match wire::question_end_spec(query) {
                None => Err(PipelineError::MalformedQuestion),
                Some(end) => if self.closed {
                    Err(PipelineError::Closed)
                } else if self.pending.len() >= MAX_PENDING {
                    Err(PipelineError::Saturated)
                } else {
                    match first_usable(fresh, drawn, 0) {
                        None => Err(PipelineError::IdsExhausted),
                        Some(id) => Ok(
                            (
                                PipelineView {
                                    pending: self.pending.insert(
                                        id,
                                        PendingView {
                                            question: query.subrange(12, end),
                                            original_id: (query[0], query[1]),
                                        },
                                    ),
                                    ..fresh
                                },
                                id,
                                piped(query, id),
                            ),
                        ),
                    }
                },
            }
        }
    }

    /// The session once a query has been refused: identifiers whose rest is over are freed on the
    /// way to the last two refusals.
    pub open spec fn refused(&self, why: PipelineError, now: u64) -> PipelineView {
        match why {
            PipelineError::Saturated | PipelineError::IdsExhausted => PipelineView {
                retired: purged(self.retired, now),
                ..*self
            },
            _ => *self,
        }
    }

    /// The session once a query is over: its identifier rests.
    pub open spec fn without(&self, id: u16, now: u64) -> PipelineView {
        if self.pending.contains_key(id) {
            PipelineView {
                pending: self.pending.remove(id),
                retired: self.retired.push((rest_until(now), id)),
                ..*self
            }
        } else {
            *self
        }
    }

    /// The message answers a query that waits: same identifier, same question.
    pub open spec fn answers(&self, message: Seq<u8>) -> bool {
        let id = wire::be16(message, 0);
        &&& wire::question_end_spec(message) is Some
        &&& self.pending.contains_key(id)
        &&& self.pending[id].question == message.subrange(
            12,
            wire::question_end_spec(message).unwrap(),
        )
    }

    /// What taking in a message comes to: the session after it, and the answer with the identifier
    /// that its query had on the stream.
    pub open spec fn received(&self, message: Seq<u8>, now: u64) -> (
        PipelineView,
        Option<(u16, Seq<u8>)>,
    ) {
        let id = wire::be16(message, 0);
        if self.answers(message) {
            (self.without(id, now), Some((id, with_id(message, self.pending[id].original_id))))
        } else {
            (*self, None)
        }
    }

    /// The session once it is closed.
    pub open spec fn shut(&self) -> PipelineView {
        PipelineView { closed: true, pending: Map::empty(), retired: self.retired }
    }

    /// No identifier in use rests, none rests twice, and the pending queries are not too many.
    pub open spec fn ok(&self) -> bool {
        &&& self.pending.dom().finite()
        &&& self.pending.len() <= MAX_PENDING
        &&& forall|id: u16| #[trigger] self.pending.contains_key(id) ==> !rests(self.retired, id)
        &&& forall|i: int, j: int|
            0 <= i < j < self.retired.len() ==> (#[trigger] self.retired[i]).1 != (
            #[trigger] self.retired[j]).1
    }
}

/// An answer comes back under the identifier that the client used, and its query is over; a
/// second copy of it answers nothing.
pub proof fn law_answered_once(s: PipelineView, message: Seq<u8>, now: u64)
    requires
        s.ok(),
        s.answers(message),
    ensures
        !s.without(wire::be16(message, 0), now).answers(message),
        rests(s.without(wire::be16(message, 0), now).retired, wire::be16(message, 0)),
{
    let id = wire::be16(message, 0);
    let after = s.without(id, now).retired;
    assert(after[s.retired.len() as int].1 == id);
}

/// An identifier is handed out only when it is neither in use nor resting.
pub proof fn law_identifier_is_free(s: PipelineView, query: Seq<u8>, now: u64, drawn: Seq<u16>)
    requires
        s.ok(),
        s.sent(query, now, drawn) is Ok,
    ensures
        !s.pending.contains_key(s.sent(query, now, drawn)->Ok_0.1),
        !rests(purged(s.retired, now), s.sent(query, now, drawn)->Ok_0.1),
        drawn.contains(s.sent(query, now, drawn)->Ok_0.1),
{
    let fresh = PipelineView { retired: purged(s.retired, now), ..s };
    lemma_first_usable(fresh, drawn, 0);
}

proof fn lemma_first_usable(s: PipelineView, drawn: Seq<u16>, from: int)
    requires
        0 <= from,
    ensures
        first_usable(s, drawn, from) matches Some(id) ==> !rests(s.retired, id)
            && !s.pending.contains_key(id) && drawn.contains(id),
    decreases drawn.len() - from,
{
    if from < drawn.len() {
        lemma_first_usable(s, drawn, from + 1);
    }
}

/// What is left after purging is a tail of what was there.
proof fn lemma_purged(retired: Seq<(u64, u16)>, now: u64)
    ensures
        purged(retired, now).len() <= retired.len(),
        purged(retired, now) == retired.skip(retired.len() - purged(retired, now).len()),
    decreases retired.len(),
{
    if retired.len() > 0 && retired[0].0 <= now {
        lemma_purged(retired.skip(1), now);
        assert(retired.skip(1).skip(retired.len() - 1 - purged(retired, now).len())
            =~= retired.skip(retired.len() - purged(retired, now).len()));
    } else {
        assert(retired.skip(0) =~= retired);
    }
}

/// The bit of an identifier in the set of resting identifiers.
spec fn bit_set(words: Seq<u64>, id: u16) -> bool {
    (words[(id / 64) as int] >> ((id % 64) as u64)) & 1u64 == 1u64
}

proof fn lemma_bit_changes(word: u64, b: u64, c: u64)
    requires
        b < 64,
        c < 64,
    ensures
        ((word | (1u64 << b)) >> c) & 1u64 == (if b == c {
            1u64
        } else {
            (word >> c) & 1u64
        }),
        ((word & !(1u64 << b)) >> c) & 1u64 == (if b == c {
            0u64
        } else {
            (word >> c) & 1u64
        }),
        (word & (1u64 << b) != 0) == ((word >> b) & 1u64 == 1u64),
{
    assert(((word | (1u64 << b)) >> c) & 1u64 == (if b == c {
        1u64
    } else {
        (word >> c) & 1u64
    })) by (bit_vector)
        requires
            b < 64,
            c < 64,
    ;
    assert(((word & !(1u64 << b)) >> c) & 1u64 == (if b == c {
        0u64
    } else {
        (word >> c) & 1u64
    })) by (bit_vector)
        requires
            b < 64,
            c < 64,
    ;
    assert((word & (1u64 << b) != 0) == ((word >> b) & 1u64 == 1u64)) by (bit_vector)
        requires
            b < 64,
    ;
}

/// Two identifiers with the same word and the same bit are the same.
proof fn lemma_id_split(a: u16, b: u16)
    requires
        a / 64 == b / 64,
        a % 64 == b % 64,
    ensures
        a == b,
{
}

/// Many queries on one stream.
pub struct PipelinedSession {
    closed: bool,
    pending: HashMap<u16, Pending>,
    retired: VecDeque<(u64, u16)>,
    retired_ids: Vec<u64>,
}

spec fn pending_view(p: Pending) -> PendingView {
    PendingView { question: p.question@, original_id: p.original_id }
}

impl View for PipelinedSession {
    type V = PipelineView;

    closed spec fn view(&self) -> PipelineView {
        PipelineView {
            closed: self.closed,
            pending: self.pending@.map_values(|p: Pending| pending_view(p)),
            retired: self.retired@,
        }
    }
}

/// `rand::random`: some identifier; which one is left to chance.
#[verifier::external_body]
pub(crate) fn random_id() -> (res: u16) {
    rand::random()
}

impl PipelinedSession {
    /// The session is in order, and the set of resting identifiers is what rests.
    pub closed spec fn wf(&self) -> bool {
        &&& self@.ok()
        &&& self.retired_ids@.len() == ID_BITMAP_WORDS
        &&& forall|id: u16| #[trigger] bit_set(self.retired_ids@, id) == rests(self.retired@, id)
    }

    /// A session in order is in order as plain values too.
    pub proof fn lemma_wf(&self)
        requires
            self.wf(),
        ensures
            self@.ok(),
    {
    }

    /// A session that nothing was sent on.
    pub fn new() -> (res: PipelinedSession)
        ensures
            res.wf(),
            !res@.closed,
            res@.pending == Map::<u16, PendingView>::empty(),
            res@.retired.len() == 0,
    {
        let mut words: Vec<u64> = Vec::new();
        let mut i: usize = 0;
        while i < ID_BITMAP_WORDS
            invariant
                i <= ID_BITMAP_WORDS,
                words@.len() == i,
                forall|k: int| 0 <= k < i ==> #[trigger] words@[k] == 0,
            decreases ID_BITMAP_WORDS - i,
        {
            words.push(0);
            i = i + 1;
        }
        let res = PipelinedSession {
            closed: false,
            pending: HashMap::new(),
            retired: VecDeque::new(),
            retired_ids: words,
        };
        assert(res@.pending =~= Map::<u16, PendingView>::empty());
        assert forall|id: u16| #[trigger] bit_set(words@, id) == rests(res.retired@, id) by {
            let b = (id % 64) as u64;
            assert(words@[(id / 64) as int] == 0);
            assert((0u64 >> b) & 1u64 != 1u64) by (bit_vector);
        }
        res
    }

    /// Whether the session is closed.
    pub fn is_closed(&self) -> (res: bool)
        ensures
            res == self@.closed,
    {
        self.closed
    }

    fn purge_retired(&mut self, now: u64)
        requires
            old(self).wf(),
        ensures
            final(self).wf(),
            final(self)@ == (PipelineView { retired: purged(old(self)@.retired, now), ..old(self)@ }),
    {
        let ghost start = self@.retired;
        while self.retired.len() > 0
            invariant_except_break
                self.wf(),
                purged(self.retired@, now) == purged(start, now),
                self@.closed == old(self)@.closed,
                self@.pending == old(self)@.pending,
            ensures
                self.wf(),
                self.retired@ == purged(start, now),
                self@.closed == old(self)@.closed,
                self@.pending == old(self)@.pending,
            decreases self.retired@.len(),
        {
            let ghost before = self@.retired;
            let ghost words = self.retired_ids@;
            assert(forall|i: int, j: int|
                0 <= i < j < before.len() ==> (#[trigger] before[i]).1 != (#[trigger] before[j]).1);
            let ghost pending = self@.pending;
            if self.retired[0].0 > now {
                break;
            }
            let (_, id): (u64, u16) = self.retired.pop_front().unwrap();
            assert(self.retired@ =~= before.skip(1));
            let word: usize = (id / 64) as usize;
            let bit: u64 = (id % 64) as u64;
            let old_word: u64 = self.retired_ids[word];
            self.retired_ids.set(word, old_word & !(1u64 << bit));
            assert(before[0].1 == id);
            assert(!rests(self.retired@, id)) by {
                if rests(self.retired@, id) {
                    let i = choose|i: int|
                        0 <= i < self.retired@.len() && (#[trigger] self.retired@[i]).1 == id;
                    assert(before[i + 1].1 == id);
                }
            }
            assert forall|other: u16| #[trigger] bit_set(self.retired_ids@, other) == rests(
                self.retired@,
                other,
            ) by {
                assert(bit_set(words, other) == rests(before, other));
                lemma_bit_changes(old_word, bit, (other % 64) as u64);
                if other != id {
                    if other / 64 == id / 64 && other % 64 == id % 64 {
                        lemma_id_split(other, id);
                    }
                    if rests(before, other) {
                        let i = choose|i: int|
                            0 <= i < before.len() && (#[trigger] before[i]).1 == other;
                        assert(self.retired@[i - 1].1 == other);
                    }
                    if rests(self.retired@, other) {
                        let i = choose|i: int|
                            0 <= i < self.retired@.len() && (#[trigger] self.retired@[i]).1
                                == other;
                        assert(before[i + 1].1 == other);
                    }
                }
            }
            assert forall|k: u16| #[trigger] self@.pending.contains_key(k) implies !rests(
                self.retired@,
                k,
            ) by {
                assert(pending.contains_key(k));
                if rests(self.retired@, k) {
                    let i = choose|i: int|
                        0 <= i < self.retired@.len() && (#[trigger] self.retired@[i]).1 == k;
                    assert(before[i + 1].1 == k);
                }
            }
            assert forall|i: int, j: int| 0 <= i < j < self.retired@.len() implies (
            #[trigger] self.retired@[i]).1 != (#[trigger] self.retired@[j]).1 by {
                assert(before[i + 1].1 != before[j + 1].1);
            }
        }
    }

    fn retire_id(&mut self, id: u16, now: u64)
        requires
            old(self).wf(),
            !rests(old(self)@.retired, id),
            !old(self)@.pending.contains_key(id),
        ensures
            final(self).wf(),
            final(self)@ == (PipelineView {
                retired: old(self)@.retired.push((rest_until(now), id)),
                ..old(self)@
            }),
    {
        let ghost before = self.retired@;
        let ghost words = self.retired_ids@;
        let word: usize = (id / 64) as usize;
        let bit: u64 = (id % 64) as u64;
        let old_word: u64 = self.retired_ids[word];
        self.retired_ids.set(word, old_word | (1u64 << bit));
        let until: u64 = if now > 0xffff_ffff_ffff_ffff - ID_QUARANTINE {
            0xffff_ffff_ffff_ffff
        } else {
            now + ID_QUARANTINE
        };
        self.retired.push_back((until, id));
        let ghost after = self.retired@;
        assert(after =~= before.push((until, id)));
        assert forall|other: u16| #[trigger] bit_set(self.retired_ids@, other) == rests(
            after,
            other,
        ) by {
            assert(bit_set(words, other) == rests(before, other));
            lemma_bit_changes(old_word, bit, (other % 64) as u64);
            assert(after[before.len() as int].1 == id);
            if other != id {
                if other / 64 == id / 64 && other % 64 == id % 64 {
                    lemma_id_split(other, id);
                }
                if rests(before, other) {
                    let i = choose|i: int|
                        0 <= i < before.len() && (#[trigger] before[i]).1 == other;
                    assert(after[i].1 == other);
                }
                if rests(after, other) {
                    let i = choose|i: int| 0 <= i < after.len() && (#[trigger] after[i]).1 == other;
                    assert(before[i].1 == other);
                }
            }
        }
        assert forall|k: u16| #[trigger] self@.pending.contains_key(k) implies !rests(after, k) by {
            assert(old(self)@.pending.contains_key(k));
            if rests(after, k) {
                let i = choose|i: int| 0 <= i < after.len() && (#[trigger] after[i]).1 == k;
                assert(before[i].1 == k);
            }
        }
        assert forall|i: int, j: int| 0 <= i < j < after.len() implies (#[trigger] after[i]).1 != (
        #[trigger] after[j]).1 by {
            if j == before.len() {
                if after[i].1 == id {
                    assert(before[i].1 == id);
                }
            } else {
                assert(before[i].1 != before[j].1);
            }
        }
    }

    fn usable(&self, id: u16) -> (res: bool)
        requires
            self.wf(),
        ensures
            res == (!rests(self@.retired, id) && !self@.pending.contains_key(id)),
    {
        let word: u64 = self.retired_ids[(id / 64) as usize];
        let bit: u64 = (id % 64) as u64;
        proof {
            lemma_bit_changes(word, bit, bit);
            assert(bit_set(self.retired_ids@, id) == rests(self.retired@, id));
        }
        let retired: bool = word & (1u64 << bit) != 0;
        !retired && !self.pending.contains_key(&id)
    }

    fn allocate_id(&self, drawn: &Vec<u16>) -> (res: Option<u16>)
        requires
            self.wf(),
        ensures
            res == first_usable(self@, drawn@, 0),
    {
        let mut i: usize = 0;
        while i < drawn.len()
            invariant
                self.wf(),
                i <= drawn@.len(),
                first_usable(self@, drawn@, 0) == first_usable(self@, drawn@, i as int),
            decreases drawn@.len() - i,
        {
            if self.usable(drawn[i]) {
                return Some(drawn[i]);
            }
            i = i + 1;
        }
        None
    }

    /// Registers a query under the first of the drawn identifiers that is free, and gives that
    /// identifier and the bytes to write.
    pub fn send_with(&mut self, query: &[u8], now: u64, drawn: &Vec<u16>) -> (res: Result<
        (u16, Vec<u8>),
        PipelineError,
    >)
        requires
            old(self).wf(),
        ensures
            final(self).wf(),
            match (old(self)@.sent(query@, now, drawn@), res) {
                (Ok((after, id, bytes)), Ok((i, b))) => final(self)@ == after && i == id && b@
                    == bytes,
                (Err(e), Err(f)) => e == f && final(self)@ == old(self)@.refused(e, now),
                _ => false,
            },
    {
        if query.len() < 12 {
            return Err(PipelineError::TooShort);
        }
        let end: usize = match question_end(query) {
            Some(end) => end,
            None => return Err(PipelineError::MalformedQuestion),
        };
        if self.closed {
            return Err(PipelineError::Closed);
        }
        self.purge_retired(now);
        let ghost fresh = self@;
        proof {
            self.lemma_pending_len();
        }
        if self.pending.len() >= MAX_PENDING {
            return Err(PipelineError::Saturated);
        }
        let id: u16 = match self.allocate_id(drawn) {
            Some(id) => id,
            None => return Err(PipelineError::IdsExhausted),
        };
        proof {
            lemma_first_usable(fresh, drawn@, 0);
        }
        let question: Vec<u8> = slice_to_vec(query, 12, end);
        let entry = Pending { question, original_id: (query[0], query[1]) };
        let ghost entry_view = pending_view(entry);
        self.pending.insert(id, entry);
        assert(self@.pending =~= fresh.pending.insert(id, entry_view));
        assert(self@.pending.len() == fresh.pending.len() + 1);
        let mut bytes: Vec<u8> = Vec::new();
        push_u16(&mut bytes, (query.len() % 65536) as u16);
        push_all(&mut bytes, query);
        put_u16(&mut bytes, 2, id);
        assert(bytes@ =~= piped(query@, id));
        Ok((id, bytes))
    }

    /// The pending queries are as many as their views.
    proof fn lemma_pending_len(&self)
        ensures
            self@.pending.dom() == self.pending@.dom(),
            self@.pending.len() == self.pending@.len(),
    {
        assert(self@.pending.dom() =~= self.pending@.dom());
    }

    /// Registers a query under an identifier drawn by chance, and gives that identifier and the
    /// bytes to write.
    pub fn send(&mut self, query: &[u8], now: u64) -> (res: Result<(u16, Vec<u8>), PipelineError>)
        requires
            old(self).wf(),
        ensures
            final(self).wf(),
            query@.len() < 12 ==> res == Err::<(u16, Vec<u8>), PipelineError>(
                PipelineError::TooShort,
            ),
            query@.len() >= 12 && wire::question_end_spec(query@) is None ==> res == Err::<
                (u16, Vec<u8>),
                PipelineError,
            >(PipelineError::MalformedQuestion),
            exists|drawn: Seq<u16>|
                drawn.len() == ID_DRAWS && match (#[trigger] old(self)@.sent(query@, now, drawn), res) {
                    (Ok((after, id, bytes)), Ok((i, b))) => final(self)@ == after && i == id && b@
                        == bytes,
                    (Err(e), Err(f)) => e == f && final(self)@ == old(self)@.refused(e, now),
                    _ => false,
                },
    {
        let mut drawn: Vec<u16> = Vec::new();
        let mut i: usize = 0;
        while i < ID_DRAWS
            invariant
                i <= ID_DRAWS,
                drawn@.len() == i,
            decreases ID_DRAWS - i,
        {
            drawn.push(random_id());
            i = i + 1;
        }
        let res = self.send_with(query, now, &drawn);
        assert(drawn@.len() == ID_DRAWS);
        res
    }

    /// How long the message is that follows two length bytes; `None` where the stream cannot be
    /// used any more, since no message is shorter than its header.
    pub fn read_loop(prefix: &[u8]) -> (res: Option<usize>)
        requires
            prefix@.len() == 2,
        ensures
            res == message_length(prefix@),
    {
        let length: usize = (prefix[0] as usize) * 256 + (prefix[1] as usize);
        if length < 12 {
            None
        } else {
            Some(length)
        }
    }

    /// Takes in a message from the stream. One that answers a query that waits is given back under
    /// the client's identifier; any other is passed over.
    pub fn handle_response(&mut self, message: &[u8], now: u64) -> (res: Option<(u16, Vec<u8>)>)
        requires
            old(self).wf(),
        ensures
            final(self).wf(),
            final(self)@ == old(self)@.received(message@, now).0,
            match (res, old(self)@.received(message@, now).1) {
                (Some((id, bytes)), Some((i, b))) => id == i && bytes@ == b,
                (None, None) => true,
                _ => false,
            },
    {
        let end: usize = match question_end(message) {
            Some(end) => end,
            None => return None,
        };
        let id: u16 = (message[0] as u16) * 256 + (message[1] as u16);
        let ghost start = self@;
        let original_id: (u8, u8) = match self.pending.get(&id) {
            Some(p) => {
                assert(start.pending[id] == pending_view(*p));
                if !range_equals(message, 12, end, &p.question) {
                    return None;
                }
                p.original_id
            },
            None => return None,
        };
        self.pending.remove(&id);
        assert(self@.pending =~= start.pending.remove(id));
        assert(start.pending.contains_key(id));
        self.retire_id(id, now);
        let mut bytes: Vec<u8> = slice_to_vec(message, 0, message.len());
        assert(bytes@ =~= message@);
        bytes.set(0, original_id.0);
        bytes.set(1, original_id.1);
        Some((id, bytes))
    }

    /// Gives a query up.
    pub fn unregister(&mut self, id: u16, now: u64)
        requires
            old(self).wf(),
        ensures
            final(self).wf(),
            final(self)@ == old(self)@.without(id, now),
    {
        let ghost start = self@;
        if self.pending.contains_key(&id) {
            self.pending.remove(&id);
            assert(self@.pending =~= start.pending.remove(id));
            assert(start.pending.contains_key(id));
            self.retire_id(id, now);
        }
    }

    /// Closes the session: nothing waits any more and nothing can be sent.
    pub fn mark_closed(&mut self)
        requires
            old(self).wf(),
        ensures
            final(self).wf(),
            final(self)@ == old(self)@.shut(),
    {
        self.closed = true;
        self.pending.clear();
        assert(self@.pending =~= Map::<u16, PendingView>::empty());
        assert(self@ == old(self)@.shut());
        assert(self@.pending.len() == 0);
    }
}

/// A query goes onto the stream behind its length and under its identifier there, and is otherwise
/// what it was.
pub proof fn law_query_on_the_stream(
    s: PipelineView,
    query: Seq<u8>,
    now: u64,
    drawn: Seq<u16>,
    after: PipelineView,
    id: u16,
    bytes: Seq<u8>,
)
    requires
        s.sent(query, now, drawn) == Ok::<_, PipelineError>((after, id, bytes)),
        query.len() <= u16::MAX,
    ensures
        bytes.len() == query.len() + 2,
        bytes[0] * 256 + bytes[1] == query.len(),
        bytes[2] * 256 + bytes[3] == id,
        bytes.skip(4) == query.skip(2),
        message_length(bytes.take(2)) == Some(query.len() as usize),
{
    assert(bytes.skip(4) =~= query.skip(2));
    assert(bytes.take(2)[0] == bytes[0] && bytes.take(2)[1] == bytes[1]);
}

/// What a query waits for comes back to it: a message under its identifier and with its question
/// is given back under the identifier that the client used, with nothing else changed, and the query
/// is over. The queries beside it wait on.
pub proof fn law_answer_comes_back(
    s: PipelineView,
    query: Seq<u8>,
    now: u64,
    drawn: Seq<u16>,
    after: PipelineView,
    id: u16,
    bytes: Seq<u8>,
    message: Seq<u8>,
    later: u64,
    other: u16,
)
    requires
        s.sent(query, now, drawn) == Ok::<_, PipelineError>((after, id, bytes)),
        message.len() >= 12,
        message[0] * 256 + message[1] == id,
        wire::question_end_spec(message) is Some,
        message.subrange(12, wire::question_end_spec(message).unwrap()) == query.subrange(
            12,
            wire::question_end_spec(query).unwrap(),
        ),
    ensures
        ({
            let (done, answer) = after.received(message, later);
            &&& answer is Some
            &&& answer.unwrap().0 == id
            &&& answer.unwrap().1.len() == message.len()
            &&& answer.unwrap().1.take(2) == query.take(2)
            &&& answer.unwrap().1.skip(2) == message.skip(2)
            &&& !done.pending.contains_key(id)
            &&& other != id ==> (done.pending.contains_key(other) <==> s.pending.contains_key(
                other,
            )) && done.pending[other] == s.pending[other]
        }),
{
    let answer = after.received(message, later).1;
    assert(wire::be16(message, 0) == id);
    assert(answer.unwrap().1.take(2) =~= query.take(2));
    assert(answer.unwrap().1.skip(2) =~= message.skip(2));
}

/// A message under an identifier that nobody uses, or with a question other than the one that was
/// asked, is passed over and changes nothing.
pub proof fn law_foreign_message_is_passed_over(s: PipelineView, message: Seq<u8>, now: u64)
    requires
        wire::question_end_spec(message) is None || !s.pending.contains_key(wire::be16(message, 0))
            || s.pending[wire::be16(message, 0)].question != message.subrange(
            12,
            wire::question_end_spec(message).unwrap(),
        ),
    ensures
        s.received(message, now) == (s, None::<(u16, Seq<u8>)>),
{
}

/// A sound query is sent as long as the session is open, fewer than the greatest number of queries
/// wait and one of the drawn identifiers is neither in use nor resting; else it is refused, for the
/// first reason that there is.
pub proof fn law_what_is_sent(s: PipelineView, query: Seq<u8>, now: u64, drawn: Seq<u16>)
    ensures
        s.sent(query, now, drawn) is Ok <==> {
            &&& query.len() >= 12
            &&& wire::question_end_spec(query) is Some
            &&& !s.closed
            &&& s.pending.len() < 1024
            &&& exists|i: int|
                0 <= i < drawn.len() && !rests(purged(s.retired, now), #[trigger] drawn[i])
                    && !s.pending.contains_key(drawn[i])
        },
        query.len() >= 12 && wire::question_end_spec(query) is Some && s.closed ==> s.sent(
            query,
            now,
            drawn,
        ) == Err::<(PipelineView, u16, Seq<u8>), PipelineError>(PipelineError::Closed),
        query.len() >= 12 && wire::question_end_spec(query) is Some && !s.closed && s.pending.len()
            >= 1024 ==> s.sent(query, now, drawn) == Err::<
            (PipelineView, u16, Seq<u8>),
            PipelineError,
        >(PipelineError::Saturated),
{
    let fresh = PipelineView { retired: purged(s.retired, now), ..s };
    lemma_some_usable(fresh, drawn, 0);
}

proof fn lemma_some_usable(s: PipelineView, drawn: Seq<u16>, from: int)
    requires
        0 <= from,
    ensures
        first_usable(s, drawn, from) is Some <==> exists|i: int|
            from <= i < drawn.len() && !rests(s.retired, #[trigger] drawn[i])
                && !s.pending.contains_key(drawn[i]),
    decreases drawn.len() - from,
{
    if from < drawn.len() {
        lemma_some_usable(s, drawn, from + 1);
        if !rests(s.retired, drawn[from]) && !s.pending.contains_key(drawn[from]) {
            assert(first_usable(s, drawn, from) is Some);
        } else if exists|i: int|
            from <= i < drawn.len() && !rests(s.retired, #[trigger] drawn[i])
                && !s.pending.contains_key(drawn[i]) {
            let i = choose|i: int|
                from <= i < drawn.len() && !rests(s.retired, #[trigger] drawn[i])
                    && !s.pending.contains_key(drawn[i]);
            assert(i != from);
            assert(from + 1 <= i < drawn.len());
        }
    }
}

/// The identifier of a query that is over rests for three seconds: up to then no other query gets
/// it. What rested alone is free again after that.
pub proof fn law_identifier_rests(s: PipelineView, id: u16, now: u64, later: u64)
    requires
        s.pending.contains_key(id),
        now + 3000 <= u64::MAX,
    ensures
        later < now + 3000 ==> rests(purged(s.without(id, now).retired, later), id),
        s.retired.len() == 0 && later >= now + 3000 ==> !rests(
            purged(s.without(id, now).retired, later),
            id,
        ),
{
    let retired = s.without(id, now).retired;
    assert(retired[retired.len() - 1] == ((now + 3000) as u64, id));
    if later < now + 3000 {
        lemma_last_is_kept(retired, later);
        let left = purged(retired, later);
        assert(left[left.len() - 1].1 == id);
    } else if s.retired.len() == 0 {
        reveal_with_fuel(purged, 2);
        assert(retired.skip(1) =~= Seq::<(u64, u16)>::empty());
        assert(purged(retired, later).len() == 0);
    }
}

proof fn lemma_last_is_kept(retired: Seq<(u64, u16)>, now: u64)
    requires
        retired.len() > 0,
        retired.last().0 > now,
    ensures
        purged(retired, now).len() > 0,
        purged(retired, now).last() == retired.last(),
    decreases retired.len(),
{
    if retired[0].0 <= now {
        assert(retired.skip(1).last() == retired.last());
        lemma_last_is_kept(retired.skip(1), now);
    }
}

/// A closed session waits for nothing, takes nothing in and sends nothing.
pub proof fn law_closed_session_is_silent(
    s: PipelineView,
    message: Seq<u8>,
    query: Seq<u8>,
    now: u64,
    drawn: Seq<u16>,
)
    ensures
        s.shut().received(message, now) == (s.shut(), None::<(u16, Seq<u8>)>),
        s.shut().sent(query, now, drawn) is Err,
        s.shut().pending == Map::<u16, PendingView>::empty(),
{
}

/// A message on the stream has at least a header; any other length is taken as it stands.
pub proof fn law_shortest_message(prefix: Seq<u8>)
    requires
        prefix.len() == 2,
    ensures
        prefix[0] == 0 && prefix[1] < 12 ==> message_length(prefix) is None,
        prefix[0] > 0 || prefix[1] >= 12 ==> message_length(prefix) == Some(
            (prefix[0] * 256 + prefix[1]) as usize,
        ),
{
}

} // verus!
