//! Queries over UDP: a fixed row of slots, each of which stands for one query at a time. The slot
//! and a salt make up the identifier on the wire.
use vstd::prelude::*;

use crate::dns::transport::pipelined;
use crate::dns::wire;
use crate::dns::wire::{put_u16, question_end, range_equals, slice_to_vec};

verus! {

/// How many slots there are.
pub const SLOT_COUNT: usize = 1024;

/// How long a slot rests once its query is over, in milliseconds.
pub const ID_QUARANTINE: u64 = 3000;

/// Why a query cannot be sent.
#[derive(Clone, Copy, Debug, PartialEq, Eq, Structural)]
pub enum UdpPoolError {
    MalformedQuery,
    Closed,
    Saturated,
}

/// A slot as plain values.
#[verifier::ext_equal]
pub struct UdpSlotView {
    pub in_use: bool,
    pub salt: u8,
    pub question: Seq<u8>,
    pub original_id: (u8, u8),
    pub retired_until: Option<u64>,
}

/// A pool as plain values.
#[verifier::ext_equal]
pub struct UdpPoolView {
    pub slots: Seq<UdpSlotView>,
    pub cursor: u64,
    pub closed: bool,
}

/// The slot can take a query.
pub open spec fn slot_free(slot: UdpSlotView, now: u64) -> bool {
    !slot.in_use && (slot.retired_until matches Some(until) ==> now >= until)
}

/// The first slot that can take a query, in a round from `start` on, or `SLOT_COUNT` tries.
pub open spec fn free_offset(slots: Seq<UdpSlotView>, now: u64, start: int, offset: int) -> int
    decreases SLOT_COUNT - offset,
{
    if offset >= SLOT_COUNT || slot_free(slots[(start + offset) % 1024], now) {
        offset
    } else {
        free_offset(slots, now, start, offset + 1)
    }
}

/// The salt that the next query in a slot gets.
pub open spec fn next_salt(salt: u8) -> u8 {
    if salt == u8::MAX {
        0
    } else {
        (salt + 1) as u8
    }
}

/// The identifier of a slot with a salt: six bits of salt, ten bits of slot.
pub open spec fn wire_id(salt: u8, index: int) -> u16 {
    ((salt % 64) * 1024 + index) as u16
}

/// The next place of the cursor.
pub open spec fn next_cursor(cursor: u64) -> u64 {
    if cursor == u64::MAX {
        0
    } else {
        (cursor + 1) as u64
    }
}

/// When a slot that is given up now is free again.
pub open spec fn rest_until(now: u64) -> u64 {
    if now + ID_QUARANTINE > u64::MAX {
        u64::MAX
    } else {
        (now + ID_QUARANTINE) as u64
    }
}

impl UdpPoolView {
    /// There are as many slots as there should be.
    pub open spec fn ok(&self) -> bool {
        self.slots.len() == SLOT_COUNT
    }

    /// What sending a query comes to: the pool, the identifier and the bytes.
    pub open spec fn sent(&self, query: Seq<u8>, now: u64) -> Result<
        (UdpPoolView, u16, Seq<u8>),
        UdpPoolError,
    > {
        let offset = free_offset(self.slots, now, self.cursor as int, 0);
        let at = (self.cursor as int + offset) % 1024;
        if query.len() < 12 {
            Err(UdpPoolError::MalformedQuery)
        } else if self.closed {
            Err(UdpPoolError::Closed)
        } else {
            match wire::question_end_spec(query) {
                None => Err(UdpPoolError::MalformedQuery),
                Some(end) => if offset >= SLOT_COUNT {
                    Err(UdpPoolError::Saturated)
                } else {
                    let salt = next_salt(self.slots[at].salt);
                    Ok(
                        (
                            UdpPoolView {
                                slots: self.slots.update(
                                    at,
                                    UdpSlotView {
                                        in_use: true,
                                        salt,
                                        question: query.subrange(12, end),
                                        original_id: (query[0], query[1]),
                                        retired_until: None,
                                    },
                                ),
                                cursor: next_cursor(self.cursor),
                                ..*self
                            },
                            wire_id(salt, at),
                            wire::with_be16(query, 0, wire_id(salt, at)),
                        ),
                    )
                },
            }
        }
    }

    /// The pool once a query has been refused: only a search for a slot moves the cursor.
    pub open spec fn refused(&self, why: UdpPoolError) -> UdpPoolView {
        if why == UdpPoolError::Saturated {
            UdpPoolView { cursor: next_cursor(self.cursor), ..*self }
        } else {
            *self
        }
    }

    /// The slot that an identifier names.
    pub open spec fn slot_of(&self, id: u16) -> UdpSlotView {
        self.slots[(id % 1024) as int]
    }

    /// The pool once a slot has been given up.
    pub open spec fn released(&self, id: u16, now: u64) -> UdpPoolView {
        UdpPoolView {
            slots: self.slots.update(
                (id % 1024) as int,
                UdpSlotView {
                    in_use: false,
                    retired_until: Some(rest_until(now)),
                    ..self.slot_of(id)
                },
            ),
            ..*self
        }
    }

    /// The identifier carries the salt that its slot has now.
    pub open spec fn salt_matches(&self, id: u16) -> bool {
        self.slot_of(id).salt == id / 1024
    }

    /// The message answers the query in its slot: same salt, same question.
    pub open spec fn answers(&self, message: Seq<u8>) -> bool {
        let id = wire::be16(message, 0);
        &&& message.len() >= 12
        &&& self.salt_matches(id)
        &&& self.slot_of(id).in_use
        &&& wire::question_end_spec(message) is Some
        &&& self.slot_of(id).question == message.subrange(
            12,
            wire::question_end_spec(message).unwrap(),
        )
    }

    /// What taking in a message comes to: the pool after it, and the answer with the identifier that
    /// its query had on the wire.
    pub open spec fn received(&self, message: Seq<u8>, now: u64) -> (
        UdpPoolView,
        Option<(u16, Seq<u8>)>,
    ) {
        let id = wire::be16(message, 0);
        if self.answers(message) {
            (
                self.released(id, now),
                Some((id, pipelined::with_id(message, self.slot_of(id).original_id))),
            )
        } else {
            (*self, None)
        }
    }

    /// The pool once the query of an identifier has been given up; an identifier with another salt
    /// changes nothing.
    pub open spec fn unregistered(&self, id: u16, now: u64) -> UdpPoolView {
        if self.salt_matches(id) {
            self.released(id, now)
        } else {
            *self
        }
    }
}

/// An identifier tells its slot, and its salt in six bits.
pub proof fn law_wire_id_names_slot(salt: u8, index: int)
    requires
        0 <= index < SLOT_COUNT,
    ensures
        wire_id(salt, index) % 1024 == index,
        wire_id(salt, index) / 1024 == salt % 64,
{
    let id = (salt % 64) * 1024 + index;
    assert(0 <= id < 65536);
    assert(id % 1024 == index && id / 1024 == salt % 64) by (nonlinear_arith)
        requires
            id == (salt % 64) * 1024 + index,
            0 <= index < 1024,
    ;
}

/// The search for a slot ends inside the row and at a free slot, or after a full round.
proof fn lemma_free_offset(slots: Seq<UdpSlotView>, now: u64, start: int, offset: int)
    requires
        0 <= offset <= SLOT_COUNT,
    ensures
        offset <= free_offset(slots, now, start, offset) <= SLOT_COUNT,
        free_offset(slots, now, start, offset) < SLOT_COUNT ==> slot_free(
            slots[(start + free_offset(slots, now, start, offset)) % 1024],
            now,
        ),
    decreases SLOT_COUNT - offset,
{
    if offset < SLOT_COUNT && !slot_free(slots[(start + offset) % 1024], now) {
        lemma_free_offset(slots, now, start, offset + 1);
    }
}

/// A query gets a slot that no other query has, and a message with its identifier and its question
/// answers it, as long as the slot's salt is below 64, all that the identifier has room for.
pub proof fn law_sent_can_be_answered(s: UdpPoolView, query: Seq<u8>, now: u64, message: Seq<u8>)
    requires
        s.ok(),
        s.sent(query, now) is Ok,
        message.len() >= 12,
        wire::be16(message, 0) == s.sent(query, now)->Ok_0.1,
        wire::question_end_spec(message) is Some,
        message.subrange(12, wire::question_end_spec(message).unwrap()) == query.subrange(
            12,
            wire::question_end_spec(query).unwrap(),
        ),
        s.sent(query, now)->Ok_0.0.slot_of(s.sent(query, now)->Ok_0.1).salt < 64,
    ensures
        !s.slot_of(s.sent(query, now)->Ok_0.1).in_use,
        s.sent(query, now)->Ok_0.0.answers(message),
        s.sent(query, now)->Ok_0.0.slot_of(s.sent(query, now)->Ok_0.1).original_id == (
            query[0],
            query[1],
        ),
{
    let (after, id, _) = s.sent(query, now)->Ok_0;
    lemma_free_offset(s.slots, now, s.cursor as int, 0);
    let at = (s.cursor as int + free_offset(s.slots, now, s.cursor as int, 0)) % 1024;
    law_wire_id_names_slot(next_salt(s.slots[at].salt), at);
}

/// Once an answer is taken in, its slot is free for others after its rest, and a second copy of
/// the answer answers nothing.
pub proof fn law_answered_once(s: UdpPoolView, message: Seq<u8>, now: u64)
    requires
        s.ok(),
        s.answers(message),
    ensures
        !s.released(wire::be16(message, 0), now).answers(message),
        slot_free(
            s.released(wire::be16(message, 0), now).slot_of(wire::be16(message, 0)),
            rest_until(now),
        ),
{
}

struct UdpSlot {
    in_use: bool,
    salt: u8,
    question: Vec<u8>,
    original_id: (u8, u8),
    retired_until: Option<u64>,
}

spec fn slot_view(slot: UdpSlot) -> UdpSlotView {
    UdpSlotView {
        in_use: slot.in_use,
        salt: slot.salt,
        question: slot.question@,
        original_id: slot.original_id,
        retired_until: slot.retired_until,
    }
}

spec fn slot_views(slots: Seq<UdpSlot>) -> Seq<UdpSlotView> {
    slots.map_values(|s: UdpSlot| slot_view(s))
}

/// Queries over UDP.
pub struct UdpPool {
    slots: Vec<UdpSlot>,
    cursor: u64,
    closed: bool,
}

impl View for UdpPool {
    type V = UdpPoolView;

    closed spec fn view(&self) -> UdpPoolView {
        UdpPoolView { slots: slot_views(self.slots@), cursor: self.cursor, closed: self.closed }
    }
}

fn compute_rest(now: u64) -> (res: u64)
    ensures
        res == rest_until(now),
{
    if now > 0xffff_ffff_ffff_ffff - ID_QUARANTINE {
        0xffff_ffff_ffff_ffff
    } else {
        now + ID_QUARANTINE
    }
}

impl UdpPool {
    /// A pool whose slots are all free.
    pub fn new() -> (res: UdpPool)
        ensures
            res@.ok(),
            !res@.closed,
            res@.cursor == 0,
            forall|i: int|
                0 <= i < SLOT_COUNT ==> #[trigger] res@.slots[i] == (UdpSlotView {
                    in_use: false,
                    salt: 0,
                    question: Seq::empty(),
                    original_id: (0, 0),
                    retired_until: None,
                }),
    {
        let mut slots: Vec<UdpSlot> = Vec::new();
        let mut i: usize = 0;
        while i < SLOT_COUNT
            invariant
                i <= SLOT_COUNT,
                slots@.len() == i,
                forall|k: int|
                    0 <= k < i ==> slot_view(#[trigger] slots@[k]) == (UdpSlotView {
                        in_use: false,
                        salt: 0,
                        question: Seq::empty(),
                        original_id: (0, 0),
                        retired_until: None,
                    }),
            decreases SLOT_COUNT - i,
        {
            let slot = UdpSlot {
                in_use: false,
                salt: 0,
                question: Vec::new(),
                original_id: (0, 0),
                retired_until: None,
            };
            assert(slot_view(slot).question =~= Seq::<u8>::empty());
            slots.push(slot);
            i = i + 1;
        }
        let res = UdpPool { slots, cursor: 0, closed: false };
        assert forall|i: int| 0 <= i < SLOT_COUNT implies #[trigger] res@.slots[i] == slot_view(
            slots@[i],
        ) by {}
        res
    }

    /// Closes the pool: every query is given up.
    pub fn close(&mut self)
        requires
            old(self)@.ok(),
        ensures
            final(self)@.ok(),
            final(self)@.closed,
            final(self)@.cursor == old(self)@.cursor,
            forall|i: int|
                0 <= i < SLOT_COUNT ==> #[trigger] final(self)@.slots[i] == (UdpSlotView {
                    in_use: false,
                    ..old(self)@.slots[i]
                }),
    {
        self.closed = true;
        let ghost start = old(self)@.slots;
        let mut i: usize = 0;
        while i < self.slots.len()
            invariant
                i <= self.slots@.len() == SLOT_COUNT,
                start == old(self)@.slots,
                start.len() == SLOT_COUNT,
                self.closed,
                self.cursor == old(self)@.cursor,
                forall|k: int|
                    0 <= k < SLOT_COUNT ==> slot_view(#[trigger] self.slots@[k]) == (if k < i {
                        UdpSlotView { in_use: false, ..start[k] }
                    } else {
                        start[k]
                    }),
            decreases self.slots@.len() - i,
        {
            let ghost was = self.slots@[i as int];
            let salt: u8 = self.slots[i].salt;
            let original_id: (u8, u8) = self.slots[i].original_id;
            let retired_until: Option<u64> = self.slots[i].retired_until;
            let question: Vec<u8> = slice_to_vec(
                &self.slots[i].question,
                0,
                self.slots[i].question.len(),
            );
            assert(question@ =~= was.question@);
            self.slots.set(
                i,
                UdpSlot { in_use: false, salt, question, original_id, retired_until },
            );
            i = i + 1;
        }
    }

    /// Takes a slot for a query, and gives the query's identifier and the bytes to send.
    pub fn send(&mut self, query: &[u8], now: u64) -> (res: Result<(u16, Vec<u8>), UdpPoolError>)
        requires
            old(self)@.ok(),
        ensures
            final(self)@.ok(),
            match (old(self)@.sent(query@, now), res) {
                (Ok((after, id, bytes)), Ok((i, b))) => final(self)@ == after && i == id && b@
                    == bytes,
                (Err(e), Err(f)) => e == f && final(self)@ == old(self)@.refused(e),
                _ => false,
            },
    {
        if query.len() < 12 {
            return Err(UdpPoolError::MalformedQuery);
        }
        if self.closed {
            return Err(UdpPoolError::Closed);
        }
        let end: usize = match question_end(query) {
            Some(end) => end,
            None => return Err(UdpPoolError::MalformedQuery),
        };
        let ghost start_slots = self@.slots;
        let start: u64 = self.cursor;
        self.cursor = if start == 0xffff_ffff_ffff_ffff {
            0
        } else {
            start + 1
        };
        let mut offset: usize = 0;
        while offset < SLOT_COUNT
            invariant
                query@.len() >= 12,
                12 <= end <= query@.len(),
                wire::question_end_spec(query@) == Some(end as int),
                !self.closed,
                self.cursor == next_cursor(start),
                start == old(self)@.cursor,
                old(self)@.closed == self.closed,
                start_slots == old(self)@.slots,
                self@.slots == start_slots,
                self.slots@.len() == SLOT_COUNT,
                offset <= SLOT_COUNT,
                free_offset(start_slots, now, start as int, 0) == free_offset(
                    start_slots,
                    now,
                    start as int,
                    offset as int,
                ),
            decreases SLOT_COUNT - offset,
        {
            let idx: usize = ((start % 1024) as usize + offset) % 1024;
            assert(idx == (start as int + offset) % 1024) by (nonlinear_arith)
                requires
                    idx == (start as int % 1024 + offset) % 1024,
            ;
            assert(start_slots[idx as int] == slot_view(self.slots@[idx as int]));
            let resting: bool = match self.slots[idx].retired_until {
                Some(until) => now < until,
                None => false,
            };
            if !self.slots[idx].in_use && !resting {
                let salt: u8 = if self.slots[idx].salt == 255 {
                    0
                } else {
                    self.slots[idx].salt + 1
                };
                let slot = UdpSlot {
                    in_use: true,
                    salt,
                    question: slice_to_vec(query, 12, end),
                    original_id: (query[0], query[1]),
                    retired_until: None,
                };
                let ghost taken = slot_view(slot);
                self.slots.set(idx, slot);
                assert(slot_views(self.slots@) =~= start_slots.update(idx as int, taken));
                let id: u16 = (salt as u16 % 64) * 1024 + idx as u16;
                let mut bytes: Vec<u8> = slice_to_vec(query, 0, query.len());
                assert(bytes@ =~= query@);
                put_u16(&mut bytes, 0, id);
                return Ok((id, bytes));
            }
            offset = offset + 1;
        }
        Err(UdpPoolError::Saturated)
    }

    fn release(&mut self, id: u16, now: u64)
        requires
            old(self)@.ok(),
        ensures
            final(self)@ == old(self)@.released(id, now),
    {
        let idx: usize = (id % 1024) as usize;
        let ghost start = self@.slots;
        let ghost was = self.slots@[idx as int];
        assert(start[idx as int] == slot_view(was));
        let salt: u8 = self.slots[idx].salt;
        let original_id: (u8, u8) = self.slots[idx].original_id;
        let question: Vec<u8> = slice_to_vec(
            &self.slots[idx].question,
            0,
            self.slots[idx].question.len(),
        );
        assert(question@ =~= was.question@);
        let slot = UdpSlot {
            in_use: false,
            salt,
            question,
            original_id,
            retired_until: Some(compute_rest(now)),
        };
        let ghost after = slot_view(slot);
        self.slots.set(idx, slot);
        assert(slot_views(self.slots@) =~= start.update(idx as int, after));
    }

    /// Takes in a message. One that answers the query in its slot is given back under the client's
    /// identifier; any other is passed over.
    pub fn handle_response(&mut self, message: &[u8], now: u64) -> (res: Option<(u16, Vec<u8>)>)
        requires
            old(self)@.ok(),
        ensures
            final(self)@.ok(),
            final(self)@ == old(self)@.received(message@, now).0,
            match (res, old(self)@.received(message@, now).1) {
                (Some((id, bytes)), Some((i, b))) => id == i && bytes@ == b,
                (None, None) => true,
                _ => false,
            },
    {
        if message.len() < 12 {
            return None;
        }
        let id: u16 = (message[0] as u16) * 256 + (message[1] as u16);
        let idx: usize = (id % 1024) as usize;
        assert(self@.slots[idx as int] == slot_view(self.slots@[idx as int]));
        if self.slots[idx].salt as u16 != id / 1024 || !self.slots[idx].in_use {
            return None;
        }
        let end: usize = match question_end(message) {
            Some(end) => end,
            None => return None,
        };
        if !range_equals(message, 12, end, &self.slots[idx].question) {
            return None;
        }
        let original_id: (u8, u8) = self.slots[idx].original_id;
        self.release(id, now);
        let mut bytes: Vec<u8> = slice_to_vec(message, 0, message.len());
        assert(bytes@ =~= message@);
        bytes.set(0, original_id.0);
        bytes.set(1, original_id.1);
        Some((id, bytes))
    }

    /// Gives the query of an identifier up.
    pub fn unregister(&mut self, id: u16, now: u64)
        requires
            old(self)@.ok(),
        ensures
            final(self)@.ok(),
            final(self)@ == old(self)@.unregistered(id, now),
    {
        let idx: usize = (id % 1024) as usize;
        assert(self@.slots[idx as int] == slot_view(self.slots@[idx as int]));
        if self.slots[idx].salt as u16 == id / 1024 {
            self.release(id, now);
        }
    }
}

/// A datagram is the query under its identifier on the wire, and the rest of it is unchanged. The
/// identifier names a slot that was free, and the other slots stay as they are.
pub proof fn law_query_on_the_wire(
    s: UdpPoolView,
    query: Seq<u8>,
    now: u64,
    after: UdpPoolView,
    id: u16,
    bytes: Seq<u8>,
    other: int,
)
    requires
        s.ok(),
        s.sent(query, now) == Ok::<_, UdpPoolError>((after, id, bytes)),
        0 <= other < 1024,
        other != id % 1024,
    ensures
        bytes.len() == query.len(),
        bytes[0] * 256 + bytes[1] == id,
        bytes.skip(2) == query.skip(2),
        slot_free(s.slot_of(id), now),
        after.slot_of(id).in_use,
        after.slots[other] == s.slots[other],
{
    lemma_free_offset(s.slots, now, s.cursor as int, 0);
    let at = (s.cursor as int + free_offset(s.slots, now, s.cursor as int, 0)) % 1024;
    law_wire_id_names_slot(next_salt(s.slots[at].salt), at);
    assert(bytes.skip(2) =~= query.skip(2));
}

/// An answer is given back under the identifier that the client used, with nothing else changed.
/// Its slot rests for three seconds from then on and the other slots stay as they are.
pub proof fn law_answer_comes_back(
    s: UdpPoolView,
    message: Seq<u8>,
    now: u64,
    later: u64,
    other: int,
)
    requires
        s.ok(),
        s.answers(message),
        now + 3000 <= u64::MAX,
        0 <= other < 1024,
        other != wire::be16(message, 0) % 1024,
    ensures
        ({
            let (after, answer) = s.received(message, now);
            let id = wire::be16(message, 0);
            &&& answer is Some
            &&& answer.unwrap().0 == id
            &&& answer.unwrap().1.len() == message.len()
            &&& (answer.unwrap().1[0], answer.unwrap().1[1]) == s.slot_of(id).original_id
            &&& answer.unwrap().1.skip(2) == message.skip(2)
            &&& slot_free(after.slot_of(id), later) <==> later >= now + 3000
            &&& after.slots[other] == s.slots[other]
        }),
{
    let answer = s.received(message, now).1;
    assert(answer.unwrap().1.skip(2) =~= message.skip(2));
}

/// A message for a slot without a query, with another salt or with another question is passed over
/// and changes nothing.
pub proof fn law_foreign_message_is_passed_over(s: UdpPoolView, message: Seq<u8>, now: u64)
    requires
        !s.slot_of(wire::be16(message, 0)).in_use || s.slot_of(wire::be16(message, 0)).salt
            != wire::be16(message, 0) / 1024 || wire::question_end_spec(message) is None
            || s.slot_of(wire::be16(message, 0)).question != message.subrange(
            12,
            wire::question_end_spec(message).unwrap(),
        ),
    ensures
        s.received(message, now) == (s, None::<(u16, Seq<u8>)>),
{
}

/// A sound query is sent as long as the pool is open and some slot is free, wherever it stands.
pub proof fn law_what_is_sent(s: UdpPoolView, query: Seq<u8>, now: u64)
    requires
        s.ok(),
    ensures
        s.sent(query, now) is Ok <==> {
            &&& query.len() >= 12
            &&& wire::question_end_spec(query) is Some
            &&& !s.closed
            &&& exists|i: int| 0 <= i < 1024 && slot_free(#[trigger] s.slots[i], now)
        },
        query.len() >= 12 && s.closed ==> s.sent(query, now) == Err::<
            (UdpPoolView, u16, Seq<u8>),
            UdpPoolError,
        >(UdpPoolError::Closed),
        query.len() >= 12 && wire::question_end_spec(query) is Some && !s.closed && !(exists|i: int|
            0 <= i < 1024 && slot_free(#[trigger] s.slots[i], now)) ==> s.sent(query, now) == Err::<
            (UdpPoolView, u16, Seq<u8>),
            UdpPoolError,
        >(UdpPoolError::Saturated),
{
    let start = s.cursor as int;
    lemma_free_offset(s.slots, now, start, 0);
    let found = free_offset(s.slots, now, start, 0);
    if found < SLOT_COUNT {
        let at = (start + found) % 1024;
        assert(0 <= at < 1024 && slot_free(s.slots[at], now));
    } else if exists|i: int| 0 <= i < 1024 && slot_free(#[trigger] s.slots[i], now) {
        let i = choose|i: int| 0 <= i < 1024 && slot_free(#[trigger] s.slots[i], now);
        let offset = (i - start) % 1024;
        assert((start + offset) % 1024 == i) by (nonlinear_arith)
            requires
                offset == (i - start) % 1024,
                0 <= i < 1024,
        ;
        lemma_full_round(s.slots, now, start, 0, offset);
    }
}

proof fn lemma_full_round(slots: Seq<UdpSlotView>, now: u64, start: int, from: int, offset: int)
    requires
        0 <= from <= offset < SLOT_COUNT,
        slot_free(slots[(start + offset) % 1024], now),
    ensures
        free_offset(slots, now, start, from) <= offset,
    decreases offset - from,
{
    if from < offset && !slot_free(slots[(start + from) % 1024], now) {
        lemma_full_round(slots, now, start, from + 1, offset);
    }
}

/// Giving a query up frees its own slot alone, and not the one that a later query with another salt
/// has taken.
pub proof fn law_given_up_slot(s: UdpPoolView, id: u16, now: u64, other: int)
    requires
        s.ok(),
        0 <= other < 1024,
    ensures
        other != id % 1024 ==> s.unregistered(id, now).slots[other] == s.slots[other],
        s.slot_of(id).salt == id / 1024 ==> !s.unregistered(id, now).slot_of(id).in_use,
        s.slot_of(id).salt != id / 1024 ==> s.unregistered(id, now) == s,
{
}

} // verus!
