//! Reading and writing of DNS wire format.
use vstd::prelude::*;

verus! {

/// The big-endian 16-bit value at `at`.
pub open spec fn be16(bytes: Seq<u8>, at: int) -> u16 {
    (bytes[at] * 256 + bytes[at + 1]) as u16
}

/// The two bytes of a 16-bit value, most significant first.
pub open spec fn be16_bytes(value: u16) -> Seq<u8> {
    seq![(value / 256) as u8, (value % 256) as u8]
}

/// `bytes` with the big-endian form of `value` at `at`.
pub open spec fn with_be16(bytes: Seq<u8>, at: int, value: u16) -> Seq<u8> {
    bytes.update(at, (value / 256) as u8).update(at + 1, (value % 256) as u8)
}

/// The position after the domain name that starts at `at`: a chain of length-prefixed
/// labels closed by a zero byte or by a two-byte compression pointer.
pub open spec fn name_end(raw: Seq<u8>, at: int) -> Option<int>
    decreases raw.len() - at,
{
    if at < 0 || at >= raw.len() {
        None
    } else if raw[at] == 0 {
        Some(at + 1)
    } else if raw[at] >= 192 {
        if at + 2 <= raw.len() {
            Some(at + 2)
        } else {
            None
        }
    } else if raw[at] >= 64 || at + 1 + raw[at] >= raw.len() {
        None
    } else {
        name_end(raw, at + 1 + raw[at])
    }
}

/// A name ends after it starts and inside the message.
pub proof fn lemma_name_end_bounds(raw: Seq<u8>, at: int)
    ensures
        name_end(raw, at) matches Some(end) ==> 0 <= at < end <= raw.len(),
    decreases raw.len() - at,
{
    if 0 <= at && at + 1 + raw[at] < raw.len() && 0 < raw[at] < 64 {
        lemma_name_end_bounds(raw, at + 1 + raw[at]);
    }
}

/// A name reads the same in two messages that agree on its bytes.
pub proof fn lemma_name_end_agree(a: Seq<u8>, b: Seq<u8>, at: int, upto: int)
    requires
        upto <= a.len(),
        upto <= b.len(),
        forall|i: int| at <= i < upto ==> a[i] == b[i],
        name_end(a, at) matches Some(end) && end <= upto,
    ensures
        name_end(b, at) == name_end(a, at),
    decreases a.len() - at,
{
    lemma_name_end_bounds(a, at);
    assert(a[at] == b[at]);
    if 0 < a[at] < 64 {
        lemma_name_end_bounds(a, at + 1 + a[at]);
        lemma_name_end_agree(a, b, at + 1 + a[at], upto);
    }
}

/// Reads the big-endian 16-bit value at `at`; `None` when it does not lie inside the message.
pub fn read_u16(raw: &[u8], at: usize) -> (res: Option<u16>)
    ensures
        res is Some <==> at + 2 <= raw@.len(),
        res matches Some(v) ==> v == be16(raw@, at as int),
{
    if at >= raw.len() || raw.len() - at < 2 {
        return None;
    }
    Some((raw[at] as u16) * 256 + (raw[at + 1] as u16))
}

/// Moves `pos` past the domain name that starts there. A name that runs out of the message or
/// uses a reserved label type gives `false` and leaves `pos` in place.
pub fn skip_dns_name(raw: &[u8], pos: &mut usize) -> (res: bool)
    ensures
        res == (name_end(raw@, *old(pos) as int) is Some),
        name_end(raw@, *old(pos) as int) matches Some(end) ==> *final(pos) == end,
        !res ==> *final(pos) == *old(pos),
{
    let mut at: usize = *pos;
    while at < raw.len()
        invariant
            name_end(raw@, *old(pos) as int) == name_end(raw@, at as int),
            *pos == *old(pos),
        decreases raw@.len() - at,
    {
        let b: u8 = raw[at];
        if b == 0 {
            *pos = at + 1;
            return true;
        }
        if b >= 192 {
            if raw.len() - at < 2 {
                return false;
            }
            *pos = at + 2;
            return true;
        }
        if b >= 64 || raw.len() - at <= b as usize + 1 {
            return false;
        }
        at = at + 1 + b as usize;
    }
    false
}

/// The end of a message's first question: its name, type and class.
pub open spec fn question_end_spec(raw: Seq<u8>) -> Option<int> {
    match name_end(raw, 12) {
        Some(end) => if end + 4 <= raw.len() {
            Some(end + 4)
        } else {
            None
        },
        None => None,
    }
}

/// Finds the end of a message's first question; `None` when the question is malformed.
pub fn question_end(query: &[u8]) -> (res: Option<usize>)
    ensures
        res is Some <==> question_end_spec(query@) is Some,
        res matches Some(end) ==> question_end_spec(query@) == Some(end as int) && 16 < end
            <= query@.len(),
{
    let mut pos: usize = 12;
    proof {
        lemma_name_end_bounds(query@, 12);
    }
    if !skip_dns_name(query, &mut pos) || query.len() - pos < 4 {
        return None;
    }
    Some(pos + 4)
}

/// Overwrites two bytes with a big-endian 16-bit value.
pub fn put_u16(bytes: &mut Vec<u8>, at: usize, value: u16)
    requires
        at + 2 <= old(bytes)@.len(),
    ensures
        final(bytes)@ == with_be16(old(bytes)@, at as int, value),
{
    assert(at + 2 <= bytes.len());
    bytes.set(at, (value / 256) as u8);
    bytes.set(at + 1, (value % 256) as u8);
}

/// Appends a big-endian 16-bit value.
pub fn push_u16(bytes: &mut Vec<u8>, value: u16)
    ensures
        final(bytes)@ == old(bytes)@ + be16_bytes(value),
{
    bytes.push((value / 256) as u8);
    bytes.push((value % 256) as u8);
}

/// Appends a run of bytes.
pub fn push_all(bytes: &mut Vec<u8>, more: &[u8])
    ensures
        final(bytes)@ == old(bytes)@ + more@,
{
    let mut i: usize = 0;
    while i < more.len()
        invariant
            i <= more@.len(),
            bytes@ == old(bytes)@ + more@.take(i as int),
        decreases more@.len() - i,
    {
        bytes.push(more[i]);
        i = i + 1;
    }
    assert(more@.take(i as int) == more@);
}

/// A copy of `bytes[from..to]`.
pub fn slice_to_vec(bytes: &[u8], from: usize, to: usize) -> (res: Vec<u8>)
    requires
        from <= to <= bytes@.len(),
    ensures
        res@ == bytes@.subrange(from as int, to as int),
{
    let mut res: Vec<u8> = Vec::new();
    let mut i: usize = from;
    while i < to
        invariant
            from <= i <= to <= bytes@.len(),
            res@ == bytes@.subrange(from as int, i as int),
        decreases to - i,
    {
        res.push(bytes[i]);
        i = i + 1;
    }
    res
}

/// Whether `bytes[from..to]` equals `other`.
pub fn range_equals(bytes: &[u8], from: usize, to: usize, other: &[u8]) -> (res: bool)
    requires
        from <= to <= bytes@.len(),
    ensures
        res == (bytes@.subrange(from as int, to as int) == other@),
{
    if to - from != other.len() {
        return false;
    }
    let mut i: usize = 0;
    while i < other.len()
        invariant
            from <= to <= bytes@.len(),
            i <= other@.len() == to - from,
            forall|j: int| 0 <= j < i ==> bytes@[from + j] == other@[j],
        decreases other@.len() - i,
    {
        if bytes[from + i] != other[i] {
            assert(bytes@.subrange(from as int, to as int)[i as int] != other@[i as int]);
            return false;
        }
        i = i + 1;
    }
    assert(bytes@.subrange(from as int, to as int) =~= other@);
    true
}

} // verus!
