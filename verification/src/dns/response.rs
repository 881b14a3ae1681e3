//! DNS responses: building them, and reading addresses and times to live.
use vstd::prelude::*;

use crate::dns::query;
use crate::dns::query::{QueryContext, QueryView};
use crate::dns::wire;
use crate::dns::wire::{push_all, push_u16, read_u16, skip_dns_name, slice_to_vec};
use crate::ip::IpAddr;

verus! {

/// The big-endian 32-bit value at `at`.
pub open spec fn be32(bytes: Seq<u8>, at: int) -> u32 {
    (wire::be16(bytes, at) * 0x1_0000 + wire::be16(bytes, at + 2)) as u32
}

/// The four bytes of a 32-bit value, most significant first.
pub open spec fn be32_bytes(value: u32) -> Seq<u8> {
    wire::be16_bytes((value / 0x1_0000) as u16) + wire::be16_bytes((value % 0x1_0000) as u16)
}

/// `bytes` with the big-endian form of `value` at `at`.
pub open spec fn with_be32(bytes: Seq<u8>, at: int, value: u32) -> Seq<u8> {
    wire::with_be16(
        wire::with_be16(bytes, at, (value / 0x1_0000) as u16),
        at + 2,
        (value % 0x1_0000) as u16,
    )
}

fn push_u32(bytes: &mut Vec<u8>, value: u32)
    ensures
        final(bytes)@ == old(bytes)@ + be32_bytes(value),
{
    push_u16(bytes, (value / 0x1_0000) as u16);
    push_u16(bytes, (value % 0x1_0000) as u16);
    assert(bytes@ =~= old(bytes)@ + be32_bytes(value));
}

/// The bytes of an address, most significant first.
pub open spec fn addr_bytes(addr: IpAddr) -> Seq<u8> {
    match addr {
        IpAddr::V4(a) => be32_bytes(a),
        IpAddr::V6(a) => be32_bytes((a / 0x1_0000_0000_0000_0000_0000_0000) as u32) + be32_bytes(
            (a / 0x1_0000_0000_0000_0000 % 0x1_0000_0000) as u32,
        ) + be32_bytes((a / 0x1_0000_0000 % 0x1_0000_0000) as u32) + be32_bytes(
            (a % 0x1_0000_0000) as u32,
        ),
    }
}

/// A record that gives an address of the name that is asked for.
pub open spec fn addr_record(addr: IpAddr, ttl: u32) -> Seq<u8> {
    seq![0xc0u8, 0x0cu8] + (match addr {
        IpAddr::V4(_) => seq![0u8, 1u8, 0u8, 1u8] + be32_bytes(ttl) + seq![0u8, 4u8],
        IpAddr::V6(_) => seq![0u8, 28u8, 0u8, 1u8] + be32_bytes(ttl) + seq![0u8, 16u8],
    }) + addr_bytes(addr)
}

/// Records for the first `n` addresses.
pub open spec fn addr_records(ips: Seq<IpAddr>, ttl: u32, n: int) -> Seq<u8>
    decreases n,
{
    if n <= 0 {
        Seq::empty()
    } else {
        addr_records(ips, ttl, n - 1) + addr_record(ips[n - 1], ttl)
    }
}

/// The header and the question of a response: the query's identifier, opcode and wish for
/// recursion, recursion available, a response code and a number of answers.
pub open spec fn response_head(query: Seq<u8>, end: int, rcode: u8, answers: u16) -> Seq<u8> {
    seq![query[0], query[1], 0x80u8 | (query[2] & 0x79u8), 0x80u8 | rcode, 0u8, 1u8]
        + wire::be16_bytes(answers) + seq![0u8, 0u8, 0u8, 0u8] + query.subrange(12, end)
}

/// A response without answers. A query whose question is malformed is answered with a header
/// alone; one without a header with its own bytes.
pub open spec fn empty_response(query: Seq<u8>, rcode: u8) -> Seq<u8> {
    match wire::question_end_spec(query) {
        Some(end) => response_head(query, end, rcode, 0),
        None => if query.len() >= 12 {
            seq![query[0], query[1], 0x80u8 | (query[2] & 0x79u8), 0x80u8 | rcode]
                + seq![0u8, 0u8, 0u8, 0u8, 0u8, 0u8, 0u8, 0u8]
        } else {
            query
        },
    }
}

/// A response that gives addresses; `None` when the question is malformed or there are too many
/// addresses.
pub open spec fn ip_response(query: Seq<u8>, ips: Seq<IpAddr>, ttl: u32) -> Option<Seq<u8>> {
    match wire::question_end_spec(query) {
        Some(end) => if ips.len() <= 0xffff {
            Some(
                response_head(query, end, 0, ips.len() as u16) + addr_records(
                    ips,
                    ttl,
                    ips.len() as int,
                ),
            )
        } else {
            None
        },
        None => None,
    }
}

fn make_head(query: &[u8], end: usize, rcode: u8, answers: u16) -> (res: Vec<u8>)
    requires
        12 <= end <= query@.len(),
    ensures
        res@ == response_head(query@, end as int, rcode, answers),
{
    let mut out: Vec<u8> = Vec::new();
    out.push(query[0]);
    out.push(query[1]);
    out.push(0x80u8 | (query[2] & 0x79u8));
    out.push(0x80u8 | rcode);
    out.push(0);
    out.push(1);
    assert(out@ =~= seq![
        query@[0],
        query@[1],
        0x80u8 | (query@[2] & 0x79u8),
        0x80u8 | rcode,
        0u8,
        1u8,
    ]);
    push_u16(&mut out, answers);
    push_u16(&mut out, 0);
    push_u16(&mut out, 0);
    push_all(&mut out, &slice_to_vec(query, 12, end));
    assert(wire::be16_bytes(0) + wire::be16_bytes(0) =~= seq![0u8, 0u8, 0u8, 0u8]);
    assert(out@ =~= response_head(query@, end as int, rcode, answers));
    out
}

fn make_empty(query: &[u8], rcode: u8) -> (res: Vec<u8>)
    ensures
        res@ == empty_response(query@, rcode),
{
    match wire::question_end(query) {
        Some(end) => make_head(query, end, rcode, 0),
        None => {
            if query.len() < 12 {
                let res: Vec<u8> = slice_to_vec(query, 0, query.len());
                assert(res@ =~= query@);
                return res;
            }
            let mut out: Vec<u8> = Vec::new();
            out.push(query[0]);
            out.push(query[1]);
            out.push(0x80u8 | (query[2] & 0x79u8));
            out.push(0x80u8 | rcode);
            push_u16(&mut out, 0);
            push_u16(&mut out, 0);
            push_u16(&mut out, 0);
            push_u16(&mut out, 0);
            assert(out@ =~= empty_response(query@, rcode));
            out
        },
    }
}

/// A response that says that the name has no record of the type.
pub fn build_dns_nodata(query: &[u8]) -> (res: Vec<u8>)
    ensures
        res@ == empty_response(query@, 0),
{
    make_empty(query, 0)
}

/// A response that says that there is no such name.
pub fn build_dns_nxdomain(query: &[u8]) -> (res: Vec<u8>)
    ensures
        res@ == empty_response(query@, 3),
{
    make_empty(query, 3)
}

/// A response that refuses to answer.
pub fn build_dns_refused(query: &[u8]) -> (res: Vec<u8>)
    ensures
        res@ == empty_response(query@, 5),
{
    make_empty(query, 5)
}

fn push_addr(out: &mut Vec<u8>, addr: IpAddr, ttl: u32)
    ensures
        final(out)@ == old(out)@ + addr_record(addr, ttl),
{
    out.push(0xc0);
    out.push(0x0c);
    match addr {
        IpAddr::V4(a) => {
            push_u16(out, 1);
            push_u16(out, 1);
            push_u32(out, ttl);
            push_u16(out, 4);
            push_u32(out, a);
        },
        IpAddr::V6(a) => {
            push_u16(out, 28);
            push_u16(out, 1);
            push_u32(out, ttl);
            push_u16(out, 16);
            push_u32(out, (a / 0x1_0000_0000_0000_0000_0000_0000) as u32);
            push_u32(out, (a / 0x1_0000_0000_0000_0000 % 0x1_0000_0000) as u32);
            push_u32(out, (a / 0x1_0000_0000 % 0x1_0000_0000) as u32);
            push_u32(out, (a % 0x1_0000_0000) as u32);
        },
    }
    assert(out@ =~= old(out)@ + addr_record(addr, ttl));
}

/// A response that gives addresses.
pub fn build_dns_ip_response(query: &[u8], ips: &Vec<IpAddr>, ttl: u32) -> (res: Option<Vec<u8>>)
    ensures
        res is Some <==> ip_response(query@, ips@, ttl) is Some,
        res matches Some(bytes) ==> ip_response(query@, ips@, ttl) == Some(bytes@),
{
    let end: usize = match wire::question_end(query) {
        Some(end) => end,
        None => return None,
    };
    if ips.len() > 0xffff {
        return None;
    }
    let mut out: Vec<u8> = make_head(query, end, 0, ips.len() as u16);
    let ghost head = out@;
    let mut i: usize = 0;
    while i < ips.len()
        invariant
            i <= ips@.len(),
            out@ == head + addr_records(ips@, ttl, i as int),
        decreases ips@.len() - i,
    {
        push_addr(&mut out, ips[i], ttl);
        i = i + 1;
        assert(out@ =~= head + addr_records(ips@, ttl, i as int));
    }
    Some(out)
}

/// A record of a message: its type, where its time to live and its data stand, and where it ends.
pub struct Record {
    pub rtype: u16,
    pub ttl_at: int,
    pub data: int,
    pub end: int,
}

/// The record at `at`; `None` when it runs out of the message.
pub open spec fn record_at(raw: Seq<u8>, at: int) -> Option<Record> {
    match wire::name_end(raw, at) {
        Some(f) => if f + 10 <= raw.len() && f + 10 + wire::be16(raw, f + 8) <= raw.len() {
            Some(
                Record {
                    rtype: wire::be16(raw, f),
                    ttl_at: f + 4,
                    data: f + 10,
                    end: f + 10 + wire::be16(raw, f + 8),
                },
            )
        } else {
            None
        },
        None => None,
    }
}

/// The `n` records from `at` on, up to the first that runs out of the message.
pub open spec fn records_from(raw: Seq<u8>, at: int, n: nat) -> Seq<Record>
    decreases n,
{
    if n == 0 {
        Seq::empty()
    } else {
        match record_at(raw, at) {
            Some(r) => seq![r] + records_from(raw, r.end, (n - 1) as nat),
            None => Seq::empty(),
        }
    }
}

/// The position after `n` questions from `at` on.
pub open spec fn questions_end(raw: Seq<u8>, at: int, n: nat) -> Option<int>
    decreases n,
{
    if n == 0 {
        Some(at)
    } else {
        match wire::name_end(raw, at) {
            Some(f) => if f + 4 <= raw.len() {
                questions_end(raw, f + 4, (n - 1) as nat)
            } else {
                None
            },
            None => None,
        }
    }
}

/// The first `n` records of a message.
pub open spec fn records(raw: Seq<u8>, n: nat) -> Seq<Record> {
    if raw.len() < 12 {
        Seq::empty()
    } else {
        match questions_end(raw, 12, wire::be16(raw, 4) as nat) {
            Some(at) => records_from(raw, at, n),
            None => Seq::empty(),
        }
    }
}

/// The answers of a message.
pub open spec fn answers(raw: Seq<u8>) -> Seq<Record> {
    records(raw, wire::be16(raw, 6) as nat)
}

/// The address that a record gives.
pub open spec fn record_ip(raw: Seq<u8>, r: Record) -> Option<IpAddr> {
    if r.rtype == 1 && r.end - r.data == 4 {
        Some(IpAddr::V4(be32(raw, r.data)))
    } else if r.rtype == 28 && r.end - r.data == 16 {
        Some(
            IpAddr::V6(
                (be32(raw, r.data) * 0x1_0000_0000_0000_0000_0000_0000 + be32(raw, r.data + 4)
                    * 0x1_0000_0000_0000_0000 + be32(raw, r.data + 8) * 0x1_0000_0000 + be32(
                    raw,
                    r.data + 12,
                )) as u128,
            ),
        )
    } else {
        None
    }
}

/// The addresses that the first `n` of the records give.
pub open spec fn record_ips(raw: Seq<u8>, list: Seq<Record>, n: int) -> Seq<IpAddr>
    decreases n,
{
    if n <= 0 {
        Seq::empty()
    } else {
        match record_ip(raw, list[n - 1]) {
            Some(addr) => record_ips(raw, list, n - 1).push(addr),
            None => record_ips(raw, list, n - 1),
        }
    }
}

/// The addresses that a message's answers give.
pub open spec fn answer_ips(raw: Seq<u8>) -> Seq<IpAddr> {
    record_ips(raw, answers(raw), answers(raw).len() as int)
}

/// The least time to live of the first `n` of the records.
pub open spec fn least_ttl(raw: Seq<u8>, list: Seq<Record>, n: int) -> Option<u32>
    decreases n,
{
    if n <= 0 {
        None
    } else {
        let ttl = be32(raw, list[n - 1].ttl_at);
        match least_ttl(raw, list, n - 1) {
            Some(least) => if least <= ttl {
                Some(least)
            } else {
                Some(ttl)
            },
            None => Some(ttl),
        }
    }
}

/// The least time to live of a message's answers.
pub open spec fn min_ttl(raw: Seq<u8>) -> Option<u32> {
    least_ttl(raw, answers(raw), answers(raw).len() as int)
}

/// All records of a message: answers, authorities and additional ones.
pub open spec fn all_records(raw: Seq<u8>) -> Seq<Record> {
    records(raw, (wire::be16(raw, 6) + wire::be16(raw, 8) + wire::be16(raw, 10)) as nat)
}

/// The message with the time to live of the first `n` of the records set, those of type OPT left
/// out.
pub open spec fn ttls_set(raw: Seq<u8>, list: Seq<Record>, n: int, ttl: u32) -> Seq<u8>
    decreases n,
{
    if n <= 0 {
        raw
    } else if list[n - 1].rtype == 41 {
        ttls_set(raw, list, n - 1, ttl)
    } else {
        with_be32(ttls_set(raw, list, n - 1, ttl), list[n - 1].ttl_at, ttl)
    }
}

/// The message with the time to live of every record set, OPT records left out.
pub open spec fn with_ttl(raw: Seq<u8>, ttl: u32) -> Seq<u8> {
    ttls_set(raw, all_records(raw), all_records(raw).len() as int, ttl)
}

/// A record of a message by its places.
#[derive(Clone, Copy)]
struct Span {
    rtype: u16,
    ttl_at: usize,
    data: usize,
    end: usize,
}

spec fn span_view(s: Span) -> Record {
    Record { rtype: s.rtype, ttl_at: s.ttl_at as int, data: s.data as int, end: s.end as int }
}

spec fn span_views(v: Seq<Span>) -> Seq<Record> {
    v.map_values(|s: Span| span_view(s))
}

fn read_record(raw: &[u8], at: usize) -> (res: Option<Span>)
    ensures
        match (res, record_at(raw@, at as int)) {
            (Some(s), Some(r)) => span_view(s) == r && s.ttl_at + 6 == s.data && s.data <= s.end
                <= raw@.len(),
            (None, None) => true,
            _ => false,
        },
{
    let mut f: usize = at;
    proof {
        wire::lemma_name_end_bounds(raw@, at as int);
    }
    if !skip_dns_name(raw, &mut f) || raw.len() - f < 10 {
        return None;
    }
    let len: u16 = match read_u16(raw, f + 8) {
        Some(len) => len,
        None => return None,
    };
    let rtype: u16 = match read_u16(raw, f) {
        Some(rtype) => rtype,
        None => return None,
    };
    if raw.len() - f - 10 < len as usize {
        return None;
    }
    Some(Span { rtype, ttl_at: f + 4, data: f + 10, end: f + 10 + len as usize })
}

fn read_records(raw: &[u8], n: u32) -> (res: Vec<Span>)
    ensures
        span_views(res@) == records(raw@, n as nat),
        forall|i: int|
            0 <= i < res@.len() ==> (#[trigger] res@[i]).ttl_at + 6 == res@[i].data && res@[i].data
                <= res@[i].end <= raw@.len(),
{
    let mut out: Vec<Span> = Vec::new();
    assert(span_views(out@) =~= Seq::empty());
    if raw.len() < 12 {
        return out;
    }
    let mut left: u16 = match read_u16(raw, 4) {
        Some(count) => count,
        None => return out,
    };
    let mut at: usize = 12;
    while left > 0
        invariant
            12 <= raw@.len(),
            at <= raw@.len(),
            span_views(out@) == Seq::<Record>::empty(),
            out@.len() == 0,
            questions_end(raw@, 12, wire::be16(raw@, 4) as nat) == questions_end(
                raw@,
                at as int,
                left as nat,
            ),
        decreases left,
    {
        proof {
            wire::lemma_name_end_bounds(raw@, at as int);
        }
        if !skip_dns_name(raw, &mut at) || raw.len() - at < 4 {
            return out;
        }
        at = at + 4;
        left = left - 1;
    }
    let ghost start = at;
    let mut k: u32 = 0;
    while k < n
        invariant
            k <= n,
            span_views(out@) + records_from(raw@, at as int, (n - k) as nat) == records(
                raw@,
                n as nat,
            ),
            forall|i: int|
                0 <= i < out@.len() ==> (#[trigger] out@[i]).ttl_at + 6 == out@[i].data
                    && out@[i].data <= out@[i].end <= raw@.len(),
        decreases n - k,
    {
        match read_record(raw, at) {
            Some(s) => {
                let ghost before = out@;
                let ghost rest = records_from(raw@, s.end as int, (n - k - 1) as nat);
                out.push(s);
                assert(span_views(out@) =~= span_views(before).push(span_view(s)));
                assert(span_views(before) + (seq![span_view(s)] + rest) =~= span_views(out@)
                    + rest);
                at = s.end;
            },
            None => {
                assert(span_views(out@) + Seq::<Record>::empty() =~= span_views(out@));
                return out;
            },
        }
        k = k + 1;
    }
    assert(span_views(out@) + Seq::<Record>::empty() =~= span_views(out@));
    out
}

fn read_u32(raw: &[u8], at: usize) -> (res: u32)
    requires
        at + 4 <= raw@.len(),
    ensures
        res == be32(raw@, at as int),
{
    let n: usize = raw.len();
    assert(at + 4 <= n);
    let high: u32 = (raw[at] as u32) * 256 + raw[at + 1] as u32;
    let low: u32 = (raw[at + 2] as u32) * 256 + raw[at + 3] as u32;
    high * 0x1_0000 + low
}

fn read_ip(raw: &[u8], s: &Span) -> (res: Option<IpAddr>)
    requires
        s.data <= s.end <= raw@.len(),
    ensures
        res == record_ip(raw@, span_view(*s)),
{
    if s.rtype == 1 && s.end - s.data == 4 {
        Some(IpAddr::V4(read_u32(raw, s.data)))
    } else if s.rtype == 28 && s.end - s.data == 16 {
        let a: u128 = read_u32(raw, s.data) as u128;
        let b: u128 = read_u32(raw, s.data + 4) as u128;
        let c: u128 = read_u32(raw, s.data + 8) as u128;
        let d: u128 = read_u32(raw, s.data + 12) as u128;
        Some(
            IpAddr::V6(
                a * 0x1_0000_0000_0000_0000_0000_0000 + b * 0x1_0000_0000_0000_0000 + c
                    * 0x1_0000_0000 + d,
            ),
        )
    } else {
        None
    }
}

/// The addresses that a response gives.
pub fn extract_ips_from_dns_response(raw: &[u8]) -> (res: Vec<IpAddr>)
    ensures
        res@ == answer_ips(raw@),
{
    let mut out: Vec<IpAddr> = Vec::new();
    let count: u16 = match read_u16(raw, 6) {
        Some(count) => count,
        None => return out,
    };
    let list: Vec<Span> = read_records(raw, count as u32);
    let ghost all = span_views(list@);
    let mut i: usize = 0;
    while i < list.len()
        invariant
            i <= list@.len(),
            all == span_views(list@),
            forall|j: int|
                0 <= j < list@.len() ==> (#[trigger] list@[j]).ttl_at + 6 == list@[j].data
                    && list@[j].data <= list@[j].end <= raw@.len(),
            out@ == record_ips(raw@, all, i as int),
        decreases list@.len() - i,
    {
        assert(all[i as int] == span_view(list@[i as int]));
        match read_ip(raw, &list[i]) {
            Some(addr) => {
                out.push(addr);
            },
            None => {},
        }
        i = i + 1;
    }
    assert(all.len() == list@.len());
    out
}

/// The least time to live of a response's answers; `None` when it has none.
pub fn extract_min_ttl_from_dns_response(raw: &[u8]) -> (res: Option<u32>)
    ensures
        res == min_ttl(raw@),
{
    let count: u16 = match read_u16(raw, 6) {
        Some(count) => count,
        None => return None,
    };
    let list: Vec<Span> = read_records(raw, count as u32);
    let ghost all = span_views(list@);
    let mut least: Option<u32> = None;
    let mut i: usize = 0;
    while i < list.len()
        invariant
            i <= list@.len(),
            all == span_views(list@),
            forall|j: int|
                0 <= j < list@.len() ==> (#[trigger] list@[j]).ttl_at + 6 == list@[j].data
                    && list@[j].data <= list@[j].end <= raw@.len(),
            least == least_ttl(raw@, all, i as int),
        decreases list@.len() - i,
    {
        assert(all[i as int] == span_view(list@[i as int]));
        let ttl: u32 = read_u32(raw, list[i].ttl_at);
        least = match least {
            Some(l) => if l <= ttl {
                Some(l)
            } else {
                Some(ttl)
            },
            None => Some(ttl),
        };
        i = i + 1;
    }
    assert(all.len() == list@.len());
    least
}

/// Sets the time to live of every record, OPT records left out. A message without a header is left
/// as it is.
pub fn rewrite_dns_response_ttl(raw: &mut Vec<u8>, ttl: u32)
    ensures
        final(raw)@ == with_ttl(old(raw)@, ttl),
{
    if raw.len() < 12 {
        return;
    }
    let count: u32 = (raw[6] as u32) * 256 + raw[7] as u32 + (raw[8] as u32) * 256 + raw[9] as u32
        + (raw[10] as u32) * 256 + raw[11] as u32;
    let list: Vec<Span> = read_records(raw, count);
    let ghost all = span_views(list@);
    let ghost before = raw@;
    let mut i: usize = 0;
    while i < list.len()
        invariant
            i <= list@.len(),
            all == span_views(list@),
            before == old(raw)@,
            raw@.len() == before.len(),
            forall|j: int|
                0 <= j < list@.len() ==> (#[trigger] list@[j]).ttl_at + 6 == list@[j].data
                    && list@[j].data <= list@[j].end <= before.len(),
            raw@ == ttls_set(before, all, i as int, ttl),
        decreases list@.len() - i,
    {
        assert(all[i as int] == span_view(list@[i as int]));
        if list[i].rtype != 41 {
            let at: usize = list[i].ttl_at;
            assert(list@[i as int].ttl_at + 6 <= before.len());
            wire::put_u16(raw, at, (ttl / 0x1_0000) as u16);
            wire::put_u16(raw, at + 2, (ttl % 0x1_0000) as u16);
        }
        i = i + 1;
    }
    assert(all.len() == list@.len());
}

/// A response that can answer equal queries under other identifiers.
#[derive(Debug)]
pub struct ResponseTemplate {
    pub wire: Vec<u8>,
}

/// The bytes are a response, in full, to the question that the query asks.
pub open spec fn answers_query(q: QueryView, resp: Seq<u8>) -> bool {
    &&& resp.len() >= 12
    &&& resp[2] >= 128
    &&& resp[2] / 2 % 2 == 0
    &&& query::query_of(resp) matches Some(r) && r.domain == q.domain && r.qtype == q.qtype
}

/// The response under an identifier.
pub open spec fn rendered(wire: Seq<u8>, id: u16) -> Seq<u8> {
    wire::with_be16(wire, 0, id)
}

impl ResponseTemplate {
    /// Takes a response for later use, if it answers the query in full.
    pub fn validate(q: &QueryContext, resp: &[u8]) -> (res: Option<ResponseTemplate>)
        ensures
            res is Some <==> answers_query(q@, resp@),
            res matches Some(t) ==> t.wire@ == resp@,
    {
        if resp.len() < 12 || resp[2] < 128 || resp[2] / 2 % 2 != 0 {
            return None;
        }
        let asked: QueryContext = match QueryContext::parse(resp) {
            Some(asked) => asked,
            None => return None,
        };
        if !crate::text::same(asked.domain.as_str(), q.domain.as_str()) || asked.qtype != q.qtype {
            return None;
        }
        let bytes: Vec<u8> = slice_to_vec(resp, 0, resp.len());
        assert(bytes@ =~= resp@);
        Some(ResponseTemplate { wire: bytes })
    }

    /// The response under the query's identifier; `None` for bytes too short to be one.
    pub fn render(&self, q: &QueryContext) -> (res: Option<Vec<u8>>)
        ensures
            res is Some <==> self.wire@.len() >= 12,
            res matches Some(bytes) ==> bytes@ == rendered(self.wire@, q@.id),
    {
        if self.wire.len() < 12 {
            return None;
        }
        let mut bytes: Vec<u8> = slice_to_vec(&self.wire, 0, self.wire.len());
        assert(bytes@ =~= self.wire@);
        wire::put_u16(&mut bytes, 0, q.id);
        Some(bytes)
    }

    /// The same response once more.
    pub fn copy(&self) -> (res: ResponseTemplate)
        ensures
            res.wire@ == self.wire@,
    {
        let bytes: Vec<u8> = slice_to_vec(&self.wire, 0, self.wire.len());
        assert(bytes@ =~= self.wire@);
        ResponseTemplate { wire: bytes }
    }
}

proof fn lemma_be32(raw: Seq<u8>, at: int, value: u32)
    requires
        0 <= at,
        at + 4 <= raw.len(),
        raw.subrange(at, at + 4) == be32_bytes(value),
    ensures
        be32(raw, at) == value,
{
    let bytes = raw.subrange(at, at + 4);
    let high = (value / 0x1_0000) as u16;
    let low = (value % 0x1_0000) as u16;
    assert(be32_bytes(value) =~= seq![
        (high / 256) as u8,
        (high % 256) as u8,
        (low / 256) as u8,
        (low % 256) as u8,
    ]);
    assert(raw[at] == bytes[0] && raw[at + 1] == bytes[1]);
    assert(raw[at + 2] == bytes[2] && raw[at + 3] == bytes[3]);
    assert(wire::be16(raw, at) == high);
    assert(wire::be16(raw, at + 2) == low);
}

/// How long a record that gives an address is.
spec fn record_len(addr: IpAddr) -> int {
    match addr {
        IpAddr::V4(_) => 16,
        IpAddr::V6(_) => 28,
    }
}

/// The parts of a record that gives an address.
proof fn lemma_record_parts(addr: IpAddr, ttl: u32)
    ensures
        ({
            let rec = addr_record(addr, ttl);
            &&& rec.len() == record_len(addr)
            &&& rec[0] == 0xc0
            &&& rec[2] == 0 && rec[3] == (if addr is V6 {
                28u8
            } else {
                1u8
            })
            &&& rec[10] == 0 && rec[11] == record_len(addr) - 12
            &&& rec.subrange(6, 10) == be32_bytes(ttl)
            &&& rec.subrange(12, record_len(addr)) == addr_bytes(addr)
        }),
{
    let t = be32_bytes(ttl);
    let data = addr_bytes(addr);
    assert(t.len() == 4);
    assert(data.len() == record_len(addr) - 12);
    let kind = if addr is V6 {
        28u8
    } else {
        1u8
    };
    let size = if addr is V6 {
        16u8
    } else {
        4u8
    };
    let middle = seq![0u8, kind, 0u8, 1u8] + t + seq![0u8, size];
    let rec = seq![0xc0u8, 0x0cu8] + middle + data;
    assert(addr_record(addr, ttl) == rec);
    assert(rec.subrange(6, 10) =~= t);
    assert(rec.subrange(12, record_len(addr)) =~= data);
}

/// An IPv6 address is made of four words.
proof fn lemma_v6_words(a: u128)
    ensures
        a / 0x1_0000_0000_0000_0000_0000_0000 < 0x1_0000_0000,
        (a / 0x1_0000_0000_0000_0000_0000_0000) * 0x1_0000_0000_0000_0000_0000_0000 + (a
            / 0x1_0000_0000_0000_0000 % 0x1_0000_0000) * 0x1_0000_0000_0000_0000 + (a
            / 0x1_0000_0000 % 0x1_0000_0000) * 0x1_0000_0000 + a % 0x1_0000_0000 == a,
{
    let w = 0x1_0000_0000int;
    let q1 = a as int / w;
    let q2 = q1 / w;
    let q3 = q2 / w;
    vstd::arithmetic::div_mod::lemma_div_denominator(a as int, w, w);
    vstd::arithmetic::div_mod::lemma_div_denominator(a as int, 0x1_0000_0000_0000_0000, w);
    assert(q2 == a as int / 0x1_0000_0000_0000_0000);
    assert(q3 == a as int / 0x1_0000_0000_0000_0000_0000_0000);
    assert(a == q1 * w + a as int % w);
    assert(q1 == q2 * w + q1 % w);
    assert(q2 == q3 * w + q2 % w);
}

/// The bytes of an IPv6 address are read as that address.
proof fn lemma_v6_read(raw: Seq<u8>, at: int, a: u128)
    requires
        0 <= at,
        at + 16 <= raw.len(),
        raw.subrange(at, at + 16) == addr_bytes(IpAddr::V6(a)),
    ensures
        (be32(raw, at) * 0x1_0000_0000_0000_0000_0000_0000 + be32(raw, at + 4)
            * 0x1_0000_0000_0000_0000 + be32(raw, at + 8) * 0x1_0000_0000 + be32(raw, at + 12))
            as u128 == a,
{
    let w0 = (a / 0x1_0000_0000_0000_0000_0000_0000) as u32;
    let w1 = (a / 0x1_0000_0000_0000_0000 % 0x1_0000_0000) as u32;
    let w2 = (a / 0x1_0000_0000 % 0x1_0000_0000) as u32;
    let w3 = (a % 0x1_0000_0000) as u32;
    let b0 = be32_bytes(w0);
    let b1 = be32_bytes(w1);
    let b2 = be32_bytes(w2);
    let b3 = be32_bytes(w3);
    assert(b0.len() == 4 && b1.len() == 4 && b2.len() == 4 && b3.len() == 4);
    let data = b0 + b1 + b2 + b3;
    assert(raw.subrange(at, at + 16) == data);
    assert(raw.subrange(at, at + 4) =~= b0) by {
        assert(raw.subrange(at, at + 4) =~= data.subrange(0, 4));
    }
    assert(raw.subrange(at + 4, at + 8) =~= b1) by {
        assert(raw.subrange(at + 4, at + 8) =~= data.subrange(4, 8));
    }
    assert(raw.subrange(at + 8, at + 12) =~= b2) by {
        assert(raw.subrange(at + 8, at + 12) =~= data.subrange(8, 12));
    }
    assert(raw.subrange(at + 12, at + 16) =~= b3) by {
        assert(raw.subrange(at + 12, at + 16) =~= data.subrange(12, 16));
    }
    lemma_be32(raw, at, w0);
    lemma_be32(raw, at + 4, w1);
    lemma_be32(raw, at + 8, w2);
    lemma_be32(raw, at + 12, w3);
    lemma_v6_words(a);
}

/// A record that gives an address is read as such.
proof fn lemma_record_read(raw: Seq<u8>, at: int, addr: IpAddr, ttl: u32)
    requires
        0 <= at,
        at + record_len(addr) <= raw.len(),
        raw.subrange(at, at + record_len(addr)) == addr_record(addr, ttl),
    ensures
        record_at(raw, at) matches Some(r) && r.end == at + record_len(addr) && record_ip(raw, r)
            == Some(addr) && be32(raw, r.ttl_at) == ttl,
{
    lemma_record_parts(addr, ttl);
    let rec = raw.subrange(at, at + record_len(addr));
    assert(raw[at] == rec[0] && raw[at + 2] == rec[2] && raw[at + 3] == rec[3]);
    assert(raw[at + 10] == rec[10] && raw[at + 11] == rec[11]);
    assert(wire::name_end(raw, at) == Some(at + 2));
    assert(raw.subrange(at + 6, at + 10) =~= rec.subrange(6, 10));
    lemma_be32(raw, at + 6, ttl);
    assert(raw.subrange(at + 12, at + record_len(addr)) =~= rec.subrange(12, record_len(addr)));
    match addr {
        IpAddr::V4(a) => lemma_be32(raw, at + 12, a),
        IpAddr::V6(a) => lemma_v6_read(raw, at + 12, a),
    }
}

/// The record of each address stands where the records of those before it end.
proof fn lemma_record_place(ips: Seq<IpAddr>, ttl: u32, n: int, i: int)
    requires
        0 <= i < n <= ips.len(),
    ensures
        ({
            let all = addr_records(ips, ttl, n);
            let at = addr_records(ips, ttl, i).len() as int;
            &&& addr_record(ips[i], ttl).len() == record_len(ips[i])
            &&& at + record_len(ips[i]) <= all.len()
            &&& all.subrange(at, at + record_len(ips[i])) == addr_record(ips[i], ttl)
            &&& addr_records(ips, ttl, i + 1).len() == at + record_len(ips[i])
        }),
    decreases n,
{
    let all = addr_records(ips, ttl, n);
    let before = addr_records(ips, ttl, n - 1);
    let at = addr_records(ips, ttl, i).len() as int;
    let last = addr_record(ips[n - 1], ttl);
    assert(all == before + last);
    lemma_record_parts(ips[i], ttl);
    lemma_record_parts(ips[n - 1], ttl);
    if i == n - 1 {
        assert(all.subrange(at, at + record_len(ips[i])) =~= addr_record(ips[i], ttl));
    } else {
        lemma_record_place(ips, ttl, n - 1, i);
        assert(all.subrange(at, at + record_len(ips[i])) =~= before.subrange(
            at,
            at + record_len(ips[i]),
        ));
    }
}

/// The records behind a head are read one by one.
proof fn lemma_records_read(head: Seq<u8>, ips: Seq<IpAddr>, ttl: u32, i: int)
    requires
        0 <= i <= ips.len(),
    ensures
        ({
            let raw = head + addr_records(ips, ttl, ips.len() as int);
            let list = records_from(
                raw,
                (head.len() + addr_records(ips, ttl, i).len()) as int,
                (ips.len() - i) as nat,
            );
            &&& list.len() == ips.len() - i
            &&& forall|k: int|
                0 <= k < list.len() ==> record_ip(raw, #[trigger] list[k]) == Some(ips[i + k])
                    && be32(raw, list[k].ttl_at) == ttl
        }),
    decreases ips.len() - i,
{
    if i < ips.len() {
        let tail = addr_records(ips, ttl, ips.len() as int);
        let raw = head + tail;
        let at = addr_records(ips, ttl, i).len() as int;
        let from = head.len() + at;
        lemma_record_place(ips, ttl, ips.len() as int, i);
        lemma_records_read(head, ips, ttl, i + 1);
        assert(raw.subrange(from, from + record_len(ips[i])) =~= tail.subrange(
            at,
            at + record_len(ips[i]),
        ));
        lemma_record_read(raw, from, ips[i], ttl);
        let r = record_at(raw, from)->0;
        let rest = records_from(raw, r.end, (ips.len() - i - 1) as nat);
        let list = records_from(raw, from, (ips.len() - i) as nat);
        assert(list == seq![r] + rest);
        assert forall|k: int| 0 <= k < list.len() implies record_ip(raw, #[trigger] list[k]) == Some(
            ips[i + k],
        ) && be32(raw, list[k].ttl_at) == ttl by {
            if k > 0 {
                assert(list[k] == rest[k - 1]);
                assert(ips[i + k] == ips[i + 1 + (k - 1)]);
            }
        }
    }
}

proof fn lemma_ips_read(raw: Seq<u8>, list: Seq<Record>, ips: Seq<IpAddr>, ttl: u32, n: int)
    requires
        0 <= n <= list.len(),
        list.len() == ips.len(),
        forall|k: int|
            0 <= k < list.len() ==> record_ip(raw, #[trigger] list[k]) == Some(ips[k]) && be32(
                raw,
                list[k].ttl_at,
            ) == ttl,
    ensures
        record_ips(raw, list, n) == ips.take(n),
        n > 0 ==> least_ttl(raw, list, n) == Some(ttl),
        n == 0 ==> least_ttl(raw, list, n) is None,
    decreases n,
{
    if n > 0 {
        lemma_ips_read(raw, list, ips, ttl, n - 1);
        assert(record_ip(raw, list[n - 1]) == Some(ips[n - 1]));
        assert(ips.take(n) =~= ips.take(n - 1).push(ips[n - 1]));
    } else {
        assert(ips.take(n) =~= Seq::<IpAddr>::empty());
    }
}

/// The addresses that a response was built with are read from it, in order, and so is their time to
/// live.
pub proof fn law_addresses_read_back(query: Seq<u8>, ips: Seq<IpAddr>, ttl: u32)
    requires
        ip_response(query, ips, ttl) is Some,
    ensures
        answer_ips(ip_response(query, ips, ttl)->0) == ips,
        ips.len() > 0 ==> min_ttl(ip_response(query, ips, ttl)->0) == Some(ttl),
{
    let end = wire::question_end_spec(query)->0;
    let head = response_head(query, end, 0, ips.len() as u16);
    let raw = head + addr_records(ips, ttl, ips.len() as int);
    wire::lemma_name_end_bounds(query, 12);
    assert(head.len() == end);
    assert forall|i: int| 12 <= i < end implies query[i] == raw[i] by {
        assert(head[i] == query.subrange(12, end)[i - 12]);
    }
    wire::lemma_name_end_agree(query, raw, 12, end);
    let count = ips.len() as u16;
    assert(head[4] == 0 && head[5] == 1);
    assert(head[6] == wire::be16_bytes(count)[0] && head[7] == wire::be16_bytes(count)[1]);
    assert(wire::be16(raw, 4) == 1);
    assert(wire::be16(raw, 6) == count);
    reveal_with_fuel(questions_end, 2);
    assert(questions_end(raw, 12, 1) == Some(end));
    lemma_records_read(head, ips, ttl, 0);
    let list = answers(raw);
    assert(list == records_from(raw, end, ips.len()));
    lemma_ips_read(raw, list, ips, ttl, ips.len() as int);
    assert(ips.take(ips.len() as int) =~= ips);
}

/// A response without answers gives no address and no time to live.
pub proof fn law_refusal_has_no_address(query: Seq<u8>, rcode: u8)
    requires
        query.len() >= 12,
    ensures
        answer_ips(empty_response(query, rcode)).len() == 0,
        min_ttl(empty_response(query, rcode)) is None,
{
    let raw = empty_response(query, rcode);
    wire::lemma_name_end_bounds(query, 12);
    match wire::question_end_spec(query) {
        Some(end) => {
            assert(raw.len() == end);
            assert(raw[6] == wire::be16_bytes(0)[0] && raw[7] == wire::be16_bytes(0)[1]);
        },
        None => {
            assert(raw.len() == 12);
            assert(raw[6] == 0 && raw[7] == 0);
        },
    }
    assert(wire::be16(raw, 6) == 0);
    assert(answers(raw) =~= Seq::<Record>::empty());
}

/// The byte at `i` belongs to the time to live of one of the records.
spec fn in_ttl(list: Seq<Record>, i: int) -> bool {
    exists|k: int|
        0 <= k < list.len() && (#[trigger] list[k]).ttl_at <= i < list[k].ttl_at + 4
}

/// Records follow one another from `at` on.
proof fn lemma_records_in_order(raw: Seq<u8>, at: int, n: nat)
    requires
        0 <= at,
    ensures
        ({
            let list = records_from(raw, at, n);
            &&& list.len() <= n
            &&& forall|k: int|
                0 <= k < list.len() ==> at + 5 <= (#[trigger] list[k]).ttl_at && list[k].ttl_at + 6
                    == list[k].data && list[k].data <= list[k].end <= raw.len()
            &&& forall|j: int, k: int|
                0 <= j < k < list.len() ==> (#[trigger] list[j]).end <= (#[trigger] list[k]).ttl_at
        }),
    decreases n,
{
    if n > 0 {
        wire::lemma_name_end_bounds(raw, at);
        if let Some(r) = record_at(raw, at) {
            let rest = records_from(raw, r.end, (n - 1) as nat);
            let list = records_from(raw, at, n);
            lemma_records_in_order(raw, r.end, (n - 1) as nat);
            assert(list == seq![r] + rest);
            assert(forall|k: int| 0 < k < list.len() ==> list[k] == rest[k - 1]);
        }
    }
}

/// Fewer records of a message are the first of more of them.
proof fn lemma_records_prefix(raw: Seq<u8>, at: int, n: nat, m: nat)
    requires
        n <= m,
    ensures
        records_from(raw, at, n).len() <= records_from(raw, at, m).len(),
        forall|k: int|
            0 <= k < records_from(raw, at, n).len() ==> #[trigger] records_from(raw, at, n)[k]
                == records_from(raw, at, m)[k],
    decreases n,
{
    if n > 0 {
        if let Some(r) = record_at(raw, at) {
            lemma_records_prefix(raw, r.end, (n - 1) as nat, (m - 1) as nat);
            let a = records_from(raw, r.end, (n - 1) as nat);
            let b = records_from(raw, r.end, (m - 1) as nat);
            assert(records_from(raw, at, n) == seq![r] + a);
            assert(records_from(raw, at, m) == seq![r] + b);
            assert forall|k: int| 0 <= k < records_from(raw, at, n).len() implies #[trigger] records_from(
                raw,
                at,
                n,
            )[k] == records_from(raw, at, m)[k] by {
                if k > 0 {
                    assert(a[k - 1] == b[k - 1]);
                }
            }
        }
    }
}

/// Messages that differ in times to live alone have the same records.
proof fn lemma_same_records(a: Seq<u8>, b: Seq<u8>, at: int, n: nat)
    requires
        0 <= at,
        a.len() == b.len(),
        forall|i: int|
            at <= i < a.len() && !in_ttl(records_from(a, at, n), i) ==> #[trigger] a[i] == b[i],
    ensures
        records_from(b, at, n) == records_from(a, at, n),
    decreases n,
{
    if n > 0 {
        let list = records_from(a, at, n);
        wire::lemma_name_end_bounds(a, at);
        match record_at(a, at) {
            Some(r) => {
                let rest = records_from(a, r.end, (n - 1) as nat);
                assert(list == seq![r] + rest);
                lemma_records_in_order(a, at, n);
                lemma_records_in_order(a, r.end, (n - 1) as nat);
                let f = wire::name_end(a, at)->0;
                assert forall|i: int| at <= i < r.end && !(r.ttl_at <= i < r.ttl_at + 4) implies #[trigger] a[i]
                    == b[i] by {
                    if in_ttl(list, i) {
                        let k = choose|k: int|
                            0 <= k < list.len() && (#[trigger] list[k]).ttl_at <= i
                                < list[k].ttl_at + 4;
                        assert(list[k] == rest[k - 1]);
                    }
                }
                wire::lemma_name_end_agree(a, b, at, f);
                assert(a[f] == b[f] && a[f + 1] == b[f + 1] && a[f + 8] == b[f + 8] && a[f + 9]
                    == b[f + 9]);
                assert forall|i: int| r.end <= i < a.len() && !in_ttl(rest, i) implies #[trigger] a[i]
                    == b[i] by {
                    if in_ttl(list, i) {
                        let k = choose|k: int|
                            0 <= k < list.len() && (#[trigger] list[k]).ttl_at <= i
                                < list[k].ttl_at + 4;
                        assert(k > 0);
                        assert(list[k] == rest[k - 1]);
                    }
                }
                lemma_same_records(a, b, r.end, (n - 1) as nat);
            },
            None => {
                assert forall|i: int| at <= i < a.len() implies #[trigger] a[i] == b[i] by {
                    assert(!in_ttl(list, i));
                }
                lemma_same_name_end(a, b, at);
            },
        }
    }
}

proof fn lemma_same_name_end(a: Seq<u8>, b: Seq<u8>, at: int)
    requires
        a.len() == b.len(),
        forall|i: int| at <= i < a.len() ==> #[trigger] a[i] == b[i],
    ensures
        wire::name_end(b, at) == wire::name_end(a, at),
    decreases a.len() - at,
{
    if 0 <= at < a.len() {
        assert(a[at] == b[at]);
        if 0 < a[at] < 64 && at + 1 + a[at] < a.len() {
            lemma_same_name_end(a, b, at + 1 + a[at]);
        }
    }
}

/// Setting times to live changes nothing else, and sets each of them.
proof fn lemma_ttls_set(raw: Seq<u8>, list: Seq<Record>, n: int, ttl: u32)
    requires
        0 <= n <= list.len(),
        forall|k: int|
            0 <= k < list.len() ==> 0 <= (#[trigger] list[k]).ttl_at && list[k].ttl_at + 4
                <= raw.len(),
        forall|j: int, k: int|
            0 <= j < k < list.len() ==> (#[trigger] list[j]).ttl_at + 4 <= (#[trigger] list[k]).ttl_at,
    ensures
        ttls_set(raw, list, n, ttl).len() == raw.len(),
        forall|i: int|
            0 <= i < raw.len() && !in_ttl(list.take(n), i) ==> #[trigger] ttls_set(
                raw,
                list,
                n,
                ttl,
            )[i] == raw[i],
        forall|k: int|
            0 <= k < n && (#[trigger] list[k]).rtype != 41 ==> be32(
                ttls_set(raw, list, n, ttl),
                list[k].ttl_at,
            ) == ttl,
    decreases n,
{
    if n > 0 {
        lemma_ttls_set(raw, list, n - 1, ttl);
        let before = ttls_set(raw, list, n - 1, ttl);
        let after = ttls_set(raw, list, n, ttl);
        let at = list[n - 1].ttl_at;
        assert forall|i: int| 0 <= i < raw.len() && !in_ttl(list.take(n), i) implies #[trigger] after[i]
            == raw[i] by {
            if in_ttl(list.take(n - 1), i) {
                let k = choose|k: int|
                    0 <= k < list.take(n - 1).len() && (#[trigger] list.take(n - 1)[k]).ttl_at <= i
                        < list.take(n - 1)[k].ttl_at + 4;
                assert(list.take(n)[k] == list.take(n - 1)[k]);
                assert(in_ttl(list.take(n), i));
            }
            assert(list.take(n)[n - 1] == list[n - 1]);
            assert(before[i] == raw[i]);
        }
        if list[n - 1].rtype != 41 {
            assert(after == with_be32(before, at, ttl));
            assert(after.subrange(at, at + 4) =~= be32_bytes(ttl));
            lemma_be32(after, at, ttl);
        }
        assert forall|k: int| 0 <= k < n && (#[trigger] list[k]).rtype != 41 implies be32(
            after,
            list[k].ttl_at,
        ) == ttl by {
            if k < n - 1 {
                let from = list[k].ttl_at;
                assert(from + 4 <= at);
                assert(after[from] == before[from] && after[from + 1] == before[from + 1]);
                assert(after[from + 2] == before[from + 2] && after[from + 3] == before[from + 3]);
            }
        }
    }
}

proof fn lemma_same_ips(a: Seq<u8>, b: Seq<u8>, list: Seq<Record>, n: int)
    requires
        0 <= n <= list.len(),
        forall|k: int| 0 <= k < list.len() ==> record_ip(b, #[trigger] list[k]) == record_ip(a, list[k]),
    ensures
        record_ips(b, list, n) == record_ips(a, list, n),
    decreases n,
{
    if n > 0 {
        lemma_same_ips(a, b, list, n - 1);
        assert(record_ip(b, list[n - 1]) == record_ip(a, list[n - 1]));
    }
}

proof fn lemma_one_ttl(raw: Seq<u8>, list: Seq<Record>, ttl: u32, n: int)
    requires
        0 < n <= list.len(),
        forall|k: int| 0 <= k < list.len() ==> be32(raw, (#[trigger] list[k]).ttl_at) == ttl,
    ensures
        least_ttl(raw, list, n) == Some(ttl),
    decreases n,
{
    assert(be32(raw, list[n - 1].ttl_at) == ttl);
    if n > 1 {
        lemma_one_ttl(raw, list, ttl, n - 1);
    }
}

/// A message whose times to live were set gives the same addresses as before, and every answer has
/// that time to live, OPT records left out. Its length and its header stay.
pub proof fn law_ttl_is_set(raw: Seq<u8>, ttl: u32)
    requires
        raw.len() >= 12,
    ensures
        with_ttl(raw, ttl).len() == raw.len(),
        forall|i: int| 0 <= i < 12 ==> #[trigger] with_ttl(raw, ttl)[i] == raw[i],
        answer_ips(with_ttl(raw, ttl)) == answer_ips(raw),
        answers(raw).len() > 0 && (forall|k: int|
            0 <= k < answers(raw).len() ==> (#[trigger] answers(raw)[k]).rtype != 41) ==> min_ttl(
            with_ttl(raw, ttl),
        ) == Some(ttl),
{
    let total = (wire::be16(raw, 6) + wire::be16(raw, 8) + wire::be16(raw, 10)) as nat;
    let count = wire::be16(raw, 6) as nat;
    let questions = wire::be16(raw, 4) as nat;
    let after = with_ttl(raw, ttl);
    let list = all_records(raw);
    match questions_end(raw, 12, questions) {
        None => {
            assert(list =~= Seq::<Record>::empty());
            assert(after == raw);
            assert(answers(raw) =~= Seq::<Record>::empty());
        },
        Some(at) => {
            lemma_questions_end(raw, 12, questions);
            lemma_records_in_order(raw, at, total);
            lemma_ttls_set(raw, list, list.len() as int, ttl);
            assert(list.take(list.len() as int) =~= list);
            assert forall|i: int| 0 <= i < at implies #[trigger] after[i] == raw[i] by {
                assert(!in_ttl(list, i));
            }
            lemma_questions_agree(raw, after, 12, questions);
            assert(wire::be16(after, 4) == wire::be16(raw, 4));
            assert(wire::be16(after, 6) == wire::be16(raw, 6));
            assert(wire::be16(after, 8) == wire::be16(raw, 8));
            assert(wire::be16(after, 10) == wire::be16(raw, 10));
            lemma_same_records(raw, after, at, total);
            lemma_records_prefix(raw, at, count, total);
            lemma_records_prefix(after, at, count, total);
            lemma_same_count(raw, after, at, count, total);
            let own = answers(raw);
            assert(answers(after) =~= own);
            assert forall|k: int| 0 <= k < own.len() implies record_ip(after, #[trigger] own[k])
                == record_ip(raw, own[k]) by {
                assert(own[k] == list[k]);
                let r = list[k];
                assert forall|i: int| r.data <= i < r.end implies #[trigger] after[i] == raw[i] by {
                    if in_ttl(list, i) {
                        let j = choose|j: int|
                            0 <= j < list.len() && (#[trigger] list[j]).ttl_at <= i < list[j].ttl_at
                                + 4;
                        assert(list[j].ttl_at <= i);
                        if j < k {
                            assert(list[j].end <= list[k].ttl_at);
                        } else if j > k {
                            assert(list[k].end <= list[j].ttl_at);
                        }
                    }
                }
            }
            lemma_same_ips(raw, after, own, own.len() as int);
            if own.len() > 0 && (forall|k: int|
                0 <= k < own.len() ==> (#[trigger] own[k]).rtype != 41) {
                assert forall|k: int| 0 <= k < own.len() implies be32(
                    after,
                    (#[trigger] own[k]).ttl_at,
                ) == ttl by {
                    assert(own[k] == list[k]);
                }
                lemma_one_ttl(after, own, ttl, own.len() as int);
            }
        },
    }
}

proof fn lemma_questions_end(raw: Seq<u8>, at: int, n: nat)
    requires
        0 <= at <= raw.len(),
    ensures
        questions_end(raw, at, n) matches Some(end) ==> at <= end <= raw.len(),
    decreases n,
{
    if n > 0 {
        wire::lemma_name_end_bounds(raw, at);
        if let Some(f) = wire::name_end(raw, at) {
            if f + 4 <= raw.len() {
                lemma_questions_end(raw, f + 4, (n - 1) as nat);
            }
        }
    }
}

proof fn lemma_questions_agree(a: Seq<u8>, b: Seq<u8>, at: int, n: nat)
    requires
        0 <= at <= a.len(),
        a.len() == b.len(),
        questions_end(a, at, n) is Some,
        forall|i: int| at <= i < questions_end(a, at, n)->0 ==> #[trigger] a[i] == b[i],
    ensures
        questions_end(b, at, n) == questions_end(a, at, n),
    decreases n,
{
    if n > 0 {
        wire::lemma_name_end_bounds(a, at);
        let f = wire::name_end(a, at)->0;
        lemma_questions_end(a, f + 4, (n - 1) as nat);
        wire::lemma_name_end_agree(a, b, at, f);
        lemma_questions_agree(a, b, f + 4, (n - 1) as nat);
    }
}

/// Where messages have the same records, they have the same first of them.
proof fn lemma_same_count(a: Seq<u8>, b: Seq<u8>, at: int, n: nat, m: nat)
    requires
        n <= m,
        records_from(a, at, m) == records_from(b, at, m),
    ensures
        records_from(a, at, n).len() == records_from(b, at, n).len(),
    decreases n,
{
    if n > 0 {
        let la = records_from(a, at, m);
        let lb = records_from(b, at, m);
        match (record_at(a, at), record_at(b, at)) {
            (Some(r), Some(t)) => {
                let ra = records_from(a, r.end, (m - 1) as nat);
                let rb = records_from(b, t.end, (m - 1) as nat);
                assert(la == seq![r] + ra && lb == seq![t] + rb);
                assert(la[0] == r && lb[0] == t);
                assert(ra =~= la.skip(1));
                assert(rb =~= lb.skip(1));
                lemma_same_count(a, b, r.end, (n - 1) as nat, (m - 1) as nat);
            },
            (Some(r), None) => {
                assert(la.len() > 0 && lb.len() == 0);
            },
            (None, Some(t)) => {
                assert(la.len() == 0 && lb.len() > 0);
            },
            (None, None) => {},
        }
    }
}

proof fn lemma_head_bits(b: u8, rcode: u8)
    requires
        rcode < 16,
    ensures
        0x80u8 | (b & 0x79u8) >= 128,
        (0x80u8 | (b & 0x79u8)) / 2 % 2 == 0,
        (0x80u8 | rcode) % 16 == rcode,
        (0x80u8 | (b & 0x79u8)) % 2 == b % 2,
{
    assert(0x80u8 | (b & 0x79u8) >= 128 && (0x80u8 | (b & 0x79u8)) / 2 % 2 == 0) by (bit_vector);
    assert((0x80u8 | rcode) % 16 == rcode) by (bit_vector)
        requires
            rcode < 16,
    ;
    assert((0x80u8 | (b & 0x79u8)) % 2 == b % 2) by (bit_vector);
}

proof fn lemma_same_question(query: Seq<u8>, resp: Seq<u8>, q: QueryView)
    requires
        query::query_of(query) == Some(q),
        wire::question_end_spec(query) matches Some(end) && end <= resp.len() && forall|i: int|
            12 <= i < end ==> query[i] == #[trigger] resp[i],
        resp.len() >= 12,
        wire::be16(resp, 4) == 1,
        wire::be16(resp, 0) == q.id,
    ensures
        query::query_of(resp) matches Some(r) && r.domain == q.domain && r.qtype == q.qtype && r.id
            == q.id,
{
    let end = wire::question_end_spec(query)->0;
    let stop = query::plain_end(query, 12)->0;
    query::lemma_plain_name(query, 12);
    wire::lemma_name_end_bounds(query, 12);
    query::lemma_plain_name_agree(query, resp, 12, stop, false);
    assert(wire::be16(resp, stop) == wire::be16(query, stop));
}

/// An answer that is made here is one to the query: it is a whole response with the query's
/// identifier and question. One that gives addresses says that all went well.
pub proof fn law_own_answer_is_one_to_the_query(
    message: Seq<u8>,
    q: QueryView,
    ips: Seq<IpAddr>,
    ttl: u32,
)
    requires
        query::query_of(message) == Some(q),
        ips.len() <= 0xffff,
    ensures
        ip_response(message, ips, ttl) matches Some(bytes) && answers_query(q, bytes) && wire::be16(
            bytes,
            0,
        ) == q.id && bytes[3] % 16 == 0,
{
    let end = wire::question_end_spec(message)->0;
    query::law_query_has_question(message);
    wire::lemma_name_end_bounds(message, 12);
    let head = response_head(message, end, 0, ips.len() as u16);
    let bytes = head + addr_records(ips, ttl, ips.len() as int);
    lemma_head_bits(message[2], 0);
    assert(head.len() == end);
    assert forall|i: int| 12 <= i < end implies message[i] == #[trigger] bytes[i] by {
        assert(head[i] == message.subrange(12, end)[i - 12]);
    }
    assert(bytes[0] == message[0] && bytes[1] == message[1] && bytes[4] == 0 && bytes[5] == 1);
    assert(wire::be16(bytes, 4) == 1);
    assert(wire::be16(bytes, 0) == wire::be16(message, 0));
    lemma_same_question(message, bytes, q);
}

/// A refusal that is made here is an answer to the query, under its identifier, and says why.
pub proof fn law_refusal_is_one_to_the_query(message: Seq<u8>, q: QueryView, rcode: u8)
    requires
        query::query_of(message) == Some(q),
        rcode < 16,
    ensures
        answers_query(q, empty_response(message, rcode)),
        wire::be16(empty_response(message, rcode), 0) == q.id,
        empty_response(message, rcode)[3] % 16 == rcode,
{
    let end = wire::question_end_spec(message)->0;
    query::law_query_has_question(message);
    wire::lemma_name_end_bounds(message, 12);
    let bytes = empty_response(message, rcode);
    lemma_head_bits(message[2], rcode);
    assert(bytes.len() == end);
    assert forall|i: int| 12 <= i < end implies message[i] == #[trigger] bytes[i] by {
        assert(bytes[i] == message.subrange(12, end)[i - 12]);
    }
    assert(bytes[0] == message[0] && bytes[1] == message[1] && bytes[4] == 0 && bytes[5] == 1);
    assert(wire::be16(bytes, 4) == 1);
    assert(wire::be16(bytes, 0) == wire::be16(message, 0));
    lemma_same_question(message, bytes, q);
}

/// What is taken for an answer to a query is a response, is whole, and repeats the question; its
/// identifier does not matter.
pub proof fn law_only_answers_are_taken(q: QueryView, other: QueryView, resp: Seq<u8>)
    ensures
        resp.len() >= 12 && resp[2] < 128 ==> !answers_query(q, resp),
        resp.len() >= 12 && resp[2] / 2 % 2 == 1 ==> !answers_query(q, resp),
        answers_query(q, resp) && answers_query(other, resp) ==> q.domain == other.domain && q.qtype
            == other.qtype,
        other == (QueryView { id: other.id, ..q }) ==> answers_query(other, resp) == answers_query(
            q,
            resp,
        ),
{
}

/// An answer that is handed out under another identifier is the same answer but for the identifier.
pub proof fn law_rendered_keeps_answer(wire: Seq<u8>, id: u16)
    requires
        wire.len() >= 12,
    ensures
        wire::be16(rendered(wire, id), 0) == id,
        rendered(wire, id).len() == wire.len(),
        forall|i: int| 2 <= i < wire.len() ==> rendered(wire, id)[i] == wire[i],
        forall|again: u16| #[trigger] rendered(rendered(wire, id), again) == rendered(wire, again),
{
    assert forall|again: u16| #[trigger] rendered(rendered(wire, id), again) == rendered(
        wire,
        again,
    ) by {
        assert(rendered(rendered(wire, id), again) =~= rendered(wire, again));
    }
}

/// The time to live of a message is the least of those of its answers.
pub proof fn law_least_time_counts(raw: Seq<u8>, n: int)
    requires
        0 <= n <= answers(raw).len(),
    ensures
        n == 0 <==> least_ttl(raw, answers(raw), n) is None,
        least_ttl(raw, answers(raw), n) matches Some(least) ==> (forall|k: int|
            0 <= k < n ==> least <= be32(raw, (#[trigger] answers(raw)[k]).ttl_at)) && exists|k: int|
            0 <= k < n && be32(raw, (#[trigger] answers(raw)[k]).ttl_at) == least,
        min_ttl(raw) == least_ttl(raw, answers(raw), answers(raw).len() as int),
    decreases n,
{
    if n > 0 {
        law_least_time_counts(raw, n - 1);
        let list = answers(raw);
        let ttl = be32(raw, list[n - 1].ttl_at);
        if let Some(before) = least_ttl(raw, list, n - 1) {
            let k = choose|k: int| 0 <= k < n - 1 && be32(raw, (#[trigger] list[k]).ttl_at) == before;
            assert(be32(raw, list[k].ttl_at) == before);
        }
        assert(be32(raw, list[n - 1].ttl_at) == ttl);
    }
}

/// The addresses of a message are those that its answers give, in their order; answers of other
/// types give none.
pub proof fn law_addresses_come_from_answers(raw: Seq<u8>, n: int, addr: IpAddr)
    requires
        0 <= n <= answers(raw).len(),
    ensures
        record_ips(raw, answers(raw), n).contains(addr) <==> exists|k: int|
            0 <= k < n && record_ip(raw, #[trigger] answers(raw)[k]) == Some(addr),
        answer_ips(raw) == record_ips(raw, answers(raw), answers(raw).len() as int),
    decreases n,
{
    if n > 0 {
        law_addresses_come_from_answers(raw, n - 1, addr);
        let list = answers(raw);
        let before = record_ips(raw, list, n - 1);
        let all = record_ips(raw, list, n);
        if let Some(last) = record_ip(raw, list[n - 1]) {
            assert(all == before.push(last));
            if all.contains(addr) {
                let i = choose|i: int| 0 <= i < all.len() && all[i] == addr;
                if i < before.len() {
                    assert(before[i] == addr);
                    assert(before.contains(addr));
                } else {
                    assert(record_ip(raw, list[n - 1]) == Some(addr));
                }
            }
            if before.contains(addr) {
                let i = choose|i: int| 0 <= i < before.len() && before[i] == addr;
                assert(all[i] == addr);
            }
            if last == addr {
                assert(all[all.len() - 1] == addr);
            }
        }
    }
}

/// Under another identifier an answer gives the same addresses and has the same time to live.
pub proof fn law_identifier_changes_no_answer(raw: Seq<u8>, id: u16)
    requires
        raw.len() >= 12,
    ensures
        answer_ips(rendered(raw, id)) == answer_ips(raw),
        min_ttl(rendered(raw, id)) == min_ttl(raw),
        answers(rendered(raw, id)) == answers(raw),
{
    let after = rendered(raw, id);
    let questions = wire::be16(raw, 4) as nat;
    let count = wire::be16(raw, 6) as nat;
    assert(wire::be16(after, 4) == wire::be16(raw, 4));
    assert(wire::be16(after, 6) == wire::be16(raw, 6));
    lemma_same_questions_end(raw, after, 12, questions);
    if let Some(at) = questions_end(raw, 12, questions) {
        lemma_questions_end(raw, 12, questions);
        lemma_same_records(raw, after, at, count);
        lemma_records_in_order(raw, at, count);
    }
    let list = answers(raw);
    assert(answers(after) == list);
    assert forall|k: int| 0 <= k < list.len() implies record_ip(after, #[trigger] list[k])
        == record_ip(raw, list[k]) && be32(after, list[k].ttl_at) == be32(raw, list[k].ttl_at) by {
        assert(12 <= list[k].ttl_at && list[k].ttl_at + 6 == list[k].data);
    }
    lemma_same_ips(raw, after, list, list.len() as int);
    lemma_same_ttl(raw, after, list, list.len() as int);
}

proof fn lemma_same_ttl(a: Seq<u8>, b: Seq<u8>, list: Seq<Record>, n: int)
    requires
        0 <= n <= list.len(),
        forall|k: int|
            0 <= k < list.len() ==> be32(b, (#[trigger] list[k]).ttl_at) == be32(a, list[k].ttl_at),
    ensures
        least_ttl(b, list, n) == least_ttl(a, list, n),
    decreases n,
{
    if n > 0 {
        lemma_same_ttl(a, b, list, n - 1);
        assert(be32(b, list[n - 1].ttl_at) == be32(a, list[n - 1].ttl_at));
    }
}

proof fn lemma_same_questions_end(a: Seq<u8>, b: Seq<u8>, at: int, n: nat)
    requires
        0 <= at,
        a.len() == b.len(),
        forall|i: int| at <= i < a.len() ==> #[trigger] a[i] == b[i],
    ensures
        questions_end(b, at, n) == questions_end(a, at, n),
    decreases n,
{
    if n > 0 {
        lemma_same_name_end(a, b, at);
        wire::lemma_name_end_bounds(a, at);
        if let Some(f) = wire::name_end(a, at) {
            if f + 4 <= a.len() {
                lemma_same_questions_end(a, b, f + 4, (n - 1) as nat);
            }
        }
    }
}

/// A refusal says why and is under the query's identifier, however malformed the query is.
pub proof fn law_refusal_says_why(query: Seq<u8>, rcode: u8)
    requires
        query.len() >= 12,
        rcode < 16,
    ensures
        empty_response(query, rcode)[0] == query[0],
        empty_response(query, rcode)[1] == query[1],
        empty_response(query, rcode)[2] >= 128,
        empty_response(query, rcode)[3] % 16 == rcode,
{
    lemma_head_bits(query[2], rcode);
}

} // verus!
