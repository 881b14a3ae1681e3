//! EDNS Client Subnet: adding the option to a query and hiding it again in the response.
use vstd::prelude::*;

use crate::dns::wire;
use crate::dns::wire::{push_all, push_u16, put_u16, range_equals, read_u16, skip_dns_name, slice_to_vec};
use crate::ip::{IpAddr, IpNet, Ipv4Net};

verus! {

pub const ECS_OPTION_CODE: u16 = 8;

pub const OPT_RECORD_TYPE: u16 = 41;

pub const DEFAULT_EDNS_PAYLOAD: u16 = 1232;

/// Why a message cannot carry, or give back, a client subnet.
#[derive(Clone, Copy, Debug, PartialEq, Eq, Structural)]
pub enum EcsWireError {
    Malformed,
    MultipleOpt,
    NonFinalOpt,
    UnsupportedOpt,
    TooLarge,
    UnsupportedResponseOpt,
    MismatchedResponse,
}

/// Where a resource record lies: its first byte, the byte after its name, and its end.
pub struct RecordSpan {
    pub start: int,
    pub fields: int,
    pub end: int,
}

/// The record that starts at `start`. An OPT record must carry the root name as one zero byte.
pub open spec fn record_at(raw: Seq<u8>, start: int) -> Result<RecordSpan, EcsWireError> {
    match wire::name_end(raw, start) {
        None => Err(EcsWireError::Malformed),
        Some(fields) => if fields + 10 > raw.len() || fields + 10 + wire::be16(raw, fields + 8)
            > raw.len() {
            Err(EcsWireError::Malformed)
        } else if wire::be16(raw, fields) == OPT_RECORD_TYPE && (fields != start + 1 || raw[start] != 0) {
            Err(EcsWireError::UnsupportedOpt)
        } else {
            Ok(RecordSpan { start, fields, end: fields + 10 + wire::be16(raw, fields + 8) })
        },
    }
}

/// The position after `n` questions that start at `at`.
pub open spec fn questions_end(raw: Seq<u8>, at: int, n: nat) -> Option<int>
    decreases n,
{
    if n == 0 {
        Some(at)
    } else {
        match wire::name_end(raw, at) {
            None => None,
            Some(end) => if end + 4 > raw.len() {
                None
            } else {
                questions_end(raw, end + 4, (n - 1) as nat)
            },
        }
    }
}

/// The position after `n` records that start at `at`.
pub open spec fn records_end(raw: Seq<u8>, at: int, n: nat) -> Result<int, EcsWireError>
    decreases n,
{
    if n == 0 {
        Ok(at)
    } else {
        match record_at(raw, at) {
            Err(e) => Err(e),
            Ok(r) => records_end(raw, r.end, (n - 1) as nat),
        }
    }
}

/// The position after `n` records that start at `at`, and the one OPT record among them or
/// `seen`.
pub open spec fn additional_scan(raw: Seq<u8>, at: int, n: nat, seen: Option<RecordSpan>) -> Result<
    (int, Option<RecordSpan>),
    EcsWireError,
>
    decreases n,
{
    if n == 0 {
        Ok((at, seen))
    } else {
        match record_at(raw, at) {
            Err(e) => Err(e),
            Ok(r) => if wire::be16(raw, r.fields) == OPT_RECORD_TYPE {
                if seen is Some {
                    Err(EcsWireError::MultipleOpt)
                } else {
                    additional_scan(raw, r.end, (n - 1) as nat, Some(r))
                }
            } else {
                additional_scan(raw, r.end, (n - 1) as nat, seen)
            },
        }
    }
}

/// Where the additional section starts.
pub open spec fn additional_start(raw: Seq<u8>) -> Result<int, EcsWireError> {
    if raw.len() < 12 {
        Err(EcsWireError::Malformed)
    } else {
        match questions_end(raw, 12, wire::be16(raw, 4) as nat) {
            None => Err(EcsWireError::Malformed),
            Some(at) => records_end(raw, at, wire::be16(raw, 6) as nat + wire::be16(raw, 8) as nat),
        }
    }
}

/// The OPT record of a whole message, which its four sections must fill exactly.
pub open spec fn layout(raw: Seq<u8>) -> Result<Option<RecordSpan>, EcsWireError> {
    match additional_start(raw) {
        Err(e) => Err(e),
        Ok(at) => match additional_scan(raw, at, wire::be16(raw, 10) as nat, None) {
            Err(e) => Err(e),
            Ok((end, opt)) => if end != raw.len() {
                Err(EcsWireError::Malformed)
            } else {
                Ok(opt)
            },
        },
    }
}

/// The value range of the client subnet option in `[cursor, end)`, or `seen`.
pub open spec fn ecs_scan(raw: Seq<u8>, cursor: int, end: int, seen: Option<(int, int)>) -> Result<
    Option<(int, int)>,
    EcsWireError,
>
    decreases end - cursor,
{
    if cursor >= end {
        Ok(seen)
    } else if cursor + 4 > end || cursor + 4 + wire::be16(raw, cursor + 2) > end {
        Err(EcsWireError::Malformed)
    } else {
        let value_end = cursor + 4 + wire::be16(raw, cursor + 2);
        if wire::be16(raw, cursor) != ECS_OPTION_CODE {
            ecs_scan(raw, value_end, end, seen)
        } else if seen is Some {
            Err(EcsWireError::MismatchedResponse)
        } else {
            ecs_scan(raw, value_end, end, Some((cursor + 4, value_end)))
        }
    }
}

/// The four bytes of an address, most significant first.
pub open spec fn octets(addr: int) -> Seq<u8> {
    seq![
        (addr / 0x100_0000) as u8,
        (addr / 0x1_0000 % 256) as u8,
        (addr / 0x100 % 256) as u8,
        (addr % 256) as u8,
    ]
}

/// The address bytes that a client subnet option of `subnet` carries: those that its prefix
/// reaches into.
pub open spec fn ecs_address(subnet: Ipv4Net) -> Seq<u8> {
    octets(subnet.network_spec()).take((subnet.prefix_len + 7) / 8)
}

/// The client subnet option of `subnet`, with its code and length.
pub open spec fn ecs_option(subnet: Ipv4Net) -> Seq<u8> {
    wire::be16_bytes(ECS_OPTION_CODE) + wire::be16_bytes((4 + ecs_address(subnet).len()) as u16) + wire::be16_bytes(1)
        + seq![subnet.prefix_len, 0u8] + ecs_address(subnet)
}

/// An OPT record that carries `option` alone.
pub open spec fn opt_record(option: Seq<u8>) -> Seq<u8> {
    seq![0u8] + wire::be16_bytes(OPT_RECORD_TYPE) + wire::be16_bytes(DEFAULT_EDNS_PAYLOAD) + seq![
        0u8,
        0u8,
        0u8,
        0u8,
    ] + wire::be16_bytes(option.len() as u16) + option
}

/// The message that carries `subnet` besides what `raw` carries; `None` when `raw` has a client
/// subnet of its own.
pub open spec fn prepared(raw: Seq<u8>, subnet: Ipv4Net) -> Result<Option<Seq<u8>>, EcsWireError> {
    let option = ecs_option(subnet);
    match layout(raw) {
        Err(e) => Err(e),
        Ok(Some(opt)) => if opt.end != raw.len() {
            Err(EcsWireError::NonFinalOpt)
        } else if raw[opt.fields + 5] != 0 {
            Err(EcsWireError::UnsupportedOpt)
        } else {
            match ecs_scan(raw, opt.fields + 10, opt.end, None) {
                Err(e) => Err(e),
                Ok(Some(_)) => Ok(None),
                Ok(None) => if raw.len() + option.len() > u16::MAX {
                    Err(EcsWireError::TooLarge)
                } else {
                    Ok(
                        Some(
                            wire::with_be16(
                                raw + option,
                                opt.fields + 8,
                                (opt.end - opt.fields - 10 + option.len()) as u16,
                            ),
                        ),
                    )
                },
            }
        },
        Ok(None) => if wire::be16(raw, 10) == u16::MAX || raw.len() + 11 + option.len() > u16::MAX {
            Err(EcsWireError::TooLarge)
        } else {
            Ok(Some(wire::with_be16(raw, 10, (wire::be16(raw, 10) + 1) as u16) + opt_record(option)))
        },
    }
}

/// What a response's client subnet must say: family 1, the prefix asked for, any scope that fits,
/// and the address asked for.
pub open spec fn ecs_value_ok(value: Seq<u8>, source_prefix: u8, address: Seq<u8>) -> bool {
    &&& value.len() == 4 + address.len()
    &&& value[0] == 0
    &&& value[1] == 1
    &&& value[2] == source_prefix
    &&& value[3] <= 32
    &&& value.skip(4) == address
}

/// What the client gets for `response` when its own query had an OPT record or not.
pub open spec fn restored(
    response: Seq<u8>,
    had_opt: bool,
    source_prefix: u8,
    address: Seq<u8>,
) -> Result<Seq<u8>, EcsWireError> {
    match layout(response) {
        Err(e) => Err(e),
        Ok(None) => Ok(response),
        Ok(Some(opt)) => if opt.end != response.len() {
            Err(EcsWireError::NonFinalOpt)
        } else {
            match ecs_scan(response, opt.fields + 10, opt.end, None) {
                Err(e) => Err(e),
                Ok(ecs) => if ecs matches Some((from, to)) && !ecs_value_ok(
                    response.subrange(from, to),
                    source_prefix,
                    address,
                ) {
                    Err(EcsWireError::MismatchedResponse)
                } else if !had_opt {
                    if response[opt.fields + 4] != 0 {
                        Err(EcsWireError::UnsupportedResponseOpt)
                    } else {
                        Ok(wire::with_be16(response.take(opt.start), 10, (wire::be16(response, 10) - 1) as u16))
                    }
                } else {
                    match ecs {
                        None => Ok(response),
                        Some((from, to)) => Ok(
                            wire::with_be16(
                                response.take(from - 4) + response.skip(to),
                                opt.fields + 8,
                                (opt.end - opt.fields - 10 - (to - from + 4)) as u16,
                            ),
                        ),
                    }
                },
            }
        },
    }
}

/// A record lies after its start and inside the message.
proof fn lemma_record_bounds(raw: Seq<u8>, start: int)
    ensures
        record_at(raw, start) matches Ok(r) ==> {
            &&& r.start == start
            &&& 0 <= start < r.fields
            &&& r.fields + 10 <= r.end <= raw.len()
        },
{
    wire::lemma_name_end_bounds(raw, start);
}

/// Questions lie after their start and inside the message.
proof fn lemma_questions_bounds(raw: Seq<u8>, at: int, n: nat)
    requires
        0 <= at <= raw.len(),
    ensures
        questions_end(raw, at, n) matches Some(end) ==> at <= end <= raw.len(),
    decreases n,
{
    if n > 0 {
        wire::lemma_name_end_bounds(raw, at);
        if let Some(end) = wire::name_end(raw, at) {
            if end + 4 <= raw.len() {
                lemma_questions_bounds(raw, end + 4, (n - 1) as nat);
            }
        }
    }
}

/// Records lie after their start and inside the message.
proof fn lemma_records_bounds(raw: Seq<u8>, at: int, n: nat)
    requires
        0 <= at <= raw.len(),
    ensures
        records_end(raw, at, n) matches Ok(end) ==> at <= end <= raw.len(),
    decreases n,
{
    if n > 0 {
        lemma_record_bounds(raw, at);
        if let Ok(r) = record_at(raw, at) {
            lemma_records_bounds(raw, r.end, (n - 1) as nat);
        }
    }
}

/// The OPT record found by a scan is the one already seen or one that the scan passed.
proof fn lemma_additional_bounds(raw: Seq<u8>, at: int, n: nat, seen: Option<RecordSpan>)
    requires
        0 <= at <= raw.len(),
    ensures
        additional_scan(raw, at, n, seen) matches Ok((end, opt)) ==> {
            &&& at <= end <= raw.len()
            &&& opt != seen ==> seen is None && opt is Some && {
                let r = opt.unwrap();
                &&& record_at(raw, r.start) == Ok::<RecordSpan, EcsWireError>(r)
                &&& wire::be16(raw, r.fields) == OPT_RECORD_TYPE
                &&& at <= r.start
                &&& r.end <= end
                &&& n > 0
            }
        },
    decreases n,
{
    if n > 0 {
        lemma_record_bounds(raw, at);
        if let Ok(r) = record_at(raw, at) {
            if wire::be16(raw, r.fields) == OPT_RECORD_TYPE {
                lemma_additional_bounds(raw, r.end, (n - 1) as nat, Some(r));
            } else {
                lemma_additional_bounds(raw, r.end, (n - 1) as nat, seen);
            }
        }
    }
}

/// A message's OPT record lies behind its header and inside the message, under the root name,
/// and the additional count covers it.
proof fn lemma_layout_opt(raw: Seq<u8>)
    ensures
        layout(raw) is Ok ==> raw.len() >= 12,
        layout(raw) matches Ok(Some(opt)) ==> {
            &&& 12 <= opt.start
            &&& opt.fields == opt.start + 1
            &&& raw[opt.start] == 0
            &&& opt.fields + 10 <= opt.end <= raw.len()
            &&& opt.end == opt.fields + 10 + wire::be16(raw, opt.fields + 8)
            &&& record_at(raw, opt.start) == Ok::<RecordSpan, EcsWireError>(opt)
            &&& wire::be16(raw, opt.fields) == OPT_RECORD_TYPE
            &&& wire::be16(raw, 10) > 0
        },
{
    if raw.len() >= 12 {
        lemma_questions_bounds(raw, 12, wire::be16(raw, 4) as nat);
        if let Some(at) = questions_end(raw, 12, wire::be16(raw, 4) as nat) {
            lemma_records_bounds(raw, at, wire::be16(raw, 6) as nat + wire::be16(raw, 8) as nat);
            if let Ok(start) = additional_start(raw) {
                lemma_additional_bounds(raw, start, wire::be16(raw, 10) as nat, None);
                if let Ok(Some(opt)) = layout(raw) {
                    lemma_record_bounds(raw, opt.start);
                }
            }
        }
    }
}

/// A client subnet found by a scan lies inside the scanned range, behind its code and length.
proof fn lemma_ecs_bounds(raw: Seq<u8>, cursor: int, end: int, seen: Option<(int, int)>)
    requires
        0 <= cursor <= end <= raw.len(),
    ensures
        ecs_scan(raw, cursor, end, seen) matches Ok(Some((from, to))) ==> seen == Some((from, to))
            || (seen is None && cursor + 4 <= from <= to <= end),
        ecs_scan(raw, cursor, end, seen) == Ok::<Option<(int, int)>, EcsWireError>(None) ==> seen
            is None,
    decreases end - cursor,
{
    if cursor < end && cursor + 4 <= end && cursor + 4 + wire::be16(raw, cursor + 2) <= end {
        let value_end = cursor + 4 + wire::be16(raw, cursor + 2);
        if wire::be16(raw, cursor) == ECS_OPTION_CODE {
            lemma_ecs_bounds(raw, value_end, end, Some((cursor + 4, value_end)));
        } else {
            lemma_ecs_bounds(raw, value_end, end, seen);
        }
    }
}

/// An OPT record's place and header fields.
#[derive(Clone, Copy)]
struct OptRecord {
    start: usize,
    end: usize,
    rdlength_offset: usize,
    rdata_start: usize,
    extended_rcode: u8,
    version: u8,
}

impl OptRecord {
    spec fn describes(&self, raw: Seq<u8>, span: RecordSpan) -> bool {
        &&& self.start == span.start
        &&& self.end == span.end
        &&& self.rdlength_offset == span.fields + 8
        &&& self.rdata_start == span.fields + 10
        &&& self.extended_rcode == raw[span.fields + 4]
        &&& self.version == raw[span.fields + 5]
    }
}

struct MessageLayout {
    opt: Option<OptRecord>,
    additional_count: u16,
}

/// Reads the record at `cursor` and moves past it.
fn record(raw: &[u8], cursor: &mut usize) -> (res: Result<(u16, OptRecord), EcsWireError>)
    ensures
        match (record_at(raw@, *old(cursor) as int), res) {
            (Err(e), Err(f)) => e == f,
            (Ok(span), Ok((kind, opt))) => {
                &&& *final(cursor) == span.end
                &&& kind == wire::be16(raw@, span.fields)
                &&& opt.describes(raw@, span)
            },
            _ => false,
        },
{
    let start: usize = *cursor;
    proof {
        lemma_record_bounds(raw@, start as int);
        wire::lemma_name_end_bounds(raw@, start as int);
    }
    if !skip_dns_name(raw, cursor) || raw.len() - *cursor < 10 {
        return Err(EcsWireError::Malformed);
    }
    let fields: usize = *cursor;
    let record_type: u16 = match read_u16(raw, fields) {
        Some(value) => value,
        None => return Err(EcsWireError::Malformed),
    };
    let rdlength_offset: usize = fields + 8;
    let rdata_start: usize = fields + 10;
    let rdlength: usize = match read_u16(raw, rdlength_offset) {
        Some(value) => value as usize,
        None => return Err(EcsWireError::Malformed),
    };
    if raw.len() - rdata_start < rdlength {
        return Err(EcsWireError::Malformed);
    }
    let end: usize = rdata_start + rdlength;
    *cursor = end;
    if record_type == OPT_RECORD_TYPE && (fields != start + 1 || raw[start] != 0) {
        return Err(EcsWireError::UnsupportedOpt);
    }
    Ok(
        (
            record_type,
            OptRecord {
                start,
                end,
                rdlength_offset,
                rdata_start,
                extended_rcode: raw[fields + 4],
                version: raw[fields + 5],
            },
        ),
    )
}

/// Finds the OPT record of a message.
fn message_layout(raw: &[u8]) -> (res: Result<MessageLayout, EcsWireError>)
    ensures
        match (layout(raw@), res) {
            (Err(e), Err(f)) => e == f,
            (Ok(None), Ok(found)) => found.opt is None && found.additional_count == wire::be16(raw@, 10),
            (Ok(Some(span)), Ok(found)) => {
                &&& found.opt is Some
                &&& found.opt.unwrap().describes(raw@, span)
                &&& found.additional_count == wire::be16(raw@, 10)
            },
            _ => false,
        },
{
    if raw.len() < 12 {
        return Err(EcsWireError::Malformed);
    }
    let questions: u16 = match read_u16(raw, 4) {
        Some(value) => value,
        None => return Err(EcsWireError::Malformed),
    };
    let answers: u16 = match read_u16(raw, 6) {
        Some(value) => value,
        None => return Err(EcsWireError::Malformed),
    };
    let authorities: u16 = match read_u16(raw, 8) {
        Some(value) => value,
        None => return Err(EcsWireError::Malformed),
    };
    let additional_count: u16 = match read_u16(raw, 10) {
        Some(value) => value,
        None => return Err(EcsWireError::Malformed),
    };
    let mut cursor: usize = 12;
    let mut left: u16 = questions;
    while left > 0
        invariant
            cursor <= raw@.len(),
            questions_end(raw@, 12, questions as nat) == questions_end(
                raw@,
                cursor as int,
                left as nat,
            ),
            raw@.len() >= 12,
            questions == wire::be16(raw@, 4),
        decreases left,
    {
        proof {
            wire::lemma_name_end_bounds(raw@, cursor as int);
        }
        if !skip_dns_name(raw, &mut cursor) || raw.len() - cursor < 4 {
            return Err(EcsWireError::Malformed);
        }
        cursor = cursor + 4;
        left = left - 1;
    }
    let ghost questions_stop = cursor as int;
    let mut left: u32 = answers as u32 + authorities as u32;
    let ghost records = left as nat;
    while left > 0
        invariant
            raw@.len() >= 12,
            questions_end(raw@, 12, wire::be16(raw@, 4) as nat) == Some(questions_stop),
            records == wire::be16(raw@, 6) as nat + wire::be16(raw@, 8) as nat,
            cursor <= raw@.len(),
            records_end(raw@, questions_stop, records) == records_end(
                raw@,
                cursor as int,
                left as nat,
            ),
        decreases left,
    {
        proof {
            lemma_record_bounds(raw@, cursor as int);
        }
        match record(raw, &mut cursor) {
            Ok(_) => {},
            Err(e) => return Err(e),
        }
        left = left - 1;
    }
    let ghost start = cursor as int;
    assert(additional_start(raw@) == Ok::<int, EcsWireError>(start));
    let mut opt: Option<OptRecord> = None;
    let ghost mut span: Option<RecordSpan> = None;
    let mut left: u16 = additional_count;
    while left > 0
        invariant
            additional_start(raw@) == Ok::<int, EcsWireError>(start),
            additional_count == wire::be16(raw@, 10),
            cursor <= raw@.len(),
            opt is Some <==> span is Some,
            opt is Some ==> opt.unwrap().describes(raw@, span.unwrap()),
            additional_scan(raw@, start, additional_count as nat, None) == additional_scan(
                raw@,
                cursor as int,
                left as nat,
                span,
            ),
        decreases left,
    {
        proof {
            lemma_record_bounds(raw@, cursor as int);
        }
        let ghost here = record_at(raw@, cursor as int);
        match record(raw, &mut cursor) {
            Ok((kind, found)) => {
                if kind == OPT_RECORD_TYPE {
                    if opt.is_some() {
                        return Err(EcsWireError::MultipleOpt);
                    }
                    opt = Some(found);
                    proof {
                        span = Some(here->Ok_0);
                    }
                }
            },
            Err(e) => return Err(e),
        }
        left = left - 1;
    }
    if cursor != raw.len() {
        return Err(EcsWireError::Malformed);
    }
    Ok(MessageLayout { opt, additional_count })
}

/// Finds the value range of the client subnet option in `raw[start..end]`.
fn find_ecs(raw: &[u8], start: usize, end: usize) -> (res: Result<
    Option<(usize, usize)>,
    EcsWireError,
>)
    requires
        start <= end <= raw@.len(),
    ensures
        match (ecs_scan(raw@, start as int, end as int, None), res) {
            (Err(e), Err(f)) => e == f,
            (Ok(None), Ok(None)) => true,
            (Ok(Some((from, to))), Ok(Some((f, t)))) => from == f && to == t,
            _ => false,
        },
{
    let mut cursor: usize = start;
    let mut ecs: Option<(usize, usize)> = None;
    let ghost mut seen: Option<(int, int)> = None;
    while cursor < end
        invariant
            cursor <= end <= raw@.len(),
            ecs is Some <==> seen is Some,
            ecs is Some ==> seen == Some((ecs.unwrap().0 as int, ecs.unwrap().1 as int)),
            ecs_scan(raw@, start as int, end as int, None) == ecs_scan(
                raw@,
                cursor as int,
                end as int,
                seen,
            ),
        decreases end - cursor,
    {
        if end - cursor < 4 {
            return Err(EcsWireError::Malformed);
        }
        let code: u16 = match read_u16(raw, cursor) {
            Some(value) => value,
            None => return Err(EcsWireError::Malformed),
        };
        let length: usize = match read_u16(raw, cursor + 2) {
            Some(value) => value as usize,
            None => return Err(EcsWireError::Malformed),
        };
        let value_start: usize = cursor + 4;
        if end - value_start < length {
            return Err(EcsWireError::Malformed);
        }
        let value_end: usize = value_start + length;
        if code == ECS_OPTION_CODE {
            if ecs.is_some() {
                return Err(EcsWireError::MismatchedResponse);
            }
            ecs = Some((value_start, value_end));
            proof {
                seen = Some((value_start as int, value_end as int));
            }
        }
        cursor = value_end;
    }
    Ok(ecs)
}

/// The client subnet that a response may repeat.
struct ExpectedEcs {
    source_prefix: u8,
    address: Vec<u8>,
}

/// Builds the client subnet option of `subnet`.
fn encode_ecs(subnet: Ipv4Net) -> (res: (Vec<u8>, ExpectedEcs))
    requires
        subnet.wf(),
    ensures
        res.0@ == ecs_option(subnet),
        res.1.source_prefix == subnet.prefix_len,
        res.1.address@ == ecs_address(subnet),
{
    let network: u32 = subnet.network();
    let address_len: usize = (subnet.prefix_len as usize + 7) / 8;
    let mut all: Vec<u8> = Vec::new();
    all.push((network / 0x100_0000) as u8);
    all.push((network / 0x1_0000 % 256) as u8);
    all.push((network / 0x100 % 256) as u8);
    all.push((network % 256) as u8);
    assert(all@ =~= octets(network as int));
    let address: Vec<u8> = slice_to_vec(&all, 0, address_len);
    assert(address@ =~= ecs_address(subnet));
    let mut option: Vec<u8> = Vec::new();
    push_u16(&mut option, ECS_OPTION_CODE);
    push_u16(&mut option, 4 + address_len as u16);
    push_u16(&mut option, 1);
    option.push(subnet.prefix_len);
    option.push(0);
    push_all(&mut option, &address);
    assert(option@ =~= ecs_option(subnet));
    (option, ExpectedEcs { source_prefix: subnet.prefix_len, address })
}

/// Whether `raw[from..to]` is the client subnet that was asked for.
fn ecs_matches(raw: &[u8], from: usize, to: usize, expected: &ExpectedEcs) -> (res: bool)
    requires
        from <= to <= raw@.len(),
        expected.address@.len() <= 4,
    ensures
        res == ecs_value_ok(
            raw@.subrange(from as int, to as int),
            expected.source_prefix,
            expected.address@,
        ),
{
    let ghost value = raw@.subrange(from as int, to as int);
    if to - from != 4 + expected.address.len() {
        return false;
    }
    assert(value[0] == raw@[from as int] && value[1] == raw@[from + 1] && value[2] == raw@[from + 2]
        && value[3] == raw@[from + 3]);
    assert(value.skip(4) =~= raw@.subrange(from + 4, to as int));
    raw[from] == 0 && raw[from + 1] == 1 && raw[from + 2] == expected.source_prefix && raw[from + 3]
        <= 32 && range_equals(raw, from + 4, to, &expected.address)
}

/// A query that carries a client subnet, and what is needed to hide it from the client again.
pub struct EcsQuery {
    wire: Vec<u8>,
    original_had_opt: bool,
    expected: ExpectedEcs,
}

impl EcsQuery {
    /// The message to send.
    pub closed spec fn bytes(&self) -> Seq<u8> {
        self.wire@
    }

    /// Whether the client's own query had an OPT record.
    pub closed spec fn had_opt(&self) -> bool {
        self.original_had_opt
    }

    /// The prefix length that was asked for.
    pub closed spec fn source_prefix(&self) -> u8 {
        self.expected.source_prefix
    }

    /// The address bytes that were asked for.
    pub closed spec fn address(&self) -> Seq<u8> {
        self.expected.address@
    }

    /// A client subnet has at most four address bytes.
    #[verifier::type_invariant]
    spec fn wf(&self) -> bool {
        self.expected.address@.len() <= 4
    }

    /// Adds `subnet` to a query. A query that has a client subnet of its own is left alone:
    /// `Ok(None)`.
    pub fn prepare(raw: &[u8], subnet: Ipv4Net) -> (res: Result<Option<EcsQuery>, EcsWireError>)
        requires
            subnet.wf(),
        ensures
            match (prepared(raw@, subnet), res) {
                (Err(e), Err(f)) => e == f,
                (Ok(None), Ok(None)) => true,
                (Ok(Some(wire)), Ok(Some(query))) => {
                    &&& query.bytes() == wire
                    &&& query.had_opt() == (layout(raw@)->Ok_0 is Some)
                    &&& query.source_prefix() == subnet.prefix_len
                    &&& query.address() == ecs_address(subnet)
                },
                _ => false,
            },
    {
        proof {
            lemma_layout_opt(raw@);
        }
        let found: MessageLayout = match message_layout(raw) {
            Ok(found) => found,
            Err(e) => return Err(e),
        };
        let (option, expected) = encode_ecs(subnet);
        let original_had_opt: bool = found.opt.is_some();
        let mut wire: Vec<u8> = Vec::new();
        push_all(&mut wire, raw);
        assert(wire@ =~= raw@);
        if let Some(opt) = found.opt {
            if opt.end != raw.len() {
                return Err(EcsWireError::NonFinalOpt);
            }
            if opt.version != 0 {
                return Err(EcsWireError::UnsupportedOpt);
            }
            match find_ecs(raw, opt.rdata_start, opt.end) {
                Err(e) => return Err(e),
                Ok(Some(_)) => return Ok(None),
                Ok(None) => {},
            }
            if raw.len() > 0xffff || raw.len() + option.len() > 0xffff {
                return Err(EcsWireError::TooLarge);
            }
            let new_rdlength: usize = opt.end - opt.rdata_start + option.len();
            push_all(&mut wire, &option);
            put_u16(&mut wire, opt.rdlength_offset, new_rdlength as u16);
        } else {
            if found.additional_count == 0xffff || raw.len() > 0xffff || raw.len() + 11
                + option.len() > 0xffff {
                return Err(EcsWireError::TooLarge);
            }
            put_u16(&mut wire, 10, found.additional_count + 1);
            let ghost base = wire@;
            wire.push(0);
            push_u16(&mut wire, OPT_RECORD_TYPE);
            push_u16(&mut wire, DEFAULT_EDNS_PAYLOAD);
            wire.push(0);
            wire.push(0);
            wire.push(0);
            wire.push(0);
            push_u16(&mut wire, option.len() as u16);
            push_all(&mut wire, &option);
            assert(wire@ =~= base + opt_record(option@));
        }
        Ok(Some(EcsQuery { wire, original_had_opt, expected }))
    }

    /// The message to send.
    pub fn wire(&self) -> (res: &[u8])
        ensures
            res@ == self.bytes(),
    {
        &self.wire
    }

    /// Hides from a response what the query was given: the whole OPT record where the client's
    /// query had none, the client subnet option alone where it had one.
    pub fn restore_response(self, response: Vec<u8>) -> (res: Result<Vec<u8>, EcsWireError>)
        ensures
            match (restored(response@, self.had_opt(), self.source_prefix(), self.address()), res) {
                (Err(e), Err(f)) => e == f,
                (Ok(bytes), Ok(out)) => out@ == bytes,
                _ => false,
            },
    {
        proof {
            use_type_invariant(&self);
            lemma_layout_opt(response@);
        }
        let mut response: Vec<u8> = response;
        let found: MessageLayout = match message_layout(&response) {
            Ok(found) => found,
            Err(e) => return Err(e),
        };
        let opt: OptRecord = match found.opt {
            Some(opt) => opt,
            None => return Ok(response),
        };
        if opt.end != response.len() {
            return Err(EcsWireError::NonFinalOpt);
        }
        proof {
            lemma_ecs_bounds(response@, opt.rdata_start as int, opt.end as int, None);
        }
        let ecs: Option<(usize, usize)> = match find_ecs(&response, opt.rdata_start, opt.end) {
            Ok(ecs) => ecs,
            Err(e) => return Err(e),
        };
        if let Some((from, to)) = ecs {
            if !ecs_matches(&response, from, to, &self.expected) {
                return Err(EcsWireError::MismatchedResponse);
            }
        }
        if !self.original_had_opt {
            if opt.extended_rcode != 0 {
                return Err(EcsWireError::UnsupportedResponseOpt);
            }
            let additional_count: u16 = found.additional_count - 1;
            response.truncate(opt.start);
            put_u16(&mut response, 10, additional_count);
        } else if let Some((from, to)) = ecs {
            let new_rdlength: usize = opt.end - opt.rdata_start - (to - from + 4);
            let mut out: Vec<u8> = slice_to_vec(&response, 0, from - 4);
            let tail: Vec<u8> = slice_to_vec(&response, to, response.len());
            push_all(&mut out, &tail);
            assert(out@ =~= response@.take(from - 4) + response@.skip(to as int));
            put_u16(&mut out, opt.rdlength_offset, new_rdlength as u16);
            response = out;
        }
        Ok(response)
    }
}

/// Two messages agree on the bytes in `[from, upto)`, which both hold.
pub open spec fn agree(a: Seq<u8>, b: Seq<u8>, from: int, upto: int) -> bool {
    &&& 0 <= from
    &&& upto <= a.len()
    &&& upto <= b.len()
    &&& forall|i: int| from <= i < upto ==> a[i] == b[i]
}

/// A record reads the same in two messages that agree on its bytes.
proof fn lemma_record_agree(a: Seq<u8>, b: Seq<u8>, start: int, upto: int)
    requires
        agree(a, b, start, upto),
        record_at(a, start) matches Ok(r) && r.end <= upto,
    ensures
        record_at(b, start) == record_at(a, start),
        wire::be16(b, record_at(a, start)->Ok_0.fields) == wire::be16(
            a,
            record_at(a, start)->Ok_0.fields,
        ),
{
    lemma_record_bounds(a, start);
    let fields = record_at(a, start)->Ok_0.fields;
    wire::lemma_name_end_agree(a, b, start, upto);
    assert(wire::be16(a, fields + 8) == wire::be16(b, fields + 8));
    assert(wire::be16(a, fields) == wire::be16(b, fields));
}

/// Questions read the same in two messages that agree on their bytes.
proof fn lemma_questions_agree(a: Seq<u8>, b: Seq<u8>, at: int, n: nat, upto: int)
    requires
        agree(a, b, at, upto),
        at <= a.len(),
        questions_end(a, at, n) matches Some(end) && end <= upto,
    ensures
        questions_end(b, at, n) == questions_end(a, at, n),
    decreases n,
{
    if n > 0 {
        wire::lemma_name_end_bounds(a, at);
        let end = wire::name_end(a, at).unwrap();
        lemma_questions_bounds(a, end + 4, (n - 1) as nat);
        wire::lemma_name_end_agree(a, b, at, upto);
        lemma_questions_agree(a, b, end + 4, (n - 1) as nat, upto);
    }
}

/// Records read the same in two messages that agree on their bytes.
proof fn lemma_records_agree(a: Seq<u8>, b: Seq<u8>, at: int, n: nat, upto: int)
    requires
        agree(a, b, at, upto),
        at <= a.len(),
        records_end(a, at, n) matches Ok(end) && end <= upto,
    ensures
        records_end(b, at, n) == records_end(a, at, n),
    decreases n,
{
    if n > 0 {
        lemma_record_bounds(a, at);
        let r = record_at(a, at)->Ok_0;
        lemma_records_bounds(a, r.end, (n - 1) as nat);
        lemma_record_agree(a, b, at, upto);
        lemma_records_agree(a, b, r.end, (n - 1) as nat, upto);
    }
}

/// An additional section reads the same in two messages that agree on its bytes.
proof fn lemma_additional_agree(
    a: Seq<u8>,
    b: Seq<u8>,
    at: int,
    n: nat,
    seen: Option<RecordSpan>,
    upto: int,
)
    requires
        agree(a, b, at, upto),
        at <= a.len(),
        additional_scan(a, at, n, seen) matches Ok((end, _)) && end <= upto,
    ensures
        additional_scan(b, at, n, seen) == additional_scan(a, at, n, seen),
    decreases n,
{
    if n > 0 {
        lemma_record_bounds(a, at);
        let r = record_at(a, at)->Ok_0;
        let next = if wire::be16(a, r.fields) == OPT_RECORD_TYPE {
            Some(r)
        } else {
            seen
        };
        lemma_additional_bounds(a, r.end, (n - 1) as nat, next);
        lemma_record_agree(a, b, at, upto);
        lemma_additional_agree(a, b, r.end, (n - 1) as nat, next, upto);
    }
}

/// A scan of one more record goes on where the shorter scan stopped.
proof fn lemma_additional_step(raw: Seq<u8>, at: int, n: nat, seen: Option<RecordSpan>)
    requires
        additional_scan(raw, at, n, seen) is Ok,
    ensures
        additional_scan(raw, at, n + 1, seen) == additional_scan(
            raw,
            additional_scan(raw, at, n, seen)->Ok_0.0,
            1,
            additional_scan(raw, at, n, seen)->Ok_0.1,
        ),
    decreases n,
{
    if n > 0 {
        let r = record_at(raw, at)->Ok_0;
        let next = if wire::be16(raw, r.fields) == OPT_RECORD_TYPE {
            Some(r)
        } else {
            seen
        };
        lemma_additional_step(raw, r.end, (n - 1) as nat, next);
    }
}

/// An OPT record at the end of the additional section is its last record.
proof fn lemma_final_opt_is_last(raw: Seq<u8>, at: int, n: nat)
    requires
        0 <= at <= raw.len(),
        additional_scan(raw, at, n, None) matches Ok((end, Some(opt))) && opt.end == end,
    ensures
        n > 0,
        additional_scan(raw, at, (n - 1) as nat, None) == Ok::<
            (int, Option<RecordSpan>),
            EcsWireError,
        >((additional_scan(raw, at, n, None)->Ok_0.1.unwrap().start, None)),
    decreases n,
{
    let opt = additional_scan(raw, at, n, None)->Ok_0.1.unwrap();
    lemma_record_bounds(raw, at);
    let r = record_at(raw, at)->Ok_0;
    if wire::be16(raw, r.fields) == OPT_RECORD_TYPE {
        lemma_additional_bounds(raw, r.end, (n - 1) as nat, Some(r));
        assert(opt == r);
        if n > 1 {
            lemma_record_bounds(raw, r.end);
            let second = record_at(raw, r.end)->Ok_0;
            lemma_additional_bounds(raw, second.end, (n - 2) as nat, Some(r));
        }
    } else {
        lemma_final_opt_is_last(raw, r.end, (n - 1) as nat);
    }
}

/// Options without a client subnet are passed over when more options follow.
proof fn lemma_ecs_scan_extends(a: Seq<u8>, b: Seq<u8>, cursor: int, stop: int, end: int)
    requires
        agree(a, b, cursor, stop),
        cursor <= stop <= end <= b.len(),
        ecs_scan(a, cursor, stop, None) == Ok::<Option<(int, int)>, EcsWireError>(None),
    ensures
        ecs_scan(b, cursor, end, None) == ecs_scan(b, stop, end, None),
    decreases stop - cursor,
{
    if cursor < stop {
        let value_end = cursor + 4 + wire::be16(a, cursor + 2);
        assert(wire::be16(a, cursor + 2) == wire::be16(b, cursor + 2));
        assert(wire::be16(a, cursor) == wire::be16(b, cursor));
        if wire::be16(a, cursor) == ECS_OPTION_CODE {
            lemma_ecs_bounds(a, value_end, stop, Some((cursor + 4, value_end)));
        }
        lemma_ecs_scan_extends(a, b, value_end, stop, end);
    }
}

/// A client subnet option that ends a message is found there, and is the one asked for.
proof fn lemma_own_option(message: Seq<u8>, at: int, subnet: Ipv4Net)
    requires
        subnet.wf(),
        0 <= at,
        message.len() == at + ecs_option(subnet).len(),
        message.skip(at) == ecs_option(subnet),
    ensures
        ecs_scan(message, at, message.len() as int, None) == Ok::<
            Option<(int, int)>,
            EcsWireError,
        >(Some((at + 4, message.len() as int))),
        ecs_value_ok(
            message.subrange(at + 4, message.len() as int),
            subnet.prefix_len,
            ecs_address(subnet),
        ),
{
    let option = ecs_option(subnet);
    let end = message.len() as int;
    assert forall|i: int| 0 <= i < option.len() implies message[at + i] == option[i] by {
        assert(message.skip(at)[i] == option[i]);
    }
    assert(option.len() == 8 + ecs_address(subnet).len());
    assert(message[at] == option[0] && message[at + 1] == option[1]);
    assert(message[at + 2] == option[2] && message[at + 3] == option[3]);
    assert(wire::be16(message, at) == ECS_OPTION_CODE);
    assert(wire::be16(message, at + 2) == 4 + ecs_address(subnet).len());
    assert(ecs_scan(message, end, end, Some((at + 4, end))) == Ok::<
        Option<(int, int)>,
        EcsWireError,
    >(Some((at + 4, end))));
    let value = message.subrange(at + 4, end);
    assert(value[0] == option[4] && value[1] == option[5] && value[2] == option[6] && value[3]
        == option[7]);
    assert forall|i: int| 0 <= i < ecs_address(subnet).len() implies value.skip(4)[i]
        == ecs_address(subnet)[i] by {
        assert(message[at + (8 + i)] == option[8 + i]);
    }
    assert(value.skip(4) =~= ecs_address(subnet));
}

/// Writing a 16-bit value over itself changes nothing, and what was written is read back.
proof fn lemma_be16_round_trip(bytes: Seq<u8>, at: int, value: u16)
    requires
        0 <= at,
        at + 2 <= bytes.len(),
    ensures
        wire::with_be16(bytes, at, wire::be16(bytes, at)) == bytes,
        wire::be16(wire::with_be16(bytes, at, value), at) == value,
{
    let same = wire::be16(bytes, at);
    assert(same / 256 == bytes[at] as u16);
    assert(same % 256 == bytes[at + 1] as u16);
    assert(wire::with_be16(bytes, at, same) =~= bytes);
}

/// The additional section of `after` starts where that of `before` does when the two agree up to
/// there but for the additional count.
proof fn lemma_additional_start_agree(before: Seq<u8>, after: Seq<u8>, upto: int)
    requires
        before.len() >= 12,
        agree(before, after, 12, upto),
        after.len() >= 12,
        wire::be16(before, 4) == wire::be16(after, 4),
        wire::be16(before, 6) == wire::be16(after, 6),
        wire::be16(before, 8) == wire::be16(after, 8),
        additional_start(before) matches Ok(at) && at <= upto,
    ensures
        additional_start(after) == additional_start(before),
        12 <= additional_start(before)->Ok_0 <= before.len(),
{
    let questions = wire::be16(before, 4) as nat;
    let records = wire::be16(before, 6) as nat + wire::be16(before, 8) as nat;
    lemma_questions_bounds(before, 12, questions);
    let at = questions_end(before, 12, questions).unwrap();
    lemma_records_bounds(before, at, records);
    lemma_questions_agree(before, after, 12, questions, upto);
    lemma_records_agree(before, after, at, records, upto);
}

/// The message ends with an OPT record that has a client subnet.
spec fn carries_subnet(raw: Seq<u8>) -> bool {
    layout(raw) matches Ok(Some(opt)) && opt.end == raw.len() && raw[opt.fields + 5] == 0
        && ecs_scan(raw, opt.fields + 10, opt.end, None) matches Ok(Some(_))
}

/// The message ends with an OPT record whose last option is a client subnet with `n` address bytes.
spec fn ends_with_subnet(raw: Seq<u8>, n: int) -> bool {
    layout(raw) matches Ok(Some(opt)) && opt.end == raw.len() && ecs_scan(
        raw,
        opt.fields + 10,
        opt.end,
        None,
    ) == Ok::<Option<(int, int)>, EcsWireError>(Some((raw.len() - 4 - n, raw.len() as int)))
}

/// Hiding the added OPT record gives back a query that had none.
#[verifier::rlimit(60)]
#[verifier::spinoff_prover]
proof fn lemma_restore_without_opt(raw: Seq<u8>, subnet: Ipv4Net)
    requires
        subnet.wf(),
        prepared(raw, subnet) matches Ok(Some(_)),
        layout(raw)->Ok_0 is None,
    ensures
        restored(
            prepared(raw, subnet)->Ok_0.unwrap(),
            false,
            subnet.prefix_len,
            ecs_address(subnet),
        ) == Ok::<Seq<u8>, EcsWireError>(raw),
        carries_subnet(prepared(raw, subnet)->Ok_0.unwrap()),
        ends_with_subnet(
            prepared(raw, subnet)->Ok_0.unwrap(),
            ecs_address(subnet).len() as int,
        ),
{
    let out = prepared(raw, subnet)->Ok_0.unwrap();
    let option = ecs_option(subnet);
    let len = raw.len() as int;
    let count = wire::be16(raw, 10);
    lemma_layout_opt(raw);
    lemma_questions_bounds(raw, 12, wire::be16(raw, 4) as nat);
    let start = additional_start(raw)->Ok_0;
    assert(option.len() == 8 + ecs_address(subnet).len());
    let tail = opt_record(option);
    let base = wire::with_be16(raw, 10, (count + 1) as u16);
    assert(out =~= base + tail);
    assert(agree(raw, out, 12, len));
    assert(wire::be16(raw, 4) == wire::be16(out, 4));
    assert(wire::be16(raw, 6) == wire::be16(out, 6));
    assert(wire::be16(raw, 8) == wire::be16(out, 8));
    lemma_records_bounds(
        raw,
        questions_end(raw, 12, wire::be16(raw, 4) as nat).unwrap(),
        wire::be16(raw, 6) as nat + wire::be16(raw, 8) as nat,
    );
    lemma_additional_start_agree(raw, out, len);
    lemma_be16_round_trip(raw, 10, (count + 1) as u16);
    assert(wire::be16(out, 10) == wire::be16(base, 10));
    lemma_additional_agree(raw, out, start, count as nat, None, len);
    lemma_additional_step(out, start, count as nat, None);
    assert forall|i: int| 0 <= i < tail.len() implies out[len + i] == tail[i] by {}
    assert(tail.len() == 11 + option.len());
    assert(out[len] == tail[0]);
    assert(wire::name_end(out, len) == Some(len + 1));
    assert(out[len + 1] == tail[1] && out[len + 2] == tail[2]);
    assert(wire::be16(out, len + 1) == OPT_RECORD_TYPE);
    assert(out[len + 9] == tail[9] && out[len + 10] == tail[10]);
    assert(wire::be16(out, len + 9) == option.len());
    let span = RecordSpan { start: len, fields: len + 1, end: out.len() as int };
    assert(record_at(out, len) == Ok::<RecordSpan, EcsWireError>(span));
    assert(additional_scan(out, out.len() as int, 0, Some(span)) == Ok::<
        (int, Option<RecordSpan>),
        EcsWireError,
    >((out.len() as int, Some(span))));
    assert(additional_scan(out, len, 1, None) == Ok::<(int, Option<RecordSpan>), EcsWireError>(
        (out.len() as int, Some(span)),
    ));
    assert(layout(out) == Ok::<Option<RecordSpan>, EcsWireError>(Some(span)));
    assert(out.skip(len + 11) =~= option);
    lemma_own_option(out, len + 11, subnet);
    assert(out[len + 5] == tail[5]);
    assert(out[len + 6] == tail[6]);
    assert(out.take(len) =~= base);
    assert(wire::with_be16(base, 10, count) =~= wire::with_be16(raw, 10, count));
}

/// Hiding the added option gives back a query with its own OPT record.
#[verifier::rlimit(60)]
#[verifier::spinoff_prover]
proof fn lemma_restore_with_opt(raw: Seq<u8>, subnet: Ipv4Net)
    requires
        subnet.wf(),
        prepared(raw, subnet) matches Ok(Some(_)),
        layout(raw)->Ok_0 is Some,
    ensures
        restored(
            prepared(raw, subnet)->Ok_0.unwrap(),
            true,
            subnet.prefix_len,
            ecs_address(subnet),
        ) == Ok::<Seq<u8>, EcsWireError>(raw),
        carries_subnet(prepared(raw, subnet)->Ok_0.unwrap()),
        ends_with_subnet(
            prepared(raw, subnet)->Ok_0.unwrap(),
            ecs_address(subnet).len() as int,
        ),
{
    let out = prepared(raw, subnet)->Ok_0.unwrap();
    let option = ecs_option(subnet);
    let len = raw.len() as int;
    let count = wire::be16(raw, 10);
    lemma_layout_opt(raw);
    lemma_questions_bounds(raw, 12, wire::be16(raw, 4) as nat);
    let start = additional_start(raw)->Ok_0;
    assert(option.len() == 8 + ecs_address(subnet).len());
    let opt = layout(raw)->Ok_0.unwrap();
    let at = opt.fields + 8;
    let grown = (opt.end - opt.fields - 10 + option.len()) as u16;
    assert(out == wire::with_be16(raw + option, at, grown));
    assert(agree(raw, out, 12, opt.start));
    lemma_final_opt_is_last(raw, start, count as nat);
    lemma_records_bounds(
        raw,
        questions_end(raw, 12, wire::be16(raw, 4) as nat).unwrap(),
        wire::be16(raw, 6) as nat + wire::be16(raw, 8) as nat,
    );
    lemma_additional_bounds(raw, start, (count - 1) as nat, None);
    lemma_additional_start_agree(raw, out, opt.start);
    assert(wire::be16(out, 10) == count);
    lemma_additional_agree(raw, out, start, (count - 1) as nat, None, opt.start);
    lemma_additional_step(out, start, (count - 1) as nat, None);
    assert(out[opt.start] == 0);
    assert(wire::name_end(out, opt.start) == Some(opt.fields));
    assert(wire::be16(out, opt.fields) == OPT_RECORD_TYPE);
    lemma_be16_round_trip(raw + option, at, grown);
    let span = RecordSpan { start: opt.start, fields: opt.fields, end: out.len() as int };
    assert(record_at(out, opt.start) == Ok::<RecordSpan, EcsWireError>(span));
    assert(additional_scan(out, out.len() as int, 0, Some(span)) == Ok::<
        (int, Option<RecordSpan>),
        EcsWireError,
    >((out.len() as int, Some(span))));
    assert(layout(out) == Ok::<Option<RecordSpan>, EcsWireError>(Some(span)));
    lemma_ecs_scan_extends(raw, out, opt.fields + 10, len, out.len() as int);
    assert(out.skip(len) =~= option);
    lemma_own_option(out, len, subnet);
    lemma_be16_round_trip(raw, at, grown);
    assert(out.take(len) + out.skip(out.len() as int) =~= wire::with_be16(raw, at, grown));
    let shrunk = (out.len() - opt.fields - 10 - (out.len() - (len + 4) + 4)) as u16;
    assert(shrunk == wire::be16(raw, at));
    assert(wire::with_be16(wire::with_be16(raw, at, grown), at, shrunk) =~= wire::with_be16(
        raw,
        at,
        shrunk,
    ));
}

/// Hiding the client subnet from the prepared message itself gives back the client's query, byte
/// for byte.
pub proof fn law_restore_undoes_prepare(raw: Seq<u8>, subnet: Ipv4Net)
    requires
        subnet.wf(),
        prepared(raw, subnet) matches Ok(Some(_)),
    ensures
        restored(
            prepared(raw, subnet)->Ok_0.unwrap(),
            layout(raw)->Ok_0 is Some,
            subnet.prefix_len,
            ecs_address(subnet),
        ) == Ok::<Seq<u8>, EcsWireError>(raw),
{
    if layout(raw)->Ok_0 is None {
        lemma_restore_without_opt(raw, subnet);
    } else {
        lemma_restore_with_opt(raw, subnet);
    }
}

/// A query that was given a client subnet is left alone, whatever subnet it is to be given next.
pub proof fn law_subnet_is_given_once(raw: Seq<u8>, subnet: Ipv4Net, other: Ipv4Net)
    requires
        subnet.wf(),
        prepared(raw, subnet) matches Ok(Some(_)),
    ensures
        prepared(prepared(raw, subnet)->Ok_0.unwrap(), other) == Ok::<
            Option<Seq<u8>>,
            EcsWireError,
        >(None),
{
    if layout(raw)->Ok_0 is None {
        lemma_restore_without_opt(raw, subnet);
    } else {
        lemma_restore_with_opt(raw, subnet);
    }
}

/// Options read the same when a byte inside the value of the client subnet changes.
proof fn lemma_scan_skips_value(
    a: Seq<u8>,
    b: Seq<u8>,
    cursor: int,
    end: int,
    seen: Option<(int, int)>,
    at: int,
)
    requires
        0 <= cursor <= end <= a.len(),
        a.len() == b.len(),
        forall|j: int| 0 <= j < a.len() && j != at ==> a[j] == b[j],
        ecs_scan(a, cursor, end, seen) matches Ok(Some((from, to))) && from <= at < to,
        seen matches Some((from, to)) ==> to <= cursor,
    ensures
        ecs_scan(b, cursor, end, seen) == ecs_scan(a, cursor, end, seen),
    decreases end - cursor,
{
    if cursor < end {
        let value_end = cursor + 4 + wire::be16(a, cursor + 2);
        lemma_ecs_bounds(a, cursor, end, seen);
        if wire::be16(a, cursor) == ECS_OPTION_CODE {
            lemma_ecs_bounds(a, value_end, end, Some((cursor + 4, value_end)));
        } else {
            lemma_ecs_bounds(a, value_end, end, seen);
        }
        assert(wire::be16(a, cursor) == wire::be16(b, cursor));
        assert(wire::be16(a, cursor + 2) == wire::be16(b, cursor + 2));
        if wire::be16(a, cursor) == ECS_OPTION_CODE {
            lemma_scan_skips_value(a, b, value_end, end, Some((cursor + 4, value_end)), at);
        } else {
            lemma_scan_skips_value(a, b, value_end, end, seen, at);
        }
    }
}

/// A message is laid out the same when a byte inside the value of the client subnet in its last
/// record changes.
#[verifier::rlimit(40)]
#[verifier::spinoff_prover]
proof fn lemma_value_is_no_layout(a: Seq<u8>, b: Seq<u8>, opt: RecordSpan, at: int)
    requires
        layout(a) == Ok::<Option<RecordSpan>, EcsWireError>(Some(opt)),
        opt.end == a.len(),
        ecs_scan(a, opt.fields + 10, opt.end, None) matches Ok(Some((from, to))) && from <= at < to,
        a.len() == b.len(),
        forall|j: int| 0 <= j < a.len() && j != at ==> a[j] == b[j],
    ensures
        layout(b) == layout(a),
        ecs_scan(b, opt.fields + 10, opt.end, None) == ecs_scan(a, opt.fields + 10, opt.end, None),
{
    let count = wire::be16(a, 10);
    lemma_layout_opt(a);
    lemma_ecs_bounds(a, opt.fields + 10, opt.end, None);
    lemma_questions_bounds(a, 12, wire::be16(a, 4) as nat);
    lemma_records_bounds(
        a,
        questions_end(a, 12, wire::be16(a, 4) as nat).unwrap(),
        wire::be16(a, 6) as nat + wire::be16(a, 8) as nat,
    );
    let start = additional_start(a)->Ok_0;
    lemma_final_opt_is_last(a, start, count as nat);
    lemma_additional_bounds(a, start, (count - 1) as nat, None);
    assert(agree(a, b, 12, opt.start));
    assert(wire::be16(a, 4) == wire::be16(b, 4));
    assert(wire::be16(a, 6) == wire::be16(b, 6));
    assert(wire::be16(a, 8) == wire::be16(b, 8));
    assert(wire::be16(b, 10) == count);
    lemma_additional_start_agree(a, b, opt.start);
    lemma_additional_agree(a, b, start, (count - 1) as nat, None, opt.start);
    lemma_additional_step(a, start, (count - 1) as nat, None);
    lemma_additional_step(b, start, (count - 1) as nat, None);
    assert(b[opt.start] == 0);
    assert(wire::name_end(b, opt.start) == Some(opt.fields));
    assert(wire::be16(b, opt.fields) == OPT_RECORD_TYPE);
    assert(wire::be16(b, opt.fields + 8) == wire::be16(a, opt.fields + 8));
    assert(record_at(b, opt.start) == Ok::<RecordSpan, EcsWireError>(opt));
    assert(additional_scan(b, opt.end, 0, Some(opt)) == Ok::<
        (int, Option<RecordSpan>),
        EcsWireError,
    >((opt.end, Some(opt))));
    assert(additional_scan(b, opt.start, 1, None) == Ok::<
        (int, Option<RecordSpan>),
        EcsWireError,
    >((opt.end, Some(opt))));
    lemma_scan_skips_value(a, b, opt.fields + 10, opt.end, None, at);
}

/// A response whose last record is an OPT record with the client subnet that was asked for (family,
/// prefix length and address) is restored for every scope up to 32, and to the same message for each.
/// To a client that sent no OPT record it comes without the record; to one that did, without the
/// option. Every other byte is kept, but for the counts that the removal changes.
#[verifier::rlimit(40)]
pub proof fn law_every_scope_is_restored(
    response: Seq<u8>,
    had_opt: bool,
    subnet: Ipv4Net,
    opt: RecordSpan,
    from: int,
    to: int,
    scope: u8,
)
    requires
        layout(response) == Ok::<Option<RecordSpan>, EcsWireError>(Some(opt)),
        opt.end == response.len(),
        ecs_scan(response, opt.fields + 10, opt.end, None) == Ok::<
            Option<(int, int)>,
            EcsWireError,
        >(Some((from, to))),
        to - from == 4 + ecs_address(subnet).len(),
        response[from] == 0,
        response[from + 1] == 1,
        response[from + 2] == subnet.prefix_len,
        response[from + 3] <= 32,
        forall|k: int|
            0 <= k < ecs_address(subnet).len() ==> #[trigger] ecs_address(subnet)[k] == response[from
                + 4 + k],
        had_opt || response[opt.fields + 4] == 0,
        scope <= 32,
    ensures
        restored(response, had_opt, subnet.prefix_len, ecs_address(subnet)) matches Ok(out) && (
        if had_opt {
            &&& out.len() == response.len() - (to - from) - 4
            &&& forall|i: int|
                0 <= i < from - 4 && i != opt.fields + 8 && i != opt.fields + 9 ==> out[i]
                    == response[i]
            &&& forall|i: int| from - 4 <= i < out.len() ==> out[i] == response[i + (to - from) + 4]
            &&& wire::be16(out, opt.fields + 8) == wire::be16(response, opt.fields + 8) - (to - from)
                - 4
        } else {
            &&& out.len() == opt.start
            &&& forall|i: int| 0 <= i < out.len() && i != 10 && i != 11 ==> out[i] == response[i]
            &&& wire::be16(out, 10) == wire::be16(response, 10) - 1
        }),
        restored(
            response.update(from + 3, scope),
            had_opt,
            subnet.prefix_len,
            ecs_address(subnet),
        ) == restored(response, had_opt, subnet.prefix_len, ecs_address(subnet)),
{
    let address = ecs_address(subnet);
    let other = response.update(from + 3, scope);
    let value = response.subrange(from, to);
    let changed = other.subrange(from, to);
    lemma_layout_opt(response);
    lemma_ecs_bounds(response, opt.fields + 10, opt.end, None);
    lemma_value_is_no_layout(response, other, opt, from + 3);
    assert forall|k: int| 0 <= k < address.len() implies value.skip(4)[k] == address[k] by {
        assert(value.skip(4)[k] == response[from + 4 + k]);
    }
    assert forall|k: int| 0 <= k < address.len() implies changed.skip(4)[k] == address[k] by {
        assert(changed.skip(4)[k] == response[from + 4 + k]);
    }
    assert(value.skip(4) =~= address);
    assert(changed.skip(4) =~= address);
    if had_opt {
        let short = response.take(from - 4) + response.skip(to);
        let left = (opt.end - opt.fields - 10 - (to - from + 4)) as u16;
        assert(other.take(from - 4) + other.skip(to) =~= short);
        lemma_be16_round_trip(short, opt.fields + 8, left);
    } else {
        let short = response.take(opt.start);
        assert(other.take(opt.start) =~= short);
        assert(wire::be16(other, 10) == wire::be16(response, 10));
        lemma_be16_round_trip(short, 10, (wire::be16(response, 10) - 1) as u16);
    }
}

/// A response with another client subnet than the one that was asked for (another family, prefix
/// length or address, or a scope that no address has) is turned down.
pub proof fn law_foreign_subnet_is_turned_down(
    response: Seq<u8>,
    had_opt: bool,
    subnet: Ipv4Net,
    opt: RecordSpan,
    from: int,
    to: int,
)
    requires
        layout(response) == Ok::<Option<RecordSpan>, EcsWireError>(Some(opt)),
        opt.end == response.len(),
        ecs_scan(response, opt.fields + 10, opt.end, None) == Ok::<
            Option<(int, int)>,
            EcsWireError,
        >(Some((from, to))),
        to - from != 4 + ecs_address(subnet).len() || response[from] != 0 || response[from + 1] != 1
            || response[from + 2] != subnet.prefix_len || response[from + 3] > 32 || exists|k: int|
            0 <= k < ecs_address(subnet).len() && response[from + 4 + k] != #[trigger] ecs_address(
                subnet,
            )[k],
    ensures
        restored(response, had_opt, subnet.prefix_len, ecs_address(subnet)) == Err::<
            Seq<u8>,
            EcsWireError,
        >(EcsWireError::MismatchedResponse),
{
    let address = ecs_address(subnet);
    let value = response.subrange(from, to);
    lemma_layout_opt(response);
    lemma_ecs_bounds(response, opt.fields + 10, opt.end, None);
    if ecs_value_ok(value, subnet.prefix_len, address) {
        assert forall|k: int| 0 <= k < address.len() implies response[from + 4 + k]
            == #[trigger] address[k] by {
            assert(value.skip(4)[k] == response[from + 4 + k]);
        }
        assert(value[0] == response[from] && value[1] == response[from + 1] && value[2]
            == response[from + 2] && value[3] == response[from + 3]);
        assert(false);
    }
}

/// A message that ends with a client subnet and is restored is restored with every scope.
#[verifier::rlimit(40)]
#[verifier::spinoff_prover]
proof fn lemma_echo(out: Seq<u8>, raw: Seq<u8>, had_opt: bool, subnet: Ipv4Net, scope: u8)
    requires
        ends_with_subnet(out, ecs_address(subnet).len() as int),
        restored(out, had_opt, subnet.prefix_len, ecs_address(subnet)) == Ok::<
            Seq<u8>,
            EcsWireError,
        >(raw),
    ensures
        restored(
            out.update(out.len() - ecs_address(subnet).len() - 1, scope),
            had_opt,
            subnet.prefix_len,
            ecs_address(subnet),
        ) == if scope <= 32 {
            Ok::<Seq<u8>, EcsWireError>(raw)
        } else {
            Err::<Seq<u8>, EcsWireError>(EcsWireError::MismatchedResponse)
        },
{
    let address = ecs_address(subnet);
    let opt = layout(out)->Ok_0.unwrap();
    let to = out.len() as int;
    let from = to - 4 - address.len();
    lemma_layout_opt(out);
    lemma_ecs_bounds(out, opt.fields + 10, opt.end, None);
    let value = out.subrange(from, to);
    assert(ecs_value_ok(value, subnet.prefix_len, address));
    assert(value[0] == out[from] && value[1] == out[from + 1] && value[2] == out[from + 2]
        && value[3] == out[from + 3]);
    assert forall|k: int| 0 <= k < address.len() implies #[trigger] address[k] == out[from + 4
        + k] by {
        assert(value.skip(4)[k] == out[from + 4 + k]);
    }
    if scope <= 32 {
        law_every_scope_is_restored(out, had_opt, subnet, opt, from, to, scope);
    } else {
        let other = out.update(from + 3, scope);
        lemma_value_is_no_layout(out, other, opt, from + 3);
        law_foreign_subnet_is_turned_down(other, had_opt, subnet, opt, from, to);
    }
}

/// A server that echoes the prepared query with a scope of its own, up to 32, is understood: hiding
/// the client subnet gives back the client's query. With a scope above that it is turned down.
pub proof fn law_echo_is_restored(raw: Seq<u8>, subnet: Ipv4Net, scope: u8)
    requires
        subnet.wf(),
        prepared(raw, subnet) matches Ok(Some(_)),
    ensures
        ({
            let out = prepared(raw, subnet)->Ok_0.unwrap();
            restored(
                out.update(out.len() - ecs_address(subnet).len() - 1, scope),
                layout(raw)->Ok_0 is Some,
                subnet.prefix_len,
                ecs_address(subnet),
            ) == if scope <= 32 {
                Ok::<Seq<u8>, EcsWireError>(raw)
            } else {
                Err::<Seq<u8>, EcsWireError>(EcsWireError::MismatchedResponse)
            }
        }),
{
    if layout(raw)->Ok_0 is None {
        lemma_restore_without_opt(raw, subnet);
        lemma_echo(prepared(raw, subnet)->Ok_0.unwrap(), raw, false, subnet, scope);
    } else {
        lemma_restore_with_opt(raw, subnet);
        lemma_echo(prepared(raw, subnet)->Ok_0.unwrap(), raw, true, subnet, scope);
    }
}

/// The option that a query is given says which network the client is in: its family, its prefix
/// length, no scope, and as many bytes of the network's address as the prefix reaches into. It does
/// not tell the client's own address: two addresses of one network give the same option.
pub proof fn law_option_tells_network_alone(a: Ipv4Net, b: Ipv4Net)
    requires
        a.wf(),
        b.wf(),
        a.prefix_len == b.prefix_len,
    ensures
        IpNet::V4(a).has(IpAddr::V4(b.addr)) ==> ecs_option(a) == ecs_option(b),
        ecs_option(a).len() == 8 + (a.prefix_len + 7) / 8,
        wire::be16(ecs_option(a), 0) == 8,
        wire::be16(ecs_option(a), 2) == 4 + (a.prefix_len + 7) / 8,
        wire::be16(ecs_option(a), 4) == 1,
        ecs_option(a)[6] == a.prefix_len,
        ecs_option(a)[7] == 0,
{
    let option = ecs_option(a);
    assert(ecs_address(a).len() == (a.prefix_len + 7) / 8);
    assert(option[0] == wire::be16_bytes(8)[0] && option[1] == wire::be16_bytes(8)[1]);
    assert(option[2] == wire::be16_bytes((4 + ecs_address(a).len()) as u16)[0] && option[3]
        == wire::be16_bytes((4 + ecs_address(a).len()) as u16)[1]);
    assert(option[4] == wire::be16_bytes(1)[0] && option[5] == wire::be16_bytes(1)[1]);
}

/// The address bytes of the option are those of the network's address, most significant first.
pub proof fn law_option_holds_network_address(subnet: Ipv4Net, k: int)
    requires
        subnet.wf(),
        0 <= k < (subnet.prefix_len + 7) / 8,
    ensures
        ecs_option(subnet)[8 + k] == (if k == 0 {
            subnet.network_spec() / 0x100_0000
        } else if k == 1 {
            subnet.network_spec() / 0x1_0000 % 256
        } else if k == 2 {
            subnet.network_spec() / 0x100 % 256
        } else {
            subnet.network_spec() % 256
        }),
{
    assert(ecs_option(subnet)[8 + k] == ecs_address(subnet)[k]);
    vstd::arithmetic::power2::lemma_pow2_pos((32 - subnet.prefix_len) as nat);
    vstd::arithmetic::div_mod::lemma_mod_bound(subnet.addr as int, subnet.span());
    vstd::arithmetic::div_mod::lemma_mod_decreases(subnet.addr as nat, subnet.span() as nat);
}

/// A response without an OPT record is handed on as it is. One whose OPT record carries no client
/// subnet is handed on as it is to a client that sent an OPT record, and without the record to one
/// that sent none.
pub proof fn law_response_without_subnet(response: Seq<u8>, had_opt: bool, prefix: u8, address: Seq<u8>)
    ensures
        layout(response) == Ok::<Option<RecordSpan>, EcsWireError>(None) ==> restored(
            response,
            had_opt,
            prefix,
            address,
        ) == Ok::<Seq<u8>, EcsWireError>(response),
        layout(response) matches Ok(Some(opt)) ==> (opt.end == response.len() && ecs_scan(
            response,
            opt.fields + 10,
            opt.end,
            None,
        ) == Ok::<Option<(int, int)>, EcsWireError>(None) ==> (if had_opt {
            restored(response, had_opt, prefix, address) == Ok::<Seq<u8>, EcsWireError>(response)
        } else if response[opt.fields + 4] != 0 {
            restored(response, had_opt, prefix, address) == Err::<Seq<u8>, EcsWireError>(
                EcsWireError::UnsupportedResponseOpt,
            )
        } else {
            restored(response, had_opt, prefix, address) matches Ok(out) && out.len() == opt.start
                && (forall|i: int| 0 <= i < out.len() && i != 10 && i != 11 ==> out[i] == response[i])
                && wire::be16(out, 10) == wire::be16(response, 10) - 1
        })),
{
    lemma_layout_opt(response);
    if let Ok(Some(opt)) = layout(response) {
        let short = response.take(opt.start);
        lemma_be16_round_trip(short, 10, (wire::be16(response, 10) - 1) as u16);
    }
}

/// A query of one question and nothing else is given the subnet wherever there is room for it: it
/// stays what it was but for the count of its additional records, which is one, and behind it stands
/// a record that ends with the option. A message too short for a header is none.
pub proof fn law_plain_query_gets_subnet(raw: Seq<u8>, subnet: Ipv4Net)
    requires
        subnet.wf(),
        raw.len() >= 12,
        wire::be16(raw, 4) == 1,
        wire::be16(raw, 6) == 0,
        wire::be16(raw, 8) == 0,
        wire::be16(raw, 10) == 0,
        wire::question_end_spec(raw) == Some(raw.len() as int),
    ensures
        raw.len() + 11 + ecs_option(subnet).len() <= u16::MAX ==> (prepared(raw, subnet) matches Ok(
            Some(out),
        ) && {
            &&& out.len() == raw.len() + 11 + ecs_option(subnet).len()
            &&& forall|i: int| 0 <= i < raw.len() && i != 10 && i != 11 ==> out[i] == raw[i]
            &&& wire::be16(out, 10) == 1
            &&& out[raw.len() as int] == 0
            &&& wire::be16(out, raw.len() as int + 1) == 41
            &&& wire::be16(out, raw.len() as int + 9) == ecs_option(subnet).len()
            &&& out.skip(raw.len() as int + 11) == ecs_option(subnet)
        }),
        raw.len() + 11 + ecs_option(subnet).len() > u16::MAX ==> prepared(raw, subnet) == Err::<
            Option<Seq<u8>>,
            EcsWireError,
        >(EcsWireError::TooLarge),
{
    reveal_with_fuel(questions_end, 2);
    reveal_with_fuel(records_end, 2);
    reveal_with_fuel(additional_scan, 2);
    assert(questions_end(raw, 12, 1) == Some(raw.len() as int));
    assert(additional_start(raw) == Ok::<int, EcsWireError>(raw.len() as int));
    assert(layout(raw) == Ok::<Option<RecordSpan>, EcsWireError>(None));
    let option = ecs_option(subnet);
    law_option_tells_network_alone(subnet, subnet);
    if raw.len() + 11 + option.len() <= u16::MAX {
        let out = wire::with_be16(raw, 10, 1u16) + opt_record(option);
        assert(prepared(raw, subnet) == Ok::<Option<Seq<u8>>, EcsWireError>(Some(out)));
        assert(opt_record(option).len() == 11 + option.len());
        assert(out[raw.len() as int + 1] == 0 && out[raw.len() as int + 2] == 41);
        assert(out[raw.len() as int + 9] == (option.len() as u16 / 256) as u8);
        assert(out[raw.len() as int + 10] == (option.len() as u16 % 256) as u8);
        assert(out.skip(raw.len() as int + 11) =~= option);
    }
}

/// A message too short for a header is not one, and is given nothing.
pub proof fn law_short_message_is_malformed(raw: Seq<u8>, subnet: Ipv4Net)
    requires
        raw.len() < 12,
    ensures
        prepared(raw, subnet) == Err::<Option<Seq<u8>>, EcsWireError>(EcsWireError::Malformed),
{
}

/// A query with a record for options at its end that holds no subnet is given one in that record
/// wherever there is room for it: it becomes longer by the option, which stands at its end, and only
/// the record's length changes before that.
pub proof fn law_query_with_options_gets_subnet(raw: Seq<u8>, subnet: Ipv4Net, opt: RecordSpan)
    requires
        subnet.wf(),
        layout(raw) == Ok::<Option<RecordSpan>, EcsWireError>(Some(opt)),
        0 <= opt.fields,
        opt.fields + 10 <= opt.end,
        opt.end == raw.len(),
        raw[opt.fields + 5] == 0,
        ecs_scan(raw, opt.fields + 10, opt.end, None) == Ok::<Option<(int, int)>, EcsWireError>(
            None,
        ),
    ensures
        raw.len() + ecs_option(subnet).len() <= u16::MAX ==> (prepared(raw, subnet) matches Ok(
            Some(out),
        ) && {
            &&& out.len() == raw.len() + ecs_option(subnet).len()
            &&& out.skip(raw.len() as int) == ecs_option(subnet)
            &&& wire::be16(out, opt.fields + 8) == raw.len() - opt.fields - 10 + ecs_option(
                subnet,
            ).len()
            &&& forall|i: int|
                0 <= i < raw.len() && i != opt.fields + 8 && i != opt.fields + 9 ==> out[i]
                    == raw[i]
        }),
        raw.len() + ecs_option(subnet).len() > u16::MAX ==> prepared(raw, subnet) == Err::<
            Option<Seq<u8>>,
            EcsWireError,
        >(EcsWireError::TooLarge),
{
    let option = ecs_option(subnet);
    if raw.len() + option.len() <= u16::MAX {
        let out = prepared(raw, subnet)->Ok_0.unwrap();
        assert(out.skip(raw.len() as int) =~= option);
    }
}

} // verus!
