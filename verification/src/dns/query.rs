//! DNS queries: names, types and what is asked.
use vstd::prelude::*;

use crate::dns::transport::pipelined::random_id;
use crate::dns::wire;
use crate::dns::wire::{push_all, push_u16, slice_to_vec};
use crate::text;

verus! {

/// The type of record that is asked for.
#[derive(Clone, Copy, Debug, PartialEq, Eq, Hash, Structural)]
pub enum QType {
    A,
    NS,
    CNAME,
    SOA,
    PTR,
    MX,
    TXT,
    AAAA,
    SRV,
    SVCB,
    HTTPS,
    ANY,
    Other(u16),
}

impl QType {
    /// The type's number.
    pub open spec fn code_spec(&self) -> u16 {
        match self {
            QType::A => 1,
            QType::NS => 2,
            QType::CNAME => 5,
            QType::SOA => 6,
            QType::PTR => 12,
            QType::MX => 15,
            QType::TXT => 16,
            QType::AAAA => 28,
            QType::SRV => 33,
            QType::SVCB => 64,
            QType::HTTPS => 65,
            QType::ANY => 255,
            QType::Other(code) => *code,
        }
    }

    /// The type with a number.
    pub open spec fn of_code(code: u16) -> QType {
        if code == 1 {
            QType::A
        } else if code == 2 {
            QType::NS
        } else if code == 5 {
            QType::CNAME
        } else if code == 6 {
            QType::SOA
        } else if code == 12 {
            QType::PTR
        } else if code == 15 {
            QType::MX
        } else if code == 16 {
            QType::TXT
        } else if code == 28 {
            QType::AAAA
        } else if code == 33 {
            QType::SRV
        } else if code == 64 {
            QType::SVCB
        } else if code == 65 {
            QType::HTTPS
        } else if code == 255 {
            QType::ANY
        } else {
            QType::Other(code)
        }
    }

    /// The type's number.
    pub fn code(&self) -> (res: u16)
        ensures
            res == self.code_spec(),
    {
        match self {
            QType::A => 1,
            QType::NS => 2,
            QType::CNAME => 5,
            QType::SOA => 6,
            QType::PTR => 12,
            QType::MX => 15,
            QType::TXT => 16,
            QType::AAAA => 28,
            QType::SRV => 33,
            QType::SVCB => 64,
            QType::HTTPS => 65,
            QType::ANY => 255,
            QType::Other(code) => *code,
        }
    }

    /// The type with a number.
    pub fn from_code(code: u16) -> (res: QType)
        ensures
            res == QType::of_code(code),
    {
        match code {
            1 => QType::A,
            2 => QType::NS,
            5 => QType::CNAME,
            6 => QType::SOA,
            12 => QType::PTR,
            15 => QType::MX,
            16 => QType::TXT,
            28 => QType::AAAA,
            33 => QType::SRV,
            64 => QType::SVCB,
            65 => QType::HTTPS,
            255 => QType::ANY,
            _ => QType::Other(code),
        }
    }

    /// The type with a name, in whatever case.
    pub open spec fn of_name(name: Seq<char>) -> Option<QType> {
        let lower = text::ascii_lowered(name);
        if lower == "a"@ {
            Some(QType::A)
        } else if lower == "ns"@ {
            Some(QType::NS)
        } else if lower == "cname"@ {
            Some(QType::CNAME)
        } else if lower == "soa"@ {
            Some(QType::SOA)
        } else if lower == "ptr"@ {
            Some(QType::PTR)
        } else if lower == "mx"@ {
            Some(QType::MX)
        } else if lower == "txt"@ {
            Some(QType::TXT)
        } else if lower == "aaaa"@ {
            Some(QType::AAAA)
        } else if lower == "srv"@ {
            Some(QType::SRV)
        } else if lower == "svcb"@ {
            Some(QType::SVCB)
        } else if lower == "https"@ {
            Some(QType::HTTPS)
        } else if lower == "any"@ {
            Some(QType::ANY)
        } else {
            None
        }
    }

    /// The type with a name, in whatever case.
    pub fn from_name(name: &str) -> (res: Option<QType>)
        ensures
            res == QType::of_name(name@),
    {
        let lower: String = text::text(&text::ascii_lowercase(&text::chars(name)));
        let lower: &str = lower.as_str();
        if text::same(lower, "a") {
            Some(QType::A)
        } else if text::same(lower, "ns") {
            Some(QType::NS)
        } else if text::same(lower, "cname") {
            Some(QType::CNAME)
        } else if text::same(lower, "soa") {
            Some(QType::SOA)
        } else if text::same(lower, "ptr") {
            Some(QType::PTR)
        } else if text::same(lower, "mx") {
            Some(QType::MX)
        } else if text::same(lower, "txt") {
            Some(QType::TXT)
        } else if text::same(lower, "aaaa") {
            Some(QType::AAAA)
        } else if text::same(lower, "srv") {
            Some(QType::SRV)
        } else if text::same(lower, "svcb") {
            Some(QType::SVCB)
        } else if text::same(lower, "https") {
            Some(QType::HTTPS)
        } else if text::same(lower, "any") {
            Some(QType::ANY)
        } else {
            None
        }
    }

    /// Whether two types have the same number.
    pub fn same(&self, other: &QType) -> (res: bool)
        ensures
            res == (self.code_spec() == other.code_spec()),
    {
        self.code() == other.code()
    }
}

/// The position after the name at `at`, which is written out in full.
pub open spec fn plain_end(raw: Seq<u8>, at: int) -> Option<int>
    decreases raw.len() - at,
{
    if at < 0 || at >= raw.len() {
        None
    } else if raw[at] == 0 {
        Some(at + 1)
    } else if raw[at] >= 64 || at + 1 + raw[at] >= raw.len() {
        None
    } else {
        plain_end(raw, at + 1 + raw[at])
    }
}

/// A label in lower case.
pub open spec fn label_text(raw: Seq<u8>, from: int, to: int) -> Seq<char> {
    Seq::new((to - from) as nat, |i: int| text::ascii_lower(raw[from + i] as char))
}

/// The labels from `at` on, each behind a dot; the first one only where `dot` says so.
pub open spec fn name_tail(raw: Seq<u8>, at: int, dot: bool) -> Seq<char>
    decreases raw.len() - at,
{
    if at < 0 || at >= raw.len() || raw[at] == 0 || raw[at] >= 64 || at + 1 + raw[at] >= raw.len() {
        Seq::empty()
    } else {
        let next = at + 1 + raw[at];
        (if dot {
            seq!['.']
        } else {
            Seq::empty()
        }) + label_text(raw, at + 1, next) + name_tail(raw, next, true)
    }
}

/// The name at `at` in lower case, its labels joined by dots.
pub open spec fn name_text(raw: Seq<u8>, at: int) -> Seq<char> {
    name_tail(raw, at, false)
}

/// The byte with an ASCII letter put in lower case.
pub open spec fn lower_byte(b: u8) -> u8 {
    if 65 <= b <= 90 {
        (b + 32) as u8
    } else {
        b
    }
}

/// The message with identifier zero and the name of its question, which ends at `end`, in lower
/// case.
pub open spec fn canonical(raw: Seq<u8>, end: int) -> Seq<u8> {
    Seq::new(
        raw.len(),
        |i: int|
            if i < 2 {
                0u8
            } else if 12 <= i < end {
                lower_byte(raw[i])
            } else {
                raw[i]
            },
    )
}

/// What a query asks.
pub struct QueryView {
    pub id: u16,
    pub domain: Seq<char>,
    pub qtype: QType,
    pub canonical: Seq<u8>,
}

/// What a message with one question asks; `None` for a malformed one.
pub open spec fn query_of(raw: Seq<u8>) -> Option<QueryView> {
    if raw.len() < 12 || wire::be16(raw, 4) != 1 {
        None
    } else {
        match plain_end(raw, 12) {
            Some(end) => if end + 4 <= raw.len() {
                Some(
                    QueryView {
                        id: wire::be16(raw, 0),
                        domain: name_text(raw, 12),
                        qtype: QType::of_code(wire::be16(raw, end)),
                        canonical: canonical(raw, end),
                    },
                )
            } else {
                None
            },
            None => None,
        }
    }
}

/// What a query asks.
#[derive(Debug)]
pub struct QueryContext {
    pub id: u16,
    pub domain: String,
    pub qtype: QType,
    /// The query without what does not matter for its answer.
    pub canonical: Vec<u8>,
}

impl View for QueryContext {
    type V = QueryView;

    open spec fn view(&self) -> QueryView {
        QueryView {
            id: self.id,
            domain: self.domain@,
            qtype: self.qtype,
            canonical: self.canonical@,
        }
    }
}

fn read_name(raw: &[u8], at: usize) -> (res: Option<(Vec<char>, usize)>)
    ensures
        res is Some <==> plain_end(raw@, at as int) is Some,
        res matches Some((name, end)) ==> name@ == name_text(raw@, at as int) && plain_end(
            raw@,
            at as int,
        ) == Some(end as int) && at < end <= raw@.len(),
{
    let mut out: Vec<char> = Vec::new();
    let mut pos: usize = at;
    while pos < raw.len() && raw[pos] != 0
        invariant
            at <= pos,
            plain_end(raw@, at as int) == plain_end(raw@, pos as int),
            name_text(raw@, at as int) == out@ + name_tail(raw@, pos as int, pos != at),
        decreases raw@.len() - pos,
    {
        let len: usize = raw[pos] as usize;
        if len >= 64 || raw.len() - pos <= len + 1 {
            return None;
        }
        let ghost before = out@;
        let ghost start = pos;
        let next: usize = pos + 1 + len;
        if pos != at {
            out.push('.');
        }
        let ghost dotted = out@;
        let mut i: usize = pos + 1;
        while i < next
            invariant
                start + 1 <= i <= next < raw@.len(),
                out@ == dotted + label_text(raw@, start + 1, i as int),
            decreases next - i,
        {
            out.push(text::to_ascii_lower(raw[i] as char));
            i = i + 1;
            assert(out@ =~= dotted + label_text(raw@, start + 1, i as int));
        }
        assert(out@ + name_tail(raw@, next as int, true) =~= before + name_tail(
            raw@,
            start as int,
            start != at,
        ));
        pos = next;
    }
    if pos >= raw.len() {
        return None;
    }
    assert(out@ + name_tail(raw@, pos as int, pos != at) =~= out@);
    Some((out, pos + 1))
}

impl QueryContext {
    /// Reads what a query asks; `None` for a malformed one.
    pub fn parse(raw: &[u8]) -> (res: Option<QueryContext>)
        ensures
            res is Some <==> query_of(raw@) is Some,
            res matches Some(q) ==> query_of(raw@) == Some(q@),
    {
        if raw.len() < 12 || wire::read_u16(raw, 4) != Some(1) {
            return None;
        }
        let (name, end): (Vec<char>, usize) = match read_name(raw, 12) {
            Some(found) => found,
            None => return None,
        };
        if raw.len() - end < 4 {
            return None;
        }
        let id: u16 = match wire::read_u16(raw, 0) {
            Some(id) => id,
            None => return None,
        };
        let code: u16 = match wire::read_u16(raw, end) {
            Some(code) => code,
            None => return None,
        };
        let mut bytes: Vec<u8> = Vec::new();
        let mut i: usize = 0;
        while i < raw.len()
            invariant
                i <= raw@.len(),
                bytes@ == canonical(raw@, end as int).take(i as int),
            decreases raw@.len() - i,
        {
            let b: u8 = raw[i];
            if i < 2 {
                bytes.push(0);
            } else if 12 <= i && i < end && 65 <= b && b <= 90 {
                bytes.push(b + 32);
            } else {
                bytes.push(b);
            }
            i = i + 1;
            assert(bytes@ =~= canonical(raw@, end as int).take(i as int));
        }
        assert(bytes@ =~= canonical(raw@, end as int));
        Some(
            QueryContext {
                id,
                domain: text::text(&name),
                qtype: QType::from_code(code),
                canonical: bytes,
            },
        )
    }

    /// The domain that is asked for.
    pub fn qdomain(&self) -> (res: &str)
        ensures
            res@ == self@.domain,
    {
        self.domain.as_str()
    }

    /// The query without what does not matter for its answer.
    pub fn canonical_wire(&self) -> (res: Vec<u8>)
        ensures
            res@ == self@.canonical,
    {
        let res: Vec<u8> = slice_to_vec(&self.canonical, 0, self.canonical.len());
        assert(res@ =~= self.canonical@);
        res
    }

    /// The same query once more.
    pub fn copy(&self) -> (res: QueryContext)
        ensures
            res@ == self@,
    {
        QueryContext {
            id: self.id,
            domain: self.domain.clone(),
            qtype: self.qtype,
            canonical: self.canonical_wire(),
        }
    }
}

/// The text can be a label: one to 63 ASCII characters.
pub open spec fn is_label(label: Seq<char>) -> bool {
    &&& 1 <= label.len() <= 63
    &&& forall|i: int| 0 <= i < label.len() ==> (#[trigger] label[i] as u32) < 128
}

/// A label behind its length.
pub open spec fn label_wire(label: Seq<char>) -> Seq<u8> {
    seq![label.len() as u8] + Seq::new(label.len(), |i: int| label[i] as u8)
}

/// The first `n` labels on the wire; `None` when one of them is no label.
pub open spec fn labels_wire(labels: Seq<Seq<char>>, n: int) -> Option<Seq<u8>>
    decreases n,
{
    if n <= 0 {
        Some(Seq::empty())
    } else {
        match labels_wire(labels, n - 1) {
            Some(bytes) => if is_label(labels[n - 1]) {
                Some(bytes + label_wire(labels[n - 1]))
            } else {
                None
            },
            None => None,
        }
    }
}

/// A domain on the wire: its labels, each behind its length, and a zero byte; at most 255 bytes.
pub open spec fn wire_name(domain: Seq<char>) -> Option<Seq<u8>> {
    let labels = text::fields(domain, '.');
    match labels_wire(labels, labels.len() as int) {
        Some(bytes) => if bytes.len() < 255 {
            Some(bytes.push(0))
        } else {
            None
        },
        None => None,
    }
}

/// A domain name on the wire.
#[derive(Debug)]
pub struct DnsName {
    pub wire: Vec<u8>,
}

proof fn lemma_labels_wire_error(labels: Seq<Seq<char>>, n: int, m: int)
    requires
        n <= m,
        labels_wire(labels, n) is None,
    ensures
        labels_wire(labels, m) is None,
    decreases m - n,
{
    if n < m {
        lemma_labels_wire_error(labels, n, m - 1);
    }
}

fn check_label(label: &[char]) -> (res: bool)
    ensures
        res == is_label(label@),
{
    if label.len() < 1 || label.len() > 63 {
        return false;
    }
    let mut i: usize = 0;
    while i < label.len()
        invariant
            i <= label@.len(),
            forall|j: int| 0 <= j < i ==> (#[trigger] label@[j] as u32) < 128,
        decreases label@.len() - i,
    {
        if label[i] as u32 >= 128 {
            return false;
        }
        i = i + 1;
    }
    true
}

impl DnsName {
    /// A domain on the wire.
    pub fn from_domain(domain: &str) -> (res: Option<DnsName>)
        ensures
            match (res, wire_name(domain@)) {
                (Some(name), Some(bytes)) => name.wire@ == bytes,
                (None, None) => true,
                _ => false,
            },
    {
        let labels: Vec<Vec<char>> = text::split(&text::chars(domain), '.');
        let ghost all = text::fields(domain@, '.');
        assert(all.len() == labels@.len());
        let mut bytes: Vec<u8> = Vec::new();
        let mut i: usize = 0;
        while i < labels.len()
            invariant
                i <= labels@.len(),
                all == text::views(labels@),
                all == text::fields(domain@, '.'),
                all.len() == labels@.len(),
                labels_wire(all, i as int) == Some(bytes@),
            decreases labels@.len() - i,
        {
            let label: &Vec<char> = &labels[i];
            assert(all[i as int] == label@);
            if !check_label(label) {
                proof {
                    lemma_labels_wire_error(all, i + 1, all.len() as int);
                }
                return None;
            }
            let ghost before = bytes@;
            bytes.push(label.len() as u8);
            let mut j: usize = 0;
            while j < label.len()
                invariant
                    j <= label@.len(),
                    is_label(label@),
                    bytes@ == before + label_wire(label@).take(1 + j),
                decreases label@.len() - j,
            {
                assert((label@[j as int] as u32) < 128);
                bytes.push(label[j] as u8);
                j = j + 1;
                assert(bytes@ =~= before + label_wire(label@).take(1 + j));
            }
            assert(label_wire(label@).take(1 + j) =~= label_wire(label@));
            i = i + 1;
        }
        if bytes.len() >= 255 {
            return None;
        }
        bytes.push(0);
        Some(DnsName { wire: bytes })
    }
}

/// A query for a name: one question of class IN, with recursion desired.
pub open spec fn query_wire(id: u16, name: Seq<u8>, qtype: QType) -> Seq<u8> {
    wire::be16_bytes(id) + seq![1u8, 0u8, 0u8, 1u8, 0u8, 0u8, 0u8, 0u8, 0u8, 0u8] + name
        + wire::be16_bytes(qtype.code_spec()) + seq![0u8, 1u8]
}

/// A query for a name, under an identifier.
pub fn build_dns_query_wire_with_id(id: u16, name: &DnsName, qtype: QType) -> (res: Vec<u8>)
    ensures
        res@ == query_wire(id, name.wire@, qtype),
{
    let mut out: Vec<u8> = Vec::new();
    push_u16(&mut out, id);
    push_u16(&mut out, 0x0100);
    push_u16(&mut out, 1);
    push_u16(&mut out, 0);
    push_u16(&mut out, 0);
    push_u16(&mut out, 0);
    assert(out@ =~= wire::be16_bytes(id) + seq![
        1u8,
        0u8,
        0u8,
        1u8,
        0u8,
        0u8,
        0u8,
        0u8,
        0u8,
        0u8,
    ]);
    push_all(&mut out, &name.wire);
    push_u16(&mut out, qtype.code());
    push_u16(&mut out, 1);
    assert(wire::be16_bytes(1) =~= seq![0u8, 1u8]);
    out
}

/// A query for a name, under some identifier.
pub fn build_dns_query_wire(name: &DnsName, qtype: QType) -> (res: Vec<u8>)
    ensures
        exists|id: u16| res@ == #[trigger] query_wire(id, name.wire@, qtype),
{
    build_dns_query_wire_with_id(random_id(), name, qtype)
}

/// A name that is written out in full ends where any name does.
pub proof fn lemma_plain_name(raw: Seq<u8>, at: int)
    ensures
        plain_end(raw, at) is Some ==> wire::name_end(raw, at) == plain_end(raw, at),
    decreases raw.len() - at,
{
    if 0 <= at && at + 1 + raw[at] < raw.len() && 0 < raw[at] < 64 {
        lemma_plain_name(raw, at + 1 + raw[at]);
    }
}

/// Every query that can be read has a question that a response can repeat.
pub proof fn law_query_has_question(raw: Seq<u8>)
    requires
        query_of(raw) is Some,
    ensures
        wire::question_end_spec(raw) is Some,
{
    lemma_plain_name(raw, 12);
}

/// A name whose letters differ in case alone ends at the same place and reads the same.
proof fn lemma_name_case(raw: Seq<u8>, other: Seq<u8>, end: int, at: int, dot: bool)
    requires
        0 <= at,
        plain_end(raw, at) == Some(end),
        raw.len() == other.len(),
        forall|i: int| at <= i < end ==> lower_byte(raw[i]) == lower_byte(#[trigger] other[i]),
    ensures
        at < end <= raw.len(),
        plain_end(other, at) == Some(end),
        name_tail(other, at, dot) == name_tail(raw, at, dot),
    decreases raw.len() - at,
{
    lemma_plain_end_after(raw, at);
    assert(raw[at] < 64);
    assert(lower_byte(raw[at]) == lower_byte(other[at]));
    assert(other[at] == raw[at]);
    if raw[at] != 0 {
        let next = at + 1 + raw[at];
        lemma_plain_end_after(raw, next);
        assert forall|i: int| next <= i < end implies lower_byte(raw[i]) == lower_byte(
            #[trigger] other[i],
        ) by {}
        lemma_name_case(raw, other, end, next, true);
        assert forall|i: int| at + 1 <= i < next implies text::ascii_lower(
            #[trigger] other[i] as char,
        ) == text::ascii_lower(raw[i] as char) by {
            assert(lower_byte(raw[i]) == lower_byte(other[i]));
        }
        assert(label_text(other, at + 1, next) =~= label_text(raw, at + 1, next));
    }
}

/// A name that is written out in full ends behind its start and within the message.
proof fn lemma_plain_end_after(raw: Seq<u8>, at: int)
    requires
        plain_end(raw, at) is Some,
    ensures
        0 <= at < plain_end(raw, at)->0 <= raw.len(),
    decreases raw.len() - at,
{
    if raw[at] != 0 {
        lemma_plain_end_after(raw, at + 1 + raw[at]);
    }
}

/// Two messages that differ only in their identifiers and in the case of the letters of the name
/// that is asked for ask the same.
pub proof fn law_case_of_name_is_nothing(raw: Seq<u8>, other: Seq<u8>)
    requires
        query_of(raw) is Some,
        canonical(raw, plain_end(raw, 12)->0) == canonical(other, plain_end(raw, 12)->0),
    ensures
        query_of(other) is Some,
        query_of(other)->0.domain == query_of(raw)->0.domain,
        query_of(other)->0.qtype == query_of(raw)->0.qtype,
        query_of(other)->0.canonical == query_of(raw)->0.canonical,
{
    let end = plain_end(raw, 12)->0;
    let a = canonical(raw, end);
    let b = canonical(other, end);
    assert(a.len() == raw.len() && b.len() == other.len());
    lemma_plain_end_after(raw, 12);
    assert forall|i: int| 12 <= i < end implies lower_byte(raw[i]) == lower_byte(
        #[trigger] other[i],
    ) by {
        assert(a[i] == b[i]);
    }
    assert(a[4] == b[4] && a[5] == b[5] && a[end] == b[end] && a[end + 1] == b[end + 1]);
    lemma_name_case(raw, other, end, 12, false);
}

/// Each label stands on the wire where those before it end.
proof fn lemma_label_place(labels: Seq<Seq<char>>, n: int, i: int)
    requires
        0 <= i < n <= labels.len(),
        labels_wire(labels, n) is Some,
    ensures
        labels_wire(labels, i) is Some,
        labels_wire(labels, i + 1) is Some,
        is_label(labels[i]),
        ({
            let all = labels_wire(labels, n)->0;
            let at = labels_wire(labels, i)->0.len() as int;
            let next = at + 1 + labels[i].len();
            &&& next <= all.len()
            &&& labels_wire(labels, i + 1)->0.len() == next
            &&& all[at] == labels[i].len()
            &&& forall|k: int| 0 <= k < labels[i].len() ==> #[trigger] all[at + 1 + k]
                == labels[i][k] as u8
        }),
    decreases n,
{
    let all = labels_wire(labels, n)->0;
    let before = labels_wire(labels, n - 1)->0;
    assert(all == before + label_wire(labels[n - 1]));
    if i == n - 1 {
        let own = label_wire(labels[i]);
        assert(own[0] == labels[i].len());
        assert forall|k: int| 0 <= k < labels[i].len() implies #[trigger] all[before.len() + 1 + k]
            == labels[i][k] as u8 by {
            assert(all[before.len() + 1 + k] == own[1 + k]);
        }
    } else {
        lemma_label_place(labels, n - 1, i);
    }
}

proof fn lemma_ascii_byte(c: char)
    requires
        (c as u32) < 128,
    ensures
        (c as u8) as char == c,
{
}

/// From the label on that stands behind the first `i`, the name reads as the rest of the labels,
/// and ends where they do.
proof fn lemma_labels_read(raw: Seq<u8>, labels: Seq<Seq<char>>, i: int)
    requires
        0 <= i <= labels.len(),
        labels_wire(labels, labels.len() as int) is Some,
        ({
            let all = labels_wire(labels, labels.len() as int)->0;
            &&& 12 + all.len() < raw.len()
            &&& forall|k: int| 0 <= k < all.len() ==> #[trigger] raw[12 + k] == all[k]
            &&& raw[12 + all.len() as int] == 0
        }),
    ensures
        labels_wire(labels, i) is Some,
        ({
            let at = 12 + labels_wire(labels, i)->0.len() as int;
            let n = labels.len() as int;
            &&& plain_end(raw, at) == Some(13 + labels_wire(labels, n)->0.len() as int)
            &&& text::ascii_lowered(text::joined(labels, '.', i)) + name_tail(raw, at, i > 0)
                == text::ascii_lowered(text::joined(labels, '.', n))
        }),
    decreases labels.len() - i,
{
    let n = labels.len() as int;
    let all = labels_wire(labels, n)->0;
    let whole = text::ascii_lowered(text::joined(labels, '.', n));
    if i == n {
        assert(name_tail(raw, 12 + all.len() as int, i > 0) =~= Seq::<char>::empty());
        assert(whole + Seq::<char>::empty() =~= whole);
    } else {
        lemma_label_place(labels, n, i);
        lemma_labels_read(raw, labels, i + 1);
        let own = labels[i];
        let off = labels_wire(labels, i)->0.len() as int;
        let at = 12 + off;
        let next = at + 1 + own.len();
        assert(raw[12 + off] == all[off]);
        assert(raw[at] == own.len());
        assert(label_text(raw, at + 1, next) =~= text::ascii_lowered(own)) by {
            assert forall|k: int| 0 <= k < own.len() implies label_text(raw, at + 1, next)[k]
                == text::ascii_lowered(own)[k] by {
                assert(raw[12 + (off + 1 + k)] == all[off + 1 + k]);
                lemma_ascii_byte(own[k]);
            }
        }
        let dot = if i > 0 {
            seq!['.']
        } else {
            Seq::<char>::empty()
        };
        let rest = name_tail(raw, next, true);
        assert(name_tail(raw, at, i > 0) == dot + label_text(raw, at + 1, next) + rest);
        assert(text::ascii_lower('.') == '.');
        assert(text::joined(labels, '.', i + 1) =~= text::joined(labels, '.', i) + dot + own);
        assert(text::ascii_lowered(text::joined(labels, '.', i + 1)) =~= text::ascii_lowered(
            text::joined(labels, '.', i),
        ) + dot + text::ascii_lowered(own));
        assert(text::ascii_lowered(text::joined(labels, '.', i)) + (dot + text::ascii_lowered(own)
            + rest) =~= text::ascii_lowered(text::joined(labels, '.', i + 1)) + rest);
    }
}

/// A query that was built is read back: its identifier, its name in lower case and its type.
pub proof fn law_query_read_back(id: u16, domain: Seq<char>, qtype: QType)
    requires
        wire_name(domain) is Some,
    ensures
        query_of(query_wire(id, wire_name(domain)->0, qtype)) matches Some(q) && q.id == id
            && q.domain == text::ascii_lowered(domain) && q.qtype == QType::of_code(
            qtype.code_spec(),
        ),
{
    let labels = text::fields(domain, '.');
    let all = labels_wire(labels, labels.len() as int)->0;
    let name = all.push(0);
    let raw = query_wire(id, name, qtype);
    let start = wire::be16_bytes(id) + seq![1u8, 0u8, 0u8, 1u8, 0u8, 0u8, 0u8, 0u8, 0u8, 0u8];
    let code = qtype.code_spec();
    let end = 13 + all.len() as int;
    assert(start.len() == 12);
    assert(raw.len() == end + 4);
    assert forall|k: int| 0 <= k < all.len() implies #[trigger] raw[12 + k] == all[k] by {
        assert(raw[12 + k] == name[k]);
    }
    assert(raw[12 + all.len() as int] == name[all.len() as int]);
    assert(raw[0] == start[0] && raw[1] == start[1] && raw[4] == start[4] && raw[5] == start[5]);
    assert(raw[end] == wire::be16_bytes(code)[0] && raw[end + 1] == wire::be16_bytes(code)[1]);
    assert(wire::be16(raw, 0) == id);
    assert(wire::be16(raw, 4) == 1);
    assert(wire::be16(raw, end) == code);
    text::law_fields_join(domain, '.');
    lemma_labels_read(raw, labels, 0);
    assert(text::ascii_lowered(text::joined(labels, '.', 0)) =~= Seq::<char>::empty());
    assert(Seq::<char>::empty() + name_text(raw, 12) =~= name_text(raw, 12));
}

/// A name reads the same in two messages that agree on its bytes.
pub proof fn lemma_plain_name_agree(a: Seq<u8>, b: Seq<u8>, at: int, end: int, dot: bool)
    requires
        0 <= at,
        plain_end(a, at) == Some(end),
        end <= b.len(),
        forall|i: int| at <= i < end ==> a[i] == #[trigger] b[i],
    ensures
        at < end <= a.len(),
        plain_end(b, at) == Some(end),
        name_tail(b, at, dot) == name_tail(a, at, dot),
    decreases a.len() - at,
{
    lemma_plain_end_after(a, at);
    assert(a[at] == b[at]);
    if a[at] != 0 {
        let next = at + 1 + a[at];
        lemma_plain_end_after(a, next);
        lemma_plain_name_agree(a, b, next, end, true);
        assert(label_text(a, at + 1, next) =~= label_text(b, at + 1, next));
    }
}

/// Messages that differ in their identifier alone ask the same; what they ask is found under one
/// and the same key.
pub proof fn law_identifier_is_nothing(raw: Seq<u8>, id: u16)
    requires
        query_of(raw) is Some,
    ensures
        query_of(wire::with_be16(raw, 0, id)) == Some(QueryView { id, ..query_of(raw)->0 }),
{
    let other = wire::with_be16(raw, 0, id);
    let end = plain_end(raw, 12)->0;
    lemma_plain_name_agree(raw, other, 12, end, false);
    assert(canonical(other, end) =~= canonical(raw, end));
    assert(wire::be16(other, 0) == id);
    assert(wire::be16(other, 4) == wire::be16(raw, 4));
    assert(wire::be16(other, end) == wire::be16(raw, end));
}

/// Two queries whose names, types or anything behind them differ are told apart: equal keys mean
/// equal messages but for the identifier and the case of the name's letters.
pub proof fn law_keys_tell_queries_apart(a: Seq<u8>, b: Seq<u8>)
    requires
        query_of(a) is Some,
        query_of(b) is Some,
        query_of(a)->0.canonical == query_of(b)->0.canonical,
    ensures
        a.len() == b.len(),
        forall|i: int|
            2 <= i < a.len() ==> (#[trigger] a[i] == b[i] || (12 <= i && lower_byte(a[i])
                == lower_byte(b[i]))),
        forall|i: int| 2 <= i < 12 ==> #[trigger] a[i] == b[i],
{
    let ca = query_of(a)->0.canonical;
    let cb = query_of(b)->0.canonical;
    lemma_plain_end_after(a, 12);
    lemma_plain_end_after(b, 12);
    assert(ca.len() == a.len() && cb.len() == b.len());
    assert forall|i: int| 2 <= i < a.len() implies (#[trigger] a[i] == b[i] || (12 <= i && lower_byte(
        a[i],
    ) == lower_byte(b[i]))) by {
        assert(ca[i] == cb[i]);
    }
    assert forall|i: int| 2 <= i < 12 implies #[trigger] a[i] == b[i] by {
        assert(ca[i] == cb[i]);
    }
}

/// Each number is that of one type, and a type that is read from a number has that number; those of
/// addresses are 1 and 28.
pub proof fn law_type_numbers_read_back(code: u16, qtype: QType)
    ensures
        QType::of_code(code).code_spec() == code,
        !(qtype is Other) ==> QType::of_code(qtype.code_spec()) == qtype,
        QType::of_code(code) == QType::A <==> code == 1,
        QType::of_code(code) == QType::AAAA <==> code == 28,
        QType::of_code(code) == QType::TXT <==> code == 16,
{
}

/// The name of a type is read in whatever case its letters are.
pub proof fn law_type_names_have_no_case(a: Seq<char>, b: Seq<char>)
    requires
        text::ascii_lowered(a) == text::ascii_lowered(b),
    ensures
        QType::of_name(a) == QType::of_name(b),
        text::ascii_lowered(a) == "a"@ ==> QType::of_name(b) == Some(QType::A),
        text::ascii_lowered(a) == "aaaa"@ ==> QType::of_name(b) == Some(QType::AAAA),
        text::ascii_lowered(a) == "txt"@ ==> QType::of_name(b) == Some(QType::TXT),
{
    reveal_strlit("a");
    reveal_strlit("ns");
    reveal_strlit("cname");
    reveal_strlit("soa");
    reveal_strlit("ptr");
    reveal_strlit("mx");
    reveal_strlit("txt");
    reveal_strlit("aaaa");
    assert("a"@.len() == 1 && "ns"@.len() == 2 && "cname"@.len() == 5 && "soa"@.len() == 3
        && "ptr"@.len() == 3 && "mx"@.len() == 2 && "txt"@.len() == 3 && "aaaa"@.len() == 4);
    assert("soa"@[0] == 's' && "ptr"@[0] == 'p' && "txt"@[0] == 't');
}

} // verus!
