//! What is logged, and how it is written.
use vstd::prelude::*;

use crate::text;

verus! {

/// How much is logged.
#[derive(Clone, Copy, Debug, PartialEq, Eq, Structural)]
pub enum LogLevel {
    Trace,
    Debug,
    Info,
    Warning,
    Error,
    Silent,
}

/// What is let through.
#[derive(Clone, Copy, Debug, PartialEq, Eq, Structural)]
pub enum LevelFilter {
    Off,
    Error,
    Warn,
    Info,
    Debug,
    Trace,
}

/// The level of an event.
#[derive(Clone, Copy, Debug, PartialEq, Eq, Structural)]
pub enum Level {
    Error,
    Warn,
    Info,
    Debug,
    Trace,
}

impl LogLevel {
    /// What is let through at the level.
    pub open spec fn passes(&self) -> LevelFilter {
        match self {
            LogLevel::Error => LevelFilter::Error,
            LogLevel::Warning => LevelFilter::Warn,
            LogLevel::Info => LevelFilter::Info,
            LogLevel::Debug => LevelFilter::Debug,
            LogLevel::Trace => LevelFilter::Trace,
            LogLevel::Silent => LevelFilter::Off,
        }
    }

    /// What is let through at the level.
    pub fn filter(&self) -> (res: LevelFilter)
        ensures
            res == self.passes(),
    {
        match self {
            LogLevel::Error => LevelFilter::Error,
            LogLevel::Warning => LevelFilter::Warn,
            LogLevel::Info => LevelFilter::Info,
            LogLevel::Debug => LevelFilter::Debug,
            LogLevel::Trace => LevelFilter::Trace,
            LogLevel::Silent => LevelFilter::Off,
        }
    }

    /// The level of an event, as it is told of.
    pub open spec fn told(level: Level) -> LogLevel {
        match level {
            Level::Error => LogLevel::Error,
            Level::Warn => LogLevel::Warning,
            Level::Info => LogLevel::Info,
            Level::Debug => LogLevel::Debug,
            Level::Trace => LogLevel::Trace,
        }
    }

    /// The level of an event, as it is told of.
    pub fn of_event(level: Level) -> (res: LogLevel)
        ensures
            res == LogLevel::told(level),
    {
        match level {
            Level::Error => LogLevel::Error,
            Level::Warn => LogLevel::Warning,
            Level::Info => LogLevel::Info,
            Level::Debug => LogLevel::Debug,
            Level::Trace => LogLevel::Trace,
        }
    }
}

/// An event as it is told of.
#[derive(Debug)]
pub struct LogEvent {
    pub level: LogLevel,
    pub msg: String,
}

/// A field of an event: its name, its value as it is written, and whether the value was written
/// for debugging.
#[derive(Debug)]
pub struct EventField {
    pub name: String,
    pub value: String,
    pub debug: bool,
}

/// The field in words: a message is its value, and only where it is written for debugging; any
/// other field is its name and its value.
pub open spec fn field_text(name: Seq<char>, value: Seq<char>, debug: bool) -> Option<Seq<char>> {
    if name != "message"@ {
        Some(name + "="@ + value)
    } else if debug {
        Some(value)
    } else {
        None
    }
}

/// The first `n` fields in words.
pub open spec fn field_texts(fields: Seq<EventField>, n: int) -> Seq<Seq<char>>
    decreases n,
{
    if n <= 0 {
        Seq::empty()
    } else {
        let f = fields[n - 1];
        match field_text(f.name@, f.value@, f.debug) {
            Some(words) => field_texts(fields, n - 1).push(words),
            None => field_texts(fields, n - 1),
        }
    }
}

/// The mark of a trace.
pub open spec fn trace_mark(trace_id: u64) -> Seq<char> {
    "[#"@ + text::number_text(trace_id as nat) + "]"@
}

/// The parts of an event's message: the mark of its trace, where it has one, and its fields.
pub open spec fn message_parts(trace_id: Option<u64>, fields: Seq<EventField>) -> Seq<Seq<char>> {
    match trace_id {
        Some(id) => seq![trace_mark(id)] + field_texts(fields, fields.len() as int),
        None => field_texts(fields, fields.len() as int),
    }
}

/// The first `n` parts with a space between each two.
pub open spec fn spaced(parts: Seq<Seq<char>>, n: int) -> Seq<char>
    decreases n,
{
    if n <= 0 {
        Seq::empty()
    } else if n == 1 {
        parts[0]
    } else {
        spaced(parts, n - 1) + " "@ + parts[n - 1]
    }
}

fn write_mark(trace_id: u64) -> (res: Vec<char>)
    ensures
        res@ == trace_mark(trace_id),
{
    let mut out: Vec<char> = text::chars("[#");
    text::append(&mut out, &text::write_number(trace_id));
    text::append(&mut out, &text::chars("]"));
    out
}

fn push_field(parts: &mut Vec<Vec<char>>, field: &EventField)
    ensures
        text::views(final(parts)@) == match field_text(field.name@, field.value@, field.debug) {
            Some(words) => text::views(old(parts)@).push(words),
            None => text::views(old(parts)@),
        },
{
    let ghost before = parts@;
    if !text::same(field.name.as_str(), "message") {
        let mut words: Vec<char> = text::chars(field.name.as_str());
        text::append(&mut words, &text::chars("="));
        text::append(&mut words, &text::chars(field.value.as_str()));
        parts.push(words);
        assert(text::views(parts@) =~= text::views(before).push(words@));
    } else if field.debug {
        let words: Vec<char> = text::chars(field.value.as_str());
        parts.push(words);
        assert(text::views(parts@) =~= text::views(before).push(words@));
    }
}

fn join_spaced(parts: &Vec<Vec<char>>) -> (res: Vec<char>)
    ensures
        res@ == spaced(text::views(parts@), parts@.len() as int),
{
    let ghost all = text::views(parts@);
    let mut out: Vec<char> = Vec::new();
    let mut i: usize = 0;
    while i < parts.len()
        invariant
            i <= parts@.len(),
            all == text::views(parts@),
            out@ == spaced(all, i as int),
        decreases parts@.len() - i,
    {
        assert(all[i as int] == parts@[i as int]@);
        if i == 0 {
            text::append(&mut out, &parts[i]);
            assert(out@ =~= all[0]);
        } else {
            text::append(&mut out, &text::chars(" "));
            text::append(&mut out, &parts[i]);
        }
        i = i + 1;
    }
    out
}

/// An event as it is told of.
pub fn collect_event(level: Level, trace_id: Option<u64>, fields: &Vec<EventField>) -> (res: LogEvent)
    ensures
        res.level == LogLevel::told(level),
        res.msg@ == spaced(
            message_parts(trace_id, fields@),
            message_parts(trace_id, fields@).len() as int,
        ),
{
    let mut parts: Vec<Vec<char>> = Vec::new();
    assert(text::views(parts@) =~= Seq::empty());
    if let Some(id) = trace_id {
        let mark: Vec<char> = write_mark(id);
        parts.push(mark);
        assert(text::views(parts@) =~= seq![mark@]);
    }
    let ghost start = text::views(parts@);
    let mut i: usize = 0;
    assert(start + field_texts(fields@, 0) =~= start);
    while i < fields.len()
        invariant
            i <= fields@.len(),
            text::views(parts@) == start + field_texts(fields@, i as int),
        decreases fields@.len() - i,
    {
        let ghost before = text::views(parts@);
        push_field(&mut parts, &fields[i]);
        assert(text::views(parts@) =~= start + field_texts(fields@, i + 1));
        i = i + 1;
    }
    assert(text::views(parts@) =~= message_parts(trace_id, fields@));
    assert(text::views(parts@).len() == parts@.len());
    let msg: Vec<char> = join_spaced(&parts);
    LogEvent { level: LogLevel::of_event(level), msg: text::text(&msg) }
}

/// The mark in front of a line of the log: that of the event's trace.
pub fn line_prefix(trace_id: Option<u64>) -> (res: String)
    ensures
        res@ == match trace_id {
            Some(id) => trace_mark(id) + " "@,
            None => Seq::empty(),
        },
{
    let mut out: Vec<char> = Vec::new();
    if let Some(id) = trace_id {
        out = write_mark(id);
        text::append(&mut out, &text::chars(" "));
    }
    text::text(&out)
}

/// The value of a field of a span.
#[derive(Debug)]
pub enum SpanValue {
    Unsigned(u64),
    Signed(i64),
    /// Any other value, as it is written.
    Written(String),
}

/// The number of a trace that a field gives, where it is called so and is a number.
pub open spec fn trace_of(name: Seq<char>, value: SpanValue) -> Option<u64> {
    if name != "trace_id"@ {
        None
    } else {
        match value {
            SpanValue::Unsigned(id) => Some(id),
            SpanValue::Signed(id) => if id >= 0 {
                Some(id as u64)
            } else {
                None
            },
            SpanValue::Written(s) => written_number(s@),
        }
    }
}

/// A field of a span.
#[derive(Debug)]
pub struct SpanField {
    pub name: String,
    pub value: SpanValue,
}

/// The number of a trace that the first `n` fields of a span give: the last one.
pub open spec fn span_trace(fields: Seq<SpanField>, n: int) -> Option<u64>
    decreases n,
{
    if n <= 0 {
        None
    } else {
        match trace_of(fields[n - 1].name@, fields[n - 1].value) {
            Some(id) => Some(id),
            None => span_trace(fields, n - 1),
        }
    }
}

/// The number that a text writes, where there is one that fits.
pub open spec fn written_number(s: Seq<char>) -> Option<u64> {
    match text::number(s, u64::MAX as int) {
        Some(n) => Some(n as u64),
        None => None,
    }
}

fn read_trace(field: &SpanField) -> (res: Option<u64>)
    ensures
        res == trace_of(field.name@, field.value),
{
    if !text::same(field.name.as_str(), "trace_id") {
        return None;
    }
    match &field.value {
        SpanValue::Unsigned(id) => Some(*id),
        SpanValue::Signed(id) => if *id >= 0 {
            Some(*id as u64)
        } else {
            None
        },
        SpanValue::Written(s) => text::parse_number(
            &text::chars(s.as_str()),
            0xffff_ffff_ffff_ffff,
        ),
    }
}

/// The number of a trace that the fields of a span give: the last one.
pub fn span_trace_id(fields: &Vec<SpanField>) -> (res: Option<u64>)
    ensures
        res == span_trace(fields@, fields@.len() as int),
{
    let mut found: Option<u64> = None;
    let mut i: usize = 0;
    while i < fields.len()
        invariant
            i <= fields@.len(),
            found == span_trace(fields@, i as int),
        decreases fields@.len() - i,
    {
        if let Some(id) = read_trace(&fields[i]) {
            found = Some(id);
        }
        i = i + 1;
    }
    found
}

/// The number of the innermost trace that an event is in. `spans` are the numbers of the spans
/// around it, the innermost first.
pub open spec fn innermost(spans: Seq<Option<u64>>, from: int) -> Option<u64>
    decreases spans.len() - from,
{
    if from < 0 || from >= spans.len() {
        None
    } else {
        match spans[from] {
            Some(id) => Some(id),
            None => innermost(spans, from + 1),
        }
    }
}

/// The number of the innermost trace that an event is in.
pub fn find_trace_id(spans: &Vec<Option<u64>>) -> (res: Option<u64>)
    ensures
        res == innermost(spans@, 0),
{
    let mut i: usize = 0;
    while i < spans.len()
        invariant
            i <= spans@.len(),
            innermost(spans@, 0) == innermost(spans@, i as int),
        decreases spans@.len() - i,
    {
        if let Some(id) = spans[i] {
            return Some(id);
        }
        i = i + 1;
    }
    None
}

/// The name of a level.
pub open spec fn level_name(level: LogLevel) -> Seq<char> {
    match level {
        LogLevel::Trace => "trace"@,
        LogLevel::Debug => "debug"@,
        LogLevel::Info => "info"@,
        LogLevel::Warning => "warn"@,
        LogLevel::Error => "error"@,
        LogLevel::Silent => "off"@,
    }
}

fn write_level(level: LogLevel) -> (res: &'static str)
    ensures
        res@ == level_name(level),
{
    match level {
        LogLevel::Trace => "trace",
        LogLevel::Debug => "debug",
        LogLevel::Info => "info",
        LogLevel::Warning => "warn",
        LogLevel::Error => "error",
        LogLevel::Silent => "off",
    }
}

/// Events from here are not logged.
pub open spec fn is_excluded(target: Seq<char>) -> bool {
    text::has_part(target, "tokio"@) || text::has_part(target, "runtime"@)
}

/// How logging is set up.
pub struct LoggingPlan {
    /// What is let through where the environment does not say otherwise.
    pub directives: String,
    /// The file that is logged to.
    pub log_path: Option<String>,
}

/// How logging is set up: warnings of other crates are let through, and what the level says of this
/// one. A relative path of a file counts from the working directory; `absolute` tells whether it is
/// one.
pub fn setup_logging(level: LogLevel, cwd: &str, log_file: &Option<String>, absolute: bool) -> (res:
    LoggingPlan)
    ensures
        res.directives@ == "warn,clash="@ + level_name(level),
        text::opt_view(res.log_path) == match *log_file {
            Some(file) => Some(
                if absolute {
                    file@
                } else {
                    cwd@ + "/"@ + file@
                },
            ),
            None => None,
        },
{
    let log_path: Option<String> = match log_file {
        Some(file) => {
            if absolute {
                Some(file.clone())
            } else {
                let mut out: Vec<char> = text::chars(cwd);
                text::append(&mut out, &text::chars("/"));
                text::append(&mut out, &text::chars(file.as_str()));
                Some(text::text(&out))
            }
        },
        None => None,
    };
    LoggingPlan { directives: text::concat("warn,clash=", write_level(level)), log_path }
}

/// Whether events from a place are logged.
pub fn is_logged(target: &str) -> (res: bool)
    ensures
        res == !is_excluded(target@),
{
    let from: Vec<char> = text::chars(target);
    !text::contains(&from, &text::chars("tokio")) && !text::contains(&from, &text::chars("runtime"))
}

/// A level lets through what is as grave as it or graver, and silence lets nothing through: the
/// levels stand in the same order as what they let through.
pub proof fn law_levels_are_in_order(a: LogLevel, b: LogLevel)
    ensures
        verbosity(a.passes()) == talk(a),
        talk(a) < talk(b) <==> verbosity(a.passes()) < verbosity(b.passes()),
        talk(LogLevel::Silent) == 0,
{
}

/// How much a level has to say.
pub open spec fn talk(level: LogLevel) -> int {
    match level {
        LogLevel::Silent => 0,
        LogLevel::Error => 1,
        LogLevel::Warning => 2,
        LogLevel::Info => 3,
        LogLevel::Debug => 4,
        LogLevel::Trace => 5,
    }
}

/// How much a filter lets through.
pub open spec fn verbosity(filter: LevelFilter) -> int {
    match filter {
        LevelFilter::Off => 0,
        LevelFilter::Error => 1,
        LevelFilter::Warn => 2,
        LevelFilter::Info => 3,
        LevelFilter::Debug => 4,
        LevelFilter::Trace => 5,
    }
}

/// What is told of an event's level is the level that lets through events of that level and graver
/// ones alone.
pub proof fn law_event_level_is_told(level: Level)
    ensures
        match level {
            Level::Error => LogLevel::told(level).passes() is Error,
            Level::Warn => LogLevel::told(level).passes() is Warn,
            Level::Info => LogLevel::told(level).passes() is Info,
            Level::Debug => LogLevel::told(level).passes() is Debug,
            Level::Trace => LogLevel::told(level).passes() is Trace,
        },
{
}

/// The trace that counts is that of the innermost span that has one.
pub proof fn law_innermost_trace_counts(spans: Seq<Option<u64>>, i: int)
    requires
        0 <= i < spans.len(),
        forall|k: int| 0 <= k < i ==> (#[trigger] spans[k]) is None,
    ensures
        spans[i] is Some ==> innermost(spans, 0) == spans[i],
        i + 1 == spans.len() ==> innermost(spans, 0) == spans[i],
{
    lemma_innermost(spans, 0, i);
}

proof fn lemma_innermost(spans: Seq<Option<u64>>, from: int, i: int)
    requires
        0 <= from <= i < spans.len(),
        forall|k: int| from <= k < i ==> (#[trigger] spans[k]) is None,
    ensures
        spans[i] is Some ==> innermost(spans, from) == spans[i],
        i + 1 == spans.len() ==> innermost(spans, from) == spans[i],
    decreases i - from,
{
    if from < i {
        assert(spans[from] is None);
        lemma_innermost(spans, from + 1, i);
    } else {
        reveal_with_fuel(innermost, 2);
    }
}

/// A span's trace is the last number under its name that it can be: nothing else that the span says
/// counts, nor a number below zero.
pub proof fn law_trace_of_a_span(fields: Seq<SpanField>, i: int, n: int, id: u64)
    requires
        0 <= i < n <= fields.len(),
        fields[i].name@ == "trace_id"@,
        fields[i].value == SpanValue::Unsigned(id) || (id <= i64::MAX && fields[i].value
            == SpanValue::Signed(id as i64)),
        forall|k: int| i < k < n ==> (#[trigger] fields[k]).name@ != "trace_id"@,
    ensures
        span_trace(fields, n) == Some(id),
    decreases n,
{
    if n > i + 1 {
        assert(fields[n - 1].name@ != "trace_id"@);
        law_trace_of_a_span(fields, i, n - 1, id);
    }
}

/// Each field of an event but the message is written as its name and its value, and the message as it
/// is; they are told in their order, one blank between them and none around them.
pub proof fn law_fields_are_written(name: Seq<char>, value: Seq<char>, debug: bool)
    ensures
        name != "message"@ ==> field_text(name, value, debug) == Some(name + seq!['='] + value),
        name == "message"@ && debug ==> field_text(name, value, debug) == Some(value),
{
    reveal_strlit("=");
    assert("="@ =~= seq!['=']);
}

/// The parts of a message are joined by single blanks.
pub proof fn law_parts_are_spaced(parts: Seq<Seq<char>>, n: int)
    requires
        0 < n <= parts.len(),
    ensures
        n == 1 ==> spaced(parts, n) == parts[0],
        n > 1 ==> spaced(parts, n).len() == spaced(parts, n - 1).len() + 1 + parts[n - 1].len(),
        n > 1 ==> spaced(parts, n)[spaced(parts, n - 1).len() as int] == ' ',
        n > 1 ==> text::has_suffix(spaced(parts, n), parts[n - 1]),
        n > 1 ==> text::has_prefix(spaced(parts, n), spaced(parts, n - 1)),
{
    reveal_strlit(" ");
    if n > 1 {
        let before = spaced(parts, n - 1);
        let all = spaced(parts, n);
        assert(all.take(before.len() as int) =~= before);
        assert(all.skip(all.len() - parts[n - 1].len()) =~= parts[n - 1]);
    }
}

} // verus!
