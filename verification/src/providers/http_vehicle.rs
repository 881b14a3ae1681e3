//! What is asked of a server, and what is done with its answer.
use vstd::prelude::*;

use crate::text;
use crate::uri;
use crate::uri::{join_url, parse_uri};

verus! {

/// How often a server may send elsewhere.
pub const MAX_REDIRECTS: u32 = 10;

/// A header's name as it is sent, as the `http` crate reads it.
pub uninterp spec fn header_name_of(s: Seq<char>) -> Option<Seq<char>>;

/// `http::header::HeaderName::from_bytes`, and `as_str` on its result. What it gives is a function
/// of the text alone and is called `header_name_of`; it is `None` where the text is no header name.
#[verifier::external_body]
fn parse_header_name(s: &str) -> (res: Option<String>)
    ensures
        text::opt_view(res) == header_name_of(s@),
{
    let name = http::header::HeaderName::from_bytes(s.as_bytes()).ok()?;
    Some(name.as_str().to_string())
}

/// The character can stand in a header's value: no control character but a tab.
pub open spec fn header_char(c: char) -> bool {
    (c as u32 >= 32 && c as u32 != 127) || c == '\t'
}

/// The text can be a header's value.
pub open spec fn is_header_value(s: Seq<char>) -> bool {
    forall|i: int| 0 <= i < s.len() ==> header_char(#[trigger] s[i])
}

fn check_header_char(c: char) -> (res: bool)
    ensures
        res == header_char(c),
{
    (c as u32 >= 32 && c as u32 != 127) || c == '\t'
}

/// Whether a text can be a header's value.
fn check_header_value(s: &str) -> (res: bool)
    ensures
        res == is_header_value(s@),
{
    let chars: Vec<char> = text::chars(s);
    let mut i: usize = 0;
    while i < chars.len()
        invariant
            i <= chars@.len(),
            chars@ == s@,
            forall|j: int| 0 <= j < i ==> header_char(#[trigger] chars@[j]),
        decreases chars@.len() - i,
    {
        if !check_header_char(chars[i]) {
            assert(!header_char(s@[i as int]));
            return false;
        }
        i = i + 1;
    }
    true
}

/// A header of a configuration.
#[derive(Debug)]
pub struct HeaderDef {
    pub name: String,
    pub values: Vec<String>,
}

/// A header as it is sent.
#[derive(Debug)]
pub struct Header {
    pub name: String,
    pub value: String,
}

/// Headers as they are sent.
pub open spec fn header_views(list: Seq<Header>) -> Seq<(Seq<char>, Seq<char>)> {
    list.map_values(|h: Header| (h.name@, h.value@))
}

/// Headers of a configuration.
pub open spec fn def_views(list: Seq<HeaderDef>) -> Seq<(Seq<char>, Seq<Seq<char>>)> {
    list.map_values(|h: HeaderDef| (h.name@, text::string_views(h.values@)))
}

/// A header with the first `n` of its values; those that cannot be sent are left out.
pub open spec fn valued(name: Seq<char>, values: Seq<Seq<char>>, n: int) -> Seq<(Seq<char>, Seq<char>)>
    decreases n,
{
    if n <= 0 {
        Seq::empty()
    } else if is_header_value(values[n - 1]) {
        valued(name, values, n - 1).push((name, values[n - 1]))
    } else {
        valued(name, values, n - 1)
    }
}

/// The first `n` headers as they are sent; those whose name cannot be sent are left out.
pub open spec fn given(defs: Seq<(Seq<char>, Seq<Seq<char>>)>, n: int) -> Seq<(Seq<char>, Seq<char>)>
    decreases n,
{
    if n <= 0 {
        Seq::empty()
    } else {
        match header_name_of(defs[n - 1].0) {
            Some(name) => given(defs, n - 1) + valued(
                name,
                defs[n - 1].1,
                defs[n - 1].1.len() as int,
            ),
            None => given(defs, n - 1),
        }
    }
}

/// One of the first `n` headers says what the client is.
pub open spec fn names_agent(defs: Seq<(Seq<char>, Seq<Seq<char>>)>, n: int) -> bool {
    exists|i: int| 0 <= i < n && header_name_of((#[trigger] defs[i]).0) == Some("user-agent"@)
}

/// The headers of a request: those of the configuration, and one that says what the client is
/// where none of them does.
pub open spec fn request_headers(
    defs: Seq<(Seq<char>, Seq<Seq<char>>)>,
    agent: Seq<char>,
) -> Seq<(Seq<char>, Seq<char>)> {
    let n = defs.len() as int;
    if names_agent(defs, n) {
        given(defs, n)
    } else {
        given(defs, n).push(("user-agent"@, agent))
    }
}

fn add_values(out: &mut Vec<Header>, name: &str, values: &Vec<String>)
    ensures
        header_views(final(out)@) == header_views(old(out)@) + valued(
            name@,
            text::string_views(values@),
            values@.len() as int,
        ),
{
    let ghost all = text::string_views(values@);
    let ghost start = header_views(out@);
    let mut i: usize = 0;
    assert(start + valued(name@, all, 0) =~= start);
    while i < values.len()
        invariant
            i <= values@.len(),
            all == text::string_views(values@),
            header_views(out@) == start + valued(name@, all, i as int),
        decreases values@.len() - i,
    {
        assert(all[i as int] == values@[i as int]@);
        if check_header_value(values[i].as_str()) {
            let ghost before = header_views(out@);
            out.push(Header { name: name.to_owned(), value: values[i].clone() });
            assert(header_views(out@) =~= before.push((name@, all[i as int])));
            assert(header_views(out@) =~= start + valued(name@, all, i + 1));
        }
        i = i + 1;
    }
}

/// What a redirecting answer says of where to go.
#[derive(Debug)]
pub enum Location {
    Missing,
    Unreadable,
    Text(String),
}

/// Why content could not be had.
#[derive(Clone, Copy, Debug, PartialEq, Eq, Structural)]
pub enum FetchError {
    TooManyRedirects,
    NoLocation,
    BadLocation,
    /// The server's answer has this status.
    Status(u16),
}

/// What is to be done with a server's answer.
#[derive(Debug)]
pub enum ResponseStep {
    /// Its body is the content.
    Done,
    /// Ask there.
    Redirect(String),
    Failed(FetchError),
}

/// What is to be done with a server's answer.
pub enum StepView {
    Done,
    Redirect(Seq<char>),
    Failed(FetchError),
}

impl View for ResponseStep {
    type V = StepView;

    open spec fn view(&self) -> StepView {
        match self {
            ResponseStep::Done => StepView::Done,
            ResponseStep::Redirect(to) => StepView::Redirect(to@),
            ResponseStep::Failed(e) => StepView::Failed(*e),
        }
    }
}

/// Where a redirecting answer sends.
pub open spec fn target(current: Seq<char>, location: Location) -> Result<Seq<char>, FetchError> {
    match location {
        Location::Missing => Err(FetchError::NoLocation),
        Location::Unreadable => Err(FetchError::BadLocation),
        Location::Text(reference) => match uri::url_at(current, reference@) {
            Some(url) => match uri::uri_text(url) {
                Some(to) => Ok(to),
                None => Err(FetchError::BadLocation),
            },
            None => Err(FetchError::BadLocation),
        },
    }
}

/// What is to be done with an answer that has a status, when the server may send elsewhere this
/// often yet.
pub open spec fn answered(
    current: Seq<char>,
    status: u16,
    location: Location,
    redirects_left: u32,
) -> StepView {
    if 300 <= status < 400 {
        if redirects_left == 0 {
            StepView::Failed(FetchError::TooManyRedirects)
        } else {
            match target(current, location) {
                Ok(to) => StepView::Redirect(to),
                Err(e) => StepView::Failed(e),
            }
        }
    } else if 200 <= status < 300 {
        StepView::Done
    } else {
        StepView::Failed(FetchError::Status(status))
    }
}

/// How many redirections are left once an answer has come.
pub open spec fn left_after(status: u16, redirects_left: u32) -> u32 {
    if 300 <= status < 400 && redirects_left > 0 {
        (redirects_left - 1) as u32
    } else {
        redirects_left
    }
}

/// Content on a server.
#[derive(Debug)]
pub struct Vehicle {
    pub url: String,
    /// The file that the content is kept in.
    pub path: String,
    pub outbound: Option<String>,
    pub headers: Vec<HeaderDef>,
}

/// The file that content is kept in: the one that is given, else one that is called by the digest
/// of the URL.
pub open spec fn kept_in(path: Seq<char>, digest: Seq<char>) -> Seq<char> {
    if path.len() == 0 {
        "cache/"@ + digest
    } else {
        path
    }
}

/// The text of the URI that a configured URL writes: content is asked for there, and the digest of
/// this text calls its file. `None` where the URL cannot be read.
pub fn read_url(url: &str) -> (res: Option<String>)
    ensures
        text::opt_view(res) == uri::uri_text(url@),
{
    parse_uri(url)
}

impl Vehicle {
    /// Content on a server. `url` is the text of a URI, and `digest` is its digest.
    pub fn new(
        url: String,
        path: &str,
        digest: &str,
        outbound: Option<String>,
        headers: Vec<HeaderDef>,
    ) -> (res: Vehicle)
        ensures
            res.url == url,
            res.path@ == kept_in(path@, digest@),
            res.outbound == outbound,
            res.headers == headers,
    {
        let written: Vec<char> = text::chars(path);
        let path: String = if written.len() == 0 {
            text::concat("cache/", digest)
        } else {
            path.to_owned()
        };
        Vehicle { url, path, outbound, headers }
    }

    /// The headers of a request. `agent` says what the client is.
    pub fn request_headers(&self, agent: &str) -> (res: Vec<Header>)
        ensures
            header_views(res@) == request_headers(def_views(self.headers@), agent@),
    {
        let ghost all = def_views(self.headers@);
        let mut out: Vec<Header> = Vec::new();
        assert(header_views(out@) =~= Seq::empty());
        let mut has_agent: bool = false;
        let mut i: usize = 0;
        while i < self.headers.len()
            invariant
                i <= self.headers@.len(),
                all == def_views(self.headers@),
                header_views(out@) == given(all, i as int),
                has_agent == names_agent(all, i as int),
            decreases self.headers@.len() - i,
        {
            let h = &self.headers[i];
            assert(all[i as int] == (h.name@, text::string_views(h.values@)));
            assert(text::string_views(h.values@).len() == h.values@.len());
            match parse_header_name(h.name.as_str()) {
                Some(name) => {
                    if text::same(name.as_str(), "user-agent") {
                        has_agent = true;
                        assert(header_name_of(all[i as int].0) == Some("user-agent"@));
                    }
                    add_values(&mut out, name.as_str(), &h.values);
                },
                None => {},
            }
            i = i + 1;
        }
        if !has_agent {
            let ghost before = out@;
            out.push(Header { name: "user-agent".to_owned(), value: agent.to_owned() });
            assert(header_views(out@) =~= header_views(before).push(("user-agent"@, agent@)));
        }
        out
    }

    /// What is to be done with a server's answer. `current` is what was asked for.
    pub fn on_response(
        current: &str,
        status: u16,
        location: &Location,
        redirects_left: &mut u32,
    ) -> (res: ResponseStep)
        ensures
            res@ == answered(current@, status, *location, *old(redirects_left)),
            *final(redirects_left) == left_after(status, *old(redirects_left)),
    {
        if status >= 300 && status < 400 {
            if *redirects_left == 0 {
                return ResponseStep::Failed(FetchError::TooManyRedirects);
            }
            *redirects_left = *redirects_left - 1;
            let reference: &String = match location {
                Location::Missing => return ResponseStep::Failed(FetchError::NoLocation),
                Location::Unreadable => return ResponseStep::Failed(FetchError::BadLocation),
                Location::Text(reference) => reference,
            };
            return match join_url(current, reference.as_str()) {
                Some(url) => match parse_uri(url.as_str()) {
                    Some(to) => ResponseStep::Redirect(to),
                    None => ResponseStep::Failed(FetchError::BadLocation),
                },
                None => ResponseStep::Failed(FetchError::BadLocation),
            };
        }
        if status >= 200 && status < 300 {
            return ResponseStep::Done;
        }
        ResponseStep::Failed(FetchError::Status(status))
    }
}

/// An answer is the content where its status tells of success and at no other time. A redirection is
/// followed, never an answer that is none; each one followed leaves one less to follow, so that the
/// following ends.
pub proof fn law_redirections_end(
    current: Seq<char>,
    status: u16,
    location: Location,
    redirects_left: u32,
)
    ensures
        answered(current, status, location, redirects_left) is Done <==> status / 100 == 2,
        answered(current, status, location, redirects_left) is Redirect ==> status / 100 == 3
            && left_after(status, redirects_left) + 1 == redirects_left,
        status / 100 == 3 && redirects_left == 0 ==> answered(
            current,
            status,
            location,
            redirects_left,
        ) == StepView::Failed(FetchError::TooManyRedirects),
        status / 100 != 3 ==> left_after(status, redirects_left) == redirects_left,
        status / 100 != 2 && status / 100 != 3 ==> answered(
            current,
            status,
            location,
            redirects_left,
        ) == StepView::Failed(FetchError::Status(status)),
{
}

/// A redirection leads to where its location points, seen from what was asked for. Without a
/// location, or with one that cannot be read, it leads nowhere.
pub proof fn law_redirection_leads_to_location(
    current: Seq<char>,
    status: u16,
    location: Location,
    redirects_left: u32,
)
    requires
        300 <= status < 400,
        redirects_left > 0,
    ensures
        location is Missing ==> answered(current, status, location, redirects_left)
            == StepView::Failed(FetchError::NoLocation),
        location is Unreadable ==> answered(current, status, location, redirects_left)
            == StepView::Failed(FetchError::BadLocation),
        location matches Location::Text(reference) ==> match answered(
            current,
            status,
            location,
            redirects_left,
        ) {
            StepView::Redirect(to) => uri::url_at(current, reference@) is Some && uri::uri_text(
                uri::url_at(current, reference@).unwrap(),
            ) == Some(to),
            StepView::Failed(e) => e == FetchError::BadLocation && (uri::url_at(
                current,
                reference@,
            ) is None || uri::uri_text(uri::url_at(current, reference@).unwrap()) is None),
            StepView::Done => false,
        },
{
}

/// A request names who asks: as configured where that is configured, else by the name of the
/// program, and the configured headers stay as they are.
pub proof fn law_agent_is_named(defs: Seq<(Seq<char>, Seq<Seq<char>>)>, agent: Seq<char>, i: int)
    requires
        0 <= i < defs.len(),
    ensures
        header_name_of(defs[i].0) == Some("user-agent"@) ==> request_headers(defs, agent) == given(
            defs,
            defs.len() as int,
        ),
        (forall|k: int|
            0 <= k < defs.len() ==> header_name_of((#[trigger] defs[k]).0) != Some("user-agent"@))
            ==> request_headers(defs, agent) == given(defs, defs.len() as int).push(
            ("user-agent"@, agent),
        ),
{
    if header_name_of(defs[i].0) == Some("user-agent"@) {
        assert(names_agent(defs, defs.len() as int));
    }
}

/// Every value that a header can have is sent under each name that a header can have, and no other.
pub proof fn law_given_headers_are_sent(
    defs: Seq<(Seq<char>, Seq<Seq<char>>)>,
    n: int,
    name: Seq<char>,
    value: Seq<char>,
)
    requires
        0 <= n <= defs.len(),
    ensures
        given(defs, n).contains((name, value)) <==> is_header_value(value) && exists|i: int|
            0 <= i < n && header_name_of((#[trigger] defs[i]).0) == Some(name)
                && defs[i].1.contains(value),
    decreases n,
{
    if n > 0 {
        law_given_headers_are_sent(defs, n - 1, name, value);
        let before = given(defs, n - 1);
        let after = given(defs, n);
        let def = defs[n - 1];
        match header_name_of(def.0) {
            Some(own) => {
                let more = valued(own, def.1, def.1.len() as int);
                lemma_valued(own, def.1, def.1.len() as int, name, value);
                if before.contains((name, value)) {
                    let k = choose|k: int| 0 <= k < before.len() && before[k] == (name, value);
                    assert(after[k] == (name, value));
                }
                if more.contains((name, value)) {
                    let k = choose|k: int| 0 <= k < more.len() && more[k] == (name, value);
                    assert(after[before.len() + k] == (name, value));
                }
                if after.contains((name, value)) {
                    let k = choose|k: int| 0 <= k < after.len() && after[k] == (name, value);
                    if k < before.len() {
                        assert(before[k] == (name, value));
                    } else {
                        assert(more[k - before.len()] == (name, value));
                    }
                }
            },
            None => {},
        }
        if exists|i: int|
            0 <= i < n - 1 && header_name_of((#[trigger] defs[i]).0) == Some(name)
                && defs[i].1.contains(value) {
            let i = choose|i: int|
                0 <= i < n - 1 && header_name_of((#[trigger] defs[i]).0) == Some(name)
                    && defs[i].1.contains(value);
            assert(0 <= i < n && header_name_of(defs[i].0) == Some(name));
        }
    }
}

proof fn lemma_valued(
    own: Seq<char>,
    values: Seq<Seq<char>>,
    n: int,
    name: Seq<char>,
    value: Seq<char>,
)
    requires
        0 <= n <= values.len(),
    ensures
        valued(own, values, n).contains((name, value)) <==> name == own && is_header_value(value)
            && values.take(n).contains(value),
        values.take(values.len() as int) == values,
    decreases n,
{
    assert(values.take(values.len() as int) =~= values);
    if n > 0 {
        lemma_valued(own, values, n - 1, name, value);
        let before = valued(own, values, n - 1);
        let after = valued(own, values, n);
        let short = values.take(n - 1);
        assert(values.take(n) =~= short.push(values[n - 1]));
        if short.contains(value) {
            let k = choose|k: int| 0 <= k < short.len() && short[k] == value;
            assert(values.take(n)[k] == value);
        }
        if values[n - 1] == value {
            assert(values.take(n)[n - 1] == value);
        }
        if values.take(n).contains(value) {
            let k = choose|k: int| 0 <= k < n && values.take(n)[k] == value;
            if k < n - 1 {
                assert(short[k] == value);
            }
        }
        if is_header_value(values[n - 1]) {
            assert(after[before.len() as int] == (own, values[n - 1]));
            if before.contains((name, value)) {
                let k = choose|k: int| 0 <= k < before.len() && before[k] == (name, value);
                assert(after[k] == (name, value));
            }
            if after.contains((name, value)) {
                let k = choose|k: int| 0 <= k < after.len() && after[k] == (name, value);
                if k < before.len() {
                    assert(before[k] == (name, value));
                }
            }
        }
    }
}

/// A header's value holds no control character but the tab, so that no line can be broken in it.
pub proof fn law_header_value_is_one_line(value: Seq<char>, i: int)
    requires
        is_header_value(value),
        0 <= i < value.len(),
    ensures
        value[i] == '\t' || 32 <= value[i] as u32 <= 126 || value[i] as u32 >= 128,
{
    assert(header_char(value[i]));
}

} // verus!
