//! Queries over HTTP: where they go, and which answers are taken.
use vstd::prelude::*;

use crate::dns::endpoint::DnsEndpoint;
use crate::dns::transport::message;
use crate::dns::transport::message::restore_id;
use crate::dns::wire::push_all;
use crate::text;

verus! {

/// How long a message is at most.
pub const MAX_MESSAGE: usize = 65535;

/// Why an answer is not taken.
#[derive(Clone, Copy, Debug, PartialEq, Eq, Structural)]
pub enum DohError {
    /// What is said of its length is no number.
    BadLength,
    /// It is longer than a message can be.
    TooLarge,
    /// It has this status.
    Status(u16),
    /// It has no body.
    Empty,
}

/// A host as a URI writes it: an IPv6 address in brackets.
pub open spec fn uri_host(host: Seq<char>) -> Seq<char> {
    if host.contains(':') {
        "["@ + host + "]"@
    } else {
        host
    }
}

/// Where queries to a server go.
pub open spec fn uri_of(host: Seq<char>, port: u16, path: Seq<char>) -> Seq<char> {
    "https://"@ + uri_host(host) + ":"@ + text::number_text(port as nat) + path
}

/// Where queries to a server go.
pub fn build_doh_request(endpoint: &DnsEndpoint) -> (res: String)
    ensures
        res@ == uri_of(endpoint.host@, endpoint.port, endpoint.path@),
{
    let host: Vec<char> = text::chars(endpoint.host.as_str());
    let mut out: Vec<char> = text::chars("https://");
    if text::find(&host, ':').is_some() {
        text::append(&mut out, &text::chars("["));
        text::append(&mut out, &host);
        text::append(&mut out, &text::chars("]"));
        assert(out@ =~= "https://"@ + uri_host(endpoint.host@));
    } else {
        text::append(&mut out, &host);
    }
    text::append(&mut out, &text::chars(":"));
    text::append(&mut out, &text::write_number(endpoint.port as u64));
    text::append(&mut out, &text::chars(endpoint.path.as_str()));
    text::text(&out)
}

/// What is taken of what an answer says of its length: nothing, where it says nothing.
pub open spec fn length_of(said: Option<Seq<char>>) -> Result<Option<int>, DohError> {
    match said {
        None => Ok(None),
        Some(s) => match text::number(s, u64::MAX as int) {
            None => Err(DohError::BadLength),
            Some(n) => if n > MAX_MESSAGE {
                Err(DohError::TooLarge)
            } else {
                Ok(Some(n))
            },
        },
    }
}

/// The length that an answer says it has, which has to be one that a message can have.
pub fn doh_content_length(said: &Option<String>) -> (res: Result<Option<usize>, DohError>)
    ensures
        match (res, length_of(text::opt_view(*said))) {
            (Ok(Some(n)), Ok(Some(m))) => n == m,
            (Ok(None), Ok(None)) => true,
            (Err(e), Err(f)) => e == f,
            _ => false,
        },
{
    match said {
        None => Ok(None),
        Some(s) => match text::parse_number(&text::chars(s.as_str()), 0xffff_ffff_ffff_ffff) {
            None => Err(DohError::BadLength),
            Some(n) => if n > 65535 {
                Err(DohError::TooLarge)
            } else {
                Ok(Some(n as usize))
            },
        },
    }
}

/// The body of an answer, as far as it is there. It is never longer than a message can be.
pub struct DnsMessageBody {
    bytes: Vec<u8>,
}

impl View for DnsMessageBody {
    type V = Seq<u8>;

    closed spec fn view(&self) -> Seq<u8> {
        self.bytes@
    }
}

impl DnsMessageBody {
    #[verifier::type_invariant]
    spec fn fits(self) -> bool {
        self.bytes@.len() <= MAX_MESSAGE
    }

    /// Nothing is there yet.
    pub fn new() -> (res: DnsMessageBody)
        ensures
            res@.len() == 0,
    {
        DnsMessageBody { bytes: Vec::new() }
    }

    /// Takes in the next part, where the body does not become too long by it.
    pub fn push(&mut self, part: &[u8]) -> (res: Result<(), DohError>)
        ensures
            match res {
                Ok(()) => {
                    &&& old(self)@.len() + part@.len() <= MAX_MESSAGE
                    &&& final(self)@ == old(self)@ + part@
                },
                Err(e) => {
                    &&& old(self)@.len() + part@.len() > MAX_MESSAGE
                    &&& e == DohError::TooLarge
                    &&& final(self)@ == old(self)@
                },
            },
    {
        proof {
            use_type_invariant(&*self);
        }
        if part.len() > MAX_MESSAGE - self.bytes.len() {
            return Err(DohError::TooLarge);
        }
        let mut bytes: Vec<u8> = Vec::new();
        std::mem::swap(&mut bytes, &mut self.bytes);
        push_all(&mut bytes, part);
        self.bytes = bytes;
        Ok(())
    }

    /// The body.
    pub fn into_bytes(self) -> (res: Vec<u8>)
        ensures
            res@ == self@,
            res@.len() <= MAX_MESSAGE,
    {
        proof {
            use_type_invariant(&self);
        }
        self.bytes
    }
}

/// What is taken of an answer with a status and a body.
pub open spec fn finished(status: u16, body: Seq<u8>, id: (u8, u8)) -> Result<Seq<u8>, DohError> {
    if !(200 <= status < 300) {
        Err(DohError::Status(status))
    } else if body.len() == 0 {
        Err(DohError::Empty)
    } else {
        Ok(message::identified(body, id))
    }
}

/// The answer under the client's identifier. It has to have a status that tells of success, and a
/// body.
pub fn finish_doh_response(status: u16, body: Vec<u8>, id: (u8, u8)) -> (res: Result<
    Vec<u8>,
    DohError,
>)
    ensures
        match res {
            Ok(bytes) => finished(status, body@, id) == Ok::<Seq<u8>, DohError>(bytes@),
            Err(e) => finished(status, body@, id) == Err::<Seq<u8>, DohError>(e),
        },
{
    if status < 200 || status >= 300 {
        return Err(DohError::Status(status));
    }
    if body.len() == 0 {
        return Err(DohError::Empty);
    }
    Ok(restore_id(body, id))
}

/// An answer is taken where its status tells of success and it has a body, and in no other case. It
/// is as long as its body, starts with the client's identifier, and is the body from the third byte
/// on. Of what is turned down the status is told first.
pub proof fn law_what_is_taken(status: u16, body: Seq<u8>, id: (u8, u8))
    ensures
        finished(status, body, id) is Ok <==> status / 100 == 2 && body.len() > 0,
        finished(status, body, id) matches Ok(bytes) ==> {
            &&& bytes.len() == body.len()
            &&& bytes.skip(2) == body.skip(2)
            &&& body.len() >= 2 ==> message::identifier(bytes) == id
            &&& body.len() < 2 ==> bytes == body
        },
        status / 100 != 2 ==> finished(status, body, id) == Err::<Seq<u8>, DohError>(
            DohError::Status(status),
        ),
        status / 100 == 2 && body.len() == 0 ==> finished(status, body, id) == Err::<
            Seq<u8>,
            DohError,
        >(DohError::Empty),
{
    if body.len() >= 2 {
        assert(message::identified(body, id).skip(2) =~= body.skip(2));
    }
}

/// What an answer says of its length is taken where it is a number that a message's length can be,
/// the greatest one among them; a greater number is too large, and what is no number is bad.
pub proof fn law_said_length(said: Seq<char>)
    ensures
        length_of(None) == Ok::<Option<int>, DohError>(None),
        match text::number(said, u64::MAX as int) {
            Some(n) => if n <= u16::MAX {
                length_of(Some(said)) == Ok::<Option<int>, DohError>(Some(n))
            } else {
                length_of(Some(said)) == Err::<Option<int>, DohError>(DohError::TooLarge)
            },
            None => length_of(Some(said)) == Err::<Option<int>, DohError>(DohError::BadLength),
        },
{
}

/// Queries go to the server's host and port, and to its path there. A host with a colon in it, an
/// IPv6 address, stands in brackets.
pub proof fn law_queries_go_to_the_server(host: Seq<char>, port: u16, path: Seq<char>)
    ensures
        ({
            let uri = uri_of(host, port, path);
            let number = text::number_text(port as nat);
            let bracket: nat = if host.contains(':') {
                1
            } else {
                0
            };
            let from = 8 + bracket;
            let at = from + host.len() + bracket;
            &&& uri.len() == at + 1 + number.len() + path.len()
            &&& uri.take(8) == seq!['h', 't', 't', 'p', 's', ':', '/', '/']
            &&& uri.subrange(from as int, (from + host.len()) as int) == host
            &&& host.contains(':') ==> uri[8] == '[' && uri[at - 1] == ']'
            &&& uri[at as int] == ':'
            &&& uri.subrange(at as int + 1, (at + 1 + number.len()) as int) == number
            &&& uri.skip((at + 1 + number.len()) as int) == path
        }),
{
    reveal_strlit("https://");
    reveal_strlit("[");
    reveal_strlit("]");
    reveal_strlit(":");
    let uri = uri_of(host, port, path);
    let number = text::number_text(port as nat);
    let bracket: nat = if host.contains(':') {
        1
    } else {
        0
    };
    let from = 8 + bracket;
    let at = from + host.len() + bracket;
    assert(uri_host(host).len() == host.len() + 2 * bracket);
    assert(uri.take(8) =~= seq!['h', 't', 't', 'p', 's', ':', '/', '/']);
    assert(uri.subrange(from as int, (from + host.len()) as int) =~= host);
    assert(uri.subrange(at as int + 1, (at + 1 + number.len()) as int) =~= number);
    assert(uri.skip((at + 1 + number.len()) as int) =~= path);
}

} // verus!
