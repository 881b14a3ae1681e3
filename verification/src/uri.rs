//! Parts of URLs.
use vstd::prelude::*;

use crate::ip;
use crate::ip::{write_ip, IpAddr};
use crate::text;

verus! {

/// The host of a URL.
#[derive(Debug)]
pub enum Host {
    Domain(String),
    Ipv4(u32),
    Ipv6(u128),
}

/// The host of a URL.
pub enum HostView {
    Domain(Seq<char>),
    Ipv4(u32),
    Ipv6(u128),
}

impl View for Host {
    type V = HostView;

    open spec fn view(&self) -> HostView {
        match self {
            Host::Domain(name) => HostView::Domain(name@),
            Host::Ipv4(addr) => HostView::Ipv4(*addr),
            Host::Ipv6(addr) => HostView::Ipv6(*addr),
        }
    }
}

impl HostView {
    /// How the host is written: an IPv6 address stands in brackets.
    pub open spec fn text(&self) -> Seq<char> {
        match self {
            HostView::Domain(name) => *name,
            HostView::Ipv4(addr) => ip::ip_text(IpAddr::V4(*addr)),
            HostView::Ipv6(addr) => "["@ + ip::ip_text(IpAddr::V6(*addr)) + "]"@,
        }
    }
}

impl Host {
    /// How the host is written.
    pub fn as_chars(&self) -> (res: Vec<char>)
        ensures
            res@ == self@.text(),
    {
        match self {
            Host::Domain(name) => text::chars(name.as_str()),
            Host::Ipv4(addr) => text::chars(write_ip(IpAddr::V4(*addr)).as_str()),
            Host::Ipv6(addr) => {
                let mut out: Vec<char> = text::chars("[");
                text::append(&mut out, &text::chars(write_ip(IpAddr::V6(*addr)).as_str()));
                text::append(&mut out, &text::chars("]"));
                out
            },
        }
    }

    /// How the host is written.
    pub fn as_text(&self) -> (res: String)
        ensures
            res@ == self@.text(),
    {
        text::text(&self.as_chars())
    }

    /// The same host once more.
    pub fn copy(&self) -> (res: Host)
        ensures
            res@ == self@,
    {
        match self {
            Host::Domain(name) => Host::Domain(name.clone()),
            Host::Ipv4(addr) => Host::Ipv4(*addr),
            Host::Ipv6(addr) => Host::Ipv6(*addr),
        }
    }
}

/// The parts of a URL.
#[derive(Debug)]
pub struct UrlParts {
    pub scheme: String,
    pub host: Option<Host>,
    /// The port, where it is given and not the scheme's own.
    pub port: Option<u16>,
    pub path: String,
    pub fragment: Option<String>,
}

/// The parts of a URL.
pub struct UrlView {
    pub scheme: Seq<char>,
    pub host: Option<HostView>,
    pub port: Option<u16>,
    pub path: Seq<char>,
    pub fragment: Option<Seq<char>>,
}

impl View for UrlParts {
    type V = UrlView;

    open spec fn view(&self) -> UrlView {
        UrlView {
            scheme: self.scheme@,
            host: match self.host {
                Some(host) => Some(host@),
                None => None,
            },
            port: self.port,
            path: self.path@,
            fragment: text::opt_view(self.fragment),
        }
    }
}

/// The parts of the URL that a text writes, as the `url` crate reads it.
pub uninterp spec fn url_parts(s: Seq<char>) -> Option<UrlView>;

/// An optional URL as it is known.
pub open spec fn opt_url(url: Option<UrlParts>) -> Option<UrlView> {
    match url {
        Some(u) => Some(u@),
        None => None,
    }
}

/// `url::Url::parse`, with the parts that `scheme`, `host`, `port`, `path` and `fragment` give of
/// its result. What they are is a function of the text alone and is called `url_parts`.
#[verifier::external_body]
pub(crate) fn parse_url(s: &str) -> (res: Option<UrlParts>)
    ensures
        opt_url(res) == url_parts(s@),
{
    let url = url::Url::parse(s).ok()?;
    let host = match url.host() {
        Some(url::Host::Domain(name)) => Some(Host::Domain(name.to_string())),
        Some(url::Host::Ipv4(addr)) => Some(Host::Ipv4(addr.into())),
        Some(url::Host::Ipv6(addr)) => Some(Host::Ipv6(addr.into())),
        None => None,
    };
    let scheme = url.scheme().to_string();
    let path = url.path().to_string();
    let fragment = url.fragment().map(str::to_string);
    Some(UrlParts { scheme, host, port: url.port(), path, fragment })
}

/// A text with its percent escapes decoded.
pub uninterp spec fn decoded(s: Seq<char>) -> Seq<char>;

/// `percent_encoding::percent_decode_str` and `decode_utf8_lossy` on its result: the text with its
/// percent escapes decoded, where bytes that are no UTF-8 are replaced. What it is is a function of
/// the text alone and is called `decoded`.
#[verifier::external_body]
pub(crate) fn percent_decode(s: &str) -> (res: String)
    ensures
        res@ == decoded(s@),
{
    percent_encoding::percent_decode_str(s).decode_utf8_lossy().into_owned()
}

/// How the URI that a text writes is written again, as the `http` crate reads it.
pub uninterp spec fn uri_text(s: Seq<char>) -> Option<Seq<char>>;

/// `http::Uri`'s `FromStr`, and how `Display` writes its result. What it is is a function of the
/// text alone and is called `uri_text`; it is `None` where the text is no URI.
#[verifier::external_body]
pub(crate) fn parse_uri(s: &str) -> (res: Option<String>)
    ensures
        text::opt_view(res) == uri_text(s@),
{
    s.parse::<http::Uri>().ok().map(|uri| uri.to_string())
}

/// The URL that a reference stands for at another URL, as the `url` crate reads both.
pub uninterp spec fn url_at(base: Seq<char>, reference: Seq<char>) -> Option<Seq<char>>;

/// `url::Url::join`, on the URL that `url::Url::parse` makes of a text. What it gives is a function
/// of the two texts alone and is called `url_at`; it is `None` where one of them cannot be read.
#[verifier::external_body]
pub(crate) fn join_url(base: &str, reference: &str) -> (res: Option<String>)
    ensures
        text::opt_view(res) == url_at(base@, reference@),
{
    let url = url::Url::parse(base).ok()?.join(reference).ok()?;
    Some(url.as_str().to_string())
}

} // verus!
