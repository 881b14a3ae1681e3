//! What a listener is.
use vstd::prelude::*;

use crate::ip::IpAddr;
use crate::text;

verus! {

/// A user of a listener.
#[derive(Debug)]
pub struct InboundUser {
    pub name: String,
    pub password: String,
}

/// What every listener has.
#[derive(Debug)]
pub struct CommonInboundOpts {
    pub name: String,
    pub listen: IpAddr,
    pub allow_lan: bool,
    pub port: u16,
    pub fw_mark: Option<u32>,
}

/// What only some listeners have.
#[derive(Debug)]
pub enum InboundDetail {
    Http,
    Socks { udp: bool },
    Mixed { udp: bool },
    TProxy { udp: bool },
    Redir,
    Tunnel { network: Vec<String>, target: String },
    Shadowsocks { udp: bool, cipher: String, password: String },
    Anytls {
        password: String,
        certificate: Option<String>,
        private_key: Option<String>,
        fallback: Option<String>,
    },
}

/// What a listener is.
#[derive(Debug)]
pub struct InboundOpts {
    pub common_opts: CommonInboundOpts,
    pub detail: InboundDetail,
    /// The users of listeners that have them. They can change while the listener runs.
    pub users: Vec<InboundUser>,
}

/// What every listener has.
pub struct CommonView {
    pub name: Seq<char>,
    pub listen: IpAddr,
    pub allow_lan: bool,
    pub port: u16,
    pub fw_mark: Option<u32>,
}

/// What only some listeners have.
pub enum DetailView {
    Http,
    Socks { udp: bool },
    Mixed { udp: bool },
    TProxy { udp: bool },
    Redir,
    Tunnel { network: Seq<Seq<char>>, target: Seq<char> },
    Shadowsocks { udp: bool, cipher: Seq<char>, password: Seq<char> },
    Anytls {
        password: Seq<char>,
        certificate: Option<Seq<char>>,
        private_key: Option<Seq<char>>,
        fallback: Option<Seq<char>>,
    },
}

/// What a listener is.
pub struct OptsView {
    pub common: CommonView,
    pub detail: DetailView,
    pub users: Seq<(Seq<char>, Seq<char>)>,
}

impl View for CommonInboundOpts {
    type V = CommonView;

    open spec fn view(&self) -> CommonView {
        CommonView {
            name: self.name@,
            listen: self.listen,
            allow_lan: self.allow_lan,
            port: self.port,
            fw_mark: self.fw_mark,
        }
    }
}

impl View for InboundDetail {
    type V = DetailView;

    open spec fn view(&self) -> DetailView {
        match self {
            InboundDetail::Http => DetailView::Http,
            InboundDetail::Socks { udp } => DetailView::Socks { udp: *udp },
            InboundDetail::Mixed { udp } => DetailView::Mixed { udp: *udp },
            InboundDetail::TProxy { udp } => DetailView::TProxy { udp: *udp },
            InboundDetail::Redir => DetailView::Redir,
            InboundDetail::Tunnel { network, target } => DetailView::Tunnel {
                network: text::string_views(network@),
                target: target@,
            },
            InboundDetail::Shadowsocks { udp, cipher, password } => DetailView::Shadowsocks {
                udp: *udp,
                cipher: cipher@,
                password: password@,
            },
            InboundDetail::Anytls { password, certificate, private_key, fallback } =>
            DetailView::Anytls {
                password: password@,
                certificate: text::opt_view(*certificate),
                private_key: text::opt_view(*private_key),
                fallback: text::opt_view(*fallback),
            },
        }
    }
}

/// Users and their passwords.
pub open spec fn user_views(users: Seq<InboundUser>) -> Seq<(Seq<char>, Seq<char>)> {
    users.map_values(|u: InboundUser| (u.name@, u.password@))
}

/// A copy of users.
pub fn copy_users(users: &Vec<InboundUser>) -> (res: Vec<InboundUser>)
    ensures
        user_views(res@) == user_views(users@),
{
    let mut res: Vec<InboundUser> = Vec::new();
    let mut i: usize = 0;
    assert(user_views(res@) =~= user_views(users@).take(0));
    while i < users.len()
        invariant
            i <= users@.len(),
            user_views(res@) == user_views(users@).take(i as int),
        decreases users@.len() - i,
    {
        let ghost before = user_views(res@);
        res.push(
            InboundUser { name: users[i].name.clone(), password: users[i].password.clone() },
        );
        assert(user_views(res@) =~= before.push(user_views(users@)[i as int]));
        assert(user_views(users@).take(i + 1) =~= user_views(users@).take(i as int).push(
            user_views(users@)[i as int],
        ));
        i = i + 1;
    }
    assert(user_views(users@).take(i as int) =~= user_views(users@));
    res
}

impl View for InboundOpts {
    type V = OptsView;

    open spec fn view(&self) -> OptsView {
        OptsView {
            common: self.common_opts@,
            detail: self.detail@,
            users: user_views(self.users@),
        }
    }
}

/// Two listeners are the same one: they differ in their users at most.
pub open spec fn same_listener(a: OptsView, b: OptsView) -> bool {
    a.common == b.common && a.detail == b.detail
}

fn same_opt(a: &Option<String>, b: &Option<String>) -> (res: bool)
    ensures
        res == (text::opt_view(*a) == text::opt_view(*b)),
{
    match (a, b) {
        (Some(x), Some(y)) => text::same(x.as_str(), y.as_str()),
        (None, None) => true,
        _ => false,
    }
}

fn same_common(a: &CommonInboundOpts, b: &CommonInboundOpts) -> (res: bool)
    ensures
        res == (a@ == b@),
{
    let same_mark: bool = match (a.fw_mark, b.fw_mark) {
        (Some(x), Some(y)) => x == y,
        (None, None) => true,
        _ => false,
    };
    text::same(a.name.as_str(), b.name.as_str()) && a.listen == b.listen && a.allow_lan
        == b.allow_lan && a.port == b.port && same_mark
}

fn same_detail(a: &InboundDetail, b: &InboundDetail) -> (res: bool)
    ensures
        res == (a@ == b@),
{
    match (a, b) {
        (InboundDetail::Http, InboundDetail::Http) => true,
        (InboundDetail::Socks { udp: x }, InboundDetail::Socks { udp: y }) => *x == *y,
        (InboundDetail::Mixed { udp: x }, InboundDetail::Mixed { udp: y }) => *x == *y,
        (InboundDetail::TProxy { udp: x }, InboundDetail::TProxy { udp: y }) => *x == *y,
        (InboundDetail::Redir, InboundDetail::Redir) => true,
        (
            InboundDetail::Tunnel { network: n1, target: t1 },
            InboundDetail::Tunnel { network: n2, target: t2 },
        ) => text::same_list(n1, n2) && text::same(t1.as_str(), t2.as_str()),
        (
            InboundDetail::Shadowsocks { udp: u1, cipher: c1, password: p1 },
            InboundDetail::Shadowsocks { udp: u2, cipher: c2, password: p2 },
        ) => *u1 == *u2 && text::same(c1.as_str(), c2.as_str()) && text::same(
            p1.as_str(),
            p2.as_str(),
        ),
        (
            InboundDetail::Anytls { password: p1, certificate: c1, private_key: k1, fallback: f1 },
            InboundDetail::Anytls { password: p2, certificate: c2, private_key: k2, fallback: f2 },
        ) => text::same(p1.as_str(), p2.as_str()) && same_opt(c1, c2) && same_opt(k1, k2)
            && same_opt(f1, f2),
        _ => false,
    }
}

/// The listener has users.
pub open spec fn has_users(detail: DetailView) -> bool {
    detail is Shadowsocks || detail is Anytls
}

/// What a type of listener is called.
pub open spec fn type_text(detail: DetailView) -> Seq<char> {
    match detail {
        DetailView::Http => "http"@,
        DetailView::Socks { .. } => "socks"@,
        DetailView::Mixed { .. } => "mixed"@,
        DetailView::TProxy { .. } => "tproxy"@,
        DetailView::Redir => "redir"@,
        DetailView::Tunnel { .. } => "tunnel"@,
        DetailView::Shadowsocks { .. } => "shadowsocks"@,
        DetailView::Anytls { .. } => "anytls"@,
    }
}

impl InboundOpts {
    /// Whether two listeners are the same one.
    pub fn same(&self, other: &InboundOpts) -> (res: bool)
        ensures
            res == same_listener(self@, other@),
    {
        same_common(&self.common_opts, &other.common_opts) && same_detail(
            &self.detail,
            &other.detail,
        )
    }

    /// Whether the listener has users.
    pub fn takes_users(&self) -> (res: bool)
        ensures
            res == has_users(self@.detail),
    {
        match &self.detail {
            InboundDetail::Shadowsocks { .. } => true,
            InboundDetail::Anytls { .. } => true,
            _ => false,
        }
    }

    /// What the type of listener is called.
    pub fn kind_name(&self) -> (res: &'static str)
        ensures
            res@ == type_text(self@.detail),
    {
        match &self.detail {
            InboundDetail::Http => "http",
            InboundDetail::Socks { .. } => "socks",
            InboundDetail::Mixed { .. } => "mixed",
            InboundDetail::TProxy { .. } => "tproxy",
            InboundDetail::Redir => "redir",
            InboundDetail::Tunnel { .. } => "tunnel",
            InboundDetail::Shadowsocks { .. } => "shadowsocks",
            InboundDetail::Anytls { .. } => "anytls",
        }
    }
}

/// Two listeners are the same whoever their users are, and differ where anything else differs.
pub proof fn law_users_make_no_listener(a: OptsView, users: Seq<(Seq<char>, Seq<char>)>, b: OptsView)
    ensures
        same_listener(a, (OptsView { users, ..a })),
        same_listener(a, b) <==> (OptsView { users, ..a }) == (OptsView { users, ..b }),
{
}

/// Each type of listener has a name of its own.
pub proof fn law_types_have_names(a: DetailView, b: DetailView)
    requires
        type_text(a) == type_text(b),
    ensures
        a is Http <==> b is Http,
        a is Socks <==> b is Socks,
        a is Mixed <==> b is Mixed,
        a is TProxy <==> b is TProxy,
        a is Redir <==> b is Redir,
        a is Tunnel <==> b is Tunnel,
        a is Shadowsocks <==> b is Shadowsocks,
        a is Anytls <==> b is Anytls,
{
    reveal_strlit("http");
    reveal_strlit("socks");
    reveal_strlit("mixed");
    reveal_strlit("tproxy");
    reveal_strlit("redir");
    reveal_strlit("tunnel");
    reveal_strlit("shadowsocks");
    reveal_strlit("anytls");
    let (s, t) = (type_text(a), type_text(b));
    assert(s.len() == t.len() && s[0] == t[0] && s[1] == t[1]);
}

} // verus!
