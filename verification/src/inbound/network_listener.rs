//! What a listener runs, and how often it tries to get its address.
use vstd::prelude::*;

use crate::inbound::opts;
use crate::inbound::opts::{InboundDetail, InboundOpts, InboundUser};
use crate::ip::IpAddr;
use crate::text;

verus! {

/// How often a listener tries to get its address.
pub const REBIND_ATTEMPTS: usize = 4;

/// How long it waits after the first failure, in milliseconds.
pub const REBIND_DELAY: u64 = 10;

/// What a listener takes in.
#[derive(Clone, Copy, Debug, PartialEq, Eq, Structural)]
pub enum ListenerTransport {
    Tcp,
    Udp,
}

/// How an attempt to listen ended.
#[derive(Clone, Copy, Debug, PartialEq, Eq, Structural)]
pub enum ListenOutcome {
    /// The listener ran and was closed.
    Finished,
    /// The address was in use.
    AddrInUse,
    /// It failed otherwise.
    Failed,
}

/// Two to the power of a number.
pub open spec fn doubled(n: nat) -> nat
    decreases n,
{
    if n == 0 {
        1
    } else {
        2 * doubled((n - 1) as nat)
    }
}

/// How long to wait before the next attempt, after this many attempts before the one that ended
/// so; `None` where the outcome stands. Only an address in use is tried again, and each wait is
/// twice as long as the one before.
pub open spec fn next_wait(attempt: nat, outcome: ListenOutcome) -> Option<nat> {
    if outcome == ListenOutcome::AddrInUse && attempt + 1 < REBIND_ATTEMPTS {
        Some(REBIND_DELAY as nat * doubled(attempt))
    } else {
        None
    }
}

/// How long to wait before the next attempt, in milliseconds; `None` where the outcome stands.
pub fn listen_with_rebind_retry(attempt: usize, outcome: ListenOutcome) -> (res: Option<u64>)
    ensures
        match (res, next_wait(attempt as nat, outcome)) {
            (Some(a), Some(b)) => a == b,
            (None, None) => true,
            _ => false,
        },
{
    reveal_with_fuel(doubled, 4);
    if outcome != ListenOutcome::AddrInUse || attempt >= REBIND_ATTEMPTS - 1 {
        return None;
    }
    if attempt == 0 {
        Some(REBIND_DELAY)
    } else if attempt == 1 {
        Some(REBIND_DELAY * 2)
    } else {
        Some(REBIND_DELAY * 4)
    }
}

/// The last attempt's outcome stands, and so does any that is not an address in use.
pub proof fn law_attempts_end(attempt: nat, outcome: ListenOutcome)
    requires
        attempt + 1 >= REBIND_ATTEMPTS || outcome != ListenOutcome::AddrInUse,
    ensures
        next_wait(attempt, outcome) is None,
{
}

/// The listener that is made, and the settings that are its own.
#[derive(Debug)]
pub enum HandlerKind {
    Http,
    Socks,
    Mixed,
    TProxy,
    Redir,
    Tunnel { network: Vec<String>, target: String },
    Shadowsocks { udp: bool, cipher: String, password: String, users: Vec<InboundUser> },
    Anytls {
        password: String,
        certificate: Option<String>,
        private_key: Option<String>,
        fallback: Option<String>,
        users: Vec<InboundUser>,
    },
}

/// The listener that is made, and the settings that are its own.
pub enum KindView {
    Http,
    Socks,
    Mixed,
    TProxy,
    Redir,
    Tunnel { network: Seq<Seq<char>>, target: Seq<char> },
    Shadowsocks {
        udp: bool,
        cipher: Seq<char>,
        password: Seq<char>,
        users: Seq<(Seq<char>, Seq<char>)>,
    },
    Anytls {
        password: Seq<char>,
        certificate: Option<Seq<char>>,
        private_key: Option<Seq<char>>,
        fallback: Option<Seq<char>>,
        users: Seq<(Seq<char>, Seq<char>)>,
    },
}

impl View for HandlerKind {
    type V = KindView;

    open spec fn view(&self) -> KindView {
        match self {
            HandlerKind::Http => KindView::Http,
            HandlerKind::Socks => KindView::Socks,
            HandlerKind::Mixed => KindView::Mixed,
            HandlerKind::TProxy => KindView::TProxy,
            HandlerKind::Redir => KindView::Redir,
            HandlerKind::Tunnel { network, target } => KindView::Tunnel {
                network: text::string_views(network@),
                target: target@,
            },
            HandlerKind::Shadowsocks { udp, cipher, password, users } => KindView::Shadowsocks {
                udp: *udp,
                cipher: cipher@,
                password: password@,
                users: opts::user_views(users@),
            },
            HandlerKind::Anytls { password, certificate, private_key, fallback, users } =>
            KindView::Anytls {
                password: password@,
                certificate: text::opt_view(*certificate),
                private_key: text::opt_view(*private_key),
                fallback: text::opt_view(*fallback),
                users: opts::user_views(users@),
            },
        }
    }
}

/// The listener that options ask for. Its users are those it starts with.
pub open spec fn kind_of(listener: opts::OptsView) -> KindView {
    match listener.detail {
        opts::DetailView::Http => KindView::Http,
        opts::DetailView::Socks { .. } => KindView::Socks,
        opts::DetailView::Mixed { .. } => KindView::Mixed,
        opts::DetailView::TProxy { .. } => KindView::TProxy,
        opts::DetailView::Redir => KindView::Redir,
        opts::DetailView::Tunnel { network, target } => KindView::Tunnel { network, target },
        opts::DetailView::Shadowsocks { udp, cipher, password } => KindView::Shadowsocks {
            udp,
            cipher,
            password,
            users: listener.users,
        },
        opts::DetailView::Anytls { password, certificate, private_key, fallback } =>
        KindView::Anytls { password, certificate, private_key, fallback, users: listener.users },
    }
}

/// What is needed to make a listener.
#[derive(Debug)]
pub struct HandlerPlan {
    pub listen: IpAddr,
    pub port: u16,
    pub allow_lan: bool,
    pub fw_mark: Option<u32>,
    pub kind: HandlerKind,
    /// Whether clients have to show who they are.
    pub authenticates: bool,
    /// Whether it is told of changes to its users.
    pub takes_users: bool,
}

/// The listener asks clients to show who they are.
pub open spec fn asks_who(detail: opts::DetailView) -> bool {
    detail is Http || detail is Socks || detail is Mixed || detail is Shadowsocks
}

/// There is such a listener on the machine: transparent ones are there on Linux alone.
pub open spec fn is_supported(detail: opts::DetailView, linux: bool) -> bool {
    linux || !(detail is TProxy || detail is Redir)
}

/// What is needed to make a listener.
pub open spec fn planned(
    listener: opts::OptsView,
    linux: bool,
    plan: Option<HandlerPlan>,
) -> bool {
    &&& plan is Some <==> is_supported(listener.detail, linux)
    &&& plan matches Some(p) ==> {
        &&& p.listen == listener.common.listen
        &&& p.port == listener.common.port
        &&& p.allow_lan == listener.common.allow_lan
        &&& p.fw_mark == listener.common.fw_mark
        &&& p.kind@ == kind_of(listener)
        &&& p.authenticates == asks_who(listener.detail)
        &&& p.takes_users == opts::has_users(listener.detail)
    }
}

/// What is needed to make a listener; `None` where there is no such listener on the machine.
pub fn build_handler(listener: &InboundOpts, linux: bool) -> (res: Option<HandlerPlan>)
    ensures
        planned(listener@, linux, res),
{
    let (kind, authenticates): (HandlerKind, bool) = match &listener.detail {
        InboundDetail::Http => (HandlerKind::Http, true),
        InboundDetail::Socks { .. } => (HandlerKind::Socks, true),
        InboundDetail::Mixed { .. } => (HandlerKind::Mixed, true),
        InboundDetail::TProxy { .. } => {
            if !linux {
                return None;
            }
            (HandlerKind::TProxy, false)
        },
        InboundDetail::Redir => {
            if !linux {
                return None;
            }
            (HandlerKind::Redir, false)
        },
        InboundDetail::Tunnel { network, target } => (
            HandlerKind::Tunnel { network: text::copy_list(network), target: target.clone() },
            false,
        ),
        InboundDetail::Shadowsocks { udp, cipher, password } => (
            HandlerKind::Shadowsocks {
                udp: *udp,
                cipher: cipher.clone(),
                password: password.clone(),
                users: opts::copy_users(&listener.users),
            },
            true,
        ),
        InboundDetail::Anytls { password, certificate, private_key, fallback } => (
            HandlerKind::Anytls {
                password: password.clone(),
                certificate: text::copy_opt(certificate),
                private_key: text::copy_opt(private_key),
                fallback: text::copy_opt(fallback),
                users: opts::copy_users(&listener.users),
            },
            false,
        ),
    };
    Some(
        HandlerPlan {
            listen: listener.common_opts.listen,
            port: listener.common_opts.port,
            allow_lan: listener.common_opts.allow_lan,
            fw_mark: listener.common_opts.fw_mark,
            kind,
            authenticates,
            takes_users: listener.takes_users(),
        },
    )
}

/// What a listener runs: one task for each transport it takes in.
pub open spec fn transports(tcp: bool, udp: bool) -> Seq<ListenerTransport> {
    if tcp && udp {
        seq![ListenerTransport::Tcp, ListenerTransport::Udp]
    } else if tcp {
        seq![ListenerTransport::Tcp]
    } else if udp {
        seq![ListenerTransport::Udp]
    } else {
        Seq::empty()
    }
}

/// What a listener runs, given what it takes in; `None` where that is nothing.
pub fn build_network_listeners(handle_tcp: bool, handle_udp: bool) -> (res: Option<
    Vec<ListenerTransport>,
>)
    ensures
        res is Some <==> handle_tcp || handle_udp,
        res matches Some(v) ==> v@ == transports(handle_tcp, handle_udp),
{
    let mut runners: Vec<ListenerTransport> = Vec::new();
    if handle_tcp {
        runners.push(ListenerTransport::Tcp);
    }
    if handle_udp {
        runners.push(ListenerTransport::Udp);
    }
    if runners.len() == 0 {
        return None;
    }
    assert(runners@ =~= transports(handle_tcp, handle_udp));
    Some(runners)
}

/// The wait before another attempt doubles each time, from ten milliseconds on, as long as the address
/// is in use; the fourth attempt is the last. Nothing else is tried again.
pub proof fn law_waits_double(attempt: nat)
    requires
        attempt < 2,
    ensures
        next_wait(0, ListenOutcome::AddrInUse) == Some(10nat),
        next_wait(attempt, ListenOutcome::AddrInUse) is Some,
        next_wait(attempt + 1, ListenOutcome::AddrInUse) == Some(
            2 * next_wait(attempt, ListenOutcome::AddrInUse).unwrap(),
        ),
        next_wait(3, ListenOutcome::AddrInUse) is None,
        next_wait(attempt, ListenOutcome::Finished) is None,
        next_wait(attempt, ListenOutcome::Failed) is None,
{
    reveal_with_fuel(doubled, 4);
    assert(doubled(attempt + 1) == 2 * doubled(attempt));
    assert(10 * (2 * doubled(attempt)) == 2 * (10 * doubled(attempt)));
}

/// A listener listens on each transport that it handles, once, and TCP before UDP.
pub proof fn law_transports_are_handled(tcp: bool, udp: bool)
    ensures
        transports(tcp, udp).contains(ListenerTransport::Tcp) <==> tcp,
        transports(tcp, udp).contains(ListenerTransport::Udp) <==> udp,
        transports(tcp, udp).len() == (if tcp {
            1int
        } else {
            0
        }) + (if udp {
            1int
        } else {
            0
        }),
        tcp ==> transports(tcp, udp)[0] == ListenerTransport::Tcp,
{
    let list = transports(tcp, udp);
    if tcp {
        assert(list[0] == ListenerTransport::Tcp);
    }
    if udp {
        assert(list[list.len() - 1] == ListenerTransport::Udp);
    }
}

/// A listener that takes over the system's connections is there on Linux alone; every other one is
/// there everywhere. What is made listens where its options say.
pub proof fn law_listener_is_as_configured(
    listener: opts::OptsView,
    linux: bool,
    plan: Option<HandlerPlan>,
)
    requires
        planned(listener, linux, plan),
    ensures
        plan is None <==> !linux && (listener.detail is TProxy || listener.detail is Redir),
        plan matches Some(p) ==> p.listen == listener.common.listen && p.port
            == listener.common.port && p.allow_lan == listener.common.allow_lan && p.fw_mark
            == listener.common.fw_mark,
{
}

/// Clients of an HTTP, SOCKS, mixed or Shadowsocks listener have to show who they are; the others
/// do so in a way of their own or not at all. Shadowsocks and AnyTLS listeners have their users and
/// are told of changes to them.
pub proof fn law_who_authenticates(
    listener: opts::OptsView,
    linux: bool,
    plan: Option<HandlerPlan>,
)
    requires
        planned(listener, linux, plan),
    ensures
        plan matches Some(p) ==> match p.kind@ {
            KindView::Http => listener.detail is Http && p.authenticates && !p.takes_users,
            KindView::Socks => listener.detail is Socks && p.authenticates && !p.takes_users,
            KindView::Mixed => listener.detail is Mixed && p.authenticates && !p.takes_users,
            KindView::TProxy => listener.detail is TProxy && !p.authenticates && !p.takes_users,
            KindView::Redir => listener.detail is Redir && !p.authenticates && !p.takes_users,
            KindView::Tunnel { network, target } => listener.detail == (opts::DetailView::Tunnel {
                network,
                target,
            }) && !p.authenticates && !p.takes_users,
            KindView::Shadowsocks { udp, cipher, password, users } => listener.detail == (
            opts::DetailView::Shadowsocks { udp, cipher, password }) && users == listener.users
                && p.authenticates && p.takes_users,
            KindView::Anytls { password, certificate, private_key, fallback, users } =>
            listener.detail == (opts::DetailView::Anytls {
                password,
                certificate,
                private_key,
                fallback,
            }) && users == listener.users && !p.authenticates && p.takes_users,
        },
{
}

} // verus!
