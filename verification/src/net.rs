//! The machine's network interfaces: which address of an interface is used, and which interface
//! connections leave by.
use vstd::prelude::*;

use crate::error;
use crate::error::debug_str;
use crate::ip;
use crate::ip::{write_ip, IpAddr};
use crate::text;

verus! {

/// The bit that tells a mark that is set from one that is not.
pub const SOMARK_VALID_MASK: u64 = 0x1_0000_0000;

/// The mark that a stored word holds: the low half, where the valid bit is set.
pub open spec fn stored_mark(raw: u64) -> Option<u32> {
    if raw / SOMARK_VALID_MASK % 2 == 1 {
        Some((raw % SOMARK_VALID_MASK) as u32)
    } else {
        None
    }
}

/// The mark that a stored word holds.
pub fn get_tun_somark(raw: u64) -> (res: Option<u32>)
    ensures
        res == stored_mark(raw),
{
    if raw / SOMARK_VALID_MASK % 2 == 1 {
        Some((raw % SOMARK_VALID_MASK) as u32)
    } else {
        None
    }
}

/// The word to store for a mark. Reading it gives the mark back.
pub fn set_tun_somark(mark: Option<u32>) -> (res: u64)
    ensures
        stored_mark(res) == mark,
        res == match mark {
            Some(m) => m + SOMARK_VALID_MASK,
            None => 0,
        },
{
    match mark {
        Some(m) => m as u64 + SOMARK_VALID_MASK,
        None => 0,
    }
}

/// An IPv4 address of an interface.
#[derive(Clone, Copy, Debug)]
pub struct V4IfAddr {
    pub ip: u32,
    pub broadcast: Option<u32>,
    pub netmask: Option<u32>,
}

/// An IPv6 address of an interface.
#[derive(Clone, Copy, Debug)]
pub struct V6IfAddr {
    pub ip: u128,
    pub broadcast: Option<u128>,
    pub netmask: Option<u128>,
}

/// An address of an interface.
#[derive(Clone, Copy, Debug)]
pub enum Addr {
    V4(V4IfAddr),
    V6(V6IfAddr),
}

/// A network interface as the system reports it.
#[derive(Debug)]
pub struct NetworkInterface {
    pub name: String,
    pub addr: Vec<Addr>,
    pub mac_addr: Option<String>,
    pub index: u32,
}

/// An interface that connections leave by.
#[derive(Debug)]
pub struct OutboundInterface {
    pub name: String,
    pub addr_v4: Option<u32>,
    pub netmask_v4: Option<u32>,
    pub broadcast_v4: Option<u32>,
    pub addr_v6: Option<u128>,
    pub netmask_v6: Option<u128>,
    pub broadcast_v6: Option<u128>,
    pub index: u32,
    pub mac_addr: Option<String>,
}

/// What is known of an interface that connections leave by.
#[verifier::ext_equal]
pub struct OutboundView {
    pub name: Seq<char>,
    pub addr_v4: Option<u32>,
    pub netmask_v4: Option<u32>,
    pub broadcast_v4: Option<u32>,
    pub addr_v6: Option<u128>,
    pub netmask_v6: Option<u128>,
    pub broadcast_v6: Option<u128>,
    pub index: u32,
    pub mac_addr: Option<Seq<char>>,
}

/// 127.0.0.0/8.
pub open spec fn v4_loopback(ip: u32) -> bool {
    ip / 0x100_0000 == 127
}

/// The first IPv4 address from `from` on that is no loopback address.
pub open spec fn first_v4(addrs: Seq<Addr>, from: int) -> Option<V4IfAddr>
    decreases addrs.len() - from,
{
    if from < 0 || from >= addrs.len() {
        None
    } else {
        match addrs[from] {
            Addr::V4(a) if !v4_loopback(a.ip) => Some(a),
            _ => first_v4(addrs, from + 1),
        }
    }
}

/// The first IPv6 address from `from` on that is no loopback address.
pub open spec fn first_v6(addrs: Seq<Addr>, from: int) -> Option<V6IfAddr>
    decreases addrs.len() - from,
{
    if from < 0 || from >= addrs.len() {
        None
    } else {
        match addrs[from] {
            Addr::V6(a) if a.ip != 1 => Some(a),
            _ => first_v6(addrs, from + 1),
        }
    }
}

/// What is used of an interface.
pub open spec fn outbound_of(iface: NetworkInterface) -> OutboundView {
    let v4 = first_v4(iface.addr@, 0);
    let v6 = first_v6(iface.addr@, 0);
    OutboundView {
        name: iface.name@,
        addr_v4: match v4 {
            Some(a) => Some(a.ip),
            None => None,
        },
        netmask_v4: match v4 {
            Some(a) => a.netmask,
            None => None,
        },
        broadcast_v4: match v4 {
            Some(a) => a.broadcast,
            None => None,
        },
        addr_v6: match v6 {
            Some(a) => Some(a.ip),
            None => None,
        },
        netmask_v6: match v6 {
            Some(a) => a.netmask,
            None => None,
        },
        broadcast_v6: match v6 {
            Some(a) => a.broadcast,
            None => None,
        },
        index: iface.index,
        mac_addr: text::opt_view(iface.mac_addr),
    }
}

fn get_outbound_ip_from_interface(addrs: &Vec<Addr>) -> (res: (Option<V4IfAddr>, Option<V6IfAddr>))
    ensures
        res.0 == first_v4(addrs@, 0),
        res.1 == first_v6(addrs@, 0),
{
    let mut v4: Option<V4IfAddr> = None;
    let mut v6: Option<V6IfAddr> = None;
    let mut i: usize = 0;
    while i < addrs.len()
        invariant
            i <= addrs@.len(),
            v4 is Some ==> first_v4(addrs@, 0) == v4,
            v4 is None ==> first_v4(addrs@, 0) == first_v4(addrs@, i as int),
            v6 is Some ==> first_v6(addrs@, 0) == v6,
            v6 is None ==> first_v6(addrs@, 0) == first_v6(addrs@, i as int),
        decreases addrs@.len() - i,
    {
        match addrs[i] {
            Addr::V4(a) => {
                if a.ip / 0x100_0000 != 127 && v4.is_none() {
                    v4 = Some(a);
                }
            },
            Addr::V6(a) => {
                if a.ip != 1 && v6.is_none() {
                    v6 = Some(a);
                }
            },
        }
        i = i + 1;
    }
    (v4, v6)
}

/// The address is written out, or `None`.
pub open spec fn opt_ip_text(ip: Option<IpAddr>) -> Seq<char> {
    match ip {
        Some(addr) => ip::ip_text(addr),
        None => "None"@,
    }
}

fn write_opt_ip(addr: Option<IpAddr>) -> (res: Vec<char>)
    ensures
        res@ == opt_ip_text(addr),
{
    match addr {
        Some(addr) => text::chars(write_ip(addr).as_str()),
        None => text::chars("None"),
    }
}

impl View for OutboundInterface {
    type V = OutboundView;

    open spec fn view(&self) -> OutboundView {
        OutboundView {
            name: self.name@,
            addr_v4: self.addr_v4,
            netmask_v4: self.netmask_v4,
            broadcast_v4: self.broadcast_v4,
            addr_v6: self.addr_v6,
            netmask_v6: self.netmask_v6,
            broadcast_v6: self.broadcast_v6,
            index: self.index,
            mac_addr: text::opt_view(self.mac_addr),
        }
    }
}

impl OutboundView {
    /// How an interface is shown.
    pub open spec fn text(&self) -> Seq<char> {
        self.name + " (v4: "@ + opt_ip_text(
            match self.addr_v4 {
                Some(a) => Some(IpAddr::V4(a)),
                None => None,
            },
        ) + ", v6: "@ + opt_ip_text(
            match self.addr_v6 {
                Some(a) => Some(IpAddr::V6(a)),
                None => None,
            },
        ) + ", index: "@ + text::number_text(self.index as nat) + ", mac: "@ + (
        match self.mac_addr {
            Some(mac) => mac,
            None => "None"@,
        }) + ")"@
    }
}

impl OutboundInterface {
    /// What is used of an interface: its first address of each version that is no loopback address.
    pub fn from_interface(iface: &NetworkInterface) -> (res: OutboundInterface)
        ensures
            res@ == outbound_of(*iface),
    {
        let (v4, v6) = get_outbound_ip_from_interface(&iface.addr);
        let (addr_v4, netmask_v4, broadcast_v4): (Option<u32>, Option<u32>, Option<u32>) = match v4 {
            Some(a) => (Some(a.ip), a.netmask, a.broadcast),
            None => (None, None, None),
        };
        let (addr_v6, netmask_v6, broadcast_v6): (Option<u128>, Option<u128>, Option<u128>) =
            match v6 {
            Some(a) => (Some(a.ip), a.netmask, a.broadcast),
            None => (None, None, None),
        };
        OutboundInterface {
            name: iface.name.clone(),
            addr_v4,
            netmask_v4,
            broadcast_v4,
            addr_v6,
            netmask_v6,
            broadcast_v6,
            index: iface.index,
            mac_addr: text::copy_opt(&iface.mac_addr),
        }
    }

    /// The same interface once more.
    pub fn copy(&self) -> (res: OutboundInterface)
        ensures
            res@ == self@,
    {
        OutboundInterface {
            name: self.name.clone(),
            addr_v4: self.addr_v4,
            netmask_v4: self.netmask_v4,
            broadcast_v4: self.broadcast_v4,
            addr_v6: self.addr_v6,
            netmask_v6: self.netmask_v6,
            broadcast_v6: self.broadcast_v6,
            index: self.index,
            mac_addr: text::copy_opt(&self.mac_addr),
        }
    }

    /// How the interface is shown.
    pub fn as_text(&self) -> (res: String)
        ensures
            res@ == self@.text(),
    {
        let mut out: Vec<char> = text::chars(self.name.as_str());
        text::append(&mut out, &text::chars(" (v4: "));
        let v4: Option<IpAddr> = match self.addr_v4 {
            Some(a) => Some(IpAddr::V4(a)),
            None => None,
        };
        text::append(&mut out, &write_opt_ip(v4));
        text::append(&mut out, &text::chars(", v6: "));
        let v6: Option<IpAddr> = match self.addr_v6 {
            Some(a) => Some(IpAddr::V6(a)),
            None => None,
        };
        text::append(&mut out, &write_opt_ip(v6));
        text::append(&mut out, &text::chars(", index: "));
        text::append(&mut out, &text::write_number(self.index as u64));
        text::append(&mut out, &text::chars(", mac: "));
        let mac: Vec<char> = match &self.mac_addr {
            Some(mac) => text::chars(mac.as_str()),
            None => text::chars("None"),
        };
        text::append(&mut out, &mac);
        text::append(&mut out, &text::chars(")"));
        text::text(&out)
    }
}

/// How `{:?}` writes an optional value whose own text is given.
pub open spec fn debug_opt(s: Option<Seq<char>>) -> Seq<char> {
    match s {
        Some(t) => "Some("@ + t + ")"@,
        None => "None"@,
    }
}

pub fn write_debug_opt(s: Option<Vec<char>>) -> (res: Vec<char>)
    ensures
        res@ == debug_opt(
            match s {
                Some(t) => Some(t@),
                None => None,
            },
        ),
{
    match s {
        Some(t) => {
            let mut out: Vec<char> = text::chars("Some(");
            text::append(&mut out, &t);
            text::append(&mut out, &text::chars(")"));
            out
        },
        None => text::chars("None"),
    }
}

/// How `{:?}` writes an optional IPv4 address.
pub open spec fn debug_v4(a: Option<u32>) -> Seq<char> {
    debug_opt(
        match a {
            Some(a) => Some(ip::ip_text(IpAddr::V4(a))),
            None => None,
        },
    )
}

/// How `{:?}` writes an optional IPv6 address.
pub open spec fn debug_v6(a: Option<u128>) -> Seq<char> {
    debug_opt(
        match a {
            Some(a) => Some(ip::ip_text(IpAddr::V6(a))),
            None => None,
        },
    )
}

fn write_debug_v4(a: Option<u32>) -> (res: Vec<char>)
    ensures
        res@ == debug_v4(a),
{
    match a {
        Some(a) => write_debug_opt(Some(text::chars(write_ip(IpAddr::V4(a)).as_str()))),
        None => write_debug_opt(None),
    }
}

fn write_debug_v6(a: Option<u128>) -> (res: Vec<char>)
    ensures
        res@ == debug_v6(a),
{
    match a {
        Some(a) => write_debug_opt(Some(text::chars(write_ip(IpAddr::V6(a)).as_str()))),
        None => write_debug_opt(None),
    }
}

impl OutboundView {
    /// The interface with the names of its fields.
    pub open spec fn debug(&self) -> Seq<char> {
        "OutboundInterface { name: "@ + error::debug_string(self.name) + ", addr_v4: "@ + debug_v4(
            self.addr_v4,
        ) + ", netmask_v4: "@ + debug_v4(self.netmask_v4) + ", broadcast_v4: "@ + debug_v4(
            self.broadcast_v4,
        ) + ", addr_v6: "@ + debug_v6(self.addr_v6) + ", netmask_v6: "@ + debug_v6(self.netmask_v6)
            + ", broadcast_v6: "@ + debug_v6(self.broadcast_v6) + ", index: "@ + text::number_text(
            self.index as nat,
        ) + ", mac_addr: "@ + debug_opt(
            match self.mac_addr {
                Some(mac) => Some(error::debug_string(mac)),
                None => None,
            },
        ) + " }"@
    }
}

impl OutboundInterface {
    /// The interface with the names of its fields.
    pub fn debug_chars(&self) -> (res: Vec<char>)
        ensures
            res@ == self@.debug(),
    {
        let mut out: Vec<char> = text::chars("OutboundInterface { name: ");
        text::append(&mut out, &text::chars(debug_str(self.name.as_str()).as_str()));
        text::append(&mut out, &text::chars(", addr_v4: "));
        text::append(&mut out, &write_debug_v4(self.addr_v4));
        text::append(&mut out, &text::chars(", netmask_v4: "));
        text::append(&mut out, &write_debug_v4(self.netmask_v4));
        text::append(&mut out, &text::chars(", broadcast_v4: "));
        text::append(&mut out, &write_debug_v4(self.broadcast_v4));
        text::append(&mut out, &text::chars(", addr_v6: "));
        text::append(&mut out, &write_debug_v6(self.addr_v6));
        text::append(&mut out, &text::chars(", netmask_v6: "));
        text::append(&mut out, &write_debug_v6(self.netmask_v6));
        text::append(&mut out, &text::chars(", broadcast_v6: "));
        text::append(&mut out, &write_debug_v6(self.broadcast_v6));
        text::append(&mut out, &text::chars(", index: "));
        text::append(&mut out, &text::write_number(self.index as u64));
        text::append(&mut out, &text::chars(", mac_addr: "));
        let mac: Option<Vec<char>> = match &self.mac_addr {
            Some(mac) => Some(text::chars(debug_str(mac.as_str()).as_str())),
            None => None,
        };
        text::append(&mut out, &write_debug_opt(mac));
        text::append(&mut out, &text::chars(" }"));
        out
    }
}

/// The place of the first interface called `name`, from `from` on.
pub open spec fn named_place(ifaces: Seq<NetworkInterface>, name: Seq<char>, from: int) -> int
    decreases ifaces.len() - from,
{
    if from < 0 || from >= ifaces.len() || ifaces[from].name@ == name {
        from
    } else {
        named_place(ifaces, name, from + 1)
    }
}

/// The interface called `name`.
pub open spec fn interface_named(ifaces: Seq<NetworkInterface>, name: Seq<char>) -> Option<OutboundView> {
    let at = named_place(ifaces, name, 0);
    if at < ifaces.len() {
        Some(outbound_of(ifaces[at]))
    } else {
        None
    }
}

/// An optional interface as it is known.
pub open spec fn opt_outbound(iface: Option<OutboundInterface>) -> Option<OutboundView> {
    match iface {
        Some(i) => Some(i@),
        None => None,
    }
}

/// The interface called `name`, among those that the system reports.
pub fn get_interface_by_name(ifaces: &Vec<NetworkInterface>, name: &str) -> (res: Option<
    OutboundInterface,
>)
    ensures
        opt_outbound(res) == interface_named(ifaces@, name@),
{
    let mut i: usize = 0;
    while i < ifaces.len()
        invariant
            i <= ifaces@.len(),
            named_place(ifaces@, name@, 0) == named_place(ifaces@, name@, i as int),
        decreases ifaces@.len() - i,
    {
        if text::same(ifaces[i].name.as_str(), name) {
            return Some(OutboundInterface::from_interface(&ifaces[i]));
        }
        i = i + 1;
    }
    None
}

/// The kind of system that the program runs on.
#[derive(Clone, Copy, Debug, PartialEq, Eq, Structural)]
pub enum Platform {
    Android,
    Windows,
    Linux,
    Macos,
    Other,
}

/// Parts of interface names, the preferred ones first.
pub open spec fn priority_names(platform: Platform) -> Seq<Seq<char>> {
    match platform {
        Platform::Android => seq!["wlan"@, "rmnet"@],
        Platform::Windows => seq!["Ethernet"@, "Wi-Fi"@, "Tailscale"@],
        Platform::Linux => seq!["pppoe"@, "wan"@, "ppp"@, "eth"@, "wlp"@, "en"@, "Tailscale"@],
        Platform::Macos => seq!["en"@, "pdp_ip"@, "Tailscale"@],
        Platform::Other => seq!["pppoe"@, "wan"@, "ppp"@, "eth"@, "en"@, "wlp"@],
    }
}

fn priority(platform: Platform) -> (res: Vec<Vec<char>>)
    ensures
        text::views(res@) == priority_names(platform),
{
    let mut res: Vec<Vec<char>> = Vec::new();
    match platform {
        Platform::Android => {
            res.push(text::chars("wlan"));
            res.push(text::chars("rmnet"));
        },
        Platform::Windows => {
            res.push(text::chars("Ethernet"));
            res.push(text::chars("Wi-Fi"));
            res.push(text::chars("Tailscale"));
        },
        Platform::Linux => {
            res.push(text::chars("pppoe"));
            res.push(text::chars("wan"));
            res.push(text::chars("ppp"));
            res.push(text::chars("eth"));
            res.push(text::chars("wlp"));
            res.push(text::chars("en"));
            res.push(text::chars("Tailscale"));
        },
        Platform::Macos => {
            res.push(text::chars("en"));
            res.push(text::chars("pdp_ip"));
            res.push(text::chars("Tailscale"));
        },
        Platform::Other => {
            res.push(text::chars("pppoe"));
            res.push(text::chars("wan"));
            res.push(text::chars("ppp"));
            res.push(text::chars("eth"));
            res.push(text::chars("en"));
            res.push(text::chars("wlp"));
        },
    }
    assert(text::views(res@) =~= priority_names(platform));
    res
}

/// The place of the first of the names that is part of `name`, from `from` on.
pub open spec fn priority_place(names: Seq<Seq<char>>, name: Seq<char>, from: int) -> int
    decreases names.len() - from,
{
    if from < 0 || from >= names.len() || text::has_part(name, names[from]) {
        from
    } else {
        priority_place(names, name, from + 1)
    }
}

/// The address is globally routable: not multicast, loopback, unspecified, link-local, unique
/// local, nor reserved for documentation or benchmarks.
pub open spec fn v6_global(ip: u128) -> bool {
    &&& ip >> 120 != 0xff
    &&& ip != 1
    &&& ip != 0
    &&& ip >> 118 != 0x3fa
    &&& ip >> 121 != 0x7e
    &&& ip >> 96 != 0x2001_0db8
    &&& ip >> 108 != 0x3fff0
    &&& ip >> 80 != 0x2001_0002_0000
}

fn is_unicast_global(addr: u128) -> (res: bool)
    ensures
        res == v6_global(addr),
{
    addr >> 120 != 0xff && addr != 1 && addr != 0 && addr >> 118 != 0x3fa && addr >> 121 != 0x7e
        && addr >> 96 != 0x2001_0db8 && addr >> 108 != 0x3fff0 && addr >> 80 != 0x2001_0002_0000
}

/// Connections can leave by the interface: it is no tunnel, bridge, container, dummy, loopback or
/// LAN interface, and it has an address.
pub open spec fn usable(iface: OutboundView) -> bool {
    &&& !text::has_part(iface.name, "tun"@)
    &&& !text::has_prefix(iface.name, "br-"@)
    &&& !text::has_prefix(iface.name, "docker"@)
    &&& !text::has_prefix(iface.name, "veth"@)
    &&& !text::has_part(iface.name, "dummy"@)
    &&& !text::has_prefix(iface.name, "lo"@)
    &&& !text::has_suffix(iface.name, "-lan"@)
    &&& !text::has_prefix(iface.name, "lan"@)
    &&& (iface.addr_v4 is Some || iface.addr_v6 is Some)
}

fn check_usable(iface: &OutboundInterface) -> (res: bool)
    ensures
        res == usable(iface@),
{
    let name: Vec<char> = text::chars(iface.name.as_str());
    !text::contains(&name, &text::chars("tun")) && !text::starts_with(&name, &text::chars("br-"))
        && !text::starts_with(&name, &text::chars("docker")) && !text::starts_with(
        &name,
        &text::chars("veth"),
    ) && !text::contains(&name, &text::chars("dummy")) && !text::starts_with(
        &name,
        &text::chars("lo"),
    ) && !text::ends_with(&name, &text::chars("-lan")) && !text::starts_with(
        &name,
        &text::chars("lan"),
    ) && (iface.addr_v4.is_some() || iface.addr_v6.is_some())
}

/// How good an interface is: smaller is better. The priority of its name counts first, then
/// whether it has a globally routable IPv6 address.
pub open spec fn rank(iface: OutboundView, names: Seq<Seq<char>>) -> int {
    2 * priority_place(names, iface.name, 0) + (if iface.addr_v6 matches Some(ip) && v6_global(ip) {
        0int
    } else {
        1int
    })
}

/// The interface at `i` is the one to use: usable, better than every usable one before it, and at
/// least as good as every usable one behind it.
pub open spec fn is_best(ifaces: Seq<NetworkInterface>, names: Seq<Seq<char>>, i: int) -> bool {
    &&& 0 <= i < ifaces.len()
    &&& usable(outbound_of(ifaces[i]))
    &&& forall|j: int|
        0 <= j < ifaces.len() && usable(#[trigger] outbound_of(ifaces[j])) ==> {
            &&& rank(outbound_of(ifaces[i]), names) <= rank(outbound_of(ifaces[j]), names)
            &&& j < i ==> rank(outbound_of(ifaces[i]), names) < rank(outbound_of(ifaces[j]), names)
        }
}

/// There is one interface to use at most.
pub proof fn law_best_is_unique(
    ifaces: Seq<NetworkInterface>,
    names: Seq<Seq<char>>,
    i: int,
    j: int,
)
    requires
        is_best(ifaces, names, i),
        is_best(ifaces, names, j),
    ensures
        i == j,
{
    let a = outbound_of(ifaces[i]);
    let b = outbound_of(ifaces[j]);
    assert(usable(a) && usable(b));
}

/// The interface that connections leave by: the best usable one, the first of equally good ones.
pub open spec fn outbound_interface(ifaces: Seq<NetworkInterface>, platform: Platform) -> Option<
    OutboundView,
> {
    if exists|i: int| is_best(ifaces, priority_names(platform), i) {
        Some(outbound_of(ifaces[choose|i: int| is_best(ifaces, priority_names(platform), i)]))
    } else {
        None
    }
}

/// There is an interface to use just where one is usable.
pub proof fn law_usable_has_best(ifaces: Seq<NetworkInterface>, names: Seq<Seq<char>>, n: int)
    requires
        0 <= n <= ifaces.len(),
    ensures
        (exists|j: int| 0 <= j < n && usable(#[trigger] outbound_of(ifaces[j]))) <==> (exists|i: int|
            is_best(ifaces.take(n), names, i)),
    decreases n,
{
    let short = ifaces.take(n);
    if n > 0 {
        law_usable_has_best(ifaces, names, n - 1);
        let prev = ifaces.take(n - 1);
        assert forall|j: int| 0 <= j < n - 1 implies prev[j] == #[trigger] short[j] by {}
        let last = outbound_of(short[n - 1]);
        if exists|i: int| is_best(prev, names, i) {
            let b = choose|i: int| is_best(prev, names, i);
            if usable(last) && rank(last, names) < rank(outbound_of(prev[b]), names) {
                assert forall|j: int|
                    0 <= j < n && usable(#[trigger] outbound_of(short[j])) implies {
                    &&& rank(last, names) <= rank(outbound_of(short[j]), names)
                    &&& j < n - 1 ==> rank(last, names) < rank(outbound_of(short[j]), names)
                } by {
                    if j < n - 1 {
                        assert(outbound_of(prev[j]) == outbound_of(short[j]));
                    }
                }
                assert(is_best(short, names, n - 1));
            } else {
                assert forall|j: int|
                    0 <= j < n && usable(#[trigger] outbound_of(short[j])) implies {
                    &&& rank(outbound_of(short[b]), names) <= rank(outbound_of(short[j]), names)
                    &&& j < b ==> rank(outbound_of(short[b]), names) < rank(
                        outbound_of(short[j]),
                        names,
                    )
                } by {
                    if j < n - 1 {
                        assert(outbound_of(prev[j]) == outbound_of(short[j]));
                    }
                }
                assert(is_best(short, names, b));
            }
            assert(usable(outbound_of(ifaces[b])));
        } else {
            assert forall|j: int| 0 <= j < n - 1 implies !usable(#[trigger] outbound_of(short[j])) by {
                assert(outbound_of(ifaces[j]) == outbound_of(short[j]));
            }
            if usable(last) {
                assert(is_best(short, names, n - 1));
                assert(usable(outbound_of(ifaces[n - 1])));
            }
        }
        if exists|i: int| is_best(short, names, i) {
            let b = choose|i: int| is_best(short, names, i);
            assert(usable(outbound_of(ifaces[b])));
        }
    }
}

fn rank_of(iface: &OutboundInterface, names: &Vec<Vec<char>>) -> (res: usize)
    requires
        names@.len() < 100,
    ensures
        res == rank(iface@, text::views(names@)),
{
    let name: Vec<char> = text::chars(iface.name.as_str());
    let ghost all = text::views(names@);
    let mut place: usize = names.len();
    let mut i: usize = 0;
    while i < names.len()
        invariant_except_break
            place == names@.len(),
        invariant
            i <= names@.len(),
            all == text::views(names@),
            all.len() == names@.len(),
            name@ == iface@.name,
            priority_place(all, iface@.name, 0) == priority_place(all, iface@.name, i as int),
        ensures
            place == priority_place(all, iface@.name, 0),
            place <= names@.len(),
        decreases names@.len() - i,
    {
        assert(all[i as int] == names@[i as int]@);
        if text::contains(&name, &names[i]) {
            place = i;
            break;
        }
        i = i + 1;
    }
    let global: bool = match iface.addr_v6 {
        Some(addr) => is_unicast_global(addr),
        None => false,
    };
    if global {
        2 * place
    } else {
        2 * place + 1
    }
}

/// The interfaces that the system reports, and what kind of system it is.
#[derive(Debug)]
pub struct Machine {
    pub interfaces: Vec<NetworkInterface>,
    pub platform: Platform,
}

/// The interface that connections leave by, among those that the system reports: the best usable
/// one, the first of equally good ones.
pub fn get_outbound_interface(ifaces: &Vec<NetworkInterface>, platform: Platform) -> (res: Option<
    OutboundInterface,
>)
    ensures
        opt_outbound(res) == outbound_interface(ifaces@, platform),
{
    let names: Vec<Vec<char>> = priority(platform);
    let ghost all = priority_names(platform);
    assert(names@.len() == all.len());
    let mut best: Option<OutboundInterface> = None;
    let mut best_rank: usize = 0;
    let ghost mut at: int = 0;
    let mut i: usize = 0;
    while i < ifaces.len()
        invariant
            i <= ifaces@.len(),
            names@.len() < 100,
            text::views(names@) == all,
            best is None ==> forall|j: int|
                0 <= j < i ==> !usable(#[trigger] outbound_of(ifaces@[j])),
            best matches Some(b) ==> {
                &&& 0 <= at < i
                &&& b@ == outbound_of(ifaces@[at])
                &&& usable(b@)
                &&& best_rank == rank(b@, all)
                &&& forall|j: int|
                    0 <= j < i && usable(#[trigger] outbound_of(ifaces@[j])) ==> {
                        &&& best_rank <= rank(outbound_of(ifaces@[j]), all)
                        &&& j < at ==> best_rank < rank(outbound_of(ifaces@[j]), all)
                    }
            },
        decreases ifaces@.len() - i,
    {
        let iface: OutboundInterface = OutboundInterface::from_interface(&ifaces[i]);
        if check_usable(&iface) {
            let r: usize = rank_of(&iface, &names);
            if best.is_none() || r < best_rank {
                best = Some(iface);
                best_rank = r;
                proof {
                    at = i as int;
                }
            }
        }
        i = i + 1;
    }
    proof {
        if best is Some {
            assert(is_best(ifaces@, all, at));
            law_best_is_unique(ifaces@, all, at, choose|i: int| is_best(ifaces@, all, i));
        } else if exists|i: int| is_best(ifaces@, all, i) {
            let b = choose|i: int| is_best(ifaces@, all, i);
            assert(usable(outbound_of(ifaces@[b])));
        }
    }
    best
}

/// Which interface connections leave by, unless told otherwise, and whether it was chosen by name.
pub struct NetConfig {
    default_interface: Option<OutboundInterface>,
    is_explicit: bool,
    somark: u64,
}

impl NetConfig {
    /// The interface that connections leave by.
    pub closed spec fn interface(&self) -> Option<OutboundView> {
        opt_outbound(self.default_interface)
    }

    /// The interface was chosen by name.
    pub closed spec fn explicit(&self) -> bool {
        self.is_explicit
    }

    /// The mark on connections.
    pub closed spec fn mark(&self) -> Option<u32> {
        stored_mark(self.somark)
    }

    /// Nothing is set.
    pub fn new() -> (res: NetConfig)
        ensures
            res.interface() is None,
            !res.explicit(),
            res.mark() is None,
    {
        NetConfig { default_interface: None, is_explicit: false, somark: 0 }
    }

    /// What is in force once the interface that was asked for by name, and the mark, are known.
    pub open spec fn configured(
        &self,
        ifaces: Seq<NetworkInterface>,
        platform: Platform,
        chosen: Option<Seq<char>>,
        mark: Option<u32>,
    ) -> bool {
        &&& self.mark() == mark
        &&& self.explicit() <==> chosen is Some && interface_named(ifaces, chosen.unwrap()) is Some
        &&& self.interface() == if self.explicit() {
            interface_named(ifaces, chosen.unwrap())
        } else {
            outbound_interface(ifaces, platform)
        }
    }

    /// What is in force once another interface has come up, and whether that is a change.
    pub open spec fn followed_by(&self, new_iface: OutboundView, after: NetConfig, changed: bool) -> bool {
        &&& changed <==> !self.explicit() && (self.interface() is None
            || self.interface().unwrap().name != new_iface.name || self.interface().unwrap().index
            != new_iface.index)
        &&& after.interface() == if changed {
            Some(new_iface)
        } else {
            self.interface()
        }
        &&& after.explicit() == self.explicit()
        &&& after.mark() == self.mark()
    }

    /// Sets the interface: the one that was chosen by name, where there is such an interface, else
    /// the best usable one.
    pub fn init_net_config(
        &mut self,
        ifaces: &Vec<NetworkInterface>,
        platform: Platform,
        explicit_iface: &Option<String>,
        tun_somark: Option<u32>,
    )
        ensures
            final(self).configured(ifaces@, platform, text::opt_view(*explicit_iface), tun_somark),
    {
        let matched: Option<OutboundInterface> = match explicit_iface {
            Some(name) => get_interface_by_name(ifaces, name.as_str()),
            None => None,
        };
        self.is_explicit = matched.is_some();
        self.default_interface = match matched {
            Some(iface) => Some(iface),
            None => get_outbound_interface(ifaces, platform),
        };
        self.somark = set_tun_somark(tun_somark);
    }

    /// Changes the interface that connections leave by, unless it was chosen by name or the new one
    /// has the same name and index. Tells whether it was changed.
    pub fn update_default_outbound_interface_if_changed(&mut self, new_iface: OutboundInterface) -> (res:
        bool)
        ensures
            old(self).followed_by(new_iface@, *final(self), res),
    {
        if self.is_explicit {
            return false;
        }
        let changed: bool = match &self.default_interface {
            Some(cur) => !text::same(cur.name.as_str(), new_iface.name.as_str()) || cur.index
                != new_iface.index,
            None => true,
        };
        if changed {
            self.default_interface = Some(new_iface);
        }
        changed
    }

    /// The interface that connections leave by.
    pub fn get_default_outbound_interface(&self) -> (res: Option<OutboundInterface>)
        ensures
            opt_outbound(res) == self.interface(),
    {
        match &self.default_interface {
            Some(iface) => Some(iface.copy()),
            None => None,
        }
    }

    /// The mark on connections.
    pub fn tun_somark(&self) -> (res: Option<u32>)
        ensures
            res == self.mark(),
    {
        get_tun_somark(self.somark)
    }
}

/// An interface as a configuration names it.
#[derive(Debug)]
pub enum Interface {
    IpAddr(IpAddr),
    Name(String),
}

impl Interface {
    /// The interface with that name.
    pub fn from_name(s: &str) -> (res: Interface)
        ensures
            res matches Interface::Name(name) && name@ == s@,
    {
        Interface::Name(s.to_owned())
    }

    /// The interface with that address.
    pub fn from_ip(addr: IpAddr) -> (res: Interface)
        ensures
            res == Interface::IpAddr(addr),
    {
        Interface::IpAddr(addr)
    }

    /// How the interface is written.
    pub fn as_text(&self) -> (res: String)
        ensures
            res@ == match *self {
                Interface::IpAddr(addr) => ip::ip_text(addr),
                Interface::Name(name) => name@,
            },
    {
        match self {
            Interface::IpAddr(addr) => write_ip(*addr),
            Interface::Name(name) => name.clone(),
        }
    }

    /// The address, if the interface is named by one.
    pub fn into_ip_addr(self) -> (res: Option<IpAddr>)
        ensures
            res == match self {
                Interface::IpAddr(addr) => Some(addr),
                Interface::Name(_) => None,
            },
    {
        match self {
            Interface::IpAddr(addr) => Some(addr),
            Interface::Name(_) => None,
        }
    }

    /// The address with port 0, if the interface is named by an address.
    pub fn into_socket_addr(self) -> (res: Option<(IpAddr, u16)>)
        ensures
            res == match self {
                Interface::IpAddr(addr) => Some((addr, 0u16)),
                Interface::Name(_) => None,
            },
    {
        match self {
            Interface::IpAddr(addr) => Some((addr, 0)),
            Interface::Name(_) => None,
        }
    }

    /// The name, if the interface is named by one.
    pub fn into_iface_name(self) -> (res: Option<String>)
        ensures
            res == match self {
                Interface::IpAddr(_) => None,
                Interface::Name(name) => Some(name),
            },
    {
        match self {
            Interface::IpAddr(_) => None,
            Interface::Name(name) => Some(name),
        }
    }
}

/// A mark is read back as it was set, zero among them; without a mark none is read.
pub proof fn law_mark_read_back(mark: u32)
    ensures
        stored_mark((mark + 0x1_0000_0000) as u64) == Some(mark),
        stored_mark(mark as u64) is None,
{
}

/// An IPv6 address is a global one unless it belongs to one of the networks that are not: multicast,
/// loopback, unspecified, link-local, unique local, documentation and benchmarking.
pub proof fn law_global_addresses(ip: u128)
    ensures
        v6_global(ip) <==> {
            &&& ip < 0xff00_0000_0000_0000_0000_0000_0000_0000
            &&& ip > 1
            &&& !(0xfe80_0000_0000_0000_0000_0000_0000_0000 <= ip
                < 0xfec0_0000_0000_0000_0000_0000_0000_0000)
            &&& !(0xfc00_0000_0000_0000_0000_0000_0000_0000 <= ip
                < 0xfe00_0000_0000_0000_0000_0000_0000_0000)
            &&& !(0x2001_0db8_0000_0000_0000_0000_0000_0000 <= ip
                < 0x2001_0db9_0000_0000_0000_0000_0000_0000)
            &&& !(0x3fff_0000_0000_0000_0000_0000_0000_0000 <= ip
                < 0x3fff_1000_0000_0000_0000_0000_0000_0000)
            &&& !(0x2001_0002_0000_0000_0000_0000_0000_0000 <= ip
                < 0x2001_0002_0001_0000_0000_0000_0000_0000)
        },
{
    assert((ip >> 120 == 0xff) == (ip >= 0xff00_0000_0000_0000_0000_0000_0000_0000)) by (bit_vector);
    assert((ip >> 118 == 0x3fa) == (0xfe80_0000_0000_0000_0000_0000_0000_0000 <= ip && ip
        < 0xfec0_0000_0000_0000_0000_0000_0000_0000)) by (bit_vector);
    assert((ip >> 121 == 0x7e) == (0xfc00_0000_0000_0000_0000_0000_0000_0000 <= ip && ip
        < 0xfe00_0000_0000_0000_0000_0000_0000_0000)) by (bit_vector);
    assert((ip >> 96 == 0x2001_0db8) == (0x2001_0db8_0000_0000_0000_0000_0000_0000 <= ip && ip
        < 0x2001_0db9_0000_0000_0000_0000_0000_0000)) by (bit_vector);
    assert((ip >> 108 == 0x3fff0) == (0x3fff_0000_0000_0000_0000_0000_0000_0000 <= ip && ip
        < 0x3fff_1000_0000_0000_0000_0000_0000_0000)) by (bit_vector);
    assert((ip >> 80 == 0x2001_0002_0000) == (0x2001_0002_0000_0000_0000_0000_0000_0000 <= ip && ip
        < 0x2001_0002_0001_0000_0000_0000_0000_0000)) by (bit_vector);
}

/// An interface has the first of its IPv4 addresses that does not lead back to the machine, with the
/// netmask and the broadcast address that go with it.
pub proof fn law_first_v4_counts(iface: NetworkInterface, i: int, a: V4IfAddr)
    requires
        0 <= i < iface.addr@.len(),
        iface.addr@[i] == Addr::V4(a),
        !(0x7f00_0000 <= a.ip <= 0x7fff_ffff),
        forall|k: int|
            0 <= k < i ==> ((#[trigger] iface.addr@[k]) matches Addr::V4(b) ==> 0x7f00_0000 <= b.ip
                <= 0x7fff_ffff),
    ensures
        outbound_of(iface).addr_v4 == Some(a.ip),
        outbound_of(iface).netmask_v4 == a.netmask,
        outbound_of(iface).broadcast_v4 == a.broadcast,
{
    lemma_first_v4(iface.addr@, 0, i);
}

proof fn lemma_first_v4(addrs: Seq<Addr>, from: int, i: int)
    requires
        0 <= from <= i < addrs.len(),
        addrs[i] matches Addr::V4(a) && !v4_loopback(a.ip),
        forall|k: int|
            from <= k < i ==> ((#[trigger] addrs[k]) matches Addr::V4(b) ==> v4_loopback(b.ip)),
    ensures
        first_v4(addrs, from) == Some(addrs[i]->V4_0),
    decreases i - from,
{
    if from < i {
        assert(addrs[from] matches Addr::V4(b) ==> v4_loopback(b.ip));
        lemma_first_v4(addrs, from + 1, i);
    }
}

/// An interface has the first of its IPv6 addresses that does not lead back to the machine, with the
/// netmask and the broadcast address that go with it.
pub proof fn law_first_v6_counts(iface: NetworkInterface, i: int, a: V6IfAddr)
    requires
        0 <= i < iface.addr@.len(),
        iface.addr@[i] == Addr::V6(a),
        a.ip != 1,
        forall|k: int|
            0 <= k < i ==> ((#[trigger] iface.addr@[k]) matches Addr::V6(b) ==> b.ip == 1),
    ensures
        outbound_of(iface).addr_v6 == Some(a.ip),
        outbound_of(iface).netmask_v6 == a.netmask,
        outbound_of(iface).broadcast_v6 == a.broadcast,
{
    lemma_first_v6(iface.addr@, 0, i);
}

proof fn lemma_first_v6(addrs: Seq<Addr>, from: int, i: int)
    requires
        0 <= from <= i < addrs.len(),
        addrs[i] matches Addr::V6(a) && a.ip != 1,
        forall|k: int| from <= k < i ==> ((#[trigger] addrs[k]) matches Addr::V6(b) ==> b.ip == 1),
    ensures
        first_v6(addrs, from) == Some(addrs[i]->V6_0),
    decreases i - from,
{
    if from < i {
        assert(addrs[from] matches Addr::V6(b) ==> b.ip == 1);
        lemma_first_v6(addrs, from + 1, i);
    }
}

/// An interface without any address but loopback ones has none to leave by, and is not usable.
pub proof fn law_loopback_is_no_address(iface: NetworkInterface)
    requires
        forall|k: int|
            0 <= k < iface.addr@.len() ==> match #[trigger] iface.addr@[k] {
                Addr::V4(a) => 0x7f00_0000 <= a.ip <= 0x7fff_ffff,
                Addr::V6(a) => a.ip == 1,
            },
    ensures
        outbound_of(iface).addr_v4 is None,
        outbound_of(iface).addr_v6 is None,
        !usable(outbound_of(iface)),
{
    lemma_no_address(iface.addr@, 0);
}

proof fn lemma_no_address(addrs: Seq<Addr>, from: int)
    requires
        0 <= from <= addrs.len(),
        forall|k: int|
            from <= k < addrs.len() ==> match #[trigger] addrs[k] {
                Addr::V4(a) => v4_loopback(a.ip),
                Addr::V6(a) => a.ip == 1,
            },
    ensures
        first_v4(addrs, from) is None,
        first_v6(addrs, from) is None,
    decreases addrs.len() - from,
{
    if from < addrs.len() {
        assert(addrs[from] matches Addr::V4(a) ==> v4_loopback(a.ip));
        assert(addrs[from] matches Addr::V6(a) ==> a.ip == 1);
        lemma_no_address(addrs, from + 1);
    }
}

/// Connections never leave by a tunnel, a bridge, a container's interface, a dummy, the loopback or
/// an interface to the local network; any other interface with an address will do.
pub proof fn law_what_is_usable(iface: OutboundView)
    ensures
        text::has_part(iface.name, "tun"@) ==> !usable(iface),
        text::has_part(iface.name, "dummy"@) ==> !usable(iface),
        text::has_prefix(iface.name, "br-"@) ==> !usable(iface),
        text::has_prefix(iface.name, "docker"@) ==> !usable(iface),
        text::has_prefix(iface.name, "veth"@) ==> !usable(iface),
        text::has_prefix(iface.name, "lo"@) ==> !usable(iface),
        text::has_prefix(iface.name, "lan"@) ==> !usable(iface),
        text::has_suffix(iface.name, "-lan"@) ==> !usable(iface),
        iface.addr_v4 is None && iface.addr_v6 is None ==> !usable(iface),
        !text::has_part(iface.name, "tun"@) && !text::has_part(iface.name, "dummy"@)
            && !text::has_prefix(iface.name, "br-"@) && !text::has_prefix(iface.name, "docker"@)
            && !text::has_prefix(iface.name, "veth"@) && !text::has_prefix(iface.name, "lo"@)
            && !text::has_prefix(iface.name, "lan"@) && !text::has_suffix(iface.name, "-lan"@) && (
        iface.addr_v4 is Some || iface.addr_v6 is Some) ==> usable(iface),
{
}

proof fn lemma_priority_place(names: Seq<Seq<char>>, name: Seq<char>, from: int)
    requires
        0 <= from <= names.len(),
    ensures
        from <= priority_place(names, name, from) <= names.len(),
        priority_place(names, name, from) < names.len() ==> text::has_part(
            name,
            names[priority_place(names, name, from)],
        ),
        forall|k: int|
            from <= k < priority_place(names, name, from) ==> !text::has_part(
                name,
                #[trigger] names[k],
            ),
    decreases names.len() - from,
{
    if from < names.len() && !text::has_part(name, names[from]) {
        lemma_priority_place(names, name, from + 1);
    }
}

/// Connections leave by a usable interface of the machine wherever there is one. No other usable
/// interface bears a name that the platform prefers to all the names that the chosen one bears, and
/// where it bears an equally good one it does not have a global IPv6 address while the chosen one
/// has none.
pub proof fn law_preferred_interface(
    ifaces: Seq<NetworkInterface>,
    platform: Platform,
    j: int,
    k: int,
)
    requires
        0 <= j < ifaces.len(),
        usable(outbound_of(ifaces[j])),
        0 <= k < priority_names(platform).len(),
        text::has_part(ifaces[j].name@, priority_names(platform)[k]),
        forall|m: int|
            0 <= m < k ==> !text::has_part(ifaces[j].name@, #[trigger] priority_names(platform)[m]),
    ensures
        ({
            let names = priority_names(platform);
            &&& outbound_interface(ifaces, platform) matches Some(best)
            &&& usable(best)
            &&& exists|i: int| 0 <= i < ifaces.len() && best == #[trigger] outbound_of(ifaces[i])
            &&& exists|m: int| 0 <= m <= k && text::has_part(best.name, #[trigger] names[m])
            &&& (outbound_of(ifaces[j]).addr_v6 matches Some(a) && v6_global(a)) && !(
            best.addr_v6 matches Some(b) && v6_global(b)) ==> exists|m: int|
                0 <= m < k && text::has_part(best.name, #[trigger] names[m])
        }),
{
    let names = priority_names(platform);
    law_usable_has_best(ifaces, names, ifaces.len() as int);
    assert(ifaces.take(ifaces.len() as int) =~= ifaces);
    assert(usable(outbound_of(ifaces[j])));
    let i = choose|i: int| is_best(ifaces, names, i);
    let best = outbound_of(ifaces[i]);
    assert(outbound_interface(ifaces, platform) == Some(best));
    lemma_priority_place(names, ifaces[j].name@, 0);
    lemma_priority_place(names, best.name, 0);
    let p = priority_place(names, best.name, 0);
    assert(priority_place(names, ifaces[j].name@, 0) == k);
    assert(rank(best, names) <= rank(outbound_of(ifaces[j]), names));
    assert(p <= k);
    assert(text::has_part(best.name, names[p]));
}

/// Where nothing is usable, connections leave by no interface.
pub proof fn law_no_usable_interface(ifaces: Seq<NetworkInterface>, platform: Platform)
    requires
        forall|j: int| 0 <= j < ifaces.len() ==> !usable(#[trigger] outbound_of(ifaces[j])),
    ensures
        outbound_interface(ifaces, platform) is None,
{
    if exists|i: int| is_best(ifaces, priority_names(platform), i) {
        let i = choose|i: int| is_best(ifaces, priority_names(platform), i);
        assert(!usable(outbound_of(ifaces[i])));
    }
}

proof fn lemma_named_place(ifaces: Seq<NetworkInterface>, name: Seq<char>, from: int)
    requires
        0 <= from <= ifaces.len(),
    ensures
        from <= named_place(ifaces, name, from) <= ifaces.len(),
        named_place(ifaces, name, from) < ifaces.len() ==> ifaces[named_place(
            ifaces,
            name,
            from,
        )].name@ == name,
        forall|k: int|
            from <= k < named_place(ifaces, name, from) ==> (#[trigger] ifaces[k]).name@ != name,
    decreases ifaces.len() - from,
{
    if from < ifaces.len() && ifaces[from].name@ != name {
        lemma_named_place(ifaces, name, from + 1);
    }
}

/// An interface that was asked for by name is used where the machine has it, usable or not. Where it
/// has none of that name, or none was asked for, the best usable one is used.
pub proof fn law_named_interface_is_used(
    net: NetConfig,
    ifaces: Seq<NetworkInterface>,
    platform: Platform,
    chosen: Option<Seq<char>>,
    mark: Option<u32>,
    i: int,
)
    requires
        net.configured(ifaces, platform, chosen, mark),
        0 <= i < ifaces.len(),
    ensures
        net.mark() == mark,
        chosen == Some(ifaces[i].name@) ==> net.explicit() && net.interface() is Some
            && net.interface().unwrap().name == ifaces[i].name@,
        chosen is None ==> !net.explicit() && net.interface() == outbound_interface(
            ifaces,
            platform,
        ),
        chosen is Some && (forall|k: int|
            0 <= k < ifaces.len() ==> (#[trigger] ifaces[k]).name@ != chosen.unwrap()) ==> !net.explicit()
            && net.interface() == outbound_interface(ifaces, platform),
{
    if chosen is Some {
        lemma_named_place(ifaces, chosen.unwrap(), 0);
    }
}

/// An interface that was asked for by name stays, whatever comes up. Any other gives way to one with
/// another name or another index, and to no other one.
pub proof fn law_named_interface_stays(
    net: NetConfig,
    new_iface: OutboundView,
    after: NetConfig,
    changed: bool,
)
    requires
        net.followed_by(new_iface, after, changed),
    ensures
        net.explicit() ==> !changed && after.interface() == net.interface(),
        !net.explicit() && net.interface() is None ==> changed && after.interface() == Some(
            new_iface,
        ),
        !net.explicit() ==> (net.interface() matches Some(now) ==> (if now.name == new_iface.name
            && now.index == new_iface.index {
            !changed && after.interface() == Some(now)
        } else {
            changed && after.interface() == Some(new_iface)
        })),
        after.explicit() == net.explicit(),
        after.mark() == net.mark(),
{
}

} // verus!
