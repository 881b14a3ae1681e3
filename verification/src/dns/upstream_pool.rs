//! Servers: how each is reached, what is sent to it, and what is handed back.
use vstd::prelude::*;

use crate::dns::config::EdnsClientSubnet;
use crate::dns::ecs;
use crate::dns::ecs::{EcsQuery, EcsWireError};
use crate::dns::endpoint;
use crate::dns::endpoint::{DnsEndpoint, DnsProtocol, DnsStrategy, EndpointError, EndpointView};
use crate::dns::nameserver::{DNSNetMode, NameServer, NameServerView};
use crate::dns::rule_dispatch::Network;
use crate::dns::wire::slice_to_vec;
use crate::ip::{IpAddr, SocketAddr};
use crate::net;
use crate::net::{OutboundInterface, OutboundView};
use crate::text;

verus! {

/// The address is one of version 6.
pub open spec fn is_v6(addr: SocketAddr) -> bool {
    addr.ip is V6
}

fn check_v6(addr: &SocketAddr) -> (res: bool)
    ensures
        res == is_v6(*addr),
{
    match addr.ip {
        IpAddr::V4(_) => false,
        IpAddr::V6(_) => true,
    }
}

/// Sockets to a server: which outbound they go through, their version, the address, and the number
/// of the pool.
#[derive(Debug)]
struct UdpSlot {
    outbound: Option<String>,
    v6: bool,
    address: SocketAddr,
    pool: u64,
}

/// Sockets to a server.
pub struct SlotView {
    pub outbound: Option<Seq<char>>,
    pub v6: bool,
    pub address: SocketAddr,
    pub pool: u64,
}

spec fn slot_view(s: UdpSlot) -> SlotView {
    SlotView { outbound: text::opt_view(s.outbound), v6: s.v6, address: s.address, pool: s.pool }
}

/// The sockets to a server, and the address that answered last.
#[verifier::ext_equal]
pub struct UdpView {
    pub current: Option<SocketAddr>,
    pub pools: Seq<SlotView>,
}

/// The place of the first sockets through an outbound, of a version, from `from` on.
pub open spec fn slot_place(pools: Seq<SlotView>, outbound: Option<Seq<char>>, v6: bool, from: int) -> int
    decreases pools.len() - from,
{
    if from < 0 || from >= pools.len() || (pools[from].outbound == outbound && pools[from].v6 == v6) {
        from
    } else {
        slot_place(pools, outbound, v6, from + 1)
    }
}

impl UdpView {
    /// The pool for an address through an outbound, where there is one.
    pub open spec fn pool_for(&self, address: SocketAddr, outbound: Option<Seq<char>>) -> Option<u64> {
        let at = slot_place(self.pools, outbound, is_v6(address), 0);
        if at < self.pools.len() && self.pools[at].address == address {
            Some(self.pools[at].pool)
        } else {
            None
        }
    }

    /// The sockets with a new pool in place of that for another address. The address that answered
    /// last is forgotten where it is of the same version.
    pub open spec fn with_pool(
        &self,
        address: SocketAddr,
        outbound: Option<Seq<char>>,
        pool: u64,
    ) -> UdpView {
        let at = slot_place(self.pools, outbound, is_v6(address), 0);
        let slot = SlotView { outbound, v6: is_v6(address), address, pool };
        UdpView {
            current: match self.current {
                Some(cur) if is_v6(cur) == is_v6(address) => None,
                other => other,
            },
            pools: if at < self.pools.len() {
                self.pools.update(at, slot)
            } else {
                self.pools.push(slot)
            },
        }
    }
}

/// The sockets to a server, and the address that answered last.
#[derive(Debug)]
pub struct UdpState {
    current: Option<SocketAddr>,
    pools: Vec<UdpSlot>,
}

impl View for UdpState {
    type V = UdpView;

    closed spec fn view(&self) -> UdpView {
        UdpView {
            current: self.current,
            pools: self.pools@.map_values(|s: UdpSlot| slot_view(s)),
        }
    }
}

fn same_opt(a: &Option<String>, b: &Option<String>) -> (res: bool)
    ensures
        res == (text::opt_view(*a) == text::opt_view(*b)),
{
    match (a, b) {
        (Some(x), Some(y)) => text::same(x.as_str(), y.as_str()),
        (None, None) => true,
        _ => false,
    }
}

impl UdpState {
    /// No sockets.
    pub fn new() -> (res: UdpState)
        ensures
            res@ == (UdpView { current: None, pools: Seq::empty() }),
    {
        let res = UdpState { current: None, pools: Vec::new() };
        assert(res@.pools =~= Seq::empty());
        res
    }

    fn find(&self, outbound: &Option<String>, v6: bool) -> (res: usize)
        ensures
            res == slot_place(self@.pools, text::opt_view(*outbound), v6, 0),
            res <= self.pools@.len(),
    {
        let ghost out = text::opt_view(*outbound);
        let mut i: usize = 0;
        while i < self.pools.len()
            invariant
                i <= self.pools@.len(),
                out == text::opt_view(*outbound),
                slot_place(self@.pools, out, v6, 0) == slot_place(self@.pools, out, v6, i as int),
            decreases self.pools@.len() - i,
        {
            assert(self@.pools[i as int] == slot_view(self.pools@[i as int]));
            if self.pools[i].v6 == v6 && same_opt(&self.pools[i].outbound, outbound) {
                return i;
            }
            i = i + 1;
        }
        i
    }

    /// The address that answered last.
    pub fn current(&self) -> (res: Option<SocketAddr>)
        ensures
            res == self@.current,
    {
        self.current
    }

    /// The pool for an address through an outbound, where there is one.
    pub fn get(&self, address: SocketAddr, outbound: &Option<String>) -> (res: Option<u64>)
        ensures
            res == self@.pool_for(address, text::opt_view(*outbound)),
    {
        let at: usize = self.find(outbound, check_v6(&address));
        if at < self.pools.len() {
            assert(self@.pools[at as int] == slot_view(self.pools@[at as int]));
            if self.pools[at].address == address {
                return Some(self.pools[at].pool);
            }
        }
        None
    }

    /// The address that answered last and its pool, where it is still there.
    pub fn current_pool(&self, outbound: &Option<String>) -> (res: Option<(SocketAddr, u64)>)
        ensures
            res == match self@.current {
                Some(cur) => match self@.pool_for(cur, text::opt_view(*outbound)) {
                    Some(pool) => Some((cur, pool)),
                    None => None,
                },
                None => None,
            },
    {
        let cur: SocketAddr = match self.current {
            Some(cur) => cur,
            None => return None,
        };
        match self.get(cur, outbound) {
            Some(pool) => Some((cur, pool)),
            None => None,
        }
    }

    /// Takes note that an address has answered, where its pool is still there.
    pub fn mark_current(&mut self, address: SocketAddr, outbound: &Option<String>)
        ensures
            final(self)@.pools == old(self)@.pools,
            final(self)@.current == if old(self)@.pool_for(
                address,
                text::opt_view(*outbound),
            ) is Some {
                Some(address)
            } else {
                old(self)@.current
            },
    {
        if self.get(address, outbound).is_some() {
            self.current = Some(address);
        }
    }

    /// Offers a new pool for an address. One that another caller brought meanwhile is used in its
    /// place; the new one is then of no use.
    pub fn offer(&mut self, address: SocketAddr, outbound: &Option<String>, candidate: u64) -> (res: (
        u64,
        bool,
    ))
        ensures
            match old(self)@.pool_for(address, text::opt_view(*outbound)) {
                Some(pool) => res == (pool, true) && final(self)@ == old(self)@,
                None => res == (candidate, false) && final(self)@ == old(self)@.with_pool(
                    address,
                    text::opt_view(*outbound),
                    candidate,
                ),
            },
    {
        match self.get(address, outbound) {
            Some(pool) => return (pool, true),
            None => {},
        }
        let v6: bool = check_v6(&address);
        let at: usize = self.find(outbound, v6);
        let ghost before = self@;
        let slot = UdpSlot { outbound: text::copy_opt(outbound), v6, address, pool: candidate };
        let ghost view = slot_view(slot);
        match self.current {
            Some(cur) => {
                if check_v6(&cur) == v6 {
                    self.current = None;
                }
            },
            None => {},
        }
        if at < self.pools.len() {
            self.pools.set(at, slot);
            assert(self@.pools =~= before.pools.update(at as int, view));
        } else {
            self.pools.push(slot);
            assert(self@.pools =~= before.pools.push(view));
        }
        (candidate, false)
    }

    /// Gives every pool up.
    pub fn take_pools(&mut self) -> (res: Vec<u64>)
        ensures
            res@ == old(self)@.pools.map_values(|s: SlotView| s.pool),
            final(self)@ == (UdpView { pools: Seq::empty(), ..old(self)@ }),
    {
        let mut out: Vec<u64> = Vec::new();
        let ghost all = self@.pools;
        let mut i: usize = 0;
        while i < self.pools.len()
            invariant
                i <= self.pools@.len(),
                all == self@.pools,
                all.len() == self.pools@.len(),
                out@ == all.map_values(|s: SlotView| s.pool).take(i as int),
                self@ == old(self)@,
            decreases self.pools@.len() - i,
        {
            assert(all[i as int] == slot_view(self.pools@[i as int]));
            out.push(self.pools[i].pool);
            i = i + 1;
            assert(out@ =~= all.map_values(|s: SlotView| s.pool).take(i as int));
        }
        assert(out@ =~= all.map_values(|s: SlotView| s.pool));
        self.pools = Vec::new();
        assert(self@.pools =~= Seq::empty());
        out
    }
}

/// Why a server cannot be used.
#[derive(Clone, Copy, Debug, PartialEq, Eq, Structural)]
pub enum UpstreamError {
    /// Servers from DHCP are not supported.
    Dhcp,
    /// The address cannot be read.
    Address(EndpointError),
}

/// How a server is spoken to; `None` for servers from DHCP.
pub open spec fn protocol_of(mode: DNSNetMode) -> Option<DnsProtocol> {
    match mode {
        DNSNetMode::Udp => Some(DnsProtocol::Udp),
        DNSNetMode::Tcp => Some(DnsProtocol::Tcp),
        DNSNetMode::Tls => Some(DnsProtocol::Tls),
        DNSNetMode::Https => Some(DnsProtocol::Https),
        DNSNetMode::Dhcp => None,
        DNSNetMode::Quic => Some(DnsProtocol::Quic),
        DNSNetMode::H3 => Some(DnsProtocol::H3),
    }
}

/// The port is written out: it is none of the usual ones.
pub open spec fn writes_port(port: u16) -> bool {
    port != 0 && port != 53 && port != 443 && port != 853
}

/// The address of a server as text.
pub open spec fn address_text(ns: NameServerView) -> Seq<char> {
    let host = if writes_port(ns.port) {
        ns.host.text() + ":"@ + text::number_text(ns.port as nat)
    } else {
        ns.host.text()
    };
    match ns.path {
        Some(path) => host + path,
        None => host,
    }
}

/// A server.
pub struct UpstreamEntry {
    pub name: String,
    pub protocol: DnsProtocol,
    pub endpoint: DnsEndpoint,
    pub outbound: Option<String>,
    pub interface: Option<OutboundInterface>,
    pub ecs: Option<EdnsClientSubnet>,
    pub udp: UdpState,
}

/// The endpoint is what an address says.
pub open spec fn endpoint_is(e: DnsEndpoint, view: EndpointView) -> bool {
    &&& e.host@ == view.host
    &&& e.port == view.port
    &&& e.path@ == view.path
    &&& e.sni@ == view.sni
    &&& e.strategy == DnsStrategy::PreferIpv4
}

/// What a server is, or why it cannot be used.
pub open spec fn entry_of(ns: NameServerView) -> Result<(DnsProtocol, EndpointView), UpstreamError> {
    match protocol_of(ns.net) {
        None => Err(UpstreamError::Dhcp),
        Some(protocol) => match endpoint::endpoint_of(address_text(ns), protocol, None) {
            Ok(view) => Ok((protocol, view)),
            Err(e) => Err(UpstreamError::Address(e)),
        },
    }
}

impl UpstreamEntry {
    /// A server that a configuration names.
    pub fn from_nameserver(ns: &NameServer) -> (res: Result<UpstreamEntry, UpstreamError>)
        ensures
            match (res, entry_of(ns@)) {
                (Ok(entry), Ok((protocol, view))) => {
                    &&& entry.name@ == ns@.text()
                    &&& entry.protocol == protocol
                    &&& endpoint_is(entry.endpoint, view)
                    &&& text::opt_view(entry.outbound) == ns@.proxy
                    &&& net::opt_outbound(entry.interface) == ns@.interface
                    &&& entry.ecs is None
                    &&& entry.udp@ == (UdpView { current: None, pools: Seq::empty() })
                },
                (Err(e), Err(f)) => e == f,
                _ => false,
            },
    {
        let protocol: DnsProtocol = match ns.net {
            DNSNetMode::Udp => DnsProtocol::Udp,
            DNSNetMode::Tcp => DnsProtocol::Tcp,
            DNSNetMode::Tls => DnsProtocol::Tls,
            DNSNetMode::Https => DnsProtocol::Https,
            DNSNetMode::Dhcp => return Err(UpstreamError::Dhcp),
            DNSNetMode::Quic => DnsProtocol::Quic,
            DNSNetMode::H3 => DnsProtocol::H3,
        };
        let mut addr: Vec<char> = ns.host.as_chars();
        if ns.port != 0 && ns.port != 53 && ns.port != 443 && ns.port != 853 {
            text::append(&mut addr, &text::chars(":"));
            text::append(&mut addr, &text::write_number(ns.port as u64));
        }
        match &ns.path {
            Some(path) => {
                text::append(&mut addr, &text::chars(path.as_str()));
            },
            None => {},
        }
        let endpoint: DnsEndpoint = match DnsEndpoint::parse(
            text::text(&addr).as_str(),
            protocol,
            &None,
            DnsStrategy::PreferIpv4,
        ) {
            Ok(endpoint) => endpoint,
            Err(e) => return Err(UpstreamError::Address(e)),
        };
        Ok(
            UpstreamEntry {
                name: ns.as_text(),
                protocol,
                endpoint,
                outbound: text::copy_opt(&ns.proxy),
                interface: match &ns.interface {
                    Some(iface) => Some(iface.copy()),
                    None => None,
                },
                ecs: None,
                udp: UdpState::new(),
            },
        )
    }
}

/// A server.
pub struct EntryView {
    pub name: Seq<char>,
    pub protocol: DnsProtocol,
    pub endpoint: EndpointView,
    pub outbound: Option<Seq<char>>,
    pub interface: Option<OutboundView>,
    pub ecs: Option<EdnsClientSubnet>,
    pub strategy: DnsStrategy,
    pub udp: UdpView,
}

/// The server as it is known.
pub open spec fn entry_view(entry: UpstreamEntry) -> EntryView {
    EntryView {
        name: entry.name@,
        protocol: entry.protocol,
        endpoint: EndpointView {
            host: entry.endpoint.host@,
            port: entry.endpoint.port,
            path: entry.endpoint.path@,
            sni: entry.endpoint.sni@,
        },
        outbound: text::opt_view(entry.outbound),
        interface: net::opt_outbound(entry.interface),
        ecs: entry.ecs,
        strategy: entry.endpoint.strategy,
        udp: entry.udp@,
    }
}

/// A server that a configuration names, through an outbound and with a client subnet, before it was
/// spoken to; `None` when it cannot be used.
pub open spec fn made_entry(
    ns: NameServerView,
    outbound: Option<Seq<char>>,
    ecs: Option<EdnsClientSubnet>,
) -> Option<EntryView> {
    match entry_of(ns) {
        Ok((protocol, endpoint)) => Some(
            EntryView {
                name: ns.text(),
                protocol,
                endpoint,
                outbound,
                interface: ns.interface,
                ecs,
                strategy: DnsStrategy::PreferIpv4,
                udp: UdpView { current: None, pools: Seq::empty() },
            },
        ),
        Err(_) => None,
    }
}

/// A server and its key.
pub struct KeyedEntry {
    pub key: String,
    pub entry: UpstreamEntry,
}

/// Servers by their keys.
pub struct UpstreamTable {
    pub entries: Vec<KeyedEntry>,
}

/// The place of the first server with a key, from `from` on.
pub open spec fn table_place(table: Seq<(Seq<char>, EntryView)>, key: Seq<char>, from: int) -> int
    decreases table.len() - from,
{
    if from < 0 || from >= table.len() || table[from].0 == key {
        from
    } else {
        table_place(table, key, from + 1)
    }
}

/// The table has a server with the key.
pub open spec fn table_has(table: Seq<(Seq<char>, EntryView)>, key: Seq<char>) -> bool {
    table_place(table, key, 0) < table.len()
}

/// The table with a server under a key, unless it has one already or the server cannot be used.
pub open spec fn table_with(
    table: Seq<(Seq<char>, EntryView)>,
    key: Seq<char>,
    ns: NameServerView,
    outbound: Option<Seq<char>>,
    ecs: Option<EdnsClientSubnet>,
) -> Seq<(Seq<char>, EntryView)> {
    if table_has(table, key) {
        table
    } else {
        match made_entry(ns, outbound, ecs) {
            Some(entry) => table.push((key, entry)),
            None => table,
        }
    }
}

impl UpstreamTable {
    /// The servers and their keys.
    pub open spec fn view(&self) -> Seq<(Seq<char>, EntryView)> {
        self.entries@.map_values(|e: KeyedEntry| (e.key@, entry_view(e.entry)))
    }

    /// No servers.
    pub fn new() -> (res: UpstreamTable)
        ensures
            res@ == Seq::<(Seq<char>, EntryView)>::empty(),
    {
        let res = UpstreamTable { entries: Vec::new() };
        assert(res@ =~= Seq::empty());
        res
    }

    /// The place of the server with a key.
    pub fn find(&self, key: &str) -> (res: Option<usize>)
        ensures
            match res {
                Some(i) => i == table_place(self@, key@, 0) && i < self@.len(),
                None => !table_has(self@, key@),
            },
    {
        let mut i: usize = 0;
        while i < self.entries.len()
            invariant
                i <= self.entries@.len(),
                table_place(self@, key@, 0) == table_place(self@, key@, i as int),
            decreases self.entries@.len() - i,
        {
            assert(self@[i as int].0 == self.entries@[i as int].key@);
            if text::same(self.entries[i].key.as_str(), key) {
                return Some(i);
            }
            i = i + 1;
        }
        None
    }

    /// Puts a server in under a key, unless there is one already. Tells whether there is one then.
    pub fn register(
        &mut self,
        key: &str,
        ns: &NameServer,
        outbound: &Option<String>,
        ecs: &Option<EdnsClientSubnet>,
    ) -> (res: bool)
        ensures
            final(self)@ == table_with(old(self)@, key@, ns@, text::opt_view(*outbound), *ecs),
            res == table_has(final(self)@, key@),
    {
        if self.find(key).is_some() {
            return true;
        }
        match UpstreamEntry::from_nameserver(ns) {
            Ok(made) => {
                let mut entry: UpstreamEntry = made;
                entry.outbound = text::copy_opt(outbound);
                entry.ecs = *ecs;
                let ghost before = self@;
                let ghost view = entry_view(entry);
                self.entries.push(KeyedEntry { key: key.to_owned(), entry });
                assert(self@ =~= before.push((key@, view)));
                proof {
                    lemma_table_push(before, key@, view);
                }
                true
            },
            Err(_) => false,
        }
    }
}

proof fn lemma_table_push(table: Seq<(Seq<char>, EntryView)>, key: Seq<char>, entry: EntryView)
    requires
        !table_has(table, key),
    ensures
        table_has(table.push((key, entry)), key),
{
    lemma_table_place_push(table, key, entry, 0);
}

proof fn lemma_table_place_push(
    table: Seq<(Seq<char>, EntryView)>,
    key: Seq<char>,
    entry: EntryView,
    from: int,
)
    requires
        0 <= from <= table.len(),
    ensures
        table_place(table.push((key, entry)), key, from) <= table.len(),
    decreases table.len() - from,
{
    if from < table.len() {
        lemma_table_place_push(table, key, entry, from + 1);
    }
}

/// The place of the first address from `from` on that is of the other version than `first`.
pub open spec fn other_version(addresses: Seq<SocketAddr>, first: SocketAddr, from: int) -> int
    decreases addresses.len() - from,
{
    if from < 0 || from >= addresses.len() || is_v6(addresses[from]) != is_v6(first) {
        from
    } else {
        other_version(addresses, first, from + 1)
    }
}

/// The place of the first address from `from` on that is another one than `first`.
pub open spec fn other_address(addresses: Seq<SocketAddr>, first: SocketAddr, from: int) -> int
    decreases addresses.len() - from,
{
    if from < 0 || from >= addresses.len() || addresses[from] != first {
        from
    } else {
        other_address(addresses, first, from + 1)
    }
}

/// The two addresses that are tried: the one that answered last, else the first; then one of the
/// other version, else another one, else the same again. `None` when there is no address.
pub open spec fn attempts(addresses: Seq<SocketAddr>, current: Option<SocketAddr>) -> Option<
    (SocketAddr, SocketAddr),
> {
    if addresses.len() == 0 {
        None
    } else {
        let first = match current {
            Some(cur) if addresses.contains(cur) => cur,
            _ => addresses[0],
        };
        let v = other_version(addresses, first, 0);
        let o = other_address(addresses, first, 0);
        if v < addresses.len() {
            Some((first, addresses[v]))
        } else if o < addresses.len() {
            Some((first, addresses[o]))
        } else {
            Some((first, first))
        }
    }
}

/// The two addresses that are tried.
pub fn udp_attempt_addresses(addresses: &Vec<SocketAddr>, current: Option<SocketAddr>) -> (res: Option<
    (SocketAddr, SocketAddr),
>)
    ensures
        res == attempts(addresses@, current),
{
    if addresses.len() == 0 {
        return None;
    }
    let mut first: SocketAddr = addresses[0];
    match current {
        Some(cur) => {
            let mut i: usize = 0;
            while i < addresses.len()
                invariant
                    0 < addresses@.len(),
                    i <= addresses@.len(),
                    current == Some(cur),
                    forall|j: int| 0 <= j < i ==> addresses@[j] != cur,
                    first == addresses@[0],
                ensures
                    first == if addresses@.contains(cur) {
                        cur
                    } else {
                        addresses@[0]
                    },
                decreases addresses@.len() - i,
            {
                if addresses[i] == cur {
                    assert(addresses@.contains(cur));
                    return Some((cur, second_address(addresses, cur)));
                }
                i = i + 1;
            }
        },
        None => {},
    }
    Some((first, second_address(addresses, first)))
}

fn second_address(addresses: &Vec<SocketAddr>, first: SocketAddr) -> (res: SocketAddr)
    ensures
        res == ({
            let v = other_version(addresses@, first, 0);
            let o = other_address(addresses@, first, 0);
            if v < addresses@.len() {
                addresses@[v]
            } else if o < addresses@.len() {
                addresses@[o]
            } else {
                first
            }
        }),
{
    let v6: bool = check_v6(&first);
    let mut i: usize = 0;
    while i < addresses.len()
        invariant
            i <= addresses@.len(),
            v6 == is_v6(first),
            other_version(addresses@, first, 0) == other_version(addresses@, first, i as int),
        decreases addresses@.len() - i,
    {
        if check_v6(&addresses[i]) != v6 {
            return addresses[i];
        }
        i = i + 1;
    }
    let mut k: usize = 0;
    while k < addresses.len()
        invariant
            k <= addresses@.len(),
            other_version(addresses@, first, 0) >= addresses@.len(),
            other_address(addresses@, first, 0) == other_address(addresses@, first, k as int),
        decreases addresses@.len() - k,
    {
        if addresses[k] != first {
            return addresses[k];
        }
        k = k + 1;
    }
    first
}

/// Both addresses that are tried are addresses of the server, and where it has addresses of both
/// versions, one of each is tried.
pub proof fn law_both_versions_tried(addresses: Seq<SocketAddr>, current: Option<SocketAddr>)
    requires
        addresses.len() > 0,
    ensures
        attempts(addresses, current) is Some,
        addresses.contains(attempts(addresses, current).unwrap().0),
        addresses.contains(attempts(addresses, current).unwrap().1),
        (exists|i: int, j: int|
            0 <= i < addresses.len() && 0 <= j < addresses.len() && is_v6(#[trigger] addresses[i])
                && !is_v6(#[trigger] addresses[j])) ==> is_v6(
            attempts(addresses, current).unwrap().0,
        ) != is_v6(attempts(addresses, current).unwrap().1),
{
    let first = match current {
        Some(cur) if addresses.contains(cur) => cur,
        _ => addresses[0],
    };
    lemma_other_version(addresses, first, 0);
    lemma_other_address(addresses, first, 0);
    assert(addresses.contains(first)) by {
        assert(addresses.contains(addresses[0]));
    }
    let v = other_version(addresses, first, 0);
    if v >= addresses.len() {
        assert forall|i: int| 0 <= i < addresses.len() implies is_v6(#[trigger] addresses[i])
            == is_v6(first) by {}
    }
}

proof fn lemma_other_version(addresses: Seq<SocketAddr>, first: SocketAddr, from: int)
    requires
        0 <= from <= addresses.len(),
    ensures
        from <= other_version(addresses, first, from) <= addresses.len(),
        forall|i: int|
            from <= i < other_version(addresses, first, from) ==> is_v6(#[trigger] addresses[i])
                == is_v6(first),
        other_version(addresses, first, from) < addresses.len() ==> is_v6(
            addresses[other_version(addresses, first, from)],
        ) != is_v6(first),
    decreases addresses.len() - from,
{
    if from < addresses.len() && is_v6(addresses[from]) == is_v6(first) {
        lemma_other_version(addresses, first, from + 1);
    }
}

proof fn lemma_other_address(addresses: Seq<SocketAddr>, first: SocketAddr, from: int)
    requires
        0 <= from <= addresses.len(),
    ensures
        from <= other_address(addresses, first, from) <= addresses.len(),
    decreases addresses.len() - from,
{
    if from < addresses.len() && addresses[from] == first {
        lemma_other_address(addresses, first, from + 1);
    }
}

/// Which outbound a query goes through.
#[derive(Debug)]
pub enum OutboundChoice {
    /// The one with this name.
    Named(String),
    /// The one that the routing rules choose for a connection over this network.
    ByRules(Network),
    /// None: directly.
    Direct,
}

/// Which outbound a query goes through: the one that the caller names, else the server's own, else
/// the one that the rules choose where they are to be heeded.
pub open spec fn outbound_is(
    choice: OutboundChoice,
    asked: Option<Seq<char>>,
    own: Option<Seq<char>>,
    by_rules: bool,
    protocol: DnsProtocol,
) -> bool {
    match (asked, own) {
        (Some(name), _) => choice matches OutboundChoice::Named(n) && n@ == name,
        (None, Some(name)) => choice matches OutboundChoice::Named(n) && n@ == name,
        (None, None) => choice == if by_rules {
            OutboundChoice::ByRules(
                if protocol is Udp {
                    Network::Udp
                } else {
                    Network::Tcp
                },
            )
        } else {
            OutboundChoice::Direct
        },
    }
}

/// Which outbound a query goes through.
pub fn choose_outbound(
    asked: &Option<String>,
    own: &Option<String>,
    by_rules: bool,
    protocol: DnsProtocol,
) -> (res: OutboundChoice)
    ensures
        outbound_is(res, text::opt_view(*asked), text::opt_view(*own), by_rules, protocol),
{
    match asked {
        Some(name) => return OutboundChoice::Named(name.clone()),
        None => {},
    }
    match own {
        Some(name) => return OutboundChoice::Named(name.clone()),
        None => {},
    }
    if by_rules {
        match protocol {
            DnsProtocol::Udp => OutboundChoice::ByRules(Network::Udp),
            _ => OutboundChoice::ByRules(Network::Tcp),
        }
    } else {
        OutboundChoice::Direct
    }
}

/// What connections are kept by: the outbound that they go through.
#[derive(Debug, PartialEq, Eq, Hash)]
pub struct TransportKey {
    pub resolved_outbound: Option<String>,
}

impl View for TransportKey {
    type V = Option<Seq<char>>;

    open spec fn view(&self) -> Option<Seq<char>> {
        text::opt_view(self.resolved_outbound)
    }
}

/// The keys of connections.
pub open spec fn key_views(keys: Seq<TransportKey>) -> Seq<Option<Seq<char>>> {
    keys.map_values(|k: TransportKey| k@)
}

/// The place of the first key from `from` on that is the one asked for.
pub open spec fn key_place(keys: Seq<Option<Seq<char>>>, key: Option<Seq<char>>, from: int) -> int
    decreases keys.len() - from,
{
    if from < 0 || from >= keys.len() || keys[from] == key {
        from
    } else {
        key_place(keys, key, from + 1)
    }
}

/// The place of the connection with a key; a key that is new gets a place at the end.
pub fn get_pooled_transport(keys: &mut Vec<TransportKey>, outbound: &Option<String>) -> (res: usize)
    ensures
        res == key_place(key_views(old(keys)@), text::opt_view(*outbound), 0),
        key_views(final(keys)@) == if res < old(keys)@.len() {
            key_views(old(keys)@)
        } else {
            key_views(old(keys)@).push(text::opt_view(*outbound))
        },
{
    let ghost all = key_views(keys@);
    let ghost key = text::opt_view(*outbound);
    let mut i: usize = 0;
    while i < keys.len()
        invariant
            i <= keys@.len(),
            keys@ == old(keys)@,
            all == key_views(keys@),
            key == text::opt_view(*outbound),
            key_place(all, key, 0) == key_place(all, key, i as int),
        decreases keys@.len() - i,
    {
        assert(all[i as int] == keys@[i as int]@);
        if same_opt(&keys[i].resolved_outbound, outbound) {
            return i;
        }
        i = i + 1;
    }
    keys.push(TransportKey { resolved_outbound: text::copy_opt(outbound) });
    assert(key_views(keys@) =~= all.push(key));
    i
}

/// A query on its way to a server.
pub struct OutgoingQuery {
    wire: Vec<u8>,
    ecs: Option<EcsQuery>,
}

/// What is sent to a server: the query with the client subnet where one is to be told and the query
/// can take it, else the query as it is.
pub open spec fn sent(raw: Seq<u8>, subnet: Option<EdnsClientSubnet>) -> Seq<u8> {
    match subnet {
        Some(EdnsClientSubnet { ipv4: Some(net), .. }) => match ecs::prepared(raw, net) {
            Ok(Some(wire)) => wire,
            _ => raw,
        },
        _ => raw,
    }
}

/// The client subnet was added to the query.
pub open spec fn is_added(raw: Seq<u8>, subnet: Option<EdnsClientSubnet>) -> bool {
    match subnet {
        Some(EdnsClientSubnet { ipv4: Some(net), .. }) => ecs::prepared(raw, net) matches Ok(Some(_)),
        _ => false,
    }
}

/// What is handed back of a server's answer: the client subnet is taken out where it was added.
pub open spec fn handed_back(
    raw: Seq<u8>,
    subnet: Option<EdnsClientSubnet>,
    response: Seq<u8>,
) -> Result<Seq<u8>, EcsWireError> {
    if is_added(raw, subnet) {
        let net = subnet.unwrap().ipv4.unwrap();
        ecs::restored(
            response,
            ecs::layout(raw)->Ok_0 is Some,
            net.prefix_len,
            ecs::ecs_address(net),
        )
    } else {
        Ok(response)
    }
}

impl OutgoingQuery {
    /// What is sent.
    pub closed spec fn bytes(&self) -> Seq<u8> {
        self.wire@
    }

    /// What is handed back of an answer.
    pub closed spec fn back(&self, response: Seq<u8>) -> Result<Seq<u8>, EcsWireError> {
        match self.ecs {
            Some(q) => ecs::restored(response, q.had_opt(), q.source_prefix(), q.address()),
            None => Ok(response),
        }
    }

    /// Makes a query ready to be sent.
    pub fn prepare(raw_query: &[u8], subnet: &Option<EdnsClientSubnet>) -> (res: OutgoingQuery)
        requires
            subnet matches Some(EdnsClientSubnet { ipv4: Some(net), .. }) ==> net.wf(),
        ensures
            res.bytes() == sent(raw_query@, *subnet),
            forall|response: Seq<u8>| #[trigger]
                res.back(response) == handed_back(raw_query@, *subnet, response),
    {
        let mut ecs: Option<EcsQuery> = None;
        match subnet {
            Some(s) => {
                match s.ipv4 {
                    Some(net) => {
                        match EcsQuery::prepare(raw_query, net) {
                            Ok(found) => {
                                ecs = found;
                            },
                            Err(_) => {},
                        }
                    },
                    None => {},
                }
            },
            None => {},
        }
        let wire: Vec<u8> = match &ecs {
            Some(q) => {
                let bytes = q.wire();
                let copy: Vec<u8> = slice_to_vec(bytes, 0, bytes.len());
                assert(copy@ =~= bytes@);
                copy
            },
            None => {
                let copy: Vec<u8> = slice_to_vec(raw_query, 0, raw_query.len());
                assert(copy@ =~= raw_query@);
                copy
            },
        };
        OutgoingQuery { wire, ecs }
    }

    /// What is sent.
    pub fn wire(&self) -> (res: &[u8])
        ensures
            res@ == self.bytes(),
    {
        &self.wire
    }

    /// What is handed back of the server's answer.
    pub fn finish(self, response: Vec<u8>) -> (res: Result<Vec<u8>, EcsWireError>)
        ensures
            match (res, self.back(response@)) {
                (Ok(v), Ok(bytes)) => v@ == bytes,
                (Err(e), Err(f)) => e == f,
                _ => false,
            },
    {
        match self.ecs {
            Some(q) => q.restore_response(response),
            None => Ok(response),
        }
    }
}

/// What is to be done next to get a server's answer.
#[derive(Clone, Copy, Debug, PartialEq, Eq, Structural)]
pub enum QueryStep {
    /// Find the server's addresses.
    Resolve,
    /// Send the query over UDP to this address.
    TryUdp(SocketAddr),
    /// Send the query over the server's connection.
    UseTransport,
    /// Give up: the server has no address.
    NoAddresses,
    /// Give up: every attempt has failed.
    Failed,
}

/// What is to be done next to get a server's answer, after a number of attempts have failed. Over
/// UDP two addresses are tried; over a connection there is one attempt.
pub open spec fn next_step(
    protocol: DnsProtocol,
    found: Option<Option<(SocketAddr, SocketAddr)>>,
    failures: nat,
) -> QueryStep {
    if protocol is Udp {
        match found {
            None => QueryStep::Resolve,
            Some(None) => QueryStep::NoAddresses,
            Some(Some((first, second))) => if failures == 0 {
                QueryStep::TryUdp(first)
            } else if failures == 1 {
                QueryStep::TryUdp(second)
            } else {
                QueryStep::Failed
            },
        }
    } else if failures == 0 {
        QueryStep::UseTransport
    } else {
        QueryStep::Failed
    }
}

/// What is to be done next to get a server's answer. `found` are the addresses to try, once they
/// were looked for.
pub fn query_entry(
    protocol: DnsProtocol,
    found: &Option<Option<(SocketAddr, SocketAddr)>>,
    failures: usize,
) -> (res: QueryStep)
    ensures
        res == next_step(protocol, *found, failures as nat),
{
    match protocol {
        DnsProtocol::Udp => match found {
            None => QueryStep::Resolve,
            Some(None) => QueryStep::NoAddresses,
            Some(Some((first, second))) => if failures == 0 {
                QueryStep::TryUdp(*first)
            } else if failures == 1 {
                QueryStep::TryUdp(*second)
            } else {
                QueryStep::Failed
            },
        },
        _ => if failures == 0 {
            QueryStep::UseTransport
        } else {
            QueryStep::Failed
        },
    }
}

/// What the client gets does not show that the client subnet was told, where it was: a message that
/// repeats what was sent comes back as the client's own query, byte for byte.
pub proof fn law_subnet_stays_hidden(raw: Seq<u8>, net: crate::ip::Ipv4Net)
    requires
        net.wf(),
        is_added(raw, Some(EdnsClientSubnet { ipv4: Some(net), ipv6: None })),
    ensures
        handed_back(
            raw,
            Some(EdnsClientSubnet { ipv4: Some(net), ipv6: None }),
            sent(raw, Some(EdnsClientSubnet { ipv4: Some(net), ipv6: None })),
        ) == Ok::<_, EcsWireError>(raw),
{
    ecs::law_restore_undoes_prepare(raw, net);
}

/// A query over UDP goes to the first address, then to the second, and is given up after that; over
/// any other protocol there is one attempt. Without addresses none is made.
pub proof fn law_attempts_of_a_query(
    protocol: DnsProtocol,
    first: SocketAddr,
    second: SocketAddr,
    failures: nat,
)
    ensures
        next_step(DnsProtocol::Udp, None, failures) is Resolve,
        next_step(DnsProtocol::Udp, Some(None), failures) is NoAddresses,
        next_step(DnsProtocol::Udp, Some(Some((first, second))), 0) == QueryStep::TryUdp(first),
        next_step(DnsProtocol::Udp, Some(Some((first, second))), 1) == QueryStep::TryUdp(second),
        failures >= 2 ==> next_step(DnsProtocol::Udp, Some(Some((first, second))), failures) is Failed,
        !(protocol is Udp) ==> next_step(protocol, None, 0) is UseTransport,
        !(protocol is Udp) && failures >= 1 ==> next_step(protocol, None, failures) is Failed,
{
}

/// The address that answered last is tried first while the server still has it; else the server's
/// first address is.
pub proof fn law_working_address_goes_first(addresses: Seq<SocketAddr>, current: SocketAddr)
    requires
        addresses.len() > 0,
    ensures
        addresses.contains(current) ==> attempts(addresses, Some(current)).unwrap().0 == current,
        !addresses.contains(current) ==> attempts(addresses, Some(current)).unwrap().0
            == addresses[0],
        attempts(addresses, None).unwrap().0 == addresses[0],
        (forall|i: int| 0 <= i < addresses.len() ==> #[trigger] addresses[i] == addresses[0])
            ==> attempts(addresses, None) == Some((addresses[0], addresses[0])),
{
    lemma_other_version(addresses, addresses[0], 0);
    lemma_other_address(addresses, addresses[0], 0);
}

/// An outbound that a query asks for goes before the server's own; without either the routing rules
/// choose where they are to be respected, for the network of the protocol, and else the query goes
/// out directly.
pub proof fn law_outbound_of_a_query(
    choice: OutboundChoice,
    asked: Option<Seq<char>>,
    own: Option<Seq<char>>,
    by_rules: bool,
    protocol: DnsProtocol,
)
    requires
        outbound_is(choice, asked, own, by_rules, protocol),
    ensures
        asked matches Some(name) ==> (choice matches OutboundChoice::Named(n) && n@ == name),
        asked is None ==> (own matches Some(name) ==> (choice matches OutboundChoice::Named(n) && n@
            == name)),
        asked is None && own is None && !by_rules ==> choice is Direct,
        asked is None && own is None && by_rules ==> (choice matches OutboundChoice::ByRules(net)
            && (net is Udp <==> protocol is Udp)),
{
}

proof fn lemma_table_place(table: Seq<(Seq<char>, EntryView)>, key: Seq<char>, from: int)
    requires
        0 <= from <= table.len(),
    ensures
        from <= table_place(table, key, from) <= table.len(),
        table_place(table, key, from) < table.len() ==> table[table_place(table, key, from)].0 == key,
        forall|k: int| from <= k < table_place(table, key, from) ==> (#[trigger] table[k]).0 != key,
    decreases table.len() - from,
{
    if from < table.len() && table[from].0 != key {
        lemma_table_place(table, key, from + 1);
    }
}

/// A server is set up once under its key: what is there stays, whatever comes under the same key
/// later. A server that cannot be set up is left out.
pub proof fn law_server_is_set_up_once(
    table: Seq<(Seq<char>, EntryView)>,
    key: Seq<char>,
    ns: NameServerView,
    outbound: Option<Seq<char>>,
    ecs: Option<EdnsClientSubnet>,
    again: NameServerView,
    other: Seq<char>,
)
    ensures
        ({
            let after = table_with(table, key, ns, outbound, ecs);
            &&& table_has(table, key) ==> after == table
            &&& !table_has(table, key) ==> (table_has(after, key) <==> made_entry(ns, outbound, ecs)
                is Some)
            &&& !table_has(table, key) && table_has(after, key) ==> Some(
                after[table_place(after, key, 0)].1,
            ) == made_entry(ns, outbound, ecs)
            &&& table_has(after, key) ==> table_with(after, key, again, outbound, ecs) == after
            &&& other != key ==> (table_has(after, other) <==> table_has(table, other))
        }),
{
    let after = table_with(table, key, ns, outbound, ecs);
    lemma_table_place(table, key, 0);
    lemma_table_place(after, key, 0);
    lemma_table_place(table, other, 0);
    lemma_table_place(after, other, 0);
    if !table_has(table, key) && made_entry(ns, outbound, ecs) is Some {
        assert(after[table.len() as int].0 == key);
        let at = table_place(after, key, 0);
        if at < table.len() {
            assert(after[at] == table[at]);
        }
        if at > table.len() {
            assert(after[table.len() as int].0 != key);
        }
    }
    if other != key {
        let b = table_place(table, other, 0);
        let a = table_place(after, other, 0);
        if b < table.len() {
            assert(after[b] == table[b]);
            if a > b {
                assert(after[b].0 != other);
            }
        }
        if a < after.len() && a < table.len() {
            assert(after[a] == table[a]);
            if b > a {
                assert(table[a].0 != other);
            }
        }
    }
}

/// Servers from DHCP cannot be set up; every other way of speaking is kept.
pub proof fn law_protocols_are_kept(ns: NameServerView)
    ensures
        ns.net is Dhcp ==> entry_of(ns) == Err::<(DnsProtocol, EndpointView), UpstreamError>(
            UpstreamError::Dhcp,
        ),
        entry_of(ns) matches Ok((protocol, _)) ==> {
            &&& protocol is Udp <==> ns.net is Udp
            &&& protocol is Tcp <==> ns.net is Tcp
            &&& protocol is Tls <==> ns.net is Tls
            &&& protocol is Https <==> ns.net is Https
            &&& protocol is Quic <==> ns.net is Quic
            &&& protocol is H3 <==> ns.net is H3
        },
        made_entry(ns, None, None) matches Some(entry) ==> entry.interface == ns.interface && entry.name
            == ns.text(),
{
}

/// A query carries a client subnet only where an IPv4 one is configured; without one neither the
/// query nor its answer is touched.
pub proof fn law_no_subnet_no_change(
    raw: Seq<u8>,
    response: Seq<u8>,
    subnet: Option<EdnsClientSubnet>,
)
    requires
        subnet matches Some(s) ==> s.ipv4 is None,
    ensures
        sent(raw, subnet) == raw,
        handed_back(raw, subnet, response) == Ok::<Seq<u8>, EcsWireError>(response),
{
}

/// A query that already has a client subnet, or cannot take one, is sent as it is, and its answer is
/// handed on as it is.
pub proof fn law_unfit_query_is_sent_as_it_is(
    raw: Seq<u8>,
    response: Seq<u8>,
    subnet: Option<EdnsClientSubnet>,
    net: crate::ip::Ipv4Net,
)
    requires
        subnet matches Some(s) && s.ipv4 == Some(net),
        !(ecs::prepared(raw, net) matches Ok(Some(_))),
    ensures
        sent(raw, subnet) == raw,
        handed_back(raw, subnet, response) == Ok::<Seq<u8>, EcsWireError>(response),
{
}

proof fn lemma_slot_place(pools: Seq<SlotView>, outbound: Option<Seq<char>>, v6: bool, from: int)
    requires
        0 <= from <= pools.len(),
    ensures
        from <= slot_place(pools, outbound, v6, from) <= pools.len(),
        slot_place(pools, outbound, v6, from) < pools.len() ==> pools[slot_place(
            pools,
            outbound,
            v6,
            from,
        )].outbound == outbound && pools[slot_place(pools, outbound, v6, from)].v6 == v6,
        forall|k: int|
            from <= k < slot_place(pools, outbound, v6, from) ==> !((#[trigger] pools[k]).outbound
                == outbound && pools[k].v6 == v6),
    decreases pools.len() - from,
{
    if from < pools.len() && !(pools[from].outbound == outbound && pools[from].v6 == v6) {
        lemma_slot_place(pools, outbound, v6, from + 1);
    }
}

/// A pool that was put up for an address and an outbound is found for them, in the place of the one
/// before it; pools of other outbounds stay. An address that is no longer in use is not the current
/// one.
pub proof fn law_pool_is_found_again(
    view: UdpView,
    address: SocketAddr,
    outbound: Option<Seq<char>>,
    pool: u64,
    other: SocketAddr,
    elsewhere: Option<Seq<char>>,
)
    ensures
        ({
            let after = view.with_pool(address, outbound, pool);
            &&& after.pool_for(address, outbound) == Some(pool)
            &&& other != address && is_v6(other) == is_v6(address) ==> after.pool_for(other, outbound)
                is None
            &&& elsewhere != outbound ==> after.pool_for(other, elsewhere) == view.pool_for(
                other,
                elsewhere,
            )
            &&& view.current matches Some(cur) ==> (is_v6(cur) == is_v6(address) ==> after.current
                is None)
            &&& view.current matches Some(cur) ==> (is_v6(cur) != is_v6(address) ==> after.current
                == Some(cur))
        }),
{
    let after = view.with_pool(address, outbound, pool);
    let v6 = is_v6(address);
    lemma_slot_place(view.pools, outbound, v6, 0);
    lemma_slot_place(after.pools, outbound, v6, 0);
    let at = slot_place(view.pools, outbound, v6, 0);
    let found = slot_place(after.pools, outbound, v6, 0);
    assert(after.pools[at].outbound == outbound && after.pools[at].v6 == v6);
    if found < at {
        assert(after.pools[found] == view.pools[found]);
    }
    if elsewhere != outbound {
        lemma_slot_place(view.pools, elsewhere, is_v6(other), 0);
        lemma_slot_place(after.pools, elsewhere, is_v6(other), 0);
        let b = slot_place(view.pools, elsewhere, is_v6(other), 0);
        let a = slot_place(after.pools, elsewhere, is_v6(other), 0);
        if b < view.pools.len() {
            assert(b != at);
            assert(after.pools[b] == view.pools[b]);
            if b < a {
                assert(!(after.pools[b].outbound == elsewhere && after.pools[b].v6 == is_v6(other)));
            }
        }
        if a < after.pools.len() {
            assert(a != at);
            assert(after.pools[a] == view.pools[a]);
            if a < b {
                assert(!(view.pools[a].outbound == elsewhere && view.pools[a].v6 == is_v6(other)));
            }
        }
    }
}

/// A server without a path is spoken to at the host and the port that its entry gives; the usual
/// ports are left to the protocol.
pub proof fn law_server_is_where_it_says(ns: NameServerView, protocol: DnsProtocol)
    requires
        protocol_of(ns.net) == Some(protocol),
        ns.path is None,
        ns.host.text().len() > 0,
        !ns.host.text().contains(':'),
        !ns.host.text().contains('/'),
        ns.host.text()[0] != '[',
        forall|i: int| 0 <= i < ns.host.text().len() ==> !text::is_space(#[trigger] ns.host.text()[i]),
    ensures
        entry_of(ns) matches Ok((p, view)) && p == protocol && view.host == ns.host.text()
            && view.sni == ns.host.text() && view.port == (if ns.port == 0 || ns.port == 53
            || ns.port == 443 || ns.port == 853 {
            protocol.default_port()
        } else {
            ns.port
        }),
{
    let host = ns.host.text();
    let digits = text::number_text(ns.port as nat);
    let address = address_text(ns);
    reveal_strlit(":");
    assert(":"@ =~= seq![':']);
    text::law_number_read_back(ns.port as nat);
    endpoint::law_host_and_port_read_back(host, ns.port);
    assert(digits.len() > 0);
    assert forall|i: int| 0 <= i < address.len() implies !text::is_space(#[trigger] address[i])
        && address[i] != '/' by {
        if i < host.len() {
            assert(address[i] == host[i]);
            assert(host.contains(host[i]));
        } else if i > host.len() {
            assert(address[i] == digits[i - host.len() - 1]);
            assert('0' <= digits[i - host.len() - 1] <= '9');
        } else {
            assert(address[i] == ':');
        }
    }
    assert(!text::is_space(address[0]));
    assert(!text::is_space(address[address.len() - 1]));
    assert(text::trimmed(address) == address);
    text::lemma_first_of_is(address, '/', address.len() as int);
    assert(address.take(address.len() as int) =~= address);
    assert(address.skip(address.len() as int) =~= Seq::empty());
    if writes_port(ns.port) {
        assert(address =~= host + seq![':'] + digits);
    }
}

} // verus!
