//! Fake IP addresses: a pool of addresses that stand for hosts.
use vstd::arithmetic::power2::pow2;
use vstd::prelude::*;

use crate::collections;
use crate::collections::{verdicts_clear, verdicts_get, verdicts_insert, verdicts_new, VerdictCache};
use crate::dns::fakeip::mem_store::StoreState;
use crate::dns::filters::DomainFilter;
use crate::error::Error;
use crate::ip;
use crate::ip::{two_to, v6_host, write_net, IpAddr, IpNet, Ipv4Net, Ipv6Net};
use crate::providers::rule_provider::RuleProviderImpl;
use crate::text;

pub mod any_store;
pub mod file_store;
pub mod mem_store;

verus! {

/// Where a pool keeps which address stands for which host.
pub trait Store {
    /// What the store holds.
    spec fn state(&self) -> StoreState;

    /// The store is in order.
    spec fn wf(&self) -> bool;

    /// Where a pool of IPv4 addresses goes on.
    spec fn offset_v4(&self) -> u32;

    /// Where a pool of IPv6 addresses goes on.
    spec fn offset_v6(&self) -> u128;

    /// A store in order holds tables in order.
    proof fn lemma_wf(&self)
        requires
            self.wf(),
        ensures
            self.state().ok(),
    ;

    /// The host's IPv4 address.
    fn get_by_host(&self, host: &str) -> (res: Option<IpAddr>)
        requires
            self.wf(),
        ensures
            res == self.state().addr_of(host@, false),
    ;

    /// The host's IPv6 address.
    fn get_v6_by_host(&self, host: &str) -> (res: Option<IpAddr>)
        requires
            self.wf(),
        ensures
            res == self.state().addr_of(host@, true),
    ;

    /// Gives a host an address.
    fn put_by_host(&mut self, host: &str, ip: IpAddr)
        requires
            old(self).wf(),
        ensures
            final(self).wf(),
            final(self).state() == old(self).state().put_host(host@, ip),
    ;

    /// The host of an address.
    fn get_by_ip(&self, ip: IpAddr) -> (res: Option<String>)
        requires
            self.wf(),
        ensures
            res is Some <==> self.state().host_of(ip) is Some,
            res matches Some(h) ==> self.state().host_of(ip) == Some(h@),
    ;

    /// Gives an address a host.
    fn put_by_ip(&mut self, ip: IpAddr, host: &str)
        requires
            old(self).wf(),
        ensures
            final(self).wf(),
            final(self).state() == old(self).state().put_ip(ip, host@),
    ;

    /// Takes an address out.
    fn del_by_ip(&mut self, ip: IpAddr)
        requires
            old(self).wf(),
        ensures
            final(self).wf(),
            final(self).state() == old(self).state().without(ip),
    ;

    /// Whether an address has a host.
    fn exist(&self, ip: IpAddr) -> (res: bool)
        requires
            self.wf(),
        ensures
            res == (self.state().host_of(ip) is Some),
    ;

    /// Where a pool of IPv4 addresses goes on.
    fn initial_offset_v4(&self) -> (res: u32)
        ensures
            res == self.offset_v4(),
    ;

    /// Where a pool of IPv6 addresses goes on.
    fn initial_offset_v6(&self) -> (res: u128)
        ensures
            res == self.offset_v6(),
    ;
}

/// Whether the filter names the domains that get real addresses or those that get fake ones.
#[derive(Clone, Copy, Debug, PartialEq, Eq, Structural)]
pub enum FakeIpFilterMode {
    Blacklist,
    Whitelist,
}

/// A pool of IPv4 addresses, from `min` to `max`; `offset` is where the next search starts.
#[derive(Clone, Copy, Debug, PartialEq, Eq, Structural)]
pub struct FakePoolV4 {
    pub min: u32,
    pub max: u32,
    pub offset: u32,
}

impl FakePoolV4 {
    /// How many addresses the pool has.
    pub open spec fn size(&self) -> int {
        self.max - self.min + 1
    }

    /// The pool has an address and the search starts inside it.
    pub open spec fn wf(&self) -> bool {
        self.min <= self.max && self.offset < self.size() && self.size() <= u32::MAX
    }

    /// The address at an offset.
    pub open spec fn addr(&self, offset: int) -> IpAddr {
        IpAddr::V4((self.min + offset) as u32)
    }
}

/// A pool of IPv6 addresses: hosts `min_host` to `max_host` of a network.
#[derive(Clone, Copy, Debug, PartialEq, Eq, Structural)]
pub struct FakePoolV6 {
    pub prefix: u128,
    pub prefix_len: u8,
    pub min_host: u128,
    pub max_host: u128,
    pub offset: u128,
}

impl FakePoolV6 {
    /// How many addresses the pool has.
    pub open spec fn size(&self) -> int {
        self.max_host - self.min_host + 1
    }

    /// The pool has an address, its addresses exist, and the search starts inside it.
    pub open spec fn wf(&self) -> bool {
        &&& self.prefix_len <= 128
        &&& self.min_host <= self.max_host
        &&& self.offset < self.size()
        &&& self.size() <= u128::MAX
        &&& self.prefix + self.max_host <= u128::MAX
        &&& ip::host_part(self.prefix, self.prefix_len) == 0
        &&& self.max_host < pow2((128 - self.prefix_len) as nat)
    }

    /// The address at an offset.
    pub open spec fn addr(&self, offset: int) -> IpAddr {
        IpAddr::V6((self.prefix + self.min_host + offset) as u128)
    }
}

/// The first and the last IPv4 address of a pool over a network: all but the first two, and for
/// the whole address space all but the last too. A network of fewer than four addresses has no
/// pool.
pub open spec fn v4_range(net: Ipv4Net) -> Option<(int, int)> {
    if net.prefix_len > 30 {
        None
    } else if net.prefix_len == 0 {
        Some((2, u32::MAX - 1))
    } else {
        Some((net.network_spec() + 2, net.network_spec() + net.span() - 1))
    }
}

/// The last host of a pool over an IPv6 network, whose hosts start at one. A network of fewer
/// than four addresses has no pool.
pub open spec fn v6_last_host(net: Ipv6Net) -> Option<int> {
    if net.prefix_len > 126 {
        None
    } else if net.prefix_len == 0 {
        Some(u128::MAX - 2)
    } else {
        Some(pow2((128 - net.prefix_len) as nat) - 2)
    }
}

/// A network ends inside its address space.
proof fn lemma_network_fits(addr: int, bits: nat, prefix_len: nat)
    requires
        prefix_len <= bits,
        0 <= addr < pow2(bits),
    ensures
        0 < pow2((bits - prefix_len) as nat),
        0 <= addr - addr % (pow2((bits - prefix_len) as nat) as int),
        addr - addr % (pow2((bits - prefix_len) as nat) as int) + pow2((bits - prefix_len) as nat)
            <= pow2(bits),
        (addr - addr % (pow2((bits - prefix_len) as nat) as int)) % (pow2(
            (bits - prefix_len) as nat,
        ) as int) == 0,
{
    let span = pow2((bits - prefix_len) as nat) as int;
    let nets = pow2(prefix_len) as int;
    vstd::arithmetic::power2::lemma_pow2_pos((bits - prefix_len) as nat);
    vstd::arithmetic::power2::lemma_pow2_adds((bits - prefix_len) as nat, prefix_len);
    assert(addr < span * nets);
    vstd::arithmetic::div_mod::lemma_multiply_divide_lt(addr, span, nets);
    vstd::arithmetic::div_mod::lemma_fundamental_div_mod(addr, span);
    let q = addr / span;
    assert(q >= 0) by {
        vstd::arithmetic::div_mod::lemma_div_pos_is_pos(addr, span);
    }
    assert(q * span + span <= span * nets) by (nonlinear_arith)
        requires
            0 <= q < nets,
            0 < span,
    ;
    assert(addr - addr % span == q * span) by (nonlinear_arith)
        requires
            addr == span * q + addr % span,
    ;
    assert(q * span >= 0) by (nonlinear_arith)
        requires
            0 <= q,
            0 < span,
    ;
    vstd::arithmetic::div_mod::lemma_mod_multiples_basic(q, span);
}

/// The first and the last IPv4 address of a pool over a network.
pub fn compute_v4_range(net: &Ipv4Net) -> (res: Option<(u32, u32)>)
    requires
        net.wf(),
    ensures
        match (v4_range(*net), res) {
            (None, None) => true,
            (Some((a, b)), Some((min, max))) => a == min && b == max && min <= max && max - min
                < u32::MAX,
            _ => false,
        },
{
    if net.prefix_len > 30 {
        return None;
    }
    if net.prefix_len == 0 {
        return Some((2, 0xffff_fffe));
    }
    let network: u32 = net.network();
    let span: u128 = two_to(32 - net.prefix_len as u32);
    proof {
        ip::lemma_pow2_ends();
        lemma_network_fits(net.addr as int, 32, net.prefix_len as nat);
        vstd::arithmetic::power2::lemma2_to64();
        if net.prefix_len < 30 {
            vstd::arithmetic::power2::lemma_pow2_strictly_increases(
                2,
                (32 - net.prefix_len) as nat,
            );
        }
        vstd::arithmetic::power2::lemma_pow2_strictly_increases((32 - net.prefix_len) as nat, 32);
    }
    Some((network + 2, (network as u128 + span - 1) as u32))
}

/// The network and the last host of a pool over an IPv6 network.
pub fn compute_v6_range(net: &Ipv6Net) -> (res: Option<(u128, u8, u128, u128)>)
    requires
        net.wf(),
    ensures
        match (v6_last_host(*net), res) {
            (None, None) => true,
            (Some(last), Some((prefix, len, min_host, max_host))) => {
                &&& prefix == net.network_spec()
                &&& len == net.prefix_len
                &&& min_host == 1
                &&& max_host == last
                &&& min_host <= max_host
                &&& prefix + max_host < u128::MAX
                &&& ip::host_part(prefix, len) == 0
                &&& max_host < pow2((128 - len) as nat)
            },
            _ => false,
        },
{
    if net.prefix_len > 126 {
        return None;
    }
    let network: u128 = net.network();
    proof {
        ip::lemma_pow2_ends();
        lemma_network_fits(net.addr as int, 128, net.prefix_len as nat);
    }
    if net.prefix_len == 0 {
        assert(network == 0) by {
            vstd::arithmetic::div_mod::lemma_small_mod(net.addr as nat, pow2(128));
        }
        return Some((network, 0, 1, 0xffff_ffff_ffff_ffff_ffff_ffff_ffff_fffd));
    }
    let span: u128 = two_to(128 - net.prefix_len as u32);
    proof {
        vstd::arithmetic::power2::lemma2_to64();
        if net.prefix_len < 126 {
            vstd::arithmetic::power2::lemma_pow2_strictly_increases(
                2,
                (128 - net.prefix_len) as nat,
            );
        }
    }
    Some((network, net.prefix_len, 1, span - 2))
}

/// The offset behind an offset, back at the start behind the last.
pub open spec fn next_offset(offset: int, size: int) -> int {
    if offset + 1 >= size {
        0
    } else {
        offset + 1
    }
}

/// The offset of the address that a search settles on: the first that has no host, or, after
/// `size` tries, the one that comes next, whose host has to go.
pub open spec fn scan(
    s: StoreState,
    addr: spec_fn(int) -> IpAddr,
    size: int,
    offset: int,
    tries: int,
) -> (int, bool)
    decreases size - tries,
{
    if tries >= size {
        (offset, true)
    } else if s.host_of(addr(offset)) is None {
        (offset, false)
    } else {
        scan(s, addr, size, next_offset(offset, size), tries + 1)
    }
}

/// The store once a host has been given the address that a search settles on.
pub open spec fn allocated(
    s: StoreState,
    addr: spec_fn(int) -> IpAddr,
    size: int,
    offset: int,
    host: Seq<char>,
) -> StoreState {
    let (at, evict) = scan(s, addr, size, offset, 0);
    if evict {
        s.without(addr(at)).put_ip(addr(at), host)
    } else {
        s.put_ip(addr(at), host)
    }
}

proof fn lemma_scan(
    s: StoreState,
    addr: spec_fn(int) -> IpAddr,
    size: int,
    start: int,
    offset: int,
    tries: int,
)
    requires
        0 <= start < size,
        0 <= tries <= size,
        offset == (if start + tries >= size {
            start + tries - size
        } else {
            start + tries
        }),
        forall|o: int|
            0 <= o < size && (if o >= start {
                o - start
            } else {
                o - start + size
            }) < tries ==> s.host_of(#[trigger] addr(o)) is Some,
    ensures
        ({
            let (at, evict) = scan(s, addr, size, offset, tries);
            &&& 0 <= at < size
            &&& !evict ==> s.host_of(addr(at)) is None
            &&& evict ==> at == start && forall|o: int|
                0 <= o < size ==> s.host_of(#[trigger] addr(o)) is Some
        }),
    decreases size - tries,
{
    if tries >= size {
    } else if s.host_of(addr(offset)) is Some {
        lemma_scan(s, addr, size, start, next_offset(offset, size), tries + 1);
    }
}

/// A search settles on an address that has no host; only when every address of the pool has one
/// does it take the address at which it started.
pub proof fn law_scan_takes_free_address(
    s: StoreState,
    addr: spec_fn(int) -> IpAddr,
    size: int,
    offset: int,
)
    requires
        0 <= offset < size,
    ensures
        ({
            let (at, evict) = scan(s, addr, size, offset, 0);
            &&& 0 <= at < size
            &&& evict <==> forall|o: int| 0 <= o < size ==> s.host_of(#[trigger] addr(o)) is Some
            &&& evict ==> at == offset
            &&& !evict ==> s.host_of(addr(at)) is None
        }),
{
    lemma_scan(s, addr, size, offset, offset, 0);
    let (at, evict) = scan(s, addr, size, offset, 0);
    if !evict {
        assert(s.host_of(addr(at)) is None);
    }
}

/// Every address of a pool lies in the pools, but for those that broadcast or multicast.
pub proof fn law_pool_addresses_in_pool(v4: FakePoolV4, v6: FakePoolV6, offset: int)
    requires
        v4.wf(),
        v6.wf(),
    ensures
        0 <= offset < v4.size() ==> in_pools(v4, v6, v4.addr(offset)) == !v4_reserved(
            (v4.min + offset) as u32,
        ),
        0 <= offset < v6.size() ==> in_pools(v4, v6, v6.addr(offset)) == !v6_reserved(
            (v6.prefix + v6.min_host + offset) as u128,
        ),
{
    if 0 <= offset < v6.size() {
        let span = pow2((128 - v6.prefix_len) as nat) as int;
        let host = v6.min_host + offset;
        vstd::arithmetic::power2::lemma_pow2_pos((128 - v6.prefix_len) as nat);
        vstd::arithmetic::div_mod::lemma_small_mod(host as nat, span as nat);
        vstd::arithmetic::div_mod::lemma_add_mod_noop(v6.prefix as int, host, span);
        assert(ip::host_part((v6.prefix + host) as u128, v6.prefix_len) == host);
    }
}

/// What a pool is made of.
pub struct Opts<S: Store> {
    pub ipnet: Ipv4Net,
    pub ipnet6: Ipv6Net,
    pub domain_filter: Option<DomainFilter>,
    pub filter_mode: FakeIpFilterMode,
    pub store: S,
}

/// Fake IP addresses for hosts.
pub struct FakeDns<S: Store> {
    v4_pool: FakePoolV4,
    v6_pool: FakePoolV6,
    domain_filter: Option<DomainFilter>,
    filter_mode: FakeIpFilterMode,
    pub store: S,
    skip_cache: VerdictCache,
}

/// The IPv4 address is the broadcast address or a multicast address.
pub open spec fn v4_reserved(addr: u32) -> bool {
    addr == u32::MAX || 0xe000_0000 <= addr < 0xf000_0000
}

/// The IPv6 address is a multicast address.
pub open spec fn v6_reserved(addr: u128) -> bool {
    addr >= 0xff00_0000_0000_0000_0000_0000_0000_0000
}

/// The address lies in one of the pools.
pub open spec fn in_pools(v4: FakePoolV4, v6: FakePoolV6, addr: IpAddr) -> bool {
    match addr {
        IpAddr::V4(a) => !v4_reserved(a) && v4.min <= a <= v4.max,
        IpAddr::V6(a) => {
            let host = ip::host_part(a, v6.prefix_len);
            !v6_reserved(a) && a - host == v6.prefix && v6.min_host <= host <= v6.max_host
        },
    }
}

/// Whether a domain gets its real address.
pub open spec fn skips(
    filter: Option<DomainFilter>,
    mode: FakeIpFilterMode,
    domain: Seq<char>,
    registry: Seq<RuleProviderImpl>,
) -> bool {
    let matched = filter matches Some(f) && f.matches(domain, registry);
    match mode {
        FakeIpFilterMode::Blacklist => matched,
        FakeIpFilterMode::Whitelist => !matched,
    }
}

/// The IPv4 address that stands for a host was found, or allocated where it had none: the first
/// free one from where the pool goes on, else the one that it goes on from, taken from its host.
pub open spec fn found_v4<S: Store>(
    before: FakeDns<S>,
    after: FakeDns<S>,
    host: Seq<char>,
    res: IpAddr,
) -> bool {
    &&& after.wf()
    &&& after.pool6() == before.pool6()
    &&& after.filter() == before.filter()
    &&& after.mode() == before.mode()
    &&& forall|registry: Seq<RuleProviderImpl>|
        before.memory_ok(registry) ==> #[trigger] after.memory_ok(registry)
    &&& after.held().addr_of(host, false) == Some(res)
    &&& match before.held().addr_of(host, false) {
        Some(known) => res == known && after.held() == before.held() && after.pool4() == before.pool4(),
        None => {
            let pool = before.pool4();
            let addr = |o: int| pool.addr(o);
            let (at, _) = scan(before.held(), addr, pool.size(), pool.offset as int, 0);
            &&& 0 <= at < pool.size()
            &&& res == pool.addr(at)
            &&& after.held() == allocated(
                before.held(),
                addr,
                pool.size(),
                pool.offset as int,
                host,
            ).put_host(host, res)
            &&& after.held().host_of(res) == Some(host)
            &&& after.pool4() == (FakePoolV4 {
                offset: next_offset(at, pool.size()) as u32,
                ..pool
            })
        },
    }
}

/// The IPv6 address that stands for a host was found, or allocated where it had none: the first
/// free one from where the pool goes on, else the one that it goes on from, taken from its host.
pub open spec fn found_v6<S: Store>(
    before: FakeDns<S>,
    after: FakeDns<S>,
    host: Seq<char>,
    res: IpAddr,
) -> bool {
    &&& after.wf()
    &&& after.pool4() == before.pool4()
    &&& after.filter() == before.filter()
    &&& after.mode() == before.mode()
    &&& forall|registry: Seq<RuleProviderImpl>|
        before.memory_ok(registry) ==> #[trigger] after.memory_ok(registry)
    &&& after.held().addr_of(host, true) == Some(res)
    &&& match before.held().addr_of(host, true) {
        Some(known) => res == known && after.held() == before.held() && after.pool6() == before.pool6(),
        None => {
            let pool = before.pool6();
            let addr = |o: int| pool.addr(o);
            let (at, _) = scan(before.held(), addr, pool.size(), pool.offset as int, 0);
            &&& 0 <= at < pool.size()
            &&& res == pool.addr(at)
            &&& after.held() == allocated(
                before.held(),
                addr,
                pool.size(),
                pool.offset as int,
                host,
            ).put_host(host, res)
            &&& after.held().host_of(res) == Some(host)
            &&& after.pool6() == (FakePoolV6 {
                offset: next_offset(at, pool.size()) as u128,
                ..pool
            })
        },
    }
}

/// The pools are those of the networks, with the store's hosts, and go on where the store says.
pub open spec fn made_over<S: Store>(dns: FakeDns<S>, v4: Ipv4Net, v6: Ipv6Net, store: S) -> bool {
    &&& dns.wf()
    &&& Some((dns.pool4().min as int, dns.pool4().max as int)) == v4_range(v4)
    &&& dns.pool4().offset == store.offset_v4() as int % dns.pool4().size()
    &&& dns.pool6().prefix == v6.network_spec()
    &&& dns.pool6().prefix_len == v6.prefix_len
    &&& dns.pool6().min_host == 1
    &&& Some(dns.pool6().max_host as int) == v6_last_host(v6)
    &&& dns.pool6().offset == store.offset_v6() as int % dns.pool6().size()
    &&& dns.held() == store.state()
}

/// Nothing has changed but the remembered verdicts, which are those that the rule sets give.
pub open spec fn same_but_memory<S: Store>(
    before: FakeDns<S>,
    after: FakeDns<S>,
    registry: Seq<RuleProviderImpl>,
) -> bool {
    &&& after.wf()
    &&& after.memory_ok(registry)
    &&& after.pool4() == before.pool4()
    &&& after.pool6() == before.pool6()
    &&& after.held() == before.held()
    &&& after.filter() == before.filter()
    &&& after.mode() == before.mode()
}

impl<S: Store> FakeDns<S> {
    /// The IPv4 pool.
    pub closed spec fn pool4(&self) -> FakePoolV4 {
        self.v4_pool
    }

    /// The IPv6 pool.
    pub closed spec fn pool6(&self) -> FakePoolV6 {
        self.v6_pool
    }

    /// What the store holds.
    pub closed spec fn held(&self) -> StoreState {
        self.store.state()
    }

    /// The filter on domains.
    pub closed spec fn filter(&self) -> Option<DomainFilter> {
        self.domain_filter
    }

    /// What the filter's domains get.
    pub closed spec fn mode(&self) -> FakeIpFilterMode {
        self.filter_mode
    }

    /// The pools and the store are in order.
    pub closed spec fn wf(&self) -> bool {
        self.v4_pool.wf() && self.v6_pool.wf() && self.store.wf()
    }

    /// The remembered verdicts.
    pub closed spec fn memory(&self) -> Map<Seq<char>, bool> {
        collections::verdicts(self.skip_cache)
    }

    /// Every remembered verdict is the one that the rule sets give now.
    pub open spec fn memory_ok(&self, registry: Seq<RuleProviderImpl>) -> bool {
        forall|domain: Seq<char>| #[trigger]
            self.memory().contains_key(domain) ==> self.memory()[domain] == skips(
                self.filter(),
                self.mode(),
                domain,
                registry,
            )
    }

    /// Makes the pools. Networks of fewer than four addresses are refused.
    pub fn new(opt: Opts<S>) -> (res: Result<FakeDns<S>, Error>)
        requires
            opt.ipnet.wf(),
            opt.ipnet6.wf(),
            opt.store.wf(),
        ensures
            match res {
                Ok(dns) => {
                    &&& opt.ipnet.prefix_len <= 30
                    &&& opt.ipnet6.prefix_len <= 126
                    &&& made_over(dns, opt.ipnet, opt.ipnet6, opt.store)
                    &&& dns.filter() == opt.domain_filter
                    &&& dns.mode() == opt.filter_mode
                    &&& forall|registry: Seq<RuleProviderImpl>| dns.memory_ok(registry)
                },
                Err(e) => {
                    &&& e is InvalidConfig
                    &&& opt.ipnet.prefix_len > 30 || opt.ipnet6.prefix_len > 126
                    &&& e.text() == (if opt.ipnet.prefix_len > 30 {
                        "fake ip range "@ + ip::net_text(IpNet::V4(opt.ipnet))
                            + " is too small, need /30 or wider"@
                    } else {
                        "fake ipv6 range "@ + ip::net_text(IpNet::V6(opt.ipnet6))
                            + " is too small, need /126 or wider"@
                    })
                },
            },
    {
        let (min, max): (u32, u32) = match compute_v4_range(&opt.ipnet) {
            Some(range) => range,
            None => {
                let head: String = text::concat(
                    "fake ip range ",
                    write_net(IpNet::V4(opt.ipnet)).as_str(),
                );
                return Err(
                    Error::InvalidConfig(
                        text::concat(head.as_str(), " is too small, need /30 or wider"),
                    ),
                );
            },
        };
        let (prefix, prefix_len, min_host, max_host): (u128, u8, u128, u128) =
            match compute_v6_range(&opt.ipnet6) {
            Some(range) => range,
            None => {
                let head: String = text::concat(
                    "fake ipv6 range ",
                    write_net(IpNet::V6(opt.ipnet6)).as_str(),
                );
                return Err(
                    Error::InvalidConfig(
                        text::concat(head.as_str(), " is too small, need /126 or wider"),
                    ),
                );
            },
        };
        let size4: u32 = max - min + 1;
        let size6: u128 = max_host - min_host + 1;
        let v4_pool = FakePoolV4 { min, max, offset: opt.store.initial_offset_v4() % size4 };
        let v6_pool = FakePoolV6 {
            prefix,
            prefix_len,
            min_host,
            max_host,
            offset: opt.store.initial_offset_v6() % size6,
        };
        Ok(
            FakeDns {
                v4_pool,
                v6_pool,
                domain_filter: opt.domain_filter,
                filter_mode: opt.filter_mode,
                store: opt.store,
                skip_cache: verdicts_new(1000),
            },
        )
    }

    fn get(&mut self, host: &str) -> (res: IpAddr)
        requires
            old(self).wf(),
        ensures
            final(self).wf(),
            ({
                let pool = old(self).pool4();
                let addr = |o: int| pool.addr(o);
                let (at, _) = scan(old(self).held(), addr, pool.size(), pool.offset as int, 0);
                &&& 0 <= at < pool.size()
                &&& res == pool.addr(at)
                &&& final(self).held() == allocated(
                    old(self).held(),
                    addr,
                    pool.size(),
                    pool.offset as int,
                    host@,
                )
                &&& final(self).pool4() == (FakePoolV4 {
                    offset: next_offset(at, pool.size()) as u32,
                    ..pool
                })
            }),
            final(self).pool6() == old(self).pool6(),
            final(self).filter() == old(self).filter(),
            final(self).mode() == old(self).mode(),
            final(self).memory() == old(self).memory(),
    {
        let pool: FakePoolV4 = self.v4_pool;
        let size: u32 = pool.max - pool.min + 1;
        let ghost addr = |o: int| pool.addr(o);
        let ghost start = self.held();
        let mut offset: u32 = pool.offset;
        let mut tries: u32 = 0;
        proof {
            law_scan_takes_free_address(start, addr, size as int, offset as int);
        }
        while tries < size && self.store.exist(IpAddr::V4(pool.min + offset))
            invariant
                pool.wf(),
                size == pool.size(),
                offset < size,
                tries <= size,
                self.store.wf(),
                self.held() == start,
                addr == (|o: int| pool.addr(o)),
                scan(start, addr, size as int, offset as int, tries as int) == scan(
                    start,
                    addr,
                    size as int,
                    pool.offset as int,
                    0,
                ),
            decreases size - tries,
        {
            assert(addr(offset as int) == IpAddr::V4((pool.min + offset) as u32));
            offset = if offset + 1 >= size {
                0
            } else {
                offset + 1
            };
            tries = tries + 1;
        }
        let found: IpAddr = IpAddr::V4(pool.min + offset);
        assert(addr(offset as int) == found);
        if tries >= size {
            self.store.del_by_ip(found);
        }
        self.store.put_by_ip(found, host);
        self.v4_pool = FakePoolV4 {
            min: pool.min,
            max: pool.max,
            offset: if offset + 1 >= size {
                0
            } else {
                offset + 1
            },
        };
        found
    }

    /// Allocates an IPv6 address for a host.
    pub fn getv6(&mut self, host: &str) -> (res: IpAddr)
        requires
            old(self).wf(),
        ensures
            final(self).wf(),
            ({
                let pool = old(self).pool6();
                let addr = |o: int| pool.addr(o);
                let (at, _) = scan(old(self).held(), addr, pool.size(), pool.offset as int, 0);
                &&& 0 <= at < pool.size()
                &&& res == pool.addr(at)
                &&& final(self).held() == allocated(
                    old(self).held(),
                    addr,
                    pool.size(),
                    pool.offset as int,
                    host@,
                )
                &&& final(self).pool6() == (FakePoolV6 {
                    offset: next_offset(at, pool.size()) as u128,
                    ..pool
                })
            }),
            final(self).pool4() == old(self).pool4(),
            final(self).filter() == old(self).filter(),
            final(self).mode() == old(self).mode(),
            final(self).memory() == old(self).memory(),
    {
        let pool: FakePoolV6 = self.v6_pool;
        let size: u128 = pool.max_host - pool.min_host + 1;
        let ghost addr = |o: int| pool.addr(o);
        let ghost start = self.held();
        let mut offset: u128 = pool.offset;
        let mut tries: u128 = 0;
        proof {
            law_scan_takes_free_address(start, addr, size as int, offset as int);
        }
        while tries < size && self.store.exist(IpAddr::V6(pool.prefix + pool.min_host + offset))
            invariant
                pool.wf(),
                size == pool.size(),
                offset < size,
                tries <= size,
                self.store.wf(),
                self.held() == start,
                addr == (|o: int| pool.addr(o)),
                scan(start, addr, size as int, offset as int, tries as int) == scan(
                    start,
                    addr,
                    size as int,
                    pool.offset as int,
                    0,
                ),
            decreases size - tries,
        {
            assert(addr(offset as int) == IpAddr::V6(
                (pool.prefix + pool.min_host + offset) as u128,
            ));
            offset = if offset + 1 >= size {
                0
            } else {
                offset + 1
            };
            tries = tries + 1;
        }
        let found: IpAddr = IpAddr::V6(pool.prefix + pool.min_host + offset);
        assert(addr(offset as int) == found);
        if tries >= size {
            self.store.del_by_ip(found);
        }
        self.store.put_by_ip(found, host);
        self.v6_pool = FakePoolV6 {
            prefix: pool.prefix,
            prefix_len: pool.prefix_len,
            min_host: pool.min_host,
            max_host: pool.max_host,
            offset: if offset + 1 >= size {
                0
            } else {
                offset + 1
            },
        };
        found
    }

    /// The IPv4 address that stands for a host, allocated if it has none.
    pub fn lookup(&mut self, host: &str) -> (res: IpAddr)
        requires
            old(self).wf(),
        ensures
            found_v4(*old(self), *final(self), host@, res),
    {
        if let Some(known) = self.store.get_by_host(host) {
            return known;
        }
        let found: IpAddr = self.get(host);
        proof {
            self.store.lemma_wf();
            mem_store::law_put_host_pairs(self.held(), host@, found);
        }
        self.store.put_by_host(host, found);
        found
    }

    /// The IPv6 address that stands for a host, allocated if it has none.
    pub fn lookupv6(&mut self, host: &str) -> (res: IpAddr)
        requires
            old(self).wf(),
        ensures
            found_v6(*old(self), *final(self), host@, res),
    {
        if let Some(known) = self.store.get_v6_by_host(host) {
            return known;
        }
        let found: IpAddr = self.getv6(host);
        proof {
            self.store.lemma_wf();
            mem_store::law_put_host_pairs(self.held(), host@, found);
        }
        self.store.put_by_host(host, found);
        found
    }

    /// The host that an address stands for.
    pub fn reverse_lookup(&self, addr: IpAddr) -> (res: Option<String>)
        requires
            self.wf(),
        ensures
            res is Some <==> self.held().host_of(addr) is Some,
            res matches Some(h) ==> self.held().host_of(addr) == Some(h@),
    {
        self.store.get_by_ip(addr)
    }

    /// Binds the filter to its rule sets and forgets every verdict.
    pub fn add_rule_set(&mut self, registry: &Vec<RuleProviderImpl>)
        requires
            old(self).wf(),
        ensures
            final(self).wf(),
            final(self).pool4() == old(self).pool4(),
            final(self).pool6() == old(self).pool6(),
            final(self).held() == old(self).held(),
            final(self).mode() == old(self).mode(),
            final(self).filter() is Some <==> old(self).filter() is Some,
            old(self).filter() matches Some(f) ==> f.bound_as(
                final(self).filter().unwrap(),
                registry@,
            ),
            old(self).filter() matches Some(f) && f.names().len() > 0 ==> forall|
                registry: Seq<RuleProviderImpl>,
            | final(self).memory_ok(registry),
            !(old(self).filter() matches Some(f) && f.names().len() > 0) ==> final(self).memory()
                == old(self).memory(),
    {
        if let Some(mut filter) = self.domain_filter.take() {
            let bound: Option<Vec<usize>> = filter.add_rule_set(registry);
            self.domain_filter = Some(filter);
            if bound.is_some() {
                verdicts_clear(&mut self.skip_cache);
            }
        }
    }

    /// Forgets every verdict; to be called when a rule set has changed.
    pub fn rule_set_changed(&mut self)
        requires
            old(self).wf(),
        ensures
            final(self).wf(),
            final(self).pool4() == old(self).pool4(),
            final(self).pool6() == old(self).pool6(),
            final(self).held() == old(self).held(),
            final(self).filter() == old(self).filter(),
            final(self).mode() == old(self).mode(),
            forall|registry: Seq<RuleProviderImpl>| final(self).memory_ok(registry),
    {
        verdicts_clear(&mut self.skip_cache);
    }

    /// Whether a domain gets its real address. Verdicts are remembered.
    pub fn should_skip(&mut self, domain: &str, registry: &Vec<RuleProviderImpl>) -> (res: bool)
        requires
            old(self).wf(),
            old(self).memory_ok(registry@),
        ensures
            res == skips(old(self).filter(), old(self).mode(), domain@, registry@),
            same_but_memory(*old(self), *final(self), registry@),
    {
        if let Some(cached) = verdicts_get(&self.skip_cache, domain) {
            assert(self.memory().contains_key(domain@));
            return cached;
        }
        let verdict: bool = self.compute_should_skip(domain, registry);
        verdicts_insert(&mut self.skip_cache, domain.to_owned(), verdict);
        proof {
            let before = old(self).memory();
            let after = self.memory();
            let grown = before.insert(domain@, verdict);
            assert forall|d: Seq<char>| #[trigger] after.contains_key(d) implies after[d] == skips(
                self.filter(),
                self.mode(),
                d,
                registry@,
            ) by {
                assert(after.submap_of(grown));
                assert(after.dom().contains(d) && grown.dom().contains(d));
                assert(grown[d] == after[d]);
                if d != domain@ {
                    assert(before.contains_key(d));
                }
            }
        }
        verdict
    }

    fn compute_should_skip(&self, domain: &str, registry: &Vec<RuleProviderImpl>) -> (res: bool)
        ensures
            res == skips(self.filter(), self.mode(), domain@, registry@),
    {
        let matched: bool = match &self.domain_filter {
            Some(filter) => filter.apply(domain, registry),
            None => false,
        };
        match self.filter_mode {
            FakeIpFilterMode::Blacklist => matched,
            FakeIpFilterMode::Whitelist => !matched,
        }
    }

    /// Whether an address stands for a host.
    pub fn exist(&self, addr: IpAddr) -> (res: bool)
        requires
            self.wf(),
        ensures
            res == (self.held().host_of(addr) is Some),
    {
        self.store.exist(addr)
    }

    /// Whether an address lies in one of the pools.
    pub fn is_in_pool(&self, addr: IpAddr) -> (res: bool)
        requires
            self.wf(),
        ensures
            res == in_pools(self.pool4(), self.pool6(), addr),
    {
        match addr {
            IpAddr::V4(a) => {
                if a == 0xffff_ffff || (a >= 0xe000_0000 && a < 0xf000_0000) {
                    return false;
                }
                a >= self.v4_pool.min && a <= self.v4_pool.max
            },
            IpAddr::V6(a) => {
                if a >= 0xff00_0000_0000_0000_0000_0000_0000_0000 {
                    return false;
                }
                let host: u128 = v6_host(a, self.v6_pool.prefix_len);
                a - host == self.v6_pool.prefix && host >= self.v6_pool.min_host && host
                    <= self.v6_pool.max_host
            },
        }
    }

    /// Whether an address lies in one of the pools and stands for a host.
    pub fn is_fake_ip(&self, addr: IpAddr) -> (res: bool)
        requires
            self.wf(),
        ensures
            res == (in_pools(self.pool4(), self.pool6(), addr) && self.held().host_of(addr)
                is Some),
    {
        self.is_in_pool(addr) && self.store.exist(addr)
    }
}

/// A host keeps its IPv4 address: looked up once more, whatever came of the first lookup, it has the
/// same one and nothing changes. An address that was handed out anew stands for the host.
pub proof fn law_lookup_is_stable<S: Store>(
    before: FakeDns<S>,
    between: FakeDns<S>,
    after: FakeDns<S>,
    host: Seq<char>,
    first: IpAddr,
    second: IpAddr,
)
    requires
        found_v4(before, between, host, first),
        found_v4(between, after, host, second),
    ensures
        second == first,
        after.held() == between.held(),
        after.pool4() == between.pool4(),
        before.held().addr_of(host, false) is None ==> after.held().host_of(first) == Some(host),
{
}

/// A host keeps its IPv6 address in the same way.
pub proof fn law_lookupv6_is_stable<S: Store>(
    before: FakeDns<S>,
    between: FakeDns<S>,
    after: FakeDns<S>,
    host: Seq<char>,
    first: IpAddr,
    second: IpAddr,
)
    requires
        found_v6(before, between, host, first),
        found_v6(between, after, host, second),
    ensures
        second == first,
        after.held() == between.held(),
        after.pool6() == between.pool6(),
        before.held().addr_of(host, true) is None ==> after.held().host_of(first) == Some(host),
{
}

/// While an address of the IPv4 pool is free, a host that has none gets one that no host had.
pub proof fn law_free_address_is_taken<S: Store>(
    before: FakeDns<S>,
    after: FakeDns<S>,
    host: Seq<char>,
    res: IpAddr,
    offset: int,
)
    requires
        found_v4(before, after, host, res),
        before.held().addr_of(host, false) is None,
        before.pool4().wf(),
        0 <= offset < before.pool4().size(),
        before.held().host_of(before.pool4().addr(offset)) is None,
    ensures
        before.held().host_of(res) is None,
{
    let pool = before.pool4();
    let addr = |o: int| pool.addr(o);
    law_scan_takes_free_address(before.held(), addr, pool.size(), pool.offset as int);
    assert(addr(offset) == pool.addr(offset));
}

/// While an address of the IPv6 pool is free, a host that has none gets one that no host had.
pub proof fn law_free_v6_address_is_taken<S: Store>(
    before: FakeDns<S>,
    after: FakeDns<S>,
    host: Seq<char>,
    res: IpAddr,
    offset: int,
)
    requires
        found_v6(before, after, host, res),
        before.held().addr_of(host, true) is None,
        before.pool6().wf(),
        0 <= offset < before.pool6().size(),
        before.held().host_of(before.pool6().addr(offset)) is None,
    ensures
        before.held().host_of(res) is None,
{
    let pool = before.pool6();
    let addr = |o: int| pool.addr(o);
    law_scan_takes_free_address(before.held(), addr, pool.size(), pool.offset as int);
    assert(addr(offset) == pool.addr(offset));
}

/// A filter names the domains with real addresses or those with fake ones, as its mode says: the two
/// modes are opposites. Without a filter every domain gets a fake address in the one mode and none
/// does in the other.
pub proof fn law_modes_are_opposites(
    filter: Option<DomainFilter>,
    domain: Seq<char>,
    registry: Seq<RuleProviderImpl>,
)
    ensures
        skips(filter, FakeIpFilterMode::Blacklist, domain, registry) != skips(
            filter,
            FakeIpFilterMode::Whitelist,
            domain,
            registry,
        ),
        filter matches Some(f) ==> skips(filter, FakeIpFilterMode::Blacklist, domain, registry)
            == f.matches(domain, registry),
        filter is None ==> !skips(filter, FakeIpFilterMode::Blacklist, domain, registry),
{
}

/// Two hosts that are given new addresses one after the other get different ones while the pool has a
/// free one.
pub proof fn law_two_hosts_two_addresses<S: Store>(
    before: FakeDns<S>,
    between: FakeDns<S>,
    after: FakeDns<S>,
    hosts: (Seq<char>, Seq<char>),
    addrs: (IpAddr, IpAddr),
    free: int,
)
    requires
        found_v4(before, between, hosts.0, addrs.0),
        found_v4(between, after, hosts.1, addrs.1),
        before.held().addr_of(hosts.0, false) is None,
        between.held().addr_of(hosts.1, false) is None,
        between.pool4().wf(),
        0 <= free < between.pool4().size(),
        between.held().host_of(between.pool4().addr(free)) is None,
    ensures
        addrs.0 != addrs.1,
        after.held().host_of(addrs.1) == Some(hosts.1),
{
    law_free_address_is_taken(between, after, hosts.1, addrs.1, free);
}

proof fn lemma_in_network(addr: int, network: int, span: int)
    requires
        span > 0,
        network % span == 0,
        0 <= addr,
    ensures
        addr - addr % span == network <==> network <= addr < network + span,
{
    vstd::arithmetic::div_mod::lemma_fundamental_div_mod(addr, span);
    vstd::arithmetic::div_mod::lemma_fundamental_div_mod(network, span);
    vstd::arithmetic::div_mod::lemma_mod_bound(addr, span);
    let q = addr / span;
    let n = network / span;
    if network <= addr < network + span {
        assert(span * n == n * span) by (nonlinear_arith);
        vstd::arithmetic::div_mod::lemma_fundamental_div_mod_converse(addr, span, n, addr - network);
    }
}

/// The pool over an IPv4 network holds addresses of that network alone, and all of them but the first
/// two; where the network is the whole address space, the last one is left out too. A network with
/// fewer than four addresses has no pool.
pub proof fn law_v4_pool_is_the_network(net: Ipv4Net, addr: u32)
    requires
        net.wf(),
    ensures
        v4_range(net) is None <==> net.prefix_len > 30,
        v4_range(net) matches Some((min, max)) ==> (min <= addr <= max <==> IpNet::V4(net).has(
            IpAddr::V4(addr),
        ) && addr != net.network_spec() && addr != net.network_spec() + 1 && (net.prefix_len == 0
            ==> addr != u32::MAX)),
{
    ip::lemma_pow2_ends();
    lemma_network_fits(net.addr as int, 32, net.prefix_len as nat);
    let span = net.span();
    let network = net.network_spec();
    lemma_in_network(addr as int, network, span);
    if net.prefix_len == 0 {
        vstd::arithmetic::div_mod::lemma_small_mod(net.addr as nat, pow2(32));
    }
}

/// The pool over an IPv6 network holds addresses of that network alone: all but the first and the
/// last, and for the whole address space all but the last two.
pub proof fn law_v6_pool_is_the_network(net: Ipv6Net, addr: u128)
    requires
        net.wf(),
    ensures
        v6_last_host(net) is None <==> net.prefix_len > 126,
        v6_last_host(net) matches Some(last) ==> (net.network_spec() + 1 <= addr
            <= net.network_spec() + last <==> IpNet::V6(net).has(IpAddr::V6(addr)) && addr
            != net.network_spec() && (if net.prefix_len == 0 {
            addr < u128::MAX - 1
        } else {
            addr != net.network_spec() + pow2((128 - net.prefix_len) as nat) - 1
        })),
{
    ip::lemma_pow2_ends();
    lemma_network_fits(net.addr as int, 128, net.prefix_len as nat);
    let span = pow2((128 - net.prefix_len) as nat) as int;
    let network = net.network_spec();
    lemma_in_network(addr as int, network, span);
    if net.prefix_len == 0 {
        vstd::arithmetic::div_mod::lemma_small_mod(net.addr as nat, pow2(128));
    }
}

/// A search goes through the pool in order from where it starts, round the end: every address that it
/// passes over has a host.
pub proof fn law_search_goes_in_order(
    s: StoreState,
    addr: spec_fn(int) -> IpAddr,
    size: int,
    offset: int,
)
    requires
        0 <= offset < size,
        s.host_of(addr(offset)) is None,
    ensures
        scan(s, addr, size, offset, 0) == (offset, false),
        forall|start: int|
            0 <= start < size && next_offset(start, size) == offset && s.host_of(
                #[trigger] addr(start),
            ) is Some && size > 1 ==> scan(s, addr, size, start, 0) == (offset, false),
{
    assert forall|start: int|
        0 <= start < size && next_offset(start, size) == offset && s.host_of(#[trigger] addr(start))
            is Some && size > 1 implies scan(s, addr, size, start, 0) == (offset, false) by {
        reveal_with_fuel(scan, 3);
    }
}

/// When every address of a pool is taken, the host that had the address given out next loses it: it
/// has none of that version from then on, and the new host has it.
pub proof fn law_evicted_host_is_forgotten(
    s: StoreState,
    addr: spec_fn(int) -> IpAddr,
    size: int,
    offset: int,
    host: Seq<char>,
)
    requires
        s.ok(),
        0 <= offset < size,
        forall|o: int| 0 <= o < size ==> s.host_of(#[trigger] addr(o)) is Some,
    ensures
        ({
            let after = allocated(s, addr, size, offset, host);
            let former = s.host_of(addr(offset)).unwrap();
            &&& after.host_of(addr(offset)) == Some(host)
            &&& after.addr_of(host, mem_store::is_v6(addr(offset))) == Some(addr(offset))
            &&& former != host ==> after.addr_of(former, mem_store::is_v6(addr(offset))) is None
        }),
{
    law_scan_takes_free_address(s, addr, size, offset);
    let ip = addr(offset);
    let former = s.host_of(ip).unwrap();
    mem_store::law_without_forgets(s, ip);
    mem_store::law_put_ip_pairs(s.without(ip), ip, host);
    if former != host {
        mem_store::law_put_ip_gives_no_other(s.without(ip), ip, host, former);
    }
}

} // verus!
