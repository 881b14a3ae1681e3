//! A set of IP networks with membership by longest match.
use vstd::arithmetic::power2::pow2;
use vstd::prelude::*;

use crate::collections;
use crate::collections::{
    v4_table_insert, v4_table_items, v4_table_len, v4_table_match, v4_table_new, v6_table_insert,
    v6_table_items, v6_table_len, v6_table_match, v6_table_new, V4Table, V6Table,
};
use crate::ip;
use crate::ip::{parse_net, IpAddr, IpNet, Ipv4Net, Ipv6Net};

verus! {

/// A set of IP networks.
pub struct CidrTrie {
    v4: V4Table,
    v6: V6Table,
}

/// The network without its host bits.
pub open spec fn truncated(net: IpNet) -> IpNet {
    match net {
        IpNet::V4(n) => IpNet::V4(Ipv4Net { addr: n.network_spec() as u32, prefix_len: n.prefix_len }),
        IpNet::V6(n) => IpNet::V6(
            Ipv6Net { addr: n.network_spec() as u128, prefix_len: n.prefix_len },
        ),
    }
}

/// Some network of the set holds the address.
pub open spec fn any_has(nets: Set<IpNet>, ip: IpAddr) -> bool {
    exists|net: IpNet| #[trigger] nets.contains(net) && net.has(ip)
}

proof fn lemma_network_is_multiple(addr: int, span: int)
    requires
        span > 0,
    ensures
        (addr - addr % span) % span == 0,
{
    vstd::arithmetic::div_mod::lemma_fundamental_div_mod(addr, span);
    vstd::arithmetic::div_mod::lemma_mod_multiples_basic(addr / span, span);
    assert(addr - addr % span == (addr / span) * span) by (nonlinear_arith)
        requires
            addr == span * (addr / span) + addr % span,
    ;
}

impl CidrTrie {
    /// The IPv4 networks: address and prefix length.
    pub closed spec fn v4_nets(&self) -> Set<(u32, u8)> {
        collections::v4_prefixes(self.v4)
    }

    /// The IPv6 networks: address and prefix length.
    pub closed spec fn v6_nets(&self) -> Set<(u128, u8)> {
        collections::v6_prefixes(self.v6)
    }

    /// The networks, each without host bits.
    pub open spec fn view(&self) -> Set<IpNet> {
        Set::new(
            |net: IpNet|
                match net {
                    IpNet::V4(n) => self.v4_nets().contains((n.addr, n.prefix_len)),
                    IpNet::V6(n) => self.v6_nets().contains((n.addr, n.prefix_len)),
                },
        )
    }

    /// Every network is without host bits.
    #[verifier::type_invariant]
    spec fn wf(&self) -> bool {
        &&& forall|p: (u32, u8)| #[trigger]
            collections::v4_prefixes(self.v4).contains(p) ==> p.1 <= 32 && p.0 as int % (pow2(
                (32 - p.1) as nat,
            ) as int) == 0
        &&& forall|p: (u128, u8)| #[trigger]
            collections::v6_prefixes(self.v6).contains(p) ==> p.1 <= 128 && p.0 as int % (pow2(
                (128 - p.1) as nat,
            ) as int) == 0
    }

    /// An empty set.
    pub fn new() -> (res: CidrTrie)
        ensures
            res@ == Set::<IpNet>::empty(),
    {
        let res = CidrTrie { v4: v4_table_new(), v6: v6_table_new() };
        assert(res@ =~= Set::<IpNet>::empty());
        res
    }

    /// Adds a network, without its host bits.
    pub fn insert_net(&mut self, net: IpNet)
        requires
            net.wf(),
        ensures
            final(self)@ == old(self)@.insert(truncated(net)),
    {
        proof {
            use_type_invariant(&*self);
        }
        match net {
            IpNet::V4(n) => {
                let addr: u32 = n.network();
                proof {
                    vstd::arithmetic::power2::lemma_pow2_pos((32 - n.prefix_len) as nat);
                    lemma_network_is_multiple(n.addr as int, n.span());
                }
                let mut table = v4_table_new();
                std::mem::swap(&mut table, &mut self.v4);
                v4_table_insert(&mut table, addr, n.prefix_len);
                std::mem::swap(&mut table, &mut self.v4);
            },
            IpNet::V6(n) => {
                let addr: u128 = n.network();
                proof {
                    vstd::arithmetic::power2::lemma_pow2_pos((128 - n.prefix_len) as nat);
                    lemma_network_is_multiple(
                        n.addr as int,
                        pow2((128 - n.prefix_len) as nat) as int,
                    );
                }
                let mut table = v6_table_new();
                std::mem::swap(&mut table, &mut self.v6);
                v6_table_insert(&mut table, addr, n.prefix_len);
                std::mem::swap(&mut table, &mut self.v6);
            },
        }
        assert(self@ =~= old(self)@.insert(truncated(net)));
    }

    /// Adds the network that a text writes; `false` when it writes none.
    pub fn insert(&mut self, cidr: &str) -> (res: bool)
        ensures
            res == (ip::net_value(cidr@) is Some),
            final(self)@ == (match ip::net_value(cidr@) {
                Some(net) => old(self)@.insert(truncated(net)),
                None => old(self)@,
            }),
    {
        match parse_net(cidr) {
            Some(net) => {
                self.insert_net(net);
                true
            },
            None => false,
        }
    }

    /// Whether a network of the set holds the address.
    pub fn contains(&self, addr: IpAddr) -> (res: bool)
        ensures
            res == any_has(self@, addr),
    {
        match addr {
            IpAddr::V4(v4) => self.contains_v4(v4),
            IpAddr::V6(v6) => self.contains_v6(v6),
        }
    }

    /// Whether a network of the set holds the IPv4 address.
    pub fn contains_v4(&self, addr: u32) -> (res: bool)
        ensures
            res == any_has(self@, IpAddr::V4(addr)),
    {
        proof {
            use_type_invariant(self);
            let prefixes = collections::v4_prefixes(self.v4);
            if collections::v4_covered(prefixes, addr) {
                let p = choose|p: (u32, u8)| #[trigger]
                    prefixes.contains(p) && collections::covers(
                        p.0 as int,
                        p.1 as int,
                        32,
                        addr as int,
                    );
                let net = IpNet::V4(Ipv4Net { addr: p.0, prefix_len: p.1 });
                assert(self@.contains(net) && net.has(IpAddr::V4(addr)));
            }
            if any_has(self@, IpAddr::V4(addr)) {
                let net = choose|net: IpNet| #[trigger]
                    self@.contains(net) && net.has(IpAddr::V4(addr));
                let n = net->V4_0;
                assert(prefixes.contains((n.addr, n.prefix_len)));
            }
        }
        v4_table_match(&self.v4, addr).is_some()
    }

    /// Whether a network of the set holds the IPv6 address.
    pub fn contains_v6(&self, addr: u128) -> (res: bool)
        ensures
            res == any_has(self@, IpAddr::V6(addr)),
    {
        proof {
            use_type_invariant(self);
            let prefixes = collections::v6_prefixes(self.v6);
            if collections::v6_covered(prefixes, addr) {
                let p = choose|p: (u128, u8)| #[trigger]
                    prefixes.contains(p) && collections::covers(
                        p.0 as int,
                        p.1 as int,
                        128,
                        addr as int,
                    );
                let net = IpNet::V6(Ipv6Net { addr: p.0, prefix_len: p.1 });
                assert(self@.contains(net) && net.has(IpAddr::V6(addr)));
            }
            if any_has(self@, IpAddr::V6(addr)) {
                let net = choose|net: IpNet| #[trigger]
                    self@.contains(net) && net.has(IpAddr::V6(addr));
                let n = net->V6_0;
                assert(prefixes.contains((n.addr, n.prefix_len)));
            }
        }
        v6_table_match(&self.v6, addr).is_some()
    }

    /// The networks, each once.
    pub fn get_ip_cidrs(&self) -> (res: Vec<IpNet>)
        ensures
            res@.no_duplicates(),
            res@.to_set() == self@,
    {
        let a: Vec<(u32, u8)> = v4_table_items(&self.v4);
        let b: Vec<(u128, u8)> = v6_table_items(&self.v6);
        let mut res: Vec<IpNet> = Vec::new();
        let mut i: usize = 0;
        while i < a.len()
            invariant
                i <= a@.len(),
                res@.len() == i,
                forall|k: int|
                    0 <= k < i ==> #[trigger] res@[k] == IpNet::V4(
                        Ipv4Net { addr: a@[k].0, prefix_len: a@[k].1 },
                    ),
            decreases a@.len() - i,
        {
            res.push(IpNet::V4(Ipv4Net { addr: a[i].0, prefix_len: a[i].1 }));
            i = i + 1;
        }
        let mut j: usize = 0;
        while j < b.len()
            invariant
                j <= b@.len(),
                res@.len() == a@.len() + j,
                forall|k: int|
                    0 <= k < a@.len() ==> #[trigger] res@[k] == IpNet::V4(
                        Ipv4Net { addr: a@[k].0, prefix_len: a@[k].1 },
                    ),
                forall|k: int|
                    a@.len() <= k < res@.len() ==> #[trigger] res@[k] == IpNet::V6(
                        Ipv6Net { addr: b@[k - a@.len()].0, prefix_len: b@[k - a@.len()].1 },
                    ),
            decreases b@.len() - j,
        {
            res.push(IpNet::V6(Ipv6Net { addr: b[j].0, prefix_len: b[j].1 }));
            j = j + 1;
        }
        proof {
            assert forall|net: IpNet| res@.to_set().contains(net) == self@.contains(net) by {
                match net {
                    IpNet::V4(n) => {
                        if self@.contains(net) {
                            assert(a@.to_set().contains((n.addr, n.prefix_len)));
                            let k = a@.index_of((n.addr, n.prefix_len));
                            assert(res@[k] == net);
                        }
                        if res@.contains(net) {
                            let k = res@.index_of(net);
                            assert(a@.contains(a@[k]));
                            assert(a@.to_set().contains((n.addr, n.prefix_len)));
                        }
                    },
                    IpNet::V6(n) => {
                        if self@.contains(net) {
                            assert(b@.to_set().contains((n.addr, n.prefix_len)));
                            let k = b@.index_of((n.addr, n.prefix_len));
                            assert(res@[a@.len() + k] == net);
                        }
                        if res@.contains(net) {
                            let k = res@.index_of(net);
                            assert(b@.contains(b@[k - a@.len()]));
                            assert(b@.to_set().contains((n.addr, n.prefix_len)));
                        }
                    },
                }
            }
            assert(res@.to_set() =~= self@);
            assert forall|x: int, y: int| 0 <= x < y < res@.len() implies res@[x] != res@[y] by {
                if y < a@.len() {
                    assert(a@[x] != a@[y]);
                } else if x >= a@.len() {
                    assert(b@[x - a@.len()] != b@[y - a@.len()]);
                }
            }
        }
        res
    }

    /// How many networks the set has.
    pub fn len(&self) -> (res: usize)
        requires
            self.v4_nets().len() + self.v6_nets().len() <= usize::MAX,
        ensures
            res == self.v4_nets().len() + self.v6_nets().len(),
    {
        v4_table_len(&self.v4) + v6_table_len(&self.v6)
    }

    /// Whether the set has no network.
    pub fn is_empty(&self) -> (res: bool)
        ensures
            res == (self.v4_nets().len() == 0 && self.v6_nets().len() == 0),
    {
        v4_table_len(&self.v4) == 0 && v6_table_len(&self.v6) == 0
    }
}

/// A network and the same network without its host bits hold the same addresses.
proof fn lemma_truncated_has(net: IpNet, addr: IpAddr)
    requires
        net.wf(),
    ensures
        truncated(net).has(addr) == net.has(addr),
{
    match net {
        IpNet::V4(n) => {
            vstd::arithmetic::power2::lemma_pow2_pos((32 - n.prefix_len) as nat);
            lemma_network_is_multiple(n.addr as int, n.span());
            vstd::arithmetic::div_mod::lemma_mod_bound(n.addr as int, n.span());
            vstd::arithmetic::div_mod::lemma_mod_decreases(n.addr as nat, n.span() as nat);
        },
        IpNet::V6(n) => {
            let span = pow2((128 - n.prefix_len) as nat) as int;
            vstd::arithmetic::power2::lemma_pow2_pos((128 - n.prefix_len) as nat);
            lemma_network_is_multiple(n.addr as int, span);
            vstd::arithmetic::div_mod::lemma_mod_bound(n.addr as int, span);
            vstd::arithmetic::div_mod::lemma_mod_decreases(n.addr as nat, span as nat);
        },
    }
}

/// Once a network is added, the set holds the addresses it held before and those of the network,
/// and no others.
pub proof fn law_insert_then_contains(nets: Set<IpNet>, net: IpNet, addr: IpAddr)
    requires
        net.wf(),
    ensures
        any_has(nets.insert(truncated(net)), addr) == (any_has(nets, addr) || net.has(addr)),
{
    lemma_truncated_has(net, addr);
    let more = nets.insert(truncated(net));
    assert(more.contains(truncated(net)));
    if any_has(nets, addr) {
        let n = choose|n: IpNet| #[trigger] nets.contains(n) && n.has(addr);
        assert(more.contains(n));
    }
    if any_has(more, addr) {
        let n = choose|n: IpNet| #[trigger] more.contains(n) && n.has(addr);
        assert(n == truncated(net) || nets.contains(n));
    }
}

} // verus!
