//! The fake-IP store that is kept in a file: a store in memory, and the changes that wait to be
//! written.
use vstd::prelude::*;

use crate::dns::fakeip;
use crate::dns::fakeip::mem_store;
use crate::dns::fakeip::mem_store::{check_v6, make_host_key, InMemStore, StoreState};
use crate::dns::fakeip::{compute_v4_range, compute_v6_range, Store};
use crate::ip;
use crate::ip::{parse_ip, v6_host, write_ip, IpAddr, Ipv4Net, Ipv6Net};
use crate::profile;
use crate::text;

verus! {

/// How many waiting changes are written at once at the latest.
pub const BATCH_LIMIT: usize = 512;

/// The address may be used with the networks: it lies in a pool over one of them.
pub open spec fn usable(v4: Ipv4Net, v6: Ipv6Net, addr: IpAddr) -> bool {
    match addr {
        IpAddr::V4(a) => fakeip::v4_range(v4) matches Some((min, max)) && !fakeip::v4_reserved(a)
            && min <= a <= max,
        IpAddr::V6(a) => fakeip::v6_last_host(v6) matches Some(last) && !fakeip::v6_reserved(a) && a
            - ip::host_part(a, v6.prefix_len) == v6.network_spec() && 1 <= ip::host_part(
            a,
            v6.prefix_len,
        ) <= last,
    }
}

/// The host and the version that a stored key names; a key without a version goes by the address.
pub open spec fn key_host(key: Seq<char>, addr: IpAddr) -> Option<Seq<char>> {
    if text::has_suffix(key, "#v4"@) {
        if mem_store::is_v6(addr) {
            None
        } else {
            Some(key.take(key.len() - "#v4"@.len()))
        }
    } else if text::has_suffix(key, "#v6"@) {
        if mem_store::is_v6(addr) {
            Some(key.take(key.len() - "#v6"@.len()))
        } else {
            None
        }
    } else {
        Some(key)
    }
}

/// A pair of texts.
pub open spec fn pair_view(p: (String, String)) -> (Seq<char>, Seq<char>) {
    (p.0@, p.1@)
}

/// The stored pairs as plain values.
pub open spec fn pair_views(v: Seq<(String, String)>) -> Seq<(Seq<char>, Seq<char>)> {
    v.map_values(|p: (String, String)| pair_view(p))
}

/// The store once the first `n` pairs of key and address are loaded.
pub open spec fn warmed_by_host(
    s: StoreState,
    v4: Ipv4Net,
    v6: Ipv6Net,
    pairs: Seq<(Seq<char>, Seq<char>)>,
    n: int,
) -> StoreState
    decreases n,
{
    if n <= 0 {
        s
    } else {
        let before = warmed_by_host(s, v4, v6, pairs, n - 1);
        match ip::ip_value(pairs[n - 1].1) {
            Some(addr) if usable(v4, v6, addr) => match key_host(pairs[n - 1].0, addr) {
                Some(host) => before.put_host(host, addr),
                None => before,
            },
            _ => before,
        }
    }
}

/// The store once the first `n` pairs of address and host are loaded.
pub open spec fn warmed_by_ip(
    s: StoreState,
    v4: Ipv4Net,
    v6: Ipv6Net,
    pairs: Seq<(Seq<char>, Seq<char>)>,
    n: int,
) -> StoreState
    decreases n,
{
    if n <= 0 {
        s
    } else {
        let before = warmed_by_ip(s, v4, v6, pairs, n - 1);
        match ip::ip_value(pairs[n - 1].0) {
            Some(addr) if usable(v4, v6, addr) => before.put_ip(addr, pairs[n - 1].1),
            _ => before,
        }
    }
}

/// What has to be deleted of the first `n` pairs of key and address: those whose address cannot
/// be used.
pub open spec fn stale_by_host(
    v4: Ipv4Net,
    v6: Ipv6Net,
    pairs: Seq<(Seq<char>, Seq<char>)>,
    n: int,
) -> Seq<(Seq<char>, Option<Seq<char>>)>
    decreases n,
{
    if n <= 0 {
        Seq::empty()
    } else {
        let before = stale_by_host(v4, v6, pairs, n - 1);
        if ip::ip_value(pairs[n - 1].1) matches Some(addr) && usable(v4, v6, addr) {
            before
        } else {
            before.push((pairs[n - 1].1, Some(pairs[n - 1].0)))
        }
    }
}

/// What has to be deleted of the first `n` pairs of address and host: those whose address cannot
/// be used, with the host's key where the text is an address at all.
pub open spec fn stale_by_ip(
    v4: Ipv4Net,
    v6: Ipv6Net,
    pairs: Seq<(Seq<char>, Seq<char>)>,
    n: int,
) -> Seq<(Seq<char>, Option<Seq<char>>)>
    decreases n,
{
    if n <= 0 {
        Seq::empty()
    } else {
        let before = stale_by_ip(v4, v6, pairs, n - 1);
        match ip::ip_value(pairs[n - 1].0) {
            Some(addr) => if usable(v4, v6, addr) {
                before
            } else {
                before.push(
                    (
                        pairs[n - 1].0,
                        Some(mem_store::host_key(pairs[n - 1].1, mem_store::is_v6(addr))),
                    ),
                )
            },
            None => before.push((pairs[n - 1].0, None)),
        }
    }
}

/// The offset of an IPv4 address in the pool.
pub open spec fn offset4(v4: Ipv4Net, v6: Ipv6Net, s: Seq<char>) -> Option<int> {
    match ip::ip_value(s) {
        Some(IpAddr::V4(a)) => if usable(v4, v6, IpAddr::V4(a)) {
            Some(a - fakeip::v4_range(v4).unwrap().0)
        } else {
            None
        },
        _ => None,
    }
}

/// The offset of an IPv6 address in the pool.
pub open spec fn offset6(v4: Ipv4Net, v6: Ipv6Net, s: Seq<char>) -> Option<int> {
    match ip::ip_value(s) {
        Some(IpAddr::V6(a)) => if usable(v4, v6, IpAddr::V6(a)) {
            Some(ip::host_part(a, v6.prefix_len) - 1)
        } else {
            None
        },
        _ => None,
    }
}

/// The greater of two offsets, where there are any.
pub open spec fn greater(a: Option<int>, b: Option<int>) -> Option<int> {
    match (a, b) {
        (Some(x), Some(y)) => Some(
            if x >= y {
                x
            } else {
                y
            },
        ),
        (Some(x), None) => Some(x),
        (None, y) => y,
    }
}

/// The greatest offset of an IPv4 address among the first `n` pairs.
pub open spec fn max_offset4(
    v4: Ipv4Net,
    v6: Ipv6Net,
    pairs: Seq<(Seq<char>, Seq<char>)>,
    n: int,
) -> Option<int>
    decreases n,
{
    if n <= 0 {
        None
    } else {
        greater(max_offset4(v4, v6, pairs, n - 1), offset4(v4, v6, pairs[n - 1].0))
    }
}

/// The greatest offset of an IPv6 address among the first `n` pairs.
pub open spec fn max_offset6(
    v4: Ipv4Net,
    v6: Ipv6Net,
    pairs: Seq<(Seq<char>, Seq<char>)>,
    n: int,
) -> Option<int>
    decreases n,
{
    if n <= 0 {
        None
    } else {
        greater(max_offset6(v4, v6, pairs, n - 1), offset6(v4, v6, pairs[n - 1].0))
    }
}

/// The deletions as plain values.
pub open spec fn delete_view(d: (String, Option<String>)) -> (Seq<char>, Option<Seq<char>>) {
    (
        d.0@,
        match d.1 {
            Some(k) => Some(k@),
            None => None,
        },
    )
}

/// The deletions as plain values.
pub open spec fn delete_views(v: Seq<(String, Option<String>)>) -> Seq<
    (Seq<char>, Option<Seq<char>>),
> {
    v.map_values(|d: (String, Option<String>)| delete_view(d))
}

/// The insertions as plain values: address, host and key.
pub open spec fn put_views(v: Seq<(String, String, String)>) -> Seq<
    (Seq<char>, Seq<char>, Seq<char>),
> {
    v.map_values(|p: (String, String, String)| (p.0@, p.1@, p.2@))
}

/// Whether the address may be used with the networks.
fn check_usable(v4: &Ipv4Net, v6: &Ipv6Net, addr: &IpAddr) -> (res: bool)
    requires
        v4.wf(),
        v6.wf(),
    ensures
        res == usable(*v4, *v6, *addr),
{
    match addr {
        IpAddr::V4(a) => match compute_v4_range(v4) {
            Some((min, max)) => *a != 0xffff_ffff && !(*a >= 0xe000_0000 && *a < 0xf000_0000)
                && min <= *a && *a <= max,
            None => false,
        },
        IpAddr::V6(a) => match compute_v6_range(v6) {
            Some((prefix, len, min_host, max_host)) => {
                let host: u128 = v6_host(*a, len);
                *a < 0xff00_0000_0000_0000_0000_0000_0000_0000 && *a - host == prefix && min_host
                    <= host && host <= max_host
            },
            None => false,
        },
    }
}

/// The host that a stored key names.
fn read_key_host(key: &str, addr: &IpAddr) -> (res: Option<String>)
    ensures
        res is Some <==> key_host(key@, *addr) is Some,
        res matches Some(h) ==> key_host(key@, *addr) == Some(h@),
{
    let all: Vec<char> = text::chars(key);
    let four: Vec<char> = text::chars("#v4");
    let six: Vec<char> = text::chars("#v6");
    if text::ends_with(&all, &four) {
        if check_v6(addr) {
            return None;
        }
        let host: Vec<char> = text::slice(&all, 0, all.len() - four.len());
        assert(host@ =~= key@.take(key@.len() - "#v4"@.len()));
        Some(text::text(&host))
    } else if text::ends_with(&all, &six) {
        if !check_v6(addr) {
            return None;
        }
        let host: Vec<char> = text::slice(&all, 0, all.len() - six.len());
        assert(host@ =~= key@.take(key@.len() - "#v6"@.len()));
        Some(text::text(&host))
    } else {
        Some(key.to_owned())
    }
}

/// A fake-IP store whose changes wait to be written to a file.
pub struct FileStore {
    cache: InMemStore,
    puts: Vec<(String, String, String)>,
    deletes: Vec<(String, Option<String>)>,
    initial_v4_offset: u32,
    initial_v6_offset: u128,
}

/// The offset behind the greatest one in use, back at the start behind the last.
pub open spec fn resume(greatest: Option<int>, size: int) -> int {
    match greatest {
        Some(o) => if size > 0 {
            (o + 1) % size
        } else {
            0
        },
        None => 0,
    }
}

/// The size of the IPv4 pool.
pub open spec fn size4(v4: Ipv4Net) -> int {
    match fakeip::v4_range(v4) {
        Some((min, max)) => max - min + 1,
        None => 0,
    }
}

/// The size of the IPv6 pool.
pub open spec fn size6(v6: Ipv6Net) -> int {
    match fakeip::v6_last_host(v6) {
        Some(last) => last,
        None => 0,
    }
}

impl FileStore {
    /// The insertions that wait, each as address, host and key.
    pub closed spec fn waiting_puts(&self) -> Seq<(Seq<char>, Seq<char>, Seq<char>)> {
        put_views(self.puts@)
    }

    /// The deletions that wait, each as address and key.
    pub closed spec fn waiting_deletes(&self) -> Seq<(Seq<char>, Option<Seq<char>>)> {
        delete_views(self.deletes@)
    }

    /// Loads a store of ten thousand entries.
    pub fn new(
        host_to_ip: &Vec<(String, String)>,
        ip_to_host: &Vec<(String, String)>,
        ipnet: Ipv4Net,
        ipnet6: Ipv6Net,
    ) -> (res: (FileStore, Vec<(String, Option<String>)>))
        requires
            ipnet.wf(),
            ipnet6.wf(),
        ensures
            loaded(res.0, res.1@, 10_000, host_to_ip@, ip_to_host@, ipnet, ipnet6),
    {
        FileStore::with_capacity(host_to_ip, ip_to_host, 10_000, ipnet, ipnet6)
    }

    /// Loads what a file holds: the pairs by host and then those by address. Pairs whose address
    /// cannot be used with the networks are given back to be deleted.
    #[verifier::rlimit(40)]
    pub fn with_capacity(
        host_to_ip: &Vec<(String, String)>,
        ip_to_host: &Vec<(String, String)>,
        capacity: usize,
        ipnet: Ipv4Net,
        ipnet6: Ipv6Net,
    ) -> (res: (FileStore, Vec<(String, Option<String>)>))
        requires
            ipnet.wf(),
            ipnet6.wf(),
        ensures
            loaded(res.0, res.1@, capacity, host_to_ip@, ip_to_host@, ipnet, ipnet6),
    {
        let mut size: usize = capacity;
        if size < ip_to_host.len() {
            size = ip_to_host.len();
        }
        if size < host_to_ip.len() {
            size = host_to_ip.len();
        }
        let mut cache: InMemStore = InMemStore::new(size);
        let ghost start = cache.state();
        let ghost by_host = pair_views(host_to_ip@);
        let ghost by_ip = pair_views(ip_to_host@);
        let mut stale: Vec<(String, Option<String>)> = Vec::new();
        let mut i: usize = 0;
        assert(delete_views(stale@) =~= Seq::empty());
        while i < host_to_ip.len()
            invariant
                ipnet.wf(),
                ipnet6.wf(),
                i <= host_to_ip@.len(),
                by_host == pair_views(host_to_ip@),
                cache.wf(),
                cache.state() == warmed_by_host(start, ipnet, ipnet6, by_host, i as int),
                delete_views(stale@) == stale_by_host(ipnet, ipnet6, by_host, i as int),
            decreases host_to_ip@.len() - i,
        {
            let ghost before = stale@;
            let key: &String = &host_to_ip[i].0;
            let addr_text: &String = &host_to_ip[i].1;
            assert(by_host[i as int] == (key@, addr_text@));
            let parsed: Option<IpAddr> = parse_ip(addr_text.as_str());
            let good: bool = match &parsed {
                Some(addr) => check_usable(&ipnet, &ipnet6, addr),
                None => false,
            };
            if good {
                let addr: IpAddr = parsed.unwrap();
                if let Some(host) = read_key_host(key.as_str(), &addr) {
                    cache.put_by_host(host.as_str(), addr);
                }
            } else {
                stale.push((addr_text.clone(), Some(key.clone())));
                assert(delete_views(stale@) =~= delete_views(before).push(
                    (addr_text@, Some(key@)),
                ));
            }
            i = i + 1;
        }
        let ghost warm = cache.state();
        let ghost pruned = delete_views(stale@);
        let mut max4: Option<u32> = None;
        let mut max6: Option<u128> = None;
        let mut j: usize = 0;
        assert(pruned + stale_by_ip(ipnet, ipnet6, by_ip, 0) =~= pruned);
        while j < ip_to_host.len()
            invariant
                ipnet.wf(),
                ipnet6.wf(),
                j <= ip_to_host@.len(),
                by_ip == pair_views(ip_to_host@),
                cache.wf(),
                cache.state() == warmed_by_ip(warm, ipnet, ipnet6, by_ip, j as int),
                delete_views(stale@) == pruned + stale_by_ip(ipnet, ipnet6, by_ip, j as int),
                max_offset4(ipnet, ipnet6, by_ip, j as int) == (match max4 {
                    Some(o) => Some(o as int),
                    None => None,
                }),
                max4 matches Some(o) ==> o < size4(ipnet),
                max_offset6(ipnet, ipnet6, by_ip, j as int) == (match max6 {
                    Some(o) => Some(o as int),
                    None => None,
                }),
                max6 matches Some(o) ==> o < size6(ipnet6),
            decreases ip_to_host@.len() - j,
        {
            let ghost before = stale@;
            let addr_text: &String = &ip_to_host[j].0;
            let host: &String = &ip_to_host[j].1;
            assert(by_ip[j as int] == (addr_text@, host@));
            let ghost old_stale = stale_by_ip(ipnet, ipnet6, by_ip, j as int);
            match parse_ip(addr_text.as_str()) {
                Some(addr) => {
                    if check_usable(&ipnet, &ipnet6, &addr) {
                        match addr {
                            IpAddr::V4(a) => {
                                if let Some((min, _)) = compute_v4_range(&ipnet) {
                                    let offset: u32 = a - min;
                                    max4 = match max4 {
                                        Some(m) => Some(
                                            if m >= offset {
                                                m
                                            } else {
                                                offset
                                            },
                                        ),
                                        None => Some(offset),
                                    };
                                }
                            },
                            IpAddr::V6(a) => {
                                let offset: u128 = v6_host(a, ipnet6.prefix_len) - 1;
                                max6 = match max6 {
                                    Some(m) => Some(
                                        if m >= offset {
                                            m
                                        } else {
                                            offset
                                        },
                                    ),
                                    None => Some(offset),
                                };
                            },
                        }
                        cache.put_by_ip(addr, host.as_str());
                    } else {
                        let key: String = make_host_key(host.as_str(), check_v6(&addr));
                        stale.push((addr_text.clone(), Some(key)));
                        assert(delete_views(stale@) =~= delete_views(before).push(
                            (addr_text@, Some(key@)),
                        ));
                        assert(delete_views(stale@) =~= pruned + old_stale.push(
                            (addr_text@, Some(key@)),
                        ));
                    }
                },
                None => {
                    stale.push((addr_text.clone(), None));
                    assert(delete_views(stale@) =~= delete_views(before).push((addr_text@, None)));
                    assert(delete_views(stale@) =~= pruned + old_stale.push((addr_text@, None)));
                },
            }
            j = j + 1;
        }
        let initial_v4_offset: u32 = match (max4, compute_v4_range(&ipnet)) {
            (Some(o), Some((min, max))) => (o + 1) % (max - min + 1),
            _ => 0,
        };
        let initial_v6_offset: u128 = match (max6, compute_v6_range(&ipnet6)) {
            (Some(o), Some((_, _, min_host, max_host))) => (o + 1) % (max_host - min_host + 1),
            _ => 0,
        };
        let store = FileStore {
            cache,
            puts: Vec::new(),
            deletes: Vec::new(),
            initial_v4_offset,
            initial_v6_offset,
        };
        assert(store.waiting_puts() =~= Seq::empty());
        assert(store.waiting_deletes() =~= Seq::empty());
        (store, stale)
    }

    /// Whether so many changes wait that they are written at once.
    pub fn batch_due(&self) -> (res: bool)
        ensures
            res == (self.waiting_puts().len() + self.waiting_deletes().len() >= BATCH_LIMIT),
    {
        self.puts.len() >= BATCH_LIMIT || self.deletes.len() >= BATCH_LIMIT || self.puts.len()
            + self.deletes.len() >= BATCH_LIMIT
    }

    /// Hands over the waiting changes.
    pub fn take_batch(&mut self) -> (res: (
        Vec<(String, String, String)>,
        Vec<(String, Option<String>)>,
    ))
        requires
            old(self).wf(),
        ensures
            final(self).wf(),
            put_views(res.0@) == old(self).waiting_puts(),
            delete_views(res.1@) == old(self).waiting_deletes(),
            final(self).waiting_puts().len() == 0,
            final(self).waiting_deletes().len() == 0,
            final(self).state() == old(self).state(),
            final(self).offset_v4() == old(self).offset_v4(),
            final(self).offset_v6() == old(self).offset_v6(),
    {
        let mut puts: Vec<(String, String, String)> = Vec::new();
        let mut deletes: Vec<(String, Option<String>)> = Vec::new();
        std::mem::swap(&mut puts, &mut self.puts);
        std::mem::swap(&mut deletes, &mut self.deletes);
        (puts, deletes)
    }

    fn queue_put(&mut self, ip: IpAddr, host: &str)
        ensures
            final(self).waiting_puts() == old(self).waiting_puts().push(put_of(ip, host@)),
            waits(put_of(ip, host@), ip, host@),
            final(self).waiting_deletes() == old(self).waiting_deletes(),
            final(self).cache == old(self).cache,
            final(self).initial_v4_offset == old(self).initial_v4_offset,
            final(self).initial_v6_offset == old(self).initial_v6_offset,
    {
        let ghost before = self.puts@;
        self.puts.push((write_ip(ip), host.to_owned(), make_host_key(host, check_v6(&ip))));
        assert(put_views(self.puts@) =~= put_views(before).push(put_of(ip, host@)));
    }
}

/// What is written down of a pair: the address, the host, and the host's key.
pub open spec fn put_of(ip: IpAddr, host: Seq<char>) -> (Seq<char>, Seq<char>, Seq<char>) {
    (ip::ip_text(ip), host, mem_store::host_key(host, mem_store::is_v6(ip)))
}

/// What waits to be written down is a pair, and the address reads back.
pub open spec fn waits(put: (Seq<char>, Seq<char>, Seq<char>), ip: IpAddr, host: Seq<char>) -> bool {
    put == put_of(ip, host) && ip::ip_value(put.0) == Some(ip)
}

/// What loading a file gives: the warmed store, nothing that waits, the offsets behind the
/// greatest ones in use, and the pairs to delete.
pub open spec fn loaded(
    store: FileStore,
    stale: Seq<(String, Option<String>)>,
    capacity: usize,
    host_to_ip: Seq<(String, String)>,
    ip_to_host: Seq<(String, String)>,
    v4: Ipv4Net,
    v6: Ipv6Net,
) -> bool {
    let by_host = pair_views(host_to_ip);
    let by_ip = pair_views(ip_to_host);
    let most = if by_ip.len() >= by_host.len() {
        by_ip.len()
    } else {
        by_host.len()
    };
    let size = if capacity >= most {
        capacity as nat
    } else {
        most
    };
    let limit = if size == 0 {
        1000
    } else {
        size
    };
    let warm = warmed_by_host(StoreState::empty(limit), v4, v6, by_host, by_host.len() as int);
    &&& store.wf()
    &&& store.state() == warmed_by_ip(warm, v4, v6, by_ip, by_ip.len() as int)
    &&& store.waiting_puts().len() == 0
    &&& store.waiting_deletes().len() == 0
    &&& store.offset_v4() == resume(max_offset4(v4, v6, by_ip, by_ip.len() as int), size4(v4))
    &&& store.offset_v6() == resume(max_offset6(v4, v6, by_ip, by_ip.len() as int), size6(v6))
    &&& delete_views(stale) == stale_by_host(v4, v6, by_host, by_host.len() as int) + stale_by_ip(
        v4,
        v6,
        by_ip,
        by_ip.len() as int,
    )
}

/// The rows of the table by host write the pairs of address and host down.
pub open spec fn rows_by_host(
    rows: Seq<(Seq<char>, Seq<char>)>,
    pairs: Seq<(IpAddr, Seq<char>)>,
) -> bool {
    &&& rows.len() == pairs.len()
    &&& forall|i: int|
        0 <= i < rows.len() ==> (#[trigger] rows[i]).0 == mem_store::host_key(
            pairs[i].1,
            mem_store::is_v6(pairs[i].0),
        ) && ip::ip_value(rows[i].1) == Some(pairs[i].0)
}

/// The rows of the table by address write pairs of address and host down, in any order: each is one
/// of the pairs.
pub open spec fn rows_by_ip(
    rows: Seq<(Seq<char>, Seq<char>)>,
    pairs: Seq<(IpAddr, Seq<char>)>,
) -> bool {
    forall|i: int|
        0 <= i < rows.len() ==> ip::ip_value((#[trigger] rows[i]).0) is Some && pairs.contains(
            (ip::ip_value(rows[i].0).unwrap(), rows[i].1),
        )
}

/// No two pairs share an address, or a host in one version.
pub open spec fn one_to_one(pairs: Seq<(IpAddr, Seq<char>)>) -> bool {
    forall|i: int, j: int|
        0 <= i < j < pairs.len() ==> (#[trigger] pairs[i]).0 != (#[trigger] pairs[j]).0 && !(
        pairs[i].1 == pairs[j].1 && mem_store::is_v6(pairs[i].0) == mem_store::is_v6(pairs[j].0))
}

/// The first `n` pairs are held, and no other.
pub open spec fn holds_first(s: StoreState, pairs: Seq<(IpAddr, Seq<char>)>, n: int) -> bool {
    &&& mem_store::tables_ok(s)
    &&& s.hosts.len() <= n
    &&& s.addrs.len() <= n
    &&& forall|i: int|
        0 <= i < n ==> mem_store::holds(s, (#[trigger] pairs[i]).0, pairs[i].1)
    &&& forall|i: int|
        n <= i < pairs.len() ==> s.host_of((#[trigger] pairs[i]).0) is None && s.addr_of(
            pairs[i].1,
            mem_store::is_v6(pairs[i].0),
        ) is None
}

proof fn lemma_key_host(host: Seq<char>, addr: IpAddr)
    ensures
        key_host(mem_store::host_key(host, mem_store::is_v6(addr)), addr) == Some(host),
{
    reveal_strlit("#v4");
    reveal_strlit("#v6");
    let key = mem_store::host_key(host, mem_store::is_v6(addr));
    assert(key.take(key.len() - 3) =~= host);
    assert(key.skip(key.len() - 3) =~= (if mem_store::is_v6(addr) {
        "#v6"@
    } else {
        "#v4"@
    }));
    assert("#v4"@[2] != "#v6"@[2]);
}

proof fn lemma_warmed_by_host(
    limit: nat,
    v4: Ipv4Net,
    v6: Ipv6Net,
    rows: Seq<(Seq<char>, Seq<char>)>,
    pairs: Seq<(IpAddr, Seq<char>)>,
    n: int,
)
    requires
        0 <= n <= rows.len(),
        rows_by_host(rows, pairs),
        one_to_one(pairs),
        pairs.len() <= limit,
        limit > 0,
        forall|i: int| 0 <= i < pairs.len() ==> usable(v4, v6, (#[trigger] pairs[i]).0),
    ensures
        holds_first(warmed_by_host(StoreState::empty(limit), v4, v6, rows, n), pairs, n),
        warmed_by_host(StoreState::empty(limit), v4, v6, rows, n).limit == limit,
    decreases n,
{
    let s = warmed_by_host(StoreState::empty(limit), v4, v6, rows, n - 1);
    if n > 0 {
        lemma_warmed_by_host(limit, v4, v6, rows, pairs, n - 1);
        let (addr, host) = pairs[n - 1];
        assert(rows[n - 1].0 == mem_store::host_key(host, mem_store::is_v6(addr)));
        lemma_key_host(host, addr);
        assert(usable(v4, v6, pairs[n - 1].0));
        mem_store::lemma_put_with_room(s, addr, host);
        let t = s.put_host(host, addr);
        assert(warmed_by_host(StoreState::empty(limit), v4, v6, rows, n) == t);
        assert forall|i: int| 0 <= i < n implies mem_store::holds(
            t,
            (#[trigger] pairs[i]).0,
            pairs[i].1,
        ) by {
            if i < n - 1 {
                assert(pairs[i].0 != pairs[n - 1].0);
            }
        }
        assert forall|i: int| n <= i < pairs.len() implies t.host_of((#[trigger] pairs[i]).0)
            is None && t.addr_of(pairs[i].1, mem_store::is_v6(pairs[i].0)) is None by {
            assert(pairs[n - 1].0 != pairs[i].0);
        }
    }
}

proof fn lemma_warmed_by_ip(
    s: StoreState,
    v4: Ipv4Net,
    v6: Ipv6Net,
    rows: Seq<(Seq<char>, Seq<char>)>,
    pairs: Seq<(IpAddr, Seq<char>)>,
    n: int,
)
    requires
        0 <= n <= rows.len(),
        rows_by_ip(rows, pairs),
        one_to_one(pairs),
        holds_first(s, pairs, pairs.len() as int),
    ensures
        holds_first(warmed_by_ip(s, v4, v6, rows, n), pairs, pairs.len() as int),
    decreases n,
{
    if n > 0 {
        lemma_warmed_by_ip(s, v4, v6, rows, pairs, n - 1);
        let before = warmed_by_ip(s, v4, v6, rows, n - 1);
        let addr = ip::ip_value(rows[n - 1].0).unwrap();
        let host = rows[n - 1].1;
        assert(pairs.contains((addr, host)));
        let k = choose|k: int| 0 <= k < pairs.len() && pairs[k] == (addr, host);
        assert(mem_store::holds(before, pairs[k].0, pairs[k].1));
        mem_store::lemma_put_with_room(before, addr, host);
        let t = before.put_ip(addr, host);
        assert forall|i: int| 0 <= i < pairs.len() implies mem_store::holds(
            t,
            (#[trigger] pairs[i]).0,
            pairs[i].1,
        ) by {
            if i < k {
                assert(pairs[i].0 != pairs[k].0);
            } else if k < i {
                assert(pairs[k].0 != pairs[i].0);
            }
        }
    }
}

/// What was saved is found again: a store that is loaded from tables of usable pairs, no two of
/// which share an address or a host's version, holds every pair, however many there are.
pub proof fn law_saved_is_found(
    store: FileStore,
    stale: Seq<(String, Option<String>)>,
    capacity: usize,
    host_to_ip: Seq<(String, String)>,
    ip_to_host: Seq<(String, String)>,
    v4: Ipv4Net,
    v6: Ipv6Net,
    pairs: Seq<(IpAddr, Seq<char>)>,
    i: int,
)
    requires
        loaded(store, stale, capacity, host_to_ip, ip_to_host, v4, v6),
        rows_by_host(pair_views(host_to_ip), pairs),
        rows_by_ip(pair_views(ip_to_host), pairs),
        one_to_one(pairs),
        forall|j: int| 0 <= j < pairs.len() ==> usable(v4, v6, (#[trigger] pairs[j]).0),
        0 <= i < pairs.len(),
    ensures
        store.state().host_of(pairs[i].0) == Some(pairs[i].1),
        store.state().addr_of(pairs[i].1, mem_store::is_v6(pairs[i].0)) == Some(pairs[i].0),
{
    let by_host = pair_views(host_to_ip);
    let by_ip = pair_views(ip_to_host);
    let most = if by_ip.len() >= by_host.len() {
        by_ip.len()
    } else {
        by_host.len()
    };
    let size = if capacity >= most {
        capacity as nat
    } else {
        most
    };
    let limit = if size == 0 {
        1000
    } else {
        size
    };
    let warm = warmed_by_host(StoreState::empty(limit), v4, v6, by_host, by_host.len() as int);
    lemma_warmed_by_host(limit, v4, v6, by_host, pairs, by_host.len() as int);
    lemma_warmed_by_ip(warm, v4, v6, by_ip, pairs, by_ip.len() as int);
    assert(mem_store::holds(store.state(), pairs[i].0, pairs[i].1));
}

proof fn lemma_keys_differ(a: (IpAddr, Seq<char>), b: (IpAddr, Seq<char>))
    requires
        !(a.1 == b.1 && mem_store::is_v6(a.0) == mem_store::is_v6(b.0)),
    ensures
        mem_store::host_key(a.1, mem_store::is_v6(a.0)) != mem_store::host_key(
            b.1,
            mem_store::is_v6(b.0),
        ),
{
    reveal_strlit("#v4");
    reveal_strlit("#v6");
    let x = mem_store::host_key(a.1, mem_store::is_v6(a.0));
    let y = mem_store::host_key(b.1, mem_store::is_v6(b.0));
    assert(x.take(x.len() - 3) =~= a.1);
    assert(y.take(y.len() - 3) =~= b.1);
    assert(x[x.len() - 1] == (if mem_store::is_v6(a.0) {
        '6'
    } else {
        '4'
    }));
    assert(y[y.len() - 1] == (if mem_store::is_v6(b.0) {
        '6'
    } else {
        '4'
    }));
}

/// What was put in is found again after a reload: where a batch of waiting pairs, no two of which
/// share an address or a host's version, is written into tables without rows, a store that is
/// loaded from these holds every pair that the networks have.
pub proof fn law_put_is_found_after_reload(
    store: FileStore,
    stale: Seq<(String, Option<String>)>,
    capacity: usize,
    host_to_ip: Seq<(String, String)>,
    ip_to_host: Seq<(String, String)>,
    v4: Ipv4Net,
    v6: Ipv6Net,
    puts: Seq<(String, String, String)>,
    pairs: Seq<(IpAddr, Seq<char>)>,
    i: int,
)
    requires
        puts.len() == pairs.len(),
        forall|j: int|
            0 <= j < pairs.len() ==> waits(
                put_views(puts)[j],
                (#[trigger] pairs[j]).0,
                pairs[j].1,
            ),
        one_to_one(pairs),
        forall|j: int| 0 <= j < pairs.len() ==> usable(v4, v6, (#[trigger] pairs[j]).0),
        ({
            let writes = profile::put_writes(puts, puts.len() as int);
            let tables = profile::no_rows().all_written(writes, writes.len() as int);
            pair_views(host_to_ip) == tables.host_to_ip && pair_views(ip_to_host)
                == tables.ip_to_host
        }),
        loaded(store, stale, capacity, host_to_ip, ip_to_host, v4, v6),
        0 <= i < pairs.len(),
    ensures
        store.state().host_of(pairs[i].0) == Some(pairs[i].1),
        store.state().addr_of(pairs[i].1, mem_store::is_v6(pairs[i].0)) == Some(pairs[i].0),
{
    assert forall|a: int, b: int| 0 <= a < b < puts.len() implies (#[trigger] puts[a]).0@ != (
    #[trigger] puts[b]).0@ && puts[a].2@ != puts[b].2@ by {
        assert(pairs[a].0 != pairs[b].0);
        assert(waits(put_views(puts)[a], pairs[a].0, pairs[a].1));
        assert(waits(put_views(puts)[b], pairs[b].0, pairs[b].1));
        assert(put_views(puts)[a] == (puts[a].0@, puts[a].1@, puts[a].2@));
        assert(put_views(puts)[b] == (puts[b].0@, puts[b].1@, puts[b].2@));
        lemma_keys_differ(pairs[a], pairs[b]);
    }
    profile::law_puts_are_rows(puts, puts.len() as int);
    let by_host = pair_views(host_to_ip);
    let by_ip = pair_views(ip_to_host);
    assert forall|j: int| 0 <= j < by_host.len() implies (#[trigger] by_host[j]).0
        == mem_store::host_key(pairs[j].1, mem_store::is_v6(pairs[j].0)) && ip::ip_value(
        by_host[j].1,
    ) == Some(pairs[j].0) by {
        assert(waits(put_views(puts)[j], pairs[j].0, pairs[j].1));
        assert(put_views(puts)[j] == (puts[j].0@, puts[j].1@, puts[j].2@));
    }
    assert forall|j: int| 0 <= j < by_ip.len() implies ip::ip_value((#[trigger] by_ip[j]).0) is Some
        && pairs.contains((ip::ip_value(by_ip[j].0).unwrap(), by_ip[j].1)) by {
        assert(waits(put_views(puts)[j], pairs[j].0, pairs[j].1));
        assert(put_views(puts)[j] == (puts[j].0@, puts[j].1@, puts[j].2@));
        assert(pairs[j] == (pairs[j].0, pairs[j].1));
    }
    law_saved_is_found(store, stale, capacity, host_to_ip, ip_to_host, v4, v6, pairs, i);
}

impl Store for FileStore {
    closed spec fn state(&self) -> StoreState {
        self.cache.state()
    }

    closed spec fn wf(&self) -> bool {
        self.cache.wf()
    }

    closed spec fn offset_v4(&self) -> u32 {
        self.initial_v4_offset
    }

    closed spec fn offset_v6(&self) -> u128 {
        self.initial_v6_offset
    }

    proof fn lemma_wf(&self) {
        self.cache.lemma_wf();
    }

    fn get_by_host(&self, host: &str) -> (res: Option<IpAddr>) {
        self.cache.get_by_host(host)
    }

    fn get_v6_by_host(&self, host: &str) -> (res: Option<IpAddr>) {
        self.cache.get_v6_by_host(host)
    }

    fn put_by_host(&mut self, host: &str, ip: IpAddr)
        ensures
            final(self).waiting_puts() == old(self).waiting_puts().push(put_of(ip, host@)),
            waits(put_of(ip, host@), ip, host@),
            final(self).waiting_deletes() == old(self).waiting_deletes(),
    {
        self.cache.put_by_host(host, ip);
        self.queue_put(ip, host);
    }

    fn get_by_ip(&self, ip: IpAddr) -> (res: Option<String>) {
        self.cache.get_by_ip(ip)
    }

    fn put_by_ip(&mut self, ip: IpAddr, host: &str)
        ensures
            final(self).waiting_puts() == old(self).waiting_puts().push(put_of(ip, host@)),
            waits(put_of(ip, host@), ip, host@),
            final(self).waiting_deletes() == old(self).waiting_deletes(),
    {
        self.cache.put_by_ip(ip, host);
        self.queue_put(ip, host);
    }

    fn del_by_ip(&mut self, ip: IpAddr)
        ensures
            final(self).waiting_puts() == old(self).waiting_puts(),
            final(self).waiting_deletes() == old(self).waiting_deletes().push(
                (
                    ip::ip_text(ip),
                    match old(self).state().host_of(ip) {
                        Some(h) => Some(mem_store::host_key(h, mem_store::is_v6(ip))),
                        None => None,
                    },
                ),
            ),
    {
        let ghost before = self.deletes@;
        let key: Option<String> = match self.cache.get_by_ip(ip) {
            Some(host) => Some(make_host_key(host.as_str(), check_v6(&ip))),
            None => None,
        };
        self.cache.del_by_ip(ip);
        self.deletes.push((write_ip(ip), key));
        assert(delete_views(self.deletes@) =~= delete_views(before).push(
            (
                ip::ip_text(ip),
                match old(self).state().host_of(ip) {
                    Some(h) => Some(mem_store::host_key(h, mem_store::is_v6(ip))),
                    None => None,
                },
            ),
        ));
    }

    fn exist(&self, ip: IpAddr) -> (res: bool) {
        self.cache.exist(ip)
    }

    fn initial_offset_v4(&self) -> (res: u32) {
        self.initial_v4_offset
    }

    fn initial_offset_v6(&self) -> (res: u128) {
        self.initial_v6_offset
    }
}

/// What is told of a stale row by address: the address, and the key of the host where the address can
/// be read.
pub open spec fn stale_row(row: (Seq<char>, Seq<char>)) -> (Seq<char>, Option<Seq<char>>) {
    (
        row.0,
        match ip::ip_value(row.0) {
            Some(addr) => Some(mem_store::host_key(row.1, mem_store::is_v6(addr))),
            None => None,
        },
    )
}

/// A row whose address is not one of the pools' any more is stale, and is told as it was saved. A row
/// with an address of the pools is not stale.
pub proof fn law_stale_rows(
    v4: Ipv4Net,
    v6: Ipv6Net,
    pairs: Seq<(Seq<char>, Seq<char>)>,
    n: int,
    i: int,
)
    requires
        0 <= i < n <= pairs.len(),
    ensures
        !(ip::ip_value(pairs[i].1) matches Some(addr) && usable(v4, v6, addr)) ==> stale_by_host(
            v4,
            v6,
            pairs,
            n,
        ).contains((pairs[i].1, Some(pairs[i].0))),
        !(ip::ip_value(pairs[i].0) matches Some(addr) && usable(v4, v6, addr)) ==> stale_by_ip(
            v4,
            v6,
            pairs,
            n,
        ).contains(stale_row(pairs[i])),
        forall|s: (Seq<char>, Option<Seq<char>>)| #[trigger]
            stale_by_host(v4, v6, pairs, n).contains(s) ==> !(ip::ip_value(s.0) matches Some(addr)
                && usable(v4, v6, addr)),
        forall|s: (Seq<char>, Option<Seq<char>>)| #[trigger]
            stale_by_ip(v4, v6, pairs, n).contains(s) ==> !(ip::ip_value(s.0) matches Some(addr)
                && usable(v4, v6, addr)),
{
    lemma_stale_by_host(v4, v6, pairs, n, i);
    lemma_stale_by_ip(v4, v6, pairs, n, i);
}

proof fn lemma_stale_by_host(
    v4: Ipv4Net,
    v6: Ipv6Net,
    pairs: Seq<(Seq<char>, Seq<char>)>,
    n: int,
    i: int,
)
    requires
        0 <= n <= pairs.len(),
    ensures
        0 <= i < n && !(ip::ip_value(pairs[i].1) matches Some(addr) && usable(v4, v6, addr))
            ==> stale_by_host(v4, v6, pairs, n).contains((pairs[i].1, Some(pairs[i].0))),
        forall|s: (Seq<char>, Option<Seq<char>>)| #[trigger]
            stale_by_host(v4, v6, pairs, n).contains(s) ==> !(ip::ip_value(s.0) matches Some(addr)
                && usable(v4, v6, addr)),
    decreases n,
{
    if n > 0 {
        lemma_stale_by_host(v4, v6, pairs, n - 1, i);
        let before = stale_by_host(v4, v6, pairs, n - 1);
        let after = stale_by_host(v4, v6, pairs, n);
        let new = (pairs[n - 1].1, Some(pairs[n - 1].0));
        if !(ip::ip_value(pairs[n - 1].1) matches Some(addr) && usable(v4, v6, addr)) {
            lemma_pushed(before, new);
            assert(after == before.push(new));
        }
    }
}

proof fn lemma_stale_by_ip(
    v4: Ipv4Net,
    v6: Ipv6Net,
    pairs: Seq<(Seq<char>, Seq<char>)>,
    n: int,
    i: int,
)
    requires
        0 <= n <= pairs.len(),
    ensures
        0 <= i < n && !(ip::ip_value(pairs[i].0) matches Some(addr) && usable(v4, v6, addr))
            ==> stale_by_ip(v4, v6, pairs, n).contains(stale_row(pairs[i])),
        forall|s: (Seq<char>, Option<Seq<char>>)| #[trigger]
            stale_by_ip(v4, v6, pairs, n).contains(s) ==> !(ip::ip_value(s.0) matches Some(addr)
                && usable(v4, v6, addr)),
    decreases n,
{
    if n > 0 {
        lemma_stale_by_ip(v4, v6, pairs, n - 1, i);
        let before = stale_by_ip(v4, v6, pairs, n - 1);
        let after = stale_by_ip(v4, v6, pairs, n);
        if !(ip::ip_value(pairs[n - 1].0) matches Some(addr) && usable(v4, v6, addr)) {
            lemma_pushed(before, stale_row(pairs[n - 1]));
            assert(after == before.push(stale_row(pairs[n - 1])));
        }
    }
}

proof fn lemma_pushed(
    list: Seq<(Seq<char>, Option<Seq<char>>)>,
    item: (Seq<char>, Option<Seq<char>>),
)
    ensures
        forall|s: (Seq<char>, Option<Seq<char>>)| #[trigger]
            list.push(item).contains(s) <==> list.contains(s) || s == item,
{
    let more = list.push(item);
    assert(more[list.len() as int] == item);
    assert forall|s: (Seq<char>, Option<Seq<char>>)| #[trigger] more.contains(s) <==> list.contains(
        s,
    ) || s == item by {
        if list.contains(s) {
            let k = choose|k: int| 0 <= k < list.len() && list[k] == s;
            assert(more[k] == s);
        }
        if more.contains(s) {
            let k = choose|k: int| 0 <= k < more.len() && more[k] == s;
            if k < list.len() {
                assert(list[k] == s);
            }
        }
    }
}

/// After a restart addresses are given out behind the farthest one that was saved, and from the start
/// again where that was the last of its pool or none was saved.
pub proof fn law_resumes_behind_saved(
    v4: Ipv4Net,
    v6: Ipv6Net,
    pairs: Seq<(Seq<char>, Seq<char>)>,
    n: int,
    i: int,
    addr: u32,
)
    requires
        0 <= i < n <= pairs.len(),
        v4.wf(),
    ensures
        ip::ip_value(pairs[i].0) == Some(IpAddr::V4(addr)) && usable(v4, v6, IpAddr::V4(addr)) ==> {
            let place = addr - fakeip::v4_range(v4).unwrap().0;
            let next = resume(max_offset4(v4, v6, pairs, n), size4(v4));
            &&& 0 <= place < size4(v4)
            &&& next > place || next == 0
            &&& next == 0 ==> max_offset4(v4, v6, pairs, n) == Some(size4(v4) - 1)
        },
        resume(None, size4(v4)) == 0,
{
    if ip::ip_value(pairs[i].0) == Some(IpAddr::V4(addr)) && usable(v4, v6, IpAddr::V4(addr)) {
        lemma_max_offset4(v4, v6, pairs, n, i);
        let most = max_offset4(v4, v6, pairs, n).unwrap();
        if most + 1 < size4(v4) {
            vstd::arithmetic::div_mod::lemma_small_mod((most + 1) as nat, size4(v4) as nat);
        } else {
            vstd::arithmetic::div_mod::lemma_mod_self_0(size4(v4));
        }
    }
}

proof fn lemma_max_offset4(
    v4: Ipv4Net,
    v6: Ipv6Net,
    pairs: Seq<(Seq<char>, Seq<char>)>,
    n: int,
    i: int,
)
    requires
        0 <= n <= pairs.len(),
    ensures
        max_offset4(v4, v6, pairs, n) matches Some(most) ==> 0 <= most < size4(v4),
        0 <= i < n && offset4(v4, v6, pairs[i].0) is Some ==> max_offset4(v4, v6, pairs, n) is Some
            && max_offset4(v4, v6, pairs, n).unwrap() >= offset4(v4, v6, pairs[i].0).unwrap(),
    decreases n,
{
    if n > 0 {
        lemma_max_offset4(v4, v6, pairs, n - 1, i);
    }
}

} // verus!
