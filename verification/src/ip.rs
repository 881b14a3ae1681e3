//! IP addresses and networks.
use vstd::arithmetic::power2::pow2;
use vstd::prelude::*;

use crate::text;

verus! {

/// An IP address: 32 bits for version 4, 128 bits for version 6, most significant first.
#[derive(Clone, Copy, Debug, PartialEq, Eq, Hash, Structural)]
pub enum IpAddr {
    V4(u32),
    V6(u128),
}

/// Two to the power `k`.
pub fn two_to(k: u32) -> (res: u128)
    requires
        k < 128,
    ensures
        res == pow2(k as nat),
{
    let mut res: u128 = 1;
    let mut i: u32 = 0;
    proof {
        vstd::arithmetic::power2::lemma2_to64();
    }
    while i < k
        invariant
            i <= k < 128,
            res == pow2(i as nat),
        decreases k - i,
    {
        proof {
            lemma_pow2_bound_128(i as nat + 1);
            vstd::arithmetic::power2::lemma_pow2_unfold(i as nat + 1);
        }
        res = res * 2;
        i = i + 1;
    }
    res
}

/// Powers of two below the 128th fit in 128 bits.
pub proof fn lemma_pow2_bound_128(k: nat)
    requires
        k < 128,
    ensures
        0 < pow2(k) <= 0x8000_0000_0000_0000_0000_0000_0000_0000int,
{
    vstd::arithmetic::power2::lemma_pow2_pos(k);
    vstd::arithmetic::power2::lemma2_to64_rest();
    vstd::arithmetic::power2::lemma2_to64();
    vstd::arithmetic::power2::lemma_pow2_adds(63, 64);
    if k < 127 {
        vstd::arithmetic::power2::lemma_pow2_strictly_increases(k, 127);
    }
    assert(pow2(63) * pow2(64) == 0x8000_0000_0000_0000_0000_0000_0000_0000int);
}

/// An IPv4 network: an address and the length of its network prefix.
#[derive(Clone, Copy, Debug, PartialEq, Eq, Hash, Structural)]
pub struct Ipv4Net {
    pub addr: u32,
    pub prefix_len: u8,
}

impl Ipv4Net {
    /// A prefix is at most 32 bits long.
    pub open spec fn wf(&self) -> bool {
        self.prefix_len <= 32
    }

    /// How many addresses the network spans.
    pub open spec fn span(&self) -> int {
        pow2((32 - self.prefix_len) as nat) as int
    }

    /// The address with every host bit cleared.
    pub open spec fn network_spec(&self) -> int {
        self.addr - self.addr as int % self.span()
    }

    /// The network's first address.
    pub fn network(&self) -> (res: u32)
        requires
            self.wf(),
        ensures
            res == self.network_spec(),
    {
        let span: u128 = two_to(32 - self.prefix_len as u32);
        proof {
            lemma_pow2_bound_128((32 - self.prefix_len) as nat);
            vstd::arithmetic::div_mod::lemma_mod_bound(self.addr as int, span as int);
        }
        let host: u128 = (self.addr as u128) % span;
        proof {
            vstd::arithmetic::div_mod::lemma_mod_decreases(self.addr as nat, span as nat);
        }
        (self.addr as u128 - host) as u32
    }
}

/// One decimal octet: one to three digits, no leading zero, at most 255.
pub open spec fn octet_value(s: Seq<char>) -> Option<int> {
    if 1 <= s.len() <= 3 && text::all_digits(s) && (s.len() == 1 || s[0] != '0') && text::decimal(s)
        <= 255 {
        Some(text::decimal(s))
    } else {
        None
    }
}

/// The address that a dotted quad writes.
pub open spec fn v4_value(s: Seq<char>) -> Option<int> {
    let f = text::fields(s, '.');
    if f.len() == 4 && octet_value(f[0]) is Some && octet_value(f[1]) is Some && octet_value(f[2])
        is Some && octet_value(f[3]) is Some {
        Some(
            octet_value(f[0]).unwrap() * 0x100_0000 + octet_value(f[1]).unwrap() * 0x1_0000
                + octet_value(f[2]).unwrap() * 0x100 + octet_value(f[3]).unwrap(),
        )
    } else {
        None
    }
}

/// The value of a hexadecimal digit.
pub open spec fn hex_digit(c: char) -> Option<int> {
    if '0' <= c <= '9' {
        Some(c as int - '0' as int)
    } else if 'a' <= c <= 'f' {
        Some(c as int - 'a' as int + 10)
    } else if 'A' <= c <= 'F' {
        Some(c as int - 'A' as int + 10)
    } else {
        None
    }
}

/// The value of a row of hexadecimal digits.
pub open spec fn hex_value(s: Seq<char>) -> Option<int>
    decreases s.len(),
{
    if s.len() == 0 {
        Some(0)
    } else {
        match (hex_value(s.drop_last()), hex_digit(s.last())) {
            (Some(a), Some(d)) => Some(a * 16 + d),
            _ => None,
        }
    }
}

/// One 16-bit group of one to four hexadecimal digits.
pub open spec fn group_value(s: Seq<char>) -> Option<int> {
    if 1 <= s.len() <= 4 {
        hex_value(s)
    } else {
        None
    }
}

/// The groups that the first `n` fields write. The very last field may be a dotted quad, which
/// stands for two groups, where `quad` allows it.
pub open spec fn groups_of(f: Seq<Seq<char>>, n: int, quad: bool) -> Option<Seq<int>>
    decreases n,
{
    if n <= 0 {
        Some(Seq::empty())
    } else {
        match groups_of(f, n - 1, quad) {
            None => None,
            Some(g) => if quad && n == f.len() && v4_value(f[n - 1]) is Some {
                Some(
                    g.push(v4_value(f[n - 1]).unwrap() / 0x1_0000).push(
                        v4_value(f[n - 1]).unwrap() % 0x1_0000,
                    ),
                )
            } else {
                match group_value(f[n - 1]) {
                    None => None,
                    Some(v) => Some(g.push(v)),
                }
            },
        }
    }
}

/// The groups of a colon-separated text; an empty text has none.
pub open spec fn v6_groups(s: Seq<char>, quad: bool) -> Option<Seq<int>> {
    if s.len() == 0 {
        Some(Seq::empty())
    } else {
        groups_of(text::fields(s, ':'), text::fields(s, ':').len() as int, quad)
    }
}

/// The value of a row of 16-bit groups.
pub open spec fn groups_value(g: Seq<int>) -> int
    decreases g.len(),
{
    if g.len() == 0 {
        0
    } else {
        groups_value(g.drop_last()) * 0x1_0000 + g.last()
    }
}

/// The place of the first double colon, or the length of `s` when there is none.
pub open spec fn double_colon(s: Seq<char>) -> int
    decreases s.len(),
{
    if s.len() < 2 {
        s.len() as int
    } else if s[0] == ':' && s[1] == ':' {
        0
    } else {
        1 + double_colon(s.skip(1))
    }
}

/// The address that an IPv6 text writes: eight groups, or fewer than eight around one double
/// colon, which stands for the missing ones.
pub open spec fn v6_value(s: Seq<char>) -> Option<int> {
    let at = double_colon(s);
    if at >= s.len() {
        match v6_groups(s, true) {
            Some(g) => if g.len() == 8 {
                Some(groups_value(g))
            } else {
                None
            },
            None => None,
        }
    } else {
        match (v6_groups(s.take(at), false), v6_groups(s.skip(at + 2), true)) {
            (Some(head), Some(tail)) => if head.len() + tail.len() <= 7 {
                Some(
                    groups_value(
                        head + Seq::new((8 - head.len() - tail.len()) as nat, |i: int| 0int) + tail,
                    ),
                )
            } else {
                None
            },
            _ => None,
        }
    }
}

/// The address that a text writes.
pub open spec fn ip_value(s: Seq<char>) -> Option<IpAddr> {
    match v4_value(s) {
        Some(v) => Some(IpAddr::V4(v as u32)),
        None => match v6_value(s) {
            Some(v) => Some(IpAddr::V6(v as u128)),
            None => None,
        },
    }
}

fn parse_octet(s: &[char]) -> (res: Option<u8>)
    ensures
        res is Some <==> octet_value(s@) is Some,
        res matches Some(v) ==> octet_value(s@) == Some(v as int),
{
    if s.len() < 1 || s.len() > 3 || (s.len() > 1 && s[0] == '0') {
        return None;
    }
    match text::parse_digits(s, 255) {
        Some(v) => Some(v as u8),
        None => None,
    }
}

fn parse_v4_chars(s: &[char]) -> (res: Option<u32>)
    ensures
        res is Some <==> v4_value(s@) is Some,
        res matches Some(v) ==> v4_value(s@) == Some(v as int),
{
    let f: Vec<Vec<char>> = text::split(s, '.');
    assert(text::views(f@).len() == f@.len());
    if f.len() != 4 {
        return None;
    }
    assert(text::views(f@)[0] == f@[0]@ && text::views(f@)[1] == f@[1]@ && text::views(f@)[2]
        == f@[2]@ && text::views(f@)[3] == f@[3]@);
    match (parse_octet(&f[0]), parse_octet(&f[1]), parse_octet(&f[2]), parse_octet(&f[3])) {
        (Some(a), Some(b), Some(c), Some(d)) => Some(
            a as u32 * 0x100_0000 + b as u32 * 0x1_0000 + c as u32 * 0x100 + d as u32,
        ),
        _ => None,
    }
}

fn parse_hex_digit(c: char) -> (res: Option<u16>)
    ensures
        res is Some <==> hex_digit(c) is Some,
        res matches Some(v) ==> hex_digit(c) == Some(v as int) && v < 16,
{
    if '0' <= c && c <= '9' {
        Some(c as u16 - '0' as u16)
    } else if 'a' <= c && c <= 'f' {
        Some(c as u16 - 'a' as u16 + 10)
    } else if 'A' <= c && c <= 'F' {
        Some(c as u16 - 'A' as u16 + 10)
    } else {
        None
    }
}

proof fn lemma_hex_prefix(s: Seq<char>, i: int)
    requires
        0 <= i <= s.len(),
        hex_value(s.take(i)) is None,
    ensures
        hex_value(s) is None,
    decreases s.len() - i,
{
    if i < s.len() {
        assert(s.take(i + 1).drop_last() =~= s.take(i));
        lemma_hex_prefix(s, i + 1);
    } else {
        assert(s.take(i) =~= s);
    }
}

fn parse_group(s: &[char]) -> (res: Option<u16>)
    ensures
        res is Some <==> group_value(s@) is Some,
        res matches Some(v) ==> group_value(s@) == Some(v as int),
{
    if s.len() < 1 || s.len() > 4 {
        return None;
    }
    let mut value: u32 = 0;
    let mut bound: u32 = 1;
    let mut i: usize = 0;
    while i < s.len()
        invariant
            i <= s@.len() <= 4,
            hex_value(s@.take(i as int)) == Some(value as int),
            value < bound,
            bound == (if i == 0 {
                1u32
            } else if i == 1 {
                16u32
            } else if i == 2 {
                256u32
            } else if i == 3 {
                4096u32
            } else {
                65536u32
            }),
        decreases s@.len() - i,
    {
        assert(s@.take(i + 1).drop_last() =~= s@.take(i as int));
        match parse_hex_digit(s[i]) {
            Some(d) => {
                value = value * 16 + d as u32;
                bound = bound * 16;
            },
            None => {
                proof {
                    lemma_hex_prefix(s@, i + 1);
                }
                return None;
            },
        }
        i = i + 1;
    }
    assert(s@.take(i as int) =~= s@);
    Some(value as u16)
}

/// The groups as plain numbers.
pub open spec fn group_ints(g: Seq<u16>) -> Seq<int> {
    g.map_values(|x: u16| x as int)
}

proof fn lemma_groups_prefix(f: Seq<Seq<char>>, n: int, quad: bool)
    requires
        0 <= n <= f.len(),
        groups_of(f, n, quad) is None,
    ensures
        groups_of(f, f.len() as int, quad) is None,
    decreases f.len() - n,
{
    if n < f.len() {
        lemma_groups_prefix(f, n + 1, quad);
    }
}

fn parse_groups(s: &[char], quad: bool) -> (res: Option<Vec<u16>>)
    ensures
        res is Some <==> v6_groups(s@, quad) is Some,
        res matches Some(g) ==> v6_groups(s@, quad) == Some(group_ints(g@)),
{
    let mut groups: Vec<u16> = Vec::new();
    if s.len() == 0 {
        assert(group_ints(groups@) =~= Seq::empty());
        return Some(groups);
    }
    let f: Vec<Vec<char>> = text::split(s, ':');
    let ghost views = text::views(f@);
    let mut i: usize = 0;
    assert(group_ints(groups@) =~= Seq::empty());
    while i < f.len()
        invariant
            s@.len() > 0,
            i <= f@.len(),
            views == text::views(f@),
            views == text::fields(s@, ':'),
            groups_of(views, i as int, quad) == Some(group_ints(groups@)),
        decreases f@.len() - i,
    {
        assert(views[i as int] == f@[i as int]@);
        let ghost before = groups@;
        let as_quad: Option<u32> = if quad && i + 1 == f.len() {
            parse_v4_chars(&f[i])
        } else {
            None
        };
        match as_quad {
            Some(v) => {
                groups.push((v / 0x1_0000) as u16);
                groups.push((v % 0x1_0000) as u16);
                assert(group_ints(groups@) =~= group_ints(before).push(v as int / 0x1_0000).push(
                    v as int % 0x1_0000,
                ));
            },
            None => match parse_group(&f[i]) {
                Some(v) => {
                    groups.push(v);
                    assert(group_ints(groups@) =~= group_ints(before).push(v as int));
                },
                None => {
                    proof {
                        lemma_groups_prefix(views, i + 1, quad);
                    }
                    return None;
                },
            },
        }
        i = i + 1;
    }
    Some(groups)
}

fn fold_groups(g: &Vec<u16>) -> (res: u128)
    requires
        g@.len() <= 8,
    ensures
        res == groups_value(group_ints(g@)),
{
    let mut value: u128 = 0;
    let mut i: usize = 0;
    proof {
        vstd::arithmetic::power2::lemma2_to64();
        vstd::arithmetic::power2::lemma2_to64_rest();
        assert(group_ints(g@).take(0) =~= Seq::empty());
    }
    while i < g.len()
        invariant
            i <= g@.len() <= 8,
            value == groups_value(group_ints(g@).take(i as int)),
            value < pow2((16 * i) as nat),
        decreases g@.len() - i,
    {
        proof {
            let all = group_ints(g@);
            assert(all.take(i + 1).drop_last() =~= all.take(i as int));
            vstd::arithmetic::power2::lemma2_to64();
            vstd::arithmetic::power2::lemma2_to64_rest();
            vstd::arithmetic::power2::lemma_pow2_adds((16 * i) as nat, 16);
            vstd::arithmetic::power2::lemma_pow2_adds(64, 64);
            if i < 7 {
                vstd::arithmetic::power2::lemma_pow2_strictly_increases((16 * i + 16) as nat, 128);
            }
            assert(pow2(128) == 0x1_0000_0000_0000_0000_0000_0000_0000_0000int);
            assert(value * 0x1_0000 + g@[i as int] < pow2((16 * i + 16) as nat));
        }
        value = value * 0x1_0000 + g[i] as u128;
        i = i + 1;
    }
    assert(group_ints(g@).take(i as int) =~= group_ints(g@));
    value
}

fn find_double_colon(s: &[char]) -> (res: usize)
    ensures
        res == double_colon(s@),
        res <= s@.len(),
        res < s@.len() ==> res + 2 <= s@.len(),
{
    let mut i: usize = 0;
    assert(s@.skip(0) =~= s@);
    while i < s.len() && s.len() - i >= 2
        invariant
            i <= s@.len(),
            double_colon(s@) == i + double_colon(s@.skip(i as int)),
        decreases s@.len() - i,
    {
        if s[i] == ':' && s[i + 1] == ':' {
            return i;
        }
        assert(s@.skip(i as int).skip(1) =~= s@.skip(i + 1));
        i = i + 1;
    }
    s.len()
}

fn parse_v6_chars(s: &[char]) -> (res: Option<u128>)
    ensures
        res is Some <==> v6_value(s@) is Some,
        res matches Some(v) ==> v6_value(s@) == Some(v as int),
{
    let at: usize = find_double_colon(s);
    if at >= s.len() {
        return match parse_groups(s, true) {
            Some(g) => if g.len() == 8 {
                Some(fold_groups(&g))
            } else {
                None
            },
            None => None,
        };
    }
    let head: Vec<char> = text::slice(s, 0, at);
    let tail: Vec<char> = text::slice(s, at + 2, s.len());
    assert(head@ =~= s@.take(at as int));
    assert(tail@ =~= s@.skip(at + 2));
    match (parse_groups(&head, false), parse_groups(&tail, true)) {
        (Some(h), Some(t)) => {
            if h.len() > 7 || t.len() > 7 || h.len() + t.len() > 7 {
                return None;
            }
            let missing: usize = 8 - h.len() - t.len();
            let mut all: Vec<u16> = Vec::new();
            let mut i: usize = 0;
            while i < 8
                invariant
                    i <= 8,
                    h@.len() + t@.len() <= 7,
                    missing == 8 - h@.len() - t@.len(),
                    all@.len() == i,
                    forall|k: int|
                        0 <= k < i ==> #[trigger] all@[k] == (if k < h@.len() {
                            h@[k]
                        } else if k < h@.len() + missing {
                            0u16
                        } else {
                            t@[k - h@.len() - missing]
                        }),
                decreases 8 - i,
            {
                if i < h.len() {
                    all.push(h[i]);
                } else if i < h.len() + missing {
                    all.push(0);
                } else {
                    all.push(t[i - h.len() - missing]);
                }
                i = i + 1;
            }
            assert(group_ints(all@) =~= group_ints(h@) + Seq::new(
                (8 - h@.len() - t@.len()) as nat,
                |i: int| 0int,
            ) + group_ints(t@));
            Some(fold_groups(&all))
        },
        _ => None,
    }
}

/// Reads an IPv4 address as a dotted quad.
pub fn parse_v4(s: &str) -> (res: Option<u32>)
    ensures
        res is Some <==> v4_value(s@) is Some,
        res matches Some(v) ==> v4_value(s@) == Some(v as int),
{
    parse_v4_chars(&text::chars(s))
}

/// Reads an IP address of either version.
pub fn parse_ip_chars(s: &[char]) -> (res: Option<IpAddr>)
    ensures
        res == ip_value(s@),
{
    match parse_v4_chars(s) {
        Some(v) => Some(IpAddr::V4(v)),
        None => match parse_v6_chars(s) {
            Some(v) => Some(IpAddr::V6(v)),
            None => None,
        },
    }
}

/// Reads an IP address of either version.
pub fn parse_ip(s: &str) -> (res: Option<IpAddr>)
    ensures
        res == ip_value(s@),
{
    parse_ip_chars(&text::chars(s))
}

/// Powers of two up to the 32nd fit in 33 bits, and the 128th is one more than 128 bits hold.
pub proof fn lemma_pow2_ends()
    ensures
        pow2(0) == 1,
        pow2(32) == 0x1_0000_0000,
        pow2(128) == 0x1_0000_0000_0000_0000_0000_0000_0000_0000int,
{
    vstd::arithmetic::power2::lemma2_to64();
    vstd::arithmetic::power2::lemma2_to64_rest();
    vstd::arithmetic::power2::lemma_pow2_adds(64, 64);
    assert(pow2(64) * pow2(64) == 0x1_0000_0000_0000_0000_0000_0000_0000_0000int);
}

/// The host part of a 128-bit address behind a prefix of `prefix_len` bits.
pub open spec fn host_part(addr: u128, prefix_len: u8) -> int {
    addr as int % (pow2((128 - prefix_len) as nat) as int)
}

/// The host part of a 128-bit address behind a prefix of `prefix_len` bits.
pub fn v6_host(addr: u128, prefix_len: u8) -> (res: u128)
    requires
        prefix_len <= 128,
    ensures
        res == host_part(addr, prefix_len),
        res <= addr,
{
    if prefix_len == 0 {
        proof {
            lemma_pow2_ends();
            vstd::arithmetic::div_mod::lemma_small_mod(addr as nat, pow2(128));
        }
        return addr;
    }
    let span: u128 = two_to(128 - prefix_len as u32);
    proof {
        lemma_pow2_bound_128((128 - prefix_len) as nat);
        vstd::arithmetic::div_mod::lemma_mod_bound(addr as int, span as int);
        vstd::arithmetic::div_mod::lemma_mod_decreases(addr as nat, span as nat);
    }
    addr % span
}

/// An IPv6 network: an address and the length of its network prefix.
#[derive(Clone, Copy, Debug, PartialEq, Eq, Hash, Structural)]
pub struct Ipv6Net {
    pub addr: u128,
    pub prefix_len: u8,
}

impl Ipv6Net {
    /// A prefix is at most 128 bits long.
    pub open spec fn wf(&self) -> bool {
        self.prefix_len <= 128
    }

    /// The address with every host bit cleared.
    pub open spec fn network_spec(&self) -> int {
        self.addr - host_part(self.addr, self.prefix_len)
    }

    /// The network's first address.
    pub fn network(&self) -> (res: u128)
        requires
            self.wf(),
        ensures
            res == self.network_spec(),
    {
        self.addr - v6_host(self.addr, self.prefix_len)
    }
}

/// A network of either version.
#[derive(Clone, Copy, Debug, PartialEq, Eq, Hash, Structural)]
pub enum IpNet {
    V4(Ipv4Net),
    V6(Ipv6Net),
}

impl IpNet {
    /// The prefix fits the version.
    pub open spec fn wf(&self) -> bool {
        match self {
            IpNet::V4(net) => net.wf(),
            IpNet::V6(net) => net.wf(),
        }
    }

    /// The address lies in the network: same version, same network part.
    pub open spec fn has(&self, ip: IpAddr) -> bool {
        match (self, ip) {
            (IpNet::V4(net), IpAddr::V4(addr)) => (Ipv4Net { addr, prefix_len: net.prefix_len }).network_spec()
                == net.network_spec(),
            (IpNet::V6(net), IpAddr::V6(addr)) => (Ipv6Net { addr, prefix_len: net.prefix_len }).network_spec()
                == net.network_spec(),
            _ => false,
        }
    }

    /// Whether the address lies in the network.
    pub fn contains(&self, ip: &IpAddr) -> (res: bool)
        requires
            self.wf(),
        ensures
            res == self.has(*ip),
    {
        match (self, ip) {
            (IpNet::V4(net), IpAddr::V4(addr)) => (Ipv4Net {
                addr: *addr,
                prefix_len: net.prefix_len,
            }).network() == net.network(),
            (IpNet::V6(net), IpAddr::V6(addr)) => (Ipv6Net {
                addr: *addr,
                prefix_len: net.prefix_len,
            }).network() == net.network(),
            _ => false,
        }
    }
}

/// The network that a text writes, as the `ipnet` crate reads it.
pub uninterp spec fn net_value(s: Seq<char>) -> Option<IpNet>;

/// `ipnet::IpNet::from_str`: reads an address, a slash and a prefix length. What it reads is a
/// function of the text alone and is called `net_value`; the prefix length it reads fits the
/// address.
#[verifier::external_body]
pub(crate) fn parse_net(s: &str) -> (res: Option<IpNet>)
    ensures
        res == net_value(s@),
        res matches Some(net) ==> net.wf(),
{
    match s.parse::<ipnet::IpNet>() {
        Ok(ipnet::IpNet::V4(net)) => Some(
            IpNet::V4(Ipv4Net { addr: net.addr().into(), prefix_len: net.prefix_len() }),
        ),
        Ok(ipnet::IpNet::V6(net)) => Some(
            IpNet::V6(Ipv6Net { addr: net.addr().into(), prefix_len: net.prefix_len() }),
        ),
        Err(_) => None,
    }
}

/// The IPv4 network that a text writes, as the `ipnet` crate reads it.
pub uninterp spec fn v4_net_value(s: Seq<char>) -> Option<Ipv4Net>;

/// `ipnet::Ipv4Net::from_str`: reads an IPv4 address, a slash and a prefix length. What it reads is
/// a function of the text alone and is called `v4_net_value`; the prefix length it reads fits the
/// address.
#[verifier::external_body]
pub(crate) fn parse_v4_net(s: &str) -> (res: Option<Ipv4Net>)
    ensures
        res == v4_net_value(s@),
        res matches Some(net) ==> net.wf(),
{
    match s.parse::<ipnet::Ipv4Net>() {
        Ok(net) => Some(Ipv4Net { addr: net.addr().into(), prefix_len: net.prefix_len() }),
        Err(_) => None,
    }
}

/// The IPv6 network that a text writes, as the `ipnet` crate reads it.
pub uninterp spec fn v6_net_value(s: Seq<char>) -> Option<Ipv6Net>;

/// `ipnet::Ipv6Net::from_str`: reads an IPv6 address, a slash and a prefix length. What it reads is
/// a function of the text alone and is called `v6_net_value`; the prefix length it reads fits the
/// address.
#[verifier::external_body]
pub(crate) fn parse_v6_net(s: &str) -> (res: Option<Ipv6Net>)
    ensures
        res == v6_net_value(s@),
        res matches Some(net) ==> net.wf(),
{
    match s.parse::<ipnet::Ipv6Net>() {
        Ok(net) => Some(Ipv6Net { addr: net.addr().into(), prefix_len: net.prefix_len() }),
        Err(_) => None,
    }
}

/// An address and a port. An IPv6 address may carry the number of the zone it belongs to.
#[derive(Clone, Copy, Debug, PartialEq, Eq, Structural)]
pub struct SocketAddr {
    pub ip: IpAddr,
    pub port: u16,
    pub scope_id: u32,
}

/// The address and the port that a text writes: `1.2.3.4:80`, `[::1]:80` or `[fe80::1%2]:80`.
pub open spec fn socket_value(s: Seq<char>) -> Option<SocketAddr> {
    let colon = text::last_of(s, ':');
    if colon < 0 {
        None
    } else {
        let head = s.take(colon);
        let digits = s.skip(colon + 1);
        if !(text::all_digits(digits) && text::decimal(digits) <= 65535) {
            None
        } else {
            let port = text::decimal(digits) as u16;
            if head.len() >= 2 && head[0] == '[' && head.last() == ']' {
                let inner = head.subrange(1, head.len() - 1);
                let percent = text::first_of(inner, '%');
                let zone = inner.skip(percent + 1);
                match v6_value(inner.take(percent)) {
                    None => None,
                    Some(addr) => if percent == inner.len() {
                        Some(SocketAddr { ip: IpAddr::V6(addr as u128), port, scope_id: 0 })
                    } else if text::all_digits(zone) && text::decimal(zone) <= 0xffff_ffff {
                        Some(
                            SocketAddr {
                                ip: IpAddr::V6(addr as u128),
                                port,
                                scope_id: text::decimal(zone) as u32,
                            },
                        )
                    } else {
                        None
                    },
                }
            } else {
                match v4_value(head) {
                    Some(addr) => Some(
                        SocketAddr { ip: IpAddr::V4(addr as u32), port, scope_id: 0 },
                    ),
                    None => None,
                }
            }
        }
    }
}

/// Reads an address and a port.
pub fn parse_socket_addr(s: &[char]) -> (res: Option<SocketAddr>)
    ensures
        res == socket_value(s@),
{
    let colon: usize = match text::rfind(s, ':') {
        Some(i) => i,
        None => return None,
    };
    let head: Vec<char> = text::slice(s, 0, colon);
    let n: usize = s.len();
    let digits: Vec<char> = text::slice(s, colon + 1, n);
    assert(head@ =~= s@.take(colon as int));
    assert(digits@ =~= s@.skip(colon + 1));
    let port: u16 = match text::parse_digits(&digits, 65535) {
        Some(n) => n as u16,
        None => return None,
    };
    if head.len() >= 2 && head[0] == '[' && head[head.len() - 1] == ']' {
        let inner: Vec<char> = text::slice(&head, 1, head.len() - 1);
        proof {
            text::lemma_first_of(inner@, '%');
        }
        let percent: usize = match text::find(&inner, '%') {
            Some(i) => i,
            None => inner.len(),
        };
        let written: Vec<char> = text::slice(&inner, 0, percent);
        assert(written@ =~= inner@.take(percent as int));
        let addr: u128 = match parse_v6_chars(&written) {
            Some(addr) => addr,
            None => return None,
        };
        if percent == inner.len() {
            return Some(SocketAddr { ip: IpAddr::V6(addr), port, scope_id: 0 });
        }
        let zone: Vec<char> = text::slice(&inner, percent + 1, inner.len());
        assert(zone@ =~= inner@.skip(percent + 1));
        match text::parse_digits(&zone, 0xffff_ffff) {
            Some(n) => Some(SocketAddr { ip: IpAddr::V6(addr), port, scope_id: n as u32 }),
            None => None,
        }
    } else {
        match parse_v4_chars(&head) {
            Some(addr) => Some(SocketAddr { ip: IpAddr::V4(addr), port, scope_id: 0 }),
            None => None,
        }
    }
}

/// How an IPv4 address is written: its four bytes in decimal, with dots between them.
pub open spec fn v4_text(addr: u32) -> Seq<char> {
    text::number_text((addr / 0x100_0000) as nat) + seq!['.'] + text::number_text(
        (addr / 0x1_0000 % 256) as nat,
    ) + seq!['.'] + text::number_text((addr / 0x100 % 256) as nat) + seq!['.'] + text::number_text(
        (addr % 256) as nat,
    )
}

fn write_v4(addr: u32) -> (res: Vec<char>)
    ensures
        res@ == v4_text(addr),
{
    let mut out: Vec<char> = text::write_number((addr / 0x100_0000) as u64);
    out.push('.');
    text::append(&mut out, &text::write_number((addr / 0x1_0000 % 256) as u64));
    out.push('.');
    text::append(&mut out, &text::write_number((addr / 0x100 % 256) as u64));
    out.push('.');
    text::append(&mut out, &text::write_number((addr % 256) as u64));
    assert(out@ =~= v4_text(addr));
    out
}

proof fn lemma_octet(n: nat)
    requires
        n < 256,
    ensures
        octet_value(text::number_text(n)) == Some(n as int),
        forall|i: int|
            0 <= i < text::number_text(n).len() ==> #[trigger] text::number_text(n)[i] != '.',
{
    reveal_with_fuel(text::number_text, 3);
    text::law_number_read_back(n);
    let s = text::number_text(n);
    if n >= 100 {
        assert(s[0] == text::digit_char(n / 10 / 10));
    } else if n >= 10 {
        assert(s[0] == text::digit_char(n / 10));
    }
}

/// A written IPv4 address reads back.
#[verifier::rlimit(40)]
#[verifier::spinoff_prover]
pub proof fn law_v4_read_back(addr: u32)
    ensures
        ip_value(v4_text(addr)) == Some(IpAddr::V4(addr)),
{
    let a = (addr / 0x100_0000) as nat;
    let b = (addr / 0x1_0000 % 256) as nat;
    let c = (addr / 0x100 % 256) as nat;
    let d = (addr % 256) as nat;
    lemma_octet(a);
    lemma_octet(b);
    lemma_octet(c);
    lemma_octet(d);
    let ta = text::number_text(a);
    let tb = text::number_text(b);
    let tc = text::number_text(c);
    let td = text::number_text(d);
    text::lemma_one_field(ta, '.');
    text::lemma_last_field(ta, '.', tb);
    text::lemma_last_field(ta + seq!['.'] + tb, '.', tc);
    text::lemma_last_field(ta + seq!['.'] + tb + seq!['.'] + tc, '.', td);
    let f = text::fields(v4_text(addr), '.');
    assert(f.len() == 4 && f[0] == ta && f[1] == tb && f[2] == tc && f[3] == td);
    assert(a * 0x100_0000 + b * 0x1_0000 + c * 0x100 + d == addr);
}

/// How an IPv6 address is written: the canonical form of RFC 5952.
pub uninterp spec fn v6_text(addr: u128) -> Seq<char>;

/// The `Display` of the address in an `ipnet` network, which is std's `Ipv6Addr`. What it writes is
/// a function of the address alone and is called `v6_text`. It is documented to be the canonical
/// form of RFC 5952, which is a text that writes this address: it reads back as the address.
#[verifier::external_body]
fn write_v6(addr: u128) -> (res: String)
    ensures
        res@ == v6_text(addr),
        ip_value(res@) == Some(IpAddr::V6(addr)),
{
    format!("{}", ipnet::Ipv6Net::new(addr.into(), 128).unwrap().addr())
}

/// How an address is written.
pub open spec fn ip_text(ip: IpAddr) -> Seq<char> {
    match ip {
        IpAddr::V4(addr) => v4_text(addr),
        IpAddr::V6(addr) => v6_text(addr),
    }
}

/// Writes an address. What was written reads back.
pub fn write_ip(ip: IpAddr) -> (res: String)
    ensures
        res@ == ip_text(ip),
        ip_value(res@) == Some(ip),
{
    match ip {
        IpAddr::V4(addr) => {
            proof {
                law_v4_read_back(addr);
            }
            text::text(&write_v4(addr))
        },
        IpAddr::V6(addr) => write_v6(addr),
    }
}

/// How a network is written: its address, a slash and the length of its prefix.
pub open spec fn net_text(net: IpNet) -> Seq<char> {
    match net {
        IpNet::V4(net) => v4_text(net.addr) + seq!['/'] + text::number_text(net.prefix_len as nat),
        IpNet::V6(net) => v6_text(net.addr) + seq!['/'] + text::number_text(net.prefix_len as nat),
    }
}

/// The `Display` of `ipnet::Ipv4Net` and `ipnet::Ipv6Net`: the address, a slash and the length of
/// the prefix. `Ipv4Net::new` and `Ipv6Net::new` refuse a prefix that is too long.
#[verifier::external_body]
pub(crate) fn write_net(net: IpNet) -> (res: String)
    requires
        net.wf(),
    ensures
        res@ == net_text(net),
{
    match net {
        IpNet::V4(net) => format!("{}", ipnet::Ipv4Net::new(net.addr.into(), net.prefix_len).unwrap()),
        IpNet::V6(net) => format!("{}", ipnet::Ipv6Net::new(net.addr.into(), net.prefix_len).unwrap()),
    }
}

proof fn lemma_same_multiple(a: int, b: int, span: int)
    requires
        span > 0,
    ensures
        a - a % span == b - b % span <==> a / span == b / span,
{
    vstd::arithmetic::div_mod::lemma_fundamental_div_mod(a, span);
    vstd::arithmetic::div_mod::lemma_fundamental_div_mod(b, span);
    let x = a / span;
    let y = b / span;
    assert(span * x == span * y <==> x == y) by (nonlinear_arith)
        requires
            span > 0,
    ;
}

/// An address lies in a network exactly where the two agree in the bits of the prefix, that is in
/// what is left of them once the bits behind the prefix are cut off. Versions do not mix, a prefix of
/// no bits holds every address of its version, and one of all bits the one address.
pub proof fn law_network_is_its_prefix(v4: Ipv4Net, v6: Ipv6Net, a: u32, b: u128)
    requires
        v4.wf(),
        v6.wf(),
    ensures
        IpNet::V4(v4).has(IpAddr::V4(a)) <==> a as int / (pow2((32 - v4.prefix_len) as nat) as int)
            == v4.addr as int / (pow2((32 - v4.prefix_len) as nat) as int),
        IpNet::V6(v6).has(IpAddr::V6(b)) <==> b as int / (pow2(
            (128 - v6.prefix_len) as nat,
        ) as int) == v6.addr as int / (pow2((128 - v6.prefix_len) as nat) as int),
        !IpNet::V4(v4).has(IpAddr::V6(b)),
        !IpNet::V6(v6).has(IpAddr::V4(a)),
        v4.prefix_len == 0 ==> IpNet::V4(v4).has(IpAddr::V4(a)),
        v6.prefix_len == 0 ==> IpNet::V6(v6).has(IpAddr::V6(b)),
        v4.prefix_len == 32 ==> (IpNet::V4(v4).has(IpAddr::V4(a)) <==> a == v4.addr),
        v6.prefix_len == 128 ==> (IpNet::V6(v6).has(IpAddr::V6(b)) <==> b == v6.addr),
{
    let s4 = pow2((32 - v4.prefix_len) as nat) as int;
    let s6 = pow2((128 - v6.prefix_len) as nat) as int;
    vstd::arithmetic::power2::lemma_pow2_pos((32 - v4.prefix_len) as nat);
    vstd::arithmetic::power2::lemma_pow2_pos((128 - v6.prefix_len) as nat);
    lemma_pow2_ends();
    lemma_same_multiple(a as int, v4.addr as int, s4);
    lemma_same_multiple(b as int, v6.addr as int, s6);
    if v4.prefix_len == 0 {
        vstd::arithmetic::div_mod::lemma_small_mod(a as nat, s4 as nat);
        vstd::arithmetic::div_mod::lemma_small_mod(v4.addr as nat, s4 as nat);
    }
    if v6.prefix_len == 0 {
        vstd::arithmetic::div_mod::lemma_small_mod(b as nat, s6 as nat);
        vstd::arithmetic::div_mod::lemma_small_mod(v6.addr as nat, s6 as nat);
    }
    if v4.prefix_len == 32 {
        assert(a as int % 1 == 0 && v4.addr as int % 1 == 0);
    }
    if v6.prefix_len == 128 {
        assert(b as int % 1 == 0 && v6.addr as int % 1 == 0);
    }
}

/// The groups of an IPv6 address are read in their order, each for itself, wherever they stand.
pub proof fn law_groups_are_read_in_order(f: Seq<Seq<char>>, n: int, quad: bool)
    requires
        0 <= n <= f.len(),
        forall|i: int|
            0 <= i < n ==> group_value(#[trigger] f[i]) is Some && v4_value(f[i]) is None,
    ensures
        groups_of(f, n, quad) matches Some(g) && g.len() == n && forall|i: int|
            0 <= i < n ==> Some(#[trigger] g[i]) == group_value(f[i]),
    decreases n,
{
    if n > 0 {
        law_groups_are_read_in_order(f, n - 1, quad);
        assert(group_value(f[n - 1]) is Some);
    }
}

/// An IPv4 address can stand for the last two groups, where that is the end of the address; anywhere
/// else it cannot be read.
pub proof fn law_ipv4_tail_of_ipv6(f: Seq<Seq<char>>, quad: bool)
    requires
        f.len() > 0,
        forall|i: int|
            0 <= i < f.len() - 1 ==> group_value(#[trigger] f[i]) is Some && v4_value(f[i]) is None,
        v4_value(f[f.len() - 1]) is Some,
        group_value(f[f.len() - 1]) is None,
    ensures
        groups_of(f, f.len() as int, false) is None,
        groups_of(f, f.len() as int, true) matches Some(g) && {
            &&& g.len() == f.len() + 1
            &&& g[g.len() - 2] * 0x1_0000 + g[g.len() - 1] == v4_value(f[f.len() - 1]).unwrap()
            &&& 0 <= g[g.len() - 1] < 0x1_0000
        },
{
    law_groups_are_read_in_order(f, f.len() - 1, true);
    law_groups_are_read_in_order(f, f.len() - 1, false);
}

} // verus!
