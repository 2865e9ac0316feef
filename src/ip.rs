//! IP addresses and their textual forms: dotted-decimal IPv4, colon-hex IPv6
//! (with `::` compression and an embedded IPv4 tail), and the combined
//! address-with-port forms `a.b.c.d:port` and `[v6]:port` (with an optional
//! numeric `%scope` inside the brackets).
//!
//! The accepted forms are those of the standard library's address parsers.
use vstd::prelude::*;
use crate::text::{
    index_of, split_on, pieces, ranges_within, find_char, split_ranges, lemma_index_of_bounds,
    lemma_index_of_unique,
};

verus! {

/// An IP address without a port.
#[derive(PartialEq, Eq, Clone, Copy, Debug, Structural)]
pub enum IpAddress {
    /// The four octets, most significant first.
    V4(u8, u8, u8, u8),
    /// The eight 16-bit groups, most significant first.
    V6(u16, u16, u16, u16, u16, u16, u16, u16),
}

/// The value of a hexadecimal or decimal digit; 16 for any other character.
pub open spec fn digit_value(c: char) -> nat {
    let u = c as u32;
    if 0x30 <= u && u <= 0x39 {
        (u - 0x30) as nat
    } else if 0x61 <= u && u <= 0x66 {
        (u - 0x61 + 10) as nat
    } else if 0x41 <= u && u <= 0x46 {
        (u - 0x41 + 10) as nat
    } else {
        16
    }
}

/// Every character of `t` is a digit in base `radix`.
pub open spec fn all_digits(t: Seq<char>, radix: nat) -> bool {
    forall|i: int| 0 <= i < t.len() ==> #[trigger] digit_value(t[i]) < radix
}

/// The number that the digits `t` denote in base `radix`.
pub open spec fn number_value(t: Seq<char>, radix: nat) -> nat
    decreases t.len(),
{
    if t.len() == 0 {
        0
    } else {
        number_value(t.drop_last(), radix) * radix + digit_value(t.last())
    }
}

/// The number that `t` spells in base `radix`, where `t` is one or more
/// digits of that base and the number is at most `max`.
pub open spec fn number_of(t: Seq<char>, radix: nat, max: nat) -> Option<nat> {
    if t.len() > 0 && all_digits(t, radix) && number_value(t, radix) <= max {
        Some(number_value(t, radix))
    } else {
        None
    }
}

/// One octet of a dotted-decimal address: one to three decimal digits, no
/// leading zero, at most 255.
pub open spec fn octet_of(t: Seq<char>) -> Option<u8> {
    if 1 <= t.len() <= 3 && !(t.len() > 1 && t[0] == '0') {
        match number_of(t, 10, 255) {
            Some(v) => Some(v as u8),
            None => None,
        }
    } else {
        None
    }
}

/// The IPv4 address that `t` spells: four octets separated by dots.
pub open spec fn ipv4_of(t: Seq<char>) -> Option<IpAddress> {
    let p = split_on(t, '.');
    if p.len() == 4 && octet_of(p[0]) is Some && octet_of(p[1]) is Some && octet_of(p[2]) is Some
        && octet_of(p[3]) is Some {
        Some(
            IpAddress::V4(
                octet_of(p[0])->0,
                octet_of(p[1])->0,
                octet_of(p[2])->0,
                octet_of(p[3])->0,
            ),
        )
    } else {
        None
    }
}

/// One group of an IPv6 address: one to four hexadecimal digits.
pub open spec fn hex_group_of(t: Seq<char>) -> Option<u16> {
    if 1 <= t.len() <= 4 {
        match number_of(t, 16, 0xffff) {
            Some(v) => Some(v as u16),
            None => None,
        }
    } else {
        None
    }
}

/// The groups that `parts` spell, where each of them is a hexadecimal group.
pub open spec fn hex_groups_of(parts: Seq<Seq<char>>) -> Option<Seq<u16>> {
    if forall|k: int| 0 <= k < parts.len() ==> #[trigger] hex_group_of(parts[k]) is Some {
        Some(parts.map_values(|p: Seq<char>| hex_group_of(p)->0))
    } else {
        None
    }
}

/// The two groups that an embedded IPv4 address `t` stands for.
pub open spec fn embedded_v4_of(t: Seq<char>) -> Option<Seq<u16>> {
    match ipv4_of(t) {
        Some(IpAddress::V4(a, b, c, d)) => Some(
            seq![(a as int * 256 + b as int) as u16, (c as int * 256 + d as int) as u16],
        ),
        _ => None,
    }
}

/// The groups of a colon-separated run `t` of IPv6 groups, whose last piece
/// may be an embedded IPv4 address standing for two groups. The empty run
/// has no groups.
pub open spec fn groups_of(t: Seq<char>) -> Option<Seq<u16>> {
    if t.len() == 0 {
        Some(Seq::empty())
    } else {
        let p = split_on(t, ':');
        if hex_groups_of(p) is Some {
            hex_groups_of(p)
        } else if hex_groups_of(p.drop_last()) is Some && embedded_v4_of(p.last()) is Some {
            Some(hex_groups_of(p.drop_last())->0 + embedded_v4_of(p.last())->0)
        } else {
            None
        }
    }
}

/// The index of the first `::` in `t`, or `t.len()` when there is none.
pub open spec fn double_colon_index(t: Seq<char>) -> int
    decreases t.len(),
{
    if t.len() < 2 {
        t.len() as int
    } else if t[0] == ':' && t[1] == ':' {
        0
    } else {
        1 + double_colon_index(t.skip(1))
    }
}

/// The address of eight groups.
pub open spec fn v6_of(g: Seq<u16>) -> IpAddress {
    IpAddress::V6(g[0], g[1], g[2], g[3], g[4], g[5], g[6], g[7])
}

/// The IPv6 address that `t` spells: eight groups, or fewer with one `::`
/// standing for one or more zero groups. Before the `::` only hexadecimal
/// groups may stand.
#[verifier::opaque]
pub open spec fn ipv6_of(t: Seq<char>) -> Option<IpAddress> {
    let i = double_colon_index(t);
    if 0 <= i && i + 2 <= t.len() {
        let left = t.take(i);
        let right = t.skip(i + 2);
        let lg = if left.len() == 0 {
            Some(Seq::<u16>::empty())
        } else {
            hex_groups_of(split_on(left, ':'))
        };
        let rg = groups_of(right);
        if lg is Some && rg is Some && lg->0.len() + rg->0.len() <= 7 {
            Some(
                v6_of(
                    lg->0 + Seq::new((8 - lg->0.len() - rg->0.len()) as nat, |k: int| 0u16)
                        + rg->0,
                ),
            )
        } else {
            None
        }
    } else {
        match groups_of(t) {
            Some(g) => if g.len() == 8 {
                Some(v6_of(g))
            } else {
                None
            },
            None => None,
        }
    }
}

/// The address that `t` spells, IPv4 or IPv6, without brackets or port.
pub open spec fn ip_of(t: Seq<char>) -> Option<IpAddress> {
    if ipv4_of(t) is Some {
        ipv4_of(t)
    } else {
        ipv6_of(t)
    }
}

/// A port number: decimal digits, leading zeros allowed, at most 65535.
pub open spec fn port_of(t: Seq<char>) -> Option<u16> {
    match number_of(t, 10, 0xffff) {
        Some(v) => Some(v as u16),
        None => None,
    }
}

/// The address and port of the bracketed form `[v6]:port`, where the
/// address may carry a decimal 32-bit `%scope`.
pub open spec fn bracketed_socket_addr_of(t: Seq<char>) -> Option<(IpAddress, u16)> {
    let j = index_of(t, ']');
    let inner = t.subrange(1, j);
    let k = index_of(inner, '%');
    let addr = ipv6_of(inner.take(k));
    let scope_fine = k >= inner.len() || number_of(inner.skip(k + 1), 10, 0xffff_ffff) is Some;
    let port = port_of(t.skip(j + 2));
    if j + 1 < t.len() && t[j + 1] == ':' && addr is Some && scope_fine && port is Some {
        Some((addr->0, port->0))
    } else {
        None
    }
}

/// The address and port of the form `a.b.c.d:port`.
pub open spec fn plain_socket_addr_of(t: Seq<char>) -> Option<(IpAddress, u16)> {
    let i = index_of(t, ':');
    let addr = ipv4_of(t.take(i));
    let port = port_of(t.skip(i + 1));
    if i < t.len() && addr is Some && port is Some {
        Some((addr->0, port->0))
    } else {
        None
    }
}

/// The address and port that `t` spells: `a.b.c.d:port`, or
/// `[v6]:port` and `[v6%scope]:port` with a decimal 32-bit scope.
pub open spec fn socket_addr_of(t: Seq<char>) -> Option<(IpAddress, u16)> {
    if t.len() > 0 && t[0] == '[' {
        bracketed_socket_addr_of(t)
    } else {
        plain_socket_addr_of(t)
    }
}

pub proof fn lemma_number_prefix(t: Seq<char>, k: int, radix: nat)
    requires
        0 <= k <= t.len(),
        radix >= 1,
    ensures
        number_value(t.take(k), radix) <= number_value(t, radix),
    decreases t.len(),
{
    if k == t.len() {
        assert(t.take(k) =~= t);
    } else {
        let v = number_value(t.drop_last(), radix);
        assert(v * radix >= v) by (nonlinear_arith)
            requires
                radix >= 1,
        ;
        assert(t.drop_last().take(k) =~= t.take(k));
        lemma_number_prefix(t.drop_last(), k, radix);
    }
}

/// The value of `c` as a digit, or 16 when it is none.
fn digit_of(c: char) -> (r: u64)
    ensures
        r == digit_value(c),
{
    let u = c as u32;
    if 0x30 <= u && u <= 0x39 {
        (u - 0x30) as u64
    } else if 0x61 <= u && u <= 0x66 {
        (u - 0x61 + 10) as u64
    } else if 0x41 <= u && u <= 0x46 {
        (u - 0x41 + 10) as u64
    } else {
        16
    }
}

/// The number that `s[lo..hi]` spells in base `radix`, if it is one or
/// more digits of that base and the number is at most `max`.
pub fn parse_number(s: &Vec<char>, lo: usize, hi: usize, radix: u64, max: u64) -> (r: Option<u64>)
    requires
        lo <= hi <= s.len(),
        1 <= radix <= 16,
        max <= 0xffff_ffff,
    ensures
        match number_of(s@.subrange(lo as int, hi as int), radix as nat, max as nat) {
            Some(v) => r == Some(v as u64),
            None => r is None,
        },
{
    let ghost t = s@.subrange(lo as int, hi as int);
    if lo == hi {
        return None;
    }
    let mut v: u64 = 0;
    let mut i = lo;
    while i < hi
        invariant
            lo <= i <= hi <= s.len(),
            t == s@.subrange(lo as int, hi as int),
            1 <= radix <= 16,
            max <= 0xffff_ffff,
            v <= max,
            v == number_value(t.take(i - lo), radix as nat),
            all_digits(t.take(i - lo), radix as nat),
        decreases hi - i,
    {
        let d = digit_of(s[i]);
        if d >= radix {
            assert(digit_value(t[i - lo]) >= radix);
            return None;
        }
        assert(v * radix <= 0xffff_ffff * 16) by (nonlinear_arith)
            requires
                v <= 0xffff_ffff,
                radix <= 16,
        ;
        let nv = v * radix + d;
        proof {
            assert(t.take(i + 1 - lo).drop_last() =~= t.take(i - lo));
            assert(nv == number_value(t.take(i + 1 - lo), radix as nat));
        }
        if nv > max {
            proof {
                lemma_number_prefix(t, i + 1 - lo, radix as nat);
            }
            return None;
        }
        v = nv;
        i = i + 1;
        assert(all_digits(t.take(i - lo), radix as nat)) by {
            assert forall|j: int| 0 <= j < i - lo implies #[trigger] digit_value(
                t.take(i - lo)[j],
            ) < radix by {
                if j < i - 1 - lo {
                    assert(t.take(i - lo)[j] == t.take(i - 1 - lo)[j]);
                }
            }
        }
    }
    assert(t.take(hi - lo) =~= t);
    Some(v)
}

/// One octet of a dotted-decimal address, as `octet_of` states it.
fn parse_octet(s: &Vec<char>, lo: usize, hi: usize) -> (r: Option<u8>)
    requires
        lo <= hi <= s.len(),
    ensures
        r == octet_of(s@.subrange(lo as int, hi as int)),
{
    if hi - lo < 1 || hi - lo > 3 || (hi - lo > 1 && s[lo] == '0') {
        return None;
    }
    match parse_number(s, lo, hi, 10, 255) {
        Some(v) => Some(v as u8),
        None => None,
    }
}

/// The IPv4 address that `s[lo..hi]` spells.
pub fn parse_ipv4(s: &Vec<char>, lo: usize, hi: usize) -> (r: Option<IpAddress>)
    requires
        lo <= hi <= s.len(),
    ensures
        r == ipv4_of(s@.subrange(lo as int, hi as int)),
{
    let parts = split_ranges(s, lo, hi, '.');
    if parts.len() != 4 {
        return None;
    }
    let ghost p = pieces(s@, parts@);
    assert(p[0] == s@.subrange(parts@[0].0 as int, parts@[0].1 as int));
    assert(p[1] == s@.subrange(parts@[1].0 as int, parts@[1].1 as int));
    assert(p[2] == s@.subrange(parts@[2].0 as int, parts@[2].1 as int));
    assert(p[3] == s@.subrange(parts@[3].0 as int, parts@[3].1 as int));
    let a = parse_octet(s, parts[0].0, parts[0].1);
    let b = parse_octet(s, parts[1].0, parts[1].1);
    let c = parse_octet(s, parts[2].0, parts[2].1);
    let d = parse_octet(s, parts[3].0, parts[3].1);
    match (a, b, c, d) {
        (Some(a), Some(b), Some(c), Some(d)) => Some(IpAddress::V4(a, b, c, d)),
        _ => None,
    }
}

/// The view of an optional vector of groups.
pub open spec fn groups_view(r: Option<Vec<u16>>) -> Option<Seq<u16>> {
    match r {
        Some(g) => Some(g@),
        None => None,
    }
}

/// One group of an IPv6 address, as `hex_group_of` states it.
fn parse_hex_group(s: &Vec<char>, lo: usize, hi: usize) -> (r: Option<u16>)
    requires
        lo <= hi <= s.len(),
    ensures
        r == hex_group_of(s@.subrange(lo as int, hi as int)),
{
    if hi - lo < 1 || hi - lo > 4 {
        return None;
    }
    match parse_number(s, lo, hi, 16, 0xffff) {
        Some(v) => Some(v as u16),
        None => None,
    }
}

/// The groups that the first `n` pieces `parts` of `s` spell, where each of
/// them is a hexadecimal group.
fn parse_hex_groups(s: &Vec<char>, parts: &Vec<(usize, usize)>, n: usize) -> (r: Option<Vec<u16>>)
    requires
        n <= parts.len(),
        ranges_within(parts@, 0, s.len() as int),
    ensures
        groups_view(r) == hex_groups_of(pieces(s@, parts@).take(n as int)),
{
    let ghost p = pieces(s@, parts@).take(n as int);
    let mut g: Vec<u16> = Vec::new();
    let mut k: usize = 0;
    while k < n
        invariant
            k <= n <= parts.len(),
            ranges_within(parts@, 0, s.len() as int),
            p == pieces(s@, parts@).take(n as int),
            g@.len() == k,
            forall|j: int| 0 <= j < k ==> #[trigger] hex_group_of(p[j]) is Some,
            forall|j: int| 0 <= j < k ==> g@[j] == (#[trigger] hex_group_of(p[j]))->0,
        decreases n - k,
    {
        assert(p[k as int] == s@.subrange(parts@[k as int].0 as int, parts@[k as int].1 as int));
        match parse_hex_group(s, parts[k].0, parts[k].1) {
            Some(v) => {
                g.push(v);
            },
            None => {
                return None;
            },
        }
        k = k + 1;
    }
    assert(g@ =~= p.map_values(|q: Seq<char>| hex_group_of(q)->0));
    Some(g)
}

/// The groups of a colon-separated run `s[lo..hi]`, as `groups_of` states
/// them.
fn parse_groups(s: &Vec<char>, lo: usize, hi: usize) -> (r: Option<Vec<u16>>)
    requires
        lo <= hi <= s.len(),
    ensures
        groups_view(r) == groups_of(s@.subrange(lo as int, hi as int)),
{
    if lo == hi {
        let r: Vec<u16> = Vec::new();
        assert(r@ =~= Seq::<u16>::empty());
        return Some(r);
    }
    let parts = split_ranges(s, lo, hi, ':');
    let ghost p = pieces(s@, parts@);
    assert(p.take(parts.len() as int) =~= p);
    let all = parse_hex_groups(s, &parts, parts.len());
    if all.is_some() {
        return all;
    }
    if parts.len() == 0 {
        return None;
    }
    let n = parts.len() - 1;
    assert(p.take(n as int) =~= p.drop_last());
    let head = parse_hex_groups(s, &parts, n);
    assert(p.last() == s@.subrange(parts@[n as int].0 as int, parts@[n as int].1 as int));
    let tail = parse_ipv4(s, parts[n].0, parts[n].1);
    match (head, tail) {
        (Some(mut g), Some(IpAddress::V4(a, b, c, d))) => {
            let ghost g0 = g@;
            g.push((a as u16) * 256 + (b as u16));
            g.push((c as u16) * 256 + (d as u16));
            assert(g@ =~= g0 + embedded_v4_of(p.last())->0);
            Some(g)
        },
        _ => None,
    }
}

proof fn lemma_double_colon_bounds(t: Seq<char>)
    ensures
        0 <= double_colon_index(t) <= t.len(),
        double_colon_index(t) + 2 <= t.len() ==> t[double_colon_index(t)] == ':' && t[double_colon_index(t) + 1] == ':',
        double_colon_index(t) + 2 > t.len() ==> double_colon_index(t) == t.len(),
    decreases t.len(),
{
    if t.len() >= 2 && !(t[0] == ':' && t[1] == ':') {
        lemma_double_colon_bounds(t.skip(1));
    }
}

/// The index of the first `::` in `s[lo..hi]`, counted from the start of
/// `s`, or `hi` when there is none.
fn find_double_colon(s: &Vec<char>, lo: usize, hi: usize) -> (r: usize)
    requires
        lo <= hi <= s.len(),
    ensures
        r - lo == double_colon_index(s@.subrange(lo as int, hi as int)),
        lo <= r <= hi,
{
    let mut i = lo;
    while hi - i >= 2 && !(s[i] == ':' && s[i + 1] == ':')
        invariant
            lo <= i <= hi <= s.len(),
            double_colon_index(s@.subrange(lo as int, hi as int)) == (i - lo)
                + double_colon_index(s@.subrange(i as int, hi as int)),
        decreases hi - i,
    {
        assert(s@.subrange(i as int, hi as int).skip(1) =~= s@.subrange(i + 1, hi as int));
        i = i + 1;
    }
    if hi - i < 2 {
        return hi;
    }
    i
}

/// The address of eight groups.
fn v6_from(g: &Vec<u16>) -> (r: IpAddress)
    requires
        g.len() == 8,
    ensures
        r == v6_of(g@),
{
    IpAddress::V6(g[0], g[1], g[2], g[3], g[4], g[5], g[6], g[7])
}

/// The IPv6 address that `s[lo..hi]` spells.
pub fn parse_ipv6(s: &Vec<char>, lo: usize, hi: usize) -> (r: Option<IpAddress>)
    requires
        lo <= hi <= s.len(),
    ensures
        r == ipv6_of(s@.subrange(lo as int, hi as int)),
{
    reveal(ipv6_of);
    let ghost t = s@.subrange(lo as int, hi as int);
    let i = find_double_colon(s, lo, hi);
    proof {
        lemma_double_colon_bounds(t);
    }
    if i < hi {
        assert(t.take(i - lo) =~= s@.subrange(lo as int, i as int));
        assert(t.skip(i - lo + 2) =~= s@.subrange(i + 2, hi as int));
        let left = if i == lo {
            let e: Vec<u16> = Vec::new();
            assert(e@ =~= Seq::<u16>::empty());
            Some(e)
        } else {
            let parts = split_ranges(s, lo, i, ':');
            assert(pieces(s@, parts@).take(parts.len() as int) =~= pieces(s@, parts@));
            parse_hex_groups(s, &parts, parts.len())
        };
        let right = parse_groups(s, i + 2, hi);
        match (left, right) {
            (Some(lg), Some(rg)) => {
                if lg.len() > 7 || rg.len() > 7 - lg.len() {
                    return None;
                }
                let mut g: Vec<u16> = Vec::new();
                let mut k: usize = 0;
                while k < lg.len()
                    invariant
                        k <= lg.len(),
                        g@ == lg@.take(k as int),
                    decreases lg.len() - k,
                {
                    g.push(lg[k]);
                    assert(g@ =~= lg@.take(k + 1));
                    k = k + 1;
                }
                let zeros = 8 - lg.len() - rg.len();
                let mut z: usize = 0;
                while z < zeros
                    invariant
                        z <= zeros,
                        zeros == 8 - lg.len() - rg.len(),
                        g@ == lg@ + Seq::new(z as nat, |k: int| 0u16),
                    decreases zeros - z,
                {
                    g.push(0);
                    assert(g@ =~= lg@ + Seq::new((z + 1) as nat, |k: int| 0u16));
                    z = z + 1;
                }
                let mut k: usize = 0;
                while k < rg.len()
                    invariant
                        k <= rg.len(),
                        zeros == 8 - lg.len() - rg.len(),
                        g@ == lg@ + Seq::new(zeros as nat, |k: int| 0u16) + rg@.take(k as int),
                    decreases rg.len() - k,
                {
                    g.push(rg[k]);
                    assert(g@ =~= lg@ + Seq::new(zeros as nat, |k: int| 0u16) + rg@.take(k + 1));
                    k = k + 1;
                }
                assert(rg@.take(rg.len() as int) =~= rg@);
                Some(v6_from(&g))
            },
            _ => None,
        }
    } else {
        match parse_groups(s, lo, hi) {
            Some(g) => if g.len() == 8 {
                Some(v6_from(&g))
            } else {
                None
            },
            None => None,
        }
    }
}

/// The address that `s[lo..hi]` spells, IPv4 or IPv6.
pub fn parse_ip(s: &Vec<char>, lo: usize, hi: usize) -> (r: Option<IpAddress>)
    requires
        lo <= hi <= s.len(),
    ensures
        r == ip_of(s@.subrange(lo as int, hi as int)),
{
    match parse_ipv4(s, lo, hi) {
        Some(a) => Some(a),
        None => parse_ipv6(s, lo, hi),
    }
}

/// A port number, as `port_of` states it.
fn parse_port(s: &Vec<char>, lo: usize, hi: usize) -> (r: Option<u16>)
    requires
        lo <= hi <= s.len(),
    ensures
        r == port_of(s@.subrange(lo as int, hi as int)),
{
    match parse_number(s, lo, hi, 10, 0xffff) {
        Some(v) => Some(v as u16),
        None => None,
    }
}

/// The address and port of the bracketed form, from `s[lo..hi]` that
/// starts with `[`.
fn parse_bracketed_socket_addr(s: &Vec<char>, lo: usize, hi: usize) -> (r: Option<(IpAddress, u16)>)
    requires
        lo < hi <= s.len(),
        s@[lo as int] == '[',
    ensures
        r == bracketed_socket_addr_of(s@.subrange(lo as int, hi as int)),
{
    let ghost t = s@.subrange(lo as int, hi as int);
    let j = find_char(s, lo, hi, ']');
    proof {
        lemma_index_of_bounds(t, ']');
    }
    let ghost inner = t.subrange(1, j - lo);
    assert(inner =~= s@.subrange(lo + 1, j as int));
    let k = find_char(s, lo + 1, j, '%');
    proof {
        lemma_index_of_bounds(inner, '%');
    }
    assert(inner.take(k - lo - 1) =~= s@.subrange(lo + 1, k as int));
    let addr = parse_ipv6(s, lo + 1, k);
    let scope_fine = if k < j {
        assert(inner.skip(k - lo - 1 + 1) =~= s@.subrange(k + 1, j as int));
        parse_number(s, k + 1, j, 10, 0xffff_ffff).is_some()
    } else {
        true
    };
    if hi - j < 2 || s[j + 1] != ':' {
        return None;
    }
    assert(t.skip(j - lo + 2) =~= s@.subrange(j + 2, hi as int));
    let port = parse_port(s, j + 2, hi);
    match (addr, port) {
        (Some(a), Some(p)) => if scope_fine {
            Some((a, p))
        } else {
            None
        },
        _ => None,
    }
}

/// The address and port of the form `a.b.c.d:port`.
fn parse_plain_socket_addr(s: &Vec<char>, lo: usize, hi: usize) -> (r: Option<(IpAddress, u16)>)
    requires
        lo <= hi <= s.len(),
    ensures
        r == plain_socket_addr_of(s@.subrange(lo as int, hi as int)),
{
    let ghost t = s@.subrange(lo as int, hi as int);
    let i = find_char(s, lo, hi, ':');
    proof {
        lemma_index_of_bounds(t, ':');
    }
    if i == hi {
        return None;
    }
    assert(t.take(i - lo) =~= s@.subrange(lo as int, i as int));
    assert(t.skip(i - lo + 1) =~= s@.subrange(i + 1, hi as int));
    let addr = parse_ipv4(s, lo, i);
    let port = parse_port(s, i + 1, hi);
    match (addr, port) {
        (Some(a), Some(p)) => Some((a, p)),
        _ => None,
    }
}

/// The address and port that `s[lo..hi]` spells.
pub fn parse_socket_addr(s: &Vec<char>, lo: usize, hi: usize) -> (r: Option<(IpAddress, u16)>)
    requires
        lo <= hi <= s.len(),
    ensures
        r == socket_addr_of(s@.subrange(lo as int, hi as int)),
{
    if lo < hi && s[lo] == '[' {
        parse_bracketed_socket_addr(s, lo, hi)
    } else {
        parse_plain_socket_addr(s, lo, hi)
    }
}

/// Every character of `s` satisfies `p`.
pub open spec fn all_chars(s: Seq<char>, p: spec_fn(char) -> bool) -> bool {
    forall|i: int| 0 <= i < s.len() ==> #[trigger] p(s[i])
}

/// A character that may stand in a colon-hex address: a hexadecimal digit,
/// `:` or `.`.
pub open spec fn is_ip_char(c: char) -> bool {
    digit_value(c) < 16 || c == ':' || c == '.'
}

/// Where every piece of `s` between separators has only characters of `p`,
/// and the separator is one of them, so has `s`.
pub proof fn lemma_split_all_chars(s: Seq<char>, sep: char, p: spec_fn(char) -> bool)
    requires
        p(sep),
        forall|k: int|
            0 <= k < split_on(s, sep).len() ==> all_chars(#[trigger] split_on(s, sep)[k], p),
    ensures
        all_chars(s, p),
    decreases s.len(),
{
    lemma_index_of_bounds(s, sep);
    let i = index_of(s, sep);
    if i < s.len() {
        let rest = s.skip(i + 1);
        assert forall|k: int| 0 <= k < split_on(rest, sep).len() implies all_chars(
            #[trigger] split_on(rest, sep)[k],
            p,
        ) by {
            assert(split_on(rest, sep)[k] == split_on(s, sep)[k + 1]);
        }
        lemma_split_all_chars(rest, sep, p);
        assert(all_chars(split_on(s, sep)[0], p));
        assert forall|j: int| 0 <= j < s.len() implies #[trigger] p(s[j]) by {
            if j < i {
                assert(s[j] == s.take(i)[j]);
            } else if j > i {
                assert(s[j] == rest[j - i - 1]);
            }
        }
    } else {
        assert(split_on(s, sep)[0] == s);
    }
}

pub proof fn lemma_ipv4_chars(t: Seq<char>)
    requires
        ipv4_of(t) is Some,
    ensures
        all_chars(t, |c: char| digit_value(c) < 10 || c == '.'),
{
    let p = |c: char| digit_value(c) < 10 || c == '.';
    let parts = split_on(t, '.');
    assert forall|k: int| 0 <= k < parts.len() implies all_chars(#[trigger] parts[k], p) by {
        assert(octet_of(parts[k]) is Some);
        assert forall|i: int| 0 <= i < parts[k].len() implies #[trigger] p(parts[k][i]) by {
            assert(digit_value(parts[k][i]) < 10);
        }
    }
    lemma_split_all_chars(t, '.', p);
}

/// A text without `.` is no dotted-decimal address.
pub proof fn lemma_no_dot_no_ipv4(t: Seq<char>)
    requires
        forall|i: int| 0 <= i < t.len() ==> t[i] != '.',
    ensures
        ipv4_of(t) is None,
{
    lemma_index_of_unique(t, '.', t.len() as int);
}

pub proof fn lemma_groups_chars(t: Seq<char>)
    requires
        groups_of(t) is Some,
    ensures
        all_chars(t, |c: char| is_ip_char(c)),
{
    let p = |c: char| is_ip_char(c);
    if t.len() > 0 {
        let parts = split_on(t, ':');
        assert forall|k: int| 0 <= k < parts.len() implies all_chars(#[trigger] parts[k], p) by {
            if hex_groups_of(parts) is Some {
                assert(hex_group_of(parts[k]) is Some);
                assert forall|i: int| 0 <= i < parts[k].len() implies #[trigger] p(parts[k][i]) by {
                    assert(digit_value(parts[k][i]) < 16);
                }
            } else if k < parts.len() - 1 {
                assert(parts.drop_last()[k] == parts[k]);
                assert(hex_group_of(parts.drop_last()[k]) is Some);
                assert forall|i: int| 0 <= i < parts[k].len() implies #[trigger] p(parts[k][i]) by {
                    assert(digit_value(parts[k][i]) < 16);
                }
            } else {
                assert(parts[k] == parts.last());
                assert(ipv4_of(parts.last()) is Some);
                lemma_ipv4_chars(parts.last());
                assert forall|i: int| 0 <= i < parts[k].len() implies #[trigger] p(parts[k][i]) by {
                    let q = |c: char| digit_value(c) < 10 || c == '.';
                    assert(q(parts[k][i]));
                }
            }
        }
        lemma_split_all_chars(t, ':', p);
    }
}

pub proof fn lemma_hex_groups_chars(t: Seq<char>)
    requires
        hex_groups_of(split_on(t, ':')) is Some,
    ensures
        all_chars(t, |c: char| digit_value(c) < 16 || c == ':'),
{
    let p = |c: char| digit_value(c) < 16 || c == ':';
    let parts = split_on(t, ':');
    assert forall|k: int| 0 <= k < parts.len() implies all_chars(#[trigger] parts[k], p) by {
        assert(hex_group_of(parts[k]) is Some);
        assert forall|i: int| 0 <= i < parts[k].len() implies #[trigger] p(parts[k][i]) by {
            assert(digit_value(parts[k][i]) < 16);
        }
    }
    lemma_split_all_chars(t, ':', p);
}

/// The text of an IP address is not empty and holds only hexadecimal
/// digits, `:` and `.`.
pub proof fn lemma_ip_chars(t: Seq<char>)
    requires
        ip_of(t) is Some,
    ensures
        t.len() > 0,
        all_chars(t, |c: char| is_ip_char(c)),
{
    reveal(ipv6_of);
    let p = |c: char| is_ip_char(c);
    if ipv4_of(t) is Some {
        lemma_ipv4_chars(t);
        assert forall|i: int| 0 <= i < t.len() implies #[trigger] p(t[i]) by {
            let q = |c: char| digit_value(c) < 10 || c == '.';
            assert(q(t[i]));
        }
        if t.len() == 0 {
            assert(split_on(t, '.') =~= seq![t]);
        }
    } else {
        lemma_double_colon_bounds(t);
        let d = double_colon_index(t);
        if d + 2 <= t.len() {
            let left = t.take(d);
            let right = t.skip(d + 2);
            if left.len() > 0 {
                lemma_hex_groups_chars(left);
            }
            lemma_groups_chars(right);
            assert forall|i: int| 0 <= i < t.len() implies #[trigger] p(t[i]) by {
                if i < d {
                    let q = |c: char| digit_value(c) < 16 || c == ':';
                    assert(t[i] == left[i]);
                    assert(q(left[i]));
                } else if i >= d + 2 {
                    assert(t[i] == right[i - d - 2]);
                    assert(p(right[i - d - 2]));
                }
            }
        } else {
            lemma_groups_chars(t);
        }
    }
}

/// The text of an IP address is not also an address with a port.
pub proof fn lemma_ip_not_socket_addr(s: Seq<char>)
    requires
        ip_of(s) is Some,
    ensures
        socket_addr_of(s) is None,
{
    lemma_ip_chars(s);
    let p = |c: char| is_ip_char(c);
    assert(p(s[0]));
    let i = index_of(s, ':');
    lemma_index_of_bounds(s, ':');
    if i < s.len() {
        if ipv4_of(s) is Some {
            lemma_ipv4_chars(s);
            let q = |c: char| digit_value(c) < 10 || c == '.';
            assert(q(s[i]));
        } else {
            reveal(ipv6_of);
            lemma_double_colon_bounds(s);
            let d = double_colon_index(s);
            if d + 2 <= s.len() {
                let left = s.take(d);
                assert(i <= d);
                if left.len() > 0 {
                    lemma_hex_groups_chars(left);
                    assert forall|j: int| 0 <= j < i implies s.take(i)[j] != '.' by {
                        let q = |c: char| digit_value(c) < 16 || c == ':';
                        assert(s.take(i)[j] == left[j]);
                        assert(q(left[j]));
                    }
                }
            } else {
                let parts = split_on(s, ':');
                assert(parts[0] == s.take(i));
                assert(split_on(s.skip(i + 1), ':').len() >= 1);
                let g = if hex_groups_of(parts) is Some {
                    parts[0]
                } else {
                    assert(parts.drop_last()[0] == parts[0]);
                    parts.drop_last()[0]
                };
                assert(hex_group_of(g) is Some);
                assert forall|j: int| 0 <= j < i implies s.take(i)[j] != '.' by {
                    assert(digit_value(g[j]) < 16);
                }
            }
            lemma_no_dot_no_ipv4(s.take(i));
        }
    }
}

} // verus!
