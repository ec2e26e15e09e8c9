use vstd::prelude::*;
use vstd::slice::slice_subrange;
use vstd::string::StringSliceAdditionalSpecFns;

use crate::error::NetError;
use crate::read::convert_to_int;
use crate::text::{
    digit_of, free_of, is_numeral, lemma_split_append, lemma_split_free, lemma_split_len,
    lemma_split_single, lemma_split_two,
    numeral_value, read_number, split, split_bytes,
};

verus! {

/// An IP address: four octets, or eight 16-bit groups, most significant first.
#[derive(Clone, Copy, Debug, PartialEq, Eq, Structural)]
pub enum IpAddress {
    V4(u8, u8, u8, u8),
    V6(u16, u16, u16, u16, u16, u16, u16, u16),
}

/// A transport address: an IP address and a port.
#[derive(Clone, Copy, Debug, PartialEq, Eq, Structural)]
pub struct Endpoint {
    pub ip: IpAddress,
    pub port: u16,
}

/// One octet of a dotted IPv4 address: one to three decimal digits, no
/// leading zero, at most 255.
pub open spec fn octet_of(t: Seq<u8>) -> Option<u8> {
    if 1 <= t.len() <= 3 && is_numeral(t, 10) && (t.len() == 1 || t[0] != 48)
        && numeral_value(t, 10) <= 255 {
        Some(numeral_value(t, 10) as u8)
    } else {
        None
    }
}

/// One group of an IPv6 address: one to four hexadecimal digits.
pub open spec fn group_of(t: Seq<u8>) -> Option<u16> {
    if 1 <= t.len() <= 4 && is_numeral(t, 16) && numeral_value(t, 16) <= 65535 {
        Some(numeral_value(t, 16) as u16)
    } else {
        None
    }
}

/// A port: one or more decimal digits (leading zeros allowed), at most 65535.
pub open spec fn port_of(t: Seq<u8>) -> Option<u16> {
    if t.len() >= 1 && is_numeral(t, 10) && numeral_value(t, 10) <= 65535 {
        Some(numeral_value(t, 10) as u16)
    } else {
        None
    }
}

/// The IPv4 address that `s` writes as four dotted octets.
pub open spec fn ipv4_of(s: Seq<u8>) -> Option<IpAddress> {
    let f = split(s, 46);
    if f.len() == 4 && octet_of(f[0]) is Some && octet_of(f[1]) is Some && octet_of(f[2]) is Some
        && octet_of(f[3]) is Some {
        Some(
            IpAddress::V4(
                octet_of(f[0])->0,
                octet_of(f[1])->0,
                octet_of(f[2])->0,
                octet_of(f[3])->0,
            ),
        )
    } else {
        None
    }
}

/// Every field is a group.
pub open spec fn all_groups(fs: Seq<Seq<u8>>) -> bool {
    forall|i: int| 0 <= i < fs.len() ==> (#[trigger] group_of(fs[i])) is Some
}

/// The values of fields that are all groups.
pub open spec fn group_values(fs: Seq<Seq<u8>>) -> Seq<u16> {
    Seq::new(fs.len(), |i: int| group_of(fs[i])->0)
}

pub open spec fn zeros(n: nat) -> Seq<u16> {
    Seq::new(n, |i: int| 0u16)
}

/// The two groups that an IPv4 address fills at the end of an IPv6 address.
pub open spec fn v4_pair(ip: IpAddress) -> Seq<u16> {
    match ip {
        IpAddress::V4(a, b, c, d) => seq![
            (a as int * 256 + b as int) as u16,
            (c as int * 256 + d as int) as u16,
        ],
        IpAddress::V6(..) => Seq::empty(),
    }
}

/// The groups that fields give: each field a group, except that the last may
/// instead be a dotted IPv4 address, which stands for two groups.
pub open spec fn field_values(fs: Seq<Seq<u8>>) -> Option<Seq<u16>> {
    if all_groups(fs) {
        Some(group_values(fs))
    } else if fs.len() > 0 && all_groups(fs.drop_last()) && ipv4_of(fs.last()) is Some {
        Some(group_values(fs.drop_last()) + v4_pair(ipv4_of(fs.last())->0))
    } else {
        None
    }
}

/// An empty field between groups, that stands for a run of zero groups.
pub open spec fn is_gap(fs: Seq<Seq<u8>>, k: int) -> bool {
    0 < k < fs.len() - 1 && fs[k].len() == 0 && all_groups(fs.subrange(0, k)) && field_values(
        fs.subrange(k + 1, fs.len() as int),
    ) is Some && k + field_values(fs.subrange(k + 1, fs.len() as int))->0.len() <= 7
}

/// The eight groups that the colon-separated fields of an IPv6 address give:
/// eight groups without `::`; or `::` at the start, at the end, alone or once
/// between groups, standing for at least one zero group. The last field may
/// be a dotted IPv4 address, for the last two groups.
pub open spec fn ipv6_groups(fs: Seq<Seq<u8>>) -> Option<Seq<u16>> {
    let n = fs.len();
    if field_values(fs) is Some && field_values(fs)->0.len() == 8 {
        field_values(fs)
    } else if n == 3 && fs[0].len() == 0 && fs[1].len() == 0 && fs[2].len() == 0 {
        Some(zeros(8))
    } else if n >= 3 && fs[0].len() == 0 && fs[1].len() == 0 && field_values(
        fs.subrange(2, n as int),
    ) is Some && field_values(fs.subrange(2, n as int))->0.len() <= 7 {
        let t = field_values(fs.subrange(2, n as int))->0;
        Some(zeros((8 - t.len()) as nat) + t)
    } else if 3 <= n <= 9 && fs[n - 1].len() == 0 && fs[n - 2].len() == 0 && all_groups(
        fs.subrange(0, n - 2),
    ) {
        Some(group_values(fs.subrange(0, n - 2)) + zeros((10 - n) as nat))
    } else if exists|k: int| is_gap(fs, k) {
        let k = choose|k: int| is_gap(fs, k);
        let t = field_values(fs.subrange(k + 1, n as int))->0;
        Some(group_values(fs.subrange(0, k)) + zeros((8 - k - t.len()) as nat) + t)
    } else {
        None
    }
}

pub open spec fn v6_from(g: Seq<u16>) -> IpAddress {
    IpAddress::V6(g[0], g[1], g[2], g[3], g[4], g[5], g[6], g[7])
}

/// The IPv6 address that `s` writes as colon-separated hexadecimal groups.
pub open spec fn ipv6_of(s: Seq<u8>) -> Option<IpAddress> {
    match ipv6_groups(split(s, 58)) {
        Some(g) => Some(v6_from(g)),
        None => None,
    }
}

/// The IP address that `s` writes, IPv4 tried first.
pub open spec fn ip_of(s: Seq<u8>) -> Option<IpAddress> {
    if ipv4_of(s) is Some {
        ipv4_of(s)
    } else {
        ipv6_of(s)
    }
}

/// A zone index: one or more decimal digits, at most `u32::MAX`.
pub open spec fn scope_of(t: Seq<u8>) -> Option<u32> {
    if t.len() >= 1 && is_numeral(t, 10) && numeral_value(t, 10) <= 4294967295 {
        Some(numeral_value(t, 10) as u32)
    } else {
        None
    }
}

/// The IPv6 address inside brackets, which may carry a `%` and a zone index.
/// An endpoint has no place for the zone index, so it is read and dropped.
pub open spec fn bracketed_ip_of(t: Seq<u8>) -> Option<IpAddress> {
    let g = split(t, 37);
    if g.len() == 1 || (g.len() == 2 && scope_of(g[1]) is Some) {
        ipv6_of(g[0])
    } else {
        None
    }
}

/// The endpoint that `s` writes: `a.b.c.d:port`, or `[v6]:port` with an
/// optional `%zone` after the address.
pub open spec fn endpoint_of(s: Seq<u8>) -> Option<Endpoint> {
    if s.len() > 0 && s[0] == 91 {
        let f = split(s, 93);
        if f.len() == 2 && f[0].len() >= 1 && f[1].len() >= 1 && f[1][0] == 58
            && bracketed_ip_of(f[0].drop_first()) is Some && port_of(f[1].drop_first()) is Some {
            Some(
                Endpoint {
                    ip: bracketed_ip_of(f[0].drop_first())->0,
                    port: port_of(f[1].drop_first())->0,
                },
            )
        } else {
            None
        }
    } else {
        let f = split(s, 58);
        if f.len() == 2 && ipv4_of(f[0]) is Some && port_of(f[1]) is Some {
            Some(Endpoint { ip: ipv4_of(f[0])->0, port: port_of(f[1])->0 })
        } else {
            None
        }
    }
}

fn octet(t: &[u8]) -> (r: Option<u8>)
    ensures
        r == octet_of(t@),
{
    if t.len() < 1 || t.len() > 3 || (t.len() > 1 && t[0] == 48) {
        return None;
    }
    match read_number(t, 10, 255) {
        Some(v) => Some(v as u8),
        None => None,
    }
}

fn group(t: &[u8]) -> (r: Option<u16>)
    ensures
        r == group_of(t@),
{
    if t.len() < 1 || t.len() > 4 {
        return None;
    }
    match read_number(t, 16, 65535) {
        Some(v) => Some(v as u16),
        None => None,
    }
}

fn port_number(t: &[u8]) -> (r: Option<u16>)
    ensures
        r == port_of(t@),
{
    match read_number(t, 10, 65535) {
        Some(v) => Some(v as u16),
        None => None,
    }
}

pub open spec fn views(v: Seq<Vec<u8>>) -> Seq<Seq<u8>> {
    Seq::new(v.len(), |i: int| v[i]@)
}

/// Reads an IPv4 address in dotted form.
pub fn parse_ipv4(s: &[u8]) -> (r: Option<IpAddress>)
    ensures
        r == ipv4_of(s@),
{
    let f = split_bytes(s, 46);
    if f.len() != 4 {
        return None;
    }
    let a = octet(f[0].as_slice());
    let b = octet(f[1].as_slice());
    let c = octet(f[2].as_slice());
    let d = octet(f[3].as_slice());
    match (a, b, c, d) {
        (Some(a), Some(b), Some(c), Some(d)) => Some(IpAddress::V4(a, b, c, d)),
        _ => None,
    }
}

/// The values of the fields `lo..hi`, where each of them is a group.
fn groups_in(f: &Vec<Vec<u8>>, lo: usize, hi: usize) -> (r: Option<Vec<u16>>)
    requires
        lo <= hi <= f@.len(),
    ensures
        match r {
            Some(v) => all_groups(views(f@).subrange(lo as int, hi as int)) && v@ == group_values(
                views(f@).subrange(lo as int, hi as int),
            ),
            None => !all_groups(views(f@).subrange(lo as int, hi as int)),
        },
{
    let ghost fs = views(f@);
    let mut v: Vec<u16> = Vec::new();
    let mut i: usize = lo;
    while i < hi
        invariant
            lo <= i <= hi <= f@.len(),
            fs == views(f@),
            all_groups(fs.subrange(lo as int, i as int)),
            v@ == group_values(fs.subrange(lo as int, i as int)),
        decreases hi - i,
    {
        match group(f[i].as_slice()) {
            None => {
                assert(fs.subrange(lo as int, hi as int)[i - lo] == fs[i as int]);
                return None;
            },
            Some(g) => {
                v.push(g);
                i = i + 1;
                assert forall|k: int| 0 <= k < i - lo implies (#[trigger] group_of(
                    fs.subrange(lo as int, i as int)[k],
                )) is Some by {
                    if k < i - 1 - lo {
                        assert(fs.subrange(lo as int, i as int)[k] == fs.subrange(
                            lo as int,
                            i - 1,
                        )[k]);
                    }
                }
                assert(v@ =~= group_values(fs.subrange(lo as int, i as int)));
            },
        }
    }
    Some(v)
}

fn push_zeros(v: &mut Vec<u16>, n: usize)
    ensures
        final(v)@ == old(v)@ + zeros(n as nat),
{
    let mut i: usize = 0;
    while i < n
        invariant
            i <= n,
            v@ == old(v)@ + zeros(i as nat),
        decreases n - i,
    {
        v.push(0u16);
        i = i + 1;
        assert(v@ =~= old(v)@ + zeros(i as nat));
    }
}

fn push_all(v: &mut Vec<u16>, w: &Vec<u16>)
    ensures
        final(v)@ == old(v)@ + w@,
{
    let mut i: usize = 0;
    while i < w.len()
        invariant
            i <= w@.len(),
            v@ == old(v)@ + w@.take(i as int),
        decreases w@.len() - i,
    {
        v.push(w[i]);
        i = i + 1;
        assert(v@ =~= old(v)@ + w@.take(i as int));
    }
    assert(w@.take(w@.len() as int) =~= w@);
}

fn v6_of_groups(g: &Vec<u16>) -> (r: IpAddress)
    requires
        g@.len() == 8,
    ensures
        r == v6_from(g@),
{
    IpAddress::V6(g[0], g[1], g[2], g[3], g[4], g[5], g[6], g[7])
}

/// The first empty field, or the number of fields where none is empty.
fn first_empty(f: &Vec<Vec<u8>>) -> (k: usize)
    ensures
        k <= f@.len(),
        forall|j: int| 0 <= j < k ==> f@[j]@.len() > 0,
        k < f@.len() ==> f@[k as int]@.len() == 0,
{
    let mut k: usize = 0;
    while k < f.len()
        invariant
            k <= f@.len(),
            forall|j: int| 0 <= j < k ==> f@[j]@.len() > 0,
        decreases f@.len() - k,
    {
        if f[k].len() == 0 {
            return k;
        }
        k = k + 1;
    }
    k
}

/// The values of the fields `lo..hi`: groups, the last of them possibly a
/// dotted IPv4 address.
fn values_in(f: &Vec<Vec<u8>>, lo: usize, hi: usize) -> (r: Option<Vec<u16>>)
    requires
        lo <= hi <= f@.len(),
    ensures
        match r {
            Some(v) => field_values(views(f@).subrange(lo as int, hi as int)) == Some(v@),
            None => field_values(views(f@).subrange(lo as int, hi as int)) is None,
        },
{
    let ghost fs = views(f@).subrange(lo as int, hi as int);
    if let Some(v) = groups_in(f, lo, hi) {
        return Some(v);
    }
    if lo == hi {
        return None;
    }
    assert(fs.drop_last() =~= views(f@).subrange(lo as int, hi - 1));
    assert(fs.last() == f@[hi - 1]@);
    let head = groups_in(f, lo, hi - 1);
    let tail = parse_ipv4(f[hi - 1].as_slice());
    match (head, tail) {
        (Some(h), Some(IpAddress::V4(a, b, c, d))) => {
            let mut v = h;
            v.push((a as u16) * 256 + (b as u16));
            v.push((c as u16) * 256 + (d as u16));
            assert(v@ =~= group_values(fs.drop_last()) + v4_pair(ipv4_of(fs.last())->0));
            Some(v)
        },
        _ => None,
    }
}

/// An IPv4 text is never empty.
proof fn lemma_ipv4_nonempty(t: Seq<u8>)
    requires
        ipv4_of(t) is Some,
    ensures
        t.len() > 0,
{
    if t.len() == 0 {
        assert(split(t, 46) == seq![Seq::<u8>::empty()]);
    }
}

/// Fields that give values are each a group or an IPv4 text, so none is empty.
proof fn lemma_field_kinds(fs: Seq<Seq<u8>>)
    requires
        field_values(fs) is Some,
    ensures
        forall|i: int|
            0 <= i < fs.len() ==> (group_of(#[trigger] fs[i]) is Some || ipv4_of(fs[i]) is Some)
                && fs[i].len() > 0,
{
    assert forall|i: int| 0 <= i < fs.len() implies (group_of(#[trigger] fs[i]) is Some || ipv4_of(
        fs[i],
    ) is Some) && fs[i].len() > 0 by {
        if !all_groups(fs) {
            if i < fs.len() - 1 {
                assert(fs.drop_last()[i] == fs[i]);
            } else {
                lemma_ipv4_nonempty(fs[i]);
            }
        }
    }
}

/// The groups of fields that hold `::` once between groups.
fn gap_groups(f: &Vec<Vec<u8>>) -> (r: Option<Vec<u16>>)
    ensures
        match r {
            Some(v) => exists|k: int| is_gap(views(f@), k) && v@ == ({
                let k = choose|k: int| is_gap(views(f@), k);
                let n = f@.len() as int;
                let t = field_values(views(f@).subrange(k + 1, n))->0;
                group_values(views(f@).subrange(0, k)) + zeros((8 - k - t.len()) as nat) + t
            }),
            None => !exists|k: int| is_gap(views(f@), k),
        },
{
    let ghost fs = views(f@);
    let n = f.len();
    let k = first_empty(&f);
    assert forall|j: int| is_gap(fs, j) implies j == k by {
        if j < k {
            assert(fs[j].len() > 0);
        } else if j > k {
            assert(fs.subrange(0, j)[k as int] == fs[k as int]);
            assert(group_of(fs.subrange(0, j)[k as int]) is Some);
        }
    }
    if n < 3 || k == 0 || k >= n - 1 {
        return None;
    }
    let head = groups_in(&f, 0, k);
    let tail = values_in(&f, k + 1, n);
    match (head, tail) {
        (Some(head), Some(tail)) => {
            if k + tail.len() > 7 {
                return None;
            }
            assert(is_gap(fs, k as int));
            let mut v: Vec<u16> = Vec::new();
            push_all(&mut v, &head);
            push_zeros(&mut v, 8 - k - tail.len());
            push_all(&mut v, &tail);
            assert(v@ =~= group_values(fs.subrange(0, k as int)) + zeros(
                (8 - k - tail@.len()) as nat,
            ) + tail@);
            Some(v)
        },
        _ => None,
    }
}

/// Reads an IPv6 address written as colon-separated hexadecimal groups, with
/// at most one `::` and possibly a dotted IPv4 address for the last two groups.
pub fn parse_ipv6(s: &[u8]) -> (r: Option<IpAddress>)
    ensures
        r == ipv6_of(s@),
{
    let f = split_bytes(s, 58);
    let ghost fs = views(f@);
    assert(fs == split(s@, 58));
    let n = f.len();
    assert(fs.subrange(0, n as int) =~= fs);
    if let Some(v) = values_in(&f, 0, n) {
        if v.len() == 8 {
            return Some(v6_of_groups(&v));
        }
    }
    if n == 3 && f[0].len() == 0 && f[1].len() == 0 && f[2].len() == 0 {
        let mut v: Vec<u16> = Vec::new();
        push_zeros(&mut v, 8);
        assert(v@ =~= zeros(8));
        return Some(v6_of_groups(&v));
    }
    if n >= 3 && f[0].len() == 0 && f[1].len() == 0 {
        if let Some(tail) = values_in(&f, 2, n) {
            if tail.len() <= 7 {
                let mut v: Vec<u16> = Vec::new();
                push_zeros(&mut v, 8 - tail.len());
                push_all(&mut v, &tail);
                assert(v@ =~= zeros((8 - tail@.len()) as nat) + tail@);
                return Some(v6_of_groups(&v));
            }
        }
    }
    if 3 <= n && n <= 9 && f[n - 1].len() == 0 && f[n - 2].len() == 0 {
        if let Some(head) = groups_in(&f, 0, n - 2) {
            let mut v: Vec<u16> = Vec::new();
            push_all(&mut v, &head);
            push_zeros(&mut v, 10 - n);
            assert(v@ =~= group_values(fs.subrange(0, n - 2)) + zeros((10 - n) as nat));
            return Some(v6_of_groups(&v));
        }
    }
    match gap_groups(&f) {
        Some(v) => Some(v6_of_groups(&v)),
        None => None,
    }
}

/// Reads an IP address, IPv4 tried first.
pub fn parse_ip(s: &[u8]) -> (r: Option<IpAddress>)
    ensures
        r == ip_of(s@),
{
    match parse_ipv4(s) {
        Some(ip) => Some(ip),
        None => parse_ipv6(s),
    }
}

/// Reads an endpoint: `a.b.c.d:port`, or `[v6]:port` with an optional
/// `%zone` after the address, which is dropped.
pub fn parse_endpoint(s: &[u8]) -> (r: Option<Endpoint>)
    ensures
        r == endpoint_of(s@),
{
    if s.len() > 0 && s[0] == 91 {
        let f = split_bytes(s, 93);
        if f.len() != 2 || f[0].len() < 1 || f[1].len() < 1 || f[1][0] != 58 {
            return None;
        }
        let inner = slice_subrange(f[0].as_slice(), 1, f[0].len());
        let digits = slice_subrange(f[1].as_slice(), 1, f[1].len());
        let g = split_bytes(inner, 37);
        proof {
            lemma_split_len(inner@, 37);
            assert(inner@ == f@[0]@.drop_first());
            assert(digits@ == f@[1]@.drop_first());
        }
        if g.len() > 2 {
            return None;
        }
        if g.len() == 2 && read_number(g[1].as_slice(), 10, 4294967295u32).is_none() {
            return None;
        }
        match (parse_ipv6(g[0].as_slice()), port_number(digits)) {
            (Some(ip), Some(port)) => Some(Endpoint { ip, port }),
            _ => None,
        }
    } else {
        let f = split_bytes(s, 58);
        if f.len() != 2 {
            return None;
        }
        match (parse_ipv4(f[0].as_slice()), port_number(f[1].as_slice())) {
            (Some(ip), Some(port)) => Some(Endpoint { ip, port }),
            _ => None,
        }
    }
}

/// Creates an endpoint from text of the form `a.b.c.d:port` or `[v6]:port`.
/// A zone index (`[fe80::1%2]:80`) is accepted and dropped: an endpoint has no
/// place for it.
pub fn addr(raw: &str) -> (r: Result<Endpoint, NetError>)
    ensures
        match endpoint_of(raw.spec_bytes()) {
            Some(e) => r == Ok::<Endpoint, NetError>(e),
            None => r == Err::<Endpoint, NetError>(NetError::AddrParse),
        },
{
    match parse_endpoint(raw.as_bytes()) {
        Some(e) => Ok(e),
        None => Err(NetError::AddrParse),
    }
}

/// Creates an endpoint from the text of a bare IP address and a port number.
pub fn addr_with_port(raw: &str, port: i64) -> (r: Result<Endpoint, NetError>)
    ensures
        match ip_of(raw.spec_bytes()) {
            Some(ip) => if 0 <= port <= 65535 {
                r == Ok::<Endpoint, NetError>(Endpoint { ip, port: port as u16 })
            } else {
                r == Err::<Endpoint, NetError>(NetError::Range)
            },
            None => r == Err::<Endpoint, NetError>(NetError::AddrParse),
        },
{
    match parse_ip(raw.as_bytes()) {
        Some(ip) => if 0 <= port && port <= 65535 {
            Ok(Endpoint { ip, port: port as u16 })
        } else {
            Err(NetError::Range)
        },
        None => Err(NetError::AddrParse),
    }
}

/// Whether the endpoint holds an IPv4 address.
pub fn is_ipv4(addr: &Endpoint) -> (r: bool)
    ensures
        r == addr.ip is V4,
{
    match addr.ip {
        IpAddress::V4(..) => true,
        IpAddress::V6(..) => false,
    }
}

/// Whether the endpoint holds an IPv6 address.
pub fn is_ipv6(addr: &Endpoint) -> (r: bool)
    ensures
        r == addr.ip is V6,
{
    match addr.ip {
        IpAddress::V4(..) => false,
        IpAddress::V6(..) => true,
    }
}

/// The endpoint's port, as the script engine's integer.
pub fn port(addr: &Endpoint) -> (r: Result<i64, NetError>)
    ensures
        r == Ok::<i64, NetError>(addr.port as i64),
{
    convert_to_int(addr.port as usize)
}

proof fn lemma_numeral_free(t: Seq<u8>, radix: nat, x: u8)
    requires
        is_numeral(t, radix),
        digit_of(x, radix) is None,
    ensures
        free_of(t, x),
{
    assert forall|j: int| 0 <= j < t.len() implies t[j] != x by {
        assert(digit_of(t[j], radix) is Some);
    }
}

/// A dotted IPv4 text holds digits and dots alone.
proof fn lemma_ipv4_text(ip: Seq<u8>, x: u8)
    requires
        ipv4_of(ip) is Some,
        x != 46,
        digit_of(x, 10) is None,
    ensures
        free_of(ip, x),
{
    let f = split(ip, 46);
    assert forall|i: int| 0 <= i < f.len() implies free_of(#[trigger] f[i], x) by {
        assert(octet_of(f[i]) is Some);
        lemma_numeral_free(f[i], 10, x);
    }
    lemma_split_free(ip, 46, x);
}

/// Each field of an IPv6 text is a group, a dotted IPv4 address, or empty
/// where `::` stands.
proof fn lemma_v6_fields(fs: Seq<Seq<u8>>)
    requires
        ipv6_groups(fs) is Some,
    ensures
        forall|i: int|
            0 <= i < fs.len() ==> (#[trigger] fs[i]).len() == 0 || group_of(fs[i]) is Some
                || ipv4_of(fs[i]) is Some,
{
    let n = fs.len() as int;
    if field_values(fs) is Some && field_values(fs)->0.len() == 8 {
        lemma_field_kinds(fs);
    } else if n == 3 && fs[0].len() == 0 && fs[1].len() == 0 && fs[2].len() == 0 {
    } else if n >= 3 && fs[0].len() == 0 && fs[1].len() == 0 && field_values(fs.subrange(2, n))
        is Some && field_values(fs.subrange(2, n))->0.len() <= 7 {
        let t = fs.subrange(2, n);
        lemma_field_kinds(t);
        assert forall|i: int| 0 <= i < n implies (#[trigger] fs[i]).len() == 0 || group_of(fs[i])
            is Some || ipv4_of(fs[i]) is Some by {
            if i >= 2 {
                assert(t[i - 2] == fs[i]);
            }
        }
    } else if 3 <= n <= 9 && fs[n - 1].len() == 0 && fs[n - 2].len() == 0 && all_groups(
        fs.subrange(0, n - 2),
    ) {
        let h = fs.subrange(0, n - 2);
        assert forall|i: int| 0 <= i < n implies (#[trigger] fs[i]).len() == 0 || group_of(fs[i])
            is Some || ipv4_of(fs[i]) is Some by {
            if i < n - 2 {
                assert(h[i] == fs[i]);
                assert(group_of(h[i]) is Some);
            }
        }
    } else {
        let k = choose|k: int| is_gap(fs, k);
        assert(is_gap(fs, k));
        let h = fs.subrange(0, k);
        let t = fs.subrange(k + 1, n);
        lemma_field_kinds(t);
        assert forall|i: int| 0 <= i < n implies (#[trigger] fs[i]).len() == 0 || group_of(fs[i])
            is Some || ipv4_of(fs[i]) is Some by {
            if i < k {
                assert(h[i] == fs[i]);
                assert(group_of(h[i]) is Some);
            } else if i > k {
                assert(t[i - k - 1] == fs[i]);
            }
        }
    }
}

/// An IPv6 text holds none of the bytes that are neither hexadecimal digits,
/// dots nor colons.
proof fn lemma_v6_text(ip: Seq<u8>, x: u8)
    requires
        ipv6_of(ip) is Some,
        x != 46,
        x != 58,
        digit_of(x, 16) is None,
    ensures
        free_of(ip, x),
{
    let fs = split(ip, 58);
    lemma_v6_fields(fs);
    assert forall|i: int| 0 <= i < fs.len() implies free_of(#[trigger] fs[i], x) by {
        if group_of(fs[i]) is Some {
            lemma_numeral_free(fs[i], 16, x);
        } else if ipv4_of(fs[i]) is Some {
            lemma_ipv4_text(fs[i], x);
        }
    }
    lemma_split_free(ip, 58, x);
}

/// The port read back from `a.b.c.d:port` is the number that the text after
/// the colon writes, and the address is the one the dotted text writes.
pub proof fn lemma_port_round_trip(ip: Seq<u8>, port: Seq<u8>)
    requires
        ipv4_of(ip) is Some,
        port_of(port) is Some,
    ensures
        endpoint_of(ip + seq![58u8] + port) == Some(
            Endpoint { ip: ipv4_of(ip)->0, port: port_of(port)->0 },
        ),
        endpoint_of(ip + seq![58u8] + port)->0.port == numeral_value(port, 10),
{
    let s = ip + seq![58u8] + port;
    lemma_ipv4_text(ip, 58);
    lemma_ipv4_text(ip, 91);
    lemma_numeral_free(port, 10, 58);
    lemma_split_single(ip, 58);
    lemma_split_append(ip, port, 58);
    if ip.len() == 0 {
        assert(split(ip, 46) == seq![Seq::<u8>::empty()]);
    }
    assert(s[0] == ip[0]);
}

/// The bracketed form `[v6]:port` gives the address that the bare IPv6 text
/// gives, with the port that the text after the colon writes: so it agrees
/// with an address read alone and given that port.
pub proof fn lemma_bracketed_v6(ip: Seq<u8>, port: Seq<u8>)
    requires
        ip_of(ip) matches Some(IpAddress::V6(..)),
        port_of(port) is Some,
    ensures
        endpoint_of(seq![91u8] + ip + seq![93u8, 58u8] + port) == Some(
            Endpoint { ip: ip_of(ip)->0, port: port_of(port)->0 },
        ),
        endpoint_of(seq![91u8] + ip + seq![93u8, 58u8] + port)->0.port == numeral_value(port, 10),
{
    let s = seq![91u8] + ip + seq![93u8, 58u8] + port;
    let a = seq![91u8] + ip;
    let b = seq![58u8] + port;
    assert(s =~= a + seq![93u8] + b);
    lemma_v6_text(ip, 93);
    lemma_v6_text(ip, 37);
    lemma_split_single(ip, 37);
    assert(free_of(a, 93)) by {
        assert forall|j: int| 0 <= j < a.len() implies a[j] != 93 by {
            if j > 0 {
                assert(a[j] == ip[j - 1]);
            }
        }
    }
    lemma_numeral_free(port, 10, 93);
    assert(free_of(b, 93)) by {
        assert forall|j: int| 0 <= j < b.len() implies b[j] != 93 by {
            if j > 0 {
                assert(b[j] == port[j - 1]);
            }
        }
    }
    lemma_split_single(a, 93);
    lemma_split_append(a, b, 93);
    assert(a.drop_first() =~= ip);
    assert(b.drop_first() =~= port);
}

/// For every text that reads as an endpoint, the port is the number that the
/// text writes after its last colon.
pub proof fn lemma_port_is_written_port(s: Seq<u8>)
    requires
        endpoint_of(s) is Some,
    ensures
        endpoint_of(s)->0.port == numeral_value(split(s, 58).last(), 10),
{
    if s.len() > 0 && s[0] == 91 {
        let f = split(s, 93);
        lemma_split_two(s, 93);
        let d = f[1].drop_first();
        assert(f[1] =~= seq![58u8] + d);
        lemma_numeral_free(d, 10, 58);
        assert(s =~= (f[0] + seq![93u8]) + seq![58u8] + d);
        lemma_split_append(f[0] + seq![93u8], d, 58);
    }
}

/// An endpoint holds either an IPv4 or an IPv6 address, never both.
pub proof fn lemma_one_family(e: Endpoint)
    ensures
        (e.ip is V4) != (e.ip is V6),
{
}

} // verus!
