//! IPv4 addresses and UDP endpoints.

use crate::text::{is_number, number_value, read_number};
use vstd::prelude::*;

verus! {

/// An IPv4 address: its four octets, in the order in which they are written.
#[derive(Clone, Copy, Debug, PartialEq, Eq, Structural)]
pub struct Ipv4Addr {
    pub a: u8,
    pub b: u8,
    pub c: u8,
    pub d: u8,
}

/// An IPv4 address with a UDP port.
#[derive(Clone, Copy, Debug, PartialEq, Eq, Structural)]
pub struct SocketAddrV4 {
    pub ip: Ipv4Addr,
    pub port: u16,
}

impl Ipv4Addr {
    /// The address `a.b.c.d`.
    pub fn new(a: u8, b: u8, c: u8, d: u8) -> (r: Self)
        ensures
            r == (Ipv4Addr { a, b, c, d }),
    {
        Ipv4Addr { a, b, c, d }
    }

    /// The octets, first to last.
    pub open spec fn bytes(self) -> Seq<u8> {
        seq![self.a, self.b, self.c, self.d]
    }

    /// The address that stands for none.
    pub open spec fn zero() -> Self {
        Ipv4Addr { a: 0, b: 0, c: 0, d: 0 }
    }

    /// Whether this is 0.0.0.0.
    pub fn is_unspecified(&self) -> (r: bool)
        ensures
            r <==> *self == Self::zero(),
    {
        self.a == 0 && self.b == 0 && self.c == 0 && self.d == 0
    }

    /// Whether this is in 127.0.0.0/8.
    pub fn is_loopback(&self) -> (r: bool)
        ensures
            r <==> self.a == 127,
    {
        self.a == 127
    }

    /// Whether this is in 224.0.0.0/4.
    pub fn is_multicast(&self) -> (r: bool)
        ensures
            r <==> 224 <= self.a <= 239,
    {
        self.a >= 224 && self.a <= 239
    }
}

/// The decimal text of an octet: one to three digits, no zero before others.
pub open spec fn octet_text(t: Seq<char>, v: u8) -> bool {
    &&& is_number(t)
    &&& t.len() <= 3
    &&& t.len() > 1 ==> t[0] != '0'
    &&& number_value(t) == v
}

/// Whether `s` is the dotted text of `ip`, the dots standing at `i`, `j`, `k`.
pub open spec fn dotted_at(s: Seq<char>, ip: Ipv4Addr, i: int, j: int, k: int) -> bool {
    &&& 0 <= i < j < k < s.len()
    &&& s[i] == '.'
    &&& s[j] == '.'
    &&& s[k] == '.'
    &&& octet_text(s.subrange(0, i), ip.a)
    &&& octet_text(s.subrange(i + 1, j), ip.b)
    &&& octet_text(s.subrange(j + 1, k), ip.c)
    &&& octet_text(s.subrange(k + 1, s.len() as int), ip.d)
}

/// Whether `s` is the dotted text of `ip`.
pub open spec fn dotted(s: Seq<char>, ip: Ipv4Addr) -> bool {
    exists|i: int, j: int, k: int| dotted_at(s, ip, i, j, k)
}

/// Digits stop before the first dot.
proof fn lemma_first_dot(s: Seq<char>, lo: int, i: int, j: int)
    requires
        0 <= lo <= i < s.len(),
        lo <= j < s.len(),
        s[i] == '.',
        s[j] == '.',
        is_number(s.subrange(lo, j)),
        forall|m: int| lo <= m < i ==> s[m] != '.',
    ensures
        i == j,
{
    if i < j {
        assert(s.subrange(lo, j)[i - lo] == s[i]);
    }
}

/// The octet that the characters from `lo` up to `hi` write.
fn read_octet(s: &Vec<char>, lo: usize, hi: usize) -> (r: Option<u8>)
    requires
        lo <= hi <= s@.len(),
    ensures
        match r {
            Some(v) => octet_text(s@.subrange(lo as int, hi as int), v),
            None => forall|v: u8| !octet_text(s@.subrange(lo as int, hi as int), v),
        },
{
    if hi - lo > 3 || (hi - lo > 1 && s[lo] == '0') {
        return None;
    }
    match read_number(s, lo, hi, 255) {
        Some(n) => Some(n as u8),
        None => None,
    }
}

/// The place of the first dot at or after `lo`, or the length.
fn find_dot(s: &Vec<char>, lo: usize) -> (r: usize)
    requires
        lo <= s@.len(),
    ensures
        lo <= r <= s@.len(),
        r < s@.len() ==> s@[r as int] == '.',
        forall|m: int| lo <= m < r ==> s@[m] != '.',
{
    let mut i: usize = lo;
    while i < s.len() && s[i] != '.'
        invariant
            lo <= i <= s@.len(),
            forall|m: int| lo <= m < i ==> s@[m] != '.',
        decreases s@.len() - i,
    {
        i += 1;
    }
    i
}

/// Where the dots of a dotted text stand, each is the first after the one
/// before.
proof fn lemma_dots(s: Seq<char>, ip: Ipv4Addr, i: int, j: int, k: int, x: int, y: int, z: int)
    requires
        dotted_at(s, ip, x, y, z),
        0 <= i <= s.len(),
        i < s.len() ==> s[i] == '.',
        forall|m: int| 0 <= m < i ==> s[m] != '.',
    ensures
        i == x,
        i < j <= s.len() && (j < s.len() ==> s[j] == '.') && (forall|m: int|
            i < m < j ==> s[m] != '.') ==> j == y,
        i < j < k <= s.len() && (j < s.len() ==> s[j] == '.') && (k < s.len() ==> s[k] == '.') && (
        forall|m: int| i < m < j ==> s[m] != '.') && (forall|m: int| j < m < k ==> s[m] != '.')
            ==> k == z,
{
    if i == s.len() {
        assert(s[x] == '.');
    }
    lemma_first_dot(s, 0, i, x);
    if i < j <= s.len() && (j < s.len() ==> s[j] == '.') && (forall|m: int|
        i < m < j ==> s[m] != '.') {
        if j == s.len() {
            assert(s[y] == '.');
        }
        lemma_first_dot(s, i + 1, j, y);
        if j < k <= s.len() && (k < s.len() ==> s[k] == '.') && (forall|m: int|
            j < m < k ==> s[m] != '.') {
            if k == s.len() {
                assert(s[z] == '.');
            }
            lemma_first_dot(s, j + 1, k, z);
        }
    }
}

/// The characters of an octet are no dots.
proof fn lemma_no_dot(s: Seq<char>, lo: int, hi: int)
    requires
        0 <= lo <= hi <= s.len(),
        is_number(s.subrange(lo, hi)),
    ensures
        forall|m: int| lo <= m < hi ==> s[m] != '.',
{
    assert forall|m: int| lo <= m < hi implies s[m] != '.' by {
        assert(s.subrange(lo, hi)[m - lo] == s[m]);
    }
}

/// The dots of a dotted text stand where they stand.
proof fn lemma_same_dots(
    s: Seq<char>,
    p: Ipv4Addr,
    i: int,
    j: int,
    k: int,
    q: Ipv4Addr,
    x: int,
    y: int,
    z: int,
)
    requires
        dotted_at(s, p, i, j, k),
        dotted_at(s, q, x, y, z),
    ensures
        p == q,
{
    lemma_no_dot(s, 0, i);
    lemma_no_dot(s, i + 1, j);
    lemma_no_dot(s, j + 1, k);
    lemma_first_dot(s, 0, i, x);
    lemma_first_dot(s, i + 1, j, y);
    lemma_first_dot(s, j + 1, k, z);
}

/// A dotted text is that of one address.
pub proof fn law_dotted_unique(s: Seq<char>, p: Ipv4Addr, q: Ipv4Addr)
    requires
        dotted(s, p),
        dotted(s, q),
    ensures
        p == q,
{
    let (i, j, k) = choose|i: int, j: int, k: int| dotted_at(s, p, i, j, k);
    let (x, y, z) = choose|x: int, y: int, z: int| dotted_at(s, q, x, y, z);
    lemma_same_dots(s, p, i, j, k, q, x, y, z);
}

/// The address whose dotted text `s` is.
pub fn parse_ipv4(s: &Vec<char>) -> (r: Option<Ipv4Addr>)
    ensures
        match r {
            Some(ip) => dotted(s@, ip),
            None => forall|ip: Ipv4Addr| !dotted(s@, ip),
        },
{
    let n: usize = s.len();
    let i: usize = find_dot(s, 0);
    let j: usize = if i < n {
        find_dot(s, i + 1)
    } else {
        n
    };
    let k: usize = if j < n {
        find_dot(s, j + 1)
    } else {
        n
    };
    if k < n {
        let a: Option<u8> = read_octet(s, 0, i);
        let b: Option<u8> = read_octet(s, i + 1, j);
        let c: Option<u8> = read_octet(s, j + 1, k);
        let d: Option<u8> = read_octet(s, k + 1, n);
        if let (Some(a), Some(b), Some(c), Some(d)) = (a, b, c, d) {
            let ip = Ipv4Addr { a, b, c, d };
            assert(dotted_at(s@, ip, i as int, j as int, k as int));
            return Some(ip);
        }
    }
    assert forall|ip: Ipv4Addr| !dotted(s@, ip) by {
        if dotted(s@, ip) {
            let (x, y, z) = choose|x: int, y: int, z: int| dotted_at(s@, ip, x, y, z);
            lemma_dots(s@, ip, i as int, j as int, k as int, x, y, z);
        }
    }
    None
}

} // verus!
