//! Addresses, ports and interfaces: what has to be known before a socket is
//! opened.

use crate::addr::{dotted, parse_ipv4, Ipv4Addr, SocketAddrV4};
use crate::protocol::{receiver_port, sender_port};
use crate::text::{
    ascii_letter, chars_of, find_last_alphabetic, is_digit, is_number, last_alphabetic,
    lemma_trim_none, number_value, parse_unsigned, part, same_text, starts_with, trim, trimmed,
    unsigned_value,
};
use vstd::prelude::*;

verus! {

/// A network interface.
#[derive(Debug, Clone)]
pub struct NetIf {
    pub addr: Ipv4Addr,
    pub bcast: Ipv4Addr,
    pub name: String,
    pub index: i32,
}

/// What a socket listens to.
#[derive(Debug, Clone, Copy, PartialEq, Eq, Structural)]
pub enum AddrType {
    Ucast,
    Mcast,
    Bcast,
}

/// A host name that is no dotted address.
#[derive(Debug, Clone, Copy, PartialEq, Eq, Structural)]
pub struct InvalidAddress;

/// Why a size is refused.
#[derive(Debug, Clone, Copy, PartialEq, Eq, Structural)]
pub enum SizeError {
    /// The unit is none of those known.
    Unit,
    /// The size does not fit.
    TooLarge,
}

/// The address that `s` writes, if it writes one.
pub open spec fn address_in(s: Seq<char>) -> Option<Ipv4Addr> {
    if exists|ip: Ipv4Addr| dotted(s, ip) {
        Some(choose|ip: Ipv4Addr| dotted(s, ip))
    } else {
        None
    }
}

/// `address_in` gives the one address that the text writes.
pub proof fn lemma_address_in(s: Seq<char>, ip: Ipv4Addr)
    requires
        dotted(s, ip),
    ensures
        address_in(s) == Some(ip),
{
    crate::addr::law_dotted_unique(s, ip, choose|ip: Ipv4Addr| dotted(s, ip));
}

/// The address that `s` writes, if it writes one.
pub fn address_of(s: &str) -> (r: Option<Ipv4Addr>)
    ensures
        r == address_in(s@),
{
    let chars: Vec<char> = chars_of(s);
    let r: Option<Ipv4Addr> = parse_ipv4(&chars);
    proof {
        if let Some(ip) = r {
            lemma_address_in(s@, ip);
        }
    }
    r
}

/// Whether `s` is empty.
fn is_empty(s: &str) -> (r: bool)
    ensures
        r <==> s@.len() == 0,
{
    chars_of(s).len() == 0
}

/// The endpoint of a host; no name stands for any address.
pub fn make_sock_addr(hostname: &str, port: u16) -> (r: Result<SocketAddrV4, InvalidAddress>)
    ensures
        r == if hostname@.len() == 0 {
            Ok(SocketAddrV4 { ip: Ipv4Addr::zero(), port })
        } else {
            match address_in(hostname@) {
                Some(ip) => Ok(SocketAddrV4 { ip, port }),
                None => Err(InvalidAddress),
            }
        },
{
    if is_empty(hostname) {
        return Ok(SocketAddrV4 { ip: Ipv4Addr::new(0, 0, 0, 0), port });
    }
    match address_of(hostname) {
        Some(ip) => Ok(SocketAddrV4 { ip, port }),
        None => Err(InvalidAddress),
    }
}

/// The interface's own address.
pub fn get_my_address(net_if: &NetIf) -> (r: SocketAddrV4)
    ensures
        r == (SocketAddrV4 { ip: net_if.addr, port: 0 }),
{
    SocketAddrV4 { ip: net_if.addr, port: 0 }
}

/// Where a broadcast on the interface goes: a loopback interface that has no
/// broadcast address is addressed itself.
pub open spec fn broadcast_ip(net_if: NetIf) -> Ipv4Addr {
    if net_if.bcast == Ipv4Addr::zero() && net_if.addr.a == 127 {
        net_if.addr
    } else {
        net_if.bcast
    }
}

/// The broadcast endpoint of the interface.
pub fn get_broadcast_address(net_if: &NetIf, port: u16) -> (r: SocketAddrV4)
    ensures
        r == (SocketAddrV4 { ip: broadcast_ip(*net_if), port }),
{
    if net_if.bcast.is_unspecified() && net_if.addr.is_loopback() {
        SocketAddrV4 { ip: net_if.addr, port }
    } else {
        SocketAddrV4 { ip: net_if.bcast, port }
    }
}

/// The multicast group that `address` names; 224.0.0.1 where it names none.
pub fn get_mcast_all_address(address: Option<&str>, port: u16) -> (r: SocketAddrV4)
    ensures
        r.port == port,
        r.ip == match address {
            Some(a) => match address_in(a@) {
                Some(ip) => ip,
                None => Ipv4Addr { a: 224, b: 0, c: 0, d: 1 },
            },
            None => Ipv4Addr { a: 224, b: 0, c: 0, d: 1 },
        },
{
    let ip = match address {
        Some(a) => match address_of(a) {
            Some(ip) => ip,
            None => Ipv4Addr::new(224, 0, 0, 1),
        },
        None => Ipv4Addr::new(224, 0, 0, 1),
    };
    SocketAddrV4 { ip, port }
}

/// Whether a message from `port` is one of this transfer's.
pub fn port_is_ours(port: u16, port_base: u16) -> (r: bool)
    requires
        port_base < 65535,
    ensures
        r <==> port == port_base || port == port_base + 1,
{
    port == receiver_port(port_base) || port == sender_port(port_base)
}

/// Whether the address is 0.0.0.0.
pub fn ip_is_zero(addr: &SocketAddrV4) -> (r: bool)
    ensures
        r <==> addr.ip == Ipv4Addr::zero(),
{
    addr.ip.is_unspecified()
}

/// Changes the port.
pub fn set_port(addr: &mut SocketAddrV4, port: u16)
    ensures
        *final(addr) == (SocketAddrV4 { ip: old(addr).ip, port }),
{
    addr.port = port;
}

/// No endpoint.
pub fn clear_ip() -> (r: SocketAddrV4)
    ensures
        r == (SocketAddrV4 { ip: Ipv4Addr::zero(), port: 0 }),
{
    SocketAddrV4 { ip: Ipv4Addr::new(0, 0, 0, 0), port: 0 }
}

/// The address that `ip` writes, or none.
pub fn set_ip_from_string(ip: &str) -> (r: SocketAddrV4)
    ensures
        r.port == 0,
        r.ip == match address_in(ip@) {
            Some(a) => a,
            None => Ipv4Addr::zero(),
        },
{
    match address_of(ip) {
        Some(a) => SocketAddrV4 { ip: a, port: 0 },
        None => clear_ip(),
    }
}

/// The multicast group that stands for the interface: its address with the
/// five highest bits replaced by 11101.
pub open spec fn default_group(ip: Ipv4Addr) -> Ipv4Addr {
    Ipv4Addr { a: (ip.a & 0x07) | 0xe8, ..ip }
}

/// The multicast group for data where none was asked for.
pub fn get_default_mcast_address(net_if: &NetIf) -> (r: SocketAddrV4)
    ensures
        r == (SocketAddrV4 { ip: default_group(net_if.addr), port: 0 }),
{
    let ip = net_if.addr;
    SocketAddrV4 { ip: Ipv4Addr { a: (ip.a & 0x07) | 0xe8, b: ip.b, c: ip.c, d: ip.d }, port: 0 }
}

/// The group for data is a multicast address whatever the interface's is.
pub proof fn law_default_group_is_multicast(ip: Ipv4Addr)
    ensures
        224 <= default_group(ip).a <= 239,
{
    let a = ip.a;
    assert(224 <= ((a & 0x07) | 0xe8) <= 239) by (bit_vector);
}

/// Whether the address is a multicast group.
pub fn is_mcast_address(addr: &SocketAddrV4) -> (r: bool)
    ensures
        r <==> 224 <= addr.ip.a <= 239,
{
    addr.ip.is_multicast()
}

/// What a socket for `addr_type` is bound to; `None` where there is nothing to
/// listen to.
pub fn bind_address(
    addr_type: AddrType,
    net_if: &NetIf,
    mcast_addr: Option<SocketAddrV4>,
    port: u16,
) -> (r: Option<SocketAddrV4>)
    ensures
        r == match addr_type {
            AddrType::Ucast => Some(SocketAddrV4 { ip: net_if.addr, port }),
            AddrType::Bcast => if broadcast_ip(*net_if) == Ipv4Addr::zero() {
                None
            } else {
                Some(SocketAddrV4 { ip: broadcast_ip(*net_if), port })
            },
            AddrType::Mcast => Some(
                SocketAddrV4 {
                    ip: match mcast_addr {
                        Some(a) => a.ip,
                        None => Ipv4Addr::zero(),
                    },
                    port,
                },
            ),
        },
{
    match addr_type {
        AddrType::Ucast => Some(SocketAddrV4 { ip: net_if.addr, port }),
        AddrType::Bcast => {
            let ba = get_broadcast_address(net_if, port);
            if ba.ip.is_unspecified() {
                None
            } else {
                Some(ba)
            }
        },
        AddrType::Mcast => {
            let ip = match mcast_addr {
                Some(a) => a.ip,
                None => Ipv4Addr::new(0, 0, 0, 0),
            };
            Some(SocketAddrV4 { ip, port })
        },
    }
}

/// How well an interface named `name` with address `addr` suits a user who
/// asked for `wanted`; zero where it does not.
pub open spec fn suitability(name: Seq<char>, addr: Ipv4Addr, wanted: Option<Seq<char>>) -> int {
    match wanted {
        Some(w) => match address_in(w) {
            Some(ip) => if addr == ip {
                8
            } else {
                0
            },
            None => if w == name {
                12
            } else if w.is_prefix_of(name) {
                7
            } else {
                0
            },
        },
        None => if addr == Ipv4Addr::zero() {
            1
        } else if addr.a == 127 {
            2
        } else if name == "eth0"@ || name == "en0"@ {
            6
        } else if "eth0:"@.is_prefix_of(name) {
            5
        } else if "eth"@.is_prefix_of(name) || "en"@.is_prefix_of(name) {
            4
        } else {
            3
        },
    }
}

/// How good a choice the interface is: by how well it suits, and of those that
/// suit equally one with a broadcast address is better.
pub open spec fn goodness(net_if: NetIf, wanted: Option<Seq<char>>) -> int {
    let g = suitability(net_if.name@, net_if.addr, wanted);
    if g == 0 {
        0
    } else if net_if.bcast == Ipv4Addr::zero() {
        2 * g
    } else {
        2 * g + 1
    }
}

/// Of entries with one name the first counts.
pub open spec fn first_of_name(list: Seq<NetIf>, i: int) -> bool {
    forall|j: int| 0 <= j < i ==> (#[trigger] list[j]).name@ != list[i].name@
}

/// What was asked for, as text.
pub open spec fn text_of(s: Option<&str>) -> Option<Seq<char>> {
    match s {
        Some(w) => Some(w@),
        None => None,
    }
}

/// How well an interface suits.
fn suitability_of(name: &Vec<char>, addr: Ipv4Addr, wanted: Option<&str>) -> (r: u32)
    ensures
        r == suitability(name@, addr, text_of(wanted)),
{
    match wanted {
        Some(w) => match address_of(w) {
            Some(ip) => if addr == ip {
                8
            } else {
                0
            },
            None => if same_text(name, w) {
                12
            } else if starts_with(name, &chars_of(w)) {
                7
            } else {
                0
            },
        },
        None => if addr.is_unspecified() {
            1
        } else if addr.is_loopback() {
            2
        } else if same_text(name, "eth0") || same_text(name, "en0") {
            6
        } else if starts_with(name, &chars_of("eth0:")) {
            5
        } else if starts_with(name, &chars_of("eth")) || starts_with(name, &chars_of("en")) {
            4
        } else {
            3
        },
    }
}

/// How good a choice the interface is.
fn goodness_of(net_if: &NetIf, wanted: Option<&str>) -> (r: u32)
    ensures
        r == goodness(*net_if, text_of(wanted)),
        r <= 25,
{
    let name: Vec<char> = chars_of(net_if.name.as_str());
    let g: u32 = suitability_of(&name, net_if.addr, wanted);
    if g == 0 {
        0
    } else if net_if.bcast.is_unspecified() {
        2 * g
    } else {
        2 * g + 1
    }
}

/// Whether no entry before `i` has its name.
fn is_first_of_name(list: &Vec<NetIf>, i: usize) -> (r: bool)
    requires
        i < list@.len(),
    ensures
        r <==> first_of_name(list@, i as int),
{
    let name: Vec<char> = chars_of(list[i].name.as_str());
    let mut j: usize = 0;
    while j < i
        invariant
            j <= i < list@.len(),
            name@ == list@[i as int].name@,
            forall|k: int| 0 <= k < j ==> (#[trigger] list@[k]).name@ != name@,
        decreases i - j,
    {
        if same_text(&name, list[j].name.as_str()) {
            return false;
        }
        j += 1;
    }
    true
}

/// The place in `list` of a best interface, or `None` where none suits.
pub fn choose_interface(list: &Vec<NetIf>, wanted: Option<&str>) -> (r: Option<usize>)
    ensures
        match r {
            Some(b) => {
                &&& b < list@.len()
                &&& first_of_name(list@, b as int)
                &&& list@[b as int].name@.len() > 0
                &&& goodness(list@[b as int], text_of(wanted)) > 0
                &&& forall|i: int|
                    0 <= i < list@.len() && first_of_name(list@, i) ==> goodness(
                        #[trigger] list@[i],
                        text_of(wanted),
                    ) <= goodness(list@[b as int], text_of(wanted))
            },
            None => {
                ||| forall|i: int|
                    0 <= i < list@.len() && first_of_name(list@, i) ==> goodness(
                        #[trigger] list@[i],
                        text_of(wanted),
                    ) == 0
                ||| exists|b: int|
                    0 <= b < list@.len() && (#[trigger] list@[b]).name@.len() == 0
                        && first_of_name(list@, b) && forall|i: int|
                        0 <= i < list@.len() && first_of_name(list@, i) ==> goodness(
                            #[trigger] list@[i],
                            text_of(wanted),
                        ) <= goodness(list@[b], text_of(wanted))
            },
        },
{
    let mut best: usize = 0;
    let mut best_goodness: u32 = 0;
    let mut i: usize = 0;
    while i < list.len()
        invariant
            i <= list@.len(),
            best_goodness > 0 ==> {
                &&& best < i
                &&& first_of_name(list@, best as int)
                &&& best_goodness == goodness(list@[best as int], text_of(wanted))
            },
            forall|k: int|
                0 <= k < i && first_of_name(list@, k) ==> goodness(
                    #[trigger] list@[k],
                    text_of(wanted),
                ) <= best_goodness,
        decreases list@.len() - i,
    {
        if is_first_of_name(list, i) {
            let g: u32 = goodness_of(&list[i], wanted);
            if g > best_goodness {
                best_goodness = g;
                best = i;
            }
        }
        i += 1;
    }
    if best_goodness == 0 || is_empty(list[best].name.as_str()) {
        None
    } else {
        Some(best)
    }
}

/// The factor that a unit stands for.
pub open spec fn unit_factor(unit: Seq<char>) -> Option<nat> {
    if unit.len() == 0 {
        Some(1)
    } else if unit == seq!['k'] || unit == seq!['K'] {
        Some(1024)
    } else if unit == seq!['m'] || unit == seq!['M'] {
        Some(1024 * 1024)
    } else {
        None
    }
}

/// The number and the unit of a size.
pub open spec fn size_parts(s: Seq<char>) -> (Seq<char>, Seq<char>) {
    let i = last_alphabetic(s);
    if i < 0 {
        (s, Seq::empty())
    } else {
        (s.take(i), s.skip(i))
    }
}

/// The number before a unit; what is no number counts as zero.
pub open spec fn number_before(s: Seq<char>) -> nat {
    match unsigned_value(trim(s), u64::MAX as nat) {
        Some(n) => n,
        None => 0,
    }
}

/// What a size says.
pub open spec fn size_value(s: Seq<char>) -> Result<nat, SizeError> {
    let t = trim(s);
    let (number, unit) = size_parts(t);
    match unit_factor(unit) {
        Some(f) => if number_before(number) * f <= u64::MAX {
            Ok(number_before(number) * f)
        } else {
            Err(SizeError::TooLarge)
        },
        None => Err(SizeError::Unit),
    }
}

/// Splits a number from its unit.
pub fn split_unit(s: &Vec<char>) -> (r: (Vec<char>, Vec<char>))
    ensures
        r.0@ == size_parts(s@).0,
        r.1@ == size_parts(s@).1,
{
    match find_last_alphabetic(s) {
        Some(i) => {
            let number: Vec<char> = part(s, 0, i);
            let unit: Vec<char> = part(s, i, s.len());
            assert(number@ =~= s@.take(i as int));
            assert(unit@ =~= s@.skip(i as int));
            (number, unit)
        },
        None => {
            let number: Vec<char> = part(s, 0, s.len());
            assert(number@ =~= s@);
            (number, Vec::new())
        },
    }
}

/// The number before a unit.
pub fn leading_number(s: &Vec<char>) -> (r: u64)
    ensures
        r == number_before(s@),
{
    match parse_unsigned(&trimmed(s), u64::MAX) {
        Some(n) => n,
        None => 0,
    }
}

/// Whether `s` is the one letter, small or capital.
pub fn is_letter(s: &Vec<char>, small: char, capital: char) -> (r: bool)
    ensures
        r <==> s@ == seq![small] || s@ == seq![capital],
{
    if s.len() == 1 {
        assert(s@ =~= seq![s@[0]]);
        assert(s@ == seq![small] ==> seq![small][0] == s@[0]);
        assert(s@ == seq![capital] ==> seq![capital][0] == s@[0]);
        s[0] == small || s[0] == capital
    } else {
        false
    }
}

/// A number with the unit K or M is that many times 1024 bytes, or 1024 times
/// 1024; a number alone is bytes.
pub proof fn law_plain_sizes(number: Seq<char>, unit: char)
    requires
        is_number(number),
        number_value(number) <= u64::MAX,
    ensures
        size_value(number) == Ok::<nat, SizeError>(number_value(number)),
        (unit == 'k' || unit == 'K') && number_value(number) * 1024 <= u64::MAX ==> size_value(
            number.push(unit),
        ) == Ok::<nat, SizeError>(number_value(number) * 1024),
        (unit == 'm' || unit == 'M') && number_value(number) * 1048576 <= u64::MAX ==> size_value(
            number.push(unit),
        ) == Ok::<nat, SizeError>(number_value(number) * 1048576),
{
    lemma_plain_number(number);
    if ascii_letter(unit) {
        lemma_number_and_unit(number, unit);
        assert(seq![unit][0] == unit);
        assert(seq!['k'][0] == 'k');
        assert(seq!['K'][0] == 'K');
    }
}

/// Digits with a letter behind them are a number and a unit.
pub proof fn lemma_number_and_unit(number: Seq<char>, unit: char)
    requires
        is_number(number),
        ascii_letter(unit),
    ensures
        trim(number.push(unit)) == number.push(unit),
        size_parts(number.push(unit)) == (number, seq![unit]),
{
    let s = number.push(unit);
    assert(is_digit(number[0]));
    lemma_trim_none(s);
    assert(last_alphabetic(s) == number.len());
    assert(s.take(number.len() as int) =~= number);
    assert(s.skip(number.len() as int) =~= seq![unit]);
}

/// Digits alone are a number without a unit.
pub proof fn lemma_plain_number(number: Seq<char>)
    requires
        is_number(number),
        number_value(number) <= u64::MAX,
    ensures
        trim(number) == number,
        last_alphabetic(number) == -1,
        number_before(number) == number_value(number),
{
    assert(is_digit(number[0]));
    assert(is_digit(number.last()));
    lemma_trim_none(number);
    lemma_no_letter(number);
}

/// Among digits there is no letter.
proof fn lemma_no_letter(s: Seq<char>)
    requires
        forall|i: int| 0 <= i < s.len() ==> is_digit(#[trigger] s[i]),
    ensures
        last_alphabetic(s) == -1,
    decreases s.len(),
{
    if s.len() > 0 {
        assert(is_digit(s[s.len() - 1]));
        assert forall|i: int| 0 <= i < s.drop_last().len() implies is_digit(
            #[trigger] s.drop_last()[i],
        ) by {
            assert(is_digit(s[i]));
        }
        lemma_no_letter(s.drop_last());
    }
}

/// Reads a size: a number, with the unit K or M if there is one.
pub fn parse_size(size_string: &str) -> (r: Result<u64, SizeError>)
    ensures
        match size_value(size_string@) {
            Ok(n) => r == Ok::<u64, SizeError>(n as u64) && n <= u64::MAX,
            Err(e) => r == Err::<u64, SizeError>(e),
        },
{
    let s: Vec<char> = trimmed(&chars_of(size_string));
    let (number, unit) = split_unit(&s);
    let val: u64 = leading_number(&number);
    let factor: u64 = if unit.len() == 0 {
        1
    } else if is_letter(&unit, 'k', 'K') {
        1024
    } else if is_letter(&unit, 'm', 'M') {
        1024 * 1024
    } else {
        return Err(SizeError::Unit);
    };
    match val.checked_mul(factor) {
        Some(n) => Ok(n),
        None => Err(SizeError::TooLarge),
    }
}

/// The interface that was asked for by name is the best choice, one whose name begins so
/// the next best, and no other will do; one that was asked for by its address has that
/// address.
pub proof fn law_the_wanted_interface_is_chosen(a: NetIf, b: NetIf, wanted: Seq<char>, ip: Ipv4Addr)
    ensures
        dotted(wanted, ip) ==> (goodness(a, Some(wanted)) > 0 <==> a.addr == ip),
        (forall|x: Ipv4Addr| !dotted(wanted, x)) ==> {
            &&& goodness(a, Some(wanted)) > 0 <==> wanted.is_prefix_of(a.name@)
            &&& a.name@ == wanted && b.name@ != wanted ==> goodness(a, Some(wanted)) > goodness(
                b,
                Some(wanted),
            )
        },
        a.bcast != Ipv4Addr::zero() && b.bcast == Ipv4Addr::zero() && a.name@ == b.name@ && a.addr
            == b.addr && goodness(b, Some(wanted)) > 0 ==> goodness(a, Some(wanted)) > goodness(
            b,
            Some(wanted),
        ),
{
    if dotted(wanted, ip) {
        lemma_address_in(wanted, ip);
    }
    if forall|x: Ipv4Addr| !dotted(wanted, x) {
        assert(address_in(wanted) is None);
        assert(wanted.is_prefix_of(wanted)) by {
            assert(wanted =~= wanted.subrange(0, wanted.len() as int));
        }
    }
}

/// Where none was asked for, any interface will do; one with an address of its own is
/// better than a loopback one, and that better than one without an address; of those
/// with an address eth0 and en0 are the best, then other addresses of eth0, then the
/// other ones of that kind; and of two that are otherwise alike one with a broadcast address is better.
pub proof fn law_the_best_interface_is_chosen(a: NetIf, b: NetIf)
    requires
        a.addr != Ipv4Addr::zero(),
    ensures
        ({
            let proper_address = |n: NetIf| n.addr != Ipv4Addr::zero() && n.addr.a != 127;
            let first = |n: NetIf| n.name@ == "eth0"@ || n.name@ == "en0"@;
            let alias = |n: NetIf| "eth0:"@.is_prefix_of(n.name@);
            let kind = |n: NetIf| "eth"@.is_prefix_of(n.name@) || "en"@.is_prefix_of(n.name@);
            let (x, y) = (goodness(a, None), goodness(b, None));
            &&& x > 0 && y > 0
            &&& b.addr == Ipv4Addr::zero() ==> x > y
            &&& proper_address(a) && !proper_address(b) ==> x > y
            &&& proper_address(a) && proper_address(b) && first(a) && !first(b) ==> x > y
            &&& proper_address(a) && proper_address(b) && kind(a) && !kind(b) && !first(b) ==> x > y
            &&& proper_address(a) && proper_address(b) && alias(a) && !alias(b) && !first(b) ==> x
                > y
            &&& a.name@ == b.name@ && a.addr == b.addr && a.bcast != Ipv4Addr::zero() && b.bcast
                == Ipv4Addr::zero() ==> x > y
        }),
{
    reveal_strlit("eth0");
    reveal_strlit("eth0:");
    reveal_strlit("eth");
    reveal_strlit("en0");
    reveal_strlit("en");
    let n = b.name@;
    if "eth0:"@.is_prefix_of(n) {
        assert("eth"@ =~= n.subrange(0, 3)) by {
            assert("eth0:"@ =~= n.subrange(0, 5));
            assert(forall|i: int| 0 <= i < 5 ==> "eth0:"@[i] == n.subrange(0, 5)[i]);
        }
    }
}

/// The group that stands for an interface is its address but for the first five bits:
/// interfaces whose addresses differ in the others have different groups.
pub proof fn law_groups_stand_for_interfaces(p: Ipv4Addr, q: Ipv4Addr)
    ensures
        232 <= default_group(p).a <= 239,
        default_group(p) == default_group(q) <==> p.a % 8 == q.a % 8 && p.b == q.b && p.c == q.c
            && p.d == q.d,
{
    let a = p.a;
    let b = q.a;
    assert(232 <= ((a & 0x07) | 0xe8) <= 239 && ((((a & 0x07) | 0xe8) == ((b & 0x07) | 0xe8)) <==> a
        % 8 == b % 8)) by (bit_vector);
}

/// A broadcast goes to the broadcast address of its interface; only a loopback interface
/// without one is addressed itself.
pub proof fn law_where_broadcasts_go(n: NetIf)
    ensures
        n.bcast != Ipv4Addr::zero() ==> broadcast_ip(n) == n.bcast,
        n.bcast == Ipv4Addr::zero() && n.addr.a == 127 ==> broadcast_ip(n) == n.addr,
        n.bcast == Ipv4Addr::zero() && n.addr.a != 127 ==> broadcast_ip(n) == Ipv4Addr::zero(),
{
}

/// A size that does not fit is refused, and so is a letter that is no unit.
pub proof fn law_refused_sizes(number: Seq<char>, unit: char)
    requires
        is_number(number),
        number_value(number) <= u64::MAX,
        ascii_letter(unit),
    ensures
        ({
            let r = size_value(number.push(unit));
            &&& r == Err::<nat, SizeError>(SizeError::Unit) <==> unit != 'k' && unit != 'K' && unit
                != 'm' && unit != 'M'
            &&& r == Err::<nat, SizeError>(SizeError::TooLarge) <==> {
                ||| (unit == 'k' || unit == 'K') && number_value(number) * 1024 > u64::MAX
                ||| (unit == 'm' || unit == 'M') && number_value(number) * 1048576 > u64::MAX
            }
        }),
{
    lemma_plain_number(number);
    lemma_number_and_unit(number, unit);
    assert(seq![unit][0] == unit);
    assert(seq!['k'][0] == 'k');
    assert(seq!['K'][0] == 'K');
    assert(seq!['m'][0] == 'm');
    assert(seq!['M'][0] == 'M');
}

/// Of entries with one name the first counts and no other; and for each entry there is
/// one that counts.
pub proof fn law_one_entry_counts(list: Seq<NetIf>, i: int, j: int)
    requires
        0 <= i < list.len(),
    ensures
        i < j < list.len() && list[i].name@ == list[j].name@ ==> !first_of_name(list, j),
        exists|k: int|
            0 <= k <= i && #[trigger] first_of_name(list, k) && list[k].name@ == list[i].name@,
    decreases i,
{
    if i < j < list.len() && list[i].name@ == list[j].name@ && first_of_name(list, j) {
        assert(list[i].name@ != list[j].name@);
    }
    if first_of_name(list, i) {
        assert(list[i].name@ == list[i].name@);
    } else {
        let h = choose|h: int| 0 <= h < i && (#[trigger] list[h]).name@ == list[i].name@;
        law_one_entry_counts(list, h, i);
    }
}

} // verus!
