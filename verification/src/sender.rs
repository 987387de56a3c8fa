//! The options of a sender and what they come to.

use crate::addr::{dotted, SocketAddrV4};
use crate::negotiate::DEFAULT_HELLO_INTERVAL_MS;
use crate::senddata::{
    capabilities_for, flagged, sender_capabilities, Discovery, NetConfig, DEFAULT_STAT_PERIOD, FLAG_ASYNC,
    FLAG_BCAST, FLAG_FEC, FLAG_NOKBD, FLAG_NOPOINTOPOINT, FLAG_NOTSN, FLAG_POINTOPOINT, FLAG_SN,
    FLAG_STREAMING,
};
use crate::socklib::{
    address_in, clear_ip, lemma_address_in, parse_size, set_ip_from_string, size_value, SizeError,
};
use crate::statistics::low_word;
use crate::text::{
    chars_of, is_digit, is_number, number_value, parse_unsigned, part, unsigned_value,
};
use vstd::prelude::*;

verus! {

/// How progress is shown.
pub struct StatConfig {
    pub log: Option<String>,
    pub bw_period: i64,
    pub print_uncompressed_pos: i32,
    pub stat_period: i64,
    pub no_progress: bool,
}

/// The options of a sender, as given.
pub struct SenderOptions {
    pub port_base: u16,
    pub block_size: u32,
    pub mcast_data_address: Option<String>,
    pub mcast_rdv_address: Option<String>,
    pub max_bitrate: Option<String>,
    pub pointopoint: bool,
    pub nopointopoint: bool,
    pub async_mode: bool,
    pub half_duplex: bool,
    pub full_duplex: bool,
    pub ttl: i32,
    pub min_slice_size: u32,
    pub default_slice_size: Option<u32>,
    pub max_slice_size: u32,
    pub rexmit_hello_interval: i32,
    pub autostart: i32,
    pub broadcast: bool,
    pub sendbuf: Option<String>,
    pub min_receivers: i32,
    pub max_wait: i32,
    pub min_wait: i32,
    pub nokbd: bool,
    pub start_timeout: i32,
    pub retries_until_drop: i32,
    pub streaming: bool,
    pub rehello_offset: i32,
    pub fec: Option<String>,
    pub autorate: bool,
}

/// Why options are refused.
#[derive(Debug, Clone, Copy, PartialEq, Eq, Structural)]
pub enum OptionError {
    /// The parity is none.
    BadFecSpec,
    /// The blocks are too small.
    BlockSize,
    /// The buffer's size is none.
    BufferSize(SizeError),
    /// Data is to go straight to the receiver, and not to.
    PointToPoint,
}

/// A parity that is none.
#[derive(Debug, Clone, Copy, PartialEq, Eq, Structural)]
pub struct BadFecSpec;

/// The place of the first `c` in `s`, or the length.
pub open spec fn first_char(s: Seq<char>, c: char) -> int
    decreases s.len(),
{
    if s.len() == 0 {
        0
    } else if s[0] == c {
        0
    } else {
        1 + first_char(s.skip(1), c)
    }
}

/// The stripes and the rest of a parity `[stripes x]redundancy[/stripesize]`; by
/// default there are 8 stripes.
pub open spec fn fec_stripes(s: Seq<char>) -> (Option<nat>, Seq<char>) {
    let i = first_char(s, 'x');
    if i < s.len() {
        (unsigned_value(s.take(i), u32::MAX as nat), s.skip(i + 1))
    } else {
        (Some(8), s)
    }
}

/// The redundancy and the stripe size of a parity without stripes; by default a
/// stripe has 128 blocks.
pub open spec fn fec_rows(s: Seq<char>) -> (Option<nat>, Option<nat>) {
    let i = first_char(s, '/');
    if i < s.len() {
        (
            unsigned_value(s.take(i), u32::MAX as nat),
            unsigned_value(s.skip(i + 1), u32::MAX as nat),
        )
    } else {
        (unsigned_value(s, u32::MAX as nat), Some(128))
    }
}

/// The stripes, the redundancy and the stripe size that a parity says.
pub open spec fn fec_spec(s: Seq<char>) -> Option<(nat, nat, nat)> {
    let (stripes, rest) = fec_stripes(s);
    let (redundancy, size) = fec_rows(rest);
    match (stripes, redundancy, size) {
        (Some(a), Some(b), Some(c)) => Some((a, b, c)),
        _ => None,
    }
}

/// The place of the first `c` in `s`, or the length.
fn find_char(s: &Vec<char>, c: char) -> (r: usize)
    ensures
        r == first_char(s@, c),
        r <= s@.len(),
{
    let mut i: usize = 0;
    assert(s@.skip(0) =~= s@);
    while i < s.len() && s[i] != c
        invariant
            i <= s@.len(),
            first_char(s@, c) == i + first_char(s@.skip(i as int), c),
        decreases s@.len() - i,
    {
        assert(s@.skip(i as int).skip(1) =~= s@.skip(i + 1));
        i += 1;
    }
    i
}

/// A number of 32 bits.
fn word(s: &Vec<char>) -> (r: Option<u32>)
    ensures
        match r {
            Some(n) => unsigned_value(s@, u32::MAX as nat) == Some(n as nat),
            None => unsigned_value(s@, u32::MAX as nat) is None,
        },
{
    match parse_unsigned(s, u32::MAX as u64) {
        Some(n) => Some(n as u32),
        None => None,
    }
}

/// Reads a parity `[stripes x]redundancy[/stripesize]`: stripes, redundancy and
/// stripe size.
pub fn parse_fec_spec(spec: &str) -> (r: Result<(u32, u32, u32), BadFecSpec>)
    ensures
        match fec_spec(spec@) {
            Some((a, b, c)) => r == Ok::<(u32, u32, u32), BadFecSpec>(
                (a as u32, b as u32, c as u32),
            ) && a <= u32::MAX && b <= u32::MAX && c <= u32::MAX,
            None => r == Err::<(u32, u32, u32), BadFecSpec>(BadFecSpec),
        },
{
    let s: Vec<char> = chars_of(spec);
    let i: usize = find_char(&s, 'x');
    let mut stripes: Option<u32> = Some(8);
    let mut from: usize = 0;
    if i < s.len() {
        let head: Vec<char> = part(&s, 0, i);
        assert(head@ =~= s@.take(i as int));
        stripes = word(&head);
        from = i + 1;
    }
    let rest: Vec<char> = part(&s, from, s.len());
    assert(rest@ =~= fec_stripes(s@).1);
    let j: usize = find_char(&rest, '/');
    let mut redundancy: Option<u32> = None;
    let mut size: Option<u32> = Some(128);
    if j < rest.len() {
        let head: Vec<char> = part(&rest, 0, j);
        let tail: Vec<char> = part(&rest, j + 1, rest.len());
        assert(head@ =~= rest@.take(j as int));
        assert(tail@ =~= rest@.skip(j + 1));
        redundancy = word(&head);
        size = word(&tail);
    } else {
        redundancy = word(&rest);
    }
    match (stripes, redundancy, size) {
        (Some(a), Some(b), Some(c)) => Ok((a, b, c)),
        _ => Err(BadFecSpec),
    }
}

/// `flags` with `flag` if `on`.
pub open spec fn with_flag(flags: u32, on: bool, flag: u32) -> u32 {
    if on {
        flags | flag
    } else {
        flags
    }
}

/// The flags that the options say. Half duplex undoes what asynchronous mode
/// says of duplex, and full duplex what half duplex says.
pub open spec fn sender_flags(o: SenderOptions) -> u32 {
    let f = if o.async_mode {
        FLAG_ASYNC | FLAG_SN
    } else {
        0
    };
    let f = if o.half_duplex {
        (f & !FLAG_SN) | FLAG_NOTSN
    } else {
        f
    };
    let f = with_flag(f, o.full_duplex, FLAG_SN);
    let f = with_flag(f, o.pointopoint, FLAG_POINTOPOINT);
    let f = with_flag(f, o.nopointopoint, FLAG_NOPOINTOPOINT);
    let f = with_flag(f, o.broadcast, FLAG_BCAST);
    let f = with_flag(f, o.nokbd, FLAG_NOKBD);
    let f = with_flag(f, o.streaming, FLAG_STREAMING);
    with_flag(f, o.fec is Some, FLAG_FEC)
}

/// The flags that the options say.
fn flags_of(o: &SenderOptions) -> (r: u32)
    ensures
        r == sender_flags(*o),
{
    let mut flags: u32 = 0;
    if o.async_mode {
        flags = FLAG_ASYNC | FLAG_SN;
    }
    if o.half_duplex {
        flags = (flags & !FLAG_SN) | FLAG_NOTSN;
    }
    if o.full_duplex {
        flags = flags | FLAG_SN;
    }
    if o.pointopoint {
        flags = flags | FLAG_POINTOPOINT;
    }
    if o.nopointopoint {
        flags = flags | FLAG_NOPOINTOPOINT;
    }
    if o.broadcast {
        flags = flags | FLAG_BCAST;
    }
    if o.nokbd {
        flags = flags | FLAG_NOKBD;
    }
    if o.streaming {
        flags = flags | FLAG_STREAMING;
    }
    if o.fec.is_some() {
        flags = flags | FLAG_FEC;
    }
    flags
}

/// The parity that the options say: none of anything without one.
pub open spec fn parity_option(o: SenderOptions) -> Option<(nat, nat, nat)> {
    match o.fec {
        Some(s) => fec_spec(s@),
        None => Some((0, 0, 0)),
    }
}

/// The buffer size that the options say; of a larger number its low 32 bits.
pub open spec fn buffer_option(s: Option<String>) -> Result<u32, SizeError> {
    match s {
        Some(text) => match size_value(text@) {
            Ok(n) => Ok(low_word(n as int)),
            Err(e) => Err(e),
        },
        None => Ok(0),
    }
}

/// The buffer size that an option says.
pub fn buffer_size(s: &Option<String>) -> (r: Result<u32, SizeError>)
    ensures
        r == buffer_option(*s),
{
    match s {
        Some(text) => match parse_size(text.as_str()) {
            Ok(n) => Ok((n % 0x1_0000_0000) as u32),
            Err(e) => Err(e),
        },
        None => Ok(0),
    }
}

/// The slice sizes that the options say: least, default and highest. The least
/// is one at least, the highest no less than the least, and a default lies
/// between them.
pub open spec fn slice_sizes(o: SenderOptions) -> (u32, u32, u32) {
    let least: u32 = if o.min_slice_size < 1 {
        1
    } else {
        o.min_slice_size
    };
    let most: u32 = if o.max_slice_size < least {
        least
    } else {
        o.max_slice_size
    };
    let wish: u32 = match o.default_slice_size {
        Some(n) => n,
        None => 0,
    };
    let middle: u32 = if wish == 0 {
        0
    } else if wish < least {
        least
    } else if wish > most {
        most
    } else {
        wish
    };
    (least, middle, most)
}

/// What is wrong with the options, if anything.
pub open spec fn option_error(o: SenderOptions) -> Option<OptionError> {
    if parity_option(o) is None {
        Some(OptionError::BadFecSpec)
    } else if o.block_size < 4 {
        Some(OptionError::BlockSize)
    } else if buffer_option(o.sendbuf) is Err {
        Some(OptionError::BufferSize(buffer_option(o.sendbuf)->Err_0))
    } else if o.pointopoint && o.nopointopoint {
        Some(OptionError::PointToPoint)
    } else {
        None
    }
}

/// The settings that the options come to.
pub open spec fn sender_config(o: SenderOptions) -> NetConfig {
    let (stripes, redundancy, size) = parity_option(o)->0;
    let (least, middle, most) = slice_sizes(o);
    let nowhere = SocketAddrV4 { ip: crate::addr::Ipv4Addr::zero(), port: 0 };
    NetConfig {
        net_if: None,
        port_base: o.port_base,
        block_size: (o.block_size - o.block_size % 4) as u32,
        slice_size: if middle > 0 {
            middle
        } else {
            16
        },
        control_mcast_addr: nowhere,
        data_mcast_addr: match o.mcast_data_address {
            Some(s) => match address_in(s@) {
                Some(ip) => SocketAddrV4 { ip, port: 0 },
                None => nowhere,
            },
            None => nowhere,
        },
        mcast_rdv: o.mcast_rdv_address,
        ttl: o.ttl,
        flags: sender_flags(o),
        capabilities: capabilities_for(sender_flags(o)),
        min_slice_size: least,
        default_slice_size: middle,
        max_slice_size: most,
        rcvbuf: buffer_option(o.sendbuf)->Ok_0,
        rexmit_hello_interval: if o.rexmit_hello_interval == 0 {
            DEFAULT_HELLO_INTERVAL_MS
        } else {
            o.rexmit_hello_interval
        },
        autostart: o.autostart,
        requested_buf_size: buffer_option(o.sendbuf)->Ok_0,
        min_receivers: o.min_receivers,
        max_receivers_wait: o.max_wait,
        min_receivers_wait: o.min_wait,
        retries_until_drop: o.retries_until_drop,
        rehello_offset: o.rehello_offset,
        start_timeout: o.start_timeout,
        discovery: Discovery::Doubling,
        fec_stripes: stripes as u32,
        fec_redundancy: redundancy as u32,
        fec_stripesize: size as u32,
        max_bitrate: o.max_bitrate,
        autorate: o.autorate,
    }
}

/// Makes settings of the options.
pub fn configure_sender(o: SenderOptions) -> (r: Result<NetConfig, OptionError>)
    ensures
        match option_error(o) {
            Some(e) => r matches Err(f) && f == e,
            None => r matches Ok(c) && c == sender_config(o),
        },
{
    let flags: u32 = flags_of(&o);
    let mut parity: (u32, u32, u32) = (0, 0, 0);
    if let Some(spec) = &o.fec {
        match parse_fec_spec(spec.as_str()) {
            Ok(p) => {
                parity = p;
            },
            Err(_) => {
                return Err(OptionError::BadFecSpec);
            },
        }
    }
    let block_size: u32 = o.block_size - o.block_size % 4;
    if block_size == 0 {
        return Err(OptionError::BlockSize);
    }
    let buf: u32 = match buffer_size(&o.sendbuf) {
        Ok(n) => n,
        Err(e) => {
            return Err(OptionError::BufferSize(e));
        },
    };
    if o.pointopoint && o.nopointopoint {
        return Err(OptionError::PointToPoint);
    }
    let data_mcast_addr = match &o.mcast_data_address {
        Some(s) => set_ip_from_string(s.as_str()),
        None => clear_ip(),
    };
    let mut least: u32 = o.min_slice_size;
    let mut most: u32 = o.max_slice_size;
    let mut middle: u32 = match o.default_slice_size {
        Some(n) => n,
        None => 0,
    };
    if least < 1 {
        least = 1;
    }
    if most < least {
        most = least;
    }
    if middle != 0 {
        if middle < least {
            middle = least;
        }
        if middle > most {
            middle = most;
        }
    }
    Ok(
        NetConfig {
            net_if: None,
            port_base: o.port_base,
            block_size,
            slice_size: if middle > 0 {
                middle
            } else {
                16
            },
            control_mcast_addr: clear_ip(),
            data_mcast_addr,
            mcast_rdv: o.mcast_rdv_address,
            ttl: o.ttl,
            flags,
            capabilities: sender_capabilities(flags),
            min_slice_size: least,
            default_slice_size: middle,
            max_slice_size: most,
            rcvbuf: buf,
            rexmit_hello_interval: if o.rexmit_hello_interval == 0 {
                DEFAULT_HELLO_INTERVAL_MS
            } else {
                o.rexmit_hello_interval
            },
            autostart: o.autostart,
            requested_buf_size: buf,
            min_receivers: o.min_receivers,
            max_receivers_wait: o.max_wait,
            min_receivers_wait: o.min_wait,
            retries_until_drop: o.retries_until_drop,
            rehello_offset: o.rehello_offset,
            start_timeout: o.start_timeout,
            discovery: Discovery::Doubling,
            fec_stripes: parity.0,
            fec_redundancy: parity.1,
            fec_stripesize: parity.2,
            max_bitrate: o.max_bitrate,
            autorate: o.autorate,
        },
    )
}

/// The time between two progress lines, in microseconds, for an option in
/// milliseconds; the default for none.
pub fn stat_period_us(option: i32) -> (r: i64)
    ensures
        r == if option > 0 {
            option * 1000
        } else {
            DEFAULT_STAT_PERIOD as int
        },
{
    if option > 0 {
        option as i64 * 1000
    } else {
        DEFAULT_STAT_PERIOD
    }
}

/// What adding a flag does to each flag.
pub proof fn lemma_with_flag(flags: u32, on: bool, flag: u32, other: u32)
    ensures
        with_flag(flags, on, flag) & other != 0 <==> flags & other != 0 || (on && flag & other != 0),
        ((flags & !flag) | flag) & other != 0 <==> flags & other != 0 || flag & other != 0,
{
    assert(((flags | flag) & other != 0 <==> (flags & other != 0 || flag & other != 0)) && (((flags
        & !flag) | flag) & other != 0 <==> (flags & other != 0 || flag & other != 0)))
        by (bit_vector);
}

/// Each option sets its flag, and nothing else does. Both sides may send at once where
/// full duplex was asked for, or asynchronous mode without half duplex.
pub proof fn law_options_set_their_flags(o: SenderOptions)
    ensures
        ({
            let f = sender_flags(o);
            &&& flagged(f, FLAG_ASYNC) <==> o.async_mode
            &&& flagged(f, FLAG_SN) <==> o.full_duplex || (o.async_mode && !o.half_duplex)
            &&& flagged(f, FLAG_NOTSN) <==> o.half_duplex
            &&& flagged(f, FLAG_POINTOPOINT) <==> o.pointopoint
            &&& flagged(f, FLAG_NOPOINTOPOINT) <==> o.nopointopoint
            &&& flagged(f, FLAG_BCAST) <==> o.broadcast
            &&& flagged(f, FLAG_NOKBD) <==> o.nokbd
            &&& flagged(f, FLAG_STREAMING) <==> o.streaming
            &&& flagged(f, FLAG_FEC) <==> o.fec is Some
        }),
{
    lemma_sender_flag(o, FLAG_ASYNC);
    lemma_sender_flag(o, FLAG_SN);
    lemma_sender_flag(o, FLAG_NOTSN);
    lemma_sender_flag(o, FLAG_POINTOPOINT);
    lemma_sender_flag(o, FLAG_NOPOINTOPOINT);
    lemma_sender_flag(o, FLAG_BCAST);
    lemma_sender_flag(o, FLAG_NOKBD);
    lemma_sender_flag(o, FLAG_STREAMING);
    lemma_sender_flag(o, FLAG_FEC);
    assert(1u32 & 2 == 0 && 1u32 & 4 == 0 && 1u32 & 8 == 0 && 1u32 & 16 == 0 && 1u32 & 32 == 0 && 1u32
        & 64 == 0 && 1u32 & 128 == 0 && 1u32 & 256 == 0 && 2u32 & 1 == 0 && 2u32 & 4 == 0 && 2u32
        & 8 == 0 && 2u32 & 16 == 0 && 2u32 & 32 == 0 && 2u32 & 64 == 0 && 2u32 & 128 == 0 && 2u32
        & 256 == 0 && 4u32 & 1 == 0 && 4u32 & 2 == 0 && 4u32 & 8 == 0 && 4u32 & 16 == 0 && 4u32 & 32
        == 0 && 4u32 & 64 == 0 && 4u32 & 128 == 0 && 4u32 & 256 == 0 && 8u32 & 1 == 0 && 8u32 & 2
        == 0 && 8u32 & 4 == 0 && 8u32 & 16 == 0 && 8u32 & 32 == 0 && 8u32 & 64 == 0 && 8u32 & 128
        == 0 && 8u32 & 256 == 0 && 16u32 & 1 == 0 && 16u32 & 2 == 0 && 16u32 & 4 == 0 && 16u32 & 8
        == 0 && 16u32 & 32 == 0 && 16u32 & 64 == 0 && 16u32 & 128 == 0 && 16u32 & 256 == 0 && 32u32
        & 1 == 0 && 32u32 & 2 == 0 && 32u32 & 4 == 0 && 32u32 & 8 == 0 && 32u32 & 16 == 0 && 32u32
        & 64 == 0 && 32u32 & 128 == 0 && 32u32 & 256 == 0 && 64u32 & 1 == 0 && 64u32 & 2 == 0
        && 64u32 & 4 == 0 && 64u32 & 8 == 0 && 64u32 & 16 == 0 && 64u32 & 32 == 0 && 64u32 & 128
        == 0 && 64u32 & 256 == 0 && 128u32 & 1 == 0 && 128u32 & 2 == 0 && 128u32 & 4 == 0 && 128u32
        & 8 == 0 && 128u32 & 16 == 0 && 128u32 & 32 == 0 && 128u32 & 64 == 0 && 128u32 & 256 == 0
        && 256u32 & 1 == 0 && 256u32 & 2 == 0 && 256u32 & 4 == 0 && 256u32 & 8 == 0 && 256u32 & 16
        == 0 && 256u32 & 32 == 0 && 256u32 & 64 == 0 && 256u32 & 128 == 0) by (bit_vector);
    assert(1u32 & 1 != 0 && 2u32 & 2 != 0 && 4u32 & 4 != 0 && 8u32 & 8 != 0 && 16u32 & 16 != 0
        && 32u32 & 32 != 0 && 64u32 & 64 != 0 && 128u32 & 128 != 0 && 256u32 & 256 != 0)
        by (bit_vector);
}

/// Where a flag comes from.
proof fn lemma_sender_flag(o: SenderOptions, g: u32)
    ensures
        sender_flags(o) & g != 0 <==> {
            ||| o.async_mode && 4u32 & g != 0
            ||| o.async_mode && !o.half_duplex && 1u32 & g != 0
            ||| o.half_duplex && 2u32 & g != 0
            ||| o.full_duplex && 1u32 & g != 0
            ||| o.pointopoint && 8u32 & g != 0
            ||| o.nopointopoint && 64u32 & g != 0
            ||| o.broadcast && 32u32 & g != 0
            ||| o.nokbd && 128u32 & g != 0
            ||| o.streaming && 256u32 & g != 0
            ||| o.fec is Some && 16u32 & g != 0
        },
{
    assert(((4u32 | 1) & g != 0 <==> (4u32 & g != 0 || 1u32 & g != 0)) && ((((4u32 | 1) & !1u32) | 2)
        & g != 0 <==> (4u32 & g != 0 || 2u32 & g != 0)) && (((0u32 & !1u32) | 2) & g != 0 <==> 2u32
        & g != 0) && 0u32 & g == 0) by (bit_vector);
    let f0: u32 = if o.async_mode {
        4u32 | 1
    } else {
        0
    };
    let f1: u32 = if o.half_duplex {
        (f0 & !1u32) | 2
    } else {
        f0
    };
    let f2 = with_flag(f1, o.full_duplex, FLAG_SN);
    let f3 = with_flag(f2, o.pointopoint, FLAG_POINTOPOINT);
    let f4 = with_flag(f3, o.nopointopoint, FLAG_NOPOINTOPOINT);
    let f5 = with_flag(f4, o.broadcast, FLAG_BCAST);
    let f6 = with_flag(f5, o.nokbd, FLAG_NOKBD);
    let f7 = with_flag(f6, o.streaming, FLAG_STREAMING);
    lemma_with_flag(f1, o.full_duplex, FLAG_SN, g);
    lemma_with_flag(f2, o.pointopoint, FLAG_POINTOPOINT, g);
    lemma_with_flag(f3, o.nopointopoint, FLAG_NOPOINTOPOINT, g);
    lemma_with_flag(f4, o.broadcast, FLAG_BCAST, g);
    lemma_with_flag(f5, o.nokbd, FLAG_NOKBD, g);
    lemma_with_flag(f6, o.streaming, FLAG_STREAMING, g);
    lemma_with_flag(f7, o.fec is Some, FLAG_FEC, g);
}

/// The slice sizes are in order: the least is one at least, a size to begin with lies
/// between it and the highest, and what was asked for is kept where it is in order.
pub proof fn law_slice_sizes_are_in_order(o: SenderOptions)
    ensures
        ({
            let (least, middle, most) = slice_sizes(o);
            &&& 1 <= least <= most
            &&& middle == 0 || least <= middle <= most
            &&& middle == 0 <==> o.default_slice_size is None || o.default_slice_size == Some(0u32)
            &&& o.min_slice_size >= 1 ==> least == o.min_slice_size
            &&& o.max_slice_size >= least ==> most == o.max_slice_size
            &&& o.default_slice_size matches Some(n) ==> (least <= n <= most ==> middle == n)
        }),
{
}

/// Blocks are whole words, no larger than asked for, and by less than a word smaller.
pub proof fn law_blocks_are_whole_words(o: SenderOptions)
    ensures
        sender_config(o).block_size % 4 == 0,
        sender_config(o).block_size <= o.block_size < sender_config(o).block_size + 4,
        option_error(o) is None ==> sender_config(o).block_size >= 4,
{
}

/// What was asked for reaches the settings.
pub proof fn law_options_are_heeded(o: SenderOptions)
    requires
        option_error(o) is None,
    ensures
        ({
            let c = sender_config(o);
            &&& c.port_base == o.port_base
            &&& c.ttl == o.ttl
            &&& c.retries_until_drop == o.retries_until_drop
            &&& c.min_receivers == o.min_receivers
            &&& c.min_receivers_wait == o.min_wait
            &&& c.max_receivers_wait == o.max_wait
            &&& c.autostart == o.autostart
            &&& c.start_timeout == o.start_timeout
            &&& c.max_bitrate == o.max_bitrate
            &&& c.autorate == o.autorate
            &&& c.mcast_rdv == o.mcast_rdv_address
            &&& c.rehello_offset == o.rehello_offset
            &&& (c.min_slice_size, c.default_slice_size, c.max_slice_size) == slice_sizes(o)
            &&& c.default_slice_size > 0 ==> c.slice_size == c.default_slice_size
            &&& buffer_option(o.sendbuf) == Ok::<u32, SizeError>(c.requested_buf_size)
            &&& o.fec matches Some(s) ==> (fec_spec(s@) matches Some((a, b, d)) && (a <= u32::MAX && b
                <= u32::MAX && d <= u32::MAX ==> c.fec_stripes == a && c.fec_redundancy == b
                && c.fec_stripesize == d))
            &&& o.rexmit_hello_interval != 0 ==> c.rexmit_hello_interval == o.rexmit_hello_interval
            &&& c.rexmit_hello_interval != 0
            &&& c.capabilities == capabilities_for(c.flags)
            &&& !(o.pointopoint && o.nopointopoint)
            &&& o.block_size >= 4
            &&& o.fec is None ==> c.fec_stripes == 0 && c.fec_redundancy == 0
            &&& o.mcast_data_address matches Some(s) ==> (forall|ip: crate::addr::Ipv4Addr| #[trigger]
                dotted(s@, ip) ==> c.data_mcast_addr.ip == ip)
        }),
{
    if let Some(s) = o.mcast_data_address {
        assert forall|ip: crate::addr::Ipv4Addr| #[trigger] dotted(s@, ip) implies sender_config(
            o,
        ).data_mcast_addr.ip == ip by {
            lemma_address_in(s@, ip);
        }
    }
}

/// The first of its kind in a text stands behind what holds none.
proof fn lemma_first_char(s: Seq<char>, c: char, rest: Seq<char>)
    requires
        forall|i: int| 0 <= i < s.len() ==> s[i] != c,
    ensures
        first_char(s + seq![c] + rest, c) == s.len(),
        first_char(s, c) == s.len(),
    decreases s.len(),
{
    let t = s + seq![c] + rest;
    if s.len() > 0 {
        lemma_first_char(s.skip(1), c, rest);
        assert(t.skip(1) =~= s.skip(1) + seq![c] + rest);
        assert(t[0] == s[0]);
    } else {
        assert(t[0] == c);
    }
}

/// Digits are the number that they say.
proof fn lemma_word(s: Seq<char>)
    requires
        is_number(s),
        number_value(s) <= u32::MAX,
    ensures
        unsigned_value(s, u32::MAX as nat) == Some(number_value(s)),
        forall|i: int| 0 <= i < s.len() ==> s[i] != 'x' && s[i] != '/',
{
    assert(is_digit(s[0]));
    assert forall|i: int| 0 <= i < s.len() implies s[i] != 'x' && s[i] != '/' by {
        assert(is_digit(s[i]));
    }
}

/// A parity is stripes, redundancy and stripe size in this order, however large; without
/// stripes there are 8, and without a stripe size it is 128.
pub proof fn law_parity_is_read_as_written(a: Seq<char>, b: Seq<char>, c: Seq<char>)
    requires
        is_number(a) && number_value(a) <= u32::MAX,
        is_number(b) && number_value(b) <= u32::MAX,
        is_number(c) && number_value(c) <= u32::MAX,
    ensures
        fec_spec(b) == Some((8nat, number_value(b), 128nat)),
        fec_spec(b + seq!['/'] + c) == Some((8nat, number_value(b), number_value(c))),
        fec_spec(a + seq!['x'] + b) == Some((number_value(a), number_value(b), 128nat)),
        fec_spec(a + seq!['x'] + (b + seq!['/'] + c)) == Some(
            (number_value(a), number_value(b), number_value(c)),
        ),
{
    lemma_word(a);
    lemma_word(b);
    lemma_word(c);
    let t = b + seq!['/'] + c;
    let none = Seq::<char>::empty();
    lemma_first_char(b, 'x', none);
    lemma_first_char(b, '/', c);
    lemma_first_char(t, 'x', none);
    lemma_first_char(a, 'x', b);
    lemma_first_char(a, 'x', t);
    assert(t.take(b.len() as int) =~= b);
    assert(t.skip(b.len() as int + 1) =~= c);
    let u = a + seq!['x'] + b;
    assert(u.take(a.len() as int) =~= a);
    assert(u.skip(a.len() as int + 1) =~= b);
    let v = a + seq!['x'] + t;
    assert(v.take(a.len() as int) =~= a);
    assert(v.skip(a.len() as int + 1) =~= t);
}

/// Options are refused exactly if the parity cannot be read, blocks are smaller than a
/// word, the size of the buffer cannot be read, or data shall go both straight and not.
pub proof fn law_refused_options(o: SenderOptions)
    ensures
        option_error(o) is Some <==> {
            ||| o.fec matches Some(s) && fec_spec(s@) is None
            ||| o.block_size < 4
            ||| o.sendbuf matches Some(t) && size_value(t@) is Err
            ||| o.pointopoint && o.nopointopoint
        },
        option_error(o) == Some(OptionError::BadFecSpec) <==> (o.fec matches Some(s) && fec_spec(s@) is None),
        option_error(o) == Some(OptionError::BlockSize) ==> o.block_size < 4,
        option_error(o) == Some(OptionError::PointToPoint) ==> o.pointopoint && o.nopointopoint,
        option_error(o) matches Some(OptionError::BufferSize(e)) ==> (o.sendbuf matches Some(t)
            && size_value(t@) == Err::<nat, SizeError>(e)),
{
}

/// The size of a buffer is the one that was asked for, if it fits, and zero if none was.
pub proof fn law_buffer_sizes(s: Option<String>)
    ensures
        s is None ==> buffer_option(s) == Ok::<u32, SizeError>(0),
        s matches Some(t) ==> {
            &&& buffer_option(s) is Err <==> size_value(t@) is Err
            &&& size_value(t@) matches Ok(n) ==> (buffer_option(s) matches Ok(b) && b as int == n as int
                % 0x1_0000_0000)
        },
{
}

} // verus!
