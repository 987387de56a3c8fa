//! The options of a receiver, and how it finds a sender. Times are microseconds.

use crate::addr::{dotted, Ipv4Addr, SocketAddrV4};
use crate::diskio::{FLAG_NOSYNC, FLAG_SYNC};
use crate::negotiate::control_ip;
use crate::netsender::reply_to;
use crate::protocol::{
    address_field, connect_reply_bytes, hello_bytes, ip4_from_16, is_hello, sender_port,
    ConnectReply, DataBlock, FecBlock, Hello, Reqack, CAP_ASYNC, CAP_NEW_GEN,
    CMD_CONNECT_REPLY, CMD_CONNECT_REQ, CMD_DATA, CMD_FEC, CMD_HELLO, CMD_HELLO_NEW,
    CMD_HELLO_STREAMING, CMD_REQACK, CONNECT_REPLY_SIZE, HELLO_SIZE,
};
use crate::receivedata::ClientConfig;
use crate::senddata::{
    capabilities_for, first_true, flagged, is_first, lemma_first_true, Discovery, NetConfig,
    FLAG_IGNORE_LOST_DATA, FLAG_NOKBD, FLAG_PASSIVE, FLAG_POINTOPOINT, FLAG_STREAMING,
};
use crate::sender::{buffer_option, buffer_size, lemma_with_flag, with_flag};
use crate::socklib::{
    address_in, broadcast_ip, clear_ip, get_broadcast_address, get_mcast_all_address,
    is_mcast_address, lemma_address_in, port_is_ours, NetIf, SizeError,
};
use crate::statistics::since;
use crate::wire::{
    i16_at, i32_at, lemma_u16_round_trip, lemma_u32_round_trip, read_u16, to_word32, u16_at, u32_at,
    word16, word32,
};
use vstd::prelude::*;

verus! {

/// How progress is shown.
pub struct StatConfig {
    pub print_uncompressed_pos: i32,
    pub stat_period: i64,
    pub no_progress: bool,
}

/// The receive buffer where none is asked for.
pub const DEFAULT_RCVBUF: u32 = 1_048_576;

/// The time between two connection requests.
pub const CONNECT_REQ_RETRY_US: u64 = 1_000_000;

/// The options of a receiver, as given.
pub struct ReceiverOptions {
    pub port_base: u16,
    pub ttl: i32,
    pub mcast_rdv_address: Option<String>,
    pub passive: bool,
    pub rcvbuf: Option<String>,
    pub nokbd: bool,
    pub start_timeout: i32,
    pub ignore_lost_data: bool,
}

/// The flags that the options say.
pub open spec fn receiver_flags(o: ReceiverOptions) -> u32 {
    let f = with_flag(0, o.passive, FLAG_PASSIVE);
    let f = with_flag(f, o.nokbd, FLAG_NOKBD);
    with_flag(f, o.ignore_lost_data, FLAG_IGNORE_LOST_DATA)
}

/// The settings that the options come to. The sender decides on the rest.
pub open spec fn receiver_config(o: ReceiverOptions, buf: u32) -> NetConfig {
    let nowhere = SocketAddrV4 { ip: Ipv4Addr::zero(), port: 0 };
    NetConfig {
        net_if: None,
        port_base: o.port_base,
        block_size: 1456,
        slice_size: 16,
        control_mcast_addr: nowhere,
        data_mcast_addr: nowhere,
        mcast_rdv: o.mcast_rdv_address,
        ttl: o.ttl,
        flags: receiver_flags(o),
        capabilities: 0,
        min_slice_size: 16,
        default_slice_size: 0,
        max_slice_size: 1024,
        rcvbuf: buf,
        rexmit_hello_interval: 0,
        autostart: 0,
        requested_buf_size: buf,
        min_receivers: 0,
        max_receivers_wait: 0,
        min_receivers_wait: 0,
        retries_until_drop: 200,
        rehello_offset: 50,
        start_timeout: o.start_timeout,
        discovery: Discovery::Doubling,
        fec_stripes: 0,
        fec_redundancy: 0,
        fec_stripesize: 0,
        max_bitrate: None,
        autorate: false,
    }
}

/// Makes settings of the options.
pub fn configure_receiver(o: ReceiverOptions) -> (r: Result<NetConfig, SizeError>)
    ensures
        match buffer_option(o.rcvbuf) {
            Ok(buf) => r matches Ok(c) && c == receiver_config(o, buf),
            Err(e) => r matches Err(f) && f == e,
        },
{
    let mut flags: u32 = 0;
    if o.passive {
        flags = flags | FLAG_PASSIVE;
    }
    if o.nokbd {
        flags = flags | FLAG_NOKBD;
    }
    if o.ignore_lost_data {
        flags = flags | FLAG_IGNORE_LOST_DATA;
    }
    let buf: u32 = match buffer_size(&o.rcvbuf) {
        Ok(n) => n,
        Err(e) => {
            return Err(e);
        },
    };
    Ok(
        NetConfig {
            net_if: None,
            port_base: o.port_base,
            block_size: 1456,
            slice_size: 16,
            control_mcast_addr: clear_ip(),
            data_mcast_addr: clear_ip(),
            mcast_rdv: o.mcast_rdv_address,
            ttl: o.ttl,
            flags,
            capabilities: 0,
            min_slice_size: 16,
            default_slice_size: 0,
            max_slice_size: 1024,
            rcvbuf: buf,
            rexmit_hello_interval: 0,
            autostart: 0,
            requested_buf_size: buf,
            min_receivers: 0,
            max_receivers_wait: 0,
            min_receivers_wait: 0,
            retries_until_drop: 200,
            rehello_offset: 50,
            start_timeout: o.start_timeout,
            discovery: Discovery::Doubling,
            fec_stripes: 0,
            fec_redundancy: 0,
            fec_stripesize: 0,
            max_bitrate: None,
            autorate: false,
        },
    )
}

/// The flags of the output that the options say.
pub fn disk_flags(nosync: bool, sync: bool) -> (r: u32)
    ensures
        r == with_flag(with_flag(0, nosync, FLAG_NOSYNC), sync, FLAG_SYNC),
{
    let mut flags: u32 = 0;
    if nosync {
        flags = flags | FLAG_NOSYNC;
    }
    if sync {
        flags = flags | FLAG_SYNC;
    }
    flags
}

/// The receive buffer to ask the system for.
pub fn receive_buffer(requested: u32) -> (r: u32)
    ensures
        r == if requested > 0 {
            requested
        } else {
            DEFAULT_RCVBUF
        },
{
    if requested > 0 {
        requested
    } else {
        DEFAULT_RCVBUF
    }
}

/// Where a receiver looks for a sender: at the broadcast address where packets
/// stay in the subnet and no group is named, else at the group; 224.0.0.1 where
/// none is named.
pub open spec fn rendezvous_ip(c: NetConfig, net_if: NetIf) -> Ipv4Addr {
    if c.ttl == 1 && c.mcast_rdv is None {
        broadcast_ip(net_if)
    } else {
        let named = match c.mcast_rdv {
            Some(name) => address_in(name@),
            None => None,
        };
        match named {
            Some(ip) => ip,
            None => Ipv4Addr { a: 224, b: 0, c: 0, d: 1 },
        }
    }
}

/// Chooses where to look for a sender. The result is whether that is a group to
/// listen to.
pub fn choose_rendezvous(config: &mut NetConfig, net_if: &NetIf) -> (r: bool)
    requires
        old(config).port_base < u16::MAX,
    ensures
        *final(config) == (NetConfig {
            control_mcast_addr: SocketAddrV4 {
                ip: rendezvous_ip(*old(config), *net_if),
                port: (old(config).port_base + 1) as u16,
            },
            data_mcast_addr: SocketAddrV4 { ip: Ipv4Addr::zero(), port: 0 },
            ..*old(config)
        }),
        r <==> !(old(config).ttl == 1 && old(config).mcast_rdv is None) && 224 <= rendezvous_ip(
            *old(config),
            *net_if,
        ).a <= 239,
{
    let port: u16 = sender_port(config.port_base);
    let mut group: bool = false;
    if config.ttl == 1 && config.mcast_rdv.is_none() {
        config.control_mcast_addr = get_broadcast_address(net_if, port);
    } else {
        let address = match &config.mcast_rdv {
            Some(name) => get_mcast_all_address(Some(name.as_str()), port),
            None => get_mcast_all_address(None, port),
        };
        group = is_mcast_address(&address);
        config.control_mcast_addr = address;
    }
    config.data_mcast_addr = clear_ip();
    group
}

/// What a search for a sender has found so far.
pub struct Search {
    pub port_base: u16,
    pub flags: u32,
    pub start_timeout: i32,
    pub control_addr: SocketAddrV4,
    pub block_size: u32,
    pub data_ip: Ipv4Addr,
    pub server_addr: SocketAddrV4,
    pub client_number: i32,
    pub sender_is_newgen: bool,
    /// The slices of a transfer under way: number, bytes, round.
    pub late: Seq<(i32, i32, i32)>,
    /// The group listened to for such slices.
    pub sniffed: Option<Ipv4Addr>,
    /// The sender has just announced itself.
    pub announced: bool,
    pub last_request: Option<u64>,
    pub last_activity: u64,
}

/// What a packet means for the search.
#[derive(Debug, Clone, Copy, PartialEq, Eq, Structural)]
pub enum Found {
    /// Go on.
    Nothing,
    /// Go on, and listen to this group from now on.
    Group(Ipv4Addr),
    /// The transfer can begin.
    Sender,
    /// The sender has no room for one more.
    TooManyClients,
    /// A packet that belongs to no search.
    BadReply(u16),
}

/// The bytes of a packet, with zeros after it.
pub open spec fn byte_of(p: Seq<u8>, i: int) -> u8 {
    if i < p.len() {
        p[i]
    } else {
        0
    }
}

/// The first sixteen bytes of a packet, with zeros after it.
pub open spec fn head_of(p: Seq<u8>) -> Seq<u8> {
    Seq::new(16, |i: int| byte_of(p, i))
}

/// The address at place `at` of a packet.
pub open spec fn address_at(p: Seq<u8>, at: int) -> Ipv4Addr {
    Ipv4Addr { a: p[at], b: p[at + 1], c: p[at + 2], d: p[at + 3] }
}

/// Where slice `no` is in the list.
pub open spec fn places(late: Seq<(i32, i32, i32)>, no: i32) -> Seq<bool> {
    Seq::new(late.len(), |i: int| late[i].0 == no)
}

/// The place of slice `no` in the list.
pub open spec fn noted_at(late: Seq<(i32, i32, i32)>, no: i32) -> Option<int> {
    first_true(places(late, no))
}

/// The list after slice `no` was seen; of the rounds the highest counts.
pub open spec fn noted(
    late: Seq<(i32, i32, i32)>,
    no: i32,
    bytes: i32,
    round: i32,
) -> Seq<(i32, i32, i32)> {
    if no < 0 {
        late
    } else {
        match noted_at(late, no) {
            Some(i) => late.update(
                i,
                (
                    no,
                    bytes,
                    if round > late[i].2 {
                        round
                    } else {
                        late[i].2
                    },
                ),
            ),
            None => late.push((no, bytes, round)),
        }
    }
}

/// Whether the slices in the list have distinct numbers, none of them negative.
pub open spec fn well_noted(late: Seq<(i32, i32, i32)>) -> bool {
    &&& forall|i: int| 0 <= i < late.len() ==> (#[trigger] late[i]).0 >= 0
    &&& forall|i: int, j: int|
        0 <= i < j < late.len() ==> (#[trigger] late[i]).0 != (#[trigger] late[j]).0
}

impl Search {
    /// Whether a connection request is due.
    pub open spec fn due(self, now: u64) -> bool {
        &&& match self.last_request {
            None => true,
            Some(t) => since(t, now) >= CONNECT_REQ_RETRY_US,
        }
        &&& !flagged(self.flags, FLAG_PASSIVE)
    }

    /// How long the sender may stay silent.
    pub open spec fn patience(self) -> int {
        if self.start_timeout > 0 {
            self.start_timeout * 1_000_000
        } else {
            0
        }
    }

    /// The search after a connection reply.
    pub open spec fn replied(self, p: Seq<u8>, from: SocketAddrV4) -> Search {
        let newgen = u32_at(p, 12) & CAP_NEW_GEN != 0;
        Search {
            client_number: i32_at(p, 4),
            block_size: word32(i32_at(p, 8)),
            server_addr: from,
            sender_is_newgen: self.sender_is_newgen || newgen,
            data_ip: if newgen {
                address_at(p, 16)
            } else {
                self.data_ip
            },
            ..self
        }
    }

    /// The search after an announcement, as far as its contents go.
    pub open spec fn told(self, p: Seq<u8>) -> Search {
        let s = Search {
            last_request: None,
            flags: with_flag(self.flags, u16_at(p, 0) == CMD_HELLO_STREAMING, FLAG_STREAMING),
            ..self
        };
        if p.len() >= HELLO_SIZE && u32_at(p, 4) & CAP_NEW_GEN != 0 {
            Search {
                sender_is_newgen: true,
                data_ip: address_at(p, 8),
                block_size: word32(i16_at(p, 24)),
                flags: with_flag(s.flags, u32_at(p, 4) & CAP_ASYNC != 0, FLAG_PASSIVE),
                ..s
            }
        } else {
            s
        }
    }

    /// Whether an announcement is enough to begin: the receiver stays silent.
    pub open spec fn begins(self, p: Seq<u8>) -> bool {
        p.len() >= HELLO_SIZE && u32_at(p, 4) & CAP_NEW_GEN != 0 && flagged(
            self.told(p).flags,
            FLAG_PASSIVE,
        )
    }

    /// The search after an announcement of `from`, and what to do.
    pub open spec fn announced_by(self, p: Seq<u8>, from: SocketAddrV4) -> (Search, Found) {
        let s = self.told(p);
        if self.begins(p) {
            (s, Found::Sender)
        } else {
            (
                Search { server_addr: from, announced: true, ..s },
                if !flagged(s.flags, FLAG_POINTOPOINT) && 224 <= s.data_ip.a <= 239 && s.sniffed
                    != Some(s.data_ip) {
                    Found::Group(s.data_ip)
                } else {
                    Found::Nothing
                },
            )
        }
    }

    /// The search after a packet, and what to do.
    pub open spec fn after(self, p: Seq<u8>, from: SocketAddrV4, now: u64) -> (Search, Found) {
        let s = Search { last_activity: now, ..self };
        let op = u16_at(p, 0);
        let head = head_of(p);
        if from.port != self.port_base && from.port != self.port_base + 1 {
            (self, Found::Nothing)
        } else if from.port == self.port_base || p.len() < 4 {
            (s, Found::Nothing)
        } else if op == CMD_CONNECT_REPLY {
            if p.len() < CONNECT_REPLY_SIZE {
                (s, Found::Nothing)
            } else if i32_at(p, 4) == -1 {
                (s.replied(p, from), Found::TooManyClients)
            } else {
                (s.replied(p, from), Found::Sender)
            }
        } else if op == CMD_HELLO_NEW || op == CMD_HELLO || op == CMD_HELLO_STREAMING {
            s.announced_by(p, from)
        } else if op == CMD_CONNECT_REQ {
            (s, Found::Nothing)
        } else if op == CMD_REQACK {
            let m = Reqack::of_bytes(head);
            (Search { late: noted(s.late, m.slice_no, m.bytes, m.rxmit), ..s }, Found::Nothing)
        } else if op == CMD_DATA {
            let m = DataBlock::of_bytes(head);
            (Search { late: noted(s.late, m.slice_no, m.bytes, 0), ..s }, Found::Nothing)
        } else if op == CMD_FEC {
            let m = FecBlock::of_bytes(head);
            (Search { late: noted(s.late, m.slice_no, m.bytes, 0), ..s }, Found::Nothing)
        } else {
            (s, Found::BadReply(op))
        }
    }
}

/// The search for a sender.
pub struct Connector {
    pub port_base: u16,
    pub flags: u32,
    pub start_timeout: i32,
    pub control_addr: SocketAddrV4,
    pub block_size: u32,
    pub data_ip: Ipv4Addr,
    pub server_addr: SocketAddrV4,
    pub client_number: i32,
    pub sender_is_newgen: bool,
    pub late_slices: Vec<(i32, i32, i32)>,
    pub sniffed: Option<Ipv4Addr>,
    pub announced: bool,
    pub last_request: Option<u64>,
    pub last_activity: u64,
}

impl View for Connector {
    type V = Search;

    open spec fn view(&self) -> Search {
        Search {
            port_base: self.port_base,
            flags: self.flags,
            start_timeout: self.start_timeout,
            control_addr: self.control_addr,
            block_size: self.block_size,
            data_ip: self.data_ip,
            server_addr: self.server_addr,
            client_number: self.client_number,
            sender_is_newgen: self.sender_is_newgen,
            late: self.late_slices@,
            sniffed: self.sniffed,
            announced: self.announced,
            last_request: self.last_request,
            last_activity: self.last_activity,
        }
    }
}

/// The time from `then` to `now`.
fn elapsed(then: u64, now: u64) -> (r: u64)
    ensures
        r == since(then, now),
{
    if now >= then {
        now - then
    } else {
        0
    }
}

/// The first sixteen bytes of a packet, with zeros after it.
fn packet_head(p: &[u8]) -> (r: [u8; 16])
    ensures
        r@ == head_of(p@),
{
    let mut r = [0u8; 16];
    let mut i: usize = 0;
    while i < 16 && i < p.len()
        invariant
            i <= 16,
            i <= p@.len(),
            r@.len() == 16,
            forall|k: int| 0 <= k < i ==> r@[k] == p@[k],
            forall|k: int| i <= k < 16 ==> r@[k] == 0,
        decreases 16 - i,
    {
        r[i] = p[i];
        i += 1;
    }
    assert(r@ =~= head_of(p@));
    r
}

impl Connector {
    /// A search that begins now; `sniffed` is the group listened to for slices of a
    /// transfer under way.
    pub fn new(config: &NetConfig, sniffed: Option<Ipv4Addr>, now: u64) -> (r: Self)
        ensures
            r@ == (Search {
                port_base: config.port_base,
                flags: config.flags,
                start_timeout: config.start_timeout,
                control_addr: config.control_mcast_addr,
                block_size: config.block_size,
                data_ip: config.data_mcast_addr.ip,
                server_addr: SocketAddrV4 { ip: Ipv4Addr::zero(), port: 0 },
                client_number: 0,
                sender_is_newgen: false,
                late: Seq::empty(),
                sniffed,
                announced: false,
                last_request: None,
                last_activity: now,
            }),
    {
        Connector {
            port_base: config.port_base,
            flags: config.flags,
            start_timeout: config.start_timeout,
            control_addr: config.control_mcast_addr,
            block_size: config.block_size,
            data_ip: config.data_mcast_addr.ip,
            server_addr: clear_ip(),
            client_number: 0,
            sender_is_newgen: false,
            late_slices: Vec::new(),
            sniffed,
            announced: false,
            last_request: None,
            last_activity: now,
        }
    }

    /// Where to send a connection request to, if one is due: to the sender that
    /// has just announced itself, else to where senders are looked for.
    pub fn request(&mut self, now: u64) -> (r: Option<SocketAddrV4>)
        ensures
            final(self)@ == (Search {
                announced: false,
                last_request: if old(self)@.due(now) {
                    Some(now)
                } else {
                    old(self)@.last_request
                },
                ..old(self)@
            }),
            r == if !old(self)@.due(now) {
                None
            } else if old(self)@.announced {
                Some(old(self)@.server_addr)
            } else {
                Some(old(self)@.control_addr)
            },
    {
        let due: bool = match self.last_request {
            None => true,
            Some(t) => elapsed(t, now) >= CONNECT_REQ_RETRY_US,
        };
        let mut to: Option<SocketAddrV4> = None;
        if due && self.flags & FLAG_PASSIVE == 0 {
            to = Some(
                if self.announced {
                    self.server_addr
                } else {
                    self.control_addr
                },
            );
            self.last_request = Some(now);
        }
        self.announced = false;
        to
    }

    /// How long to wait for a packet: until the next request at most, and no longer
    /// than the sender may stay silent.
    pub fn wait_us(&self, now: u64) -> (r: u64)
        ensures
            r <= CONNECT_REQ_RETRY_US,
            self@.start_timeout <= 0 ==> r == CONNECT_REQ_RETRY_US,
            self@.start_timeout > 0 ==> r == {
                let left = self@.patience() - since(self@.last_activity, now);
                if left < 0 {
                    0
                } else if left < CONNECT_REQ_RETRY_US {
                    left
                } else {
                    CONNECT_REQ_RETRY_US as int
                }
            },
    {
        if self.start_timeout > 0 {
            let patience: u64 = self.start_timeout as u64 * 1_000_000;
            let gone: u64 = elapsed(self.last_activity, now);
            if gone >= patience {
                0
            } else if patience - gone < CONNECT_REQ_RETRY_US {
                patience - gone
            } else {
                CONNECT_REQ_RETRY_US
            }
        } else {
            CONNECT_REQ_RETRY_US
        }
    }

    /// Whether the sender has stayed silent for too long.
    pub fn gives_up(&self, now: u64) -> (r: bool)
        ensures
            r <==> self@.start_timeout > 0 && since(self@.last_activity, now)
                >= self@.patience(),
    {
        self.start_timeout > 0 && elapsed(self.last_activity, now) >= self.start_timeout as u64
            * 1_000_000
    }

    /// Takes down that a slice of a transfer under way was seen.
    fn note(&mut self, no: i32, bytes: i32, round: i32)
        ensures
            final(self)@ == (Search {
                late: noted(old(self)@.late, no, bytes, round),
                ..old(self)@
            }),
    {
        if no < 0 {
            return;
        }
        let ghost late = self.late_slices@;
        let ghost marks = places(late, no);
        let mut i: usize = 0;
        while i < self.late_slices.len()
            invariant
                i <= late.len(),
                *self == *old(self),
                self.late_slices@ == late,
                marks == places(late, no),
                no >= 0,
                forall|k: int| 0 <= k < i ==> !(#[trigger] marks[k]),
            decreases late.len() - i,
        {
            if self.late_slices[i].0 == no {
                assert(marks[i as int]);
                assert(is_first(marks, i as int));
                proof {
                    lemma_first_true(marks, i as int);
                }
                let before: i32 = self.late_slices[i].2;
                let highest: i32 = if round > before {
                    round
                } else {
                    before
                };
                self.late_slices.set(i, (no, bytes, highest));
                assert(noted_at(late, no) == Some(i as int));
                assert(self.late_slices@ =~= noted(late, no, bytes, round));
                return;
            }
            i += 1;
        }
        assert(noted_at(late, no) is None);
        self.late_slices.push((no, bytes, round));
        assert(self.late_slices@ =~= noted(late, no, bytes, round));
    }

    /// Takes in an announcement.
    fn hello(&mut self, p: &[u8], from: SocketAddrV4) -> (r: Found)
        requires
            p@.len() >= 4,
        ensures
            (final(self)@, r) == old(self)@.announced_by(p@, from),
    {
        self.last_request = None;
        if read_u16(p, 0) == CMD_HELLO_STREAMING {
            self.flags = self.flags | FLAG_STREAMING;
        }
        if p.len() >= HELLO_SIZE {
            let hello = Hello::unpack(p);
            if hello.capabilities & CAP_NEW_GEN != 0 {
                self.sender_is_newgen = true;
                self.data_ip = ip4_from_16(&hello.mcast);
                self.block_size = to_word32(hello.block_size);
                if hello.capabilities & CAP_ASYNC != 0 {
                    self.flags = self.flags | FLAG_PASSIVE;
                }
                if self.flags & FLAG_PASSIVE != 0 {
                    return Found::Sender;
                }
            }
        }
        self.server_addr = from;
        self.announced = true;
        if self.flags & FLAG_POINTOPOINT == 0 && self.data_ip.is_multicast() {
            let other: bool = match self.sniffed {
                Some(group) => group != self.data_ip,
                None => true,
            };
            if other {
                return Found::Group(self.data_ip);
            }
        }
        Found::Nothing
    }

    /// Takes in a packet.
    pub fn hear(&mut self, p: &[u8], from: SocketAddrV4, now: u64) -> (r: Found)
        requires
            old(self).port_base < u16::MAX,
        ensures
            (final(self)@, r) == old(self)@.after(p@, from, now),
    {
        if !port_is_ours(from.port, self.port_base) {
            return Found::Nothing;
        }
        self.last_activity = now;
        if from.port != sender_port(self.port_base) || p.len() < 4 {
            return Found::Nothing;
        }
        let opcode: u16 = read_u16(p, 0);
        if opcode == CMD_CONNECT_REPLY {
            if p.len() < CONNECT_REPLY_SIZE {
                return Found::Nothing;
            }
            let reply = ConnectReply::unpack(p);
            self.client_number = reply.cl_nr;
            self.block_size = to_word32(reply.block_size);
            self.server_addr = from;
            if reply.capabilities & CAP_NEW_GEN != 0 {
                self.sender_is_newgen = true;
                self.data_ip = ip4_from_16(&reply.mcast);
            }
            return if self.client_number == -1 {
                Found::TooManyClients
            } else {
                Found::Sender
            };
        }
        if is_hello(opcode) {
            return self.hello(p, from);
        }
        if opcode == CMD_CONNECT_REQ {
            return Found::Nothing;
        }
        let head = packet_head(p);
        if opcode == CMD_REQACK {
            let m = Reqack::unpack(&head);
            self.note(m.slice_no, m.bytes, m.rxmit);
            Found::Nothing
        } else if opcode == CMD_DATA {
            let m = DataBlock::unpack(&head);
            self.note(m.slice_no, m.bytes, 0);
            Found::Nothing
        } else if opcode == CMD_FEC {
            let m = FecBlock::unpack(&head);
            self.note(m.slice_no, m.bytes, 0);
            Found::Nothing
        } else {
            Found::BadReply(opcode)
        }
    }

    /// Says which group is listened to for slices of a transfer under way.
    pub fn sniffs(&mut self, group: Option<Ipv4Addr>)
        ensures
            final(self)@ == (Search { sniffed: group, ..old(self)@ }),
    {
        self.sniffed = group;
    }

    /// Takes what was found over into the settings.
    pub fn settle(&self, config: &mut NetConfig)
        ensures
            *final(config) == (NetConfig {
                flags: self@.flags,
                block_size: self@.block_size,
                data_mcast_addr: SocketAddrV4 { ip: self@.data_ip, port: 0 },
                ..*old(config)
            }),
    {
        config.flags = self.flags;
        config.block_size = self.block_size;
        config.data_mcast_addr = SocketAddrV4 { ip: self.data_ip, port: 0 };
    }

    /// What the receiver knows of its transfer. Negative times count as zero.
    pub fn into_client(self, exit_wait: i32, receive_timeout: i32) -> (r: ClientConfig)
        ensures
            r.server_addr == self@.server_addr,
            r.control_addr == self@.control_addr,
            r.client_number == self@.client_number,
            !r.is_started,
            r.sender_is_newgen == self@.sender_is_newgen,
            r.exit_wait_ms == if exit_wait > 0 {
                exit_wait as int
            } else {
                0
            },
            r.completed_slices@ == Seq::<bool>::empty(),
            !r.end_marker_seen,
            r.receive_timeout_secs == if receive_timeout > 0 {
                receive_timeout as int
            } else {
                0
            },
            r.late_slices@ == self@.late,
    {
        ClientConfig {
            server_addr: self.server_addr,
            control_addr: self.control_addr,
            client_number: self.client_number,
            is_started: false,
            sender_is_newgen: self.sender_is_newgen,
            exit_wait_ms: if exit_wait > 0 {
                exit_wait as u64
            } else {
                0
            },
            completed_slices: Vec::new(),
            end_marker_seen: false,
            receive_timeout_secs: if receive_timeout > 0 {
                receive_timeout as u64
            } else {
                0
            },
            late_slices: self.late_slices,
        }
    }
}

/// Whether data comes to a group of its own, which has to be listened to.
pub fn listens_for_data(config: &NetConfig, net_if: &NetIf) -> (r: bool)
    ensures
        r <==> config.data_mcast_addr.ip != Ipv4Addr::zero() && config.data_mcast_addr.ip
            != net_if.addr && (config.control_mcast_addr.ip == Ipv4Addr::zero()
            || config.data_mcast_addr.ip != config.control_mcast_addr.ip),
{
    !config.data_mcast_addr.ip.is_unspecified() && config.data_mcast_addr.ip != net_if.addr && (
    config.control_mcast_addr.ip.is_unspecified() || config.data_mcast_addr.ip
        != config.control_mcast_addr.ip)
}

/// A slice is noted once, whatever packets of it are seen.
pub proof fn law_slices_are_noted_once(s: Search, p: Seq<u8>, from: SocketAddrV4, now: u64)
    requires
        well_noted(s.late),
    ensures
        well_noted(s.after(p, from, now).0.late),
{
    let late = s.late;
    assert forall|no: i32, bytes: i32, round: i32| well_noted(
        #[trigger] noted(late, no, bytes, round),
    ) by {
        lemma_noted(late, no, bytes, round);
    }
}

/// A slice that was seen before is kept, with the highest round that was heard of.
pub proof fn law_noted_slices_stay(late: Seq<(i32, i32, i32)>, no: i32, bytes: i32, round: i32)
    requires
        well_noted(late),
    ensures
        late.len() <= noted(late, no, bytes, round).len(),
        forall|i: int|
            0 <= i < late.len() ==> {
                &&& (#[trigger] noted(late, no, bytes, round)[i]).0 == late[i].0
                &&& noted(late, no, bytes, round)[i].2 >= late[i].2
            },
        no >= 0 ==> exists|i: int|
            0 <= i < noted(late, no, bytes, round).len() && (#[trigger] noted(
                late,
                no,
                bytes,
                round,
            )[i]).0 == no && noted(late, no, bytes, round)[i].1 == bytes && noted(
                late,
                no,
                bytes,
                round,
            )[i].2 >= round,
{
    lemma_noted(late, no, bytes, round);
    if no >= 0 {
        let r = noted(late, no, bytes, round);
        match noted_at(late, no) {
            Some(i) => {
                assert(r[i].0 == no && r[i].1 == bytes && r[i].2 >= round);
            },
            None => {
                assert(r[late.len() as int].0 == no);
            },
        }
    }
}

/// What noting a slice does.
proof fn lemma_noted(late: Seq<(i32, i32, i32)>, no: i32, bytes: i32, round: i32)
    requires
        well_noted(late),
    ensures
        well_noted(noted(late, no, bytes, round)),
        noted_at(late, no) matches Some(i) ==> 0 <= i < late.len() && late[i].0 == no,
{
    let marks = places(late, no);
    if exists|i: int| is_first(marks, i) {
        let i = choose|i: int| is_first(marks, i);
        assert(is_first(marks, i));
        assert(marks[i]);
        assert(noted_at(late, no) == Some(i));
    } else {
        assert(noted_at(late, no) is None);
        assert forall|i: int| 0 <= i < late.len() implies (#[trigger] late[i]).0 != no by {
            if late[i].0 == no {
                lemma_some_first(marks, i);
            }
        }
    }
}

/// Where a place holds, there is a first.
proof fn lemma_some_first(marks: Seq<bool>, i: int)
    requires
        0 <= i < marks.len(),
        marks[i],
    ensures
        exists|j: int| is_first(marks, j),
    decreases i,
{
    if forall|j: int| 0 <= j < i ==> !(#[trigger] marks[j]) {
        assert(is_first(marks, i));
    } else {
        let j = choose|j: int| 0 <= j < i && #[trigger] marks[j];
        lemma_some_first(marks, j);
    }
}

/// A silent receiver asks for nothing.
pub proof fn law_silent_receivers_stay_silent(s: Search, now: u64)
    requires
        flagged(s.flags, FLAG_PASSIVE),
    ensures
        !s.due(now),
{
}

/// A sender that announces itself is asked at once, and it is asked itself.
pub proof fn law_announcements_are_answered(
    s: Search,
    p: Seq<u8>,
    from: SocketAddrV4,
    now: u64,
    later: u64,
)
    requires
        from.port == s.port_base + 1,
        p.len() >= 4,
        u16_at(p, 0) == CMD_HELLO || u16_at(p, 0) == CMD_HELLO_NEW || u16_at(p, 0)
            == CMD_HELLO_STREAMING,
        !flagged(s.told(p).flags, FLAG_PASSIVE),
    ensures
        s.after(p, from, now).0.due(later),
        s.after(p, from, now).0.announced,
        s.after(p, from, now).0.server_addr == from,
{
}

/// What a sender replies is what the receiver learns: its number, the size of blocks,
/// the address of the sender and where data goes; and with that the search is over. A
/// sender without room is heard too.
pub proof fn law_replies_are_understood(
    s: Search,
    cl_nr: i32,
    block_size: i32,
    capabilities: u32,
    ip: Ipv4Addr,
    from: SocketAddrV4,
    now: u64,
)
    requires
        from.port == s.port_base + 1,
        block_size >= 0,
    ensures
        ({
            let p = connect_reply_bytes(cl_nr, block_size, capabilities, address_field(ip));
            let (v, found) = s.after(p, from, now);
            &&& found == if cl_nr == -1 {
                Found::TooManyClients
            } else {
                Found::Sender
            }
            &&& v.client_number == cl_nr
            &&& v.block_size == block_size
            &&& v.server_addr == from
            &&& v.late == s.late
            &&& v.flags == s.flags
            &&& capabilities & 1 != 0 ==> v.sender_is_newgen && v.data_ip == ip
            &&& capabilities & 1 == 0 ==> v.data_ip == s.data_ip && v.sender_is_newgen
                == s.sender_is_newgen
        }),
{
    let p = connect_reply_bytes(cl_nr, block_size, capabilities, address_field(ip));
    lemma_u16_round_trip(CMD_CONNECT_REPLY, p, 0);
    lemma_u32_round_trip(word32(cl_nr), p, 4);
    lemma_u32_round_trip(word32(block_size), p, 8);
    lemma_u32_round_trip(capabilities, p, 12);
    assert(p.len() == 32);
    assert(address_at(p, 16) == ip);
}

/// The reply that a sender repeats to a late joiner lets it begin: with its number, the
/// size of blocks and the address of the data, and with all slices that it saw so far.
pub proof fn law_repeated_replies_let_late_joiners_begin(
    c: NetConfig,
    cl_nr: i32,
    s: Search,
    from: SocketAddrV4,
    now: u64,
)
    requires
        from.port == s.port_base + 1,
        c.block_size <= i32::MAX,
        cl_nr >= 0,
    ensures
        ({
            let (v, found) = s.after(reply_to(c, cl_nr), from, now);
            &&& found == Found::Sender
            &&& v.client_number == cl_nr
            &&& v.block_size == c.block_size
            &&& v.data_ip == c.data_mcast_addr.ip
            &&& v.server_addr == from
            &&& v.late == s.late
        }),
{
    let flags = c.flags;
    let w = capabilities_for(flags);
    assert((0x0009u32) & 1 != 0 && (0x0009u32 | 0x0004) & 1 != 0 && (0x0009u32 | 0x0020) & 1 != 0 && (
    0x0009u32 | 0x0004 | 0x0020) & 1 != 0) by (bit_vector);
    assert(w & 1 != 0);
    law_replies_are_understood(
        s,
        cl_nr,
        c.block_size as i32,
        w,
        c.data_mcast_addr.ip,
        from,
        now,
    );
}

/// What a sender announces is what the receiver learns: where data goes and the size of
/// blocks, if the sender speaks the current protocol. A receiver that stays silent, as
/// it does where the sender expects no answers, begins at once; another asks the sender
/// that announced itself, and listens to its group.
pub proof fn law_announcements_are_understood(
    s: Search,
    streaming: bool,
    capabilities: u32,
    ip: Ipv4Addr,
    block_size: i32,
    from: SocketAddrV4,
    now: u64,
    later: u64,
)
    requires
        from.port == s.port_base + 1,
        0 <= block_size <= 32767,
        capabilities & 1 != 0,
    ensures
        ({
            let op = if streaming {
                CMD_HELLO_STREAMING
            } else {
                CMD_HELLO_NEW
            };
            let p = hello_bytes(op, capabilities, address_field(ip), block_size);
            let (v, found) = s.after(p, from, now);
            let silent = flagged(s.flags, FLAG_PASSIVE) || capabilities & 0x20 != 0;
            &&& v.data_ip == ip
            &&& v.block_size == block_size
            &&& v.sender_is_newgen
            &&& v.late == s.late
            &&& streaming ==> flagged(v.flags, FLAG_STREAMING)
            &&& found == Found::Sender <==> silent
            &&& !silent ==> v.server_addr == from && v.announced && v.due(later)
            &&& !silent && 224 <= ip.a <= 239 && !flagged(s.flags, FLAG_POINTOPOINT) && s.sniffed
                != Some(ip) ==> found == Found::Group(ip)
        }),
{
    let op = if streaming {
        CMD_HELLO_STREAMING
    } else {
        CMD_HELLO_NEW
    };
    let p = hello_bytes(op, capabilities, address_field(ip), block_size);
    lemma_u16_round_trip(op, p, 0);
    lemma_u32_round_trip(capabilities, p, 4);
    lemma_u16_round_trip(word16(block_size), p, 24);
    assert(p.len() == 28);
    assert(address_at(p, 8) == ip);
    let f = s.flags;
    assert((f | 0x0100) & 0x0100 != 0 && ((f | 0x0100) & 0x0010 != 0 <==> f & 0x0010 != 0) && ((f
        | 0x0010) & 0x0010 != 0) && (((f | 0x0100) | 0x0010) & 0x0010 != 0) && (((f | 0x0100)
        | 0x0010) & 0x0100 != 0) && ((f | 0x0010) & 0x0100 != 0 <==> f & 0x0100 != 0) && ((f
        | 0x0100) & 0x0008 != 0 <==> f & 0x0008 != 0)) by (bit_vector);
}

/// A receiver asks once a second until it is answered: after a request none is due for a
/// second, and then one is; unless it stays silent.
pub proof fn law_requests_come_once_a_second(s: Search, now: u64, later: u64)
    requires
        now <= later,
        !flagged(s.flags, FLAG_PASSIVE),
    ensures
        s.last_request is None ==> s.due(now),
        (Search { last_request: Some(now), ..s }).due(later) <==> later >= now + 1_000_000,
{
}

/// Slices of a transfer under way are noted from whatever packet shows them, so that
/// they can be asked for later: a block, a parity block or a question.
pub proof fn law_slices_under_way_are_noted(
    s: Search,
    p: Seq<u8>,
    from: SocketAddrV4,
    now: u64,
)
    requires
        from.port == s.port_base + 1,
        p.len() >= 16,
        well_noted(s.late),
        u16_at(p, 0) == CMD_DATA || u16_at(p, 0) == CMD_FEC || u16_at(p, 0) == CMD_REQACK,
        i32_at(p, 4) >= 0,
    ensures
        ({
            let (v, found) = s.after(p, from, now);
            let bytes = if u16_at(p, 0) == CMD_REQACK {
                i32_at(p, 8)
            } else {
                i32_at(p, 12)
            };
            &&& found == Found::Nothing
            &&& exists|i: int|
                0 <= i < v.late.len() && (#[trigger] v.late[i]).0 == i32_at(p, 4) && v.late[i].1
                    == bytes && (u16_at(p, 0) == CMD_REQACK ==> v.late[i].2 >= i32_at(p, 12))
            &&& s.late.len() <= v.late.len()
            &&& forall|i: int| 0 <= i < s.late.len() ==> (#[trigger] v.late[i]).0 == s.late[i].0
        }),
{
    let head = head_of(p);
    assert(forall|i: int| 0 <= i < 16 ==> #[trigger] head[i] == p[i]);
    let no = i32_at(p, 4);
    assert(i32_at(head, 4) == no);
    assert(i32_at(head, 8) == i32_at(p, 8));
    assert(i32_at(head, 12) == i32_at(p, 12));
    let v = s.after(p, from, now).0;
    if u16_at(p, 0) == CMD_REQACK {
        law_noted_slices_stay(s.late, no, i32_at(p, 8), i32_at(p, 12));
        let r = noted(s.late, no, i32_at(p, 8), i32_at(p, 12));
        assert(v.late == r);
        let i = choose|i: int|
            0 <= i < r.len() && (#[trigger] r[i]).0 == no && r[i].1 == i32_at(p, 8) && r[i].2
                >= i32_at(p, 12);
        assert(v.late[i].0 == no);
    } else {
        law_noted_slices_stay(s.late, no, i32_at(p, 12), 0);
        let r = noted(s.late, no, i32_at(p, 12), 0);
        assert(v.late == r);
        let i = choose|i: int|
            0 <= i < r.len() && (#[trigger] r[i]).0 == no && r[i].1 == i32_at(p, 12) && r[i].2 >= 0;
        assert(v.late[i].0 == no);
    }
}

/// Sender and receiver meet: given the same range and the same group, or the same
/// broadcast address, a receiver looks for senders where senders are, and where they
/// announce themselves.
pub proof fn law_sender_and_receiver_meet(
    sender: NetConfig,
    sender_if: NetIf,
    receiver: NetConfig,
    receiver_if: NetIf,
)
    requires
        sender.ttl == receiver.ttl,
        sender.mcast_rdv == receiver.mcast_rdv,
        sender_if.bcast == receiver_if.bcast,
        sender_if.bcast != Ipv4Addr::zero(),
    ensures
        control_ip(sender, sender_if) == rendezvous_ip(receiver, receiver_if),
        sender.ttl == 1 && sender.mcast_rdv is None ==> control_ip(sender, sender_if)
            == sender_if.bcast,
        sender.mcast_rdv matches Some(name) ==> (forall|ip: Ipv4Addr| #[trigger]
            dotted(name@, ip) ==> control_ip(sender, sender_if) == ip),
{
    if let Some(name) = sender.mcast_rdv {
        assert forall|ip: Ipv4Addr| #[trigger] dotted(name@, ip) implies control_ip(
            sender,
            sender_if,
        ) == ip by {
            lemma_address_in(name@, ip);
        }
    }
}

/// Where a sender may stay silent for so long, the receiver gives up no sooner and no
/// later; any packet of the sender's ports starts the time anew.
pub proof fn law_silence_of_the_sender(s: Search, p: Seq<u8>, from: SocketAddrV4, now: u64)
    requires
        from.port == s.port_base || from.port == s.port_base + 1,
    ensures
        s.after(p, from, now).0.last_activity == now,
        s.after(p, from, now).0.start_timeout == s.start_timeout,
        s.start_timeout > 0 ==> s.patience() == s.start_timeout * 1_000_000,
{
}

/// Each option of a receiver reaches its settings, and its flag is set by nothing else.
pub proof fn law_receiver_options_are_heeded(o: ReceiverOptions, buf: u32)
    ensures
        ({
            let c = receiver_config(o, buf);
            &&& flagged(c.flags, FLAG_PASSIVE) <==> o.passive
            &&& flagged(c.flags, FLAG_NOKBD) <==> o.nokbd
            &&& flagged(c.flags, FLAG_IGNORE_LOST_DATA) <==> o.ignore_lost_data
            &&& c.port_base == o.port_base
            &&& c.ttl == o.ttl
            &&& c.mcast_rdv == o.mcast_rdv_address
            &&& c.start_timeout == o.start_timeout
            &&& c.requested_buf_size == buf
        }),
{
    lemma_receiver_flag(o, FLAG_PASSIVE);
    lemma_receiver_flag(o, FLAG_NOKBD);
    lemma_receiver_flag(o, FLAG_IGNORE_LOST_DATA);
    assert(0x10u32 & 0x80 == 0 && 0x10u32 & 0x400 == 0 && 0x80u32 & 0x10 == 0 && 0x80u32 & 0x400 == 0
        && 0x400u32 & 0x10 == 0 && 0x400u32 & 0x80 == 0 && 0x10u32 & 0x10 != 0 && 0x80u32 & 0x80 != 0
        && 0x400u32 & 0x400 != 0) by (bit_vector);
}

/// Where a flag of a receiver comes from.
proof fn lemma_receiver_flag(o: ReceiverOptions, g: u32)
    ensures
        receiver_flags(o) & g != 0 <==> {
            ||| o.passive && 0x10u32 & g != 0
            ||| o.nokbd && 0x80u32 & g != 0
            ||| o.ignore_lost_data && 0x400u32 & g != 0
        },
{
    assert(0u32 & g == 0) by (bit_vector);
    let f = with_flag(0, o.passive, FLAG_PASSIVE);
    lemma_with_flag(0, o.passive, FLAG_PASSIVE, g);
    lemma_with_flag(f, o.nokbd, FLAG_NOKBD, g);
    lemma_with_flag(with_flag(f, o.nokbd, FLAG_NOKBD), o.ignore_lost_data, FLAG_IGNORE_LOST_DATA, g);
}

/// Only a sender is listened to: what comes from another port than a sender's changes
/// nothing but, from a receiver, the time of the last sign of life, and so does what is
/// shorter than a header.
pub proof fn law_whose_packets_count(s: Search, p: Seq<u8>, from: SocketAddrV4, now: u64)
    requires
        from.port != s.port_base + 1 || p.len() < 4,
    ensures
        ({
            let (v, found) = s.after(p, from, now);
            &&& found == Found::Nothing
            &&& v == (Search { last_activity: v.last_activity, ..s })
            &&& v.last_activity == if from.port == s.port_base || from.port == s.port_base + 1 {
                now
            } else {
                s.last_activity
            }
        }),
{
}

/// A packet of a kind that no sender sends in search of receivers is told of, and
/// changes nothing else.
pub proof fn law_other_packets_are_told_of(s: Search, p: Seq<u8>, from: SocketAddrV4, now: u64)
    requires
        from.port == s.port_base + 1,
        p.len() >= 4,
    ensures
        ({
            let (v, found) = s.after(p, from, now);
            let op = u16_at(p, 0);
            let known = op == 3 || 6 <= op <= 11 || op == 0x0500;
            &&& !known ==> found == Found::BadReply(op) && v == (Search { last_activity: now, ..s })
            &&& known ==> !(found is BadReply)
        }),
{
}

} // verus!
