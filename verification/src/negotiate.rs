//! How a sender finds its receivers and decides when to begin. Times are
//! microseconds.

use crate::addr::{Ipv4Addr, SocketAddrV4};
use crate::participants::{members, place_for, place_of, ClientDesc, ParticipantsDb};
use crate::protocol::{
    address_field, connect_reply_bytes, ip4_into_16, receiver_port, ConnectReply, ConnectReq,
    CAP_BIG_ENDIAN, CMD_CONNECT_REQ, CMD_DISCONNECT, CMD_GO, CONNECT_REQ_SIZE,
};
use crate::senddata::{
    flagged, NetConfig, FLAG_ASYNC, FLAG_NOKBD, FLAG_NOPOINTOPOINT, FLAG_POINTOPOINT,
};
use crate::socklib::{
    address_in, broadcast_ip, clear_ip, default_group, get_broadcast_address,
    get_default_mcast_address, get_mcast_all_address, is_mcast_address, set_port, NetIf,
};
use crate::statistics::since;
use crate::wire::{read_u16, signed32, to_signed32, u16_at};
use vstd::prelude::*;

verus! {

/// The time between two announcements where none is asked for, in milliseconds.
pub const DEFAULT_HELLO_INTERVAL_MS: i32 = 1000;

/// Where a control message goes: to the broadcast address where packets stay in
/// the subnet and no group is named, else to the group; 224.0.0.1 where none is
/// named.
pub open spec fn control_ip(c: NetConfig, net_if: NetIf) -> Ipv4Addr {
    if c.ttl == 1 && c.mcast_rdv is None && broadcast_ip(net_if) != Ipv4Addr::zero() {
        broadcast_ip(net_if)
    } else {
        let named = match c.mcast_rdv {
            Some(name) => address_in(name@),
            None => None,
        };
        match named {
            Some(ip) => ip,
            None => Ipv4Addr { a: 224, b: 0, c: 0, d: 1 },
        }
    }
}

/// Where data goes before it is known who takes part: where asked for, else to
/// the group that stands for the interface.
pub open spec fn data_ip(c: NetConfig, net_if: NetIf) -> Ipv4Addr {
    if !flagged(c.flags, FLAG_POINTOPOINT) && c.data_mcast_addr.ip == Ipv4Addr::zero() {
        default_group(net_if.addr)
    } else {
        c.data_mcast_addr.ip
    }
}

/// What the sender learns when it chooses its addresses.
pub struct Addresses {
    /// Control messages go to a group, by the chosen interface.
    pub control_is_group: bool,
    /// Data goes to the group that stands for the interface.
    pub default_data: bool,
}

/// Chooses where control messages and data go.
pub fn choose_addresses(config: &mut NetConfig, net_if: &NetIf) -> (r: Addresses)
    ensures
        *final(config) == (NetConfig {
            control_mcast_addr: SocketAddrV4 {
                ip: control_ip(*old(config), *net_if),
                port: old(config).port_base,
            },
            data_mcast_addr: SocketAddrV4 {
                ip: data_ip(*old(config), *net_if),
                port: old(config).port_base,
            },
            ..*old(config)
        }),
        r.control_is_group == (!(old(config).ttl == 1 && old(config).mcast_rdv is None
            && broadcast_ip(*net_if) != Ipv4Addr::zero()) && 224 <= control_ip(
            *old(config),
            *net_if,
        ).a <= 239),
        r.default_data == (!flagged(old(config).flags, FLAG_POINTOPOINT)
            && old(config).data_mcast_addr.ip == Ipv4Addr::zero()),
{
    let port: u16 = receiver_port(config.port_base);
    let mut control = clear_ip();
    if config.ttl == 1 && config.mcast_rdv.is_none() {
        control = get_broadcast_address(net_if, port);
    }
    let mut control_is_group: bool = false;
    if control.ip.is_unspecified() {
        control = match &config.mcast_rdv {
            Some(name) => get_mcast_all_address(Some(name.as_str()), port),
            None => get_mcast_all_address(None, port),
        };
        control_is_group = is_mcast_address(&control);
    }
    let default_data: bool = config.flags & FLAG_POINTOPOINT == 0
        && config.data_mcast_addr.ip.is_unspecified();
    let mut data = config.data_mcast_addr;
    if default_data {
        data = get_default_mcast_address(net_if);
    }
    set_port(&mut data, port);
    config.control_mcast_addr = control;
    config.data_mcast_addr = data;
    Addresses { control_is_group, default_data }
}

/// A peer that speaks the little endian protocol.
#[derive(Debug, Clone, Copy, PartialEq, Eq, Structural)]
pub struct LittleEndian;

/// Whether the table is the one after `client` asked to take part, and its number
/// is `r`.
pub open spec fn registered(
    before: Seq<ClientDesc>,
    after: Seq<ClientDesc>,
    client: SocketAddrV4,
    capabilities: u32,
    rcvbuf: u32,
    pointopoint: bool,
    r: i32,
) -> bool {
    let known = exists|i: int| 0 <= i < 1024 && before[i].used && before[i].addr == client;
    if known {
        place_of(before, client, r as int) && r >= 0 && after == before
    } else {
        &&& place_for(before, pointopoint, r as int)
        &&& after == if r < 0 {
            before
        } else {
            crate::participants::joined(before, r as int, client, capabilities, rcvbuf)
        }
    }
}

/// The receive buffer that counts for a client that named `rcvbuf`.
pub open spec fn counted_rcvbuf(rcvbuf: u32) -> u32 {
    if rcvbuf == 0 {
        65536
    } else {
        rcvbuf
    }
}

/// Takes in a client, and gives the reply to it: its number, or -1 where there is
/// no room.
pub fn send_connection_reply(
    db: &mut ParticipantsDb,
    config: &NetConfig,
    client: &SocketAddrV4,
    capabilities: u32,
    rcvbuf: u32,
) -> (r: Result<[u8; 32], LittleEndian>)
    requires
        old(db).wf(),
    ensures
        final(db).wf(),
        if flagged(capabilities, CAP_BIG_ENDIAN) {
            exists|no: i32|
                {
                    &&& #[trigger] registered(
                        old(db)@,
                        final(db)@,
                        *client,
                        capabilities,
                        counted_rcvbuf(rcvbuf),
                        flagged(config.flags, FLAG_POINTOPOINT),
                        no,
                    )
                    &&& r matches Ok(packet) && packet@ == connect_reply_bytes(
                        no,
                        signed32(config.block_size),
                        config.capabilities,
                        address_field(config.data_mcast_addr.ip),
                    )
                }
        } else {
            r == Err::<[u8; 32], LittleEndian>(LittleEndian) && final(db)@ == old(db)@
        },
{
    let counted: u32 = if rcvbuf == 0 {
        65536
    } else {
        rcvbuf
    };
    if capabilities & CAP_BIG_ENDIAN == 0 {
        return Err(LittleEndian);
    }
    let ghost before = db@;
    proof {
        db.lemma_wf();
    }
    let cl_nr: i32 = db.add_participant(
        client,
        capabilities,
        counted,
        config.flags & FLAG_POINTOPOINT != 0,
    );
    assert(registered(
        before,
        db@,
        *client,
        capabilities,
        counted_rcvbuf(rcvbuf),
        flagged(config.flags, FLAG_POINTOPOINT),
        cl_nr,
    ));
    let reply = ConnectReply {
        cl_nr,
        block_size: to_signed32(config.block_size),
        capabilities: config.capabilities,
        mcast: ip4_into_16(config.data_mcast_addr.ip),
    };
    Ok(reply.pack())
}

/// What comes of a message before the transfer.
pub enum Greeting {
    /// Nothing.
    Nothing,
    /// To reply to whoever sent it.
    Reply([u8; 32]),
    /// To begin.
    Start,
}

/// Takes in a message of a receiver: a request to take part is replied to, a GO
/// begins the transfer, and who disconnects is out.
pub fn handle_receiver_msg(
    buf: &[u8],
    from: &SocketAddrV4,
    db: &mut ParticipantsDb,
    config: &NetConfig,
) -> (r: Greeting)
    requires
        old(db).wf(),
    ensures
        final(db).wf(),
        if buf@.len() >= CONNECT_REQ_SIZE && u16_at(buf@, 0) == CMD_CONNECT_REQ {
            let req = ConnectReq::of_bytes(buf@);
            exists|no: i32|
                {
                    &&& #[trigger] registered(
                        old(db)@,
                        final(db)@,
                        *from,
                        CAP_BIG_ENDIAN | req.capabilities,
                        counted_rcvbuf(req.rcvbuf),
                        flagged(config.flags, FLAG_POINTOPOINT),
                        no,
                    )
                    &&& r matches Greeting::Reply(packet) && packet@ == connect_reply_bytes(
                        no,
                        signed32(config.block_size),
                        config.capabilities,
                        address_field(config.data_mcast_addr.ip),
                    )
                }
        } else if buf@.len() >= 4 && u16_at(buf@, 0) == CMD_GO {
            r is Start && final(db)@ == old(db)@
        } else if buf@.len() >= 4 && u16_at(buf@, 0) == CMD_DISCONNECT {
            &&& r is Nothing
            &&& forall|i: int|
                0 <= i < 1024 ==> #[trigger] final(db)@[i] == if old(db)@[i].used
                    && old(db)@[i].addr == *from {
                    ClientDesc { used: false, ..old(db)@[i] }
                } else {
                    old(db)@[i]
                }
        } else {
            r is Nothing && final(db)@ == old(db)@
        },
{
    if buf.len() < 4 {
        return Greeting::Nothing;
    }
    let opcode: u16 = read_u16(buf, 0);
    if opcode == CMD_CONNECT_REQ {
        if buf.len() < CONNECT_REQ_SIZE {
            return Greeting::Nothing;
        }
        let req = ConnectReq::unpack(buf);
        let capabilities: u32 = CAP_BIG_ENDIAN | req.capabilities;
        proof {
            let c = req.capabilities;
            assert((0x0008u32 | c) & 0x0008 != 0) by (bit_vector);
        }
        match send_connection_reply(db, config, from, capabilities, req.rcvbuf) {
            Ok(packet) => Greeting::Reply(packet),
            Err(_) => Greeting::Nothing,
        }
    } else if opcode == CMD_GO {
        Greeting::Start
    } else if opcode == CMD_DISCONNECT {
        let ghost before = *db;
        proof {
            db.lemma_wf();
        }
        let i: i32 = db.lookup_participant(from);
        if i >= 0 {
            let _ = db.remove_participant(i as usize);
        }
        proof {
            assert forall|j: int| 0 <= j < 1024 implies #[trigger] db@[j] == if before@[j].used
                && before@[j].addr == *from {
                ClientDesc { used: false, ..before@[j] }
            } else {
                before@[j]
            } by {
                if before@[j].used && before@[j].addr == *from && j != i {
                    assert(i >= 0);
                    assert(before.participants().contains(i as int));
                    assert(before.participants().contains(j));
                    before.law_addresses_distinct(i as int, j);
                }
            }
        }
        Greeting::Nothing
    } else {
        Greeting::Nothing
    }
}

/// Data goes straight to the receiver: where that is asked for, or where there is
/// one receiver only and nothing forbids it.
pub open spec fn straight(flags: u32, participants: int) -> bool {
    flagged(flags, FLAG_POINTOPOINT) || (!flagged(flags, FLAG_NOPOINTOPOINT) && !flagged(
        flags,
        FLAG_ASYNC,
    ) && participants == 1)
}

/// Whether data goes straight to the receiver.
pub fn is_point_to_point(db: &ParticipantsDb, flags: u32) -> (r: bool)
    requires
        db.wf(),
    ensures
        r == straight(flags, db.participants().len() as int),
{
    if flags & FLAG_POINTOPOINT != 0 {
        return true;
    }
    if flags & FLAG_NOPOINTOPOINT != 0 || flags & FLAG_ASYNC != 0 {
        return false;
    }
    db.nr_participants() == 1
}

/// Whether there are rules for how many receivers to wait for, and how long.
pub fn wait_for_receivers(config: &NetConfig) -> (r: bool)
    ensures
        r <==> config.min_receivers > 0 || config.min_receivers_wait > 0
            || config.max_receivers_wait > 0,
{
    config.min_receivers > 0 || config.min_receivers_wait > 0 || config.max_receivers_wait > 0
}

/// Whether the wait for receivers is over: the longest wait is, or enough of them
/// are there and the shortest wait is. `waited` is the time since the first one.
pub open spec fn wait_is_over(c: NetConfig, participants: int, waited: Option<u64>) -> bool {
    match waited {
        None => false,
        Some(t) => {
            &&& participants > 0
            &&& {
                ||| c.max_receivers_wait > 0 && t >= c.max_receivers_wait * 1_000_000
                ||| participants >= c.min_receivers && (c.min_receivers_wait <= 0 || t
                    >= c.min_receivers_wait * 1_000_000)
            }
        },
    }
}

/// The wait for receivers is not over before anybody is there; nor while fewer than
/// the least number take part, or the shortest wait lasts, unless the longest wait is
/// over. It is over once the least number take part and the shortest wait is over, and
/// once the longest wait is over and anybody takes part.
pub proof fn law_wait_for_receivers(c: NetConfig, participants: int, waited: u64)
    requires
        0 <= participants,
    ensures
        !wait_is_over(c, participants, None),
        !wait_is_over(c, 0, Some(waited)),
        participants < c.min_receivers && (c.max_receivers_wait <= 0 || waited
            < c.max_receivers_wait * 1_000_000) ==> !wait_is_over(c, participants, Some(waited)),
        waited < c.min_receivers_wait * 1_000_000 && (c.max_receivers_wait <= 0 || waited
            < c.max_receivers_wait * 1_000_000) ==> !wait_is_over(c, participants, Some(waited)),
        participants >= 1 && participants >= c.min_receivers && waited >= c.min_receivers_wait
            * 1_000_000 ==> wait_is_over(c, participants, Some(waited)),
        participants >= 1 && c.max_receivers_wait > 0 && waited >= c.max_receivers_wait * 1_000_000
            ==> wait_is_over(c, participants, Some(waited)),
{
}

/// Neither more receivers nor more time undoes that the wait is over.
pub proof fn law_waiting_longer_helps(c: NetConfig, few: int, many: int, early: u64, late: u64)
    requires
        few <= many,
        early <= late,
        wait_is_over(c, few, Some(early)),
    ensures
        wait_is_over(c, many, Some(late)),
{
}

/// Whether the wait for receivers is over.
pub fn check_client_wait(db: &ParticipantsDb, config: &NetConfig, waited: Option<u64>) -> (r: bool)
    requires
        db.wf(),
    ensures
        r == wait_is_over(*config, db.participants().len() as int, waited),
{
    let t: u64 = match waited {
        Some(t) => t,
        None => {
            return false;
        },
    };
    let nr: usize = db.nr_participants();
    proof {
        db.lemma_wf();
    }
    if nr == 0 {
        return false;
    }
    if config.max_receivers_wait > 0 && t >= config.max_receivers_wait as u64 * 1_000_000 {
        return true;
    }
    if nr as i64 >= config.min_receivers as i64 {
        return config.min_receivers_wait <= 0 || t >= config.min_receivers_wait as u64 * 1_000_000;
    }
    false
}

/// The time between two announcements, in milliseconds: as asked for, none for a
/// negative one, and the default for zero.
pub fn hello_interval_ms(config: &NetConfig) -> (r: Option<u64>)
    ensures
        r == if config.rexmit_hello_interval > 0 {
            Some(config.rexmit_hello_interval as u64)
        } else if config.rexmit_hello_interval < 0 {
            None
        } else {
            Some(DEFAULT_HELLO_INTERVAL_MS as u64)
        },
{
    if config.rexmit_hello_interval > 0 {
        Some(config.rexmit_hello_interval as u64)
    } else if config.rexmit_hello_interval < 0 {
        None
    } else {
        Some(DEFAULT_HELLO_INTERVAL_MS as u64)
    }
}

/// How long to wait for a message before looking again, in milliseconds; `None`
/// where nothing can become due.
pub fn tick_ms(config: &NetConfig, hello_interval: Option<u64>) -> (r: Option<u64>)
    ensures
        r == match hello_interval {
            Some(iv) => Some(iv),
            None => if config.min_receivers > 0 || config.min_receivers_wait > 0
                || config.max_receivers_wait > 0 || config.start_timeout > 0 {
                Some(2000u64)
            } else {
                None
            },
        },
{
    match hello_interval {
        Some(iv) => Some(iv),
        None => if wait_for_receivers(config) || config.start_timeout > 0 {
            Some(2000)
        } else {
            None
        },
    }
}

/// What a round of waiting for receivers ends in.
#[derive(Debug, Clone, Copy, PartialEq, Eq, Structural)]
pub enum Dispatch {
    Wait,
    Start,
    GiveUp,
}

/// What a round in which nothing came ends in, where `tries` announcements were made
/// with the one of this round.
pub open spec fn after_silence(
    c: NetConfig,
    participants: int,
    announcing: bool,
    tries: int,
    waited: Option<u64>,
    elapsed: int,
) -> Dispatch {
    if announcing && c.autostart != 0 && tries > c.autostart {
        Dispatch::Start
    } else if wait_is_over(c, participants, waited) {
        Dispatch::Start
    } else if c.start_timeout > 0 && elapsed >= c.start_timeout * 1_000_000 {
        Dispatch::GiveUp
    } else {
        Dispatch::Wait
    }
}

/// Silence begins a transfer exactly if more announcements were made than those after
/// which it is to begin, or the wait for receivers is over. The sender gives up only
/// where it was told how long to wait, and not before that time is over; then it does,
/// unless the transfer begins.
pub proof fn law_silence_ends_the_wait(
    c: NetConfig,
    participants: int,
    announcing: bool,
    tries: int,
    waited: Option<u64>,
    elapsed: int,
)
    requires
        0 <= participants,
        0 <= elapsed,
    ensures
        ({
            let d = after_silence(c, participants, announcing, tries, waited, elapsed);
            let announced_enough = announcing && c.autostart != 0 && tries >= c.autostart + 1;
            &&& announced_enough ==> d == Dispatch::Start
            &&& wait_is_over(c, participants, waited) ==> d == Dispatch::Start
            &&& d == Dispatch::Start && c.autostart == 0 ==> participants > 0
            &&& d == Dispatch::Start && !announced_enough ==> wait_is_over(c, participants, waited)
            &&& d == Dispatch::GiveUp ==> c.start_timeout > 0 && elapsed >= c.start_timeout
                * 1_000_000
            &&& c.start_timeout > 0 && elapsed >= c.start_timeout * 1_000_000 ==> d
                != Dispatch::Wait
            &&& c.start_timeout <= 0 ==> d != Dispatch::GiveUp
        }),
{
}

/// What to do when nothing came: with announcements on, one is sent and counted,
/// and after enough of them the transfer begins; it begins too when the wait for
/// receivers is over; and after too long a time nobody waits any more.
pub fn on_silence(
    config: &NetConfig,
    db: &ParticipantsDb,
    announcing: bool,
    hello_tries: &mut i32,
    waited: Option<u64>,
    elapsed: u64,
) -> (r: Dispatch)
    requires
        db.wf(),
        announcing ==> *old(hello_tries) < i32::MAX,
    ensures
        *final(hello_tries) == if announcing {
            *old(hello_tries) + 1
        } else {
            *old(hello_tries) as int
        },
        r == if announcing && config.autostart != 0 && *old(hello_tries) + 1 > config.autostart {
            Dispatch::Start
        } else if wait_is_over(*config, db.participants().len() as int, waited) {
            Dispatch::Start
        } else if config.start_timeout > 0 && elapsed >= config.start_timeout * 1_000_000 {
            Dispatch::GiveUp
        } else {
            Dispatch::Wait
        },
        r == after_silence(
            *config,
            db.participants().len() as int,
            announcing,
            *old(hello_tries) + 1,
            waited,
            elapsed as int,
        ),
{
    if announcing {
        *hello_tries = *hello_tries + 1;
        if config.autostart != 0 && *hello_tries > config.autostart {
            return Dispatch::Start;
        }
    }
    if check_client_wait(db, config, waited) {
        return Dispatch::Start;
    }
    if config.start_timeout > 0 && elapsed >= config.start_timeout as u64 * 1_000_000 {
        return Dispatch::GiveUp;
    }
    Dispatch::Wait
}

/// A sender that waits for receivers.
pub struct Lobby {
    pub db: ParticipantsDb,
    /// How many announcements were made.
    pub hello_tries: i32,
    /// When the first receiver was seen.
    pub first_connected: Option<u64>,
    /// When the wait began.
    pub begun: u64,
}

impl Lobby {
    /// How long the first receiver has waited.
    pub open spec fn waited(self, now: u64) -> Option<u64> {
        match self.first_connected {
            Some(t) => Some(since(t, now) as u64),
            None => None,
        }
    }

    /// A wait that begins now.
    pub fn new(now: u64) -> (r: Self)
        ensures
            r.db.wf(),
            r.db.participants() == Set::<int>::empty(),
            r.hello_tries == 0,
            r.first_connected is None,
            r.begun == now,
    {
        let db = ParticipantsDb::new();
        assert(db.participants() =~= Set::<int>::empty());
        Lobby { db, hello_tries: 0, first_connected: None, begun: now }
    }

    /// Begins a round: notes when the first receiver is there.
    pub fn begin_round(&mut self, now: u64)
        requires
            old(self).db.wf(),
        ensures
            *final(self) == (Lobby {
                first_connected: if old(self).first_connected is None && old(
                    self,
                ).db.participants().len() > 0 {
                    Some(now)
                } else {
                    old(self).first_connected
                },
                ..*old(self)
            }),
    {
        if self.first_connected.is_none() && self.db.nr_participants() > 0 {
            self.first_connected = Some(now);
        }
    }

    /// The time since the first receiver was seen.
    fn waiting_time(&self, now: u64) -> (r: Option<u64>)
        ensures
            r == self.waited(now),
    {
        match self.first_connected {
            Some(t) => Some(
                if now >= t {
                    now - t
                } else {
                    0
                },
            ),
            None => None,
        }
    }

    /// Ends a round in which nothing came.
    pub fn silence(&mut self, config: &NetConfig, now: u64) -> (r: Dispatch)
        requires
            old(self).db.wf(),
            config.rexmit_hello_interval >= 0 ==> old(self).hello_tries < i32::MAX,
        ensures
            *final(self) == (Lobby {
                hello_tries: if config.rexmit_hello_interval >= 0 {
                    (old(self).hello_tries + 1) as i32
                } else {
                    old(self).hello_tries
                },
                ..*old(self)
            }),
            r == if config.rexmit_hello_interval >= 0 && config.autostart != 0 && old(
                self,
            ).hello_tries + 1 > config.autostart {
                Dispatch::Start
            } else if wait_is_over(
                *config,
                old(self).db.participants().len() as int,
                old(self).waited(now),
            ) {
                Dispatch::Start
            } else if config.start_timeout > 0 && since(old(self).begun, now)
                >= config.start_timeout * 1_000_000 {
                Dispatch::GiveUp
            } else {
                Dispatch::Wait
            },
            r == after_silence(
                *config,
                old(self).db.participants().len() as int,
                config.rexmit_hello_interval >= 0,
                old(self).hello_tries + 1,
                old(self).waited(now),
                since(old(self).begun, now),
            ),
    {
        let waited = self.waiting_time(now);
        let announcing: bool = hello_interval_ms(config).is_some();
        let elapsed: u64 = if now >= self.begun {
            now - self.begun
        } else {
            0
        };
        let mut tries: i32 = self.hello_tries;
        let r = on_silence(config, &self.db, announcing, &mut tries, waited, elapsed);
        self.hello_tries = tries;
        r
    }

    /// Ends a round in which messages came, none of which begins the transfer.
    pub fn end_round(&self, config: &NetConfig, now: u64) -> (r: Dispatch)
        requires
            self.db.wf(),
        ensures
            r == if wait_is_over(
                *config,
                self.db.participants().len() as int,
                self.waited(now),
            ) {
                Dispatch::Start
            } else {
                Dispatch::Wait
            },
    {
        if check_client_wait(&self.db, config, self.waiting_time(now)) {
            Dispatch::Start
        } else {
            Dispatch::Wait
        }
    }
}

/// What a key does.
#[derive(Debug, Clone, Copy, PartialEq, Eq, Structural)]
pub enum KeyPress {
    Nothing,
    Start,
    Cancel,
}

/// What a key does: `q` cancels, any other begins the transfer. The end of the
/// keyboard's input is no key.
pub fn on_key(key: Option<u8>) -> (r: KeyPress)
    ensures
        r == match key {
            None => KeyPress::Nothing,
            Some(k) => if k == 113 {
                KeyPress::Cancel
            } else {
                KeyPress::Start
            },
        },
{
    match key {
        None => KeyPress::Nothing,
        Some(k) => if k == 113 {
            KeyPress::Cancel
        } else {
            KeyPress::Start
        },
    }
}

/// Whether to ask for a key: once, and only where a transfer could begin.
pub fn prompt_due(printed: bool, config: &NetConfig, db: &ParticipantsDb) -> (r: bool)
    requires
        db.wf(),
    ensures
        r <==> !printed && !flagged(config.flags, FLAG_NOKBD) && (db.participants().len() > 0
            || flagged(config.flags, FLAG_ASYNC)),
{
    !printed && config.flags & FLAG_NOKBD == 0 && (db.nr_participants() > 0 || config.flags
        & FLAG_ASYNC != 0)
}

/// Whether there is anybody to send to.
pub fn can_transfer(config: &NetConfig, db: &ParticipantsDb) -> (r: bool)
    requires
        db.wf(),
    ensures
        r <==> db.participants().len() > 0 || flagged(config.flags, FLAG_ASYNC),
{
    db.nr_participants() > 0 || config.flags & FLAG_ASYNC != 0
}

/// Why a transfer cannot be.
#[derive(Debug, Clone, Copy, PartialEq, Eq, Structural)]
pub enum TransferError {
    /// It was to be for one participant, and there are this many.
    NotAlone(usize),
    /// A participant speaks the little endian protocol.
    LittleEndian,
}

/// The capabilities that the first `n` participants share with `capabilities`.
pub open spec fn common_capabilities(table: Seq<ClientDesc>, capabilities: u32, n: nat) -> u32
    decreases n,
{
    if n == 0 {
        capabilities
    } else {
        let c = common_capabilities(table, capabilities, (n - 1) as nat);
        if table[n - 1].used {
            c & table[n - 1].capabilities
        } else {
            c
        }
    }
}

/// The smallest receive buffer that the first `n` participants named; zero if
/// none did.
pub open spec fn smallest_rcvbuf(table: Seq<ClientDesc>, n: nat) -> u32
    decreases n,
{
    if n == 0 {
        0
    } else {
        let r = smallest_rcvbuf(table, (n - 1) as nat);
        let p = table[n - 1].rcvbuf;
        if table[n - 1].used && p != 0 && (r == 0 || r > p) {
            p
        } else {
            r
        }
    }
}

/// The address of the last of the first `n` participants, or `ip`.
pub open spec fn last_address(table: Seq<ClientDesc>, ip: Ipv4Addr, n: nat) -> Ipv4Addr
    decreases n,
{
    if n == 0 {
        ip
    } else if table[n - 1].used {
        table[n - 1].addr.ip
    } else {
        last_address(table, ip, (n - 1) as nat)
    }
}

/// The settings of the transfer to the participants of `table`.
pub open spec fn settled(c: NetConfig, table: Seq<ClientDesc>) -> NetConfig {
    NetConfig {
        rcvbuf: smallest_rcvbuf(table, 1024),
        capabilities: common_capabilities(table, c.capabilities, 1024),
        data_mcast_addr: SocketAddrV4 {
            ip: if straight(c.flags, members(table).len() as int) {
                last_address(table, c.data_mcast_addr.ip, 1024)
            } else {
                c.data_mcast_addr.ip
            },
            port: c.data_mcast_addr.port,
        },
        ..c
    }
}

/// Fits the settings to the participants.
pub fn prepare_transfer(config: &mut NetConfig, db: &ParticipantsDb) -> (r: Result<
    (),
    TransferError,
>)
    requires
        db.wf(),
    ensures
        if flagged(old(config).flags, FLAG_POINTOPOINT) && db.participants().len() != 1 {
            &&& r == Err::<(), TransferError>(
                TransferError::NotAlone(db.participants().len() as usize),
            )
            &&& *final(config) == *old(config)
        } else {
            &&& *final(config) == settled(*old(config), db@)
            &&& r == if flagged(settled(*old(config), db@).capabilities, CAP_BIG_ENDIAN) {
                Ok::<(), TransferError>(())
            } else {
                Err::<(), TransferError>(TransferError::LittleEndian)
            }
        },
{
    let p2p: bool = is_point_to_point(db, config.flags);
    proof {
        db.lemma_wf();
    }
    if config.flags & FLAG_POINTOPOINT != 0 {
        let nr: usize = db.nr_participants();
        if nr != 1 {
            return Err(TransferError::NotAlone(nr));
        }
    }
    let ghost c = *config;
    config.rcvbuf = 0;
    let mut i: usize = 0;
    while i < 1024
        invariant
            i <= 1024,
            db.wf(),
            db@.len() == 1024,
            p2p == straight(c.flags, members(db@).len() as int),
            *config == (NetConfig {
                rcvbuf: smallest_rcvbuf(db@, i as nat),
                capabilities: common_capabilities(db@, c.capabilities, i as nat),
                data_mcast_addr: SocketAddrV4 {
                    ip: if p2p {
                        last_address(db@, c.data_mcast_addr.ip, i as nat)
                    } else {
                        c.data_mcast_addr.ip
                    },
                    port: c.data_mcast_addr.port,
                },
                ..c
            }),
        decreases 1024 - i,
    {
        if db.is_participant_valid(i) {
            if p2p {
                if let Some(addr) = db.get_participant_ip(i) {
                    config.data_mcast_addr = SocketAddrV4 {
                        ip: addr.ip,
                        port: config.data_mcast_addr.port,
                    };
                }
            }
            config.capabilities = config.capabilities & db.get_participant_capabilities(i);
            let p: u32 = db.get_participant_rcvbuf(i);
            if p != 0 && (config.rcvbuf == 0 || config.rcvbuf > p) {
                config.rcvbuf = p;
            }
        }
        i += 1;
    }
    if config.capabilities & CAP_BIG_ENDIAN == 0 {
        Err(TransferError::LittleEndian)
    } else {
        Ok(())
    }
}

/// After a transfer nobody takes part any more.
pub fn clear_participants(db: &mut ParticipantsDb)
    requires
        old(db).wf(),
    ensures
        final(db).wf(),
        final(db)@ == Seq::new(
            1024,
            |i: int| ClientDesc { used: false, ..old(db)@[i] },
        ),
{
    let ghost before = *db;
    proof {
        db.lemma_wf();
    }
    let mut i: usize = 0;
    while i < 1024
        invariant
            i <= 1024,
            db.wf(),
            db@.len() == 1024,
            before@.len() == 1024,
            forall|j: int|
                0 <= j < 1024 ==> #[trigger] db@[j] == if j < i {
                    ClientDesc { used: false, ..before@[j] }
                } else {
                    before@[j]
                },
        decreases 1024 - i,
    {
        let _ = db.remove_participant(i);
        i += 1;
    }
    assert(db@ =~= Seq::new(1024, |i: int| ClientDesc { used: false, ..before@[i] }));
}

/// A capability is used in a transfer exactly if the sender and every participant has
/// it. `bit` is one of the 32 capabilities.
pub proof fn law_what_all_can_is_used(table: Seq<ClientDesc>, capabilities: u32, n: nat, bit: u32)
    requires
        n <= table.len(),
        bit < 32,
    ensures
        flagged(common_capabilities(table, capabilities, n), 1u32 << bit) <==> flagged(
            capabilities,
            1u32 << bit,
        ) && forall|i: int|
            0 <= i < n && (#[trigger] table[i]).used ==> flagged(
                table[i].capabilities,
                1u32 << bit,
            ),
    decreases n,
{
    if n > 0 {
        let m = (n - 1) as nat;
        law_what_all_can_is_used(table, capabilities, m, bit);
        let c = common_capabilities(table, capabilities, m);
        let d = table[n - 1].capabilities;
        assert((c & d) & (1u32 << bit) != 0 <==> (c & (1u32 << bit) != 0 && d & (1u32 << bit) != 0))
            by (bit_vector)
            requires
                bit < 32,
        ;
        assert(table[n - 1].used ==> (flagged(
            common_capabilities(table, capabilities, n),
            1u32 << bit,
        ) ==> flagged(table[n - 1].capabilities, 1u32 << bit)));
    }
}

/// The receive buffer that counts is the smallest that any participant named, and zero
/// if none named one.
pub proof fn law_the_smallest_buffer_counts(table: Seq<ClientDesc>, n: nat)
    requires
        n <= table.len(),
    ensures
        ({
            let r = smallest_rcvbuf(table, n);
            &&& forall|i: int|
                0 <= i < n && (#[trigger] table[i]).used && table[i].rcvbuf > 0 ==> 0 < r
                    <= table[i].rcvbuf
            &&& r > 0 ==> exists|i: int|
                0 <= i < n && (#[trigger] table[i]).used && table[i].rcvbuf == r
        }),
    decreases n,
{
    if n > 0 {
        let m = (n - 1) as nat;
        law_the_smallest_buffer_counts(table, m);
        let r = smallest_rcvbuf(table, m);
        if smallest_rcvbuf(table, n) == r {
            if r > 0 {
                let i = choose|i: int|
                    0 <= i < m && (#[trigger] table[i]).used && table[i].rcvbuf == r;
                assert(table[i].used && table[i].rcvbuf == r);
            }
        } else {
            assert(table[n - 1].used && table[n - 1].rcvbuf == smallest_rcvbuf(table, n));
        }
    }
}

/// Where one receiver takes part, data goes straight to it unless that is forbidden or
/// nobody answers; to several it goes to the group, unless straight was asked for.
pub proof fn law_where_data_goes(c: NetConfig, table: Seq<ClientDesc>, i: int)
    requires
        table.len() == 1024,
        members(table) == set![i],
    ensures
        settled(c, table).data_mcast_addr.port == c.data_mcast_addr.port,
        flagged(c.flags, FLAG_POINTOPOINT) || !(flagged(c.flags, FLAG_NOPOINTOPOINT) || flagged(
            c.flags,
            FLAG_ASYNC,
        )) ==> settled(c, table).data_mcast_addr.ip == table[i].addr.ip,
        !flagged(c.flags, FLAG_POINTOPOINT) && (flagged(c.flags, FLAG_NOPOINTOPOINT) || flagged(
            c.flags,
            FLAG_ASYNC,
        )) ==> settled(c, table).data_mcast_addr == c.data_mcast_addr,
{
    assert(members(table).len() == 1);
    assert(members(table).contains(i));
    lemma_last_address(table, c.data_mcast_addr.ip, i, 1024);
}

/// Data for several receivers goes to where all of them listen.
pub proof fn law_several_receivers_share_the_group(c: NetConfig, table: Seq<ClientDesc>)
    requires
        members(table).len() != 1,
        !flagged(c.flags, FLAG_POINTOPOINT),
    ensures
        settled(c, table).data_mcast_addr == c.data_mcast_addr,
{
}

/// The address of the only participant.
proof fn lemma_last_address(table: Seq<ClientDesc>, ip: Ipv4Addr, i: int, n: nat)
    requires
        n <= table.len(),
        members(table) == set![i],
    ensures
        last_address(table, ip, n) == if 0 <= i < n {
            table[i].addr.ip
        } else {
            ip
        },
    decreases n,
{
    if n > 0 {
        lemma_last_address(table, ip, i, (n - 1) as nat);
        assert(members(table).contains(n - 1) <==> table[n - 1].used);
    }
}

/// What a transfer begins with: of the participants' capabilities and the sender's those
/// that all of them have, and the smallest receive buffer that any of them named; the rest
/// of the settings, but for where data goes, is as it was.
pub proof fn law_what_a_transfer_begins_with(c: NetConfig, table: Seq<ClientDesc>, i: int, bit: u32)
    requires
        table.len() == 1024,
        0 <= i < 1024,
        table[i].used,
        bit < 32,
    ensures
        ({
            let s = settled(c, table);
            &&& table[i].rcvbuf > 0 ==> 0 < s.rcvbuf <= table[i].rcvbuf
            &&& s.rcvbuf > 0 ==> exists|j: int|
                0 <= j < 1024 && (#[trigger] table[j]).used && table[j].rcvbuf == s.rcvbuf
            &&& flagged(s.capabilities, 1u32 << bit) ==> flagged(c.capabilities, 1u32 << bit)
                && flagged(table[i].capabilities, 1u32 << bit)
            &&& flagged(c.capabilities, 1u32 << bit) && (forall|j: int|
                0 <= j < 1024 && (#[trigger] table[j]).used ==> flagged(
                    table[j].capabilities,
                    1u32 << bit,
                )) ==> flagged(s.capabilities, 1u32 << bit)
            &&& s == (NetConfig {
                rcvbuf: s.rcvbuf,
                capabilities: s.capabilities,
                data_mcast_addr: s.data_mcast_addr,
                ..c
            })
        }),
{
    law_the_smallest_buffer_counts(table, 1024);
    law_what_all_can_is_used(table, c.capabilities, 1024, bit);
}

/// A receiver that names no receive buffer counts as one with 64 KiB.
pub proof fn law_unnamed_buffers(rcvbuf: u32)
    ensures
        counted_rcvbuf(rcvbuf) > 0,
        counted_rcvbuf(rcvbuf) != rcvbuf ==> rcvbuf == 0 && counted_rcvbuf(rcvbuf) == 64 * 1024,
{
}

/// Data goes to the group that was asked for; where none was, to that of the interface,
/// but not where data goes straight to a receiver.
pub proof fn law_the_group_for_data(c: NetConfig, net_if: NetIf)
    ensures
        c.data_mcast_addr.ip != Ipv4Addr::zero() ==> data_ip(c, net_if) == c.data_mcast_addr.ip,
        c.data_mcast_addr.ip == Ipv4Addr::zero() && flagged(c.flags, FLAG_POINTOPOINT) ==> data_ip(
            c,
            net_if,
        ) == Ipv4Addr::zero(),
        c.data_mcast_addr.ip == Ipv4Addr::zero() && !flagged(c.flags, FLAG_POINTOPOINT) ==> data_ip(
            c,
            net_if,
        ) == default_group(net_if.addr),
{
}

/// A receiver that is known is told its number again, and nothing changes. Another one
/// is entered with what it said of itself, or refused where there is no room; whatever
/// comes, nobody else's entry changes.
pub proof fn law_who_is_registered(
    before: Seq<ClientDesc>,
    after: Seq<ClientDesc>,
    client: SocketAddrV4,
    capabilities: u32,
    rcvbuf: u32,
    pointopoint: bool,
    r: i32,
    i: int,
)
    requires
        before.len() == 1024,
        registered(before, after, client, capabilities, rcvbuf, pointopoint, r),
        0 <= i < 1024,
    ensures
        -1 <= r < 1024,
        after.len() == 1024,
        i != r ==> after[i] == before[i],
        before[i].used && before[i].addr == client ==> r >= 0 && after == before,
        r >= 0 ==> after[r as int].used && after[r as int].addr == client,
        r >= 0 && !before[r as int].used ==> after[r as int].capabilities == capabilities
            && after[r as int].rcvbuf == rcvbuf && !after[r as int].ever_answered,
        r >= 0 && before[r as int].used ==> before[r as int].addr == client && after == before,
        r == -1 ==> after == before && (before[i].used || (pointopoint && before[0].used)),
{
}

/// How long the first receiver has waited is counted from when it was seen.
pub proof fn law_the_wait_is_counted(l: Lobby, now: u64)
    ensures
        l.first_connected is None <==> l.waited(now) is None,
        l.first_connected matches Some(t) ==> (now >= t ==> l.waited(now) == Some((now - t) as u64)),
{
}

} // verus!
