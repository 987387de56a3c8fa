//! Sending a file to all participants.
//!
//! Data goes out in slices. A slice is kept until every participant has
//! acknowledged it; blocks that somebody misses are sent again.

use crate::addr::SocketAddrV4;
use crate::bitmap::BitMap;
use crate::produconsum::{ProduceError, Produconsum};
use crate::protocol::{
    address_field, hello_bytes, ip4_into_16, law_reqack_round_trip, Hello, Reqack, CAP_ASYNC,
    CAP_FEC, CMD_HELLO_NEW, CMD_HELLO_STREAMING, SENDER_CAPABILITIES,
};
use crate::sendslice::{count_blocks, lemma_blocks, nr_blocks, Slice, SliceModel, SliceState};
use crate::socklib::NetIf;
use crate::statistics::{Bandwidth, SenderStats};
use crate::wire::{i32_at, signed32, to_signed32, u16_at};
use vstd::prelude::*;

verus! {

/// How many slices the sender can hold.
pub const NR_SLICES: usize = 8;

/// Send and receive at once: more than one slice may be under way.
pub const FLAG_SN: u32 = 0x0001;

/// Never send while an answer is due.
pub const FLAG_NOTSN: u32 = 0x0002;

/// Receivers do not answer.
pub const FLAG_ASYNC: u32 = 0x0004;

/// There is one receiver, and data goes straight to it.
pub const FLAG_POINTOPOINT: u32 = 0x0008;

/// Parity is sent along.
pub const FLAG_FEC: u32 = 0x0010;

/// Data goes to the broadcast address.
pub const FLAG_BCAST: u32 = 0x0020;

/// Data goes to the group even if there is one receiver only.
pub const FLAG_NOPOINTOPOINT: u32 = 0x0040;

/// The keyboard does not start a transfer.
pub const FLAG_NOKBD: u32 = 0x0080;

/// Receivers may join at any time.
pub const FLAG_STREAMING: u32 = 0x0100;

/// The receiver stays silent.
pub const FLAG_PASSIVE: u32 = 0x0010;

/// The receiver goes on after lost data.
pub const FLAG_IGNORE_LOST_DATA: u32 = 0x0400;

/// The time between two progress lines, in microseconds.
pub const DEFAULT_STAT_PERIOD: i64 = 500_000;

/// Which way the slice size goes.
#[derive(Debug, Clone, Copy, PartialEq, Eq, Structural)]
pub enum Discovery {
    Doubling,
    Reducing,
}

/// The settings of a transfer.
pub struct NetConfig {
    pub net_if: Option<NetIf>,
    pub port_base: u16,
    pub block_size: u32,
    pub slice_size: u32,
    pub control_mcast_addr: SocketAddrV4,
    pub data_mcast_addr: SocketAddrV4,
    pub mcast_rdv: Option<String>,
    pub ttl: i32,
    pub flags: u32,
    pub capabilities: u32,
    pub min_slice_size: u32,
    pub default_slice_size: u32,
    pub max_slice_size: u32,
    pub rcvbuf: u32,
    pub rexmit_hello_interval: i32,
    pub autostart: i32,
    pub requested_buf_size: u32,
    pub min_receivers: i32,
    pub max_receivers_wait: i32,
    pub min_receivers_wait: i32,
    pub retries_until_drop: i32,
    pub rehello_offset: i32,
    pub start_timeout: i32,
    pub discovery: Discovery,
    pub fec_stripes: u32,
    pub fec_redundancy: u32,
    pub fec_stripesize: u32,
    pub max_bitrate: Option<String>,
    pub autorate: bool,
}

/// Whether `flag` is among `flags`.
pub open spec fn flagged(flags: u32, flag: u32) -> bool {
    flags & flag != 0
}

/// The sender's capabilities.
pub open spec fn capabilities_for(flags: u32) -> u32 {
    let c = if flagged(flags, FLAG_FEC) {
        SENDER_CAPABILITIES | CAP_FEC
    } else {
        SENDER_CAPABILITIES
    };
    if flagged(flags, FLAG_ASYNC) {
        c | CAP_ASYNC
    } else {
        c
    }
}

/// What the sender says it can do, in every HELLO and CONNECT_REPLY: parity and
/// asynchronous mode are named while they are in use.
pub fn sender_capabilities(flags: u32) -> (r: u32)
    ensures
        r == capabilities_for(flags),
{
    let mut caps: u32 = SENDER_CAPABILITIES;
    if flags & FLAG_FEC != 0 {
        caps = caps | CAP_FEC;
    }
    if flags & FLAG_ASYNC != 0 {
        caps = caps | CAP_ASYNC;
    }
    caps
}

/// The word of a sender names parity exactly while it is in use, and
/// asynchronous mode likewise; other flags leave it alone.
pub proof fn law_capabilities_tell_the_truth(flags: u32)
    ensures
        flagged(capabilities_for(flags), CAP_FEC) <==> flagged(flags, FLAG_FEC),
        flagged(capabilities_for(flags), CAP_ASYNC) <==> flagged(flags, FLAG_ASYNC),
        capabilities_for(flags) & !(CAP_FEC | CAP_ASYNC) == SENDER_CAPABILITIES,
{
    assert(0x0009u32 & 0x0004 == 0 && 0x0009u32 & 0x0020 == 0 && (0x0009u32 | 0x0004) & 0x0004 != 0
        && (0x0009u32 | 0x0004) & 0x0020 == 0 && (0x0009u32 | 0x0020) & 0x0004 == 0 && (0x0009u32
        | 0x0020) & 0x0020 != 0 && (0x0009u32 | 0x0004 | 0x0020) & 0x0004 != 0 && (0x0009u32
        | 0x0004 | 0x0020) & 0x0020 != 0 && 0x0009u32 & !(0x0004u32 | 0x0020) == 0x0009 && (
    0x0009u32 | 0x0004) & !(0x0004u32 | 0x0020) == 0x0009 && (0x0009u32 | 0x0020) & !(0x0004u32
        | 0x0020) == 0x0009 && (0x0009u32 | 0x0004 | 0x0020) & !(0x0004u32 | 0x0020) == 0x0009)
        by (bit_vector);
}

/// The announcement of a transfer, as it goes to the control address.
pub fn hello_packet(config: &NetConfig, streaming: bool) -> (r: [u8; 28])
    ensures
        r@ == hello_bytes(
            if streaming {
                CMD_HELLO_STREAMING
            } else {
                CMD_HELLO_NEW
            },
            config.capabilities,
            address_field(config.data_mcast_addr.ip),
            signed32(config.block_size),
        ),
{
    let opcode: u16 = if streaming {
        CMD_HELLO_STREAMING
    } else {
        CMD_HELLO_NEW
    };
    let hello = Hello {
        capabilities: config.capabilities,
        mcast: ip4_into_16(config.data_mcast_addr.ip),
        block_size: to_signed32(config.block_size),
    };
    hello.pack(opcode)
}

/// The slice size to begin with, before the limits.
pub open spec fn wished_slice_size(c: NetConfig) -> int {
    if c.default_slice_size != 0 {
        c.default_slice_size as int
    } else if flagged(c.flags, FLAG_FEC) {
        c.fec_stripesize * c.fec_stripes
    } else if flagged(c.flags, FLAG_ASYNC) {
        1024
    } else if flagged(c.flags, FLAG_SN) {
        112
    } else {
        130
    }
}

/// The smaller of two numbers.
pub open spec fn smaller(a: int, b: int) -> int {
    if a < b {
        a
    } else {
        b
    }
}

/// The highest slice size: with parity a stripe has no more than 128 blocks.
pub open spec fn highest_slice_size(c: NetConfig) -> int {
    if flagged(c.flags, FLAG_FEC) {
        smaller(c.max_slice_size as int, 128 * c.fec_stripes)
    } else {
        c.max_slice_size as int
    }
}

/// The settings with the slice size to begin with.
pub open spec fn with_first_slice_size(c: NetConfig) -> NetConfig {
    NetConfig {
        slice_size: smaller(wished_slice_size(c), highest_slice_size(c)) as u32,
        max_slice_size: highest_slice_size(c) as u32,
        discovery: if c.default_slice_size == 0 {
            Discovery::Doubling
        } else {
            c.discovery
        },
        ..c
    }
}

/// With parity, the slice sizes that come of its stripes can be counted.
pub open spec fn parity_fits(c: NetConfig) -> bool {
    flagged(c.flags, FLAG_FEC) ==> {
        &&& 128 * c.fec_stripes <= u32::MAX
        &&& c.default_slice_size == 0 ==> c.fec_stripesize * c.fec_stripes <= u32::MAX
    }
}

/// Chooses the slice size to begin with.
pub fn init_slice_size(config: &mut NetConfig)
    requires
        parity_fits(*old(config)),
    ensures
        *final(config) == with_first_slice_size(*old(config)),
{
    if config.default_slice_size == 0 {
        if config.flags & FLAG_FEC != 0 {
            config.slice_size = config.fec_stripesize * config.fec_stripes;
        } else if config.flags & FLAG_ASYNC != 0 {
            config.slice_size = 1024;
        } else if config.flags & FLAG_SN != 0 {
            config.slice_size = 112;
        } else {
            config.slice_size = 130;
        }
        config.discovery = Discovery::Doubling;
    } else {
        config.slice_size = config.default_slice_size;
    }
    if config.flags & FLAG_FEC != 0 && config.slice_size > 128 * config.fec_stripes {
        config.slice_size = 128 * config.fec_stripes;
    }
    if config.flags & FLAG_FEC != 0 && config.max_slice_size > 128 * config.fec_stripes {
        config.max_slice_size = 128 * config.fec_stripes;
    }
    if config.slice_size > config.max_slice_size {
        config.slice_size = config.max_slice_size;
    }
}

/// How many slices may be under way.
pub open spec fn max_in_flight(flags: u32) -> int {
    if flagged(flags, FLAG_NOTSN) || !flagged(flags, FLAG_SN) {
        1
    } else {
        3
    }
}

/// The settings after a slice was acknowledged: while no loss was seen the slice
/// size grows by a quarter, up to the highest.
pub open spec fn grown(c: NetConfig) -> NetConfig {
    if !flagged(c.flags, FLAG_SN) && c.discovery == Discovery::Doubling {
        let size = c.slice_size + c.slice_size / 4;
        if size >= c.max_slice_size {
            NetConfig { slice_size: c.max_slice_size, discovery: Discovery::Reducing, ..c }
        } else {
            NetConfig { slice_size: size as u32, ..c }
        }
    } else {
        c
    }
}

/// The slice size grows, and never beyond the highest.
pub proof fn law_slices_grow_to_the_highest(c: NetConfig)
    requires
        c.slice_size <= c.max_slice_size,
    ensures
        c.slice_size <= grown(c).slice_size <= c.max_slice_size,
        !flagged(c.flags, FLAG_SN) && c.discovery == Discovery::Doubling && 4 <= c.slice_size
            < c.max_slice_size ==> grown(c).slice_size > c.slice_size,
{
}

/// While no loss was seen, and where one slice is under way at a time, slices grow by a
/// quarter, rounded down, until they are of the highest size; otherwise their size stays.
pub proof fn law_slices_grow_by_a_quarter(c: NetConfig)
    requires
        c.slice_size <= c.max_slice_size <= 1024,
    ensures
        ({
            let g = grown(c);
            &&& flagged(c.flags, FLAG_SN) || c.discovery == Discovery::Reducing ==> g == c
            &&& !flagged(c.flags, FLAG_SN) && c.discovery == Discovery::Doubling ==> {
                &&& g.slice_size == c.max_slice_size || 0 <= c.slice_size - 4 * (g.slice_size
                    - c.slice_size) < 4
                &&& g.slice_size == c.max_slice_size <==> g.discovery == Discovery::Reducing
                &&& 4 * (g.slice_size - c.slice_size) <= c.slice_size
            }
            &&& g.max_slice_size == c.max_slice_size
            &&& g.block_size == c.block_size
            &&& g.flags == c.flags
        }),
{
}

/// A loss in the midst of a slice makes slices smaller, by half at most: down to the
/// blocks that came through, but not below 32. Without one their size stays.
pub proof fn law_slices_shrink_after_a_loss(c: NetConfig, s: SliceModel)
    requires
        0 < c.block_size,
        0 <= s.bytes <= c.block_size * 1024,
        c.slice_size <= 1024,
    ensures
        ({
            let size = shrunk(c, s).slice_size;
            let loss = !flagged(c.flags, FLAG_ASYNC) && s.rxmit_id != 0 && s.last_good > 0
                && s.last_good < nr_blocks(s.bytes, c.block_size as int);
            &&& !loss ==> shrunk(c, s) == c
            &&& loss ==> {
                &&& size >= 32
                &&& 2 * size + 1 >= c.slice_size
                &&& size >= s.last_good
                &&& size == 32 || size == s.last_good || (2 * size <= c.slice_size)
                &&& shrunk(c, s).discovery == Discovery::Reducing
            }
        }),
{
    lemma_blocks(s.bytes, c.block_size as int);
}

/// The size to begin with is the one that was asked for, or else one for the mode, and
/// never above the highest; with parity no stripe has more than 128 blocks.
pub proof fn law_first_slices(c: NetConfig)
    requires
        parity_fits(c),
    ensures
        ({
            let f = with_first_slice_size(c);
            &&& f.slice_size <= f.max_slice_size <= c.max_slice_size
            &&& flagged(c.flags, FLAG_FEC) ==> f.max_slice_size <= 128 * c.fec_stripes
            &&& f.max_slice_size == c.max_slice_size || f.max_slice_size == 128 * c.fec_stripes
            &&& !flagged(c.flags, FLAG_FEC) ==> f.max_slice_size == c.max_slice_size
            &&& c.default_slice_size > 0 ==> f.slice_size == c.default_slice_size || (f.slice_size
                == f.max_slice_size && f.slice_size < c.default_slice_size)
            &&& c.default_slice_size == 0 ==> f.discovery == Discovery::Doubling
            &&& c.default_slice_size > 0 ==> f.discovery == c.discovery
            &&& c.default_slice_size == 0 && f.slice_size < f.max_slice_size ==> f.slice_size
                == if flagged(c.flags, FLAG_FEC) {
                c.fec_stripesize * c.fec_stripes
            } else if flagged(c.flags, FLAG_ASYNC) {
                1024
            } else if flagged(c.flags, FLAG_SN) {
                112
            } else {
                130
            }
        }),
{
}

/// More than one slice is under way only where both sides may send at once; and then
/// three.
pub proof fn law_how_many_slices_are_under_way(flags: u32)
    ensures
        max_in_flight(flags) == 1 || max_in_flight(flags) == 3,
        max_in_flight(flags) == 3 <==> flagged(flags, FLAG_SN) && !flagged(flags, FLAG_NOTSN),
{
}

/// The larger of two numbers.
pub open spec fn larger(a: int, b: int) -> int {
    if a < b {
        b
    } else {
        a
    }
}

/// The settings when a slice goes into another round: after a loss in its midst
/// the slice size shrinks to the blocks that came through, by half at most,
/// though not below 32.
pub open spec fn shrunk(c: NetConfig, s: SliceModel) -> NetConfig {
    if !flagged(c.flags, FLAG_ASYNC) && s.rxmit_id != 0 && 0 < s.last_good < nr_blocks(
        s.bytes,
        c.block_size as int,
    ) {
        NetConfig {
            slice_size: larger(larger(c.slice_size as int / 2, s.last_good), 32) as u32,
            discovery: Discovery::Reducing,
            ..c
        }
    } else {
        c
    }
}

/// A slice at the start of a round: those who have it count as having answered,
/// and nobody misses anything yet.
pub open spec fn asked(s: SliceModel) -> SliceModel {
    SliceModel {
        last_good: 0,
        answered: s.ready,
        need_rxmit: false,
        rxmit: Set::empty(),
        xmitted: Set::empty(),
        ..s
    }
}

/// The request for answers about a slice.
pub open spec fn request(s: SliceModel) -> Seq<u8> {
    (Reqack { slice_no: s.slice_no, bytes: s.bytes as i32, rxmit: s.rxmit_id }).encoded()
}

/// Settings that a transfer can run with.
pub open spec fn config_ok(c: NetConfig) -> bool {
    &&& 0 < c.block_size
    &&& c.block_size * 1024 <= i32::MAX
    &&& c.slice_size <= 1024
    &&& c.max_slice_size <= 1024
    &&& flagged(c.flags, FLAG_FEC) ==> {
        &&& 128 * c.fec_stripes <= u32::MAX
        &&& c.fec_redundancy <= 128
        &&& c.fec_stripes * c.fec_redundancy <= u32::MAX
        &&& c.slice_size <= 128 * c.fec_stripes
        &&& c.max_slice_size <= 128 * c.fec_stripes
    }
}

/// Acknowledges a slice: its memory is free again.
pub fn ack_slice(
    slice: &mut Slice,
    config: &mut NetConfig,
    free_mem_queue: &mut Produconsum,
    stats: &mut SenderStats,
    now: u64,
) -> (r: Result<Option<Bandwidth>, ProduceError>)
    requires
        old(slice).wf(),
        config_ok(*old(config)),
        old(free_mem_queue).wf(),
        old(stats).has_room(old(slice).bytes as int),
        old(slice).bytes <= u64::MAX,
    ensures
        final(slice).wf(),
        final(free_mem_queue).wf(),
        config_ok(*final(config)),
        match old(free_mem_queue)@.refusal(old(slice)@.bytes) {
            _ if old(slice)@.state == SliceState::Acked => {
                &&& r == Ok::<Option<Bandwidth>, ProduceError>(None)
                &&& final(slice)@ == old(slice)@
                &&& *final(config) == *old(config)
                &&& final(free_mem_queue)@ == old(free_mem_queue)@
                &&& *final(stats) == *old(stats)
            },
            Some(e) => {
                &&& r == Err::<Option<Bandwidth>, ProduceError>(e)
                &&& final(free_mem_queue)@ == old(free_mem_queue)@
            },
            None => {
                &&& r == Ok::<Option<Bandwidth>, ProduceError>(
                    old(stats).bandwidth(old(slice)@.bytes as u64, now),
                )
                &&& final(slice)@ == (SliceModel { state: SliceState::Acked, ..old(slice)@ })
                &&& *final(config) == grown(*old(config))
                &&& final(free_mem_queue)@ == old(free_mem_queue)@.with_produced(
                    old(slice)@.bytes,
                )
                &&& *final(stats) == old(stats).acknowledged(old(slice)@.bytes as u64, now)
            },
        },
{
    if slice.state == SliceState::Acked {
        return Ok(None);
    }
    if config.flags & FLAG_SN == 0 {
        if config.discovery == Discovery::Doubling {
            config.slice_size = config.slice_size + config.slice_size / 4;
            if config.slice_size >= config.max_slice_size {
                config.slice_size = config.max_slice_size;
                config.discovery = Discovery::Reducing;
            }
        }
    }
    slice.state = SliceState::Acked;
    match free_mem_queue.produce(slice.bytes) {
        Ok(_) => {},
        Err(e) => {
            return Err(e);
        },
    }
    Ok(stats.add_bytes(slice.bytes as u64, now))
}

/// What the start of a round brings.
pub enum Round {
    /// Nobody answers, and the slice counts as acknowledged.
    Acked(Option<Bandwidth>),
    /// The request for answers.
    Request([u8; 16]),
}

/// Starts a round for a slice. Where receivers do not answer, data counts as
/// acknowledged at once.
pub fn send_reqack(
    slice: &mut Slice,
    config: &mut NetConfig,
    free_mem_queue: &mut Produconsum,
    stats: &mut SenderStats,
    now: u64,
) -> (r: Result<Round, ProduceError>)
    requires
        old(slice).wf(),
        config_ok(*old(config)),
        old(free_mem_queue).wf(),
        old(stats).has_room(old(slice).bytes as int),
        old(slice)@.state != SliceState::Acked,
        old(slice)@.bytes <= old(config).block_size * 1024,
        flagged(old(config).flags, FLAG_FEC) ==> nr_blocks(
            old(slice)@.bytes,
            old(config).block_size as int,
        ) <= 128 * old(config).fec_stripes,
    ensures
        final(slice).wf(),
        final(free_mem_queue).wf(),
        config_ok(*final(config)),
        if flagged(old(config).flags, FLAG_ASYNC) && old(slice)@.bytes != 0 {
            match old(free_mem_queue)@.refusal(old(slice)@.bytes) {
                Some(e) => {
                    &&& r == Err::<Round, ProduceError>(e)
                    &&& final(free_mem_queue)@ == old(free_mem_queue)@
                },
                None => {
                    &&& r == Ok::<Round, ProduceError>(
                        Round::Acked(old(stats).bandwidth(old(slice)@.bytes as u64, now)),
                    )
                    &&& final(slice)@ == (SliceModel { state: SliceState::Acked, ..old(slice)@ })
                    &&& *final(config) == grown(*old(config))
                    &&& final(free_mem_queue)@ == old(free_mem_queue)@.with_produced(
                        old(slice)@.bytes,
                    )
                    &&& *final(stats) == old(stats).acknowledged(old(slice)@.bytes as u64, now)
                },
            }
        } else {
            &&& r matches Ok(Round::Request(packet)) && packet@ == request(old(slice)@)
            &&& final(slice)@ == asked(old(slice)@)
            &&& *final(config) == shrunk(*old(config), old(slice)@)
            &&& *final(free_mem_queue) == *old(free_mem_queue)
            &&& *final(stats) == *old(stats)
        },
{
    if config.flags & FLAG_ASYNC != 0 && slice.bytes != 0 {
        return match ack_slice(slice, config, free_mem_queue, stats, now) {
            Ok(b) => Ok(Round::Acked(b)),
            Err(e) => Err(e),
        };
    }
    proof {
        lemma_blocks(slice.bytes as int, config.block_size as int);
    }
    if config.flags & FLAG_ASYNC == 0 && slice.rxmit_id != 0 {
        let n: usize = count_blocks(slice.bytes, config.block_size as usize);
        if slice.last_good_block != 0 && slice.last_good_block < n {
            config.discovery = Discovery::Reducing;
            if slice.last_good_block < config.slice_size as usize / 2 {
                config.slice_size = config.slice_size / 2;
            } else {
                config.slice_size = slice.last_good_block as u32;
            }
            if config.slice_size < 32 {
                config.slice_size = 32;
            }
        }
    }
    slice.last_good_block = 0;
    slice.answered_set = slice.ready_set;
    slice.nr_answered = slice.nr_ready;
    slice.need_rxmit = false;
    slice.rxmit_map = BitMap::empty();
    slice.is_xmitted_map = BitMap::empty();
    let msg = Reqack { slice_no: slice.slice_no, bytes: slice.bytes as i32, rxmit: slice.rxmit_id };
    Ok(Round::Request(msg.pack()))
}

/// The slice that is under way with number `slice_no`, if there is one.
pub open spec fn slice_at(slices: Seq<SliceModel>, slice_no: i32) -> Option<int> {
    first_true(
        Seq::new(
            slices.len(),
            |i: int| slices[i].state != SliceState::Free && slices[i].slice_no == slice_no,
        ),
    )
}

/// The first slice that is not in use, if there is one.
pub open spec fn free_slice_at(slices: Seq<SliceModel>) -> Option<int> {
    first_true(Seq::new(slices.len(), |i: int| slices[i].state == SliceState::Free))
}

/// Whether place `i` is the first that holds.
pub open spec fn is_first(s: Seq<bool>, i: int) -> bool {
    0 <= i < s.len() && s[i] && forall|j: int| 0 <= j < i ==> !(#[trigger] s[j])
}

/// The first place that holds, if there is one.
pub open spec fn first_true(s: Seq<bool>) -> Option<int> {
    if exists|i: int| is_first(s, i) {
        Some(choose|i: int| is_first(s, i))
    } else {
        None
    }
}

/// The first place is the one that `first_true` gives.
pub proof fn lemma_first_true(s: Seq<bool>, i: int)
    requires
        is_first(s, i),
    ensures
        first_true(s) == Some(i),
{
    let j = choose|j: int| is_first(s, j);
    assert(is_first(s, j));
    if i < j {
        assert(!s[i]);
    }
    if j < i {
        assert(!s[j]);
    }
}

/// The models of slices.
pub open spec fn models(slices: Seq<Slice>) -> Seq<SliceModel> {
    Seq::new(slices.len(), |i: int| slices[i]@)
}

/// The slice that is under way with number `slice_no`.
pub fn find_slice(slices: &Vec<Slice>, slice_no: i32) -> (r: Option<usize>)
    ensures
        match r {
            Some(i) => slice_at(models(slices@), slice_no) == Some(i as int) && i < slices@.len(),
            None => slice_at(models(slices@), slice_no) is None,
        },
{
    let ghost marks = Seq::new(
        slices@.len(),
        |i: int|
            models(slices@)[i].state != SliceState::Free && models(slices@)[i].slice_no == slice_no,
    );
    let mut i: usize = 0;
    while i < slices.len()
        invariant
            i <= slices@.len(),
            marks == Seq::new(
                slices@.len(),
                |i: int|
                    models(slices@)[i].state != SliceState::Free && models(slices@)[i].slice_no
                        == slice_no,
            ),
            forall|k: int| 0 <= k < i ==> !(#[trigger] marks[k]),
        decreases slices@.len() - i,
    {
        if slices[i].state != SliceState::Free && slices[i].slice_no == slice_no {
            assert(is_first(marks, i as int));
            proof {
                lemma_first_true(marks, i as int);
            }
            return Some(i);
        }
        assert(!marks[i as int]);
        i += 1;
    }
    None
}

/// The first slice that is not in use.
pub fn find_free_slice(slices: &Vec<Slice>) -> (r: Option<usize>)
    ensures
        match r {
            Some(i) => free_slice_at(models(slices@)) == Some(i as int) && i < slices@.len(),
            None => free_slice_at(models(slices@)) is None,
        },
{
    let ghost marks = Seq::new(
        slices@.len(),
        |i: int| models(slices@)[i].state == SliceState::Free,
    );
    let mut i: usize = 0;
    while i < slices.len()
        invariant
            i <= slices@.len(),
            marks == Seq::new(
                slices@.len(),
                |i: int| models(slices@)[i].state == SliceState::Free,
            ),
            forall|k: int| 0 <= k < i ==> !(#[trigger] marks[k]),
        decreases slices@.len() - i,
    {
        if slices[i].state == SliceState::Free {
            assert(is_first(marks, i as int));
            proof {
                lemma_first_true(marks, i as int);
            }
            return Some(i);
        }
        assert(!marks[i as int]);
        i += 1;
    }
    None
}

/// A request for answers tells the slice, its size and the round.
pub proof fn law_requests_tell_the_round(s: SliceModel)
    requires
        0 <= s.bytes <= i32::MAX,
    ensures
        ({
            let p = request(s);
            &&& p.len() == 16
            &&& u16_at(p, 0) == 6
            &&& i32_at(p, 4) == s.slice_no
            &&& i32_at(p, 8) == s.bytes
            &&& i32_at(p, 12) == s.rxmit_id
        }),
{
    let m = Reqack { slice_no: s.slice_no, bytes: s.bytes as i32, rxmit: s.rxmit_id };
    law_reqack_round_trip(m, Seq::empty());
    assert(request(s) + Seq::<u8>::empty() =~= request(s));
}

} // verus!
