//! Progress figures of a transfer. Times are microseconds on one clock, and
//! whoever calls reads it.

use vstd::prelude::*;

verus! {

/// When and how progress is shown.
#[derive(Clone, Copy, Debug, PartialEq, Eq, Structural)]
pub struct Stats {
    pub fd: i32,
    pub last_printed_us: u64,
    pub stat_period: i64,
    pub print_uncompressed_pos: bool,
    pub no_progress: bool,
}

/// The figures of a receiver.
#[derive(Clone, Copy, Debug, PartialEq, Eq, Structural)]
pub struct ReceiverStats {
    pub start_us: u64,
    pub total_bytes: u64,
    pub timer_started: bool,
    pub s: Stats,
}

/// The figures of a sender.
#[derive(Clone, Copy, Debug, PartialEq, Eq, Structural)]
pub struct SenderStats {
    pub total_bytes: u64,
    pub retransmissions: u64,
    pub cl_no: i32,
    pub period_bytes: u64,
    pub period_start_us: u64,
    pub bw_period: i64,
    pub s: Stats,
}

/// Bytes acknowledged in one period of measurement.
#[derive(Clone, Copy, Debug, PartialEq, Eq, Structural)]
pub struct Bandwidth {
    pub bytes: u64,
    pub elapsed_us: u64,
}

/// A receiver's progress line.
#[derive(Clone, Copy, Debug, PartialEq, Eq, Structural)]
pub struct ReceiverLine {
    pub bytes: u64,
    /// Hundredths of a megabit per second; `None` while no time has passed.
    pub rate: Option<u32>,
    /// The position in the file is shown too.
    pub position: bool,
}

/// A sender's progress line.
#[derive(Clone, Copy, Debug, PartialEq, Eq, Structural)]
pub struct SenderLine {
    pub bytes: u64,
    pub retransmissions: u64,
    /// Retransmissions per thousand blocks.
    pub permille: u32,
    pub slice_size: u32,
    /// The position in the file is shown too.
    pub position: bool,
    /// The participant that answered last.
    pub cl_no: i32,
}

/// The time from `then` to `now`, or zero if the clock went back.
pub open spec fn since(then: u64, now: u64) -> int {
    if now >= then {
        now - then
    } else {
        0
    }
}

/// The shortest time between two lines. A negative period is one that never
/// ends.
pub open spec fn shortest(period: i64) -> int {
    if period >= 0 {
        period as int
    } else {
        0x1_0000_0000_0000_0000 + period
    }
}

/// Whether a line is due.
pub open spec fn due(s: Stats, now: u64, is_final: bool) -> bool {
    is_final || since(s.last_printed_us, now) >= shortest(s.stat_period)
}

/// The record of lines after one was asked for.
pub open spec fn noted(s: Stats, now: u64, is_final: bool) -> Stats {
    if !is_final && due(s, now, is_final) {
        Stats { last_printed_us: now, ..s }
    } else {
        s
    }
}

/// The low 32 bits of `n`.
pub open spec fn low_word(n: int) -> u32 {
    (n % 0x1_0000_0000) as u32
}

/// Whether a line is due; one that is not the last restarts the period.
pub fn should_print(s: &mut Stats, now_us: u64, is_final: bool) -> (r: bool)
    ensures
        r == due(*old(s), now_us, is_final),
        *final(s) == noted(*old(s), now_us, is_final),
{
    if is_final {
        return true;
    }
    let since_last: u64 = now_us.saturating_sub(s.last_printed_us);
    let period: u64 = if s.stat_period >= 0 {
        s.stat_period as u64
    } else {
        u64::MAX - ((-(s.stat_period + 1)) as u64)
    };
    if since_last < period {
        return false;
    }
    s.last_printed_us = now_us;
    true
}

/// Whether the position in the file is shown: as asked for, else when the data
/// goes through another descriptor than the file's.
pub fn should_print_uncompressed_pos(default: i32, fd: i32, ref_fd: i32) -> (r: bool)
    ensures
        r <==> if default != -1 {
            default != 0
        } else {
            ref_fd != fd
        },
{
    if default != -1 {
        return default != 0;
    }
    ref_fd != fd
}

impl ReceiverStats {
    /// No bytes yet.
    pub fn new(
        fd: i32,
        stat_period: i64,
        print_uncompressed_pos: bool,
        no_progress: bool,
        now: u64,
    ) -> (r: Self)
        ensures
            r == (ReceiverStats {
                start_us: now,
                total_bytes: 0,
                timer_started: false,
                s: Stats {
                    fd,
                    last_printed_us: now,
                    stat_period,
                    print_uncompressed_pos,
                    no_progress,
                },
            }),
    {
        ReceiverStats {
            start_us: now,
            total_bytes: 0,
            timer_started: false,
            s: Stats { fd, last_printed_us: now, stat_period, print_uncompressed_pos, no_progress },
        }
    }

    /// The first call starts the clock.
    pub fn start_timer(&mut self, now: u64)
        ensures
            *final(self) == if old(self).timer_started {
                *old(self)
            } else {
                ReceiverStats { start_us: now, timer_started: true, ..*old(self) }
            },
    {
        if !self.timer_started {
            self.start_us = now;
            self.timer_started = true;
        }
    }

    /// Counts bytes.
    pub fn add_bytes(&mut self, bytes: u64)
        requires
            old(self).total_bytes + bytes <= u64::MAX,
        ensures
            *final(self) == (ReceiverStats {
                total_bytes: (old(self).total_bytes + bytes) as u64,
                ..*old(self)
            }),
    {
        self.total_bytes = self.total_bytes + bytes;
    }

    /// The line to show now, if one is due.
    pub open spec fn line(self, is_final: bool, now: u64) -> Option<ReceiverLine> {
        if self.s.no_progress || !due(self.s, now, is_final) {
            None
        } else {
            Some(
                ReceiverLine {
                    bytes: self.total_bytes,
                    rate: if since(self.start_us, now) == 0 {
                        None
                    } else {
                        Some(low_word(self.total_bytes * 800 / since(self.start_us, now)))
                    },
                    position: self.s.print_uncompressed_pos,
                },
            )
        }
    }

    /// The line to show now, if one is due.
    pub fn display(&mut self, is_final: bool, now: u64) -> (r: Option<ReceiverLine>)
        requires
            old(self).total_bytes * 800 <= u64::MAX,
        ensures
            r == old(self).line(is_final, now),
            *final(self) == (ReceiverStats {
                s: if old(self).s.no_progress {
                    old(self).s
                } else {
                    noted(old(self).s, now, is_final)
                },
                ..*old(self)
            }),
    {
        if self.s.no_progress {
            return None;
        }
        if !should_print(&mut self.s, now, is_final) {
            return None;
        }
        let time_passed: u64 = now.saturating_sub(self.start_us);
        let rate: Option<u32> = if time_passed != 0 {
            Some((self.total_bytes * 800 / time_passed % 0x1_0000_0000) as u32)
        } else {
            None
        };
        Some(
            ReceiverLine { bytes: self.total_bytes, rate, position: self.s.print_uncompressed_pos },
        )
    }
}

impl SenderStats {
    /// Nothing sent yet.
    pub fn new(
        fd: i32,
        bw_period: i64,
        stat_period: i64,
        print_uncompressed_pos: bool,
        no_progress: bool,
        now: u64,
    ) -> (r: Self)
        ensures
            r == (SenderStats {
                total_bytes: 0,
                retransmissions: 0,
                cl_no: 0,
                period_bytes: 0,
                period_start_us: now,
                bw_period,
                s: Stats {
                    fd,
                    last_printed_us: now,
                    stat_period,
                    print_uncompressed_pos,
                    no_progress,
                },
            }),
    {
        SenderStats {
            total_bytes: 0,
            retransmissions: 0,
            cl_no: 0,
            period_bytes: 0,
            period_start_us: now,
            bw_period,
            s: Stats { fd, last_printed_us: now, stat_period, print_uncompressed_pos, no_progress },
        }
    }

    /// There is room for `bytes` more in the counters.
    pub open spec fn has_room(self, bytes: int) -> bool {
        &&& self.total_bytes + bytes <= u64::MAX
        &&& self.bw_period > 0 ==> self.period_bytes + bytes <= u64::MAX
        &&& self.bw_period * 1_000_000 <= u64::MAX
    }

    /// Whether there is room for `bytes` more in the counters.
    pub fn fits(&self, bytes: u64) -> (r: bool)
        ensures
            r == self.has_room(bytes as int),
    {
        self.total_bytes <= u64::MAX - bytes && (self.bw_period <= 0 || self.period_bytes
            <= u64::MAX - bytes) && self.bw_period as i128 * 1_000_000 <= u64::MAX as i128
    }

    /// The bandwidth to report once `bytes` more are acknowledged, if the period
    /// of measurement is over.
    pub open spec fn bandwidth(self, bytes: u64, now: u64) -> Option<Bandwidth> {
        if self.bw_period > 0 && since(self.period_start_us, now) >= self.bw_period * 1_000_000 {
            Some(
                Bandwidth {
                    bytes: (self.period_bytes + bytes) as u64,
                    elapsed_us: since(self.period_start_us, now) as u64,
                },
            )
        } else {
            None
        }
    }

    /// After `bytes` more were acknowledged.
    pub open spec fn acknowledged(self, bytes: u64, now: u64) -> SenderStats {
        SenderStats {
            total_bytes: (self.total_bytes + bytes) as u64,
            period_bytes: if self.bw_period <= 0 {
                self.period_bytes
            } else if self.bandwidth(bytes, now) is Some {
                0
            } else {
                (self.period_bytes + bytes) as u64
            },
            period_start_us: if self.bandwidth(bytes, now) is Some {
                now
            } else {
                self.period_start_us
            },
            ..self
        }
    }

    /// Counts acknowledged bytes.
    pub fn add_bytes(&mut self, bytes: u64, now: u64) -> (r: Option<Bandwidth>)
        requires
            old(self).has_room(bytes as int),
        ensures
            r == old(self).bandwidth(bytes, now),
            *final(self) == old(self).acknowledged(bytes, now),
    {
        self.total_bytes = self.total_bytes + bytes;
        if self.bw_period > 0 {
            self.period_bytes = self.period_bytes + bytes;
            let elapsed: u64 = now.saturating_sub(self.period_start_us);
            if elapsed >= (self.bw_period as u64) * 1_000_000 {
                let b = Bandwidth { bytes: self.period_bytes, elapsed_us: elapsed };
                self.period_bytes = 0;
                self.period_start_us = now;
                return Some(b);
            }
        }
        None
    }

    /// Counts retransmissions.
    pub fn add_retransmissions(&mut self, retransmissions: u32)
        requires
            old(self).retransmissions + retransmissions <= u64::MAX,
        ensures
            *final(self) == (SenderStats {
                retransmissions: (old(self).retransmissions + retransmissions) as u64,
                ..*old(self)
            }),
    {
        self.retransmissions = self.retransmissions + retransmissions as u64;
    }

    /// Notes who answered last.
    pub fn set_answered(&mut self, cl_no: i32)
        ensures
            *final(self) == (SenderStats { cl_no, ..*old(self) }),
    {
        self.cl_no = cl_no;
    }

    /// How many blocks the acknowledged bytes make.
    pub open spec fn blocks(self, block_size: int) -> int {
        (self.total_bytes + block_size - 1) / block_size
    }

    /// The line to show now, if one is due.
    pub open spec fn line(
        self,
        block_size: u32,
        slice_size: u32,
        is_final: bool,
        now: u64,
    ) -> Option<SenderLine> {
        if self.s.no_progress || !due(self.s, now, is_final) {
            None
        } else {
            Some(
                SenderLine {
                    bytes: self.total_bytes,
                    retransmissions: self.retransmissions,
                    permille: if self.blocks(block_size as int) == 0 {
                        0
                    } else {
                        low_word(1000 * self.retransmissions / self.blocks(block_size as int))
                    },
                    slice_size,
                    position: self.s.print_uncompressed_pos,
                    cl_no: self.cl_no,
                },
            )
        }
    }

    /// The line to show now, if one is due.
    pub fn display(&mut self, block_size: u32, slice_size: u32, is_final: bool, now: u64) -> (r:
        Option<SenderLine>)
        requires
            block_size > 0,
            old(self).total_bytes + block_size <= u64::MAX,
            1000 * old(self).retransmissions <= u64::MAX,
        ensures
            r == old(self).line(block_size, slice_size, is_final, now),
            *final(self) == (SenderStats {
                s: if old(self).s.no_progress {
                    old(self).s
                } else {
                    noted(old(self).s, now, is_final)
                },
                ..*old(self)
            }),
    {
        if self.s.no_progress {
            return None;
        }
        if !should_print(&mut self.s, now, is_final) {
            return None;
        }
        let blocks: u64 = (self.total_bytes + block_size as u64 - 1) / block_size as u64;
        let permille: u32 = if blocks == 0 {
            0
        } else {
            (1000 * self.retransmissions / blocks % 0x1_0000_0000) as u32
        };
        Some(
            SenderLine {
                bytes: self.total_bytes,
                retransmissions: self.retransmissions,
                permille,
                slice_size,
                position: self.s.print_uncompressed_pos,
                cl_no: self.cl_no,
            },
        )
    }
}

/// No acknowledged byte is lost in the figures: the total grows by each, and what a
/// period counts is carried on or reported, once.
pub proof fn law_every_byte_is_counted(s: SenderStats, bytes: u64, now: u64)
    requires
        s.has_room(bytes as int),
    ensures
        ({
            let v = s.acknowledged(bytes, now);
            &&& v.total_bytes == s.total_bytes + bytes
            &&& v.retransmissions == s.retransmissions
            &&& v.cl_no == s.cl_no
            &&& s.bw_period > 0 ==> v.period_bytes + match s.bandwidth(bytes, now) {
                Some(b) => b.bytes as int,
                None => 0,
            } == s.period_bytes + bytes
            &&& s.bandwidth(bytes, now) matches Some(b) ==> {
                &&& b.elapsed_us >= s.bw_period * 1_000_000
                &&& b.elapsed_us == now - s.period_start_us
                &&& v.period_start_us == now
            }
            &&& s.bandwidth(bytes, now) is None ==> v.period_start_us == s.period_start_us
            &&& s.bw_period > 0 && now >= s.period_start_us + s.bw_period * 1_000_000
                ==> s.bandwidth(bytes, now) is Some
            &&& s.bw_period <= 0 ==> s.bandwidth(bytes, now) is None
        }),
{
}

/// Lines come at most once in a period and at least as often as they are asked for after
/// it; the last line always comes.
pub proof fn law_lines_keep_their_period(s: Stats, now: u64, later: u64)
    requires
        s.stat_period >= 0,
        s.last_printed_us <= now <= later,
    ensures
        due(s, now, true),
        due(s, now, false) <==> now >= s.last_printed_us + s.stat_period,
        due(s, now, false) ==> (due(noted(s, now, false), later, false) <==> later >= now
            + s.stat_period),
        !due(s, now, false) ==> noted(s, now, false) == s,
        noted(s, now, true) == s,
{
}

/// The rate of a receiver is its bits over the time since the first packet, in
/// hundredths of a megabit per second, rounded down.
pub proof fn law_the_rate_is_bits_over_time(s: ReceiverStats, is_final: bool, now: u64)
    requires
        now > s.start_us,
        s.total_bytes * 800 / (now - s.start_us) < 0x1_0000_0000,
    ensures
        s.line(is_final, now) matches Some(l) ==> {
            &&& l.bytes == s.total_bytes
            &&& l.rate matches Some(r) && {
                &&& r * (now - s.start_us) <= s.total_bytes * 800
                &&& s.total_bytes * 800 < (r + 1) * (now - s.start_us)
            }
        },
        s.s.no_progress ==> s.line(is_final, now) is None,
        !s.s.no_progress && is_final ==> s.line(is_final, now) is Some,
{
    let t = now - s.start_us;
    let x = s.total_bytes * 800;
    vstd::arithmetic::div_mod::lemma_fundamental_div_mod(x, t);
    vstd::arithmetic::div_mod::lemma_mod_bound(x, t);
    vstd::arithmetic::div_mod::lemma_div_pos_is_pos(x, t);
    vstd::arithmetic::div_mod::lemma_small_mod((x / t) as nat, 0x1_0000_0000);
    let r = x / t;
    assert(r * t <= x && x < (r + 1) * t) by (nonlinear_arith)
        requires
            x == t * r + x % t,
            0 <= x % t < t,
    ;
}

/// The share of retransmissions that a sender shows is that of all blocks that its
/// acknowledged bytes make, in thousandths, rounded down.
pub proof fn law_the_share_is_of_all_blocks(
    s: SenderStats,
    block_size: u32,
    slice_size: u32,
    is_final: bool,
    now: u64,
    blocks: int,
)
    requires
        block_size > 0,
        (blocks - 1) * block_size < s.total_bytes <= blocks * block_size,
        s.total_bytes > 0,
        1000 * s.retransmissions / blocks < 0x1_0000_0000,
    ensures
        s.line(block_size, slice_size, is_final, now) matches Some(l) ==> {
            &&& l.bytes == s.total_bytes
            &&& l.retransmissions == s.retransmissions
            &&& l.slice_size == slice_size
            &&& l.cl_no == s.cl_no
            &&& l.permille * blocks <= 1000 * s.retransmissions < (l.permille + 1) * blocks
        },
        s.s.no_progress ==> s.line(block_size, slice_size, is_final, now) is None,
        !s.s.no_progress && is_final ==> s.line(block_size, slice_size, is_final, now) is Some,
{
    let b = block_size as int;
    let n = s.total_bytes as int;
    let q = s.blocks(b);
    vstd::arithmetic::div_mod::lemma_fundamental_div_mod(n + b - 1, b);
    vstd::arithmetic::div_mod::lemma_mod_bound(n + b - 1, b);
    assert(q == blocks && blocks > 0) by (nonlinear_arith)
        requires
            n + b - 1 == b * q + (n + b - 1) % b,
            0 <= (n + b - 1) % b < b,
            (blocks - 1) * b < n <= blocks * b,
            n > 0,
            b > 0,
    ;
    let x = 1000 * s.retransmissions as int;
    vstd::arithmetic::div_mod::lemma_fundamental_div_mod(x, blocks);
    vstd::arithmetic::div_mod::lemma_mod_bound(x, blocks);
    vstd::arithmetic::div_mod::lemma_div_pos_is_pos(x, blocks);
    vstd::arithmetic::div_mod::lemma_small_mod((x / blocks) as nat, 0x1_0000_0000);
    let r = x / blocks;
    assert(r * blocks <= x && x < (r + 1) * blocks) by (nonlinear_arith)
        requires
            x == blocks * r + x % blocks,
            0 <= x % blocks < blocks,
    ;
}

/// A line of the sender shows what was sent, what was sent again, the size of slices and
/// whose line it is, and a line of the receiver what came in; where progress is not to be
/// shown there is none.
pub proof fn law_what_lines_show(
    s: SenderStats,
    r: ReceiverStats,
    block_size: u32,
    slice_size: u32,
    is_final: bool,
    now: u64,
)
    ensures
        s.s.no_progress ==> s.line(block_size, slice_size, is_final, now) is None,
        !s.s.no_progress && is_final ==> s.line(block_size, slice_size, is_final, now) is Some,
        s.line(block_size, slice_size, is_final, now) matches Some(l) ==> {
            &&& l.bytes == s.total_bytes
            &&& l.retransmissions == s.retransmissions
            &&& l.slice_size == slice_size
            &&& l.position == s.s.print_uncompressed_pos
            &&& l.cl_no == s.cl_no
        },
        r.s.no_progress ==> r.line(is_final, now) is None,
        !r.s.no_progress && is_final ==> r.line(is_final, now) is Some,
        r.line(is_final, now) matches Some(l) ==> l.bytes == r.total_bytes && l.position
            == r.s.print_uncompressed_pos,
{
}

} // verus!
