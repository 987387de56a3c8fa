//! How the sender keeps to a pace. Times are microseconds.

use crate::socklib::{
    is_letter, leading_number, lemma_number_and_unit, lemma_plain_number, number_before, size_parts,
    split_unit,
};
use crate::statistics::since;
use crate::text::{ascii_letter, chars_of, is_number, number_value, same_text, trim, trimmed};
use crate::wire::{signed32, to_signed32};
use vstd::prelude::*;

verus! {

/// What a packet costs on top of its bytes: the headers of UDP and IP.
pub const HEADERS: i64 = 28;

/// A speed that is larger than any that can be kept.
#[derive(Debug, Clone, Copy, PartialEq, Eq, Structural)]
pub struct SpeedTooLarge;

/// The factor that the unit of a speed stands for; an unknown unit stands for
/// none.
pub open spec fn speed_factor(unit: Seq<char>) -> nat {
    if unit == seq!['k'] || unit == seq!['K'] {
        1000
    } else if unit == seq!['m'] || unit == seq!['M'] {
        1_000_000
    } else if unit == seq!['g'] || unit == seq!['G'] {
        1_000_000_000
    } else {
        1
    }
}

/// The bits per second that a speed says.
pub open spec fn speed_value(s: Seq<char>) -> nat {
    let (number, unit) = size_parts(trim(s));
    number_before(number) * speed_factor(unit)
}

/// A number with the unit K, M or G is that many thousands, millions or
/// thousands of millions of bits per second; a number alone is bits per second.
pub proof fn law_plain_speeds(number: Seq<char>, unit: char)
    requires
        is_number(number),
        number_value(number) <= u64::MAX,
    ensures
        speed_value(number) == number_value(number),
        unit == 'k' || unit == 'K' ==> speed_value(number.push(unit)) == number_value(number) * 1000,
        unit == 'm' || unit == 'M' ==> speed_value(number.push(unit)) == number_value(number)
            * 1_000_000,
        unit == 'g' || unit == 'G' ==> speed_value(number.push(unit)) == number_value(number)
            * 1_000_000_000,
{
    lemma_plain_number(number);
    assert(seq!['k'].len() == 1 && seq!['K'].len() == 1 && seq!['m'].len() == 1 && seq!['M'].len()
        == 1 && seq!['g'].len() == 1 && seq!['G'].len() == 1);
    if ascii_letter(unit) {
        lemma_number_and_unit(number, unit);
        assert(seq![unit][0] == unit);
        assert(seq!['k'][0] == 'k');
        assert(seq!['K'][0] == 'K');
        assert(seq!['m'][0] == 'm');
        assert(seq!['M'][0] == 'M');
    }
}

/// Reads a speed: a number, with the unit K, M or G if there is one.
pub fn parse_speed(speed_string: &str) -> (r: Result<u64, SpeedTooLarge>)
    ensures
        if speed_value(speed_string@) <= u64::MAX {
            r == Ok::<u64, SpeedTooLarge>(speed_value(speed_string@) as u64)
        } else {
            r == Err::<u64, SpeedTooLarge>(SpeedTooLarge)
        },
{
    let s: Vec<char> = trimmed(&chars_of(speed_string));
    let (number, unit) = split_unit(&s);
    let val: u64 = leading_number(&number);
    let factor: u64 = if is_letter(&unit, 'k', 'K') {
        1000
    } else if is_letter(&unit, 'm', 'M') {
        1_000_000
    } else if is_letter(&unit, 'g', 'G') {
        1_000_000_000
    } else {
        1
    };
    match val.checked_mul(factor) {
        Some(n) => Ok(n),
        None => Err(SpeedTooLarge),
    }
}

/// A limit on the bits per second. Packets are queued, as it were, on a line of
/// that speed.
#[derive(Debug, Clone, Copy, PartialEq, Eq, Structural)]
pub struct MaxBitrateData {
    /// Until when the line's work is accounted for.
    pub date_us: u64,
    /// The speed; zero is no limit.
    pub bitrate: u64,
    /// The bytes on the line.
    pub queue_size: i64,
}

/// The bits that the line has sent since it was last looked at.
pub open spec fn bits_sent(m: MaxBitrateData, now: u64) -> int {
    since(m.date_us, now) * m.bitrate / 1_000_000
}

/// The bits on the line, as a number without a sign.
pub open spec fn bits_queued(m: MaxBitrateData) -> int {
    if m.queue_size < 0 {
        m.queue_size * 8 + 0x1_0000_0000_0000_0000
    } else {
        m.queue_size * 8
    }
}

/// The bytes on the line after it was looked at.
pub open spec fn bytes_left(m: MaxBitrateData, now: u64) -> int {
    m.queue_size - bits_sent(m, now) / 8
}

/// How long the line takes for `bytes` bytes; a negative number has a negative
/// time.
pub open spec fn line_time(bytes: int, bitrate: u64) -> int {
    if bytes < 0 {
        -(-bytes * 8_000_000 / bitrate as int)
    } else {
        bytes * 8_000_000 / bitrate as int
    }
}

/// How long to sleep where `bytes` bytes are on the line: 10 milliseconds less than
/// they take, in steps of 10 milliseconds; not at all where they are few.
pub open spec fn nap(bytes: int, bitrate: u64) -> int {
    let time = line_time(bytes, bitrate);
    if (time > 40_000 || bytes >= 100_000) && time >= 10_000 {
        time - 10_000 - (time - 10_000) % 10_000
    } else {
        0
    }
}

/// Whether the line is idle again.
pub open spec fn idle(m: MaxBitrateData, now: u64) -> bool {
    bits_sent(m, now) >= bits_queued(m)
}

/// Whether all numbers are within bounds.
pub open spec fn pace_fits(m: MaxBitrateData, now: u64, size: i64) -> bool {
    &&& since(m.date_us, now) * m.bitrate <= u64::MAX
    &&& size + HEADERS <= i64::MAX
    &&& i64::MIN <= m.queue_size * 8 <= i64::MAX
    &&& !idle(m, now) ==> {
        &&& i64::MIN <= bytes_left(m, now)
        &&& bits_sent(m, now) * 1_000_000 <= u64::MAX
        &&& m.date_us + bits_sent(m, now) * 1_000_000 / m.bitrate as int <= u64::MAX
        &&& i64::MIN <= bytes_left(m, now) * 8_000_000 <= i64::MAX
        &&& m.bitrate <= i64::MAX
        &&& i64::MIN <= bytes_left(m, now) + size + HEADERS <= i64::MAX
    }
}

/// The line after a packet of `size` bytes was put on it.
pub open spec fn with_packet(m: MaxBitrateData, now: u64, size: i64) -> MaxBitrateData {
    if idle(m, now) {
        MaxBitrateData { queue_size: (size + HEADERS) as i64, date_us: now, ..m }
    } else {
        MaxBitrateData {
            queue_size: (bytes_left(m, now) + size + HEADERS) as i64,
            date_us: (m.date_us + bits_sent(m, now) * 1_000_000 / m.bitrate as int) as u64,
            ..m
        }
    }
}

/// How long to sleep before a packet is put on the line.
pub open spec fn sleep_before(m: MaxBitrateData, now: u64) -> int {
    if idle(m, now) {
        0
    } else {
        nap(bytes_left(m, now), m.bitrate)
    }
}

impl MaxBitrateData {
    /// Sets a property. The only one is the speed.
    pub fn set_prop(&mut self, key: &str, value: &str) -> (r: Result<(), SpeedTooLarge>)
        ensures
            key@ != "maxBitrate"@ ==> *final(self) == *old(self) && r is Ok,
            key@ == "maxBitrate"@ ==> if speed_value(value@) <= u64::MAX {
                r is Ok && *final(self) == (MaxBitrateData {
                    bitrate: speed_value(value@) as u64,
                    ..*old(self)
                })
            } else {
                r is Err && *final(self) == *old(self)
            },
    {
        if same_text(&chars_of(key), "maxBitrate") {
            match parse_speed(value) {
                Ok(n) => {
                    self.bitrate = n;
                },
                Err(e) => {
                    return Err(e);
                },
            }
        }
        Ok(())
    }

    /// Puts a packet of `size` bytes on the line, and says how long to sleep before
    /// it is sent. `None` where a number goes out of bounds; nothing has changed then.
    pub fn wait(&mut self, now: u64, size: i64) -> (r: Option<u64>)
        ensures
            old(self).bitrate == 0 ==> r == Some(0u64) && *final(self) == *old(self),
            old(self).bitrate > 0 && pace_fits(*old(self), now, size) ==> {
                &&& r matches Some(us) && us == sleep_before(*old(self), now)
                &&& *final(self) == with_packet(*old(self), now, size)
            },
            old(self).bitrate > 0 && !pace_fits(*old(self), now, size) ==> r is None && *final(self)
                == *old(self),
    {
        if self.bitrate == 0 {
            return Some(0);
        }
        let elapsed: u64 = if now >= self.date_us {
            now - self.date_us
        } else {
            0
        };
        let product: u64 = match elapsed.checked_mul(self.bitrate) {
            Some(p) => p,
            None => {
                return None;
            },
        };
        let bits: u64 = product / 1_000_000;
        let queue: i128 = self.queue_size as i128;
        let cost: i128 = size as i128 + HEADERS as i128;
        if cost > i64::MAX as i128 || queue * 8 > i64::MAX as i128 || queue * 8 < i64::MIN as i128 {
            return None;
        }
        let queued: i128 = if queue < 0 {
            queue * 8 + 0x1_0000_0000_0000_0000
        } else {
            queue * 8
        };
        assert(queued == bits_queued(*self));
        assert(bits == bits_sent(*self, now));
        if bits as i128 >= queued {
            self.queue_size = cost as i64;
            self.date_us = now;
            return Some(0);
        }
        let left: i128 = queue - (bits / 8) as i128;
        assert(left == bytes_left(*self, now));
        let spent: u64 = match bits.checked_mul(1_000_000) {
            Some(n) => n,
            None => {
                return None;
            },
        };
        let advance: u64 = spent / self.bitrate;
        let date: u64 = match self.date_us.checked_add(advance) {
            Some(n) => n,
            None => {
                return None;
            },
        };
        let load: i128 = left * 8_000_000;
        if left < i64::MIN as i128 || load > i64::MAX as i128 || load < i64::MIN as i128
            || self.bitrate > i64::MAX as u64 {
            return None;
        }
        let next: i128 = left + cost;
        if next > i64::MAX as i128 || next < i64::MIN as i128 {
            return None;
        }
        let mut us: u64 = 0;
        if load >= 0 {
            let time: u64 = load as u64 / self.bitrate;
            if (time > 40_000 || left >= 100_000) && time >= 10_000 {
                us = time - 10_000 - (time - 10_000) % 10_000;
            }
        } else {
            proof {
                let b = self.bitrate as int;
                let x = -left * 8_000_000;
                vstd::arithmetic::div_mod::lemma_div_pos_is_pos(x as int, b);
            }
        }
        self.queue_size = next as i64;
        self.date_us = date;
        Some(us)
    }
}

/// Half of the buffer, rounded to zero.
pub open spec fn half(sendbuf: i32) -> int {
    if sendbuf < 0 {
        -(-sendbuf / 2)
    } else {
        sendbuf as int / 2
    }
}

/// Sending as fast as the send buffer empties.
#[derive(Debug, Clone, Copy, PartialEq, Eq, Structural)]
pub struct AutoRateData {
    pub is_initialized: bool,
    /// One where the system reports what is free in the buffer, zero where it
    /// reports what is used.
    pub dir: i32,
    pub sendbuf: i32,
}

impl AutoRateData {
    /// Nothing is known of the buffer yet.
    pub fn new() -> (r: Self)
        ensures
            r == (AutoRateData { is_initialized: false, dir: 0, sendbuf: 0 }),
    {
        AutoRateData { is_initialized: false, dir: 0, sendbuf: 0 }
    }

    /// Learns of the buffer, given what the system reports of it while it is empty,
    /// and its size where that is known.
    pub fn initialize(&mut self, queue: i32, send_buf: Option<u32>)
        ensures
            *final(self) == (AutoRateData {
                is_initialized: true,
                dir: if queue == 0 {
                    0
                } else {
                    1
                },
                sendbuf: if queue != 0 {
                    queue
                } else {
                    match send_buf {
                        Some(n) => signed32(n),
                        None => 0,
                    }
                },
            }),
    {
        if queue == 0 {
            self.dir = 0;
            self.sendbuf = match send_buf {
                Some(n) => to_signed32(n),
                None => 0,
            };
        } else {
            self.dir = 1;
            self.sendbuf = queue;
        }
        self.is_initialized = true;
    }

    /// What of the buffer is in use, given what the system reports.
    pub open spec fn used(self, queue: i32) -> int {
        if self.dir == 1 {
            self.sendbuf - queue
        } else {
            queue as int
        }
    }

    /// Whether a packet of `size` bytes can be sent: after it, less than half of the
    /// buffer is in use. Where the system reports nothing it can.
    pub fn is_ready(&self, queue: i32, size: i64) -> (r: bool)
        ensures
            r <==> queue < 0 || self.used(queue) < half(self.sendbuf) - size,
    {
        if queue < 0 {
            return true;
        }
        let used: i128 = if self.dir == 1 {
            self.sendbuf as i128 - queue as i128
        } else {
            queue as i128
        };
        let half: i128 = if self.sendbuf < 0 {
            -(-(self.sendbuf as i128) / 2)
        } else {
            self.sendbuf as i128 / 2
        };
        used < half - size as i128
    }
}

/// What keeps the pace.
#[derive(Debug, Clone, Copy, PartialEq, Eq, Structural)]
pub enum RateGovernorData {
    MaxBitrate(MaxBitrateData),
    AutoRate(AutoRateData),
}

/// One governor of the pace.
pub struct RateGovernor {
    pub name: &'static str,
    pub data: RateGovernorData,
}

/// What to do before a packet is sent.
#[derive(Debug, Clone, Copy, PartialEq, Eq, Structural)]
pub enum Pause {
    /// Sleep, and go on to the next governor.
    Sleep(u64),
    /// Sleep, and ask this governor again.
    Retry(u64),
    /// A number is out of bounds.
    OutOfBounds,
}

/// How long to sleep before a full buffer is looked at again.
pub const BUFFER_POLL_US: u64 = 2500;

/// The governor's data after it was asked, and what to do.
pub open spec fn governed(
    d: RateGovernorData,
    now: u64,
    queue: i32,
    send_buf: Option<u32>,
    size: i64,
) -> (RateGovernorData, Pause) {
    match d {
        RateGovernorData::MaxBitrate(m) => if m.bitrate == 0 {
            (d, Pause::Sleep(0))
        } else if pace_fits(m, now, size) {
            (
                RateGovernorData::MaxBitrate(with_packet(m, now, size)),
                Pause::Sleep(sleep_before(m, now) as u64),
            )
        } else {
            (d, Pause::OutOfBounds)
        },
        RateGovernorData::AutoRate(a) => if !a.is_initialized {
            (
                RateGovernorData::AutoRate(
                    AutoRateData {
                        is_initialized: true,
                        dir: if queue == 0 {
                            0
                        } else {
                            1
                        },
                        sendbuf: if queue != 0 {
                            queue
                        } else {
                            match send_buf {
                                Some(n) => signed32(n),
                                None => 0,
                            }
                        },
                    },
                ),
                Pause::Retry(0),
            )
        } else if queue < 0 || a.used(queue) < half(a.sendbuf) - size {
            (d, Pause::Sleep(0))
        } else {
            (d, Pause::Retry(BUFFER_POLL_US))
        },
    }
}

impl RateGovernor {
    /// Asks the governor before a packet of `size` bytes is sent; `queue` and
    /// `send_buf` are what the system reports of the send buffer.
    pub fn wait(&mut self, now: u64, queue: i32, send_buf: Option<u32>, size: i64) -> (r: Pause)
        ensures
            final(self).name == old(self).name,
            (final(self).data, r) == governed(old(self).data, now, queue, send_buf, size),
    {
        match self.data {
            RateGovernorData::MaxBitrate(m) => {
                let mut m = m;
                match m.wait(now, size) {
                    Some(us) => {
                        self.data = RateGovernorData::MaxBitrate(m);
                        Pause::Sleep(us)
                    },
                    None => Pause::OutOfBounds,
                }
            },
            RateGovernorData::AutoRate(a) => {
                if !a.is_initialized {
                    let mut a = a;
                    a.initialize(queue, send_buf);
                    self.data = RateGovernorData::AutoRate(a);
                    return Pause::Retry(0);
                }
                if a.is_ready(queue, size) {
                    Pause::Sleep(0)
                } else {
                    Pause::Retry(BUFFER_POLL_US)
                }
            },
        }
    }
}

/// The governors of the pace, to be asked in turn.
pub struct RateGovernorSet {
    pub governors: Vec<RateGovernor>,
}

impl RateGovernorSet {
    /// No governors.
    pub fn new() -> (r: Self)
        ensures
            r.governors@ == Seq::<RateGovernor>::empty(),
    {
        RateGovernorSet { governors: Vec::new() }
    }

    /// Adds a limit on the bits per second.
    pub fn add_max_bitrate(&mut self, bitrate_str: &str, now: u64) -> (r: Result<(), SpeedTooLarge>)
        ensures
            if speed_value(bitrate_str@) <= u64::MAX {
                &&& r is Ok
                &&& final(self).governors@ == old(self).governors@.push(
                    RateGovernor {
                        name: "maxBitrate",
                        data: RateGovernorData::MaxBitrate(
                            MaxBitrateData {
                                date_us: now,
                                bitrate: speed_value(bitrate_str@) as u64,
                                queue_size: 0,
                            },
                        ),
                    },
                )
            } else {
                r is Err && final(self).governors@ == old(self).governors@
            },
    {
        let mut data = MaxBitrateData { date_us: now, bitrate: 0, queue_size: 0 };
        match data.set_prop("maxBitrate", bitrate_str) {
            Ok(_) => {},
            Err(e) => {
                return Err(e);
            },
        }
        self.governors.push(
            RateGovernor { name: "maxBitrate", data: RateGovernorData::MaxBitrate(data) },
        );
        Ok(())
    }

    /// Adds sending as fast as the send buffer empties.
    pub fn add_autorate(&mut self)
        ensures
            final(self).governors@ == old(self).governors@.push(
                RateGovernor {
                    name: "autorate",
                    data: RateGovernorData::AutoRate(
                        AutoRateData { is_initialized: false, dir: 0, sendbuf: 0 },
                    ),
                },
            ),
    {
        self.governors.push(
            RateGovernor { name: "autorate", data: RateGovernorData::AutoRate(AutoRateData::new()) },
        );
    }
}

/// What is on the line is slept off: where it takes more than 40 milliseconds, or is
/// 100000 bytes at least and takes 20 milliseconds or more, the sleep is not zero and
/// what is left after it takes less than 20 milliseconds. Whatever is on the line, what
/// is left after the sleep takes no more than 40 milliseconds.
pub proof fn law_the_line_is_slept_off(bytes: int, bitrate: u64)
    requires
        bitrate > 0,
        bytes >= 0,
    ensures
        ({
            let n = nap(bytes, bitrate);
            let long = bytes * 8_000_000 >= 40_001 * bitrate || (bytes >= 100_000 && bytes
                * 8_000_000 >= 20_000 * bitrate);
            &&& n >= 0
            &&& long ==> n > 0 && bytes * 8_000_000 < (n + 20_000) * bitrate
            &&& bytes * 8_000_000 < (n + 40_001) * bitrate
        }),
{
    let b = bitrate as int;
    let x = bytes * 8_000_000;
    let t = line_time(bytes, bitrate);
    let n = nap(bytes, bitrate);
    vstd::arithmetic::div_mod::lemma_fundamental_div_mod(x, b);
    vstd::arithmetic::div_mod::lemma_mod_bound(x, b);
    assert(x < (t + 1) * b) by (nonlinear_arith)
        requires
            x == b * t + x % b,
            x % b < b,
    ;
    assert(x >= t * b) by (nonlinear_arith)
        requires
            x == b * t + x % b,
            x % b >= 0,
    ;
    if x >= 40_001 * b {
        assert(t >= 40_001) by (nonlinear_arith)
            requires
                x >= 40_001 * b,
                x < (t + 1) * b,
                b > 0,
        ;
    }
    if x >= 20_000 * b {
        assert(t >= 20_000) by (nonlinear_arith)
            requires
                x >= 20_000 * b,
                x < (t + 1) * b,
                b > 0,
        ;
    }
    assert(t >= 0) by (nonlinear_arith)
        requires
            x >= 0,
            x < (t + 1) * b,
            b > 0,
    ;
    if t + 1 <= n + 20_000 {
        assert((t + 1) * b <= (n + 20_000) * b) by (nonlinear_arith)
            requires
                t + 1 <= n + 20_000,
                b > 0,
        ;
    }
    assert(t + 1 <= n + 40_001);
    assert((t + 1) * b <= (n + 40_001) * b) by (nonlinear_arith)
        requires
            t + 1 <= n + 40_001,
            b > 0,
    ;
}

/// The line after the first `k` packets, given when each was asked for and its size.
pub open spec fn line_after(m: MaxBitrateData, packets: Seq<(u64, i64)>, k: nat) -> MaxBitrateData
    decreases k,
{
    if k == 0 {
        m
    } else {
        with_packet(
            line_after(m, packets, (k - 1) as nat),
            packets[k - 1].0,
            packets[k - 1].1,
        )
    }
}

/// The bytes of the first `k` packets, with the headers of UDP and IP.
pub open spec fn bytes_paced(packets: Seq<(u64, i64)>, k: nat) -> int
    decreases k,
{
    if k == 0 {
        0
    } else {
        bytes_paced(packets, (k - 1) as nat) + packets[k - 1].1 + 28
    }
}

/// What holds of the line along the way: it has not sent more than its speed allows,
/// but for a microsecond with each packet.
proof fn lemma_line(m: MaxBitrateData, packets: Seq<(u64, i64)>, k: nat)
    requires
        m.bitrate > 0,
        m.queue_size == 0,
        k <= packets.len(),
        forall|j: int| 0 <= j < k ==> (#[trigger] packets[j]).1 >= 0 && m.date_us <= packets[j].0,
        forall|i: int, j: int|
            0 <= i < j < k ==> (#[trigger] packets[i]).0 <= (#[trigger] packets[j]).0,
        forall|j: nat|
            j < k ==> pace_fits(
                #[trigger] line_after(m, packets, j),
                packets[j as int].0,
                packets[j as int].1,
            ),
    ensures
        ({
            let v = line_after(m, packets, k);
            &&& v.bitrate == m.bitrate
            &&& v.queue_size >= 0
            &&& m.date_us <= v.date_us
            &&& k > 0 ==> v.date_us <= packets[k - 1].0
            &&& k == 0 ==> v.date_us == m.date_us
            &&& (bytes_paced(packets, k) - v.queue_size) * 8_000_000 <= (v.date_us - m.date_us + k)
                * m.bitrate
        }),
    decreases k,
{
    if k > 0 {
        let j = (k - 1) as nat;
        lemma_line(m, packets, j);
        let u = line_after(m, packets, j);
        let v = line_after(m, packets, k);
        let (now, size) = packets[k - 1];
        assert(pace_fits(line_after(m, packets, j), packets[j as int].0, packets[j as int].1));
        if j > 0 {
            assert(packets[j - 1].0 <= packets[k - 1].0);
        }
        assert(m.date_us <= packets[k - 1].0);
        let b = m.bitrate as int;
        let q = u.queue_size as int;
        let e = now - u.date_us;
        assert(since(u.date_us, now) == e);
        let bits = bits_sent(u, now);
        vstd::arithmetic::div_mod::lemma_fundamental_div_mod(e * b, 1_000_000);
        vstd::arithmetic::div_mod::lemma_mod_bound(e * b, 1_000_000);
        assert(e * b >= 0) by (nonlinear_arith)
            requires
                e >= 0,
                b > 0,
        ;
        assert(0 <= bits && bits * 1_000_000 <= e * b);
        let done = bytes_paced(packets, j) - q;
        let t = u.date_us - m.date_us + j;
        assert(done * 8_000_000 <= t * b);
        if idle(u, now) {
            assert(q * 8_000_000 <= e * b);
            assert(t * b + e * b <= (t + e + 1) * b) by (nonlinear_arith)
                requires
                    b > 0,
            ;
            assert(v.date_us - m.date_us + k == t + e + 1);
            assert(bytes_paced(packets, k) - v.queue_size == done + q);
        } else {
            let d = bits * 1_000_000 / b;
            vstd::arithmetic::div_mod::lemma_fundamental_div_mod(bits * 1_000_000, b);
            vstd::arithmetic::div_mod::lemma_mod_bound(bits * 1_000_000, b);
            vstd::arithmetic::div_mod::lemma_div_pos_is_pos(bits * 1_000_000, b);
            assert(bits * 1_000_000 < (d + 1) * b) by (nonlinear_arith)
                requires
                    bits * 1_000_000 == b * d + (bits * 1_000_000) % b,
                    (bits * 1_000_000) % b < b,
            ;
            assert(d <= e) by (nonlinear_arith)
                requires
                    bits * 1_000_000 == b * d + (bits * 1_000_000) % b,
                    (bits * 1_000_000) % b >= 0,
                    bits * 1_000_000 <= e * b,
                    b > 0,
            ;
            assert(v.date_us == u.date_us + d);
            assert(v.queue_size == q - bits / 8 + size + 28);
            assert(bytes_paced(packets, k) - v.queue_size == done + bits / 8);
            assert(t * b + (d + 1) * b == (t + d + 1) * b) by (nonlinear_arith);
            assert(v.date_us - m.date_us + k == t + d + 1);
        }
    }
}

/// The limit is kept: whatever packets are sent and whenever they are asked for, by the
/// time the last of them goes out no more than the line's bits for that time went out,
/// but for a burst of 40 milliseconds, the last packet, and a microsecond with each
/// packet for rounding.
pub proof fn law_the_limit_is_kept(m: MaxBitrateData, packets: Seq<(u64, i64)>, k: nat)
    requires
        m.bitrate > 0,
        m.queue_size == 0,
        0 < k <= packets.len(),
        forall|j: int| 0 <= j < k ==> (#[trigger] packets[j]).1 >= 0 && m.date_us <= packets[j].0,
        forall|i: int, j: int|
            0 <= i < j < k ==> (#[trigger] packets[i]).0 <= (#[trigger] packets[j]).0,
        forall|j: nat|
            j < k ==> pace_fits(
                #[trigger] line_after(m, packets, j),
                packets[j as int].0,
                packets[j as int].1,
            ),
    ensures
        ({
            let (now, size) = packets[k - 1];
            let goes_out = now + sleep_before(line_after(m, packets, (k - 1) as nat), now);
            bytes_paced(packets, k) * 8_000_000 <= (goes_out - m.date_us + 40_001 + k) * m.bitrate
                + (size + 28) * 8_000_000
        }),
{
    let j = (k - 1) as nat;
    lemma_line(m, packets, k);
    lemma_line(m, packets, j);
    let u = line_after(m, packets, j);
    let v = line_after(m, packets, k);
    let (now, size) = packets[k - 1];
    let b = m.bitrate as int;
    assert(pace_fits(line_after(m, packets, j), packets[j as int].0, packets[j as int].1));
    let n = sleep_before(u, now);
    let left = v.queue_size - (size + 28);
    assert(0 <= left && left * 8_000_000 <= (n + 40_001) * b) by {
        if idle(u, now) {
            assert(0 <= 40_001 * b) by (nonlinear_arith)
                requires
                    b > 0,
            ;
        } else {
            assert(left == bytes_left(u, now));
            law_the_line_is_slept_off(left, u.bitrate);
        }
    }
    let t = v.date_us - m.date_us + k;
    let g = now + n - m.date_us + 40_001 + k;
    assert(t * b + (n + 40_001) * b <= g * b) by (nonlinear_arith)
        requires
            t + n + 40_001 <= g,
            b > 0,
    ;
}

/// A packet goes out while the send buffer is less than half full with it, and waits
/// where it would be fuller; where the system tells nothing it goes out.
pub proof fn law_a_full_buffer_waits(
    a: AutoRateData,
    now: u64,
    queue: i32,
    send_buf: Option<u32>,
    size: i64,
)
    requires
        a.is_initialized,
        a.sendbuf >= 0,
    ensures
        ({
            let (d, pause) = governed(RateGovernorData::AutoRate(a), now, queue, send_buf, size);
            let filled = if a.dir == 1 {
                a.sendbuf - queue
            } else {
                queue as int
            };
            &&& d == RateGovernorData::AutoRate(a)
            &&& queue < 0 || 2 * (filled + size + 1) <= a.sendbuf ==> pause == Pause::Sleep(0)
            &&& queue >= 0 && 2 * (filled + size + 1) > a.sendbuf ==> (pause matches Pause::Retry(us)
                && us > 0)
        }),
{
}

/// The sender sleeps in steps of 10 milliseconds, and at least 10 milliseconds
/// less than the line takes for what is on it: pacing never leaves the line idle.
pub proof fn law_naps_leave_the_line_busy(bytes: int, bitrate: u64)
    requires
        bitrate > 0,
    ensures
        nap(bytes, bitrate) % 10_000 == 0,
        0 <= nap(bytes, bitrate),
        nap(bytes, bitrate) > 0 ==> nap(bytes, bitrate) + 10_000 <= line_time(bytes, bitrate),
        nap(bytes, bitrate) > 0 ==> (nap(bytes, bitrate) + 10_000) * bitrate <= bytes * 8_000_000,
{
    if nap(bytes, bitrate) > 0 {
        let b = bitrate as int;
        let t = line_time(bytes, bitrate);
        if bytes < 0 {
            vstd::arithmetic::div_mod::lemma_div_pos_is_pos(-bytes * 8_000_000, b);
        }
        vstd::arithmetic::div_mod::lemma_fundamental_div_mod(bytes * 8_000_000, b);
        vstd::arithmetic::div_mod::lemma_mod_bound(bytes * 8_000_000, b);
        let n = nap(bytes, bitrate) + 10_000;
        assert(n * b <= t * b) by (nonlinear_arith)
            requires
                n <= t,
                0 < b,
        ;
        assert(t * b == b * t) by (nonlinear_arith);
    }
}

/// The first time the buffer is only measured, and the packet asks again at once: where
/// the system says that the buffer is empty it counts what is queued, up to the size of
/// the buffer, and else what is free, up to what is free at first.
pub proof fn law_the_buffer_is_measured_first(
    a: AutoRateData,
    now: u64,
    queue: i32,
    send_buf: Option<u32>,
    size: i64,
)
    requires
        !a.is_initialized,
    ensures
        ({
            let (d, pause) = governed(RateGovernorData::AutoRate(a), now, queue, send_buf, size);
            &&& pause == Pause::Retry(0)
            &&& d matches RateGovernorData::AutoRate(b) && {
                &&& b.is_initialized
                &&& queue != 0 ==> b.dir == 1 && b.sendbuf == queue
                &&& queue == 0 ==> b.dir == 0
                &&& queue == 0 && send_buf is None ==> b.sendbuf == 0
                &&& queue == 0 ==> (send_buf matches Some(n) ==> n <= i32::MAX ==> b.sendbuf == n)
            }
        }),
{
}

} // verus!
