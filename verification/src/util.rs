//! The time of day in the log, and commands.

use crate::text::{chars_of, is_digit, is_white, white};
use vstd::prelude::*;
use vstd::string::*;

verus! {

/// The value and the number of the digits at the start of `s`; colons among them
/// are passed over.
pub open spec fn digits(s: Seq<char>, value: int, count: int) -> (int, int)
    decreases s.len(),
{
    if s.len() == 0 {
        (value, count)
    } else if is_digit(s[0]) {
        digits(s.skip(1), value * 10 + (s[0] as int - '0' as int), count + 1)
    } else if s[0] == ':' {
        digits(s.skip(1), value, count)
    } else {
        (value, count)
    }
}

/// The seconds that the digits of an offset stand for. One or two digits are
/// hours; of more, the last two are set apart, and they are minutes where there
/// are four at least.
pub open spec fn offset_seconds(value: int, count: int) -> int {
    if count <= 2 {
        value * 3600
    } else if count == 3 {
        value / 100 * 3600
    } else {
        value / 100 * 3600 + value % 100 * 60
    }
}

/// The offset in a time zone: the first sign that a digit follows.
pub open spec fn tz_offset(s: Seq<char>) -> Option<int>
    decreases s.len(),
{
    if s.len() == 0 {
        None
    } else {
        let (value, count) = digits(s.skip(1), 0, 0);
        if (s[0] == '+' || s[0] == '-') && count >= 1 {
            Some(
                if s[0] == '+' {
                    offset_seconds(value, count)
                } else {
                    -offset_seconds(value, count)
                },
            )
        } else {
            tz_offset(s.skip(1))
        }
    }
}

/// The largest value of digits that is kept.
const LARGEST: u64 = 1_000_000_000_000_000_000;

/// Reads the digits from place `from` on; `None` where their value is large.
fn read_digits(s: &Vec<char>, from: usize) -> (r: (Option<u64>, usize))
    requires
        from <= s@.len(),
    ensures
        match r.0 {
            Some(v) => v == digits(s@.skip(from as int), 0, 0).0 && v <= LARGEST,
            None => digits(s@.skip(from as int), 0, 0).0 > LARGEST,
        },
        r.1 <= 2 ==> digits(s@.skip(from as int), 0, 0).0 <= 99,
        r.1 == digits(s@.skip(from as int), 0, 0).1,
{
    let ghost all = digits(s@.skip(from as int), 0, 0);
    let mut value: u64 = 0;
    let mut large: bool = false;
    let ghost mut exact: int = 0;
    let mut count: usize = 0;
    let mut i: usize = from;
    while i < s.len()
        invariant_except_break
            digits(s@.skip(i as int), exact, count as int) == all,
        invariant
            from <= i <= s@.len(),
            count <= i - from,
            exact >= 0,
            count <= 2 ==> exact <= 99,
            count == 0 ==> exact == 0,
            count == 1 ==> exact <= 9,
            large ==> exact > LARGEST,
            !large ==> exact == value && value <= LARGEST,
        ensures
            all == (exact, count as int),
        decreases s@.len() - i,
    {
        let c: char = s[i];
        let ghost rest = s@.skip(i as int);
        assert(rest.skip(1) =~= s@.skip(i + 1));
        if '0' <= c && c <= '9' {
            proof {
                exact = exact * 10 + (c as int - '0' as int);
            }
            if !large {
                let next: u64 = value * 10 + (c as u64 - '0' as u64);
                if next > LARGEST {
                    large = true;
                } else {
                    value = next;
                }
            }
            count += 1;
        } else if c != ':' {
            break;
        }
        i += 1;
    }
    if large {
        (None, count)
    } else {
        (Some(value), count)
    }
}

/// Reads the offset in a time zone, in seconds; `None` where there is none within
/// bounds.
pub fn parse_tz_offset(tz: &str) -> (r: Option<i64>)
    ensures
        match tz_offset(tz@) {
            Some(n) => if i64::MIN < n <= i64::MAX {
                r == Some(n as i64)
            } else {
                r is None
            },
            None => r is None,
        },
{
    let s: Vec<char> = chars_of(tz);
    let mut i: usize = 0;
    assert(s@.skip(0) =~= s@);
    while i < s.len()
        invariant
            i <= s@.len(),
            s@ == tz@,
            tz_offset(s@.skip(i as int)) == tz_offset(tz@),
        decreases s@.len() - i,
    {
        let ghost rest = s@.skip(i as int);
        assert(rest.skip(1) =~= s@.skip(i + 1));
        if s[i] == '+' || s[i] == '-' {
            let (value, count) = read_digits(&s, i + 1);
            if count >= 1 {
                match value {
                    None => {
                        return None;
                    },
                    Some(v) => {
                        let seconds: i128 = if count <= 2 {
                            v as i128 * 3600
                        } else if count == 3 {
                            (v / 100) as i128 * 3600
                        } else {
                            (v / 100) as i128 * 3600 + (v % 100) as i128 * 60
                        };
                        if seconds > i64::MAX as i128 {
                            return None;
                        }
                        let n: i64 = seconds as i64;
                        return Some(
                            if s[i] == '+' {
                                n
                            } else {
                                -n
                            },
                        );
                    },
                }
            }
        }
        i += 1;
    }
    None
}

/// A time of day.
#[derive(Debug, Clone, Copy, PartialEq, Eq, Structural)]
pub struct TimeOfDay {
    pub hour: u32,
    pub minute: u32,
    pub second: u32,
    pub micro: u32,
}

/// The time of day at `now`, in microseconds since the epoch, where local time is
/// `offset` seconds ahead.
pub fn time_of_day(now: u64, offset: i64) -> (r: TimeOfDay)
    requires
        now as int / 1_000_000 + offset <= i64::MAX,
    ensures
        r.hour < 24,
        r.minute < 60,
        r.second < 60,
        r.hour * 3600 + r.minute * 60 + r.second == (now as int / 1_000_000 + offset) % 86400,
        r.micro == now % 1_000_000,
{
    let local: i64 = (now / 1_000_000) as i64 + offset;
    let rest: i64 = if local >= 0 {
        local % 86400
    } else {
        let back: i64 = (-(local + 1)) % 86400;
        86399 - back
    };
    proof {
        if local < 0 {
            let back = (-(local + 1)) % 86400;
            assert((86399 - back) == local as int % 86400) by {
                vstd::arithmetic::div_mod::lemma_fundamental_div_mod(-(local + 1), 86400);
            }
        }
    }
    TimeOfDay {
        hour: (rest / 3600) as u32,
        minute: (rest % 3600 / 60) as u32,
        second: (rest % 60) as u32,
        micro: (now % 1_000_000) as u32,
    }
}

/// Where the white space at the start of `s` ends.
pub open spec fn white_end(s: Seq<char>) -> int
    decreases s.len(),
{
    if s.len() == 0 || !is_white(s[0]) {
        0
    } else {
        1 + white_end(s.skip(1))
    }
}

/// Where the word at the start of `s` ends.
pub open spec fn word_end(s: Seq<char>) -> int
    decreases s.len(),
{
    if s.len() == 0 || is_white(s[0]) {
        0
    } else {
        1 + word_end(s.skip(1))
    }
}

/// The words of `s`: what stands between white space.
pub open spec fn words(s: Seq<char>) -> Seq<Seq<char>>
    decreases s.len(),
{
    let t = s.skip(white_end(s));
    if 0 < word_end(t) <= t.len() && t.len() <= s.len() {
        seq![t.take(word_end(t))] + words(t.skip(word_end(t)))
    } else {
        Seq::empty()
    }
}

/// The views of strings.
pub open spec fn texts(v: Seq<String>) -> Seq<Seq<char>> {
    Seq::new(v.len(), |i: int| v[i]@)
}

/// The place after the white space, or after the word, from place `from` on.
fn skip_run(s: &Vec<char>, from: usize, space: bool) -> (r: usize)
    requires
        from <= s@.len(),
    ensures
        from <= r <= s@.len(),
        r - from == if space {
            white_end(s@.skip(from as int))
        } else {
            word_end(s@.skip(from as int))
        },
{
    let mut i: usize = from;
    while i < s.len() && white(s[i]) == space
        invariant
            from <= i <= s@.len(),
            space ==> white_end(s@.skip(from as int)) == i - from + white_end(s@.skip(i as int)),
            !space ==> word_end(s@.skip(from as int)) == i - from + word_end(s@.skip(i as int)),
        decreases s@.len() - i,
    {
        assert(s@.skip(i as int).skip(1) =~= s@.skip(i + 1));
        i += 1;
    }
    i
}

/// Splits a command into its words.
pub fn parse_command(cmd: &str) -> (r: Vec<String>)
    ensures
        texts(r@) == words(cmd@),
{
    let s: Vec<char> = chars_of(cmd);
    let mut r: Vec<String> = Vec::new();
    let mut i: usize = 0;
    assert(s@.skip(0) =~= s@);
    assert(texts(r@) + words(s@) =~= words(s@));
    loop
        invariant_except_break
            texts(r@) + words(s@.skip(i as int)) == words(cmd@),
        invariant
            i <= s@.len(),
            s@ == cmd@,
        ensures
            texts(r@) == words(cmd@),
        decreases s@.len() - i,
    {
        let start: usize = skip_run(&s, i, true);
        let end: usize = skip_run(&s, start, false);
        let ghost rest = s@.skip(i as int);
        assert(rest.skip(white_end(rest)) =~= s@.skip(start as int));
        if end == start {
            assert(words(rest) =~= Seq::<Seq<char>>::empty());
            assert(texts(r@) + words(rest) =~= texts(r@));
            break;
        }
        let ghost before = texts(r@);
        let ghost t = s@.skip(start as int);
        let word: String = cmd.substring_char(start, end).to_owned();
        assert(word@ =~= t.take(word_end(t)));
        assert(t.skip(word_end(t)) =~= s@.skip(end as int));
        r.push(word);
        assert(texts(r@) =~= before + seq![t.take(word_end(t))]);
        assert(words(rest) == seq![t.take(word_end(t))] + words(s@.skip(end as int)));
        assert(texts(r@) + words(s@.skip(end as int)) =~= before + words(rest));
        i = end;
    }
    r
}

/// Where a word and where white space ends.
proof fn lemma_run(w: Seq<char>, rest: Seq<char>)
    requires
        rest.len() == 0 || is_white(rest[0]),
        forall|i: int| 0 <= i < w.len() ==> !is_white(#[trigger] w[i]),
    ensures
        word_end(w + rest) == w.len(),
    decreases w.len(),
{
    let t = w + rest;
    if w.len() > 0 {
        let u = w.skip(1);
        assert forall|i: int| 0 <= i < u.len() implies !is_white(#[trigger] u[i]) by {
            assert(u[i] == w[i + 1]);
        }
        lemma_run(u, rest);
        assert(t.skip(1) =~= u + rest);
        assert(t[0] == w[0]);
    } else {
        assert(t =~= rest);
    }
}

/// A command is its words, whatever white space stands before, between and behind them:
/// white space at the start changes nothing, and what stands before the first white
/// space is the first word.
pub proof fn law_words_stand_between_white_space(w: Seq<char>, c: char, rest: Seq<char>)
    requires
        is_white(c),
        w.len() > 0,
        forall|i: int| 0 <= i < w.len() ==> !is_white(#[trigger] w[i]),
    ensures
        words(Seq::empty()) == Seq::<Seq<char>>::empty(),
        words(seq![c] + rest) == words(rest),
        words(w) == seq![w],
        words(w + seq![c] + rest) == seq![w] + words(seq![c] + rest),
{
    let none = Seq::<char>::empty();
    assert(none.skip(0) =~= none);
    assert(words(none) =~= Seq::<Seq<char>>::empty());
    let s = seq![c] + rest;
    assert(s[0] == c);
    assert(s.skip(1) =~= rest);
    lemma_white_end(rest);
    assert(s.skip(1 + white_end(rest)) =~= rest.skip(white_end(rest)));
    lemma_run(w, none);
    assert(w + none =~= w);
    assert(w[0] == w[0]);
    assert(w.skip(0) =~= w);
    assert(w.take(w.len() as int) =~= w);
    assert(w.skip(w.len() as int) =~= none);
    assert(words(w) =~= seq![w]);
    let t = w + seq![c] + rest;
    assert(t =~= w + s);
    lemma_run(w, s);
    assert(t[0] == w[0]);
    assert(t.skip(0) =~= t);
    assert(t.take(w.len() as int) =~= w);
    assert(t.skip(w.len() as int) =~= s);
}

/// The white space at the start lies within the text.
proof fn lemma_white_end(s: Seq<char>)
    ensures
        0 <= white_end(s) <= s.len(),
    decreases s.len(),
{
    if s.len() > 0 && is_white(s[0]) {
        lemma_white_end(s.skip(1));
    }
}

/// What stands before the first sign does not count.
proof fn lemma_before_the_sign(p: Seq<char>, s: Seq<char>)
    requires
        forall|i: int| 0 <= i < p.len() ==> #[trigger] p[i] != '+' && p[i] != '-',
    ensures
        tz_offset(p + s) == tz_offset(s),
    decreases p.len(),
{
    let t = p + s;
    if p.len() > 0 {
        let u = p.skip(1);
        assert forall|i: int| 0 <= i < u.len() implies #[trigger] u[i] != '+' && u[i] != '-' by {
            assert(u[i] == p[i + 1]);
        }
        lemma_before_the_sign(u, s);
        assert(t.skip(1) =~= u + s);
        assert(t[0] == p[0]);
    } else {
        assert(t =~= s);
    }
}

/// What four digits, and what two digits are.
proof fn lemma_digits(a: char, b: char, c: char, d: char, q: Seq<char>)
    requires
        is_digit(a) && is_digit(b) && is_digit(c) && is_digit(d),
        q.len() == 0 || (!is_digit(q[0]) && q[0] != ':'),
    ensures
        ({
            let hours = 10 * (a as int - '0' as int) + (b as int - '0' as int);
            let minutes = 10 * (c as int - '0' as int) + (d as int - '0' as int);
            &&& digits(seq![a, b] + q, 0, 0) == (hours, 2int)
            &&& digits(seq![a, b, c, d] + q, 0, 0) == (100 * hours + minutes, 4int)
            &&& digits(seq![a, b, ':', c, d] + q, 0, 0) == (100 * hours + minutes, 4int)
        }),
{
    reveal_with_fuel(digits, 6);
    let s1 = seq![d] + q;
    let s2 = seq![c, d] + q;
    let s3 = seq![b, c, d] + q;
    let s4 = seq![a, b, c, d] + q;
    assert(s1.skip(1) =~= q);
    assert(s2.skip(1) =~= s1);
    assert(s3.skip(1) =~= s2);
    assert(s4.skip(1) =~= s3);
    let t1 = seq![':', c, d] + q;
    let t2 = seq![b, ':', c, d] + q;
    let t3 = seq![a, b, ':', c, d] + q;
    assert(t1.skip(1) =~= s2);
    assert(t2.skip(1) =~= t1);
    assert(t3.skip(1) =~= t2);
    let u1 = seq![b] + q;
    let u2 = seq![a, b] + q;
    assert(u1.skip(1) =~= q);
    assert(u2.skip(1) =~= u1);
}

/// A time zone is ahead by the hours and minutes behind a plus sign, and behind by those
/// after a minus sign, with or without a colon between them and whatever stands round
/// them; without minutes there are none.
pub proof fn law_time_zones(
    p: Seq<char>,
    sign: char,
    a: char,
    b: char,
    c: char,
    d: char,
    q: Seq<char>,
)
    requires
        sign == '+' || sign == '-',
        is_digit(a) && is_digit(b) && is_digit(c) && is_digit(d),
        forall|i: int| 0 <= i < p.len() ==> #[trigger] p[i] != '+' && p[i] != '-',
        q.len() == 0 || (!is_digit(q[0]) && q[0] != ':'),
    ensures
        ({
            let way = if sign == '+' {
                1int
            } else {
                -1
            };
            let hours = 10 * (a as int - '0' as int) + (b as int - '0' as int);
            let minutes = 10 * (c as int - '0' as int) + (d as int - '0' as int);
            let full = Some(way * (hours * 3600 + minutes * 60));
            &&& tz_offset(p + (seq![sign] + (seq![a, b] + q))) == Some(way * (hours * 3600))
            &&& tz_offset(p + (seq![sign] + (seq![a, b, c, d] + q))) == full
            &&& tz_offset(p + (seq![sign] + (seq![a, b, ':', c, d] + q))) == full
        }),
{
    lemma_digits(a, b, c, d, q);
    let s = seq![a, b] + q;
    let t = seq![a, b, c, d] + q;
    let u = seq![a, b, ':', c, d] + q;
    lemma_before_the_sign(p, seq![sign] + s);
    lemma_before_the_sign(p, seq![sign] + t);
    lemma_before_the_sign(p, seq![sign] + u);
    assert((seq![sign] + s).skip(1) =~= s);
    assert((seq![sign] + t).skip(1) =~= t);
    assert((seq![sign] + u).skip(1) =~= u);
    assert((seq![sign] + s)[0] == sign);
    assert((seq![sign] + t)[0] == sign);
    assert((seq![sign] + u)[0] == sign);
}

/// Where no sign has a digit behind it there is no offset.
pub proof fn law_no_time_zone(s: Seq<char>)
    requires
        forall|i: int| 0 <= i < s.len() ==> #[trigger] s[i] != '+' && s[i] != '-',
    ensures
        tz_offset(s) is None,
{
    lemma_before_the_sign(s, Seq::empty());
    assert(s + Seq::<char>::empty() =~= s);
}

} // verus!
