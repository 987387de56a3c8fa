//! Reading numbers and words out of option text.

use vstd::prelude::*;

verus! {

/// A decimal digit.
pub open spec fn is_digit(c: char) -> bool {
    '0' <= c && c <= '9'
}

/// A number's text: digits only, and at least one.
pub open spec fn is_number(s: Seq<char>) -> bool {
    s.len() > 0 && forall|i: int| 0 <= i < s.len() ==> is_digit(#[trigger] s[i])
}

/// What the digits say.
pub open spec fn number_value(s: Seq<char>) -> nat
    decreases s.len(),
{
    if s.len() == 0 {
        0
    } else {
        10 * number_value(s.drop_last()) + (s.last() as u32 - '0' as u32) as nat
    }
}

/// The unsigned number, at most `max`, that `s` writes; a plus sign may stand
/// before the digits.
pub open spec fn unsigned_value(s: Seq<char>, max: nat) -> Option<nat> {
    let digits = if s.len() > 0 && s[0] == '+' {
        s.skip(1)
    } else {
        s
    };
    if is_number(digits) && number_value(digits) <= max {
        Some(number_value(digits))
    } else {
        None
    }
}

/// A character with the Unicode property White_Space.
pub open spec fn is_white(c: char) -> bool {
    let n = c as u32;
    ||| 9 <= n <= 13
    ||| n == 0x20
    ||| n == 0x85
    ||| n == 0xa0
    ||| n == 0x1680
    ||| 0x2000 <= n <= 0x200a
    ||| n == 0x2028
    ||| n == 0x2029
    ||| n == 0x202f
    ||| n == 0x205f
    ||| n == 0x3000
}

/// `s` without the white space at its end.
pub open spec fn trim_end(s: Seq<char>) -> Seq<char>
    decreases s.len(),
{
    if s.len() > 0 && is_white(s.last()) {
        trim_end(s.drop_last())
    } else {
        s
    }
}

/// `s` without the white space at its start.
pub open spec fn trim_start(s: Seq<char>) -> Seq<char>
    decreases s.len(),
{
    if s.len() > 0 && is_white(s[0]) {
        trim_start(s.skip(1))
    } else {
        s
    }
}

/// `s` without the white space round it.
pub open spec fn trim(s: Seq<char>) -> Seq<char> {
    trim_end(trim_start(s))
}

/// Whether Unicode calls `c` alphabetic.
pub uninterp spec fn alphabetic(c: char) -> bool;

/// Whether `c` is a letter of ASCII.
pub open spec fn ascii_letter(c: char) -> bool {
    ('a' <= c && c <= 'z') || ('A' <= c && c <= 'Z')
}

/// Whether `c` is a letter: in ASCII those from A to Z, small or not, and beyond
/// it what Unicode calls alphabetic.
pub open spec fn letter_like(c: char) -> bool {
    if (c as u32) < 128 {
        ascii_letter(c)
    } else {
        alphabetic(c)
    }
}

/// The place of the last letter of `s`, or -1.
pub open spec fn last_alphabetic(s: Seq<char>) -> int
    decreases s.len(),
{
    if s.len() == 0 {
        -1
    } else if letter_like(s.last()) {
        s.len() - 1
    } else {
        last_alphabetic(s.drop_last())
    }
}

/// `char::is_alphabetic` of the standard library: whether the character has the
/// Unicode property Alphabetic. Of the ASCII characters the letters have it and
/// no others; for the rest nothing is said but that the answer depends on the
/// character alone.
#[verifier::external_body]
fn is_alphabetic(c: char) -> (r: bool)
    ensures
        (c as u32) < 128 ==> r == ascii_letter(c),
        (c as u32) >= 128 ==> r == alphabetic(c),
{
    c.is_alphabetic()
}

/// The characters of `s`.
pub fn chars_of(s: &str) -> (r: Vec<char>)
    ensures
        r@ == s@,
{
    let mut r: Vec<char> = Vec::new();
    for c in it: s.chars()
        invariant
            it.seq() == s@,
            r@ == s@.take(it.index()),
    {
        r.push(c);
        assert(r@ =~= s@.take(it.index() + 1));
    }
    assert(s@.take(s@.len() as int) =~= s@);
    r
}

/// Whether `c` is white space.
pub fn white(c: char) -> (r: bool)
    ensures
        r == is_white(c),
{
    let n: u32 = c as u32;
    (9 <= n && n <= 13) || n == 0x20 || n == 0x85 || n == 0xa0 || n == 0x1680 || (0x2000 <= n && n
        <= 0x200a) || n == 0x2028 || n == 0x2029 || n == 0x202f || n == 0x205f || n == 0x3000
}

/// The characters of `s` from `lo` up to `hi`.
pub fn part(s: &Vec<char>, lo: usize, hi: usize) -> (r: Vec<char>)
    requires
        lo <= hi <= s@.len(),
    ensures
        r@ == s@.subrange(lo as int, hi as int),
{
    let mut r: Vec<char> = Vec::new();
    let mut i: usize = lo;
    while i < hi
        invariant
            lo <= i <= hi <= s@.len(),
            r@ == s@.subrange(lo as int, i as int),
        decreases hi - i,
    {
        r.push(s[i]);
        i += 1;
        assert(r@ =~= s@.subrange(lo as int, i as int));
    }
    r
}

/// `s` without the white space round it.
pub fn trimmed(s: &Vec<char>) -> (r: Vec<char>)
    ensures
        r@ == trim(s@),
{
    let mut lo: usize = 0;
    assert(s@.skip(0) =~= s@);
    while lo < s.len() && white(s[lo])
        invariant
            lo <= s@.len(),
            trim_start(s@.skip(lo as int)) == trim_start(s@),
        decreases s@.len() - lo,
    {
        assert(s@.skip(lo as int).skip(1) =~= s@.skip(lo + 1));
        lo += 1;
    }
    let ghost t = s@.skip(lo as int);
    assert(trim_start(s@) == t);
    let mut hi: usize = s.len();
    assert(s@.subrange(lo as int, hi as int) =~= t);
    while hi > lo && white(s[hi - 1])
        invariant
            lo <= hi <= s@.len(),
            trim_end(s@.subrange(lo as int, hi as int)) == trim_end(t),
        decreases hi,
    {
        assert(s@.subrange(lo as int, hi as int).drop_last() =~= s@.subrange(lo as int, hi - 1));
        hi -= 1;
    }
    part(s, lo, hi)
}

/// The place of the last letter of `s`.
pub fn find_last_alphabetic(s: &Vec<char>) -> (r: Option<usize>)
    ensures
        match r {
            Some(i) => i == last_alphabetic(s@) && i < s@.len(),
            None => last_alphabetic(s@) == -1,
        },
{
    let mut hi: usize = s.len();
    assert(s@.take(s@.len() as int) =~= s@);
    while hi > 0
        invariant
            hi <= s@.len(),
            last_alphabetic(s@.take(hi as int)) == last_alphabetic(s@),
        decreases hi,
    {
        assert(s@.take(hi as int).drop_last() =~= s@.take(hi - 1));
        if is_alphabetic(s[hi - 1]) {
            return Some(hi - 1);
        }
        hi -= 1;
    }
    None
}

/// Text that neither begins nor ends with white space is left as it is.
pub proof fn lemma_trim_none(s: Seq<char>)
    requires
        s.len() > 0,
        !is_white(s[0]),
        !is_white(s.last()),
    ensures
        trim(s) == s,
{
}

/// More digits make no smaller number.
pub proof fn lemma_number_grows(s: Seq<char>, k: int)
    requires
        0 <= k <= s.len(),
        forall|i: int| 0 <= i < s.len() ==> is_digit(#[trigger] s[i]),
    ensures
        number_value(s.take(k)) <= number_value(s),
    decreases s.len() - k,
{
    if k < s.len() {
        assert(s.take(k + 1).drop_last() =~= s.take(k));
        lemma_number_grows(s, k + 1);
    } else {
        assert(s.take(k) =~= s);
    }
}

/// The number, at most `max`, that the characters from `lo` up to `hi` write.
pub fn read_number(s: &Vec<char>, lo: usize, hi: usize, max: u64) -> (r: Option<u64>)
    requires
        lo <= hi <= s@.len(),
    ensures
        ({
            let t = s@.subrange(lo as int, hi as int);
            match r {
                Some(n) => is_number(t) && n == number_value(t) && n <= max,
                None => !(is_number(t) && number_value(t) <= max),
            }
        }),
{
    let ghost t = s@.subrange(lo as int, hi as int);
    if lo == hi {
        return None;
    }
    let mut n: u64 = 0;
    let mut i: usize = lo;
    assert(t.take(0) =~= Seq::<char>::empty());
    while i < hi
        invariant
            lo <= i <= hi <= s@.len(),
            t == s@.subrange(lo as int, hi as int),
            n == number_value(t.take(i - lo)),
            n <= max,
            forall|k: int| 0 <= k < i - lo ==> is_digit(#[trigger] t[k]),
        decreases hi - i,
    {
        let c: char = s[i];
        assert(t[i - lo] == c);
        if c < '0' || c > '9' {
            return None;
        }
        let d: u64 = (c as u32 - '0' as u32) as u64;
        let ghost next = t.take(i - lo + 1);
        assert(next.drop_last() =~= t.take(i - lo));
        assert(next.last() == c);
        assert(number_value(next) == 10 * n + d);
        if n > max / 10 || d > max - n * 10 {
            proof {
                if is_number(t) {
                    lemma_number_grows(t, i - lo + 1);
                }
            }
            return None;
        }
        n = n * 10 + d;
        i += 1;
    }
    assert(t.take(hi - lo) =~= t);
    Some(n)
}

/// The unsigned number, at most `max`, that `s` writes.
pub fn parse_unsigned(s: &Vec<char>, max: u64) -> (r: Option<u64>)
    ensures
        match r {
            Some(n) => unsigned_value(s@, max as nat) == Some(n as nat),
            None => unsigned_value(s@, max as nat) is None,
        },
{
    let lo: usize = if s.len() > 0 && s[0] == '+' {
        1
    } else {
        0
    };
    assert(s@.subrange(0, s@.len() as int) =~= s@);
    if lo == 1 {
        assert(s@.subrange(1, s@.len() as int) =~= s@.skip(1));
    }
    read_number(s, lo, s.len(), max)
}

/// Whether `s` says `word`.
pub fn same_text(s: &Vec<char>, word: &str) -> (r: bool)
    ensures
        r <==> s@ == word@,
{
    let w: Vec<char> = chars_of(word);
    if s.len() != w.len() {
        return false;
    }
    let mut i: usize = 0;
    while i < s.len()
        invariant
            i <= s@.len() == w@.len(),
            w@ == word@,
            forall|k: int| 0 <= k < i ==> s@[k] == w@[k],
        decreases s@.len() - i,
    {
        if s[i] != w[i] {
            return false;
        }
        i += 1;
    }
    assert(s@ =~= w@);
    true
}

/// Whether `s` starts with `word`.
pub fn starts_with(s: &Vec<char>, word: &Vec<char>) -> (r: bool)
    ensures
        r <==> word@.is_prefix_of(s@),
{
    if word.len() > s.len() {
        return false;
    }
    let mut i: usize = 0;
    while i < word.len()
        invariant
            i <= word@.len() <= s@.len(),
            forall|k: int| 0 <= k < i ==> s@[k] == word@[k],
        decreases word@.len() - i,
    {
        if s[i] != word[i] {
            assert(s@.subrange(0, word@.len() as int)[i as int] == s@[i as int]);
            return false;
        }
        i += 1;
    }
    assert(word@ =~= s@.subrange(0, word@.len() as int));
    true
}

/// Ten to the power `n`.
pub open spec fn power_of_ten(n: nat) -> nat
    decreases n,
{
    if n == 0 {
        1
    } else {
        10 * power_of_ten((n - 1) as nat)
    }
}

/// Digits are decimal, the highest first: a digit alone is its value, and digits behind
/// others move these up by a place each.
pub proof fn law_numbers_are_decimal(s: Seq<char>, t: Seq<char>, c: char)
    requires
        is_digit(c),
    ensures
        number_value(seq![c]) == c as u32 - '0' as u32,
        number_value(s + t) == number_value(s) * power_of_ten(t.len()) + number_value(t),
    decreases t.len(),
{
    let none = Seq::<char>::empty();
    assert(seq![c].drop_last() =~= none);
    assert(number_value(none) == 0);
    assert(seq![c].last() == c);
    if t.len() == 0 {
        assert(s + t =~= s);
        assert(number_value(s) * power_of_ten(0) == number_value(s)) by (nonlinear_arith)
            requires
                power_of_ten(0) == 1,
        ;
    } else {
        law_numbers_are_decimal(s, t.drop_last(), c);
        assert((s + t).drop_last() =~= s + t.drop_last());
        assert((s + t).last() == t.last());
        let p = power_of_ten((t.len() - 1) as nat);
        let n = number_value(s);
        assert(power_of_ten(t.len()) == 10 * p);
        assert(10 * (n * p) == n * (10 * p)) by (nonlinear_arith);
    }
}

/// What is left of a text without the white space round it neither begins nor ends with
/// white space, and what was taken off was white space.
pub proof fn law_trimming(s: Seq<char>)
    ensures
        trim(s).len() > 0 ==> !is_white(trim(s)[0]) && !is_white(trim(s).last()),
        exists|i: int| #[trigger] trimmed_at(s, trim(s), i),
{
    let u = trim_start(s);
    let t = trim_end(u);
    assert(trim(s) == t);
    lemma_trim_start(s);
    lemma_trim_end(u);
    let i = s.len() - u.len();
    assert(u =~= s.skip(i));
    assert(t =~= u.take(t.len() as int));
    assert forall|k: int| 0 <= k < t.len() implies #[trigger] t[k] == s[i + k] by {
        assert(t[k] == u[k]);
        assert(u[k] == s[i + k]);
    }
    assert(t =~= s.subrange(i, i + t.len()));
    assert forall|k: int| i + t.len() <= k < s.len() implies is_white(#[trigger] s[k]) by {
        assert(u[k - i] == s[k]);
    }
    assert(trimmed_at(s, t, i));
    if t.len() > 0 {
        assert(t[0] == u[0]);
    }
}

/// Within ASCII white space is the blank and the five codes from the tabulator to the
/// carriage return; digits and letters are none.
pub proof fn law_white_space(c: char)
    requires
        (c as u32) < 128,
    ensures
        is_white(c) <==> c == ' ' || 9 <= c as u32 <= 13,
        is_digit(c) || ascii_letter(c) ==> !is_white(c),
{
}

/// `t` stands in `s` from `i` on, and all else of `s` is white space.
pub open spec fn trimmed_at(s: Seq<char>, t: Seq<char>, i: int) -> bool {
    &&& 0 <= i
    &&& i + t.len() <= s.len()
    &&& t == s.subrange(i, i + t.len())
    &&& forall|k: int| 0 <= k < i ==> is_white(#[trigger] s[k])
    &&& forall|k: int| i + t.len() <= k < s.len() ==> is_white(#[trigger] s[k])
}

/// What is taken off at the start.
proof fn lemma_trim_start(s: Seq<char>)
    ensures
        trim_start(s).len() <= s.len(),
        trim_start(s) == s.skip(s.len() - trim_start(s).len()),
        forall|k: int| 0 <= k < s.len() - trim_start(s).len() ==> is_white(#[trigger] s[k]),
        trim_start(s).len() > 0 ==> !is_white(trim_start(s)[0]),
    decreases s.len(),
{
    if s.len() > 0 && is_white(s[0]) {
        let u = s.skip(1);
        lemma_trim_start(u);
        let t = trim_start(u);
        assert(t =~= s.skip(s.len() - t.len()));
        assert forall|k: int| 0 <= k < s.len() - t.len() implies is_white(#[trigger] s[k]) by {
            if k > 0 {
                assert(u[k - 1] == s[k]);
            }
        }
    } else {
        assert(s =~= s.skip(0));
    }
}

/// What is taken off at the end.
proof fn lemma_trim_end(s: Seq<char>)
    ensures
        trim_end(s).len() <= s.len(),
        trim_end(s) == s.take(trim_end(s).len() as int),
        forall|k: int| trim_end(s).len() <= k < s.len() ==> is_white(#[trigger] s[k]),
        trim_end(s).len() > 0 ==> !is_white(trim_end(s).last()),
    decreases s.len(),
{
    if s.len() > 0 && is_white(s.last()) {
        let u = s.drop_last();
        lemma_trim_end(u);
        let t = trim_end(u);
        assert(t =~= s.take(t.len() as int));
        assert forall|k: int| t.len() <= k < s.len() implies is_white(#[trigger] s[k]) by {
            if k < u.len() {
                assert(u[k] == s[k]);
            }
        }
    } else {
        assert(s =~= s.take(s.len() as int));
    }
}

} // verus!
