//! Times of day as text: `08:05`.
use crate::school::Time;
use crate::text::chars_of;
use crate::text::digit;
use crate::text::digit_char;
use crate::text::string_of;
use vstd::prelude::*;

verus! {

/// `c` is a decimal digit.
pub open spec fn is_digit(c: char) -> bool {
    '0' <= c <= '9'
}

/// The number that the decimal digits `s` write.
pub open spec fn digits_value(s: Seq<char>) -> nat
    decreases s.len(),
{
    if s.len() == 0 {
        0
    } else {
        digits_value(s.drop_last()) * 10 + (s.last() as nat - '0' as nat) as nat
    }
}

/// The number below 256 that `s` writes: decimal digits, at least one,
/// after a `+` or after nothing.
pub open spec fn number_of(s: Seq<char>) -> Option<u8> {
    let digits = unsigned(s);
    if digits.len() > 0 && all_digits(digits) && digits_value(digits) <= 255 {
        Some(digits_value(digits) as u8)
    } else {
        None
    }
}

/// `s` without the `+` it may begin with.
pub open spec fn unsigned(s: Seq<char>) -> Seq<char> {
    if s.len() > 0 && s[0] == '+' {
        s.drop_first()
    } else {
        s
    }
}

/// `s` holds decimal digits only.
pub open spec fn all_digits(s: Seq<char>) -> bool {
    forall|i: int| 0 <= i < s.len() ==> is_digit(#[trigger] s[i])
}

/// The first colon of `s` stands at `p`.
pub open spec fn first_colon(s: Seq<char>, p: int) -> bool {
    &&& 0 <= p < s.len()
    &&& s[p] == ':'
    &&& forall|q: int| 0 <= q < p ==> s[q] != ':'
}

/// The time that `s` writes: the hour, a colon and the minute, each a
/// number as `number_of` reads it, the hour at most 23 and the minute at most 59.
pub open spec fn time_of(s: Seq<char>) -> Option<Time> {
    if exists|p: int| first_colon(s, p) {
        let p = choose|p: int| first_colon(s, p);
        match (number_of(s.take(p)), number_of(s.skip(p + 1))) {
            (Some(h), Some(m)) => if h <= 23 && m <= 59 {
                Some(Time(h, m))
            } else {
                None
            },
            _ => None,
        }
    } else {
        None
    }
}

/// Digits put behind digits do not make the number smaller.
pub proof fn lemma_digits_grow(s: Seq<char>, n: int)
    requires
        0 <= n <= s.len(),
        all_digits(s),
    ensures
        digits_value(s.take(n)) <= digits_value(s),
    decreases s.len() - n,
{
    if n < s.len() {
        assert(s.take(n + 1).drop_last() == s.take(n));
        assert(is_digit(s[n]));
        lemma_digits_grow(s, n + 1);
    } else {
        assert(s.take(n) == s);
    }
}

/// Reads the number that `s` writes.
fn parse_number(s: &Vec<char>) -> (r: Option<u8>)
    ensures
        r == number_of(s@),
{
    let n = s.len();
    let start: usize = if n > 0 && s[0] == '+' {
        1
    } else {
        0
    };
    if start == n {
        return None;
    }
    let ghost digits = s@.skip(start as int);
    proof {
        if start == 1 {
            assert(digits == s@.drop_first());
        } else {
            assert(digits == s@);
        }
        assert(digits.take(0) == Seq::<char>::empty());
    }
    let mut value: u16 = 0;
    for i in start..n
        invariant
            start <= n,
            n == s.len(),
            digits == s@.skip(start as int),
            digits.len() > 0,
            digits == unsigned(s@),
            forall|j: int| 0 <= j < i - start ==> is_digit(#[trigger] digits[j]),
            value == digits_value(digits.take(i - start)),
            value <= 255,
    {
        let c = s[i];
        assert(digits[i - start] == c);
        if c < '0' || c > '9' {
            assert(!is_digit(digits[i - start]));
            return None;
        }
        proof {
            assert(digits.take(i + 1 - start).drop_last() == digits.take(i - start));
        }
        value = value * 10 + ((c as u8 - 48u8) as u16);
        if value > 255 {
            proof {
                if all_digits(digits) {
                    lemma_digits_grow(digits, i + 1 - start);
                }
            }
            return None;
        }
    }
    proof {
        assert(digits.take(n - start) == digits);
    }
    Some(value as u8)
}

/// The text of a number below 256 in a field of two digits: the decimal
/// digits of `n`, with a `0` before them where `n` has one digit only.
pub open spec fn two_digits(n: u8) -> Seq<char> {
    if n < 100 {
        seq![digit_char((n / 10) as nat), digit_char((n % 10) as nat)]
    } else {
        seq![digit_char((n / 100) as nat), digit_char(((n / 10) % 10) as nat), digit_char((n % 10) as nat)]
    }
}

/// Writes `n` behind `out`, in a field of two digits.
fn push_two_digits(out: &mut Vec<char>, n: u8)
    ensures
        final(out)@ == old(out)@ + two_digits(n),
{
    if n >= 100 {
        out.push(digit(n / 100));
        out.push(digit((n / 10) % 10));
    } else {
        out.push(digit(n / 10));
    }
    out.push(digit(n % 10));
    assert(out@ =~= old(out)@ + two_digits(n));
}

impl Time {
    /// The text of the time: hour and minute, each in a field of two digits, with a colon between.
    pub open spec fn text(self) -> Seq<char> {
        two_digits(self.0) + seq![':'] + two_digits(self.1)
    }

    /// The time that `s` writes, if it writes one.
    pub fn parse(s: &str) -> (r: Option<Time>)
        ensures
            r == time_of(s@),
    {
        let chars = chars_of(s);
        let mut p: usize = 0;
        while p < chars.len() && chars[p] != ':'
            invariant
                p <= chars.len(),
                forall|q: int| 0 <= q < p ==> chars@[q] != ':',
            decreases chars.len() - p,
        {
            p += 1;
        }
        if p == chars.len() {
            assert(!exists|p: int| first_colon(chars@, p));
            return None;
        }
        assert(first_colon(chars@, p as int));
        let mut hour: Vec<char> = Vec::new();
        for i in 0..p
            invariant
                p < chars.len(),
                hour@ == chars@.take(i as int),
        {
            hour.push(chars[i]);
            assert(chars@.take(i + 1) == chars@.take(i as int).push(chars@[i as int]));
        }
        let mut minute: Vec<char> = Vec::new();
        for i in p + 1..chars.len()
            invariant
                p < chars.len(),
                minute@ == chars@.subrange(p + 1, i as int),
        {
            minute.push(chars[i]);
            assert(chars@.subrange(p + 1, i + 1) == chars@.subrange(p + 1, i as int).push(
                chars@[i as int],
            ));
        }
        assert(chars@.subrange(p + 1, chars.len() as int) == chars@.skip(p + 1));
        match (parse_number(&hour), parse_number(&minute)) {
            (Some(h), Some(m)) => {
                if h <= 23 && m <= 59 {
                    Some(Time(h, m))
                } else {
                    None
                }
            },
            _ => None,
        }
    }

    /// The time as text: `08:05` for five past eight.
    pub fn to_string(&self) -> (s: String)
        ensures
            s@ == self.text(),
    {
        let mut out: Vec<char> = Vec::new();
        push_two_digits(&mut out, self.0);
        out.push(':');
        push_two_digits(&mut out, self.1);
        assert(out@ =~= self.text());
        string_of(&out)
    }
}

impl std::str::FromStr for Time {
    type Err = &'static str;

    /// The time that `s` writes, as `Time::parse` reads it.
    fn from_str(s: &str) -> (r: Result<Self, Self::Err>)
        ensures
            match r {
                Ok(t) => time_of(s@) == Some(t),
                Err(_) => time_of(s@) is None,
            },
    {
        match Time::parse(s) {
            Some(t) => Ok(t),
            None => Err("Bad time format"),
        }
    }
}

/// The text of a time of day reads back as that time.
pub proof fn lemma_time_reads_back(t: Time)
    requires
        t.0 <= 23,
        t.1 <= 59,
    ensures
        time_of(t.text()) == Some(t),
{
    let s = t.text();
    let hour = two_digits(t.0);
    let minute = two_digits(t.1);
    assert(s.len() == 5);
    assert(s[2] == ':');
    assert(first_colon(s, 2)) by {
        assert(is_digit(s[0]) && is_digit(s[1]));
    }
    let p = choose|p: int| first_colon(s, p);
    assert(p == 2) by {
        if p < 2 {
            assert(is_digit(s[p]));
        }
    }
    assert(s.take(2) =~= hour);
    assert(s.skip(3) =~= minute);
    lemma_two_digits_value(t.0);
    lemma_two_digits_value(t.1);
}

/// Two digits write the number they were made of.
proof fn lemma_two_digits_value(n: u8)
    requires
        n < 100,
    ensures
        number_of(two_digits(n)) == Some(n),
{
    let d = two_digits(n);
    assert(is_digit(d[0]) && is_digit(d[1]));
    assert(unsigned(d) == d);
    assert(d.drop_last() =~= seq![d[0]]);
    assert(d.drop_last().drop_last() =~= Seq::<char>::empty());
    assert(digits_value(d.drop_last().drop_last()) == 0);
    assert(digits_value(d.drop_last()) == (n / 10) as nat);
    assert(digits_value(d) == n as nat);
}

} // verus!
