//! What the editor says of the time since the rules were saved.
use crate::text::digit;
use crate::text::digit_char;
use crate::text::string_of;
use vstd::prelude::*;
use vstd::string::StringExecFns;

verus! {

/// How long ago the rules were saved, as it is shown.
#[derive(Debug, Clone, Copy, PartialEq, Eq, Structural)]
pub enum SavedAgo {
    /// Less than twenty seconds ago.
    JustNow,
    /// So many seconds ago, in steps of twenty.
    Seconds(u64),
    /// So many whole minutes ago.
    Minutes(u64),
}

/// What is shown `seconds` whole seconds after the rules were saved.
pub open spec fn saved_ago_of(seconds: u64) -> SavedAgo {
    if seconds < 20 {
        SavedAgo::JustNow
    } else if seconds < 60 {
        SavedAgo::Seconds(((seconds / 20) * 20) as u64)
    } else {
        SavedAgo::Minutes(seconds / 60)
    }
}

/// What is shown `seconds` whole seconds after the rules were saved.
pub fn saved_ago(seconds: u64) -> (r: SavedAgo)
    ensures
        r == saved_ago_of(seconds),
{
    if seconds < 20 {
        SavedAgo::JustNow
    } else if seconds < 60 {
        SavedAgo::Seconds((seconds / 20) * 20)
    } else {
        SavedAgo::Minutes(seconds / 60)
    }
}

/// The decimal digits of `n`, the most significant first; `0` for zero.
pub open spec fn decimal(n: nat) -> Seq<char>
    decreases n,
{
    if n < 10 {
        seq![digit_char(n)]
    } else {
        decimal(n / 10).push(digit_char(n % 10))
    }
}

/// The decimal digits of `n`.
fn decimal_of(n: u64) -> (r: Vec<char>)
    ensures
        r@ == decimal(n as nat),
{
    // the digits from the least significant on
    let mut backwards: Vec<char> = Vec::new();
    let mut rest = n;
    while rest >= 10
        invariant
            decimal(n as nat) == decimal(rest as nat) + backwards@.reverse(),
        decreases rest,
    {
        let ghost before = backwards@;
        backwards.push(digit((rest % 10) as u8));
        proof {
            assert(backwards@.reverse() =~= seq![digit_char((rest % 10) as nat)] + before.reverse());
            assert(decimal(rest as nat) == decimal((rest / 10) as nat).push(digit_char((rest % 10) as nat)));
            assert(decimal((rest / 10) as nat).push(digit_char((rest % 10) as nat)) + before.reverse()
                =~= decimal((rest / 10) as nat) + backwards@.reverse());
        }
        rest = rest / 10;
    }
    let mut out: Vec<char> = Vec::new();
    out.push(digit(rest as u8));
    let count = backwards.len();
    for i in 0..count
        invariant
            count == backwards@.len(),
            out@ == seq![digit_char(rest as nat)] + backwards@.reverse().take(i as int),
    {
        out.push(backwards[count - 1 - i]);
        assert(backwards@.reverse().take(i + 1) =~= backwards@.reverse().take(i as int).push(
            backwards@[count - 1 - i],
        ));
    }
    assert(backwards@.reverse().take(count as int) =~= backwards@.reverse());
    out
}

impl SavedAgo {
    /// The words that are shown.
    pub open spec fn text(self) -> Seq<char> {
        match self {
            SavedAgo::JustNow => "Salvo agora mesmo"@,
            SavedAgo::Seconds(s) => "Salvo há "@ + decimal(s as nat) + "s"@,
            SavedAgo::Minutes(m) => "Salvo há "@ + decimal(m as nat) + "min"@,
        }
    }

    /// The words that are shown.
    pub fn to_string(&self) -> (r: String)
        ensures
            r@ == self.text(),
    {
        match self {
            SavedAgo::JustNow => "Salvo agora mesmo".to_owned(),
            SavedAgo::Seconds(s) => {
                let mut out = "Salvo há ".to_owned();
                out.append(string_of(&decimal_of(*s)).as_str());
                out.append("s");
                out
            },
            SavedAgo::Minutes(m) => {
                let mut out = "Salvo há ".to_owned();
                out.append(string_of(&decimal_of(*m)).as_str());
                out.append("min");
                out
            },
        }
    }
}

} // verus!
