//! Text as sequences of characters.
use vstd::prelude::*;
use vstd::std_specs::iter::IteratorSpec;

verus! {

/// The characters of `s`.
pub fn chars_of(s: &str) -> (r: Vec<char>)
    ensures
        r@ == s@,
{
    let mut out: Vec<char> = Vec::new();
    for c in it: s.chars()
        invariant
            it.seq() == s@,
            out@ == it.seq().take(it.index()),
    {
        out.push(c);
        assert(it.seq().take(it.index() + 1) == it.seq().take(it.index()).push(c));
    }
    assert(s@.take(s@.len() as int) == s@);
    out
}

/// The string of the characters `chars`. Calls `String::from_iter` of std,
/// which makes the string that holds the characters it is given, in their order.
#[verifier::external_body]
pub(crate) fn string_of(chars: &Vec<char>) -> (s: String)
    ensures
        s@ == chars@,
{
    String::from_iter(chars.iter())
}

/// The character of the decimal digit `d`.
pub open spec fn digit_char(d: nat) -> char {
    (('0' as nat) + d) as char
}

/// The decimal digit `d` as a character.
pub fn digit(d: u8) -> (c: char)
    requires
        d <= 9,
    ensures
        c == digit_char(d as nat),
{
    (48u8 + d) as char
}

/// The pieces of text `parts`, one after the other.
pub open spec fn joined(parts: Seq<Seq<char>>) -> Seq<char>
    decreases parts.len(),
{
    if parts.len() == 0 {
        Seq::empty()
    } else {
        joined(parts.drop_last()) + parts.last()
    }
}

/// The characters of the pieces of text `parts`, one piece after the other.
pub fn join(parts: &Vec<String>) -> (r: Vec<char>)
    ensures
        r@ == joined(parts.deep_view()),
{
    let mut out: Vec<char> = Vec::new();
    let ghost all = parts.deep_view();
    proof {
        assert(all.take(0) == Seq::<Seq<char>>::empty());
    }
    for i in 0..parts.len()
        invariant
            all == parts.deep_view(),
            out@ == joined(all.take(i as int)),
    {
        let mut piece = chars_of(parts[i].as_str());
        proof {
            assert(all.take(i + 1).drop_last() == all.take(i as int));
            assert(all.take(i + 1).last() == parts@[i as int]@);
        }
        out.append(&mut piece);
    }
    proof {
        assert(all.take(parts.len() as int) == all);
    }
    out
}

/// `s` begins with `prefix`.
pub open spec fn begins_with(s: Seq<char>, prefix: Seq<char>) -> bool {
    prefix.len() <= s.len() && s.take(prefix.len() as int) == prefix
}

/// `s` without `prefix` at its beginning, or `s` itself where it does not begin with it.
pub open spec fn without_prefix(s: Seq<char>, prefix: Seq<char>) -> Seq<char> {
    if begins_with(s, prefix) {
        s.skip(prefix.len() as int)
    } else {
        s
    }
}

/// `s` without `prefix` at its beginning.
pub fn strip_prefix(s: &Vec<char>, prefix: &Vec<char>) -> (r: Vec<char>)
    ensures
        r@ == without_prefix(s@, prefix@),
{
    let n = prefix.len();
    let mut begins = n <= s.len();
    let mut i: usize = 0;
    while begins && i < n
        invariant
            n == prefix.len(),
            i <= n,
            begins ==> n <= s.len() && s@.take(i as int) == prefix@.take(i as int),
            !begins ==> !begins_with(s@, prefix@),
        decreases n - i, begins as int,
    {
        if s[i] != prefix[i] {
            begins = false;
            assert(s@.take(n as int)[i as int] != prefix@[i as int]);
        } else {
            assert(s@.take(i + 1) == s@.take(i as int).push(s@[i as int]));
            assert(prefix@.take(i + 1) == prefix@.take(i as int).push(prefix@[i as int]));
            i += 1;
        }
    }
    let start = if begins {
        assert(prefix@.take(n as int) == prefix@);
        n
    } else {
        0
    };
    let mut out: Vec<char> = Vec::new();
    for j in start..s.len()
        invariant
            start <= s.len(),
            out@ == s@.subrange(start as int, j as int),
    {
        out.push(s[j]);
        assert(s@.subrange(start as int, j + 1) == s@.subrange(start as int, j as int).push(s@[j as int]));
    }
    assert(s@.subrange(start as int, s.len() as int) == s@.skip(start as int));
    assert(s@.skip(0) == s@);
    out
}

/// `s` with `to` in the place of each `from`.
pub open spec fn replaced(s: Seq<char>, from: char, to: char) -> Seq<char> {
    s.map_values(|c: char| if c == from { to } else { c })
}

/// The text `s` with `to` in the place of each `from`.
pub fn replace(s: &str, from: char, to: char) -> (r: String)
    ensures
        r@ == replaced(s@, from, to),
{
    let chars = chars_of(s);
    let mut out: Vec<char> = Vec::new();
    for i in 0..chars.len()
        invariant
            out@ == replaced(chars@.take(i as int), from, to),
    {
        out.push(if chars[i] == from { to } else { chars[i] });
        assert(out@ =~= replaced(chars@.take(i + 1), from, to));
    }
    assert(chars@.take(chars.len() as int) == chars@);
    string_of(&out)
}

/// The first `c` of `s` stands at `p`.
pub open spec fn first_at(s: Seq<char>, c: char, p: int) -> bool {
    &&& 0 <= p < s.len()
    &&& s[p] == c
    &&& forall|q: int| 0 <= q < p ==> s[q] != c
}

/// The place of the first `c` in `s` at or behind `from`.
pub fn find_from(s: &Vec<char>, c: char, from: usize) -> (r: Option<usize>)
    requires
        from <= s.len(),
    ensures
        match r {
            Some(p) => from <= p && first_at(s@.skip(from as int), c, p - from),
            None => forall|q: int| 0 <= q < s@.skip(from as int).len() ==> s@.skip(from as int)[q] != c,
        },
{
    let mut p = from;
    while p < s.len()
        invariant
            from <= p <= s.len(),
            forall|q: int| from <= q < p ==> s@[q] != c,
        decreases s.len() - p,
    {
        if s[p] == c {
            return Some(p);
        }
        p += 1;
    }
    None
}

/// The characters of `s` from `from` up to `to`.
pub fn slice(s: &Vec<char>, from: usize, to: usize) -> (r: Vec<char>)
    requires
        from <= to <= s.len(),
    ensures
        r@ == s@.subrange(from as int, to as int),
{
    let mut out: Vec<char> = Vec::new();
    for i in from..to
        invariant
            from <= to <= s.len(),
            out@ == s@.subrange(from as int, i as int),
    {
        out.push(s[i]);
        assert(s@.subrange(from as int, i + 1) == s@.subrange(from as int, i as int).push(s@[i as int]));
    }
    out
}

} // verus!
