//! Character-level scanning shared by the record parser: whitespace tokens,
//! separator-delimited pieces and unsigned decimal numbers.

use vstd::prelude::*;

verus! {

/// The Unicode `White_Space` characters, as `char::is_whitespace` classifies them.
pub open spec fn is_space(c: char) -> bool {
    let u = c as u32;
    (9 <= u <= 13) || u == 32 || u == 0x85 || u == 0xa0 || u == 0x1680 || (0x2000 <= u <= 0x200a)
        || u == 0x2028 || u == 0x2029 || u == 0x202f || u == 0x205f || u == 0x3000
}

pub fn is_space_char(c: char) -> (r: bool)
    ensures
        r == is_space(c),
{
    let u = c as u32;
    (9 <= u && u <= 13) || u == 32 || u == 0x85 || u == 0xa0 || u == 0x1680 || (0x2000 <= u && u
        <= 0x200a) || u == 0x2028 || u == 0x2029 || u == 0x202f || u == 0x205f || u == 0x3000
}

pub open spec fn is_digit(c: char) -> bool {
    48 <= (c as u32) <= 57
}

pub open spec fn digit_value(c: char) -> nat {
    ((c as u32) - 48) as nat
}

pub open spec fn all_digits(s: Seq<char>) -> bool {
    forall|i: int| 0 <= i < s.len() ==> is_digit(#[trigger] s[i])
}

/// The number that a sequence of decimal digits denotes (most significant first).
pub open spec fn digits_value(s: Seq<char>) -> nat
    decreases s.len(),
{
    if s.len() == 0 {
        0
    } else {
        digits_value(s.drop_last()) * 10 + digit_value(s.last())
    }
}

/// What parsing `s` as an unsigned integer no larger than `max` gives: an optional `+`,
/// then at least one decimal digit; `None` on anything else or on a value above `max`.
pub open spec fn parse_unsigned(s: Seq<char>, max: int) -> Option<nat> {
    let body = if s.len() > 0 && s[0] == '+' {
        s.drop_first()
    } else {
        s
    };
    if body.len() > 0 && all_digits(body) && digits_value(body) <= max {
        Some(digits_value(body))
    } else {
        None
    }
}

/// The lenient reading used for every numeric field: a malformed number counts as zero.
pub open spec fn unsigned_or_zero(s: Seq<char>, max: int) -> nat {
    match parse_unsigned(s, max) {
        Some(v) => v,
        None => 0,
    }
}

/// First position in `[i, hi)` holding `sep`, or `hi` when there is none.
pub open spec fn find_sep(s: Seq<char>, sep: char, i: int, hi: int) -> int
    decreases hi - i,
{
    if i >= hi {
        hi
    } else if s[i] == sep {
        i
    } else {
        find_sep(s, sep, i + 1, hi)
    }
}

/// Bounds of the `k`-th piece of `s[lo..hi]` split on `sep`; an empty range at `hi` when
/// there are fewer pieces.
pub open spec fn piece_range(s: Seq<char>, sep: char, lo: int, hi: int, k: nat) -> (int, int)
    decreases k,
{
    let p = find_sep(s, sep, lo, hi);
    if k == 0 {
        (lo, p)
    } else if p >= hi {
        (hi, hi)
    } else {
        piece_range(s, sep, p + 1, hi, (k - 1) as nat)
    }
}

/// First position at or after `i` that does not hold whitespace, or `s.len()`.
pub open spec fn skip_space(s: Seq<char>, i: int) -> int
    decreases s.len() - i,
{
    if i >= s.len() {
        s.len() as int
    } else if !is_space(s[i]) {
        i
    } else {
        skip_space(s, i + 1)
    }
}

/// First position at or after `i` that holds whitespace, or `s.len()`.
pub open spec fn token_end(s: Seq<char>, i: int) -> int
    decreases s.len() - i,
{
    if i >= s.len() {
        s.len() as int
    } else if is_space(s[i]) {
        i
    } else {
        token_end(s, i + 1)
    }
}

/// Bounds of the `k`-th whitespace-separated token of `s`, searched from `i`; an empty
/// range at the end when there are fewer tokens.
pub open spec fn token_range(s: Seq<char>, i: int, k: nat) -> (int, int)
    decreases k,
{
    let a = skip_space(s, i);
    let b = token_end(s, a);
    if k == 0 {
        (a, b)
    } else {
        token_range(s, b, (k - 1) as nat)
    }
}

/// Position of the first `sep` in `s[i..hi]`, or `hi`.
pub fn find_separator(s: &Vec<char>, sep: char, i: usize, hi: usize) -> (r: usize)
    requires
        i <= hi <= s.len(),
    ensures
        r == find_sep(s@, sep, i as int, hi as int),
        i <= r <= hi,
{
    let mut j = i;
    while j < hi
        invariant
            i <= j <= hi <= s.len(),
            find_sep(s@, sep, j as int, hi as int) == find_sep(s@, sep, i as int, hi as int),
        decreases hi - j,
    {
        if s[j] == sep {
            return j;
        }
        j = j + 1;
    }
    j
}

/// Bounds of the `k`-th piece of `s[lo..hi]` split on `sep`.
pub fn piece_bounds(s: &Vec<char>, sep: char, lo: usize, hi: usize, k: usize) -> (r: (usize, usize))
    requires
        lo <= hi <= s.len(),
    ensures
        r.0 as int == piece_range(s@, sep, lo as int, hi as int, k as nat).0,
        r.1 as int == piece_range(s@, sep, lo as int, hi as int, k as nat).1,
        lo <= r.0 <= r.1 <= hi,
{
    let mut start = lo;
    let mut j = k;
    loop
        invariant
            lo <= start <= hi <= s.len(),
            piece_range(s@, sep, start as int, hi as int, j as nat) == piece_range(
                s@,
                sep,
                lo as int,
                hi as int,
                k as nat,
            ),
        decreases j,
    {
        let p = find_separator(s, sep, start, hi);
        if j == 0 {
            return (start, p);
        }
        if p == hi {
            return (hi, hi);
        }
        start = p + 1;
        j = j - 1;
    }
}

/// Bounds of the `k`-th whitespace-separated token of `s`.
pub fn token_bounds(s: &Vec<char>, k: usize) -> (r: (usize, usize))
    ensures
        r.0 as int == token_range(s@, 0, k as nat).0,
        r.1 as int == token_range(s@, 0, k as nat).1,
        r.0 <= r.1 <= s.len(),
{
    let mut i: usize = 0;
    let mut j = k;
    loop
        invariant
            i <= s.len(),
            token_range(s@, i as int, j as nat) == token_range(s@, 0, k as nat),
        decreases j,
    {
        let mut a = i;
        while a < s.len() && is_space_char(s[a])
            invariant
                i <= a <= s.len(),
                skip_space(s@, a as int) == skip_space(s@, i as int),
            decreases s.len() - a,
        {
            a = a + 1;
        }
        let mut b = a;
        while b < s.len() && !is_space_char(s[b])
            invariant
                a <= b <= s.len(),
                token_end(s@, b as int) == token_end(s@, a as int),
            decreases s.len() - b,
        {
            b = b + 1;
        }
        if j == 0 {
            return (a, b);
        }
        i = b;
        j = j - 1;
    }
}

/// Parses `s[lo..hi]` as an unsigned integer no larger than `max`.
pub fn parse_unsigned_range(s: &Vec<char>, lo: usize, hi: usize, max: u64) -> (r: Option<u64>)
    requires
        lo <= hi <= s.len(),
    ensures
        r matches Some(v) ==> parse_unsigned(s@.subrange(lo as int, hi as int), max as int) == Some(
            v as nat,
        ),
        r is None ==> parse_unsigned(s@.subrange(lo as int, hi as int), max as int) is None,
{
    let ghost t = s@.subrange(lo as int, hi as int);
    let mut start = lo;
    if lo < hi && s[lo] == '+' {
        start = lo + 1;
    }
    let ghost body = s@.subrange(start as int, hi as int);
    assert(body =~= (if t.len() > 0 && t[0] == '+' {
        t.drop_first()
    } else {
        t
    }));
    if start == hi {
        return None;
    }
    let mut v: u128 = 0;
    let mut over = false;
    let mut i = start;
    while i < hi
        invariant
            start <= i <= hi <= s.len(),
            body == s@.subrange(start as int, hi as int),
            t == s@.subrange(lo as int, hi as int),
            body == (if t.len() > 0 && t[0] == '+' {
                t.drop_first()
            } else {
                t
            }),
            all_digits(s@.subrange(start as int, i as int)),
            over ==> digits_value(s@.subrange(start as int, i as int)) > max,
            !over ==> v == digits_value(s@.subrange(start as int, i as int)) && v <= max,
        decreases hi - i,
    {
        let c = s[i];
        let u = c as u32;
        if u < 48 || u > 57 {
            assert(body[i - start] == c);
            assert(!is_digit(body[i - start]));
            assert(!all_digits(body));
            return None;
        }
        let ghost pre = s@.subrange(start as int, i as int);
        let ghost next = s@.subrange(start as int, i + 1);
        assert(next.drop_last() =~= pre);
        assert(next.last() == c);
        if !over {
            v = v * 10 + (u - 48) as u128;
            if v > max as u128 {
                over = true;
            }
        }
        i = i + 1;
    }
    assert(body =~= s@.subrange(start as int, i as int));
    if over {
        None
    } else {
        Some(v as u64)
    }
}

} // verus!
