//! Decimal rendering of unsigned integers into strings, and white space.

use vstd::prelude::*;

verus! {

/// The ASCII character of a decimal digit.
pub open spec fn digit_char(d: nat) -> char {
    if d == 0 {
        '0'
    } else if d == 1 {
        '1'
    } else if d == 2 {
        '2'
    } else if d == 3 {
        '3'
    } else if d == 4 {
        '4'
    } else if d == 5 {
        '5'
    } else if d == 6 {
        '6'
    } else if d == 7 {
        '7'
    } else if d == 8 {
        '8'
    } else {
        '9'
    }
}

/// The decimal digits of `n`, most significant first, without leading zeros.
pub open spec fn decimal(n: nat) -> Seq<char>
    decreases n,
{
    if n < 10 {
        seq![digit_char(n)]
    } else {
        decimal(n / 10).push(digit_char(n % 10))
    }
}

fn digit_str(d: u64) -> (s: &'static str)
    requires
        d < 10,
    ensures
        s@ == seq![digit_char(d as nat)],
{
    if d == 0 {
        proof { reveal_strlit("0"); }
        "0"
    } else if d == 1 {
        proof { reveal_strlit("1"); }
        "1"
    } else if d == 2 {
        proof { reveal_strlit("2"); }
        "2"
    } else if d == 3 {
        proof { reveal_strlit("3"); }
        "3"
    } else if d == 4 {
        proof { reveal_strlit("4"); }
        "4"
    } else if d == 5 {
        proof { reveal_strlit("5"); }
        "5"
    } else if d == 6 {
        proof { reveal_strlit("6"); }
        "6"
    } else if d == 7 {
        proof { reveal_strlit("7"); }
        "7"
    } else if d == 8 {
        proof { reveal_strlit("8"); }
        "8"
    } else {
        proof { reveal_strlit("9"); }
        "9"
    }
}

/// Appends the decimal representation of `n` to `out`.
pub fn push_decimal(out: &mut String, n: u64)
    ensures
        final(out)@ == old(out)@ + decimal(n as nat),
    decreases n,
{
    if n >= 10 {
        push_decimal(out, n / 10);
    }
    out.append(digit_str(n % 10));
    proof {
        assert(old(out)@ + decimal(n as nat) =~= old(out)@ + (if n >= 10 { decimal((n / 10) as nat) } else { seq![] }) + seq![digit_char((n % 10) as nat)]);
    }
}

/// The characters with the Unicode `White_Space` property, which is what
/// `char::is_whitespace` and `str::trim` go by.
pub open spec fn is_white_space(c: char) -> bool {
    let n = c as int;
    ||| 0x9 <= n <= 0xd
    ||| n == 0x20
    ||| n == 0x85
    ||| n == 0xa0
    ||| n == 0x1680
    ||| 0x2000 <= n <= 0x200a
    ||| n == 0x2028
    ||| n == 0x2029
    ||| n == 0x202f
    ||| n == 0x205f
    ||| n == 0x3000
}

/// Whether a text holds nothing but white space (the empty text does).
pub open spec fn all_white_space(s: Seq<char>) -> bool {
    forall|k: int| 0 <= k < s.len() ==> is_white_space(#[trigger] s[k])
}

/// `str::trim`: the part of `s` that is left once its leading and trailing
/// white space is removed. The contract says that the result is a contiguous
/// part of `s`, that everything cut off on either side is white space, and
/// that a non-empty result neither starts nor ends with white space.
#[verifier::external_body]
fn trim(s: &str) -> (t: &str)
    ensures
        exists|a: int, b: int|
            #![trigger s@.subrange(a, b)]
            {
                &&& 0 <= a <= b <= s@.len()
                &&& t@ == s@.subrange(a, b)
                &&& forall|k: int| 0 <= k < a ==> is_white_space(#[trigger] s@[k])
                &&& forall|k: int| b <= k < s@.len() ==> is_white_space(#[trigger] s@[k])
                &&& a < b ==> !is_white_space(s@[a]) && !is_white_space(s@[b - 1])
            },
{
    s.trim()
}

/// Whether `s` is empty once trimmed, that is, holds only white space.
pub fn is_blank(s: &str) -> (blank: bool)
    ensures
        blank == all_white_space(s@),
{
    let t = trim(s);
    let blank = t.is_empty();
    proof {
        let (a, b) = choose|a: int, b: int|
            {
                &&& 0 <= a <= b <= s@.len()
                &&& t@ == s@.subrange(a, b)
                &&& forall|k: int| 0 <= k < a ==> is_white_space(#[trigger] s@[k])
                &&& forall|k: int| b <= k < s@.len() ==> is_white_space(#[trigger] s@[k])
                &&& a < b ==> !is_white_space(s@[a]) && !is_white_space(s@[b - 1])
            };
        if blank {
            assert forall|k: int| 0 <= k < s@.len() implies is_white_space(#[trigger] s@[k]) by {
                if k >= a {
                    assert(b <= k);
                }
            }
        } else {
            assert(a < b);
            assert(!is_white_space(s@[a]));
        }
    }
    blank
}

} // verus!
