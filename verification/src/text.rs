//! Building text: strings from characters, and numbers in decimal.

use itertools::Itertools;
use vstd::prelude::*;

verus! {

/// Calls `Itertools::join` on the characters with an empty separator. `join`
/// writes each item as `Display` does and the separator between two items, so the
/// string holds the characters, in their order, and nothing else.
#[verifier::external_body]
pub(crate) fn join_chars(chars: &Vec<char>) -> (text: String)
    ensures
        text@ == chars@,
{
    chars.iter().join("")
}

/// The character of a decimal digit.
pub open spec fn digit_char(digit: nat) -> char {
    ('0' as u8 + digit) as char
}

/// A number in decimal: its digits, the highest first, without a leading zero
/// but for the number zero itself.
pub open spec fn decimal(n: nat) -> Seq<char>
    decreases n,
{
    if n < 10 {
        seq![digit_char(n)]
    } else {
        decimal(n / 10).push(digit_char(n % 10))
    }
}

/// The characters of a number in decimal.
pub fn decimal_chars(n: u64) -> (chars: Vec<char>)
    ensures
        chars@ == decimal(n as nat),
{
    let mut reversed: Vec<char> = Vec::new();
    let mut rest: u64 = n;
    loop
        invariant_except_break
            decimal(n as nat) == decimal(rest as nat) + reversed@.reverse(),
        ensures
            decimal(n as nat) == reversed@.reverse(),
        decreases rest,
    {
        let digit: u8 = (rest % 10) as u8;
        let ghost before = reversed@;
        reversed.push((48 + digit) as char);
        assert(reversed@.reverse() =~= seq![digit_char((rest % 10) as nat)] + before.reverse());
        if rest < 10 {
            assert(decimal(rest as nat) + before.reverse() =~= reversed@.reverse());
            break ;
        }
        assert(decimal(rest as nat) + before.reverse() =~= decimal((rest / 10) as nat)
            + reversed@.reverse());
        rest = rest / 10;
    }
    let mut chars: Vec<char> = Vec::new();
    let mut i: usize = reversed.len();
    while i > 0
        invariant
            i <= reversed.len(),
            chars@ == reversed@.reverse().take(reversed.len() - i),
        decreases i,
    {
        i = i - 1;
        chars.push(reversed[i]);
        assert(chars@ =~= reversed@.reverse().take(reversed.len() - i));
    }
    assert(chars@ =~= reversed@.reverse());
    chars
}

/// A number in decimal.
pub fn decimal_string(n: u64) -> (text: String)
    ensures
        text@ == decimal(n as nat),
{
    let chars = decimal_chars(n);
    join_chars(&chars)
}

} // verus!
