//! Numbers as decimal text.

use vstd::prelude::*;

verus! {

/// The character of a digit.
pub open spec fn digit_char(d: nat) -> char {
    (48 + d) as char
}

/// `c` is a decimal digit.
pub open spec fn is_digit(c: char) -> bool {
    48 <= c as nat <= 57
}

/// The decimal text of `n`, without leading zeros.
pub open spec fn decimal(n: nat) -> Seq<char>
    decreases n,
{
    if n < 10 {
        seq![digit_char(n)]
    } else {
        decimal(n / 10).push(digit_char(n % 10))
    }
}

/// The number that a text of digits stands for.
pub open spec fn number(s: Seq<char>) -> int
    decreases s.len(),
{
    if s.len() == 0 {
        0
    } else {
        number(s.drop_last()) * 10 + (s.last() as int - 48)
    }
}

/// `s` is made of digits, and of one at least.
pub open spec fn is_number(s: Seq<char>) -> bool {
    s.len() > 0 && forall|i: int| 0 <= i < s.len() ==> is_digit(#[trigger] s[i])
}

/// The 32-bit number that a text stands for: digits, with an optional plus sign before them.
pub open spec fn parsed_u32(s: Seq<char>) -> Option<u32> {
    let digits = if s.len() > 0 && s[0] == '+' {
        s.skip(1)
    } else {
        s
    };
    if is_number(digits) && number(digits) <= u32::MAX {
        Some(number(digits) as u32)
    } else {
        None
    }
}

/// `u64::to_string` of the standard library: the decimal text of the number.
#[verifier::external_body]
pub(crate) fn to_decimal(n: u64) -> (s: String)
    ensures
        s@ == decimal(n as nat),
{
    n.to_string()
}

/// `str::parse::<u32>` of the standard library: an optional plus sign and then only digits, at
/// least one, that make a number of 32 bits. Why a text is refused is not told.
#[verifier::external_body]
pub(crate) fn parse_u32(s: &str) -> (n: Option<u32>)
    ensures
        n == parsed_u32(s@),
{
    s.parse::<u32>().ok()
}

/// The decimal text of a number is made of digits and stands for that number.
pub proof fn lemma_decimal(n: nat)
    ensures
        is_number(decimal(n)),
        number(decimal(n)) == n,
    decreases n,
{
    reveal_with_fuel(number, 2);
    if n >= 10 {
        lemma_decimal(n / 10);
        let before = decimal(n / 10);
        assert(decimal(n).drop_last() =~= before);
        assert forall|i: int| 0 <= i < decimal(n).len() implies is_digit(#[trigger] decimal(n)[i]) by {
            if i < before.len() {
                assert(decimal(n)[i] == before[i]);
            }
        }
    }
}

/// The number of a character is the same in every type that holds it.
pub proof fn lemma_char_number(c: char)
    ensures
        0 <= c as int <= 0x10FFFF,
        c as u32 == c as int,
        c as nat == c as int,
{
}

/// What a 32-bit number is written as is read back as that number.
pub proof fn law_decimal_is_read_back(n: u32)
    ensures
        parsed_u32(decimal(n as nat)) == Some(n),
{
    lemma_decimal(n as nat);
    assert(is_digit(decimal(n as nat)[0]));
}

} // verus!
