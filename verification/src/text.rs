use vstd::prelude::*;
use crate::parser::lexer::push_char;

verus! {

/// The character of decimal digit `d`.
pub open spec fn digit_char(d: nat) -> char {
    (d + 48) as char
}

/// The decimal digits of `n`, most significant first, without leading zeros.
pub open spec fn spec_digits(n: nat) -> Seq<char>
    decreases n,
{
    if n < 10 {
        seq![digit_char(n)]
    } else {
        spec_digits(n / 10).push(digit_char(n % 10))
    }
}

/// The decimal representation of `n`, with a leading '-' when it is negative.
pub open spec fn spec_decimal(n: int) -> Seq<char> {
    if n < 0 {
        seq!['-'] + spec_digits((-n) as nat)
    } else {
        spec_digits(n as nat)
    }
}

/// The character of decimal digit `d`.
fn digit(d: u64) -> (c: char)
    requires
        d < 10,
    ensures
        c == digit_char(d as nat),
{
    let b: u8 = d as u8 + 48;
    b as char
}

/// The decimal digits of `m`, most significant first.
fn digits(m: u64) -> (s: String)
    ensures
        s@ == spec_digits(m as nat),
    decreases m,
{
    if m < 10 {
        let mut s = String::from_str("");
        proof { reveal_strlit(""); }
        push_char(&mut s, digit(m));
        s
    } else {
        let mut s = digits(m / 10);
        push_char(&mut s, digit(m % 10));
        s
    }
}

/// The decimal representation of `n`, as `std`'s `Display` for `i64` writes it.
pub(crate) fn decimal_i64(n: i64) -> (s: String)
    ensures
        s@ == spec_decimal(n as int),
{
    if n < 0 {
        let m: u64 = if n == i64::MIN { 9223372036854775808u64 } else { (-n) as u64 };
        let mut s = String::from_str("-");
        proof { reveal_strlit("-"); }
        let d = digits(m);
        s.append(d.as_str());
        s
    } else {
        digits(n as u64)
    }
}

/// The decimal representation of `n`, as `std`'s `Display` for `usize` writes it.
pub(crate) fn decimal_usize(n: usize) -> (s: String)
    ensures
        s@ == spec_decimal(n as int),
{
    digits(n as u64)
}

/// `prefix`, then `n` in decimal, then `suffix`.
pub fn count_message(prefix: &str, n: i64, suffix: &str) -> (s: String)
    ensures
        s@ == prefix@ + spec_decimal(n as int) + suffix@,
{
    let mut s = String::from_str(prefix);
    let d = decimal_i64(n);
    s.append(d.as_str());
    s.append(suffix);
    s
}

} // verus!
