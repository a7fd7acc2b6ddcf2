//! Counts as people read them: decimal digits grouped in thousands by
//! commas (`1234567` is `1,234,567`), as ASCII bytes.

use vstd::prelude::*;

verus! {

/// The ASCII digit for `d`, below ten.
pub open spec fn digit(d: nat) -> u8 {
    (48 + d) as u8
}

/// The decimal digits of `n` below a thousand, no leading zeros.
pub open spec fn small_digits(n: nat) -> Seq<u8> {
    if n < 10 {
        seq![digit(n)]
    } else if n < 100 {
        seq![digit(n / 10), digit(n % 10)]
    } else {
        seq![digit(n / 100), digit((n / 10) % 10), digit(n % 10)]
    }
}

/// The three digits of a group below a thousand, leading zeros kept.
pub open spec fn group(n: nat) -> Seq<u8> {
    seq![digit(n / 100), digit((n / 10) % 10), digit(n % 10)]
}

/// `n` in decimal with a comma before each group of three digits from
/// the right.
pub open spec fn commas_of(n: nat) -> Seq<u8>
    decreases n,
{
    if n < 1000 {
        small_digits(n)
    } else {
        commas_of(n / 1000) + seq![44u8] + group(n % 1000)
    }
}

/// The ASCII digit for `d`, below ten.
fn ascii_digit(d: u64) -> (c: u8)
    requires
        d < 10,
    ensures
        c == digit(d as nat),
{
    (48 + d) as u8
}

/// Group a count into comma-separated thousands (`1234567` gives
/// `1,234,567`).
pub fn commas(n: u64) -> (out: Vec<u8>)
    ensures
        out@ == commas_of(n as nat),
    decreases n,
{
    if n < 10 {
        vec![ascii_digit(n)]
    } else if n < 100 {
        vec![ascii_digit(n / 10), ascii_digit(n % 10)]
    } else if n < 1000 {
        vec![ascii_digit(n / 100), ascii_digit((n / 10) % 10), ascii_digit(n % 10)]
    } else {
        let mut out = commas(n / 1000);
        let g = n % 1000;
        out.push(44u8);
        out.push(ascii_digit(g / 100));
        out.push(ascii_digit((g / 10) % 10));
        out.push(ascii_digit(g % 10));
        proof {
            assert(out@ =~= commas_of((n / 1000) as nat) + seq![44u8] + group(g as nat));
        }
        out
    }
}

} // verus!
