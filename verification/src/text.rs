//! Decimal rendering for the library's messages.

use vstd::prelude::*;
use vstd::string::StringExecFns;

verus! {

/// The character of decimal digit `d`.
pub open spec fn digit_char(d: nat) -> char {
    if d == 0 {
        '0'
    } else if d == 1 {
        '1'
    } else if d == 2 {
        '2'
    } else if d == 3 {
        '3'
    } else if d == 4 {
        '4'
    } else if d == 5 {
        '5'
    } else if d == 6 {
        '6'
    } else if d == 7 {
        '7'
    } else if d == 8 {
        '8'
    } else {
        '9'
    }
}

/// `x` in decimal, most significant digit first, with no leading zeros.
pub open spec fn decimal_chars(x: nat) -> Seq<char>
    decreases x,
{
    if x < 10 {
        seq![digit_char(x)]
    } else {
        decimal_chars(x / 10).push(digit_char(x % 10))
    }
}

/// The one-character text of digit `d`.
fn digit_text(d: usize) -> (s: &'static str)
    requires
        d < 10,
    ensures
        s@ == seq![digit_char(d as nat)],
{
    proof {
        reveal_strlit("0");
        reveal_strlit("1");
        reveal_strlit("2");
        reveal_strlit("3");
        reveal_strlit("4");
        reveal_strlit("5");
        reveal_strlit("6");
        reveal_strlit("7");
        reveal_strlit("8");
        reveal_strlit("9");
    }
    if d == 0 {
        "0"
    } else if d == 1 {
        "1"
    } else if d == 2 {
        "2"
    } else if d == 3 {
        "3"
    } else if d == 4 {
        "4"
    } else if d == 5 {
        "5"
    } else if d == 6 {
        "6"
    } else if d == 7 {
        "7"
    } else if d == 8 {
        "8"
    } else {
        "9"
    }
}

/// Append `x` in decimal to `s`.
pub fn push_decimal_u64(s: &mut String, x: u64)
    ensures
        final(s)@ == old(s)@ + decimal_chars(x as nat),
    decreases x,
{
    if x >= 10 {
        push_decimal_u64(s, x / 10);
    }
    s.append(digit_text((x % 10) as usize));
    proof {
        if x >= 10 {
            assert(decimal_chars(x as nat) == decimal_chars((x / 10) as nat).push(digit_char((x % 10) as nat)));
        }
    }
}

/// Append `x` in decimal to `s`.
pub fn push_decimal(s: &mut String, x: usize)
    ensures
        final(s)@ == old(s)@ + decimal_chars(x as nat),
    decreases x,
{
    if x >= 10 {
        push_decimal(s, x / 10);
    }
    s.append(digit_text(x % 10));
    proof {
        if x >= 10 {
            assert(decimal_chars(x as nat) == decimal_chars((x / 10) as nat).push(digit_char((x % 10) as nat)));
        }
    }
}

} // verus!
