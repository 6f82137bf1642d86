//! Numbers as decimal text.

use vstd::prelude::*;
use vstd::string::StringExecFns;

verus! {

/// The digit of a number below ten.
pub open spec fn digit(d: nat) -> char {
    (48 + d) as char
}

/// A number in decimal, without leading zeros.
pub open spec fn decimal_text(n: nat) -> Seq<char>
    decreases n,
{
    if n < 10 {
        seq![digit(n)]
    } else {
        decimal_text(n / 10).push(digit(n % 10))
    }
}

fn digit_str(d: u64) -> (s: &'static str)
    requires
        d < 10,
    ensures
        s@ == seq![digit(d as nat)],
{
    proof {
        reveal_strlit("0");
        reveal_strlit("1");
        reveal_strlit("2");
        reveal_strlit("3");
        reveal_strlit("4");
        reveal_strlit("5");
        reveal_strlit("6");
        reveal_strlit("7");
        reveal_strlit("8");
        reveal_strlit("9");
    }
    let s = match d {
        0 => "0",
        1 => "1",
        2 => "2",
        3 => "3",
        4 => "4",
        5 => "5",
        6 => "6",
        7 => "7",
        8 => "8",
        _ => "9",
    };
    assert(s@ =~= seq![digit(d as nat)]);
    s
}

/// Writes a number in decimal.
pub fn decimal(n: u64) -> (text: String)
    ensures
        text@ == decimal_text(n as nat),
    decreases n,
{
    if n < 10 {
        return String::from_str(digit_str(n));
    }
    let mut text = decimal(n / 10);
    text.append(digit_str(n % 10));
    assert(text@ =~= decimal_text(n as nat));
    text
}

/// A number in decimal is that of its tenth, and its last digit; below ten it is one
/// digit.
pub proof fn numbers_are_written_digit_by_digit(n: u64, text: String, tenth: String)
    requires
        call_ensures(decimal, (n,), text),
        call_ensures(decimal, ((n / 10) as u64,), tenth),
    ensures
        text@.len() > 0,
        text@.last() as int == '0' as int + n % 10,
        n < 10 ==> text@.len() == 1,
        n >= 10 ==> text@.drop_last() == tenth@,
{
    if n >= 10 {
        assert(text@.drop_last() =~= tenth@);
    }
}

} // verus!
