//! Decimal notation: the digits of a natural number, and the number that a
//! run of digits denotes.

use vstd::prelude::*;
use vstd::string::*;

verus! {

/// Whether `c` is one of the ten ASCII digits.
pub open spec fn is_digit(c: char) -> bool {
    '0' <= c <= '9'
}

/// The number that a digit stands for.
pub open spec fn digit_value(c: char) -> nat {
    (c as int - '0' as int) as nat
}

/// The digit that stands for `d`, where `d < 10`.
pub open spec fn digit_char(d: nat) -> char {
    (d + '0' as nat) as char
}

/// Whether every character of `s` is a digit.
pub open spec fn all_digits(s: Seq<char>) -> bool {
    forall|i: int| 0 <= i < s.len() ==> is_digit(#[trigger] s[i])
}

/// The number that a run of digits denotes, most significant digit first.
/// Leading zeros do not change it; the empty run denotes 0.
pub open spec fn decimal_value(s: Seq<char>) -> nat
    decreases s.len(),
{
    if s.len() == 0 {
        0
    } else {
        decimal_value(s.drop_last()) * 10 + digit_value(s.last())
    }
}

/// The shortest decimal notation of `n`: no leading zeros, and "0" for 0.
pub open spec fn decimal_text(n: nat) -> Seq<char>
    decreases n,
{
    if n < 10 {
        seq![digit_char(n)]
    } else {
        decimal_text(n / 10).push(digit_char(n % 10))
    }
}

/// The notation of a number consists of digits, and denotes that number.
pub proof fn lemma_decimal_text_value(n: nat)
    ensures
        all_digits(decimal_text(n)),
        decimal_value(decimal_text(n)) == n,
        decimal_text(n).len() >= 1,
    decreases n,
{
    if n < 10 {
        let t = decimal_text(n);
        assert(t.drop_last() =~= Seq::<char>::empty());
        assert(decimal_value(t.drop_last()) == 0);
    } else {
        lemma_decimal_text_value(n / 10);
        let t = decimal_text(n);
        assert(t.drop_last() =~= decimal_text(n / 10));
    }
}

/// How long the notation of a number is, for the sizes that occur in an address.
pub proof fn lemma_decimal_text_len(n: nat)
    ensures
        n < 10 ==> decimal_text(n).len() == 1,
        10 <= n < 100 ==> decimal_text(n).len() == 2,
        100 <= n < 1000 ==> decimal_text(n).len() == 3,
{
    reveal_with_fuel(decimal_text, 3);
}

/// The one-character string of a digit.
fn digit_str(d: u32) -> (r: &'static str)
    requires
        d < 10,
    ensures
        r@ == seq![digit_char(d as nat)],
{
    proof {
        reveal_strlit("0");
        reveal_strlit("1");
        reveal_strlit("2");
        reveal_strlit("3");
        reveal_strlit("4");
        reveal_strlit("5");
        reveal_strlit("6");
        reveal_strlit("7");
        reveal_strlit("8");
        reveal_strlit("9");
    }
    let r = match d {
        0 => "0",
        1 => "1",
        2 => "2",
        3 => "3",
        4 => "4",
        5 => "5",
        6 => "6",
        7 => "7",
        8 => "8",
        _ => "9",
    };
    assert(r@ =~= seq![digit_char(d as nat)]);
    r
}

/// Appends the decimal notation of `n` to `out`.
pub fn push_decimal(out: &mut String, n: u32)
    ensures
        final(out)@ == old(out)@ + decimal_text(n as nat),
    decreases n,
{
    if n >= 10 {
        push_decimal(out, n / 10);
    }
    out.append(digit_str(n % 10));
    proof {
        let t = decimal_text(n as nat);
        if n >= 10 {
            assert(old(out)@ + decimal_text((n / 10) as nat) + seq![digit_char((n % 10) as nat)]
                =~= old(out)@ + t);
        }
    }
}

} // verus!
