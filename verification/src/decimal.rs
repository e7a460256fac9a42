//! Decimal notation of numbers.
use vstd::prelude::*;

verus! {

/// The character that writes the digit `d`.
pub open spec fn digit_char(d: nat) -> char {
    ('0' as nat + d) as char
}

/// `n` in decimal notation, without leading zeroes.
pub open spec fn decimal(n: nat) -> Seq<char>
    decreases n,
{
    if n < 10 {
        seq![digit_char(n)]
    } else {
        decimal(n / 10).push(digit_char(n % 10))
    }
}

/// `c` is one of `0` to `9`.
pub open spec fn is_digit(c: char) -> bool {
    '0' <= c <= '9'
}

/// The number that a text of digits stands for: each digit counts ten times as much as the one
/// behind it.
pub open spec fn number_value(text: Seq<char>) -> int
    decreases text.len(),
{
    if text.len() == 0 {
        0
    } else {
        10 * number_value(text.drop_last()) + (text.last() as int - '0' as int)
    }
}

/// The text of one digit.
fn digit(d: u64) -> (text: &'static str)
    requires
        d < 10,
    ensures
        text@ == seq![digit_char(d as nat)],
{
    proof {
        reveal_strlit("0");
        reveal_strlit("1");
        reveal_strlit("2");
        reveal_strlit("3");
        reveal_strlit("4");
        reveal_strlit("5");
        reveal_strlit("6");
        reveal_strlit("7");
        reveal_strlit("8");
        reveal_strlit("9");
    }
    match d {
        0 => "0",
        1 => "1",
        2 => "2",
        3 => "3",
        4 => "4",
        5 => "5",
        6 => "6",
        7 => "7",
        8 => "8",
        _ => "9",
    }
}

/// Appends `n` in decimal notation to `out`.
pub fn push_decimal(out: &mut String, n: u64)
    ensures
        final(out)@ == old(out)@ + decimal(n as nat),
        old(out)@.len() < final(out)@.len(),
        final(out)@.take(old(out)@.len() as int) == old(out)@,
        number_value(final(out)@.skip(old(out)@.len() as int)) == n,
        forall|i: int|
            old(out)@.len() <= i < final(out)@.len() ==> '0' <= #[trigger] final(out)@[i] <= '9',
        final(out)@[old(out)@.len() as int] == '0' ==> n == 0 && final(out)@.len()
            == old(out)@.len() + 1,
    decreases n,
{
    if n >= 10 {
        push_decimal(out, n / 10);
    }
    out.append(digit(n % 10));
    proof {
        let before = old(out)@;
        let text = decimal(n as nat);
        assert(out@ =~= before + text);
        assert((before + text).take(before.len() as int) =~= before);
        assert((before + text).skip(before.len() as int) =~= text);
        decimal_stands_for_the_number(n as nat);
        assert forall|i: int| before.len() <= i < (before + text).len() implies '0' <= #[trigger] (
        before + text)[i] <= '9' by {
            assert((before + text)[i] == text[i - before.len()]);
        }
    }
}

/// Decimal notation is not empty and consists of digits.
pub proof fn decimal_is_digits(n: nat)
    ensures
        decimal(n).len() > 0,
        forall|i: int| 0 <= i < decimal(n).len() ==> is_digit(#[trigger] decimal(n)[i]),
    decreases n,
{
    if n >= 10 {
        decimal_is_digits(n / 10);
    }
}

/// Decimal notation stands for the number that it is the notation of: it consists of digits,
/// these have the number as their value, and there is no leading zero.
pub proof fn decimal_stands_for_the_number(n: nat)
    ensures
        number_value(decimal(n)) == n,
        decimal(n).len() > 0,
        forall|i: int| 0 <= i < decimal(n).len() ==> '0' <= #[trigger] decimal(n)[i] <= '9',
        decimal(n)[0] == '0' ==> n == 0 && decimal(n).len() == 1,
    decreases n,
{
    decimal_is_digits(n);
    if n < 10 {
        assert(decimal(n).drop_last() =~= Seq::<char>::empty());
        assert(number_value(decimal(n).drop_last()) == 0);
    } else {
        decimal_stands_for_the_number(n / 10);
        assert(decimal(n).drop_last() =~= decimal(n / 10));
    }
}

/// A text of digits without a leading zero is the decimal notation of the number that it stands
/// for: there is no other notation.
pub proof fn decimal_is_the_only_notation(text: Seq<char>)
    requires
        text.len() > 0,
        forall|i: int| 0 <= i < text.len() ==> '0' <= #[trigger] text[i] <= '9',
        text[0] == '0' ==> text.len() == 1,
    ensures
        number_value(text) >= 0,
        text[0] != '0' ==> number_value(text) > 0,
        decimal(number_value(text) as nat) == text,
    decreases text.len(),
{
    let before = text.drop_last();
    let last = text.last() as int - '0' as int;
    assert(text.last() == text[text.len() - 1]);
    if text.len() == 1 {
        assert(before =~= Seq::<char>::empty());
        assert(number_value(before) == 0);
        assert(decimal(number_value(text) as nat) =~= text);
    } else {
        assert(before[0] == text[0]);
        assert forall|i: int| 0 <= i < before.len() implies '0' <= #[trigger] before[i] <= '9' by {
            assert(before[i] == text[i]);
        }
        decimal_is_the_only_notation(before);
        let n = number_value(text);
        assert(n / 10 == number_value(before) && n % 10 == last);
        assert(decimal(n as nat) =~= before.push(text.last()));
        assert(before.push(text.last()) =~= text);
    }
}

/// Decimal notation tells numbers apart.
pub proof fn decimal_is_injective(m: nat, n: nat)
    requires
        decimal(m) == decimal(n),
    ensures
        m == n,
    decreases m,
{
    decimal_is_digits(m / 10);
    decimal_is_digits(n / 10);
    let dm = decimal(m);
    let dn = decimal(n);
    assert(dm.last() == digit_char(m % 10));
    assert(dn.last() == digit_char(n % 10));
    assert(m % 10 == n % 10);
    if m >= 10 && n >= 10 {
        assert(dm.drop_last() =~= decimal(m / 10));
        assert(dn.drop_last() =~= decimal(n / 10));
        decimal_is_injective(m / 10, n / 10);
    }
}

} // verus!
