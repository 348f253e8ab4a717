//! Text of numbers and messages.

use vstd::prelude::*;
use vstd::string::*;

verus! {

/// Character of a decimal digit.
pub open spec fn digit(value: int) -> char {
    if value <= 0 {
        '0'
    } else if value == 1 {
        '1'
    } else if value == 2 {
        '2'
    } else if value == 3 {
        '3'
    } else if value == 4 {
        '4'
    } else if value == 5 {
        '5'
    } else if value == 6 {
        '6'
    } else if value == 7 {
        '7'
    } else if value == 8 {
        '8'
    } else {
        '9'
    }
}

/// Decimal text of a number, without leading zeros.
pub open spec fn decimal_text(value: nat) -> Seq<char>
    decreases value,
{
    if value < 10 {
        seq![digit(value as int)]
    } else {
        decimal_text(value / 10).push(digit((value % 10) as int))
    }
}

/// Appends one decimal digit to a text.
fn append_digit(text: &mut String, value: u64)
    requires
        value < 10,
    ensures
        final(text)@ == old(text)@.push(digit(value as int)),
{
    proof {
        reveal_strlit("0");
        reveal_strlit("1");
        reveal_strlit("2");
        reveal_strlit("3");
        reveal_strlit("4");
        reveal_strlit("5");
        reveal_strlit("6");
        reveal_strlit("7");
        reveal_strlit("8");
        reveal_strlit("9");
    }
    let ghost before = text@;
    if value == 0 {
        text.append("0");
    } else if value == 1 {
        text.append("1");
    } else if value == 2 {
        text.append("2");
    } else if value == 3 {
        text.append("3");
    } else if value == 4 {
        text.append("4");
    } else if value == 5 {
        text.append("5");
    } else if value == 6 {
        text.append("6");
    } else if value == 7 {
        text.append("7");
    } else if value == 8 {
        text.append("8");
    } else {
        text.append("9");
    }
    assert(text@ =~= before.push(digit(value as int)));
}

/// Appends the decimal text of a number.
pub fn append_decimal(text: &mut String, value: u64)
    ensures
        final(text)@ == old(text)@ + decimal_text(value as nat),
    decreases value,
{
    let ghost before = text@;
    if value < 10 {
        append_digit(text, value);
        assert(text@ =~= before + decimal_text(value as nat));
    } else {
        append_decimal(text, value / 10);
        append_digit(text, value % 10);
        assert(text@ =~= before + decimal_text(value as nat));
    }
}

/// A text, a number, and another text.
pub fn numbered(head: &str, value: usize, tail: &str) -> (result: String)
    ensures
        result@ == head@ + decimal_text(value as nat) + tail@,
{
    let mut text = String::from_str(head);
    append_decimal(&mut text, value as u64);
    text.append(tail);
    text
}

/// A text, a number, another text, another number, and a last text.
pub fn twice_numbered(head: &str, first: u64, middle: &str, second: u64, tail: &str) -> (result:
    String)
    ensures
        result@ == head@ + decimal_text(first as nat) + middle@ + decimal_text(second as nat)
            + tail@,
{
    let mut text = String::from_str(head);
    append_decimal(&mut text, first);
    text.append(middle);
    append_decimal(&mut text, second);
    text.append(tail);
    text
}

/// Three texts joined.
pub fn joined(first: &str, second: &str, third: &str) -> (result: String)
    ensures
        result@ == first@ + second@ + third@,
{
    let mut text = String::from_str(first);
    text.append(second);
    text.append(third);
    text
}

} // verus!
