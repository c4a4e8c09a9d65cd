//! Building messages out of fixed text and decimal numbers.
use vstd::prelude::*;
use vstd::string::StringExecFns;

verus! {

/// The character of a decimal digit.
pub open spec fn digit_char(digit: nat) -> char {
    if digit == 0 {
        '0'
    } else if digit == 1 {
        '1'
    } else if digit == 2 {
        '2'
    } else if digit == 3 {
        '3'
    } else if digit == 4 {
        '4'
    } else if digit == 5 {
        '5'
    } else if digit == 6 {
        '6'
    } else if digit == 7 {
        '7'
    } else if digit == 8 {
        '8'
    } else {
        '9'
    }
}

/// A number in decimal, without leading zeros.
pub open spec fn decimal(value: nat) -> Seq<char>
    decreases value,
{
    if value < 10 {
        seq![digit_char(value)]
    } else {
        decimal(value / 10).push(digit_char(value % 10))
    }
}

/// A list of numbers: in square brackets, with a comma and a space between two.
pub open spec fn decimal_list(values: Seq<usize>) -> Seq<char> {
    "["@ + decimal_items(values) + "]"@
}

pub open spec fn decimal_items(values: Seq<usize>) -> Seq<char>
    decreases values.len(),
{
    if values.len() == 0 {
        Seq::empty()
    } else if values.len() == 1 {
        decimal(values[0] as nat)
    } else {
        decimal_items(values.drop_last()) + ", "@ + decimal(values.last() as nat)
    }
}

fn digit_text(digit: usize) -> (text: &'static str)
    requires
        digit < 10,
    ensures
        text@ == seq![digit_char(digit as nat)],
{
    proof {
        reveal_strlit("0");
        reveal_strlit("1");
        reveal_strlit("2");
        reveal_strlit("3");
        reveal_strlit("4");
        reveal_strlit("5");
        reveal_strlit("6");
        reveal_strlit("7");
        reveal_strlit("8");
        reveal_strlit("9");
    }
    let text = match digit {
        0 => "0",
        1 => "1",
        2 => "2",
        3 => "3",
        4 => "4",
        5 => "5",
        6 => "6",
        7 => "7",
        8 => "8",
        _ => "9",
    };
    assert(text@ =~= seq![digit_char(digit as nat)]);
    text
}

/// Appends a number in decimal.
pub fn push_number(text: &mut String, value: usize)
    ensures
        final(text)@ == old(text)@ + decimal(value as nat),
    decreases value,
{
    let ghost start = text@;
    if value >= 10 {
        push_number(text, value / 10);
    }
    text.append(digit_text(value % 10));
    proof {
        assert(text@ =~= start + decimal(value as nat));
    }
}

/// Appends a list of numbers.
pub fn push_list(text: &mut String, values: &Vec<usize>)
    ensures
        final(text)@ == old(text)@ + decimal_list(values@),
{
    let ghost start = text@;
    text.append("[");
    let mut index: usize = 0;
    while index < values.len()
        invariant
            index <= values@.len(),
            text@ == start + "["@ + decimal_items(values@.take(index as int)),
        decreases values@.len() - index,
    {
        let ghost before = values@.take(index as int);
        let ghost so_far = text@;
        if index > 0 {
            text.append(", ");
        }
        push_number(text, values[index]);
        index = index + 1;
        proof {
            let now = values@.take(index as int);
            assert(now.drop_last() =~= before);
            assert(now.last() == values@[index - 1]);
            assert(text@ =~= start + "["@ + decimal_items(now));
        }
    }
    text.append("]");
    proof {
        assert(values@.take(index as int) =~= values@);
        assert(text@ =~= start + decimal_list(values@));
    }
}

} // verus!
