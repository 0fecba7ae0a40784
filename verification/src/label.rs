//! The text shown beside a lift: its floor in decimal, a blank, and a symbol
//! for what the lift is doing.

use vstd::prelude::*;
use vstd::string::*;
use crate::types::Direction;

verus! {

/// The character for a single digit.
pub open spec fn digit(d: int) -> char {
    if d == 0 {
        '0'
    } else if d == 1 {
        '1'
    } else if d == 2 {
        '2'
    } else if d == 3 {
        '3'
    } else if d == 4 {
        '4'
    } else if d == 5 {
        '5'
    } else if d == 6 {
        '6'
    } else if d == 7 {
        '7'
    } else if d == 8 {
        '8'
    } else {
        '9'
    }
}

/// The decimal digits of `n`, most significant first, without leading zeros.
pub open spec fn digits(n: nat) -> Seq<char>
    decreases n,
{
    if n < 10 {
        seq![digit(n as int)]
    } else {
        digits(n / 10).push(digit((n % 10) as int))
    }
}

/// `n` in decimal, with a minus sign in front of a negative number.
pub open spec fn decimal(n: int) -> Seq<char> {
    if n < 0 {
        seq!['-'] + digits((-n) as nat)
    } else {
        digits(n as nat)
    }
}

/// The symbol for a lift: a two-headed arrow while the doors are open,
/// otherwise an arrow in the direction of travel, or a blank when stopped.
pub open spec fn symbol(direction: Direction, doors_open: bool) -> char {
    if doors_open {
        '\u{2194}'
    } else {
        match direction {
            Direction::Up => '\u{2191}',
            Direction::Down => '\u{2193}',
            Direction::Stopped => ' ',
        }
    }
}

/// The label of a lift at `floor`: the floor, a blank, and the symbol.
pub open spec fn label_text(floor: i32, direction: Direction, doors_open: bool) -> Seq<char> {
    decimal(floor as int) + seq![' ', symbol(direction, doors_open)]
}

/// The text of a single digit.
fn digit_text(d: u32) -> (text: &'static str)
    requires
        d < 10,
    ensures
        text@ == seq![digit(d as int)],
{
    proof {
        reveal_strlit("0");
        reveal_strlit("1");
        reveal_strlit("2");
        reveal_strlit("3");
        reveal_strlit("4");
        reveal_strlit("5");
        reveal_strlit("6");
        reveal_strlit("7");
        reveal_strlit("8");
        reveal_strlit("9");
    }
    let text = if d == 0 {
        "0"
    } else if d == 1 {
        "1"
    } else if d == 2 {
        "2"
    } else if d == 3 {
        "3"
    } else if d == 4 {
        "4"
    } else if d == 5 {
        "5"
    } else if d == 6 {
        "6"
    } else if d == 7 {
        "7"
    } else if d == 8 {
        "8"
    } else {
        "9"
    };
    assert(text@ =~= seq![digit(d as int)]);
    text
}

/// Appends the decimal digits of `n` to `text`.
fn push_digits(text: &mut String, n: u32)
    ensures
        final(text)@ == old(text)@ + digits(n as nat),
    decreases n,
{
    if n >= 10 {
        push_digits(text, n / 10);
    }
    text.append(digit_text(n % 10));
    proof {
        if n >= 10 {
            assert(old(text)@ + digits((n / 10) as nat) + seq![digit((n % 10) as int)] =~= old(
                text,
            )@ + digits(n as nat));
        }
    }
}

/// The text of a symbol.
fn symbol_text(direction: Direction, doors_open: bool) -> (text: &'static str)
    ensures
        text@ == seq![symbol(direction, doors_open)],
{
    proof {
        reveal_strlit("\u{2194}");
        reveal_strlit("\u{2191}");
        reveal_strlit("\u{2193}");
        reveal_strlit(" ");
    }
    let text = if doors_open {
        "\u{2194}"
    } else {
        match direction {
            Direction::Up => "\u{2191}",
            Direction::Down => "\u{2193}",
            Direction::Stopped => " ",
        }
    };
    assert(text@ =~= seq![symbol(direction, doors_open)]);
    text
}

/// Writes the label of a lift at `floor`.
pub fn label_for(floor: i32, direction: Direction, doors_open: bool) -> (label: String)
    ensures
        label@ == label_text(floor, direction, doors_open),
{
    let mut label = String::new();
    if floor < 0 {
        proof {
            reveal_strlit("-");
        }
        label.append("-");
        assert(label@ =~= seq!['-']);
        push_digits(&mut label, (-(floor as i64)) as u32);
    } else {
        push_digits(&mut label, floor as u32);
        assert(label@ =~= digits(floor as nat));
    }
    proof {
        reveal_strlit(" ");
    }
    let ghost number = label@;
    label.append(" ");
    label.append(symbol_text(direction, doors_open));
    assert(label@ =~= number + seq![' ', symbol(direction, doors_open)]);
    label
}

} // verus!
