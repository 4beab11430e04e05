//! The board as text: nine lines of nine numbers, each followed by a space.

use vstd::prelude::*;
use vstd::string::StringExecFns;
use crate::grid::Puzzle;

verus! {

/// The character of a decimal digit `0..=9`.
pub open spec fn digit_char(d: int) -> char {
    if d == 0 {
        '0'
    } else if d == 1 {
        '1'
    } else if d == 2 {
        '2'
    } else if d == 3 {
        '3'
    } else if d == 4 {
        '4'
    } else if d == 5 {
        '5'
    } else if d == 6 {
        '6'
    } else if d == 7 {
        '7'
    } else if d == 8 {
        '8'
    } else {
        '9'
    }
}

/// A number in decimal, without leading zeros.
pub open spec fn decimal(n: nat) -> Seq<char>
    decreases n,
{
    if n < 10 {
        seq![digit_char(n as int)]
    } else {
        decimal(n / 10).push(digit_char((n % 10) as int))
    }
}

/// The text of cell `i`: its number and a space, and a line break after the
/// last cell of a row.
pub open spec fn cell_text(cells: Seq<u32>, i: int) -> Seq<char> {
    let number = decimal(cells[i] as nat).push(' ');
    if i % 9 == 8 {
        number.push('\n')
    } else {
        number
    }
}

/// The text of the first `n` cells.
pub open spec fn board_text(cells: Seq<u32>, n: int) -> Seq<char>
    decreases n,
{
    if n <= 0 {
        Seq::empty()
    } else {
        board_text(cells, n - 1) + cell_text(cells, n - 1)
    }
}

/// The one-character text of a digit.
fn digit_str(d: u32) -> (s: &'static str)
    requires
        d < 10,
    ensures
        s@ == seq![digit_char(d as int)],
{
    proof {
        reveal_strlit("0");
        reveal_strlit("1");
        reveal_strlit("2");
        reveal_strlit("3");
        reveal_strlit("4");
        reveal_strlit("5");
        reveal_strlit("6");
        reveal_strlit("7");
        reveal_strlit("8");
        reveal_strlit("9");
    }
    let s = match d {
        0 => "0",
        1 => "1",
        2 => "2",
        3 => "3",
        4 => "4",
        5 => "5",
        6 => "6",
        7 => "7",
        8 => "8",
        _ => "9",
    };
    assert(s@ =~= seq![digit_char(d as int)]);
    s
}

/// Appends `n` in decimal to `s`.
fn push_decimal(s: &mut String, n: u32)
    ensures
        final(s)@ == old(s)@ + decimal(n as nat),
    decreases n,
{
    if n >= 10 {
        push_decimal(s, n / 10);
    }
    s.append(digit_str(n % 10));
    assert(s@ =~= old(s)@ + decimal(n as nat));
}

/// The board as text, cell by cell in index order: each number in decimal,
/// followed by a space, and a line break after every ninth.
pub fn print_puzzle(puzz: &[u32; 81]) -> (s: String)
    ensures
        s@ == board_text(puzz@, 81),
{
    let mut s = String::new();
    for i in 0..81usize
        invariant
            s@ == board_text(puzz@, i as int),
    {
        push_decimal(&mut s, puzz[i]);
        s.append(" ");
        if i % 9 == 8 {
            s.append("\n");
        }
        proof {
            reveal_strlit(" ");
            reveal_strlit("\n");
            assert(s@ =~= board_text(puzz@, i as int) + cell_text(puzz@, i as int));
        }
    }
    s
}

impl Puzzle {
    /// The board as text, as `print_puzzle` lays it out.
    pub fn to_text(&self) -> (s: String)
        ensures
            s@ == board_text(self@, 81),
    {
        print_puzzle(&self.cells)
    }
}

} // verus!
