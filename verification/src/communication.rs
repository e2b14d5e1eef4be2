//! The pieces of the line protocol that are about moves and whole numbers.
//!
//! A move travels as two whole numbers; the move "none" is a pair of
//! negative numbers.

use vstd::prelude::*;

verus! {

/// What the other end of the protocol sent, without the times that came
/// with it.
#[derive(Debug, Clone, Copy, PartialEq, Eq)]
pub enum Response {
    /// The agent moves first.
    Ugo,
    /// The opponent moved, or passed.
    Hedid(Option<(usize, usize)>),
    /// Another game begins.
    Onemore,
    /// The session is over.
    Bye,
    /// The line was not understood.
    Fail,
}

/// The move that two numbers stand for: none where one of them is
/// negative.
pub fn convert_move(x: i32, y: i32) -> (r: Option<(usize, usize)>)
    ensures
        r == (if x >= 0 && y >= 0 {
            Some((x as usize, y as usize))
        } else {
            None
        }),
{
    if x >= 0 && y >= 0 {
        Some((x as usize, y as usize))
    } else {
        None
    }
}

/// The two numbers that a move is sent as: row and column, the other way
/// round where `transpose_board` is set, and twice minus one for no move.
pub fn wire_move(my_move: Option<(usize, usize)>, transpose_board: bool) -> (r: (i32, i32))
    ensures
        r == (match my_move {
            Some((row, col)) => if transpose_board {
                (col as i32, row as i32)
            } else {
                (row as i32, col as i32)
            },
            None => (-1i32, -1i32),
        }),
{
    let (x, y) = match my_move {
        Some((row, col)) => (#[verifier::truncate] (row as i32), #[verifier::truncate] (col as i32)),
        None => (-1, -1),
    };
    if transpose_board {
        (y, x)
    } else {
        (x, y)
    }
}

/// Blank, tab, line feed or carriage return.
pub open spec fn is_space(c: u8) -> bool {
    c == 32 || c == 9 || c == 10 || c == 13
}

/// A decimal digit.
pub open spec fn is_digit(c: u8) -> bool {
    48 <= c <= 57
}

/// The number of spaces that `s` holds from place `from` on without a
/// break.
pub open spec fn spaces_at(s: Seq<u8>, from: int) -> nat
    decreases s.len() - from,
{
    if 0 <= from < s.len() && is_space(s[from]) {
        1 + spaces_at(s, from + 1)
    } else {
        0
    }
}

/// The number of digits that `s` holds from place `from` on without a
/// break.
pub open spec fn digits_at(s: Seq<u8>, from: int) -> nat
    decreases s.len() - from,
{
    if 0 <= from < s.len() && is_digit(s[from]) {
        1 + digits_at(s, from + 1)
    } else {
        0
    }
}

/// The number that the `n` digits of `s` from place `from` on write.
pub open spec fn number_at(s: Seq<u8>, from: int, n: nat) -> int
    decreases n,
{
    if n == 0 {
        0
    } else {
        number_at(s, from, (n - 1) as nat) * 10 + (s[from + n - 1] - 48)
    }
}

/// The whole number at the head of `s` and the length of what it takes
/// up: spaces, an optional minus sign, digits, spaces. None where no digit
/// stands after the spaces and the sign, or where the number does not fit
/// into an `i32`.
pub open spec fn int_at(s: Seq<u8>) -> Option<(int, nat)> {
    let a = spaces_at(s, 0);
    let negative = a < s.len() && s[a as int] == 45;
    let b = if negative {
        a + 1
    } else {
        a
    };
    let n = digits_at(s, b as int);
    let size = number_at(s, b as int, n);
    let value = if negative {
        -size
    } else {
        size
    };
    if n == 0 || value < i32::MIN || value > i32::MAX {
        None
    } else {
        Some((value, b + n + spaces_at(s, (b + n) as int)))
    }
}

/// Skips the spaces of `input` from place `from` on.
fn skip_spaces(input: &[u8], from: usize) -> (r: usize)
    requires
        from <= input@.len(),
    ensures
        r == from + spaces_at(input@, from as int),
        r <= input@.len(),
{
    let mut i: usize = from;
    while i < input.len() && (input[i] == 32 || input[i] == 9 || input[i] == 10 || input[i] == 13)
        invariant
            from <= i <= input@.len(),
            from + spaces_at(input@, from as int) == i + spaces_at(input@, i as int),
        decreases input@.len() - i,
    {
        i += 1;
    }
    i
}

/// A number does not get smaller by one more digit.
proof fn lemma_number_grows(s: Seq<u8>, from: int, n: nat)
    requires
        0 <= from,
        from + n <= s.len(),
        forall|k: int| from <= k < from + n ==> is_digit(#[trigger] s[k]),
    ensures
        0 <= number_at(s, from, n),
        n > 0 ==> number_at(s, from, (n - 1) as nat) <= number_at(s, from, n),
    decreases n,
{
    if n > 0 {
        lemma_number_grows(s, from, (n - 1) as nat);
    }
}

/// Reads a whole number from the head of `input`: spaces, an optional
/// minus sign, digits, spaces. Returns the number and the length of what
/// was read; none where there is no number or it does not fit.
pub fn p_int(input: &[u8]) -> (r: Option<(i32, usize)>)
    ensures
        r == (match int_at(input@) {
            Some((value, length)) => Some((value as i32, length as usize)),
            None => None,
        }),
{
    let a = skip_spaces(input, 0);
    let negative = a < input.len() && input[a] == 45;
    let b: usize = if negative {
        a + 1
    } else {
        a
    };
    let mut size: i64 = 0;
    let mut fits = true;
    let mut i: usize = b;
    while i < input.len() && 48 <= input[i] && input[i] <= 57
        invariant
            b <= i <= input@.len(),
            forall|k: int| b <= k < i ==> is_digit(#[trigger] input@[k]),
            b + digits_at(input@, b as int) == i + digits_at(input@, i as int),
            fits ==> size == number_at(input@, b as int, (i - b) as nat),
            fits ==> 0 <= size <= 0x8000_0000,
            !fits ==> number_at(input@, b as int, (i - b) as nat) > 0x8000_0000,
        decreases input@.len() - i,
    {
        proof {
            lemma_number_grows(input@, b as int, (i + 1 - b) as nat);
        }
        if fits {
            size = size * 10 + (input[i] - 48) as i64;
            if size > 0x8000_0000 {
                fits = false;
            }
        }
        i += 1;
    }
    let end = skip_spaces(input, i);
    if i == b || !fits {
        return None;
    }
    if negative {
        Some(((-size) as i32, end))
    } else if size <= 0x7fff_ffff {
        Some((size as i32, end))
    } else {
        None
    }
}

} // verus!
