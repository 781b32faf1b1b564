//! The text form of a recorded solution: algebraic square names joined by
//! commas, with a marker prefix on solutions that repeat an earlier one up
//! to symmetry.

use crate::board::rows_on_board;
use vstd::prelude::*;

verus! {

/// The character for the decimal digit `d`.
pub open spec fn digit_char(d: int) -> char {
    ((48 + d) as u8) as char
}

/// The decimal numeral for `v`.  Ranks run 1 through 30, so one or two
/// digits suffice.
pub open spec fn decimal_text(v: int) -> Seq<char> {
    if v < 10 {
        seq![digit_char(v)]
    } else {
        seq![digit_char(v / 10), digit_char(v % 10)]
    }
}

/// The file letter of column `c`: `a` for column 0, and onward through the
/// character set.
pub open spec fn file_char(c: int) -> char {
    ((97 + c) as u8) as char
}

/// The algebraic name of the square in column `c` and row `r`: the file
/// letter, then the one-based rank.
pub open spec fn square_text(c: int, r: int) -> Seq<char> {
    seq![file_char(c)] + decimal_text(r + 1)
}

/// The square names of the queens in the first `i` columns, joined by ", ".
pub open spec fn squares_text(rows: Seq<usize>, i: int) -> Seq<char>
    decreases i,
{
    if i <= 0 {
        Seq::empty()
    } else if i == 1 {
        square_text(0, rows[0] as int)
    } else {
        squares_text(rows, i - 1) + seq![',', ' '] + square_text(i - 1, rows[i - 1] as int)
    }
}

/// The log line recorded for a solution: its squares, behind a marker when
/// the solution repeats an earlier one up to symmetry.
pub open spec fn solution_line(rows: Seq<usize>, dup: bool) -> Seq<char> {
    if dup {
        seq!['(', 'S', 'y', 'm', ')', ' '] + squares_text(rows, rows.len() as int)
    } else {
        squares_text(rows, rows.len() as int)
    }
}

/// Relies on `String`'s `FromIterator` implementation: collecting
/// characters yields the string of exactly those characters, in order.
#[verifier::external_body]
fn chars_to_string(v: &Vec<char>) -> (s: String)
    ensures
        s@ == v@,
{
    v.iter().collect()
}

/// Appends the decimal numeral of `v` to `out`.
fn push_decimal(out: &mut Vec<char>, v: usize)
    requires
        v <= 99,
    ensures
        final(out)@ == old(out)@ + decimal_text(v as int),
{
    if v < 10 {
        out.push((48 + v as u8) as char);
        assert(final(out)@ =~= old(out)@ + decimal_text(v as int));
    } else {
        out.push((48 + (v / 10) as u8) as char);
        out.push((48 + (v % 10) as u8) as char);
        assert((48 + (v / 10) as u8) as char == digit_char(v as int / 10));
        assert((48 + (v % 10) as u8) as char == digit_char(v as int % 10));
        assert(final(out)@ =~= old(out)@ + decimal_text(v as int));
    }
}

/// Renders the log line for the solution whose queens stand on the rows of
/// `rows`, column by column, marking it when `dup` holds.
pub fn render_solution_line(rows: &Vec<usize>, dup: bool) -> (s: String)
    requires
        rows@.len() <= 30,
        rows_on_board(rows@, rows@.len() as int),
    ensures
        s@ == solution_line(rows@, dup),
{
    let mut out: Vec<char> = Vec::new();
    if dup {
        out.push('(');
        out.push('S');
        out.push('y');
        out.push('m');
        out.push(')');
        out.push(' ');
        assert(out@ =~= seq!['(', 'S', 'y', 'm', ')', ' ']);
    }
    let ghost pre = out@;
    let mut c: usize = 0;
    while c < rows.len()
        invariant
            rows@.len() <= 30,
            rows_on_board(rows@, rows@.len() as int),
            c <= rows@.len(),
            out@ == pre + squares_text(rows@, c as int),
        decreases rows@.len() - c,
    {
        if c > 0 {
            out.push(',');
            out.push(' ');
        }
        out.push((97 + c as u8) as char);
        assert((97 + c as u8) as char == file_char(c as int));
        let rank = rows[c] + 1;
        assert(rank <= 30);
        push_decimal(&mut out, rank);
        assert(out@ =~= pre + squares_text(rows@, c + 1));
        c = c + 1;
    }
    assert(out@ =~= solution_line(rows@, dup));
    chars_to_string(&out)
}

} // verus!
