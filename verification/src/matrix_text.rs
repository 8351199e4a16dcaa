//! The text of a matrix: its numbers in decimal, row by row.
use vstd::prelude::*;
use crate::collections::{Grid, Matrix, cols, is_rect, rows};

verus! {

/// The character of a decimal digit.
pub open spec fn digit_char(d: nat) -> char {
    (48 + d) as char
}

/// The decimal digits of a natural number, most significant first.
pub open spec fn digits(n: nat) -> Seq<char>
    decreases n,
{
    if n < 10 {
        seq![digit_char(n)]
    } else {
        digits(n / 10).push(digit_char(n % 10))
    }
}

/// An integer in decimal, with a leading `-` when it is negative.
pub open spec fn decimal(x: int) -> Seq<char> {
    if x < 0 {
        seq!['-'] + digits((-x) as nat)
    } else {
        digits(x as nat)
    }
}

/// The cells `0 .. k` of a row, each followed by a comma.
pub open spec fn cells_text(row: Seq<i64>, k: int) -> Seq<char>
    decreases k,
{
    if k <= 0 {
        Seq::empty()
    } else {
        cells_text(row, k - 1) + decimal(row[k - 1] as int).push(',')
    }
}

/// The rows `0 .. k` of a grid, `n` cells each, every row on a new line
/// between brackets.
pub open spec fn rows_text(s: Grid, n: int, k: int) -> Seq<char>
    decreases k,
{
    if k <= 0 {
        Seq::empty()
    } else {
        rows_text(s, n, k - 1) + seq!['\n', '['] + cells_text(s[k - 1], n) + seq![']']
    }
}

/// The text of a matrix: `[`, each row on a line of its own as `[a,b,...,]`,
/// then `]` on the last line.
pub open spec fn matrix_text(s: Grid) -> Seq<char> {
    seq!['['] + rows_text(s, if s.len() == 0 {
        0
    } else {
        cols(s)
    }, rows(s)) + seq!['\n', ']']
}

/// std's `String` collected from characters (`FromIterator<char>`): the same
/// characters, in order.
#[verifier::external_body]
fn text_of(chars: Vec<char>) -> (r: String)
    ensures
        r@ == chars@,
{
    chars.into_iter().collect()
}

/// Append the decimal digits of `n`.
fn push_digits(out: &mut Vec<char>, n: u64)
    ensures
        final(out)@ == old(out)@ + digits(n as nat),
    decreases n,
{
    if n >= 10 {
        push_digits(out, n / 10);
    }
    let d = (n % 10) as u8;
    out.push((48u8 + d) as char);
    proof {
        assert(((48u8 + d) as char) == digit_char((n % 10) as nat));
        if n >= 10 {
            assert(final(out)@ =~= old(out)@ + digits(n as nat));
        } else {
            assert(final(out)@ =~= old(out)@ + digits(n as nat));
        }
    }
}

/// Append an integer in decimal.
fn push_decimal(out: &mut Vec<char>, x: i64)
    ensures
        final(out)@ == old(out)@ + decimal(x as int),
{
    if x < 0 {
        out.push('-');
        let magnitude = (0i128 - x as i128) as u64;
        push_digits(out, magnitude);
        proof {
            assert(final(out)@ =~= old(out)@ + decimal(x as int));
        }
    } else {
        push_digits(out, x as u64);
    }
}

impl Matrix {
    /// The text of the matrix: `[`, each row on a line of its own as
    /// `[a,b,...,]` with its numbers in decimal, then `]` on the last line.
    pub fn fmt(&self) -> (r: String)
        requires
            is_rect(self@),
        ensures
            r@ == matrix_text(self@),
    {
        let ghost s = self@;
        let ghost width: int = if s.len() == 0 {
            0
        } else {
            cols(s)
        };
        let mut out: Vec<char> = Vec::new();
        out.push('[');
        let m = self.m();
        let mut i: usize = 0;
        while i < m
            invariant
                s == self@,
                is_rect(s),
                m == rows(s),
                i <= m,
                width == if s.len() == 0 {
                    0
                } else {
                    cols(s)
                },
                out@ == seq!['['] + rows_text(s, width, i as int),
            decreases m - i,
        {
            out.push('\n');
            out.push('[');
            let n = self.n();
            let row = self.index(i);
            let ghost before = out@;
            let mut j: usize = 0;
            while j < n
                invariant
                    s == self@,
                    is_rect(s),
                    i < m,
                    m == rows(s),
                    n == width,
                    width == cols(s),
                    row@ == s[i as int],
                    row@.len() == n,
                    j <= n,
                    out@ == before + cells_text(s[i as int], j as int),
                decreases n - j,
            {
                push_decimal(&mut out, row[j]);
                out.push(',');
                j = j + 1;
                proof {
                    assert(out@ =~= before + cells_text(s[i as int], j as int));
                }
            }
            out.push(']');
            i = i + 1;
            proof {
                assert(out@ =~= seq!['['] + rows_text(s, width, i as int));
            }
        }
        out.push('\n');
        out.push(']');
        proof {
            assert(out@ =~= matrix_text(s));
        }
        text_of(out)
    }
}

} // verus!
