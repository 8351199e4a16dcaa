//! Determinants and cofactors, by expansion along the first row.
use vstd::prelude::*;
use crate::collections::{Grid, Matrix, cols, fits, is_rect, minor_grid, rows};

verus! {

/// `(-1)^k`.
pub open spec fn alternating(k: int) -> int {
    if k % 2 == 0 {
        1
    } else {
        -1
    }
}

/// The first `k` terms of the expansion of the determinant of `s` along its
/// first row.
pub open spec fn expansion_sum(s: Grid, k: int) -> int
    decreases s.len(), k,
{
    if s.len() == 0 || k <= 0 {
        0
    } else {
        expansion_sum(s, k - 1) + alternating(k - 1) * s[0][k - 1] * det(minor_grid(s, 0, k - 1))
    }
}

/// The determinant of `s`: the sum over the first row of each cell times its
/// cofactor; a matrix without rows has determinant 1.
pub open spec fn det(s: Grid) -> int
    decreases s.len(), s[0].len() + 1,
{
    if s.len() == 0 {
        1
    } else {
        expansion_sum(s, s[0].len() as int)
    }
}

/// The cofactor of cell `(i, j)`: `(-1)^(i + j)` times the determinant of `s`
/// without row `i` and column `j`.
pub open spec fn cof(s: Grid, i: int, j: int) -> int {
    alternating(i + j) * det(minor_grid(s, i, j))
}

/// Every product and partial sum of the first `k` terms of the expansion fits
/// in an `i64`, and so do those of the minors it uses.
pub open spec fn expansion_fits(s: Grid, k: int) -> bool
    decreases s.len(), k,
{
    if s.len() == 0 || k <= 0 {
        true
    } else {
        &&& expansion_fits(s, k - 1)
        &&& det_fits(minor_grid(s, 0, k - 1))
        &&& fits(s[0][k - 1] * det(minor_grid(s, 0, k - 1)))
        &&& fits(alternating(k - 1) * s[0][k - 1] * det(minor_grid(s, 0, k - 1)))
        &&& fits(expansion_sum(s, k))
    }
}

/// The determinant of `s` is computed without overflow.
pub open spec fn det_fits(s: Grid) -> bool
    decreases s.len(), s[0].len() + 1,
{
    s.len() == 0 || expansion_fits(s, s[0].len() as int)
}

proof fn lemma_expansion_fits_prefix(s: Grid, k: int, t: int)
    requires
        expansion_fits(s, k),
        t <= k,
    ensures
        expansion_fits(s, t),
    decreases k - t,
{
    if t < k && k > 0 && s.len() > 0 {
        lemma_expansion_fits_prefix(s, k - 1, t);
    }
}

/// The matrix without row `i` and column `j`.
pub(crate) fn without(s: &Matrix, i: usize, j: usize) -> (r: Matrix)
    requires
        is_rect(s@),
        i < rows(s@),
        j < cols(s@),
    ensures
        r@ == minor_grid(s@, i as int, j as int),
        is_rect(r@),
{
    let mut matrix = s.clone();
    matrix.remove_row(i);
    proof {
        assert forall|x: int| 0 <= x < matrix@.len() implies j < #[trigger] matrix@[x].len() by {
            assert(s@.remove(i as int)[x] == s@[if x < i { x } else { x + 1 }]);
            assert(s@[if x < i { x } else { x + 1 }].len() == cols(s@));
        }
    }
    matrix.remove_col(j);
    assert(matrix@ =~~= minor_grid(s@, i as int, j as int));
    proof {
        let g = minor_grid(s@, i as int, j as int);
        assert forall|x: int| 0 <= x < g.len() implies #[trigger] g[x].len() == g[0].len() by {
            assert(s@[if x < i { x } else { x + 1 }].len() == cols(s@));
            assert(s@[if 0 < i { 0 } else { 1 }].len() == cols(s@));
        }
    }
    matrix
}

/// The determinant of a matrix whose rows have one length, by expansion along
/// the first row.
pub(crate) fn det_of(s: &Matrix) -> (r: i64)
    requires
        is_rect(s@),
        det_fits(s@),
    ensures
        r == det(s@),
    decreases s@.len(),
{
    let m = s.m();
    if m == 0 {
        return 1;
    }
    let n = s.n();
    let first = s.index(0);
    let mut acc: i64 = 0;
    let mut j: usize = 0;
    while j < n
        invariant
            j <= n,
            m == rows(s@),
            m > 0,
            n == cols(s@),
            first@ == s@[0],
            is_rect(s@),
            expansion_fits(s@, n as int),
            acc == expansion_sum(s@, j as int),
        decreases n - j,
    {
        proof {
            lemma_expansion_fits_prefix(s@, n as int, j + 1);
        }
        let minor = without(s, 0, j);
        let d = det_of(&minor);
        let p = first[j] * d;
        proof {
            let a = alternating(j as int);
            let x = s@[0][j as int] as int;
            assert(a * x * d == if j % 2 == 0 { p as int } else { -(p as int) }) by (nonlinear_arith)
                requires
                    a == if j % 2 == 0 { 1int } else { -1int },
                    p == x * d,
            ;
            assert(expansion_sum(s@, j + 1) == expansion_sum(s@, j as int) + a * x * d);
        }
        let t = if j % 2 == 0 {
            p
        } else {
            -p
        };
        acc = acc + t;
        j = j + 1;
    }
    acc
}

} // verus!
