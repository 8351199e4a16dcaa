//! Matrices of integers, stored row by row.
use crate::maths::{abs_nat, lcd, lcm_nat};
use crate::determinant::{alternating, cof, det, det_fits, det_of, without};
use crate::linalg::{
    cong, cong_on, dot, lemma_cong_add, lemma_cong_i64_eq, lemma_dot_padded, lemma_product_cong,
    lemma_strassen_cong, lemma_wrapping_add, lemma_wrapping_mul, minus, plus, product, quarter, shaped,
    strassen_terms, IGrid,
};
use vstd::prelude::*;

verus! {

/// A grid of numbers, as rows of values.
pub type Grid = Seq<Seq<i64>>;

/// Every row has the length of the first one.
pub open spec fn is_rect(s: Grid) -> bool {
    forall|i: int| 0 <= i < s.len() ==> #[trigger] s[i].len() == s[0].len()
}

/// Number of rows.
pub open spec fn rows(s: Grid) -> int {
    s.len() as int
}

/// Number of columns: the length of the first row.
pub open spec fn cols(s: Grid) -> int {
    s[0].len() as int
}

/// A rectangular grid with at least one row.
pub open spec fn is_matrix(s: Grid) -> bool {
    s.len() > 0 && is_rect(s)
}

/// The `m` by `n` grid whose cell `(i, j)` is `f(i, j)`.
pub open spec fn grid_fn(m: int, n: int, f: spec_fn(int, int) -> i64) -> Grid {
    Seq::new(m as nat, |i: int| Seq::new(n as nat, |j: int| f(i, j)))
}

/// The `m` by `n` grid with `v` in every cell.
pub open spec fn filled(m: int, n: int, v: i64) -> Grid {
    grid_fn(m, n, |i: int, j: int| v)
}

/// The `m` by `n` grid with `v` on the main diagonal and zero elsewhere.
pub open spec fn scalar_grid(m: int, n: int, v: i64) -> Grid {
    grid_fn(m, n, |i: int, j: int| if i == j { v } else { 0i64 })
}

/// The transpose of a matrix with `m` rows and `n` columns.
pub open spec fn transpose(s: Grid) -> Grid {
    grid_fn(cols(s), rows(s), |i: int, j: int| s[j][i])
}

/// The matrix with each row in reverse order.
pub open spec fn reflect_rows(s: Grid) -> Grid {
    grid_fn(rows(s), cols(s), |i: int, j: int| s[i][cols(s) - 1 - j])
}

/// The block of rows `r0..r1` and columns `c0..c1`.
pub open spec fn block(s: Grid, r0: int, r1: int, c0: int, c1: int) -> Grid {
    grid_fn(r1 - r0, c1 - c0, |i: int, j: int| s[r0 + i][c0 + j])
}

/// A matrix made of four equally sized quarters.
pub open spec fn join_quarters(a: Grid, b: Grid, c: Grid, d: Grid) -> Grid {
    let m = rows(a);
    let n = cols(a);
    grid_fn(
        2 * m,
        2 * n,
        |i: int, j: int|
            if i < m {
                if j < n {
                    a[i][j]
                } else {
                    b[i][j - n]
                }
            } else {
                if j < n {
                    c[i - m][j]
                } else {
                    d[i - m][j - n]
                }
            },
    )
}

/// The matrix cut or padded with zeros to `m` rows and `n` columns.
pub open spec fn resized(s: Grid, m: int, n: int) -> Grid {
    grid_fn(m, n, |i: int, j: int| if i < s.len() && j < s[i].len() { s[i][j] } else { 0i64 })
}

/// All cells, row after row.
pub open spec fn flatten(s: Grid) -> Seq<i64>
    decreases s.len(),
{
    if s.len() == 0 {
        seq![]
    } else {
        flatten(s.drop_last()) + s.last()
    }
}

/// Column `j` of `s`, top to bottom.
pub open spec fn column_of(s: Grid, j: int) -> Seq<i64> {
    Seq::new(s.len(), |i: int| s[i][j])
}

/// The index of the first non-zero value of `r` at or after `k`, if any.
pub open spec fn first_nonzero_from(r: Seq<i64>, k: int) -> Option<nat>
    decreases r.len() - k,
{
    if k < 0 || k >= r.len() {
        None
    } else if r[k] != 0 {
        Some(k as nat)
    } else {
        first_nonzero_from(r, k + 1)
    }
}

/// The index of the first non-zero value of `r`, if any.
pub open spec fn first_nonzero(r: Seq<i64>) -> Option<nat> {
    first_nonzero_from(r, 0)
}

/// The main diagonal of a square matrix.
pub open spec fn diagonal_of(s: Grid) -> Seq<i64> {
    Seq::new(s.len(), |i: int| s[i][i])
}

/// The sum of the values of `v`.
pub open spec fn sum(v: Seq<i64>) -> int
    decreases v.len(),
{
    if v.len() == 0 {
        0
    } else {
        sum(v.drop_last()) + v.last()
    }
}

/// The number of non-zero values of `v`.
pub open spec fn count_nonzero(v: Seq<i64>) -> nat
    decreases v.len(),
{
    if v.len() == 0 {
        0
    } else {
        count_nonzero(v.drop_last()) + if v.last() != 0 {
            1nat
        } else {
            0nat
        }
    }
}

/// A matrix of integers, stored as a vector of rows.
#[derive(PartialEq, Eq, Debug)]
pub struct Matrix(Vec<Vec<i64>>);

impl View for Matrix {
    type V = Grid;

    closed spec fn view(&self) -> Grid {
        self.0@.map_values(|row: Vec<i64>| row@)
    }
}


/// A copy of a row.
fn copy_row(v: &Vec<i64>) -> (r: Vec<i64>)
    ensures
        r@ == v@,
{
    let mut r: Vec<i64> = Vec::new();
    let mut j: usize = 0;
    while j < v.len()
        invariant
            j <= v.len(),
            r@ == v@.subrange(0, j as int),
        decreases v.len() - j,
    {
        r.push(v[j]);
        j = j + 1;
        assert(r@ =~~= v@.subrange(0, j as int));
    }
    assert(r@ =~~= v@);
    r
}

impl Clone for Matrix {
    fn clone(&self) -> (r: Self)
        ensures
            r@ == self@,
    {
        let mut out: Vec<Vec<i64>> = Vec::new();
        let mut i: usize = 0;
        while i < self.0.len()
            invariant
                i <= self.0.len(),
                out.len() == i,
                forall|k: int| 0 <= k < i ==> #[trigger] out@[k]@ == self.0@[k]@,
            decreases self.0.len() - i,
        {
            out.push(copy_row(&self.0[i]));
            i = i + 1;
        }
        let r = Matrix(out);
        assert(r@ =~~= self@);
        r
    }
}

/// Build a vector of `n` copies of `v`.
fn repeat(v: i64, n: usize) -> (r: Vec<i64>)
    ensures
        r@ == Seq::new(n as nat, |j: int| v),
{
    let r = vec![v; n];
    assert(r@ =~~= Seq::new(n as nat, |j: int| v));
    r
}

/// The size of a matrix.
pub trait MatSized {
    /// Return the matrix's dimensions.
    fn dimensions(&self) -> (usize, usize);

    /// Return the number of rows in the matrix.
    fn m(&self) -> usize;

    /// Return the number of columns in the matrix.
    fn n(&self) -> usize;
}

/// The number of columns of a grid, 0 when it has no row.
pub open spec fn width_or_zero(s: Grid) -> int {
    if s.len() == 0 {
        0
    } else {
        cols(s)
    }
}

impl MatSized for Matrix {
    /// The numbers of rows and of columns; a matrix without rows has no columns.
    fn dimensions(&self) -> (r: (usize, usize))
        ensures
            r.0 == rows(self@),
            r.1 == width_or_zero(self@),
    {
        (MatSized::m(self), MatSized::n(self))
    }

    fn m(&self) -> (r: usize)
        ensures
            r == rows(self@),
    {
        self.0.len()
    }

    /// The length of the first row, or 0 when there is none.
    fn n(&self) -> (r: usize)
        ensures
            r == width_or_zero(self@),
    {
        if self.0.len() == 0 {
            0
        } else {
            self.0[0].len()
        }
    }
}

impl Matrix {
    // -- Utils -- //
    /// Return the matrix's dimensions.
    pub fn dimensions(&self) -> (r: (usize, usize))
        requires
            self@.len() > 0,
        ensures
            r.0 == rows(self@),
            r.1 == cols(self@),
    {
        (self.m(), self.n())
    }

    /// Return the number of row in the matrix.
    pub fn m(&self) -> (r: usize)
        ensures
            r == rows(self@),
    {
        self.0.len()
    }

    /// Return the number of columns in the matrix.
    pub fn n(&self) -> (r: usize)
        requires
            self@.len() > 0,
        ensures
            r == cols(self@),
    {
        self.0[0].len()
    }

    // -- Init -- //
    /// Initialize a column matrix from a vector.
    pub fn column(vec: Vec<i64>) -> (r: Self)
        ensures
            r@ == grid_fn(vec.len() as int, 1, |i: int, j: int| vec@[i]),
    {
        let mut out: Vec<Vec<i64>> = Vec::new();
        let mut i: usize = 0;
        while i < vec.len()
            invariant
                i <= vec.len(),
                out.len() == i,
                forall|k: int| 0 <= k < i ==> #[trigger] out@[k]@ == seq![vec@[k]],
            decreases vec.len() - i,
        {
            let mut row: Vec<i64> = Vec::new();
            row.push(vec[i]);
            out.push(row);
            i = i + 1;
        }
        let r = Matrix(out);
        assert(r@ =~~= grid_fn(vec.len() as int, 1, |i: int, j: int| vec@[i]));
        r
    }

    /// Initialize a new matrix filled with `val`.
    pub fn fill(m: usize, n: usize, val: i64) -> (r: Self)
        ensures
            r@ == filled(m as int, n as int, val),
    {
        let mut out: Vec<Vec<i64>> = Vec::new();
        let mut i: usize = 0;
        while i < m
            invariant
                i <= m,
                out.len() == i,
                forall|k: int| 0 <= k < i ==> #[trigger] out@[k]@ == Seq::new(n as nat, |j: int| val),
            decreases m - i,
        {
            out.push(repeat(val, n));
            i = i + 1;
        }
        let r = Matrix(out);
        assert(r@ =~~= filled(m as int, n as int, val));
        r
    }

    /// Initialize a new matrix from a grid of vectors.
    pub fn from(vec: Vec<Vec<i64>>) -> (r: Self)
        ensures
            r@ == vec@.map_values(|row: Vec<i64>| row@),
    {
        Matrix(vec)
    }

    /// Initialize a new matrix from a grid of vectors (the older name of `from`).
    pub fn from_vec(vec: Vec<Vec<i64>>) -> (r: Self)
        ensures
            r@ == vec@.map_values(|row: Vec<i64>| row@),
    {
        Matrix::from(vec)
    }

    /// Initialize a new matrix according to a function `f(i, j)`.
    pub fn from_fn<F: Fn(i64, i64) -> i64>(m: usize, n: usize, f: F) -> (r: Self)
        requires
            m <= i64::MAX,
            n <= i64::MAX,
            forall|i: i64, j: i64| 0 <= i < m && 0 <= j < n ==> #[trigger] f.requires((i, j)),
        ensures
            rows(r@) == m,
            forall|i: int| 0 <= i < m ==> #[trigger] r@[i].len() == n,
            forall|i: int, j: int|
                0 <= i < m && 0 <= j < n ==> f.ensures((i as i64, j as i64), #[trigger] r@[i][j]),
    {
        let mut out: Vec<Vec<i64>> = Vec::new();
        let mut i: usize = 0;
        while i < m
            invariant
                i <= m,
                m <= i64::MAX,
                n <= i64::MAX,
                forall|i: i64, j: i64| 0 <= i < m && 0 <= j < n ==> #[trigger] f.requires((i, j)),
                out.len() == i,
                forall|k: int| 0 <= k < i ==> #[trigger] out@[k].len() == n,
                forall|k: int, j: int|
                    0 <= k < i && 0 <= j < n ==> f.ensures((k as i64, j as i64), #[trigger] out@[k]@[j]),
            decreases m - i,
        {
            let mut row: Vec<i64> = Vec::new();
            let mut j: usize = 0;
            while j < n
                invariant
                    i < m,
                    j <= n,
                    m <= i64::MAX,
                    n <= i64::MAX,
                    forall|i: i64, j: i64| 0 <= i < m && 0 <= j < n ==> #[trigger] f.requires((i, j)),
                    row.len() == j,
                    forall|l: int| 0 <= l < j ==> f.ensures((i as i64, l as i64), #[trigger] row@[l]),
                decreases n - j,
            {
                let v = f(i as i64, j as i64);
                row.push(v);
                j = j + 1;
            }
            out.push(row);
            i = i + 1;
        }
        let r = Matrix(out);
        assert forall|i: int| 0 <= i < m implies #[trigger] r@[i] == out@[i]@ && r@[i].len() == n by {
            assert(out@[i].len() == n);
        }
        r
    }

    /// Initialize a identity matrix.
    pub fn identity(m: usize, n: usize) -> (r: Self)
        ensures
            r@ == scalar_grid(m as int, n as int, 1),
    {
        Matrix::scalar(m, n, 1)
    }

    /// Initialize a new matrix filled with zeros.
    pub fn null(m: usize, n: usize) -> (r: Self)
        ensures
            r@ == filled(m as int, n as int, 0),
    {
        Matrix::fill(m, n, 0)
    }

    /// Initialize a new matrix from a given scalar.
    pub fn scalar(m: usize, n: usize, scalar: i64) -> (r: Self)
        ensures
            r@ == scalar_grid(m as int, n as int, scalar),
    {
        let mut out: Vec<Vec<i64>> = Vec::new();
        let mut i: usize = 0;
        while i < m
            invariant
                i <= m,
                out.len() == i,
                forall|k: int|
                    0 <= k < i ==> #[trigger] out@[k]@ == Seq::new(
                        n as nat,
                        |j: int| if k == j { scalar } else { 0i64 },
                    ),
            decreases m - i,
        {
            let mut row: Vec<i64> = Vec::new();
            let mut j: usize = 0;
            while j < n
                invariant
                    j <= n,
                    row@ == Seq::new(j as nat, |l: int| if i == l { scalar } else { 0i64 }),
                decreases n - j,
            {
                row.push(if i == j { scalar } else { 0 });
                j = j + 1;
                assert(row@ =~= Seq::new(j as nat, |l: int| if i == l { scalar } else { 0i64 }));
            }
            out.push(row);
            i = i + 1;
        }
        let r = Matrix(out);
        assert(r@ =~~= scalar_grid(m as int, n as int, scalar));
        r
    }

    /// Initialize a new matrix from a given scalar (the older name of `scalar`).
    pub fn from_scalar(m: usize, n: usize, scalar: i64) -> (r: Self)
        ensures
            r@ == scalar_grid(m as int, n as int, scalar),
    {
        Matrix::scalar(m, n, scalar)
    }

    /// Initialize a new matrix by transposing another one.
    pub fn transposed(matrix: &Matrix) -> (r: Self)
        requires
            is_matrix(matrix@),
        ensures
            r@ == transpose(matrix@),
    {
        let m = matrix.m();
        let n = matrix.n();
        let mut out: Vec<Vec<i64>> = Vec::new();
        let mut i: usize = 0;
        while i < n
            invariant
                is_matrix(matrix@),
                m == rows(matrix@),
                n == cols(matrix@),
                i <= n,
                out.len() == i,
                forall|k: int|
                    0 <= k < i ==> #[trigger] out@[k]@ == Seq::new(m as nat, |j: int| matrix@[j][k]),
            decreases n - i,
        {
            let mut row: Vec<i64> = Vec::new();
            let mut j: usize = 0;
            while j < m
                invariant
                    is_matrix(matrix@),
                    m == rows(matrix@),
                    n == cols(matrix@),
                    i < n,
                    j <= m,
                    row@ == Seq::new(j as nat, |l: int| matrix@[l][i as int]),
                decreases m - j,
            {
                assert(matrix@[j as int].len() == n);
                row.push(matrix.0[j][i]);
                j = j + 1;
                assert(row@ =~= Seq::new(j as nat, |l: int| matrix@[l][i as int]));
            }
            out.push(row);
            i = i + 1;
        }
        let r = Matrix(out);
        assert(r@ =~~= transpose(matrix@));
        r
    }

    /// Initialize a new matrix by inversing the order of each element in rows.
    pub fn row_reflected(matrix: &Matrix) -> (r: Self)
        requires
            is_matrix(matrix@),
        ensures
            r@ == reflect_rows(matrix@),
    {
        let m = matrix.m();
        let n = matrix.n();
        let mut out: Vec<Vec<i64>> = Vec::new();
        let mut i: usize = 0;
        while i < m
            invariant
                is_matrix(matrix@),
                m == rows(matrix@),
                n == cols(matrix@),
                i <= m,
                out.len() == i,
                forall|k: int|
                    0 <= k < i ==> #[trigger] out@[k]@ == Seq::new(
                        n as nat,
                        |j: int| matrix@[k][n - 1 - j],
                    ),
            decreases m - i,
        {
            let mut row: Vec<i64> = Vec::new();
            let mut j: usize = 0;
            assert(matrix@[i as int].len() == n);
            while j < n
                invariant
                    is_matrix(matrix@),
                    m == rows(matrix@),
                    n == cols(matrix@),
                    i < m,
                    j <= n,
                    matrix@[i as int].len() == n,
                    row@ == Seq::new(j as nat, |l: int| matrix@[i as int][n - 1 - l]),
                decreases n - j,
            {
                row.push(matrix.0[i][n - 1 - j]);
                j = j + 1;
                assert(row@ =~= Seq::new(j as nat, |l: int| matrix@[i as int][n - 1 - l]));
            }
            out.push(row);
            i = i + 1;
        }
        let r = Matrix(out);
        assert(r@ =~~= reflect_rows(matrix@));
        r
    }

    // -- Get -- //
    /// Return a value at given coordonates.
    ///
    /// If coordonates are out of bound, return None.
    pub fn get(&self, i: usize, j: usize) -> (r: Option<i64>)
        requires
            is_rect(self@),
        ensures
            r == if i < rows(self@) && j < cols(self@) {
                Some(self@[i as int][j as int])
            } else {
                None
            },
    {
        if i < self.m() && j < self.n() {
            assert(self@[i as int].len() == cols(self@));
            Some(self.0[i][j])
        } else {
            None
        }
    }

    /// Return row `i` (indexing).
    pub fn index(&self, index: usize) -> (r: &[i64])
        requires
            index < rows(self@),
        ensures
            r@ == self@[index as int],
    {
        self.0[index].as_slice()
    }

    /// Return row `i` for writing (mutable indexing): the cells of the row can
    /// change, not its length.
    pub fn index_mut(&mut self, index: usize) -> (r: &mut [i64])
        requires
            index < rows(old(self)@),
        ensures
            r@ == old(self)@[index as int],
            final(self)@ == old(self)@.update(index as int, final(r)@),
    {
        self.0[index].as_mut_slice()
    }
}


/// The pivot columns of the first `k` rows, top to bottom, skipping zero rows.
pub open spec fn pivot_cols(s: Grid, k: int) -> Seq<nat>
    decreases k,
{
    if k <= 0 {
        seq![]
    } else {
        pivot_cols(s, k - 1) + match first_nonzero(s[k - 1]) {
            Some(c) => seq![c],
            None => seq![],
        }
    }
}

/// Every cell is zero.
pub open spec fn all_zero(s: Grid) -> bool {
    forall|i: int, j: int| 0 <= i < s.len() && 0 <= j < s[i].len() ==> s[i][j] == 0
}

pub open spec fn square(s: Grid) -> bool {
    rows(s) == cols(s)
}

pub open spec fn upper_triangular(s: Grid) -> bool {
    square(s) && forall|i: int, j: int| 0 <= j < i < rows(s) ==> s[i][j] == 0
}

pub open spec fn lower_triangular(s: Grid) -> bool {
    square(s) && forall|i: int, j: int| 0 <= i < j < cols(s) ==> s[i][j] == 0
}

pub open spec fn diagonal_matrix(s: Grid) -> bool {
    upper_triangular(s) && lower_triangular(s)
}

pub open spec fn scalar_matrix(s: Grid) -> bool {
    diagonal_matrix(s) && forall|i: int| 0 <= i < rows(s) ==> #[trigger] s[i][i] == s[0][0]
}

pub open spec fn identity_matrix(s: Grid) -> bool {
    scalar_matrix(s) && s[0][0] == 1
}

pub open spec fn symmetric(s: Grid) -> bool {
    square(s) && forall|i: int, j: int| 0 <= i < j < cols(s) ==> s[i][j] == s[j][i]
}

pub open spec fn antisymmetric(s: Grid) -> bool {
    square(s) && forall|i: int, j: int| 0 <= i <= j < cols(s) ==> s[i][j] + s[j][i] == 0
}

pub open spec fn transition(s: Grid) -> bool {
    square(s) && forall|j: int| 0 <= j < cols(s) ==> #[trigger] sum(column_of(s, j)) == 1
}

pub open spec fn level_state(s: Grid) -> bool {
    cols(s) == 1 && sum(column_of(s, 0)) == 1
}

/// Row echelon form: each non-zero row's pivot is strictly left of the next
/// row's pivot, and zero rows come last.
pub open spec fn scaled(s: Grid) -> bool {
    forall|i: int| 0 <= i < rows(s) - 1 ==> #[trigger] scaled_at(s, i)
}

/// Rows `i` and `i + 1` are in row echelon order: row `i + 1` is zero, or both
/// rows have pivots and row `i`'s is further left.
pub open spec fn scaled_at(s: Grid, i: int) -> bool {
    match (first_nonzero(s[i]), first_nonzero(s[i + 1])) {
        (_, None) => true,
        (Some(a), Some(b)) => a < b,
        (None, Some(_)) => false,
    }
}

/// The first non-zero value of `r` from `k` on is at or before any non-zero
/// value from `k` on.
proof fn lemma_first_nonzero_before(r: Seq<i64>, k: int, j: int)
    requires
        0 <= k <= j < r.len(),
        r[j] != 0,
    ensures
        first_nonzero_from(r, k) matches Some(c) && k <= c <= j && r[c as int] != 0,
    decreases j - k,
{
    if r[k] == 0 {
        lemma_first_nonzero_before(r, k + 1, j);
    }
}

/// In a scaled matrix every non-zero cell of a row has a non-zero cell of the
/// row above strictly to its left: two non-zero rows never share a pivot
/// column, pivots move right from row to row, and zero rows come last.
pub proof fn lemma_scaled_pivots_move_right(s: Grid, i: int, j: int)
    requires
        scaled(s),
        0 <= i < rows(s) - 1,
        0 <= j < s[i + 1].len(),
        s[i + 1][j] != 0,
    ensures
        exists|x: int| 0 <= x < j && x < s[i].len() && #[trigger] s[i][x] != 0,
{
    assert(scaled_at(s, i));
    lemma_first_nonzero_before(s[i + 1], 0, j);
    lemma_first_nonzero_bound(s[i], 0);
    let a = first_nonzero(s[i]).unwrap();
    assert(s[i][a as int] != 0);
}

/// Conversely, a matrix whose every non-zero cell has a non-zero cell of the
/// row above strictly to its left is scaled.
pub proof fn lemma_pivots_move_right_scaled(s: Grid)
    requires
        forall|i: int, j: int|
            0 <= i < rows(s) - 1 && 0 <= j < s[i + 1].len() && #[trigger] s[i + 1][j] != 0 ==> exists|x: int|
                0 <= x < j && x < s[i].len() && #[trigger] s[i][x] != 0,
    ensures
        scaled(s),
{
    assert forall|i: int| 0 <= i < rows(s) - 1 implies #[trigger] scaled_at(s, i) by {
        lemma_first_nonzero_bound(s[i + 1], 0);
        if let Some(b) = first_nonzero(s[i + 1]) {
            assert(s[i + 1][b as int] != 0);
            let x = choose|x: int| 0 <= x < b && x < s[i].len() && #[trigger] s[i][x] != 0;
            lemma_first_nonzero_before(s[i], 0, x);
        }
    }
}

/// Reduced row echelon form: the matrix is scaled, and the column of every
/// pivot holds no other non-zero value.
pub open spec fn reduced_form(s: Grid) -> bool {
    let p = pivot_cols(s, rows(s));
    &&& scaled(s)
    &&& forall|x: int, y: int| 0 <= x < y < p.len() ==> p[x] < p[y]
    &&& forall|x: int| 0 <= x < p.len() ==> count_nonzero(column_of(s, #[trigger] p[x] as int)) == 1
}

proof fn lemma_first_nonzero_bound(r: Seq<i64>, k: int)
    ensures
        first_nonzero_from(r, k) matches Some(c) ==> k <= c < r.len() && r[c as int] != 0,
    decreases r.len() - k,
{
    if 0 <= k < r.len() && r[k] == 0 {
        lemma_first_nonzero_bound(r, k + 1);
    }
}

/// Index of the first non-zero value of a row.
fn row_first_nonzero(r: &Vec<i64>, len: usize) -> (c: Option<usize>)
    requires
        len == r.len(),
    ensures
        c is None <==> first_nonzero(r@) is None,
        c matches Some(k) ==> first_nonzero(r@) == Some(k as nat) && k < len && r@[k as int] != 0,
{
    let mut j: usize = 0;
    while j < len
        invariant
            j <= len,
            len == r.len(),
            first_nonzero_from(r@, j as int) == first_nonzero(r@),
            forall|l: int| 0 <= l < j ==> r@[l] == 0,
        decreases len - j,
    {
        if r[j] != 0 {
            return Some(j);
        }
        j = j + 1;
    }
    None
}

/// Column `j` of a rectangular grid.
fn column_vec(v: &Vec<Vec<i64>>, j: usize) -> (c: Vec<i64>)
    requires
        forall|i: int| 0 <= i < v.len() ==> j < #[trigger] v@[i].len(),
    ensures
        c@ == column_of(v@.map_values(|row: Vec<i64>| row@), j as int),
{
    let mut c: Vec<i64> = Vec::new();
    let mut i: usize = 0;
    while i < v.len()
        invariant
            i <= v.len(),
            forall|i: int| 0 <= i < v.len() ==> j < #[trigger] v@[i].len(),
            c@ == Seq::new(i as nat, |k: int| v@[k]@[j as int]),
        decreases v.len() - i,
    {
        assert(j < v@[i as int].len());
        c.push(v[i][j]);
        i = i + 1;
        assert(c@ =~= Seq::new(i as nat, |k: int| v@[k]@[j as int]));
    }
    assert(c@ =~= column_of(v@.map_values(|row: Vec<i64>| row@), j as int));
    c
}

/// The sum of a vector, computed wide enough never to overflow.
fn sum_wide(v: &Vec<i64>) -> (r: i128)
    ensures
        r == sum(v@),
{
    let mut acc: i128 = 0;
    let mut k: usize = 0;
    while k < v.len()
        invariant
            k <= v.len(),
            acc == sum(v@.subrange(0, k as int)),
            -0x8000_0000_0000_0000 * k <= acc <= 0x7fff_ffff_ffff_ffff * k,
        decreases v.len() - k,
    {
        assert(v@.subrange(0, k + 1).drop_last() =~= v@.subrange(0, k as int));
        assert(k <= usize::MAX);
        acc = acc + v[k] as i128;
        k = k + 1;
    }
    assert(v@.subrange(0, v.len() as int) =~= v@);
    acc
}

/// The number of non-zero values of a vector.
fn count_nonzero_vec(v: &Vec<i64>) -> (r: usize)
    ensures
        r == count_nonzero(v@),
{
    let mut acc: usize = 0;
    let mut k: usize = 0;
    while k < v.len()
        invariant
            k <= v.len(),
            acc == count_nonzero(v@.subrange(0, k as int)),
            acc <= k,
        decreases v.len() - k,
    {
        assert(v@.subrange(0, k + 1).drop_last() =~= v@.subrange(0, k as int));
        if v[k] != 0 {
            acc = acc + 1;
        }
        k = k + 1;
    }
    assert(v@.subrange(0, v.len() as int) =~= v@);
    acc
}

impl Matrix {
    // -- Sub -- //
    /// Return the inner matrix laying in `range_i` and `range_j`.
    pub fn sub_matrix(&self, range_i: std::ops::Range<usize>, range_j: std::ops::Range<usize>) -> (r: Self)
        requires
            range_i.start <= range_i.end <= rows(self@),
            range_j.start <= range_j.end,
            forall|r: int|
                range_i.start <= r < range_i.end ==> range_j.end <= #[trigger] self@[r].len(),
        ensures
            r@ == block(self@, range_i.start as int, range_i.end as int, range_j.start as int, range_j.end as int),
    {
        let mut out: Vec<Vec<i64>> = Vec::new();
        let mut i: usize = range_i.start;
        while i < range_i.end
            invariant
                range_i.start <= i <= range_i.end <= rows(self@),
                range_j.start <= range_j.end,
                forall|r: int|
                    range_i.start <= r < range_i.end ==> range_j.end <= #[trigger] self@[r].len(),
                out.len() == i - range_i.start,
                forall|k: int|
                    0 <= k < out.len() ==> #[trigger] out@[k]@ == Seq::new(
                        (range_j.end - range_j.start) as nat,
                        |j: int| self@[range_i.start + k][range_j.start + j],
                    ),
            decreases range_i.end - i,
        {
            let mut row: Vec<i64> = Vec::new();
            let mut j: usize = range_j.start;
            assert(range_j.end <= self@[i as int].len());
            while j < range_j.end
                invariant
                    range_j.start <= j <= range_j.end <= self@[i as int].len(),
                    i < rows(self@),
                    row@ == Seq::new((j - range_j.start) as nat, |l: int| self@[i as int][range_j.start + l]),
                decreases range_j.end - j,
            {
                row.push(self.0[i][j]);
                j = j + 1;
                assert(row@ =~= Seq::new((j - range_j.start) as nat, |l: int| self@[i as int][range_j.start + l]));
            }
            out.push(row);
            i = i + 1;
        }
        let r = Matrix(out);
        assert(r@ =~~= block(self@, range_i.start as int, range_i.end as int, range_j.start as int, range_j.end as int));
        r
    }

    /// Return the four dials of the given matrix.
    pub fn dials(&self) -> (r: [Matrix; 4])
        requires
            is_matrix(self@),
            rows(self@) % 2 == 0,
            cols(self@) % 2 == 0,
        ensures
            r[0]@ == block(self@, 0, rows(self@) / 2, 0, cols(self@) / 2),
            r[1]@ == block(self@, 0, rows(self@) / 2, cols(self@) / 2, cols(self@)),
            r[2]@ == block(self@, rows(self@) / 2, rows(self@), 0, cols(self@) / 2),
            r[3]@ == block(self@, rows(self@) / 2, rows(self@), cols(self@) / 2, cols(self@)),
    {
        let m = self.m();
        let n = self.n();
        let hm = m / 2;
        let hn = n / 2;
        let m11 = self.sub_matrix(0..hm, 0..hn);
        let m12 = self.sub_matrix(0..hm, hn..n);
        let m21 = self.sub_matrix(hm..m, 0..hn);
        let m22 = self.sub_matrix(hm..m, hn..n);
        [m11, m12, m21, m22]
    }

    /// Initialize a new matrix from four equaly-dimensionned dials.
    pub fn from_dials(m11: &Matrix, m12: &Matrix, m21: &Matrix, m22: &Matrix) -> (r: Self)
        requires
            is_matrix(m11@),
            is_matrix(m12@),
            is_matrix(m21@),
            is_matrix(m22@),
            rows(m12@) == rows(m11@) && cols(m12@) == cols(m11@),
            rows(m21@) == rows(m11@) && cols(m21@) == cols(m11@),
            rows(m22@) == rows(m11@) && cols(m22@) == cols(m11@),
            2 * rows(m11@) <= usize::MAX,
            2 * cols(m11@) <= usize::MAX,
        ensures
            r@ == join_quarters(m11@, m12@, m21@, m22@),
    {
        let (m, n) = m11.dimensions();
        let mut out: Vec<Vec<i64>> = Vec::new();
        let mut i: usize = 0;
        while i < 2 * m
            invariant
                is_matrix(m11@),
                is_matrix(m12@),
                is_matrix(m21@),
                is_matrix(m22@),
                rows(m12@) == rows(m11@) && cols(m12@) == cols(m11@),
                rows(m21@) == rows(m11@) && cols(m21@) == cols(m11@),
                rows(m22@) == rows(m11@) && cols(m22@) == cols(m11@),
                m == rows(m11@),
                n == cols(m11@),
                2 * m <= usize::MAX,
                2 * n <= usize::MAX,
                i <= 2 * m,
                out.len() == i,
                forall|k: int|
                    0 <= k < i ==> #[trigger] out@[k]@ == join_quarters(m11@, m12@, m21@, m22@)[k],
            decreases 2 * m - i,
        {
            let (left, right) = if i < m {
                assert(m11@[i as int].len() == n && m12@[i as int].len() == n);
                (&m11.0[i], &m12.0[i])
            } else {
                assert(m21@[i - m].len() == n && m22@[i - m].len() == n);
                (&m21.0[i - m], &m22.0[i - m])
            };
            assert(left@.len() == n && right@.len() == n);
            let mut row: Vec<i64> = Vec::new();
            let mut j: usize = 0;
            while j < 2 * n
                invariant
                    j <= 2 * n,
                    2 * n <= usize::MAX,
                    left@.len() == n,
                    right@.len() == n,
                    row@ == Seq::new(j as nat, |l: int| if l < n { left@[l] } else { right@[l - n] }),
                decreases 2 * n - j,
            {
                if j < n {
                    row.push(left[j]);
                } else {
                    row.push(right[j - n]);
                }
                j = j + 1;
                assert(row@ =~= Seq::new(j as nat, |l: int| if l < n { left@[l] } else { right@[l - n] }));
            }
            assert(row@ =~= join_quarters(m11@, m12@, m21@, m22@)[i as int]);
            out.push(row);
            i = i + 1;
        }
        let r = Matrix(out);
        assert(r@ =~~= join_quarters(m11@, m12@, m21@, m22@));
        r
    }

    // -- Mutation -- //
    /// Resize the matrix filling with zeros.
    pub fn resize(&mut self, m: usize, n: usize)
        ensures
            final(self)@ == resized(old(self)@, m as int, n as int),
    {
        let ghost s = old(self)@;
        if self.0.len() > m {
            self.0.truncate(m);
        }
        while self.0.len() < m
            invariant
                self.0.len() <= m,
                self.0.len() < m ==> self.0.len() >= s.len(),
                forall|i: int| 0 <= i < self.0.len() ==> if i < s.len() {
                    #[trigger] self.0@[i]@ == s[i]
                } else {
                    self.0@[i]@ == Seq::new(n as nat, |j: int| 0i64)
                },
            decreases m - self.0.len(),
        {
            self.0.push(repeat(0, n));
        }
        let mut i: usize = 0;
        while i < m
            invariant
                i <= m,
                self.0.len() == m,
                forall|k: int| 0 <= k < i ==> #[trigger] self.0@[k]@ == resized(s, m as int, n as int)[k],
                forall|k: int| i <= k < m ==> if k < s.len() {
                    #[trigger] self.0@[k]@ == s[k]
                } else {
                    self.0@[k]@ == Seq::new(n as nat, |j: int| 0i64)
                },
            decreases m - i,
        {
            let mut row = copy_row(&self.0[i]);
            if row.len() > n {
                row.truncate(n);
            }
            while row.len() < n
                invariant
                    row.len() <= n,
                    row.len() < n ==> row.len() >= self.0@[i as int]@.len(),
                    forall|j: int| 0 <= j < row.len() ==> #[trigger] row@[j] == if j < self.0@[i as int]@.len() {
                        self.0@[i as int]@[j]
                    } else {
                        0i64
                    },
                decreases n - row.len(),
            {
                row.push(0);
            }
            assert(row@ =~= resized(s, m as int, n as int)[i as int]);
            self.0.set(i, row);
            i = i + 1;
        }
        assert(self@ =~~= resized(s, m as int, n as int));
    }

    /// Push a row with a matching length to the end of the matrix.
    pub fn push_row(&mut self, row: Vec<i64>)
        requires
            old(self)@.len() > 0,
            row.len() == cols(old(self)@),
        ensures
            final(self)@ == old(self)@.push(row@),
    {
        self.0.push(row);
        assert(self@ =~= old(self)@.push(row@));
    }

    /// Push a column with a matching length to the end of the matrix.
    pub fn push_col(&mut self, col: Vec<i64>)
        requires
            col.len() == rows(old(self)@),
        ensures
            final(self)@ == Seq::new(old(self)@.len(), |i: int| old(self)@[i].push(col@[i])),
    {
        let mut i: usize = 0;
        while i < col.len()
            invariant
                i <= col.len(),
                self.0.len() == col.len(),
                forall|k: int| 0 <= k < i ==> #[trigger] self.0@[k]@ == old(self)@[k].push(col@[k]),
                forall|k: int| i <= k < col.len() ==> #[trigger] self.0@[k]@ == old(self)@[k],
            decreases col.len() - i,
        {
            let mut row = copy_row(&self.0[i]);
            row.push(col[i]);
            self.0.set(i, row);
            i = i + 1;
        }
        assert(self@ =~~= Seq::new(old(self)@.len(), |i: int| old(self)@[i].push(col@[i])));
    }

    /// Remove the row at index `i` and return it.
    pub fn remove_row(&mut self, i: usize) -> (r: Vec<i64>)
        requires
            i < rows(old(self)@),
        ensures
            r@ == old(self)@[i as int],
            final(self)@ == old(self)@.remove(i as int),
    {
        let r = self.0.remove(i);
        assert(self@ =~= old(self)@.remove(i as int));
        r
    }

    /// Remove the column at index `j` and return it.
    pub fn remove_col(&mut self, j: usize) -> (r: Vec<i64>)
        requires
            forall|i: int| 0 <= i < old(self)@.len() ==> j < #[trigger] old(self)@[i].len(),
        ensures
            r@ == column_of(old(self)@, j as int),
            final(self)@ == Seq::new(old(self)@.len(), |i: int| old(self)@[i].remove(j as int)),
    {
        let mut out: Vec<i64> = Vec::new();
        let mut i: usize = 0;
        while i < self.0.len()
            invariant
                i <= self.0.len(),
                self.0.len() == old(self)@.len(),
                forall|i: int| 0 <= i < old(self)@.len() ==> j < #[trigger] old(self)@[i].len(),
                out@ == Seq::new(i as nat, |k: int| old(self)@[k][j as int]),
                forall|k: int| 0 <= k < i ==> #[trigger] self.0@[k]@ == old(self)@[k].remove(j as int),
                forall|k: int| i <= k < self.0.len() ==> #[trigger] self.0@[k]@ == old(self)@[k],
            decreases self.0.len() - i,
        {
            let mut row = copy_row(&self.0[i]);
            let v = row.remove(j);
            out.push(v);
            self.0.set(i, row);
            i = i + 1;
            assert(out@ =~= Seq::new(i as nat, |k: int| old(self)@[k][j as int]));
        }
        assert(self@ =~~= Seq::new(old(self)@.len(), |i: int| old(self)@[i].remove(j as int)));
        out
    }
}


impl Matrix {
    // -- Get -- //
    /// Return all cells in matrix, row after row.
    pub fn iter_all(&self) -> (r: Vec<i64>)
        ensures
            r@ == flatten(self@),
    {
        let mut out: Vec<i64> = Vec::new();
        let mut i: usize = 0;
        while i < self.0.len()
            invariant
                i <= self.0.len(),
                out@ == flatten(self@.subrange(0, i as int)),
            decreases self.0.len() - i,
        {
            let mut j: usize = 0;
            let ghost before = out@;
            while j < self.0[i].len()
                invariant
                    i < self.0.len(),
                    j <= self.0[i as int].len(),
                    out@ == before + self.0[i as int]@.subrange(0, j as int),
                decreases self.0[i as int].len() - j,
            {
                out.push(self.0[i][j]);
                j = j + 1;
                assert(out@ =~= before + self.0[i as int]@.subrange(0, j as int));
            }
            assert(self@.subrange(0, i + 1).drop_last() =~= self@.subrange(0, i as int));
            assert(self.0[i as int]@.subrange(0, j as int) =~= self@[i as int]);
            i = i + 1;
        }
        assert(self@.subrange(0, self.0.len() as int) =~= self@);
        out
    }

    /// Return row `i`.
    pub fn iter_row(&self, i: usize) -> (r: Option<Vec<i64>>)
        requires
            is_rect(self@),
        ensures
            r matches Some(v) ==> i < rows(self@) && v@ == self@[i as int],
            r is None <==> i >= rows(self@),
    {
        if i < self.m() {
            assert(self@[i as int].len() == cols(self@));
            Some(copy_row(&self.0[i]))
        } else {
            None
        }
    }

    /// Return column `j`.
    pub fn iter_col(&self, j: usize) -> (r: Option<Vec<i64>>)
        requires
            is_matrix(self@),
        ensures
            r matches Some(v) ==> j < cols(self@) && v@ == column_of(self@, j as int),
            r is None <==> j >= cols(self@),
    {
        if j < self.n() {
            assert forall|i: int| 0 <= i < self.0.len() implies j < #[trigger] self.0@[i].len() by {
                assert(self@[i].len() == cols(self@));
            }
            Some(column_vec(&self.0, j))
        } else {
            None
        }
    }

    /// Return row `i` (the older name of `iter_row`).
    pub fn get_row(&self, i: usize) -> (r: Option<Vec<i64>>)
        requires
            is_rect(self@),
        ensures
            r matches Some(v) ==> i < rows(self@) && v@ == self@[i as int],
            r is None <==> i >= rows(self@),
    {
        self.iter_row(i)
    }

    /// Return column `j` (the older name of `iter_col`).
    pub fn get_col(&self, j: usize) -> (r: Option<Vec<i64>>)
        requires
            is_matrix(self@),
        ensures
            r matches Some(v) ==> j < cols(self@) && v@ == column_of(self@, j as int),
            r is None <==> j >= cols(self@),
    {
        self.iter_col(j)
    }

    /// Find the value of the pivot for a given row `i`.
    pub fn pivot(&self, i: usize) -> (r: Option<i64>)
        requires
            is_rect(self@),
        ensures
            r == if i < rows(self@) {
                match first_nonzero(self@[i as int]) {
                    Some(k) => Some(self@[i as int][k as int]),
                    None => None,
                }
            } else {
                None
            },
    {
        if i < self.m() {
            assert(self@[i as int] == self.0@[i as int]@);
            match row_first_nonzero(&self.0[i], self.0[i].len()) {
                Some(k) => Some(self.0[i][k]),
                None => None,
            }
        } else {
            None
        }
    }

    /// Find the column of the pivot for a given row `i`.
    pub fn column_pivot(&self, i: usize) -> (r: Option<usize>)
        requires
            is_rect(self@),
        ensures
            i >= rows(self@) ==> r is None,
            i < rows(self@) ==> (r is None <==> first_nonzero(self@[i as int]) is None),
            r matches Some(k) ==> i < rows(self@) && first_nonzero(self@[i as int]) == Some(k as nat) && k < cols(
                self@,
            ),
    {
        if i < self.m() {
            assert(self@[i as int].len() == cols(self@));
            assert(self@[i as int] == self.0@[i as int]@);
            row_first_nonzero(&self.0[i], self.0[i].len())
        } else {
            None
        }
    }

    /// Return the diagonal of the matrix.
    pub fn diagonal(&self) -> (r: Option<Vec<i64>>)
        requires
            is_matrix(self@),
        ensures
            r matches Some(v) ==> square(self@) && v@ == diagonal_of(self@),
            r is None <==> !square(self@),
    {
        if self.is_square() {
            let mut out: Vec<i64> = Vec::new();
            let mut i: usize = 0;
            while i < self.0.len()
                invariant
                    is_matrix(self@),
                    square(self@),
                    i <= self.0.len(),
                    out@ == Seq::new(i as nat, |k: int| self@[k][k]),
                decreases self.0.len() - i,
            {
                assert(self@[i as int].len() == cols(self@));
                out.push(self.0[i][i]);
                i = i + 1;
                assert(out@ =~= Seq::new(i as nat, |k: int| self@[k][k]));
            }
            Some(out)
        } else {
            None
        }
    }

    /// Return the trace of the matrix.
    pub fn trace(&self) -> (r: Option<i64>)
        requires
            is_matrix(self@),
            square(self@) ==> i64::MIN <= sum(diagonal_of(self@)) <= i64::MAX,
        ensures
            r matches Some(t) ==> square(self@) && t == sum(diagonal_of(self@)),
            r is None <==> !square(self@),
    {
        match self.diagonal() {
            Some(d) => Some(sum_wide(&d) as i64),
            None => None,
        }
    }

    // -- Check -- //
    /// Check if the matrix is null.
    pub fn is_null(&self) -> (r: bool)
        ensures
            r == all_zero(self@),
    {
        let mut i: usize = 0;
        while i < self.0.len()
            invariant
                i <= self.0.len(),
                forall|k: int, j: int| 0 <= k < i && 0 <= j < self@[k].len() ==> self@[k][j] == 0,
            decreases self.0.len() - i,
        {
            let mut j: usize = 0;
            while j < self.0[i].len()
                invariant
                    i < self.0.len(),
                    j <= self.0[i as int].len(),
                    forall|l: int| 0 <= l < j ==> self@[i as int][l] == 0,
                decreases self.0[i as int].len() - j,
            {
                if self.0[i][j] != 0 {
                    assert(self@[i as int][j as int] != 0);
                    return false;
                }
                j = j + 1;
            }
            i = i + 1;
        }
        true
    }

    /// Check if the matrix is scaled.
    pub fn is_scaled(&self) -> (r: bool)
        requires
            is_matrix(self@),
        ensures
            r == scaled(self@),
    {
        let m = self.m();
        let mut i: usize = 0;
        while i < m - 1
            invariant
                is_matrix(self@),
                m == rows(self@),
                i <= m - 1,
                forall|k: int| 0 <= k < i ==> #[trigger] scaled_at(self@, k),
            decreases m - 1 - i,
        {
            let j1 = self.column_pivot(i);
            let j2 = self.column_pivot(i + 1);
            let ok = match (j1, j2) {
                (_, None) => true,
                (Some(a), Some(b)) => a < b,
                (None, Some(_)) => false,
            };
            if !ok {
                assert(!scaled_at(self@, i as int));
                return false;
            }
            assert(scaled_at(self@, i as int));
            i = i + 1;
        }
        true
    }

    /// Check if the matrix is reduced.
    pub fn is_reduced(&self) -> (r: bool)
        requires
            is_matrix(self@),
        ensures
            r == reduced_form(self@),
    {
        if !self.is_scaled() {
            return false;
        }
        let m = self.m();
        let mut piv: Vec<usize> = Vec::new();
        let mut i: usize = 0;
        while i < m
            invariant
                is_matrix(self@),
                scaled(self@),
                m == rows(self@),
                i <= m,
                piv@.len() == pivot_cols(self@, i as int).len(),
                forall|x: int| 0 <= x < piv@.len() ==> #[trigger] piv@[x] == pivot_cols(self@, i as int)[x],
                forall|x: int| 0 <= x < piv@.len() ==> #[trigger] piv@[x] < cols(self@),
            decreases m - i,
        {
            let ghost before = piv@;
            match self.column_pivot(i) {
                Some(c) => piv.push(c),
                None => {},
            }
            assert(pivot_cols(self@, i + 1) == pivot_cols(self@, i as int) + match first_nonzero(self@[i as int]) {
                Some(c) => seq![c],
                None => seq![],
            });
            i = i + 1;
        }
        let ghost p = pivot_cols(self@, rows(self@));
        let mut x: usize = 1;
        while x < piv.len()
            invariant
                p == pivot_cols(self@, rows(self@)),
                piv@.len() == p.len(),
                forall|x: int| 0 <= x < piv@.len() ==> #[trigger] piv@[x] == p[x],
                1 <= x,
                x <= piv.len() || piv.len() == 0,
                forall|a: int, b: int| 0 <= a < b < x && b < p.len() ==> p[a] < p[b],
            decreases piv.len() - x,
        {
            if piv[x - 1] >= piv[x] {
                assert(!(p[x - 1] < p[x as int]));
                return false;
            }
            x = x + 1;
        }
        let mut y: usize = 0;
        while y < piv.len()
            invariant
                is_matrix(self@),
                scaled(self@),
                p == pivot_cols(self@, rows(self@)),
                piv@.len() == p.len(),
                forall|x: int| 0 <= x < piv@.len() ==> #[trigger] piv@[x] == p[x],
                forall|x: int| 0 <= x < piv@.len() ==> #[trigger] piv@[x] < cols(self@),
                y <= piv.len(),
                forall|a: int| 0 <= a < y ==> count_nonzero(column_of(self@, #[trigger] p[a] as int)) == 1,
            decreases piv.len() - y,
        {
            assert(piv@[y as int] < cols(self@));
            let col = match self.iter_col(piv[y]) {
                Some(v) => v,
                None => {
                    return false;
                },
            };
            if count_nonzero_vec(&col) != 1 {
                assert(count_nonzero(column_of(self@, p[y as int] as int)) != 1);
                return false;
            }
            y = y + 1;
        }
        true
    }

    /// Check if the matrix is upper-triangular.
    pub fn is_upper_triangular(&self) -> (r: bool)
        requires
            is_matrix(self@),
        ensures
            r == upper_triangular(self@),
    {
        if !self.is_square() {
            return false;
        }
        let m = self.m();
        let mut i: usize = 1;
        while i < m
            invariant
                is_matrix(self@),
                square(self@),
                m == rows(self@),
                1 <= i <= m,
                forall|a: int, b: int| 0 <= b < a < i ==> self@[a][b] == 0,
            decreases m - i,
        {
            let mut j: usize = 0;
            while j < i
                invariant
                    is_matrix(self@),
                    square(self@),
                    m == rows(self@),
                    1 <= i < m,
                    j <= i,
                    forall|a: int, b: int| 0 <= b < a < i ==> self@[a][b] == 0,
                    forall|b: int| 0 <= b < j ==> self@[i as int][b] == 0,
                decreases i - j,
            {
                if self.get(i, j) != Some(0i64) {
                    return false;
                }
                j = j + 1;
            }
            i = i + 1;
        }
        true
    }

    /// Check if the matrix is lower-triangular.
    pub fn is_lower_triangular(&self) -> (r: bool)
        requires
            is_matrix(self@),
        ensures
            r == lower_triangular(self@),
    {
        if !self.is_square() {
            return false;
        }
        let m = self.m();
        let n = self.n();
        let mut i: usize = 0;
        while i < m
            invariant
                is_matrix(self@),
                square(self@),
                m == rows(self@),
                n == cols(self@),
                i <= m,
                forall|a: int, b: int| 0 <= a < b < n && a < i ==> self@[a][b] == 0,
            decreases m - i,
        {
            let mut j: usize = i + 1;
            while j < n
                invariant
                    is_matrix(self@),
                    square(self@),
                    m == rows(self@),
                    n == cols(self@),
                    i < m,
                    i + 1 <= j <= n || (j == i + 1 && n <= i + 1),
                    forall|a: int, b: int| 0 <= a < b < n && a < i ==> self@[a][b] == 0,
                    forall|b: int| i < b < j && b < n ==> self@[i as int][b] == 0,
                decreases n - j,
            {
                if self.get(i, j) != Some(0i64) {
                    return false;
                }
                j = j + 1;
            }
            i = i + 1;
        }
        true
    }

    /// Check if the matrix is diagonal.
    pub fn is_diagonal(&self) -> (r: bool)
        requires
            is_matrix(self@),
        ensures
            r == diagonal_matrix(self@),
    {
        self.is_upper_triangular() && self.is_lower_triangular()
    }

    /// Check if the matrix is scalar.
    pub fn is_scalar(&self) -> (r: bool)
        requires
            is_matrix(self@),
        ensures
            r == scalar_matrix(self@),
    {
        if !self.is_diagonal() {
            return false;
        }
        let d = match self.diagonal() {
            Some(d) => d,
            None => {
                return false;
            },
        };
        let first = self.0[0][0];
        let mut i: usize = 0;
        while i < d.len()
            invariant
                is_matrix(self@),
                square(self@),
                d@ == diagonal_of(self@),
                first == self@[0][0],
                i <= d.len(),
                forall|k: int| 0 <= k < i ==> #[trigger] self@[k][k] == self@[0][0],
            decreases d.len() - i,
        {
            if d[i] != first {
                return false;
            }
            i = i + 1;
        }
        true
    }

    /// Check if the matrix is identity.
    pub fn is_identity(&self) -> (r: bool)
        requires
            is_matrix(self@),
        ensures
            r == identity_matrix(self@),
    {
        self.is_scalar() && self.get(0, 0) == Some(1i64)
    }

    /// Check if the matrix is symetric.
    pub fn is_symetric(&self) -> (r: bool)
        requires
            is_matrix(self@),
        ensures
            r == symmetric(self@),
    {
        if !self.is_square() {
            return false;
        }
        let n = self.n();
        let mut i: usize = 0;
        while i < n
            invariant
                is_matrix(self@),
                square(self@),
                n == cols(self@),
                i <= n,
                forall|a: int, b: int| 0 <= a < b < n && a < i ==> self@[a][b] == self@[b][a],
            decreases n - i,
        {
            let mut j: usize = i + 1;
            while j < n
                invariant
                    is_matrix(self@),
                    square(self@),
                    n == cols(self@),
                    i < n,
                    i + 1 <= j,
                    j <= n || n <= i + 1,
                    forall|a: int, b: int| 0 <= a < b < n && a < i ==> self@[a][b] == self@[b][a],
                    forall|b: int| i < b < j && b < n ==> self@[i as int][b] == self@[b][i as int],
                decreases n - j,
            {
                if self.get(i, j) != self.get(j, i) {
                    return false;
                }
                j = j + 1;
            }
            i = i + 1;
        }
        true
    }

    /// Check if the matrix is antisymetric.
    pub fn is_antisymetric(&self) -> (r: bool)
        requires
            is_matrix(self@),
        ensures
            r == antisymmetric(self@),
    {
        if !self.is_square() {
            return false;
        }
        let n = self.n();
        let mut i: usize = 0;
        while i < n
            invariant
                is_matrix(self@),
                square(self@),
                n == cols(self@),
                i <= n,
                forall|a: int, b: int| 0 <= a <= b < n && a < i ==> self@[a][b] + self@[b][a] == 0,
            decreases n - i,
        {
            let mut j: usize = i;
            while j < n
                invariant
                    is_matrix(self@),
                    square(self@),
                    n == cols(self@),
                    i < n,
                    i <= j <= n,
                    forall|a: int, b: int| 0 <= a <= b < n && a < i ==> self@[a][b] + self@[b][a] == 0,
                    forall|b: int| i <= b < j ==> self@[i as int][b] + self@[b][i as int] == 0,
                decreases n - j,
            {
                assert(self@[i as int].len() == n && self@[j as int].len() == n);
                let x = self.0[i][j] as i128;
                let y = self.0[j][i] as i128;
                if x + y != 0 {
                    return false;
                }
                j = j + 1;
            }
            i = i + 1;
        }
        true
    }

    /// Check if the matrix is a transition matrix.
    pub fn is_transition(&self) -> (r: bool)
        requires
            is_matrix(self@),
        ensures
            r == transition(self@),
    {
        if !self.is_square() {
            return false;
        }
        let n = self.n();
        let mut j: usize = 0;
        while j < n
            invariant
                is_matrix(self@),
                square(self@),
                n == cols(self@),
                j <= n,
                forall|k: int| 0 <= k < j ==> #[trigger] sum(column_of(self@, k)) == 1,
            decreases n - j,
        {
            let col = match self.iter_col(j) {
                Some(c) => c,
                None => {
                    return false;
                },
            };
            if sum_wide(&col) != 1 {
                return false;
            }
            j = j + 1;
        }
        true
    }

    /// Check if the matrix is a level state matrix.
    pub fn is_level_state(&self) -> (r: bool)
        requires
            is_matrix(self@),
        ensures
            r == level_state(self@),
    {
        if !self.is_column() {
            return false;
        }
        match self.iter_col(0) {
            Some(c) => sum_wide(&c) == 1,
            None => false,
        }
    }

    // -- Matrix Formats -- //
    /// Check if matrix is line.
    pub fn is_line(&self) -> (r: bool)
        ensures
            r == (rows(self@) == 1),
    {
        self.m() == 1
    }

    /// Check if matrix is column.
    pub fn is_column(&self) -> (r: bool)
        requires
            self@.len() > 0,
        ensures
            r == (cols(self@) == 1),
    {
        self.n() == 1
    }

    /// Check if matrix is square.
    pub fn is_square(&self) -> (r: bool)
        requires
            self@.len() > 0,
        ensures
            r == square(self@),
    {
        self.m() == self.n()
    }
}


/// The grid as mathematical integers.
pub open spec fn ig(s: Grid) -> IGrid {
    Seq::new(s.len(), |i: int| Seq::new(s[i].len(), |j: int| s[i][j] as int))
}

/// The number of terms summed per cell of the product `a * b`: the shorter
/// of a row of `a` and a column of `b`.
pub open spec fn inner_len(a: Grid, b: Grid) -> int {
    if cols(a) < rows(b) {
        cols(a)
    } else {
        rows(b)
    }
}

/// Same number of rows, and rows of the same lengths.
pub open spec fn same_shape(a: Grid, b: Grid) -> bool {
    a.len() == b.len() && forall|i: int| 0 <= i < a.len() ==> #[trigger] a[i].len() == b[i].len()
}

/// `s` has `m` rows of `n` values.
pub open spec fn dims(s: Grid, m: int, n: int) -> bool {
    s.len() == m && forall|i: int| 0 <= i < m ==> #[trigger] s[i].len() == n
}

/// Cellwise sum or difference in the ring of 64-bit words.
fn combine_wrap(a: &Matrix, b: &Matrix, subtract: bool) -> (r: Matrix)
    requires
        same_shape(a@, b@),
    ensures
        same_shape(r@, a@),
        forall|i: int, j: int|
            0 <= i < a@.len() && 0 <= j < a@[i].len() ==> cong(
                #[trigger] r@[i][j] as int,
                if subtract {
                    a@[i][j] - b@[i][j]
                } else {
                    a@[i][j] + b@[i][j]
                },
            ),
{
    let mut out: Vec<Vec<i64>> = Vec::new();
    let mut i: usize = 0;
    while i < a.0.len()
        invariant
            same_shape(a@, b@),
            i <= a.0.len(),
            out.len() == i,
            forall|k: int| 0 <= k < i ==> #[trigger] out@[k]@.len() == a@[k].len(),
            forall|k: int, j: int|
                0 <= k < i && 0 <= j < a@[k].len() ==> cong(
                    #[trigger] out@[k]@[j] as int,
                    if subtract {
                        a@[k][j] - b@[k][j]
                    } else {
                        a@[k][j] + b@[k][j]
                    },
                ),
        decreases a.0.len() - i,
    {
        let mut row: Vec<i64> = Vec::new();
        let mut j: usize = 0;
        assert(a@[i as int].len() == b@[i as int].len());
        while j < a.0[i].len()
            invariant
                same_shape(a@, b@),
                i < a.0.len(),
                j <= a@[i as int].len(),
                row.len() == j,
                forall|l: int|
                    0 <= l < j ==> cong(
                        #[trigger] row@[l] as int,
                        if subtract {
                            a@[i as int][l] - b@[i as int][l]
                        } else {
                            a@[i as int][l] + b@[i as int][l]
                        },
                    ),
            decreases a@[i as int].len() - j,
        {
            let x = a.0[i][j];
            let y = b.0[i][j];
            proof {
                lemma_wrapping_add(x, y);
            }
            let v = if subtract {
                x.wrapping_sub(y)
            } else {
                x.wrapping_add(y)
            };
            row.push(v);
            j = j + 1;
        }
        out.push(row);
        i = i + 1;
    }
    let r = Matrix(out);
    assert forall|i: int| 0 <= i < a@.len() implies #[trigger] r@[i].len() == a@[i].len() by {
        assert(r@[i] == out@[i]@);
    }
    r
}

/// The product with wrapping arithmetic, by the schoolbook method.
fn naive_wrap(a: &Matrix, b: &Matrix) -> (r: Matrix)
    requires
        is_matrix(a@),
        is_matrix(b@),
    ensures
        dims(r@, rows(a@), cols(b@)),
        forall|i: int, j: int|
            0 <= i < rows(a@) && 0 <= j < cols(b@) ==> cong(
                #[trigger] r@[i][j] as int,
                dot(ig(a@), ig(b@), i, j, inner_len(a@, b@)),
            ),
{
    let m = a.m();
    let p = b.n();
    let k = if a.n() < b.m() {
        a.n()
    } else {
        b.m()
    };
    let mut out: Vec<Vec<i64>> = Vec::new();
    let mut i: usize = 0;
    while i < m
        invariant
            is_matrix(a@),
            is_matrix(b@),
            m == rows(a@),
            p == cols(b@),
            k == inner_len(a@, b@),
            i <= m,
            out.len() == i,
            forall|x: int| 0 <= x < i ==> #[trigger] out@[x]@.len() == p,
            forall|x: int, y: int|
                0 <= x < i && 0 <= y < p ==> cong(
                    #[trigger] out@[x]@[y] as int,
                    dot(ig(a@), ig(b@), x, y, k as int),
                ),
        decreases m - i,
    {
        let mut row: Vec<i64> = Vec::new();
        let mut j: usize = 0;
        while j < p
            invariant
                is_matrix(a@),
                is_matrix(b@),
                m == rows(a@),
                p == cols(b@),
                k == inner_len(a@, b@),
                i < m,
                j <= p,
                row.len() == j,
                forall|y: int|
                    0 <= y < j ==> cong(#[trigger] row@[y] as int, dot(ig(a@), ig(b@), i as int, y, k as int)),
            decreases p - j,
        {
            let mut acc: i64 = 0;
            let mut t: usize = 0;
            while t < k
                invariant
                    is_matrix(a@),
                    is_matrix(b@),
                    m == rows(a@),
                    p == cols(b@),
                    k == inner_len(a@, b@),
                    i < m,
                    j < p,
                    t <= k,
                    cong(acc as int, dot(ig(a@), ig(b@), i as int, j as int, t as int)),
                decreases k - t,
            {
                assert(a@[i as int].len() == cols(a@));
                assert(b@[t as int].len() == cols(b@));
                let x = a.0[i][t];
                let y = b.0[t][j];
                let prod = x.wrapping_mul(y);
                proof {
                    lemma_wrapping_mul(x, y);
                    lemma_wrapping_add(acc, prod);
                    lemma_cong_add(
                        acc as int,
                        prod as int,
                        dot(ig(a@), ig(b@), i as int, j as int, t as int),
                        x * y,
                    );
                    assert(ig(a@)[i as int][t as int] == x);
                    assert(ig(b@)[t as int][j as int] == y);
                }
                acc = acc.wrapping_add(prod);
                t = t + 1;
            }
            row.push(acc);
            j = j + 1;
        }
        out.push(row);
        i = i + 1;
    }
    let r = Matrix(out);
    assert forall|x: int| 0 <= x < m implies #[trigger] r@[x].len() == p by {
        assert(r@[x] == out@[x]@);
    }
    r
}


/// The number of times `x` can be halved before it reaches 1 (`ilog2`, and 0 for 0).
pub open spec fn log2(x: nat) -> nat
    decreases x,
{
    if x <= 1 {
        0
    } else {
        1 + log2(x / 2)
    }
}

/// `7^e`.
pub open spec fn pow7(e: nat) -> nat
    decreases e,
{
    if e == 0 {
        1
    } else {
        7 * pow7((e - 1) as nat)
    }
}

/// A number, or `u128::MAX` when it does not fit in a `u128`.
pub open spec fn saturated(v: nat) -> nat {
    if v > u128::MAX {
        u128::MAX as nat
    } else {
        v
    }
}

/// The schoolbook method is preferred for an `m` by `n` times `n` by `p`
/// product when it has fewer than 100 000 cells, or when its cost
/// `m * n * (m + n)` is below Strassen's, `7^ilog2(max(m, n, p))` (a cost that
/// does not fit in a `u128` is never below).
pub open spec fn naive_preferred(m: nat, n: nat, p: nat) -> bool {
    m * n < 100_000 || (m * n * (m + n) < u128::MAX && m * n * (m + n) < pow7(
        log2(max3_spec(m as int, n as int, p as int) as nat),
    ))
}

/// Whether the schoolbook method is preferred for an `m` by `n` times
/// `n` by `p` product, judged by its cost against Strassen's.
fn prefers_naive(m: usize, n: usize, p: usize) -> (r: bool)
    ensures
        r == naive_preferred(m as nat, n as nat, p as nat),
        !r ==> m * n >= 100_000,
{
    assert((m as u128) * (n as u128) <= u128::MAX) by (nonlinear_arith)
        requires
            m <= usize::MAX,
            n <= usize::MAX,
            usize::MAX <= u64::MAX,
    ;
    let area = (m as u128) * (n as u128);
    if area < 100_000 {
        return true;
    }
    let big = if m > n {
        m
    } else {
        n
    };
    let big = if big > p {
        big
    } else {
        p
    };
    let ghost k = log2(big as nat);
    let ghost total = area * ((m as u128) + (n as u128));
    let cost = match area.checked_mul((m as u128) + (n as u128)) {
        Some(c) => c,
        None => u128::MAX,
    };
    let mut pow: u128 = 1;
    let mut x = big;
    while x > 1
        invariant
            log2(x as nat) <= k,
            pow == saturated(pow7((k - log2(x as nat)) as nat)),
        decreases x,
    {
        let ghost e = (k - log2(x as nat)) as nat;
        x = x / 2;
        pow = match pow.checked_mul(7) {
            Some(q) => q,
            None => u128::MAX,
        };
        proof {
            assert(((k - log2(x as nat)) as nat) == e + 1);
            assert(pow7(e + 1) == 7 * pow7(e));
        }
    }
    proof {
        assert(log2(x as nat) == 0);
        assert(total == m * n * (m + n)) by (nonlinear_arith)
            requires
                area == m * n,
                total == area * (m + n),
        ;
    }
    cost < pow
}

fn max3(a: usize, b: usize, c: usize) -> (r: usize)
    ensures
        r >= a && r >= b && r >= c,
        r == a || r == b || r == c,
{
    let x = if a > b {
        a
    } else {
        b
    };
    if x > c {
        x
    } else {
        c
    }
}

pub open spec fn max3_spec(a: int, b: int, c: int) -> int {
    let x = if a > b {
        a
    } else {
        b
    };
    if x > c {
        x
    } else {
        c
    }
}

/// The product with wrapping arithmetic: the schoolbook method for small
/// matrices, Strassen's method for larger ones. Every cell is congruent to
/// the exact product modulo the word size.
fn mul_wrap(a: &Matrix, b: &Matrix) -> (r: Matrix)
    requires
        is_matrix(a@),
        is_matrix(b@),
        max3_spec(rows(a@), cols(a@), cols(b@)) < usize::MAX,
    ensures
        dims(r@, rows(a@), cols(b@)),
        forall|i: int, j: int|
            0 <= i < rows(a@) && 0 <= j < cols(b@) ==> cong(
                #[trigger] r@[i][j] as int,
                dot(ig(a@), ig(b@), i, j, inner_len(a@, b@)),
            ),
    decreases max3_spec(rows(a@), cols(a@), cols(b@)), 1int,
{
    let m = a.m();
    let n = a.n();
    let p = b.n();
    if prefers_naive(m, n, p) {
        return naive_wrap(a, b);
    }
    // `len` is the smallest even length to resize `a` and `b` into square
    // matrices with same dimensions.
    let big = max3(m, n, p);
    let len = if big % 2 == 0 {
        big
    } else {
        big + 1
    };
    let h = len / 2;
    assert(h >= 1 && h < big) by (nonlinear_arith)
        requires
            big >= m && big >= n,
            m * n >= 100_000,
            len == big || len == big + 1,
            h == len / 2,
    ;
    let mut ac = a.clone();
    let mut bc = b.clone();
    ac.resize(len, len);
    bc.resize(len, len);
    let c0 = strassen_square(&ac, &bc, h);
    let mut c = c0.clone();
    c.resize(m, p);
    proof {
        let ka = cols(a@);
        let kb = rows(b@);
        assert forall|i: int, j: int| 0 <= i < rows(a@) && 0 <= j < cols(b@) implies cong(
            #[trigger] c@[i][j] as int,
            dot(ig(a@), ig(b@), i, j, inner_len(a@, b@)),
        ) by {
            assert(a@[i].len() == ka);
            assert forall|k: int| 0 <= k < len implies #[trigger] ig(ac@)[i][k] == if k < ka {
                ig(a@)[i][k]
            } else {
                0
            } by {}
            assert forall|k: int| 0 <= k < len implies #[trigger] ig(bc@)[k][j] == if k < kb {
                ig(b@)[k][j]
            } else {
                0
            } by {
                if k < kb {
                    assert(b@[k].len() == cols(b@));
                }
            }
            lemma_dot_padded(ig(a@), ig(b@), ig(ac@), ig(bc@), i, j, ka, kb, len as int);
            assert(c@[i][j] == c0@[i][j]);
        }
    }
    c
}

/// An `h` by `h` product of two grids congruent to exact ones is congruent to
/// the exact product.
fn mul_cong(s: &Matrix, t: &Matrix, Ghost(x): Ghost<IGrid>, Ghost(y): Ghost<IGrid>, h: usize) -> (r: Matrix)
    requires
        h >= 1,
        dims(s@, h as int, h as int),
        dims(t@, h as int, h as int),
        h < usize::MAX,
        cong_on(ig(s@), x, h as int),
        cong_on(ig(t@), y, h as int),
    ensures
        dims(r@, h as int, h as int),
        forall|i: int, j: int| 0 <= i < h && 0 <= j < h ==> cong(#[trigger] ig(r@)[i][j], dot(x, y, i, j, h as int)),
    decreases h, 2int,
{
    let r = mul_wrap(s, t);
    proof {
        assert forall|i: int, j: int| 0 <= i < h && 0 <= j < h implies cong(
            #[trigger] ig(r@)[i][j],
            dot(ig(s@), ig(t@), i, j, h as int),
        ) by {
            assert(cong(r@[i][j] as int, dot(ig(s@), ig(t@), i, j, inner_len(s@, t@))));
        }
        lemma_product_cong(ig(r@), ig(s@), ig(t@), x, y, h as int);
    }
    r
}

/// Cellwise sum or difference of two `h` by `h` grids, modulo the word size.
fn combine_square(a: &Matrix, b: &Matrix, subtract: bool, h: usize) -> (r: Matrix)
    requires
        dims(a@, h as int, h as int),
        dims(b@, h as int, h as int),
    ensures
        dims(r@, h as int, h as int),
        cong_on(
            ig(r@),
            if subtract {
                minus(ig(a@), ig(b@))
            } else {
                plus(ig(a@), ig(b@))
            },
            h as int,
        ),
{
    let r = combine_wrap(a, b, subtract);
    proof {
        assert forall|i: int, j: int| 0 <= i < h && 0 <= j < h implies cong(
            #[trigger] ig(r@)[i][j],
            (if subtract {
                minus(ig(a@), ig(b@))
            } else {
                plus(ig(a@), ig(b@))
            })[i][j],
        ) by {
            assert(cong(
                r@[i][j] as int,
                if subtract {
                    a@[i][j] - b@[i][j]
                } else {
                    a@[i][j] + b@[i][j]
                },
            ));
        }
    }
    r
}

/// The exact quarter of a `2h` by `2h` grid.
proof fn lemma_ig_block(s: Grid, r: int, c: int, h: int)
    requires
        h >= 0,
        dims(s, 2 * h, 2 * h),
        r == 0 || r == h,
        c == 0 || c == h,
    ensures
        ig(block(s, r, r + h, c, c + h)) == quarter(ig(s), r, c, h),
        dims(block(s, r, r + h, c, c + h), h, h),
{
    assert(ig(block(s, r, r + h, c, c + h)) =~~= quarter(ig(s), r, c, h));
}

proof fn lemma_cong_on_refl(x: IGrid, h: int)
    ensures
        cong_on(x, x, h),
{
}

/// The product of two `2h` by `2h` grids by Strassen's seven products of
/// quarters, with wrapping arithmetic.
#[verifier::rlimit(40)]
fn strassen_square(a: &Matrix, b: &Matrix, h: usize) -> (r: Matrix)
    requires
        h >= 1,
        2 * h < usize::MAX,
        dims(a@, 2 * h, 2 * h),
        dims(b@, 2 * h, 2 * h),
    ensures
        dims(r@, 2 * h, 2 * h),
        forall|i: int, j: int|
            0 <= i < 2 * h && 0 <= j < 2 * h ==> cong(#[trigger] r@[i][j] as int, dot(ig(a@), ig(b@), i, j, 2 * h)),
    decreases h, 3int,
{
    let ghost ia = ig(a@);
    let ghost ib = ig(b@);
    let ghost hh = h as int;
    let ghost a11 = quarter(ia, 0, 0, hh);
    let ghost a12 = quarter(ia, 0, hh, hh);
    let ghost a21 = quarter(ia, hh, 0, hh);
    let ghost a22 = quarter(ia, hh, hh, hh);
    let ghost b11 = quarter(ib, 0, 0, hh);
    let ghost b12 = quarter(ib, 0, hh, hh);
    let ghost b21 = quarter(ib, hh, 0, hh);
    let ghost b22 = quarter(ib, hh, hh, hh);
    assert(is_matrix(a@) && is_matrix(b@)) by {
        assert(a@[0].len() == 2 * h);
        assert(b@[0].len() == 2 * h);
    }
    let da = a.dials();
    let db = b.dials();
    proof {
        lemma_ig_block(a@, 0, 0, hh);
        lemma_ig_block(a@, 0, hh, hh);
        lemma_ig_block(a@, hh, 0, hh);
        lemma_ig_block(a@, hh, hh, hh);
        lemma_ig_block(b@, 0, 0, hh);
        lemma_ig_block(b@, 0, hh, hh);
        lemma_ig_block(b@, hh, 0, hh);
        lemma_ig_block(b@, hh, hh, hh);
        lemma_cong_on_refl(a11, hh);
        lemma_cong_on_refl(a22, hh);
        lemma_cong_on_refl(b11, hh);
        lemma_cong_on_refl(b22, hh);
    }
    let s1 = combine_square(&da[0], &da[3], false, h);
    let t1 = combine_square(&db[0], &db[3], false, h);
    let m1 = mul_cong(&s1, &t1, Ghost(plus(a11, a22)), Ghost(plus(b11, b22)), h);
    let s2 = combine_square(&da[2], &da[3], false, h);
    let m2 = mul_cong(&s2, &db[0], Ghost(plus(a21, a22)), Ghost(b11), h);
    let t3 = combine_square(&db[1], &db[3], true, h);
    let m3 = mul_cong(&da[0], &t3, Ghost(a11), Ghost(minus(b12, b22)), h);
    let t4 = combine_square(&db[2], &db[0], true, h);
    let m4 = mul_cong(&da[3], &t4, Ghost(a22), Ghost(minus(b21, b11)), h);
    let s5 = combine_square(&da[0], &da[1], false, h);
    let m5 = mul_cong(&s5, &db[3], Ghost(plus(a11, a12)), Ghost(b22), h);
    let s6 = combine_square(&da[2], &da[0], true, h);
    let t6 = combine_square(&db[0], &db[1], false, h);
    let m6 = mul_cong(&s6, &t6, Ghost(minus(a21, a11)), Ghost(plus(b11, b12)), h);
    let s7 = combine_square(&da[1], &da[3], true, h);
    let t7 = combine_square(&db[2], &db[3], false, h);
    let m7 = mul_cong(&s7, &t7, Ghost(minus(a12, a22)), Ghost(plus(b21, b22)), h);
    let u11 = combine_square(&m1, &m4, false, h);
    let v11 = combine_square(&m5, &m7, true, h);
    let c11 = combine_square(&u11, &v11, true, h);
    let c12 = combine_square(&m3, &m5, false, h);
    let c21 = combine_square(&m2, &m4, false, h);
    let u22 = combine_square(&m1, &m2, true, h);
    let v22 = combine_square(&m3, &m6, false, h);
    let c22 = combine_square(&u22, &v22, false, h);
    proof {
        lemma_strassen_cong(
            ia,
            ib,
            hh,
            ig(m1@),
            ig(m2@),
            ig(m3@),
            ig(m4@),
            ig(m5@),
            ig(m6@),
            ig(m7@),
            ig(c11@),
            ig(c12@),
            ig(c21@),
            ig(c22@),
            ig(u11@),
            ig(v11@),
            ig(u22@),
            ig(v22@),
        );
    }
    let c = Matrix::from_dials(&c11, &c12, &c21, &c22);
    proof {
        assert forall|i: int, j: int| 0 <= i < 2 * h && 0 <= j < 2 * h implies cong(
            #[trigger] c@[i][j] as int,
            dot(ia, ib, i, j, 2 * hh),
        ) by {
            if i < hh {
                if j < hh {
                    assert(c@[i][j] == ig(c11@)[i][j]);
                } else {
                    assert(c@[i][j] == ig(c12@)[i][j - hh]);
                }
            } else {
                if j < hh {
                    assert(c@[i][j] == ig(c21@)[i - hh][j]);
                } else {
                    assert(c@[i][j] == ig(c22@)[i - hh][j - hh]);
                }
            }
        }
    }
    c
}


/// Every cell of the sum of `a` and `b` fits in an `i64`.
pub open spec fn sum_fits(a: Grid, b: Grid) -> bool {
    forall|i: int, j: int|
        0 <= i < a.len() && 0 <= j < a[i].len() ==> i64::MIN <= #[trigger] a[i][j] + b[i][j] <= i64::MAX
}

/// Every cell of the difference of `a` and `b` fits in an `i64`.
pub open spec fn difference_fits(a: Grid, b: Grid) -> bool {
    forall|i: int, j: int|
        0 <= i < a.len() && 0 <= j < a[i].len() ==> i64::MIN <= #[trigger] a[i][j] - b[i][j] <= i64::MAX
}

/// Every cell of the product of `a` and `b` fits in an `i64`.
pub open spec fn product_fits(a: Grid, b: Grid) -> bool {
    forall|i: int, j: int|
        0 <= i < rows(a) && 0 <= j < cols(b) ==> i64::MIN <= #[trigger] dot(ig(a), ig(b), i, j, inner_len(a, b))
            <= i64::MAX
}

/// Cellwise sum.
pub open spec fn grid_add(a: Grid, b: Grid) -> Grid {
    Seq::new(a.len(), |i: int| Seq::new(a[i].len(), |j: int| (a[i][j] + b[i][j]) as i64))
}

/// Cellwise difference.
pub open spec fn grid_sub(a: Grid, b: Grid) -> Grid {
    Seq::new(a.len(), |i: int| Seq::new(a[i].len(), |j: int| (a[i][j] - b[i][j]) as i64))
}

/// Every cell multiplied by `k`.
pub open spec fn grid_scale(a: Grid, k: i64) -> Grid {
    Seq::new(a.len(), |i: int| Seq::new(a[i].len(), |j: int| (a[i][j] * k) as i64))
}

/// The product as a grid of machine integers.
pub open spec fn grid_mul(a: Grid, b: Grid) -> Grid {
    grid_fn(rows(a), cols(b), |i: int, j: int| dot(ig(a), ig(b), i, j, inner_len(a, b)) as i64)
}

impl Matrix {
    // -- Operations -- //
    /// Implement the addition opperation between matrix.
    pub fn add(&self, other: &Matrix) -> (r: Matrix)
        requires
            is_matrix(self@),
            is_matrix(other@),
            rows(self@) == rows(other@),
            cols(self@) == cols(other@),
            sum_fits(self@, other@),
        ensures
            r@ == grid_add(self@, other@),
    {
        assert forall|i: int| 0 <= i < self@.len() implies #[trigger] self@[i].len() == other@[i].len() by {
            assert(self@[i].len() == cols(self@));
            assert(other@[i].len() == cols(other@));
        }
        let r = combine_wrap(self, other, false);
        proof {
            assert forall|i: int, j: int| 0 <= i < self@.len() && 0 <= j < self@[i].len() implies #[trigger] r@[i][j]
                == (self@[i][j] + other@[i][j]) as i64 by {
                lemma_cong_i64_eq(r@[i][j] as int, self@[i][j] + other@[i][j]);
            }
            assert(r@ =~~= grid_add(self@, other@));
        }
        r
    }

    /// Implement the substraction opperation between matrix.
    pub fn sub(&self, other: &Matrix) -> (r: Matrix)
        requires
            is_matrix(self@),
            is_matrix(other@),
            rows(self@) == rows(other@),
            cols(self@) == cols(other@),
            difference_fits(self@, other@),
        ensures
            r@ == grid_sub(self@, other@),
    {
        assert forall|i: int| 0 <= i < self@.len() implies #[trigger] self@[i].len() == other@[i].len() by {
            assert(self@[i].len() == cols(self@));
            assert(other@[i].len() == cols(other@));
        }
        let r = combine_wrap(self, other, true);
        proof {
            assert forall|i: int, j: int| 0 <= i < self@.len() && 0 <= j < self@[i].len() implies #[trigger] r@[i][j]
                == (self@[i][j] - other@[i][j]) as i64 by {
                lemma_cong_i64_eq(r@[i][j] as int, self@[i][j] - other@[i][j]);
            }
            assert(r@ =~~= grid_sub(self@, other@));
        }
        r
    }

    /// Implement the multiplication opperation between a scalar and a matrix.
    pub fn mul_scalar(&self, scalar: i64) -> (r: Matrix)
        requires
            forall|i: int, j: int|
                0 <= i < self@.len() && 0 <= j < self@[i].len() ==> i64::MIN <= #[trigger] self@[i][j] * scalar
                    <= i64::MAX,
        ensures
            r@ == grid_scale(self@, scalar),
    {
        let mut out: Vec<Vec<i64>> = Vec::new();
        let mut i: usize = 0;
        while i < self.0.len()
            invariant
                i <= self.0.len(),
                forall|i: int, j: int|
                    0 <= i < self@.len() && 0 <= j < self@[i].len() ==> i64::MIN <= #[trigger] self@[i][j] * scalar
                        <= i64::MAX,
                out.len() == i,
                forall|k: int| 0 <= k < i ==> #[trigger] out@[k]@ == grid_scale(self@, scalar)[k],
            decreases self.0.len() - i,
        {
            let mut row: Vec<i64> = Vec::new();
            let mut j: usize = 0;
            while j < self.0[i].len()
                invariant
                    i < self.0.len(),
                    j <= self@[i as int].len(),
                    forall|i: int, j: int|
                        0 <= i < self@.len() && 0 <= j < self@[i].len() ==> i64::MIN <= #[trigger] self@[i][j]
                            * scalar <= i64::MAX,
                    row@ == Seq::new(j as nat, |l: int| (self@[i as int][l] * scalar) as i64),
                decreases self@[i as int].len() - j,
            {
                assert(i64::MIN <= self@[i as int][j as int] * scalar <= i64::MAX);
                row.push(self.0[i][j] * scalar);
                j = j + 1;
                assert(row@ =~= Seq::new(j as nat, |l: int| (self@[i as int][l] * scalar) as i64));
            }
            out.push(row);
            i = i + 1;
        }
        let r = Matrix(out);
        assert(r@ =~~= grid_scale(self@, scalar));
        r
    }

    /// Perform matrix product using Strassen's method for larger matrices.
    ///
    /// Cell `(i, j)` of the result is the sum of `self[i][k] * other[k][j]`
    /// over `k` below both the width of `self` and the height of `other`.
    pub fn mul(&self, other: &Matrix) -> (r: Matrix)
        requires
            is_matrix(self@),
            is_matrix(other@),
            max3_spec(rows(self@), cols(self@), cols(other@)) < usize::MAX,
            product_fits(self@, other@),
        ensures
            r@ == grid_mul(self@, other@),
    {
        let r = mul_wrap(self, other);
        proof {
            assert forall|i: int, j: int| 0 <= i < rows(self@) && 0 <= j < cols(other@) implies #[trigger] r@[i][j]
                == dot(ig(self@), ig(other@), i, j, inner_len(self@, other@)) as i64 by {
                lemma_cong_i64_eq(r@[i][j] as int, dot(ig(self@), ig(other@), i, j, inner_len(self@, other@)));
            }
            assert(r@ =~~= grid_mul(self@, other@));
        }
        r
    }
}


/// Rust's integer division: the quotient truncated towards zero.
pub open spec fn tdiv(x: int, d: int) -> int {
    let q = abs_int(x) / abs_int(d);
    if (x < 0) != (d < 0) {
        -q
    } else {
        q
    }
}

pub open spec fn abs_int(x: int) -> int {
    if x < 0 {
        -x
    } else {
        x
    }
}

/// `x / d` does not overflow: `d` is not zero, and the quotient fits.
pub open spec fn div_ok(x: int, d: int) -> bool {
    d != 0 && i64::MIN <= tdiv(x, d) <= i64::MAX
}

/// `x / d`, truncated towards zero.
fn quotient(x: i64, d: i64) -> (r: i64)
    requires
        div_ok(x as int, d as int),
    ensures
        r == tdiv(x as int, d as int),
{
    let ax: u64 = if x < 0 {
        (-(x as i128)) as u64
    } else {
        x as u64
    };
    let ad: u64 = if d < 0 {
        (-(d as i128)) as u64
    } else {
        d as u64
    };
    let q = ax / ad;
    assert(q == abs_int(x as int) / abs_int(d as int));
    if (x < 0) != (d < 0) {
        assert(q <= 0x8000_0000_0000_0000);
        (-(q as i128)) as i64
    } else {
        q as i64
    }
}


/// `x` fits in an `i64`.
pub open spec fn fits(x: int) -> bool {
    i64::MIN <= x <= i64::MAX
}

/// Row `ri` after subtracting `k2` times row `rp` from `k1` times itself,
/// from column `p` on.
pub open spec fn elim_seq(ri: Seq<i64>, rp: Seq<i64>, p: int, k1: int, k2: int) -> Seq<i64> {
    Seq::new(ri.len(), |j: int| if j < p { ri[j] } else { (ri[j] * k1 - rp[j] * k2) as i64 })
}

/// Every step of that row operation fits in an `i64`.
pub open spec fn elim_ok(ri: Seq<i64>, rp: Seq<i64>, p: int, k1: int, k2: int) -> bool {
    forall|j: int|
        p <= j < ri.len() ==> fits(#[trigger] ri[j] * k1) && fits(rp[j] * k2) && fits(ri[j] * k1 - rp[j] * k2)
}

/// The two factors of the elimination of cell `(i, p)` by the pivot `(p, p)`:
/// the least common multiple of both values divided by each.
pub open spec fn elim_factors(s: Grid, p: int, i: int) -> (int, int) {
    let a = s[i][p] as int;
    let b = s[p][p] as int;
    let l = lcm_nat(abs_nat(a), abs_nat(b)) as int;
    (tdiv(l, a), tdiv(l, b))
}

/// Eliminate cell `(i, p)` with the pivot `(p, p)`: row `i` becomes
/// `k1 * row i - k2 * row p` from column `p` on, where `k1 * s[i][p] ==
/// k2 * s[p][p]` is their least common multiple. Nothing changes when either
/// value is zero. `None` when a value does not fit in an `i64`.
pub open spec fn elim_row(s: Grid, p: int, i: int) -> Option<Grid> {
    let a = s[i][p] as int;
    let b = s[p][p] as int;
    if a == 0 || b == 0 {
        Some(s)
    } else if lcm_nat(abs_nat(a), abs_nat(b)) > i64::MAX {
        None
    } else {
        let (k1, k2) = elim_factors(s, p, i);
        if elim_ok(s[i], s[p], p, k1, k2) {
            Some(s.update(i, elim_seq(s[i], s[p], p, k1, k2)))
        } else {
            None
        }
    }
}

/// Eliminate the cells `(i..m, p)` below the pivot, top to bottom.
pub open spec fn elim_rows(s: Grid, p: int, i: int, m: int) -> Option<Grid>
    decreases m - i,
{
    if i >= m {
        Some(s)
    } else {
        match elim_row(s, p, i) {
            Some(t) => elim_rows(t, p, i + 1, m),
            None => None,
        }
    }
}

/// Gauss' reduction from pivot `p` to pivot `k - 1`.
pub open spec fn reduce_from(s: Grid, p: int, k: int) -> Option<Grid>
    decreases k - p,
{
    if p >= k {
        Some(s)
    } else {
        match elim_rows(s, p, p + 1, rows(s)) {
            Some(t) => reduce_from(t, p + 1, k),
            None => None,
        }
    }
}

/// Gauss' reduction of a matrix, fraction free: below each diagonal pivot,
/// every row is combined with the pivot row to cancel its cell.
/// `None` when a value does not fit in an `i64`.
pub open spec fn reduced_grid(s: Grid) -> Option<Grid> {
    reduce_from(s, 0, if rows(s) < cols(s) { rows(s) } else { cols(s) })
}

proof fn lemma_elim_rows_dims(s: Grid, p: int, i: int, m: int, n: int)
    requires
        dims(s, m, n),
        0 <= p < m,
        p < n,
        0 <= i,
    ensures
        elim_rows(s, p, i, m) matches Some(t) ==> dims(t, m, n),
    decreases m - i,
{
    if i < m {
        if let Some(t) = elim_row(s, p, i) {
            assert(dims(t, m, n)) by {
                assert forall|x: int| 0 <= x < m implies #[trigger] t[x].len() == n by {
                    assert(s[x].len() == n);
                }
            }
            lemma_elim_rows_dims(t, p, i + 1, m, n);
        }
    }
}

proof fn lemma_reduce_from_dims(s: Grid, p: int, k: int, m: int, n: int)
    requires
        dims(s, m, n),
        0 <= p,
        k <= m,
        k <= n,
    ensures
        reduce_from(s, p, k) matches Some(t) ==> dims(t, m, n),
    decreases k - p,
{
    if p < k {
        lemma_elim_rows_dims(s, p, p + 1, m, n);
        if let Some(t) = elim_rows(s, p, p + 1, rows(s)) {
            lemma_reduce_from_dims(t, p + 1, k, m, n);
        }
    }
}

/// Below the pivots `0..k` on the diagonal, every cell is zero unless its
/// pivot is.
pub open spec fn cleared_below(t: Grid, k: int) -> bool {
    forall|p: int, i: int| 0 <= p < k && p < i < t.len() ==> #[trigger] t[i][p] == 0 || t[p][p] == 0
}

/// `a` times `l / a`, truncated towards zero, is `l` when `a` divides `l`.
proof fn lemma_tdiv_times(l: int, a: int)
    requires
        l > 0,
        a != 0,
        l % (abs_nat(a) as int) == 0,
    ensures
        a * tdiv(l, a) == l,
{
    let d = abs_nat(a) as int;
    assert(abs_int(a) == d);
    assert(abs_int(l) == l);
    let q = l / d;
    vstd::arithmetic::div_mod::lemma_fundamental_div_mod(l, d);
    assert(d * q == l);
    if a > 0 {
        assert(tdiv(l, a) == q);
    } else {
        assert(tdiv(l, a) == -q);
        assert(a * -q == d * q) by (nonlinear_arith)
            requires
                d == -a,
        ;
    }
}

/// Eliminating the cells below pivot `p`, from row `i0` on, changes no row
/// above `i0` and no column left of `p`, and leaves every cell `(x, p)` with
/// `x >= i0` at zero unless the pivot is zero.
proof fn lemma_elim_rows_clears(s: Grid, p: int, i0: int, m: int, n: int)
    requires
        dims(s, m, n),
        0 <= p < n,
        p < i0,
        elim_rows(s, p, i0, m) is Some,
    ensures
        ({
            let t = elim_rows(s, p, i0, m).unwrap();
            &&& dims(t, m, n)
            &&& forall|x: int| 0 <= x < i0 && x < m ==> #[trigger] t[x] == s[x]
            &&& forall|x: int, j: int| 0 <= x < m && 0 <= j < p ==> #[trigger] t[x][j] == s[x][j]
            &&& forall|x: int| i0 <= x < m ==> #[trigger] t[x][p] == 0 || s[p][p] == 0
        }),
    decreases m - i0,
{
    if i0 < m {
        let u = elim_row(s, p, i0).unwrap();
        let a = s[i0][p] as int;
        let b = s[p][p] as int;
        assert(s[i0].len() == n && s[p].len() == n);
        if a != 0 && b != 0 {
            let l = lcm_nat(abs_nat(a), abs_nat(b)) as int;
            crate::maths::lemma_lcm_is_least(abs_nat(a), abs_nat(b));
            let (k1, k2) = elim_factors(s, p, i0);
            lemma_tdiv_times(l, a);
            lemma_tdiv_times(l, b);
            assert(u == s.update(i0, elim_seq(s[i0], s[p], p, k1, k2)));
            assert(u[i0][p] == 0);
        }
        assert(dims(u, m, n)) by {
            assert forall|x: int| 0 <= x < m implies #[trigger] u[x].len() == n by {
                assert(s[x].len() == n);
            }
        }
        assert(u[p] == s[p]);
        lemma_elim_rows_clears(u, p, i0 + 1, m, n);
        let t = elim_rows(s, p, i0, m).unwrap();
        assert(t == elim_rows(u, p, i0 + 1, m).unwrap());
        assert forall|x: int, j: int| 0 <= x < m && 0 <= j < p implies #[trigger] t[x][j] == s[x][j] by {
            assert(t[x][j] == u[x][j]);
            if x == i0 {
                assert(u[x][j] == s[x][j]);
            }
        }
        assert forall|x: int| 0 <= x < i0 && x < m implies #[trigger] t[x] == s[x] by {
            assert(t[x] == u[x]);
        }
        assert forall|x: int| i0 <= x < m implies #[trigger] t[x][p] == 0 || s[p][p] == 0 by {
            if x == i0 {
                assert(t[x] == u[x]);
            }
        }
    }
}

/// Reducing from pivot `p` keeps the cells below the earlier pivots cleared,
/// and clears those below the later ones.
proof fn lemma_reduce_from_clears(s: Grid, p: int, k: int, m: int, n: int)
    requires
        dims(s, m, n),
        0 <= p,
        k <= m,
        k <= n,
        cleared_below(s, p),
        reduce_from(s, p, k) is Some,
    ensures
        cleared_below(reduce_from(s, p, k).unwrap(), k),
    decreases k - p,
{
    if p < k {
        assert(rows(s) == m);
        let u = elim_rows(s, p, p + 1, m).unwrap();
        lemma_elim_rows_clears(s, p, p + 1, m, n);
        assert(cleared_below(u, p + 1)) by {
            assert forall|q: int, i: int| 0 <= q < p + 1 && q < i < u.len() implies #[trigger] u[i][q] == 0
                || u[q][q] == 0 by {
                if q < p {
                    assert(u[i][q] == s[i][q]);
                    assert(u[q][q] == s[q][q]);
                    assert(s[i][q] == 0 || s[q][q] == 0);
                } else {
                    assert(u[p] == s[p]);
                }
            }
        }
        lemma_reduce_from_clears(u, p + 1, k, m, n);
    }
}

/// Gauss' reduction leaves no value below a non-zero pivot: for every pivot
/// `(p, p)` of the diagonal and every row `i` below it, the reduced matrix
/// holds zero at `(i, p)` unless that pivot is zero. No row is skipped, in a
/// matrix with more rows than columns too.
pub proof fn lemma_reduced_below_pivots(s: Grid, p: int, i: int)
    requires
        is_matrix(s),
        reduced_grid(s) is Some,
        0 <= p < rows(s),
        p < cols(s),
        p < i < rows(s),
    ensures
        reduced_grid(s).unwrap()[i][p] == 0 || reduced_grid(s).unwrap()[p][p] == 0,
{
    let m = rows(s);
    let n = cols(s);
    let k = if m < n { m } else { n };
    assert(dims(s, m, n)) by {
        assert forall|x: int| 0 <= x < m implies #[trigger] s[x].len() == n by {
            assert(s[x].len() == s[0].len());
        }
    }
    lemma_reduce_from_clears(s, 0, k, m, n);
    lemma_reduce_from_dims(s, 0, k, m, n);
}

fn min_usize(a: usize, b: usize) -> (r: usize)
    ensures
        r == if a < b { a } else { b },
{
    if a < b {
        a
    } else {
        b
    }
}

impl Matrix {
    /// Create a new reduced matrix with Gauss' reduction method from another matrix.
    pub fn reduced(matrix: &Matrix) -> (r: Self)
        requires
            is_matrix(matrix@),
            reduced_grid(matrix@) is Some,
        ensures
            r@ == reduced_grid(matrix@).unwrap(),
            dims(r@, rows(matrix@), cols(matrix@)),
            forall|p: int, i: int|
                0 <= p < cols(matrix@) && p < i < rows(matrix@) ==> #[trigger] r@[i][p] == 0 || r@[p][p] == 0,
    {
        proof {
            assert forall|p: int, i: int|
                0 <= p < cols(matrix@) && p < i < rows(matrix@) implies #[trigger] reduced_grid(matrix@).unwrap()[i][p]
                == 0 || reduced_grid(matrix@).unwrap()[p][p] == 0 by {
                lemma_reduced_below_pivots(matrix@, p, i);
            }
        }
        let mut mat = matrix.clone();
        let (m, n) = mat.dimensions();
        let k = min_usize(m, n);
        let ghost target = reduced_grid(matrix@).unwrap();
        assert(dims(mat@, m as int, n as int)) by {
            assert forall|x: int| 0 <= x < m implies #[trigger] mat@[x].len() == n by {
                assert(matrix@[x].len() == cols(matrix@));
            }
        }
        let mut p: usize = 0;
        while p < k
            invariant
                k == if m < n { m } else { n },
                m == rows(matrix@),
                n == cols(matrix@),
                p <= k,
                dims(mat@, m as int, n as int),
                reduce_from(mat@, p as int, k as int) == Some(target),
            decreases k - p,
        {
            let mut i: usize = p + 1;
            while i < m
                invariant
                    k == if m < n { m } else { n },
                    m == rows(matrix@),
                    n == cols(matrix@),
                    p < k,
                    p + 1 <= i <= m,
                    dims(mat@, m as int, n as int),
                    match elim_rows(mat@, p as int, i as int, m as int) {
                        Some(t) => reduce_from(t, p + 1, k as int) == Some(target),
                        None => false,
                    },
                decreases m - i,
            {
                let ghost before = mat@;
                assert(mat@[i as int].len() == n && mat@[p as int].len() == n);
                let a = mat.0[i][p];
                let b = mat.0[p][p];
                if a != 0 && b != 0 {
                    let l = match lcd(a, b) {
                        Some(l) => l,
                        None => {
                            return mat;
                        },
                    };
                    let ghost (gk1, gk2) = elim_factors(before, p as int, i as int);
                    proof {
                        assert(l as int == lcm_nat(abs_nat(a as int), abs_nat(b as int)));
                        assert(0 < l);
                        assert(abs_int(l as int) / abs_int(a as int) <= l) by (nonlinear_arith)
                            requires
                                l > 0,
                                abs_int(a as int) >= 1,
                        ;
                        assert(abs_int(l as int) / abs_int(b as int) <= l) by (nonlinear_arith)
                            requires
                                l > 0,
                                abs_int(b as int) >= 1,
                        ;
                    }
                    let k1 = quotient(l, a);
                    let k2 = quotient(l, b);
                    assert(k1 == gk1 && k2 == gk2);
                    assert(elim_ok(before[i as int], before[p as int], p as int, gk1, gk2));
                    let mut j: usize = p;
                    assert(before.update(
                        i as int,
                        Seq::new(
                            n as nat,
                            |x: int|
                                if x < j {
                                    elim_seq(before[i as int], before[p as int], p as int, gk1, gk2)[x]
                                } else {
                                    before[i as int][x]
                                },
                        ),
                    ) =~~= before);
                    while j < n
                        invariant
                            p < k,
                            k <= n,
                            p <= j <= n,
                            p + 1 <= i < m,
                            m == rows(matrix@),
                            dims(before, m as int, n as int),
                            mat@ == before.update(
                                i as int,
                                Seq::new(
                                    n as nat,
                                    |x: int|
                                        if x < j {
                                            elim_seq(before[i as int], before[p as int], p as int, gk1, gk2)[x]
                                        } else {
                                            before[i as int][x]
                                        },
                                ),
                            ),
                            elim_ok(before[i as int], before[p as int], p as int, gk1, gk2),
                            k1 == gk1,
                            k2 == gk2,
                        decreases n - j,
                    {
                        assert(fits(before[i as int][j as int] * gk1));
                        assert(mat@[i as int].len() == n && mat@[p as int] == before[p as int]);
                        assert(mat@[i as int][j as int] == before[i as int][j as int]);
                        assert(before[p as int].len() == n);
                        assert(mat.0@.len() == mat@.len());
                        assert(mat.0@[i as int]@ == mat@[i as int]);
                        assert(mat.0@[p as int]@ == mat@[p as int]);
                        let u = mat.0[i][j] * k1;
                        let w = mat.0[p][j] * k2;
                        let ghost prev = mat@;
                        mat.0[i][j] = u - w;
                        assert(mat@ =~~= prev.update(i as int, prev[i as int].update(j as int, (u - w) as i64)));
                        assert(mat@[i as int][j as int] == elim_seq(
                            before[i as int],
                            before[p as int],
                            p as int,
                            gk1,
                            gk2,
                        )[j as int]);
                        j = j + 1;
                        assert(mat@ =~~= before.update(
                            i as int,
                            Seq::new(
                                n as nat,
                                |x: int|
                                    if x < j {
                                        elim_seq(before[i as int], before[p as int], p as int, gk1, gk2)[x]
                                    } else {
                                        before[i as int][x]
                                    },
                            ),
                        ));
                    }
                    assert(mat@ =~~= before.update(
                        i as int,
                        elim_seq(before[i as int], before[p as int], p as int, gk1, gk2),
                    ));
                }
                proof {
                    assert(elim_row(before, p as int, i as int) == Some(mat@));
                }
                i = i + 1;
            }
            proof {
                lemma_elim_rows_dims(mat@, p as int, i as int, m as int, n as int);
            }
            p = p + 1;
        }
        mat
    }
}


/// The matrix without row `i` and column `j`.
pub open spec fn minor_grid(s: Grid, i: int, j: int) -> Grid {
    Seq::new((s.len() - 1) as nat, |x: int| s.remove(i)[x].remove(j))
}

/// The conditions under which the determinant is computed: a matrix with at
/// least as many columns as rows, whose expansion fits in an `i64`.
pub open spec fn determinant_ok(s: Grid) -> bool {
    &&& is_matrix(s)
    &&& rows(s) <= cols(s)
    &&& det_fits(s)
}

impl Matrix {
    /// Return the determinant of the matrix.
    pub fn determinant(&self) -> (r: Option<i64>)
        requires
            determinant_ok(self@),
        ensures
            r == Some(det(self@) as i64),
    {
        Some(det_of(self))
    }
}

/// The conditions under which the minor at `(i, j)` is computed without
/// overflow.
pub open spec fn minor_ok(s: Grid, i: int, j: int) -> bool {
    &&& is_matrix(s)
    &&& 0 <= i < rows(s)
    &&& 0 <= j < cols(s)
    &&& rows(s) >= 2
    &&& determinant_ok(minor_grid(s, i, j))
}

/// Every cofactor of `s` is computed without overflow.
pub open spec fn cofactors_fit(s: Grid) -> bool {
    forall|i: int, j: int|
        0 <= i < rows(s) && 0 <= j < cols(s) ==> det_fits(#[trigger] minor_grid(s, i, j)) && fits(
            cof(s, i, j),
        )
}

/// The adjugate of a square `s` (the transpose of its cofactors), each cell
/// divided by `d`, truncated towards zero.
pub open spec fn adjugate_over(s: Grid, d: int) -> Grid {
    Seq::new(
        rows(s) as nat,
        |i: int| Seq::new(rows(s) as nat, |j: int| tdiv(cof(s, j, i), d) as i64),
    )
}

/// The conditions under which the inverse is computed: a square matrix whose
/// determinant, cofactors and their quotients by the determinant fit in an `i64`.
pub open spec fn inverse_ok(s: Grid) -> bool {
    &&& is_matrix(s)
    &&& rows(s) == cols(s)
    &&& det_fits(s)
    &&& cofactors_fit(s)
    &&& (det(s) == 1 || det(s) == -1) ==> forall|i: int, j: int|
        0 <= i < rows(s) && 0 <= j < rows(s) ==> div_ok(#[trigger] cof(s, j, i), det(s))
}

/// Over the integers a square matrix has an inverse exactly when its
/// determinant is 1 or -1.
pub open spec fn unimodular(s: Grid) -> bool {
    det(s) == 1 || det(s) == -1
}

/// The cofactor of cell `(i, j)`.
fn cofactor_value(s: &Matrix, i: usize, j: usize) -> (r: i64)
    requires
        is_rect(s@),
        i < rows(s@),
        j < cols(s@),
        det_fits(minor_grid(s@, i as int, j as int)),
        fits(cof(s@, i as int, j as int)),
    ensures
        r == cof(s@, i as int, j as int),
{
    let d = det_of(&without(s, i, j));
    if (i % 2 == 0) == (j % 2 == 0) {
        assert(alternating(i + j) == 1);
        d
    } else {
        assert(alternating(i + j) == -1);
        -d
    }
}

impl Matrix {
    /// Return the minor of the given coordonates.
    ///
    /// The minor of a matrix at coordonate `i, j` is the determinant
    /// of the matrix without row `i` and column `j`.
    pub fn minor(&self, i: usize, j: usize) -> (r: Option<i64>)
        requires
            minor_ok(self@, i as int, j as int),
        ensures
            r == Some(det(minor_grid(self@, i as int, j as int)) as i64),
    {
        Some(det_of(&without(self, i, j)))
    }

    /// Return the cofactor of the given coordonates.
    pub fn cofactor(&self, i: usize, j: usize) -> (r: Option<i64>)
        requires
            minor_ok(self@, i as int, j as int),
            det(minor_grid(self@, i as int, j as int)) != i64::MIN,
        ensures
            r == Some(
                (if (i + j) % 2 == 1 {
                    -det(minor_grid(self@, i as int, j as int))
                } else {
                    det(minor_grid(self@, i as int, j as int))
                }) as i64,
            ),
    {
        let det = match self.minor(i, j) {
            Some(d) => d,
            None => {
                return None;
            },
        };
        assert(((i ^ j) & 1 == 1) == ((i + j) % 2 == 1)) by (bit_vector);
        if (i ^ j) & 1 == 1 {
            Some(-det)
        } else {
            Some(det)
        }
    }

    /// Initialize the inverse of a matrix. Over the integers it exists when
    /// the determinant is 1 or -1, and it is then the adjugate divided by the
    /// determinant.
    ///
    /// If it does not exist, create a copy of the matrix.
    pub fn inversed(matrix: &Matrix) -> (r: Self)
        requires
            inverse_ok(matrix@),
        ensures
            !unimodular(matrix@) ==> r@ == matrix@,
            unimodular(matrix@) ==> r@ == adjugate_over(matrix@, det(matrix@)),
    {
        let d = det_of(matrix);
        if d != 1 && d != -1 {
            return matrix.clone();
        }
        let ghost s = matrix@;
        let n = matrix.m();
        let mut out: Vec<Vec<i64>> = Vec::new();
        let mut i: usize = 0;
        while i < n
            invariant
                s == matrix@,
                inverse_ok(s),
                d == det(s),
                d == 1 || d == -1,
                n == rows(s),
                i <= n,
                out.len() == i,
                forall|k: int| 0 <= k < i ==> #[trigger] out@[k]@ == adjugate_over(s, d as int)[k],
            decreases n - i,
        {
            let mut row: Vec<i64> = Vec::new();
            let mut j: usize = 0;
            while j < n
                invariant
                    s == matrix@,
                    inverse_ok(s),
                    d == det(s),
                    d == 1 || d == -1,
                    n == rows(s),
                    i < n,
                    j <= n,
                    row@ == Seq::new(j as nat, |x: int| tdiv(cof(s, x, i as int), d as int) as i64),
                decreases n - j,
            {
                assert(det_fits(minor_grid(s, j as int, i as int)) && fits(cof(s, j as int, i as int)));
                assert(div_ok(cof(s, j as int, i as int), d as int));
                let c = cofactor_value(matrix, j, i);
                row.push(quotient(c, d));
                j = j + 1;
                assert(row@ =~= Seq::new(j as nat, |x: int| tdiv(cof(s, x, i as int), d as int) as i64));
            }
            out.push(row);
            i = i + 1;
        }
        let r = Matrix(out);
        assert(r@ =~~= adjugate_over(s, d as int));
        r
    }

    /// Check if the matrix is invertible.
    pub fn is_invertible(&self) -> (r: bool)
        requires
            determinant_ok(self@),
        ensures
            r == (det(self@) != 0),
    {
        let det = self.determinant();
        det.is_some() && det != Some(0i64)
    }

    /// Check if the matrix is regular.
    pub fn is_regular(&self) -> (r: bool)
        requires
            determinant_ok(self@),
        ensures
            r == (det(self@) != 0),
    {
        self.is_invertible()
    }
}


/// The number of variables of a linear maximisation tableau: one per
/// constraint row, the last row being the objective.
pub open spec fn var_count(s: Grid) -> int {
    rows(s) - 1
}

/// A tableau: a matrix with a column for each variable and, last, a column of
/// bounds.
pub open spec fn lp_shape(s: Grid) -> bool {
    is_matrix(s) && var_count(s) < cols(s)
}

/// The bound of constraint row `i`.
pub open spec fn bound_of(s: Grid, i: int) -> int {
    s[i][cols(s) - 1] as int
}

/// The gain of variable `j`: the objective row holds it negated.
pub open spec fn gain(s: Grid, j: int) -> int {
    -(s[var_count(s)][j] as int)
}

/// `row[0] * y[0] + ... + row[len - 1] * y[len - 1]`.
pub open spec fn dot_at(row: Seq<i64>, y: Seq<int>, len: int) -> int
    decreases len,
{
    if len <= 0 {
        0
    } else {
        dot_at(row, y, len - 1) + row[len - 1] * y[len - 1]
    }
}

/// `l[0] * s[0][j] + ... + l[len - 1] * s[len - 1][j]`: column `j` of the
/// first `len` rows, weighted by `l`.
pub open spec fn col_at(s: Grid, l: Seq<int>, j: int, len: int) -> int
    decreases len,
{
    if len <= 0 {
        0
    } else {
        col_at(s, l, j, len - 1) + l[len - 1] * s[len - 1][j]
    }
}

/// The objective at the point `y` (its first coordinates, one per variable).
pub open spec fn gain_at(s: Grid, y: Seq<int>) -> int {
    -dot_at(s[var_count(s)], y, var_count(s))
}

/// The rational point `y / e` is feasible: its coordinates are not negative and
/// it meets every constraint row.
pub open spec fn feasible_at(s: Grid, y: Seq<int>, e: int) -> bool {
    let k = var_count(s);
    &&& e > 0
    &&& y.len() == k
    &&& forall|j: int| 0 <= j < k ==> #[trigger] y[j] >= 0
    &&& forall|i: int| 0 <= i < k ==> #[trigger] dot_at(s[i], y, k) <= e * bound_of(s, i)
}

/// The feasible point `y / e` has the largest objective of all the rational
/// feasible points.
pub open spec fn maximum_at(s: Grid, y: Seq<int>, e: int) -> bool {
    &&& feasible_at(s, y, e)
    &&& forall|z: Seq<int>, f: int| #[trigger] feasible_at(s, z, f) ==> e * gain_at(s, z) <= f * gain_at(s, y)
}

/// The point `p[..k] / p[k]` meets every constraint row.
pub open spec fn primal_part(s: Grid, p: Seq<int>) -> bool {
    let k = var_count(s);
    &&& p.len() == k + 1
    &&& forall|x: int| 0 <= x <= k ==> #[trigger] p[x] >= 0
    &&& p[k] >= 1
    &&& forall|i: int| 0 <= i < k ==> #[trigger] dot_at(s[i], p, k) <= p[k] * bound_of(s, i)
}

/// The multipliers `q[..k] / q[k]` of the constraint rows cover every gain,
/// and their bound on the objective is reached at `p[..k] / p[k]`.
pub open spec fn dual_part(s: Grid, p: Seq<int>, q: Seq<int>) -> bool {
    let k = var_count(s);
    &&& q.len() == k + 1
    &&& forall|x: int| 0 <= x <= k ==> #[trigger] q[x] >= 0
    &&& q[k] >= 1
    &&& forall|j: int| 0 <= j < k ==> #[trigger] col_at(s, q, j, k) >= q[k] * gain(s, j)
    &&& p[k] * col_at(s, q, cols(s) - 1, k) <= q[k] * gain_at(s, p)
}

/// A certificate that the point `p[..k] / p[k]` is a maximum, checked with
/// the multipliers `q`.
pub open spec fn certificate(s: Grid, p: Seq<int>, q: Seq<int>) -> bool {
    primal_part(s, p) && dual_part(s, p, q)
}

/// Every number of `w` lies in `0..=b`.
pub open spec fn within(w: Seq<int>, b: int) -> bool {
    forall|x: int| 0 <= x < w.len() ==> 0 <= #[trigger] w[x] <= b
}

/// A certificate made of numbers up to `b`, small enough for every product
/// and sum that checks it to fit in an `i128`.
pub open spec fn small_certificate(s: Grid, p: Seq<int>, q: Seq<int>, b: int) -> bool {
    &&& certificate(s, p, q)
    &&& within(p, b)
    &&& within(q, b)
    &&& (var_count(s) + 1) * b * b < 0x1_0000_0000_0000_0000
}

/// The maximum of the tableau exists: by the duality of linear programs it
/// is then reached at a rational point and certified by rational
/// multipliers. Their numbers are asked to be small enough for the
/// arithmetic that checks them.
pub open spec fn solvable(s: Grid) -> bool {
    exists|p: Seq<int>, q: Seq<int>, b: int| #[trigger] small_certificate(s, p, q, b)
}

/// The numbers of `v`, as integers.
pub open spec fn ints(v: Seq<i64>) -> Seq<int> {
    v.map_values(|x: i64| x as int)
}

/// `a` and `b` agree on their first `n` places.
pub open spec fn agrees(a: Seq<int>, b: Seq<int>, n: int) -> bool {
    forall|x: int| 0 <= x < n ==> #[trigger] a[x] == b[x]
}

/// `sum over j < u of col_at(s, q, j, r) * z[j]`.
pub open spec fn weighted(s: Grid, q: Seq<int>, z: Seq<int>, r: int, u: int) -> int
    decreases u,
{
    if u <= 0 {
        0
    } else {
        weighted(s, q, z, r, u - 1) + col_at(s, q, u - 1, r) * z[u - 1]
    }
}

/// `sum over i < r of q[i] * dot_at(s[i], z, u)`.
pub open spec fn rowsum(s: Grid, q: Seq<int>, z: Seq<int>, r: int, u: int) -> int
    decreases r,
{
    if r <= 0 {
        0
    } else {
        rowsum(s, q, z, r - 1, u) + q[r - 1] * dot_at(s[r - 1], z, u)
    }
}

proof fn lemma_weighted_zero(s: Grid, q: Seq<int>, z: Seq<int>, u: int)
    ensures
        weighted(s, q, z, 0, u) == 0,
    decreases u,
{
    if u > 0 {
        lemma_weighted_zero(s, q, z, u - 1);
    }
}

proof fn lemma_weighted_step(s: Grid, q: Seq<int>, z: Seq<int>, r: int, u: int)
    requires
        0 <= r,
    ensures
        weighted(s, q, z, r + 1, u) == weighted(s, q, z, r, u) + q[r] * dot_at(s[r], z, u),
    decreases u,
{
    if u > 0 {
        lemma_weighted_step(s, q, z, r, u - 1);
        let a = col_at(s, q, u - 1, r);
        let c = s[r][u - 1] as int;
        let y = z[u - 1];
        let d = dot_at(s[r], z, u - 1);
        let l = q[r];
        assert(col_at(s, q, u - 1, r + 1) == a + l * c);
        assert((a + l * c) * y == a * y + l * (c * y)) by (nonlinear_arith);
        assert(l * (d + c * y) == l * d + l * (c * y)) by (nonlinear_arith);
    }
}

/// Weighting the columns and then the coordinates is weighting the rows and
/// then the multipliers.
proof fn lemma_swap(s: Grid, q: Seq<int>, z: Seq<int>, r: int, u: int)
    requires
        0 <= r,
    ensures
        weighted(s, q, z, r, u) == rowsum(s, q, z, r, u),
    decreases r,
{
    if r == 0 {
        lemma_weighted_zero(s, q, z, u);
    } else {
        lemma_swap(s, q, z, r - 1, u);
        lemma_weighted_step(s, q, z, r - 1, u);
    }
}

proof fn lemma_dual_gain(s: Grid, q: Seq<int>, z: Seq<int>, u: int)
    requires
        0 <= u <= var_count(s),
        var_count(s) >= 0,
        q.len() == var_count(s) + 1,
        forall|j: int| 0 <= j < u ==> #[trigger] z[j] >= 0,
        forall|j: int| 0 <= j < u ==> #[trigger] col_at(s, q, j, var_count(s)) >= q[var_count(s)] * gain(s, j),
    ensures
        q[var_count(s)] * -dot_at(s[var_count(s)], z, u) <= weighted(s, q, z, var_count(s), u),
    decreases u,
{
    let k = var_count(s);
    if u > 0 {
        lemma_dual_gain(s, q, z, u - 1);
        let d = q[k];
        let c = s[k][u - 1] as int;
        let y = z[u - 1];
        let a = col_at(s, q, u - 1, k);
        let p = dot_at(s[k], z, u - 1);
        assert(z[u - 1] >= 0);
        assert(a >= d * gain(s, u - 1));
        assert(dot_at(s[k], z, u) == p + c * y);
        assert(weighted(s, q, z, k, u) == weighted(s, q, z, k, u - 1) + a * y);
        assert(d * -p <= weighted(s, q, z, k, u - 1));
        assert(d * -(p + c * y) == d * -p + (d * -c) * y) by (nonlinear_arith);
        assert((d * -c) * y <= a * y) by (nonlinear_arith)
            requires
                y >= 0,
                a >= d * -c,
        ;
        assert(d * -dot_at(s[k], z, u) <= weighted(s, q, z, k, u));
    } else {
        let d = q[k];
        assert(d * -dot_at(s[k], z, u) == 0) by (nonlinear_arith)
            requires
                dot_at(s[k], z, u) == 0,
        ;
    }
}

proof fn lemma_rowsum_bound(s: Grid, q: Seq<int>, z: Seq<int>, f: int, r: int)
    requires
        0 <= r <= var_count(s),
        q.len() == var_count(s) + 1,
        forall|i: int| 0 <= i < r ==> #[trigger] q[i] >= 0,
        forall|i: int| 0 <= i < r ==> #[trigger] dot_at(s[i], z, var_count(s)) <= f * bound_of(s, i),
    ensures
        rowsum(s, q, z, r, var_count(s)) <= f * col_at(s, q, cols(s) - 1, r),
    decreases r,
{
    let k = var_count(s);
    if r > 0 {
        lemma_rowsum_bound(s, q, z, f, r - 1);
        let l = q[r - 1];
        let d = dot_at(s[r - 1], z, k);
        let b = bound_of(s, r - 1);
        let g = col_at(s, q, cols(s) - 1, r - 1);
        assert(q[r - 1] >= 0);
        assert(d <= f * b);
        assert(l * d <= l * (f * b)) by (nonlinear_arith)
            requires
                l >= 0,
                d <= f * b,
        ;
        assert(f * (g + l * b) == f * g + l * (f * b)) by (nonlinear_arith);
    }
}

/// Weak duality: multipliers that cover every gain bound the objective of
/// every feasible point.
proof fn lemma_weak_duality(s: Grid, p: Seq<int>, q: Seq<int>, z: Seq<int>, f: int)
    requires
        lp_shape(s),
        dual_part(s, p, q),
        feasible_at(s, z, f),
    ensures
        q[var_count(s)] * gain_at(s, z) <= f * col_at(s, q, cols(s) - 1, var_count(s)),
{
    let k = var_count(s);
    assert forall|j: int| 0 <= j < k implies #[trigger] z[j] >= 0 by {
        assert(z[j] >= 0);
    }
    lemma_dual_gain(s, q, z, k);
    lemma_swap(s, q, z, k, k);
    assert forall|i: int| 0 <= i < k implies #[trigger] q[i] >= 0 by {
        assert(q[i] >= 0);
    }
    lemma_rowsum_bound(s, q, z, f, k);
}

proof fn lemma_dot_prefix(row: Seq<i64>, y: Seq<int>, w: Seq<int>, u: int)
    requires
        forall|x: int| 0 <= x < u ==> #[trigger] y[x] == w[x],
    ensures
        dot_at(row, y, u) == dot_at(row, w, u),
    decreases u,
{
    if u > 0 {
        lemma_dot_prefix(row, y, w, u - 1);
    }
}

/// A certificate shows its point to be a maximum of the tableau.
proof fn lemma_certificate_maximum(s: Grid, p: Seq<int>, q: Seq<int>)
    requires
        lp_shape(s),
        certificate(s, p, q),
    ensures
        maximum_at(s, p.take(var_count(s)), p[var_count(s)]),
{
    let k = var_count(s);
    let y = p.take(k);
    let e = p[k];
    let d = q[k];
    let g = col_at(s, q, cols(s) - 1, k);
    assert forall|i: int| 0 <= i < k implies #[trigger] dot_at(s[i], y, k) <= e * bound_of(s, i) by {
        lemma_dot_prefix(s[i], y, p, k);
    }
    assert forall|j: int| 0 <= j < k implies #[trigger] y[j] >= 0 by {
        assert(p[j] >= 0);
    }
    lemma_dot_prefix(s[k], y, p, k);
    assert(feasible_at(s, y, e));
    assert forall|z: Seq<int>, f: int| #[trigger] feasible_at(s, z, f) implies e * gain_at(s, z) <= f * gain_at(s, y) by {
        lemma_weak_duality(s, p, q, z, f);
        let gz = gain_at(s, z);
        let gy = gain_at(s, y);
        assert(e * gz <= f * gy) by (nonlinear_arith)
            requires
                d > 0,
                e > 0,
                f > 0,
                d * gz <= f * g,
                e * g <= d * gy,
        ;
    }
}

/// `row . p` over the first `len` places, with its bound.
fn dot_row(row: &Vec<i64>, p: &Vec<i64>, len: usize, m: i64) -> (r: i128)
    requires
        len <= row.len(),
        len <= p.len(),
        0 <= m,
        len * m < 0x1_0000_0000_0000_0000,
        within(ints(p@), m as int),
    ensures
        r == dot_at(row@, ints(p@), len as int),
        -(len * m * 0x8000_0000_0000_0000) <= r <= len * m * 0x8000_0000_0000_0000,
{
    let ghost y = ints(p@);
    let mut acc: i128 = 0;
    let mut x: usize = 0;
    while x < len
        invariant
            x <= len,
            len <= row.len(),
            len <= p.len(),
            0 <= m,
            len * m < 0x1_0000_0000_0000_0000,
            y == ints(p@),
            within(y, m as int),
            acc == dot_at(row@, y, x as int),
            -(x * m * 0x8000_0000_0000_0000) <= acc <= x * m * 0x8000_0000_0000_0000,
        decreases len - x,
    {
        let a = row[x];
        let b = p[x];
        assert(y[x as int] == b);
        assert(0 <= b <= m);
        assert(-(m * 0x8000_0000_0000_0000) <= (a as int) * (b as int) <= m * 0x8000_0000_0000_0000) by (nonlinear_arith)
            requires
                -0x8000_0000_0000_0000 <= a < 0x8000_0000_0000_0000,
                0 <= b <= m,
        ;
        assert((x + 1) * m * 0x8000_0000_0000_0000 <= len * m * 0x8000_0000_0000_0000) by (nonlinear_arith)
            requires
                x < len,
                m >= 0,
        ;
        assert(len * m * 0x8000_0000_0000_0000 < 0x8000_0000_0000_0000_0000_0000_0000_0000) by (nonlinear_arith)
            requires
                len * m < 0x1_0000_0000_0000_0000,
        ;
        assert((x + 1) * m * 0x8000_0000_0000_0000 == x * m * 0x8000_0000_0000_0000 + m * 0x8000_0000_0000_0000) by (nonlinear_arith);
        acc = acc + (a as i128) * (b as i128);
        x = x + 1;
    }
    acc
}

/// Column `j` of the first `len` rows weighted by `q`, with its bound.
fn col_sum(s: &Matrix, q: &Vec<i64>, j: usize, len: usize, m: i64) -> (r: i128)
    requires
        len <= s@.len(),
        forall|i: int| 0 <= i < len ==> j < #[trigger] s@[i].len(),
        len <= q.len(),
        0 <= m,
        len * m < 0x1_0000_0000_0000_0000,
        within(ints(q@), m as int),
    ensures
        r == col_at(s@, ints(q@), j as int, len as int),
        -(len * m * 0x8000_0000_0000_0000) <= r <= len * m * 0x8000_0000_0000_0000,
{
    let ghost l = ints(q@);
    let mut acc: i128 = 0;
    let mut x: usize = 0;
    while x < len
        invariant
            x <= len,
            len <= s@.len(),
            forall|i: int| 0 <= i < len ==> j < #[trigger] s@[i].len(),
            len <= q.len(),
            0 <= m,
            len * m < 0x1_0000_0000_0000_0000,
            l == ints(q@),
            within(l, m as int),
            acc == col_at(s@, l, j as int, x as int),
            -(x * m * 0x8000_0000_0000_0000) <= acc <= x * m * 0x8000_0000_0000_0000,
        decreases len - x,
    {
        assert(j < s@[x as int].len());
        assert(s.0@[x as int]@ == s@[x as int]);
        let a = s.0[x][j];
        let b = q[x];
        assert(l[x as int] == b);
        assert(0 <= b <= m);
        assert(-(m * 0x8000_0000_0000_0000) <= (b as int) * (a as int) <= m * 0x8000_0000_0000_0000) by (nonlinear_arith)
            requires
                -0x8000_0000_0000_0000 <= a < 0x8000_0000_0000_0000,
                0 <= b <= m,
        ;
        assert((x + 1) * m * 0x8000_0000_0000_0000 <= len * m * 0x8000_0000_0000_0000) by (nonlinear_arith)
            requires
                x < len,
                m >= 0,
        ;
        assert(len * m * 0x8000_0000_0000_0000 < 0x8000_0000_0000_0000_0000_0000_0000_0000) by (nonlinear_arith)
            requires
                len * m < 0x1_0000_0000_0000_0000,
        ;
        assert((x + 1) * m * 0x8000_0000_0000_0000 == x * m * 0x8000_0000_0000_0000 + m * 0x8000_0000_0000_0000) by (nonlinear_arith);
        acc = acc + (b as i128) * (a as i128);
        x = x + 1;
    }
    acc
}

proof fn lemma_small_bounds(k: int, m: int)
    requires
        k >= 0,
        m >= 0,
        (k + 1) * m * m < 0x1_0000_0000_0000_0000,
    ensures
        k * m < 0x1_0000_0000_0000_0000,
        k * m * m < 0x1_0000_0000_0000_0000,
        m < 0x1_0000_0000,
{
    if m > 0 {
        assert(k * m <= k * m * m) by (nonlinear_arith)
            requires
                k >= 0,
                m >= 1,
        ;
        assert(k * m * m <= (k + 1) * m * m) by (nonlinear_arith)
            requires
                m >= 0,
        ;
        assert(m * m <= (k + 1) * m * m) by (nonlinear_arith)
            requires
                k >= 0,
        ;
        assert(m < 0x1_0000_0000) by (nonlinear_arith)
            requires
                m * m < 0x1_0000_0000_0000_0000,
                m >= 0,
        ;
    }
}

/// Whether `p` is the `primal_part` of a certificate.
fn primal_ok(s: &Matrix, k: usize, n: usize, p: &Vec<i64>, m: i64) -> (r: bool)
    requires
        lp_shape(s@),
        k == var_count(s@),
        n == cols(s@),
        p@.len() == k + 1,
        0 <= m,
        within(ints(p@), m as int),
        (k + 1) * m * m < 0x1_0000_0000_0000_0000,
    ensures
        r == primal_part(s@, ints(p@)),
{
    let ghost y = ints(p@);
    proof {
        lemma_small_bounds(k as int, m as int);
        assert forall|x: int| 0 <= x <= k implies #[trigger] y[x] >= 0 by {
            assert(0 <= y[x] <= m);
        }
    }
    let e = p[k];
    assert(y[k as int] == e);
    if e < 1 {
        return false;
    }
    let mut i: usize = 0;
    while i < k
        invariant
            lp_shape(s@),
            k == var_count(s@),
            n == cols(s@),
            p@.len() == k + 1,
            0 <= m < 0x1_0000_0000,
            k * m < 0x1_0000_0000_0000_0000,
            y == ints(p@),
            within(y, m as int),
            e == y[k as int],
            0 <= e <= m,
            i <= k,
            forall|x: int| 0 <= x < i ==> #[trigger] dot_at(s@[x], y, k as int) <= e * bound_of(s@, x),
        decreases k - i,
    {
        assert(s@[i as int].len() == n);
        assert(s.0@[i as int]@ == s@[i as int]);
        let v = dot_row(&s.0[i], p, k, m);
        let b = s.0[i][n - 1];
        assert((e as int) * (b as int) <= 0x8000_0000_0000_0000_0000_0000_0000 && (e as int) * (b as int) >= -0x8000_0000_0000_0000_0000_0000_0000) by (nonlinear_arith)
            requires
                0 <= e < 0x1_0000_0000,
                -0x8000_0000_0000_0000 <= b < 0x8000_0000_0000_0000,
        ;
        if v > (e as i128) * (b as i128) {
            return false;
        }
        i = i + 1;
    }
    true
}

/// Whether `q` completes `p` into a certificate, given that `p` is the
/// `primal_part` of one.
fn dual_ok(s: &Matrix, k: usize, n: usize, p: &Vec<i64>, q: &Vec<i64>, m: i64) -> (r: bool)
    requires
        lp_shape(s@),
        k == var_count(s@),
        n == cols(s@),
        p@.len() == k + 1,
        q@.len() == k + 1,
        0 <= m,
        within(ints(p@), m as int),
        within(ints(q@), m as int),
        (k + 1) * m * m < 0x1_0000_0000_0000_0000,
    ensures
        r == dual_part(s@, ints(p@), ints(q@)),
{
    let ghost y = ints(p@);
    let ghost l = ints(q@);
    proof {
        lemma_small_bounds(k as int, m as int);
        assert forall|x: int| 0 <= x <= k implies #[trigger] l[x] >= 0 by {
            assert(0 <= l[x] <= m);
        }
        assert forall|i: int| 0 <= i < k implies n - 1 < #[trigger] s@[i].len() by {
            assert(s@[i].len() == n);
        }
    }
    let d = q[k];
    assert(l[k as int] == d);
    if d < 1 {
        return false;
    }
    assert(s@[k as int].len() == n);
    assert(s.0@[k as int]@ == s@[k as int]);
    let mut j: usize = 0;
    while j < k
        invariant
            lp_shape(s@),
            k == var_count(s@),
            n == cols(s@),
            q@.len() == k + 1,
            0 <= m < 0x1_0000_0000,
            k * m < 0x1_0000_0000_0000_0000,
            l == ints(q@),
            within(l, m as int),
            d == l[k as int],
            0 <= d <= m,
            s@[k as int].len() == n,
            s.0@[k as int]@ == s@[k as int],
            j <= k,
            forall|x: int| 0 <= x < j ==> #[trigger] col_at(s@, l, x, k as int) >= d * gain(s@, x),
        decreases k - j,
    {
        proof {
            assert forall|i: int| 0 <= i < k implies j < #[trigger] s@[i].len() by {
                assert(s@[i].len() == n);
            }
        }
        let c = col_sum(s, q, j, k, m);
        let g = s.0[k][j];
        assert((d as int) * (g as int) <= 0x8000_0000_0000_0000_0000_0000_0000 && (d as int) * (g as int) >= -0x8000_0000_0000_0000_0000_0000_0000) by (nonlinear_arith)
            requires
                0 <= d < 0x1_0000_0000,
                -0x8000_0000_0000_0000 <= g < 0x8000_0000_0000_0000,
        ;
        assert((d as int) * -(g as int) == -((d as int) * (g as int))) by (nonlinear_arith);
        if c < -((d as i128) * (g as i128)) {
            return false;
        }
        j = j + 1;
    }
    let total = col_sum(s, q, n - 1, k, m);
    let value = dot_row(&s.0[k], p, k, m);
    let e = p[k];
    assert(y[k as int] == e);
    assert(0 <= e <= m);
    proof {
        assert(e * (k * m * 0x8000_0000_0000_0000) <= 0x8000_0000_0000_0000_0000_0000_0000_0000 - 1) by (nonlinear_arith)
            requires
                0 <= e <= m,
                k * m * m < 0x1_0000_0000_0000_0000,
                k >= 0,
        ;
        assert(-(k * m * 0x8000_0000_0000_0000) <= total <= k * m * 0x8000_0000_0000_0000);
        assert(-(e * (k * m * 0x8000_0000_0000_0000)) <= (e as int) * (total as int) <= e * (k * m * 0x8000_0000_0000_0000)) by (nonlinear_arith)
            requires
                0 <= e,
                -(k * m * 0x8000_0000_0000_0000) <= total <= k * m * 0x8000_0000_0000_0000,
        ;
        assert(d * (k * m * 0x8000_0000_0000_0000) <= 0x8000_0000_0000_0000_0000_0000_0000_0000 - 1) by (nonlinear_arith)
            requires
                0 <= d <= m,
                k * m * m < 0x1_0000_0000_0000_0000,
                k >= 0,
        ;
        assert(-(d * (k * m * 0x8000_0000_0000_0000)) <= (d as int) * -(value as int) <= d * (k * m * 0x8000_0000_0000_0000)) by (nonlinear_arith)
            requires
                0 <= d,
                -(k * m * 0x8000_0000_0000_0000) <= value <= k * m * 0x8000_0000_0000_0000,
        ;
    }
    (e as i128) * total <= (d as i128) * (-value)
}

/// Nothing made of numbers within `m` certifies a maximum while agreeing
/// with `p0` and `q0` on the places already fixed.
pub open spec fn none_within(s: Grid, m: int, p0: Seq<int>, q0: Seq<int>, second: bool, idx: int) -> bool {
    forall|w1: Seq<int>, w2: Seq<int>|
        #[trigger] certificate(s, w1, w2) && within(w1, m) && within(w2, m) && fixed(w1, w2, p0, q0, second, idx)
            ==> false
}

/// `w1` and `w2` agree with `p0` and `q0` on the places already fixed: the
/// first `idx` places of the point, or all of the point and the first `idx`
/// multipliers.
pub open spec fn fixed(w1: Seq<int>, w2: Seq<int>, p0: Seq<int>, q0: Seq<int>, second: bool, idx: int) -> bool {
    if second {
        agrees(w1, p0, p0.len() as int) && agrees(w2, q0, idx)
    } else {
        agrees(w1, p0, idx)
    }
}

/// Search every certificate made of numbers within `m` whose fixed places
/// are those of `p` and `q`, points first, then multipliers.
fn find(s: &Matrix, k: usize, n: usize, m: i64, p: &mut Vec<i64>, q: &mut Vec<i64>, second: bool, idx: usize) -> (r: bool)
    requires
        lp_shape(s@),
        k == var_count(s@),
        n == cols(s@),
        old(p)@.len() == k + 1,
        old(q)@.len() == k + 1,
        0 <= m,
        within(ints(old(p)@), m as int),
        within(ints(old(q)@), m as int),
        (k + 1) * m * m < 0x1_0000_0000_0000_0000,
        idx <= k + 1,
        second ==> primal_part(s@, ints(old(p)@)),
    ensures
        final(p)@.len() == k + 1,
        final(q)@.len() == k + 1,
        within(ints(final(p)@), m as int),
        within(ints(final(q)@), m as int),
        second ==> final(p)@ == old(p)@,
        agrees(ints(final(p)@), ints(old(p)@), idx as int),
        second ==> agrees(ints(final(q)@), ints(old(q)@), idx as int),
        r ==> certificate(s@, ints(final(p)@), ints(final(q)@)),
        !r ==> none_within(s@, m as int, ints(old(p)@), ints(old(q)@), second, idx as int),
    decreases (if second { 0int } else { k + 2 }) + k + 1 - idx,
{
    let ghost p0 = ints(p@);
    let ghost q0 = ints(q@);
    proof {
        lemma_small_bounds(k as int, m as int);
    }
    if idx == k + 1 {
        if second {
            let ok = dual_ok(s, k, n, p, q, m);
            proof {
                if !ok {
                    assert forall|w1: Seq<int>, w2: Seq<int>|
                        #[trigger] certificate(s@, w1, w2) && within(w1, m as int) && within(w2, m as int) && fixed(
                            w1,
                            w2,
                            p0,
                            q0,
                            second,
                            idx as int,
                        ) implies false by {
                        assert(w1 =~= p0);
                        assert(w2 =~= q0);
                    }
                }
            }
            return ok;
        } else {
            if !primal_ok(s, k, n, p, m) {
                proof {
                    assert forall|w1: Seq<int>, w2: Seq<int>|
                        #[trigger] certificate(s@, w1, w2) && within(w1, m as int) && within(w2, m as int) && fixed(
                            w1,
                            w2,
                            p0,
                            q0,
                            second,
                            idx as int,
                        ) implies false by {
                        assert(w1 =~= p0);
                    }
                }
                return false;
            }
            let r = find(s, k, n, m, p, q, true, 0);
            proof {
                if !r {
                    assert forall|w1: Seq<int>, w2: Seq<int>|
                        #[trigger] certificate(s@, w1, w2) && within(w1, m as int) && within(w2, m as int) && fixed(
                            w1,
                            w2,
                            p0,
                            q0,
                            second,
                            idx as int,
                        ) implies false by {
                        assert(fixed(w1, w2, p0, q0, true, 0));
                    }
                }
            }
            return r;
        }
    }
    let mut v: i64 = 0;
    while v <= m
        invariant
            lp_shape(s@),
            k == var_count(s@),
            n == cols(s@),
            p@.len() == k + 1,
            q@.len() == k + 1,
            0 <= m,
            within(ints(p@), m as int),
            within(ints(q@), m as int),
            (k + 1) * m * m < 0x1_0000_0000_0000_0000,
            m < 0x1_0000_0000,
            idx < k + 1,
            p0 == ints(old(p)@),
            q0 == ints(old(q)@),
            second ==> p@ == old(p)@,
            second ==> primal_part(s@, ints(p@)),
            agrees(ints(p@), p0, idx as int),
            second ==> agrees(ints(q@), q0, idx as int),
            0 <= v <= m + 1,
            forall|w1: Seq<int>, w2: Seq<int>|
                #[trigger] certificate(s@, w1, w2) && within(w1, m as int) && within(w2, m as int) && fixed(
                    w1,
                    w2,
                    p0,
                    q0,
                    second,
                    idx as int,
                ) && (if second { w2[idx as int] } else { w1[idx as int] }) < v ==> false,
        decreases m + 1 - v,
    {
        let ghost pb = ints(p@);
        let ghost qb = ints(q@);
        if second {
            q.set(idx, v);
        } else {
            p.set(idx, v);
        }
        let ghost p1 = ints(p@);
        let ghost q1 = ints(q@);
        proof {
            if second {
                assert(p1 =~= pb);
                assert(q1 =~= qb.update(idx as int, v as int));
            } else {
                assert(p1 =~= pb.update(idx as int, v as int));
                assert(q1 =~= qb);
            }
            assert forall|x: int| 0 <= x < p1.len() implies 0 <= #[trigger] p1[x] <= m by {
                if second || x != idx {
                    assert(p1[x] == pb[x]);
                    assert(0 <= pb[x] <= m);
                }
            }
            assert forall|x: int| 0 <= x < q1.len() implies 0 <= #[trigger] q1[x] <= m by {
                if !second || x != idx {
                    assert(q1[x] == qb[x]);
                    assert(0 <= qb[x] <= m);
                }
            }
            assert forall|x: int| 0 <= x < idx implies #[trigger] p1[x] == p0[x] by {
                assert(p1[x] == pb[x]);
                assert(pb[x] == p0[x]);
            }
            if second {
                assert forall|x: int| 0 <= x < idx implies #[trigger] q1[x] == q0[x] by {
                    assert(q1[x] == qb[x]);
                    assert(qb[x] == q0[x]);
                }
                assert(primal_part(s@, p1));
            }
        }
        let found = find(s, k, n, m, p, q, second, idx + 1);
        if found {
            proof {
                assert forall|x: int| 0 <= x < idx implies #[trigger] ints(p@)[x] == p0[x] by {
                    assert(ints(p@)[x] == p1[x]);
                    assert(p1[x] == p0[x]);
                }
                if second {
                    assert forall|x: int| 0 <= x < idx implies #[trigger] ints(q@)[x] == q0[x] by {
                        assert(ints(q@)[x] == q1[x]);
                        assert(q1[x] == q0[x]);
                    }
                }
            }
            return true;
        }
        proof {
            assert forall|x: int| 0 <= x < idx implies #[trigger] ints(p@)[x] == p0[x] by {
                assert(ints(p@)[x] == p1[x]);
                assert(p1[x] == p0[x]);
            }
            if second {
                assert forall|x: int| 0 <= x < idx implies #[trigger] ints(q@)[x] == q0[x] by {
                    assert(ints(q@)[x] == q1[x]);
                    assert(q1[x] == q0[x]);
                }
            }
            assert forall|w1: Seq<int>, w2: Seq<int>|
                #[trigger] certificate(s@, w1, w2) && within(w1, m as int) && within(w2, m as int) && fixed(
                    w1,
                    w2,
                    p0,
                    q0,
                    second,
                    idx as int,
                ) && (if second { w2[idx as int] } else { w1[idx as int] }) < v + 1 implies false by {
                if (if second { w2[idx as int] } else { w1[idx as int] }) == v {
                    if second {
                        assert(agrees(w1, p1, p1.len() as int));
                        assert(agrees(w2, q1, idx + 1));
                    } else {
                        assert(agrees(w1, p1, idx + 1));
                    }
                    assert(fixed(w1, w2, p1, q1, second, idx + 1));
                }
            }
        }
        v = v + 1;
    }
    proof {
        assert forall|w1: Seq<int>, w2: Seq<int>|
            #[trigger] certificate(s@, w1, w2) && within(w1, m as int) && within(w2, m as int) && fixed(
                w1,
                w2,
                p0,
                q0,
                second,
                idx as int,
            ) implies false by {
            if second {
                assert(0 <= w2[idx as int] <= m);
            } else {
                assert(0 <= w1[idx as int] <= m);
            }
        }
    }
    false
}

/// Euclid's algorithm.
fn gcd_u128(a: u128, b: u128) -> (g: u128) {
    let mut x = a;
    let mut y = b;
    while y != 0
        decreases y,
    {
        let t = x % y;
        x = y;
        y = t;
    }
    x
}

/// Gauss-Jordan elimination on whole numbers, pivoting as the original
/// method of `maximize_linear` does: for each column, the first row not yet
/// used with a value there becomes its pivot, and the column is cleared from
/// every other row by cross multiplication. Row `i` of `m` holds the
/// coefficients of equation `i`, then its right side. Gives, for each
/// unknown, a numerator and a denominator; `None` when a column has no pivot
/// or a number leaves the `i128`. Nothing is claimed of the values: they are
/// proposals that a certificate check accepts or not.
fn eliminate(m: Vec<Vec<i128>>, k: usize) -> (r: Option<Vec<(i128, i128)>>)
    requires
        m@.len() == k,
        forall|i: int| 0 <= i < k ==> #[trigger] m@[i]@.len() == k + 1,
    ensures
        r matches Some(v) ==> v@.len() == k,
{
    let mut m = m;
    if k == 0 {
        return Some(Vec::new());
    }
    let width = m[0].len();
    assert(width == k + 1);
    let mut used: Vec<bool> = Vec::new();
    let mut x: usize = 0;
    while x < k
        invariant
            x <= k,
            used@.len() == x,
        decreases k - x,
    {
        used.push(false);
        x = x + 1;
    }
    let mut pivot_of: Vec<usize> = Vec::new();
    let mut c: usize = 0;
    while c < k
        invariant
            c <= k,
            k + 1 <= usize::MAX,
            m@.len() == k,
            forall|i: int| 0 <= i < k ==> #[trigger] m@[i]@.len() == k + 1,
            used@.len() == k,
            pivot_of@.len() == c,
            forall|y: int| 0 <= y < c ==> #[trigger] pivot_of@[y] < k,
        decreases k - c,
    {
        let mut r: usize = 0;
        while r < k && (used[r] || m[r][c] == 0)
            invariant
                r <= k,
                c < k,
                m@.len() == k,
                forall|i: int| 0 <= i < k ==> #[trigger] m@[i]@.len() == k + 1,
                used@.len() == k,
            decreases k - r,
        {
            r = r + 1;
        }
        if r == k {
            return None;
        }
        used.set(r, true);
        let piv = m[r][c];
        let mut i: usize = 0;
        while i < k
            invariant
                i <= k,
                r < k,
                c < k,
                k + 1 <= usize::MAX,
                m@.len() == k,
                forall|i: int| 0 <= i < k ==> #[trigger] m@[i]@.len() == k + 1,
            decreases k - i,
        {
            if i != r {
                let f = m[i][c];
                if f != 0 {
                    let mut row: Vec<i128> = Vec::new();
                    let mut t: usize = 0;
                    while t < k + 1
                        invariant
                            t <= k + 1,
                            k + 1 <= usize::MAX,
                            i < k,
                            r < k,
                            m@.len() == k,
                            forall|i: int| 0 <= i < k ==> #[trigger] m@[i]@.len() == k + 1,
                            row@.len() == t,
                        decreases k + 1 - t,
                    {
                        let a = m[i][t].checked_mul(piv);
                        let b = m[r][t].checked_mul(f);
                        match (a, b) {
                            (Some(a), Some(b)) => match a.checked_sub(b) {
                                Some(v) => row.push(v),
                                None => {
                                    return None;
                                },
                            },
                            _ => {
                                return None;
                            },
                        }
                        t = t + 1;
                    }
                    m.set(i, row);
                }
            }
            i = i + 1;
        }
        pivot_of.push(r);
        c = c + 1;
    }
    let mut out: Vec<(i128, i128)> = Vec::new();
    let mut c: usize = 0;
    while c < k
        invariant
            c <= k,
            m@.len() == k,
            forall|i: int| 0 <= i < k ==> #[trigger] m@[i]@.len() == k + 1,
            pivot_of@.len() == k,
            forall|y: int| 0 <= y < k ==> #[trigger] pivot_of@[y] < k,
            out@.len() == c,
        decreases k - c,
    {
        let r = pivot_of[c];
        out.push((m[r][k], m[r][c]));
        c = c + 1;
    }
    Some(out)
}

/// The fractions `f` written over one denominator, as numerators not below
/// zero followed by the denominator, all divided by their greatest common
/// divisor. `None` when a fraction is negative or has no denominator, or a
/// number leaves an `i64`.
fn common_point(f: &Vec<(i128, i128)>) -> (r: Option<Vec<i64>>)
    ensures
        r matches Some(v) ==> v@.len() == f@.len() + 1 && forall|x: int| 0 <= x < v@.len() ==> 0 <= #[trigger] v@[x],
{
    let mut nums: Vec<u128> = Vec::new();
    let mut dens: Vec<u128> = Vec::new();
    let mut x: usize = 0;
    while x < f.len()
        invariant
            x <= f.len(),
            nums@.len() == x,
            dens@.len() == x,
        decreases f.len() - x,
    {
        let (a, b) = f[x];
        if b == 0 || a == i128::MIN || b == i128::MIN || (a != 0 && (a < 0) != (b < 0)) {
            return None;
        }
        let an: u128 = if a < 0 {
            (-a) as u128
        } else {
            a as u128
        };
        let bn: u128 = if b < 0 {
            (-b) as u128
        } else {
            b as u128
        };
        nums.push(an);
        dens.push(bn);
        x = x + 1;
    }
    let mut e: u128 = 1;
    let mut x: usize = 0;
    while x < dens.len()
        invariant
            x <= dens.len(),
        decreases dens.len() - x,
    {
        match e.checked_mul(dens[x]) {
            Some(v) => {
                e = v;
            },
            None => {
                return None;
            },
        }
        x = x + 1;
    }
    let mut p: Vec<u128> = Vec::new();
    let mut x: usize = 0;
    while x < nums.len()
        invariant
            x <= nums.len(),
            nums@.len() == dens@.len(),
            p@.len() == x,
        decreases nums.len() - x,
    {
        if dens[x] == 0 {
            return None;
        }
        match nums[x].checked_mul(e / dens[x]) {
            Some(v) => p.push(v),
            None => {
                return None;
            },
        }
        x = x + 1;
    }
    p.push(e);
    let mut g: u128 = 0;
    let mut x: usize = 0;
    while x < p.len()
        invariant
            x <= p.len(),
        decreases p.len() - x,
    {
        g = gcd_u128(g, p[x]);
        x = x + 1;
    }
    if g == 0 {
        return None;
    }
    let mut out: Vec<i64> = Vec::new();
    let mut x: usize = 0;
    while x < p.len()
        invariant
            x <= p.len(),
            g > 0,
            out@.len() == x,
            forall|y: int| 0 <= y < x ==> 0 <= #[trigger] out@[y],
        decreases p.len() - x,
    {
        let y = p[x] / g;
        if y > 0x7fff_ffff_ffff_ffff {
            return None;
        }
        out.push(y as i64);
        x = x + 1;
    }
    assert(nums@.len() == f@.len());
    Some(out)
}

/// The vertex where every constraint row is tight, and the multipliers that
/// make the objective a combination of the constraint rows: the point that
/// the original pivoting method gives, with what would certify it. `m` is
/// the largest number of both.
fn vertex_candidate(s: &Matrix, k: usize, n: usize) -> (r: Option<(Vec<i64>, Vec<i64>, i64)>)
    requires
        lp_shape(s@),
        k == var_count(s@),
        n == cols(s@),
    ensures
        r matches Some((p, q, m)) ==> {
            &&& p@.len() == k + 1
            &&& q@.len() == k + 1
            &&& 0 <= m
            &&& within(ints(p@), m as int)
            &&& within(ints(q@), m as int)
            &&& (k + 1) * m * m < 0x1_0000_0000_0000_0000
        },
{
    proof {
        assert forall|i: int| 0 <= i <= k implies #[trigger] s@[i].len() == n by {
            assert(s@[i].len() == s@[0].len());
        }
    }
    let mut primal: Vec<Vec<i128>> = Vec::new();
    let mut dual: Vec<Vec<i128>> = Vec::new();
    let mut i: usize = 0;
    while i < k
        invariant
            i <= k,
            k == var_count(s@),
            n == cols(s@),
            k < n,
            forall|i: int| 0 <= i <= k ==> #[trigger] s@[i].len() == n,
            primal@.len() == i,
            dual@.len() == i,
            forall|x: int| 0 <= x < i ==> #[trigger] primal@[x]@.len() == k + 1,
            forall|x: int| 0 <= x < i ==> #[trigger] dual@[x]@.len() == k + 1,
        decreases k - i,
    {
        let mut prow: Vec<i128> = Vec::new();
        let mut drow: Vec<i128> = Vec::new();
        let mut j: usize = 0;
        assert(s.0@[i as int]@ == s@[i as int]);
        assert(s.0@[k as int]@ == s@[k as int]);
        while j < k
            invariant
                j <= k,
                i < k,
                k < n,
                k == var_count(s@),
                forall|i: int| 0 <= i <= k ==> #[trigger] s@[i].len() == n,
                prow@.len() == j,
                drow@.len() == j,
            decreases k - j,
        {
            assert(s.0@[i as int]@ == s@[i as int]);
            assert(s.0@[j as int]@ == s@[j as int]);
            prow.push(s.0[i][j] as i128);
            drow.push(s.0[j][i] as i128);
            j = j + 1;
        }
        prow.push(s.0[i][n - 1] as i128);
        drow.push(-(s.0[k][i] as i128));
        primal.push(prow);
        dual.push(drow);
        i = i + 1;
    }
    let x = match eliminate(primal, k) {
        Some(x) => x,
        None => {
            return None;
        },
    };
    let l = match eliminate(dual, k) {
        Some(l) => l,
        None => {
            return None;
        },
    };
    let p = match common_point(&x) {
        Some(p) => p,
        None => {
            return None;
        },
    };
    let q = match common_point(&l) {
        Some(q) => q,
        None => {
            return None;
        },
    };
    let mut m: i64 = 0;
    let mut x: usize = 0;
    while x < p.len()
        invariant
            x <= k + 1,
            p@.len() == k + 1,
            q@.len() == k + 1,
            forall|y: int| 0 <= y < p@.len() ==> 0 <= #[trigger] p@[y],
            forall|y: int| 0 <= y < q@.len() ==> 0 <= #[trigger] q@[y],
            0 <= m,
            forall|y: int| 0 <= y < x ==> #[trigger] p@[y] <= m && q@[y] <= m,
        decreases k + 1 - x,
    {
        if p[x] > m {
            m = p[x];
        }
        if q[x] > m {
            m = q[x];
        }
        assert(p@[x as int] <= m && q@[x as int] <= m);
        x = x + 1;
    }
    let kk: u128 = (k as u128) + 1;
    let mm: u128 = m as u128;
    let bound = match kk.checked_mul(mm) {
        Some(a) => match a.checked_mul(mm) {
            Some(b) => b,
            None => {
                return None;
            },
        },
        None => {
            return None;
        },
    };
    if bound >= 0x1_0000_0000_0000_0000 {
        return None;
    }
    proof {
        assert(within(ints(p@), m as int)) by {
            assert forall|y: int| 0 <= y < ints(p@).len() implies 0 <= #[trigger] ints(p@)[y] <= m by {
                assert(p@[y] <= m && q@[y] <= m);
            }
        }
        assert(within(ints(q@), m as int)) by {
            assert forall|y: int| 0 <= y < ints(q@).len() implies 0 <= #[trigger] ints(q@)[y] <= m by {
                assert(p@[y] <= m && q@[y] <= m);
            }
        }
    }
    Some((p, q, m))
}

/// `len` zeros.
fn zeros(len: usize) -> (r: Vec<i64>)
    ensures
        r@.len() == len,
        forall|x: int| 0 <= x < len ==> #[trigger] r@[x] == 0,
{
    let mut r: Vec<i64> = Vec::new();
    let mut x: usize = 0;
    while x < len
        invariant
            x <= len,
            r@.len() == x,
            forall|i: int| 0 <= i < x ==> #[trigger] r@[i] == 0,
        decreases len - x,
    {
        r.push(0);
        x = x + 1;
    }
    r
}

/// The point of a certificate, each coordinate divided down to an integer.
fn read_point(s: &Matrix, k: usize, p: &Vec<i64>, q: &Vec<i64>) -> (r: Vec<i64>)
    requires
        lp_shape(s@),
        k == var_count(s@),
        certificate(s@, ints(p@), ints(q@)),
    ensures
        r@.len() == var_count(s@),
        exists|y: Seq<int>, e: int|
            #[trigger] maximum_at(s@, y, e) && forall|j: int|
                0 <= j < var_count(s@) ==> #[trigger] r@[j] == y[j] / e,
{
    let ghost t = ints(p@);
    let e = p[k];
    assert(t[k as int] == e);
    let mut out: Vec<i64> = Vec::new();
    let mut j: usize = 0;
    while j < k
        invariant
            j <= k,
            p@.len() == k + 1,
            t == ints(p@),
            primal_part(s@, t),
            k == var_count(s@),
            e == t[k as int],
            out@.len() == j,
            forall|x: int| 0 <= x < j ==> #[trigger] out@[x] == t[x] / (e as int),
        decreases k - j,
    {
        assert(t[j as int] == p[j as int]);
        assert(t[j as int] >= 0);
        out.push(p[j] / e);
        j = j + 1;
    }
    proof {
        lemma_certificate_maximum(s@, t, ints(q@));
        let y = t.take(k as int);
        assert forall|x: int| 0 <= x < k implies #[trigger] out@[x] == y[x] / (e as int) by {
            assert(y[x] == t[x]);
        }
        assert(maximum_at(s@, y, e as int));
    }
    out
}

impl Matrix {
    /// Maximize a linear optimization matrix.
    ///
    /// Return variables value.
    ///
    /// The matrix is a tableau of `k + 1` rows: row `i < k` reads
    /// `row i . x <= s[i][n - 1]` over the first `k` columns, with `x` not
    /// negative, and row `k` holds the negated gains of the objective. The
    /// result is a point where the objective is as large as at any rational
    /// point that meets the constraints, each coordinate divided down to an
    /// integer. Of several such points, which one is not fixed.
    ///
    /// The vertex where every constraint row is tight is tried first, by
    /// pivoting; when its certificate does not check, the certificates made of
    /// numbers up to 0, 1, 2, ... are searched in turn.
    pub fn maximize_linear(&self) -> (r: Vec<i64>)
        requires
            lp_shape(self@),
            solvable(self@),
        ensures
            r@.len() == var_count(self@),
            exists|y: Seq<int>, e: int|
                #[trigger] maximum_at(self@, y, e) && forall|j: int|
                    0 <= j < var_count(self@) ==> #[trigger] r@[j] == y[j] / e,
    {
        let (rows_n, n) = self.dimensions();
        let k = rows_n - 1;
        let ghost (w1, w2, b): (Seq<int>, Seq<int>, int) = choose|w1: Seq<int>, w2: Seq<int>, b: int|
            #[trigger] small_certificate(self@, w1, w2, b);
        proof {
            assert(small_certificate(self@, w1, w2, b));
            assert(0 <= w1[k as int] <= b);
            lemma_small_bounds(k as int, b);
        }
        match vertex_candidate(self, k, n) {
            Some((p, q, m)) => {
                if primal_ok(self, k, n, &p, m) {
                    if dual_ok(self, k, n, &p, &q, m) {
                        return read_point(self, k, &p, &q);
                    }
                }
            },
            None => {},
        }
        let mut m: i64 = 0;
        loop
            invariant
                lp_shape(self@),
                k == var_count(self@),
                n == cols(self@),
                small_certificate(self@, w1, w2, b),
                0 <= m <= b,
                b < 0x1_0000_0000,
            decreases b - m,
        {
            let mut p = zeros(k + 1);
            let mut q = zeros(k + 1);
            proof {
                assert((k + 1) * m * m <= (k + 1) * b * b) by (nonlinear_arith)
                    requires
                        0 <= m <= b,
                        k >= 0,
                ;
                assert(within(ints(p@), m as int));
                assert(within(ints(q@), m as int));
            }
            let ghost p0 = ints(p@);
            let ghost q0 = ints(q@);
            if find(self, k, n, m, &mut p, &mut q, false, 0) {
                return read_point(self, k, &p, &q);
            }
            proof {
                if m == b {
                    assert(fixed(w1, w2, p0, q0, false, 0));
                    assert(certificate(self@, w1, w2));
                }
            }
            m = m + 1;
        }
    }
}


/// The result of `broy` on a square matrix whose determinant is not zero: row
/// `i` holds the cofactors of column `i` (row `i` of the adjugate), then the
/// determinant. By Cramer's rule, for the solution `x` of `s * x == c`, the sum
/// over `j` of `R[i][j] * c[j]` is `x[i]` times `R[i][n]`.
pub open spec fn broy_grid(s: Grid) -> Grid {
    Seq::new(
        rows(s) as nat,
        |i: int|
            Seq::new(
                (rows(s) + 1) as nat,
                |j: int|
                    if j < rows(s) {
                        cof(s, j, i) as i64
                    } else {
                        det(s) as i64
                    },
            ),
    )
}

impl Matrix {
    /// Solve a SLE with unknown constants but known coefficients by using Broy's method.
    ///
    /// Return Some(matrix) where the sum of row `i` 0..n-1 multiplicated by constant[i]
    /// is equal to the value of variable `i` multiplicated by matrix[i][n-1] row.
    ///
    /// Return None if solution is not unique.
    pub fn broy(matrix: &Matrix) -> (r: Option<Self>)
        requires
            is_matrix(matrix@),
            square(matrix@),
            det_fits(matrix@),
            cofactors_fit(matrix@),
        ensures
            r is None <==> det(matrix@) == 0,
            r matches Some(c) ==> c@ == broy_grid(matrix@),
    {
        let d = det_of(matrix);
        if d == 0 {
            return None;
        }
        let ghost s = matrix@;
        let n = matrix.m();
        let mut out: Vec<Vec<i64>> = Vec::new();
        let mut i: usize = 0;
        while i < n
            invariant
                s == matrix@,
                is_matrix(s),
                square(s),
                cofactors_fit(s),
                d == det(s),
                n == rows(s),
                i <= n,
                out.len() == i,
                forall|k: int| 0 <= k < i ==> #[trigger] out@[k]@ == broy_grid(s)[k],
            decreases n - i,
        {
            let mut row: Vec<i64> = Vec::new();
            let mut j: usize = 0;
            while j < n
                invariant
                    s == matrix@,
                    is_matrix(s),
                    square(s),
                    cofactors_fit(s),
                    n == rows(s),
                    i < n,
                    j <= n,
                    row@ == Seq::new(j as nat, |x: int| cof(s, x, i as int) as i64),
                decreases n - j,
            {
                assert(det_fits(minor_grid(s, j as int, i as int)) && fits(cof(s, j as int, i as int)));
                let c = cofactor_value(matrix, j, i);
                row.push(c);
                j = j + 1;
                assert(row@ =~= Seq::new(j as nat, |x: int| cof(s, x, i as int) as i64));
            }
            row.push(d);
            out.push(row);
            i = i + 1;
            assert(out@[i - 1]@ =~= broy_grid(s)[i - 1]);
        }
        let r = Matrix(out);
        assert(r@ =~~= broy_grid(s));
        Some(r)
    }
}

} // verus!
