//! Algebraic properties of the matrix operations.
use crate::collections::{
    block, cols, grid_add, grid_mul, grid_sub, ig, inner_len, is_matrix, join_quarters, reflect_rows,
    resized, rows, scalar_grid, square, symmetric, transpose, Grid,
};
use crate::linalg::dot;
use vstd::prelude::*;

verus! {

/// Transposing twice gives the matrix back.
pub proof fn lemma_transpose_involutive(s: Grid)
    requires
        is_matrix(s),
        cols(s) > 0,
    ensures
        transpose(transpose(s)) == s,
{
    assert(transpose(transpose(s)) =~~= s) by {
        assert forall|i: int| 0 <= i < s.len() implies #[trigger] s[i].len() == cols(s) by {}
    }
}

/// Reversing every row twice gives the matrix back.
pub proof fn lemma_reflect_involutive(s: Grid)
    requires
        is_matrix(s),
    ensures
        reflect_rows(reflect_rows(s)) == s,
{
    assert(reflect_rows(reflect_rows(s)) =~~= s) by {
        assert forall|i: int| 0 <= i < s.len() implies #[trigger] s[i].len() == cols(s) by {}
    }
}

/// A matrix is symmetric exactly when it equals its transpose.
pub proof fn lemma_symmetric_iff_transpose(s: Grid)
    requires
        is_matrix(s),
    ensures
        symmetric(s) <==> (square(s) && transpose(s) == s),
{
    if symmetric(s) {
        assert(transpose(s) =~~= s) by {
            assert forall|i: int| 0 <= i < s.len() implies #[trigger] s[i].len() == cols(s) by {}
            assert forall|i: int, j: int| 0 <= i < rows(s) && 0 <= j < cols(s) implies #[trigger] transpose(s)[i][j]
                == s[i][j] by {
                if i < j {
                    assert(s[i][j] == s[j][i]);
                } else if j < i {
                    assert(s[j][i] == s[i][j]);
                }
            }
        }
    }
    if square(s) && transpose(s) == s {
        assert forall|i: int, j: int| 0 <= i < j < cols(s) implies s[i][j] == s[j][i] by {
            assert(transpose(s)[i][j] == s[j][i]);
        }
    }
}

/// Matrix addition is commutative.
pub proof fn lemma_add_commutative(a: Grid, b: Grid)
    requires
        is_matrix(a),
        is_matrix(b),
        rows(a) == rows(b),
        cols(a) == cols(b),
    ensures
        grid_add(a, b) == grid_add(b, a),
{
    assert(grid_add(a, b) =~~= grid_add(b, a)) by {
        assert forall|i: int| 0 <= i < a.len() implies #[trigger] a[i].len() == b[i].len() by {
            assert(a[i].len() == cols(a));
            assert(b[i].len() == cols(b));
        }
    }
}

/// Subtracting what was added gives the matrix back.
pub proof fn lemma_add_sub_cancel(a: Grid, b: Grid)
    requires
        is_matrix(a),
        is_matrix(b),
        rows(a) == rows(b),
        cols(a) == cols(b),
        forall|i: int, j: int|
            0 <= i < a.len() && 0 <= j < a[i].len() ==> i64::MIN <= #[trigger] a[i][j] + b[i][j] <= i64::MAX,
    ensures
        grid_sub(grid_add(a, b), b) == a,
{
    assert(grid_sub(grid_add(a, b), b) =~~= a);
}

proof fn lemma_dot_unit_right(a: Grid, n: int, i: int, j: int, k: int)
    requires
        0 <= i < a.len(),
        0 <= j < n,
        0 <= k <= n,
        a[i].len() == n,
    ensures
        dot(ig(a), ig(scalar_grid(n, n, 1)), i, j, k) == if j < k {
            a[i][j] as int
        } else {
            0
        },
    decreases k,
{
    if k > 0 {
        lemma_dot_unit_right(a, n, i, j, k - 1);
    }
}

proof fn lemma_dot_unit_left(b: Grid, m: int, i: int, j: int, k: int)
    requires
        0 <= i < m,
        0 <= k <= m,
        b.len() == m,
        forall|t: int| 0 <= t < m ==> j < #[trigger] b[t].len(),
        0 <= j,
    ensures
        dot(ig(scalar_grid(m, m, 1)), ig(b), i, j, k) == if i < k {
            b[i][j] as int
        } else {
            0
        },
    decreases k,
{
    if k > 0 {
        lemma_dot_unit_left(b, m, i, j, k - 1);
        assert(j < b[k - 1].len());
    }
}

/// The identity is a unit of the product, on the right and on the left.
pub proof fn lemma_identity_unit(a: Grid)
    requires
        is_matrix(a),
        cols(a) > 0,
    ensures
        grid_mul(a, scalar_grid(cols(a), cols(a), 1)) == a,
        grid_mul(scalar_grid(rows(a), rows(a), 1), a) == a,
{
    let n = cols(a);
    let m = rows(a);
    let id_n = scalar_grid(n, n, 1);
    let id_m = scalar_grid(m, m, 1);
    assert(inner_len(a, id_n) == n);
    assert(inner_len(id_m, a) == m);
    assert forall|i: int, j: int| 0 <= i < m && 0 <= j < n implies #[trigger] grid_mul(a, id_n)[i][j] == a[i][j] by {
        assert(a[i].len() == n);
        lemma_dot_unit_right(a, n, i, j, n);
    }
    assert forall|i: int, j: int| 0 <= i < m && 0 <= j < n implies #[trigger] grid_mul(id_m, a)[i][j] == a[i][j] by {
        assert forall|t: int| 0 <= t < m implies j < #[trigger] a[t].len() by {}
        lemma_dot_unit_left(a, m, i, j, m);
    }
    assert(grid_mul(a, id_n) =~~= a) by {
        assert forall|i: int| 0 <= i < m implies #[trigger] a[i].len() == n by {}
    }
    assert(grid_mul(id_m, a) =~~= a) by {
        assert forall|i: int| 0 <= i < m implies #[trigger] a[i].len() == n by {}
    }
}

/// Joining the four dials of a matrix gives the matrix back.
pub proof fn lemma_dials_roundtrip(s: Grid)
    requires
        is_matrix(s),
        rows(s) % 2 == 0,
        cols(s) % 2 == 0,
    ensures
        ({
            let hm = rows(s) / 2;
            let hn = cols(s) / 2;
            join_quarters(
                block(s, 0, hm, 0, hn),
                block(s, 0, hm, hn, cols(s)),
                block(s, hm, rows(s), 0, hn),
                block(s, hm, rows(s), hn, cols(s)),
            ) == s
        }),
{
    let hm = rows(s) / 2;
    let hn = cols(s) / 2;
    assert(join_quarters(
        block(s, 0, hm, 0, hn),
        block(s, 0, hm, hn, cols(s)),
        block(s, hm, rows(s), 0, hn),
        block(s, hm, rows(s), hn, cols(s)),
    ) =~~= s) by {
        assert forall|i: int| 0 <= i < s.len() implies #[trigger] s[i].len() == cols(s) by {}
    }
}

/// Resizing a matrix to its own dimensions leaves it unchanged.
pub proof fn lemma_resize_same(s: Grid)
    requires
        is_matrix(s),
    ensures
        resized(s, rows(s), cols(s)) == s,
{
    assert(resized(s, rows(s), cols(s)) =~~= s) by {
        assert forall|i: int| 0 <= i < s.len() implies #[trigger] s[i].len() == cols(s) by {}
    }
}

} // verus!
