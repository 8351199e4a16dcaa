//! Integer matrices as mathematical objects: sums, products, blocks, and the
//! identities behind block multiplication and Strassen's scheme, also modulo
//! the word size.
use vstd::arithmetic::div_mod::*;
use vstd::arithmetic::mul::*;
use vstd::prelude::*;

verus! {

/// A grid of mathematical integers, as rows of values.
pub type IGrid = Seq<Seq<int>>;

/// The size of the ring in which 64-bit words compute.
pub open spec fn word() -> int {
    0x1_0000_0000_0000_0000
}

/// `x` and `y` are equal modulo the word size.
pub open spec fn cong(x: int, y: int) -> bool {
    x % word() == y % word()
}

/// The first `k` terms of the dot product of row `i` of `a` and column `j` of `b`.
pub open spec fn dot(a: IGrid, b: IGrid, i: int, j: int, k: int) -> int
    decreases k,
{
    if k <= 0 {
        0
    } else {
        dot(a, b, i, j, k - 1) + a[i][k - 1] * b[k - 1][j]
    }
}

/// The `m` by `p` product of `a` and `b`, summing `k` terms per cell.
pub open spec fn product(a: IGrid, b: IGrid, m: int, k: int, p: int) -> IGrid {
    Seq::new(m as nat, |i: int| Seq::new(p as nat, |j: int| dot(a, b, i, j, k)))
}

/// Cellwise sum.
pub open spec fn plus(a: IGrid, b: IGrid) -> IGrid {
    Seq::new(a.len(), |i: int| Seq::new(a[i].len(), |j: int| a[i][j] + b[i][j]))
}

/// Cellwise difference.
pub open spec fn minus(a: IGrid, b: IGrid) -> IGrid {
    Seq::new(a.len(), |i: int| Seq::new(a[i].len(), |j: int| a[i][j] - b[i][j]))
}

/// The `h` by `h` block whose top left cell is `(r, c)`.
pub open spec fn quarter(a: IGrid, r: int, c: int, h: int) -> IGrid {
    Seq::new(h as nat, |i: int| Seq::new(h as nat, |j: int| a[r + i][c + j]))
}

/// `a` has `m` rows of `n` cells.
pub open spec fn shaped(a: IGrid, m: int, n: int) -> bool {
    a.len() == m && forall|i: int| 0 <= i < m ==> #[trigger] a[i].len() == n
}

pub proof fn lemma_cong_add(x: int, y: int, u: int, v: int)
    requires
        cong(x, u),
        cong(y, v),
    ensures
        cong(x + y, u + v),
        cong(x - y, u - v),
{
    lemma_add_mod_noop(x, y, word());
    lemma_add_mod_noop(u, v, word());
    lemma_sub_mod_noop(x, y, word());
    lemma_sub_mod_noop(u, v, word());
}

pub proof fn lemma_cong_mul(x: int, y: int, u: int, v: int)
    requires
        cong(x, u),
        cong(y, v),
    ensures
        cong(x * y, u * v),
{
    lemma_mul_mod_noop_general(x, y, word());
    lemma_mul_mod_noop_general(u, v, word());
}

/// Two machine integers that are congruent modulo the word size are equal.
pub proof fn lemma_cong_i64_eq(x: int, y: int)
    requires
        i64::MIN <= x <= i64::MAX,
        i64::MIN <= y <= i64::MAX,
        cong(x, y),
    ensures
        x == y,
{
    lemma_fundamental_div_mod(x, word());
    lemma_fundamental_div_mod(y, word());
    let qx = x / word();
    let qy = y / word();
    assert(word() * qx + x % word() == x);
    assert(word() * qy + y % word() == y);
    assert(x - y == word() * (qx - qy)) by {
        lemma_mul_is_distributive_sub(word(), qx, qy);
    }
    if qx - qy >= 1 {
        lemma_mul_inequality(1, qx - qy, word());
        assert(word() * (qx - qy) >= word()) by {
            lemma_mul_is_commutative(word(), qx - qy);
        }
    } else if qx - qy <= -1 {
        lemma_mul_inequality(1, qy - qx, word());
        assert(word() * (qy - qx) >= word()) by {
            lemma_mul_is_commutative(word(), qy - qx);
        }
        assert(word() * (qx - qy) == -(word() * (qy - qx))) by {
            lemma_mul_unary_negation(word(), qy - qx);
        }
    }
}

/// The dot product only depends on its arguments modulo the word size.
pub proof fn lemma_dot_cong(a: IGrid, b: IGrid, x: IGrid, y: IGrid, i: int, j: int, k: int)
    requires
        forall|t: int| 0 <= t < k ==> cong(#[trigger] a[i][t], x[i][t]),
        forall|t: int| 0 <= t < k ==> cong(#[trigger] b[t][j], y[t][j]),
    ensures
        cong(dot(a, b, i, j, k), dot(x, y, i, j, k)),
    decreases k,
{
    if k > 0 {
        lemma_dot_cong(a, b, x, y, i, j, k - 1);
        assert(cong(a[i][k - 1], x[i][k - 1]));
        assert(cong(b[k - 1][j], y[k - 1][j]));
        lemma_cong_mul(a[i][k - 1], b[k - 1][j], x[i][k - 1], y[k - 1][j]);
        lemma_cong_add(dot(a, b, i, j, k - 1), a[i][k - 1] * b[k - 1][j], dot(x, y, i, j, k - 1), x[i][k - 1] * y[k - 1][j]);
    }
}

/// The dot product is linear in its left argument.
pub proof fn lemma_dot_linear_left(a: IGrid, b: IGrid, c: IGrid, i: int, j: int, k: int)
    requires
        0 <= i < a.len(),
        k <= a[i].len(),
    ensures
        dot(plus(a, b), c, i, j, k) == dot(a, c, i, j, k) + dot(b, c, i, j, k),
        dot(minus(a, b), c, i, j, k) == dot(a, c, i, j, k) - dot(b, c, i, j, k),
    decreases k,
{
    if k > 0 {
        lemma_dot_linear_left(a, b, c, i, j, k - 1);
        let t = k - 1;
        lemma_mul_is_distributive_add_other_way(c[t][j], a[i][t], b[i][t]);
        lemma_mul_is_distributive_sub_other_way(c[t][j], a[i][t], b[i][t]);
    }
}

/// The dot product is linear in its right argument.
pub proof fn lemma_dot_linear_right(a: IGrid, b: IGrid, c: IGrid, i: int, j: int, k: int)
    requires
        0 <= j,
        k <= b.len(),
        forall|t: int| 0 <= t < k ==> j < #[trigger] b[t].len(),
    ensures
        dot(a, plus(b, c), i, j, k) == dot(a, b, i, j, k) + dot(a, c, i, j, k),
        dot(a, minus(b, c), i, j, k) == dot(a, b, i, j, k) - dot(a, c, i, j, k),
    decreases k,
{
    if k > 0 {
        lemma_dot_linear_right(a, b, c, i, j, k - 1);
        let t = k - 1;
        assert(j < b[t].len());
        assert(plus(b, c)[t][j] == b[t][j] + c[t][j]);
        assert(minus(b, c)[t][j] == b[t][j] - c[t][j]);
        lemma_mul_is_distributive_add(a[i][t], b[t][j], c[t][j]);
        lemma_mul_is_distributive_sub(a[i][t], b[t][j], c[t][j]);
    }
}

/// The first `k` terms of a dot product read the same cells in the blocks.
proof fn lemma_dot_shift(a: IGrid, b: IGrid, r: int, c: int, s: int, i: int, j: int, k: int, h: int)
    requires
        0 <= k <= h,
        0 <= i < h,
        0 <= j < h,
    ensures
        dot(quarter(a, r, s, h), quarter(b, s, c, h), i, j, k) == dot_from(a, b, r + i, c + j, s, k),
    decreases k,
{
    if k > 0 {
        lemma_dot_shift(a, b, r, c, s, i, j, k - 1, h);
    }
}

/// The `k` terms of a dot product starting at index `s`.
pub open spec fn dot_from(a: IGrid, b: IGrid, i: int, j: int, s: int, k: int) -> int
    decreases k,
{
    if k <= 0 {
        0
    } else {
        dot_from(a, b, i, j, s, k - 1) + a[i][s + k - 1] * b[s + k - 1][j]
    }
}

proof fn lemma_dot_from_split(a: IGrid, b: IGrid, i: int, j: int, h: int, k: int)
    requires
        0 <= h,
        0 <= k,
    ensures
        dot(a, b, i, j, h + k) == dot(a, b, i, j, h) + dot_from(a, b, i, j, h, k),
    decreases k,
{
    if k > 0 {
        lemma_dot_from_split(a, b, i, j, h, k - 1);
    }
}

proof fn lemma_dot_from_zero(a: IGrid, b: IGrid, i: int, j: int, k: int)
    requires
        0 <= k,
    ensures
        dot(a, b, i, j, k) == dot_from(a, b, i, j, 0, k),
    decreases k,
{
    if k > 0 {
        lemma_dot_from_zero(a, b, i, j, k - 1);
    }
}

/// A cell of the product of two `2h` by `2h` matrices is the sum of the
/// products of the matching quarters.
pub proof fn lemma_block_product(a: IGrid, b: IGrid, h: int, r: int, c: int, i: int, j: int)
    requires
        h >= 0,
        r == 0 || r == h,
        c == 0 || c == h,
        0 <= i < h,
        0 <= j < h,
    ensures
        dot(a, b, r + i, c + j, 2 * h) == dot(quarter(a, r, 0, h), quarter(b, 0, c, h), i, j, h) + dot(
            quarter(a, r, h, h),
            quarter(b, h, c, h),
            i,
            j,
            h,
        ),
{
    lemma_dot_from_split(a, b, r + i, c + j, h, h);
    lemma_dot_from_zero(a, b, r + i, c + j, h);
    lemma_dot_shift(a, b, r, c, 0, i, j, h, h);
    lemma_dot_shift(a, b, r, c, h, i, j, h, h);
}


/// The seven products of Strassen's scheme, at cell `(i, j)` of a `2h` by `2h`
/// product.
pub open spec fn strassen_terms(a: IGrid, b: IGrid, h: int, i: int, j: int) -> (int, int, int, int, int, int, int) {
    let a11 = quarter(a, 0, 0, h);
    let a12 = quarter(a, 0, h, h);
    let a21 = quarter(a, h, 0, h);
    let a22 = quarter(a, h, h, h);
    let b11 = quarter(b, 0, 0, h);
    let b12 = quarter(b, 0, h, h);
    let b21 = quarter(b, h, 0, h);
    let b22 = quarter(b, h, h, h);
    (
        dot(plus(a11, a22), plus(b11, b22), i, j, h),
        dot(plus(a21, a22), b11, i, j, h),
        dot(a11, minus(b12, b22), i, j, h),
        dot(a22, minus(b21, b11), i, j, h),
        dot(plus(a11, a12), b22, i, j, h),
        dot(minus(a21, a11), plus(b11, b12), i, j, h),
        dot(minus(a12, a22), plus(b21, b22), i, j, h),
    )
}

/// Strassen's identities: the four quarters of a product are sums and
/// differences of seven products of sums and differences of quarters.
pub proof fn lemma_strassen(a: IGrid, b: IGrid, h: int, i: int, j: int)
    requires
        h >= 1,
        0 <= i < h,
        0 <= j < h,
    ensures
        ({
            let (m1, m2, m3, m4, m5, m6, m7) = strassen_terms(a, b, h, i, j);
            &&& (m1 + m4) - (m5 - m7) == dot(a, b, i, j, 2 * h)
            &&& m3 + m5 == dot(a, b, i, h + j, 2 * h)
            &&& m2 + m4 == dot(a, b, h + i, j, 2 * h)
            &&& (m1 - m2) + (m3 + m6) == dot(a, b, h + i, h + j, 2 * h)
        }),
{
    let a11 = quarter(a, 0, 0, h);
    let a12 = quarter(a, 0, h, h);
    let a21 = quarter(a, h, 0, h);
    let a22 = quarter(a, h, h, h);
    let b11 = quarter(b, 0, 0, h);
    let b12 = quarter(b, 0, h, h);
    let b21 = quarter(b, h, 0, h);
    let b22 = quarter(b, h, h, h);
    // linearity on the left for each left operand that is a sum or difference
    lemma_dot_linear_left(a11, a22, plus(b11, b22), i, j, h);
    lemma_dot_linear_left(a21, a22, b11, i, j, h);
    lemma_dot_linear_left(a11, a12, b22, i, j, h);
    lemma_dot_linear_left(a21, a11, plus(b11, b12), i, j, h);
    lemma_dot_linear_left(a12, a22, plus(b21, b22), i, j, h);
    // linearity on the right
    lemma_dot_linear_right(a11, b11, b22, i, j, h);
    lemma_dot_linear_right(a22, b11, b22, i, j, h);
    lemma_dot_linear_right(a11, b12, b22, i, j, h);
    lemma_dot_linear_right(a22, b21, b11, i, j, h);
    lemma_dot_linear_right(a21, b11, b12, i, j, h);
    lemma_dot_linear_right(a11, b11, b12, i, j, h);
    lemma_dot_linear_right(a12, b21, b22, i, j, h);
    lemma_dot_linear_right(a22, b21, b22, i, j, h);
    // the quarters of the product
    lemma_block_product(a, b, h, 0, 0, i, j);
    lemma_block_product(a, b, h, 0, h, i, j);
    lemma_block_product(a, b, h, h, 0, i, j);
    lemma_block_product(a, b, h, h, h, i, j);
}


/// Padding both factors with zero rows and columns does not change the
/// cells of the product that both products have.
pub proof fn lemma_dot_padded(a: IGrid, b: IGrid, pa: IGrid, pb: IGrid, i: int, j: int, ka: int, kb: int, t: int)
    requires
        0 <= t,
        0 <= ka,
        0 <= kb,
        forall|k: int| 0 <= k < t ==> #[trigger] pa[i][k] == if k < ka { a[i][k] } else { 0 },
        forall|k: int| 0 <= k < t ==> #[trigger] pb[k][j] == if k < kb { b[k][j] } else { 0 },
    ensures
        dot(pa, pb, i, j, t) == dot(a, b, i, j, if t < ka && t < kb { t } else if ka < kb { ka } else { kb }),
    decreases t,
{
    if t > 0 {
        lemma_dot_padded(a, b, pa, pb, i, j, ka, kb, t - 1);
        let k = t - 1;
        assert(pa[i][k] == if k < ka { a[i][k] } else { 0 });
        assert(pb[k][j] == if k < kb { b[k][j] } else { 0 });
        if k >= ka || k >= kb {
            assert(pa[i][k] * pb[k][j] == 0) by (nonlinear_arith)
                requires
                    pa[i][k] == 0 || pb[k][j] == 0,
            ;
        }
    }
}


/// Wrapping addition is addition modulo the word size.
pub proof fn lemma_wrapping_add(x: i64, y: i64)
    ensures
        cong(vstd::wrapping::i64_specs::wrapping_add(x, y) as int, x + y),
        cong(vstd::wrapping::i64_specs::wrapping_sub(x, y) as int, x - y),
{
    lemma_mod_add_multiples_vanish(x + y - word(), word());
    lemma_mod_sub_multiples_vanish(x + y + word(), word());
    lemma_mod_add_multiples_vanish(x - y - word(), word());
    lemma_mod_sub_multiples_vanish(x - y + word(), word());
}

/// Wrapping multiplication is multiplication modulo the word size.
pub proof fn lemma_wrapping_mul(x: i64, y: i64)
    ensures
        cong(vstd::wrapping::i64_specs::wrapping_mul(x, y) as int, x * y),
{
    let v = x * y;
    let r = v % word();
    lemma_mod_bound(v, word());
    lemma_mod_twice(v, word());
    if r > i64::MAX {
        lemma_mod_sub_multiples_vanish(r, word());
    }
}


/// The cells `(i, j)` with `i, j < h` of `x` and `y` are congruent.
pub open spec fn cong_on(x: IGrid, y: IGrid, h: int) -> bool {
    forall|i: int, j: int| 0 <= i < h && 0 <= j < h ==> cong(#[trigger] x[i][j], y[i][j])
}

/// A product computed from congruent factors is congruent to the product of
/// the exact factors.
pub proof fn lemma_product_cong(r: IGrid, s: IGrid, t: IGrid, x: IGrid, y: IGrid, h: int)
    requires
        forall|i: int, j: int| 0 <= i < h && 0 <= j < h ==> cong(#[trigger] r[i][j], dot(s, t, i, j, h)),
        cong_on(s, x, h),
        cong_on(t, y, h),
    ensures
        forall|i: int, j: int| 0 <= i < h && 0 <= j < h ==> cong(#[trigger] r[i][j], dot(x, y, i, j, h)),
{
    assert forall|i: int, j: int| 0 <= i < h && 0 <= j < h implies cong(#[trigger] r[i][j], dot(x, y, i, j, h)) by {
        assert forall|k: int| 0 <= k < h implies cong(#[trigger] s[i][k], x[i][k]) by {}
        assert forall|k: int| 0 <= k < h implies cong(#[trigger] t[k][j], y[k][j]) by {}
        lemma_dot_cong(s, t, x, y, i, j, h);
    }
}

/// Strassen's seven products, combined, give the four quarters of the
/// product, modulo the word size.
pub proof fn lemma_strassen_cong(
    a: IGrid,
    b: IGrid,
    h: int,
    m1: IGrid,
    m2: IGrid,
    m3: IGrid,
    m4: IGrid,
    m5: IGrid,
    m6: IGrid,
    m7: IGrid,
    c11: IGrid,
    c12: IGrid,
    c21: IGrid,
    c22: IGrid,
    u11: IGrid,
    v11: IGrid,
    u22: IGrid,
    v22: IGrid,
)
    requires
        h >= 1,
        forall|i: int, j: int| 0 <= i < h && 0 <= j < h ==> cong(#[trigger] m1[i][j], strassen_terms(a, b, h, i, j).0),
        forall|i: int, j: int| 0 <= i < h && 0 <= j < h ==> cong(#[trigger] m2[i][j], strassen_terms(a, b, h, i, j).1),
        forall|i: int, j: int| 0 <= i < h && 0 <= j < h ==> cong(#[trigger] m3[i][j], strassen_terms(a, b, h, i, j).2),
        forall|i: int, j: int| 0 <= i < h && 0 <= j < h ==> cong(#[trigger] m4[i][j], strassen_terms(a, b, h, i, j).3),
        forall|i: int, j: int| 0 <= i < h && 0 <= j < h ==> cong(#[trigger] m5[i][j], strassen_terms(a, b, h, i, j).4),
        forall|i: int, j: int| 0 <= i < h && 0 <= j < h ==> cong(#[trigger] m6[i][j], strassen_terms(a, b, h, i, j).5),
        forall|i: int, j: int| 0 <= i < h && 0 <= j < h ==> cong(#[trigger] m7[i][j], strassen_terms(a, b, h, i, j).6),
        cong_on(u11, plus(m1, m4), h),
        cong_on(v11, minus(m5, m7), h),
        cong_on(c11, minus(u11, v11), h),
        cong_on(c12, plus(m3, m5), h),
        cong_on(c21, plus(m2, m4), h),
        cong_on(u22, minus(m1, m2), h),
        cong_on(v22, plus(m3, m6), h),
        cong_on(c22, plus(u22, v22), h),
        shaped(m1, h, h),
        shaped(m2, h, h),
        shaped(m3, h, h),
        shaped(m4, h, h),
        shaped(m5, h, h),
        shaped(m6, h, h),
        shaped(m7, h, h),
        shaped(u11, h, h),
        shaped(v11, h, h),
        shaped(u22, h, h),
        shaped(v22, h, h),
    ensures
        forall|i: int, j: int| 0 <= i < h && 0 <= j < h ==> cong(#[trigger] c11[i][j], dot(a, b, i, j, 2 * h)),
        forall|i: int, j: int| 0 <= i < h && 0 <= j < h ==> cong(#[trigger] c12[i][j], dot(a, b, i, h + j, 2 * h)),
        forall|i: int, j: int| 0 <= i < h && 0 <= j < h ==> cong(#[trigger] c21[i][j], dot(a, b, h + i, j, 2 * h)),
        forall|i: int, j: int| 0 <= i < h && 0 <= j < h ==> cong(#[trigger] c22[i][j], dot(a, b, h + i, h + j, 2 * h)),
{
    assert forall|i: int, j: int|
        #![trigger c11[i][j]]
        #![trigger c12[i][j]]
        #![trigger c21[i][j]]
        #![trigger c22[i][j]]
        0 <= i < h && 0 <= j < h implies {
        &&& cong(c11[i][j], dot(a, b, i, j, 2 * h))
        &&& cong(c12[i][j], dot(a, b, i, h + j, 2 * h))
        &&& cong(c21[i][j], dot(a, b, h + i, j, 2 * h))
        &&& cong(c22[i][j], dot(a, b, h + i, h + j, 2 * h))
    } by {
        let t = strassen_terms(a, b, h, i, j);
        lemma_strassen(a, b, h, i, j);
        assert(cong(m1[i][j], t.0));
        assert(cong(m2[i][j], t.1));
        assert(cong(m3[i][j], t.2));
        assert(cong(m4[i][j], t.3));
        assert(cong(m5[i][j], t.4));
        assert(cong(m6[i][j], t.5));
        assert(cong(m7[i][j], t.6));
        assert(cong(u11[i][j], plus(m1, m4)[i][j]));
        assert(cong(v11[i][j], minus(m5, m7)[i][j]));
        assert(cong(c11[i][j], minus(u11, v11)[i][j]));
        assert(cong(c12[i][j], plus(m3, m5)[i][j]));
        assert(cong(c21[i][j], plus(m2, m4)[i][j]));
        assert(cong(u22[i][j], minus(m1, m2)[i][j]));
        assert(cong(v22[i][j], plus(m3, m6)[i][j]));
        assert(cong(c22[i][j], plus(u22, v22)[i][j]));
        assert(plus(m1, m4)[i][j] == m1[i][j] + m4[i][j]);
        assert(minus(m5, m7)[i][j] == m5[i][j] - m7[i][j]);
        assert(minus(u11, v11)[i][j] == u11[i][j] - v11[i][j]);
        assert(plus(m3, m5)[i][j] == m3[i][j] + m5[i][j]);
        assert(plus(m2, m4)[i][j] == m2[i][j] + m4[i][j]);
        assert(minus(m1, m2)[i][j] == m1[i][j] - m2[i][j]);
        assert(plus(m3, m6)[i][j] == m3[i][j] + m6[i][j]);
        assert(plus(u22, v22)[i][j] == u22[i][j] + v22[i][j]);
        lemma_cong_add(m1[i][j], m4[i][j], t.0, t.3);
        lemma_cong_add(m5[i][j], m7[i][j], t.4, t.6);
        lemma_cong_add(m3[i][j], m5[i][j], t.2, t.4);
        lemma_cong_add(m2[i][j], m4[i][j], t.1, t.3);
        lemma_cong_add(m1[i][j], m2[i][j], t.0, t.1);
        lemma_cong_add(m3[i][j], m6[i][j], t.2, t.5);
        lemma_cong_add(u22[i][j], v22[i][j], t.0 - t.1, t.2 + t.5);
        lemma_cong_trans(u11[i][j], m1[i][j] + m4[i][j], t.0 + t.3);
        lemma_cong_trans(v11[i][j], m5[i][j] - m7[i][j], t.4 - t.6);
        lemma_cong_add(u11[i][j], v11[i][j], t.0 + t.3, t.4 - t.6);
        lemma_cong_trans(c11[i][j], u11[i][j] - v11[i][j], (t.0 + t.3) - (t.4 - t.6));
        lemma_cong_trans(u22[i][j], m1[i][j] - m2[i][j], t.0 - t.1);
        lemma_cong_trans(v22[i][j], m3[i][j] + m6[i][j], t.2 + t.5);
        lemma_cong_add(u22[i][j], v22[i][j], t.0 - t.1, t.2 + t.5);
        lemma_cong_trans(c12[i][j], m3[i][j] + m5[i][j], t.2 + t.4);
        lemma_cong_trans(c21[i][j], m2[i][j] + m4[i][j], t.1 + t.3);
        lemma_cong_trans(c22[i][j], u22[i][j] + v22[i][j], (t.0 - t.1) + (t.2 + t.5));
    }
}

pub proof fn lemma_cong_trans(x: int, y: int, z: int)
    requires
        cong(x, y),
        cong(y, z),
    ensures
        cong(x, z),
{
}

} // verus!
