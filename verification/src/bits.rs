//! Bits of natural numbers: the vocabulary in which packed blocks are specified.
use vstd::prelude::*;
use vstd::arithmetic::power2::{
    pow2,
    lemma2_to64,
    lemma_pow2_adds,
    lemma_pow2_pos,
    lemma_pow2_strictly_increases,
    lemma_pow2_unfold,
};
use vstd::arithmetic::div_mod::{
    lemma_basic_div,
    lemma_div_by_multiple,
    lemma_div_denominator,
    lemma_div_multiples_vanish_fancy,
    lemma_fundamental_div_mod,
    lemma_fundamental_div_mod_converse,
    lemma_hoist_over_denominator,
    lemma_mod_breakdown,
    lemma_mod_multiples_vanish,
    lemma_small_mod,
};
use vstd::arithmetic::mul::{lemma_mul_is_associative, lemma_mul_is_commutative};

verus! {

/// Bit `i` of `v`.
pub open spec fn bit(v: nat, i: nat) -> bool {
    (v / pow2(i)) % 2 == 1
}

/// The number held by the `w` bits of `v` that start at bit `s`.
pub open spec fn field(v: nat, s: nat, w: nat) -> nat {
    (v / pow2(s)) % pow2(w)
}

/// `2^128`, the weight of the high word of a 256-bit block.
pub open spec fn word_base() -> nat {
    0x1_0000_0000_0000_0000_0000_0000_0000_0000nat
}

/// The value of the 256-bit number with high word `hi` and low word `lo`.
pub open spec fn from_words_value(hi: nat, lo: nat) -> nat {
    hi * word_base() + lo
}

/// `2^128` and `2^256` as the powers of two they are.
pub proof fn lemma_word_powers()
    ensures
        pow2(128) == word_base(),
        pow2(256) == word_base() * word_base(),
        pow2(64) == 0x1_0000_0000_0000_0000,
        pow2(32) == 0x1_0000_0000,
        pow2(8) == 256,
        pow2(4) == 16,
{
    lemma2_to64();
    lemma_pow2_adds(64, 64);
    lemma_pow2_adds(128, 128);
}

/// Bit `i` of `v / 2^k` is bit `i + k` of `v`.
pub proof fn lemma_bit_of_quotient(v: nat, k: nat, i: nat)
    ensures
        bit(v / pow2(k), i) == bit(v, i + k),
        v / pow2(k) / pow2(i) == v / pow2(i + k),
{
    lemma_pow2_pos(k);
    lemma_pow2_pos(i);
    lemma_div_denominator(v as int, pow2(k) as int, pow2(i) as int);
    lemma_pow2_adds(k, i);
}

/// A number below `2^n` has no bit at or above `n`.
pub proof fn lemma_bit_above(v: nat, n: nat, i: nat)
    requires
        v < pow2(n),
        n <= i,
    ensures
        !bit(v, i),
        v / pow2(i) == 0,
{
    if n < i {
        lemma_pow2_strictly_increases(n, i);
    }
    lemma_basic_div(v as int, pow2(i) as int);
}

/// Two numbers below `2^n` with the same low `n` bits are equal.
pub proof fn lemma_bits_determine(a: nat, b: nat, n: nat)
    requires
        a < pow2(n),
        b < pow2(n),
        forall|i: nat| i < n ==> bit(a, i) == bit(b, i),
    ensures
        a == b,
    decreases n,
{
    lemma2_to64();
    if n == 0 {
    } else {
        assert(bit(a, 0) == bit(b, 0));
        lemma_pow2_unfold(n);
        let m = (n - 1) as nat;
        assert forall|i: nat| i < m implies #[trigger] bit(a / 2, i) == bit(b / 2, i) by {
            lemma_bit_of_quotient(a, 1, i);
            lemma_bit_of_quotient(b, 1, i);
            assert(bit(a, i + 1) == bit(b, i + 1));
        }
        lemma_bits_determine(a / 2, b / 2, m);
    }
}

/// The bits of `v % 2^n` are the low `n` bits of `v`.
pub proof fn lemma_bit_of_mod(v: nat, n: nat, i: nat)
    ensures
        bit(v % pow2(n), i) == (i < n && bit(v, i)),
{
    lemma_pow2_pos(n);
    let q = v / pow2(n);
    let r = v % pow2(n);
    lemma_fundamental_div_mod(v as int, pow2(n) as int);
    if i < n {
        let d = (n - i) as nat;
        lemma_pow2_adds(i, d);
        lemma_pow2_pos(i);
        lemma_pow2_pos(d);
        lemma_pow2_unfold(d);
        let e = pow2((d - 1) as nat);
        // v == 2^i * (q * 2^d) + r
        assert(pow2(n) * q == pow2(i) * (q * pow2(d))) by {
            lemma_mul_is_associative(pow2(i) as int, pow2(d) as int, q as int);
            lemma_mul_is_commutative(pow2(d) as int, q as int);
        }
        lemma_hoist_over_denominator(r as int, (q * pow2(d)) as int, pow2(i));
        assert((r as int + (q * pow2(d)) as int * pow2(i) as int) == v) by {
            lemma_mul_is_commutative((q * pow2(d)) as int, pow2(i) as int);
        }
        // v / 2^i == r / 2^i + 2 * (q * e)
        assert(q * pow2(d) == 2 * (q * e)) by {
            lemma_mul_is_associative(q as int, 2, e as int);
            lemma_mul_is_commutative(q as int, 2);
            lemma_mul_is_associative(2, q as int, e as int);
        }
        lemma_mod_multiples_vanish((q * e) as int, (r / pow2(i)) as int, 2);
    } else {
        lemma_bit_above(r, n, i);
    }
}

/// The bits of `2^n - 1` are exactly the `n` lowest ones.
pub proof fn lemma_bit_of_mask(n: nat, i: nat)
    ensures
        bit((pow2(n) - 1) as nat, i) == (i < n),
{
    lemma_pow2_pos(n);
    if i < n {
        let d = (n - i) as nat;
        lemma_pow2_adds(i, d);
        lemma_pow2_pos(i);
        lemma_pow2_pos(d);
        lemma_pow2_unfold(d);
        let x = (pow2(n) - 1) as int;
        let q = pow2(d) - 1;
        let r = pow2(i) - 1;
        let a = pow2(i) as int;
        let b = pow2(d) as int;
        assert(a * (b - 1) + (a - 1) == a * b - 1) by (nonlinear_arith);
        assert(x == pow2(i) * q + r);
        lemma_fundamental_div_mod_converse(x, pow2(i) as int, q, r);
        let e = pow2((d - 1) as nat);
        assert(q == 2 * (e - 1) + 1);
        lemma_mod_multiples_vanish(e - 1, 1, 2);
    } else {
        lemma_bit_above((pow2(n) - 1) as nat, n, i);
    }
}

/// The bits of `x * 2^k` are those of `x`, moved up by `k`.
pub proof fn lemma_bit_of_shifted(x: nat, k: nat, i: nat)
    ensures
        bit(x * pow2(k), i) == (k <= i && bit(x, (i - k) as nat)),
{
    lemma_pow2_pos(k);
    lemma_pow2_pos(i);
    if k <= i {
        let d = (i - k) as nat;
        lemma_pow2_adds(k, d);
        lemma_pow2_pos(d);
        lemma_div_denominator((x * pow2(k)) as int, pow2(k) as int, pow2(d) as int);
        lemma_div_by_multiple(x as int, pow2(k) as int);
    } else {
        let d = (k - i) as nat;
        lemma_pow2_adds(i, d);
        lemma_pow2_pos(d);
        lemma_pow2_unfold(d);
        let e = pow2((d - 1) as nat);
        assert(x * pow2(k) == (x * pow2(d)) * pow2(i)) by {
            lemma_mul_is_associative(x as int, pow2(d) as int, pow2(i) as int);
            lemma_mul_is_commutative(pow2(d) as int, pow2(i) as int);
        }
        lemma_div_by_multiple((x * pow2(d)) as int, pow2(i) as int);
        assert(x * pow2(d) == 2 * (x * e)) by {
            lemma_mul_is_associative(x as int, 2, e as int);
            lemma_mul_is_commutative(x as int, 2);
            lemma_mul_is_associative(2, x as int, e as int);
        }
        lemma_mod_multiples_vanish((x * e) as int, 0, 2);
    }
}

/// The bits of a 256-bit number are those of its low word, then those of its high word.
pub proof fn lemma_bit_of_words(hi: nat, lo: nat, i: nat)
    requires
        lo < word_base(),
    ensures
        bit(from_words_value(hi, lo), i) == if i < 128 {
            bit(lo, i)
        } else {
            bit(hi, (i - 128) as nat)
        },
        from_words_value(hi, lo) % pow2(128) == lo,
        from_words_value(hi, lo) / pow2(128) == hi,
{
    lemma_word_powers();
    let v = from_words_value(hi, lo);
    assert(v == word_base() * hi + lo) by {
        lemma_mul_is_commutative(hi as int, word_base() as int);
    }
    lemma_mod_multiples_vanish(hi as int, lo as int, word_base() as int);
    lemma_small_mod(lo, word_base());
    lemma_div_multiples_vanish_fancy(hi as int, lo as int, word_base() as int);
    if i < 128 {
        lemma_bit_of_mod(v, 128, i);
    } else {
        lemma_bit_of_quotient(v, 128, (i - 128) as nat);
    }
}

/// The `w`-bit field at `s` of a number is determined by the bits `s .. s + w` of it.
pub proof fn lemma_bit_of_field(v: nat, s: nat, w: nat, j: nat)
    ensures
        bit(field(v, s, w), j) == (j < w && bit(v, s + j)),
{
    lemma_bit_of_mod(v / pow2(s), w, j);
    lemma_bit_of_quotient(v, s, j);
}

/// A field fits in its width.
pub proof fn lemma_field_fits(v: nat, s: nat, w: nat)
    ensures
        field(v, s, w) < pow2(w),
{
    lemma_pow2_pos(w);
}

/// Chunk `i` of `x`, the chunks being `w` bits wide.
pub open spec fn chunk_of(x: nat, i: nat, w: nat) -> nat {
    field(x, i * w, w)
}

/// The low `t` chunks of `x`: `x` modulo `2^(t * w)`.
pub open spec fn low_chunks(x: nat, t: nat, w: nat) -> nat {
    x % pow2(t * w)
}

/// `c` copies of `z`, one per chunk of width `w`.
pub open spec fn spaced(z: nat, w: nat, c: nat) -> nat
    decreases c,
{
    if c == 0 {
        0
    } else {
        spaced(z, w, (c - 1) as nat) * pow2(w) + z
    }
}

/// Chunk `t` extends the low `t` chunks.
pub proof fn lemma_low_step(x: nat, t: nat, w: nat)
    ensures
        low_chunks(x, t + 1, w) == low_chunks(x, t, w) + pow2(t * w) * chunk_of(x, t, w),
{
    assert((t + 1) * w == t * w + w) by (nonlinear_arith);
    lemma_pow2_adds(t * w, w);
    lemma_pow2_pos(t * w);
    lemma_pow2_pos(w);
    lemma_mod_breakdown(x as int, pow2(t * w) as int, pow2(w) as int);
}

/// The chunks of `x` and `y` less those of `l`, chunk by chunk: where each
/// stays within a chunk, the low chunks stay within their width too.
pub proof fn lemma_low_sum_range(x: nat, y: nat, l: nat, w: nat, t: nat)
    requires
        forall|i: nat|
            i < t ==> chunk_of(l, i, w) <= #[trigger] chunk_of(x, i, w) + chunk_of(y, i, w) < chunk_of(l, i, w)
                + pow2(w),
    ensures
        low_chunks(l, t, w) <= low_chunks(x, t, w) + low_chunks(y, t, w) < low_chunks(l, t, w) + pow2(t * w),
    decreases t,
{
    if t == 0 {
        assert(pow2(0) == 1) by {
            lemma2_to64();
        }
    } else {
        let s = (t - 1) as nat;
        lemma_low_sum_range(x, y, l, w, s);
        lemma_low_step(x, s, w);
        lemma_low_step(y, s, w);
        lemma_low_step(l, s, w);
        assert(chunk_of(l, s, w) <= chunk_of(x, s, w) + chunk_of(y, s, w));
        let p = pow2(s * w);
        let b = pow2(w);
        let d = chunk_of(x, s, w) + chunk_of(y, s, w) - chunk_of(l, s, w);
        let e = low_chunks(x, s, w) + low_chunks(y, s, w) - low_chunks(l, s, w);
        assert((s + 1) * w == s * w + w) by (nonlinear_arith);
        lemma_pow2_adds(s * w, w);
        assert(0 <= p * d + e < p * b) by (nonlinear_arith)
            requires
                0 <= d < b,
                0 <= e < p,
        ;
        assert(p * chunk_of(x, s, w) + p * chunk_of(y, s, w) - p * chunk_of(l, s, w) == p * d) by (nonlinear_arith)
            requires
                d == chunk_of(x, s, w) + chunk_of(y, s, w) - chunk_of(l, s, w),
        ;
    }
}

/// Under the same condition, the low chunks of `x + y - l` are the low chunks
/// of `x` and `y` less those of `l`.
pub proof fn lemma_low_sum(x: nat, y: nat, l: nat, w: nat, t: nat)
    requires
        x + y >= l,
        forall|i: nat|
            i < t ==> chunk_of(l, i, w) <= #[trigger] chunk_of(x, i, w) + chunk_of(y, i, w) < chunk_of(l, i, w)
                + pow2(w),
    ensures
        low_chunks((x + y - l) as nat, t, w) == low_chunks(x, t, w) + low_chunks(y, t, w) - low_chunks(l, t, w),
{
    lemma_low_sum_range(x, y, l, w, t);
    let p = pow2(t * w) as int;
    lemma_pow2_pos(t * w);
    lemma_fundamental_div_mod(x as int, p);
    lemma_fundamental_div_mod(y as int, p);
    lemma_fundamental_div_mod(l as int, p);
    let q = x as int / p + y as int / p - l as int / p;
    let e = low_chunks(x, t, w) + low_chunks(y, t, w) - low_chunks(l, t, w);
    assert((x + y - l) as nat == q * p + e) by (nonlinear_arith)
        requires
            x == p * (x as int / p) + x as int % p,
            y == p * (y as int / p) + y as int % p,
            l == p * (l as int / p) + l as int % p,
            q == x as int / p + y as int / p - l as int / p,
            e == x as int % p + y as int % p - l as int % p,
            x + y >= l,
    ;
    lemma_fundamental_div_mod_converse((x + y - l) as int, p, q, e);
}

/// Where every chunk of `x` and `y` less that of `l` stays within a chunk,
/// each chunk of `x + y - l` is that difference.
pub proof fn lemma_chunk_sum(x: nat, y: nat, l: nat, w: nat, t: nat, i: nat)
    requires
        x + y >= l,
        i < t,
        forall|i: nat|
            i < t ==> chunk_of(l, i, w) <= #[trigger] chunk_of(x, i, w) + chunk_of(y, i, w) < chunk_of(l, i, w)
                + pow2(w),
    ensures
        chunk_of((x + y - l) as nat, i, w) == chunk_of(x, i, w) + chunk_of(y, i, w) - chunk_of(l, i, w),
{
    let c = (x + y - l) as nat;
    lemma_low_sum(x, y, l, w, i);
    lemma_low_sum(x, y, l, w, i + 1);
    lemma_low_step(c, i, w);
    lemma_low_step(x, i, w);
    lemma_low_step(y, i, w);
    lemma_low_step(l, i, w);
    assert(chunk_of(l, i, w) <= chunk_of(x, i, w) + chunk_of(y, i, w));
    let p = pow2(i * w);
    lemma_pow2_pos(i * w);
    let d = chunk_of(x, i, w) + chunk_of(y, i, w) - chunk_of(l, i, w);
    assert(p * chunk_of(c, i, w) == p * d) by (nonlinear_arith)
        requires
            p * chunk_of(c, i, w) == p * chunk_of(x, i, w) + p * chunk_of(y, i, w) - p * chunk_of(l, i, w),
            d == chunk_of(x, i, w) + chunk_of(y, i, w) - chunk_of(l, i, w),
    ;
    assert(chunk_of(c, i, w) == d) by (nonlinear_arith)
        requires
            p * chunk_of(c, i, w) == p * d,
            p > 0,
    ;
}

/// A number below `2^(t * w)` is its own low `t` chunks.
pub proof fn lemma_low_all(x: nat, t: nat, w: nat)
    requires
        x < pow2(t * w),
    ensures
        low_chunks(x, t, w) == x,
{
    lemma_small_mod(x, pow2(t * w));
}

/// Every chunk of `c` copies of `z` is `z`.
pub proof fn lemma_spaced_chunk(z: nat, w: nat, c: nat, i: nat)
    requires
        z < pow2(w),
        i < c,
    ensures
        chunk_of(spaced(z, w, c), i, w) == z,
    decreases c,
{
    let x = spaced(z, w, (c - 1) as nat);
    let b = pow2(w);
    let v = spaced(z, w, c);
    lemma_pow2_pos(w);
    assert(v == x * b + z);
    lemma_fundamental_div_mod_converse(v as int, b as int, x as int, z as int);
    if i == 0 {
        assert(pow2(0) == 1) by {
            lemma2_to64();
        }
        assert(0 * w == 0);
        assert(v / 1 == v);
    } else {
        let j = (i - 1) as nat;
        assert(i * w == w + j * w) by (nonlinear_arith)
            requires
                i == j + 1,
        ;
        lemma_pow2_adds(w, j * w);
        lemma_pow2_pos(j * w);
        lemma_div_denominator(v as int, b as int, pow2(j * w) as int);
        lemma_spaced_chunk(z, w, (c - 1) as nat, j);
    }
}

} // verus!
