//! Products of unknown values packed in a register, one power per chunk.
use vstd::prelude::*;
use vstd::arithmetic::power2::{pow2, lemma_pow2_pos, lemma_pow2_unfold};
use vstd::arithmetic::div_mod::lemma_fundamental_div_mod;
use vstd::arithmetic::mul::{lemma_mul_inequality, lemma_mul_is_commutative};
use crate::bits::{chunk_of, lemma_chunk_sum, lemma_low_all, lemma_low_sum_range, lemma_spaced_chunk, lemma_word_powers};
use crate::mathfn::{Sign, Signed, inner, sign_of};
use crate::swar::{Block, Chunk, SWAR, chunk_at};

verus! {

/// A product of unknown values represented within a register. Each chunk holds
/// the power of one value, biased by the chunk's zero.
///
/// To represent `a * b.pow(2) / c` in an `I32x4`:
/// `a.pow(1) * b.pow(2) * c.pow(-1) * ... * h.pow(0)`, which is the abstract
/// `[1, 2, -1, 0, 0, 0, 0, 0]`.
#[derive(Clone, Copy)]
pub struct Register<U: SWAR>(pub U::Block);

/// How many chunks a register of `U` holds.
pub open spec fn chunk_count<U: SWAR>() -> nat {
    <U::Block as Block>::width() / <U::Chunk as Chunk>::width()
}

/// The value that stands for zero in a chunk of `U`.
pub open spec fn chunk_zero<U: SWAR>() -> nat {
    pow2(<U::Chunk as Chunk>::width()) / 2
}

/// `Register::mul` stays inside the block: the sum of the biased powers,
/// biased once, is neither below zero nor past the width.
pub open spec fn mul_fits(a: nat, b: nat, lev: nat, limit: nat) -> bool {
    lev <= a + b && a + b - lev < limit
}

/// What `Register::mul` computes on the blocks: the sum of the biased powers,
/// biased once.
pub open spec fn mul_value(a: nat, b: nat, lev: nat) -> nat {
    (a + b - lev) as nat
}

/// `Register::div` stays inside the block: the difference of the biased
/// powers, biased once, is neither below zero nor past the width.
pub open spec fn div_fits(a: nat, b: nat, lev: nat, limit: nat) -> bool {
    b <= a + lev && a + lev - b < limit
}

/// What `Register::div` computes on the blocks: the difference of the biased
/// powers, biased once.
pub open spec fn div_value(a: nat, b: nat, lev: nat) -> nat {
    (a + lev - b) as nat
}

/// The power of unknown `i` in `block`: its chunk less the chunk's zero.
pub open spec fn power_at<U: SWAR>(block: U::Block, i: nat) -> int {
    chunk_at::<U>(block, i) - chunk_zero::<U>()
}

/// A power that a chunk of `U` can hold.
pub open spec fn power_fits<U: SWAR>(p: int) -> bool {
    -(chunk_zero::<U>() as int) <= p < chunk_zero::<U>()
}

/// Each chunk of `ZERO` is the chunk's zero, which is half the chunk's range.
proof fn lemma_zero_chunk<U: SWAR>(i: nat)
    requires
        i < chunk_count::<U>(),
    ensures
        chunk_of(<U::Block as Block>::leverage(), i, <U::Chunk as Chunk>::width()) == chunk_zero::<U>(),
        chunk_zero::<U>() * 2 == pow2(<U::Chunk as Chunk>::width()),
{
    let w = <U::Chunk as Chunk>::width();
    <U::Chunk as Chunk>::lemma_width();
    U::lemma_zero_chunks();
    lemma_pow2_unfold(w);
    lemma_pow2_pos((w - 1) as nat);
    lemma_spaced_chunk(pow2(w) / 2, w, chunk_count::<U>(), i);
}

/// Chunk by chunk, `x + y - l` holds the chunks of `x` and `y` less those of
/// `l`, wherever each such difference stays within a chunk.
proof fn lemma_chunkwise<U: SWAR>(x: nat, y: nat, l: nat)
    requires
        x < pow2(<U::Block as Block>::width()),
        y < pow2(<U::Block as Block>::width()),
        l < pow2(<U::Block as Block>::width()),
        forall|i: nat|
            i < chunk_count::<U>() ==> chunk_of(l, i, <U::Chunk as Chunk>::width()) <= #[trigger] chunk_of(
                x,
                i,
                <U::Chunk as Chunk>::width(),
            ) + chunk_of(y, i, <U::Chunk as Chunk>::width()) < chunk_of(l, i, <U::Chunk as Chunk>::width())
                + pow2(<U::Chunk as Chunk>::width()),
    ensures
        x + y >= l,
        x + y - l < pow2(<U::Block as Block>::width()),
        forall|i: nat|
            i < chunk_count::<U>() ==> #[trigger] chunk_of((x + y - l) as nat, i, <U::Chunk as Chunk>::width())
                == chunk_of(x, i, <U::Chunk as Chunk>::width()) + chunk_of(y, i, <U::Chunk as Chunk>::width())
                - chunk_of(l, i, <U::Chunk as Chunk>::width()),
{
    let w = <U::Chunk as Chunk>::width();
    let bw = <U::Block as Block>::width();
    let t = chunk_count::<U>();
    <U::Chunk as Chunk>::lemma_width();
    U::lemma_zero_chunks();
    lemma_fundamental_div_mod(bw as int, w as int);
    lemma_mul_is_commutative(t as int, w as int);
    assert(t * w == bw);
    lemma_low_sum_range(x, y, l, w, t);
    lemma_low_all(x, t, w);
    lemma_low_all(y, t, w);
    lemma_low_all(l, t, w);
    assert forall|i: nat| i < t implies #[trigger] chunk_of((x + y - l) as nat, i, w) == chunk_of(x, i, w) + chunk_of(
        y,
        i,
        w,
    ) - chunk_of(l, i, w) by {
        lemma_chunk_sum(x, y, l, w, t, i);
    }
}

/// Where every sum of the powers of two registers is a power that a chunk
/// can hold, their product is defined: it stays inside the block.
pub proof fn lemma_powers_fit_mul<U: SWAR>(a: Register<U>, b: Register<U>)
    requires
        forall|i: nat| i < chunk_count::<U>() ==> power_fits::<U>(#[trigger] power_at::<U>(a.0, i) + power_at::<U>(b.0, i)),
    ensures
        mul_fits(a.0.val(), b.0.val(), <U::Block as Block>::leverage(), pow2(<U::Block as Block>::width())),
{
    let w = <U::Chunk as Chunk>::width();
    let lev = <U::Block as Block>::leverage();
    a.0.lemma_fits();
    b.0.lemma_fits();
    assert forall|i: nat| i < chunk_count::<U>() implies chunk_of(lev, i, w) <= #[trigger] chunk_of(a.0.val(), i, w)
        + chunk_of(b.0.val(), i, w) < chunk_of(lev, i, w) + pow2(w) by {
        lemma_zero_chunk::<U>(i);
        assert(power_fits::<U>(power_at::<U>(a.0, i) + power_at::<U>(b.0, i)));
    }
    lemma_chunkwise::<U>(a.0.val(), b.0.val(), lev);
}

/// Where every difference of the powers of two registers is a power that a
/// chunk can hold, their quotient is defined: it stays inside the block.
pub proof fn lemma_powers_fit_div<U: SWAR>(a: Register<U>, b: Register<U>)
    requires
        forall|i: nat| i < chunk_count::<U>() ==> power_fits::<U>(#[trigger] power_at::<U>(a.0, i) - power_at::<U>(b.0, i)),
    ensures
        div_fits(a.0.val(), b.0.val(), <U::Block as Block>::leverage(), pow2(<U::Block as Block>::width())),
{
    let w = <U::Chunk as Chunk>::width();
    let lev = <U::Block as Block>::leverage();
    a.0.lemma_fits();
    b.0.lemma_fits();
    assert forall|i: nat| i < chunk_count::<U>() implies chunk_of(b.0.val(), i, w) <= #[trigger] chunk_of(a.0.val(), i, w)
        + chunk_of(lev, i, w) < chunk_of(b.0.val(), i, w) + pow2(w) by {
        lemma_zero_chunk::<U>(i);
        assert(power_fits::<U>(power_at::<U>(a.0, i) - power_at::<U>(b.0, i)));
    }
    lemma_chunkwise::<U>(a.0.val(), lev, b.0.val());
}

impl<U: SWAR> Register<U> {
    /// The abstract powers: each chunk, with its zero taken off.
    pub fn to_vec(self) -> (r: Vec<i32>)
        ensures
            r.len() == chunk_count::<U>(),
            forall|i: int|
                0 <= i < r.len() ==> r[i] == chunk_at::<U>(self.0, i as nat) - chunk_zero::<U>(),
    {
        let ghost w = <U::Chunk as Chunk>::width();
        let ghost bw = <U::Block as Block>::width();
        proof {
            self.0.lemma_fits();
            <U::Chunk as Chunk>::lemma_width();
            lemma_word_powers();
            lemma_fundamental_div_mod(bw as int, w as int);
        }
        let mut result: Vec<i32> = Vec::new();
        let count = <U::Block as Block>::bits() / <U::Chunk as Chunk>::bits();
        let mut idx: u32 = 0;
        while idx < count
            invariant
                w == <U::Chunk as Chunk>::width(),
                bw == <U::Block as Block>::width(),
                4 <= w <= 8,
                32 <= bw <= 256,
                count == chunk_count::<U>(),
                bw == w * (bw / w) + bw % w,
                0 <= bw % w,
                idx <= count,
                result.len() == idx,
                forall|i: int|
                    0 <= i < idx ==> result[i] == chunk_at::<U>(self.0, i as nat) - chunk_zero::<
                        U,
                    >(),
            decreases count - idx,
        {
            proof {
                lemma_mul_inequality((idx + 1) as int, count as int, w as int);
                lemma_mul_is_commutative(count as int, w as int);
            }
            let c = U::get(self.0, idx);
            let z = <U::Chunk as Chunk>::zero();
            proof {
                c.lemma_fits();
                lemma_word_powers();
                lemma_pow2_pos(w);
                if w == 4 {
                    assert(pow2(w) == 16);
                } else {
                    assert(pow2(w) <= pow2(8)) by {
                        if w < 8 {
                            vstd::arithmetic::power2::lemma_pow2_strictly_increases(w, 8);
                        }
                    }
                }
            }
            result.push(c.byte() as i32 - z.byte() as i32);
            idx = idx + 1;
        }
        result
    }

    /// Where every sum of powers fits in a chunk, the block of the product
    /// holds, chunk by chunk, the sums of the powers.
    proof fn lemma_mul_powers(self, rhs: Self, r: Self)
        requires
            r.0.val() == mul_value(self.0.val(), rhs.0.val(), <U::Block as Block>::leverage()),
        ensures
            (forall|i: nat|
                i < chunk_count::<U>() ==> power_fits::<U>(#[trigger] power_at::<U>(self.0, i) + power_at::<U>(rhs.0, i)))
                ==> {
                &&& self.0.val() + rhs.0.val() >= <U::Block as Block>::leverage()
                &&& forall|i: nat|
                    i < chunk_count::<U>() ==> #[trigger] power_at::<U>(r.0, i) == power_at::<U>(self.0, i) + power_at::<U>(rhs.0, i)
            },
    {
        let w = <U::Chunk as Chunk>::width();
        let lev = <U::Block as Block>::leverage();
        if forall|i: nat|
            i < chunk_count::<U>() ==> power_fits::<U>(#[trigger] power_at::<U>(self.0, i) + power_at::<U>(rhs.0, i)) {
            self.0.lemma_fits();
            rhs.0.lemma_fits();
            assert forall|i: nat| i < chunk_count::<U>() implies chunk_of(lev, i, w) <= #[trigger] chunk_of(
                self.0.val(),
                i,
                w,
            ) + chunk_of(rhs.0.val(), i, w) < chunk_of(lev, i, w) + pow2(w) by {
                lemma_zero_chunk::<U>(i);
                assert(power_fits::<U>(power_at::<U>(self.0, i) + power_at::<U>(rhs.0, i)));
            }
            lemma_chunkwise::<U>(self.0.val(), rhs.0.val(), lev);
            assert forall|i: nat| i < chunk_count::<U>() implies #[trigger] power_at::<U>(r.0, i) == power_at::<U>(self.0, i) + power_at::<U>(rhs.0, i) by {
                lemma_zero_chunk::<U>(i);
                assert(chunk_at::<U>(r.0, i) == chunk_of(r.0.val(), i, w));
            }
        }
    }

    /// Where every difference of powers fits in a chunk, the block of the
    /// quotient holds, chunk by chunk, the differences of the powers.
    proof fn lemma_div_powers(self, rhs: Self, r: Self)
        requires
            r.0.val() == div_value(self.0.val(), rhs.0.val(), <U::Block as Block>::leverage()),
        ensures
            (forall|i: nat|
                i < chunk_count::<U>() ==> power_fits::<U>(#[trigger] power_at::<U>(self.0, i) - power_at::<U>(rhs.0, i)))
                ==> {
                &&& self.0.val() + <U::Block as Block>::leverage() >= rhs.0.val()
                &&& forall|i: nat|
                    i < chunk_count::<U>() ==> #[trigger] power_at::<U>(r.0, i) == power_at::<U>(self.0, i) - power_at::<U>(rhs.0, i)
            },
    {
        let w = <U::Chunk as Chunk>::width();
        let lev = <U::Block as Block>::leverage();
        if forall|i: nat|
            i < chunk_count::<U>() ==> power_fits::<U>(#[trigger] power_at::<U>(self.0, i) - power_at::<U>(rhs.0, i)) {
            self.0.lemma_fits();
            rhs.0.lemma_fits();
            assert forall|i: nat| i < chunk_count::<U>() implies chunk_of(rhs.0.val(), i, w) <= #[trigger] chunk_of(
                self.0.val(),
                i,
                w,
            ) + chunk_of(lev, i, w) < chunk_of(rhs.0.val(), i, w) + pow2(w) by {
                lemma_zero_chunk::<U>(i);
                assert(power_fits::<U>(power_at::<U>(self.0, i) - power_at::<U>(rhs.0, i)));
            }
            lemma_chunkwise::<U>(self.0.val(), lev, rhs.0.val());
            assert forall|i: nat| i < chunk_count::<U>() implies #[trigger] power_at::<U>(r.0, i) == power_at::<U>(self.0, i) - power_at::<U>(rhs.0, i) by {
                lemma_zero_chunk::<U>(i);
                assert(chunk_at::<U>(r.0, i) == chunk_of(r.0.val(), i, w));
            }
        }
    }

    /// The product of two products: the powers add up.
    ///
    /// The powers are added on the whole block at once, biased by the block's
    /// `ZERO`; no chunk is kept from carrying into the next.
    pub fn mul(self, rhs: Self) -> (r: Self)
        requires
            mul_fits(
                self.0.val(),
                rhs.0.val(),
                <U::Block as Block>::leverage(),
                pow2(<U::Block as Block>::width()),
            ),
        ensures
            r.0.val() == mul_value(self.0.val(), rhs.0.val(), <U::Block as Block>::leverage()),
            (forall|i: nat|
                i < chunk_count::<U>() ==> power_fits::<U>(#[trigger] power_at::<U>(self.0, i) + power_at::<U>(rhs.0, i)))
                ==> forall|i: nat|
                i < chunk_count::<U>() ==> #[trigger] power_at::<U>(r.0, i) == power_at::<U>(self.0, i) + power_at::<U>(
                    rhs.0,
                    i,
                ),
    {
        let lev = <U::Block as Block>::zero();
        let r = if !self.0.less_than(&lev) {
            Register(self.0.minus(lev).plus(rhs.0))
        } else if !rhs.0.less_than(&lev) {
            Register(rhs.0.minus(lev).plus(self.0))
        } else {
            Register(self.0.minus(lev.minus(rhs.0)))
        };
        proof {
            self.lemma_mul_powers(rhs, r);
        }
        r
    }

    /// The quotient of two products: the powers are subtracted, on the whole
    /// block at once as `mul` adds them.
    pub fn div(self, rhs: Self) -> (r: Self)
        requires
            div_fits(
                self.0.val(),
                rhs.0.val(),
                <U::Block as Block>::leverage(),
                pow2(<U::Block as Block>::width()),
            ),
        ensures
            r.0.val() == div_value(self.0.val(), rhs.0.val(), <U::Block as Block>::leverage()),
            (forall|i: nat|
                i < chunk_count::<U>() ==> power_fits::<U>(#[trigger] power_at::<U>(self.0, i) - power_at::<U>(rhs.0, i)))
                ==> forall|i: nat|
                i < chunk_count::<U>() ==> #[trigger] power_at::<U>(r.0, i) == power_at::<U>(self.0, i) - power_at::<U>(
                    rhs.0,
                    i,
                ),
    {
        let lev = <U::Block as Block>::zero();
        let r = if !self.0.less_than(&rhs.0) {
            Register(self.0.minus(rhs.0).plus(lev))
        } else {
            Register(lev.minus(rhs.0.minus(self.0)))
        };
        proof {
            self.lemma_div_powers(rhs, r);
        }
        r
    }
}

/// The block inside a signed register.
pub open spec fn signed_block<U: SWAR>(s: Signed<Register<U>>) -> nat {
    inner(s).0.val()
}

impl<U: SWAR> Signed<Register<U>> {
    /// The signed product: the magnitude is the product of the magnitudes; it
    /// is positive exactly when both signs agree.
    pub fn mul(self, rhs: Self) -> (r: Self)
        requires
            mul_fits(
                signed_block(self),
                signed_block(rhs),
                <U::Block as Block>::leverage(),
                pow2(<U::Block as Block>::width()),
            ),
        ensures
            (sign_of(r) == Sign::Pos) == (sign_of(self) == sign_of(rhs)),
            signed_block(r) == mul_value(
                signed_block(self),
                signed_block(rhs),
                <U::Block as Block>::leverage(),
            ),
    {
        if self.sign() == rhs.sign() {
            Signed::Pos(self.get().mul(rhs.get()))
        } else {
            Signed::Neg(self.get().mul(rhs.get()))
        }
    }

    /// The signed quotient: the magnitude is the quotient of the magnitudes; it
    /// is positive exactly when both signs agree.
    pub fn div(self, rhs: Self) -> (r: Self)
        requires
            div_fits(
                signed_block(self),
                signed_block(rhs),
                <U::Block as Block>::leverage(),
                pow2(<U::Block as Block>::width()),
            ),
        ensures
            (sign_of(r) == Sign::Pos) == (sign_of(self) == sign_of(rhs)),
            signed_block(r) == div_value(
                signed_block(self),
                signed_block(rhs),
                <U::Block as Block>::leverage(),
            ),
    {
        if self.sign() == rhs.sign() {
            Signed::Pos(self.get().div(rhs.get()))
        } else {
            Signed::Neg(self.get().div(rhs.get()))
        }
    }
}

/// The register whose every chunk is at zero is a unit of `Register::mul` on
/// both sides, and the product is then defined for every block.
pub proof fn lemma_mul_zero_is_unit(b: nat, lev: nat, limit: nat)
    requires
        b < limit,
        lev < limit,
    ensures
        mul_fits(lev, b, lev, limit),
        mul_value(lev, b, lev) == b,
        mul_fits(b, lev, lev, limit),
        mul_value(b, lev, lev) == b,
{
}

/// `Register::mul` does not depend on the order of its operands: both orders
/// are defined on the same blocks and give the same block.
pub proof fn lemma_mul_commutes(a: nat, b: nat, lev: nat, limit: nat)
    ensures
        mul_fits(a, b, lev, limit) == mul_fits(b, a, lev, limit),
        mul_value(a, b, lev) == mul_value(b, a, lev),
{
}

/// A register divided by itself gives the register at zero.
pub proof fn lemma_div_by_itself(a: nat, lev: nat, limit: nat)
    requires
        lev < limit,
    ensures
        div_fits(a, a, lev, limit),
        div_value(a, a, lev) == lev,
{
}

} // verus!
