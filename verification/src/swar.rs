//! SIMD within a register: blocks of bits that hold several small independent
//! quantities ("chunks") side by side.
//!
//! Chunks use a biased representation: a chunk of `w` bits holding `c` stands for
//! `c - 2^(w - 1)`, so the block in which every chunk is `2^(w - 1)` (its `ZERO`)
//! stands for all zeros.
use vstd::prelude::*;
use vstd::arithmetic::power2::{pow2, lemma_pow2_adds, lemma_pow2_pos};
use vstd::arithmetic::div_mod::lemma_small_mod;
use vstd::bits::{lemma_u128_shr_is_div, lemma_u32_shr_is_div, lemma_u64_shr_is_div};
use crate::bits::{
    bit,
    field,
    from_words_value,
    word_base,
    lemma_bit_above,
    lemma_bit_of_field,
    lemma_bit_of_mask,
    lemma_bit_of_mod,
    lemma_bit_of_shifted,
    lemma_bit_of_words,
    lemma_bits_determine,
    lemma_field_fits,
    lemma_word_powers,
    spaced,
};
use crate::mathfn::Signed;

verus! {

/// The unsigned type that holds the bits of all the chunks of a register.
pub trait Block: Copy + Sized {
    /// The number of bits of a block.
    spec fn width() -> nat;

    /// The block read as a natural number.
    spec fn val(self) -> nat;

    /// The block whose every chunk holds its own zero.
    spec fn leverage() -> nat;

    /// Every block fits in its width.
    proof fn lemma_fits(self)
        ensures
            self.val() < pow2(Self::width()),
            Self::leverage() < pow2(Self::width()),
            32 <= Self::width() <= 256,
    ;

    /// `BITS`: the number of bits of a block.
    fn bits() -> (r: u32)
        ensures
            r == Self::width(),
    ;

    /// `MAX`: the block with every bit set.
    fn max_value() -> (r: Self)
        ensures
            r.val() == pow2(Self::width()) - 1,
    ;

    /// `ZERO`: the block whose every chunk holds its own zero.
    fn zero() -> (r: Self)
        ensures
            r.val() == Self::leverage(),
    ;

    /// The lowest eight bits, as a byte.
    fn low_byte(&self) -> (r: u8)
        ensures
            r == self.val() % 256,
    ;

    /// The block holding a byte.
    fn from_byte(b: u8) -> (r: Self)
        ensures
            r.val() == b,
    ;

    /// `self >> k`.
    fn shifted_right(self, k: u32) -> (r: Self)
        requires
            k < Self::width(),
        ensures
            r.val() == self.val() / pow2(k as nat),
    ;

    /// `self << k`: the bits move up by `k`, those pushed past the width are lost.
    fn shifted_left(self, k: u32) -> (r: Self)
        requires
            k < Self::width(),
        ensures
            forall|i: nat|
                i < Self::width() ==> #[trigger] bit(r.val(), i) == (k <= i && bit(
                    self.val(),
                    (i - k) as nat,
                )),
    ;

    /// `!self`.
    fn inverted(self) -> (r: Self)
        ensures
            forall|i: nat| i < Self::width() ==> #[trigger] bit(r.val(), i) == !bit(self.val(), i),
    ;

    /// `self & rhs`.
    fn and_with(self, rhs: Self) -> (r: Self)
        ensures
            forall|i: nat|
                i < Self::width() ==> #[trigger] bit(r.val(), i) == (bit(self.val(), i) && bit(
                    rhs.val(),
                    i,
                )),
    ;

    /// `self | rhs`.
    fn or_with(self, rhs: Self) -> (r: Self)
        ensures
            forall|i: nat|
                i < Self::width() ==> #[trigger] bit(r.val(), i) == (bit(self.val(), i) || bit(
                    rhs.val(),
                    i,
                )),
    ;

    /// `self + rhs`, which must not overflow.
    fn plus(self, rhs: Self) -> (r: Self)
        requires
            self.val() + rhs.val() < pow2(Self::width()),
        ensures
            r.val() == self.val() + rhs.val(),
    ;

    /// `self - rhs`, which must not underflow.
    fn minus(self, rhs: Self) -> (r: Self)
        requires
            rhs.val() <= self.val(),
        ensures
            r.val() == self.val() - rhs.val(),
    ;

    /// `self < rhs`.
    fn less_than(&self, rhs: &Self) -> (r: bool)
        ensures
            r == (self.val() < rhs.val()),
    ;

    /// The high and low 128-bit words of the block.
    fn words(&self) -> (r: (u128, u128))
        ensures
            from_words_value(r.0 as nat, r.1 as nat) == self.val(),
    ;

    /// The block with the given high and low 128-bit words.
    fn from_words(hi: u128, lo: u128) -> (r: Self)
        requires
            from_words_value(hi as nat, lo as nat) < pow2(Self::width()),
        ensures
            r.val() == from_words_value(hi as nat, lo as nat),
    ;
}

/// One single independent quantity of a register.
pub trait Chunk: Copy + Sized {
    /// The number of bits of a chunk.
    spec fn width() -> nat;

    /// The chunk read as a natural number.
    spec fn val(self) -> nat;

    /// Every chunk fits in its width.
    proof fn lemma_fits(self)
        ensures
            self.val() < pow2(Self::width()),
    ;

    /// A chunk is four to eight bits wide.
    proof fn lemma_width()
        ensures
            4 <= Self::width() <= 8,
    ;

    /// `BITS`: the number of bits of a chunk.
    fn bits() -> (r: u32)
        ensures
            r == Self::width(),
    ;

    /// `MAX`: the chunk with every bit set.
    fn max_value() -> (r: Self)
        ensures
            r.val() == pow2(Self::width()) - 1,
    ;

    /// `ZERO`: the chunk that stands for zero.
    fn zero() -> (r: Self)
        ensures
            r.val() == pow2(Self::width()) / 2,
    ;

    /// The chunk as a byte.
    fn byte(&self) -> (r: u8)
        ensures
            r == self.val(),
    ;

    /// The chunk holding a byte, which must fit in the chunk.
    fn from_byte(b: u8) -> (r: Self)
        requires
            b < pow2(Self::width()),
        ensures
            r.val() == b,
    ;

    /// `MAX & self`.
    fn masked(self) -> (r: Self)
        ensures
            r.val() == self.val(),
    ;

    /// `self - rhs`, which must not underflow.
    fn minus(self, rhs: Self) -> (r: Self)
        requires
            rhs.val() <= self.val(),
        ensures
            r.val() == self.val() - rhs.val(),
    ;

    /// `self < rhs`.
    fn less_than(&self, rhs: &Self) -> (r: bool)
        ensures
            r == (self.val() < rhs.val()),
    ;

    /// The quantity that the chunk stands for, as a sign and a magnitude.
    fn signed(&self) -> (r: Signed<Self>)
        ensures
            match r {
                Signed::Pos(m) => pow2(Self::width()) / 2 <= self.val() && m.val() == self.val()
                    - pow2(Self::width()) / 2,
                Signed::Neg(m) => self.val() < pow2(Self::width()) / 2 && m.val() == pow2(
                    Self::width(),
                ) / 2 - self.val(),
            },
    {
        let z = Self::zero();
        if self.less_than(&z) {
            Signed::Neg(z.minus(*self))
        } else {
            Signed::Pos(self.minus(z))
        }
    }
}

/// The field that `SWAR::get` reads at chunk `index` of `block`.
pub open spec fn chunk_at<U: SWAR>(block: U::Block, index: nat) -> nat {
    field(block.val(), (index * <U::Chunk as Chunk>::width()) as nat, <U::Chunk as Chunk>::width())
}

/// `new` is `old` with the `w` bits starting at bit `s` replaced by those of `v`.
pub open spec fn chunk_written(old: nat, new: nat, s: nat, w: nat, v: nat, width: nat) -> bool {
    forall|i: nat|
        i < width ==> #[trigger] bit(new, i) == if s <= i < s + w {
            bit(v, (i - s) as nat)
        } else {
            bit(old, i)
        }
}

/// SIMD: 'Single Instruction, Multiple Data'
///
/// SWAR: 'SIMD Within A Register'
///
/// A way of storing multiple data in a single register in order to perform SIMD:
/// a `I32x4` is a 32-bit value where each 4 bits store an independent quantity.
pub trait SWAR: Copy + Sized {
    /// The unsigned type holding the bits of all independent variables.
    type Block: Block;

    /// One single independent variable.
    type Chunk: Chunk;

    /// `ZERO` with any one chunk raised by one still fits in a block.
    proof fn lemma_raise_fits(index: nat)
        requires
            (index + 1) * <Self::Chunk as Chunk>::width() <= <Self::Block as Block>::width(),
        ensures
            <Self::Block as Block>::leverage() + pow2(index * <Self::Chunk as Chunk>::width()) < pow2(
                <Self::Block as Block>::width(),
            ),
    ;

    /// The chunks fill the block, and each chunk of `ZERO` is the middle of
    /// its range.
    proof fn lemma_zero_chunks()
        ensures
            <Self::Block as Block>::width() % <Self::Chunk as Chunk>::width() == 0,
            <Self::Block as Block>::leverage() == spaced(
                pow2(<Self::Chunk as Chunk>::width()) / 2,
                <Self::Chunk as Chunk>::width(),
                <Self::Block as Block>::width() / <Self::Chunk as Chunk>::width(),
            ),
    ;

    /// Chunk `index` of `block`: the block shifted down to the chunk, masked to
    /// the chunk's width, then read as a chunk.
    fn get(block: Self::Block, index: u32) -> (r: Self::Chunk)
        requires
            (index + 1) * <Self::Chunk as Chunk>::width() <= <Self::Block as Block>::width(),
        ensures
            r.val() == field(
                block.val(),
                (index * <Self::Chunk as Chunk>::width()) as nat,
                <Self::Chunk as Chunk>::width(),
            ),
    {
        let ghost w = <Self::Chunk as Chunk>::width();
        let ghost bw = <Self::Block as Block>::width();
        let ghost s = (index * w) as nat;
        proof {
            block.lemma_fits();
            <Self::Chunk as Chunk>::lemma_width();
            lemma_pow2_pos(w);
            assert((index + 1) * w == index * w + w) by (nonlinear_arith);
        }
        let shift = index * <Self::Chunk as Chunk>::bits();
        let shifted = block.shifted_right(shift);
        let ones = <Self::Chunk as Chunk>::max_value();
        let mask = <Self::Block as Block>::from_byte(ones.byte());
        let masked = shifted.and_with(mask);
        proof {
            let x = block.val() / pow2(s);
            shifted.lemma_fits();
            masked.lemma_fits();
            lemma_pow2_pos(bw);
            assert forall|i: nat| i < bw implies #[trigger] bit(masked.val(), i) == bit(
                x % pow2(w),
                i,
            ) by {
                lemma_bit_of_mask(w, i);
                lemma_bit_of_mod(x, w, i);
            }
            assert(x % pow2(w) < pow2(w));
            if w < bw {
                vstd::arithmetic::power2::lemma_pow2_strictly_increases(w, bw);
            }
            lemma_bits_determine(masked.val(), x % pow2(w), bw);
            lemma_word_powers();
            if w < 8 {
                vstd::arithmetic::power2::lemma_pow2_strictly_increases(w, 8);
            }
            lemma_small_mod(masked.val(), 256);
        }
        let low = masked.low_byte();
        <Self::Chunk as Chunk>::from_byte(low)
    }

    /// Replace chunk `index` of `block` by `value`.
    fn set(block: &mut Self::Block, index: u32, value: Self::Chunk)
        requires
            (index + 1) * <Self::Chunk as Chunk>::width() <= <Self::Block as Block>::width(),
        ensures
            chunk_written(
                old(block).val(),
                final(block).val(),
                (index * <Self::Chunk as Chunk>::width()) as nat,
                <Self::Chunk as Chunk>::width(),
                value.val(),
                <Self::Block as Block>::width(),
            ),
            field(
                final(block).val(),
                (index * <Self::Chunk as Chunk>::width()) as nat,
                <Self::Chunk as Chunk>::width(),
            ) == value.val(),
            forall|k: nat|
                (k + 1) * <Self::Chunk as Chunk>::width() <= <Self::Block as Block>::width() && k != index
                    ==> #[trigger] field(
                    final(block).val(),
                    (k * <Self::Chunk as Chunk>::width()) as nat,
                    <Self::Chunk as Chunk>::width(),
                ) == field(old(block).val(), (k * <Self::Chunk as Chunk>::width()) as nat, <Self::Chunk as Chunk>::width()),
    {
        let ghost w = <Self::Chunk as Chunk>::width();
        let ghost bw = <Self::Block as Block>::width();
        let ghost s = (index * w) as nat;
        let ghost before = *block;
        proof {
            before.lemma_fits();
            value.lemma_fits();
            <Self::Chunk as Chunk>::lemma_width();
            assert((index + 1) * w == index * w + w) by (nonlinear_arith);
        }
        let bitshift = index * <Self::Chunk as Chunk>::bits();
        let ones = <Self::Chunk as Chunk>::max_value();
        let bitmask = <Self::Block as Block>::from_byte(ones.byte()).shifted_left(bitshift);
        let cleared = block.and_with(bitmask.inverted());
        let placed = <Self::Block as Block>::from_byte(value.byte()).shifted_left(bitshift);
        *block = cleared.or_with(placed);
        proof {
            assert forall|i: nat| i < bw implies #[trigger] bit(block.val(), i) == if s <= i < s
                + w {
                bit(value.val(), (i - s) as nat)
            } else {
                bit(before.val(), i)
            } by {
                if s <= i {
                    lemma_bit_of_mask(w, (i - s) as nat);
                    if i >= s + w {
                        lemma_bit_above(value.val(), w, (i - s) as nat);
                    }
                }
            }
            lemma_get_after_set(before.val(), block.val(), s, w, value.val(), bw);
            assert forall|k: nat|
                (k + 1) * w <= bw && k != index implies #[trigger] field(block.val(), (k * w) as nat, w) == field(
                before.val(),
                (k * w) as nat,
                w,
            ) by {
                if k < index {
                    assert((k + 1) * w <= index * w) by (nonlinear_arith)
                        requires
                            k + 1 <= index,
                    ;
                } else {
                    assert((index + 1) * w <= k * w) by (nonlinear_arith)
                        requires
                            index + 1 <= k,
                    ;
                }
                assert((k + 1) * w == k * w + w) by (nonlinear_arith);
                lemma_set_keeps_others(before.val(), block.val(), s, w, value.val(), bw, k * w);
            }
        }
    }
}

/// Reading back a chunk that was just written gives the value written.
pub proof fn lemma_get_after_set(old: nat, new: nat, s: nat, w: nat, v: nat, width: nat)
    requires
        chunk_written(old, new, s, w, v, width),
        v < pow2(w),
        s + w <= width,
    ensures
        field(new, s, w) == v,
{
    assert forall|j: nat| j < w implies #[trigger] bit(field(new, s, w), j) == bit(v, j) by {
        lemma_bit_of_field(new, s, w, j);
        assert(bit(new, s + j) == bit(v, j));
    }
    lemma_field_fits(new, s, w);
    lemma_bits_determine(field(new, s, w), v, w);
}

/// Writing a chunk leaves every chunk that does not overlap it unchanged.
pub proof fn lemma_set_keeps_others(
    old: nat,
    new: nat,
    s: nat,
    w: nat,
    v: nat,
    width: nat,
    t: nat,
)
    requires
        chunk_written(old, new, s, w, v, width),
        t + w <= s || s + w <= t,
        t + w <= width,
    ensures
        field(new, t, w) == field(old, t, w),
{
    assert forall|j: nat| j < w implies #[trigger] bit(field(new, t, w), j) == bit(
        field(old, t, w),
        j,
    ) by {
        lemma_bit_of_field(new, t, w, j);
        lemma_bit_of_field(old, t, w, j);
        assert(bit(new, t + j) == bit(old, t + j));
    }
    lemma_field_fits(new, t, w);
    lemma_field_fits(old, t, w);
    lemma_bits_determine(field(new, t, w), field(old, t, w), w);
}

/// Bit `i` of a 32-bit number, read with a shift and a mask.
proof fn lemma_u32_bit(x: u32, i: u32)
    requires
        i < 32,
    ensures
        bit(x as nat, i as nat) == ((x >> i) & 1u32 == 1u32),
{
    lemma_u32_shr_is_div(x, i);
    let y = x >> i;
    assert(y & 1u32 == y % 2) by (bit_vector);
}

impl Block for u32 {
    open spec fn width() -> nat {
        32
    }

    open spec fn val(self) -> nat {
        self as nat
    }

    open spec fn leverage() -> nat {
        0x8888_8888
    }

    proof fn lemma_fits(self) {
        lemma_word_powers();
    }

    fn bits() -> (r: u32) {
        32
    }

    fn max_value() -> (r: Self) {
        proof {
            lemma_word_powers();
        }
        u32::MAX
    }

    fn zero() -> (r: Self) {
        0x8888_8888
    }

    fn low_byte(&self) -> (r: u8) {
        (*self % 256) as u8
    }

    fn from_byte(b: u8) -> (r: Self) {
        b as u32
    }

    fn shifted_right(self, k: u32) -> (r: Self) {
        proof {
            lemma_u32_shr_is_div(self, k);
        }
        self >> k
    }

    fn shifted_left(self, k: u32) -> (r: Self) {
        let r = self << k;
        proof {
            assert forall|i: nat| i < 32 implies #[trigger] bit(r as nat, i) == (k <= i && bit(
                self as nat,
                (i - k) as nat,
            )) by {
                let j = i as u32;
                lemma_u32_bit(r, j);
                if k <= j {
                    let d = (j - k) as u32;
                    lemma_u32_bit(self, d);
                    assert(((self << k) >> j) & 1u32 == (self >> d) & 1u32) by (bit_vector)
                        requires
                            j < 32,
                            k <= j,
                            d == j - k,
                    ;
                } else {
                    assert(((self << k) >> j) & 1u32 == 0u32) by (bit_vector)
                        requires
                            j < k,
                            k < 32,
                    ;
                }
            }
        }
        r
    }

    fn inverted(self) -> (r: Self) {
        let r = !self;
        proof {
            assert forall|i: nat| i < 32 implies #[trigger] bit(r as nat, i) == !bit(
                self as nat,
                i,
            ) by {
                let j = i as u32;
                lemma_u32_bit(r, j);
                lemma_u32_bit(self, j);
                assert(((!self) >> j) & 1u32 == 1u32 <==> (self >> j) & 1u32 != 1u32)
                    by (bit_vector)
                    requires
                        j < 32,
                ;
            }
        }
        r
    }

    fn and_with(self, rhs: Self) -> (r: Self) {
        let r = self & rhs;
        proof {
            assert forall|i: nat| i < 32 implies #[trigger] bit(r as nat, i) == (bit(
                self as nat,
                i,
            ) && bit(rhs as nat, i)) by {
                let j = i as u32;
                lemma_u32_bit(r, j);
                lemma_u32_bit(self, j);
                lemma_u32_bit(rhs, j);
                assert(((self & rhs) >> j) & 1u32 == 1u32 <==> ((self >> j) & 1u32 == 1u32 && (
                rhs >> j) & 1u32 == 1u32)) by (bit_vector);
            }
        }
        r
    }

    fn or_with(self, rhs: Self) -> (r: Self) {
        let r = self | rhs;
        proof {
            assert forall|i: nat| i < 32 implies #[trigger] bit(r as nat, i) == (bit(
                self as nat,
                i,
            ) || bit(rhs as nat, i)) by {
                let j = i as u32;
                lemma_u32_bit(r, j);
                lemma_u32_bit(self, j);
                lemma_u32_bit(rhs, j);
                assert(((self | rhs) >> j) & 1u32 == 1u32 <==> ((self >> j) & 1u32 == 1u32 || (
                rhs >> j) & 1u32 == 1u32)) by (bit_vector);
            }
        }
        r
    }

    fn plus(self, rhs: Self) -> (r: Self) {
        proof {
            lemma_word_powers();
        }
        self + rhs
    }

    fn minus(self, rhs: Self) -> (r: Self) {
        self - rhs
    }

    fn less_than(&self, rhs: &Self) -> (r: bool) {
        *self < *rhs
    }

    fn words(&self) -> (r: (u128, u128)) {
        (0, *self as u128)
    }

    fn from_words(hi: u128, lo: u128) -> (r: Self) {
        proof {
            lemma_word_powers();
            if hi > 0 {
                assert(hi * word_base() >= word_base()) by (nonlinear_arith)
                    requires
                        hi > 0,
                ;
            }
        }
        lo as u32
    }
}

/// Bit `i` of a 64-bit number, read with a shift and a mask.
proof fn lemma_u64_bit(x: u64, i: u64)
    requires
        i < 64,
    ensures
        bit(x as nat, i as nat) == ((x >> i) & 1u64 == 1u64),
{
    lemma_u64_shr_is_div(x, i);
    let y = x >> i;
    assert(y & 1u64 == y % 2) by (bit_vector);
}

impl Block for u64 {
    open spec fn width() -> nat {
        64
    }

    open spec fn val(self) -> nat {
        self as nat
    }

    open spec fn leverage() -> nat {
        0x8888_8888_8888_8888
    }

    proof fn lemma_fits(self) {
        lemma_word_powers();
    }

    fn bits() -> (r: u32) {
        64
    }

    fn max_value() -> (r: Self) {
        proof {
            lemma_word_powers();
        }
        u64::MAX
    }

    fn zero() -> (r: Self) {
        0x8888_8888_8888_8888
    }

    fn low_byte(&self) -> (r: u8) {
        (*self % 256) as u8
    }

    fn from_byte(b: u8) -> (r: Self) {
        b as u64
    }

    fn shifted_right(self, k: u32) -> (r: Self) {
        let kk = k as u64;
        proof {
            lemma_u64_shr_is_div(self, kk);
        }
        self >> kk
    }

    fn shifted_left(self, k: u32) -> (r: Self) {
        let kk = k as u64;
        let r = self << kk;
        proof {
            assert forall|i: nat| i < 64 implies #[trigger] bit(r as nat, i) == (k <= i && bit(
                self as nat,
                (i - k) as nat,
            )) by {
                let j = i as u64;
                lemma_u64_bit(r, j);
                if kk <= j {
                    let d = (j - kk) as u64;
                    lemma_u64_bit(self, d);
                    assert(((self << kk) >> j) & 1u64 == (self >> d) & 1u64) by (bit_vector)
                        requires
                            j < 64,
                            kk <= j,
                            d == j - kk,
                    ;
                } else {
                    assert(((self << kk) >> j) & 1u64 == 0u64) by (bit_vector)
                        requires
                            j < kk,
                            kk < 64,
                    ;
                }
            }
        }
        r
    }

    fn inverted(self) -> (r: Self) {
        let r = !self;
        proof {
            assert forall|i: nat| i < 64 implies #[trigger] bit(r as nat, i) == !bit(
                self as nat,
                i,
            ) by {
                let j = i as u64;
                lemma_u64_bit(r, j);
                lemma_u64_bit(self, j);
                assert(((!self) >> j) & 1u64 == 1u64 <==> (self >> j) & 1u64 != 1u64)
                    by (bit_vector)
                    requires
                        j < 64,
                ;
            }
        }
        r
    }

    fn and_with(self, rhs: Self) -> (r: Self) {
        let r = self & rhs;
        proof {
            assert forall|i: nat| i < 64 implies #[trigger] bit(r as nat, i) == (bit(
                self as nat,
                i,
            ) && bit(rhs as nat, i)) by {
                let j = i as u64;
                lemma_u64_bit(r, j);
                lemma_u64_bit(self, j);
                lemma_u64_bit(rhs, j);
                assert(((self & rhs) >> j) & 1u64 == 1u64 <==> ((self >> j) & 1u64 == 1u64 && (
                rhs >> j) & 1u64 == 1u64)) by (bit_vector);
            }
        }
        r
    }

    fn or_with(self, rhs: Self) -> (r: Self) {
        let r = self | rhs;
        proof {
            assert forall|i: nat| i < 64 implies #[trigger] bit(r as nat, i) == (bit(
                self as nat,
                i,
            ) || bit(rhs as nat, i)) by {
                let j = i as u64;
                lemma_u64_bit(r, j);
                lemma_u64_bit(self, j);
                lemma_u64_bit(rhs, j);
                assert(((self | rhs) >> j) & 1u64 == 1u64 <==> ((self >> j) & 1u64 == 1u64 || (
                rhs >> j) & 1u64 == 1u64)) by (bit_vector);
            }
        }
        r
    }

    fn plus(self, rhs: Self) -> (r: Self) {
        proof {
            lemma_word_powers();
        }
        self + rhs
    }

    fn minus(self, rhs: Self) -> (r: Self) {
        self - rhs
    }

    fn less_than(&self, rhs: &Self) -> (r: bool) {
        *self < *rhs
    }

    fn words(&self) -> (r: (u128, u128)) {
        (0, *self as u128)
    }

    fn from_words(hi: u128, lo: u128) -> (r: Self) {
        proof {
            lemma_word_powers();
            if hi > 0 {
                assert(hi * word_base() >= word_base()) by (nonlinear_arith)
                    requires
                        hi > 0,
                ;
            }
        }
        lo as u64
    }
}

/// Bit `i` of a 128-bit number, read with a shift and a mask.
proof fn lemma_u128_bit(x: u128, i: u128)
    requires
        i < 128,
    ensures
        bit(x as nat, i as nat) == ((x >> i) & 1u128 == 1u128),
{
    lemma_u128_shr_is_div(x, i);
    let y = x >> i;
    assert(y & 1u128 == y % 2) by (bit_vector);
}

impl Block for u128 {
    open spec fn width() -> nat {
        128
    }

    open spec fn val(self) -> nat {
        self as nat
    }

    open spec fn leverage() -> nat {
        0x8080_8080_8080_8080_8080_8080_8080_8080
    }

    proof fn lemma_fits(self) {
        lemma_word_powers();
    }

    fn bits() -> (r: u32) {
        128
    }

    fn max_value() -> (r: Self) {
        proof {
            lemma_word_powers();
        }
        u128::MAX
    }

    fn zero() -> (r: Self) {
        0x8080_8080_8080_8080_8080_8080_8080_8080
    }

    fn low_byte(&self) -> (r: u8) {
        (*self % 256) as u8
    }

    fn from_byte(b: u8) -> (r: Self) {
        b as u128
    }

    fn shifted_right(self, k: u32) -> (r: Self) {
        let kk = k as u128;
        proof {
            lemma_u128_shr_is_div(self, kk);
        }
        self >> kk
    }

    fn shifted_left(self, k: u32) -> (r: Self) {
        let kk = k as u128;
        let r = self << kk;
        proof {
            assert forall|i: nat| i < 128 implies #[trigger] bit(r as nat, i) == (k <= i && bit(
                self as nat,
                (i - k) as nat,
            )) by {
                let j = i as u128;
                lemma_u128_bit(r, j);
                if kk <= j {
                    let d = (j - kk) as u128;
                    lemma_u128_bit(self, d);
                    assert(((self << kk) >> j) & 1u128 == (self >> d) & 1u128) by (bit_vector)
                        requires
                            j < 128,
                            kk <= j,
                            d == j - kk,
                    ;
                } else {
                    assert(((self << kk) >> j) & 1u128 == 0u128) by (bit_vector)
                        requires
                            j < kk,
                            kk < 128,
                    ;
                }
            }
        }
        r
    }

    fn inverted(self) -> (r: Self) {
        let r = !self;
        proof {
            assert forall|i: nat| i < 128 implies #[trigger] bit(r as nat, i) == !bit(
                self as nat,
                i,
            ) by {
                let j = i as u128;
                lemma_u128_bit(r, j);
                lemma_u128_bit(self, j);
                assert(((!self) >> j) & 1u128 == 1u128 <==> (self >> j) & 1u128 != 1u128)
                    by (bit_vector)
                    requires
                        j < 128,
                ;
            }
        }
        r
    }

    fn and_with(self, rhs: Self) -> (r: Self) {
        let r = self & rhs;
        proof {
            assert forall|i: nat| i < 128 implies #[trigger] bit(r as nat, i) == (bit(
                self as nat,
                i,
            ) && bit(rhs as nat, i)) by {
                let j = i as u128;
                lemma_u128_bit(r, j);
                lemma_u128_bit(self, j);
                lemma_u128_bit(rhs, j);
                assert(((self & rhs) >> j) & 1u128 == 1u128 <==> ((self >> j) & 1u128 == 1u128 && (
                rhs >> j) & 1u128 == 1u128)) by (bit_vector);
            }
        }
        r
    }

    fn or_with(self, rhs: Self) -> (r: Self) {
        let r = self | rhs;
        proof {
            assert forall|i: nat| i < 128 implies #[trigger] bit(r as nat, i) == (bit(
                self as nat,
                i,
            ) || bit(rhs as nat, i)) by {
                let j = i as u128;
                lemma_u128_bit(r, j);
                lemma_u128_bit(self, j);
                lemma_u128_bit(rhs, j);
                assert(((self | rhs) >> j) & 1u128 == 1u128 <==> ((self >> j) & 1u128 == 1u128 || (
                rhs >> j) & 1u128 == 1u128)) by (bit_vector);
            }
        }
        r
    }

    fn plus(self, rhs: Self) -> (r: Self) {
        proof {
            lemma_word_powers();
        }
        self + rhs
    }

    fn minus(self, rhs: Self) -> (r: Self) {
        self - rhs
    }

    fn less_than(&self, rhs: &Self) -> (r: bool) {
        *self < *rhs
    }

    fn words(&self) -> (r: (u128, u128)) {
        (0, *self)
    }

    fn from_words(hi: u128, lo: u128) -> (r: Self) {
        proof {
            lemma_word_powers();
            if hi > 0 {
                assert(hi * word_base() >= word_base()) by (nonlinear_arith)
                    requires
                        hi > 0,
                ;
            }
        }
        lo
    }
}

/// The bits of `!x`, for a 128-bit `x`.
proof fn lemma_u128_not_bits(x: u128)
    ensures
        forall|i: nat| i < 128 ==> #[trigger] bit((!x) as nat, i) == !bit(x as nat, i),
{
    assert forall|i: nat| i < 128 implies #[trigger] bit((!x) as nat, i) == !bit(x as nat, i) by {
        let j = i as u128;
        lemma_u128_bit(!x, j);
        lemma_u128_bit(x, j);
        assert(((!x) >> j) & 1u128 == 1u128 <==> (x >> j) & 1u128 != 1u128) by (bit_vector)
            requires
                j < 128,
        ;
    }
}

/// The bits of `x & y`, for 128-bit `x` and `y`.
proof fn lemma_u128_and_bits(x: u128, y: u128)
    ensures
        forall|i: nat|
            i < 128 ==> #[trigger] bit((x & y) as nat, i) == (bit(x as nat, i) && bit(y as nat, i)),
{
    assert forall|i: nat| i < 128 implies #[trigger] bit((x & y) as nat, i) == (bit(x as nat, i)
        && bit(y as nat, i)) by {
        let j = i as u128;
        lemma_u128_bit(x & y, j);
        lemma_u128_bit(x, j);
        lemma_u128_bit(y, j);
        assert(((x & y) >> j) & 1u128 == 1u128 <==> ((x >> j) & 1u128 == 1u128 && (y >> j) & 1u128
            == 1u128)) by (bit_vector);
    }
}

/// The bits of `x | y`, for 128-bit `x` and `y`.
proof fn lemma_u128_or_bits(x: u128, y: u128)
    ensures
        forall|i: nat|
            i < 128 ==> #[trigger] bit((x | y) as nat, i) == (bit(x as nat, i) || bit(y as nat, i)),
{
    assert forall|i: nat| i < 128 implies #[trigger] bit((x | y) as nat, i) == (bit(x as nat, i)
        || bit(y as nat, i)) by {
        let j = i as u128;
        lemma_u128_bit(x | y, j);
        lemma_u128_bit(x, j);
        lemma_u128_bit(y, j);
        assert(((x | y) >> j) & 1u128 == 1u128 <==> ((x >> j) & 1u128 == 1u128 || (y >> j) & 1u128
            == 1u128)) by (bit_vector);
    }
}

/// A 256-bit block, held as its high and low 128-bit words. Its arithmetic is
/// that of ethnum's `U256`.
#[derive(Clone, Copy, Debug)]
pub struct Wide {
    pub hi: u128,
    pub lo: u128,
}

/// The value of a 256-bit block.
pub open spec fn wide_value(w: Wide) -> nat {
    from_words_value(w.hi as nat, w.lo as nat)
}

/// ethnum's `U256` addition, which panics (in debug builds) on overflow.
#[verifier::external_body]
fn wide_add(a: Wide, b: Wide) -> (r: Wide)
    requires
        wide_value(a) + wide_value(b) < pow2(256),
    ensures
        wide_value(r) == wide_value(a) + wide_value(b),
{
    let x = ethnum::U256::from_words(a.hi, a.lo) + ethnum::U256::from_words(b.hi, b.lo);
    let (hi, lo) = x.into_words();
    Wide { hi, lo }
}

/// ethnum's `U256` subtraction, which panics (in debug builds) below zero.
#[verifier::external_body]
fn wide_sub(a: Wide, b: Wide) -> (r: Wide)
    requires
        wide_value(b) <= wide_value(a),
    ensures
        wide_value(r) == wide_value(a) - wide_value(b),
{
    let x = ethnum::U256::from_words(a.hi, a.lo) - ethnum::U256::from_words(b.hi, b.lo);
    let (hi, lo) = x.into_words();
    Wide { hi, lo }
}

/// ethnum's `U256` right shift, which panics (in debug builds) for a shift above 255.
#[verifier::external_body]
fn wide_shr(a: Wide, k: u32) -> (r: Wide)
    requires
        k < 256,
    ensures
        wide_value(r) == wide_value(a) / pow2(k as nat),
{
    let (hi, lo) = (ethnum::U256::from_words(a.hi, a.lo) >> k).into_words();
    Wide { hi, lo }
}

/// ethnum's `U256` left shift: the bits pushed past bit 255 are lost; it panics
/// (in debug builds) for a shift above 255.
#[verifier::external_body]
fn wide_shl(a: Wide, k: u32) -> (r: Wide)
    requires
        k < 256,
    ensures
        wide_value(r) == (wide_value(a) * pow2(k as nat)) % pow2(256),
{
    let (hi, lo) = (ethnum::U256::from_words(a.hi, a.lo) << k).into_words();
    Wide { hi, lo }
}

/// ethnum's `U256` complement, which inverts each word.
#[verifier::external_body]
fn wide_not(a: Wide) -> (r: Wide)
    ensures
        r.hi == !a.hi,
        r.lo == !a.lo,
{
    let (hi, lo) = (!ethnum::U256::from_words(a.hi, a.lo)).into_words();
    Wide { hi, lo }
}

/// ethnum's `U256` bitwise and, word by word.
#[verifier::external_body]
fn wide_and(a: Wide, b: Wide) -> (r: Wide)
    ensures
        r.hi == a.hi & b.hi,
        r.lo == a.lo & b.lo,
{
    let x = ethnum::U256::from_words(a.hi, a.lo) & ethnum::U256::from_words(b.hi, b.lo);
    let (hi, lo) = x.into_words();
    Wide { hi, lo }
}

/// ethnum's `U256` bitwise or, word by word.
#[verifier::external_body]
fn wide_or(a: Wide, b: Wide) -> (r: Wide)
    ensures
        r.hi == a.hi | b.hi,
        r.lo == a.lo | b.lo,
{
    let x = ethnum::U256::from_words(a.hi, a.lo) | ethnum::U256::from_words(b.hi, b.lo);
    let (hi, lo) = x.into_words();
    Wide { hi, lo }
}

/// ethnum's `U256` order, which is that of the numbers.
#[verifier::external_body]
fn wide_lt(a: Wide, b: Wide) -> (r: bool)
    ensures
        r == (wide_value(a) < wide_value(b)),
{
    ethnum::U256::from_words(a.hi, a.lo) < ethnum::U256::from_words(b.hi, b.lo)
}

/// ethnum's `U256::from` a byte.
#[verifier::external_body]
fn wide_from_byte(b: u8) -> (r: Wide)
    ensures
        wide_value(r) == b,
{
    let (hi, lo) = ethnum::U256::from(b).into_words();
    Wide { hi, lo }
}

/// ethnum's `U256::as_u8`, which keeps the low byte of the low word.
#[verifier::external_body]
fn wide_low_byte(a: Wide) -> (r: u8)
    ensures
        r == a.lo % 256,
{
    ethnum::U256::from_words(a.hi, a.lo).as_u8()
}

/// The bits of a 256-bit block, word by word.
proof fn lemma_wide_bits(w: Wide, i: nat)
    ensures
        bit(wide_value(w), i) == if i < 128 {
            bit(w.lo as nat, i)
        } else {
            bit(w.hi as nat, (i - 128) as nat)
        },
{
    lemma_word_powers();
    lemma_bit_of_words(w.hi as nat, w.lo as nat, i);
}

impl Block for Wide {
    open spec fn width() -> nat {
        256
    }

    open spec fn val(self) -> nat {
        wide_value(self)
    }

    open spec fn leverage() -> nat {
        from_words_value(
            0x8080_8080_8080_8080_8080_8080_8080_8080,
            0x8080_8080_8080_8080_8080_8080_8080_8080,
        )
    }

    proof fn lemma_fits(self) {
        lemma_word_powers();
        let b = word_base();
        let h = self.hi as nat;
        let l = self.lo as nat;
        assert(h * b + l < b * b) by (nonlinear_arith)
            requires
                h < b,
                l < b,
        ;
        let z: nat = 0x8080_8080_8080_8080_8080_8080_8080_8080;
        assert(z * b + z < b * b) by (nonlinear_arith)
            requires
                z < b,
        ;
    }

    fn bits() -> (r: u32) {
        256
    }

    fn max_value() -> (r: Self) {
        let r = Wide { hi: u128::MAX, lo: u128::MAX };
        proof {
            lemma_word_powers();
            let b = word_base();
            assert((b - 1) * b + (b - 1) == b * b - 1) by (nonlinear_arith);
        }
        r
    }

    fn zero() -> (r: Self) {
        Wide {
            hi: 0x8080_8080_8080_8080_8080_8080_8080_8080,
            lo: 0x8080_8080_8080_8080_8080_8080_8080_8080,
        }
    }

    fn low_byte(&self) -> (r: u8) {
        let r = wide_low_byte(*self);
        proof {
            lemma_word_powers();
            let b = word_base();
            let h = self.hi as int;
            let l = self.lo as int;
            assert(b == 256 * 0x1_0000_0000_0000_0000_0000_0000_0000_00int);
            assert((h * b + l) % 256 == l % 256) by {
                vstd::arithmetic::div_mod::lemma_mod_multiples_vanish(
                    h * 0x1_0000_0000_0000_0000_0000_0000_0000_00int,
                    l,
                    256,
                );
                vstd::arithmetic::mul::lemma_mul_is_associative(
                    h,
                    0x1_0000_0000_0000_0000_0000_0000_0000_00int,
                    256,
                );
                vstd::arithmetic::mul::lemma_mul_is_commutative(
                    h * 0x1_0000_0000_0000_0000_0000_0000_0000_00int,
                    256,
                );
            }
        }
        r
    }

    fn from_byte(b: u8) -> (r: Self) {
        wide_from_byte(b)
    }

    fn shifted_right(self, k: u32) -> (r: Self) {
        wide_shr(self, k)
    }

    fn shifted_left(self, k: u32) -> (r: Self) {
        let r = wide_shl(self, k);
        proof {
            assert forall|i: nat| i < 256 implies #[trigger] bit(r.val(), i) == (k <= i && bit(
                self.val(),
                (i - k) as nat,
            )) by {
                lemma_bit_of_mod(self.val() * pow2(k as nat), 256, i);
                lemma_bit_of_shifted(self.val(), k as nat, i);
            }
        }
        r
    }

    fn inverted(self) -> (r: Self) {
        let r = wide_not(self);
        proof {
            lemma_u128_not_bits(self.hi);
            lemma_u128_not_bits(self.lo);
            assert forall|i: nat| i < 256 implies #[trigger] bit(r.val(), i) == !bit(
                self.val(),
                i,
            ) by {
                lemma_wide_bits(r, i);
                lemma_wide_bits(self, i);
            }
        }
        r
    }

    fn and_with(self, rhs: Self) -> (r: Self) {
        let r = wide_and(self, rhs);
        proof {
            lemma_u128_and_bits(self.hi, rhs.hi);
            lemma_u128_and_bits(self.lo, rhs.lo);
            assert forall|i: nat| i < 256 implies #[trigger] bit(r.val(), i) == (bit(
                self.val(),
                i,
            ) && bit(rhs.val(), i)) by {
                lemma_wide_bits(r, i);
                lemma_wide_bits(self, i);
                lemma_wide_bits(rhs, i);
            }
        }
        r
    }

    fn or_with(self, rhs: Self) -> (r: Self) {
        let r = wide_or(self, rhs);
        proof {
            lemma_u128_or_bits(self.hi, rhs.hi);
            lemma_u128_or_bits(self.lo, rhs.lo);
            assert forall|i: nat| i < 256 implies #[trigger] bit(r.val(), i) == (bit(
                self.val(),
                i,
            ) || bit(rhs.val(), i)) by {
                lemma_wide_bits(r, i);
                lemma_wide_bits(self, i);
                lemma_wide_bits(rhs, i);
            }
        }
        r
    }

    fn plus(self, rhs: Self) -> (r: Self) {
        wide_add(self, rhs)
    }

    fn minus(self, rhs: Self) -> (r: Self) {
        wide_sub(self, rhs)
    }

    fn less_than(&self, rhs: &Self) -> (r: bool) {
        wide_lt(*self, *rhs)
    }

    fn words(&self) -> (r: (u128, u128)) {
        (self.hi, self.lo)
    }

    fn from_words(hi: u128, lo: u128) -> (r: Self) {
        Wide { hi, lo }
    }
}

/// ux's `u4::new`, which panics above 15, read back as a byte.
#[verifier::external_body]
fn nibble_of(b: u8) -> (r: u8)
    requires
        b <= 15,
    ensures
        r == b,
{
    u8::from(ux::u4::new(b))
}

/// ux's subtraction of two `u4`, which panics (in debug builds) when it would go below 0.
#[verifier::external_body]
fn nibble_sub(a: u8, b: u8) -> (r: u8)
    requires
        b <= a <= 15,
    ensures
        r == a - b,
{
    u8::from(ux::u4::new(a) - ux::u4::new(b))
}

/// A 4-bit chunk, as ux's `u4` holds it.
#[derive(Clone, Copy, Debug)]
pub struct Nibble {
    v: u8,
}

impl Nibble {
    #[verifier::type_invariant]
    spec fn fits(self) -> bool {
        self.v < 16
    }
}

impl Chunk for Nibble {
    open spec fn width() -> nat {
        4
    }

    proof fn lemma_width() {
    }

    closed spec fn val(self) -> nat {
        (self.v % 16) as nat
    }

    proof fn lemma_fits(self) {
        lemma_word_powers();
    }

    fn bits() -> (r: u32) {
        4
    }

    fn max_value() -> (r: Self) {
        proof {
            lemma_word_powers();
        }
        Nibble { v: nibble_of(15) }
    }

    fn zero() -> (r: Self) {
        proof {
            lemma_word_powers();
        }
        Nibble { v: nibble_of(8) }
    }

    fn byte(&self) -> (r: u8) {
        proof {
            use_type_invariant(self);
        }
        self.v
    }

    fn from_byte(b: u8) -> (r: Self) {
        proof {
            lemma_word_powers();
        }
        Nibble { v: nibble_of(b) }
    }

    fn masked(self) -> (r: Self) {
        proof {
            use_type_invariant(self);
        }
        let v = self.v;
        assert(v < 16 ==> 15u8 & v == v) by (bit_vector);
        Nibble { v: 15u8 & v }
    }

    fn minus(self, rhs: Self) -> (r: Self) {
        proof {
            use_type_invariant(self);
            use_type_invariant(rhs);
        }
        Nibble { v: nibble_sub(self.v, rhs.v) }
    }

    fn less_than(&self, rhs: &Self) -> (r: bool) {
        proof {
            use_type_invariant(self);
            use_type_invariant(rhs);
        }
        self.v < rhs.v
    }
}

impl Chunk for u8 {
    open spec fn width() -> nat {
        8
    }

    proof fn lemma_width() {
    }

    open spec fn val(self) -> nat {
        self as nat
    }

    proof fn lemma_fits(self) {
        lemma_word_powers();
    }

    fn bits() -> (r: u32) {
        8
    }

    fn max_value() -> (r: Self) {
        proof {
            lemma_word_powers();
        }
        0b1111_1111
    }

    fn zero() -> (r: Self) {
        proof {
            lemma_word_powers();
        }
        0b1000_0000
    }

    fn byte(&self) -> (r: u8) {
        *self
    }

    fn from_byte(b: u8) -> (r: Self) {
        b
    }

    fn masked(self) -> (r: Self) {
        let v = self;
        assert(0xffu8 & v == v) by (bit_vector);
        0xffu8 & v
    }

    fn minus(self, rhs: Self) -> (r: Self) {
        self - rhs
    }

    fn less_than(&self, rhs: &Self) -> (r: bool) {
        *self < *rhs
    }
}

/// The powers of two of the top chunk of each kind of block.
proof fn lemma_top_powers()
    ensures
        pow2(28) == 0x1000_0000,
        pow2(32) == 0x1_0000_0000,
        pow2(60) == 0x1000_0000_0000_0000,
        pow2(64) == 0x1_0000_0000_0000_0000,
        pow2(120) == 0x100_0000_0000_0000_0000_0000_0000_0000nat,
        pow2(128) == word_base(),
        pow2(248) == 0x100_0000_0000_0000_0000_0000_0000_0000nat * word_base(),
        pow2(256) == word_base() * word_base(),
{
    vstd::arithmetic::power2::lemma2_to64();
    lemma_word_powers();
    lemma_pow2_adds(32, 28);
    lemma_pow2_adds(64, 32);
    lemma_pow2_adds(96, 24);
    vstd::arithmetic::power2::lemma_pow2_adds(128, 120);
}

/// 8 signed 4-bits on 32 bits.
#[derive(Clone, Copy, Debug, Default, PartialEq, Eq, PartialOrd, Ord)]
pub struct I32x4 {}

impl SWAR for I32x4 {
    type Block = u32;
    type Chunk = Nibble;

    proof fn lemma_zero_chunks() {
        vstd::arithmetic::power2::lemma2_to64();
        reveal_with_fuel(spaced, 9);
    }

    proof fn lemma_raise_fits(index: nat) {
        lemma_top_powers();
        let s = index * 4;
        assert(s <= 28) by (nonlinear_arith)
            requires
                (index + 1) * 4 <= 28 + 4,
                s == index * 4,
        ;
        if s < 28 {
            vstd::arithmetic::power2::lemma_pow2_strictly_increases(s, 28);
        }
    }
}

/// 16 signed 4-bits on 64 bits.
#[derive(Clone, Copy, Debug, Default, PartialEq, Eq, PartialOrd, Ord)]
pub struct I64x4 {}

impl SWAR for I64x4 {
    type Block = u64;
    type Chunk = Nibble;

    proof fn lemma_zero_chunks() {
        vstd::arithmetic::power2::lemma2_to64();
        reveal_with_fuel(spaced, 17);
    }

    proof fn lemma_raise_fits(index: nat) {
        lemma_top_powers();
        let s = index * 4;
        assert(s <= 60) by (nonlinear_arith)
            requires
                (index + 1) * 4 <= 60 + 4,
                s == index * 4,
        ;
        if s < 60 {
            vstd::arithmetic::power2::lemma_pow2_strictly_increases(s, 60);
        }
    }
}

/// 16 signed 8-bits on 128 bits.
#[derive(Clone, Copy, Debug, Default, PartialEq, Eq, PartialOrd, Ord)]
pub struct I128x8 {}

impl SWAR for I128x8 {
    type Block = u128;
    type Chunk = u8;

    proof fn lemma_zero_chunks() {
        vstd::arithmetic::power2::lemma2_to64();
        reveal_with_fuel(spaced, 17);
    }

    proof fn lemma_raise_fits(index: nat) {
        lemma_top_powers();
        let s = index * 8;
        assert(s <= 120) by (nonlinear_arith)
            requires
                (index + 1) * 8 <= 120 + 8,
                s == index * 8,
        ;
        if s < 120 {
            vstd::arithmetic::power2::lemma_pow2_strictly_increases(s, 120);
        }
    }
}

/// 32 signed 8-bits on 256 bits.
#[derive(Clone, Copy, Debug, Default, PartialEq, Eq, PartialOrd, Ord)]
pub struct I256x8 {}

impl SWAR for I256x8 {
    type Block = Wide;
    type Chunk = u8;

    proof fn lemma_zero_chunks() {
        vstd::arithmetic::power2::lemma2_to64();
        lemma_word_powers();
        reveal_with_fuel(spaced, 33);
    }

    proof fn lemma_raise_fits(index: nat) {
        lemma_top_powers();
        let s = index * 8;
        assert(s <= 248) by (nonlinear_arith)
            requires
                (index + 1) * 8 <= 248 + 8,
                s == index * 8,
        ;
        if s < 248 {
            vstd::arithmetic::power2::lemma_pow2_strictly_increases(s, 248);
        }
    }
}

} // verus!
