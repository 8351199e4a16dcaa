use matlib::mathfn::Signed;
use matlib::register::Register;
use matlib::swar::{Block, Chunk, I128x8, I256x8, I32x4, I64x4, Nibble, Wide, SWAR};

const ZERO32: u32 = 0x8888_8888;
const ZERO128: u128 = 0x8080_8080_8080_8080_8080_8080_8080_8080;

fn nibble(v: u8) -> Nibble {
    <Nibble as Chunk>::from_byte(v)
}

#[test]
fn get_reads_a_chunk() {
    assert_eq!(I32x4::get(0x0000_000a, 0).byte(), 10);
    assert_eq!(I32x4::get(0x1234_5678, 0).byte(), 8);
    assert_eq!(I32x4::get(0x1234_5678, 1).byte(), 7);
    assert_eq!(I32x4::get(0x1234_5678, 7).byte(), 1);
    assert_eq!(I64x4::get(0x0000_0000_0000_0003, 0).byte(), 3);
    assert_eq!(I64x4::get(0xf000_0000_0000_0000, 15).byte(), 15);
    assert_eq!(I128x8::get(0xab00, 1), 0xab);
    assert_eq!(I128x8::get(0x12 << 120, 15), 0x12);
    assert_eq!(I256x8::get(Wide { hi: 0xab, lo: 0 }, 16), 0xab);
    assert_eq!(I256x8::get(Wide { hi: 0, lo: 0xcd << 8 }, 1), 0xcd);
}

#[test]
fn set_replaces_one_chunk() {
    let mut b: u32 = 0x1234_5678;
    I32x4::set(&mut b, 0, nibble(0xf));
    assert_eq!(b, 0x1234_567f);
    I32x4::set(&mut b, 3, nibble(0));
    assert_eq!(b, 0x1234_067f);
    I32x4::set(&mut b, 7, nibble(0x9));
    assert_eq!(b, 0x9234_067f);

    let mut c: u64 = 0;
    I64x4::set(&mut c, 15, nibble(0x7));
    assert_eq!(c, 0x7000_0000_0000_0000);

    let mut d: u128 = u128::MAX;
    I128x8::set(&mut d, 2, 0x00);
    assert_eq!(d, u128::MAX ^ 0xff_0000);

    let mut w = Wide { hi: 0, lo: 0 };
    I256x8::set(&mut w, 31, 0x12);
    assert_eq!((w.hi, w.lo), (0x12 << 120, 0));
    I256x8::set(&mut w, 0, 0x34);
    assert_eq!((w.hi, w.lo), (0x12 << 120, 0x34));
}

#[test]
fn set_then_get_gives_the_value_back() {
    let mut b: u128 = 0x0102_0304_0506_0708_090a_0b0c_0d0e_0f10;
    for i in 0..16u32 {
        I128x8::set(&mut b, i, (i as u8) * 3);
    }
    for i in 0..16u32 {
        assert_eq!(I128x8::get(b, i), (i as u8) * 3);
    }
}

#[test]
fn block_constants() {
    assert_eq!(<u32 as Block>::zero(), ZERO32);
    assert_eq!(<u64 as Block>::zero(), 0x8888_8888_8888_8888);
    assert_eq!(<u128 as Block>::zero(), ZERO128);
    let z = <Wide as Block>::zero();
    assert_eq!((z.hi, z.lo), (ZERO128, ZERO128));
    assert_eq!(<u32 as Block>::bits(), 32);
    assert_eq!(<Wide as Block>::bits(), 256);
    assert_eq!(<Nibble as Chunk>::bits(), 4);
    assert_eq!(<u8 as Chunk>::zero(), 0x80);
    assert_eq!(<Nibble as Chunk>::zero().byte(), 8);
}

#[test]
fn wide_arithmetic_crosses_words() {
    let a = Wide { hi: 0, lo: u128::MAX };
    let one = <Wide as Block>::from_byte(1);
    let s = a.plus(one);
    assert_eq!((s.hi, s.lo), (1, 0));
    let d = s.minus(one);
    assert_eq!((d.hi, d.lo), (0, u128::MAX));
    let l = one.shifted_left(200);
    assert_eq!((l.hi, l.lo), (1 << 72, 0));
    let r = l.shifted_right(199);
    assert_eq!((r.hi, r.lo), (0, 2));
    assert!(d.less_than(&s));
    assert_eq!(s.low_byte(), 0);
    assert_eq!(d.low_byte(), 0xff);
}

#[test]
fn nibble_signs() {
    match nibble(3).signed() {
        Signed::Neg(m) => assert_eq!(m.byte(), 5),
        Signed::Pos(_) => panic!("3 stands for -5"),
    }
    match nibble(10).signed() {
        Signed::Pos(m) => assert_eq!(m.byte(), 2),
        Signed::Neg(_) => panic!("10 stands for 2"),
    }
    match 0x80u8.signed() {
        Signed::Pos(m) => assert_eq!(m, 0),
        Signed::Neg(_) => panic!("the zero is positive"),
    }
}

#[test]
fn register_powers() {
    // every chunk at its zero: no power at all
    assert_eq!(Register::<I128x8>(ZERO128).to_vec(), vec![0; 16]);
    let r = Register::<I128x8>(ZERO128 + 1 + (2 << 8));
    let mut expected = vec![0; 16];
    expected[0] = 1;
    expected[1] = 2;
    assert_eq!(r.to_vec(), expected);
    // only a block below 16 can be read in four-bit chunks
    let small = Register::<I32x4>(5);
    assert_eq!(small.to_vec(), vec![-3, -8, -8, -8, -8, -8, -8, -8]);
    let wide = Register::<I256x8>(Wide { hi: ZERO128, lo: ZERO128 });
    assert_eq!(wide.to_vec(), vec![0; 32]);
}

#[test]
fn register_mul_adds_powers() {
    let a = Register::<I32x4>(ZERO32 + 1);
    let b = Register::<I32x4>(ZERO32 + 0x20);
    assert_eq!(a.mul(b).0, ZERO32 + 0x21);
    // the register at zero is the unit
    assert_eq!(Register::<I32x4>(ZERO32).mul(b).0, b.0);
    // both below the zero
    assert_eq!(Register::<I32x4>(0x4444_4444).mul(Register(0x4444_4445)).0, 1);
    // x^-1 * x^-1 is x^-2, though the two blocks add up past 32 bits
    let inv = Register::<I32x4>(ZERO32 - 1);
    assert_eq!(inv.mul(inv).0, ZERO32 - 2);
    assert_eq!(inv.mul(inv).to_vec(), vec![-2, 0, 0, 0, 0, 0, 0, 0]);
}

#[test]
fn register_powers_add_and_subtract_chunk_by_chunk() {
    // a = x0 * x1^2 * x2^-3, b = x0^2 * x1^-1 * x3^4
    let a = Register::<I32x4>(ZERO32 + 1 + 0x20 - 0x300);
    let b = Register::<I32x4>(ZERO32 + 2 - 0x10 + 0x4000);
    assert_eq!(a.to_vec(), vec![1, 2, -3, 0, 0, 0, 0, 0]);
    assert_eq!(b.to_vec(), vec![2, -1, 0, 4, 0, 0, 0, 0]);
    assert_eq!(a.mul(b).to_vec(), vec![3, 1, -3, 4, 0, 0, 0, 0]);
    assert_eq!(a.div(b).to_vec(), vec![-1, 3, -3, -4, 0, 0, 0, 0]);
}

#[test]
fn register_div_by_branch() {
    let l = ZERO32;
    assert_eq!(Register::<I32x4>(l + 5).div(Register(l + 2)).0, l + 3);
    assert_eq!(Register::<I32x4>(l + 2).div(Register(l + 5)).0, l - 3);
    assert_eq!(Register::<I32x4>(3).div(Register(1)).0, l + 2);
    // x / x^2 is x^-1
    let z = ZERO128;
    assert_eq!(Register::<I128x8>(z + 1).div(Register(z + 2)).0, z - 1);
    assert_eq!(Register::<I128x8>(z + 1).div(Register(z + 2)).to_vec()[0], -1);
}

#[test]
fn signed_register_products_are_positive_when_the_signs_agree() {
    let a = Signed::Pos(Register::<I128x8>(ZERO128 + 1));
    let b = Signed::Neg(Register::<I128x8>(ZERO128 + 2));
    match a.mul(b) {
        Signed::Neg(r) => assert_eq!(r.0, ZERO128 + 3),
        Signed::Pos(_) => panic!("the signs differ"),
    }
    match b.mul(a) {
        Signed::Neg(r) => assert_eq!(r.0, ZERO128 + 3),
        Signed::Pos(_) => panic!("the signs differ"),
    }
    match b.mul(b) {
        Signed::Pos(r) => assert_eq!(r.0, ZERO128 + 4),
        Signed::Neg(_) => panic!("the signs agree"),
    }
    match b.div(b) {
        Signed::Pos(r) => assert_eq!(r.0, ZERO128),
        Signed::Neg(_) => panic!("the signs agree"),
    }
    match a.div(a) {
        Signed::Pos(r) => assert_eq!(r.0, ZERO128),
        Signed::Neg(_) => panic!("the signs agree"),
    }
}
