use matlib::expended::Expended;
use matlib::math_tree::{BinOp, MathTree};
use matlib::swar::{I128x8, I32x4, I64x4};

const ZERO32: u128 = 0x8888_8888;
const ZERO64: u128 = 0x8888_8888_8888_8888;
const ZERO128: u128 = 0x8080_8080_8080_8080_8080_8080_8080_8080;

fn leaf(i: usize) -> Box<MathTree> {
    Box::new(MathTree::Index(i))
}

#[test]
fn a_leaf_is_the_register_of_its_variable() {
    // the variable of chunk 3: power one there, power zero elsewhere
    let e = Expended::<I32x4>::from(MathTree::Index(3));
    assert_eq!(e.terms(), vec![(0, 0, ZERO32 + 0x1000)]);
    let w = Expended::<I128x8>::from(MathTree::Index(0));
    assert_eq!(w.terms(), vec![(0, 0, ZERO128 + 1)]);
}

#[test]
fn a_sum_keeps_every_term() {
    let t = MathTree::BinOp(BinOp::Add { l: leaf(0), r: leaf(1) });
    let e = Expended::<I32x4>::from(t);
    assert_eq!(e.terms(), vec![(0, 0, ZERO32 + 1), (0, 0, ZERO32 + 0x10)]);
}

#[test]
fn products_and_quotients_of_leaves() {
    let t = MathTree::BinOp(BinOp::Mul { l: leaf(0), r: leaf(1) });
    assert_eq!(Expended::<I32x4>::from(t).terms(), vec![(0, 0, ZERO32 + 0x11)]);
    let t = MathTree::BinOp(BinOp::Div { l: leaf(0), r: leaf(1) });
    assert_eq!(Expended::<I128x8>::from(t).terms(), vec![(0, 0, ZERO128 + 1 - 0x100)]);
    // (a + b) * (c + d) has four terms
    let sum = |x, y| Box::new(MathTree::BinOp(BinOp::Add { l: leaf(x), r: leaf(y) }));
    let t = MathTree::BinOp(BinOp::Mul { l: sum(0, 1), r: sum(2, 3) });
    assert_eq!(
        Expended::<I32x4>::from(t).terms(),
        vec![
            (0, 0, ZERO32 + 0x101),
            (0, 0, ZERO32 + 0x110),
            (0, 0, ZERO32 + 0x1001),
            (0, 0, ZERO32 + 0x1010),
        ]
    );
}

#[test]
fn operations_on_expansions() {
    let a = Expended::<I32x4>::from(MathTree::Index(0));
    let b = Expended::<I32x4>::from(MathTree::Index(1));
    assert_eq!(a.add(b).terms().len(), 2);

    let empty = Expended::<I32x4>::new();
    assert!(empty.terms().is_empty());
    let d = Expended::<I32x4>::default();
    assert!(d.terms().is_empty());

    // nothing on the right: the left side is kept
    let a = Expended::<I32x4>::from(MathTree::Index(0));
    assert_eq!(a.sub(Expended::new()).terms(), vec![(0, 0, ZERO32 + 1)]);
    // nothing on the left: the right side, negated
    let b = Expended::<I32x4>::from(MathTree::Index(0));
    assert_eq!(Expended::new().sub(b).terms(), vec![(1, 0, ZERO32 + 1)]);
    // x - x keeps both terms, the positive one first
    let a = Expended::<I32x4>::from(MathTree::Index(0));
    let b = Expended::<I32x4>::from(MathTree::Index(0));
    assert_eq!(a.sub(b).terms(), vec![(0, 0, ZERO32 + 1), (1, 0, ZERO32 + 1)]);

    // a product with nothing is nothing
    let a = Expended::<I32x4>::from(MathTree::Index(0));
    assert!(a.mul(Expended::new()).terms().is_empty());
    let a = Expended::<I32x4>::from(MathTree::Index(0));
    let b = Expended::<I32x4>::from(MathTree::Index(1));
    assert_eq!(a.div(b).terms(), vec![(0, 0, ZERO32 + 1 - 0x10)]);
}

#[test]
fn checked_expansions() {
    // a + b - c * d / e
    let product = Box::new(MathTree::BinOp(BinOp::Mul { l: leaf(2), r: leaf(3) }));
    let quotient = Box::new(MathTree::BinOp(BinOp::Div { l: product, r: leaf(4) }));
    let sum = Box::new(MathTree::BinOp(BinOp::Add { l: leaf(0), r: leaf(1) }));
    let t = MathTree::BinOp(BinOp::Sub { l: sum, r: quotient });
    let e = Expended::<I64x4>::checked_from(t).unwrap();
    assert_eq!(
        e.terms(),
        vec![(0, 0, ZERO64 + 1), (0, 0, ZERO64 + 0x10), (1, 0, ZERO64 + 0x1100 - 0x10000)]
    );

    // an I32x4 register has eight chunks: there is no variable 8
    assert!(Expended::<I32x4>::checked_from(MathTree::Index(8)).is_none());
    assert!(Expended::<I32x4>::checked_from(MathTree::Index(7)).is_some());

    let a = Expended::<I32x4>::from(MathTree::Index(0));
    let b = Expended::<I32x4>::from(MathTree::Index(1));
    assert_eq!(a.checked_mul(b).unwrap().terms(), vec![(0, 0, ZERO32 + 0x11)]);
    let a = Expended::<I32x4>::from(MathTree::Index(0));
    let b = Expended::<I32x4>::from(MathTree::Index(1));
    assert_eq!(a.checked_div(b).unwrap().terms(), vec![(0, 0, ZERO32 + 1 - 0x10)]);
}
