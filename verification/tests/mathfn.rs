use matlib::mathfn::{Sign, Signed};

#[test]
fn signed_sign_and_get() {
    let p: Signed<i32> = Signed::Pos(3);
    let n: Signed<i32> = Signed::Neg(4);
    assert_eq!(p.sign(), Sign::Pos);
    assert_eq!(n.sign(), Sign::Neg);
    assert_eq!(p.get(), 3);
    assert_eq!(n.get(), 4);
}

#[test]
fn signed_neg() {
    let p: Signed<i32> = Signed::Pos(3);
    assert_eq!(p.neg(), Signed::Neg(3));
    assert_eq!(p.neg().neg(), p);
}

#[test]
fn sign_order() {
    assert!(Sign::Pos < Sign::Neg);
    assert!(Signed::Pos(9) < Signed::Neg(0));
}
