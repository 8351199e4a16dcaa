//! Signs, and signed wrappers around values.
use vstd::prelude::*;

verus! {

/// I think it's pretty obvious what it represents.
#[derive(Clone, Copy, Debug, PartialEq, Eq, Structural, PartialOrd, Ord)]
pub enum Sign {
    Pos,
    Neg,
}

/// Wraps a value and represents its sign (+/-).
#[derive(Clone, Copy, Debug, PartialEq, Eq, PartialOrd, Ord)]
pub enum Signed<T: Copy> {
    Pos(T),
    Neg(T),
}

/// The sign of a signed value.
pub open spec fn sign_of<T: Copy>(s: Signed<T>) -> Sign {
    match s {
        Signed::Pos(_) => Sign::Pos,
        Signed::Neg(_) => Sign::Neg,
    }
}

/// The value inside a signed value.
pub open spec fn inner<T: Copy>(s: Signed<T>) -> T {
    match s {
        Signed::Pos(x) => x,
        Signed::Neg(x) => x,
    }
}

/// The same value with the other sign.
pub open spec fn negated<T: Copy>(s: Signed<T>) -> Signed<T> {
    match s {
        Signed::Pos(x) => Signed::Neg(x),
        Signed::Neg(x) => Signed::Pos(x),
    }
}

impl<T: Copy> Signed<T> {
    /// Return the `Sign`
    pub fn sign(&self) -> (r: Sign)
        ensures
            r == sign_of(*self),
    {
        match self {
            Signed::Pos(_) => Sign::Pos,
            Signed::Neg(_) => Sign::Neg,
        }
    }

    /// Return the inner value
    pub fn get(&self) -> (r: T)
        ensures
            r == inner(*self),
    {
        match *self {
            Signed::Pos(x) => x,
            Signed::Neg(x) => x,
        }
    }

    /// The same value with the opposite sign.
    pub fn neg(self) -> (r: Self)
        ensures
            r == negated(self),
    {
        match self {
            Signed::Pos(x) => Signed::Neg(x),
            Signed::Neg(x) => Signed::Pos(x),
        }
    }
}

/// Negating twice gives the value back.
pub proof fn lemma_neg_involutive<T: Copy>(s: Signed<T>)
    ensures
        negated(negated(s)) == s,
{
}

/// Negation flips the sign and keeps the inner value.
pub proof fn lemma_neg_flips_sign<T: Copy>(s: Signed<T>)
    ensures
        inner(negated(s)) == inner(s),
        sign_of(negated(s)) != sign_of(s),
{
}

} // verus!
