//! Sums of signed products in their most expanded form, kept in order.
use vstd::prelude::*;
use vstd::arithmetic::power2::pow2;
use vstd::arithmetic::div_mod::lemma_fundamental_div_mod;
use vstd::multiset::Multiset;
use vstd::relations::{sorted_by, total_ordering};
use vstd::seq_lib::lemma_sorted_unique;
use sorted_vec::SortedVec;
use std::marker::PhantomData;
use crate::bits::{
    bit,
    from_words_value,
    lemma_bit_of_mask,
    lemma_bit_of_shifted,
    lemma_bit_of_words,
    lemma_bits_determine,
    lemma_word_powers,
    word_base,
};
use crate::math_tree::{BinOp, MathTree};
use crate::mathfn::{Signed, inner, negated};
use crate::register::{Register, div_fits, div_value, mul_fits, mul_value, signed_block};
use crate::swar::{Block, Chunk, SWAR};

verus! {

/// A term of an expansion as it is stored: the sign (0 for `Pos`, 1 for `Neg`),
/// then the high and low 128-bit words of the register. Terms are ordered as
/// tuples are, which is the order of signed registers: every positive term
/// before every negative one, then by the register's value.
pub type Term = (u8, u128, u128);

/// The order of terms: lexicographic on the sign, the high word, the low word.
pub open spec fn term_le(a: Term, b: Term) -> bool {
    a.0 < b.0 || (a.0 == b.0 && (a.1 < b.1 || (a.1 == b.1 && a.2 <= b.2)))
}

/// The order of terms, as a relation.
pub open spec fn term_order() -> spec_fn(Term, Term) -> bool {
    |a: Term, b: Term| term_le(a, b)
}

/// The order of terms is total.
pub proof fn lemma_term_order_total()
    ensures
        total_ordering(term_order()),
{
    assert forall|a: Term, b: Term| #[trigger] term_order()(a, b) && #[trigger] term_order()(b, a)
        implies a == b by {
        assert(a.0 == b.0 && a.1 == b.1 && a.2 == b.2);
    }
}

/// The register value of a term.
pub open spec fn term_value(t: Term) -> nat {
    from_words_value(t.1 as nat, t.2 as nat)
}

/// The term with sign tag `tag` and register value `v`.
pub open spec fn term_from(tag: u8, v: nat) -> Term {
    (tag, (v / word_base()) as u128, (v % word_base()) as u128)
}

/// A term that stands for a signed register of `U`.
pub open spec fn term_valid<U: SWAR>(t: Term) -> bool {
    t.0 <= 1 && term_value(t) < pow2(<U::Block as Block>::width())
}

/// The sign tag of a signed register.
pub open spec fn sign_tag<U: SWAR>(s: Signed<Register<U>>) -> u8 {
    match s {
        Signed::Pos(_) => 0,
        Signed::Neg(_) => 1,
    }
}

/// The term that stores a signed register.
pub open spec fn term_of<U: SWAR>(s: Signed<Register<U>>) -> Term {
    term_from(sign_tag(s), signed_block(s))
}

/// The term of the opposite sign.
pub open spec fn term_negated(t: Term) -> Term {
    ((1 - t.0) as u8, t.1, t.2)
}

/// The sign tag of a product or a quotient: positive exactly when the signs agree.
pub open spec fn product_tag(a: u8, b: u8) -> u8 {
    if a == b {
        0
    } else {
        1
    }
}

/// The term of the product of two terms (see `Signed::<Register<U>>::mul`).
pub open spec fn term_mul<U: SWAR>(a: Term, b: Term) -> Term {
    term_from(product_tag(a.0, b.0), mul_value(term_value(a), term_value(b), <U::Block as Block>::leverage()))
}

/// The term of the quotient of two terms (see `Signed::<Register<U>>::div`).
pub open spec fn term_div<U: SWAR>(a: Term, b: Term) -> Term {
    term_from(product_tag(a.0, b.0), div_value(term_value(a), term_value(b), <U::Block as Block>::leverage()))
}

/// The items of a sorted vector of terms, in order.
pub uninterp spec fn sorted_terms(v: SortedVec<Term>) -> Seq<Term>;

/// sorted-vec's `SortedVec`, whose items are seen only through `sorted_terms`.
#[verifier::external_type_specification]
#[verifier::external_body]
#[verifier::reject_recursive_types(T)]
pub struct ExSortedVec<T: Ord>(SortedVec<T>);

/// sorted-vec's `SortedVec::new`: an empty vector.
#[verifier::external_body]
fn terms_new() -> (r: SortedVec<Term>)
    ensures
        sorted_terms(r) == Seq::<Term>::empty(),
{
    SortedVec::new()
}

/// sorted-vec's `SortedVec::from_unsorted`: the same items, sorted (by `sort_unstable`).
#[verifier::external_body]
fn terms_from_unsorted(v: Vec<Term>) -> (r: SortedVec<Term>)
    ensures
        sorted_by(sorted_terms(r), term_order()),
        sorted_terms(r).to_multiset() == v@.to_multiset(),
{
    SortedVec::from_unsorted(v)
}

/// sorted-vec's `SortedVec::push`: the item goes where the vector stays sorted.
#[verifier::external_body]
fn terms_push(s: &mut SortedVec<Term>, t: Term)
    requires
        sorted_by(sorted_terms(*old(s)), term_order()),
    ensures
        sorted_by(sorted_terms(*final(s)), term_order()),
        sorted_terms(*final(s)).to_multiset() == sorted_terms(*old(s)).to_multiset().insert(t),
{
    s.push(t);
}

/// The items of a sorted vector, read through its `Deref` to `Vec` and copied out.
#[verifier::external_body]
fn terms_items(s: &SortedVec<Term>) -> (r: Vec<Term>)
    ensures
        r@ == sorted_terms(*s),
{
    s.to_vec()
}

/// `a < b` on terms.
fn term_less(a: &Term, b: &Term) -> (r: bool)
    ensures
        r == (term_le(*a, *b) && *a != *b),
{
    if a.0 != b.0 {
        a.0 < b.0
    } else if a.1 != b.1 {
        a.1 < b.1
    } else {
        a.2 < b.2
    }
}

/// The term that stores a signed register.
fn encode<U: SWAR>(s: Signed<Register<U>>) -> (t: Term)
    ensures
        t == term_of::<U>(s),
        term_valid::<U>(t),
{
    let tag: u8 = match s {
        Signed::Pos(_) => 0,
        Signed::Neg(_) => 1,
    };
    let block = s.get().0;
    let (hi, lo) = block.words();
    proof {
        block.lemma_fits();
        lemma_word_powers();
        lemma_bit_of_words(hi as nat, lo as nat, 0);
    }
    (tag, hi, lo)
}

/// The signed register that a term stores.
fn decode<U: SWAR>(t: Term) -> (s: Signed<Register<U>>)
    requires
        term_valid::<U>(t),
    ensures
        term_of::<U>(s) == t,
{
    let block = <U::Block as Block>::from_words(t.1, t.2);
    proof {
        lemma_word_powers();
        lemma_bit_of_words(t.1 as nat, t.2 as nat, 0);
    }
    if t.0 == 0 {
        Signed::Pos(Register(block))
    } else {
        Signed::Neg(Register(block))
    }
}

/// The terms kept in order by the loop of `Expended::add` from positions `i`
/// of `a` and `j` of `b` on: the smaller head goes first (the head of `b` on
/// ties), and once a side is done the rest of the other follows.
pub open spec fn merge_terms(a: Seq<Term>, b: Seq<Term>, i: nat, j: nat) -> Seq<Term>
    decreases a.len() - i + b.len() - j,
{
    if i >= a.len() {
        b.subrange(j as int, b.len() as int)
    } else if j >= b.len() {
        a.subrange(i as int, a.len() as int)
    } else if term_le(a[i as int], b[j as int]) && a[i as int] != b[j as int] {
        seq![a[i as int]] + merge_terms(a, b, i + 1, j)
    } else {
        seq![b[j as int]] + merge_terms(a, b, i, j + 1)
    }
}

/// Every term of `s` is at least `t`.
pub open spec fn bounded_below(t: Term, s: Seq<Term>) -> bool {
    forall|k: int| 0 <= k < s.len() ==> term_le(t, #[trigger] s[k])
}

proof fn lemma_merge_terms_sorted(a: Seq<Term>, b: Seq<Term>, i: nat, j: nat)
    requires
        sorted_by(a, term_order()),
        sorted_by(b, term_order()),
        i <= a.len(),
        j <= b.len(),
    ensures
        sorted_by(merge_terms(a, b, i, j), term_order()),
        forall|t: Term|
            bounded_below(t, a.subrange(i as int, a.len() as int)) && bounded_below(
                t,
                b.subrange(j as int, b.len() as int),
            ) ==> #[trigger] bounded_below(t, merge_terms(a, b, i, j)),
    decreases a.len() - i + b.len() - j,
{
    let m = merge_terms(a, b, i, j);
    if i >= a.len() {
        assert forall|x: int, y: int| 0 <= x < y < m.len() implies #[trigger] term_order()(
            m[x],
            m[y],
        ) by {
            assert(term_order()(b[j + x], b[j + y]));
        }
    } else if j >= b.len() {
        assert forall|x: int, y: int| 0 <= x < y < m.len() implies #[trigger] term_order()(
            m[x],
            m[y],
        ) by {
            assert(term_order()(a[i + x], a[i + y]));
        }
    } else if term_le(a[i as int], b[j as int]) && a[i as int] != b[j as int] {
        lemma_merge_terms_sorted(a, b, i + 1, j);
        let rest = merge_terms(a, b, i + 1, j);
        let h = a[i as int];
        assert(bounded_below(h, a.subrange(i + 1 as int, a.len() as int))) by {
            assert forall|k: int| 0 <= k < a.len() - (i + 1) implies term_le(
                h,
                #[trigger] a.subrange(i + 1 as int, a.len() as int)[k],
            ) by {
                assert(term_order()(a[i as int], a[i + 1 + k]));
            }
        }
        assert(bounded_below(h, b.subrange(j as int, b.len() as int))) by {
            assert forall|k: int| 0 <= k < b.len() - j implies term_le(
                h,
                #[trigger] b.subrange(j as int, b.len() as int)[k],
            ) by {
                if k > 0 {
                    assert(term_order()(b[j as int], b[j + k]));
                }
            }
        }
        assert(bounded_below(h, rest));
        assert forall|x: int, y: int| 0 <= x < y < m.len() implies #[trigger] term_order()(
            m[x],
            m[y],
        ) by {
            if x == 0 {
                assert(m[y] == rest[y - 1]);
            } else {
                assert(m[x] == rest[x - 1] && m[y] == rest[y - 1]);
                assert(term_order()(rest[x - 1], rest[y - 1]));
            }
        }
        assert forall|t: Term|
            bounded_below(t, a.subrange(i as int, a.len() as int)) && bounded_below(
                t,
                b.subrange(j as int, b.len() as int),
            ) implies #[trigger] bounded_below(t, m) by {
            assert(term_le(t, a.subrange(i as int, a.len() as int)[0]));
            assert forall|k: int| 0 <= k < a.len() - (i + 1) implies term_le(
                t,
                #[trigger] a.subrange(i + 1 as int, a.len() as int)[k],
            ) by {
                assert(a.subrange(i + 1 as int, a.len() as int)[k] == a.subrange(
                    i as int,
                    a.len() as int,
                )[k + 1]);
            }
            assert(bounded_below(t, rest));
            assert forall|k: int| 0 <= k < m.len() implies term_le(t, #[trigger] m[k]) by {
                if k > 0 {
                    assert(m[k] == rest[k - 1]);
                }
            }
        }
    } else {
        lemma_merge_terms_sorted(a, b, i, j + 1);
        let rest = merge_terms(a, b, i, j + 1);
        let h = b[j as int];
        assert(bounded_below(h, b.subrange(j + 1 as int, b.len() as int))) by {
            assert forall|k: int| 0 <= k < b.len() - (j + 1) implies term_le(
                h,
                #[trigger] b.subrange(j + 1 as int, b.len() as int)[k],
            ) by {
                assert(term_order()(b[j as int], b[j + 1 + k]));
            }
        }
        assert(bounded_below(h, a.subrange(i as int, a.len() as int))) by {
            assert forall|k: int| 0 <= k < a.len() - i implies term_le(
                h,
                #[trigger] a.subrange(i as int, a.len() as int)[k],
            ) by {
                if k > 0 {
                    assert(term_order()(a[i as int], a[i + k]));
                }
            }
        }
        assert(bounded_below(h, rest));
        assert forall|x: int, y: int| 0 <= x < y < m.len() implies #[trigger] term_order()(
            m[x],
            m[y],
        ) by {
            if x == 0 {
                assert(m[y] == rest[y - 1]);
            } else {
                assert(m[x] == rest[x - 1] && m[y] == rest[y - 1]);
                assert(term_order()(rest[x - 1], rest[y - 1]));
            }
        }
        assert forall|t: Term|
            bounded_below(t, a.subrange(i as int, a.len() as int)) && bounded_below(
                t,
                b.subrange(j as int, b.len() as int),
            ) implies #[trigger] bounded_below(t, m) by {
            assert(term_le(t, b.subrange(j as int, b.len() as int)[0]));
            assert forall|k: int| 0 <= k < b.len() - (j + 1) implies term_le(
                t,
                #[trigger] b.subrange(j + 1 as int, b.len() as int)[k],
            ) by {
                assert(b.subrange(j + 1 as int, b.len() as int)[k] == b.subrange(
                    j as int,
                    b.len() as int,
                )[k + 1]);
            }
            assert(bounded_below(t, rest));
            assert forall|k: int| 0 <= k < m.len() implies term_le(t, #[trigger] m[k]) by {
                if k > 0 {
                    assert(m[k] == rest[k - 1]);
                }
            }
        }
    }
}

/// Represent a sum of multiplicative expressions and coefficients in the most
/// expanded fashion: a sorted collection of signed products.
pub struct Expended<U: SWAR> {
    terms: SortedVec<Term>,
    kind: PhantomData<U>,
}

impl<U: SWAR> Expended<U> {
    #[verifier::type_invariant]
    spec fn well_formed(self) -> bool {
        &&& sorted_by(sorted_terms(self.terms), term_order())
        &&& forall|k: int|
            0 <= k < sorted_terms(self.terms).len() ==> term_valid::<U>(
                #[trigger] sorted_terms(self.terms)[k],
            )
    }
}

impl<U: SWAR> View for Expended<U> {
    type V = Seq<Term>;

    closed spec fn view(&self) -> Seq<Term> {
        sorted_terms(self.terms)
    }
}

/// `f` applied to every pair of a term of `a` and a term of `b`, row by row.
pub open spec fn pairwise(a: Seq<Term>, b: Seq<Term>, f: spec_fn(Term, Term) -> Term) -> Seq<Term>
    decreases a.len(),
{
    if a.len() == 0 {
        Seq::empty()
    } else {
        pairwise(a.drop_last(), b, f) + b.map_values(|y: Term| f(a.last(), y))
    }
}

/// Every pair of terms can be multiplied (see `Register::mul`).
pub open spec fn all_mul_fit<U: SWAR>(a: Seq<Term>, b: Seq<Term>) -> bool {
    forall|i: int, j: int|
        0 <= i < a.len() && 0 <= j < b.len() ==> mul_fits(
            term_value(#[trigger] a[i]),
            term_value(#[trigger] b[j]),
            <U::Block as Block>::leverage(),
            pow2(<U::Block as Block>::width()),
        )
}

/// Every pair of terms can be divided (see `Register::div`).
pub open spec fn all_div_fit<U: SWAR>(a: Seq<Term>, b: Seq<Term>) -> bool {
    forall|i: int, j: int|
        0 <= i < a.len() && 0 <= j < b.len() ==> div_fits(
            term_value(#[trigger] a[i]),
            term_value(#[trigger] b[j]),
            <U::Block as Block>::leverage(),
            pow2(<U::Block as Block>::width()),
        )
}

/// The product of two terms, or their quotient, as a function.
pub open spec fn pair_op<U: SWAR>(quotient: bool) -> spec_fn(Term, Term) -> Term {
    if quotient {
        |x: Term, y: Term| term_div::<U>(x, y)
    } else {
        |x: Term, y: Term| term_mul::<U>(x, y)
    }
}

/// The product of two expansions: every product of a term of `a` by a term of `b`, in order.
pub open spec fn product_terms<U: SWAR>(a: Seq<Term>, b: Seq<Term>) -> Seq<Term> {
    pairwise(a, b, pair_op::<U>(false)).sort_by(term_order())
}

/// The quotient of two expansions: every quotient of a term of `a` by a term of `b`, in order.
pub open spec fn quotient_terms<U: SWAR>(a: Seq<Term>, b: Seq<Term>) -> Seq<Term> {
    pairwise(a, b, pair_op::<U>(true)).sort_by(term_order())
}

/// Every pair of terms can be multiplied, or divided.
pub open spec fn all_pairs_fit<U: SWAR>(a: Seq<Term>, b: Seq<Term>, quotient: bool) -> bool {
    if quotient {
        all_div_fit::<U>(a, b)
    } else {
        all_mul_fit::<U>(a, b)
    }
}

/// The register value of a stored signed register is its block.
proof fn lemma_term_value_of<U: SWAR>(s: Signed<Register<U>>)
    ensures
        term_value(term_of::<U>(s)) == signed_block(s),
        term_of::<U>(s).0 == sign_tag(s),
{
    inner(s).0.lemma_fits();
    lemma_word_powers();
    let w = <U::Block as Block>::width();
    if w < 256 {
        vstd::arithmetic::power2::lemma_pow2_strictly_increases(w, 256);
    }
    let v = signed_block(s);
    lemma_fundamental_div_mod(v as int, word_base() as int);
    assert(v / word_base() < word_base()) by (nonlinear_arith)
        requires
            v < word_base() * word_base(),
            word_base() > 0,
    ;
    vstd::arithmetic::mul::lemma_mul_is_commutative((v / word_base()) as int, word_base() as int);
}

/// Every term of `s` stands for a signed register of `U`.
pub open spec fn all_valid<U: SWAR>(s: Seq<Term>) -> bool {
    forall|k: int| 0 <= k < s.len() ==> term_valid::<U>(#[trigger] s[k])
}

/// Two arrangements of the same terms hold the same valid terms.
proof fn lemma_valid_by_multiset<U: SWAR>(s: Seq<Term>, t: Seq<Term>)
    requires
        all_valid::<U>(t),
        s.to_multiset() == t.to_multiset(),
    ensures
        all_valid::<U>(s),
{
    broadcast use vstd::seq_lib::group_to_multiset_ensures;

    assert forall|k: int| 0 <= k < s.len() implies term_valid::<U>(#[trigger] s[k]) by {
        assert(s.contains(s[k]));
        assert(t.to_multiset().count(s[k]) > 0);
        assert(t.contains(s[k]));
    }
}

proof fn lemma_merge_terms_valid<U: SWAR>(a: Seq<Term>, b: Seq<Term>, i: nat, j: nat)
    requires
        i <= a.len(),
        j <= b.len(),
        all_valid::<U>(a),
        all_valid::<U>(b),
    ensures
        all_valid::<U>(merge_terms(a, b, i, j)),
    decreases a.len() - i + b.len() - j,
{
    if i >= a.len() {
        let m = b.subrange(j as int, b.len() as int);
        assert forall|k: int| 0 <= k < m.len() implies term_valid::<U>(#[trigger] m[k]) by {
            assert(m[k] == b[j + k]);
        }
    } else if j >= b.len() {
        let m = a.subrange(i as int, a.len() as int);
        assert forall|k: int| 0 <= k < m.len() implies term_valid::<U>(#[trigger] m[k]) by {
            assert(m[k] == a[i + k]);
        }
    } else {
        assert(term_valid::<U>(a[i as int]) && term_valid::<U>(b[j as int]));
        lemma_merge_terms_valid::<U>(a, b, i + 1, j);
        lemma_merge_terms_valid::<U>(a, b, i, j + 1);
        let m = merge_terms(a, b, i, j);
        assert forall|k: int| 0 <= k < m.len() implies term_valid::<U>(#[trigger] m[k]) by {
            if k > 0 {
                if term_le(a[i as int], b[j as int]) && a[i as int] != b[j as int] {
                    assert(m[k] == merge_terms(a, b, i + 1, j)[k - 1]);
                } else {
                    assert(m[k] == merge_terms(a, b, i, j + 1)[k - 1]);
                }
            }
        }
    }
}

/// The difference of two expansions: the terms of `a` and the terms of `b`,
/// negated, in order.
pub open spec fn difference_terms(a: Seq<Term>, b: Seq<Term>) -> Seq<Term> {
    (a + b.map_values(|t: Term| term_negated(t))).sort_by(term_order())
}

/// Subtracting flips the sign of every term of the right side: the terms of
/// a difference are those of the left side and, for each term of the right
/// side, the same register with the other sign, each as many times as it
/// occurs there.
pub proof fn lemma_sub_flips_right(a: Seq<Term>, b: Seq<Term>)
    requires
        forall|x: int| 0 <= x < b.len() ==> (#[trigger] b[x]).0 <= 1,
    ensures
        difference_terms(a, b).to_multiset() == a.to_multiset().add(
            b.map_values(|t: Term| (if t.0 == 0 { 1u8 } else { 0u8 }, t.1, t.2)).to_multiset(),
        ),
{
    broadcast use vstd::seq_lib::group_to_multiset_ensures;

    lemma_term_order_total();
    let f = b.map_values(|t: Term| (if t.0 == 0 { 1u8 } else { 0u8 }, t.1, t.2));
    let n = b.map_values(|t: Term| term_negated(t));
    assert(n =~= f) by {
        assert forall|x: int| 0 <= x < b.len() implies n[x] == f[x] by {
            assert(b[x].0 <= 1);
        }
    }
    let c = a + n;
    c.lemma_sort_by_ensures(term_order());
    vstd::seq_lib::lemma_multiset_commutative(a, n);
}

/// A sorted vector of the given terms, in order.
fn sorted_of<U: SWAR>(vec: Vec<Term>) -> (r: SortedVec<Term>)
    requires
        all_valid::<U>(vec@),
    ensures
        sorted_terms(r) == vec@.sort_by(term_order()),
        sorted_by(sorted_terms(r), term_order()),
        all_valid::<U>(sorted_terms(r)),
{
    let r = terms_from_unsorted(vec);
    proof {
        lemma_term_order_total();
        vec@.lemma_sort_by_ensures(term_order());
        lemma_sorted_unique(sorted_terms(r), vec@.sort_by(term_order()), term_order());
        lemma_valid_by_multiset::<U>(sorted_terms(r), vec@);
    }
    r
}

/// A sorted vector made of the given terms, which must already be in order.
fn sorted_from(vec: Vec<Term>) -> (r: SortedVec<Term>)
    requires
        sorted_by(vec@, term_order()),
    ensures
        sorted_terms(r) == vec@,
{
    let r = terms_from_unsorted(vec);
    proof {
        lemma_term_order_total();
        lemma_sorted_unique(sorted_terms(r), vec@, term_order());
    }
    r
}

/// A product (or a quotient) of two terms of these values can be carried out.
pub open spec fn pair_fits_spec<U: SWAR>(a: Term, b: Term, quotient: bool) -> bool {
    if quotient {
        div_fits(
            term_value(a),
            term_value(b),
            <U::Block as Block>::leverage(),
            pow2(<U::Block as Block>::width()),
        )
    } else {
        mul_fits(
            term_value(a),
            term_value(b),
            <U::Block as Block>::leverage(),
            pow2(<U::Block as Block>::width()),
        )
    }
}

/// Whether a product (or a quotient) of two terms stays inside the registers.
fn pair_fits<U: SWAR>(a: Term, b: Term, quotient: bool) -> (r: bool)
    requires
        term_valid::<U>(a),
        term_valid::<U>(b),
    ensures
        r == pair_fits_spec::<U>(a, b, quotient),
{
    let x = <U::Block as Block>::from_words(a.1, a.2);
    let y = <U::Block as Block>::from_words(b.1, b.2);
    let lev = <U::Block as Block>::zero();
    let max = <U::Block as Block>::max_value();
    proof {
        lev.lemma_fits();
        vstd::arithmetic::power2::lemma_pow2_pos(<U::Block as Block>::width());
    }
    if !quotient {
        if !x.less_than(&lev) {
            let d = x.minus(lev);
            !max.minus(d).less_than(&y)
        } else if !y.less_than(&lev) {
            let d = y.minus(lev);
            !max.minus(d).less_than(&x)
        } else {
            !y.less_than(&lev.minus(x))
        }
    } else {
        if !x.less_than(&y) {
            let d = x.minus(y);
            !max.minus(lev).less_than(&d)
        } else {
            let d = y.minus(x);
            !lev.less_than(&d)
        }
    }
}

/// Whether every pair of a term of `a` and a term of `b` can be multiplied (or divided).
fn pairs_fit<U: SWAR>(a: &Vec<Term>, b: &Vec<Term>, quotient: bool) -> (r: bool)
    requires
        all_valid::<U>(a@),
        all_valid::<U>(b@),
    ensures
        r == all_pairs_fit::<U>(a@, b@, quotient),
{
    let mut i: usize = 0;
    while i < a.len()
        invariant
            i <= a.len(),
            all_valid::<U>(a@),
            all_valid::<U>(b@),
            forall|p: int, q: int|
                0 <= p < i && 0 <= q < b.len() ==> pair_fits_spec::<U>(
                    #[trigger] a@[p],
                    #[trigger] b@[q],
                    quotient,
                ),
        decreases a.len() - i,
    {
        let mut j: usize = 0;
        while j < b.len()
            invariant
                i < a.len(),
                j <= b.len(),
                all_valid::<U>(a@),
                all_valid::<U>(b@),
                forall|p: int, q: int|
                    0 <= p < i && 0 <= q < b.len() ==> pair_fits_spec::<U>(
                        #[trigger] a@[p],
                        #[trigger] b@[q],
                        quotient,
                    ),
                forall|q: int| 0 <= q < j ==> pair_fits_spec::<U>(a@[i as int], #[trigger] b@[q], quotient),
            decreases b.len() - j,
        {
            proof {
                assert(term_valid::<U>(a@[i as int]) && term_valid::<U>(b@[j as int]));
            }
            if !pair_fits::<U>(a[i], b[j], quotient) {
                proof {
                    assert(!pair_fits_spec::<U>(a@[i as int], b@[j as int], quotient));
                }
                return false;
            }
            j = j + 1;
        }
        i = i + 1;
    }
    true
}

impl<U: SWAR> Expended<U> {
    /// The empty expansion.
    pub fn new() -> (r: Self)
        ensures
            r@ == Seq::<Term>::empty(),
            sorted_by(r@, term_order()),
    {
        Expended { terms: terms_new(), kind: PhantomData }
    }

    /// The terms, in order.
    pub fn terms(&self) -> (r: Vec<Term>)
        ensures
            r@ == self@,
    {
        terms_items(&self.terms)
    }

    /// The sum: both sets of terms, merged in order.
    pub fn add(self, rhs: Self) -> (r: Self)
        ensures
            r@ == merge_terms(self@, rhs@, 0, 0),
            sorted_by(r@, term_order()),
    {
        proof {
            use_type_invariant(&self);
            use_type_invariant(&rhs);
        }
        let a = terms_items(&self.terms);
        let b = terms_items(&rhs.terms);
        let ghost full = merge_terms(a@, b@, 0, 0);
        let mut vec: Vec<Term> = Vec::new();
        let mut i: usize = 0;
        let mut j: usize = 0;
        while i < a.len() && j < b.len()
            invariant
                i <= a.len(),
                j <= b.len(),
                vec@ + merge_terms(a@, b@, i as nat, j as nat) == full,
            decreases a.len() - i + b.len() - j,
        {
            if term_less(&a[i], &b[j]) {
                vec.push(a[i]);
                i = i + 1;
            } else {
                vec.push(b[j]);
                j = j + 1;
            }
            proof {
                assert(vec@ + merge_terms(a@, b@, i as nat, j as nat) =~= full);
            }
        }
        while i < a.len()
            invariant
                i <= a.len(),
                j <= b.len(),
                i < a.len() ==> j >= b.len(),
                vec@ + merge_terms(a@, b@, i as nat, j as nat) == full,
            decreases a.len() - i,
        {
            vec.push(a[i]);
            i = i + 1;
            proof {
                assert(vec@ + merge_terms(a@, b@, i as nat, j as nat) =~= full);
            }
        }
        while j < b.len()
            invariant
                i == a.len(),
                j <= b.len(),
                vec@ + merge_terms(a@, b@, i as nat, j as nat) == full,
            decreases b.len() - j,
        {
            vec.push(b[j]);
            j = j + 1;
            proof {
                assert(vec@ + merge_terms(a@, b@, i as nat, j as nat) =~= full);
            }
        }
        proof {
            assert(vec@ =~= full);
            lemma_merge_terms_sorted(a@, b@, 0, 0);
            lemma_merge_terms_valid::<U>(a@, b@, 0, 0);
        }
        Expended { terms: sorted_from(vec), kind: PhantomData }
    }

    /// The difference: the terms of `self` and the terms of `rhs`, negated,
    /// kept in order.
    pub fn sub(self, rhs: Self) -> (r: Self)
        ensures
            r@ == difference_terms(self@, rhs@),
            sorted_by(r@, term_order()),
    {
        proof {
            use_type_invariant(&self);
            use_type_invariant(&rhs);
        }
        let a = terms_items(&self.terms);
        let b = terms_items(&rhs.terms);
        let ghost negs = b@.map_values(|t: Term| term_negated(t));
        let mut vec: Vec<Term> = Vec::new();
        let mut i: usize = 0;
        while i < a.len()
            invariant
                i <= a.len(),
                all_valid::<U>(a@),
                vec@ == a@.take(i as int),
            decreases a.len() - i,
        {
            vec.push(a[i]);
            i = i + 1;
            proof {
                assert(vec@ =~= a@.take(i as int));
            }
        }
        let mut j: usize = 0;
        while j < b.len()
            invariant
                j <= b.len(),
                a@.take(a.len() as int) == a@,
                all_valid::<U>(a@),
                all_valid::<U>(b@),
                negs == b@.map_values(|t: Term| term_negated(t)),
                vec@ == a@ + negs.take(j as int),
            decreases b.len() - j,
        {
            proof {
                assert(term_valid::<U>(b@[j as int]));
            }
            let t = decode::<U>(b[j]);
            let n = encode::<U>(t.neg());
            proof {
                lemma_term_value_of::<U>(t);
                lemma_term_value_of::<U>(negated(t));
                assert(n == negs[j as int]);
            }
            vec.push(n);
            j = j + 1;
            proof {
                assert(vec@ =~= a@ + negs.take(j as int));
            }
        }
        proof {
            assert(negs.take(j as int) =~= negs);
            assert forall|k: int| 0 <= k < vec@.len() implies term_valid::<U>(#[trigger] vec@[k]) by {
                if k < a@.len() {
                    assert(vec@[k] == a@[k]);
                } else {
                    assert(vec@[k] == negs[k - a@.len()]);
                    assert(term_valid::<U>(b@[k - a@.len()]));
                }
            }
        }
        Expended { terms: sorted_of::<U>(vec), kind: PhantomData }
    }
}

/// The product (or quotient) of two stored terms, through their signed registers.
fn term_pair<U: SWAR>(a: Term, b: Term, quotient: bool) -> (t: Term)
    requires
        term_valid::<U>(a),
        term_valid::<U>(b),
        quotient ==> div_fits(
            term_value(a),
            term_value(b),
            <U::Block as Block>::leverage(),
            pow2(<U::Block as Block>::width()),
        ),
        !quotient ==> mul_fits(
            term_value(a),
            term_value(b),
            <U::Block as Block>::leverage(),
            pow2(<U::Block as Block>::width()),
        ),
    ensures
        t == (pair_op::<U>(quotient))(a, b),
        term_valid::<U>(t),
{
    let x = decode::<U>(a);
    let y = decode::<U>(b);
    proof {
        lemma_term_value_of::<U>(x);
        lemma_term_value_of::<U>(y);
    }
    let p = if quotient {
        x.div(y)
    } else {
        x.mul(y)
    };
    proof {
        lemma_term_value_of::<U>(p);
    }
    encode::<U>(p)
}

/// The products (or quotients) of every pair of terms, pushed one by one into a
/// sorted vector, row by row.
fn pairs_sorted<U: SWAR>(a: &Vec<Term>, b: &Vec<Term>, quotient: bool) -> (r: SortedVec<Term>)
    requires
        all_valid::<U>(a@),
        all_valid::<U>(b@),
        all_pairs_fit::<U>(a@, b@, quotient),
    ensures
        sorted_terms(r) == pairwise(a@, b@, pair_op::<U>(quotient)).sort_by(term_order()),
        sorted_by(sorted_terms(r), term_order()),
        all_valid::<U>(sorted_terms(r)),
{
    broadcast use vstd::seq_lib::group_to_multiset_ensures;

    let ghost f = pair_op::<U>(quotient);
    let mut acc = terms_new();
    let ghost mut pushed: Seq<Term> = Seq::empty();
    let mut i: usize = 0;
    while i < a.len()
        invariant
            i <= a.len(),
            f == pair_op::<U>(quotient),
            all_valid::<U>(a@),
            all_valid::<U>(b@),
            all_pairs_fit::<U>(a@, b@, quotient),
            pushed == pairwise(a@.take(i as int), b@, f),
            sorted_by(sorted_terms(acc), term_order()),
            sorted_terms(acc).to_multiset() == pushed.to_multiset(),
            all_valid::<U>(pushed),
        decreases a.len() - i,
    {
        let mut j: usize = 0;
        while j < b.len()
            invariant
                i < a.len(),
                j <= b.len(),
                f == pair_op::<U>(quotient),
                all_valid::<U>(a@),
                all_valid::<U>(b@),
                all_pairs_fit::<U>(a@, b@, quotient),
                pushed == pairwise(a@.take(i as int), b@, f) + b@.take(j as int).map_values(
                    |y: Term| f(a@[i as int], y),
                ),
                sorted_by(sorted_terms(acc), term_order()),
                sorted_terms(acc).to_multiset() == pushed.to_multiset(),
                all_valid::<U>(pushed),
            decreases b.len() - j,
        {
            proof {
                assert(term_valid::<U>(a@[i as int]) && term_valid::<U>(b@[j as int]));
            }
            let t = term_pair::<U>(a[i], b[j], quotient);
            terms_push(&mut acc, t);
            proof {
                let before = pushed;
                pushed = pushed.push(t);
                vstd::seq_lib::to_multiset_build(before, t);
                assert(b@.take(j + 1).map_values(|y: Term| f(a@[i as int], y)) =~= b@.take(
                    j as int,
                ).map_values(|y: Term| f(a@[i as int], y)).push(t));
                assert(pushed =~= pairwise(a@.take(i as int), b@, f) + b@.take(j + 1).map_values(
                    |y: Term| f(a@[i as int], y),
                ));
                assert forall|k: int| 0 <= k < pushed.len() implies term_valid::<U>(
                    #[trigger] pushed[k],
                ) by {
                    if k < before.len() {
                        assert(pushed[k] == before[k]);
                    }
                }
            }
            j = j + 1;
        }
        proof {
            assert(a@.take(i + 1).drop_last() =~= a@.take(i as int));
            assert(b@.take(j as int) =~= b@);
            assert(b@.map_values(|y: Term| f(a@.take(i + 1).last(), y)) =~= b@.take(
                j as int,
            ).map_values(|y: Term| f(a@[i as int], y)));
        }
        i = i + 1;
    }
    proof {
        assert(a@.take(i as int) =~= a@);
        lemma_term_order_total();
        pushed.lemma_sort_by_ensures(term_order());
        lemma_sorted_unique(sorted_terms(acc), pushed.sort_by(term_order()), term_order());
        lemma_valid_by_multiset::<U>(sorted_terms(acc), pushed);
    }
    acc
}

impl<U: SWAR> Expended<U> {
    /// The product: every product of a term of `self` by a term of `rhs`
    /// (see `Signed::<Register<U>>::mul`), in order.
    pub fn mul(self, rhs: Self) -> (r: Self)
        requires
            all_mul_fit::<U>(self@, rhs@),
        ensures
            r@ == product_terms::<U>(self@, rhs@),
            sorted_by(r@, term_order()),
    {
        proof {
            use_type_invariant(&self);
            use_type_invariant(&rhs);
        }
        let a = terms_items(&self.terms);
        let b = terms_items(&rhs.terms);
        Expended { terms: pairs_sorted::<U>(&a, &b, false), kind: PhantomData }
    }

    /// The quotient: every quotient of a term of `self` by a term of `rhs`
    /// (see `Signed::<Register<U>>::div`), in order.
    pub fn div(self, rhs: Self) -> (r: Self)
        requires
            all_div_fit::<U>(self@, rhs@),
        ensures
            r@ == quotient_terms::<U>(self@, rhs@),
            sorted_by(r@, term_order()),
    {
        proof {
            use_type_invariant(&self);
            use_type_invariant(&rhs);
        }
        let a = terms_items(&self.terms);
        let b = terms_items(&rhs.terms);
        Expended { terms: pairs_sorted::<U>(&a, &b, true), kind: PhantomData }
    }
}

/// The term of the leaf `index` of a tree: the positive register of the single
/// variable `index`, that is `ZERO` with chunk `index` raised by one (power one
/// for that variable, power zero for every other).
pub open spec fn leaf_term<U: SWAR>(index: nat) -> Term {
    term_from(
        0,
        <U::Block as Block>::leverage() + pow2(index * <U::Chunk as Chunk>::width()),
    )
}

/// `index` names a chunk of the registers of `U`.
pub open spec fn is_variable<U: SWAR>(index: nat) -> bool {
    (index + 1) * <U::Chunk as Chunk>::width() <= <U::Block as Block>::width()
}

/// The register of the single variable `index`: `ZERO` with chunk `index`
/// raised by one.
fn variable_block<U: SWAR>(index: usize) -> (r: U::Block)
    requires
        is_variable::<U>(index as nat),
    ensures
        r.val() == <U::Block as Block>::leverage() + pow2(
            (index * <U::Chunk as Chunk>::width()) as nat,
        ),
{
    let ghost w = <U::Chunk as Chunk>::width();
    let ghost bw = <U::Block as Block>::width();
    let zero = <U::Block as Block>::zero();
    proof {
        <U::Chunk as Chunk>::lemma_width();
        zero.lemma_fits();
        assert((index + 1) * w == index * w + w) by (nonlinear_arith);
        assert(index < 64) by (nonlinear_arith)
            requires
                (index + 1) * w <= bw,
                bw <= 256,
                w >= 4,
        ;
    }
    let shift = (index as u32) * <U::Chunk as Chunk>::bits();
    let ghost s = shift as nat;
    let one = <U::Block as Block>::from_byte(1).shifted_left(shift);
    proof {
        one.lemma_fits();
        vstd::arithmetic::power2::lemma2_to64();
        vstd::arithmetic::power2::lemma_pow2_strictly_increases(s, bw);
        assert forall|i: nat| i < bw implies #[trigger] bit(one.val(), i) == bit(pow2(s), i) by {
            lemma_bit_of_shifted(1, s, i);
            if s <= i {
                lemma_bit_of_mask(1, (i - s) as nat);
            }
        }
        lemma_bits_determine(one.val(), pow2(s), bw);
        U::lemma_raise_fits(index as nat);
    }
    zero.plus(one)
}

/// Whether `index` names a chunk of the registers of `U`.
fn names_variable<U: SWAR>(index: usize) -> (r: bool)
    ensures
        r == is_variable::<U>(index as nat),
{
    let w = <U::Chunk as Chunk>::bits();
    let bw = <U::Block as Block>::bits();
    let zero = <U::Block as Block>::zero();
    proof {
        <U::Chunk as Chunk>::lemma_width();
        zero.lemma_fits();
    }
    if index >= 64 {
        proof {
            assert((index + 1) * w > 256) by (nonlinear_arith)
                requires
                    index >= 64,
                    w >= 4,
            ;
        }
        false
    } else {
        proof {
            assert((index + 1) * w <= 65 * 8) by (nonlinear_arith)
                requires
                    index < 64,
                    w <= 8,
            ;
        }
        ((index as u32) + 1) * w <= bw
    }
}

/// The expansion of a tree, operation by operation.
pub open spec fn expansion<U: SWAR>(t: MathTree) -> Seq<Term>
    decreases t,
{
    match t {
        MathTree::Index(i) => seq![leaf_term::<U>(i as nat)],
        MathTree::BinOp(op) => match op {
            BinOp::Add { l, r } => merge_terms(expansion::<U>(*l), expansion::<U>(*r), 0, 0),
            BinOp::Sub { l, r } => difference_terms(expansion::<U>(*l), expansion::<U>(*r)),
            BinOp::Mul { l, r } => product_terms::<U>(expansion::<U>(*l), expansion::<U>(*r)),
            BinOp::Div { l, r } => quotient_terms::<U>(expansion::<U>(*l), expansion::<U>(*r)),
        },
    }
}

/// Every operation of the tree can be carried out: each leaf names a chunk,
/// and each product and quotient stays inside the registers.
pub open spec fn expandable<U: SWAR>(t: MathTree) -> bool
    decreases t,
{
    match t {
        MathTree::Index(i) => is_variable::<U>(i as nat),
        MathTree::BinOp(op) => match op {
            BinOp::Add { l, r } => expandable::<U>(*l) && expandable::<U>(*r),
            BinOp::Sub { l, r } => expandable::<U>(*l) && expandable::<U>(*r),
            BinOp::Mul { l, r } => expandable::<U>(*l) && expandable::<U>(*r) && all_mul_fit::<U>(
                expansion::<U>(*l),
                expansion::<U>(*r),
            ),
            BinOp::Div { l, r } => expandable::<U>(*l) && expandable::<U>(*r) && all_div_fit::<U>(
                expansion::<U>(*l),
                expansion::<U>(*r),
            ),
        },
    }
}

impl<U: SWAR> Expended<U> {
    /// The expansion of a tree: a leaf is a single positive register at zero,
    /// and each operation combines the expansions of its two sides.
    pub fn from(value: MathTree) -> (r: Self)
        requires
            expandable::<U>(value),
        ensures
            r@ == expansion::<U>(value),
            sorted_by(r@, term_order()),
        decreases value,
    {
        match value {
            MathTree::Index(i) => {
                let mut terms = terms_new();
                let t = encode::<U>(Signed::Pos(Register(variable_block::<U>(i))));
                terms_push(&mut terms, t);
                proof {
                    let one = seq![t];
                    vstd::seq_lib::to_multiset_build(Seq::<Term>::empty(), t);
                    assert(Seq::<Term>::empty().push(t) =~= one);
                    lemma_term_order_total();
                    lemma_sorted_unique(sorted_terms(terms), one, term_order());
                    assert(sorted_terms(terms) =~= one);
                }
                Expended { terms, kind: PhantomData }
            },
            MathTree::BinOp(bin) => match bin {
                BinOp::Add { l, r } => Expended::from(*l).add(Expended::from(*r)),
                BinOp::Sub { l, r } => Expended::from(*l).sub(Expended::from(*r)),
                BinOp::Mul { l, r } => Expended::from(*l).mul(Expended::from(*r)),
                BinOp::Div { l, r } => Expended::from(*l).div(Expended::from(*r)),
            },
        }
    }
}

impl<U: SWAR> Default for Expended<U> {
    /// The empty expansion.
    fn default() -> (r: Self)
        ensures
            r@ == Seq::<Term>::empty(),
    {
        Self::new()
    }
}

proof fn lemma_merge_terms_multiset(a: Seq<Term>, b: Seq<Term>, i: nat, j: nat)
    requires
        i <= a.len(),
        j <= b.len(),
    ensures
        merge_terms(a, b, i, j).to_multiset() == a.subrange(i as int, a.len() as int).to_multiset().add(
            b.subrange(j as int, b.len() as int).to_multiset(),
        ),
    decreases a.len() - i + b.len() - j,
{
    broadcast use vstd::seq_lib::group_to_multiset_ensures;
    broadcast use vstd::multiset::group_multiset_axioms;

    let ra = a.subrange(i as int, a.len() as int);
    let rb = b.subrange(j as int, b.len() as int);
    if i >= a.len() {
        assert(ra.to_multiset() =~= Multiset::empty());
        assert(ra.to_multiset().add(rb.to_multiset()) =~= rb.to_multiset());
    } else if j >= b.len() {
        assert(rb.to_multiset() =~= Multiset::empty());
        assert(ra.to_multiset().add(rb.to_multiset()) =~= ra.to_multiset());
    } else if term_le(a[i as int], b[j as int]) && a[i as int] != b[j as int] {
        lemma_merge_terms_multiset(a, b, i + 1, j);
        let rest = merge_terms(a, b, i + 1, j);
        vstd::seq_lib::lemma_multiset_commutative(seq![a[i as int]], rest);
        assert(ra =~= seq![a[i as int]] + a.subrange(i + 1 as int, a.len() as int));
        vstd::seq_lib::lemma_multiset_commutative(
            seq![a[i as int]],
            a.subrange(i + 1 as int, a.len() as int),
        );
        assert(merge_terms(a, b, i, j).to_multiset() =~= ra.to_multiset().add(rb.to_multiset()));
    } else {
        lemma_merge_terms_multiset(a, b, i, j + 1);
        let rest = merge_terms(a, b, i, j + 1);
        vstd::seq_lib::lemma_multiset_commutative(seq![b[j as int]], rest);
        assert(rb =~= seq![b[j as int]] + b.subrange(j + 1 as int, b.len() as int));
        vstd::seq_lib::lemma_multiset_commutative(
            seq![b[j as int]],
            b.subrange(j + 1 as int, b.len() as int),
        );
        assert(merge_terms(a, b, i, j).to_multiset() =~= ra.to_multiset().add(rb.to_multiset()));
    }
}

/// A sum holds every term of both sides, each as many times as it occurs there.
pub proof fn lemma_add_keeps_terms(a: Seq<Term>, b: Seq<Term>)
    ensures
        merge_terms(a, b, 0, 0).to_multiset() == a.to_multiset().add(b.to_multiset()),
{
    lemma_merge_terms_multiset(a, b, 0, 0);
    assert(a.subrange(0, a.len() as int) =~= a);
    assert(b.subrange(0, b.len() as int) =~= b);
}

/// Adding nothing, on either side, changes nothing.
pub proof fn lemma_add_nothing(a: Seq<Term>)
    ensures
        merge_terms(a, Seq::empty(), 0, 0) == a,
        merge_terms(Seq::empty(), a, 0, 0) == a,
{
    assert(a.subrange(0, a.len() as int) =~= a);
}

proof fn lemma_pairwise_len(a: Seq<Term>, b: Seq<Term>, f: spec_fn(Term, Term) -> Term)
    ensures
        pairwise(a, b, f).len() == a.len() * b.len(),
    decreases a.len(),
{
    if a.len() > 0 {
        lemma_pairwise_len(a.drop_last(), b, f);
        assert((a.len() - 1) * b.len() + b.len() == a.len() * b.len()) by (nonlinear_arith);
    }
}

/// A product (or a quotient) has one term for each pair of a term of the left
/// side and a term of the right side.
pub proof fn lemma_pairs_count<U: SWAR>(a: Seq<Term>, b: Seq<Term>)
    ensures
        product_terms::<U>(a, b).len() == a.len() * b.len(),
        quotient_terms::<U>(a, b).len() == a.len() * b.len(),
{
    broadcast use vstd::seq_lib::group_to_multiset_ensures;

    lemma_term_order_total();
    let p = pairwise(a, b, pair_op::<U>(false));
    let q = pairwise(a, b, pair_op::<U>(true));
    lemma_pairwise_len(a, b, pair_op::<U>(false));
    lemma_pairwise_len(a, b, pair_op::<U>(true));
    p.lemma_sort_by_ensures(term_order());
    q.lemma_sort_by_ensures(term_order());
    assert(p.sort_by(term_order()).len() == p.sort_by(term_order()).to_multiset().len());
    assert(q.sort_by(term_order()).len() == q.sort_by(term_order()).to_multiset().len());
}

/// Every term made pairwise comes from a pair of a term of `a` and a term of
/// `b`.
proof fn lemma_pairwise_from(a: Seq<Term>, b: Seq<Term>, f: spec_fn(Term, Term) -> Term, t: Term)
    requires
        pairwise(a, b, f).contains(t),
    ensures
        exists|i: int, j: int| 0 <= i < a.len() && 0 <= j < b.len() && t == f(#[trigger] a[i], #[trigger] b[j]),
    decreases a.len(),
{
    if a.len() > 0 {
        let left = pairwise(a.drop_last(), b, f);
        let right = b.map_values(|y: Term| f(a.last(), y));
        let x = choose|x: int| 0 <= x < pairwise(a, b, f).len() && pairwise(a, b, f)[x] == t;
        if x < left.len() {
            assert(left[x] == t);
            lemma_pairwise_from(a.drop_last(), b, f, t);
            let (i, j) = choose|i: int, j: int|
                0 <= i < a.drop_last().len() && 0 <= j < b.len() && t == f(
                    #[trigger] a.drop_last()[i],
                    #[trigger] b[j],
                );
            assert(a[i] == a.drop_last()[i]);
        } else {
            let j = x - left.len();
            assert(right[j] == t);
            assert(a[a.len() - 1] == a.last());
        }
    }
}

/// The sign of a product or a quotient of expansions follows the rule of
/// signs: each of its terms is the product (or quotient) of the registers of
/// a term `x` of the left side and a term `y` of the right side, and is
/// positive (tag 0) exactly when `x` and `y` have the same sign.
pub proof fn lemma_pair_signs<U: SWAR>(a: Seq<Term>, b: Seq<Term>, t: Term)
    ensures
        quotient_terms::<U>(a, b).contains(t) ==> exists|i: int, j: int|
            0 <= i < a.len() && 0 <= j < b.len() && t == term_from(
                if (#[trigger] a[i]).0 == (#[trigger] b[j]).0 {
                    0u8
                } else {
                    1u8
                },
                div_value(term_value(a[i]), term_value(b[j]), <U::Block as Block>::leverage()),
            ),
        product_terms::<U>(a, b).contains(t) ==> exists|i: int, j: int|
            0 <= i < a.len() && 0 <= j < b.len() && t == term_from(
                if (#[trigger] a[i]).0 == (#[trigger] b[j]).0 {
                    0u8
                } else {
                    1u8
                },
                mul_value(term_value(a[i]), term_value(b[j]), <U::Block as Block>::leverage()),
            ),
{
    broadcast use vstd::seq_lib::group_to_multiset_ensures;

    lemma_term_order_total();
    let q = pairwise(a, b, pair_op::<U>(true));
    let p = pairwise(a, b, pair_op::<U>(false));
    q.lemma_sort_by_ensures(term_order());
    p.lemma_sort_by_ensures(term_order());
    if quotient_terms::<U>(a, b).contains(t) {
        assert(q.to_multiset().count(t) > 0);
        lemma_pairwise_from(a, b, pair_op::<U>(true), t);
        let (i, j) = choose|i: int, j: int|
            0 <= i < a.len() && 0 <= j < b.len() && t == pair_op::<U>(true)(#[trigger] a[i], #[trigger] b[j]);
        assert(t.0 == product_tag(a[i].0, b[j].0));
    }
    if product_terms::<U>(a, b).contains(t) {
        assert(p.to_multiset().count(t) > 0);
        lemma_pairwise_from(a, b, pair_op::<U>(false), t);
        let (i, j) = choose|i: int, j: int|
            0 <= i < a.len() && 0 <= j < b.len() && t == pair_op::<U>(false)(#[trigger] a[i], #[trigger] b[j]);
        assert(t.0 == product_tag(a[i].0, b[j].0));
    }
}

/// Every pair of a term of `a` and a term of `b` gives a term pairwise.
proof fn lemma_pairwise_has(a: Seq<Term>, b: Seq<Term>, f: spec_fn(Term, Term) -> Term, i: int, j: int)
    requires
        0 <= i < a.len(),
        0 <= j < b.len(),
    ensures
        pairwise(a, b, f).contains(f(a[i], b[j])),
    decreases a.len(),
{
    let left = pairwise(a.drop_last(), b, f);
    let right = b.map_values(|y: Term| f(a.last(), y));
    if i < a.len() - 1 {
        lemma_pairwise_has(a.drop_last(), b, f, i, j);
        assert(a.drop_last()[i] == a[i]);
        let x = choose|x: int| 0 <= x < left.len() && left[x] == f(a[i], b[j]);
        assert(pairwise(a, b, f)[x] == left[x]);
    } else {
        assert(right[j] == f(a[i], b[j]));
        assert(pairwise(a, b, f)[left.len() + j] == right[j]);
    }
}

/// Conversely, every pair of a term `x` of the left side and a term `y` of
/// the right side gives a term of the product and of the quotient, with the
/// sign of the rule of signs.
pub proof fn lemma_every_pair_counts<U: SWAR>(a: Seq<Term>, b: Seq<Term>, i: int, j: int)
    requires
        0 <= i < a.len(),
        0 <= j < b.len(),
    ensures
        quotient_terms::<U>(a, b).contains(
            term_from(
                if a[i].0 == b[j].0 {
                    0u8
                } else {
                    1u8
                },
                div_value(term_value(a[i]), term_value(b[j]), <U::Block as Block>::leverage()),
            ),
        ),
        product_terms::<U>(a, b).contains(
            term_from(
                if a[i].0 == b[j].0 {
                    0u8
                } else {
                    1u8
                },
                mul_value(term_value(a[i]), term_value(b[j]), <U::Block as Block>::leverage()),
            ),
        ),
{
    broadcast use vstd::seq_lib::group_to_multiset_ensures;

    lemma_term_order_total();
    let q = pairwise(a, b, pair_op::<U>(true));
    let p = pairwise(a, b, pair_op::<U>(false));
    q.lemma_sort_by_ensures(term_order());
    p.lemma_sort_by_ensures(term_order());
    lemma_pairwise_has(a, b, pair_op::<U>(true), i, j);
    lemma_pairwise_has(a, b, pair_op::<U>(false), i, j);
    let tq = pair_op::<U>(true)(a[i], b[j]);
    let tp = pair_op::<U>(false)(a[i], b[j]);
    assert(q.to_multiset().count(tq) > 0);
    assert(p.to_multiset().count(tp) > 0);
    assert(quotient_terms::<U>(a, b).to_multiset().count(tq) > 0);
    assert(product_terms::<U>(a, b).to_multiset().count(tp) > 0);
}

impl<U: SWAR> Expended<U> {
    /// `mul`, or `None` where a product of two terms would leave the registers.
    pub fn checked_mul(self, rhs: Self) -> (r: Option<Self>)
        ensures
            r is Some <==> all_mul_fit::<U>(self@, rhs@),
            r matches Some(e) ==> e@ == product_terms::<U>(self@, rhs@) && sorted_by(e@, term_order()),
    {
        proof {
            use_type_invariant(&self);
            use_type_invariant(&rhs);
        }
        let a = terms_items(&self.terms);
        let b = terms_items(&rhs.terms);
        if pairs_fit::<U>(&a, &b, false) {
            Some(Expended { terms: pairs_sorted::<U>(&a, &b, false), kind: PhantomData })
        } else {
            None
        }
    }

    /// `div`, or `None` where a quotient of two terms would leave the registers.
    pub fn checked_div(self, rhs: Self) -> (r: Option<Self>)
        ensures
            r is Some <==> all_div_fit::<U>(self@, rhs@),
            r matches Some(e) ==> e@ == quotient_terms::<U>(self@, rhs@) && sorted_by(e@, term_order()),
    {
        proof {
            use_type_invariant(&self);
            use_type_invariant(&rhs);
        }
        let a = terms_items(&self.terms);
        let b = terms_items(&rhs.terms);
        if pairs_fit::<U>(&a, &b, true) {
            Some(Expended { terms: pairs_sorted::<U>(&a, &b, true), kind: PhantomData })
        } else {
            None
        }
    }

    /// `from`, or `None` where one of the operations of the tree cannot be
    /// carried out.
    pub fn checked_from(value: MathTree) -> (r: Option<Self>)
        ensures
            r is Some <==> expandable::<U>(value),
            r matches Some(e) ==> e@ == expansion::<U>(value) && sorted_by(e@, term_order()),
        decreases value,
    {
        match value {
            MathTree::Index(i) => if names_variable::<U>(i) {
                Some(Expended::from(MathTree::Index(i)))
            } else {
                None
            },
            MathTree::BinOp(bin) => match bin {
                BinOp::Add { l, r } => match (Self::checked_from(*l), Self::checked_from(*r)) {
                    (Some(x), Some(y)) => Some(x.add(y)),
                    _ => None,
                },
                BinOp::Sub { l, r } => match (Self::checked_from(*l), Self::checked_from(*r)) {
                    (Some(x), Some(y)) => Some(x.sub(y)),
                    _ => None,
                },
                BinOp::Mul { l, r } => match (Self::checked_from(*l), Self::checked_from(*r)) {
                    (Some(x), Some(y)) => x.checked_mul(y),
                    _ => None,
                },
                BinOp::Div { l, r } => match (Self::checked_from(*l), Self::checked_from(*r)) {
                    (Some(x), Some(y)) => x.checked_div(y),
                    _ => None,
                },
            },
        }
    }
}

} // verus!
