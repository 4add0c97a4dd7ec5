//! The algebra that the tree is built over.
use vstd::prelude::*;

verus! {

/// A type whose values form a monoid: a set with an associative operation and
/// an element that is neutral on both sides. The operation need not be
/// commutative.
///
/// `combine` and `unit` say what the operation and its neutral element are;
/// the three proof functions are the monoid laws, which every implementation
/// has to prove; `op` and `identity` are the executable counterparts, which
/// compute exactly `combine` and `unit`. They have no precondition: they
/// accept every value of the type.
///
/// Equality, in the laws and in the contracts of `op` and `identity`, is
/// equality as proofs have it: two values are equal when nothing tells them
/// apart.
pub trait Monoid: Sized {
    /// The operation.
    spec fn combine(self, right: Self) -> Self;

    /// The neutral element.
    spec fn unit() -> Self;

    /// The operation is associative.
    proof fn associative(a: Self, b: Self, c: Self)
        ensures
            a.combine(b).combine(c) == a.combine(b.combine(c)),
    ;

    /// `unit()` is neutral on the left.
    proof fn left_identity(a: Self)
        ensures
            Self::unit().combine(a) == a,
    ;

    /// `unit()` is neutral on the right.
    proof fn right_identity(a: Self)
        ensures
            a.combine(Self::unit()) == a,
    ;

    /// Computes `self.combine(*right)`; neither operand is changed.
    fn op(&self, right: &Self) -> (r: Self)
        ensures
            r == self.combine(*right),
    ;

    /// Computes the neutral element, the same on every call.
    fn identity() -> (r: Self)
        ensures
            r == Self::unit(),
    ;
}

/// The elements of `s` combined from left to right:
/// `s[0].combine(s[1]).combine(s[2])` and so on; the neutral element where `s`
/// is empty.
pub open spec fn product<T: Monoid>(s: Seq<T>) -> T
    decreases s.len(),
{
    if s.len() == 0 {
        T::unit()
    } else {
        product(s.drop_last()).combine(s.last())
    }
}

/// The product of the elements of `s` at the positions `left` to `right`,
/// both included.
pub open spec fn range_product<T: Monoid>(s: Seq<T>, left: int, right: int) -> T {
    product(s.subrange(left, right + 1))
}

/// The product of a single element is that element.
pub proof fn lemma_product_single<T: Monoid>(x: T)
    ensures
        product(seq![x]) == x,
{
    let s = seq![x];
    assert(s.drop_last() =~= Seq::<T>::empty());
    assert(product(s.drop_last()) == T::unit());
    T::left_identity(x);
}

/// The product of a concatenation is the product of the two products.
pub proof fn lemma_product_concat<T: Monoid>(a: Seq<T>, b: Seq<T>)
    ensures
        product(a + b) == product(a).combine(product(b)),
    decreases b.len(),
{
    if b.len() == 0 {
        assert(a + b =~= a);
        T::right_identity(product(a));
    } else {
        assert((a + b).drop_last() =~= a + b.drop_last());
        lemma_product_concat(a, b.drop_last());
        T::associative(product(a), product(b.drop_last()), b.last());
    }
}

/// A range of `s` cut in two at `j`: the product of the whole is the product
/// of the two parts' products.
pub proof fn lemma_product_split<T: Monoid>(s: Seq<T>, i: int, j: int, k: int)
    requires
        0 <= i <= j <= k <= s.len(),
    ensures
        product(s.subrange(i, k)) == product(s.subrange(i, j)).combine(product(s.subrange(j, k))),
{
    assert(s.subrange(i, k) =~= s.subrange(i, j) + s.subrange(j, k));
    lemma_product_concat(s.subrange(i, j), s.subrange(j, k));
}

/// The product over a range of one position is the element at that position.
pub proof fn lemma_range_product_single<T: Monoid>(s: Seq<T>, i: int)
    requires
        0 <= i < s.len(),
    ensures
        range_product(s, i, i) == s[i],
{
    assert(s.subrange(i, i + 1) =~= seq![s[i]]);
    lemma_product_single(s[i]);
}

/// Neutral elements contribute nothing: the product of any number of them is
/// the neutral element.
pub proof fn lemma_product_units<T: Monoid>(s: Seq<T>)
    requires
        forall|i: int| 0 <= i < s.len() ==> s[i] == T::unit(),
    ensures
        product(s) == T::unit(),
    decreases s.len(),
{
    if s.len() > 0 {
        lemma_product_units(s.drop_last());
        T::right_identity(T::unit());
    }
}

/// Unsigned 64-bit integers under addition modulo 2^64, with 0 as the neutral
/// element: a monoid whose operation never overflows. It also shows that the
/// laws of [`Monoid`] can be met.
#[derive(Clone, Copy, Debug, PartialEq, Eq)]
pub struct WrappingSum(pub u64);

impl Monoid for WrappingSum {
    open spec fn combine(self, right: Self) -> Self {
        WrappingSum(((self.0 + right.0) % 0x1_0000_0000_0000_0000) as u64)
    }

    open spec fn unit() -> Self {
        WrappingSum(0)
    }

    proof fn associative(a: Self, b: Self, c: Self) {
    }

    proof fn left_identity(a: Self) {
    }

    proof fn right_identity(a: Self) {
    }

    fn op(&self, right: &Self) -> (r: Self) {
        WrappingSum(self.0.wrapping_add(right.0))
    }

    fn identity() -> (r: Self) {
        WrappingSum(0)
    }
}

} // verus!
