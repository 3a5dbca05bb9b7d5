use vstd::prelude::*;

verus! {

/// The arithmetic in which a Pfaffian is computed.
///
/// Each operation comes twice: as a function of the mathematical model
/// (`spec_*`), of which the contracts of this crate speak, and as the
/// executable function that computes it. An implementation promises that the
/// second returns what the first says, so every operation is a function of its
/// arguments. Nothing else is asked: no law of a ring is assumed by the
/// Pfaffian engine, which fixes the order of every sum and product.
///
/// The verifier holds the implementations of this crate to that promise. Of
/// one written elsewhere and compiled without it, the contracts hold as far
/// as the promise does; there the model functions are never called, and any
/// body will do for them.
pub trait Scalar: Copy {
    /// The neutral element of the sum.
    spec fn spec_zero() -> Self;

    /// The neutral element of the product.
    spec fn spec_one() -> Self;

    /// The opposite of `self`.
    spec fn spec_negate(self) -> Self;

    /// The sum of `self` and `rhs`, in this order.
    spec fn spec_plus(self, rhs: Self) -> Self;

    /// The product of `self` and `rhs`, in this order.
    spec fn spec_times(self, rhs: Self) -> Self;

    fn zero() -> (r: Self)
        ensures
            r == Self::spec_zero(),
    ;

    fn one() -> (r: Self)
        ensures
            r == Self::spec_one(),
    ;

    fn negate(self) -> (r: Self)
        ensures
            r == self.spec_negate(),
    ;

    fn plus(self, rhs: Self) -> (r: Self)
        ensures
            r == self.spec_plus(rhs),
    ;

    fn times(self, rhs: Self) -> (r: Self)
        ensures
            r == self.spec_times(rhs),
    ;
}

/// Whether `x` comes back from a sum with zero and from a product with one.
pub open spec fn is_kept<S: Scalar>(x: S) -> bool {
    &&& S::spec_zero().spec_plus(x) == x
    &&& S::spec_one().spec_times(x) == x
    &&& x.spec_times(S::spec_one()) == x
}

/// Whether the product of `x` and `y`, taken with the opposite of one in front,
/// is the opposite of their product.
pub open spec fn opposite_comes_out<S: Scalar>(x: S, y: S) -> bool {
    S::spec_one().spec_negate().spec_times(x).spec_times(y) == x.spec_times(y).spec_negate()
}

/// Whether the products and sums of zero that a Pfaffian of zeros meets give
/// zero again. The product of zero with the opposite of one may be a second
/// zero, as long as it stays one in products and leaves a sum with zero.
pub open spec fn zero_products_vanish<S: Scalar>() -> bool {
    let zero = S::spec_zero();
    let one = S::spec_one();
    let other = one.spec_negate().spec_times(zero);
    &&& one.spec_times(zero) == zero
    &&& zero.spec_times(one) == zero
    &&& zero.spec_times(zero) == zero
    &&& other.spec_times(one) == other
    &&& other.spec_times(zero) == other
    &&& zero.spec_plus(zero) == zero
    &&& zero.spec_plus(other) == zero
}

/// Whether taking the opposite twice gives every scalar back.
pub open spec fn opposite_undoes_itself<S: Scalar>() -> bool {
    forall|x: S| #[trigger] x.spec_negate().spec_negate() == x
}

/// Whether sums and products obey the laws of a commutative ring that the
/// sum over perfect matchings rests on: both are associative and
/// commutative, zero is neutral for the sum and one for the product, the
/// product distributes over the sum, a product with zero is zero, and the
/// opposite of one times itself is one.
#[verifier::opaque]
pub open spec fn obeys_ring_laws<S: Scalar>() -> bool {
    &&& forall|x: S, y: S, z: S| #[trigger]
        x.spec_plus(y).spec_plus(z) == x.spec_plus(y.spec_plus(z))
    &&& forall|x: S, y: S| #[trigger] x.spec_plus(y) == y.spec_plus(x)
    &&& forall|x: S| #[trigger] x.spec_plus(S::spec_zero()) == x
    &&& forall|x: S| #[trigger] S::spec_zero().spec_plus(x) == x
    &&& forall|x: S, y: S, z: S| #[trigger]
        x.spec_times(y).spec_times(z) == x.spec_times(y.spec_times(z))
    &&& forall|x: S, y: S| #[trigger] x.spec_times(y) == y.spec_times(x)
    &&& forall|x: S| #[trigger] S::spec_one().spec_times(x) == x
    &&& forall|x: S, y: S, z: S| #[trigger]
        x.spec_times(y.spec_plus(z)) == x.spec_times(y).spec_plus(x.spec_times(z))
    &&& forall|x: S| #[trigger] x.spec_times(S::spec_zero()) == S::spec_zero()
    &&& S::spec_one().spec_negate().spec_times(S::spec_one().spec_negate()) == S::spec_one()
}

/// The sum is associative.
pub proof fn law_plus_associates<S: Scalar>(x: S, y: S, z: S)
    requires
        obeys_ring_laws::<S>(),
    ensures
        x.spec_plus(y).spec_plus(z) == x.spec_plus(y.spec_plus(z)),
{
    reveal(obeys_ring_laws);
}

/// The sum is commutative.
pub proof fn law_plus_commutes<S: Scalar>(x: S, y: S)
    requires
        obeys_ring_laws::<S>(),
    ensures
        x.spec_plus(y) == y.spec_plus(x),
{
    reveal(obeys_ring_laws);
}

/// Zero is neutral for the sum, on either side.
pub proof fn law_zero_is_neutral<S: Scalar>(x: S)
    requires
        obeys_ring_laws::<S>(),
    ensures
        x.spec_plus(S::spec_zero()) == x,
        S::spec_zero().spec_plus(x) == x,
{
    reveal(obeys_ring_laws);
}

/// The product is associative.
pub proof fn law_times_associates<S: Scalar>(x: S, y: S, z: S)
    requires
        obeys_ring_laws::<S>(),
    ensures
        x.spec_times(y).spec_times(z) == x.spec_times(y.spec_times(z)),
{
    reveal(obeys_ring_laws);
}

/// The product is commutative.
pub proof fn law_times_commutes<S: Scalar>(x: S, y: S)
    requires
        obeys_ring_laws::<S>(),
    ensures
        x.spec_times(y) == y.spec_times(x),
{
    reveal(obeys_ring_laws);
}

/// One is neutral for the product, on either side.
pub proof fn law_one_is_neutral<S: Scalar>(x: S)
    requires
        obeys_ring_laws::<S>(),
    ensures
        S::spec_one().spec_times(x) == x,
        x.spec_times(S::spec_one()) == x,
{
    reveal(obeys_ring_laws);
}

/// The product distributes over the sum.
pub proof fn law_times_distributes<S: Scalar>(x: S, y: S, z: S)
    requires
        obeys_ring_laws::<S>(),
    ensures
        x.spec_times(y.spec_plus(z)) == x.spec_times(y).spec_plus(x.spec_times(z)),
{
    reveal(obeys_ring_laws);
}

/// A product with zero is zero.
pub proof fn law_times_zero<S: Scalar>(x: S)
    requires
        obeys_ring_laws::<S>(),
    ensures
        x.spec_times(S::spec_zero()) == S::spec_zero(),
{
    reveal(obeys_ring_laws);
}

/// The opposite of one times itself is one.
pub proof fn law_minus_one_squared<S: Scalar>()
    requires
        obeys_ring_laws::<S>(),
    ensures
        S::spec_one().spec_negate().spec_times(S::spec_one().spec_negate()) == S::spec_one(),
{
    reveal(obeys_ring_laws);
}

} // verus!
