use crate::scalar::{
    is_kept, obeys_ring_laws, opposite_comes_out, opposite_undoes_itself, zero_products_vanish,
    Scalar,
};
use vstd::prelude::*;

verus! {

/// Integers modulo 2^64, held in their two's complement form.
impl Scalar for i64 {
    open spec fn spec_zero() -> i64 {
        0i64
    }

    open spec fn spec_one() -> i64 {
        1i64
    }

    open spec fn spec_negate(self) -> i64 {
        0i64.wrapping_sub(self)
    }

    open spec fn spec_plus(self, rhs: i64) -> i64 {
        self.wrapping_add(rhs)
    }

    open spec fn spec_times(self, rhs: i64) -> i64 {
        self.wrapping_mul(rhs)
    }

    fn zero() -> (r: i64) {
        0i64
    }

    fn one() -> (r: i64) {
        1i64
    }

    fn negate(self) -> (r: i64) {
        0i64.wrapping_sub(self)
    }

    fn plus(self, rhs: i64) -> (r: i64) {
        self.wrapping_add(rhs)
    }

    fn times(self, rhs: i64) -> (r: i64) {
        self.wrapping_mul(rhs)
    }
}

/// The integers modulo 2^64 are exact on every scalar: each comes back
/// from a sum with zero and from a product with one, opposites come out of
/// products and undo themselves, and the products and sums of zero give
/// zero.
pub proof fn lemma_i64_laws()
    ensures
        forall|x: i64| #[trigger] is_kept(x),
        forall|x: i64, y: i64| #[trigger] opposite_comes_out(x, y),
        zero_products_vanish::<i64>(),
        opposite_undoes_itself::<i64>(),
{
    assert forall|x: i64, y: i64| #[trigger] opposite_comes_out(x, y) by {
        lemma_minus_one_times(x);
        lemma_opposite_leaves_product(x, y);
    }
}

/// Modulo 2^64, the product of the opposite of one with `x` is the opposite
/// of `x`.
proof fn lemma_minus_one_times(x: i64)
    ensures
        1i64.spec_negate().spec_times(x) == x.spec_negate(),
{
    assert(1i64.spec_negate() == -1i64);
    assert((-1i64) * x == -x);
}

/// Modulo 2^64, the product of the opposite of `x` with `y` is the opposite
/// of the product of `x` with `y`.
proof fn lemma_opposite_leaves_product(x: i64, y: i64)
    ensures
        x.spec_negate().spec_times(y) == x.spec_times(y).spec_negate(),
{
    let range = 0x1_0000_0000_0000_0000int;
    let opposite = x.spec_negate() as int;
    let turns: int = if x == i64::MIN {
        -1
    } else {
        0
    };
    assert(opposite == -x + turns * range);
    assert(opposite * y == -(x * y) + (turns * y) * range) by (nonlinear_arith)
        requires
            opposite == -x + turns * range,
    ;
    vstd::arithmetic::div_mod::lemma_mod_multiples_vanish(turns * y, -(x * y), range);
    let product = x * y;
    let wrapped = x.spec_times(y) as int;
    assert(wrapped == product % range || wrapped == product % range - range);
    vstd::arithmetic::div_mod::lemma_fundamental_div_mod(product, range);
    let quotient = product / range;
    assert(-product == range * (-quotient) + (-(product % range))) by (nonlinear_arith)
        requires
            product == range * quotient + product % range,
    ;
    vstd::arithmetic::div_mod::lemma_mod_multiples_vanish(-quotient, -(product % range), range);
    assert((-product) % range == (-(product % range)) % range);
}

/// The number of the 64-bit range that differs from `x` by a multiple of
/// 2^64.
spec fn wrap(x: int) -> i64 {
    vstd::wrapping::i64_specs::signed_crop(x)
}

/// What `wrap` gives has the remainder of `x` modulo 2^64, and a number of
/// the 64-bit range is what `wrap` gives for it.
proof fn lemma_wrap(x: int)
    ensures
        (wrap(x) as int) % 0x1_0000_0000_0000_0000 == x % 0x1_0000_0000_0000_0000,
        i64::MIN <= x <= i64::MAX ==> wrap(x) == x,
{
}

/// Numbers with the same remainder modulo 2^64 wrap to the same number.
proof fn lemma_wrap_same(x: int, y: int)
    requires
        x % 0x1_0000_0000_0000_0000 == y % 0x1_0000_0000_0000_0000,
    ensures
        wrap(x) == wrap(y),
{
}

/// A term of a sum may be wrapped before the sum is.
proof fn lemma_wrap_sum(x: int, y: int)
    ensures
        wrap(wrap(x) + y) == wrap(x + y),
        wrap(x + wrap(y)) == wrap(x + y),
{
    let range = 0x1_0000_0000_0000_0000int;
    lemma_wrap(x);
    lemma_wrap(y);
    vstd::arithmetic::div_mod::lemma_add_mod_noop(wrap(x) as int, y, range);
    vstd::arithmetic::div_mod::lemma_add_mod_noop(x, y, range);
    vstd::arithmetic::div_mod::lemma_add_mod_noop(x, wrap(y) as int, range);
    lemma_wrap_same(wrap(x) + y, x + y);
    lemma_wrap_same(x + wrap(y), x + y);
}

/// A factor of a product may be wrapped before the product is.
proof fn lemma_wrap_product(x: int, y: int)
    ensures
        wrap(wrap(x) * y) == wrap(x * y),
        wrap(x * wrap(y)) == wrap(x * y),
{
    let range = 0x1_0000_0000_0000_0000int;
    lemma_wrap(x);
    lemma_wrap(y);
    vstd::arithmetic::div_mod::lemma_mul_mod_noop_general(wrap(x) as int, y, range);
    vstd::arithmetic::div_mod::lemma_mul_mod_noop_general(x, y, range);
    vstd::arithmetic::div_mod::lemma_mul_mod_noop_general(x, wrap(y) as int, range);
    lemma_wrap_same(wrap(x) * y, x * y);
    lemma_wrap_same(x * wrap(y), x * y);
}

/// The sum and the product modulo 2^64 are the wrapped sum and product of
/// the integers.
proof fn lemma_wrapping_arithmetic(x: i64, y: i64)
    ensures
        x.spec_plus(y) == wrap(x + y),
        x.spec_times(y) == wrap(x * y),
{
}

/// The integers modulo 2^64 obey the laws of a commutative ring.
pub proof fn lemma_i64_obeys_ring_laws()
    ensures
        obeys_ring_laws::<i64>(),
{
    reveal(obeys_ring_laws);
    assert forall|x: i64, y: i64, z: i64| #[trigger]
        x.spec_plus(y).spec_plus(z) == x.spec_plus(y.spec_plus(z)) by {
        lemma_wrapping_arithmetic(x, y);
        lemma_wrapping_arithmetic(y, z);
        lemma_wrapping_arithmetic(x.spec_plus(y), z);
        lemma_wrapping_arithmetic(x, y.spec_plus(z));
        lemma_wrap_sum(x + y, z as int);
        lemma_wrap_sum(x as int, y + z);
    }
    assert forall|x: i64, y: i64, z: i64| #[trigger]
        x.spec_times(y).spec_times(z) == x.spec_times(y.spec_times(z)) by {
        lemma_wrapping_arithmetic(x, y);
        lemma_wrapping_arithmetic(y, z);
        lemma_wrapping_arithmetic(x.spec_times(y), z);
        lemma_wrapping_arithmetic(x, y.spec_times(z));
        lemma_wrap_product(x * y, z as int);
        lemma_wrap_product(x as int, y * z);
        assert((x * y) * z == x * (y * z)) by (nonlinear_arith);
    }
    assert forall|x: i64, y: i64| #[trigger] x.spec_times(y) == y.spec_times(x) by {
        assert(x * y == y * x) by (nonlinear_arith);
    }
    assert forall|x: i64, y: i64, z: i64| #[trigger]
        x.spec_times(y.spec_plus(z)) == x.spec_times(y).spec_plus(x.spec_times(z)) by {
        lemma_wrapping_arithmetic(y, z);
        lemma_wrapping_arithmetic(x, y.spec_plus(z));
        lemma_wrapping_arithmetic(x, y);
        lemma_wrapping_arithmetic(x, z);
        lemma_wrapping_arithmetic(x.spec_times(y), x.spec_times(z));
        lemma_wrap_product(x as int, y + z);
        lemma_wrap_sum(x * y, wrap(x * z) as int);
        lemma_wrap_sum(x * y, x * z);
        assert(x * (y + z) == x * y + x * z) by (nonlinear_arith);
    }
    assert forall|x: i64| #[trigger] x.spec_times(0i64) == 0i64 by {
        assert(x * 0 == 0);
    }
    assert forall|x: i64| #[trigger] 1i64.spec_times(x) == x by {
        assert(1 * x == x);
    }
    assert(1i64.spec_negate() == -1i64);
    assert((-1i64).spec_times(-1i64) == 1i64) by {
        assert((-1) * (-1) == 1);
    }
}

} // verus!
