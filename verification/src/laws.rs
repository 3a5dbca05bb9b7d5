use crate::expansion::{expansion, full_range, in_range, partial_sum, sign, term, without_pair};
use crate::matrix::is_skew;
use crate::scalar::{
    is_kept, opposite_comes_out, opposite_undoes_itself, zero_products_vanish, Scalar,
};
use vstd::prelude::*;

verus! {

/// Whether `m` has `dim` rows of `dim` entries each.
pub open spec fn is_square<S>(m: Seq<Seq<S>>, dim: nat) -> bool {
    &&& m.len() == dim
    &&& forall|i: int| 0 <= i < dim ==> (#[trigger] m[i]).len() == dim
}

/// Whether every entry above the diagonal of `m` is zero.
pub open spec fn is_zero_above<S: Scalar>(m: Seq<Seq<S>>) -> bool {
    forall|i: int, j: int| 0 <= i < j < m.len() ==> #[trigger] m[i][j] == S::spec_zero()
}

/// Whether the indices of the list rise from each to the next.
pub open spec fn is_rising(indices: Seq<usize>) -> bool {
    forall|a: int, b: int| 0 <= a < b < indices.len() ==> indices[a] < indices[b]
}

/// A rising list within a dimension stays one when a pair leaves it.
proof fn lemma_rest_is_rising(indices: Seq<usize>, position: int, dim: nat)
    requires
        is_rising(indices),
        in_range(indices, dim),
        0 < position < indices.len(),
    ensures
        is_rising(without_pair(indices, position)),
        in_range(without_pair(indices, position), dim),
        without_pair(indices, position).len() == indices.len() - 2,
{
    let rest = without_pair(indices, position);
    assert forall|k: int| 0 <= k < rest.len() implies rest[k] == indices[if k < position - 1 {
        k + 1
    } else {
        k + 2
    }] by {}
}

/// Where the entries above the diagonal are zero, the terms of a rising list
/// add up to zero.
proof fn lemma_partial_sum_of_zeros<S: Scalar>(m: Seq<Seq<S>>, indices: Seq<usize>, upto: nat)
    requires
        zero_products_vanish::<S>(),
        is_zero_above(m),
        is_rising(indices),
        in_range(indices, m.len()),
    ensures
        partial_sum(m, indices, upto) == S::spec_zero(),
    decreases indices.len(), 0nat, upto,
{
    if 0 < upto < indices.len() {
        lemma_partial_sum_of_zeros(m, indices, (upto - 1) as nat);
        lemma_rest_is_rising(indices, upto as int, m.len());
        lemma_expansion_of_zeros(m, without_pair(indices, upto as int));
        let weight = m[indices[0] as int][indices[upto as int] as int];
        let minor = expansion(m, without_pair(indices, upto as int));
        assert(weight == S::spec_zero());
        assert(term(m, indices, upto as int) == sign::<S>(upto as int).spec_times(
            weight,
        ).spec_times(minor));
        assert(partial_sum(m, indices, upto) == partial_sum(
            m,
            indices,
            (upto - 1) as nat,
        ).spec_plus(term(m, indices, upto as int)));
    }
}

/// Where the entries above the diagonal are zero, the Pfaffian on a rising
/// list is zero, and one on the empty list.
proof fn lemma_expansion_of_zeros<S: Scalar>(m: Seq<Seq<S>>, indices: Seq<usize>)
    requires
        zero_products_vanish::<S>(),
        is_zero_above(m),
        is_rising(indices),
        in_range(indices, m.len()),
    ensures
        expansion(m, indices) == if indices.len() == 0 {
            S::spec_one()
        } else {
            S::spec_zero()
        },
    decreases indices.len(), 1nat, 0nat,
{
    if indices.len() > 0 {
        lemma_partial_sum_of_zeros(m, indices, (indices.len() - 1) as nat);
    }
}

/// The Pfaffian of a matrix whose entries above the diagonal are all zero is
/// zero, and that of the matrix without rows is one, in every arithmetic in
/// which the products and sums of zero give zero.
pub proof fn lemma_pfaffian_of_zeros<S: Scalar>(m: Seq<Seq<S>>)
    requires
        zero_products_vanish::<S>(),
        is_zero_above(m),
        m.len() <= usize::MAX,
    ensures
        expansion(m, full_range(m.len())) == if m.len() == 0 {
            S::spec_one()
        } else {
            S::spec_zero()
        },
{
    assert(is_rising(full_range(m.len())));
    lemma_expansion_of_zeros(m, full_range(m.len()));
}

/// The Pfaffian on a list of two indices is the entry that joins them, where
/// that entry comes back from a sum with zero and from a product with one.
pub proof fn lemma_expansion_of_pair<S: Scalar>(m: Seq<Seq<S>>, a: usize, b: usize)
    requires
        is_kept(m[a as int][b as int]),
    ensures
        expansion(m, seq![a, b]) == m[a as int][b as int],
{
    let pair = seq![a, b];
    assert(without_pair(pair, 1) =~= Seq::<usize>::empty());
    assert(expansion(m, without_pair(pair, 1)) == S::spec_one());
    assert(term(m, pair, 1) == S::spec_one().spec_times(m[a as int][b as int]).spec_times(
        S::spec_one(),
    ));
    assert(partial_sum(m, pair, 0) == S::spec_zero());
    assert(partial_sum(m, pair, 1) == S::spec_zero().spec_plus(term(m, pair, 1)));
}

/// The Pfaffian of a matrix of dimension 2 is its entry above the diagonal,
/// where that entry comes back from a sum with zero and from a product with
/// one.
pub proof fn lemma_pfaffian_of_order_two<S: Scalar>(m: Seq<Seq<S>>)
    requires
        is_square(m, 2),
        is_kept(m[0][1]),
    ensures
        expansion(m, full_range(2)) == m[0][1],
{
    assert(full_range(2) =~= seq![0usize, 1usize]);
    lemma_expansion_of_pair(m, 0, 1);
}

/// For a matrix of dimension 4 with the entries `a b c / d e / f` above its
/// diagonal, `a f - b e + c d`: the sum, from left to right, of `a f`, the
/// opposite of `b e`, and `c d`.
pub open spec fn order_four_formula<S: Scalar>(m: Seq<Seq<S>>) -> S {
    m[0][1].spec_times(m[2][3]).spec_plus(m[0][2].spec_times(m[1][3]).spec_negate()).spec_plus(
        m[0][3].spec_times(m[1][2]),
    )
}

/// Whether the arithmetic is exact on what the formula for dimension 4 needs
/// of a matrix with the entries `a b c / d e / f` above its diagonal: each
/// entry but `b`, and the product `a f`, come back from a sum with zero and
/// from a product with one, and the opposite of one in front of `b e` gives
/// the opposite of `b e`.
pub open spec fn keeps_order_four<S: Scalar>(m: Seq<Seq<S>>) -> bool {
    &&& is_kept(m[0][1])
    &&& is_kept(m[0][3])
    &&& is_kept(m[1][2])
    &&& is_kept(m[1][3])
    &&& is_kept(m[2][3])
    &&& is_kept(m[0][1].spec_times(m[2][3]))
    &&& opposite_comes_out(m[0][2], m[1][3])
}

/// The Pfaffian of a matrix of dimension 4 with the entries `a b c / d e / f`
/// above its diagonal is `a f - b e + c d`, where the arithmetic is exact on
/// what the formula needs.
pub proof fn lemma_pfaffian_of_order_four<S: Scalar>(m: Seq<Seq<S>>)
    requires
        is_square(m, 4),
        keeps_order_four(m),
    ensures
        expansion(m, full_range(4)) == order_four_formula(m),
{
    let all = full_range(4);
    assert(all =~= seq![0usize, 1usize, 2usize, 3usize]);
    assert(without_pair(all, 1) =~= seq![2usize, 3usize]);
    assert(without_pair(all, 2) =~= seq![1usize, 3usize]);
    assert(without_pair(all, 3) =~= seq![1usize, 2usize]);
    lemma_expansion_of_pair(m, 2, 3);
    lemma_expansion_of_pair(m, 1, 3);
    lemma_expansion_of_pair(m, 1, 2);
    assert(term(m, all, 1) == m[0][1].spec_times(m[2][3]));
    assert(term(m, all, 2) == m[0][2].spec_times(m[1][3]).spec_negate());
    assert(term(m, all, 3) == m[0][3].spec_times(m[1][2]));
    assert(partial_sum(m, all, 0) == S::spec_zero());
    assert(partial_sum(m, all, 1) == term(m, all, 1));
    assert(partial_sum(m, all, 2) == partial_sum(m, all, 1).spec_plus(term(m, all, 2)));
    assert(partial_sum(m, all, 3) == partial_sum(m, all, 2).spec_plus(term(m, all, 3)));
}

/// Any two entries of a skew-symmetric matrix that mirror each other off the
/// diagonal are opposite to each other, whichever of them is taken first,
/// where taking the opposite twice gives every scalar back.
pub proof fn lemma_mirrored_entries_are_opposite<S: Scalar>(m: Seq<Seq<S>>, i: int, j: int)
    requires
        opposite_undoes_itself::<S>(),
        is_skew(m),
        0 <= i < m.len(),
        0 <= j < m.len(),
        i != j,
    ensures
        m[i][j] == m[j][i].spec_negate(),
{
    if i < j {
        assert(m[j][i] == m[i][j].spec_negate());
    } else {
        assert(m[i][j] == m[j][i].spec_negate());
    }
}

} // verus!
