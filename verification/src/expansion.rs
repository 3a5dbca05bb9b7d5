use crate::scalar::Scalar;
use vstd::prelude::*;

verus! {

/// The sign with which the partner at `position` of the active list counts:
/// the first partner (position 1) positively, the next negatively, and so on
/// in turn.
pub open spec fn sign<S: Scalar>(position: int) -> S {
    if position % 2 == 1 {
        S::spec_one()
    } else {
        S::spec_one().spec_negate()
    }
}

/// The active list without its first index and without the one at `position`,
/// the others in their order.
pub open spec fn without_pair(indices: Seq<usize>, position: int) -> Seq<usize> {
    indices.subrange(1, position) + indices.subrange(position + 1, indices.len() as int)
}

/// The list of all indices of a matrix of dimension `dim`, in rising order.
pub open spec fn full_range(dim: nat) -> Seq<usize> {
    Seq::new(dim, |k: int| k as usize)
}

/// Whether every index of the list names a row of a matrix of dimension `dim`.
pub open spec fn in_range(indices: Seq<usize>, dim: nat) -> bool {
    forall|k: int| 0 <= k < indices.len() ==> (#[trigger] indices[k]) < dim
}

/// The Pfaffian of the principal submatrix of `m` on the rows and columns
/// `indices`, by expansion along the first index: 1 for the empty list, else
/// the sum of the terms of all partners, taken from left to right.
pub open spec fn expansion<S: Scalar>(m: Seq<Seq<S>>, indices: Seq<usize>) -> S
    decreases indices.len(), 1nat, 0nat,
{
    if indices.len() == 0 {
        S::spec_one()
    } else {
        partial_sum(m, indices, (indices.len() - 1) as nat)
    }
}

/// The sum of the terms of the partners at the positions `1..=upto`, starting
/// from zero and adding one term after the other.
pub open spec fn partial_sum<S: Scalar>(m: Seq<Seq<S>>, indices: Seq<usize>, upto: nat) -> S
    decreases indices.len(), 0nat, upto,
{
    if 0 < upto < indices.len() {
        partial_sum(m, indices, (upto - 1) as nat).spec_plus(term(m, indices, upto as int))
    } else {
        S::spec_zero()
    }
}

/// The term of the partner at `position`: its sign, times the entry of `m`
/// that joins the first index with the partner, times the Pfaffian of what is
/// left without the two.
pub open spec fn term<S: Scalar>(m: Seq<Seq<S>>, indices: Seq<usize>, position: int) -> S
    recommends
        0 < position < indices.len(),
    decreases indices.len(), 0nat, 0nat,
    when 0 < position < indices.len()
{
    sign::<S>(position).spec_times(m[indices[0] as int][indices[position] as int]).spec_times(
        expansion(m, without_pair(indices, position)),
    )
}

} // verus!
