use crate::expansion::{expansion, full_range, in_range, partial_sum, sign, term, without_pair};
use crate::laws::{
    is_zero_above, keeps_order_four, lemma_pfaffian_of_order_four, lemma_pfaffian_of_order_two,
    lemma_pfaffian_of_zeros, order_four_formula,
};
use crate::matching_sum::{lemma_expansion_is_matching_sum, matching_sum};
use crate::matrix::SkewMatrix;
use crate::memo::Memo;
use crate::scalar::{is_kept, obeys_ring_laws, zero_products_vanish, Scalar};
use vstd::prelude::*;

verus! {

/// Whether every value of the table is the Pfaffian on the list that it is
/// remembered for.
pub open spec fn memo_sound<S: Scalar>(m: Seq<Seq<S>>, memo: Map<Seq<usize>, S>) -> bool {
    forall|key: Seq<usize>| #[trigger]
        memo.contains_key(key) ==> memo[key] == expansion(m, key)
}

/// The active list without its first index and without the one at `position`.
fn remaining(indices: &[usize], position: usize) -> (rest: Vec<usize>)
    requires
        0 < position < indices@.len(),
    ensures
        rest@ == without_pair(indices@, position as int),
{
    let mut rest: Vec<usize> = Vec::new();
    let mut k: usize = 1;
    while k < indices.len()
        invariant
            1 <= k <= indices@.len(),
            0 < position < indices@.len(),
            k <= position ==> rest@ == indices@.subrange(1, k as int),
            k > position ==> rest@ == indices@.subrange(1, position as int) + indices@.subrange(
                position + 1,
                k as int,
            ),
        decreases indices@.len() - k,
    {
        if k != position {
            rest.push(indices[k]);
        }
        proof {
            if k < position {
                assert(rest@ =~= indices@.subrange(1, k + 1));
            } else if k == position {
                assert(rest@ =~= indices@.subrange(1, position as int) + indices@.subrange(
                    position + 1,
                    k + 1,
                ));
            } else {
                assert(rest@ =~= indices@.subrange(1, position as int) + indices@.subrange(
                    position + 1,
                    k + 1,
                ));
            }
        }
        k = k + 1;
    }
    rest
}

impl<S: Scalar> SkewMatrix<S> {
    /// The Pfaffian of the matrix: its expansion along the first index, on
    /// the list of all its indices. Results for lists met before are taken
    /// from a table and not computed again, which changes no result.
    ///
    /// The matrix without rows has the Pfaffian one, and a matrix of zeros
    /// the Pfaffian zero, where the products and sums of zero give zero. The
    /// Pfaffian of a matrix of dimension 2 is its entry `a` above the
    /// diagonal, and that of a matrix of dimension 4 with the entries
    /// `a b c / d e / f` above its diagonal is `a f - b e + c d`, where the
    /// arithmetic is exact on what these formulas need. Where the arithmetic
    /// obeys the laws of a commutative ring, the Pfaffian is the signed sum
    /// of the weights of all perfect matchings of the indices.
    pub fn pfaffian(&self) -> (result: S)
        ensures
            result == expansion(self@, full_range(self@.len())),
            self@.len() == 0 ==> result == S::spec_one(),
            self@.len() > 0 && is_zero_above(self@) && zero_products_vanish::<S>() ==> result
                == S::spec_zero(),
            self@.len() == 2 && is_kept(self@[0][1]) ==> result == self@[0][1],
            self@.len() == 4 && keeps_order_four(self@) ==> result == order_four_formula(self@),
            obeys_ring_laws::<S>() ==> result == matching_sum(self@, full_range(self@.len())),
    {
        let n = self.dimension();
        proof {
            if is_zero_above(self@) && zero_products_vanish::<S>() {
                lemma_pfaffian_of_zeros(self@);
            }
            if n == 2 && is_kept(self@[0][1]) {
                lemma_pfaffian_of_order_two(self@);
            }
            if n == 4 && keeps_order_four(self@) {
                lemma_pfaffian_of_order_four(self@);
            }
            if obeys_ring_laws::<S>() {
                lemma_expansion_is_matching_sum(self@, full_range(self@.len()));
            }
        }
        let mut all: Vec<usize> = Vec::new();
        let mut k: usize = 0;
        while k < n
            invariant
                k <= n,
                n == self@.len(),
                all@ == full_range(k as nat),
            decreases n - k,
        {
            all.push(k);
            proof {
                assert(all@ =~= full_range((k + 1) as nat));
            }
            k = k + 1;
        }
        let mut memo: Memo<S> = Memo::new();
        self.pfaffian_recursive(all.as_slice(), &mut memo)
    }

    /// The Pfaffian on the active list `indices`, with the table of what is
    /// known so far.
    fn pfaffian_recursive(&self, indices: &[usize], memo: &mut Memo<S>) -> (result: S)
        requires
            in_range(indices@, self@.len()),
            old(memo).well_formed(),
            memo_sound(self@, old(memo)@),
        ensures
            final(memo).well_formed(),
            memo_sound(self@, final(memo)@),
            result == expansion(self@, indices@),
        decreases indices@.len(),
    {
        let n = indices.len();
        if n == 0 {
            return S::one();
        }
        if let Some(known) = memo.get(indices) {
            return known;
        }
        let first = indices[0];
        let mut total = S::zero();
        let mut position: usize = 1;
        while position < n
            invariant
                1 <= position <= n,
                n == indices@.len(),
                first == indices@[0],
                in_range(indices@, self@.len()),
                memo.well_formed(),
                memo_sound(self@, memo@),
                total == partial_sum(self@, indices@, (position - 1) as nat),
            decreases n - position,
        {
            let partner = indices[position];
            let weight = self.entry(first, partner);
            let rest = remaining(indices, position);
            let unit = if position % 2 == 1 {
                S::one()
            } else {
                S::one().negate()
            };
            let minor = self.pfaffian_recursive(rest.as_slice(), memo);
            proof {
                assert(unit == sign::<S>(position as int));
                assert(unit.spec_times(weight).spec_times(minor) == term(
                    self@,
                    indices@,
                    position as int,
                ));
            }
            total = total.plus(unit.times(weight).times(minor));
            position = position + 1;
        }
        memo.insert(indices, total);
        total
    }
}

} // verus!
