use crate::expansion::{expansion, partial_sum, sign, term, without_pair};
use crate::matchings::{
    is_perfect_matching, lemma_listed_is_perfect, lemma_listed_upto, lemma_lists_once,
    lemma_perfect_is_listed, lift, lift_pairs, matchings, matchings_upto, matchings_with,
    with_pair,
};
use crate::scalar::{
    law_minus_one_squared, law_one_is_neutral, law_plus_associates, law_plus_commutes,
    law_times_associates, law_times_commutes, law_times_distributes, law_times_zero,
    law_zero_is_neutral, obeys_ring_laws, Scalar,
};
use vstd::prelude::*;

verus! {

/// The places of a matching in one row: the two places of the first pair,
/// then those of the second, and so on.
pub open spec fn word(pairs: Seq<(int, int)>) -> Seq<int>
    decreases pairs.len(),
{
    if pairs.len() == 0 {
        Seq::empty()
    } else {
        seq![pairs[0].0, pairs[0].1] + word(pairs.drop_first())
    }
}

/// How many of the places are below `bound`.
pub open spec fn count_below(places: Seq<int>, bound: int) -> nat
    decreases places.len(),
{
    if places.len() == 0 {
        0
    } else {
        (if places[0] < bound {
            1nat
        } else {
            0nat
        }) + count_below(places.drop_first(), bound)
    }
}

/// The number of inversions of a row of places: the pairs of positions of
/// which the earlier holds the greater place.
pub open spec fn inversions(places: Seq<int>) -> nat
    decreases places.len(),
{
    if places.len() == 0 {
        0
    } else {
        count_below(places.drop_first(), places[0]) + inversions(places.drop_first())
    }
}

/// One for an even number, the opposite of one for an odd number.
pub open spec fn sign_of<S: Scalar>(swaps: nat) -> S {
    if swaps % 2 == 0 {
        S::spec_one()
    } else {
        S::spec_one().spec_negate()
    }
}

/// The sign of a matching: that of the permutation which its places, read
/// pair after pair, make of `0..n`.
pub open spec fn matching_sign<S: Scalar>(pairs: Seq<(int, int)>) -> S {
    sign_of::<S>(inversions(word(pairs)))
}

/// The weight of a matching of the places of `indices`: the product, pair
/// after pair, of the entries of `m` that join the two indices of a pair.
pub open spec fn matching_weight<S: Scalar>(
    m: Seq<Seq<S>>,
    indices: Seq<usize>,
    pairs: Seq<(int, int)>,
) -> S
    decreases pairs.len(),
{
    if pairs.len() == 0 {
        S::spec_one()
    } else {
        m[indices[pairs[0].0] as int][indices[pairs[0].1] as int].spec_times(
            matching_weight(m, indices, pairs.drop_first()),
        )
    }
}

/// What a matching adds to the Pfaffian: its sign times its weight.
pub open spec fn matching_term<S: Scalar>(
    m: Seq<Seq<S>>,
    indices: Seq<usize>,
    pairs: Seq<(int, int)>,
) -> S {
    matching_sign::<S>(pairs).spec_times(matching_weight(m, indices, pairs))
}

/// The terms of a list of matchings, in the order of the list.
pub open spec fn matching_terms<S: Scalar>(
    m: Seq<Seq<S>>,
    indices: Seq<usize>,
    list: Seq<Seq<(int, int)>>,
) -> Seq<S> {
    Seq::new(list.len(), |t: int| matching_term(m, indices, list[t]))
}

/// The sum of the terms, from zero on and from left to right.
pub open spec fn sum_of<S: Scalar>(terms: Seq<S>) -> S
    decreases terms.len(),
{
    if terms.len() == 0 {
        S::spec_zero()
    } else {
        sum_of(terms.drop_last()).spec_plus(terms.last())
    }
}

/// The signed sum of the weights of all perfect matchings of the places of
/// `indices`.
pub open spec fn matching_sum<S: Scalar>(m: Seq<Seq<S>>, indices: Seq<usize>) -> S {
    sum_of(matching_terms(m, indices, matchings(indices.len())))
}

/// The places of a row as they stood before the first place and the place
/// `partner` left.
pub open spec fn lift_places(places: Seq<int>, partner: int) -> Seq<int> {
    Seq::new(places.len(), |k: int| lift(places[k], partner))
}

/// Whether no place of the row is negative.
pub open spec fn all_places(places: Seq<int>) -> bool {
    forall|k: int| 0 <= k < places.len() ==> 0 <= #[trigger] places[k]
}

/// The word of lifted pairs is the lifted word of the pairs.
proof fn lemma_word_of_lifted(pairs: Seq<(int, int)>, partner: int)
    ensures
        word(lift_pairs(pairs, partner)) == lift_places(word(pairs), partner),
    decreases pairs.len(),
{
    let lifted = lift_pairs(pairs, partner);
    if pairs.len() > 0 {
        lemma_word_of_lifted(pairs.drop_first(), partner);
        assert(lifted.drop_first() =~= lift_pairs(pairs.drop_first(), partner));
        assert(word(lifted) =~= lift_places(word(pairs), partner));
    } else {
        assert(word(lifted) =~= lift_places(word(pairs), partner));
    }
}

/// As many lifted places are below `bound` as places were below what
/// `bound` was before the lift: one less up to the partner, two less above.
proof fn lemma_count_below_lifted(places: Seq<int>, partner: int, bound: int)
    requires
        all_places(places),
        1 <= partner,
        1 <= bound,
    ensures
        count_below(lift_places(places, partner), bound) == count_below(
            places,
            if bound <= partner {
                bound - 1
            } else {
                bound - 2
            },
        ),
    decreases places.len(),
{
    let lifted = lift_places(places, partner);
    if places.len() > 0 {
        assert(0 <= places[0]);
        assert(all_places(places.drop_first())) by {
            assert forall|k: int| 0 <= k < places.drop_first().len() implies 0
                <= #[trigger] places.drop_first()[k] by {
                assert(places.drop_first()[k] == places[k + 1]);
            }
        }
        lemma_count_below_lifted(places.drop_first(), partner, bound);
        assert(lifted.drop_first() =~= lift_places(places.drop_first(), partner));
    }
}

/// As many lifted places are below a lifted place as places were below it.
proof fn lemma_count_below_lifted_place(places: Seq<int>, partner: int, place: int)
    ensures
        count_below(lift_places(places, partner), lift(place, partner)) == count_below(
            places,
            place,
        ),
    decreases places.len(),
{
    let lifted = lift_places(places, partner);
    if places.len() > 0 {
        lemma_count_below_lifted_place(places.drop_first(), partner, place);
        assert(lifted.drop_first() =~= lift_places(places.drop_first(), partner));
    }
}

/// Lifting a row of places keeps the number of its inversions.
proof fn lemma_inversions_lifted(places: Seq<int>, partner: int)
    ensures
        inversions(lift_places(places, partner)) == inversions(places),
    decreases places.len(),
{
    let lifted = lift_places(places, partner);
    if places.len() > 0 {
        lemma_inversions_lifted(places.drop_first(), partner);
        lemma_count_below_lifted_place(places.drop_first(), partner, places[0]);
        assert(lifted.drop_first() =~= lift_places(places.drop_first(), partner));
    }
}

/// The word of a matching with a first pair: the first place, the partner,
/// then the places of the rest as they stood before.
proof fn lemma_word_with_pair(rest: Seq<(int, int)>, partner: int)
    ensures
        word(with_pair(rest, partner)) == seq![0int, partner] + lift_places(word(rest), partner),
        word(with_pair(rest, partner)).drop_first() == seq![partner] + lift_places(
            word(rest),
            partner,
        ),
        (seq![partner] + lift_places(word(rest), partner)).drop_first() == lift_places(
            word(rest),
            partner,
        ),
{
    let pairs = with_pair(rest, partner);
    assert(pairs.drop_first() =~= lift_pairs(rest, partner));
    lemma_word_of_lifted(rest, partner);
    assert(word(pairs).drop_first() =~= seq![partner] + lift_places(word(rest), partner));
    assert((seq![partner] + lift_places(word(rest), partner)).drop_first() =~= lift_places(
        word(rest),
        partner,
    ));
}

/// In the word of a listed matching of `0..n` no place is negative, and
/// `bound` of its places are below `bound`.
proof fn lemma_word_counts(n: nat, at: int, bound: int)
    requires
        0 <= at < matchings(n).len(),
        0 <= bound <= n,
    ensures
        all_places(word(matchings(n)[at])),
        count_below(word(matchings(n)[at]), bound) == bound,
    decreases n,
{
    if n > 0 {
        let from = lemma_listed_upto(n, (n - 1) as nat, at);
        let partner = from.0;
        let rest = matchings((n - 2) as nat)[from.1];
        let low = word(rest);
        let high = lift_places(low, partner);
        lemma_word_with_pair(rest, partner);
        lemma_word_counts((n - 2) as nat, from.1, 0);
        let whole = word(matchings(n)[at]);
        assert(whole == seq![0int, partner] + high);
        assert forall|k: int| 0 <= k < whole.len() implies 0 <= #[trigger] whole[k] by {
            if k >= 2 {
                assert(whole[k] == lift(low[k - 2], partner));
            }
        }
        if bound >= 1 {
            let shifted = if bound <= partner {
                bound - 1
            } else {
                bound - 2
            };
            lemma_word_counts((n - 2) as nat, from.1, shifted);
            lemma_count_below_lifted(low, partner, bound);
            assert(count_below(whole, bound) == 1 + count_below(whole.drop_first(), bound));
            assert(count_below(seq![partner] + high, bound) == (if partner < bound {
                1nat
            } else {
                0nat
            }) + count_below(high, bound));
        } else {
            lemma_none_below(whole, bound);
        }
    } else {
        assert(word(matchings(n)[at]) =~= Seq::<int>::empty());
    }
}

/// None of the places of a row without negative places is below a bound that
/// is zero or less.
proof fn lemma_none_below(places: Seq<int>, bound: int)
    requires
        all_places(places),
        bound <= 0,
    ensures
        count_below(places, bound) == 0,
    decreases places.len(),
{
    if places.len() > 0 {
        assert(0 <= places[0]);
        assert forall|k: int| 0 <= k < places.drop_first().len() implies 0
            <= #[trigger] places.drop_first()[k] by {
            assert(places.drop_first()[k] == places[k + 1]);
        }
        lemma_none_below(places.drop_first(), bound);
    }
}

/// Joining the first place with `partner` adds `partner - 1` inversions to
/// those of the listed matching of the places left.
proof fn lemma_inversions_with_pair(n: nat, inner: int, partner: int)
    requires
        n >= 2,
        1 <= partner < n,
        0 <= inner < matchings((n - 2) as nat).len(),
    ensures
        inversions(word(with_pair(matchings((n - 2) as nat)[inner], partner))) == inversions(
            word(matchings((n - 2) as nat)[inner]),
        ) + partner - 1,
{
    let rest = matchings((n - 2) as nat)[inner];
    let low = word(rest);
    let high = lift_places(low, partner);
    let whole = word(with_pair(rest, partner));
    lemma_word_with_pair(rest, partner);
    lemma_word_counts((n - 2) as nat, inner, partner - 1);
    lemma_count_below_lifted(low, partner, partner);
    lemma_inversions_lifted(low, partner);
    assert(all_places(seq![partner] + high)) by {
        assert forall|k: int| 0 <= k < (seq![partner] + high).len() implies 0 <= #[trigger] (
        seq![partner] + high)[k] by {
            if k >= 1 {
                assert((seq![partner] + high)[k] == lift(low[k - 1], partner));
            }
        }
    }
    lemma_none_below(seq![partner] + high, 0);
    assert(inversions(whole) == count_below(whole.drop_first(), 0) + inversions(
        whole.drop_first(),
    ));
    assert(inversions(seq![partner] + high) == count_below(high, partner) + inversions(high));
}

/// Whether both places of every pair are places of a list of length `n`.
pub open spec fn all_pairs_within(pairs: Seq<(int, int)>, n: nat) -> bool {
    forall|t: int|
        0 <= t < pairs.len() ==> 0 <= (#[trigger] pairs[t]).0 < n && 0 <= pairs[t].1 < n
}

/// The pairs of a listed matching of `0..n` lie within `0..n`.
proof fn lemma_listed_within(n: nat, at: int)
    requires
        0 <= at < matchings(n).len(),
    ensures
        all_pairs_within(matchings(n)[at], n),
{
    crate::matchings::lemma_listed_is_perfect(n, at);
}

/// The weight of pairs told by the places of the longer list is the weight
/// of the same pairs on the list that the first place and `partner` left.
proof fn lemma_weight_of_lifted<S: Scalar>(
    m: Seq<Seq<S>>,
    indices: Seq<usize>,
    pairs: Seq<(int, int)>,
    partner: int,
)
    requires
        0 < partner < indices.len(),
        all_pairs_within(pairs, (indices.len() - 2) as nat),
    ensures
        matching_weight(m, indices, lift_pairs(pairs, partner)) == matching_weight(
            m,
            without_pair(indices, partner),
            pairs,
        ),
    decreases pairs.len(),
{
    let lifted = lift_pairs(pairs, partner);
    let rest = without_pair(indices, partner);
    if pairs.len() > 0 {
        assert(all_pairs_within(pairs.drop_first(), (indices.len() - 2) as nat)) by {
            assert forall|t: int| 0 <= t < pairs.drop_first().len() implies 0 <= (
            #[trigger] pairs.drop_first()[t]).0 < indices.len() - 2 && 0
                <= pairs.drop_first()[t].1 < indices.len() - 2 by {
                assert(pairs.drop_first()[t] == pairs[t + 1]);
            }
        }
        lemma_weight_of_lifted(m, indices, pairs.drop_first(), partner);
        assert(lifted.drop_first() =~= lift_pairs(pairs.drop_first(), partner));
        assert(0 <= pairs[0].0 < indices.len() - 2 && 0 <= pairs[0].1 < indices.len() - 2);
        assert(rest[pairs[0].0] == indices[lift(pairs[0].0, partner)]);
        assert(rest[pairs[0].1] == indices[lift(pairs[0].1, partner)]);
    }
}

/// The weight of a matching with a first pair: the entry that joins the
/// first index with the partner, times the weight of the rest.
proof fn lemma_weight_with_pair<S: Scalar>(
    m: Seq<Seq<S>>,
    indices: Seq<usize>,
    rest: Seq<(int, int)>,
    partner: int,
)
    requires
        0 < partner < indices.len(),
        all_pairs_within(rest, (indices.len() - 2) as nat),
    ensures
        matching_weight(m, indices, with_pair(rest, partner)) == m[indices[0] as int][indices[
            partner
        ] as int].spec_times(matching_weight(m, without_pair(indices, partner), rest)),
{
    let pairs = with_pair(rest, partner);
    assert(pairs.drop_first() =~= lift_pairs(rest, partner));
    lemma_weight_of_lifted(m, indices, rest, partner);
}

/// The sum of two rows of terms, one after the other, is the sum of their
/// sums.
proof fn lemma_sum_of_both<S: Scalar>(a: Seq<S>, b: Seq<S>)
    requires
        obeys_ring_laws::<S>(),
    ensures
        sum_of(a + b) == sum_of(a).spec_plus(sum_of(b)),
    decreases b.len(),
{
    if b.len() == 0 {
        assert(a + b =~= a);
        law_zero_is_neutral(sum_of(a));
    } else {
        lemma_sum_of_both(a, b.drop_last());
        assert((a + b).drop_last() =~= a + b.drop_last());
        assert((a + b).last() == b.last());
        law_plus_associates(sum_of(a), sum_of(b.drop_last()), b.last());
    }
}

/// The terms of a row, each with the factor `c` in front.
pub open spec fn scaled<S: Scalar>(c: S, terms: Seq<S>) -> Seq<S> {
    Seq::new(terms.len(), |t: int| c.spec_times(terms[t]))
}

/// A factor in front of a sum can go in front of each of its terms.
proof fn lemma_sum_of_scaled<S: Scalar>(c: S, terms: Seq<S>)
    requires
        obeys_ring_laws::<S>(),
    ensures
        c.spec_times(sum_of(terms)) == sum_of(scaled(c, terms)),
    decreases terms.len(),
{
    if terms.len() > 0 {
        lemma_sum_of_scaled(c, terms.drop_last());
        assert(scaled(c, terms).drop_last() =~= scaled(c, terms.drop_last()));
        assert(scaled(c, terms).last() == c.spec_times(terms.last()));
        law_times_distributes(c, sum_of(terms.drop_last()), terms.last());
    } else {
        law_times_zero(c);
    }
}

/// The product of two signs is the sign of the sum of their numbers.
proof fn lemma_sign_of_sum<S: Scalar>(a: nat, b: nat)
    requires
        obeys_ring_laws::<S>(),
    ensures
        sign_of::<S>(a).spec_times(sign_of::<S>(b)) == sign_of::<S>(a + b),
{
    law_one_is_neutral(S::spec_one());
    law_one_is_neutral(S::spec_one().spec_negate());
    law_minus_one_squared::<S>();
}

/// Two signed weights multiply sign with sign and weight with weight.
proof fn lemma_regroup<S: Scalar>(s: S, v: S, t: S, w: S)
    requires
        obeys_ring_laws::<S>(),
    ensures
        s.spec_times(v).spec_times(t.spec_times(w)) == s.spec_times(t).spec_times(
            v.spec_times(w),
        ),
{
    let tw = t.spec_times(w);
    let vw = v.spec_times(w);
    law_times_associates(s, v, tw);
    law_times_associates(v, t, w);
    law_times_commutes(v, t);
    law_times_associates(t, v, w);
    law_times_associates(s, t, vw);
}

/// The term of a matching with a first pair: the sign of the partner's
/// position, times the entry that joins the first index with the partner,
/// times the term of the rest.
proof fn lemma_term_with_pair<S: Scalar>(
    m: Seq<Seq<S>>,
    indices: Seq<usize>,
    inner: int,
    partner: int,
)
    requires
        obeys_ring_laws::<S>(),
        0 < partner < indices.len(),
        0 <= inner < matchings((indices.len() - 2) as nat).len(),
    ensures
        matching_term(
            m,
            indices,
            with_pair(matchings((indices.len() - 2) as nat)[inner], partner),
        ) == sign::<S>(partner).spec_times(
            m[indices[0] as int][indices[partner] as int],
        ).spec_times(
            matching_term(
                m,
                without_pair(indices, partner),
                matchings((indices.len() - 2) as nat)[inner],
            ),
        ),
{
    let n = indices.len();
    let rest = matchings((n - 2) as nat)[inner];
    let whole = with_pair(rest, partner);
    lemma_listed_within((n - 2) as nat, inner);
    lemma_weight_with_pair(m, indices, rest, partner);
    lemma_inversions_with_pair(n, inner, partner);
    lemma_sign_of_sum::<S>((partner - 1) as nat, inversions(word(rest)));
    assert(sign::<S>(partner) == sign_of::<S>((partner - 1) as nat));
    lemma_regroup(
        sign::<S>(partner),
        m[indices[0] as int][indices[partner] as int],
        matching_sign::<S>(rest),
        matching_weight(m, without_pair(indices, partner), rest),
    );
}

/// The Pfaffian on a list is the signed sum of the weights of all perfect
/// matchings of its places, in every arithmetic that obeys the laws of a
/// commutative ring.
pub proof fn lemma_expansion_is_matching_sum<S: Scalar>(m: Seq<Seq<S>>, indices: Seq<usize>)
    requires
        obeys_ring_laws::<S>(),
    ensures
        expansion(m, indices) == matching_sum(m, indices),
    decreases indices.len(), 1nat, 0nat,
{
    let n = indices.len();
    if n == 0 {
        let only = Seq::<(int, int)>::empty();
        assert(matchings(0) =~= seq![only]);
        assert(word(only) =~= Seq::<int>::empty());
        assert(matching_term(m, indices, only) == S::spec_one().spec_times(S::spec_one()));
        let terms = matching_terms(m, indices, matchings(0));
        assert(terms.len() == 1);
        assert(terms.last() == matching_term(m, indices, only));
        assert(terms.drop_last().len() == 0);
        assert(sum_of(terms.drop_last()) == S::spec_zero());
        assert(sum_of(terms) == S::spec_zero().spec_plus(terms.last()));
        law_one_is_neutral(S::spec_one());
        law_zero_is_neutral(S::spec_one());
    } else {
        lemma_partial_sum_is_matching_sum(m, indices, (n - 1) as nat);
    }
}

/// The terms of the partners up to `upto` add up to the signed sum of the
/// weights of the perfect matchings that join the first place with one of
/// them.
proof fn lemma_partial_sum_is_matching_sum<S: Scalar>(
    m: Seq<Seq<S>>,
    indices: Seq<usize>,
    upto: nat,
)
    requires
        obeys_ring_laws::<S>(),
        upto < indices.len(),
    ensures
        partial_sum(m, indices, upto) == sum_of(
            matching_terms(m, indices, matchings_upto(indices.len(), upto)),
        ),
    decreases indices.len(), 0nat, upto,
{
    let n = indices.len();
    if upto == 0 {
        assert(matching_terms(m, indices, matchings_upto(n, upto)) =~= Seq::<S>::empty());
    } else {
        let partner = upto as int;
        let rest = without_pair(indices, partner);
        let inner = matchings((n - 2) as nat);
        let before = matchings_upto(n, (upto - 1) as nat);
        let last = matchings_with(n, partner);
        assert(matchings_upto(n, upto) == before + last);
        assert(last.len() == inner.len());
        lemma_partial_sum_is_matching_sum(m, indices, (upto - 1) as nat);
        assert(rest.len() == n - 2);
        lemma_expansion_is_matching_sum(m, rest);
        let factor = sign::<S>(partner).spec_times(m[indices[0] as int][indices[partner] as int]);
        let inner_terms = matching_terms(m, rest, inner);
        lemma_sum_of_scaled(factor, inner_terms);
        assert(scaled(factor, inner_terms) =~= matching_terms(m, indices, last)) by {
            assert forall|t: int| 0 <= t < inner.len() implies scaled(factor, inner_terms)[t]
                == matching_terms(m, indices, last)[t] by {
                lemma_term_with_pair(m, indices, t, partner);
                assert(last[t] == with_pair(inner[t], partner));
            }
        }
        assert(term(m, indices, partner) == factor.spec_times(expansion(m, rest)));
        lemma_sum_of_both(
            matching_terms(m, indices, before),
            matching_terms(m, indices, last),
        );
        assert(matching_terms(m, indices, before + last) =~= matching_terms(m, indices, before)
            + matching_terms(m, indices, last));
    }
}

/// Whether `list` holds every perfect matching of the places `0..n` once,
/// and nothing else.
pub open spec fn lists_all_matchings(list: Seq<Seq<(int, int)>>, n: nat) -> bool {
    &&& forall|t: int| 0 <= t < list.len() ==> is_perfect_matching(#[trigger] list[t], n)
    &&& forall|s: int, t: int| 0 <= s < t < list.len() ==> #[trigger] list[s] != #[trigger] list[t]
    &&& forall|pairs: Seq<(int, int)>| #[trigger]
        is_perfect_matching(pairs, n) ==> list.contains(pairs)
}

/// The list of all perfect matchings holds each of them once, and nothing
/// else.
pub proof fn lemma_matchings_lists_all(n: nat)
    ensures
        lists_all_matchings(matchings(n), n),
{
    let list = matchings(n);
    assert forall|t: int| 0 <= t < list.len() implies is_perfect_matching(
        #[trigger] list[t],
        n,
    ) by {
        lemma_listed_is_perfect(n, t);
    }
    assert forall|s: int, t: int| 0 <= s < t < list.len() implies #[trigger] list[s]
        != #[trigger] list[t] by {
        lemma_lists_once(n, s, t);
    }
    assert forall|pairs: Seq<(int, int)>| #[trigger]
        is_perfect_matching(pairs, n) implies list.contains(pairs) by {
        let at = lemma_perfect_is_listed(n, pairs);
        assert(list[at] == pairs);
    }
}

/// A term may be taken out of a sum and added at its end.
proof fn lemma_sum_without<S: Scalar>(terms: Seq<S>, at: int)
    requires
        obeys_ring_laws::<S>(),
        0 <= at < terms.len(),
    ensures
        sum_of(terms) == sum_of(terms.remove(at)).spec_plus(terms[at]),
    decreases terms.len(),
{
    if at == terms.len() - 1 {
        assert(terms.remove(at) =~= terms.drop_last());
    } else {
        let front = terms.drop_last();
        lemma_sum_without(front, at);
        assert(terms.remove(at).drop_last() =~= front.remove(at));
        assert(terms.remove(at).last() == terms.last());
        let head = sum_of(front.remove(at));
        law_plus_associates(head, terms[at], terms.last());
        law_plus_commutes(terms[at], terms.last());
        law_plus_associates(head, terms.last(), terms[at]);
    }
}

/// Two lists that hold the same matchings, each of them once, have the same
/// sum of terms.
proof fn lemma_sum_of_rearranged<S: Scalar>(
    m: Seq<Seq<S>>,
    indices: Seq<usize>,
    a: Seq<Seq<(int, int)>>,
    b: Seq<Seq<(int, int)>>,
)
    requires
        obeys_ring_laws::<S>(),
        a.no_duplicates(),
        b.no_duplicates(),
        forall|pairs: Seq<(int, int)>| a.contains(pairs) <==> b.contains(pairs),
    ensures
        sum_of(matching_terms(m, indices, a)) == sum_of(matching_terms(m, indices, b)),
    decreases a.len(),
{
    if a.len() == 0 {
        if b.len() > 0 {
            assert(b.contains(b[0]));
            assert(a.contains(b[0]));
        }
        assert(matching_terms(m, indices, a) =~= matching_terms(m, indices, b));
    } else {
        let last = a.last();
        assert(a.contains(last));
        assert(b.contains(last));
        let at = choose|at: int| 0 <= at < b.len() && b[at] == last;
        let front = a.drop_last();
        let others = b.remove(at);
        assert forall|pairs: Seq<(int, int)>| front.contains(pairs) <==> others.contains(
            pairs,
        ) by {
            if front.contains(pairs) {
                let s = choose|s: int| 0 <= s < front.len() && front[s] == pairs;
                assert(a[s] == pairs);
                assert(a.contains(pairs));
                assert(pairs != last);
                let t = choose|t: int| 0 <= t < b.len() && b[t] == pairs;
                if t < at {
                    assert(others[t] == pairs);
                } else {
                    assert(others[t - 1] == pairs);
                }
            }
            if others.contains(pairs) {
                let t = choose|t: int| 0 <= t < others.len() && others[t] == pairs;
                let before = if t < at {
                    t
                } else {
                    t + 1
                };
                assert(b[before] == pairs);
                assert(b.contains(pairs));
                assert(pairs != last);
                let s = choose|s: int| 0 <= s < a.len() && a[s] == pairs;
                assert(front[s] == pairs);
            }
        }
        assert(front.no_duplicates());
        assert(others.no_duplicates()) by {
            assert forall|s: int, t: int|
                0 <= s < others.len() && 0 <= t < others.len() && s != t implies others[s]
                != others[t] by {
                let s_before = if s < at {
                    s
                } else {
                    s + 1
                };
                let t_before = if t < at {
                    t
                } else {
                    t + 1
                };
                assert(others[s] == b[s_before] && others[t] == b[t_before]);
            }
        }
        lemma_sum_of_rearranged(m, indices, front, others);
        let terms = matching_terms(m, indices, b);
        lemma_sum_without(terms, at);
        assert(terms.remove(at) =~= matching_terms(m, indices, others));
        assert(matching_terms(m, indices, a).drop_last() =~= matching_terms(m, indices, front));
    }
}

/// The Pfaffian on a list is the signed sum of the weights of all perfect
/// matchings of its places, in whatever order they are listed, in every
/// arithmetic that obeys the laws of a commutative ring.
pub proof fn lemma_expansion_is_sum_over_matchings<S: Scalar>(
    m: Seq<Seq<S>>,
    indices: Seq<usize>,
    list: Seq<Seq<(int, int)>>,
)
    requires
        obeys_ring_laws::<S>(),
        lists_all_matchings(list, indices.len()),
    ensures
        expansion(m, indices) == sum_of(matching_terms(m, indices, list)),
{
    let n = indices.len();
    lemma_expansion_is_matching_sum(m, indices);
    lemma_matchings_lists_all(n);
    let all = matchings(n);
    assert forall|pairs: Seq<(int, int)>| list.contains(pairs) <==> all.contains(pairs) by {
        if list.contains(pairs) {
            let t = choose|t: int| 0 <= t < list.len() && list[t] == pairs;
            assert(is_perfect_matching(list[t], n));
        }
        if all.contains(pairs) {
            let t = choose|t: int| 0 <= t < all.len() && all[t] == pairs;
            assert(is_perfect_matching(all[t], n));
        }
    }
    lemma_sum_of_rearranged(m, indices, list, all);
}

} // verus!
