use vstd::prelude::*;

verus! {

/// Where the place `place` of a list that lost its first place and the place
/// `partner` stood in the list before: the places below `partner` move up by
/// one, the others by two.
pub open spec fn lift(place: int, partner: int) -> int {
    if place < partner - 1 {
        place + 1
    } else {
        place + 2
    }
}

/// The place in the shorter list of what stood at `place`, once the first
/// place and the place `partner` have left.
pub open spec fn lower(place: int, partner: int) -> int {
    if place < partner {
        place - 1
    } else {
        place - 2
    }
}

/// The pairs of a shorter list, each place told as it stood before the first
/// place and the place `partner` left.
pub open spec fn lift_pairs(pairs: Seq<(int, int)>, partner: int) -> Seq<(int, int)> {
    Seq::new(pairs.len(), |t: int| (lift(pairs[t].0, partner), lift(pairs[t].1, partner)))
}

/// The matching that joins the first place with `partner` and the other
/// places as `rest` joins them.
pub open spec fn with_pair(rest: Seq<(int, int)>, partner: int) -> Seq<(int, int)> {
    seq![(0int, partner)] + lift_pairs(rest, partner)
}

/// Whether `pairs` is a perfect matching of the places `0..n`, written in its
/// one canonical way: each pair with its lower place first, the pairs in the
/// rising order of their lower places, every place in a pair, none in two.
pub open spec fn is_perfect_matching(pairs: Seq<(int, int)>, n: nat) -> bool {
    &&& forall|t: int| 0 <= t < pairs.len() ==> 0 <= (#[trigger] pairs[t]).0 < pairs[t].1 < n
    &&& forall|s: int, t: int|
        0 <= s < t < pairs.len() ==> (#[trigger] pairs[s]).0 < (#[trigger] pairs[t]).0
    &&& forall|s: int, t: int|
        0 <= s < pairs.len() && 0 <= t < pairs.len() && s != t ==> (#[trigger] pairs[s]).1 != (
        #[trigger] pairs[t]).1 && pairs[s].0 != pairs[t].1
    &&& forall|x: int| 0 <= x < n ==> #[trigger] is_matched(pairs, x)
}

/// Whether the place `x` is in one of the pairs.
pub open spec fn is_matched(pairs: Seq<(int, int)>, x: int) -> bool {
    exists|t: int| 0 <= t < pairs.len() && #[trigger] holds(pairs[t], x)
}

/// Whether `x` is one of the two places of the pair.
pub open spec fn holds(pair: (int, int), x: int) -> bool {
    pair.0 == x || pair.1 == x
}

/// All perfect matchings of the places `0..n`: for each partner of the first
/// place in turn, the matchings of the places that are left.
pub open spec fn matchings(n: nat) -> Seq<Seq<(int, int)>>
    decreases n, 1nat, 0nat,
{
    if n == 0 {
        seq![Seq::<(int, int)>::empty()]
    } else {
        matchings_upto(n, (n - 1) as nat)
    }
}

/// The perfect matchings of the places `0..n` that join the first place with
/// one of the places `1..=upto`.
pub open spec fn matchings_upto(n: nat, upto: nat) -> Seq<Seq<(int, int)>>
    decreases n, 0nat, upto,
{
    if n >= 2 && 0 < upto < n {
        matchings_upto(n, (upto - 1) as nat) + matchings_with(n, upto as int)
    } else {
        Seq::empty()
    }
}

/// The perfect matchings of the places `0..n` that join the first place with
/// `partner`.
pub open spec fn matchings_with(n: nat, partner: int) -> Seq<Seq<(int, int)>>
    decreases n, 0nat, 0nat,
{
    if n >= 2 {
        let inner = matchings((n - 2) as nat);
        Seq::new(inner.len(), |t: int| with_pair(inner[t], partner))
    } else {
        Seq::empty()
    }
}

/// Each matching listed up to a partner joins the first place with a partner
/// up to that one, and the rest as a listed matching of the places left.
pub proof fn lemma_listed_upto(n: nat, upto: nat, at: int) -> (from: (int, int))
    requires
        0 <= at < matchings_upto(n, upto).len(),
    ensures
        n >= 2,
        1 <= from.0 <= upto < n,
        0 <= from.1 < matchings((n - 2) as nat).len(),
        matchings_upto(n, upto)[at] == with_pair(matchings((n - 2) as nat)[from.1], from.0),
    decreases upto,
{
    let before = matchings_upto(n, (upto - 1) as nat);
    let last = matchings_with(n, upto as int);
    assert(matchings_upto(n, upto) == before + last);
    assert(last.len() == matchings((n - 2) as nat).len());
    if at < before.len() {
        lemma_listed_upto(n, (upto - 1) as nat, at)
    } else {
        assert(matchings_upto(n, upto)[at] == last[at - before.len()]);
        (upto as int, at - before.len())
    }
}

/// The matching that joins the first place with `partner` and the rest as
/// the listed matching at `inner` is listed up to any partner from
/// `partner` on.
pub proof fn lemma_upto_lists(n: nat, upto: nat, partner: int, inner: int) -> (at: int)
    requires
        n >= 2,
        1 <= partner <= upto < n,
        0 <= inner < matchings((n - 2) as nat).len(),
    ensures
        0 <= at < matchings_upto(n, upto).len(),
        matchings_upto(n, upto)[at] == with_pair(matchings((n - 2) as nat)[inner], partner),
    decreases upto,
{
    let before = matchings_upto(n, (upto - 1) as nat);
    let last = matchings_with(n, upto as int);
    assert(matchings_upto(n, upto) == before + last);
    assert(last.len() == matchings((n - 2) as nat).len());
    if partner < upto {
        lemma_upto_lists(n, (upto - 1) as nat, partner, inner)
    } else {
        assert(matchings_upto(n, upto)[before.len() + inner] == last[inner]);
        before.len() + inner
    }
}

/// Joining the first place with a partner and the places left by a perfect
/// matching gives a perfect matching.
pub proof fn lemma_with_pair_is_perfect(rest: Seq<(int, int)>, n: nat, partner: int)
    requires
        n >= 2,
        1 <= partner < n,
        is_perfect_matching(rest, (n - 2) as nat),
    ensures
        is_perfect_matching(with_pair(rest, partner), n),
{
    let pairs = with_pair(rest, partner);
    assert forall|t: int| 0 <= t < pairs.len() implies 0 <= (#[trigger] pairs[t]).0 < pairs[t].1
        < n by {
        if t > 0 {
            assert(pairs[t] == (lift(rest[t - 1].0, partner), lift(rest[t - 1].1, partner)));
        }
    }
    assert forall|s: int, t: int| 0 <= s < t < pairs.len() implies (#[trigger] pairs[s]).0 < (
    #[trigger] pairs[t]).0 by {
        assert(pairs[t] == (lift(rest[t - 1].0, partner), lift(rest[t - 1].1, partner)));
        if s > 0 {
            assert(pairs[s] == (lift(rest[s - 1].0, partner), lift(rest[s - 1].1, partner)));
        }
    }
    assert forall|s: int, t: int|
        0 <= s < pairs.len() && 0 <= t < pairs.len() && s != t implies (#[trigger] pairs[s]).1 != (
    #[trigger] pairs[t]).1 && pairs[s].0 != pairs[t].1 by {
        if s > 0 {
            assert(pairs[s] == (lift(rest[s - 1].0, partner), lift(rest[s - 1].1, partner)));
        }
        if t > 0 {
            assert(pairs[t] == (lift(rest[t - 1].0, partner), lift(rest[t - 1].1, partner)));
        }
    }
    assert forall|x: int| 0 <= x < n implies #[trigger] is_matched(pairs, x) by {
        if x == 0 || x == partner {
            assert(holds(pairs[0], x));
        } else {
            let low = lower(x, partner);
            assert(is_matched(rest, low));
            let t = choose|t: int| 0 <= t < rest.len() && #[trigger] holds(rest[t], low);
            assert(pairs[t + 1] == (lift(rest[t].0, partner), lift(rest[t].1, partner)));
            assert(holds(pairs[t + 1], x));
        }
    }
}

/// Every listed matching is a perfect matching.
pub proof fn lemma_listed_is_perfect(n: nat, at: int)
    requires
        0 <= at < matchings(n).len(),
    ensures
        is_perfect_matching(matchings(n)[at], n),
    decreases n,
{
    if n > 0 {
        let from = lemma_listed_upto(n, (n - 1) as nat, at);
        lemma_listed_is_perfect((n - 2) as nat, from.1);
        lemma_with_pair_is_perfect(matchings((n - 2) as nat)[from.1], n, from.0);
    }
}

/// Every perfect matching is listed.
pub proof fn lemma_perfect_is_listed(n: nat, pairs: Seq<(int, int)>) -> (at: int)
    requires
        is_perfect_matching(pairs, n),
    ensures
        0 <= at < matchings(n).len(),
        matchings(n)[at] == pairs,
    decreases n,
{
    if n == 0 {
        assert(pairs =~= Seq::<(int, int)>::empty()) by {
            if pairs.len() > 0 {
                assert(pairs[0].1 < 0);
            }
        }
        0
    } else {
        assert(is_matched(pairs, 0));
        let first = choose|t: int| 0 <= t < pairs.len() && #[trigger] holds(pairs[t], 0);
        assert(first == 0) by {
            if first > 0 {
                assert(pairs[0].0 < pairs[first].0);
            }
        }
        let partner = pairs[0].1;
        let rest = Seq::new(
            (pairs.len() - 1) as nat,
            |t: int| (lower(pairs[t + 1].0, partner), lower(pairs[t + 1].1, partner)),
        );
        assert forall|t: int| 0 <= t < rest.len() implies 0 < (#[trigger] pairs[t + 1]).0
            < pairs[t + 1].1 < n && pairs[t + 1].0 != partner && pairs[t + 1].1 != partner by {
            assert(pairs[0].0 < pairs[t + 1].0);
            assert(pairs[0].1 != pairs[t + 1].1 && pairs[t + 1].0 != pairs[0].1);
        }
        assert(is_perfect_matching(rest, (n - 2) as nat)) by {
            assert forall|t: int| 0 <= t < rest.len() implies 0 <= (#[trigger] rest[t]).0
                < rest[t].1 < n - 2 by {
                assert(0 < pairs[t + 1].0);
            }
            assert forall|s: int, t: int| 0 <= s < t < rest.len() implies (#[trigger] rest[s]).0
                < (#[trigger] rest[t]).0 by {
                assert(pairs[s + 1].0 < pairs[t + 1].0);
                assert(0 < pairs[s + 1].0 && 0 < pairs[t + 1].0);
            }
            assert forall|s: int, t: int|
                0 <= s < rest.len() && 0 <= t < rest.len() && s != t implies (
            #[trigger] rest[s]).1 != (#[trigger] rest[t]).1 && rest[s].0 != rest[t].1 by {
                assert(pairs[s + 1].1 != pairs[t + 1].1 && pairs[s + 1].0 != pairs[t + 1].1);
                assert(0 < pairs[s + 1].0 && 0 < pairs[t + 1].0);
            }
            assert forall|x: int| 0 <= x < n - 2 implies #[trigger] is_matched(rest, x) by {
                let up = lift(x, partner);
                assert(is_matched(pairs, up));
                let t = choose|t: int| 0 <= t < pairs.len() && #[trigger] holds(pairs[t], up);
                assert(t > 0);
                assert(0 < pairs[t].0);
                assert(holds(rest[t - 1], x));
            }
        }
        let inner = lemma_perfect_is_listed((n - 2) as nat, rest);
        assert(with_pair(rest, partner) =~= pairs) by {
            assert forall|t: int| 0 <= t < pairs.len() implies with_pair(rest, partner)[t]
                == pairs[t] by {
                if t > 0 {
                    assert(0 < pairs[t].0);
                    assert(with_pair(rest, partner)[t] == (
                        lift(rest[t - 1].0, partner),
                        lift(rest[t - 1].1, partner),
                    ));
                }
            }
        }
        lemma_upto_lists(n, (n - 1) as nat, partner, inner)
    }
}

/// Two different ways to join the places left give different matchings with
/// the same first pair.
proof fn lemma_with_pair_tells_apart(a: Seq<(int, int)>, b: Seq<(int, int)>, partner: int)
    requires
        with_pair(a, partner) == with_pair(b, partner),
    ensures
        a == b,
{
    let left = with_pair(a, partner);
    let right = with_pair(b, partner);
    assert(a.len() == b.len()) by {
        assert(left.len() == a.len() + 1);
        assert(right.len() == b.len() + 1);
    }
    assert forall|t: int| 0 <= t < a.len() implies a[t] == b[t] by {
        assert(left[t + 1] == (lift(a[t].0, partner), lift(a[t].1, partner)));
        assert(right[t + 1] == (lift(b[t].0, partner), lift(b[t].1, partner)));
    }
    assert(a =~= b);
}

/// No matching is listed twice up to a partner.
proof fn lemma_upto_lists_once(n: nat, upto: nat, s: int, t: int)
    requires
        0 <= s < t < matchings_upto(n, upto).len(),
    ensures
        matchings_upto(n, upto)[s] != matchings_upto(n, upto)[t],
    decreases n, 0nat, upto,
{
    let before = matchings_upto(n, (upto - 1) as nat);
    let last = matchings_with(n, upto as int);
    let inner = matchings((n - 2) as nat);
    assert(matchings_upto(n, upto) == before + last);
    assert(last.len() == inner.len());
    if t < before.len() {
        lemma_upto_lists_once(n, (upto - 1) as nat, s, t);
    } else if s < before.len() {
        let from = lemma_listed_upto(n, (upto - 1) as nat, s);
        assert(matchings_upto(n, upto)[s] == before[s]);
        assert(matchings_upto(n, upto)[t] == last[t - before.len()]);
        assert(before[s][0] == (0int, from.0));
        assert(last[t - before.len()][0] == (0int, upto as int));
    } else {
        let a = s - before.len();
        let b = t - before.len();
        assert(matchings_upto(n, upto)[s] == last[a]);
        assert(matchings_upto(n, upto)[t] == last[b]);
        lemma_lists_once((n - 2) as nat, a, b);
        if last[a] == last[b] {
            lemma_with_pair_tells_apart(inner[a], inner[b], upto as int);
        }
    }
}

/// No matching is listed twice.
pub proof fn lemma_lists_once(n: nat, s: int, t: int)
    requires
        0 <= s < t < matchings(n).len(),
    ensures
        matchings(n)[s] != matchings(n)[t],
    decreases n, 1nat, 0nat,
{
    if n > 0 {
        lemma_upto_lists_once(n, (n - 1) as nat, s, t);
    }
}

} // verus!
