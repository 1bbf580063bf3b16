//! What it means for share sets to be a threshold sharing of a weight
//! vector, and the proof that a quorum of them gives the vector back.
//!
//! Every weight is hidden as the constant term of a polynomial of its own,
//! with `threshold - 1` further coefficients drawn at random. Share set `i`
//! holds the value of every polynomial at `i + 1`.

use vstd::prelude::*;
use crate::interpolation::{combined, distinct, lemma_combined_recovers_constant, samples};
use crate::polynomial::{
    eval, geometric, lemma_eval_at_zero, lemma_eval_bound, lemma_geometric_monotone, tail_nonneg,
};

verus! {

/// Fixed-point scale: a weight `w` is held as the integer `w * WEIGHT_SCALE`.
pub const WEIGHT_SCALE: i64 = 1_000_000;

/// The random coefficients of a masking polynomial lie in
/// `[0, COEFFICIENT_BOUND)`, which is `[0, 100)` in weight units.
pub const COEFFICIENT_BOUND: i64 = 100_000_000;

/// The most by which a share may exceed the weight it hides: `2^126`.
pub const SHARE_SPAN: i128 = 0x4000_0000_0000_0000_0000_0000_0000_0000;

/// Fixed-point numbers as mathematical integers.
pub open spec fn as_ints(values: Seq<i64>) -> Seq<int> {
    values.map_values(|v: i64| v as int)
}

/// The most by which a share of a sharing with these counts can exceed the
/// weight it hides.
pub open spec fn share_span(num_shares: nat, threshold: nat) -> int {
    (COEFFICIENT_BOUND - 1) * (num_shares * geometric(num_shares as int, (threshold - 1) as nat))
}

/// The counts describe a sharing whose shares fit in 128 bits.
pub open spec fn share_counts_valid(num_shares: nat, threshold: nat) -> bool {
    &&& 1 <= threshold <= num_shares
    &&& share_span(num_shares, threshold) <= SHARE_SPAN
}

/// `coeffs` is a masking polynomial for `secret`: the secret is its constant
/// term and its other `threshold - 1` coefficients are in range.
pub open spec fn masks(coeffs: Seq<int>, secret: int, threshold: nat) -> bool {
    &&& coeffs.len() == threshold
    &&& threshold >= 1
    &&& coeffs[0] == secret
    &&& forall|i: int| 1 <= i < coeffs.len() ==> 0 <= #[trigger] coeffs[i] < COEFFICIENT_BOUND
}

/// `shares` are the `num_shares` share sets that the polynomials `polys`,
/// one for each weight, give.
pub open spec fn is_sharing(
    shares: Seq<Seq<i128>>,
    weights: Seq<i64>,
    polys: Seq<Seq<int>>,
    num_shares: nat,
    threshold: nat,
) -> bool {
    &&& shares.len() == num_shares
    &&& polys.len() == weights.len()
    &&& forall|c: int|
        0 <= c < weights.len() ==> masks(#[trigger] polys[c], weights[c] as int, threshold)
    &&& forall|i: int| 0 <= i < num_shares ==> (#[trigger] shares[i]).len() == weights.len()
    &&& forall|i: int, c: int|
        0 <= i < num_shares && 0 <= c < weights.len() ==> (#[trigger] shares[i][c]) as int == eval(
            polys[c],
            i + 1,
        )
}

/// The indices in `picks` name share sets, none twice.
pub open spec fn is_selection(picks: Seq<int>, num_shares: nat) -> bool {
    &&& forall|j: int| 0 <= j < picks.len() ==> 0 <= #[trigger] picks[j] < num_shares
    &&& distinct(picks)
}

/// The shares of weight `coordinate` in the share sets `picks`, as points.
pub open spec fn picked_points(shares: Seq<Seq<i128>>, picks: Seq<int>, coordinate: int) -> Seq<
    (int, int),
> {
    picks.map_values(|i: int| (i + 1, shares[i][coordinate] as int))
}

/// Right of zero a masking polynomial exceeds its secret by no more than the
/// span of the sharing.
pub proof fn lemma_share_excess(
    coeffs: Seq<int>,
    secret: int,
    threshold: nat,
    x: int,
    num_shares: nat,
)
    requires
        masks(coeffs, secret, threshold),
        0 <= x <= num_shares,
    ensures
        eval(coeffs, x) == secret + x * eval(coeffs.drop_first(), x),
        0 <= eval(coeffs.drop_first(), x) <= (COEFFICIENT_BOUND - 1) * geometric(
            x,
            (threshold - 1) as nat,
        ),
        0 <= x * eval(coeffs.drop_first(), x) <= share_span(num_shares, threshold),
{
    let rest = coeffs.drop_first();
    let bound = COEFFICIENT_BOUND - 1;
    let terms = (threshold - 1) as nat;
    assert forall|i: int| 0 <= i < rest.len() implies 0 <= #[trigger] rest[i] && rest[i]
        <= bound by {
        assert(rest[i] == coeffs[i + 1]);
    }
    lemma_eval_bound(rest, x, bound);
    lemma_geometric_monotone(x, num_shares as int, terms, terms);
    let r = eval(rest, x);
    let gx = geometric(x, terms);
    let gk = geometric(num_shares as int, terms);
    assert(0 <= x * r <= bound * (num_shares * gk)) by (nonlinear_arith)
        requires
            0 <= r <= bound * gx,
            0 <= gx <= gk,
            0 <= x <= num_shares,
            bound >= 0,
    ;
}

/// With a threshold of one there is no secrecy: every share is the secret.
pub proof fn lemma_threshold_one_shares_the_secret(coeffs: Seq<int>, secret: int, x: int)
    requires
        masks(coeffs, secret, 1),
    ensures
        eval(coeffs, x) == secret,
{
    assert(coeffs.drop_first().len() == 0);
    assert(eval(coeffs.drop_first(), x) == 0);
    assert(x * 0 == 0);
}

/// Secret sharing is exact: of a sharing with valid counts, any `threshold`
/// or more share sets give back every weight.
pub proof fn lemma_quorum_recovers_weight(
    shares: Seq<Seq<i128>>,
    weights: Seq<i64>,
    polys: Seq<Seq<int>>,
    num_shares: nat,
    threshold: nat,
    picks: Seq<int>,
    coordinate: int,
)
    requires
        share_counts_valid(num_shares, threshold),
        is_sharing(shares, weights, polys, num_shares, threshold),
        is_selection(picks, num_shares),
        picks.len() >= threshold,
        0 <= coordinate < weights.len(),
    ensures
        combined(picked_points(shares, picks, coordinate)) == Some(weights[coordinate] as int),
{
    let coeffs = polys[coordinate];
    let secret = weights[coordinate] as int;
    let xs = picks.map_values(|i: int| i + 1);
    assert(masks(coeffs, secret, threshold));
    lemma_eval_at_zero(coeffs);
    assert(tail_nonneg(coeffs));
    assert(distinct(xs));
    assert forall|j: int| 0 <= j < xs.len() implies eval(coeffs, #[trigger] xs[j]) - eval(coeffs, 0)
        <= SHARE_SPAN by {
        lemma_share_excess(coeffs, secret, threshold, xs[j], num_shares);
    }
    lemma_combined_recovers_constant(coeffs, xs, SHARE_SPAN as int);
    assert(picked_points(shares, picks, coordinate) =~= samples(coeffs, xs)) by {
        assert forall|j: int| 0 <= j < picks.len() implies picked_points(
            shares,
            picks,
            coordinate,
        )[j] == samples(coeffs, xs)[j] by {
            assert(shares[picks[j]][coordinate] as int == eval(polys[coordinate], picks[j] + 1));
        }
    }
}

/// The shares of one weight in all the share sets, as points: share set `i`
/// holds the value at `i + 1`.
pub open spec fn column(sets: Seq<Seq<i128>>, coordinate: int) -> Seq<(int, int)> {
    Seq::new(sets.len(), |i: int| (i + 1, sets[i][coordinate] as int))
}

/// There is a share set, and all share sets are as long as the first.
pub open spec fn rectangular(sets: Seq<Seq<i128>>) -> bool {
    &&& sets.len() > 0
    &&& forall|i: int| 0 <= i < sets.len() ==> (#[trigger] sets[i]).len() == sets[0].len()
}

/// The weight that the share sets hold at a coordinate, if they hold one.
pub open spec fn weight_at(sets: Seq<Seq<i128>>, coordinate: int) -> Option<i64> {
    match combined(column(sets, coordinate)) {
        Some(v) => if i64::MIN <= v <= i64::MAX {
            Some(v as i64)
        } else {
            None
        },
        None => None,
    }
}

/// The weight vector that the share sets hold: every coordinate combined
/// from all of them. There is none where the share sets differ in length
/// or a coordinate does not combine into a weight.
pub open spec fn reconstruction(sets: Seq<Seq<i128>>) -> Option<Seq<i64>> {
    if rectangular(sets) && forall|c: int|
        0 <= c < sets[0].len() ==> (#[trigger] weight_at(sets, c)) is Some {
        Some(Seq::new(sets[0].len(), |c: int| weight_at(sets, c).unwrap()))
    } else {
        None
    }
}

/// What was split is reconstructed: the share sets of a sharing with valid
/// counts hold the weights that were shared.
pub proof fn lemma_reconstruction_of_sharing(
    shares: Seq<Seq<i128>>,
    weights: Seq<i64>,
    polys: Seq<Seq<int>>,
    num_shares: nat,
    threshold: nat,
)
    requires
        share_counts_valid(num_shares, threshold),
        is_sharing(shares, weights, polys, num_shares, threshold),
    ensures
        reconstruction(shares) == Some(weights),
{
    let picks = Seq::new(num_shares, |i: int| i);
    assert(rectangular(shares));
    assert forall|c: int| 0 <= c < weights.len() implies #[trigger] weight_at(shares, c) == Some(
        weights[c],
    ) by {
        lemma_quorum_recovers_weight(shares, weights, polys, num_shares, threshold, picks, c);
        assert(picked_points(shares, picks, c) =~= column(shares, c));
    }
    assert(reconstruction(shares).unwrap() =~= weights);
}

} // verus!
