//! The client's sanitizing steps and the server's aggregation: noise,
//! threshold sharing, share encryption and federated averaging.

use rand::Rng;
use vstd::prelude::*;
use vstd::string::StrSliceExecFns;
use vstd::utf8::{
    decode_utf8, encode_utf8, encode_utf8_decode_utf8, is_ascii_chars, is_ascii_chars_encode_utf8,
};
use crate::averaging::{
    average, averageable, fed_avg, pendings, trunc_div, Contribution, Pending,
};
use crate::error::FlError;
use crate::share_text::{decode_share_set, parsed};
use crate::polynomial::{eval, geometric, lemma_eval_bound, lemma_geometric_monotone};
use crate::interpolation::{combine, points};
use crate::sharing::{
    as_ints, column, is_sharing, lemma_share_excess, masks, reconstruction, rectangular,
    share_counts_valid, share_span, weight_at, COEFFICIENT_BOUND, SHARE_SPAN, WEIGHT_SCALE,
};

verus! {

/// The share sets held by a vector of vectors.
pub open spec fn share_sets(shares: Seq<Vec<i128>>) -> Seq<Seq<i128>> {
    shares.map_values(|s: Vec<i128>| s@)
}

/// The nearest value that fits in 64 bits.
pub open spec fn clamped(v: int) -> int {
    if v < i64::MIN {
        i64::MIN as int
    } else if v > i64::MAX {
        i64::MAX as int
    } else {
        v
    }
}

/// The standard deviation of the noise, in fixed point: sensitivity over
/// epsilon.
pub open spec fn noise_std_of(epsilon: int, sensitivity: int) -> int {
    clamped(trunc_div(sensitivity * WEIGHT_SCALE, epsilon))
}

/// A weight with noise added: the draw of a standard Gaussian, in fixed
/// point, is scaled by the standard deviation of the noise.
pub open spec fn noisy(weight: int, draw: int, noise_std: int) -> int {
    clamped(weight + trunc_div(draw * noise_std, WEIGHT_SCALE as int))
}

/// The parameters of the Gaussian mechanism, in fixed point. One pair of
/// sensitivity and privacy budget holds for every coordinate; a mechanism
/// that calibrates each coordinate would take a vector of sensitivities
/// here.
#[derive(Clone, Copy, Debug, PartialEq, Eq)]
pub struct DPMechanism {
    epsilon: i64,
    sensitivity: i64,
}

fn truncating_quotient(numerator: i128, denominator: i128) -> (q: i128)
    requires
        denominator > 0,
        numerator > i128::MIN,
    ensures
        q == trunc_div(numerator as int, denominator as int),
{
    if numerator >= 0 {
        numerator / denominator
    } else {
        proof {
            vstd::arithmetic::div_mod::lemma_div_pos_is_pos(-numerator, denominator as int);
            vstd::arithmetic::div_mod::lemma_div_nonincreasing(-numerator, denominator as int);
        }
        -((-numerator) / denominator)
    }
}

fn clamp(v: i128) -> (c: i64)
    ensures
        c == clamped(v as int),
{
    if v < i64::MIN as i128 {
        i64::MIN
    } else if v > i64::MAX as i128 {
        i64::MAX
    } else {
        v as i64
    }
}

impl DPMechanism {
    /// The privacy budget.
    pub closed spec fn epsilon(&self) -> i64 {
        self.epsilon
    }

    /// The sensitivity.
    pub closed spec fn sensitivity(&self) -> i64 {
        self.sensitivity
    }

    /// A mechanism with the given privacy budget and sensitivity.
    pub fn new(epsilon: i64, sensitivity: i64) -> (mechanism: DPMechanism)
        ensures
            mechanism.epsilon() == epsilon,
            mechanism.sensitivity() == sensitivity,
    {
        DPMechanism { epsilon, sensitivity }
    }

    /// The standard deviation of the noise: sensitivity over epsilon. There
    /// is none for a privacy budget that is not positive.
    pub fn noise_std(&self) -> (r: Result<i64, FlError>)
        ensures
            match r {
                Ok(std) => self.epsilon() > 0 && std == noise_std_of(
                    self.epsilon() as int,
                    self.sensitivity() as int,
                ),
                Err(e) => e == FlError::InvalidPrivacyBudget && self.epsilon() <= 0,
            },
    {
        if self.epsilon <= 0 {
            return Err(FlError::InvalidPrivacyBudget);
        }
        assert(i64::MIN * WEIGHT_SCALE <= self.sensitivity * WEIGHT_SCALE <= i64::MAX
            * WEIGHT_SCALE) by (nonlinear_arith)
            requires
                i64::MIN <= self.sensitivity <= i64::MAX,
                WEIGHT_SCALE == 1_000_000,
        ;
        let scaled = self.sensitivity as i128 * WEIGHT_SCALE as i128;
        Ok(clamp(truncating_quotient(scaled, self.epsilon as i128)))
    }

    /// Adds Gaussian noise to the weights: one draw of a standard Gaussian
    /// for each weight, scaled by the standard deviation of the noise. A
    /// noisy weight that leaves 64 bits is held at the nearest bound. Fails
    /// for a privacy budget that is not positive.
    pub fn add_noise(&self, weights: &Vec<i64>, draws: &Vec<i64>) -> (r: Result<Vec<i64>, FlError>)
        requires
            draws.len() == weights.len(),
        ensures
            match r {
                Ok(noisy_weights) => {
                    &&& self.epsilon() > 0
                    &&& noisy_weights.len() == weights.len()
                    &&& forall|i: int|
                        0 <= i < weights.len() ==> (#[trigger] noisy_weights[i]) as int == noisy(
                            weights[i] as int,
                            draws[i] as int,
                            noise_std_of(self.epsilon() as int, self.sensitivity() as int),
                        )
                },
                Err(e) => e == FlError::InvalidPrivacyBudget && self.epsilon() <= 0,
            },
    {
        let std = match self.noise_std() {
            Ok(std) => std,
            Err(e) => {
                return Err(e);
            },
        };
        let mut noisy_weights: Vec<i64> = Vec::new();
        let mut i: usize = 0;
        while i < weights.len()
            invariant
                draws.len() == weights.len(),
                i <= weights.len(),
                noisy_weights.len() == i,
                forall|j: int|
                    0 <= j < i ==> (#[trigger] noisy_weights[j]) as int == noisy(
                        weights[j] as int,
                        draws[j] as int,
                        std as int,
                    ),
            decreases weights.len() - i,
        {
            let draw = draws[i];
            assert(-0x4000_0000_0000_0000_0000_0000_0000_0000 <= draw * std
                <= 0x4000_0000_0000_0000_0000_0000_0000_0000) by (nonlinear_arith)
                requires
                    i64::MIN <= draw <= i64::MAX,
                    i64::MIN <= std <= i64::MAX,
            ;
            let product = draw as i128 * std as i128;
            let shift = truncating_quotient(product, WEIGHT_SCALE as i128);
            proof {
                lemma_trunc_div_shrinks(product as int, WEIGHT_SCALE as int);
            }
            noisy_weights.push(clamp(weights[i] as i128 + shift));
            i += 1;
        }
        Ok(noisy_weights)
    }
}

proof fn lemma_trunc_div_shrinks(numerator: int, denominator: int)
    requires
        denominator >= 1,
    ensures
        numerator >= 0 ==> 0 <= trunc_div(numerator, denominator) <= numerator,
        numerator < 0 ==> numerator <= trunc_div(numerator, denominator) <= 0,
{
    if numerator >= 0 {
        vstd::arithmetic::div_mod::lemma_div_pos_is_pos(numerator, denominator);
        vstd::arithmetic::div_mod::lemma_div_nonincreasing(numerator, denominator);
    } else {
        vstd::arithmetic::div_mod::lemma_div_pos_is_pos(-numerator, denominator);
        vstd::arithmetic::div_mod::lemma_div_nonincreasing(-numerator, denominator);
    }
}

/// The noise is symmetric and vanishes with the draw: a draw of zero leaves
/// a weight as it is, and opposite draws shift a weight by opposite
/// amounts, so that draws which average to zero add noise which averages
/// to zero.
pub proof fn lemma_noise_is_odd(draw: int, noise_std: int)
    ensures
        trunc_div(0 * noise_std, WEIGHT_SCALE as int) == 0,
        trunc_div((-draw) * noise_std, WEIGHT_SCALE as int) == -trunc_div(
            draw * noise_std,
            WEIGHT_SCALE as int,
        ),
{
    assert(0 * noise_std == 0);
    assert((-draw) * noise_std == -(draw * noise_std)) by (nonlinear_arith);
    assert(0int / (WEIGHT_SCALE as int) == 0);
}

/// Draws one coefficient with `rand::Rng::gen_range` on the generator of the
/// calling thread (`rand::thread_rng`). Of the draw only its range is known:
/// the half-open range `0..bound`, which is not empty.
#[verifier::external_body]
fn random_below(bound: i64) -> (r: i64)
    requires
        bound > 0,
    ensures
        0 <= r < bound,
{
    rand::thread_rng().gen_range(0..bound)
}

/// Whether shares made with these counts stay within their span.
fn counts_fit(num_shares: usize, threshold: usize) -> (ok: bool)
    requires
        1 <= threshold <= num_shares,
    ensures
        ok == (share_span(num_shares as nat, threshold as nat) <= SHARE_SPAN),
{
    let k = num_shares as u128;
    let bound = (COEFFICIENT_BOUND - 1) as u128;
    let mut sum: u128 = 0;
    let mut terms: usize = 0;
    proof {
        assert(bound * (k * 0) == 0) by (nonlinear_arith);
    }
    while terms < threshold - 1
        invariant
            1 <= threshold <= num_shares,
            k == num_shares,
            bound == COEFFICIENT_BOUND - 1,
            terms <= threshold - 1,
            sum == geometric(k as int, terms as nat),
            bound * (k * sum) <= SHARE_SPAN,
        decreases threshold - 1 - terms,
    {
        assert(k * sum <= SHARE_SPAN) by (nonlinear_arith)
            requires
                bound * (k * sum) <= SHARE_SPAN,
                bound >= 1,
                k * sum >= 0,
        ;
        let next = 1 + k * sum;
        let span = match k.checked_mul(next) {
            Some(product) => bound.checked_mul(product),
            None => None,
        };
        let within = match span {
            Some(s) => s <= SHARE_SPAN as u128,
            None => false,
        };
        if !within {
            proof {
                let last = (threshold - 1) as nat;
                lemma_geometric_monotone(k as int, k as int, (terms + 1) as nat, last);
                let g = geometric(k as int, last);
                assert(bound * (k * g) >= bound * (k * next) && bound * (k * next) >= k * next)
                    by (nonlinear_arith)
                    requires
                        g >= next,
                        next >= 0,
                        k >= 0,
                        bound >= 1,
                ;
            }
            return false;
        }
        sum = next;
        terms += 1;
    }
    true
}

/// Whether the counts describe a sharing: `1 <= threshold <= num_shares`,
/// and no share can leave its span.
pub fn valid_share_counts(num_shares: usize, threshold: usize) -> (ok: bool)
    ensures
        ok == share_counts_valid(num_shares as nat, threshold as nat),
{
    1 <= threshold && threshold <= num_shares && counts_fit(num_shares, threshold)
}

/// Builds a masking polynomial for `secret`: the secret followed by
/// `threshold - 1` random coefficients.
fn draw_polynomial(secret: i64, threshold: usize) -> (coeffs: Vec<i64>)
    requires
        threshold >= 1,
    ensures
        masks(as_ints(coeffs@), secret as int, threshold as nat),
{
    let mut coeffs: Vec<i64> = Vec::new();
    coeffs.push(secret);
    let mut i: usize = 1;
    while i < threshold
        invariant
            1 <= i <= threshold,
            coeffs.len() == i,
            coeffs[0] == secret,
            forall|j: int| 1 <= j < i ==> 0 <= #[trigger] coeffs[j] < COEFFICIENT_BOUND,
        decreases threshold - i,
    {
        coeffs.push(random_below(COEFFICIENT_BOUND));
        i += 1;
    }
    coeffs
}

/// The share that position `x` receives: the value of the masking polynomial
/// there, by Horner's rule.
fn share_value(coeffs: &Vec<i64>, x: usize, Ghost(num_shares): Ghost<nat>) -> (share: i128)
    requires
        masks(as_ints(coeffs@), coeffs[0] as int, coeffs.len() as nat),
        share_counts_valid(num_shares, coeffs.len() as nat),
        1 <= x <= num_shares,
    ensures
        share == eval(as_ints(coeffs@), x as int),
{
    let threshold = coeffs.len();
    let ghost ints = as_ints(coeffs@);
    let ghost bound = COEFFICIENT_BOUND - 1;
    let ghost last = (threshold - 1) as nat;
    let mut acc: i128 = 0;
    let mut j: usize = threshold;
    proof {
        assert(ints.skip(threshold as int).len() == 0);
    }
    while j > 1
        invariant
            threshold == coeffs.len(),
            ints == as_ints(coeffs@),
            bound == COEFFICIENT_BOUND - 1,
            last == threshold - 1,
            masks(ints, coeffs[0] as int, threshold as nat),
            share_counts_valid(num_shares, threshold as nat),
            1 <= x <= num_shares,
            1 <= j <= threshold,
            acc == eval(ints.skip(j as int), x as int),
            acc >= 0,
        decreases j,
    {
        j -= 1;
        proof {
            let tail = ints.skip(j as int);
            assert(tail.drop_first() =~= ints.skip(j + 1));
            assert(tail[0] == coeffs[j as int]);
            assert forall|i: int| 0 <= i < tail.len() implies 0 <= #[trigger] tail[i] && tail[i]
                <= bound by {
                assert(tail[i] == ints[j + i]);
            }
            lemma_eval_bound(tail, x as int, bound);
            lemma_geometric_monotone(x as int, num_shares as int, tail.len(), last);
            let gx = geometric(x as int, tail.len());
            let gk = geometric(num_shares as int, last);
            assert(bound * gx <= bound * (num_shares * gk)) by (nonlinear_arith)
                requires
                    0 <= gx <= gk,
                    num_shares >= 1,
                    bound >= 0,
            ;
            assert(x * acc >= 0) by (nonlinear_arith)
                requires
                    x >= 0,
                    acc >= 0,
            ;
        }
        acc = coeffs[j] as i128 + (x as i128) * acc;
    }
    proof {
        lemma_share_excess(ints, coeffs[0] as int, threshold as nat, x as int, num_shares);
        assert(ints.skip(1) =~= ints.drop_first());
    }
    coeffs[0] as i128 + (x as i128) * acc
}

/// The polynomials held by a vector of coefficient vectors.
pub open spec fn polynomials(polys: Seq<Vec<i64>>) -> Seq<Seq<int>> {
    Seq::new(polys.len(), |c: int| as_ints(polys[c]@))
}

/// The constant terms of the polynomials: the secrets they mask.
pub open spec fn secrets(polys: Seq<Vec<i64>>) -> Seq<i64> {
    Seq::new(polys.len(), |c: int| polys[c][0])
}

/// Every polynomial is a masking polynomial for its constant term.
pub open spec fn masking(polys: Seq<Vec<i64>>, threshold: nat) -> bool {
    forall|c: int|
        0 <= c < polys.len() ==> masks(
            as_ints(#[trigger] polys[c]@),
            polys[c][0] as int,
            threshold,
        )
}

fn is_mask(coeffs: &Vec<i64>, threshold: usize) -> (ok: bool)
    ensures
        ok == (threshold >= 1 && masks(as_ints(coeffs@), coeffs[0] as int, threshold as nat)),
{
    if threshold == 0 || coeffs.len() != threshold {
        return false;
    }
    let ghost ints = as_ints(coeffs@);
    let mut i: usize = 1;
    while i < threshold
        invariant
            ints == as_ints(coeffs@),
            coeffs.len() == threshold,
            1 <= i <= threshold,
            forall|j: int| 1 <= j < i ==> 0 <= #[trigger] ints[j] < COEFFICIENT_BOUND,
        decreases threshold - i,
    {
        if coeffs[i] < 0 || coeffs[i] >= COEFFICIENT_BOUND {
            assert(!(0 <= ints[i as int] < COEFFICIENT_BOUND));
            return false;
        }
        i += 1;
    }
    true
}

/// The share sets that masking polynomials give: share set `i` holds the
/// value of every polynomial at `i + 1`. There are none where the counts
/// are not valid or a polynomial is no masking polynomial of `threshold`
/// coefficients.
pub fn shares_of_polynomials(polys: &Vec<Vec<i64>>, num_shares: usize, threshold: usize) -> (r:
    Option<Vec<Vec<i128>>>)
    ensures
        match r {
            Some(shares) => {
                &&& share_counts_valid(num_shares as nat, threshold as nat)
                &&& masking(polys@, threshold as nat)
                &&& is_sharing(
                    share_sets(shares@),
                    secrets(polys@),
                    polynomials(polys@),
                    num_shares as nat,
                    threshold as nat,
                )
            },
            None => !(share_counts_valid(num_shares as nat, threshold as nat) && masking(
                polys@,
                threshold as nat,
            )),
        },
{
    if !valid_share_counts(num_shares, threshold) {
        return None;
    }
    let count = polys.len();
    let mut c: usize = 0;
    while c < count
        invariant
            count == polys.len(),
            threshold >= 1,
            c <= count,
            forall|d: int|
                0 <= d < c ==> masks(
                    as_ints(#[trigger] polys[d]@),
                    polys[d][0] as int,
                    threshold as nat,
                ),
        decreases count - c,
    {
        if !is_mask(&polys[c], threshold) {
            return None;
        }
        c += 1;
    }
    let mut shares: Vec<Vec<i128>> = Vec::new();
    let mut i: usize = 0;
    while i < num_shares
        invariant
            count == polys.len(),
            share_counts_valid(num_shares as nat, threshold as nat),
            masking(polys@, threshold as nat),
            i <= num_shares,
            shares.len() == i,
            forall|s: int| 0 <= s < i ==> (#[trigger] shares[s]).len() == count,
            forall|s: int, d: int|
                0 <= s < i && 0 <= d < count ==> (#[trigger] shares[s][d]) as int == eval(
                    as_ints(polys[d]@),
                    s + 1,
                ),
        decreases num_shares - i,
    {
        let mut set: Vec<i128> = Vec::new();
        let mut d: usize = 0;
        while d < count
            invariant
                count == polys.len(),
                share_counts_valid(num_shares as nat, threshold as nat),
                masking(polys@, threshold as nat),
                i < num_shares,
                d <= count,
                set.len() == d,
                forall|e: int|
                    0 <= e < d ==> (#[trigger] set[e]) as int == eval(as_ints(polys[e]@), i + 1),
            decreases count - d,
        {
            proof {
                assert(masks(as_ints(polys[d as int]@), polys[d as int][0] as int, threshold as nat));
            }
            set.push(share_value(&polys[d], i + 1, Ghost(num_shares as nat)));
            d += 1;
        }
        shares.push(set);
        i += 1;
    }
    proof {
        let sets = share_sets(shares@);
        let chosen = polynomials(polys@);
        assert forall|s: int, d: int| 0 <= s < num_shares && 0 <= d < count implies (
        #[trigger] sets[s][d]) as int == eval(chosen[d], s + 1) by {
            assert(sets[s] == shares[s]@);
            assert(shares[s][d] as int == eval(as_ints(polys[d]@), s + 1));
        }
        assert forall|d: int| 0 <= d < count implies masks(
            #[trigger] chosen[d],
            secrets(polys@)[d] as int,
            threshold as nat,
        ) by {
            assert(masks(as_ints(polys[d]@), polys[d][0] as int, threshold as nat));
        }
        assert(is_sharing(
            sets,
            secrets(polys@),
            chosen,
            num_shares as nat,
            threshold as nat,
        ));
    }
    Some(shares)
}

/// What a successful split returns: `num_shares` share sets, which for a
/// positive count are a sharing of `weights` under valid counts.
pub open spec fn split_of(
    shares: Seq<Vec<i128>>,
    weights: Seq<i64>,
    num_shares: nat,
    threshold: nat,
) -> bool {
    &&& shares.len() == num_shares
    &&& num_shares > 0 ==> {
        &&& share_counts_valid(num_shares, threshold)
        &&& exists|polys: Seq<Seq<int>>| #[trigger]
            is_sharing(share_sets(shares), weights, polys, num_shares, threshold)
    }
}

/// Splits every weight into `num_shares` shares of which any `threshold`
/// reconstruct it.
///
/// Share set `i` of the result holds, for every weight, the value at `i + 1`
/// of a random polynomial of degree `threshold - 1` whose constant term is
/// the weight. With no share to make there is nothing to return; otherwise
/// the counts must satisfy `1 <= threshold <= num_shares` and keep every
/// share within 128 bits.
pub fn secret_share_weights(weights: Vec<i64>, num_shares: usize, threshold: usize) -> (r: Result<
    Vec<Vec<i128>>,
    FlError,
>)
    ensures
        match r {
            Ok(shares) => split_of(shares@, weights@, num_shares as nat, threshold as nat),
            Err(e) => {
                &&& e == FlError::ShareCountError
                &&& num_shares > 0
                &&& !share_counts_valid(num_shares as nat, threshold as nat)
            },
        },
{
    if num_shares == 0 {
        return Ok(Vec::new());
    }
    if !valid_share_counts(num_shares, threshold) {
        return Err(FlError::ShareCountError);
    }
    let count = weights.len();
    let mut polys: Vec<Vec<i64>> = Vec::new();
    let mut c: usize = 0;
    while c < count
        invariant
            count == weights.len(),
            threshold >= 1,
            c <= count,
            polys.len() == c,
            forall|d: int|
                0 <= d < c ==> masks(
                    as_ints(#[trigger] polys[d]@),
                    weights[d] as int,
                    threshold as nat,
                ),
        decreases count - c,
    {
        polys.push(draw_polynomial(weights[c], threshold));
        c += 1;
    }
    proof {
        assert forall|d: int| 0 <= d < count implies masks(
            as_ints(#[trigger] polys[d]@),
            polys[d][0] as int,
            threshold as nat,
        ) by {
            assert(masks(as_ints(polys[d]@), weights[d] as int, threshold as nat));
            assert(as_ints(polys[d]@)[0] == polys[d][0]);
        }
        assert(secrets(polys@) =~= weights@) by {
            assert forall|d: int| 0 <= d < count implies secrets(polys@)[d] == weights[d] by {
                assert(masks(as_ints(polys[d]@), weights[d] as int, threshold as nat));
                assert(as_ints(polys[d]@)[0] == polys[d][0]);
            }
        }
    }
    let shares = shares_of_polynomials(&polys, num_shares, threshold).unwrap();
    proof {
        assert(split_of(shares@, weights@, num_shares as nat, threshold as nat));
    }
    Ok(shares)
}

/// Reconstructs the weight vector that share sets hold, combining every
/// coordinate from all of them; share set `i` is taken at position `i + 1`.
/// Share sets that hold no weight vector are malformed.
pub fn reconstruct_weights(shares: &Vec<Vec<i128>>) -> (r: Result<Vec<i64>, FlError>)
    ensures
        match r {
            Ok(weights) => reconstruction(share_sets(shares@)) == Some(weights@),
            Err(e) => e == FlError::MalformedUpdate && reconstruction(share_sets(shares@)) is None,
        },
{
    let ghost sets = share_sets(shares@);
    let count = shares.len();
    if count == 0 {
        return Err(FlError::MalformedUpdate);
    }
    let dim = shares[0].len();
    let mut i: usize = 0;
    while i < count
        invariant
            count == shares.len(),
            sets == share_sets(shares@),
            dim == sets[0].len(),
            i <= count,
            forall|s: int| 0 <= s < i ==> (#[trigger] sets[s]).len() == dim,
        decreases count - i,
    {
        if shares[i].len() != dim {
            assert(sets[i as int].len() != sets[0].len());
            return Err(FlError::MalformedUpdate);
        }
        i += 1;
    }
    assert(rectangular(sets));
    let mut weights: Vec<i64> = Vec::new();
    let mut c: usize = 0;
    while c < dim
        invariant
            count == shares.len(),
            count > 0,
            sets == share_sets(shares@),
            rectangular(sets),
            dim == sets[0].len(),
            c <= dim,
            weights.len() == c,
            forall|d: int| 0 <= d < c ==> weight_at(sets, d) == Some(#[trigger] weights[d]),
        decreases dim - c,
    {
        let mut pts: Vec<(u64, i128)> = Vec::new();
        let mut i: usize = 0;
        while i < count
            invariant
                count == shares.len(),
                sets == share_sets(shares@),
                rectangular(sets),
                dim == sets[0].len(),
                c < dim,
                i <= count,
                pts.len() == i,
                forall|s: int|
                    0 <= s < i ==> (#[trigger] pts[s]) == ((s + 1) as u64, sets[s][c as int]),
            decreases count - i,
        {
            assert(sets[i as int].len() == dim);
            pts.push(((i + 1) as u64, shares[i][c]));
            i += 1;
        }
        assert(points(pts@) =~= column(sets, c as int));
        let weight = match combine(&pts) {
            Ok(v) => v,
            Err(e) => {
                assert(weight_at(sets, c as int) is None);
                return Err(e);
            },
        };
        if weight < i64::MIN as i128 || weight > i64::MAX as i128 {
            assert(weight_at(sets, c as int) is None);
            return Err(FlError::MalformedUpdate);
        }
        weights.push(weight as i64);
        c += 1;
    }
    proof {
        assert forall|d: int| 0 <= d < dim implies (#[trigger] weight_at(sets, d)) is Some by {
            assert(weight_at(sets, d) == Some(weights[d]));
        }
        assert(reconstruction(sets) is Some);
        assert(reconstruction(sets).unwrap() =~= weights@);
    }
    Ok(weights)
}

/// The least length of a token, in characters.
pub const MIN_TOKEN_LENGTH: usize = 100;

/// Whether `fernet::Fernet::new` accepts the key: it does where the key is
/// the URL-safe base64 form of 32 bytes.
pub uninterp spec fn fernet_key_accepted(key: Seq<char>) -> bool;

/// The plaintext that `fernet::Fernet::decrypt` hands out for a token under
/// an accepted key whenever it hands one out: the token's ciphertext,
/// authenticated with the key's signing half and decrypted with its
/// encryption half.
pub uninterp spec fn fernet_payload(key: Seq<char>, token: Seq<char>) -> Option<Seq<u8>>;

/// The error of `fernet::Fernet::decrypt`, which carries nothing.
#[verifier::external_type_specification]
#[verifier::external_body]
pub struct ExDecryptionError(fernet::DecryptionError);

/// Generates a fresh symmetric key with `fernet::Fernet::generate_key`: 32
/// random bytes in padded URL-safe base64, which is 44 ASCII characters
/// that `fernet::Fernet::new` accepts.
#[verifier::external_body]
pub fn generate_fernet_key() -> (key: String)
    ensures
        key@.len() == 44,
        is_ascii_chars(key@),
        fernet_key_accepted(key@),
{
    fernet::Fernet::generate_key()
}

/// Encrypts with `fernet::Fernet::new` and `fernet::Fernet::encrypt`. There
/// is a token exactly where the key is accepted. The token depends on the
/// clock and on a fresh random nonce, so of the token itself the contract
/// says only that it carries `data` under the key and what its form is:
/// the padded URL-safe base64 text of a version byte, a timestamp of 8
/// bytes, a nonce of 16, at least one cipher block of 16 and a signature of
/// 32, which is ASCII and at least 100 characters long.
#[verifier::external_body]
fn fernet_encrypt(key: &str, data: &[u8]) -> (token: Option<String>)
    ensures
        token is Some <==> fernet_key_accepted(key@),
        token matches Some(t) ==> fernet_payload(key@, t@) == Some(data@),
        token matches Some(t) ==> t@.len() >= MIN_TOKEN_LENGTH && is_ascii_chars(t@),
{
    match fernet::Fernet::new(key) {
        Some(fernet) => Some(fernet.encrypt(data)),
        None => None,
    }
}

/// Decrypts with `fernet::Fernet::new` and `fernet::Fernet::decrypt`. There
/// is an outcome exactly where the key is accepted. A plaintext that comes
/// back is the one the token carries under the key; a refusal may also be
/// due to the token's timestamp lying ahead of this machine's clock, so
/// nothing is claimed of it.
#[verifier::external_body]
fn fernet_decrypt(key: &str, token: &str) -> (outcome: Option<Result<Vec<u8>, fernet::DecryptionError>>)
    ensures
        outcome is Some <==> fernet_key_accepted(key@),
        outcome matches Some(Ok(plain)) ==> fernet_payload(key@, token@) == Some(plain@),
{
    match fernet::Fernet::new(key) {
        Some(fernet) => Some(fernet.decrypt(token)),
        None => None,
    }
}

/// Encrypts one serialized share set into a token. There is a token
/// exactly where the key is well formed.
pub fn seal_share(share: &str, key: &str) -> (r: Result<String, FlError>)
    ensures
        r is Ok <==> fernet_key_accepted(key@),
        match r {
            Ok(token) => {
                &&& fernet_payload(key@, token@) == Some(encode_utf8(share@))
                &&& token@.len() >= MIN_TOKEN_LENGTH
                &&& is_ascii_chars(token@)
            },
            Err(e) => e == FlError::InvalidKey && !fernet_key_accepted(key@),
        },
{
    match fernet_encrypt(key, share.as_bytes()) {
        Some(token) => Ok(token),
        None => Err(FlError::InvalidKey),
    }
}

/// Encrypts one serialized share set and returns the token's bytes.
///
/// There is a token exactly where the key is well formed. The encryption is
/// authenticated and uses a fresh nonce, so the same share gives a different
/// token each time; every such token carries the share and is at least
/// `MIN_TOKEN_LENGTH` bytes of ASCII text.
pub fn encrypt_share(share: &str, key: &str) -> (r: Result<Vec<u8>, FlError>)
    ensures
        r is Ok <==> fernet_key_accepted(key@),
        match r {
            Ok(bytes) => {
                &&& fernet_payload(key@, decode_utf8(bytes@)) == Some(encode_utf8(share@))
                &&& bytes.len() >= MIN_TOKEN_LENGTH
                &&& is_ascii_chars(decode_utf8(bytes@))
            },
            Err(e) => e == FlError::InvalidKey && !fernet_key_accepted(key@),
        },
{
    match seal_share(share, key) {
        Ok(token) => {
            proof {
                encode_utf8_decode_utf8(token@);
                is_ascii_chars_encode_utf8(token@);
            }
            Ok(token.as_str().as_bytes_vec())
        },
        Err(e) => Err(e),
    }
}

/// What the decryption of a token came to, in the library's own terms: a
/// missing outcome is an invalid key, a refusal a failed decryption.
pub fn opened(outcome: Option<Result<Vec<u8>, fernet::DecryptionError>>) -> (r: Result<
    Vec<u8>,
    FlError,
>)
    ensures
        match outcome {
            Some(Ok(plain)) => r == Ok::<Vec<u8>, FlError>(plain),
            Some(Err(_)) => r == Err::<Vec<u8>, FlError>(FlError::DecryptionFailed),
            None => r == Err::<Vec<u8>, FlError>(FlError::InvalidKey),
        },
{
    match outcome {
        Some(Ok(plain)) => Ok(plain),
        Some(Err(_)) => Err(FlError::DecryptionFailed),
        None => Err(FlError::InvalidKey),
    }
}

/// Decrypts a token into the bytes of a serialized share set.
///
/// Fails with `InvalidKey` exactly where the key is malformed; a token that
/// the key does not open fails with `DecryptionFailed`.
pub fn decrypt_share(ciphertext: &str, key: &str) -> (r: Result<Vec<u8>, FlError>)
    ensures
        !fernet_key_accepted(key@) ==> r == Err::<Vec<u8>, FlError>(FlError::InvalidKey),
        match r {
            Ok(plain) => {
                &&& fernet_key_accepted(key@)
                &&& fernet_payload(key@, ciphertext@) == Some(plain@)
            },
            Err(e) => {
                ||| e == FlError::InvalidKey && !fernet_key_accepted(key@)
                ||| e == FlError::DecryptionFailed && fernet_key_accepted(key@)
            },
        },
{
    opened(fernet_decrypt(key, ciphertext))
}

/// Decryption undoes encryption: a plaintext that comes out of a token made
/// from `share` under the same key is `share`.
pub proof fn lemma_decrypt_undoes_encrypt(
    key: Seq<char>,
    share: Seq<char>,
    token: Seq<char>,
    plain: Seq<u8>,
)
    requires
        fernet_payload(key, token) == Some(encode_utf8(share)),
        fernet_payload(key, token) == Some(plain),
    ensures
        plain == encode_utf8(share),
        decode_utf8(plain) == share,
{
    encode_utf8_decode_utf8(share);
}

/// The byte strings held by a vector of vectors.
pub open spec fn byte_strings(plaintexts: Seq<Vec<u8>>) -> Seq<Seq<u8>> {
    plaintexts.map_values(|p: Vec<u8>| p@)
}

/// The texts of a vector of tokens.
pub open spec fn token_texts(tokens: Seq<String>) -> Seq<Seq<char>> {
    tokens.map_values(|t: String| t@)
}

/// The weight vector that serialized share sets hold: every text parsed
/// and the share sets reconstructed.
pub open spec fn plaintext_contribution(plaintexts: Seq<Seq<u8>>) -> Option<Seq<i64>> {
    if forall|i: int| 0 <= i < plaintexts.len() ==> parsed(#[trigger] plaintexts[i]) is Some {
        reconstruction(Seq::new(plaintexts.len(), |i: int| parsed(plaintexts[i]).unwrap()))
    } else {
        None
    }
}

/// The weight vector that the tokens of an update carry under a key.
pub open spec fn sealed_contribution(key: Seq<char>, tokens: Seq<Seq<char>>) -> Option<Seq<i64>> {
    if forall|i: int| 0 <= i < tokens.len() ==> fernet_payload(key, #[trigger] tokens[i]) is Some {
        plaintext_contribution(
            Seq::new(tokens.len(), |i: int| fernet_payload(key, tokens[i]).unwrap()),
        )
    } else {
        None
    }
}

/// The contributions that the updates of a round carry under a key, each
/// with the sample count reported for it.
pub open spec fn sealed_round(
    key: Seq<char>,
    updates: Seq<Seq<Seq<char>>>,
    samples: Seq<usize>,
) -> Option<Seq<Pending>> {
    if updates.len() == samples.len() && forall|c: int|
        0 <= c < updates.len() ==> sealed_contribution(key, #[trigger] updates[c]) is Some {
        Some(
            Seq::new(
                updates.len(),
                |c: int|
                    Pending {
                        weights: sealed_contribution(key, updates[c]).unwrap(),
                        num_samples: samples[c] as nat,
                    },
            ),
        )
    } else {
        None
    }
}

/// The texts of the updates of a round.
pub open spec fn round_texts(updates: Seq<Vec<String>>) -> Seq<Seq<Seq<char>>> {
    updates.map_values(|u: Vec<String>| token_texts(u@))
}

/// Decodes the decrypted share sets of one update into its weight vector.
/// Plaintexts that hold no weight vector are malformed.
pub fn contribution_from_plaintexts(plaintexts: &Vec<Vec<u8>>) -> (r: Result<Vec<i64>, FlError>)
    ensures
        match r {
            Ok(weights) => plaintext_contribution(byte_strings(plaintexts@)) == Some(weights@),
            Err(e) => e == FlError::MalformedUpdate && plaintext_contribution(
                byte_strings(plaintexts@),
            ) is None,
        },
{
    let ghost texts = byte_strings(plaintexts@);
    let mut sets: Vec<Vec<i128>> = Vec::new();
    let mut i: usize = 0;
    while i < plaintexts.len()
        invariant
            texts == byte_strings(plaintexts@),
            i <= plaintexts.len(),
            sets.len() == i,
            forall|j: int| 0 <= j < i ==> parsed(#[trigger] texts[j]) == Some(sets[j]@),
        decreases plaintexts.len() - i,
    {
        assert(texts[i as int] == plaintexts[i as int]@);
        match decode_share_set(plaintexts[i].as_slice()) {
            Some(set) => {
                sets.push(set);
            },
            None => {
                assert(parsed(texts[i as int]) is None);
                return Err(FlError::MalformedUpdate);
            },
        }
        i += 1;
    }
    assert(share_sets(sets@) =~= Seq::new(texts.len(), |i: int| parsed(texts[i]).unwrap()));
    reconstruct_weights(&sets)
}

/// Decrypts the tokens of one update and decodes them into its weight
/// vector.
///
/// An update without tokens is malformed. Otherwise it fails with
/// `InvalidKey` for a malformed key, with `DecryptionFailed` where the key
/// does not open a token, and with `MalformedUpdate` where the tokens open
/// but carry no weight vector.
pub fn open_update(model_weights: &Vec<String>, key: &str) -> (r: Result<Vec<i64>, FlError>)
    ensures
        model_weights.len() == 0 ==> r == Err::<Vec<i64>, FlError>(FlError::MalformedUpdate),
        model_weights.len() > 0 && !fernet_key_accepted(key@) ==> r == Err::<Vec<i64>, FlError>(
            FlError::InvalidKey,
        ),
        match r {
            Ok(weights) => sealed_contribution(key@, token_texts(model_weights@)) == Some(
                weights@,
            ),
            Err(e) => {
                ||| e == FlError::InvalidKey && !fernet_key_accepted(key@)
                ||| e == FlError::DecryptionFailed && fernet_key_accepted(key@)
                ||| e == FlError::MalformedUpdate && sealed_contribution(
                    key@,
                    token_texts(model_weights@),
                ) is None
            },
        },
{
    let ghost tokens = token_texts(model_weights@);
    let mut plaintexts: Vec<Vec<u8>> = Vec::new();
    let mut i: usize = 0;
    while i < model_weights.len()
        invariant
            tokens == token_texts(model_weights@),
            i <= model_weights.len(),
            plaintexts.len() == i,
            i > 0 ==> fernet_key_accepted(key@),
            forall|j: int|
                0 <= j < i ==> fernet_payload(key@, #[trigger] tokens[j]) == Some(plaintexts[j]@),
        decreases model_weights.len() - i,
    {
        assert(tokens[i as int] == model_weights[i as int]@);
        match decrypt_share(model_weights[i].as_str(), key) {
            Ok(plain) => {
                plaintexts.push(plain);
            },
            Err(e) => {
                return Err(e);
            },
        }
        i += 1;
    }
    assert(byte_strings(plaintexts@) =~= Seq::new(
        tokens.len(),
        |i: int| fernet_payload(key@, tokens[i]).unwrap(),
    ));
    contribution_from_plaintexts(&plaintexts)
}

/// The round is refused before any update is opened: there is no update,
/// the sample counts do not match the updates, or the first update has no
/// token.
pub open spec fn own_refusal(weights_updates: Seq<Vec<String>>, num_samples: Seq<usize>) -> bool {
    ||| weights_updates.len() == 0
    ||| weights_updates.len() != num_samples.len()
    ||| weights_updates[0].len() == 0
}

/// Averages the encrypted updates of one round: every update is decrypted
/// and its weights reconstructed from its share sets, and the weight
/// vectors are averaged, each weighted by the sample count reported for it.
///
/// A round without updates, sample counts that do not match the updates,
/// and an update without tokens are malformed; so are contributions that
/// have no average. The updates are opened in their order, and one that the
/// key does not open fails as `open_update` does.
pub fn fed_avg_encrypted(weights_updates: Vec<Vec<String>>, num_samples: Vec<usize>, key: &str) -> (r:
    Result<Vec<i64>, FlError>)
    ensures
        own_refusal(weights_updates@, num_samples@) ==> r == Err::<Vec<i64>, FlError>(
            FlError::MalformedUpdate,
        ),
        !own_refusal(weights_updates@, num_samples@) && !fernet_key_accepted(key@) ==> r == Err::<
            Vec<i64>,
            FlError,
        >(FlError::InvalidKey),
        match r {
            Ok(weights) => {
                &&& sealed_round(key@, round_texts(weights_updates@), num_samples@) matches Some(
                    round,
                )
                &&& averageable(round)
                &&& weights@ == average(round)
            },
            Err(e) => {
                ||| e == FlError::InvalidKey && !fernet_key_accepted(key@)
                ||| e == FlError::DecryptionFailed && fernet_key_accepted(key@)
                ||| e == FlError::MalformedUpdate && !(sealed_round(
                    key@,
                    round_texts(weights_updates@),
                    num_samples@,
                ) matches Some(round) && averageable(round))
            },
        },
{
    let ghost updates = round_texts(weights_updates@);
    if weights_updates.len() == 0 || weights_updates.len() != num_samples.len() {
        return Err(FlError::MalformedUpdate);
    }
    let mut contributions: Vec<Contribution> = Vec::new();
    let mut c: usize = 0;
    while c < weights_updates.len()
        invariant
            updates == round_texts(weights_updates@),
            weights_updates.len() == num_samples.len(),
            weights_updates.len() > 0,
            c <= weights_updates.len(),
            contributions.len() == c,
            c > 0 ==> weights_updates[0].len() > 0 && fernet_key_accepted(key@),
            forall|d: int|
                0 <= d < c ==> sealed_contribution(key@, #[trigger] updates[d]) == Some(
                    contributions[d].weights@,
                ),
            forall|d: int| 0 <= d < c ==> (#[trigger] contributions[d]).num_samples == num_samples[d],
        decreases weights_updates.len() - c,
    {
        assert(updates[c as int] == token_texts(weights_updates[c as int]@));
        match open_update(&weights_updates[c], key) {
            Ok(weights) => {
                contributions.push(Contribution { weights, num_samples: num_samples[c] });
            },
            Err(e) => {
                proof {
                    if e == FlError::MalformedUpdate {
                        assert(sealed_contribution(key@, updates[c as int]) is None);
                    }
                }
                return Err(e);
            },
        }
        c += 1;
    }
    proof {
        let round = sealed_round(key@, updates, num_samples@);
        assert(round is Some);
        assert(pendings(contributions@) =~= round.unwrap());
    }
    match fed_avg(&contributions) {
        Some(weights) => Ok(weights),
        None => Err(FlError::MalformedUpdate),
    }
}

} // verus!
