//! Federated averaging: the sample-weighted mean of the clients' weight
//! vectors, coordinate by coordinate, in exact integer arithmetic.

use vstd::prelude::*;
use vstd::arithmetic::div_mod::{lemma_div_is_ordered, lemma_div_multiples_vanish, lemma_div_pos_is_pos};

verus! {

/// The most samples that the contributions of one round may report in
/// total: `2^62`. It keeps every weighted sum within 128 bits.
pub const MAX_TOTAL_SAMPLES: u64 = 0x4000_0000_0000_0000;

/// One client's decoded contribution to a round.
#[derive(Debug, PartialEq, Eq)]
pub struct Contribution {
    /// The client's weight vector, in fixed point.
    pub weights: Vec<i64>,
    /// The number of samples the weights were trained on.
    pub num_samples: usize,
}

/// The mathematical content of a contribution.
pub struct Pending {
    pub weights: Seq<i64>,
    pub num_samples: nat,
}

impl View for Contribution {
    type V = Pending;

    open spec fn view(&self) -> Pending {
        Pending { weights: self.weights@, num_samples: self.num_samples as nat }
    }
}

/// The contents of a buffer of contributions.
pub open spec fn pendings(buffer: Seq<Contribution>) -> Seq<Pending> {
    buffer.map_values(|c: Contribution| c@)
}

/// The samples that the contributions report in total.
pub open spec fn total_samples(buffer: Seq<Pending>) -> nat
    decreases buffer.len(),
{
    if buffer.len() == 0 {
        0
    } else {
        total_samples(buffer.drop_last()) + buffer.last().num_samples
    }
}

/// The sum over the contributions of sample count times weight, at one
/// coordinate.
pub open spec fn weighted_sum(buffer: Seq<Pending>, coordinate: int) -> int
    decreases buffer.len(),
{
    if buffer.len() == 0 {
        0
    } else {
        weighted_sum(buffer.drop_last(), coordinate) + buffer.last().num_samples
            * buffer.last().weights[coordinate]
    }
}

/// Division that rounds towards zero.
pub open spec fn trunc_div(numerator: int, denominator: int) -> int {
    if numerator >= 0 {
        numerator / denominator
    } else {
        -((-numerator) / denominator)
    }
}

/// The contributions can stand in one buffer: each reports at least one
/// sample, all have as many weights as the first, and the samples in total
/// stay within the limit.
pub open spec fn coherent(buffer: Seq<Pending>) -> bool {
    &&& forall|c: int| 0 <= c < buffer.len() ==> (#[trigger] buffer[c]).num_samples >= 1
    &&& forall|c: int|
        0 <= c < buffer.len() ==> (#[trigger] buffer[c]).weights.len() == buffer[0].weights.len()
    &&& total_samples(buffer) <= MAX_TOTAL_SAMPLES
}

/// The contributions have an average: they are coherent and there is one.
pub open spec fn averageable(buffer: Seq<Pending>) -> bool {
    buffer.len() > 0 && coherent(buffer)
}

/// The sample-weighted average at one coordinate.
pub open spec fn average_at(buffer: Seq<Pending>, coordinate: int) -> int {
    trunc_div(weighted_sum(buffer, coordinate), total_samples(buffer) as int)
}

/// The sample-weighted average of the contributions.
pub open spec fn average(buffer: Seq<Pending>) -> Seq<i64> {
    Seq::new(buffer[0].weights.len(), |i: int| average_at(buffer, i) as i64)
}

/// The samples of a part of the buffer are among those of the whole.
pub proof fn lemma_total_samples_prefix(buffer: Seq<Pending>, len: int)
    requires
        0 <= len <= buffer.len(),
    ensures
        total_samples(buffer.take(len)) <= total_samples(buffer),
    decreases buffer.len(),
{
    if len < buffer.len() {
        assert(buffer.drop_last().take(len) =~= buffer.take(len));
        lemma_total_samples_prefix(buffer.drop_last(), len);
    } else {
        assert(buffer.take(len) =~= buffer);
    }
}

/// Every contribution has a weight at the coordinate.
pub open spec fn has_coordinate(buffer: Seq<Pending>, coordinate: int) -> bool {
    &&& 0 <= coordinate
    &&& forall|c: int| 0 <= c < buffer.len() ==> coordinate < (#[trigger] buffer[c]).weights.len()
}

/// A weighted sum lies between the smallest and the largest weight, each
/// taken as often as there are samples.
pub proof fn lemma_weighted_sum_bounds(buffer: Seq<Pending>, coordinate: int)
    requires
        has_coordinate(buffer, coordinate),
    ensures
        i64::MIN * total_samples(buffer) <= weighted_sum(buffer, coordinate) <= i64::MAX
            * total_samples(buffer),
    decreases buffer.len(),
{
    if buffer.len() > 0 {
        let front = buffer.drop_last();
        assert(has_coordinate(front, coordinate)) by {
            assert forall|c: int| 0 <= c < front.len() implies coordinate < (
            #[trigger] front[c]).weights.len() by {
                assert(front[c] == buffer[c]);
            }
        }
        lemma_weighted_sum_bounds(front, coordinate);
        let n = buffer.last().num_samples as int;
        let w = buffer.last().weights[coordinate] as int;
        let t = total_samples(front) as int;
        assert(i64::MIN * (t + n) == i64::MIN * t + i64::MIN * n && i64::MAX * (t + n) == i64::MAX
            * t + i64::MAX * n && i64::MIN * n <= n * w <= i64::MAX * n) by (nonlinear_arith)
            requires
                n >= 0,
                i64::MIN <= w <= i64::MAX,
        ;
    }
}

/// The average of weights is a weight: it fits in 64 bits.
pub proof fn lemma_average_in_range(buffer: Seq<Pending>, coordinate: int)
    requires
        averageable(buffer),
        0 <= coordinate < buffer[0].weights.len(),
    ensures
        total_samples(buffer) >= 1,
        i64::MIN <= average_at(buffer, coordinate) <= i64::MAX,
{
    lemma_weighted_sum_bounds(buffer, coordinate);
    lemma_total_samples_first(buffer);
    let t = total_samples(buffer) as int;
    let s = weighted_sum(buffer, coordinate);
    lemma_trunc_div_range(s, t);
}

proof fn lemma_total_samples_first(buffer: Seq<Pending>)
    requires
        buffer.len() > 0,
    ensures
        total_samples(buffer) >= buffer[0].num_samples,
{
    lemma_total_samples_prefix(buffer, 1);
    let first = buffer.take(1);
    assert(first.drop_last() =~= Seq::<Pending>::empty());
    assert(total_samples(first.drop_last()) == 0);
    assert(first.last() == buffer[0]);
}

proof fn lemma_trunc_div_range(s: int, t: int)
    requires
        t >= 1,
        i64::MIN * t <= s <= i64::MAX * t,
    ensures
        i64::MIN <= trunc_div(s, t) <= i64::MAX,
{
    if s >= 0 {
        lemma_div_is_ordered(s, i64::MAX * t, t);
        lemma_div_multiples_vanish(i64::MAX as int, t);
        lemma_div_pos_is_pos(s, t);
        assert(t * i64::MAX == i64::MAX * t) by (nonlinear_arith);
    } else {
        lemma_div_is_ordered(-s, (-(i64::MIN as int)) * t, t);
        lemma_div_multiples_vanish(-(i64::MIN as int), t);
        lemma_div_pos_is_pos(-s, t);
        assert(t * (-(i64::MIN as int)) == (-(i64::MIN as int)) * t && -s <= (-(i64::MIN as int))
            * t) by (nonlinear_arith)
            requires
                i64::MIN * t <= s,
        ;
    }
}

proof fn lemma_weighted_sum_of_equal(buffer: Seq<Pending>, weights: Seq<i64>, coordinate: int)
    requires
        forall|c: int| 0 <= c < buffer.len() ==> (#[trigger] buffer[c]).weights == weights,
    ensures
        weighted_sum(buffer, coordinate) == total_samples(buffer) * weights[coordinate],
    decreases buffer.len(),
{
    if buffer.len() > 0 {
        let front = buffer.drop_last();
        assert forall|c: int| 0 <= c < front.len() implies (#[trigger] front[c]).weights
            == weights by {
            assert(front[c] == buffer[c]);
        }
        lemma_weighted_sum_of_equal(front, weights, coordinate);
        let t = total_samples(front) as int;
        let n = buffer.last().num_samples as int;
        let w = weights[coordinate] as int;
        assert(t * w + n * w == (t + n) * w) by (nonlinear_arith);
    } else {
        assert(0 * weights[coordinate] == 0);
    }
}

/// Where all clients agree, the average is what they agree on.
pub proof fn lemma_average_of_equal(buffer: Seq<Pending>, weights: Seq<i64>)
    requires
        averageable(buffer),
        forall|c: int| 0 <= c < buffer.len() ==> (#[trigger] buffer[c]).weights == weights,
    ensures
        average(buffer) == weights,
{
    lemma_total_samples_first(buffer);
    let t = total_samples(buffer) as int;
    assert(buffer[0].weights == weights);
    assert forall|i: int| 0 <= i < weights.len() implies average_at(buffer, i)
        == weights[i] by {
        lemma_weighted_sum_of_equal(buffer, weights, i);
        let w = weights[i] as int;
        if t * w >= 0 {
            lemma_div_multiples_vanish(w, t);
        } else {
            lemma_div_multiples_vanish(-w, t);
            assert(-(t * w) == t * (-w)) by (nonlinear_arith);
        }
    }
    assert(average(buffer) =~= weights);
}

/// Averages the contributions of one round, weighting each client by its
/// number of samples. There is no average of nothing, nor of contributions
/// that are not coherent.
pub fn fed_avg(contributions: &Vec<Contribution>) -> (r: Option<Vec<i64>>)
    ensures
        match r {
            Some(weights) => averageable(pendings(contributions@)) && weights@ == average(
                pendings(contributions@),
            ),
            None => !averageable(pendings(contributions@)),
        },
{
    let ghost buffer = pendings(contributions@);
    let count = contributions.len();
    if count == 0 {
        return None;
    }
    let dim = contributions[0].weights.len();
    let mut total: u64 = 0;
    let mut c: usize = 0;
    assert(buffer.take(0) =~= Seq::<Pending>::empty());
    while c < count
        invariant
            count == contributions.len(),
            buffer == pendings(contributions@),
            dim == buffer[0].weights.len(),
            0 < count,
            c <= count,
            total == total_samples(buffer.take(c as int)),
            total <= MAX_TOTAL_SAMPLES,
            forall|d: int| 0 <= d < c ==> (#[trigger] buffer[d]).num_samples >= 1,
            forall|d: int| 0 <= d < c ==> (#[trigger] buffer[d]).weights.len() == dim,
        decreases count - c,
    {
        let entry = &contributions[c];
        proof {
            assert(buffer[c as int] == entry@);
            assert(buffer.take(c + 1).drop_last() =~= buffer.take(c as int));
            assert(buffer.take(c + 1).last() == buffer[c as int]);
            lemma_total_samples_prefix(buffer, c + 1);
        }
        if entry.num_samples == 0 || entry.weights.len() != dim {
            return None;
        }
        if entry.num_samples as u64 > MAX_TOTAL_SAMPLES - total {
            return None;
        }
        total = total + entry.num_samples as u64;
        c += 1;
    }
    assert(buffer.take(count as int) =~= buffer);
    assert(averageable(buffer));
    proof {
        lemma_total_samples_first(buffer);
    }
    let mut sums: Vec<i128> = Vec::new();
    let mut i: usize = 0;
    while i < dim
        invariant
            i <= dim,
            sums.len() == i,
            forall|j: int| 0 <= j < i ==> sums[j] == 0,
        decreases dim - i,
    {
        sums.push(0);
        i += 1;
    }
    let mut c: usize = 0;
    while c < count
        invariant
            count == contributions.len(),
            buffer == pendings(contributions@),
            averageable(buffer),
            dim == buffer[0].weights.len(),
            c <= count,
            sums.len() == dim,
            forall|j: int|
                0 <= j < dim ==> (#[trigger] sums[j]) as int == weighted_sum(
                    buffer.take(c as int),
                    j,
                ),
        decreases count - c,
    {
        let entry = &contributions[c];
        let ghost before = buffer.take(c as int);
        let ghost after = buffer.take(c + 1);
        proof {
            assert(buffer[c as int] == entry@);
            assert(after.drop_last() =~= before);
            assert(after.last() == buffer[c as int]);
            lemma_total_samples_prefix(buffer, c + 1);
        }
        let samples = entry.num_samples as i128;
        let mut j: usize = 0;
        while j < dim
            invariant
                count == contributions.len(),
                buffer == pendings(contributions@),
                averageable(buffer),
                c < count,
                before == buffer.take(c as int),
                after == buffer.take(c + 1),
                after.drop_last() == before,
                after.last() == entry@,
                total_samples(after) <= MAX_TOTAL_SAMPLES,
                samples == entry.num_samples,
                entry.weights.len() == dim,
                dim == buffer[0].weights.len(),
                j <= dim,
                sums.len() == dim,
                forall|m: int| 0 <= m < j ==> (#[trigger] sums[m]) as int == weighted_sum(after, m),
                forall|m: int|
                    j <= m < dim ==> (#[trigger] sums[m]) as int == weighted_sum(before, m),
            decreases dim - j,
        {
            proof {
                assert(has_coordinate(after, j as int)) by {
                    assert forall|d: int| 0 <= d < after.len() implies j < (
                    #[trigger] after[d]).weights.len() by {
                        assert(after[d] == buffer[d]);
                    }
                }
                lemma_weighted_sum_bounds(after, j as int);
                let t = total_samples(after) as int;
                assert(i64::MIN * t >= i64::MIN * MAX_TOTAL_SAMPLES && i64::MAX * t <= i64::MAX
                    * MAX_TOTAL_SAMPLES) by (nonlinear_arith)
                    requires
                        0 <= t <= MAX_TOTAL_SAMPLES,
                ;
                let n = entry.num_samples as int;
                let w = entry.weights[j as int] as int;
                assert(i64::MIN * MAX_TOTAL_SAMPLES <= n * w <= i64::MAX * MAX_TOTAL_SAMPLES)
                    by (nonlinear_arith)
                    requires
                        0 <= n <= MAX_TOTAL_SAMPLES,
                        i64::MIN <= w <= i64::MAX,
                ;
            }
            let term = samples * (entry.weights[j] as i128);
            let sum = sums[j] + term;
            sums.set(j, sum);
            j += 1;
        }
        c += 1;
    }
    assert(buffer.take(count as int) =~= buffer);
    let mut weights: Vec<i64> = Vec::new();
    let mut i: usize = 0;
    while i < dim
        invariant
            buffer == pendings(contributions@),
            averageable(buffer),
            dim == buffer[0].weights.len(),
            total == total_samples(buffer),
            i <= dim,
            sums.len() == dim,
            weights.len() == i,
            forall|j: int| 0 <= j < dim ==> (#[trigger] sums[j]) as int == weighted_sum(buffer, j),
            forall|j: int| 0 <= j < i ==> (#[trigger] weights[j]) as int == average_at(buffer, j),
        decreases dim - i,
    {
        proof {
            lemma_average_in_range(buffer, i as int);
        }
        let sum = sums[i];
        let mean: i128 = if sum >= 0 {
            sum / (total as i128)
        } else {
            proof {
                lemma_weighted_sum_floor(buffer, i as int);
            }
            -((-sum) / (total as i128))
        };
        weights.push(mean as i64);
        i += 1;
    }
    assert(weights@ =~= average(buffer));
    Some(weights)
}

/// A weighted sum of an averageable buffer can be negated within 128 bits.
proof fn lemma_weighted_sum_floor(buffer: Seq<Pending>, coordinate: int)
    requires
        averageable(buffer),
        0 <= coordinate < buffer[0].weights.len(),
    ensures
        weighted_sum(buffer, coordinate) >= i64::MIN * MAX_TOTAL_SAMPLES,
{
    lemma_weighted_sum_bounds(buffer, coordinate);
    let t = total_samples(buffer) as int;
    assert(i64::MIN * t >= i64::MIN * MAX_TOTAL_SAMPLES) by (nonlinear_arith)
        requires
            0 <= t <= MAX_TOTAL_SAMPLES,
    ;
}

} // verus!
