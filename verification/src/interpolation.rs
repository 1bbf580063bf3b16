//! Reconstruction of a secret from its shares.
//!
//! A share is a point `(x, y)` on an integer polynomial whose constant term
//! is the secret. The secret is recovered by Newton's divided differences:
//! taking the last point as pivot, every other point is replaced by the slope
//! of the line through it and the pivot, which lowers the degree by one; the
//! value at zero then follows from the pivot and the value at zero of the
//! reduced points. On points of an integer polynomial every slope is an
//! integer, so the whole computation is exact.

use vstd::prelude::*;
use vstd::arithmetic::div_mod::*;
use crate::error::FlError;
use crate::polynomial::{
    eval, lemma_eval_at_zero, lemma_eval_nonneg, lemma_factor, lemma_quotient_len,
    lemma_quotient_nonneg, quotient, tail_nonneg,
};

verus! {

/// Whether `v` can be held in 128 bits.
pub open spec fn fits(v: int) -> bool {
    i128::MIN <= v <= i128::MAX
}

/// Difference of the ordinates, taken from the point further right.
pub open spec fn rise(p: (int, int), q: (int, int)) -> int {
    if p.0 > q.0 {
        p.1 - q.1
    } else {
        q.1 - p.1
    }
}

/// Distance of the abscissas.
pub open spec fn run(p: (int, int), q: (int, int)) -> int {
    if p.0 > q.0 {
        p.0 - q.0
    } else {
        q.0 - p.0
    }
}

/// The two points lie apart, and the slope of the line through them is an
/// integer that was computed without leaving 128 bits.
pub open spec fn divisible(p: (int, int), q: (int, int)) -> bool {
    &&& run(p, q) > 0
    &&& fits(rise(p, q))
    &&& rise(p, q) % run(p, q) == 0
}

/// The slope of the line through two points.
pub open spec fn slope(p: (int, int), q: (int, int)) -> int {
    rise(p, q) / run(p, q)
}

/// Every point can be replaced by its slope towards the last one.
pub open spec fn reducible(pts: Seq<(int, int)>) -> bool {
    forall|j: int| 0 <= j < pts.len() - 1 ==> divisible(#[trigger] pts[j], pts.last())
}

/// The points without the last, each ordinate replaced by the slope towards
/// the last point.
pub open spec fn reduce(pts: Seq<(int, int)>) -> Seq<(int, int)>
    recommends
        pts.len() > 0,
{
    Seq::new((pts.len() - 1) as nat, |j: int| (pts[j].0, slope(pts[j], pts.last())))
}

/// The value at zero of the polynomial of lowest degree through `pts`, found
/// by divided differences; `None` where there is no point, two points share
/// an abscissa, a slope is not an integer, or an intermediate value leaves
/// 128 bits.
pub open spec fn combined(pts: Seq<(int, int)>) -> Option<int>
    decreases pts.len(),
{
    if pts.len() == 0 {
        None
    } else if pts.len() == 1 {
        Some(pts[0].1)
    } else if !reducible(pts) {
        None
    } else {
        match combined(reduce(pts)) {
            None => None,
            Some(v) => {
                let last = pts.last();
                if fits(last.0 * v) && fits(last.1 - last.0 * v) {
                    Some(last.1 - last.0 * v)
                } else {
                    None
                }
            },
        }
    }
}

/// The points after `depth` reductions.
pub open spec fn level(pts: Seq<(int, int)>, depth: nat) -> Seq<(int, int)>
    decreases depth,
{
    if depth == 0 {
        pts
    } else {
        reduce(level(pts, (depth - 1) as nat))
    }
}

/// The mathematical points that a vector of shares stands for.
pub open spec fn points(shares: Seq<(u64, i128)>) -> Seq<(int, int)> {
    shares.map_values(|s: (u64, i128)| (s.0 as int, s.1 as int))
}

/// The points `(x, p(x))` of the polynomial `coeffs` over the abscissas `xs`.
pub open spec fn samples(coeffs: Seq<int>, xs: Seq<int>) -> Seq<(int, int)> {
    xs.map_values(|x: int| (x, eval(coeffs, x)))
}

/// No abscissa occurs twice.
pub open spec fn distinct(xs: Seq<int>) -> bool {
    forall|i: int, j: int| 0 <= i < j < xs.len() ==> xs[i] != xs[j]
}

proof fn lemma_level_shape(pts: Seq<(int, int)>, depth: nat)
    requires
        depth <= pts.len(),
    ensures
        level(pts, depth).len() == pts.len() - depth,
        forall|i: int| 0 <= i < pts.len() - depth ==> (#[trigger] level(pts, depth)[i]).0 == pts[i].0,
    decreases depth,
{
    if depth > 0 {
        lemma_level_shape(pts, (depth - 1) as nat);
    }
}

proof fn lemma_none_propagates(pts: Seq<(int, int)>, depth: nat)
    requires
        depth < pts.len(),
        combined(level(pts, depth)) is None,
    ensures
        combined(pts) is None,
    decreases depth,
{
    if depth > 0 {
        let above = level(pts, (depth - 1) as nat);
        lemma_level_shape(pts, (depth - 1) as nat);
        assert(above.len() >= 2);
        assert(combined(above) is None);
        lemma_none_propagates(pts, (depth - 1) as nat);
    }
}

proof fn lemma_slope_fits(dy: int, dx: int)
    requires
        fits(dy),
        dx >= 1,
        dy % dx == 0,
    ensures
        fits(dy / dx),
{
    lemma_fundamental_div_mod(dy, dx);
    let q = dy / dx;
    assert(i128::MIN <= q <= i128::MAX) by (nonlinear_arith)
        requires
            dy == dx * q,
            dx >= 1,
            i128::MIN <= dy <= i128::MAX,
    ;
}

/// How often the ordinate at `index` has been replaced after `depth`
/// reductions of `len` points: a pivot is left as it is.
spec fn stage(depth: int, len: int, index: int) -> nat {
    if index + depth < len {
        depth as nat
    } else {
        (len - 1 - index) as nat
    }
}

/// Reconstructs the value at zero from a set of shares `(x, y)`.
///
/// Succeeds exactly where the divided differences of the shares are whole
/// numbers that stay within 128 bits, and then returns the value at zero of
/// the polynomial through them; every other set of shares is malformed.
pub fn combine(shares: &Vec<(u64, i128)>) -> (r: Result<i128, FlError>)
    ensures
        match r {
            Ok(v) => combined(points(shares@)) == Some(v as int),
            Err(e) => e == FlError::MalformedUpdate && combined(points(shares@)) is None,
        },
{
    let n = shares.len();
    let ghost all = points(shares@);
    if n == 0 {
        return Err(FlError::MalformedUpdate);
    }
    let mut ys: Vec<i128> = Vec::new();
    let mut k: usize = 0;
    while k < n
        invariant
            n == shares.len(),
            k <= n,
            ys.len() == k,
            forall|i: int| 0 <= i < k ==> ys[i] == shares[i].1,
        decreases n - k,
    {
        ys.push(shares[k].1);
        k += 1;
    }
    let mut depth: usize = 0;
    while depth + 1 < n
        invariant
            n == shares.len(),
            n >= 1,
            all == points(shares@),
            ys.len() == n,
            depth < n,
            forall|e: int| 0 <= e < depth ==> reducible(#[trigger] level(all, e as nat)),
            forall|i: int|
                0 <= i < n ==> (#[trigger] ys[i]) as int == level(
                    all,
                    stage(depth as int, n as int, i),
                )[i].1,
        decreases n - depth,
    {
        let pivot = n - 1 - depth;
        let ghost here = level(all, depth as nat);
        proof {
            lemma_level_shape(all, depth as nat);
            assert(here.len() == pivot + 1);
            assert(stage(depth as int, n as int, pivot as int) == depth);
        }
        let xp = shares[pivot].0;
        let yp = ys[pivot];
        assert(here.last() == (xp as int, yp as int));
        let mut j: usize = 0;
        while j < pivot
            invariant
                n == shares.len(),
                all == points(shares@),
                ys.len() == n,
                depth + 1 < n,
                pivot == n - 1 - depth,
                here == level(all, depth as nat),
                here.len() == pivot + 1,
                here.last() == (xp as int, yp as int),
                xp == shares[pivot as int].0,
                j <= pivot,
                forall|i: int| 0 <= i < pivot ==> (#[trigger] here[i]).0 == shares[i].0,
                forall|i: int| 0 <= i < j ==> divisible(#[trigger] here[i], here.last()),
                forall|i: int|
                    0 <= i < j ==> (#[trigger] ys[i]) as int == slope(here[i], here.last()),
                forall|i: int|
                    j <= i < n ==> (#[trigger] ys[i]) as int == level(
                        all,
                        stage(depth as int, n as int, i),
                    )[i].1,
            decreases pivot - j,
        {
            let xj = shares[j].0;
            let yj = ys[j];
            proof {
                assert(stage(depth as int, n as int, j as int) == depth);
                assert(here[j as int] == (xj as int, yj as int));
            }
            if xj == xp {
                proof {
                    assert(!divisible(here[j as int], here.last()));
                    assert(!reducible(here));
                    lemma_none_propagates(all, depth as nat);
                }
                return Err(FlError::MalformedUpdate);
            }
            let dx: i128 = if xj > xp {
                (xj - xp) as i128
            } else {
                (xp - xj) as i128
            };
            let diff = if xj > xp {
                yj.checked_sub(yp)
            } else {
                yp.checked_sub(yj)
            };
            let dy = match diff {
                Some(dy) => dy,
                None => {
                    proof {
                        assert(!divisible(here[j as int], here.last()));
                        assert(!reducible(here));
                        lemma_none_propagates(all, depth as nat);
                    }
                    return Err(FlError::MalformedUpdate);
                },
            };
            assert(dy == rise(here[j as int], here.last()));
            assert(dx == run(here[j as int], here.last()));
            let rem = dy.checked_rem_euclid(dx);
            if rem != Some(0) {
                proof {
                    assert(!divisible(here[j as int], here.last()));
                    assert(!reducible(here));
                    lemma_none_propagates(all, depth as nat);
                }
                return Err(FlError::MalformedUpdate);
            }
            proof {
                lemma_slope_fits(dy as int, dx as int);
            }
            let q = dy.checked_div_euclid(dx).unwrap();
            ys.set(j, q);
            j += 1;
        }
        proof {
            assert(reducible(here));
            let next = level(all, (depth + 1) as nat);
            assert(next == reduce(here));
            assert forall|i: int| 0 <= i < n implies (#[trigger] ys[i]) as int == level(
                all,
                stage(depth + 1, n as int, i),
            )[i].1 by {
                if i < pivot {
                    assert(stage(depth + 1, n as int, i) == depth + 1);
                    assert(next[i] == (here[i].0, slope(here[i], here.last())));
                } else {
                    assert(stage(depth + 1, n as int, i) == stage(depth as int, n as int, i));
                }
            }
            assert forall|e: int| 0 <= e < depth + 1 implies reducible(
                #[trigger] level(all, e as nat),
            ) by {
                if e == depth {
                    assert(level(all, e as nat) == here);
                }
            }
        }
        depth += 1;
    }
    let mut v = ys[0];
    proof {
        lemma_level_shape(all, (n - 1) as nat);
        assert(stage(depth as int, n as int, 0) == n - 1);
    }
    let mut i: usize = 1;
    while i < n
        invariant
            n == shares.len(),
            n >= 1,
            all == points(shares@),
            ys.len() == n,
            1 <= i <= n,
            forall|e: int| 0 <= e < n - 1 ==> reducible(#[trigger] level(all, e as nat)),
            forall|m: int|
                0 <= m < n ==> (#[trigger] ys[m]) as int == level(all, (n - 1 - m) as nat)[m].1,
            combined(level(all, (n - i) as nat)) == Some(v as int),
        decreases n - i,
    {
        let ghost depth_here = (n - 1 - i) as nat;
        let ghost here = level(all, depth_here);
        proof {
            lemma_level_shape(all, depth_here);
            assert(here.len() == i + 1);
            assert(level(all, (n - i) as nat) == reduce(here));
            assert(here.last().0 == all[i as int].0);
            assert(here.last() == (shares[i as int].0 as int, ys[i as int] as int));
            assert(reducible(here));
        }
        let product = (shares[i].0 as i128).checked_mul(v);
        let next = match product {
            Some(p) => ys[i].checked_sub(p),
            None => None,
        };
        match next {
            Some(value) => {
                v = value;
            },
            None => {
                proof {
                    assert(combined(here) is None);
                    lemma_none_propagates(all, depth_here);
                }
                return Err(FlError::MalformedUpdate);
            },
        }
        i += 1;
    }
    Ok(v)
}

/// Reconstruction is exact: from the values of a polynomial at pairwise
/// different, non-negative abscissas, at least as many as it has
/// coefficients, `combined` returns the constant term. The polynomial's
/// higher coefficients are non-negative, its constant term fits in 128 bits
/// and no value exceeds the constant term by more than `span`.
pub proof fn lemma_combined_recovers_constant(coeffs: Seq<int>, xs: Seq<int>, span: int)
    requires
        xs.len() >= 1,
        coeffs.len() <= xs.len(),
        tail_nonneg(coeffs),
        distinct(xs),
        forall|j: int| 0 <= j < xs.len() ==> xs[j] >= 0,
        fits(eval(coeffs, 0)),
        span <= i128::MAX,
        forall|j: int| 0 <= j < xs.len() ==> eval(coeffs, #[trigger] xs[j]) - eval(coeffs, 0) <= span,
    ensures
        combined(samples(coeffs, xs)) == Some(eval(coeffs, 0)),
    decreases xs.len(),
{
    let pts = samples(coeffs, xs);
    let n = xs.len() as int;
    let secret = eval(coeffs, 0);
    lemma_eval_at_zero(coeffs);
    if n == 1 {
        if coeffs.len() == 1 {
            assert(coeffs.drop_first().len() == 0);
            assert(eval(coeffs.drop_first(), xs[0]) == 0);
            assert(xs[0] * 0 == 0);
        }
        assert(pts[0].1 == eval(coeffs, xs[0]));
    } else {
        let c = xs[n - 1];
        let q = quotient(coeffs, c);
        let rest = xs.drop_last();
        lemma_quotient_len(coeffs, c);
        lemma_quotient_nonneg(coeffs, c);
        lemma_eval_at_zero(q);
        assert(pts.last() == (c, eval(coeffs, c)));
        assert forall|j: int| 0 <= j < n - 1 implies divisible(#[trigger] pts[j], pts.last())
            && slope(pts[j], pts.last()) == eval(q, xs[j]) && 0 <= eval(q, xs[j]) <= span by {
            lemma_slope_of_samples(coeffs, xs[j], c, span);
            assert(pts[j] == (xs[j], eval(coeffs, xs[j])));
        }
        assert(reducible(pts));
        assert(reduce(pts) =~= samples(q, rest));
        lemma_eval_nonneg(q, 0);
        assert forall|j: int| 0 <= j < rest.len() implies eval(q, #[trigger] rest[j]) - eval(q, 0)
            <= span by {
            assert(rest[j] == xs[j]);
            assert(pts[j] == (xs[j], eval(coeffs, xs[j])));
        }
        lemma_eval_nonneg(q, rest[0]);
        assert(rest[0] == xs[0]);
        assert(pts[0] == (xs[0], eval(coeffs, xs[0])));
        assert(0 <= eval(q, 0) <= eval(q, xs[0]) <= span);
        lemma_combined_recovers_constant(q, rest, span);
        let v = eval(q, 0);
        lemma_factor(coeffs, c, 0);
        assert((0 - c) * v == -(c * v)) by (nonlinear_arith);
        assert(eval(coeffs, c) - c * v == secret);
        assert(c * v == eval(coeffs, c) - secret);
        lemma_tail_value_nonneg(coeffs, c);
        assert(fits(c * v));
    }
}

/// The higher terms of a polynomial whose higher coefficients are
/// non-negative add nothing negative right of zero.
proof fn lemma_tail_value_nonneg(coeffs: Seq<int>, x: int)
    requires
        tail_nonneg(coeffs),
        x >= 0,
    ensures
        eval(coeffs, x) >= eval(coeffs, 0),
{
    lemma_eval_at_zero(coeffs);
    if coeffs.len() > 0 {
        let rest = coeffs.drop_first();
        assert forall|i: int| 0 <= i < rest.len() implies rest[i] >= 0 by {
            assert(rest[i] == coeffs[i + 1]);
        }
        lemma_eval_nonneg(rest, x);
        assert(x * eval(rest, x) >= 0) by (nonlinear_arith)
            requires
                x >= 0,
                eval(rest, x) >= 0,
        ;
    }
}

/// The slope between two values of a polynomial is the value of its
/// quotient.
proof fn lemma_slope_of_samples(coeffs: Seq<int>, x: int, c: int, span: int)
    requires
        tail_nonneg(coeffs),
        x >= 0,
        c >= 0,
        x != c,
        span <= i128::MAX,
        eval(coeffs, x) - eval(coeffs, 0) <= span,
        eval(coeffs, c) - eval(coeffs, 0) <= span,
    ensures
        divisible((x, eval(coeffs, x)), (c, eval(coeffs, c))),
        slope((x, eval(coeffs, x)), (c, eval(coeffs, c))) == eval(quotient(coeffs, c), x),
        0 <= eval(quotient(coeffs, c), x) <= span,
{
    let p = (x, eval(coeffs, x));
    let piv = (c, eval(coeffs, c));
    let q = eval(quotient(coeffs, c), x);
    let dx = run(p, piv);
    let dy = rise(p, piv);
    lemma_factor(coeffs, c, x);
    lemma_quotient_nonneg(coeffs, c);
    lemma_eval_nonneg(quotient(coeffs, c), x);
    lemma_tail_value_nonneg(coeffs, x);
    lemma_tail_value_nonneg(coeffs, c);
    assert(dy == dx * q) by (nonlinear_arith)
        requires
            eval(coeffs, x) - eval(coeffs, c) == (x - c) * q,
            dx == if x > c {
                x - c
            } else {
                c - x
            },
            dy == if x > c {
                eval(coeffs, x) - eval(coeffs, c)
            } else {
                eval(coeffs, c) - eval(coeffs, x)
            },
    ;
    lemma_div_multiples_vanish(q, dx);
    lemma_mod_multiples_basic(q, dx);
    assert(q * dx == dx * q) by (nonlinear_arith);
    assert(q <= dy) by (nonlinear_arith)
        requires
            dy == dx * q,
            dx >= 1,
            q >= 0,
    ;
    assert(dy >= 0) by (nonlinear_arith)
        requires
            dy == dx * q,
            dx >= 1,
            q >= 0,
    ;
}

} // verus!
