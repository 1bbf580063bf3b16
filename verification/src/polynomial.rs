//! Integer polynomials in coefficient form.
//!
//! A polynomial is the sequence of its coefficients, lowest degree first.
//! The module states what evaluating and dividing one means and proves the
//! facts the sharing scheme rests on.

use vstd::prelude::*;
use vstd::arithmetic::mul::*;

verus! {

/// The value at `x` of the polynomial with coefficients `coeffs`.
pub open spec fn eval(coeffs: Seq<int>, x: int) -> int
    decreases coeffs.len(),
{
    if coeffs.len() == 0 {
        0
    } else {
        coeffs[0] + x * eval(coeffs.drop_first(), x)
    }
}

/// The quotient of the polynomial by `x - c`: the polynomial `q` with
/// `p(x) = p(c) + (x - c) * q(x)` for every `x`.
pub open spec fn quotient(coeffs: Seq<int>, c: int) -> Seq<int>
    decreases coeffs.len(),
{
    if coeffs.len() <= 1 {
        Seq::empty()
    } else {
        seq![eval(coeffs.drop_first(), c)] + quotient(coeffs.drop_first(), c)
    }
}

/// Every coefficient but the constant one is non-negative.
pub open spec fn tail_nonneg(coeffs: Seq<int>) -> bool {
    forall|i: int| 1 <= i < coeffs.len() ==> coeffs[i] >= 0
}

/// Every coefficient is non-negative.
pub open spec fn all_nonneg(coeffs: Seq<int>) -> bool {
    forall|i: int| 0 <= i < coeffs.len() ==> coeffs[i] >= 0
}

/// `1 + x + ... + x^(terms - 1)`.
pub open spec fn geometric(x: int, terms: nat) -> int
    decreases terms,
{
    if terms == 0 {
        0
    } else {
        1 + x * geometric(x, (terms - 1) as nat)
    }
}

/// The quotient has one coefficient less than the polynomial.
pub proof fn lemma_quotient_len(coeffs: Seq<int>, c: int)
    ensures
        quotient(coeffs, c).len() == if coeffs.len() == 0 {
            0
        } else {
            coeffs.len() - 1
        },
    decreases coeffs.len(),
{
    if coeffs.len() > 1 {
        lemma_quotient_len(coeffs.drop_first(), c);
    }
}

/// Dividing by `x - c` leaves the remainder `p(c)`.
pub proof fn lemma_factor(coeffs: Seq<int>, c: int, x: int)
    ensures
        eval(coeffs, x) - eval(coeffs, c) == (x - c) * eval(quotient(coeffs, c), x),
    decreases coeffs.len(),
{
    if coeffs.len() == 0 {
        assert(quotient(coeffs, c).len() == 0);
        assert((x - c) * 0 == 0);
    } else if coeffs.len() == 1 {
        let rest = coeffs.drop_first();
        assert(rest.len() == 0);
        assert(eval(rest, x) == 0 && eval(rest, c) == 0);
        assert(quotient(coeffs, c).len() == 0);
        assert(x * 0 == 0 && c * 0 == 0 && (x - c) * 0 == 0);
    } else {
        let rest = coeffs.drop_first();
        let q = quotient(coeffs, c);
        let qr = quotient(rest, c);
        lemma_factor(rest, c, x);
        assert(q.drop_first() =~= qr);
        assert(q[0] == eval(rest, c));
        let rx = eval(rest, x);
        let rc = eval(rest, c);
        let qx = eval(qr, x);
        assert(eval(q, x) == rc + x * qx);
        assert(x * rx - c * rc == (x - c) * (rc + x * qx)) by (nonlinear_arith)
            requires
                rx - rc == (x - c) * qx,
        ;
    }
}

/// A polynomial with non-negative coefficients is non-negative, and at
/// least its constant term, right of zero.
pub proof fn lemma_eval_nonneg(coeffs: Seq<int>, x: int)
    requires
        all_nonneg(coeffs),
        x >= 0,
    ensures
        eval(coeffs, x) >= 0,
        coeffs.len() > 0 ==> eval(coeffs, x) >= coeffs[0],
    decreases coeffs.len(),
{
    if coeffs.len() > 0 {
        let rest = coeffs.drop_first();
        assert forall|i: int| 0 <= i < rest.len() implies rest[i] >= 0 by {
            assert(rest[i] == coeffs[i + 1]);
        }
        lemma_eval_nonneg(rest, x);
        lemma_mul_nonnegative(x, eval(rest, x));
    }
}

/// The value at zero is the constant term.
pub proof fn lemma_eval_at_zero(coeffs: Seq<int>)
    ensures
        eval(coeffs, 0) == if coeffs.len() == 0 {
            0
        } else {
            coeffs[0]
        },
{
    if coeffs.len() > 0 {
        assert(0 * eval(coeffs.drop_first(), 0) == 0);
    }
}

/// Right of zero, the quotient of a polynomial whose higher coefficients
/// are non-negative has only non-negative coefficients.
pub proof fn lemma_quotient_nonneg(coeffs: Seq<int>, c: int)
    requires
        tail_nonneg(coeffs),
        c >= 0,
    ensures
        all_nonneg(quotient(coeffs, c)),
    decreases coeffs.len(),
{
    if coeffs.len() > 1 {
        let rest = coeffs.drop_first();
        let q = quotient(coeffs, c);
        assert forall|i: int| 0 <= i < rest.len() implies rest[i] >= 0 by {
            assert(rest[i] == coeffs[i + 1]);
        }
        lemma_eval_nonneg(rest, c);
        lemma_quotient_nonneg(rest, c);
        let qr = quotient(rest, c);
        assert forall|i: int| 0 <= i < q.len() implies q[i] >= 0 by {
            if i > 0 {
                assert(q[i] == qr[i - 1]);
            }
        }
    }
}

/// With coefficients in `[0, bound]`, the value right of zero is at most
/// `bound * (1 + x + ... + x^(n - 1))`.
pub proof fn lemma_eval_bound(coeffs: Seq<int>, x: int, bound: int)
    requires
        x >= 0,
        bound >= 0,
        forall|i: int| 0 <= i < coeffs.len() ==> 0 <= #[trigger] coeffs[i] && coeffs[i] <= bound,
    ensures
        0 <= eval(coeffs, x) <= bound * geometric(x, coeffs.len()),
    decreases coeffs.len(),
{
    if coeffs.len() > 0 {
        let rest = coeffs.drop_first();
        assert forall|i: int| 0 <= i < rest.len() implies 0 <= #[trigger] rest[i] && rest[i] <= bound by {
            assert(rest[i] == coeffs[i + 1]);
        }
        lemma_eval_bound(rest, x, bound);
        let r = eval(rest, x);
        let g = geometric(x, rest.len());
        assert(coeffs[0] + x * r <= bound * (1 + x * g)) by (nonlinear_arith)
            requires
                0 <= r <= bound * g,
                0 <= coeffs[0] <= bound,
                x >= 0,
        ;
        assert(x * r >= 0) by (nonlinear_arith)
            requires
                x >= 0,
                r >= 0,
        ;
    } else {
        assert(bound * 0 == 0);
    }
}

/// The geometric sum grows with its base and with its number of terms.
pub proof fn lemma_geometric_monotone(x: int, y: int, m: nat, n: nat)
    requires
        0 <= x <= y,
        m <= n,
    ensures
        0 <= geometric(x, m) <= geometric(y, n),
    decreases n,
{
    if m == 0 {
        lemma_geometric_nonneg(y, n);
    } else {
        lemma_geometric_monotone(x, y, (m - 1) as nat, (n - 1) as nat);
        let a = geometric(x, (m - 1) as nat);
        let b = geometric(y, (n - 1) as nat);
        assert(x * a <= y * b) by (nonlinear_arith)
            requires
                0 <= x <= y,
                0 <= a <= b,
        ;
        assert(x * a >= 0) by (nonlinear_arith)
            requires
                0 <= x,
                0 <= a,
        ;
    }
}

/// The geometric sum of a non-negative base is non-negative.
pub proof fn lemma_geometric_nonneg(x: int, n: nat)
    requires
        x >= 0,
    ensures
        geometric(x, n) >= 0,
    decreases n,
{
    if n > 0 {
        lemma_geometric_nonneg(x, (n - 1) as nat);
        lemma_mul_nonnegative(x, geometric(x, (n - 1) as nat));
    }
}

} // verus!
