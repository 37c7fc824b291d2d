//! Finite sums, dot products and squared norms over integer sequences.

use vstd::prelude::*;
use crate::fixed::abs;

verus! {

/// The sum `f(0) + ... + f(n - 1)`.
pub open spec fn sum(f: spec_fn(int) -> int, n: nat) -> int
    decreases n,
{
    if n == 0 {
        0
    } else {
        sum(f, (n - 1) as nat) + f(n - 1)
    }
}

/// The termwise products of two sequences.
pub open spec fn prod_term(a: Seq<int>, b: Seq<int>) -> spec_fn(int) -> int {
    |i: int| a[i] * b[i]
}

/// The dot product of two sequences, over the length of the first.
pub open spec fn dot(a: Seq<int>, b: Seq<int>) -> int {
    sum(prod_term(a, b), a.len())
}

/// The sum of the squares of a sequence.
pub open spec fn norm_sq(v: Seq<int>) -> int {
    dot(v, v)
}

/// The view of a vector of machine integers as mathematical integers.
pub open spec fn ints(v: Seq<i64>) -> Seq<int> {
    Seq::new(v.len(), |i: int| v[i] as int)
}

/// A sum of zeros is zero.
pub proof fn lemma_sum_zero(f: spec_fn(int) -> int, n: nat)
    requires
        forall|i: int| 0 <= i < n ==> #[trigger] f(i) == 0,
    ensures
        sum(f, n) == 0,
    decreases n,
{
    if n > 0 {
        lemma_sum_zero(f, (n - 1) as nat);
    }
}

/// A sum with one term that may differ from zero equals that term.
pub proof fn lemma_sum_single(f: spec_fn(int) -> int, n: nat, p: int)
    requires
        0 <= p < n,
        forall|i: int| 0 <= i < n && i != p ==> #[trigger] f(i) == 0,
    ensures
        sum(f, n) == f(p),
    decreases n,
{
    if n - 1 == p {
        lemma_sum_zero(f, (n - 1) as nat);
    } else {
        lemma_sum_single(f, (n - 1) as nat, p);
    }
}

/// A sum with two terms that may differ from zero equals their sum.
pub proof fn lemma_sum_pair(f: spec_fn(int) -> int, n: nat, p: int, q: int)
    requires
        0 <= p < q < n,
        forall|i: int| 0 <= i < n && i != p && i != q ==> #[trigger] f(i) == 0,
    ensures
        sum(f, n) == f(p) + f(q),
    decreases n,
{
    if n - 1 == q {
        lemma_sum_single(f, (n - 1) as nat, p);
    } else {
        lemma_sum_pair(f, (n - 1) as nat, p, q);
    }
}

/// A sum of bounded terms is bounded by the bound times the number of terms.
pub proof fn lemma_sum_bound(f: spec_fn(int) -> int, n: nat, bound: int)
    requires
        forall|i: int| 0 <= i < n ==> abs(#[trigger] f(i)) <= bound,
    ensures
        abs(sum(f, n)) <= n * bound,
    decreases n,
{
    if n > 0 {
        lemma_sum_bound(f, (n - 1) as nat, bound);
        assert(abs(f(n - 1)) <= bound);
        assert(n * bound == (n - 1) * bound + bound) by (nonlinear_arith);
    } else {
        assert(0 * bound == 0);
    }
}

/// With no negative term, a shorter sum is no larger than a longer one.
pub proof fn lemma_sum_prefix(f: spec_fn(int) -> int, k: nat, n: nat)
    requires
        k <= n,
        forall|i: int| 0 <= i < n ==> #[trigger] f(i) >= 0,
    ensures
        0 <= sum(f, k) <= sum(f, n),
    decreases n,
{
    if n == 0 {
    } else if k == n {
        lemma_sum_prefix(f, (k - 1) as nat, (n - 1) as nat);
        assert(f(n - 1) >= 0);
    } else {
        lemma_sum_prefix(f, k, (n - 1) as nat);
        assert(f(n - 1) >= 0);
    }
}

/// With no negative term, no term is larger than the sum.
pub proof fn lemma_sum_term(f: spec_fn(int) -> int, n: nat, p: int)
    requires
        0 <= p < n,
        forall|i: int| 0 <= i < n ==> #[trigger] f(i) >= 0,
    ensures
        0 <= f(p) <= sum(f, n),
{
    lemma_sum_prefix(f, (p + 1) as nat, n);
    lemma_sum_prefix(f, p as nat, (p + 1) as nat);
}

/// The squares of a sequence are not negative.
pub proof fn lemma_squares_nonneg(v: Seq<int>)
    ensures
        forall|i: int| 0 <= i < v.len() ==> #[trigger] prod_term(v, v)(i) >= 0,
{
    assert forall|i: int| 0 <= i < v.len() implies #[trigger] prod_term(v, v)(i) >= 0 by {
        let x = v[i];
        assert(x * x >= 0) by (nonlinear_arith);
    }
}

/// No square of a component exceeds the squared norm.
pub proof fn lemma_norm_sq_component(v: Seq<int>, p: int)
    requires
        0 <= p < v.len(),
    ensures
        0 <= v[p] * v[p] <= norm_sq(v),
{
    lemma_squares_nonneg(v);
    lemma_sum_term(prod_term(v, v), v.len(), p);
}

/// A dot product in which every product vanishes is zero.
pub proof fn lemma_dot_zero(a: Seq<int>, b: Seq<int>)
    requires
        forall|i: int| 0 <= i < a.len() ==> #[trigger] a[i] == 0 || b[i] == 0,
    ensures
        dot(a, b) == 0,
{
    let f = prod_term(a, b);
    assert forall|i: int| 0 <= i < a.len() implies #[trigger] f(i) == 0 by {
        let x = a[i];
        let y = b[i];
        assert(x == 0 || y == 0 ==> x * y == 0) by (nonlinear_arith);
    }
    lemma_sum_zero(f, a.len());
}

/// A dot product in which every product but one vanishes.
pub proof fn lemma_dot_single(a: Seq<int>, b: Seq<int>, p: int)
    requires
        0 <= p < a.len(),
        forall|i: int| 0 <= i < a.len() && i != p ==> #[trigger] a[i] == 0 || b[i] == 0,
    ensures
        dot(a, b) == a[p] * b[p],
{
    let f = prod_term(a, b);
    assert forall|i: int| 0 <= i < a.len() && i != p implies #[trigger] f(i) == 0 by {
        let x = a[i];
        let y = b[i];
        assert(x == 0 || y == 0 ==> x * y == 0) by (nonlinear_arith);
    }
    lemma_sum_single(f, a.len(), p);
}

/// A dot product in which every product but two vanishes.
pub proof fn lemma_dot_pair(a: Seq<int>, b: Seq<int>, p: int, q: int)
    requires
        0 <= p < q < a.len(),
        forall|i: int| 0 <= i < a.len() && i != p && i != q ==> #[trigger] a[i] == 0 || b[i] == 0,
    ensures
        dot(a, b) == a[p] * b[p] + a[q] * b[q],
{
    let f = prod_term(a, b);
    assert forall|i: int| 0 <= i < a.len() && i != p && i != q implies #[trigger] f(i) == 0 by {
        let x = a[i];
        let y = b[i];
        assert(x == 0 || y == 0 ==> x * y == 0) by (nonlinear_arith);
    }
    lemma_sum_pair(f, a.len(), p, q);
}

/// Bounds a prefix of a dot product by the bounds of the components.
pub proof fn lemma_dot_prefix_bound(a: Seq<int>, b: Seq<int>, k: nat, bound_a: int, bound_b: int)
    requires
        k <= a.len(),
        k <= b.len(),
        forall|i: int| 0 <= i < k ==> abs(#[trigger] a[i]) <= bound_a,
        forall|i: int| 0 <= i < k ==> abs(#[trigger] b[i]) <= bound_b,
    ensures
        abs(sum(prod_term(a, b), k)) <= k * (bound_a * bound_b),
{
    let f = prod_term(a, b);
    assert forall|i: int| 0 <= i < k implies abs(#[trigger] f(i)) <= bound_a * bound_b by {
        let x = a[i];
        let y = b[i];
        assert(abs(x) <= bound_a);
        assert(abs(y) <= bound_b);
        assert(abs(x * y) <= bound_a * bound_b) by (nonlinear_arith)
            requires
                abs(x) <= bound_a,
                abs(y) <= bound_b,
        ;
    }
    lemma_sum_bound(f, k, bound_a * bound_b);
}

/// The magnitudes of the components of a sequence.
pub open spec fn abs_term(v: Seq<int>) -> spec_fn(int) -> int {
    |i: int| abs(v[i])
}

/// The square of a sum of magnitudes is at most the number of terms times
/// the sum of the squares.
pub proof fn lemma_sum_of_magnitudes(v: Seq<int>, k: nat)
    ensures
        0 <= sum(abs_term(v), k),
        0 <= sum(prod_term(v, v), k),
        sum(abs_term(v), k) * sum(abs_term(v), k) <= k * sum(prod_term(v, v), k),
    decreases k,
{
    if k == 0 {
        assert(0int * 0int <= 0 * 0int) by (nonlinear_arith);
    } else {
        let m = (k - 1) as nat;
        lemma_sum_of_magnitudes(v, m);
        let l = sum(abs_term(v), m);
        let q = sum(prod_term(v, v), m);
        let x = abs(v[k - 1]);
        assert(prod_term(v, v)(k - 1) == x * x) by (nonlinear_arith)
            requires
                prod_term(v, v)(k - 1) == v[k - 1] * v[k - 1],
                x == abs(v[k - 1]),
        ;
        assert(abs_term(v)(k - 1) == x);
        assert(x * x >= 0) by (nonlinear_arith);
        if m == 0 {
            assert(l == 0);
            assert((l + x) * (l + x) <= k * (q + x * x)) by (nonlinear_arith)
                requires
                    l == 0,
                    k == 1,
                    q >= 0,
            ;
        } else {
            assert(2 * (m * (l * x)) <= l * l + (m * m) * (x * x)) by (nonlinear_arith)
                requires
                    0 <= l,
                    0 <= x,
                    1 <= m,
            ;
            assert(l * l + (m * m) * (x * x) <= m * (q + m * (x * x))) by (nonlinear_arith)
                requires
                    l * l <= m * q,
            ;
            assert(2 * (l * x) <= q + m * (x * x)) by (nonlinear_arith)
                requires
                    2 * (m * (l * x)) <= m * (q + m * (x * x)),
                    1 <= m,
            ;
            assert((l + x) * (l + x) <= k * (q + x * x)) by (nonlinear_arith)
                requires
                    l * l <= m * q,
                    2 * (l * x) <= q + m * (x * x),
                    k == m + 1,
            ;
        }
    }
}

} // verus!
