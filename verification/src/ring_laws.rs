//! Associativity of multiplication in Z_q[x]/(x^n+1).
//!
//! The products are first compared over the integers, as sums over all index
//! triples, and then reduced modulo q.
use crate::ring::{negacyclic_coeff, nc_row, nc_rows};
use crate::zq::{Zq, ZqLimb};
use vstd::arithmetic::div_mod::*;
use vstd::arithmetic::mul::*;
use vstd::prelude::*;

verus! {

/// The sum of `f(i)` over `i < n`.
pub open spec fn sum(f: spec_fn(int) -> int, n: int) -> int
    decreases n,
{
    if n <= 0 {
        0
    } else {
        sum(f, n - 1) + f(n - 1)
    }
}

proof fn lemma_sum_ext(f: spec_fn(int) -> int, g: spec_fn(int) -> int, n: int)
    requires
        forall|i: int| 0 <= i < n ==> #[trigger] f(i) == g(i),
    ensures
        sum(f, n) == sum(g, n),
    decreases n,
{
    if n > 0 {
        lemma_sum_ext(f, g, n - 1);
    }
}

proof fn lemma_sum_scale(f: spec_fn(int) -> int, g: spec_fn(int) -> int, c: int, n: int)
    requires
        forall|i: int| 0 <= i < n ==> #[trigger] g(i) == c * f(i),
    ensures
        sum(g, n) == c * sum(f, n),
    decreases n,
{
    if n > 0 {
        lemma_sum_scale(f, g, c, n - 1);
        lemma_mul_is_distributive_add(c, sum(f, n - 1), f(n - 1));
    } else {
        lemma_mul_basics(c);
    }
}

proof fn lemma_sum_add(f: spec_fn(int) -> int, g: spec_fn(int) -> int, h: spec_fn(int) -> int, n: int)
    requires
        forall|i: int| 0 <= i < n ==> #[trigger] h(i) == f(i) + g(i),
    ensures
        sum(h, n) == sum(f, n) + sum(g, n),
    decreases n,
{
    if n > 0 {
        lemma_sum_add(f, g, h, n - 1);
    }
}

/// A sum whose terms vanish except at `t0` is the term at `t0`.
proof fn lemma_sum_single(f: spec_fn(int) -> int, n: int, t0: int)
    requires
        0 <= t0 < n,
        forall|i: int| 0 <= i < n && i != t0 ==> #[trigger] f(i) == 0,
    ensures
        sum(f, n) == f(t0),
    decreases n,
{
    if n - 1 > t0 {
        lemma_sum_single(f, n - 1, t0);
    } else {
        lemma_sum_zero(f, n - 1);
    }
}

proof fn lemma_sum_zero(f: spec_fn(int) -> int, n: int)
    requires
        forall|i: int| 0 <= i < n ==> #[trigger] f(i) == 0,
    ensures
        sum(f, n) == 0,
    decreases n,
{
    if n > 0 {
        lemma_sum_zero(f, n - 1);
    }
}

/// Exchanging the order of a double sum.
proof fn lemma_sum_swap(f: spec_fn(int, int) -> int, n: int, m: int)
    requires
        n >= 0,
        m >= 0,
    ensures
        sum(|i: int| sum(|j: int| f(i, j), m), n) == sum(|j: int| sum(|i: int| f(i, j), n), m),
    decreases n,
{
    if n > 0 {
        lemma_sum_swap(f, n - 1, m);
        let g1 = |j: int| sum(|i: int| f(i, j), n - 1);
        let g2 = |j: int| f(n - 1, j);
        lemma_sum_add(g1, g2, |j: int| sum(|i: int| f(i, j), n), m);
    } else {
        lemma_sum_zero(|j: int| sum(|i: int| f(i, j), n), m);
    }
}

/// Terms that agree modulo q give sums that agree modulo q.
proof fn lemma_sum_congruent(f: spec_fn(int) -> int, g: spec_fn(int) -> int, n: int, q: int)
    requires
        q > 0,
        forall|i: int| 0 <= i < n ==> #[trigger] f(i) % q == g(i) % q,
    ensures
        sum(f, n) % q == sum(g, n) % q,
    decreases n,
{
    if n > 0 {
        lemma_sum_congruent(f, g, n - 1, q);
        lemma_add_mod_noop(sum(f, n - 1), f(n - 1), q);
        lemma_add_mod_noop(sum(g, n - 1), g(n - 1), q);
    }
}

/// The sign with which x^s contributes to x^k in Z[x]/(x^n+1), for `0 <= s < 2n`.
pub open spec fn nc_sign(s: int, k: int, n: int) -> int {
    if s == k {
        1
    } else if s == k + n {
        -1
    } else {
        0
    }
}

/// Row `i` of coefficient `k` of the product in Z[x]/(x^n+1): `x(i) y(j)` summed over `j < n`
/// with the sign of x^(i+j) in x^k.
pub open spec fn conv_row(x: spec_fn(int) -> int, y: spec_fn(int) -> int, n: int, k: int, i: int) -> int {
    sum(|j: int| x(i) * y(j) * nc_sign(i + j, k, n), n)
}

/// Coefficient `k` of the product in Z[x]/(x^n+1) of the polynomials with coefficients
/// `x(0..n)` and `y(0..n)`.
pub open spec fn conv(x: spec_fn(int) -> int, y: spec_fn(int) -> int, n: int, k: int) -> int {
    sum(|i: int| conv_row(x, y, n, k, i), n)
}

/// The term of index `(i, j, l)` and intermediate degree `t` of `((x y) z)_k`.
pub open spec fn left_term(
    x: spec_fn(int) -> int,
    y: spec_fn(int) -> int,
    z: spec_fn(int) -> int,
    n: int,
    k: int,
    i: int,
    j: int,
    l: int,
    t: int,
) -> int {
    x(i) * y(j) * z(l) * (nc_sign(i + j, t, n) * nc_sign(t + l, k, n))
}

/// The term of index `(i, j, l)` and intermediate degree `s` of `(x (y z))_k`.
pub open spec fn right_term(
    x: spec_fn(int) -> int,
    y: spec_fn(int) -> int,
    z: spec_fn(int) -> int,
    n: int,
    k: int,
    i: int,
    j: int,
    l: int,
    s: int,
) -> int {
    x(i) * y(j) * z(l) * (nc_sign(j + l, s, n) * nc_sign(i + s, k, n))
}

/// The sign with which x^(i+j+l) contributes to x^k, for `i, j, l, k < n`.
pub open spec fn nc_sign3(e: int, k: int, n: int) -> int {
    if e == k {
        1
    } else if e == k + n {
        -1
    } else if e == k + 2 * n {
        1
    } else {
        0
    }
}

/// Summing over the intermediate degree of `(x y) z` gives the sign of x^(i+j+l).
proof fn lemma_left_sign(n: int, k: int, i: int, j: int, l: int)
    requires
        0 <= i < n,
        0 <= j < n,
        0 <= l < n,
        0 <= k < n,
    ensures
        sum(|t: int| nc_sign(i + j, t, n) * nc_sign(t + l, k, n), n) == nc_sign3(i + j + l, k, n),
{
    let f = |t: int| nc_sign(i + j, t, n) * nc_sign(t + l, k, n);
    let t0 = if i + j < n { i + j } else { i + j - n };
    lemma_sum_single(f, n, t0);
}

/// Summing over the intermediate degree of `x (y z)` gives the sign of x^(i+j+l).
proof fn lemma_right_sign(n: int, k: int, i: int, j: int, l: int)
    requires
        0 <= i < n,
        0 <= j < n,
        0 <= l < n,
        0 <= k < n,
    ensures
        sum(|s: int| nc_sign(j + l, s, n) * nc_sign(i + s, k, n), n) == nc_sign3(i + j + l, k, n),
{
    let f = |s: int| nc_sign(j + l, s, n) * nc_sign(i + s, k, n);
    let s0 = if j + l < n { j + l } else { j + l - n };
    lemma_sum_single(f, n, s0);
}

/// `sum_j left_term(i, j, l, t)`.
pub open spec fn left_j(
    x: spec_fn(int) -> int,
    y: spec_fn(int) -> int,
    z: spec_fn(int) -> int,
    n: int,
    k: int,
    i: int,
    l: int,
    t: int,
) -> int {
    sum(|j: int| left_term(x, y, z, n, k, i, j, l, t), n)
}

/// `sum_l right_term(i, j, l, s)`.
pub open spec fn right_l(
    x: spec_fn(int) -> int,
    y: spec_fn(int) -> int,
    z: spec_fn(int) -> int,
    n: int,
    k: int,
    i: int,
    j: int,
    s: int,
) -> int {
    sum(|l: int| right_term(x, y, z, n, k, i, j, l, s), n)
}

/// One term of `((x y) z)_k`, written out as a sum over `i` and `j`.
proof fn lemma_expand_left(
    x: spec_fn(int) -> int,
    y: spec_fn(int) -> int,
    z: spec_fn(int) -> int,
    n: int,
    k: int,
    t: int,
    l: int,
)
    ensures
        conv(x, y, n, t) * z(l) * nc_sign(t + l, k, n) == sum(
            |i: int| left_j(x, y, z, n, k, i, l, t),
            n,
        ),
{
    let w = z(l) * nc_sign(t + l, k, n);
    assert forall|i: int| 0 <= i < n implies #[trigger] left_j(x, y, z, n, k, i, l, t) == w
        * conv_row(x, y, n, t, i) by {
        assert forall|j: int| 0 <= j < n implies #[trigger] left_term(x, y, z, n, k, i, j, l, t) == w
            * (x(i) * y(j) * nc_sign(i + j, t, n)) by {
            let (a, b, c, s1, s2) = (x(i), y(j), z(l), nc_sign(i + j, t, n), nc_sign(t + l, k, n));
            assert(a * b * c * (s1 * s2) == c * s2 * (a * b * s1)) by (nonlinear_arith);
        }
        lemma_sum_scale(
            |j: int| x(i) * y(j) * nc_sign(i + j, t, n),
            |j: int| left_term(x, y, z, n, k, i, j, l, t),
            w,
            n,
        );
    }
    lemma_sum_scale(
        |i: int| conv_row(x, y, n, t, i),
        |i: int| left_j(x, y, z, n, k, i, l, t),
        w,
        n,
    );
    let p = conv(x, y, n, t);
    assert(p * z(l) * nc_sign(t + l, k, n) == w * p) by (nonlinear_arith)
        requires
            w == z(l) * nc_sign(t + l, k, n),
    ;
}

/// One term of `(x (y z))_k`, written out as a sum over `j` and `l`.
proof fn lemma_expand_right(
    x: spec_fn(int) -> int,
    y: spec_fn(int) -> int,
    z: spec_fn(int) -> int,
    n: int,
    k: int,
    i: int,
    s: int,
)
    ensures
        x(i) * conv(y, z, n, s) * nc_sign(i + s, k, n) == sum(
            |j: int| right_l(x, y, z, n, k, i, j, s),
            n,
        ),
{
    let w = x(i) * nc_sign(i + s, k, n);
    assert forall|j: int| 0 <= j < n implies #[trigger] right_l(x, y, z, n, k, i, j, s) == w
        * conv_row(y, z, n, s, j) by {
        assert forall|l: int| 0 <= l < n implies #[trigger] right_term(x, y, z, n, k, i, j, l, s) == w
            * (y(j) * z(l) * nc_sign(j + l, s, n)) by {
            let (a, b, c, s1, s2) = (x(i), y(j), z(l), nc_sign(j + l, s, n), nc_sign(i + s, k, n));
            assert(a * b * c * (s1 * s2) == a * s2 * (b * c * s1)) by (nonlinear_arith);
        }
        lemma_sum_scale(
            |l: int| y(j) * z(l) * nc_sign(j + l, s, n),
            |l: int| right_term(x, y, z, n, k, i, j, l, s),
            w,
            n,
        );
    }
    lemma_sum_scale(
        |j: int| conv_row(y, z, n, s, j),
        |j: int| right_l(x, y, z, n, k, i, j, s),
        w,
        n,
    );
    let p = conv(y, z, n, s);
    assert(x(i) * p * nc_sign(i + s, k, n) == w * p) by (nonlinear_arith)
        requires
            w == x(i) * nc_sign(i + s, k, n),
    ;
}

/// The term of index `(i, j, l)` of the product of three polynomials: `x(i) y(j) z(l)` with the
/// sign of x^(i+j+l) in x^k.
pub open spec fn canon_term(
    x: spec_fn(int) -> int,
    y: spec_fn(int) -> int,
    z: spec_fn(int) -> int,
    n: int,
    k: int,
    i: int,
    j: int,
    l: int,
) -> int {
    x(i) * y(j) * z(l) * nc_sign3(i + j + l, k, n)
}

/// `sum_l canon_term(i, j, l)`.
pub open spec fn canon_l(
    x: spec_fn(int) -> int,
    y: spec_fn(int) -> int,
    z: spec_fn(int) -> int,
    n: int,
    k: int,
    i: int,
    j: int,
) -> int {
    sum(|l: int| canon_term(x, y, z, n, k, i, j, l), n)
}

/// `sum_j sum_l canon_term(i, j, l)`.
pub open spec fn canon_jl(
    x: spec_fn(int) -> int,
    y: spec_fn(int) -> int,
    z: spec_fn(int) -> int,
    n: int,
    k: int,
    i: int,
) -> int {
    sum(|j: int| canon_l(x, y, z, n, k, i, j), n)
}

/// Coefficient `k` of the product of three polynomials, as a sum over index triples.
pub open spec fn triple_product(
    x: spec_fn(int) -> int,
    y: spec_fn(int) -> int,
    z: spec_fn(int) -> int,
    n: int,
    k: int,
) -> int {
    sum(|i: int| canon_jl(x, y, z, n, k, i), n)
}

/// `sum_t left_term(i, j, l, t)`.
pub open spec fn left_t(
    x: spec_fn(int) -> int,
    y: spec_fn(int) -> int,
    z: spec_fn(int) -> int,
    n: int,
    k: int,
    i: int,
    j: int,
    l: int,
) -> int {
    sum(|t: int| left_term(x, y, z, n, k, i, j, l, t), n)
}

/// `sum_t left_j(i, l, t)`.
pub open spec fn left_jt(
    x: spec_fn(int) -> int,
    y: spec_fn(int) -> int,
    z: spec_fn(int) -> int,
    n: int,
    k: int,
    i: int,
    l: int,
) -> int {
    sum(|t: int| left_j(x, y, z, n, k, i, l, t), n)
}

proof fn lemma_left_t(
    x: spec_fn(int) -> int,
    y: spec_fn(int) -> int,
    z: spec_fn(int) -> int,
    n: int,
    k: int,
    i: int,
    j: int,
    l: int,
)
    requires
        0 <= i < n,
        0 <= j < n,
        0 <= l < n,
        0 <= k < n,
    ensures
        left_t(x, y, z, n, k, i, j, l) == canon_term(x, y, z, n, k, i, j, l),
{
    lemma_left_sign(n, k, i, j, l);
    lemma_sum_scale(
        |t: int| nc_sign(i + j, t, n) * nc_sign(t + l, k, n),
        |t: int| left_term(x, y, z, n, k, i, j, l, t),
        x(i) * y(j) * z(l),
        n,
    );
}

/// `sum_l left_j(i, l, t)`.
pub open spec fn left_lj(
    x: spec_fn(int) -> int,
    y: spec_fn(int) -> int,
    z: spec_fn(int) -> int,
    n: int,
    k: int,
    i: int,
    t: int,
) -> int {
    sum(|l: int| left_j(x, y, z, n, k, i, l, t), n)
}

/// `sum_t left_lj(i, t)`.
pub open spec fn left_tlj(
    x: spec_fn(int) -> int,
    y: spec_fn(int) -> int,
    z: spec_fn(int) -> int,
    n: int,
    k: int,
    i: int,
) -> int {
    sum(|t: int| left_lj(x, y, z, n, k, i, t), n)
}

/// Step 1 of `lemma_left_is_triple`: one row `t` of `((x y) z)_k`.
proof fn lemma_left_row(x: spec_fn(int) -> int, y: spec_fn(int) -> int, z: spec_fn(int) -> int, n: int, k: int, t: int)
    requires
        n >= 0,
    ensures
        conv_row(|s: int| conv(x, y, n, s), z, n, k, t) == sum(|i: int| left_lj(x, y, z, n, k, i, t), n),
{
    let p = |s: int| conv(x, y, n, s);
    let a1 = |j: int| p(t) * z(j) * nc_sign(t + j, k, n);
    let a2 = |l: int| sum(|i: int| left_j(x, y, z, n, k, i, l, t), n);
    assert(a1 =~= a2) by {
        assert forall|l: int| #[trigger] a1(l) == a2(l) by {
            lemma_expand_left(x, y, z, n, k, t, l);
        }
    }
    let f = |l: int, i: int| left_j(x, y, z, n, k, i, l, t);
    lemma_sum_swap(f, n, n);
    let b1 = |a: int| sum(|b: int| f(a, b), n);
    assert(a2 =~= b1) by {
        assert forall|l: int| #[trigger] a2(l) == b1(l) by {
            assert((|i: int| left_j(x, y, z, n, k, i, l, t)) =~= (|b: int| f(l, b)));
        }
    }
    let c1 = |b: int| sum(|a: int| f(a, b), n);
    let c2 = |i: int| left_lj(x, y, z, n, k, i, t);
    assert(c1 =~= c2) by {
        assert forall|i: int| #[trigger] c1(i) == c2(i) by {
            assert((|a: int| f(a, i)) =~= (|l: int| left_j(x, y, z, n, k, i, l, t)));
        }
    }
}

proof fn lemma_left_jt(x: spec_fn(int) -> int, y: spec_fn(int) -> int, z: spec_fn(int) -> int, n: int, k: int, i: int, l: int)
    requires
        0 <= i < n,
        0 <= l < n,
        0 <= k < n,
    ensures
        left_jt(x, y, z, n, k, i, l) == sum(|j: int| canon_term(x, y, z, n, k, i, j, l), n),
{
    let f = |t: int, j: int| left_term(x, y, z, n, k, i, j, l, t);
    lemma_sum_swap(f, n, n);
    let a1 = |t: int| left_j(x, y, z, n, k, i, l, t);
    let a2 = |a: int| sum(|b: int| f(a, b), n);
    assert(a1 =~= a2) by {
        assert forall|t: int| #[trigger] a1(t) == a2(t) by {
            assert((|j: int| left_term(x, y, z, n, k, i, j, l, t)) =~= (|b: int| f(t, b)));
        }
    }
    let b1 = |b: int| sum(|a: int| f(a, b), n);
    let b2 = |j: int| canon_term(x, y, z, n, k, i, j, l);
    assert forall|j: int| 0 <= j < n implies #[trigger] b1(j) == b2(j) by {
        assert((|a: int| f(a, j)) =~= (|t: int| left_term(x, y, z, n, k, i, j, l, t)));
        lemma_left_t(x, y, z, n, k, i, j, l);
    }
    lemma_sum_ext(b1, b2, n);
}

proof fn lemma_left_tlj(x: spec_fn(int) -> int, y: spec_fn(int) -> int, z: spec_fn(int) -> int, n: int, k: int, i: int)
    requires
        0 <= i < n,
        0 <= k < n,
    ensures
        left_tlj(x, y, z, n, k, i) == canon_jl(x, y, z, n, k, i),
{
    let f = |t: int, l: int| left_j(x, y, z, n, k, i, l, t);
    lemma_sum_swap(f, n, n);
    let a1 = |t: int| left_lj(x, y, z, n, k, i, t);
    let a2 = |a: int| sum(|b: int| f(a, b), n);
    assert(a1 =~= a2) by {
        assert forall|t: int| #[trigger] a1(t) == a2(t) by {
            assert((|l: int| left_j(x, y, z, n, k, i, l, t)) =~= (|b: int| f(t, b)));
        }
    }
    let b1 = |b: int| sum(|a: int| f(a, b), n);
    let b2 = |l: int| sum(|j: int| canon_term(x, y, z, n, k, i, j, l), n);
    assert forall|l: int| 0 <= l < n implies #[trigger] b1(l) == b2(l) by {
        assert((|a: int| f(a, l)) =~= (|t: int| left_j(x, y, z, n, k, i, l, t)));
        lemma_left_jt(x, y, z, n, k, i, l);
    }
    lemma_sum_ext(b1, b2, n);
    let g = |l: int, j: int| canon_term(x, y, z, n, k, i, j, l);
    lemma_sum_swap(g, n, n);
    let c2 = |a: int| sum(|b: int| g(a, b), n);
    assert(b2 =~= c2) by {
        assert forall|l: int| #[trigger] b2(l) == c2(l) by {
            assert((|j: int| canon_term(x, y, z, n, k, i, j, l)) =~= (|b: int| g(l, b)));
        }
    }
    let d1 = |b: int| sum(|a: int| g(a, b), n);
    let d2 = |j: int| canon_l(x, y, z, n, k, i, j);
    assert(d1 =~= d2) by {
        assert forall|j: int| #[trigger] d1(j) == d2(j) by {
            assert((|a: int| g(a, j)) =~= (|l: int| canon_term(x, y, z, n, k, i, j, l)));
        }
    }
}

/// `((x y) z)_k`, summed over all index triples.
proof fn lemma_left_is_triple(x: spec_fn(int) -> int, y: spec_fn(int) -> int, z: spec_fn(int) -> int, n: int, k: int)
    requires
        0 <= k < n,
    ensures
        conv(|s: int| conv(x, y, n, s), z, n, k) == triple_product(x, y, z, n, k),
{
    let p = |s: int| conv(x, y, n, s);
    let a1 = |t: int| conv_row(p, z, n, k, t);
    let a2 = |t: int| sum(|i: int| left_lj(x, y, z, n, k, i, t), n);
    assert(a1 =~= a2) by {
        assert forall|t: int| #[trigger] a1(t) == a2(t) by {
            lemma_left_row(x, y, z, n, k, t);
        }
    }
    let f = |t: int, i: int| left_lj(x, y, z, n, k, i, t);
    lemma_sum_swap(f, n, n);
    let b1 = |a: int| sum(|b: int| f(a, b), n);
    assert(a2 =~= b1) by {
        assert forall|t: int| #[trigger] a2(t) == b1(t) by {
            assert((|i: int| left_lj(x, y, z, n, k, i, t)) =~= (|b: int| f(t, b)));
        }
    }
    let c1 = |b: int| sum(|a: int| f(a, b), n);
    let c2 = |i: int| canon_jl(x, y, z, n, k, i);
    assert forall|i: int| 0 <= i < n implies #[trigger] c1(i) == c2(i) by {
        assert((|a: int| f(a, i)) =~= (|t: int| left_lj(x, y, z, n, k, i, t)));
        lemma_left_tlj(x, y, z, n, k, i);
    }
    lemma_sum_ext(c1, c2, n);
}

/// `sum_s right_l(i, j, s)`.
pub open spec fn right_sl(
    x: spec_fn(int) -> int,
    y: spec_fn(int) -> int,
    z: spec_fn(int) -> int,
    n: int,
    k: int,
    i: int,
    j: int,
) -> int {
    sum(|s: int| right_l(x, y, z, n, k, i, j, s), n)
}

proof fn lemma_right_s(
    x: spec_fn(int) -> int,
    y: spec_fn(int) -> int,
    z: spec_fn(int) -> int,
    n: int,
    k: int,
    i: int,
    j: int,
    l: int,
)
    requires
        0 <= i < n,
        0 <= j < n,
        0 <= l < n,
        0 <= k < n,
    ensures
        sum(|s: int| right_term(x, y, z, n, k, i, j, l, s), n) == canon_term(x, y, z, n, k, i, j, l),
{
    lemma_right_sign(n, k, i, j, l);
    lemma_sum_scale(
        |s: int| nc_sign(j + l, s, n) * nc_sign(i + s, k, n),
        |s: int| right_term(x, y, z, n, k, i, j, l, s),
        x(i) * y(j) * z(l),
        n,
    );
}

proof fn lemma_right_sl(x: spec_fn(int) -> int, y: spec_fn(int) -> int, z: spec_fn(int) -> int, n: int, k: int, i: int, j: int)
    requires
        0 <= i < n,
        0 <= j < n,
        0 <= k < n,
    ensures
        right_sl(x, y, z, n, k, i, j) == canon_l(x, y, z, n, k, i, j),
{
    let f = |s: int, l: int| right_term(x, y, z, n, k, i, j, l, s);
    lemma_sum_swap(f, n, n);
    let a1 = |s: int| right_l(x, y, z, n, k, i, j, s);
    let a2 = |a: int| sum(|b: int| f(a, b), n);
    assert(a1 =~= a2) by {
        assert forall|s: int| #[trigger] a1(s) == a2(s) by {
            assert((|l: int| right_term(x, y, z, n, k, i, j, l, s)) =~= (|b: int| f(s, b)));
        }
    }
    let b1 = |b: int| sum(|a: int| f(a, b), n);
    let b2 = |l: int| canon_term(x, y, z, n, k, i, j, l);
    assert forall|l: int| 0 <= l < n implies #[trigger] b1(l) == b2(l) by {
        assert((|a: int| f(a, l)) =~= (|s: int| right_term(x, y, z, n, k, i, j, l, s)));
        lemma_right_s(x, y, z, n, k, i, j, l);
    }
    lemma_sum_ext(b1, b2, n);
}

/// One row `i` of `(x (y z))_k`.
proof fn lemma_right_row(x: spec_fn(int) -> int, y: spec_fn(int) -> int, z: spec_fn(int) -> int, n: int, k: int, i: int)
    requires
        0 <= i < n,
        0 <= k < n,
    ensures
        conv_row(x, |s: int| conv(y, z, n, s), n, k, i) == canon_jl(x, y, z, n, k, i),
{
    let p = |s: int| conv(y, z, n, s);
    let a1 = |j: int| x(i) * p(j) * nc_sign(i + j, k, n);
    let a2 = |s: int| sum(|j: int| right_l(x, y, z, n, k, i, j, s), n);
    assert(a1 =~= a2) by {
        assert forall|s: int| #[trigger] a1(s) == a2(s) by {
            lemma_expand_right(x, y, z, n, k, i, s);
        }
    }
    let f = |s: int, j: int| right_l(x, y, z, n, k, i, j, s);
    lemma_sum_swap(f, n, n);
    let b1 = |a: int| sum(|b: int| f(a, b), n);
    assert(a2 =~= b1) by {
        assert forall|s: int| #[trigger] a2(s) == b1(s) by {
            assert((|j: int| right_l(x, y, z, n, k, i, j, s)) =~= (|b: int| f(s, b)));
        }
    }
    let c1 = |b: int| sum(|a: int| f(a, b), n);
    let c2 = |j: int| canon_l(x, y, z, n, k, i, j);
    assert forall|j: int| 0 <= j < n implies #[trigger] c1(j) == c2(j) by {
        assert((|a: int| f(a, j)) =~= (|s: int| right_l(x, y, z, n, k, i, j, s)));
        lemma_right_sl(x, y, z, n, k, i, j);
    }
    lemma_sum_ext(c1, c2, n);
}

/// `(x (y z))_k`, summed over all index triples.
proof fn lemma_right_is_triple(x: spec_fn(int) -> int, y: spec_fn(int) -> int, z: spec_fn(int) -> int, n: int, k: int)
    requires
        0 <= k < n,
    ensures
        conv(x, |s: int| conv(y, z, n, s), n, k) == triple_product(x, y, z, n, k),
{
    let p = |s: int| conv(y, z, n, s);
    let a1 = |i: int| conv_row(x, p, n, k, i);
    let a2 = |i: int| canon_jl(x, y, z, n, k, i);
    assert forall|i: int| 0 <= i < n implies #[trigger] a1(i) == a2(i) by {
        lemma_right_row(x, y, z, n, k, i);
    }
    lemma_sum_ext(a1, a2, n);
}

/// Multiplication in Z[x]/(x^n+1) is associative, coefficient by coefficient.
proof fn lemma_conv_assoc(x: spec_fn(int) -> int, y: spec_fn(int) -> int, z: spec_fn(int) -> int, n: int, k: int)
    requires
        0 <= k < n,
    ensures
        conv(|s: int| conv(x, y, n, s), z, n, k) == conv(x, |s: int| conv(y, z, n, s), n, k),
{
    lemma_left_is_triple(x, y, z, n, k);
    lemma_right_is_triple(x, y, z, n, k);
}

/// The residues of a sequence of elements of Z_q, as integers.
pub open spec fn residues<T: ZqLimb>(a: Seq<Zq<T>>) -> spec_fn(int) -> int {
    |i: int| a[i].val_nat() as int
}

proof fn lemma_nc_row_is_conv_row<T: ZqLimb>(a: Seq<Zq<T>>, b: Seq<Zq<T>>, i: int, jn: int, k: int)
    requires
        jn >= 0,
    ensures
        nc_row(a, b, i, jn, k) == sum(
            |j: int| residues(a)(i) * residues(b)(j) * nc_sign(i + j, k, a.len() as int),
            jn,
        ),
    decreases jn,
{
    if jn > 0 {
        lemma_nc_row_is_conv_row(a, b, i, jn - 1, k);
        let j = jn - 1;
        let p = residues(a)(i) * residues(b)(j);
        assert(p * 1 == p && p * -1 == -p && p * 0 == 0) by (nonlinear_arith);
    }
}

proof fn lemma_nc_rows_is_conv<T: ZqLimb>(a: Seq<Zq<T>>, b: Seq<Zq<T>>, im: int, k: int)
    requires
        im >= 0,
    ensures
        nc_rows(a, b, im, k) == sum(
            |i: int| conv_row(residues(a), residues(b), a.len() as int, k, i),
            im,
        ),
    decreases im,
{
    if im > 0 {
        lemma_nc_rows_is_conv(a, b, im - 1, k);
        lemma_nc_row_is_conv_row(a, b, im - 1, a.len() as int, k);
    }
}

/// The negacyclic coefficient of two sequences is the product of their residue polynomials.
proof fn lemma_negacyclic_is_conv<T: ZqLimb>(a: Seq<Zq<T>>, b: Seq<Zq<T>>, k: int)
    ensures
        negacyclic_coeff(a, b, k) == conv(residues(a), residues(b), a.len() as int, k),
{
    lemma_nc_rows_is_conv(a, b, a.len() as int, k);
}

/// Replacing the left factor by a congruent one modulo q keeps the product's coefficient modulo q.
proof fn lemma_conv_congruent_left(
    x: spec_fn(int) -> int,
    x2: spec_fn(int) -> int,
    y: spec_fn(int) -> int,
    n: int,
    k: int,
    q: int,
)
    requires
        q > 0,
        forall|i: int| 0 <= i < n ==> #[trigger] x(i) % q == x2(i) % q,
    ensures
        conv(x, y, n, k) % q == conv(x2, y, n, k) % q,
{
    assert forall|i: int| 0 <= i < n implies #[trigger] conv_row(x, y, n, k, i) % q == conv_row(x2, y, n, k, i) % q by {
        assert forall|j: int| 0 <= j < n implies #[trigger] (x(i) * y(j) * nc_sign(i + j, k, n)) % q == (
        x2(i) * y(j) * nc_sign(i + j, k, n)) % q by {
            lemma_mul_mod_noop_left(x(i), y(j), q);
            lemma_mul_mod_noop_left(x2(i), y(j), q);
            lemma_mul_mod_noop_left(x(i) * y(j), nc_sign(i + j, k, n), q);
            lemma_mul_mod_noop_left(x2(i) * y(j), nc_sign(i + j, k, n), q);
        }
        lemma_sum_congruent(
            |j: int| x(i) * y(j) * nc_sign(i + j, k, n),
            |j: int| x2(i) * y(j) * nc_sign(i + j, k, n),
            n,
            q,
        );
    }
    lemma_sum_congruent(|i: int| conv_row(x, y, n, k, i), |i: int| conv_row(x2, y, n, k, i), n, q);
}

/// Replacing the right factor by a congruent one modulo q keeps the product's coefficient modulo q.
proof fn lemma_conv_congruent_right(
    x: spec_fn(int) -> int,
    y: spec_fn(int) -> int,
    y2: spec_fn(int) -> int,
    n: int,
    k: int,
    q: int,
)
    requires
        q > 0,
        forall|j: int| 0 <= j < n ==> #[trigger] y(j) % q == y2(j) % q,
    ensures
        conv(x, y, n, k) % q == conv(x, y2, n, k) % q,
{
    assert forall|i: int| 0 <= i < n implies #[trigger] conv_row(x, y, n, k, i) % q == conv_row(x, y2, n, k, i) % q by {
        assert forall|j: int| 0 <= j < n implies #[trigger] (x(i) * y(j) * nc_sign(i + j, k, n)) % q == (
        x(i) * y2(j) * nc_sign(i + j, k, n)) % q by {
            lemma_mul_mod_noop_right(x(i), y(j), q);
            lemma_mul_mod_noop_right(x(i), y2(j), q);
            lemma_mul_mod_noop_left(x(i) * y(j), nc_sign(i + j, k, n), q);
            lemma_mul_mod_noop_left(x(i) * y2(j), nc_sign(i + j, k, n), q);
        }
        lemma_sum_congruent(
            |j: int| x(i) * y(j) * nc_sign(i + j, k, n),
            |j: int| x(i) * y2(j) * nc_sign(i + j, k, n),
            n,
            q,
        );
    }
    lemma_sum_congruent(|i: int| conv_row(x, y, n, k, i), |i: int| conv_row(x, y2, n, k, i), n, q);
}

/// Multiplication in Z_q[x]/(x^n+1) is associative: if `ab` has the coefficients that `a.mul(&b)`
/// returns and `bc` those that `b.mul(&c)` returns (the negacyclic coefficients reduced modulo q),
/// then coefficient `k` of `ab * c` and of `a * bc` agree modulo q, so `ab.mul(&c)` and
/// `a.mul(&bc)` have the same coefficients.
pub proof fn law_mul_associative<T: ZqLimb>(
    a: Seq<Zq<T>>,
    b: Seq<Zq<T>>,
    c: Seq<Zq<T>>,
    ab: Seq<Zq<T>>,
    bc: Seq<Zq<T>>,
    q: nat,
    k: int,
)
    requires
        q > 0,
        b.len() == a.len(),
        c.len() == a.len(),
        ab.len() == a.len(),
        bc.len() == a.len(),
        0 <= k < a.len(),
        forall|t: int| 0 <= t < a.len() ==> (#[trigger] ab[t]).val_nat() == negacyclic_coeff(a, b, t) % (q as int),
        forall|t: int| 0 <= t < a.len() ==> (#[trigger] bc[t]).val_nat() == negacyclic_coeff(b, c, t) % (q as int),
    ensures
        negacyclic_coeff(ab, c, k) % (q as int) == negacyclic_coeff(a, bc, k) % (q as int),
{
    let n = a.len() as int;
    let qi = q as int;
    let (xa, xb, xc) = (residues(a), residues(b), residues(c));
    let p = |s: int| conv(xa, xb, n, s);
    let r = |s: int| conv(xb, xc, n, s);
    assert forall|t: int| 0 <= t < n implies #[trigger] residues(ab)(t) % qi == p(t) % qi by {
        lemma_negacyclic_is_conv(a, b, t);
        lemma_mod_twice(p(t), qi);
    }
    assert forall|t: int| 0 <= t < n implies #[trigger] residues(bc)(t) % qi == r(t) % qi by {
        lemma_negacyclic_is_conv(b, c, t);
        lemma_mod_twice(r(t), qi);
    }
    lemma_negacyclic_is_conv(ab, c, k);
    lemma_negacyclic_is_conv(a, bc, k);
    lemma_conv_congruent_left(residues(ab), p, xc, n, k, qi);
    lemma_conv_congruent_right(xa, residues(bc), r, n, k, qi);
    lemma_conv_assoc(xa, xb, xc, n, k);
}

} // verus!
