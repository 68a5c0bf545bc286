//! Polynomials with coefficients in GF(2^8).
use vstd::prelude::*;
use crate::finite_field::Field256;
use crate::matrix::copy_bytes;
use crate::gf::{
    gf_add, gf_div, gf_inv, gf_mul, gf_pow, lemma_inverse, lemma_mul_associative,
    lemma_mul_commutative, lemma_mul_distributes, lemma_mul_identities, lemma_xor,
};

verus! {

/// `s` without its trailing zero coefficients.
pub open spec fn trim(s: Seq<u8>) -> Seq<u8>
    decreases s.len(),
{
    if s.len() > 0 && s.last() == 0 {
        trim(s.drop_last())
    } else {
        s
    }
}

/// A coefficient sequence in canonical form: empty, or with a non-zero last coefficient.
pub open spec fn is_trimmed(s: Seq<u8>) -> bool {
    s.len() == 0 || s.last() != 0
}

/// Coefficient `i`, zero beyond the end.
pub open spec fn coef(s: Seq<u8>, i: int) -> u8 {
    if 0 <= i < s.len() {
        s[i]
    } else {
        0
    }
}

/// `sum c_i * x^i` over the coefficients.
pub open spec fn poly_eval(s: Seq<u8>, x: u8) -> u8
    decreases s.len(),
{
    if s.len() == 0 {
        0
    } else {
        gf_add(poly_eval(s.drop_last(), x), gf_mul(gf_pow(x, (s.len() - 1) as nat), s.last()))
    }
}

/// The sum of two polynomials.
pub open spec fn poly_add(a: Seq<u8>, b: Seq<u8>) -> Seq<u8> {
    let n = if a.len() >= b.len() {
        a.len()
    } else {
        b.len()
    };
    trim(Seq::new(n, |i: int| gf_add(coef(a, i), coef(b, i))))
}

/// `sum_{i < n} a_i * b_{k - i}`: the part of coefficient `k` of `a * b` from the first `n`
/// coefficients of `a`.
pub open spec fn conv(a: Seq<u8>, b: Seq<u8>, k: int, n: nat) -> u8
    decreases n,
{
    if n == 0 {
        0
    } else {
        gf_add(conv(a, b, k, (n - 1) as nat), gf_mul(coef(a, n - 1), coef(b, k - (n - 1))))
    }
}

/// The product of two polynomials; zero when either factor is.
pub open spec fn poly_mul(a: Seq<u8>, b: Seq<u8>) -> Seq<u8> {
    if a.len() == 0 || b.len() == 0 {
        Seq::empty()
    } else {
        trim(Seq::new((a.len() + b.len() - 1) as nat, |k: int| conv(a, b, k, a.len())))
    }
}

/// The factor `(x - xj) / (xi - xj)` as coefficients `[xj / d, 1 / d]` with `d = xi - xj`.
pub open spec fn lagrange_factor(xi: u8, xj: u8) -> Seq<u8> {
    let d = gf_add(xi, xj);
    trim(seq![gf_div(xj, d), gf_inv(d)])
}

/// `yi * prod_{j < n, xj != xi} (x - xj) / (xi - xj)` over the first `n` points.
pub open spec fn lagrange_term(points: Seq<(u8, u8)>, xi: u8, yi: u8, n: nat) -> Seq<u8>
    decreases n,
{
    if n == 0 {
        trim(seq![yi])
    } else {
        let prev = lagrange_term(points, xi, yi, (n - 1) as nat);
        let xj = points[n - 1].0;
        if xj != xi {
            poly_mul(prev, lagrange_factor(xi, xj))
        } else {
            prev
        }
    }
}

/// The basis term of the point `p` over all of `points`; zero when there are no points.
pub open spec fn single_term_poly(points: Seq<(u8, u8)>, p: (u8, u8)) -> Seq<u8> {
    if points.len() == 0 {
        Seq::empty()
    } else {
        lagrange_term(points, p.0, p.1, points.len())
    }
}

/// The sum of the basis terms of the first `n` points.
pub open spec fn lagrange_sum(points: Seq<(u8, u8)>, n: nat) -> Seq<u8>
    decreases n,
{
    if n == 0 {
        Seq::empty()
    } else {
        poly_add(lagrange_sum(points, (n - 1) as nat), single_term_poly(points, points[n - 1]))
    }
}

/// The Lagrange interpolation polynomial through `points`.
pub open spec fn lagrange(points: Seq<(u8, u8)>) -> Seq<u8> {
    lagrange_sum(points, points.len())
}

/// The points `(i, ys[i])`.
pub open spec fn indexed_points(ys: Seq<u8>) -> Seq<(u8, u8)> {
    Seq::new(ys.len(), |i: int| (i as u8, ys[i]))
}

pub proof fn lemma_trim(s: Seq<u8>)
    ensures
        is_trimmed(trim(s)),
        trim(s).len() <= s.len(),
        forall|i: int| 0 <= i < trim(s).len() ==> #[trigger] trim(s)[i] == s[i],
        forall|i: int| trim(s).len() <= i < s.len() ==> #[trigger] s[i] == 0,
        is_trimmed(s) ==> trim(s) == s,
    decreases s.len(),
{
    if s.len() > 0 && s.last() == 0 {
        lemma_trim(s.drop_last());
        assert forall|i: int| trim(s).len() <= i < s.len() implies #[trigger] s[i] == 0 by {
            if i < s.len() - 1 {
                assert(s.drop_last()[i] == s[i]);
            }
        }
    }
}

// ---------------------------------------------------------------------------------------------
// Evaluation is a ring homomorphism, and Lagrange interpolation passes through its points.
/// `sum_{i < n} x^i * coef(s, i)`.
pub open spec fn eval_upto(s: Seq<u8>, x: u8, n: nat) -> u8
    decreases n,
{
    if n == 0 {
        0
    } else {
        gf_add(eval_upto(s, x, (n - 1) as nat), gf_mul(gf_pow(x, (n - 1) as nat), coef(s, n - 1)))
    }
}

proof fn lemma_eval_upto_agree(s1: Seq<u8>, s2: Seq<u8>, x: u8, n: nat)
    requires
        forall|i: int| 0 <= i < n ==> #[trigger] coef(s1, i) == coef(s2, i),
    ensures
        eval_upto(s1, x, n) == eval_upto(s2, x, n),
    decreases n,
{
    if n > 0 {
        lemma_eval_upto_agree(s1, s2, x, (n - 1) as nat);
    }
}

proof fn lemma_eval_upto_zero(s: Seq<u8>, x: u8, n: nat)
    requires
        forall|i: int| 0 <= i < n ==> #[trigger] coef(s, i) == 0,
    ensures
        eval_upto(s, x, n) == 0,
    decreases n,
{
    if n > 0 {
        lemma_eval_upto_zero(s, x, (n - 1) as nat);
        lemma_mul_identities(gf_pow(x, (n - 1) as nat));
        lemma_xor(0, 0, 0);
    }
}

/// Terms beyond the last coefficient add nothing.
pub proof fn lemma_eval_upto_extend(s: Seq<u8>, x: u8, n: nat)
    requires
        n >= s.len(),
    ensures
        eval_upto(s, x, n) == eval_upto(s, x, s.len()),
    decreases n,
{
    if n > s.len() {
        lemma_eval_upto_extend(s, x, (n - 1) as nat);
        lemma_mul_identities(gf_pow(x, (n - 1) as nat));
        lemma_xor(eval_upto(s, x, (n - 1) as nat), 0, 0);
    }
}

/// `poly_eval` sums every coefficient.
pub proof fn lemma_poly_eval_upto(s: Seq<u8>, x: u8)
    ensures
        poly_eval(s, x) == eval_upto(s, x, s.len()),
    decreases s.len(),
{
    if s.len() > 0 {
        let t = s.drop_last();
        lemma_poly_eval_upto(t, x);
        lemma_eval_upto_agree(t, s, x, t.len());
    }
}

/// Trailing zeros do not change the value.
pub proof fn lemma_eval_trim(s: Seq<u8>, x: u8)
    ensures
        poly_eval(trim(s), x) == poly_eval(s, x),
{
    lemma_trim(s);
    lemma_poly_eval_upto(s, x);
    lemma_poly_eval_upto(trim(s), x);
    lemma_eval_upto_agree(trim(s), s, x, s.len());
    lemma_eval_upto_extend(trim(s), x, s.len());
}

proof fn lemma_eval_upto_add(a: Seq<u8>, b: Seq<u8>, c: Seq<u8>, x: u8, n: nat)
    requires
        forall|i: int| 0 <= i < n ==> #[trigger] coef(c, i) == gf_add(coef(a, i), coef(b, i)),
    ensures
        eval_upto(c, x, n) == gf_add(eval_upto(a, x, n), eval_upto(b, x, n)),
    decreases n,
{
    if n > 0 {
        let m = (n - 1) as nat;
        lemma_eval_upto_add(a, b, c, x, m);
        let p = gf_pow(x, m);
        lemma_mul_distributes(p, coef(a, m as int), coef(b, m as int));
        let (u, v, w, z) = (eval_upto(a, x, m), eval_upto(b, x, m), gf_mul(p, coef(a, m as int)), gf_mul(p, coef(b, m as int)));
        assert((u ^ v) ^ (w ^ z) == (u ^ w) ^ (v ^ z)) by (bit_vector);
    } else {
        lemma_xor(0, 0, 0);
    }
}

/// Evaluation turns a sum of polynomials into a sum of values.
#[verifier::rlimit(100)]
pub proof fn lemma_eval_add(a: Seq<u8>, b: Seq<u8>, x: u8)
    ensures
        poly_eval(poly_add(a, b), x) == gf_add(poly_eval(a, x), poly_eval(b, x)),
{
    let n = if a.len() >= b.len() { a.len() } else { b.len() };
    let c = Seq::new(n, |i: int| gf_add(coef(a, i), coef(b, i)));
    lemma_eval_trim(c, x);
    lemma_poly_eval_upto(c, x);
    assert forall|i: int| 0 <= i < n implies #[trigger] coef(c, i) == gf_add(coef(a, i), coef(b, i)) by {}
    lemma_eval_upto_add(a, b, c, x, n);
    lemma_poly_eval_upto(a, x);
    lemma_poly_eval_upto(b, x);
    lemma_eval_upto_extend(a, x, n);
    lemma_eval_upto_extend(b, x, n);
}

/// Powers add exponents.
pub proof fn lemma_pow_add(x: u8, a: nat, b: nat)
    ensures
        gf_pow(x, a + b) == gf_mul(gf_pow(x, a), gf_pow(x, b)),
    decreases b,
{
    if b == 0 {
        lemma_mul_identities(gf_pow(x, a));
    } else {
        lemma_pow_add(x, a, (b - 1) as nat);
        lemma_mul_associative(gf_pow(x, a), gf_pow(x, (b - 1) as nat), x);
        assert(gf_pow(x, a + b) == gf_mul(gf_pow(x, (a + b - 1) as nat), x));
    }
}

/// A shifted, scaled copy of `b`: `sum_k x^k * alpha * b_{k - s}` is `alpha * x^s * b(x)`.
#[verifier::rlimit(100)]
proof fn lemma_eval_upto_shift(c: Seq<u8>, b: Seq<u8>, alpha: u8, x: u8, sh: nat, n: nat)
    requires
        n >= sh,
        forall|k: int| 0 <= k < n ==> #[trigger] coef(c, k) == gf_mul(alpha, coef(b, k - sh)),
    ensures
        eval_upto(c, x, n) == gf_mul(alpha, gf_mul(gf_pow(x, sh), eval_upto(b, x, (n - sh) as nat))),
    decreases n,
{
    if n == sh {
        assert forall|k: int| 0 <= k < n implies #[trigger] coef(c, k) == 0 by {
            lemma_mul_identities(alpha);
        }
        lemma_eval_upto_zero(c, x, n);
        lemma_mul_identities(gf_pow(x, sh));
        lemma_mul_identities(alpha);
    } else {
        let m = (n - 1) as nat;
        lemma_eval_upto_shift(c, b, alpha, x, sh, m);
        let j = (m - sh) as nat;
        let bj = coef(b, j as int);
        let ps = gf_pow(x, sh);
        let pj = gf_pow(x, j);
        let e = eval_upto(b, x, j);
        lemma_pow_add(x, sh, j);
        assert(sh + j == m);
        // x^m * (alpha * bj) == alpha * (x^sh * (x^j * bj))
        lemma_mul_associative(ps, pj, bj);
        lemma_mul_associative(gf_pow(x, m), alpha, bj);
        lemma_mul_commutative(gf_pow(x, m), alpha);
        lemma_mul_associative(alpha, gf_pow(x, m), bj);
        lemma_mul_distributes(ps, e, gf_mul(pj, bj));
        lemma_mul_distributes(alpha, gf_mul(ps, e), gf_mul(ps, gf_mul(pj, bj)));
        assert(eval_upto(b, x, (j + 1) as nat) == gf_add(e, gf_mul(pj, bj)));
        assert((n - sh) as nat == (j + 1) as nat);
    }
}

/// The coefficients of the product using the first `n` coefficients of `a`.
pub open spec fn partial_product(a: Seq<u8>, b: Seq<u8>, n: nat, len: nat) -> Seq<u8> {
    Seq::new(len, |k: int| conv(a, b, k, n))
}

#[verifier::rlimit(100)]
proof fn lemma_eval_partial_product(a: Seq<u8>, b: Seq<u8>, x: u8, n: nat, len: nat)
    requires
        n <= a.len(),
        len + 1 >= n + b.len(),
    ensures
        eval_upto(partial_product(a, b, n, len), x, len) == gf_mul(
            eval_upto(a, x, n),
            eval_upto(b, x, b.len()),
        ),
    decreases n,
{
    let eb = eval_upto(b, x, b.len());
    if n == 0 {
        lemma_eval_upto_zero(partial_product(a, b, n, len), x, len);
        lemma_mul_identities(eb);
    } else {
        let m = (n - 1) as nat;
        lemma_eval_partial_product(a, b, x, m, len);
        let am = coef(a, m as int);
        let prev = partial_product(a, b, m, len);
        let cur = partial_product(a, b, n, len);
        let term = Seq::new(len, |k: int| gf_mul(am, coef(b, k - m)));
        assert forall|k: int| 0 <= k < len implies #[trigger] coef(cur, k) == gf_add(coef(prev, k), coef(term, k)) by {}
        lemma_eval_upto_add(prev, term, cur, x, len);
        assert forall|k: int| 0 <= k < len implies #[trigger] coef(term, k) == gf_mul(am, coef(b, k - m)) by {}
        lemma_eval_upto_shift(term, b, am, x, m, len);
        lemma_eval_upto_extend(b, x, (len - m) as nat);
        let pm = gf_pow(x, m);
        let ea = eval_upto(a, x, m);
        // am * (x^m * eb) == (x^m * am) * eb
        lemma_mul_associative(am, pm, eb);
        lemma_mul_commutative(am, pm);
        lemma_mul_distributes(eb, ea, gf_mul(pm, am));
        lemma_mul_commutative(eb, ea);
        lemma_mul_commutative(eb, gf_mul(pm, am));
        lemma_mul_commutative(eb, gf_add(ea, gf_mul(pm, am)));
    }
}

/// Evaluation turns a product of polynomials into a product of values.
#[verifier::rlimit(100)]
pub proof fn lemma_eval_mul(a: Seq<u8>, b: Seq<u8>, x: u8)
    ensures
        poly_eval(poly_mul(a, b), x) == gf_mul(poly_eval(a, x), poly_eval(b, x)),
{
    lemma_poly_eval_upto(a, x);
    lemma_poly_eval_upto(b, x);
    if a.len() == 0 || b.len() == 0 {
        lemma_mul_identities(poly_eval(a, x));
        lemma_mul_identities(poly_eval(b, x));
    } else {
        let len = (a.len() + b.len() - 1) as nat;
        let c = partial_product(a, b, a.len(), len);
        assert(c == Seq::new(len, |k: int| conv(a, b, k, a.len())));
        lemma_eval_trim(c, x);
        lemma_poly_eval_upto(c, x);
        lemma_eval_partial_product(a, b, x, a.len(), len);
    }
}

/// The value of the factor `(x - xj) / (xi - xj)`.
#[verifier::rlimit(100)]
pub proof fn lemma_eval_factor(xi: u8, xj: u8, x: u8)
    requires
        xi != xj,
    ensures
        poly_eval(lagrange_factor(xi, xj), x) == gf_mul(gf_add(xj, x), gf_inv(gf_add(xi, xj))),
{
    let d = gf_add(xi, xj);
    let v0 = gf_div(xj, d);
    let v1 = gf_inv(d);
    let s = seq![v0, v1];
    let s1 = seq![v0];
    lemma_eval_trim(s, x);
    assert(s.len() == 2 && s.last() == v1);
    assert(s.drop_last() =~= s1);
    assert(s1.len() == 1 && s1.last() == v0);
    assert(s1.drop_last() =~= Seq::<u8>::empty());
    assert(poly_eval(s1, x) == gf_add(poly_eval(Seq::<u8>::empty(), x), gf_mul(gf_pow(x, 0), v0)));
    assert(poly_eval(s, x) == gf_add(poly_eval(s1, x), gf_mul(gf_pow(x, 1), v1)));
    assert(gf_pow(x, 1) == gf_mul(gf_pow(x, 0), x));
    lemma_mul_identities(x);
    lemma_mul_identities(v0);
    lemma_xor(v0, 0, 0);
    lemma_mul_commutative(x, v1);
    lemma_mul_commutative(xj, v1);
    lemma_mul_distributes(v1, xj, x);
    lemma_mul_commutative(v1, gf_add(xj, x));
}

/// A basis term is `yi` at its own point.
#[verifier::rlimit(100)]
pub proof fn lemma_eval_term_own(points: Seq<(u8, u8)>, xi: u8, yi: u8, n: nat)
    requires
        n <= points.len(),
    ensures
        poly_eval(lagrange_term(points, xi, yi, n), xi) == yi,
    decreases n,
{
    if n == 0 {
        let s = seq![yi];
        lemma_eval_trim(s, xi);
        assert(s.len() == 1 && s.last() == yi);
        assert(s.drop_last() =~= Seq::<u8>::empty());
        assert(poly_eval(s, xi) == gf_add(poly_eval(Seq::<u8>::empty(), xi), gf_mul(gf_pow(xi, 0), yi)));
        lemma_mul_identities(yi);
        lemma_xor(yi, 0, 0);
    } else {
        let m = (n - 1) as nat;
        lemma_eval_term_own(points, xi, yi, m);
        let prev = lagrange_term(points, xi, yi, m);
        let xj = points[m as int].0;
        if xj != xi {
            let f = lagrange_factor(xi, xj);
            assert(lagrange_term(points, xi, yi, n) == poly_mul(prev, f));
            lemma_eval_mul(prev, f, xi);
            lemma_eval_factor(xi, xj, xi);
            let d = gf_add(xi, xj);
            lemma_xor(xi, xj, 0);
            lemma_inverse(d);
            assert(gf_add(xj, xi) == d);
            lemma_mul_identities(yi);
        } else {
            assert(lagrange_term(points, xi, yi, n) == prev);
        }
    }
}

/// A basis term is zero at every other point that it was built over.
#[verifier::rlimit(100)]
pub proof fn lemma_eval_term_other(points: Seq<(u8, u8)>, xi: u8, yi: u8, n: nat, j: int)
    requires
        n <= points.len(),
        0 <= j < n,
        points[j].0 != xi,
    ensures
        poly_eval(lagrange_term(points, xi, yi, n), points[j].0) == 0,
    decreases n,
{
    let x = points[j].0;
    let m = (n - 1) as nat;
    let prev = lagrange_term(points, xi, yi, m);
    let xj = points[m as int].0;
    if xj != xi {
        let f = lagrange_factor(xi, xj);
        assert(lagrange_term(points, xi, yi, n) == poly_mul(prev, f));
        lemma_eval_mul(prev, f, x);
        if j == m {
            lemma_eval_factor(xi, xj, x);
            lemma_xor(xj, xj, 0);
            lemma_mul_identities(gf_inv(gf_add(xi, xj)));
            lemma_mul_identities(poly_eval(prev, x));
        } else {
            lemma_eval_term_other(points, xi, yi, m, j);
            lemma_mul_identities(poly_eval(f, x));
        }
    } else {
        assert(lagrange_term(points, xi, yi, n) == prev);
        lemma_eval_term_other(points, xi, yi, m, j);
    }
}

/// The x-coordinates of the points are distinct.
pub open spec fn distinct_xs(points: Seq<(u8, u8)>) -> bool {
    forall|i: int, j: int| 0 <= i < j < points.len() ==> #[trigger] points[i].0 != #[trigger] points[j].0
}

#[verifier::rlimit(100)]
proof fn lemma_eval_sum(points: Seq<(u8, u8)>, n: nat, k: int)
    requires
        n <= points.len(),
        0 <= k < points.len(),
        distinct_xs(points),
    ensures
        poly_eval(lagrange_sum(points, n), points[k].0) == if k < n { points[k].1 } else { 0u8 },
    decreases n,
{
    let x = points[k].0;
    if n == 0 {
    } else {
        let m = (n - 1) as nat;
        lemma_eval_sum(points, m, k);
        lemma_eval_add(lagrange_sum(points, m), single_term_poly(points, points[m as int]), x);
        let p = points[m as int];
        assert(single_term_poly(points, p) == lagrange_term(points, p.0, p.1, points.len()));
        if m as int == k {
            lemma_eval_term_own(points, p.0, p.1, points.len());
            lemma_xor(p.1, 0, 0);
        } else {
            assert(points[k].0 != p.0);
            lemma_eval_term_other(points, p.0, p.1, points.len(), k);
            lemma_xor(if k < m { points[k].1 } else { 0u8 }, 0, 0);
        }
    }
}

/// Lagrange interpolation passes through every point when the x-coordinates are distinct.
pub proof fn lemma_lagrange_interpolates(points: Seq<(u8, u8)>)
    requires
        distinct_xs(points),
    ensures
        forall|k: int| 0 <= k < points.len() ==> #[trigger] poly_eval(lagrange(points), points[k].0) == points[k].1,
{
    assert forall|k: int| 0 <= k < points.len() implies #[trigger] poly_eval(lagrange(points), points[k].0)
        == points[k].1 by {
        lemma_eval_sum(points, points.len(), k);
    }
}

/// The polynomial interpolated through `ys` takes the value `ys[i]` at `i`.
pub proof fn lemma_interpolate_values(ys: Seq<u8>)
    requires
        ys.len() < 256,
    ensures
        forall|i: int| 0 <= i < ys.len() ==> #[trigger] poly_eval(lagrange(indexed_points(ys)), i as u8) == ys[i],
{
    let points = indexed_points(ys);
    assert(distinct_xs(points));
    lemma_lagrange_interpolates(points);
    assert forall|i: int| 0 <= i < ys.len() implies #[trigger] poly_eval(lagrange(indexed_points(ys)), i as u8)
        == ys[i] by {
        assert(points[i].0 == i as u8);
    }
}

/// Coefficient `i` of the quotient of `p` (with `n` coefficients) by `x + r`:
/// `q_i = p_{i+1} + r * q_{i+1}`, zero from `n - 1` on.
pub open spec fn quotient(p: Seq<u8>, r: u8, n: nat, i: int) -> u8
    decreases n - i,
{
    if i >= n - 1 || i < -1 {
        0
    } else {
        gf_add(coef(p, i + 1), gf_mul(r, quotient(p, r, n, i + 1)))
    }
}

/// Division by `x + r`: `p(x) == (x + r) * q(x) + (p_0 + r * q_0)`.
#[verifier::rlimit(100)]
proof fn lemma_synthetic_division(p: Seq<u8>, r: u8, n: nat, x: u8)
    requires
        n >= 1,
    ensures
        eval_upto(p, x, n) == gf_add(
            gf_mul(gf_add(x, r), eval_upto(Seq::new((n - 1) as nat, |i: int| quotient(p, r, n, i)), x, (n - 1) as nat)),
            gf_add(coef(p, 0), gf_mul(r, quotient(p, r, n, 0))),
        ),
{
    let q = Seq::new((n - 1) as nat, |i: int| quotient(p, r, n, i));
    let rem = gf_add(coef(p, 0), gf_mul(r, quotient(p, r, n, 0)));
    let shifted = Seq::new(n, |i: int| coef(q, i - 1));
    let scaled = Seq::new(n, |i: int| gf_mul(r, coef(q, i)));
    let both = Seq::new(n, |i: int| gf_add(coef(shifted, i), coef(scaled, i)));
    let unit = seq![rem];
    // p = both + [rem]
    assert forall|i: int| 0 <= i < n implies #[trigger] coef(p, i) == gf_add(coef(both, i), coef(unit, i)) by {
        if i == 0 {
            lemma_mul_identities(r);
            lemma_xor(coef(p, 0), gf_mul(r, quotient(p, r, n, 0)), 0);
            lemma_xor(gf_mul(r, quotient(p, r, n, 0)), coef(p, 0), 0);
            lemma_xor(0, 0, 0);
            let a = coef(p, 0);
            let b = gf_mul(r, coef(q, 0));
            assert((0u8 ^ b) ^ (a ^ b) == a) by (bit_vector);
        } else {
            let a = coef(p, i);
            let b = gf_mul(r, quotient(p, r, n, i));
            lemma_mul_identities(r);
            assert(coef(q, i - 1) == gf_add(a, b));
            assert((a ^ b) ^ b ^ 0u8 == a) by (bit_vector);
            if i < n - 1 {
                assert(coef(q, i) == quotient(p, r, n, i));
            } else {
                assert(quotient(p, r, n, i) == 0);
            }
        }
    }
    lemma_eval_upto_add(both, unit, p, x, n);
    lemma_eval_upto_add(shifted, scaled, both, x, n);
    assert forall|k: int| 0 <= k < n implies #[trigger] coef(shifted, k) == gf_mul(1, coef(q, k - 1)) by {
        lemma_mul_identities(coef(q, k - 1));
    }
    lemma_eval_upto_shift(shifted, q, 1, x, 1, n);
    assert forall|k: int| 0 <= k < n implies #[trigger] coef(scaled, k) == gf_mul(r, coef(q, k - 0)) by {}
    lemma_eval_upto_shift(scaled, q, r, x, 0, n);
    lemma_eval_upto_extend(q, x, n);
    let eq = eval_upto(q, x, (n - 1) as nat);
    assert(gf_pow(x, 1) == gf_mul(gf_pow(x, 0), x));
    lemma_mul_identities(x);
    lemma_mul_identities(eq);
    lemma_mul_identities(gf_mul(x, eq));
    lemma_mul_distributes(eq, x, r);
    lemma_mul_commutative(eq, gf_add(x, r));
    lemma_mul_commutative(eq, x);
    lemma_mul_commutative(eq, r);
    // eval of [rem]
    assert(eval_upto(unit, x, n) == rem) by {
        lemma_eval_upto_extend(unit, x, n);
        lemma_mul_identities(rem);
        lemma_xor(rem, 0, 0);
        assert(eval_upto(unit, x, 1) == gf_add(eval_upto(unit, x, 0), gf_mul(gf_pow(x, 0), coef(unit, 0))));
    }
}

/// The quotient of `p` by `x + r`, with `n - 1` coefficients.
pub open spec fn quotient_poly(p: Seq<u8>, r: u8, n: nat) -> Seq<u8> {
    Seq::new((n - 1) as nat, |i: int| quotient(p, r, n, i))
}

/// The remainder of `p` by `x + r`.
pub open spec fn remainder(p: Seq<u8>, r: u8, n: nat) -> u8 {
    gf_add(coef(p, 0), gf_mul(r, quotient(p, r, n, 0)))
}

/// At a root `r` the remainder by `x + r` vanishes.
#[verifier::rlimit(100)]
proof fn lemma_remainder_at_root(p: Seq<u8>, r: u8, n: nat)
    requires
        n >= 1,
        eval_upto(p, r, n) == 0,
    ensures
        remainder(p, r, n) == 0,
{
    lemma_synthetic_division(p, r, n, r);
    lemma_xor(r, r, 0);
    let e = eval_upto(quotient_poly(p, r, n), r, (n - 1) as nat);
    lemma_mul_identities(e);
    let rem = remainder(p, r, n);
    assert((0u8 ^ rem) == rem) by (bit_vector);
}

/// Another root of `p` is a root of the quotient.
#[verifier::rlimit(100)]
proof fn lemma_quotient_root(p: Seq<u8>, r: u8, n: nat, y: u8)
    requires
        n >= 1,
        remainder(p, r, n) == 0,
        eval_upto(p, y, n) == 0,
        y != r,
    ensures
        eval_upto(quotient_poly(p, r, n), y, (n - 1) as nat) == 0,
{
    lemma_synthetic_division(p, r, n, y);
    let v = gf_mul(gf_add(y, r), eval_upto(quotient_poly(p, r, n), y, (n - 1) as nat));
    lemma_xor(v, 0, 0);
    lemma_xor(y, r, 0);
    crate::gf::lemma_mul_no_zero_divisors(gf_add(y, r), eval_upto(quotient_poly(p, r, n), y, (n - 1) as nat));
}

/// A zero quotient and remainder make every coefficient zero.
#[verifier::rlimit(100)]
proof fn lemma_zero_quotient(p: Seq<u8>, r: u8, n: nat)
    requires
        n >= 1,
        remainder(p, r, n) == 0,
        forall|i: int| 0 <= i < n - 1 ==> #[trigger] coef(quotient_poly(p, r, n), i) == 0,
    ensures
        forall|i: int| 0 <= i < n ==> #[trigger] coef(p, i) == 0,
{
    let q = quotient_poly(p, r, n);
    assert forall|i: int| 0 <= i < n implies #[trigger] coef(p, i) == 0 by {
        lemma_mul_identities(r);
        if i == 0 {
            let b = gf_mul(r, quotient(p, r, n, 0));
            if n > 1 {
                assert(quotient(p, r, n, 0) == coef(q, 0));
            }
            let a = coef(p, 0);
            assert((a ^ b) == 0u8 && b == 0u8 ==> a == 0u8) by (bit_vector);
        } else {
            let a = coef(p, i);
            let b = gf_mul(r, quotient(p, r, n, i));
            assert(quotient(p, r, n, i - 1) == gf_add(a, b));
            assert(quotient(p, r, n, i - 1) == coef(q, i - 1));
            if i < n - 1 {
                assert(quotient(p, r, n, i) == coef(q, i));
            }
            assert((a ^ b) == 0u8 && b == 0u8 ==> a == 0u8) by (bit_vector);
        }
    }
}

/// A polynomial with `n` coefficients that vanishes at `n` distinct points is zero.
#[verifier::rlimit(100)]
pub proof fn lemma_roots_force_zero(p: Seq<u8>, roots: Seq<u8>, n: nat)
    requires
        roots.len() >= n,
        forall|a: int, b: int| 0 <= a < b < roots.len() ==> #[trigger] roots[a] != #[trigger] roots[b],
        forall|e: int| 0 <= e < roots.len() ==> #[trigger] eval_upto(p, roots[e], n) == 0,
    ensures
        forall|i: int| 0 <= i < n ==> #[trigger] coef(p, i) == 0,
    decreases n,
{
    if n > 0 {
        let r = roots[n - 1];
        lemma_remainder_at_root(p, r, n);
        let others = roots.take(n - 1);
        assert forall|e: int| 0 <= e < others.len() implies #[trigger] eval_upto(
            quotient_poly(p, r, n),
            others[e],
            (n - 1) as nat,
        ) == 0 by {
            assert(others[e] == roots[e]);
            lemma_quotient_root(p, r, n, others[e]);
        }
        lemma_roots_force_zero(quotient_poly(p, r, n), others, (n - 1) as nat);
        lemma_zero_quotient(p, r, n);
    }
}

proof fn lemma_poly_mul_len(a: Seq<u8>, b: Seq<u8>)
    ensures
        poly_mul(a, b).len() == 0 || poly_mul(a, b).len() + 1 <= a.len() + b.len(),
{
    if a.len() > 0 && b.len() > 0 {
        lemma_trim(Seq::new((a.len() + b.len() - 1) as nat, |k: int| conv(a, b, k, a.len())));
    }
}

proof fn lemma_poly_add_len(a: Seq<u8>, b: Seq<u8>, bound: nat)
    requires
        a.len() <= bound,
        b.len() <= bound,
    ensures
        poly_add(a, b).len() <= bound,
{
    let n = if a.len() >= b.len() { a.len() } else { b.len() };
    lemma_trim(Seq::new(n, |i: int| gf_add(coef(a, i), coef(b, i))));
}

/// A basis term has at most one coefficient more than it has factors.
#[verifier::rlimit(100)]
pub proof fn lemma_term_len(points: Seq<(u8, u8)>, xi: u8, yi: u8, n: nat)
    requires
        n <= points.len(),
    ensures
        lagrange_term(points, xi, yi, n).len() <= n + 1,
        forall|j: int| 0 <= j < n && #[trigger] points[j].0 == xi ==> lagrange_term(points, xi, yi, n).len() <= n,
    decreases n,
{
    if n == 0 {
        lemma_trim(seq![yi]);
    } else {
        let m = (n - 1) as nat;
        lemma_term_len(points, xi, yi, m);
        let xj = points[m as int].0;
        if xj != xi {
            let prev = lagrange_term(points, xi, yi, m);
            let f = lagrange_factor(xi, xj);
            lemma_trim(seq![gf_div(xj, gf_add(xi, xj)), gf_inv(gf_add(xi, xj))]);
            lemma_poly_mul_len(prev, f);
        }
    }
}

/// Interpolating through `n` points with distinct x-coordinates gives at most `n` coefficients.
#[verifier::rlimit(100)]
proof fn lemma_lagrange_len(points: Seq<(u8, u8)>, n: nat)
    requires
        n <= points.len(),
        points.len() >= 1,
    ensures
        lagrange_sum(points, n).len() <= points.len(),
    decreases n,
{
    if n > 0 {
        let m = (n - 1) as nat;
        lemma_lagrange_len(points, m);
        let p = points[m as int];
        lemma_term_len(points, p.0, p.1, points.len());
        assert(points[m as int].0 == p.0);
        lemma_poly_add_len(lagrange_sum(points, m), single_term_poly(points, p), points.len());
    }
}

/// Two polynomials with at most `k` coefficients that agree at `k` distinct points agree
/// everywhere.
#[verifier::rlimit(100)]
pub proof fn lemma_agree_everywhere(a: Seq<u8>, b: Seq<u8>, xs: Seq<u8>, k: nat, x: u8)
    requires
        a.len() <= k,
        b.len() <= k,
        xs.len() == k,
        forall|i: int, j: int| 0 <= i < j < xs.len() ==> #[trigger] xs[i] != #[trigger] xs[j],
        forall|e: int| 0 <= e < k ==> #[trigger] poly_eval(a, xs[e]) == poly_eval(b, xs[e]),
    ensures
        poly_eval(a, x) == poly_eval(b, x),
{
    let d = poly_add(a, b);
    lemma_poly_add_len(a, b, k);
    assert forall|e: int| 0 <= e < xs.len() implies #[trigger] eval_upto(d, xs[e], k) == 0 by {
        lemma_eval_add(a, b, xs[e]);
        lemma_xor(poly_eval(a, xs[e]), 0, 0);
        lemma_poly_eval_upto(d, xs[e]);
        lemma_eval_upto_extend(d, xs[e], k);
    }
    lemma_roots_force_zero(d, xs, k);
    lemma_eval_upto_zero(d, x, k);
    lemma_poly_eval_upto(d, x);
    lemma_eval_upto_extend(d, x, k);
    lemma_eval_add(a, b, x);
    lemma_xor(poly_eval(a, x), poly_eval(b, x), 0);
}

/// Interpolating through `k` distinct points of the polynomial through `(i, ys[i])`, `i < k`,
/// gives back a polynomial with the same values everywhere.
pub proof fn lemma_reinterpolate(ys: Seq<u8>, points: Seq<(u8, u8)>, x: u8)
    requires
        1 <= ys.len() < 256,
        points.len() == ys.len(),
        distinct_xs(points),
        forall|e: int| 0 <= e < points.len() ==> #[trigger] points[e].1 == poly_eval(
            lagrange(indexed_points(ys)),
            points[e].0,
        ),
    ensures
        poly_eval(lagrange(points), x) == poly_eval(lagrange(indexed_points(ys)), x),
{
    let k = ys.len();
    let p = lagrange(indexed_points(ys));
    let q = lagrange(points);
    lemma_lagrange_len(points, points.len());
    lemma_lagrange_len(indexed_points(ys), k);
    lemma_lagrange_interpolates(points);
    let xs = Seq::new(k, |e: int| points[e].0);
    assert forall|e: int| 0 <= e < k implies #[trigger] poly_eval(q, xs[e]) == poly_eval(p, xs[e]) by {}
    lemma_agree_everywhere(q, p, xs, k, x);
}

/// The Lagrange basis polynomial of point `e`: 1 at `points[e].0`, 0 at the other points.
pub open spec fn basis(points: Seq<(u8, u8)>, e: int) -> Seq<u8> {
    lagrange_term(points, points[e].0, 1, points.len())
}

/// `sum_{e < n} basis_e(x) * y_e`.
pub open spec fn basis_sum(points: Seq<(u8, u8)>, x: u8, n: nat) -> u8
    decreases n,
{
    if n == 0 {
        0
    } else {
        gf_add(basis_sum(points, x, (n - 1) as nat), gf_mul(poly_eval(basis(points, n - 1), x), points[n - 1].1))
    }
}

/// A basis term depends on the x-coordinates of the points only.
pub proof fn lemma_term_xs_only(p1: Seq<(u8, u8)>, p2: Seq<(u8, u8)>, xi: u8, yi: u8, n: nat)
    requires
        n <= p1.len(),
        n <= p2.len(),
        forall|j: int| 0 <= j < n ==> #[trigger] p1[j].0 == p2[j].0,
    ensures
        lagrange_term(p1, xi, yi, n) == lagrange_term(p2, xi, yi, n),
    decreases n,
{
    if n > 0 {
        lemma_term_xs_only(p1, p2, xi, yi, (n - 1) as nat);
        assert(p1[n - 1].0 == p2[n - 1].0);
    }
}

/// A basis term is `yi` times the term for value 1.
#[verifier::rlimit(100)]
proof fn lemma_term_scale(points: Seq<(u8, u8)>, xi: u8, yi: u8, n: nat, x: u8)
    requires
        n <= points.len(),
    ensures
        poly_eval(lagrange_term(points, xi, yi, n), x) == gf_mul(yi, poly_eval(lagrange_term(points, xi, 1, n), x)),
    decreases n,
{
    if n == 0 {
        let s = seq![yi];
        let one = seq![1u8];
        lemma_eval_trim(s, x);
        lemma_eval_trim(one, x);
        assert(s.drop_last() =~= Seq::<u8>::empty());
        assert(one.drop_last() =~= Seq::<u8>::empty());
        assert(poly_eval(s, x) == gf_add(poly_eval(Seq::<u8>::empty(), x), gf_mul(gf_pow(x, 0), yi)));
        assert(poly_eval(one, x) == gf_add(poly_eval(Seq::<u8>::empty(), x), gf_mul(gf_pow(x, 0), 1u8)));
        lemma_mul_identities(yi);
        lemma_mul_identities(1);
        lemma_xor(yi, 0, 0);
        lemma_xor(1, 0, 0);
    } else {
        let m = (n - 1) as nat;
        lemma_term_scale(points, xi, yi, m, x);
        let xj = points[m as int].0;
        if xj != xi {
            let f = lagrange_factor(xi, xj);
            let py = lagrange_term(points, xi, yi, m);
            let p1 = lagrange_term(points, xi, 1, m);
            assert(lagrange_term(points, xi, yi, n) == poly_mul(py, f));
            assert(lagrange_term(points, xi, 1, n) == poly_mul(p1, f));
            lemma_eval_mul(py, f, x);
            lemma_eval_mul(p1, f, x);
            lemma_mul_associative(yi, poly_eval(p1, x), poly_eval(f, x));
        } else {
            assert(lagrange_term(points, xi, yi, n) == lagrange_term(points, xi, yi, m));
            assert(lagrange_term(points, xi, 1, n) == lagrange_term(points, xi, 1, m));
        }
    }
}

/// The interpolation polynomial is the basis polynomials weighted by the values.
pub proof fn lemma_lagrange_basis_sum(points: Seq<(u8, u8)>, n: nat, x: u8)
    requires
        1 <= points.len(),
        n <= points.len(),
    ensures
        poly_eval(lagrange_sum(points, n), x) == basis_sum(points, x, n),
    decreases n,
{
    if n > 0 {
        let m = (n - 1) as nat;
        lemma_lagrange_basis_sum(points, m, x);
        let p = points[m as int];
        lemma_eval_add(lagrange_sum(points, m), single_term_poly(points, p), x);
        lemma_term_scale(points, p.0, p.1, points.len(), x);
        lemma_mul_commutative(p.1, poly_eval(basis(points, m as int), x));
    }
}

/// Multiplying by the zero polynomial gives zero, on either side.
pub proof fn lemma_mul_by_zero(p: Seq<u8>)
    ensures
        poly_mul(Seq::empty(), p) == Seq::<u8>::empty(),
        poly_mul(p, Seq::empty()) == Seq::<u8>::empty(),
{
}

/// The most coefficients a polynomial may have, so that degrees and product lengths fit in
/// machine integers.
pub const MAX_COEFFICIENTS: usize = 0x7fff_ffff;

/// A polynomial: its coefficients, lowest power first, with no trailing zero.
#[derive(Debug, PartialEq)]
pub struct Polynomial {
    coefficients: Vec<u8>,
}

impl View for Polynomial {
    type V = Seq<u8>;

    closed spec fn view(&self) -> Seq<u8> {
        self.coefficients@
    }
}

/// Removes trailing zeros in place.
fn trim_in_place(v: &mut Vec<u8>)
    ensures
        final(v)@ == trim(old(v)@),
{
    proof {
        lemma_trim(v@);
    }
    while v.len() > 0 && v[v.len() - 1] == 0
        invariant
            trim(v@) == trim(old(v)@),
        decreases v.len(),
    {
        v.pop();
    }
}

impl Polynomial {
    #[verifier::type_invariant]
    spec fn canonical(&self) -> bool {
        is_trimmed(self.coefficients@) && self.coefficients@.len() <= MAX_COEFFICIENTS
    }

    /// The zero polynomial, with no coefficients and degree -1.
    pub fn zero() -> (r: Self)
        ensures
            r@ == Seq::<u8>::empty(),
    {
        Polynomial { coefficients: Vec::new() }
    }

    /// The polynomial with the given coefficients, trailing zeros dropped.
    pub fn from_bytes(coefficients: &[u8]) -> (r: Self)
        requires
            coefficients@.len() <= MAX_COEFFICIENTS,
        ensures
            r@ == trim(coefficients@),
            r@.len() <= coefficients@.len(),
    {
        let mut v: Vec<u8> = Vec::new();
        let mut i: usize = 0;
        while i < coefficients.len()
            invariant
                i <= coefficients@.len(),
                v@ == coefficients@.subrange(0, i as int),
            decreases coefficients.len() - i,
        {
            v.push(coefficients[i]);
            i = i + 1;
        }
        proof {
            assert(v@ == coefficients@);
        }
        trim_in_place(&mut v);
        proof {
            lemma_trim(coefficients@);
        }
        Polynomial { coefficients: v }
    }

    /// The coefficients, lowest power first.
    pub fn coefficients(&self) -> (r: Vec<u8>)
        ensures
            r@ == self@,
    {
        copy_bytes(&self.coefficients)
    }

    /// The number of coefficients, at most `MAX_COEFFICIENTS`.
    pub fn len(&self) -> (r: usize)
        ensures
            r == self@.len(),
            r <= MAX_COEFFICIENTS,
    {
        proof {
            use_type_invariant(self);
        }
        self.coefficients.len()
    }

    /// The degree: -1 for the zero polynomial, else the largest power with a coefficient.
    pub fn degree(&self) -> (r: i64)
        ensures
            r == self@.len() - 1,
    {
        proof {
            use_type_invariant(self);
        }
        self.coefficients.len() as i64 - 1
    }

    pub fn is_zero(&self) -> (r: bool)
        ensures
            r <==> self@.len() == 0,
    {
        self.degree() == -1
    }

    /// The sum of two polynomials: coefficient-wise addition, trimmed.
    pub fn add<F: Field256>(&self, other: &Self) -> (r: Self)
        ensures
            r@ == poly_add(self@, other@),
    {
        proof {
            use_type_invariant(self);
            use_type_invariant(other);
        }
        let la = self.coefficients.len();
        let lb = other.coefficients.len();
        let n = if la >= lb {
            la
        } else {
            lb
        };
        let mut v: Vec<u8> = Vec::new();
        let mut i: usize = 0;
        while i < n
            invariant
                i <= n,
                la == self@.len(),
                lb == other@.len(),
                n == if la >= lb { la } else { lb },
                v@.len() == i,
                forall|j: int| 0 <= j < i ==> #[trigger] v@[j] == gf_add(coef(self@, j), coef(other@, j)),
            decreases n - i,
        {
            let x = if i < la {
                self.coefficients[i]
            } else {
                F::zero()
            };
            let y = if i < lb {
                other.coefficients[i]
            } else {
                F::zero()
            };
            v.push(F::add(x, y));
            i = i + 1;
        }
        proof {
            assert(v@ == Seq::new(n as nat, |j: int| gf_add(coef(self@, j), coef(other@, j))));
        }
        trim_in_place(&mut v);
        proof {
            lemma_trim(Seq::new(n as nat, |j: int| gf_add(coef(self@, j), coef(other@, j))));
        }
        Polynomial { coefficients: v }
    }

    /// The product of two polynomials; zero when either factor is zero.
    #[verifier::rlimit(100)]
    pub fn mul<F: Field256>(self, other: &Self, field: &F) -> (r: Self)
        requires
            self@.len() + other@.len() <= MAX_COEFFICIENTS + 1,
        ensures
            r@ == poly_mul(self@, other@),
            r@.len() == 0 || r@.len() + 1 <= self@.len() + other@.len(),
    {
        if self.is_zero() || other.is_zero() {
            return Polynomial::zero();
        }
        let la = self.coefficients.len();
        let lb = other.coefficients.len();
        let n = la + lb - 1;
        let mut v: Vec<u8> = Vec::new();
        let mut k: usize = 0;
        while k < n
            invariant
                k <= n,
                v@.len() == k,
                forall|j: int| 0 <= j < k ==> #[trigger] v@[j] == 0,
            decreases n - k,
        {
            v.push(F::zero());
            k = k + 1;
        }
        let a = Ghost(self@);
        let b = Ghost(other@);
        proof {
            use_type_invariant(&self);
            use_type_invariant(other);
        }
        let mut i: usize = 0;
        while i < la
            invariant
                i <= la,
                la == a@.len(),
                lb == b@.len(),
                la >= 1,
                lb >= 1,
                n == la + lb - 1,
                a@ == self@,
                b@ == other@,
                v@.len() == n,
                forall|j: int| 0 <= j < n ==> #[trigger] v@[j] == conv(a@, b@, j, i as nat),
            decreases la - i,
        {
            let c1 = self.coefficients[i];
            let mut j: usize = 0;
            proof {
                assert forall|t: int| 0 <= t < n implies #[trigger] v@[t] == gf_add(
                    conv(a@, b@, t, i as nat),
                    0u8,
                ) by {
                    lemma_xor(conv(a@, b@, t, i as nat), 0, 0);
                }
            }
            while j < lb
                invariant
                    i < la,
                    j <= lb,
                    la == a@.len(),
                    lb == b@.len(),
                    n == la + lb - 1,
                    a@ == self@,
                    b@ == other@,
                    c1 == a@[i as int],
                    v@.len() == n,
                    forall|t: int|
                        0 <= t < n ==> #[trigger] v@[t] == gf_add(
                            conv(a@, b@, t, i as nat),
                            if i <= t < i + j {
                                gf_mul(c1, b@[t - i])
                            } else {
                                0u8
                            },
                        ),
                decreases lb - j,
            {
                let c2 = other.coefficients[j];
                let e = i + j;
                let c = field.mul(c1, c2);
                let old_v = Ghost(v@);
                proof {
                    lemma_xor(conv(a@, b@, e as int, i as nat), 0, 0);
                }
                v[e] = F::add(v[e], c);
                proof {
                    assert forall|t: int| 0 <= t < n implies #[trigger] v@[t] == gf_add(
                        conv(a@, b@, t, i as nat),
                        if i <= t < i + j + 1 {
                            gf_mul(c1, b@[t - i])
                        } else {
                            0u8
                        },
                    ) by {
                        if t != e {
                            assert(v@[t] == old_v@[t]);
                        }
                    }
                }
                j = j + 1;
            }
            proof {
                assert forall|t: int| 0 <= t < n implies #[trigger] v@[t] == conv(
                    a@,
                    b@,
                    t,
                    (i + 1) as nat,
                ) by {
                    lemma_mul_identities(c1);
                    lemma_xor(conv(a@, b@, t, i as nat), 0, 0);
                }
            }
            i = i + 1;
        }
        proof {
            assert(v@ == Seq::new(n as nat, |t: int| conv(a@, b@, t, la as nat)));
            lemma_trim(v@);
        }
        trim_in_place(&mut v);
        Polynomial { coefficients: v }
    }

    /// The Lagrange basis term for `(xi, yi)`: `yi * prod (x - xj) / (xi - xj)` over the
    /// other points of `points`.
    #[verifier::rlimit(100)]
    pub fn single_term<F: Field256>(points: &[(u8, u8)], p: (u8, u8), field: &F) -> (r: Self)
        requires
            points@.len() < 256,
        ensures
            r@ == single_term_poly(points@, p),
    {
        if points.len() == 0 {
            return Polynomial::zero();
        }
        let (xi, yi) = p;
        let mut term = Self::from_bytes(&[yi]);
        proof {
            assert(seq![yi] == [yi]@);
        }
        let mut n: usize = 0;
        while n < points.len()
            invariant
                n <= points@.len(),
                points@.len() < 256,
                term@.len() <= n + 1,
                term@ == lagrange_term(points@, xi, yi, n as nat),
            decreases points.len() - n,
        {
            let xj = points[n].0;
            if xj != xi {
                let denominator = F::sub(xi, xj);
                proof {
                    lemma_xor(xi, xj, 0);
                    if denominator == 0 {
                        assert(xi ^ xj == 0);
                    }
                }
                let zeroth_term = field.div(xj, denominator);
                let first_term = field.inv(denominator);
                let f = Self::from_bytes(&[zeroth_term, first_term]);
                proof {
                    assert(seq![zeroth_term, first_term] == [zeroth_term, first_term]@);
                    assert(f@ == lagrange_factor(xi, xj));
                }
                let ghost prev = term@;
                term = term.mul(&f, field);
                proof {
                    assert(term@ == poly_mul(prev, lagrange_factor(xi, xj)));
                    assert(lagrange_term(points@, xi, yi, (n + 1) as nat) == poly_mul(
                        lagrange_term(points@, xi, yi, n as nat),
                        lagrange_factor(xi, xj),
                    ));
                }
            }
            n = n + 1;
        }
        term
    }

    /// The basis term of point `i` of the points `(x, ys[x])`.
    pub fn single_term_ys<F: Field256>(ys: &[u8], i: u8, field: &F) -> (r: Self)
        requires
            (i as int) < ys@.len(),
            ys@.len() < 256,
        ensures
            r@ == single_term_poly(indexed_points(ys@), (i, ys@[i as int])),
    {
        let points = indexed(ys);
        Self::single_term(points.as_slice(), (i, ys[i as usize]), field)
    }

    /// The polynomial of degree below `points.len()` through the given points (distinct
    /// x-coordinates), as a sum of Lagrange basis terms.
    pub fn interpolate_points<F: Field256>(points: &[(u8, u8)], field: &F) -> (r: Self)
        requires
            points@.len() < 256,
        ensures
            r@ == lagrange(points@),
    {
        let mut acc = Self::zero();
        let mut n: usize = 0;
        while n < points.len()
            invariant
                n <= points@.len(),
                points@.len() < 256,
                acc@ == lagrange_sum(points@, n as nat),
            decreases points.len() - n,
        {
            let t = Self::single_term(points, points[n], field);
            acc = acc.add::<F>(&t);
            n = n + 1;
        }
        acc
    }

    /// The polynomial through the points `(i, ys[i])`.
    pub fn interpolate<F: Field256>(ys: &[u8], field: &F) -> (r: Self)
        requires
            ys@.len() < 256,
        ensures
            r@ == lagrange(indexed_points(ys@)),
    {
        let points = indexed(ys);
        Self::interpolate_points(points.as_slice(), field)
    }

    /// The value of the polynomial at `x`.
    pub fn evaluate<F: Field256>(&self, x: u8, field: &F) -> (r: u8)
        ensures
            r == poly_eval(self@, x),
    {
        let mut result: u8 = F::zero();
        let mut power: u8 = 1;
        let mut e: usize = 0;
        while e < self.coefficients.len()
            invariant
                e <= self@.len(),
                power == gf_pow(x, e as nat),
                result == poly_eval(self@.subrange(0, e as int), x),
            decreases self@.len() - e,
        {
            let ghost s1 = self@.subrange(0, e as int + 1);
            proof {
                assert(s1.drop_last() == self@.subrange(0, e as int));
                assert(s1.last() == self@[e as int]);
            }
            result = F::add(result, field.mul(power, self.coefficients[e]));
            power = field.mul(power, x);
            e = e + 1;
        }
        proof {
            assert(self@.subrange(0, self@.len() as int) == self@);
        }
        result
    }
}

impl Clone for Polynomial {
    fn clone(&self) -> (r: Self)
        ensures
            r@ == self@,
    {
        proof {
            use_type_invariant(self);
        }
        Polynomial { coefficients: copy_bytes(&self.coefficients) }
    }
}

/// The points `(i, ys[i])`.
fn indexed(ys: &[u8]) -> (r: Vec<(u8, u8)>)
    requires
        ys@.len() <= 256,
    ensures
        r@ == indexed_points(ys@),
{
    let mut points: Vec<(u8, u8)> = Vec::new();
    let mut i: usize = 0;
    while i < ys.len()
        invariant
            i <= ys@.len(),
            ys@.len() <= 256,
            points@ == indexed_points(ys@).subrange(0, i as int),
        decreases ys.len() - i,
    {
        points.push((i as u8, ys[i]));
        i = i + 1;
    }
    proof {
        assert(points@ == indexed_points(ys@));
    }
    points
}

} // verus!
