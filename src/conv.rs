//! The convolution theorem over the BN254 scalar field: transforming,
//! multiplying entrywise and transforming back computes the circulant product.

use vstd::prelude::*;
use vstd::arithmetic::power::{pow, lemma_pow_adds, lemma_pow_multiplies, lemma_pow_mod_noop, lemma_pow0, lemma_pow1, lemma1_pow};
use vstd::arithmetic::power2::{pow2, lemma_pow2_unfold};
use vstd::arithmetic::div_mod::{lemma_add_mod_noop, lemma_mul_mod_noop_left, lemma_mul_mod_noop_right, lemma_small_mod, lemma_mod_multiples_basic};
use crate::field::modulus;
use crate::fft::{sum, field_inv, dft, root_of_unity};
use crate::matrix::{circulant_by_transform, circulant_product, circulant_entry, pointwise};
use crate::matrix::{lemma_sum_ext, lemma_sum_zero_tail};

verus! {

/// `w` generates the subgroup of order `n`, a power of two: `w^n = 1`, and
/// for `n >= 2`, `w^(n/2) = -1`.
pub open spec fn is_principal_root(w: int, n: nat) -> bool {
    &&& pow(w, n) % modulus() == 1
    &&& n >= 2 ==> pow(w, n / 2) % modulus() == modulus() - 1
}

pub(crate) proof fn lemma_sum_cong(n: nat, f: spec_fn(int) -> int, g: spec_fn(int) -> int)
    requires
        forall|j: int| 0 <= j < n ==> #[trigger] f(j) % modulus() == g(j) % modulus(),
    ensures
        sum(n, f) % modulus() == sum(n, g) % modulus(),
    decreases n,
{
    if n > 0 {
        lemma_sum_cong((n - 1) as nat, f, g);
        lemma_add_mod_noop(sum((n - 1) as nat, f), f(n - 1), modulus());
        lemma_add_mod_noop(sum((n - 1) as nat, g), g(n - 1), modulus());
    }
}

pub(crate) proof fn lemma_sum_add(n: nat, f: spec_fn(int) -> int, g: spec_fn(int) -> int, h: spec_fn(int) -> int)
    requires
        forall|j: int| 0 <= j < n ==> #[trigger] h(j) == f(j) + g(j),
    ensures
        sum(n, h) == sum(n, f) + sum(n, g),
    decreases n,
{
    if n > 0 {
        lemma_sum_add((n - 1) as nat, f, g, h);
    }
}

pub(crate) proof fn lemma_sum_scale(n: nat, a: int, f: spec_fn(int) -> int, g: spec_fn(int) -> int)
    requires
        forall|j: int| 0 <= j < n ==> #[trigger] g(j) == a * f(j),
    ensures
        sum(n, g) == a * sum(n, f),
    decreases n,
{
    if n > 0 {
        lemma_sum_scale((n - 1) as nat, a, f, g);
        let s = sum((n - 1) as nat, f);
        let v = f(n - 1);
        assert(a * s + a * v == a * (s + v)) by (nonlinear_arith);
    }
}

proof fn lemma_sum_shift(a: nat, b: nat, f: spec_fn(int) -> int)
    ensures
        sum(a + b, f) == sum(a, f) + sum(b, |k: int| f(a + k)),
    decreases b,
{
    if b > 0 {
        lemma_sum_shift(a, (b - 1) as nat, f);
    }
}

proof fn lemma_sum_const(n: nat, v: int)
    ensures
        sum(n, |k: int| v) == n * v,
    decreases n,
{
    if n > 0 {
        lemma_sum_const((n - 1) as nat, v);
        assert((n - 1) * v + v == n * v) by (nonlinear_arith);
    }
}

proof fn lemma_neg_one_pow(e: nat)
    ensures
        pow(-1, e) == if e % 2 == 0 { 1int } else { -1int },
    decreases e,
{
    lemma_pow0(-1);
    if e > 0 {
        lemma_neg_one_pow((e - 1) as nat);
        lemma_pow_adds(-1, 1, (e - 1) as nat);
        lemma_pow1(-1);
    }
}

/// The powers of a principal root of order `n`, at a step that is not a
/// multiple of `n`, sum to zero.
pub proof fn lemma_orthogonality(s: nat, w: int, e: nat)
    requires
        is_principal_root(w, pow2(s)),
        e % pow2(s) != 0,
    ensures
        sum(pow2(s), |k: int| pow(w, (e * k) as nat)) % modulus() == 0,
    decreases s,
{
    let p = modulus();
    let n = pow2(s);
    let f = |k: int| pow(w, (e * k) as nat);
    if s == 0 {
        vstd::arithmetic::power2::lemma2_to64();
        assert(false);
    }
    lemma_pow2_unfold(s);
    let h = pow2((s - 1) as nat);
    vstd::arithmetic::power2::lemma_pow2_pos((s - 1) as nat);
    assert(n == 2 * h);
    assert(n / 2 == h);
    let g = |k: int| f(k) + f(k + h);
    lemma_sum_shift(h, h, f);
    let f2 = |k: int| f(h + k);
    lemma_sum_add(h, f, f2, g);
    let t = pow(w, e * h);
    lemma_pow_multiplies(w, h, e);
    lemma_pow_mod_noop(pow(w, h), e, p);
    lemma_pow_mod_noop(-1, e, p);
    assert((-1int) % p == p - 1) by {
        vstd::arithmetic::div_mod::lemma_mod_add_multiples_vanish(-1, p);
        lemma_small_mod((p - 1) as nat, p as nat);
    }
    lemma_neg_one_pow(e);
    assert(h * e == e * h) by (nonlinear_arith);
    assert forall|k: int| 0 <= k < h implies #[trigger] g(k) == f(k) * (1 + t) by {
        assert(e * (k + h) == e * k + e * h) by (nonlinear_arith)
            requires k >= 0, h >= 0, e >= 0;
        assert(e * k >= 0) by (nonlinear_arith) requires k >= 0, e >= 0;
        lemma_pow_adds(w, (e * k) as nat, (e * h) as nat);
        assert(f(k) * (1 + t) == f(k) + f(k) * t) by (nonlinear_arith);
    }
    if e % 2 == 1 {
        assert(pow(w, h) % p == p - 1);
        assert(pow(-1, e) == -1);
        assert(pow(-1, e) % p == p - 1);
        assert(pow(pow(w, h), e) % p == pow(p - 1, e) % p);
        assert(t == pow(pow(w, h), e));
        assert(t % p == p - 1);
        lemma_add_mod_noop(1, t, p);
        lemma_small_mod(1, p as nat);
        vstd::arithmetic::div_mod::lemma_mod_self_0(p);
        assert((1 + t) % p == 0);
        assert forall|k: int| 0 <= k < h implies #[trigger] g(k) % p == (|k: int| 0int)(k) % p by {
            lemma_mul_mod_noop_right(f(k), 1 + t, p);
        }
        lemma_sum_cong(h, g, |k: int| 0int);
        lemma_sum_const(h, 0);
    } else {
        assert(pow(w, h) % p == p - 1);
        assert(pow(-1, e) == 1);
        lemma_small_mod(1, p as nat);
        assert(pow(pow(w, h), e) % p == pow(p - 1, e) % p);
        assert(t == pow(pow(w, h), e));
        assert(t % p == 1);
        lemma_add_mod_noop(1, t, p);
        lemma_small_mod(1, p as nat);
        lemma_small_mod(2, p as nat);
        assert((1 + t) % p == 2);
        let e2 = (e / 2) as nat;
        assert(e == 2 * e2);
        let w2 = pow(w, 2);
        // the halved sum is one of the same kind, over the square of the root
        lemma_pow_multiplies(w, 2, h);
        if s >= 2 {
            lemma_pow2_unfold((s - 1) as nat);
            lemma_pow_multiplies(w, 2, pow2((s - 2) as nat));
            assert(h / 2 == pow2((s - 2) as nat));
        }
        if e2 % h == 0 {
            vstd::arithmetic::div_mod::lemma_fundamental_div_mod(e2 as int, h as int);
            assert(e2 == h * (e2 / h));
            assert(e == n * (e2 / h)) by (nonlinear_arith) requires e == 2 * e2, e2 == h * (e2 / h), n == 2 * h;
            lemma_mod_multiples_basic((e2 / h) as int, n as int);
            assert(e == (e2 / h) * n) by (nonlinear_arith)
                requires e == n * (e2 / h);
            assert(false);
        }
        assert(pow(w2, h) % p == 1) by {
            assert(pow(w, 2 * h) == pow(w, n));
        }
        if h >= 2 {
            vstd::arithmetic::power2::lemma2_to64();
            assert(s >= 2);
            assert(pow(w2, h / 2) == pow(w, h)) by {
                assert(2 * pow2((s - 2) as nat) == h);
            }
        }
        assert(is_principal_root(w2, h));
        lemma_orthogonality((s - 1) as nat, w2, e2);
        let f3 = |k: int| pow(w2, (e2 * k) as nat);
        assert forall|k: int| 0 <= k < h implies #[trigger] f(k) == f3(k) by {
            assert(e2 * k >= 0) by (nonlinear_arith) requires k >= 0, e2 >= 0;
            lemma_pow_multiplies(w, 2, (e2 * k) as nat);
            assert(e * k == 2 * (e2 * k)) by (nonlinear_arith) requires e == 2 * e2;
        }
        lemma_sum_ext(h, f, f3);
        let g2 = |k: int| 2 * f(k);
        assert forall|k: int| 0 <= k < h implies #[trigger] g(k) % p == g2(k) % p by {
            lemma_mul_mod_noop_right(f(k), 1 + t, p);
            lemma_mul_mod_noop_right(f(k), 2, p);
            assert(f(k) * 2 == 2 * f(k));
        }
        lemma_sum_cong(h, g, g2);
        lemma_sum_scale(h, 2, f, g2);
        lemma_mul_mod_noop_right(2, sum(h, f), p);
    }
}

/// The powers of a root with `w^n = 1`, at a step that is a multiple of `n`,
/// sum to `n`.
proof fn lemma_orthogonality_zero(n: nat, w: int, e: nat)
    requires
        n >= 1,
        pow(w, n) % modulus() == 1,
        e % n == 0,
    ensures
        sum(n, |k: int| pow(w, (e * k) as nat)) % modulus() == (n as int) % modulus(),
{
    let p = modulus();
    let f = |k: int| pow(w, (e * k) as nat);
    let q = e / n;
    vstd::arithmetic::div_mod::lemma_fundamental_div_mod(e as int, n as int);
    assert forall|k: int| 0 <= k < n implies #[trigger] f(k) % p == (|k: int| 1int)(k) % p by {
        assert(q * k >= 0) by (nonlinear_arith) requires q >= 0, k >= 0;
        assert(e * k == n * (q * k)) by (nonlinear_arith) requires e == n * q;
        lemma_pow_multiplies(w, n, (q * k) as nat);
        lemma_pow_mod_noop(pow(w, n), (q * k) as nat, p);
        lemma1_pow((q * k) as nat);
        lemma_small_mod(1, p as nat);
    }
    lemma_sum_cong(n, f, |k: int| 1int);
    lemma_sum_const(n, 1);
}

proof fn lemma_mul_cong(a1: int, a2: int, b1: int, b2: int)
    requires
        a1 % modulus() == a2 % modulus(),
        b1 % modulus() == b2 % modulus(),
    ensures
        (a1 * b1) % modulus() == (a2 * b2) % modulus(),
{
    let p = modulus();
    lemma_mul_mod_noop_left(a1, b1, p);
    lemma_mul_mod_noop_left(a2, b1, p);
    lemma_mul_mod_noop_right(a2, b1, p);
    lemma_mul_mod_noop_right(a2, b2, p);
}

proof fn lemma_fubini(n: nat, q: nat, f: spec_fn(int, int) -> int)
    ensures
        sum(n, |k: int| sum(q, |a: int| f(k, a))) == sum(q, |a: int| sum(n, |k: int| f(k, a))),
    decreases n,
{
    if n > 0 {
        let m = (n - 1) as nat;
        lemma_fubini(m, q, f);
        let g1 = |a: int| sum(m, |k: int| f(k, a));
        let g2 = |a: int| f(m as int, a);
        let g3 = |a: int| sum(n, |k: int| f(k, a));
        assert forall|a: int| 0 <= a < q implies #[trigger] g3(a) == g1(a) + g2(a) by {
            assert(sum(n, |k: int| f(k, a)) == sum(m, |k: int| f(k, a)) + f(m as int, a));
        }
        lemma_sum_add(q, g1, g2, g3);
        let r = |k: int| sum(q, |a: int| f(k, a));
        assert(sum(n, r) == sum(m, r) + r(m as int));
        assert(r(m as int) == sum(q, g2));
        assert(sum(q, g2) == sum(q, |a: int| f(m as int, a)));
        assert(sum(m, r) == sum(q, g1));
        assert(sum(n, r) == sum(q, g3));
    } else {
        lemma_sum_zero_tail(q, 0, |a: int| sum(n, |k: int| f(k, a)));
    }
}

proof fn lemma_sum_single(n: nat, t: int, f: spec_fn(int) -> int)
    requires
        0 <= t < n,
        forall|j: int| 0 <= j < n && j != t ==> #[trigger] f(j) == 0,
    ensures
        sum(n, f) == f(t),
    decreases n,
{
    if n - 1 == t {
        lemma_sum_zero_tail((n - 1) as nat, 0, f);
    } else {
        lemma_sum_single((n - 1) as nat, t, f);
    }
}

/// The inverse of the root is its `(n - 1)`-th power.
proof fn lemma_inverse_root(w: int, n: nat, e: nat)
    requires
        n >= 1,
        pow(w, n) % modulus() == 1,
    ensures
        pow(field_inv(w), e) % modulus() == pow(w, ((n - 1) * e) as nat) % modulus(),
{
    let p = modulus();
    let pw = pow(w, (n - 1) as nat);
    lemma_pow_adds(w, 1, (n - 1) as nat);
    lemma_pow1(w);
    assert(w * pw == pow(w, n));
    let v = pw % p;
    lemma_mul_mod_noop_right(w, pw, p);
    assert(0 <= v < p && (w * v) % p == 1);
    let wi = field_inv(w);
    assert(0 <= wi < p && (w * wi) % p == 1);
    // wi = wi * (w * pw) = (wi * w) * pw, modulo p
    assert(wi * (w * pw) == (wi * w) * pw) by (nonlinear_arith);
    lemma_mul_mod_noop_right(wi, w * pw, p);
    lemma_small_mod(1, p as nat);
    lemma_small_mod(wi as nat, p as nat);
    assert(wi * 1 == wi);
    lemma_mul_mod_noop_left(wi * w, pw, p);
    assert(wi * w == w * wi);
    assert(wi % p == pw % p);
    lemma_pow_mod_noop(wi, e, p);
    lemma_pow_mod_noop(pw, e, p);
    lemma_pow_multiplies(w, (n - 1) as nat, e);
}

/// The size `n = 2^s` has an inverse.
proof fn lemma_inverse_size(s: nat)
    ensures
        (pow2(s) * field_inv(pow2(s) as int)) % modulus() == 1,
{
    let p = modulus();
    let half = (p + 1) / 2;
    assert(2 * half == p + 1);
    let v = pow(half, s) % p;
    vstd::arithmetic::power2::lemma_pow2(s);
    vstd::arithmetic::power::lemma_pow_distributes(2, half, s);
    lemma_pow_mod_noop(p + 1, s, p);
    vstd::arithmetic::div_mod::lemma_mod_add_multiples_vanish(1, p);
    lemma_small_mod(1, p as nat);
    lemma1_pow(s);
    lemma_mul_mod_noop_right(pow(2, s), pow(half, s), p);
    assert(0 <= v < p && (pow2(s) * v) % p == 1);
}

spec fn expo(n: int, i: int, a: int, b: int) -> int {
    a + b + (n - 1) * i
}

spec fn term(c: Seq<int>, x: Seq<int>, w: int, n: int, i: int, k: int, b: int, a: int) -> int {
    x[b] * c[a] * pow(w, (k * expo(n, i, a, b)) as nat)
}

/// Whether `a + b` meets `i` modulo `n`.
proof fn lemma_expo_mod(n: int, i: int, a: int, b: int)
    requires
        0 <= i < n,
        0 <= a < n,
        0 <= b < n,
    ensures
        expo(n, i, a, b) >= 0,
        (expo(n, i, a, b) % n == 0) == (a == (i - b) % n),
{
    let t = (i - b) % n;
    let d: int = if i >= b { 0 } else { 1 };
    if i >= b {
        lemma_small_mod((i - b) as nat, n as nat);
    } else {
        vstd::arithmetic::div_mod::lemma_mod_add_multiples_vanish(i - b, n);
        lemma_small_mod((i - b + n) as nat, n as nat);
    }
    assert(t == i - b + n * d);
    assert((n - 1) * i >= 0) by (nonlinear_arith) requires n >= 1, i >= 0;
    let m = i + d;
    assert(expo(n, i, a, b) == (a - t) + n * m) by (nonlinear_arith)
        requires t == i - b + n * d, m == i + d;
    vstd::arithmetic::div_mod::lemma_mod_multiples_vanish(m, a - t, n);
    assert(n * m == m * n) by (nonlinear_arith);
    if a == t {
        lemma_small_mod(0, n as nat);
    } else if a > t {
        lemma_small_mod((a - t) as nat, n as nat);
    } else {
        vstd::arithmetic::div_mod::lemma_mod_add_multiples_vanish(a - t, n);
        lemma_small_mod((a - t + n) as nat, n as nat);
    }
}

/// One entry of the convolution theorem.
proof fn lemma_convolution_entry(c: Seq<int>, x: Seq<int>, s: nat, i: int)
    requires
        c.len() == pow2(s),
        x.len() == c.len(),
        is_principal_root(root_of_unity(c.len()), c.len()),
        0 <= i < c.len(),
    ensures
        circulant_by_transform(c, x)[i] == circulant_product(c, x)[i],
{
    let p = modulus();
    let n = c.len();
    let ni = n as int;
    let w = root_of_unity(n);
    let xs = dft(w, x);
    let cs = dft(w, c);
    let ps = pointwise(xs, cs);
    let wi = field_inv(w);
    vstd::arithmetic::power2::lemma_pow2_pos(s);
    let f1 = |k: int| ps[k] * pow(wi, (i * k) as nat);
    let sx = |k: int| sum(n, |b: int| x[b] * pow(w, (k * b) as nat));
    let sc = |k: int| sum(n, |a: int| c[a] * pow(w, (k * a) as nat));
    let ff = |k: int, b: int| sum(n, |a: int| term(c, x, w, ni, i, k, b, a));
    let f2 = |k: int| sum(n, |b: int| ff(k, b));
    assert forall|k: int| 0 <= k < n implies #[trigger] f1(k) % p == f2(k) % p by {
        assert(i * k >= 0) by (nonlinear_arith) requires i >= 0, k >= 0;
        let wq = pow(w, ((ni - 1) * (i * k)) as nat);
        lemma_inverse_root(w, n, (i * k) as nat);
        vstd::arithmetic::div_mod::lemma_mod_twice(sx(k), p);
        vstd::arithmetic::div_mod::lemma_mod_twice(sc(k), p);
        lemma_mul_cong(xs[k], sx(k), cs[k], sc(k));
        vstd::arithmetic::div_mod::lemma_mod_twice(xs[k] * cs[k], p);
        lemma_mul_cong(ps[k], sx(k) * sc(k), pow(wi, (i * k) as nat), wq);
        // the product of the two sums, as a double sum
        assert forall|b: int| 0 <= b < n implies #[trigger] ff(k, b) == (sc(k) * wq) * (x[b] * pow(w, (k * b) as nat)) by {
            let ab = x[b] * pow(w, (k * b) as nat) * wq;
            assert forall|a: int| 0 <= a < n implies #[trigger] term(c, x, w, ni, i, k, b, a) == ab * (c[a] * pow(w, (k * a) as nat)) by {
                assert(k * b >= 0 && k * a >= 0) by (nonlinear_arith) requires k >= 0, a >= 0, b >= 0;
                assert((ni - 1) * (i * k) >= 0) by (nonlinear_arith) requires ni >= 1, i >= 0, k >= 0;
                assert(k * expo(ni, i, a, b) == (k * b + k * a) + (ni - 1) * (i * k)) by (nonlinear_arith);
                lemma_pow_adds(w, (k * b) as nat, (k * a) as nat);
                lemma_pow_adds(w, (k * b + k * a) as nat, ((ni - 1) * (i * k)) as nat);
                let u = pow(w, (k * b) as nat);
                let v = pow(w, (k * a) as nat);
                assert(x[b] * c[a] * (u * v * wq) == (x[b] * u * wq) * (c[a] * v)) by (nonlinear_arith);
            }
            lemma_sum_scale(n, ab, |a: int| c[a] * pow(w, (k * a) as nat), |a: int| term(c, x, w, ni, i, k, b, a));
            let u0 = pow(w, (k * b) as nat);
            let scv = sc(k);
            let xb = x[b];
            assert(ab * scv == (scv * wq) * (xb * u0)) by (nonlinear_arith)
                requires ab == xb * u0 * wq;
        }
        lemma_sum_scale(n, sc(k) * wq, |b: int| x[b] * pow(w, (k * b) as nat), |b: int| ff(k, b));
        assert(sx(k) * sc(k) * wq == (sc(k) * wq) * sx(k)) by (nonlinear_arith);
    }
    lemma_sum_cong(n, f1, f2);
    lemma_fubini(n, n, ff);
    // for each column b, only the row a = (i - b) mod n survives
    let lb = |b: int| sum(n, |k: int| ff(k, b));
    let mb = |b: int| ni * (circulant_entry(c, i, b) * x[b]);
    assert forall|b: int| 0 <= b < n implies #[trigger] lb(b) % p == mb(b) % p by {
        let t = (i - b) % ni;
        let tt = |k: int, a: int| term(c, x, w, ni, i, k, b, a);
        lemma_fubini(n, n, tt);
        assert forall|k: int| 0 <= k < n implies #[trigger] ff(k, b) == sum(n, |a: int| tt(k, a)) by {
            lemma_sum_ext(n, |a: int| term(c, x, w, ni, i, k, b, a), |a: int| tt(k, a));
        }
        lemma_sum_ext(n, |k: int| ff(k, b), |k: int| sum(n, |a: int| tt(k, a)));
        let hb = |a: int| sum(n, |k: int| tt(k, a));
        let kb = |a: int| if a == t { ni * (x[b] * c[a]) } else { 0int };
        assert forall|a: int| 0 <= a < n implies #[trigger] hb(a) % p == kb(a) % p by {
            lemma_expo_mod(ni, i, a, b);
            let e = expo(ni, i, a, b) as nat;
            let se = sum(n, |k: int| pow(w, (e * k) as nat));
            lemma_sum_scale(n, x[b] * c[a], |k: int| pow(w, (e * k) as nat), |k: int| tt(k, a));
            if a == t {
                lemma_orthogonality_zero(n, w, e);
                lemma_small_mod(0, p as nat);
                lemma_mul_cong(x[b] * c[a], x[b] * c[a], se, ni);
                assert((x[b] * c[a]) * ni == ni * (x[b] * c[a])) by (nonlinear_arith);
            } else {
                lemma_orthogonality(s, w, e);
                lemma_small_mod(0, p as nat);
                lemma_mul_cong(x[b] * c[a], x[b] * c[a], se, 0);
            }
        }
        lemma_sum_cong(n, hb, kb);
        vstd::arithmetic::div_mod::lemma_mod_bound(i - b, ni);
        lemma_sum_single(n, t, kb);
        assert(x[b] * c[t] == c[t] * x[b]) by (nonlinear_arith);
    }
    lemma_sum_cong(n, lb, mb);
    let tsum = sum(n, |j: int| circulant_entry(c, i, j) * x[j]);
    lemma_sum_scale(n, ni, |j: int| circulant_entry(c, i, j) * x[j], mb);
    // scale back by the inverse of n
    let inv = field_inv(ni);
    lemma_inverse_size(s);
    let ds = dft(wi, ps)[i];
    vstd::arithmetic::div_mod::lemma_mod_twice(sum(n, f1), p);
    assert(ds % p == (ni * tsum) % p);
    lemma_mul_cong(inv, inv, ds, ni * tsum);
    assert(inv * (ni * tsum) == (ni * inv) * tsum) by (nonlinear_arith);
    lemma_small_mod(1, p as nat);
    lemma_mul_cong(ni * inv, 1, tsum, tsum);
}

/// The convolution theorem: for a size `n = 2^s` whose root of unity is
/// principal, transforming, multiplying entrywise and transforming back gives
/// the circulant product.
pub proof fn lemma_convolution(c: Seq<int>, x: Seq<int>, s: nat)
    requires
        c.len() == pow2(s),
        x.len() == c.len(),
        is_principal_root(root_of_unity(c.len()), c.len()),
    ensures
        circulant_by_transform(c, x) == circulant_product(c, x),
{
    assert forall|i: int| 0 <= i < c.len() implies #[trigger] circulant_by_transform(c, x)[i]
        == circulant_product(c, x)[i] by {
        lemma_convolution_entry(c, x, s, i);
    }
    assert(circulant_by_transform(c, x) =~= circulant_product(c, x));
}

} // verus!
