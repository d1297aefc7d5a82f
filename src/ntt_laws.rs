//! Laws of the transforms, stated over the contracts of
//! `TransformContext::forward` and `TransformContext::inverse`.

use vstd::prelude::*;
use vstd::arithmetic::power::*;
use vstd::arithmetic::power2::*;
use vstd::arithmetic::div_mod::*;
use vstd::arithmetic::mul::*;
use crate::ntt::{TransformParams, dft};
use crate::poly::{
    eval, sum, pointwise_add, pointwise_mul, lemma_sum_ext, lemma_sum_mod, lemma_sum_scale, lemma_sum_split, lemma_sum_single,
    lemma_sum_swap, lemma_sum_add, lemma_square_pow,
};

verus! {

/// `1 + y + ... + y^(n-1)`.
pub open spec fn geom(y: int, n: nat) -> int {
    sum(n, |k: int| pow(y, k as nat))
}

/// `(-1)^e == -1` for odd `e`.
proof fn lemma_pow_neg_one_odd(e: nat)
    requires
        e % 2 == 1,
    ensures
        pow(-1, e) == -1,
{
    let q = e / 2;
    lemma_pow_adds(-1, 2 * q, 1);
    lemma_pow_multiplies(-1, 2, q);
    lemma_pow_adds(-1, 1, 1);
    lemma_pow1(-1);
    lemma1_pow(q);
    assert(e == 2 * q + 1);
}

/// `1 + y + ... + y^(2h-1) == (1 + y^h)(1 + y + ... + y^(h-1))`.
proof fn lemma_geom_halves(y: int, h: nat)
    ensures
        geom(y, 2 * h) == (1 + pow(y, h)) * geom(y, h),
{
    let f = |k: int| pow(y, k as nat);
    lemma_sum_split(h, h, f);
    assert(h + h == 2 * h);
    let c = pow(y, h);
    assert forall|k: int| 0 <= k < h implies #[trigger] f(h + k) == c * f(k) by {
        lemma_pow_adds(y, h, k as nat);
    }
    lemma_sum_ext(h, |k: int| f(h + k), |k: int| c * f(k));
    lemma_sum_scale(h, c, f);
    lemma_mul_is_distributive_add_other_way(geom(y, h), 1, c);
}

/// `1 + w^e + w^2e + ... == 0 (mod m)` over a full period `2^l` of `w`,
/// for `0 < e < 2^l`, when `w^(2^(l-1)) == -1 (mod m)`.
pub proof fn lemma_geom_vanishes(w: int, l: nat, e: int, m: int)
    requires
        m >= 2,
        l >= 1,
        pow(w, pow2((l - 1) as nat)) % m == m - 1,
        0 < e < pow2(l),
    ensures
        geom(pow(w, e as nat), pow2(l)) % m == 0,
    decreases l,
{
    let h = pow2((l - 1) as nat);
    lemma_pow2_unfold(l);
    let y = pow(w, e as nat);
    lemma_geom_halves(y, h);
    // y^h = (w^h)^e
    lemma_pow_multiplies(w, e as nat, h);
    lemma_pow_multiplies(w, h, e as nat);
    lemma_mul_is_commutative(e, h as int);
    let s = geom(y, h);
    if e % 2 == 1 {
        lemma_pow_mod_noop(pow(w, h), e as nat, m);
        lemma_pow_mod_noop(-1, e as nat, m);
        lemma_fundamental_div_mod_converse(-1, m, -1, m - 1);
        lemma_pow_neg_one_odd(e as nat);
        assert(pow(y, h) % m == (-1) % m);
        lemma_add_mod_noop(1, pow(y, h), m);
        lemma_add_mod_noop(1, -1, m);
        lemma_small_mod(0, m as nat);
        assert((1 + pow(y, h)) % m == 0);
        lemma_mul_mod_noop_left(1 + pow(y, h), s, m);
        assert(0 * s == 0);
    } else {
        let e2 = e / 2;
        assert(l >= 2) by {
            if l == 1 {
                lemma2_to64();
            }
        }
        let w2 = w * w;
        lemma_square_pow(w, e2 as nat);
        assert(y == pow(w2, e2 as nat));
        lemma_pow2_unfold((l - 1) as nat);
        lemma_square_pow(w, pow2((l - 2) as nat));
        assert(((l - 1) - 1) as nat == (l - 2) as nat);
        lemma_geom_vanishes(w2, (l - 1) as nat, e2, m);
        assert(s % m == 0);
        lemma_mul_mod_noop_right(1 + pow(y, h), s, m);
        lemma_small_mod(0, m as nat);
        assert((1 + pow(y, h)) * 0 == 0);
    }
}

/// `1 + 1 + ... + 1 == n`.
proof fn lemma_geom_one(n: nat)
    ensures
        geom(1, n) == n,
    decreases n,
{
    if n > 0 {
        lemma_geom_one((n - 1) as nat);
        lemma1_pow((n - 1) as nat);
    }
}

/// `w^e == w^(e mod n) (mod m)` when `w^n == 1 (mod m)`.
proof fn lemma_pow_reduce(w: int, e: nat, n: nat, m: int)
    requires
        m >= 2,
        n >= 1,
        pow(w, n) % m == 1,
    ensures
        pow(w, e) % m == pow(w, (e % n) as nat) % m,
{
    let q = e / n;
    let r = e % n;
    lemma_fundamental_div_mod(e as int, n as int);
    lemma_pow_multiplies(w, n, q);
    lemma_pow_adds(w, n * q, r as nat);
    lemma_pow_mod_noop(pow(w, n), q, m);
    lemma1_pow(q);
    lemma_small_mod(1, m as nat);
    lemma_mul_mod_noop_left(pow(w, n * q), pow(w, r as nat), m);
    assert(e == n * q + r);
    assert(pow(w, e) == pow(w, n * q) * pow(w, r as nat));
    assert(pow(w, n * q) % m == 1);
}

/// `omega^n == 1`, `omega * omega_inv == 1`, `omega_inv == omega^(n-1)`
/// and `size_inv * n == 1`, all modulo the modulus.
proof fn lemma_omega_facts(p: TransformParams)
    requires
        p.valid(),
    ensures
        pow(p.omega(), p.size()) % p.modulus == 1,
        (p.omega() * p.omega_inv()) % p.modulus == 1,
        p.omega_inv() % p.modulus == pow(p.omega(), (p.size() - 1) as nat) % p.modulus,
        (p.size_inv() * p.size()) % p.modulus == 1,
{
    let m = p.modulus;
    let n = p.size();
    let root = p.root;
    lemma_pow2_pos(p.log_size);
    lemma_small_mod(1, m as nat);
    // omega^n == root^(2n) == 1
    lemma_pow_mod_noop(root * root, n, m);
    lemma_square_pow(root, n);
    // root * root_inv == root^(2n) == 1
    let ri = p.root_inv();
    lemma_pow_adds(root, 1, (2 * n - 1) as nat);
    lemma_pow1(root);
    lemma_mul_mod_noop_right(root, pow(root, (2 * n - 1) as nat), m);
    assert((root * ri) % m == 1);
    // omega * omega_inv == (root * root_inv)^2 == 1
    lemma_mul_mod_noop(root * root, ri * ri, m);
    assert((root * root) * (ri * ri) == (root * ri) * (root * ri)) by (nonlinear_arith);
    lemma_mul_mod_noop(root * ri, root * ri, m);
    let w = p.omega();
    let wi = p.omega_inv();
    assert((w * wi) % m == 1);
    // omega_inv == omega_inv * omega^n == omega^(n-1)
    lemma_pow_adds(w, 1, (n - 1) as nat);
    lemma_pow1(w);
    assert(pow(w, n) == w * pow(w, (n - 1) as nat));
    lemma_mul_mod_noop_right(wi, pow(w, n), m);
    assert(wi * pow(w, n) == (wi * w) * pow(w, (n - 1) as nat)) by (nonlinear_arith)
        requires
            pow(w, n) == w * pow(w, (n - 1) as nat),
    ;
    lemma_mul_mod_noop_left(wi * w, pow(w, (n - 1) as nat), m);
    lemma_mul_is_commutative(wi, w);
    lemma_small_mod(wi as nat, m as nat);
    assert(pow(w, n) % m == 1);
    assert((wi * (pow(w, n) % m)) % m == (wi * pow(w, n)) % m);
    assert(wi * 1 == wi);
    assert((wi * pow(w, n)) % m == wi % m);
    assert((wi * w) % m == 1);
    assert((((wi * w) % m) * pow(w, (n - 1) as nat)) % m == ((wi * w) * pow(w, (n - 1) as nat)) % m);
    assert(1 * pow(w, (n - 1) as nat) == pow(w, (n - 1) as nat));
    assert(((wi * w) * pow(w, (n - 1) as nat)) % m == pow(w, (n - 1) as nat) % m);
    // size_inv * n == ((m + 1) / 2 * 2)^log_size == (m + 1)^log_size == 1
    let hm = m / 2 + 1;
    lemma_pow2(p.log_size);
    lemma_pow_distributes(hm, 2, p.log_size);
    lemma_mul_mod_noop_left(pow(hm, p.log_size), pow(2, p.log_size), m);
    if p.log_size == 0 {
        lemma_pow0(hm * 2);
    } else {
        assert(hm * 2 == m + 1);
        lemma_pow_mod_noop(m + 1, p.log_size, m);
        lemma_fundamental_div_mod_converse(m + 1, m, 1, 1);
        lemma1_pow(p.log_size);
    }
}

/// Evaluating the transform of `a` at `omega^-i` gives `n * a[i]`.
#[verifier::rlimit(60)]
proof fn lemma_inverse_point(p: TransformParams, a: Seq<u64>, i: int)
    requires
        p.valid(),
        a.len() == p.size(),
        0 <= i < a.len(),
    ensures
        eval(dft(a, p.omega(), p.modulus), pow(p.omega_inv(), i as nat)) % p.modulus == (a[i]
            * p.size()) % p.modulus,
{
    let m = p.modulus;
    let n = p.size();
    let w = p.omega();
    let big_a = dft(a, w, m);
    let z = pow(p.omega_inv(), i as nat);
    lemma_omega_facts(p);
    lemma_pow2_pos(p.log_size);
    // coefficient k of the transform is congruent to a(w^k)
    let f1 = |k: int| big_a[k] as int * pow(z, k as nat);
    let f2 = |k: int| pow(z, k as nat) * eval(a, pow(w, k as nat));
    assert forall|k: int| 0 <= k < n implies #[trigger] f1(k) % m == f2(k) % m by {
        lemma_mul_mod_noop_left(eval(a, pow(w, k as nat)), pow(z, k as nat), m);
        lemma_mul_is_commutative(eval(a, pow(w, k as nat)), pow(z, k as nat));
    }
    lemma_sum_mod(n, f1, f2, m);
    // expand and swap the double sum
    let t = |k: int, j: int| pow(z, k as nat) * (a[j] as int * pow(pow(w, k as nat), j as nat));
    assert forall|k: int| 0 <= k < n implies #[trigger] f2(k) == sum(n, |j: int| t(k, j)) by {
        let x = pow(w, k as nat);
        lemma_sum_scale(n, pow(z, k as nat), |j: int| a[j] as int * pow(x, j as nat));
        lemma_sum_ext(
            n,
            |j: int| pow(z, k as nat) * (|j: int| a[j] as int * pow(x, j as nat))(j),
            |j: int| t(k, j),
        );
    }
    lemma_sum_ext(n, f2, |k: int| sum(n, |j: int| t(k, j)));
    lemma_sum_swap(n, n, t);
    // the inner sums are geometric
    let c = |j: int| pow(w, j as nat) * z;
    let g = |j: int| a[j] as int * geom(c(j), n);
    assert forall|j: int| 0 <= j < n implies sum(n, |k: int| t(k, j)) == #[trigger] g(j) by {
        assert forall|k: int| 0 <= k < n implies #[trigger] t(k, j) == a[j] as int * pow(c(j), k as nat) by {
            lemma_pow_multiplies(w, k as nat, j as nat);
            lemma_pow_multiplies(w, j as nat, k as nat);
            lemma_mul_is_commutative(k, j);
            lemma_pow_distributes(pow(w, j as nat), z, k as nat);
            let pz = pow(z, k as nat);
            let pw = pow(pow(w, j as nat), k as nat);
            let aj = a[j] as int;
            assert(pz * (aj * pw) == aj * (pw * pz)) by (nonlinear_arith);
        }
        let fc = |k: int| pow(c(j), k as nat);
        lemma_sum_ext(n, |k: int| t(k, j), |k: int| a[j] as int * fc(k));
        lemma_sum_scale(n, a[j] as int, fc);
        assert(geom(c(j), n) == sum(n, fc));
    }
    lemma_sum_ext(n, |j: int| sum(n, |k: int| t(k, j)), g);
    // geom(c(j), n) is n for j == i and 0 otherwise, modulo m
    let g2 = |j: int| if j == i { a[j] * n } else { 0 };
    assert forall|j: int| 0 <= j < n implies #[trigger] g(j) % m == g2(j) % m by {
        let d = ((j + (n - 1) * i) % (n as int)) as nat;
        // c(j) == w^(j + (n-1) i) == w^d
        lemma_pow_mod_noop(p.omega_inv(), i as nat, m);
        lemma_pow_mod_noop(pow(w, (n - 1) as nat), i as nat, m);
        lemma_pow_multiplies(w, (n - 1) as nat, i as nat);
        assert(z % m == pow(w, ((n - 1) * i) as nat) % m);
        lemma_mul_mod_noop_right(pow(w, j as nat), z, m);
        lemma_mul_mod_noop_right(pow(w, j as nat), pow(w, ((n - 1) * i) as nat), m);
        lemma_pow_adds(w, j as nat, ((n - 1) * i) as nat);
        lemma_pow_reduce(w, (j + (n - 1) * i) as nat, n, m);
        assert(c(j) % m == pow(w, d) % m);
        let f3 = |k: int| pow(c(j), k as nat);
        let f4 = |k: int| pow(pow(w, d), k as nat);
        assert forall|k: int| 0 <= k < n implies #[trigger] f3(k) % m == f4(k) % m by {
            lemma_pow_mod_noop(c(j), k as nat, m);
            lemma_pow_mod_noop(pow(w, d), k as nat, m);
        }
        lemma_sum_mod(n, f3, f4, m);
        lemma_mul_mod_noop_right(a[j] as int, geom(c(j), n), m);
        lemma_mul_mod_noop_right(a[j] as int, geom(pow(w, d), n), m);
        if j == i {
            assert(j + (n - 1) * i == n * i) by (nonlinear_arith)
                requires
                    j == i,
            ;
            lemma_mod_multiples_basic(i, n as int);
            lemma_mul_is_commutative(n as int, i);
            assert(d == 0);
            lemma_pow0(w);
            lemma_geom_one(n);
        } else {
            assert(j + (n - 1) * i == (j - i) + n * i) by (nonlinear_arith);
            lemma_mod_multiples_vanish(i, j - i, n as int);
            assert(d == (j - i) % (n as int));
            if j > i {
                lemma_small_mod((j - i) as nat, n);
            } else {
                lemma_fundamental_div_mod_converse(j - i, n as int, -1, j - i + n);
            }
            assert(0 < d < n);
            if p.log_size == 0 {
                lemma2_to64();
            }
            assert(p.log_size >= 1);
            crate::ntt::lemma_omega_half(p);
            lemma_geom_vanishes(w, p.log_size, d as int, m);
            assert((a[j] as int * (geom(pow(w, d), n) % m)) % m == 0) by {
                lemma_mul_basics(a[j] as int);
                lemma_small_mod(0, m as nat);
            }
        }
    }
    lemma_sum_mod(n, g, g2, m);
    lemma_sum_single(n, g2, i);
}

/// Inverting the forward transform gives back the polynomial: for every
/// valid context and every polynomial of its size with coefficients below
/// the modulus, `inverse(forward(a)) == a`.
pub proof fn lemma_round_trip(p: TransformParams, a: Seq<u64>)
    requires
        p.valid(),
        a.len() == p.size(),
        forall|i: int| 0 <= i < a.len() ==> a[i] < p.modulus,
    ensures
        p.inverse_spec(p.forward_spec(a)) == a,
{
    let m = p.modulus;
    let n = p.size();
    let v = dft(dft(a, p.omega(), m), p.omega_inv(), m);
    lemma_omega_facts(p);
    assert forall|i: int| 0 <= i < a.len() implies #[trigger] p.inverse_spec(p.forward_spec(a))[i]
        == a[i] by {
        lemma_inverse_point(p, a, i);
        let e = eval(dft(a, p.omega(), m), pow(p.omega_inv(), i as nat));
        assert(v[i] as int == e % m);
        lemma_mul_mod_noop_right(p.size_inv(), e, m);
        lemma_mul_mod_noop_right(p.size_inv(), a[i] * n, m);
        assert(p.size_inv() * (a[i] * n) == a[i] * (p.size_inv() * n)) by (nonlinear_arith);
        lemma_mul_mod_noop_right(a[i] as int, p.size_inv() * n, m);
        lemma_small_mod(a[i] as nat, m as nat);
    }
    assert(p.inverse_spec(p.forward_spec(a)) =~= a);
}

/// The forward transform is linear: transforming a sum of polynomials
/// gives the sum of their transforms, with addition modulo the modulus on
/// both sides.
pub proof fn lemma_linearity(p: TransformParams, a: Seq<u64>, b: Seq<u64>)
    requires
        p.valid(),
        a.len() == p.size(),
        b.len() == p.size(),
    ensures
        pointwise_add(p.forward_spec(a), p.forward_spec(b), p.modulus) == p.forward_spec(
            pointwise_add(a, b, p.modulus),
        ),
{
    let m = p.modulus;
    let n = p.size();
    let w = p.omega();
    let c = pointwise_add(a, b, m);
    assert forall|k: int| 0 <= k < n implies #[trigger] pointwise_add(
        p.forward_spec(a),
        p.forward_spec(b),
        m,
    )[k] == p.forward_spec(c)[k] by {
        let x = pow(w, k as nat);
        let fa = |j: int| a[j] as int * pow(x, j as nat);
        let fb = |j: int| b[j] as int * pow(x, j as nat);
        let fc = |j: int| c[j] as int * pow(x, j as nat);
        assert forall|j: int| 0 <= j < n implies #[trigger] fc(j) % m == (fa(j) + fb(j)) % m by {
            lemma_mul_mod_noop_left(a[j] + b[j], pow(x, j as nat), m);
            lemma_mul_is_distributive_add_other_way(pow(x, j as nat), a[j] as int, b[j] as int);
        }
        lemma_sum_mod(n, fc, |j: int| fa(j) + fb(j), m);
        lemma_sum_add(n, fa, fb);
        lemma_add_mod_noop(eval(a, x), eval(b, x), m);
    }
    assert(pointwise_add(p.forward_spec(a), p.forward_spec(b), m) =~= p.forward_spec(c));
}

/// The cyclic convolution of `a` and `b` modulo `m`:
/// `c[i] = sum_j a[j] * b[(i - j) mod n] mod m`.
pub open spec fn cyclic_convolution(a: Seq<u64>, b: Seq<u64>, m: int) -> Seq<u64> {
    Seq::new(
        a.len(),
        |i: int| (sum(a.len(), |j: int| a[j] * b[(i - j) % (a.len() as int)]) % m) as u64,
    )
}

/// Rotating the range of a sum does not change it.
proof fn lemma_sum_rotate(n: nat, f: spec_fn(int) -> int, j: int)
    requires
        0 <= j < n,
    ensures
        sum(n, |l: int| f((l + j) % (n as int))) == sum(n, f),
{
    let g = |l: int| f((l + j) % (n as int));
    let k = (n - j) as nat;
    lemma_sum_split(k, j as nat, g);
    lemma_sum_split(j as nat, k, f);
    assert(k + j as nat == n);
    assert forall|l: int| 0 <= l < k implies #[trigger] g(l) == f(j + l) by {
        lemma_small_mod((l + j) as nat, n);
    }
    assert forall|l: int| 0 <= l < j implies #[trigger] g(k + l) == f(l) by {
        lemma_fundamental_div_mod_converse(k + l + j, n as int, 1, l);
    }
    lemma_sum_ext(k, g, |l: int| f(j + l));
    lemma_sum_ext(j as nat, |l: int| g(k + l), f);
    assert(sum(n, g) == sum(k, g) + sum(j as nat, |l: int| g(k + l)));
    assert(sum(n, f) == sum(j as nat, f) + sum(k, |l: int| f(j + l)));
}

/// `a(x) b(x) == c(x) (mod m)` for the cyclic convolution `c` when
/// `x^n == 1 (mod m)`.
#[verifier::rlimit(60)]
proof fn lemma_convolution_point(a: Seq<u64>, b: Seq<u64>, x: int, m: int)
    requires
        2 <= m <= u64::MAX,
        a.len() == b.len(),
        a.len() >= 1,
        pow(x, a.len()) % m == 1,
    ensures
        eval(cyclic_convolution(a, b, m), x) % m == (eval(a, x) * eval(b, x)) % m,
{
    let n = a.len();
    let ni = n as int;
    let c = cyclic_convolution(a, b, m);
    let t = |i: int, j: int| pow(x, i as nat) * (a[j] * b[(i - j) % ni]);
    // reduce away the "mod m" inside c
    let f1 = |i: int| c[i] as int * pow(x, i as nat);
    let f2 = |i: int| sum(n, |j: int| t(i, j));
    assert forall|i: int| 0 <= i < n implies #[trigger] f1(i) % m == f2(i) % m by {
        let inner = |j: int| a[j] * b[(i - j) % ni];
        lemma_sum_scale(n, pow(x, i as nat), inner);
        lemma_sum_ext(n, |j: int| pow(x, i as nat) * inner(j), |j: int| t(i, j));
        lemma_mul_mod_noop_left(sum(n, inner), pow(x, i as nat), m);
        lemma_mul_is_commutative(sum(n, inner), pow(x, i as nat));
    }
    lemma_sum_mod(n, f1, f2, m);
    lemma_sum_swap(n, n, t);
    // for each j, the inner sum is a[j] x^j b(x)
    let eb = eval(b, x);
    let h = |j: int| sum(n, |i: int| t(i, j));
    let h2 = |j: int| eb * (a[j] * pow(x, j as nat));
    assert forall|j: int| 0 <= j < n implies #[trigger] h(j) % m == h2(j) % m by {
        let u = |i: int| pow(x, i as nat) * b[(i - j) % ni];
        assert forall|i: int| 0 <= i < n implies #[trigger] t(i, j) == a[j] * u(i) by {
            let pi = pow(x, i as nat);
            let aj = a[j] as int;
            let bij = b[(i - j) % ni] as int;
            assert(pi * (aj * bij) == aj * (pi * bij)) by (nonlinear_arith);
        }
        lemma_sum_ext(n, |i: int| t(i, j), |i: int| a[j] * u(i));
        lemma_sum_scale(n, a[j] as int, u);
        assert(h(j) == a[j] * sum(n, u));
        lemma_sum_rotate(n, u, j);
        let v = |l: int| b[l] as int * pow(x, ((l + j) % ni) as nat);
        assert forall|l: int| 0 <= l < n implies #[trigger] u((l + j) % ni) == v(l) by {
            lemma_mod_bound(l + j, ni);
            lemma_sub_mod_noop(l + j, j, ni);
            lemma_small_mod(l as nat, n);
            lemma_small_mod(j as nat, n);
            lemma_mod_twice(l + j, ni);
            assert(((l + j) % ni - j) % ni == l);
            lemma_mul_is_commutative(pow(x, ((l + j) % ni) as nat), b[l] as int);
        }
        lemma_sum_ext(n, |l: int| u((l + j) % ni), v);
        assert(sum(n, u) == sum(n, v));
        let v2 = |l: int| pow(x, j as nat) * (b[l] as int * pow(x, l as nat));
        assert forall|l: int| 0 <= l < n implies #[trigger] v(l) % m == v2(l) % m by {
            lemma_pow_reduce(x, (l + j) as nat, n, m);
            lemma_pow_adds(x, j as nat, l as nat);
            lemma_mul_mod_noop_right(b[l] as int, pow(x, ((l + j) % ni) as nat), m);
            lemma_mul_mod_noop_right(b[l] as int, pow(x, (l + j) as nat), m);
            let bl = b[l] as int;
            assert(bl * (pow(x, j as nat) * pow(x, l as nat)) == pow(x, j as nat) * (bl * pow(
                x,
                l as nat,
            ))) by (nonlinear_arith);
        }
        lemma_sum_mod(n, v, v2, m);
        let fb = |l: int| b[l] as int * pow(x, l as nat);
        lemma_sum_scale(n, pow(x, j as nat), fb);
        lemma_sum_ext(n, v2, |l: int| pow(x, j as nat) * fb(l));
        assert(eb == sum(n, fb));
        assert(sum(n, v2) == pow(x, j as nat) * eb);
        assert(sum(n, u) % m == (pow(x, j as nat) * eb) % m);
        // h(j) == a[j] * sum(u) and sum(u) == x^j * eb (mod m)
        lemma_mul_mod_noop_right(a[j] as int, sum(n, u), m);
        lemma_mul_mod_noop_right(a[j] as int, pow(x, j as nat) * eb, m);
        let aj = a[j] as int;
        let pj = pow(x, j as nat);
        assert(aj * (pj * eb) == eb * (aj * pj)) by (nonlinear_arith);
    }
    lemma_sum_mod(n, h, h2, m);
    let fa = |j: int| a[j] as int * pow(x, j as nat);
    lemma_sum_scale(n, eb, fa);
    lemma_sum_ext(n, h2, |j: int| eb * fa(j));
    assert(eval(a, x) == sum(n, fa));
    lemma_mul_is_commutative(eb, eval(a, x));
    assert(sum(n, f1) == eval(c, x));
    assert(sum(n, f2) == sum(n, h));
}

/// The convolution theorem: multiplying transforms pointwise and
/// transforming back gives the cyclic convolution of the polynomials,
/// reduced modulo the modulus.
pub proof fn lemma_convolution(p: TransformParams, a: Seq<u64>, b: Seq<u64>)
    requires
        p.valid(),
        a.len() == p.size(),
        b.len() == p.size(),
    ensures
        p.inverse_spec(pointwise_mul(p.forward_spec(a), p.forward_spec(b), p.modulus))
            == cyclic_convolution(a, b, p.modulus),
{
    let m = p.modulus;
    let n = p.size();
    let w = p.omega();
    let c = cyclic_convolution(a, b, m);
    lemma_omega_facts(p);
    lemma_pow2_pos(p.log_size);
    let prod = pointwise_mul(p.forward_spec(a), p.forward_spec(b), m);
    assert forall|k: int| 0 <= k < n implies #[trigger] prod[k] == p.forward_spec(c)[k] by {
        let x = pow(w, k as nat);
        lemma_pow_multiplies(w, k as nat, n);
        lemma_pow_multiplies(w, n, k as nat);
        lemma_mul_is_commutative(k, n as int);
        lemma_pow_mod_noop(pow(w, n), k as nat, m);
        lemma1_pow(k as nat);
        lemma_small_mod(1, m as nat);
        lemma_convolution_point(a, b, x, m);
        lemma_mul_mod_noop(eval(a, x), eval(b, x), m);
    }
    assert(prod =~= p.forward_spec(c));
    lemma_round_trip(p, c);
}

} // verus!
