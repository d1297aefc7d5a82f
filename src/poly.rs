//! Finite sums and polynomial evaluation over the integers, the vocabulary in
//! which the transforms are specified.

use vstd::prelude::*;
use vstd::arithmetic::power::*;
use vstd::arithmetic::div_mod::*;
use vstd::arithmetic::mul::*;

verus! {

/// `f(0) + f(1) + ... + f(n - 1)`.
pub open spec fn sum(n: nat, f: spec_fn(int) -> int) -> int
    decreases n,
{
    if n == 0 {
        0
    } else {
        sum((n - 1) as nat, f) + f(n - 1)
    }
}

/// The polynomial with coefficients `a` (constant term first) evaluated at `x`.
pub open spec fn eval(a: Seq<u64>, x: int) -> int {
    sum(a.len(), |j: int| a[j] as int * pow(x, j as nat))
}

/// Coefficientwise `(a[i] + b[i]) mod m`.
pub open spec fn pointwise_add(a: Seq<u64>, b: Seq<u64>, m: int) -> Seq<u64> {
    Seq::new(a.len(), |i: int| ((a[i] + b[i]) % m) as u64)
}

/// Coefficientwise `(a[i] * b[i]) mod m`.
pub open spec fn pointwise_mul(a: Seq<u64>, b: Seq<u64>, m: int) -> Seq<u64> {
    Seq::new(a.len(), |i: int| ((a[i] * b[i]) % m) as u64)
}

/// The coefficients at even positions of a sequence of even length.
pub open spec fn evens(s: Seq<u64>) -> Seq<u64> {
    Seq::new(s.len() / 2, |t: int| s[2 * t])
}

/// The coefficients at odd positions of a sequence of even length.
pub open spec fn odds(s: Seq<u64>) -> Seq<u64> {
    Seq::new(s.len() / 2, |t: int| s[2 * t + 1])
}

/// Sums of functions that agree on the range are equal.
pub proof fn lemma_sum_ext(n: nat, f: spec_fn(int) -> int, g: spec_fn(int) -> int)
    requires
        forall|j: int| 0 <= j < n ==> #[trigger] f(j) == g(j),
    ensures
        sum(n, f) == sum(n, g),
    decreases n,
{
    if n > 0 {
        lemma_sum_ext((n - 1) as nat, f, g);
    }
}

/// Sums of termwise congruent functions are congruent.
pub proof fn lemma_sum_mod(n: nat, f: spec_fn(int) -> int, g: spec_fn(int) -> int, m: int)
    requires
        m > 0,
        forall|j: int| 0 <= j < n ==> #[trigger] f(j) % m == g(j) % m,
    ensures
        sum(n, f) % m == sum(n, g) % m,
    decreases n,
{
    if n > 0 {
        lemma_sum_mod((n - 1) as nat, f, g, m);
        let sf = sum((n - 1) as nat, f);
        let sg = sum((n - 1) as nat, g);
        lemma_add_mod_noop(sf, f(n - 1), m);
        lemma_add_mod_noop(sg, g(n - 1), m);
    }
}

/// The sum of a termwise sum is the sum of the sums.
pub proof fn lemma_sum_add(n: nat, f: spec_fn(int) -> int, g: spec_fn(int) -> int)
    ensures
        sum(n, |j: int| f(j) + g(j)) == sum(n, f) + sum(n, g),
    decreases n,
{
    if n > 0 {
        lemma_sum_add((n - 1) as nat, f, g);
    }
}

/// A constant factor comes out of a sum.
pub proof fn lemma_sum_scale(n: nat, c: int, f: spec_fn(int) -> int)
    ensures
        sum(n, |j: int| c * f(j)) == c * sum(n, f),
    decreases n,
{
    if n > 0 {
        lemma_sum_scale((n - 1) as nat, c, f);
        lemma_mul_is_distributive_add(c, sum((n - 1) as nat, f), f(n - 1));
    }
}

/// A sum over `h + k` terms splits after the first `h`.
pub proof fn lemma_sum_split(h: nat, k: nat, f: spec_fn(int) -> int)
    ensures
        sum(h + k, f) == sum(h, f) + sum(k, |j: int| f(h + j)),
    decreases k,
{
    if k > 0 {
        lemma_sum_split(h, (k - 1) as nat, f);
        assert((h + k - 1) as nat == h + (k - 1) as nat);
    }
}

/// A sum over `2h` terms splits into its even and odd terms.
pub proof fn lemma_sum_even_odd(h: nat, f: spec_fn(int) -> int)
    ensures
        sum(2 * h, f) == sum(h, |t: int| f(2 * t)) + sum(h, |t: int| f(2 * t + 1)),
    decreases h,
{
    if h > 0 {
        lemma_sum_even_odd((h - 1) as nat, f);
        assert(sum(2 * h, f) == sum((2 * h - 1) as nat, f) + f(2 * h - 1));
        assert(sum((2 * h - 1) as nat, f) == sum((2 * (h - 1)) as nat, f) + f(2 * h - 2));
    }
}

/// A sum with one nonzero term is that term.
pub proof fn lemma_sum_single(n: nat, f: spec_fn(int) -> int, i: int)
    requires
        0 <= i < n,
        forall|j: int| 0 <= j < n && j != i ==> #[trigger] f(j) == 0,
    ensures
        sum(n, f) == f(i),
    decreases n,
{
    if n - 1 == i {
        lemma_sum_zero((n - 1) as nat, f);
    } else {
        lemma_sum_single((n - 1) as nat, f, i);
    }
}

/// A sum of zeros is zero.
pub proof fn lemma_sum_zero(n: nat, f: spec_fn(int) -> int)
    requires
        forall|j: int| 0 <= j < n ==> #[trigger] f(j) == 0,
    ensures
        sum(n, f) == 0,
    decreases n,
{
    if n > 0 {
        lemma_sum_zero((n - 1) as nat, f);
    }
}

/// The order of a double sum can be exchanged.
pub proof fn lemma_sum_swap(n: nat, k: nat, f: spec_fn(int, int) -> int)
    ensures
        sum(n, |a: int| sum(k, |b: int| f(a, b))) == sum(k, |b: int| sum(n, |a: int| f(a, b))),
    decreases n,
{
    if n > 0 {
        lemma_sum_swap((n - 1) as nat, k, f);
        let g = |b: int| sum((n - 1) as nat, |a: int| f(a, b));
        let h = |b: int| f(n - 1, b);
        lemma_sum_add(k, g, h);
        lemma_sum_ext(
            k,
            |b: int| sum(n, |a: int| f(a, b)),
            |b: int| g(b) + h(b),
        );
        let outer = |a: int| sum(k, |b: int| f(a, b));
        assert(sum(n, outer) == sum((n - 1) as nat, outer) + outer(n - 1));
    } else {
        lemma_sum_zero(k, |b: int| sum(n, |a: int| f(a, b)));
    }
}

/// `a(x) == a_even(x^2) + x * a_odd(x^2)`.
pub proof fn lemma_eval_even_odd(s: Seq<u64>, x: int)
    requires
        s.len() % 2 == 0,
    ensures
        eval(s, x) == eval(evens(s), x * x) + x * eval(odds(s), x * x),
{
    let h = s.len() / 2;
    let f = |j: int| s[j] as int * pow(x, j as nat);
    lemma_sum_even_odd(h, f);
    let e = evens(s);
    let o = odds(s);
    let fe = |t: int| e[t] as int * pow(x * x, t as nat);
    let fo = |t: int| o[t] as int * pow(x * x, t as nat);
    assert forall|t: int| 0 <= t < h implies #[trigger] f(2 * t) == fe(t) by {
        lemma_square_pow(x, t as nat);
    }
    assert forall|t: int| 0 <= t < h implies #[trigger] f(2 * t + 1) == x * fo(t) by {
        lemma_square_pow(x, t as nat);
        lemma_pow_adds(x, (2 * t) as nat, 1);
        lemma_pow1(x);
        assert(pow(x, (2 * t + 1) as nat) == pow(x, (2 * t) as nat) * x);
        let c = o[t] as int;
        let p = pow(x, (2 * t) as nat);
        assert(c * (p * x) == x * (c * p)) by (nonlinear_arith);
    }
    lemma_sum_ext(h, |t: int| f(2 * t), fe);
    lemma_sum_ext(h, |t: int| f(2 * t + 1), |t: int| x * fo(t));
    lemma_sum_scale(h, x, fo);
}

/// `x^(2t) == (x * x)^t`.
pub proof fn lemma_square_pow(x: int, t: nat)
    ensures
        pow(x, 2 * t) == pow(x * x, t),
{
    lemma_pow_multiplies(x, 2, t);
    lemma_pow1(x);
    lemma_pow_adds(x, 1, 1);
}

/// Congruent points give congruent values.
pub proof fn lemma_eval_congruent(s: Seq<u64>, x: int, y: int, m: int)
    requires
        m > 0,
        x % m == y % m,
    ensures
        eval(s, x) % m == eval(s, y) % m,
{
    let f = |j: int| s[j] as int * pow(x, j as nat);
    let g = |j: int| s[j] as int * pow(y, j as nat);
    assert forall|j: int| 0 <= j < s.len() implies #[trigger] f(j) % m == g(j) % m by {
        lemma_pow_mod_noop(x, j as nat, m);
        lemma_pow_mod_noop(y, j as nat, m);
        lemma_mul_mod_noop_right(s[j] as int, pow(x, j as nat), m);
        lemma_mul_mod_noop_right(s[j] as int, pow(y, j as nat), m);
    }
    lemma_sum_mod(s.len(), f, g, m);
}

/// A constant polynomial evaluates to its coefficient.
pub proof fn lemma_eval_single(s: Seq<u64>, x: int)
    requires
        s.len() == 1,
    ensures
        eval(s, x) == s[0] as int,
{
    lemma_pow0(x);
    assert(sum(1, |j: int| s[j] as int * pow(x, j as nat)) == sum(0, |j: int| s[j] as int * pow(x, j as nat)) + s[0] as int * pow(x, 0));
}

/// `(a mod m + (x mod m)(b mod m) mod m) mod m == (a + x b) mod m`.
pub proof fn lemma_mod_fma_add(a: int, b: int, x: int, m: int)
    requires
        m > 0,
    ensures
        (a % m + ((x % m) * (b % m)) % m) % m == (a + x * b) % m,
{
    lemma_mul_mod_noop(x, b, m);
    lemma_add_mod_noop(a, x * b, m);
}

/// `(a mod m - (x mod m)(b mod m) mod m) mod m == (a - x b) mod m`.
pub proof fn lemma_mod_fma_sub(a: int, b: int, x: int, m: int)
    requires
        m > 0,
    ensures
        (a % m - ((x % m) * (b % m)) % m) % m == (a - x * b) % m,
{
    lemma_mul_mod_noop(x, b, m);
    lemma_sub_mod_noop(a, x * b, m);
}

/// Replacing `y` by `-x` and the operands by congruent ones keeps
/// `p + y q` modulo `m`.
pub proof fn lemma_mod_negated_term(p: int, q: int, p2: int, q2: int, x: int, y: int, m: int)
    requires
        m > 0,
        p % m == p2 % m,
        q % m == q2 % m,
        y % m == (-x) % m,
    ensures
        (p + y * q) % m == (p2 - x * q2) % m,
{
    lemma_mul_mod_noop(y, q, m);
    lemma_mul_mod_noop(-x, q2, m);
    lemma_add_mod_noop(p, y * q, m);
    lemma_add_mod_noop(p2, (-x) * q2, m);
    lemma_mul_unary_negation(x, q2);
}

/// `x h == -x (mod m)` when `h == -1 (mod m)`.
pub proof fn lemma_mul_minus_one(x: int, h: int, m: int)
    requires
        m > 0,
        h % m == m - 1,
    ensures
        (x * h) % m == (-x) % m,
{
    lemma_mul_mod_noop_right(x, h, m);
    assert(x * (m - 1) == m * x + (-x)) by (nonlinear_arith);
    lemma_mod_multiples_vanish(x, -x, m);
}

/// `h^2 == 1 (mod m)` when `h == -1 (mod m)`.
pub proof fn lemma_square_minus_one(h: int, m: int)
    requires
        m >= 2,
        h % m == m - 1,
    ensures
        (h * h) % m == 1,
{
    lemma_mul_mod_noop(h, h, m);
    assert((m - 1) * (m - 1) == (m - 2) * m + 1) by (nonlinear_arith);
    lemma_fundamental_div_mod_converse((m - 1) * (m - 1), m, m - 2, 1);
}

/// Congruent factors give congruent products.
pub proof fn lemma_mul_congruent(a: int, a2: int, b: int, b2: int, m: int)
    requires
        m > 0,
        a % m == a2 % m,
        b % m == b2 % m,
    ensures
        (a * b) % m == (a2 * b2) % m,
{
    lemma_mul_mod_noop(a, b, m);
    lemma_mul_mod_noop(a2, b2, m);
}

/// Congruent terms give congruent sums and differences.
pub proof fn lemma_add_sub_congruent(a: int, a2: int, b: int, b2: int, m: int)
    requires
        m > 0,
        a % m == a2 % m,
        b % m == b2 % m,
    ensures
        (a + b) % m == (a2 + b2) % m,
        (a - b) % m == (a2 - b2) % m,
{
    lemma_add_mod_noop(a, b, m);
    lemma_add_mod_noop(a2, b2, m);
    lemma_sub_mod_noop(a, b, m);
    lemma_sub_mod_noop(a2, b2, m);
}

/// A value reduced modulo `m` is congruent to itself.
pub proof fn lemma_mod_mod_same(a: int, m: int)
    requires
        m > 0,
    ensures
        (a % m) % m == a % m,
{
    lemma_mod_twice(a, m);
}

} // verus!
