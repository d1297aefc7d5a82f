//! The modular arithmetic kernel: canonical add, subtract, multiply, power
//! and inverse over a configurable modulus, with branch-free variants.

use vstd::prelude::*;
use vstd::arithmetic::div_mod::{
    lemma_fundamental_div_mod, lemma_fundamental_div_mod_converse, lemma_mod_bound,
    lemma_mul_mod_noop, lemma_mul_mod_noop_left, lemma_mul_mod_noop_right, lemma_small_mod,
    lemma_add_mod_noop, lemma_sub_mod_noop, lemma_mod_multiples_vanish, lemma_mod_multiples_basic,
};
use vstd::arithmetic::power::{lemma_pow_distributes, lemma_pow_adds, lemma_pow_multiplies, lemma_pow_mod_noop, lemma_pow1, pow};
use crate::error::FheError;

verus! {

/// `p` is a prime number.
pub open spec fn is_prime(p: int) -> bool {
    &&& p >= 2
    &&& forall|d: int| 2 <= d < p ==> #[trigger] (p % d) != 0
}

/// Some element multiplies `a` to one modulo `m`.
pub open spec fn has_inverse(a: int, m: int) -> bool {
    exists|x: int| #[trigger] ((a * x) % m) == 1
}

/// Picks `x` when `cond` holds and `y` otherwise, by masking rather than by
/// branching, so that the time taken does not depend on `cond`.
pub fn ct_select(cond: bool, x: u64, y: u64) -> (r: u64)
    ensures
        r == if cond { x } else { y },
{
    let mask: u64 = 0u64.wrapping_sub(cond as u64);
    proof {
        if cond {
            assert(mask == 0xffff_ffff_ffff_ffffu64);
        } else {
            assert(mask == 0u64);
        }
        assert(mask == 0xffff_ffff_ffff_ffffu64 ==> (mask & x) | (!mask & y) == x) by (bit_vector);
        assert(mask == 0u64 ==> (mask & x) | (!mask & y) == y) by (bit_vector);
    }
    (mask & x) | (!mask & y)
}

/// Reduction of a value in `[0, 2m)` is at most one subtraction.
proof fn lemma_mod_of_range(x: int, m: int)
    requires
        m > 0,
        0 <= x < 2 * m,
    ensures
        x % m == if x >= m { x - m } else { x },
{
    if x >= m {
        lemma_fundamental_div_mod_converse(x, m, 1, x - m);
    } else {
        lemma_small_mod(x as nat, m as nat);
    }
}

/// Branch-free modular addition of two canonical residues.
pub fn mod_add_fast(a: u64, b: u64, modulus: u64) -> (r: u64)
    requires
        a < modulus,
        b < modulus,
    ensures
        r == (a + b) % (modulus as int),
{
    let sum = a.wrapping_add(b);
    let adjusted = sum.wrapping_sub(modulus);
    let over = a >= modulus - b;
    proof {
        lemma_mod_of_range(a + b, modulus as int);
    }
    ct_select(over, adjusted, sum)
}

/// Branch-free modular subtraction of two canonical residues.
pub fn mod_sub_fast(a: u64, b: u64, modulus: u64) -> (r: u64)
    requires
        a < modulus,
        b < modulus,
    ensures
        r == (a - b) % (modulus as int),
{
    let diff = a.wrapping_sub(b);
    let adjusted = diff.wrapping_add(modulus);
    let under = a < b;
    proof {
        if under {
            lemma_fundamental_div_mod_converse(a - b, modulus as int, -1, a - b + modulus);
        } else {
            lemma_small_mod((a - b) as nat, modulus as nat);
        }
    }
    ct_select(under, adjusted, diff)
}

/// Modular multiplication through a double-width product.
pub fn mod_mul_fast(a: u64, b: u64, modulus: u64) -> (r: u64)
    requires
        modulus > 0,
    ensures
        r == (a * b) % (modulus as int),
{
    assert(a * b <= 0xffff_ffff_ffff_fffe_0000_0000_0000_0001) by (nonlinear_arith)
        requires
            a <= 0xffff_ffff_ffff_ffff,
            b <= 0xffff_ffff_ffff_ffff,
    ;
    let product = (a as u128) * (b as u128);
    let m = modulus as u128;
    let r = product % m;
    proof {
        lemma_mod_bound(product as int, m as int);
    }
    r as u64
}

/// `((b * b) mod m)^q == b^(2q) (mod m)`.
proof fn lemma_square_mod_pow(b: int, q: nat, m: int)
    requires
        m > 0,
    ensures
        pow((b * b) % m, q) % m == pow(b, 2 * q) % m,
{
    lemma_pow_mod_noop(b * b, q, m);
    lemma_pow1(b);
    lemma_pow_adds(b, 1, 1);
    lemma_pow_multiplies(b, 2, q);
}

/// One step of square-and-multiply keeps `result * b^e` modulo `m`.
proof fn lemma_pow_step(r: int, b: int, e: nat, m: int)
    requires
        m > 0,
    ensures
        e % 2 == 1 ==> (((r * b) % m) * pow((b * b) % m, e / 2)) % m == (r * pow(b, e)) % m,
        e % 2 == 0 ==> (r * pow((b * b) % m, e / 2)) % m == (r * pow(b, e)) % m,
{
    let q = e / 2;
    lemma_square_mod_pow(b, q, m);
    let p = pow((b * b) % m, q);
    let p2 = pow(b, 2 * q);
    if e % 2 == 1 {
        lemma_pow_adds(b, 1, 2 * q);
        lemma_pow1(b);
        assert(pow(b, e) == b * p2);
        lemma_mul_mod_noop_left(r * b, p, m);
        lemma_mul_mod_noop_right(r * b, p, m);
        lemma_mul_mod_noop_right(r * b, p2, m);
        assert((r * b) * p2 == r * (b * p2)) by (nonlinear_arith);
    } else {
        assert(e == 2 * q);
        lemma_mul_mod_noop_right(r, p, m);
        lemma_mul_mod_noop_right(r, p2, m);
    }
}

/// Modular exponentiation by square-and-multiply: `O(log exp)` modular
/// multiplications.
pub fn mod_pow_fast(base: u64, exp: u64, modulus: u64) -> (r: u64)
    requires
        modulus > 0,
    ensures
        r == pow(base as int, exp as nat) % (modulus as int),
{
    let ghost m = modulus as int;
    let mut result: u64 = 1 % modulus;
    let mut b: u64 = base % modulus;
    let mut e: u64 = exp;
    proof {
        lemma_pow_mod_noop(base as int, exp as nat, m);
        lemma_mul_mod_noop_left(1, pow(b as int, e as nat), m);
    }
    while e > 0
        invariant
            m == modulus as int,
            m > 0,
            result < modulus,
            b < modulus,
            (result * pow(b as int, e as nat)) % m == pow(base as int, exp as nat) % m,
        decreases e,
    {
        proof {
            lemma_pow_step(result as int, b as int, e as nat, m);
        }
        if e % 2 == 1 {
            result = mod_mul_fast(result, b, modulus);
        }
        b = mod_mul_fast(b, b, modulus);
        e = e / 2;
    }
    proof {
        vstd::arithmetic::power::lemma_pow0(b as int);
        lemma_small_mod(result as nat, modulus as nat);
    }
    result
}

/// What an inverse by the extended Euclidean algorithm returns: the inverse
/// in `[0, m)` when there is one, `NotInvertible` when `a` shares a factor
/// with `m`, and `InvalidModulus` for `m < 2`.
pub open spec fn euclid_inverse_result(a: int, m: int, r: Result<u64, FheError>) -> bool {
    match r {
        Ok(x) => m >= 2 && x < m && (a * x) % m == 1,
        Err(e) => (e == FheError::InvalidModulus && m < 2) || (e == FheError::NotInvertible && m
            >= 2 && !has_inverse(a, m)),
    }
}

/// What an inverse by Fermat's little theorem returns over a prime `p`:
/// `a^(p-2) mod p`, or `NotInvertible` when `p` divides `a`.
pub open spec fn fermat_inverse_result(a: int, p: int, r: Result<u64, FheError>) -> bool {
    match r {
        Ok(x) => a % p != 0 && x == pow(a, (p - 2) as nat) % p,
        Err(e) => e == FheError::NotInvertible && a % p == 0,
    }
}

/// A common divisor `r >= 2` of `m` and `a mod m` leaves `a` without an
/// inverse modulo `m`.
proof fn lemma_common_divisor_blocks_inverse(a: int, m: int, r: int, alpha: int, gamma: int)
    requires
        m >= 2,
        r >= 2,
        m == alpha * r,
        a % m == gamma * r,
    ensures
        !has_inverse(a, m),
{
    if has_inverse(a, m) {
        let x = choose|x: int| #[trigger] ((a * x) % m) == 1;
        lemma_fundamental_div_mod(a * x, m);
        lemma_fundamental_div_mod(a, m);
        let k = (a * x) / m;
        let qa = a / m;
        let s = alpha * qa * x + gamma * x - alpha * k;
        let g = gamma * r;
        assert(a * x == (m * qa) * x + g * x) by (nonlinear_arith)
            requires
                a == m * qa + g,
        ;
        assert((m * qa) * x == r * (alpha * qa * x)) by (nonlinear_arith)
            requires
                m == alpha * r,
        ;
        assert(g * x == r * (gamma * x)) by (nonlinear_arith)
            requires
                g == gamma * r,
        ;
        assert(m * k == r * (alpha * k)) by (nonlinear_arith)
            requires
                m == alpha * r,
        ;
        assert(r * s == r * (alpha * qa * x) + r * (gamma * x) - r * (alpha * k)) by (nonlinear_arith)
            requires
                s == alpha * qa * x + gamma * x - alpha * k,
        ;
        assert(false) by (nonlinear_arith)
            requires
                r >= 2,
                r * s == 1,
        ;
    }
}

/// A common divisor `r >= 2` of a prime `m` and of `a mod m` forces `m`
/// to divide `a`.
proof fn lemma_prime_divisor(a: int, m: int, r: int, alpha: int, gamma: int)
    requires
        m >= 2,
        r >= 2,
        m == alpha * r,
        a % m == gamma * r,
    ensures
        is_prime(m) ==> a % m == 0,
{
    if is_prime(m) {
        assert(alpha >= 1) by (nonlinear_arith)
            requires
                m == alpha * r,
                m >= 2,
                r >= 2,
        ;
        assert(r <= m) by (nonlinear_arith)
            requires
                m == alpha * r,
                alpha >= 1,
                r >= 2,
        ;
        lemma_mod_multiples_basic(alpha, r);
        if r < m {
            assert(m % r == 0);
            assert(false);
        }
        lemma_mod_bound(a, m);
        assert(gamma == 0) by (nonlinear_arith)
            requires
                0 <= gamma * r < r,
                r >= 2,
        ;
    }
}

/// One step of the extended Euclidean algorithm keeps `t * a == r (mod m)`.
proof fn lemma_euclid_step(t: int, newt: int, q: int, a: int, r: int, newr: int, m: int)
    requires
        m > 0,
        (t * a) % m == r % m,
        (newt * a) % m == newr % m,
    ensures
        (((t - ((q % m) * newt) % m) % m) * a) % m == (r - q * newr) % m,
{
    let p = ((q % m) * newt) % m;
    lemma_mul_mod_noop_left(t - p, a, m);
    assert((t - p) * a == t * a - p * a) by (nonlinear_arith);
    lemma_sub_mod_noop(t * a, p * a, m);
    lemma_mul_mod_noop_left((q % m) * newt, a, m);
    assert(((q % m) * newt) * a == (q % m) * (newt * a)) by (nonlinear_arith);
    lemma_mul_mod_noop_left(q, newt * a, m);
    lemma_mul_mod_noop_right(q, newt * a, m);
    lemma_mul_mod_noop_right(q, newr, m);
    assert(q * (newt * a) == (q * newt) * a) by (nonlinear_arith);
    lemma_sub_mod_noop(r, q * newr, m);
}

/// Modular inverse by the extended Euclidean algorithm, valid for any
/// modulus `m >= 2` and any `a` with `gcd(a, m) = 1`.
pub fn mod_inv_extended(a: u64, modulus: u64) -> (r: Result<u64, FheError>)
    ensures
        euclid_inverse_result(a as int, modulus as int, r),
        is_prime(modulus as int) && a % modulus != 0 ==> r is Ok,
{
    if modulus < 2 {
        return Err(FheError::InvalidModulus);
    }
    let ghost m = modulus as int;
    let mut r: u64 = modulus;
    let mut newr: u64 = a % modulus;
    let mut t: u64 = 0;
    let mut newt: u64 = 1;
    let ghost mut alpha: int = 1;
    let ghost mut beta: int = 0;
    let ghost mut gamma: int = 0;
    let ghost mut delta: int = 1;
    proof {
        lemma_small_mod(1, modulus as nat);
        lemma_mod_bound(a as int, m);
        lemma_small_mod((a % modulus) as nat, modulus as nat);
        lemma_fundamental_div_mod_converse(m, m, 1, 0);
        lemma_small_mod(0, modulus as nat);
        assert(t * a == 0);
        assert(m == alpha * r + beta * newr);
        assert((a as int) % m == gamma * r + delta * newr);
    }
    while newr != 0
        invariant
            m == modulus as int,
            m >= 2,
            r > 0,
            t < modulus,
            newt < modulus,
            (t * a) % m == (r as int) % m,
            (newt * a) % m == (newr as int) % m,
            m == alpha * r + beta * newr,
            (a as int) % m == gamma * r + delta * newr,
        decreases newr,
    {
        let q = r / newr;
        let rem = r % newr;
        let prod = mod_mul_fast(q % modulus, newt, modulus);
        proof {
            lemma_mod_bound(q as int, m);
            lemma_mod_bound(prod as int, m);
            lemma_fundamental_div_mod(r as int, newr as int);
            vstd::arithmetic::mul::lemma_mul_is_commutative(newr as int, q as int);
            assert(rem == r - q * newr);
            lemma_euclid_step(t as int, newt as int, q as int, a as int, r as int, newr as int, m);
        }
        let nt = mod_sub_fast(t, prod, modulus);
        proof {
            let a0 = alpha;
            let c0 = gamma;
            assert(m == (a0 * q + beta) * newr + a0 * rem) by (nonlinear_arith)
                requires
                    m == a0 * r + beta * newr,
                    r == q * newr + rem,
            ;
            assert((a as int) % m == (c0 * q + delta) * newr + c0 * rem) by (nonlinear_arith)
                requires
                    (a as int) % m == c0 * r + delta * newr,
                    r == q * newr + rem,
            ;
            alpha = a0 * q + beta;
            beta = a0;
            gamma = c0 * q + delta;
            delta = c0;
        }
        t = newt;
        newt = nt;
        r = newr;
        newr = rem;
    }
    if r != 1 {
        proof {
            lemma_common_divisor_blocks_inverse(a as int, m, r as int, alpha, gamma);
            lemma_prime_divisor(a as int, m, r as int, alpha, gamma);
        }
        return Err(FheError::NotInvertible);
    }
    proof {
        lemma_small_mod(1, modulus as nat);
        assert((a * t) == (t * a)) by (nonlinear_arith);
    }
    Ok(t)
}

/// Modular inverse by Fermat's little theorem, `a^(p-2) mod p`.
///
/// The modulus must be prime: on a composite modulus this formula gives a
/// wrong answer, which is why primality is a precondition here and not a
/// runtime check.
pub fn mod_inv_fermat(a: u64, p: u64) -> (r: Result<u64, FheError>)
    requires
        is_prime(p as int),
    ensures
        fermat_inverse_result(a as int, p as int, r),
{
    if a % p == 0 {
        return Err(FheError::NotInvertible);
    }
    Ok(mod_pow_fast(a, p - 2, p))
}

/// The two ways of computing a modular inverse.
#[derive(Debug, Clone, Copy, PartialEq, Eq, Structural)]
pub enum InversePolicy {
    /// `a^(m-2) mod m`; correct only for a prime modulus.
    Fermat,
    /// The extended Euclidean algorithm; correct for any modulus.
    ExtendedEuclid,
}

/// Modular inverse by the chosen policy.
pub fn mod_inv(a: u64, modulus: u64, policy: InversePolicy) -> (r: Result<u64, FheError>)
    requires
        policy == InversePolicy::Fermat ==> is_prime(modulus as int),
    ensures
        policy == InversePolicy::Fermat ==> fermat_inverse_result(a as int, modulus as int, r),
        policy == InversePolicy::ExtendedEuclid ==> euclid_inverse_result(
            a as int,
            modulus as int,
            r,
        ),
        is_prime(modulus as int) && a % modulus != 0 ==> r is Ok,
{
    match policy {
        InversePolicy::Fermat => mod_inv_fermat(a, modulus),
        InversePolicy::ExtendedEuclid => mod_inv_extended(a, modulus),
    }
}

/// What a checked kernel operation returns: `InvalidModulus` for a
/// degenerate modulus (0 or 1), the canonical value otherwise.
pub open spec fn checked_result(m: int, value: int, r: Result<u64, FheError>) -> bool {
    match r {
        Ok(v) => m >= 2 && v == value,
        Err(e) => m < 2 && e == FheError::InvalidModulus,
    }
}

/// `(a + b) mod m` for any operands.
pub fn mod_add(a: u64, b: u64, modulus: u64) -> (r: Result<u64, FheError>)
    ensures
        checked_result(modulus as int, (a + b) % (modulus as int), r),
{
    if modulus < 2 {
        return Err(FheError::InvalidModulus);
    }
    proof {
        lemma_add_mod_noop(a as int, b as int, modulus as int);
    }
    Ok(mod_add_fast(a % modulus, b % modulus, modulus))
}

/// `(a - b) mod m`, in `[0, m)`, for any operands.
pub fn mod_sub(a: u64, b: u64, modulus: u64) -> (r: Result<u64, FheError>)
    ensures
        checked_result(modulus as int, (a - b) % (modulus as int), r),
{
    if modulus < 2 {
        return Err(FheError::InvalidModulus);
    }
    proof {
        lemma_sub_mod_noop(a as int, b as int, modulus as int);
    }
    Ok(mod_sub_fast(a % modulus, b % modulus, modulus))
}

/// `(a * b) mod m` for any operands.
pub fn mod_mul(a: u64, b: u64, modulus: u64) -> (r: Result<u64, FheError>)
    ensures
        checked_result(modulus as int, (a * b) % (modulus as int), r),
{
    if modulus < 2 {
        return Err(FheError::InvalidModulus);
    }
    Ok(mod_mul_fast(a, b, modulus))
}

/// `base^exp mod m` for any operands.
pub fn mod_pow(base: u64, exp: u64, modulus: u64) -> (r: Result<u64, FheError>)
    ensures
        checked_result(modulus as int, pow(base as int, exp as nat) % (modulus as int), r),
{
    if modulus < 2 {
        return Err(FheError::InvalidModulus);
    }
    Ok(mod_pow_fast(base, exp, modulus))
}

/// Adds two equally long vectors of canonical residues elementwise into
/// `out`, with the branch-free modular addition.
pub fn mod_add_batch(a: &[u64], b: &[u64], modulus: u64, out: &mut [u64]) -> (r: Result<
    (),
    FheError,
>)
    requires
        forall|i: int| 0 <= i < a@.len() ==> a@[i] < modulus,
        forall|i: int| 0 <= i < b@.len() ==> b@[i] < modulus,
    ensures
        match r {
            Ok(()) => a@.len() == b@.len() && b@.len() == old(out)@.len() && final(out)@ == Seq::new(
                a@.len(),
                |i: int| ((a@[i] + b@[i]) % (modulus as int)) as u64,
            ),
            Err(e) => e == FheError::SizeMismatch && !(a@.len() == b@.len() && b@.len() == old(
                out,
            )@.len()) && final(out)@ == old(out)@,
        },
{
    if a.len() != b.len() || b.len() != out.len() {
        return Err(FheError::SizeMismatch);
    }
    let n = a.len();
    let mut i: usize = 0;
    while i < n
        invariant
            n == a@.len(),
            n == b@.len(),
            n == out@.len(),
            i <= n,
            forall|j: int| 0 <= j < a@.len() ==> a@[j] < modulus,
            forall|j: int| 0 <= j < b@.len() ==> b@[j] < modulus,
            forall|j: int|
                0 <= j < i ==> out@[j] == ((a@[j] + b@[j]) % (modulus as int)) as u64,
        decreases n - i,
    {
        out[i] = mod_add_fast(a[i], b[i], modulus);
        i = i + 1;
    }
    assert(out@ =~= Seq::new(n as nat, |i: int| ((a@[i] + b@[i]) % (modulus as int)) as u64));
    Ok(())
}

/// The Montgomery radix `R = 2^64`.
pub open spec fn radix() -> int {
    0x1_0000_0000_0000_0000
}

/// Montgomery arithmetic modulo an odd `m` with radix `R = 2^64`: keeps
/// `R^2 mod m`, `R^-1 mod m` and `m' = -m^-1 mod R`.
pub struct Montgomery {
    modulus: u64,
    r_squared: u64,
    r_inv: u64,
    n_prime: u64,
}

impl View for Montgomery {
    type V = int;

    /// The modulus.
    closed spec fn view(&self) -> int {
        self.modulus as int
    }
}

/// `R` can be cancelled modulo `m`, as it has an inverse there.
proof fn lemma_cancel_radix(r: int, y: int, m: int, r_inv: int)
    requires
        m >= 2,
        0 <= r < m,
        (r * radix()) % m == (y * radix()) % m,
        (r_inv * radix()) % m == 1,
    ensures
        r == y % m,
{
    let big_r = radix();
    // r == r (R r_inv) == (r R) r_inv == (y R) r_inv == y (R r_inv) == y
    lemma_mul_mod_noop_right(r, r_inv * big_r, m);
    lemma_mul_mod_noop_right(y, r_inv * big_r, m);
    lemma_mul_mod_noop_left(r * big_r, r_inv, m);
    lemma_mul_mod_noop_left(y * big_r, r_inv, m);
    assert(r * (r_inv * big_r) == (r * big_r) * r_inv) by (nonlinear_arith);
    assert(y * (r_inv * big_r) == (y * big_r) * r_inv) by (nonlinear_arith);
    lemma_small_mod(r as nat, m as nat);
}

impl Montgomery {
    /// The precomputed constants agree with the modulus.
    pub closed spec fn wf(&self) -> bool {
        let m = self.modulus as int;
        &&& m % 2 == 1
        &&& 3 <= m < 0x8000_0000_0000_0000
        &&& self.r_squared == (radix() * radix()) % m
        &&& self.r_inv < m
        &&& (self.r_inv * radix()) % m == 1
        &&& (m * self.n_prime) % radix() == radix() - 1
    }

    /// Precomputes the constants for an odd modulus below `2^63`.
    pub fn new(modulus: u64) -> (r: Self)
        requires
            modulus % 2 == 1,
            3 <= modulus < 0x8000_0000_0000_0000,
        ensures
            r.wf(),
            r@ == modulus,
    {
        let m = modulus;
        let big_r: u128 = 0x1_0000_0000_0000_0000;
        let r_mod = (big_r % (m as u128)) as u64;
        let r_squared = mod_mul_fast(r_mod, r_mod, m);
        proof {
            lemma_mul_mod_noop(radix(), radix(), m as int);
        }
        // R^-1 == ((m + 1) / 2)^64, as 2 * ((m + 1) / 2) == m + 1 == 1 (mod m)
        let half = m / 2 + 1;
        let r_inv = mod_pow_fast(half, 64, m);
        proof {
            let h = half as int;
            vstd::arithmetic::power2::lemma2_to64();
            vstd::arithmetic::power2::lemma_pow2(64);
            lemma_pow_distributes(h, 2, 64);
            assert(h * 2 == m + 1);
            lemma_pow_mod_noop(m + 1, 64, m as int);
            lemma_fundamental_div_mod_converse(m + 1, m as int, 1, 1);
            vstd::arithmetic::power::lemma1_pow(64);
            lemma_small_mod(1, m as nat);
            lemma_mul_mod_noop_left(pow(h, 64), pow(2, 64), m as int);
            assert((r_inv * radix()) % (m as int) == 1);
        }
        assert(r_inv * big_r <= 0x7fff_ffff_ffff_ffff_0000_0000_0000_0000u128) by (nonlinear_arith)
            requires
                r_inv < 0x8000_0000_0000_0000u64,
                big_r == 0x1_0000_0000_0000_0000u128,
        ;
        assert(r_inv >= 1) by {
            if r_inv == 0 {
                lemma_small_mod(0, m as nat);
            }
        }
        let num = r_inv as u128 * big_r - 1;
        let n_prime_wide = num / (m as u128);
        proof {
            let k = (r_inv * radix()) / (m as int);
            lemma_fundamental_div_mod(r_inv * radix(), m as int);
            assert(num == m * k);
            lemma_fundamental_div_mod_converse(num as int, m as int, k, 0);
            assert(n_prime_wide < radix()) by (nonlinear_arith)
                requires
                    num == m * n_prime_wide,
                    num < r_inv * radix(),
                    r_inv < m,
                    m > 0,
            ;
            assert(m * n_prime_wide == (r_inv - 1) * radix() + (radix() - 1)) by (nonlinear_arith)
                requires
                    num == m * n_prime_wide,
                    num == r_inv * radix() - 1,
            ;
            lemma_fundamental_div_mod_converse(
                m * n_prime_wide,
                radix(),
                r_inv - 1,
                radix() - 1,
            );
        }
        Montgomery { modulus: m, r_squared, r_inv, n_prime: n_prime_wide as u64 }
    }

    /// The Montgomery product `a b R^-1 mod m` of two canonical residues:
    /// one widening multiply, one low-word multiply by `m'`, one widening
    /// multiply-add and one branch-free conditional subtraction.
    pub fn mul(&self, a: u64, b: u64) -> (r: u64)
        requires
            self.wf(),
            a < self@,
            b < self@,
        ensures
            r < self@,
            (r * radix()) % self@ == (a * b) % self@,
    {
        let m = self.modulus;
        let big_r: u128 = 0x1_0000_0000_0000_0000;
        assert(a * b < m * m) by (nonlinear_arith)
            requires
                a < m,
                b < m,
        ;
        assert(m * m < 0x4000_0000_0000_0000_0000_0000_0000_0000) by (nonlinear_arith)
            requires
                m < 0x8000_0000_0000_0000u64,
        ;
        let t = a as u128 * b as u128;
        let lo = (t % big_r) as u64;
        let mm = lo.wrapping_mul(self.n_prime);
        assert(mm as u128 * m as u128 <= 0x7fff_ffff_ffff_fffe_8000_0000_0000_0001u128) by (nonlinear_arith)
            requires
                mm <= 0xffff_ffff_ffff_ffffu64,
                m < 0x8000_0000_0000_0000u64,
        ;
        let s = t + mm as u128 * m as u128;
        let u = s / big_r;
        proof {
            let big = radix();
            let np = self.n_prime as int;
            let k1 = (lo * np) / big;
            let k2 = (m * np) / big;
            let th = (t as int) / big;
            lemma_fundamental_div_mod(lo * np, big);
            lemma_fundamental_div_mod(m * np, big);
            lemma_fundamental_div_mod(t as int, big);
            let q = th + lo * k2 + lo - k1 * m;
            assert(s == big * q) by (nonlinear_arith)
                requires
                    s == t + mm * m,
                    t == big * th + lo,
                    mm == lo * np - big * k1,
                    m * np == big * k2 + (big - 1),
                    q == th + lo * k2 + lo - k1 * m,
            ;
            lemma_fundamental_div_mod_converse(s as int, big, q, 0);
            assert(mm * m < big * m) by (nonlinear_arith)
                requires
                    mm < big,
                    m > 0,
            ;
            assert(u < 2 * m) by (nonlinear_arith)
                requires
                    s == big * u,
                    s < m * m + big * m,
                    m < big,
                    m > 0,
            ;
            lemma_mod_multiples_vanish(mm as int, t as int, m as int);
            assert(s == m * mm + t);
        }
        let reduced = ct_select(u as u64 >= m, (u as u64).wrapping_sub(m), u as u64);
        proof {
            if u >= m {
                lemma_mod_multiples_vanish(-radix(), (u * radix()) as int, m as int);
                assert(reduced * radix() == m * (-radix()) + u * radix()) by (nonlinear_arith)
                    requires
                        reduced == u - m,
                ;
            }
        }
        reduced
    }

    /// `x R mod m`: `x` in Montgomery form.
    pub fn to_montgomery(&self, x: u64) -> (r: u64)
        requires
            self.wf(),
        ensures
            r == (x * radix()) % self@,
    {
        let m = self.modulus;
        let r = self.mul(x % m, self.r_squared);
        proof {
            let mi = m as int;
            let big = radix();
            lemma_mul_mod_noop(x as int, big * big, mi);
            lemma_mul_mod_noop_left(x as int, self.r_squared as int, mi);
            lemma_mul_mod_noop_right(x as int, big * big, mi);
            assert(x * (big * big) == (x * big) * big) by (nonlinear_arith);
            lemma_cancel_radix(r as int, x * big, mi, self.r_inv as int);
        }
        r
    }

    /// `x R^-1 mod m`: `x` taken out of Montgomery form.
    pub fn from_montgomery(&self, x_mont: u64) -> (r: u64)
        requires
            self.wf(),
        ensures
            r < self@,
            (r * radix()) % self@ == (x_mont as int) % self@,
    {
        let m = self.modulus;
        let r = self.mul(x_mont % m, 1);
        proof {
            lemma_small_mod((x_mont % m) as nat, m as nat);
        }
        r
    }
}

/// Multiplying in Montgomery form and converting back gives the ordinary
/// product: for `am` and `bm` as `to_montgomery` returns them for `a` and
/// `b`, `pm` as `mul(am, bm)` returns it and `f` as `from_montgomery(pm)`
/// returns it, `f == a * b mod m`.
pub proof fn lemma_montgomery_product(mont: Montgomery, a: u64, b: u64, am: u64, bm: u64, pm: u64, f: u64)
    requires
        mont.wf(),
        am == (a * radix()) % mont@,
        bm == (b * radix()) % mont@,
        pm < mont@,
        (pm * radix()) % mont@ == (am * bm) % mont@,
        f < mont@,
        (f * radix()) % mont@ == (pm as int) % mont@,
    ensures
        f == (a * b) % mont@,
{
    let m = mont@;
    let big = radix();
    let ri = mont.r_inv as int;
    lemma_mul_mod_noop(a * big, b * big, m);
    assert((a * big) * (b * big) == ((a * b) * big) * big) by (nonlinear_arith);
    lemma_cancel_radix(pm as int, (a * b) * big, m, ri);
    lemma_small_mod(pm as nat, m as nat);
    lemma_cancel_radix(f as int, a * b, m, ri);
}

} // verus!
