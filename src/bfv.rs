//! Ciphertext arithmetic for a BFV-style scheme over the modular kernel.
//!
//! These operators are demonstrations, not a production scheme: there is
//! no relinearization and no noise management.

use vstd::prelude::*;
use vstd::arithmetic::div_mod::*;
use vstd::arithmetic::mul::*;
use crate::error::FheError;
use crate::modular::{has_inverse, mod_add_fast, mod_inv_extended, mod_mul_fast, mod_sub_fast};
use crate::poly::pointwise_add;

verus! {

/// Componentwise addition of two ciphertexts `(c0, c1)` modulo
/// `cipher_modulus`. Commutative and associative, with the all-zero
/// ciphertext as identity.
pub fn homomorphic_add(
    ct1: (&[u64], &[u64]),
    ct2: (&[u64], &[u64]),
    cipher_modulus: u64,
) -> (r: Result<(Vec<u64>, Vec<u64>), FheError>)
    ensures
        match r {
            Ok((c0, c1)) => {
                &&& cipher_modulus >= 2
                &&& same_lengths(ct1, ct2)
                &&& c0@ == pointwise_add(ct1.0@, ct2.0@, cipher_modulus as int)
                &&& c1@ == pointwise_add(ct1.1@, ct2.1@, cipher_modulus as int)
            },
            Err(e) => (e == FheError::InvalidModulus && cipher_modulus < 2) || (e
                == FheError::SizeMismatch && cipher_modulus >= 2 && !same_lengths(ct1, ct2)),
        },
{
    if cipher_modulus < 2 {
        return Err(FheError::InvalidModulus);
    }
    let n = ct1.0.len();
    if ct1.1.len() != n || ct2.0.len() != n || ct2.1.len() != n {
        return Err(FheError::SizeMismatch);
    }
    let q = cipher_modulus;
    let mut c0: Vec<u64> = Vec::new();
    let mut c1: Vec<u64> = Vec::new();
    let mut i: usize = 0;
    while i < n
        invariant
            q >= 2,
            same_lengths(ct1, ct2),
            n == ct1.0@.len(),
            i <= n,
            c0@.len() == i,
            c1@.len() == i,
            forall|j: int| 0 <= j < i ==> #[trigger] c0@[j] == pointwise_add(ct1.0@, ct2.0@, q as int)[j],
            forall|j: int| 0 <= j < i ==> #[trigger] c1@[j] == pointwise_add(ct1.1@, ct2.1@, q as int)[j],
        decreases n - i,
    {
        c0.push(add_reduced(ct1.0[i], ct2.0[i], q));
        c1.push(add_reduced(ct1.1[i], ct2.1[i], q));
        i = i + 1;
    }
    assert(c0@ =~= pointwise_add(ct1.0@, ct2.0@, q as int));
    assert(c1@ =~= pointwise_add(ct1.1@, ct2.1@, q as int));
    Ok((c0, c1))
}

/// Homomorphic addition is commutative: componentwise
/// `(a + b) mod q == (b + a) mod q`.
pub proof fn lemma_add_commutative(a: Seq<u64>, b: Seq<u64>, q: int)
    requires
        a.len() == b.len(),
    ensures
        pointwise_add(a, b, q) == pointwise_add(b, a, q),
{
    assert(pointwise_add(a, b, q) =~= pointwise_add(b, a, q));
}

/// Homomorphic addition is associative.
pub proof fn lemma_add_associative(a: Seq<u64>, b: Seq<u64>, c: Seq<u64>, q: int)
    requires
        2 <= q <= u64::MAX,
        a.len() == b.len(),
        b.len() == c.len(),
    ensures
        pointwise_add(pointwise_add(a, b, q), c, q) == pointwise_add(a, pointwise_add(b, c, q), q),
{
    assert forall|i: int| 0 <= i < a.len() implies #[trigger] pointwise_add(
        pointwise_add(a, b, q),
        c,
        q,
    )[i] == pointwise_add(a, pointwise_add(b, c, q), q)[i] by {
        lemma_add_mod_noop(a[i] + b[i], c[i] as int, q);
        lemma_add_mod_noop(a[i] as int, b[i] + c[i], q);
        lemma_mod_twice(a[i] + b[i], q);
        lemma_mod_twice(b[i] + c[i], q);
        lemma_add_mod_noop((a[i] + b[i]) % q, c[i] as int, q);
        lemma_add_mod_noop(a[i] as int, (b[i] + c[i]) % q, q);
        lemma_mod_twice(c[i] as int, q);
        lemma_mod_twice(a[i] as int, q);
    }
    assert(pointwise_add(pointwise_add(a, b, q), c, q) =~= pointwise_add(
        a,
        pointwise_add(b, c, q),
        q,
    ));
}

/// `n` zero coefficients.
pub open spec fn zeros(n: nat) -> Seq<u64> {
    Seq::new(n, |i: int| 0u64)
}

/// The all-zero ciphertext component is the identity of homomorphic
/// addition on reduced components.
pub proof fn lemma_add_zero_identity(a: Seq<u64>, q: int)
    requires
        q >= 2,
        forall|i: int| 0 <= i < a.len() ==> a[i] < q,
    ensures
        pointwise_add(a, zeros(a.len()), q) == a,
{
    let z = zeros(a.len());
    assert forall|i: int| 0 <= i < a.len() implies #[trigger] pointwise_add(a, z, q)[i] == a[i] by {
        lemma_small_mod(a[i] as nat, q as nat);
    }
    assert(pointwise_add(a, z, q) =~= a);
}

/// All four components of two ciphertexts have one length.
pub open spec fn same_lengths(ct1: (&[u64], &[u64]), ct2: (&[u64], &[u64])) -> bool {
    &&& ct1.1@.len() == ct1.0@.len()
    &&& ct2.0@.len() == ct1.0@.len()
    &&& ct2.1@.len() == ct1.0@.len()
}

/// `(a + b) mod q` for any operands.
fn add_reduced(a: u64, b: u64, q: u64) -> (r: u64)
    requires
        q >= 2,
    ensures
        r == (a + b) % (q as int),
{
    proof {
        lemma_add_mod_noop(a as int, b as int, q as int);
    }
    mod_add_fast(a % q, b % q, q)
}

/// The inverse of `a` modulo `m` in `[0, m)`, when there is one.
pub open spec fn inverse_of(a: int, m: int) -> int {
    choose|x: int| 0 <= x < m && #[trigger] ((a * x) % m) == 1
}

/// An inverse in `[0, m)` is the only one.
pub proof fn lemma_inverse_unique(a: int, m: int, x: int)
    requires
        m >= 2,
        0 <= x < m,
        (a * x) % m == 1,
    ensures
        inverse_of(a, m) == x,
{
    let y = inverse_of(a, m);
    assert(0 <= y < m && (a * y) % m == 1);
    // x == x (a y) == (a x) y == y (mod m)
    lemma_mul_mod_noop_right(x, a * y, m);
    lemma_mul_mod_noop_left(a * x, y, m);
    assert(x * (a * y) == (a * x) * y) by (nonlinear_arith);
    lemma_small_mod(1, m as nat);
    lemma_small_mod(x as nat, m as nat);
    lemma_small_mod(y as nat, m as nat);
}

/// One coefficient of the tensor product, scaled by `delta^-1`:
/// `(t * d) mod q` with `t` the coefficient's sum of products.
pub open spec fn scaled(t: int, d: int, q: int) -> u64 {
    ((t % q * d) % q) as u64
}

/// Tensor-product multiplication of two ciphertexts `(c0, c1)`: the result
/// has one more component, `(c0 c0', c0 c1' + c1 c0', c1 c1')`, each term
/// multiplied by the inverse of `delta = cipher_modulus / plain_modulus`.
///
/// A demonstration operator: it neither relinearizes the result back to two
/// components nor manages noise.
pub fn homomorphic_mul_simple(
    ct1: (&[u64], &[u64]),
    ct2: (&[u64], &[u64]),
    cipher_modulus: u64,
    plain_modulus: u64,
) -> (r: Result<(Vec<u64>, Vec<u64>, Vec<u64>), FheError>)
    ensures
        match r {
            Ok((c0, c1, c2)) => {
                let q = cipher_modulus as int;
                let d = inverse_of(cipher_modulus as int / plain_modulus as int, q);
                &&& cipher_modulus >= 2
                &&& plain_modulus >= 1
                &&& has_inverse(cipher_modulus as int / plain_modulus as int, q)
                &&& same_lengths(ct1, ct2)
                &&& c0@.len() == ct1.0@.len()
                &&& c1@.len() == ct1.0@.len()
                &&& c2@.len() == ct1.0@.len()
                &&& forall|i: int|
                    0 <= i < ct1.0@.len() ==> #[trigger] c0@[i] == scaled(ct1.0@[i] * ct2.0@[i], d, q)
                &&& forall|i: int|
                    0 <= i < ct1.0@.len() ==> #[trigger] c1@[i] == scaled(
                        (ct1.0@[i] * ct2.1@[i]) % q + (ct1.1@[i] * ct2.0@[i]) % q,
                        d,
                        q,
                    )
                &&& forall|i: int|
                    0 <= i < ct1.0@.len() ==> #[trigger] c2@[i] == scaled(ct1.1@[i] * ct2.1@[i], d, q)
            },
            Err(e) => {
                ||| (e == FheError::InvalidModulus && (cipher_modulus < 2 || plain_modulus == 0))
                ||| (e == FheError::SizeMismatch && cipher_modulus >= 2 && plain_modulus >= 1
                    && !same_lengths(ct1, ct2))
                ||| (e == FheError::NotInvertible && cipher_modulus >= 2 && plain_modulus >= 1
                    && same_lengths(ct1, ct2) && !has_inverse(
                    cipher_modulus as int / plain_modulus as int,
                    cipher_modulus as int,
                ))
            },
        },
{
    if cipher_modulus < 2 || plain_modulus == 0 {
        return Err(FheError::InvalidModulus);
    }
    let n = ct1.0.len();
    if ct1.1.len() != n || ct2.0.len() != n || ct2.1.len() != n {
        return Err(FheError::SizeMismatch);
    }
    let q = cipher_modulus;
    let delta = q / plain_modulus;
    let delta_inv = match mod_inv_extended(delta, q) {
        Ok(x) => x,
        Err(_) => {
            return Err(FheError::NotInvertible);
        },
    };
    let ghost d = inverse_of(delta as int, q as int);
    proof {
        lemma_inverse_unique(delta as int, q as int, delta_inv as int);
    }
    let mut c0: Vec<u64> = Vec::new();
    let mut c1: Vec<u64> = Vec::new();
    let mut c2: Vec<u64> = Vec::new();
    let mut i: usize = 0;
    while i < n
        invariant
            q >= 2,
            delta_inv == d,
            delta_inv < q,
            same_lengths(ct1, ct2),
            n == ct1.0@.len(),
            i <= n,
            c0@.len() == i,
            c1@.len() == i,
            c2@.len() == i,
            forall|j: int| 0 <= j < i ==> #[trigger] c0@[j] == scaled(ct1.0@[j] * ct2.0@[j], d, q as int),
            forall|j: int|
                0 <= j < i ==> #[trigger] c1@[j] == scaled(
                    (ct1.0@[j] * ct2.1@[j]) % (q as int) + (ct1.1@[j] * ct2.0@[j]) % (q as int),
                    d,
                    q as int,
                ),
            forall|j: int| 0 <= j < i ==> #[trigger] c2@[j] == scaled(ct1.1@[j] * ct2.1@[j], d, q as int),
        decreases n - i,
    {
        let t1 = mod_mul_fast(ct1.0[i], ct2.0[i], q);
        let t2 = mod_mul_fast(ct1.0[i], ct2.1[i], q);
        let t3 = mod_mul_fast(ct1.1[i], ct2.0[i], q);
        let t4 = mod_mul_fast(ct1.1[i], ct2.1[i], q);
        let s23 = mod_add_fast(t2, t3, q);
        c0.push(mod_mul_fast(t1, delta_inv, q));
        c1.push(mod_mul_fast(s23, delta_inv, q));
        c2.push(mod_mul_fast(t4, delta_inv, q));
        i = i + 1;
    }
    Ok((c0, c1, c2))
}

/// The fixed ternary-like secret coefficient at `i` of the demonstration
/// cycle: `0, 1, -1, 2, -2` repeating, modulo `q`.
pub open spec fn cycle_secret(i: int, q: int) -> int {
    if i % 5 == 0 {
        0
    } else if i % 5 == 1 {
        1
    } else if i % 5 == 2 {
        q - 1
    } else if i % 5 == 3 {
        2
    } else {
        q - 2
    }
}

/// The fixed small error coefficient at `i`: `0, 1, -1` repeating.
pub open spec fn cycle_error(i: int, q: int) -> int {
    if i % 3 == 0 {
        0
    } else if i % 3 == 1 {
        1
    } else {
        q - 1
    }
}

/// Coefficient `i` after encrypting the plaintext `i mod t` with mask
/// `3i mod q` and decrypting again:
/// `c1 = c0 s + m delta + e`, then `((c1 - c0 s) t / q) mod t`.
pub open spec fn cycle_decrypted(i: int, q: int, t: int) -> int {
    let c0s = (((3 * i) % q) * cycle_secret(i, q)) % q;
    let m_delta = ((i % t) * (q / t)) % q;
    let c1 = (((c0s + m_delta) % q) + cycle_error(i, q)) % q;
    let diff = (c1 - c0s) % q;
    ((diff * t) / q) % t
}

/// How many of the first `k` coefficients decrypt to their plaintext.
pub open spec fn cycle_matches(k: nat, q: int, t: int) -> nat
    decreases k,
{
    if k == 0 {
        0
    } else {
        cycle_matches((k - 1) as nat, q, t) + if cycle_decrypted(k - 1, q, t) == (k - 1) % t {
            1nat
        } else {
            0nat
        }
    }
}

/// A deterministic encrypt-then-decrypt simulation over `poly_degree`
/// coefficients; true when at least 8 of the first 10 (or fewer)
/// coefficients come back as their plaintext.
pub fn encrypt_decrypt_cycle(poly_degree: usize, cipher_modulus: u64, plain_modulus: u64) -> (r:
    bool)
    requires
        cipher_modulus >= 2,
        plain_modulus >= 1,
    ensures
        r == (cycle_matches(
            if poly_degree < 10 {
                poly_degree as nat
            } else {
                10
            },
            cipher_modulus as int,
            plain_modulus as int,
        ) >= 8),
{
    let q = cipher_modulus;
    let t = plain_modulus;
    let delta = q / t;
    let checked: usize = if poly_degree < 10 { poly_degree } else { 10 };
    let mut correct: u64 = 0;
    let mut i: usize = 0;
    while i < checked
        invariant
            q >= 2,
            t >= 1,
            delta == q / t,
            checked <= 10,
            i <= checked,
            correct <= i,
            correct == cycle_matches(i as nat, q as int, t as int),
        decreases checked - i,
    {
        let plain = (i as u64) % t;
        let secret: u64 = if i % 5 == 0 {
            0
        } else if i % 5 == 1 {
            1
        } else if i % 5 == 2 {
            q - 1
        } else if i % 5 == 3 {
            2
        } else {
            q - 2
        };
        let error: u64 = if i % 3 == 0 {
            0
        } else if i % 3 == 1 {
            1
        } else {
            q - 1
        };
        let c0 = ((i as u128 * 3) % (q as u128)) as u64;
        let c0s = mod_mul_fast(c0, secret, q);
        let m_delta = mod_mul_fast(plain, delta, q);
        let sum = mod_add_fast(c0s, m_delta, q);
        let c1 = mod_add_fast(sum, error, q);
        let diff = mod_sub_fast(c1, c0s, q);
        assert((diff as u128) * (t as u128) < (q as u128) * (t as u128)) by (nonlinear_arith)
            requires
                diff < q,
                t >= 1,
        ;
        assert((q as u128) * (t as u128) <= 0xffff_ffff_ffff_fffe_0000_0000_0000_0001u128) by (nonlinear_arith)
            requires
                q <= 0xffff_ffff_ffff_ffffu64,
                t <= 0xffff_ffff_ffff_ffffu64,
        ;
        let scaled_down = (diff as u128) * (t as u128) / (q as u128);
        proof {
            lemma_div_is_ordered(
                (diff as u128 * t as u128) as int,
                (q as u128 * t as u128) as int,
                q as int,
            );
            lemma_div_multiples_vanish(t as int, q as int);
            lemma_mul_is_commutative(q as int, t as int);
        }
        let decrypted = (scaled_down as u64) % t;
        if decrypted == plain {
            correct = correct + 1;
        }
        i = i + 1;
    }
    correct >= 8
}

} // verus!
