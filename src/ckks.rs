//! Coefficient-level helpers of a CKKS-style scheme: rescaling between
//! moduli and rotation of a polynomial.

use vstd::prelude::*;
use vstd::arithmetic::div_mod::*;
use vstd::arithmetic::mul::*;
use crate::modular::mod_sub_fast;

verus! {

/// `c * to / from`, rounded to the nearest integer with halves rounded up,
/// then reduced modulo `to`.
pub open spec fn rescaled(c: int, from: int, to: int) -> int {
    ((2 * c * to + from) / (2 * from)) % to
}

/// Moves each coefficient from modulus `modulus_from` to modulus
/// `modulus_to`: `round(c * modulus_to / modulus_from) mod modulus_to`,
/// computed exactly in integers.
pub fn rescaling(ciphertext: &[u64], modulus_from: u64, modulus_to: u64) -> (r: Vec<u64>)
    requires
        modulus_from > 0,
        modulus_to > 0,
    ensures
        r@.len() == ciphertext@.len(),
        forall|i: int|
            0 <= i < ciphertext@.len() ==> #[trigger] r@[i] == rescaled(
                ciphertext@[i] as int,
                modulus_from as int,
                modulus_to as int,
            ),
{
    let n = ciphertext.len();
    let mut r: Vec<u64> = Vec::new();
    let mut i: usize = 0;
    while i < n
        invariant
            n == ciphertext@.len(),
            modulus_from > 0,
            modulus_to > 0,
            i <= n,
            r@.len() == i,
            forall|j: int|
                0 <= j < i ==> #[trigger] r@[j] == rescaled(
                    ciphertext@[j] as int,
                    modulus_from as int,
                    modulus_to as int,
                ),
        decreases n - i,
    {
        r.push(rescale_one(ciphertext[i], modulus_from, modulus_to));
        i = i + 1;
    }
    r
}

fn rescale_one(c: u64, from: u64, to: u64) -> (r: u64)
    requires
        from > 0,
        to > 0,
    ensures
        r == rescaled(c as int, from as int, to as int),
{
    assert(c * to <= 0xffff_ffff_ffff_fffe_0000_0000_0000_0001u128) by (nonlinear_arith)
        requires
            c <= 0xffff_ffff_ffff_ffffu64,
            to <= 0xffff_ffff_ffff_ffffu64,
    ;
    let p = (c as u128) * (to as u128);
    let f = from as u128;
    let q = p / f;
    let rem = p % f;
    proof {
        lemma_fundamental_div_mod(p as int, f as int);
        lemma_div_pos_is_pos(p as int, f as int);
        lemma_mod_bound(p as int, f as int);
        assert(q <= p) by (nonlinear_arith)
            requires
                p == f * q + rem,
                f >= 1,
                rem >= 0,
                q >= 0,
        ;
    }
    let rounded = if 2 * rem >= f { q + 1 } else { q };
    proof {
        let x = 2 * (c as int) * (to as int) + from as int;
        let k = if 2 * rem >= f { 1int } else { 0int };
        assert(x == (q + k) * (2 * from) + (2 * rem + from - 2 * from * k)) by (nonlinear_arith)
            requires
                p == f * q + rem,
                p == c * to,
                f == from,
                x == 2 * (c as int) * (to as int) + from as int,
        ;
        lemma_fundamental_div_mod_converse(x, 2 * from as int, q + k, 2 * rem + from - 2 * from * k);
    }
    (rounded % (to as u128)) as u64
}

/// `steps` reduced into `[0, n)`.
pub open spec fn rotation_offset(steps: int, n: int) -> int {
    steps % n
}

/// Coefficient `j` after rotating `poly` by `steps`: the coefficient from
/// `j - s` (cyclically), where `s = steps mod n`, negated modulo `modulus`
/// at odd positions when `s` is odd.
pub open spec fn rotated_coeff(poly: Seq<u64>, steps: int, modulus: int, j: int) -> int {
    let n = poly.len() as int;
    let s = rotation_offset(steps, n);
    let v = poly[(j - s) % n] as int;
    if s % 2 == 1 && j % 2 == 1 {
        (-v) % modulus
    } else {
        v
    }
}

/// Rotates the coefficients of `poly` cyclically by `steps` positions
/// (negative steps rotate the other way), negating odd positions when the
/// reduced step count is odd.
pub fn rotate_polynomial(poly: &[u64], steps: isize, modulus: u64) -> (r: Vec<u64>)
    requires
        modulus > 0,
    ensures
        r@.len() == poly@.len(),
        forall|j: int|
            0 <= j < poly@.len() ==> #[trigger] r@[j] as int == rotated_coeff(
                poly@,
                steps as int,
                modulus as int,
                j,
            ),
{
    let n = poly.len();
    let mut r: Vec<u64> = Vec::new();
    if n == 0 {
        return r;
    }
    let nn = n as u128;
    let s: u128 = if steps >= 0 {
        (steps as u128) % nn
    } else {
        let k = ((-(steps as i128)) as u128) % nn;
        if k == 0 {
            0
        } else {
            nn - k
        }
    };
    proof {
        if steps >= 0 {
        } else {
            let k = (-(steps as int)) % (n as int);
            let qq = (-(steps as int)) / (n as int);
            lemma_fundamental_div_mod(-(steps as int), n as int);
            assert(steps as int == (-qq) * n - k) by (nonlinear_arith)
                requires
                    -(steps as int) == n * qq + k,
            ;
            assert(steps as int == (-qq - 1) * n + (n - k)) by (nonlinear_arith)
                requires
                    steps as int == (-qq) * n - k,
            ;
            lemma_mod_bound(-(steps as int), n as int);
            if k == 0 {
                lemma_fundamental_div_mod_converse(steps as int, n as int, -qq, 0);
            } else {
                lemma_fundamental_div_mod_converse(
                    steps as int,
                    n as int,
                    -((-(steps as int)) / (n as int)) - 1,
                    n - k,
                );
            }
        }
        assert(s == rotation_offset(steps as int, n as int));
    }
    let mut j: usize = 0;
    while j < n
        invariant
            n == poly@.len(),
            n > 0,
            nn == n,
            modulus > 0,
            s < n,
            s == rotation_offset(steps as int, n as int),
            j <= n,
            r@.len() == j,
            forall|q: int|
                0 <= q < j ==> #[trigger] r@[q] as int == rotated_coeff(
                    poly@,
                    steps as int,
                    modulus as int,
                    q,
                ),
        decreases n - j,
    {
        let src = ((j as u128 + nn - s) % nn) as usize;
        proof {
            if j >= s {
                lemma_fundamental_div_mod_converse(j + n - s, n as int, 1, j - s);
                lemma_small_mod((j - s) as nat, n as nat);
            } else {
                lemma_small_mod((j + n - s) as nat, n as nat);
                lemma_fundamental_div_mod_converse(j - s, n as int, -1, j + n - s);
            }
        }
        let v = poly[src];
        if s % 2 == 1 && j % 2 == 1 {
            let neg = mod_sub_fast(0, v % modulus, modulus);
            proof {
                lemma_sub_mod_noop(0, v as int, modulus as int);
                lemma_small_mod(0, modulus as nat);
            }
            r.push(neg);
        } else {
            r.push(v);
        }
        j = j + 1;
    }
    r
}

} // verus!
