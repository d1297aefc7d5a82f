//! The number-theoretic transform: a validated context with precomputed
//! bit-reversal and twiddle tables, radix-2 forward and inverse transforms,
//! and a radix-4 forward transform.
//!
//! For a context with modulus `m`, size `n` and root `psi` of order exactly
//! `2n`, the transforms use `omega = psi^2`, a root of order `n`. The
//! forward transform sends a polynomial `a` to its values
//! `a(omega^k) mod m` for `k < n`; products of transformed values therefore
//! correspond to cyclic convolution of coefficients.

use vstd::prelude::*;
use vstd::arithmetic::power::*;
use vstd::arithmetic::power2::*;
use vstd::arithmetic::div_mod::*;
use vstd::arithmetic::mul::*;
use crate::error::FheError;
use crate::bitrev::{bit_reverse_permute, build_bitrev, lemma_rev_bound, rev};
use crate::modular::{mod_mul_fast, mod_pow_fast};
use crate::poly::{eval, lemma_square_pow};
use crate::stages::{
    blocks_hold, build_radix4_twiddles, build_twiddles, lemma_pow_next_mod, lemma_stage_merge,
    lemma_stages_done, lemma_stages_start, lemma_twiddle_square, radix4_stage,
    radix4_twiddles_ok, run_stages, stage_result, stage_twiddles_ok,
};

verus! {

/// `n` is a power of two.
pub open spec fn is_power_of_two(n: int) -> bool {
    exists|k: nat| pow2(k) == n
}

/// Finds `k` with `2^k == n`, when there is one.
fn exact_log2(n: usize) -> (r: Option<usize>)
    ensures
        match r {
            Some(k) => pow2(k as nat) == n && k < 64,
            None => !is_power_of_two(n as int),
        },
{
    let mut p: usize = 1;
    let mut k: usize = 0;
    proof {
        lemma2_to64();
    }
    while p < n && p <= usize::MAX / 2
        invariant
            p == pow2(k as nat),
            p >= 1,
            k > 0 ==> pow2((k - 1) as nat) < n,
            k < 64,
        decreases usize::MAX - p,
    {
        proof {
            lemma_pow2_unfold((k + 1) as nat);
            if k + 1 >= 64 {
                lemma2_to64();
                lemma_pow2_strictly_increases(63, k as nat);
                assert(false);
            }
        }
        p = p * 2;
        k = k + 1;
    }
    if p == n {
        return Some(k);
    }
    proof {
        lemma_pow2_unfold((k + 1) as nat);
        assert forall|j: nat| pow2(j) != n by {
            if j < k {
                if j < k - 1 {
                    lemma_pow2_strictly_increases(j, (k - 1) as nat);
                }
            } else if j > k {
                if j > k + 1 {
                    lemma_pow2_strictly_increases((k + 1) as nat, j);
                }
                lemma_pow2_strictly_increases(k as nat, j);
            }
            lemma_pow2_pos(j);
        }
    }
    None
}

/// `root` has multiplicative order exactly `2n` modulo `m`, with
/// `root^n == -1`.
pub open spec fn root_has_order(root: int, n: nat, m: int) -> bool {
    &&& pow(root, n) % m == m - 1
    &&& pow(root, 2 * n) % m == 1
    &&& forall|k: nat| 0 < k < 2 * n ==> #[trigger] pow(root, k) % m != 1
}

/// Checks that `root` has order exactly `2n` modulo `m` and that
/// `root^n == -1`, by walking the powers `root^1 .. root^(2n)`.
fn check_root(root: u64, n: usize, m: u64) -> (ok: bool)
    requires
        m >= 2,
        n >= 1,
    ensures
        ok == root_has_order(root as int, n as nat, m as int),
{
    let two_n: u128 = 2 * (n as u128);
    let r = root % m;
    let mut k: u128 = 1;
    let mut p: u64 = r;
    proof {
        lemma_pow1(root as int);
    }
    while k < two_n
        invariant
            two_n == 2 * n,
            r == root % m,
            m >= 2,
            1 <= k <= two_n,
            p == pow(root as int, k as nat) % (m as int),
            forall|j: nat| 0 < j < k ==> #[trigger] pow(root as int, j) % (m as int) != 1,
            k > n ==> pow(root as int, n as nat) % (m as int) == m - 1,
        decreases two_n - k,
    {
        if p == 1 {
            assert(pow(root as int, k as nat) % (m as int) == 1);
            return false;
        }
        if k == n as u128 && p != m - 1 {
            return false;
        }
        proof {
            lemma_pow_next_mod(root as int, k as nat, m as int);
        }
        p = mod_mul_fast(p, r, m);
        k = k + 1;
    }
    if p != 1 {
        return false;
    }
    true
}

/// The parameters that determine a transform context.
pub struct TransformParams {
    pub modulus: int,
    pub log_size: nat,
    pub root: int,
}

impl TransformParams {
    /// The transform size `n = 2^log_size`.
    pub open spec fn size(self) -> nat {
        pow2(self.log_size)
    }

    /// The root of order `n`: `psi^2 mod m`.
    pub open spec fn omega(self) -> int {
        (self.root * self.root) % self.modulus
    }

    /// The inverse of the root: `psi^(2n-1) mod m`.
    pub open spec fn root_inv(self) -> int {
        pow(self.root, (2 * self.size() - 1) as nat) % self.modulus
    }

    /// The inverse of `omega`.
    pub open spec fn omega_inv(self) -> int {
        (self.root_inv() * self.root_inv()) % self.modulus
    }

    /// The inverse of `n` modulo an odd modulus: `((m + 1) / 2)^log_size`.
    pub open spec fn size_inv(self) -> int {
        pow(self.modulus / 2 + 1, self.log_size) % self.modulus
    }

    /// Parameters that a context can be built from: a modulus of at least
    /// two, a root of order exactly `2n` with `root^n == -1`, and a modulus
    /// in which `n` is invertible (odd, unless `n == 1`).
    pub open spec fn valid(self) -> bool {
        &&& 2 <= self.modulus <= u64::MAX
        &&& 0 <= self.root <= u64::MAX
        &&& self.size() <= usize::MAX
        &&& root_has_order(self.root, self.size(), self.modulus)
        &&& (self.log_size == 0 || self.modulus % 2 == 1)
    }
}

/// A transform context: modulus, size and validated root, with the
/// bit-reversal permutation and one twiddle factor per radix-2 stage for
/// each direction. Immutable once built.
pub struct TransformContext {
    modulus: u64,
    size: usize,
    log_size: usize,
    root: u64,
    omega: u64,
    omega_inv: u64,
    size_inv: u64,
    bitrev: Vec<usize>,
    twiddles: Vec<u64>,
    inv_twiddles: Vec<u64>,
    twiddles_radix4: Vec<(u64, u64, u64)>,
}

impl View for TransformContext {
    type V = TransformParams;

    closed spec fn view(&self) -> TransformParams {
        TransformParams {
            modulus: self.modulus as int,
            log_size: self.log_size as nat,
            root: self.root as int,
        }
    }
}

impl TransformContext {
    /// The context's tables agree with its parameters.
    pub closed spec fn wf(&self) -> bool {
        &&& self@.valid()
        &&& self.size == self@.size()
        &&& self.omega == self@.omega()
        &&& self.omega_inv == self@.omega_inv()
        &&& self.size_inv == self@.size_inv()
        &&& self.bitrev@.len() == self.size
        &&& forall|i: int|
            0 <= i < self.size ==> #[trigger] self.bitrev@[i] == rev(self.log_size as nat, i)
        &&& stage_twiddles_ok(self.twiddles@, self@.omega(), self.log_size as nat, self@.modulus)
        &&& stage_twiddles_ok(
            self.inv_twiddles@,
            self@.omega_inv(),
            self.log_size as nat,
            self@.modulus,
        )
        &&& radix4_twiddles_ok(self.twiddles_radix4@, self.twiddles@, self@.modulus)
    }

    /// The modulus.
    pub fn modulus(&self) -> (r: u64)
        ensures
            r == self@.modulus,
    {
        self.modulus
    }

    /// The transform size.
    pub fn size(&self) -> (r: usize)
        requires
            self.wf(),
        ensures
            r == self@.size(),
    {
        self.size
    }

    /// The root the context was built with.
    pub fn root(&self) -> (r: u64)
        ensures
            r == self@.root,
    {
        self.root
    }

    /// Builds a context for transforms of `size` coefficients modulo
    /// `modulus` with the root `root`, which must have multiplicative order
    /// exactly `2 * size`. Every check is made here, before any transform.
    pub fn new(modulus: u64, size: usize, root: u64) -> (r: Result<TransformContext, FheError>)
        ensures
            match r {
                Ok(ctx) => {
                    &&& ctx.wf()
                    &&& ctx@.valid()
                    &&& ctx@.modulus == modulus
                    &&& ctx@.size() == size
                    &&& ctx@.root == root
                },
                Err(e) => {
                    ||| (e == FheError::InvalidSize && !is_power_of_two(size as int))
                    ||| (e == FheError::InvalidModulus && is_power_of_two(size as int) && (modulus
                        < 2 || (size > 1 && modulus % 2 == 0)))
                    ||| (e == FheError::InvalidRoot && is_power_of_two(size as int) && modulus >= 2
                        && (size == 1 || modulus % 2 == 1) && !root_has_order(
                        root as int,
                        size as nat,
                        modulus as int,
                    ))
                },
            },
    {
        let log_size = match exact_log2(size) {
            Some(k) => k,
            None => {
                return Err(FheError::InvalidSize);
            },
        };
        proof {
            lemma_pow2_pos(log_size as nat);
        }
        if modulus < 2 || (size > 1 && modulus % 2 == 0) {
            return Err(FheError::InvalidModulus);
        }
        if !check_root(root, size, modulus) {
            return Err(FheError::InvalidRoot);
        }
        let ghost p = TransformParams {
            modulus: modulus as int,
            log_size: log_size as nat,
            root: root as int,
        };
        proof {
            lemma2_to64();
            if log_size < 63 {
                lemma_pow2_strictly_increases(log_size as nat, 63);
            }
            if log_size > 0 {
                lemma_pow2_strictly_increases(0, log_size as nat);
            }
            assert(p.valid());
        }
        let omega = mod_mul_fast(root, root, modulus);
        assert(size <= pow2(63));
        proof {
            lemma2_to64_rest();
        }
        assert(pow2(63) == 0x8000_0000_0000_0000);
        assert(2 * (size as u128) - 1 <= u64::MAX);
        let exp_inv: u64 = (2 * (size as u128) - 1) as u64;
        assert(exp_inv == 2 * p.size() - 1);
        let root_inv = mod_pow_fast(root, exp_inv, modulus);
        let omega_inv = mod_mul_fast(root_inv, root_inv, modulus);
        let size_inv = mod_pow_fast(modulus / 2 + 1, log_size as u64, modulus);
        let bitrev = build_bitrev(size, log_size);
        let twiddles = build_twiddles(omega, size, log_size, modulus);
        let inv_twiddles = build_twiddles(omega_inv, size, log_size, modulus);
        let twiddles_radix4 = build_radix4_twiddles(&twiddles, modulus);
        let ctx = TransformContext {
            modulus,
            size,
            log_size,
            root,
            omega,
            omega_inv,
            size_inv,
            bitrev,
            twiddles,
            inv_twiddles,
            twiddles_radix4,
        };
        assert(ctx@ == p);
        assert(ctx.omega == p.omega());
        assert(ctx.omega_inv == p.omega_inv());
        assert(ctx.size_inv == p.size_inv());
        assert(ctx.wf());
        Ok(ctx)
    }
}

/// The transform of `a` with root `w`: value `k` is `a(w^k) mod m`.
pub open spec fn dft(a: Seq<u64>, w: int, m: int) -> Seq<u64> {
    Seq::new(a.len(), |k: int| (eval(a, pow(w, k as nat)) % m) as u64)
}

/// Coefficientwise `c * v[i] mod m`.
pub open spec fn scale(v: Seq<u64>, c: int, m: int) -> Seq<u64> {
    Seq::new(v.len(), |i: int| ((c * v[i]) % m) as u64)
}

impl TransformParams {
    /// What the forward transform produces from `a`: its values at the
    /// powers of `omega`.
    pub open spec fn forward_spec(self, a: Seq<u64>) -> Seq<u64> {
        dft(a, self.omega(), self.modulus)
    }

    /// What the inverse transform produces from `v`: its values at the
    /// powers of `omega^-1`, each scaled by `n^-1`.
    pub open spec fn inverse_spec(self, v: Seq<u64>) -> Seq<u64> {
        scale(dft(v, self.omega_inv(), self.modulus), self.size_inv(), self.modulus)
    }
}

/// `omega^(n/2) == -1` and `omega_inv^(n/2) == -1` for valid parameters.
pub proof fn lemma_omega_half(p: TransformParams)
    requires
        p.valid(),
        p.log_size >= 1,
    ensures
        pow(p.omega(), pow2((p.log_size - 1) as nat)) % p.modulus == p.modulus - 1,
        pow(p.omega_inv(), pow2((p.log_size - 1) as nat)) % p.modulus == p.modulus - 1,
{
    let m = p.modulus;
    let n = p.size();
    let h = pow2((p.log_size - 1) as nat);
    lemma_pow2_unfold(p.log_size);
    assert(n == 2 * h);
    let root = p.root;
    lemma_pow_mod_noop(root * root, h, m);
    lemma_square_pow(root, h);
    let ri = pow(root, (2 * n - 1) as nat);
    lemma_pow_mod_noop(ri * ri, h, m);
    lemma_square_pow(ri, h);
    lemma_pow_mod_noop(ri, n, m);
    lemma_square_pow(p.root_inv(), h);
    lemma_pow_mod_noop(p.root_inv() * p.root_inv(), h, m);
    lemma_pow_multiplies(root, (2 * n - 1) as nat, n);
    assert(((2 * n - 1) * n) as nat == (2 * n * (n - 1)) as nat + n) by (nonlinear_arith)
        requires
            n >= 1,
    ;
    lemma_pow_adds(root, (2 * n * (n - 1)) as nat, n);
    lemma_pow_multiplies(root, 2 * n, (n - 1) as nat);
    lemma_pow_mod_noop(pow(root, 2 * n), (n - 1) as nat, m);
    lemma1_pow((n - 1) as nat);
    lemma_small_mod(1, m as nat);
    lemma_mul_mod_noop(pow(root, (2 * n * (n - 1)) as nat), pow(root, n), m);
    lemma_small_mod((m - 1) as nat, m as nat);
    assert(pow(pow(root, 2 * n), (n - 1) as nat) % m == 1);
    assert(pow(root, (2 * n * (n - 1)) as nat) % m == 1);
    assert(pow(root, ((2 * n - 1) * n) as nat) % m == m - 1);
    assert(pow(ri, n) % m == m - 1);
    assert(pow(p.root_inv(), n) % m == m - 1);
    assert(pow(p.root_inv(), 2 * h) % m == m - 1);
}

impl TransformContext {
    /// The forward transform, in place: `data` becomes its values at the
    /// powers of `omega`.
    pub fn forward(&self, data: &mut Vec<u64>) -> (r: Result<(), FheError>)
        requires
            self.wf(),
            forall|i: int| 0 <= i < old(data)@.len() ==> old(data)@[i] < self@.modulus,
        ensures
            match r {
                Ok(()) => old(data)@.len() == self@.size() && final(data)@ == self@.forward_spec(
                    old(data)@,
                ),
                Err(e) => e == FheError::SizeMismatch && old(data)@.len() != self@.size()
                    && final(data)@ == old(data)@,
            },
    {
        if data.len() != self.size {
            return Err(FheError::SizeMismatch);
        }
        let ghost a = data@;
        let ghost l = self.log_size as nat;
        bit_reverse_permute(data, &self.bitrev, Ghost(l));
        proof {
            lemma_stages_start(data@, a, l, self@.omega(), self@.modulus);
            if l >= 1 {
                lemma_omega_half(self@);
            }
            assert forall|i: int| 0 <= i < data@.len() implies data@[i] < self.modulus by {
                lemma_rev_bound(l, i);
            }
        }
        run_stages(data, &self.twiddles, self.modulus, self.log_size, Ghost(self@.omega()), Ghost(a));
        proof {
            lemma_stages_done(data@, a, l, self@.omega(), self@.modulus);
        }
        Ok(())
    }

    /// The inverse transform, in place: the values at the powers of
    /// `omega^-1`, each multiplied by `n^-1`.
    pub fn inverse(&self, data: &mut Vec<u64>) -> (r: Result<(), FheError>)
        requires
            self.wf(),
            forall|i: int| 0 <= i < old(data)@.len() ==> old(data)@[i] < self@.modulus,
        ensures
            match r {
                Ok(()) => old(data)@.len() == self@.size() && final(data)@ == self@.inverse_spec(
                    old(data)@,
                ),
                Err(e) => e == FheError::SizeMismatch && old(data)@.len() != self@.size()
                    && final(data)@ == old(data)@,
            },
    {
        if data.len() != self.size {
            return Err(FheError::SizeMismatch);
        }
        let ghost a = data@;
        let ghost l = self.log_size as nat;
        bit_reverse_permute(data, &self.bitrev, Ghost(l));
        proof {
            lemma_stages_start(data@, a, l, self@.omega_inv(), self@.modulus);
            if l >= 1 {
                lemma_omega_half(self@);
            }
            assert forall|i: int| 0 <= i < data@.len() implies data@[i] < self.modulus by {
                lemma_rev_bound(l, i);
            }
        }
        run_stages(
            data,
            &self.inv_twiddles,
            self.modulus,
            self.log_size,
            Ghost(self@.omega_inv()),
            Ghost(a),
        );
        proof {
            lemma_stages_done(data@, a, l, self@.omega_inv(), self@.modulus);
        }
        let ghost v = data@;
        let n = data.len();
        let mut i: usize = 0;
        while i < n
            invariant
                n == data@.len(),
                n == v.len(),
                self.modulus >= 2,
                i <= n,
                forall|q: int|
                    0 <= q < n ==> #[trigger] data@[q] == if q < i {
                        ((self.size_inv * v[q]) % (self.modulus as int)) as u64
                    } else {
                        v[q]
                    },
            decreases n - i,
        {
            let x = mod_mul_fast(self.size_inv, data[i], self.modulus);
            data.set(i, x);
            i = i + 1;
        }
        assert(data@ =~= self@.inverse_spec(a));
        Ok(())
    }
}

/// `n` is a power of four.
pub open spec fn is_power_of_four(n: int) -> bool {
    exists|k: nat| #[trigger] pow2(2 * k) == n
}

/// `2^l` is a power of four exactly when `l` is even.
proof fn lemma_power_of_four(l: nat)
    ensures
        is_power_of_four(pow2(l) as int) <==> l % 2 == 0,
{
    if l % 2 == 0 {
        assert(pow2(2 * (l / 2)) == pow2(l));
    } else {
        assert forall|k: nat| #[trigger] pow2(2 * k) != pow2(l) by {
            if 2 * k < l {
                lemma_pow2_strictly_increases(2 * k, l);
            } else {
                lemma_pow2_strictly_increases(l, 2 * k);
            }
        }
    }
}

impl TransformContext {
    /// The forward transform by radix-4 passes, for sizes that are powers
    /// of four: the same result as [`TransformContext::forward`] in half as
    /// many passes.
    pub fn forward_radix4(&self, data: &mut Vec<u64>) -> (r: Result<(), FheError>)
        requires
            self.wf(),
            forall|i: int| 0 <= i < old(data)@.len() ==> old(data)@[i] < self@.modulus,
        ensures
            match r {
                Ok(()) => {
                    &&& old(data)@.len() == self@.size()
                    &&& is_power_of_four(self@.size() as int)
                    &&& final(data)@ == self@.forward_spec(old(data)@)
                },
                Err(e) => final(data)@ == old(data)@ && ((e == FheError::SizeMismatch && old(
                    data,
                )@.len() != self@.size()) || (e == FheError::InvalidSize && old(data)@.len()
                    == self@.size() && !is_power_of_four(self@.size() as int))),
            },
    {
        if data.len() != self.size {
            return Err(FheError::SizeMismatch);
        }
        let ghost l = self.log_size as nat;
        proof {
            lemma_power_of_four(l);
        }
        if self.log_size % 2 == 1 {
            return Err(FheError::InvalidSize);
        }
        let ghost a = data@;
        let ghost w = self@.omega();
        let m = self.modulus;
        bit_reverse_permute(data, &self.bitrev, Ghost(l));
        proof {
            lemma_stages_start(data@, a, l, w, self@.modulus);
            if l >= 1 {
                lemma_omega_half(self@);
            }
            assert forall|i: int| 0 <= i < data@.len() implies data@[i] < m by {
                lemma_rev_bound(l, i);
            }
            lemma2_to64();
        }
        let stages = self.log_size / 2;
        let mut t: usize = 0;
        let mut quarter: usize = 1;
        while t < stages
            invariant
                self.wf(),
                m == self.modulus,
                m >= 2,
                l == self.log_size,
                l % 2 == 0,
                stages == l / 2,
                w == self@.omega(),
                a.len() == self.size,
                data@.len() == self.size,
                t <= stages,
                quarter == pow2(2 * t as nat),
                l >= 1 ==> pow(w, pow2((l - 1) as nat)) % (m as int) == m - 1,
                blocks_hold(data@, a, l, 2 * t as nat, w, m as int),
                forall|i: int| 0 <= i < data@.len() ==> data@[i] < m,
            decreases stages - t,
        {
            let ghost s2 = 2 * t as int;
            let (w1, w2, w3) = self.twiddles_radix4[t];
            proof {
                lemma_twiddle_square(self.twiddles@, w, l, m as int, s2);
                lemma_pow2_unfold((s2 + 1) as nat);
                lemma_pow2_unfold((s2 + 2) as nat);
                lemma_pow2_adds((s2 + 2) as nat, (l - s2 - 2) as nat);
                assert((s2 + 2) as nat + (l - s2 - 2) as nat == l);
                lemma_pow2_pos((l - s2 - 2) as nat);
                lemma_pow2_pos((s2 + 2) as nat);
                lemma_mod_multiples_basic(pow2((l - s2 - 2) as nat) as int, pow2((s2 + 2) as nat) as int);
                lemma_mul_is_commutative(pow2((l - s2 - 2) as nat) as int, pow2((s2 + 2) as nat) as int);
                assert(pow2((s2 + 2) as nat) <= self.size) by (nonlinear_arith)
                    requires
                        self.size == pow2((s2 + 2) as nat) * pow2((l - s2 - 2) as nat),
                        pow2((l - s2 - 2) as nat) >= 1,
                ;
                lemma_mul_is_commutative(w2 as int, w1 as int);
            }
            let ghost prev = data@;
            radix4_stage(data, quarter, w1, w2, w3, m);
            proof {
                lemma_stage_merge(prev, a, l, s2 as nat, w, w2 as int, m as int);
                lemma_stage_merge(
                    stage_result(prev, pow2(s2 as nat), w2 as int, m as int),
                    a,
                    l,
                    (s2 + 1) as nat,
                    w,
                    w1 as int,
                    m as int,
                );
                assert(2 * (t + 1) as nat == (s2 + 2) as nat);
            }
            quarter = quarter * 4;
            t = t + 1;
        }
        proof {
            lemma_stages_done(data@, a, l, w, m as int);
        }
        Ok(())
    }
}

/// The forward radix-4 transform of `poly` in place, for a modulus and a
/// root of order exactly `2 * poly.len()`, with `poly.len()` a power of
/// four. Builds the context, so every check of
/// [`TransformContext::new`] applies.
pub fn ntt_forward_radix4(poly: &mut Vec<u64>, modulus: u64, root: u64) -> (r: Result<(), FheError>)
    requires
        forall|i: int| 0 <= i < old(poly)@.len() ==> old(poly)@[i] < modulus,
    ensures
        match r {
            Ok(()) => {
                &&& is_power_of_four(old(poly)@.len() as int)
                &&& modulus >= 2
                &&& (old(poly)@.len() == 1 || modulus % 2 == 1)
                &&& root_has_order(root as int, old(poly)@.len(), modulus as int)
                &&& final(poly)@ == dft(old(poly)@, (root * root) % (modulus as int), modulus as int)
            },
            Err(e) => {
                &&& final(poly)@ == old(poly)@
                &&& {
                    let n = old(poly)@.len();
                    ||| (e == FheError::InvalidSize && !is_power_of_four(n as int))
                    ||| (e == FheError::InvalidModulus && is_power_of_two(n as int) && (modulus < 2
                        || (n > 1 && modulus % 2 == 0)))
                    ||| (e == FheError::InvalidRoot && is_power_of_two(n as int) && modulus >= 2 && (
                    n == 1 || modulus % 2 == 1) && !root_has_order(root as int, n, modulus as int))
                }
            },
        },
{
    let ctx = match TransformContext::new(modulus, poly.len(), root) {
        Ok(c) => c,
        Err(e) => {
            proof {
                if e == FheError::InvalidSize {
                    assert forall|k: nat| #[trigger] pow2(2 * k) != poly@.len() by {
                        if pow2(2 * k) == poly@.len() {
                            assert(is_power_of_two(poly@.len() as int));
                        }
                    }
                }
            }
            return Err(e);
        },
    };
    proof {
        lemma2_to64();
        assert(ctx@.size() == poly@.len());
        assert(ctx@.omega() == (root * root) % (modulus as int));
        assert(ctx@.log_size == 0 ==> ctx@.size() == 1);
    }
    ctx.forward_radix4(poly)
}

/// A polynomial in the coefficient domain.
pub struct CoeffPoly {
    pub coeffs: Vec<u64>,
}

/// A polynomial in the evaluation domain: its values at the powers of
/// `omega`. The two domains are different types, so they are never mixed;
/// only the transforms convert between them.
pub struct EvalPoly {
    pub values: Vec<u64>,
}

impl TransformContext {
    /// Moves a polynomial into the evaluation domain.
    pub fn to_evaluation(&self, p: CoeffPoly) -> (r: Result<EvalPoly, FheError>)
        requires
            self.wf(),
            forall|i: int| 0 <= i < p.coeffs@.len() ==> p.coeffs@[i] < self@.modulus,
        ensures
            match r {
                Ok(e) => p.coeffs@.len() == self@.size() && e.values@ == self@.forward_spec(
                    p.coeffs@,
                ),
                Err(e) => e == FheError::SizeMismatch && p.coeffs@.len() != self@.size(),
            },
    {
        let mut values = p.coeffs;
        match self.forward(&mut values) {
            Ok(()) => Ok(EvalPoly { values }),
            Err(e) => Err(e),
        }
    }

    /// Moves a polynomial back into the coefficient domain.
    pub fn to_coefficients(&self, p: EvalPoly) -> (r: Result<CoeffPoly, FheError>)
        requires
            self.wf(),
            forall|i: int| 0 <= i < p.values@.len() ==> p.values@[i] < self@.modulus,
        ensures
            match r {
                Ok(c) => p.values@.len() == self@.size() && c.coeffs@ == self@.inverse_spec(
                    p.values@,
                ),
                Err(e) => e == FheError::SizeMismatch && p.values@.len() != self@.size(),
            },
    {
        let mut coeffs = p.values;
        match self.inverse(&mut coeffs) {
            Ok(()) => Ok(CoeffPoly { coeffs }),
            Err(e) => Err(e),
        }
    }
}

} // verus!
