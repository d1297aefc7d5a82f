//! The butterfly stages of the transforms and the proof that they compute
//! polynomial evaluation: after `s` radix-2 stages every block of `2^s`
//! positions holds the transform of the coefficients in its residue class,
//! and a radix-4 pass does the work of two radix-2 stages.

use vstd::prelude::*;
use vstd::arithmetic::power::*;
use vstd::arithmetic::power2::*;
use vstd::arithmetic::div_mod::*;
use vstd::arithmetic::mul::*;
use crate::bitrev::{bitrev_perm, lemma_rev_bound, lemma_rev_children, rev};
use crate::modular::{mod_add_fast, mod_mul_fast, mod_pow_fast, mod_sub_fast};
use crate::ntt::dft;
use crate::poly::{
    eval, evens, odds, lemma_eval_congruent, lemma_eval_even_odd, lemma_eval_single,
    lemma_mod_fma_add, lemma_mod_fma_sub, lemma_mod_negated_term, lemma_mul_minus_one,
    lemma_square_minus_one, lemma_square_pow, lemma_mul_congruent, lemma_add_sub_congruent,
    lemma_mod_mod_same,
};

verus! {

/// `(x^k mod m) * (x mod m) == x^(k+1) (mod m)`.
pub(crate) proof fn lemma_pow_next_mod(x: int, k: nat, m: int)
    requires
        m > 0,
    ensures
        ((pow(x, k) % m) * (x % m)) % m == pow(x, k + 1) % m,
{
    lemma_pow_adds(x, k, 1);
    lemma_pow1(x);
    lemma_mul_mod_noop(pow(x, k), x, m);
}

/// One twiddle per radix-2 stage: stage `s` (blocks of `2^(s+1)`) uses
/// `w^(n / 2^(s+1)) mod m`.
pub open spec fn stage_twiddles_ok(t: Seq<u64>, w: int, log_n: nat, m: int) -> bool {
    &&& t.len() == log_n
    &&& forall|s: int|
        0 <= s < log_n ==> #[trigger] t[s] == pow(w, pow2((log_n - s - 1) as nat)) % m
}

/// One triple `(w, w^2, w^3)` per radix-4 stage: stage `t` covers the
/// radix-2 stages `2t` and `2t + 1`, with `w` the twiddle of the second and
/// `w^2` that of the first.
pub open spec fn radix4_twiddles_ok(t4: Seq<(u64, u64, u64)>, tw: Seq<u64>, m: int) -> bool {
    &&& t4.len() == tw.len() / 2
    &&& forall|t: int|
        0 <= t < t4.len() ==> (#[trigger] t4[t]).0 == tw[2 * t + 1] && t4[t].1 == tw[2 * t]
            && t4[t].2 == (tw[2 * t] * tw[2 * t + 1]) % m
}

/// The radix-4 triples, read off the radix-2 twiddles.
pub(crate) fn build_radix4_twiddles(tw: &Vec<u64>, m: u64) -> (v: Vec<(u64, u64, u64)>)
    requires
        m >= 2,
    ensures
        radix4_twiddles_ok(v@, tw@, m as int),
{
    let mut v: Vec<(u64, u64, u64)> = Vec::new();
    let len = tw.len();
    let k = len / 2;
    let mut t: usize = 0;
    while t < k
        invariant
            m >= 2,
            len == tw@.len(),
            k == len / 2,
            t <= k,
            v@.len() == t,
            forall|i: int|
                0 <= i < t ==> (#[trigger] v@[i]).0 == tw@[2 * i + 1] && v@[i].1 == tw@[2 * i]
                    && v@[i].2 == (tw@[2 * i] * tw@[2 * i + 1]) % (m as int),
        decreases k - t,
    {
        assert(2 * t + 1 < tw@.len());
        let w = tw[2 * t + 1];
        let w2 = tw[2 * t];
        v.push((w, w2, mod_mul_fast(w2, w, m)));
        t = t + 1;
    }
    v
}

/// The per-stage twiddles `w^(n / 2^(s+1)) mod m` for `s < log_n`.
pub(crate) fn build_twiddles(w: u64, n: usize, log_n: usize, m: u64) -> (v: Vec<u64>)
    requires
        n == pow2(log_n as nat),
        m >= 2,
    ensures
        stage_twiddles_ok(v@, w as int, log_n as nat, m as int),
{
    let mut v: Vec<u64> = Vec::new();
    let mut s: usize = 0;
    let mut e: usize = n / 2;
    proof {
        if log_n > 0 {
            lemma_pow2_unfold(log_n as nat);
        }
    }
    while s < log_n
        invariant
            n == pow2(log_n as nat),
            m >= 2,
            s <= log_n,
            s < log_n ==> e == pow2((log_n - s - 1) as nat),
            v@.len() == s,
            forall|j: int|
                0 <= j < s ==> #[trigger] v@[j] == pow(w as int, pow2((log_n - j - 1) as nat)) % (
                m as int),
        decreases log_n - s,
    {
        let t = mod_pow_fast(w, e as u64, m);
        v.push(t);
        proof {
            if s + 1 < log_n {
                lemma_pow2_unfold((log_n - s - 1) as nat);
            }
        }
        e = e / 2;
        s = s + 1;
    }
    v
}

/// The `len` coefficients `a[off], a[off + stride], a[off + 2 stride], ...`.
pub open spec fn strided(a: Seq<u64>, len: nat, stride: nat, off: int) -> Seq<u64> {
    Seq::new(len, |t: int| a[off + t * stride])
}

/// What one radix-2 stage with half-block `half` and stage twiddle `wl`
/// leaves at position `p`.
pub open spec fn butterfly_value(prev: Seq<u64>, half: nat, wl: int, m: int, p: int) -> u64 {
    let k = p % (2 * half as int);
    if k < half {
        let t = ((pow(wl, k as nat) % m) * prev[p + half]) % m;
        ((prev[p] + t) % m) as u64
    } else {
        let t = ((pow(wl, (k - half) as nat) % m) * prev[p]) % m;
        ((prev[p - half] - t) % m) as u64
    }
}

/// The whole array after one radix-2 stage.
pub open spec fn stage_result(prev: Seq<u64>, half: nat, wl: int, m: int) -> Seq<u64> {
    Seq::new(prev.len(), |p: int| butterfly_value(prev, half, wl, m, p))
}

/// What block `b` holds at offset `k` after `s` stages: the transform of
/// length `2^s` of the coefficients of `a` in that block's residue class.
pub open spec fn block_value(a: Seq<u64>, log_n: nat, s: nat, w: int, m: int, b: int, k: int) -> int {
    let nb = pow2((log_n - s) as nat);
    eval(strided(a, pow2(s), nb, rev((log_n - s) as nat, b)), pow(w, (nb * k) as nat)) % m
}

/// After `s` stages every block holds its partial transform.
pub open spec fn blocks_hold(d: Seq<u64>, a: Seq<u64>, log_n: nat, s: nat, w: int, m: int) -> bool {
    &&& d.len() == pow2(log_n)
    &&& forall|b: int, k: int|
        0 <= b < pow2((log_n - s) as nat) && 0 <= k < pow2(s) ==> d[b * pow2(s) + k] as int
            == #[trigger] block_value(a, log_n, s, w, m, b, k)
}

/// Offset `q` within a block that starts at a multiple of `len`.
pub(crate) proof fn lemma_offset_in_block(start: int, len: int, q: int)
    requires
        len > 0,
        start >= 0,
        start % len == 0,
        0 <= q < len,
    ensures
        (start + q) % len == q,
{
    lemma_fundamental_div_mod(start, len);
    lemma_mul_is_commutative(len, start / len);
    lemma_fundamental_div_mod_converse(start + q, len, start / len, q);
}

/// The next block of `len` still fits.
pub(crate) proof fn lemma_next_block(start: int, len: int, n: int)
    requires
        len > 0,
        0 <= start < n,
        start % len == 0,
        n % len == 0,
    ensures
        start + len <= n,
        (start + len) % len == 0,
{
    lemma_fundamental_div_mod(start, len);
    lemma_fundamental_div_mod(n, len);
    let a = start / len;
    let c = n / len;
    assert(a < c) by (nonlinear_arith)
        requires
            start == len * a,
            n == len * c,
            start < n,
            len > 0,
    ;
    assert(start + len <= n) by (nonlinear_arith)
        requires
            start == len * a,
            n == len * c,
            a + 1 <= c,
            len > 0,
    ;
    assert(start + len == (a + 1) * len) by (nonlinear_arith)
        requires
            start == len * a,
    ;
    lemma_fundamental_div_mod_converse(start + len, len, a + 1, 0);
}

/// One radix-2 stage in place: for every block of `2 * half` and every
/// `j < half`, the butterfly `(u, v) -> (u + w^j v, u - w^j v)`.
pub(crate) fn butterfly_stage(data: &mut Vec<u64>, half: usize, wl: u64, m: u64)
    requires
        m >= 2,
        half >= 1,
        2 * half <= old(data)@.len(),
        (old(data)@.len() as int) % (2 * half as int) == 0,
        forall|i: int| 0 <= i < old(data)@.len() ==> old(data)@[i] < m,
    ensures
        final(data)@ == stage_result(old(data)@, half as nat, wl as int, m as int),
{
    let n = data.len();
    let len = 2 * half;
    let ghost prev = data@;
    let ghost r = stage_result(prev, half as nat, wl as int, m as int);
    let mut start: usize = 0;
    while start < n
        invariant
            n == data@.len(),
            n == prev.len(),
            len == 2 * half,
            half >= 1,
            m >= 2,
            len <= n,
            r == stage_result(prev, half as nat, wl as int, m as int),
            start <= n,
            start % len == 0,
            n % len == 0,
            forall|i: int| 0 <= i < n ==> prev[i] < m,
            forall|p: int| 0 <= p < n ==> #[trigger] data@[p] == if p < start { r[p] } else { prev[p] },
        decreases n - start,
    {
        proof {
            lemma_next_block(start as int, len as int, n as int);
        }
        let mut j: usize = 0;
        let mut w: u64 = 1;
        proof {
            lemma_pow0(wl as int);
            lemma_small_mod(1, m as nat);
        }
        while j < half
            invariant
                n == data@.len(),
                n == prev.len(),
                len == 2 * half,
                m >= 2,
                start + len <= n,
                start % len == 0,
                j <= half,
                w < m,
                w == pow(wl as int, j as nat) % (m as int),
                r == stage_result(prev, half as nat, wl as int, m as int),
                forall|i: int| 0 <= i < n ==> prev[i] < m,
                forall|p: int|
                    0 <= p < n ==> #[trigger] data@[p] == if p < start || (start <= p < start + j)
                        || (start + half <= p < start + half + j) {
                        r[p]
                    } else {
                        prev[p]
                    },
            decreases half - j,
        {
            let lo = start + j;
            let hi = start + j + half;
            let u = data[lo];
            let v = data[hi];
            let t = mod_mul_fast(w, v, m);
            let x = mod_add_fast(u, t, m);
            let y = mod_sub_fast(u, t, m);
            proof {
                lemma_offset_in_block(start as int, len as int, j as int);
                lemma_offset_in_block(start as int, len as int, (j + half) as int);
                assert(r[lo as int] == x);
                assert(r[hi as int] == y);
            }
            data.set(lo, x);
            data.set(hi, y);
            proof {
                lemma_pow_next_mod(wl as int, j as nat, m as int);
            }
            w = mod_mul_fast(w, wl % m, m);
            j = j + 1;
        }
        start = start + len;
    }
    assert(data@ =~= r);
}

/// One output of a stage is the partial transform of the merged block.
#[verifier::rlimit(40)]
pub(crate) proof fn lemma_merge_point(
    prev: Seq<u64>,
    a: Seq<u64>,
    log_n: nat,
    s: nat,
    w: int,
    wl: int,
    m: int,
    b: int,
    k: int,
)
    requires
        2 <= m <= u64::MAX,
        s < log_n,
        a.len() == pow2(log_n),
        blocks_hold(prev, a, log_n, s, w, m),
        wl == pow(w, pow2((log_n - s - 1) as nat)) % m,
        pow(w, pow2((log_n - 1) as nat)) % m == m - 1,
        0 <= b < pow2((log_n - s - 1) as nat),
        0 <= k < pow2(s + 1),
    ensures
        stage_result(prev, pow2(s), wl, m)[b * pow2(s + 1) + k] as int == block_value(
            a,
            log_n,
            s + 1,
            w,
            m,
            b,
            k,
        ),
{
    let half = pow2(s);
    let len = pow2(s + 1);
    let nb = pow2((log_n - s) as nat);
    let nb1 = pow2((log_n - s - 1) as nat);
    let n = pow2(log_n);
    lemma_pow2_unfold(s + 1);
    lemma_pow2_unfold((log_n - s) as nat);
    assert(len == 2 * half);
    assert(nb == 2 * nb1);
    lemma_pow2_adds((log_n - s) as nat, s);
    assert((log_n - s) as nat + s == log_n);
    assert(n == nb * half);
    lemma_pow2_adds((log_n - s - 1) as nat, s);
    assert((log_n - s - 1) as nat + s == (log_n - 1) as nat);
    let h = pow(w, pow2((log_n - 1) as nat));
    assert(pow2((log_n - 1) as nat) == nb1 * half);
    lemma_pow2_pos(s);
    lemma_pow2_pos((log_n - s - 1) as nat);
    let p = b * len + k;
    assert(p + half < n + half && p < n) by (nonlinear_arith)
        requires
            0 <= b < nb1,
            0 <= k < len,
            p == b * len + k,
            n == nb * half,
            nb == 2 * nb1,
            len == 2 * half,
    ;
    lemma_fundamental_div_mod_converse(p, len as int, b, k);
    assert(p % (2 * half as int) == k);
    let r1 = rev((log_n - s - 1) as nat, b);
    lemma_rev_children((log_n - s) as nat, b);
    assert(((log_n - s) - 1) as nat == (log_n - s - 1) as nat);
    let ss = strided(a, len, nb1, r1);
    let e = strided(a, half, nb, r1);
    let o = strided(a, half, nb, r1 + nb1);
    lemma_rev_bound((log_n - s - 1) as nat, b);
    assert forall|t: int| 0 <= t < half implies #[trigger] evens(ss)[t] == e[t] by {
        assert((2 * t) * nb1 == t * nb) by (nonlinear_arith)
            requires
                nb == 2 * nb1,
        ;
    }
    assert forall|t: int| 0 <= t < half implies #[trigger] odds(ss)[t] == o[t] by {
        assert((2 * t + 1) * nb1 == nb1 + t * nb) by (nonlinear_arith)
            requires
                nb == 2 * nb1,
        ;
        assert(odds(ss)[t] == ss[2 * t + 1]);
        assert(ss[2 * t + 1] == a[r1 + (2 * t + 1) * nb1]);
        assert(o[t] == a[(r1 + nb1) + t * nb]);
    }
    assert(evens(ss) =~= e);
    assert(odds(ss) =~= o);
    assert(((log_n - (s + 1)) as nat) == (log_n - s - 1) as nat);
    let target = block_value(a, log_n, s + 1, w, m, b, k);
    assert(target == eval(ss, pow(w, (nb1 * k) as nat)) % m);
    let x = pow(w, (nb1 * k) as nat);
    lemma_eval_even_odd(ss, x);
    lemma_pow_adds(w, (nb1 * k) as nat, (nb1 * k) as nat);
    assert((nb1 * k) as nat + (nb1 * k) as nat == (nb * k) as nat) by (nonlinear_arith)
        requires
            nb == 2 * nb1,
            k >= 0,
    ;
    let xx = x * x;
    assert(xx == pow(w, (nb * k) as nat));
    let r = stage_result(prev, half, wl, m);
    lemma_pow_mod_noop(pow(w, nb1), k as nat, m);
    if k < half {
        assert(p + half < n) by (nonlinear_arith)
            requires
                0 <= b < nb1,
                0 <= k < half,
                p == b * len + k,
                n == nb * half,
                nb == 2 * nb1,
                len == 2 * half,
        ;
        lemma_pow_multiplies(w, nb1, k as nat);
        assert(pow(wl, k as nat) % m == x % m);
        assert(2 * b * half + k == p) by (nonlinear_arith)
            requires
                p == b * len + k,
                len == 2 * half,
        ;
        assert((2 * b + 1) * half + k == p + half) by (nonlinear_arith)
            requires
                p == b * len + k,
                len == 2 * half,
        ;
        let be = block_value(a, log_n, s, w, m, 2 * b, k);
        let bo = block_value(a, log_n, s, w, m, 2 * b + 1, k);
        assert(2 * b < nb && 2 * b + 1 < nb);
        assert(prev[2 * b * half + k] as int == be);
        assert(prev[(2 * b + 1) * half + k] as int == bo);
        assert(be == eval(e, xx) % m);
        assert(bo == eval(o, xx) % m);
        let va = eval(e, xx);
        let vb = eval(o, xx);
        lemma_mod_fma_add(va, vb, x, m);
        assert(eval(ss, x) == va + x * vb);
        assert(prev[p] as int == va % m);
        assert(prev[p + half] as int == vb % m);
        assert(r[p] == butterfly_value(prev, half, wl, m, p));
        let t = ((pow(wl, k as nat) % m) * prev[p + half]) % m;
        assert(t == ((x % m) * (vb % m)) % m);
        assert(butterfly_value(prev, half, wl, m, p) == ((prev[p] + t) % m) as u64);
        assert(r[p] as int == target);
    } else {
        let j = k - half;
        let xj = pow(w, (nb1 * j) as nat);
        lemma_pow_mod_noop(pow(w, nb1), j as nat, m);
        lemma_pow_multiplies(w, nb1, j as nat);
        assert(pow(wl, j as nat) % m == xj % m);
        assert(2 * b * half + j == p - half) by (nonlinear_arith)
            requires
                p == b * len + k,
                len == 2 * half,
                j == k - half,
        ;
        assert((2 * b + 1) * half + j == p) by (nonlinear_arith)
            requires
                p == b * len + k,
                len == 2 * half,
                j == k - half,
        ;
        let be = block_value(a, log_n, s, w, m, 2 * b, j);
        let bo = block_value(a, log_n, s, w, m, 2 * b + 1, j);
        assert(2 * b < nb && 2 * b + 1 < nb);
        assert(prev[2 * b * half + j] as int == be);
        assert(prev[(2 * b + 1) * half + j] as int == bo);
        let xxj = pow(w, (nb * j) as nat);
        assert(be == eval(e, xxj) % m);
        assert(bo == eval(o, xxj) % m);
        // x = w^(nb1 j) * w^(n/2), which is -xj
        assert((nb1 * k) as nat == (nb1 * j) as nat + pow2((log_n - 1) as nat)) by (nonlinear_arith)
            requires
                k == j + half,
                pow2((log_n - 1) as nat) == nb1 * half,
                j >= 0,
        ;
        lemma_pow_adds(w, (nb1 * j) as nat, pow2((log_n - 1) as nat));
        assert(x == xj * h);
        lemma_mul_minus_one(xj, h, m);
        // x * x = w^(nb j) * w^n, and w^n is one
        assert((nb * k) as nat == (nb * j) as nat + (pow2((log_n - 1) as nat) + pow2(
            (log_n - 1) as nat,
        ))) by (nonlinear_arith)
            requires
                k == j + half,
                pow2((log_n - 1) as nat) == nb1 * half,
                nb == 2 * nb1,
                j >= 0,
        ;
        lemma_pow_adds(w, pow2((log_n - 1) as nat), pow2((log_n - 1) as nat));
        lemma_pow_adds(
            w,
            (nb * j) as nat,
            pow2((log_n - 1) as nat) + pow2((log_n - 1) as nat),
        );
        lemma_square_minus_one(h, m);
        lemma_mul_mod_noop_right(xxj, h * h, m);
        assert(xx % m == xxj % m);
        lemma_eval_congruent(e, xx, xxj, m);
        lemma_eval_congruent(o, xx, xxj, m);
        lemma_mod_negated_term(eval(e, xx), eval(o, xx), eval(e, xxj), eval(o, xxj), xj, x, m);
        lemma_mod_fma_sub(eval(e, xxj), eval(o, xxj), xj, m);
        assert(r[p] as int == target);
    }
}

/// A stage turns the partial transforms of blocks of `2^s` into those of
/// blocks of `2^(s+1)`.
pub(crate) proof fn lemma_stage_merge(prev: Seq<u64>, a: Seq<u64>, log_n: nat, s: nat, w: int, wl: int, m: int)
    requires
        2 <= m <= u64::MAX,
        s < log_n,
        a.len() == pow2(log_n),
        blocks_hold(prev, a, log_n, s, w, m),
        wl == pow(w, pow2((log_n - s - 1) as nat)) % m,
        pow(w, pow2((log_n - 1) as nat)) % m == m - 1,
    ensures
        blocks_hold(stage_result(prev, pow2(s), wl, m), a, log_n, s + 1, w, m),
{
    assert((log_n - (s + 1)) as nat == (log_n - s - 1) as nat);
    assert forall|b: int, k: int|
        0 <= b < pow2((log_n - (s + 1)) as nat) && 0 <= k < pow2(s + 1) implies stage_result(
        prev,
        pow2(s),
        wl,
        m,
    )[b * pow2(s + 1) + k] as int == #[trigger] block_value(a, log_n, s + 1, w, m, b, k) by {
        lemma_merge_point(prev, a, log_n, s, w, wl, m, b, k);
    }
}

/// After the bit-reversal permutation every block of one holds its
/// coefficient.
pub(crate) proof fn lemma_stages_start(d: Seq<u64>, a: Seq<u64>, log_n: nat, w: int, m: int)
    requires
        2 <= m,
        a.len() == pow2(log_n),
        d == bitrev_perm(a, log_n),
        forall|i: int| 0 <= i < a.len() ==> a[i] < m,
    ensures
        blocks_hold(d, a, log_n, 0, w, m),
{
    lemma2_to64();
    assert((log_n - 0) as nat == log_n);
    assert forall|b: int, k: int| 0 <= b < pow2((log_n - 0) as nat) && 0 <= k < pow2(0) implies d[b
        * pow2(0) + k] as int == #[trigger] block_value(a, log_n, 0, w, m, b, k) by {
        assert(k == 0);
        lemma_rev_bound(log_n, b);
        let st = strided(a, 1, pow2(log_n), rev(log_n, b));
        assert(0 * pow2(log_n) == 0);
        assert(st[0] == a[rev(log_n, b) + 0 * pow2(log_n)]);
        assert(st[0] == a[rev(log_n, b)]);
        lemma_eval_single(st, pow(w, (pow2(log_n) * k) as nat));
        lemma_small_mod(a[rev(log_n, b)] as nat, m as nat);
        assert(b * pow2(0) + k == b);
    }
}

/// After the last stage the one block holds the whole transform.
pub(crate) proof fn lemma_stages_done(d: Seq<u64>, a: Seq<u64>, log_n: nat, w: int, m: int)
    requires
        2 <= m <= u64::MAX,
        a.len() == pow2(log_n),
        blocks_hold(d, a, log_n, log_n, w, m),
    ensures
        d == dft(a, w, m),
{
    lemma2_to64();
    assert((log_n - log_n) as nat == 0);
    assert(rev(0, 0) == 0);
    let st = strided(a, pow2(log_n), 1, 0);
    assert(st =~= a);
    assert forall|k: int| 0 <= k < a.len() implies d[k] == dft(a, w, m)[k] by {
        assert(block_value(a, log_n, log_n, w, m, 0, k) == eval(st, pow(w, k as nat)) % m);
        assert(0 * pow2(log_n) + k == k);
    }
    assert(d =~= dft(a, w, m));
}

/// Runs every radix-2 stage with the per-stage twiddles `tw`.
pub(crate) fn run_stages(
    data: &mut Vec<u64>,
    tw: &Vec<u64>,
    m: u64,
    log_n: usize,
    Ghost(w): Ghost<int>,
    Ghost(a): Ghost<Seq<u64>>,
)
    requires
        2 <= m,
        old(data)@.len() == pow2(log_n as nat),
        pow2(log_n as nat) <= usize::MAX,
        a.len() == pow2(log_n as nat),
        stage_twiddles_ok(tw@, w, log_n as nat, m as int),
        log_n >= 1 ==> pow(w, pow2((log_n - 1) as nat)) % (m as int) == m - 1,
        blocks_hold(old(data)@, a, log_n as nat, 0, w, m as int),
        forall|i: int| 0 <= i < old(data)@.len() ==> old(data)@[i] < m,
    ensures
        blocks_hold(final(data)@, a, log_n as nat, log_n as nat, w, m as int),
{
    let ghost n = data@.len();
    let mut s: usize = 0;
    let mut half: usize = 1;
    proof {
        lemma2_to64();
    }
    while s < log_n
        invariant
            2 <= m,
            n == data@.len(),
            n == pow2(log_n as nat),
            n <= usize::MAX,
            a.len() == n,
            s <= log_n,
            half == pow2(s as nat),
            stage_twiddles_ok(tw@, w, log_n as nat, m as int),
            log_n >= 1 ==> pow(w, pow2((log_n - 1) as nat)) % (m as int) == m - 1,
            blocks_hold(data@, a, log_n as nat, s as nat, w, m as int),
            forall|i: int| 0 <= i < data@.len() ==> data@[i] < m,
        decreases log_n - s,
    {
        proof {
            lemma_pow2_unfold((s + 1) as nat);
            lemma_pow2_adds((s + 1) as nat, (log_n - s - 1) as nat);
            assert((s + 1) as nat + (log_n - s - 1) as nat == log_n as nat);
            lemma_pow2_pos((log_n - s - 1) as nat);
            lemma_pow2_pos(s as nat);
            lemma_pow2_pos((s + 1) as nat);
            lemma_mod_multiples_basic(pow2((log_n - s - 1) as nat) as int, pow2((s + 1) as nat) as int);
            lemma_mul_is_commutative(pow2((log_n - s - 1) as nat) as int, pow2((s + 1) as nat) as int);
            assert(pow2((s + 1) as nat) <= n) by (nonlinear_arith)
                requires
                    n == pow2((s + 1) as nat) * pow2((log_n - s - 1) as nat),
                    pow2((log_n - s - 1) as nat) >= 1,
            ;
        }
        let ghost prev = data@;
        let wl = tw[s];
        butterfly_stage(data, half, wl, m);
        proof {
            lemma_stage_merge(prev, a, log_n as nat, s as nat, w, wl as int, m as int);
        }
        half = half * 2;
        s = s + 1;
    }
}

/// The twiddle of a radix-2 stage is the square of the next stage's.
pub(crate) proof fn lemma_twiddle_square(tw: Seq<u64>, w: int, log_n: nat, m: int, s: int)
    requires
        m >= 2,
        stage_twiddles_ok(tw, w, log_n, m),
        0 <= s,
        s + 1 < log_n,
    ensures
        tw[s] as int == (tw[s + 1] * tw[s + 1]) % m,
        tw[s + 1] < m,
{
    let e = pow2((log_n - s - 2) as nat);
    lemma_pow2_unfold((log_n - s - 1) as nat);
    assert(((log_n - s - 1) - 1) as nat == (log_n - s - 2) as nat);
    assert(tw[s + 1] == pow(w, e) % m);
    lemma_square_pow(w, e);
    lemma_pow_adds(w, e, e);
    assert(pow(w, pow2((log_n - s - 1) as nat)) == pow(w, e) * pow(w, e));
    lemma_mul_mod_noop(pow(w, e), pow(w, e), m);
}

/// Whether `p` is one of the four positions `start + j + c q`, `c < 4`.
pub(crate) proof fn lemma_quad_positions(start: int, q: int, j: int, p: int)
    requires
        q >= 1,
        0 <= j < q,
        start <= p < start + 4 * q,
    ensures
        0 <= (p - start) % q < q,
        ((p - start) % q == j) <==> (p == start + j || p == start + j + q || p == start + j + 2 * q
            || p == start + j + 3 * q),
{
    let o = p - start;
    lemma_fundamental_div_mod(o, q);
    lemma_mod_bound(o, q);
    let c = o / q;
    assert(0 <= c < 4) by (nonlinear_arith)
        requires
            o == q * c + o % q,
            0 <= o % q < q,
            0 <= o < 4 * q,
    ;
    assert(o == q * c + o % q);
    if c == 0 {
        assert(o == o % q) by (nonlinear_arith)
            requires
                o == q * c + o % q,
                c == 0,
        ;
    } else if c == 1 {
        assert(o == q + o % q) by (nonlinear_arith)
            requires
                o == q * c + o % q,
                c == 1,
        ;
    } else if c == 2 {
        assert(o == 2 * q + o % q) by (nonlinear_arith)
            requires
                o == q * c + o % q,
                c == 2,
        ;
    } else {
        assert(o == 3 * q + o % q) by (nonlinear_arith)
            requires
                o == q * c + o % q,
                c == 3,
        ;
    }
    if p == start + j + q {
        lemma_fundamental_div_mod_converse(o, q, 1, j);
    } else if p == start + j + 2 * q {
        lemma_fundamental_div_mod_converse(o, q, 2, j);
    } else if p == start + j + 3 * q {
        lemma_fundamental_div_mod_converse(o, q, 3, j);
    } else if p == start + j {
        lemma_fundamental_div_mod_converse(o, q, 0, j);
    }
}

/// The two products that make a radix-4 butterfly agree with two radix-2
/// butterflies, modulo `m`.
pub(crate) proof fn lemma_radix4_products(
    x2: int,
    x3: int,
    tw1: int,
    tw2: int,
    tw3: int,
    twq: int,
    im: int,
    e1: int,
    e2: int,
    iq: int,
    m: int,
)
    requires
        m > 0,
        tw1 % m == e1 % m,
        tw2 % m == e2 % m,
        tw3 % m == (e1 * e2) % m,
        twq % m == (e1 * iq) % m,
        im % m == iq % m,
    ensures
        (tw1 * ((x2 + (tw2 * x3) % m) % m)) % m == ((tw1 * x2) % m + (tw3 * x3) % m) % m,
        (twq * ((x2 - (tw2 * x3) % m) % m)) % m == (im * (((tw1 * x2) % m - (tw3 * x3) % m)
            % m)) % m,
{
    let c3 = (tw2 * x3) % m;
    lemma_mul_congruent(tw2, e2, x3, x3, m);
    lemma_mod_mod_same(tw2 * x3, m);
    lemma_add_sub_congruent(x2, x2, c3, e2 * x3, m);
    let u = (x2 + c3) % m;
    let v = (x2 - c3) % m;
    lemma_mod_mod_same(x2 + c3, m);
    lemma_mod_mod_same(x2 - c3, m);
    lemma_mul_congruent(tw1, e1, u, x2 + e2 * x3, m);
    lemma_mul_congruent(twq, e1 * iq, v, x2 - e2 * x3, m);
    let a2 = (tw1 * x2) % m;
    let a3 = (tw3 * x3) % m;
    lemma_mul_congruent(tw1, e1, x2, x2, m);
    lemma_mul_congruent(tw3, e1 * e2, x3, x3, m);
    lemma_mod_mod_same(tw1 * x2, m);
    lemma_mod_mod_same(tw3 * x3, m);
    lemma_add_sub_congruent(a2, e1 * x2, a3, (e1 * e2) * x3, m);
    assert(e1 * (x2 + e2 * x3) == e1 * x2 + (e1 * e2) * x3) by (nonlinear_arith);
    let d = (a2 - a3) % m;
    lemma_mod_mod_same(a2 - a3, m);
    lemma_mul_congruent(im, iq, d, e1 * x2 - (e1 * e2) * x3, m);
    assert((e1 * iq) * (x2 - e2 * x3) == iq * (e1 * x2 - (e1 * e2) * x3)) by (nonlinear_arith);
    lemma_mod_mod_same((a2 + a3), m);
}

/// The radix-4 butterfly at offset `j` of the block at `start` produces
/// what two radix-2 stages produce at its four positions.
#[verifier::rlimit(80)]
pub(crate) proof fn lemma_radix4_point(
    prev: Seq<u64>,
    q: int,
    w: int,
    w2: int,
    w3: int,
    imag: int,
    mi: int,
    start: int,
    j: int,
)
    requires
        2 <= mi <= u64::MAX,
        q >= 1,
        0 <= j < q,
        0 <= start,
        start + 4 * q <= prev.len(),
        start % (4 * q) == 0,
        start % (2 * q) == 0,
        (start + 2 * q) % (2 * q) == 0,
        forall|i: int| 0 <= i < prev.len() ==> prev[i] < mi,
        0 <= w < mi,
        w2 == (w * w) % mi,
        w3 == (w2 * w) % mi,
        imag == pow(w, q as nat) % mi,
    ensures
        ({
            let r1 = stage_result(prev, q as nat, w2, mi);
            let r2 = stage_result(r1, 2 * q as nat, w, mi);
            let out = radix4_outputs(
                prev[start + j] as int,
                prev[start + j + q] as int,
                prev[start + j + 2 * q] as int,
                prev[start + j + 3 * q] as int,
                pow(w, j as nat) % mi,
                pow(w2, j as nat) % mi,
                pow(w3, j as nat) % mi,
                imag,
                mi,
            );
            &&& r2[start + j] as int == out.0
            &&& r2[start + j + q] as int == out.1
            &&& r2[start + j + 2 * q] as int == out.2
            &&& r2[start + j + 3 * q] as int == out.3
        }),
{
    let p0 = start + j;
    let p1 = p0 + q;
    let p2 = p1 + q;
    let p3 = p2 + q;
    let x2 = prev[p2] as int;
    let x3 = prev[p3] as int;
    let tw1 = pow(w, j as nat) % mi;
    let tw2 = pow(w2, j as nat) % mi;
    let tw3 = pow(w3, j as nat) % mi;
    let twq = pow(w, (j + q) as nat) % mi;
    let e1 = pow(w, j as nat);
    let e2 = pow(w, (2 * j) as nat);
    let iq = pow(w, q as nat);
    // the running twiddles are the powers w^j, w^2j, w^3j, w^(j+q)
    lemma_mod_mod_same(e1, mi);
    lemma_pow_mod_noop(w * w, j as nat, mi);
    lemma_square_pow(w, j as nat);
    lemma_mod_mod_same(pow(w2, j as nat), mi);
    lemma_pow_mod_noop(w2, j as nat, mi);
    assert(tw2 % mi == e2 % mi);
    lemma_mul_mod_noop_left(w * w, w, mi);
    lemma_pow_mod_noop((w * w) * w, j as nat, mi);
    lemma_pow_mod_noop(w3, j as nat, mi);
    lemma_pow_distributes(w * w, w, j as nat);
    lemma_mod_mod_same(pow(w3, j as nat), mi);
    lemma_mul_is_commutative(e2, e1);
    assert(tw3 % mi == (e1 * e2) % mi);
    lemma_pow_adds(w, j as nat, q as nat);
    lemma_mod_mod_same(pow(w, (j + q) as nat), mi);
    lemma_mod_mod_same(iq, mi);
    lemma_radix4_products(x2, x3, tw1, tw2, tw3, twq, imag, e1, e2, iq, mi);
    // positions within the half blocks and the whole block
    lemma_offset_in_block(start, 2 * q, j);
    lemma_offset_in_block(start, 2 * q, j + q);
    lemma_offset_in_block(start + 2 * q, 2 * q, j);
    lemma_offset_in_block(start + 2 * q, 2 * q, j + q);
    lemma_offset_in_block(start, 4 * q, j);
    lemma_offset_in_block(start, 4 * q, j + q);
    lemma_offset_in_block(start, 4 * q, j + 2 * q);
    lemma_offset_in_block(start, 4 * q, j + 3 * q);
}

/// What the radix-4 butterfly computes from `(x0, x1, x2, x3)` and the
/// twiddles `w^j`, `w^2j`, `w^3j` and `i`.
pub open spec fn radix4_outputs(
    x0: int,
    x1: int,
    x2: int,
    x3: int,
    tw1: int,
    tw2: int,
    tw3: int,
    im: int,
    m: int,
) -> (int, int, int, int) {
    let a1 = (tw2 * x1) % m;
    let a2 = (tw1 * x2) % m;
    let a3 = (tw3 * x3) % m;
    let t0 = (x0 + a1) % m;
    let t1 = (x0 - a1) % m;
    let t2 = (a2 + a3) % m;
    let t3 = (im * ((a2 - a3) % m)) % m;
    ((t0 + t2) % m, (t1 + t3) % m, (t0 - t2) % m, (t1 - t3) % m)
}

/// One radix-4 pass in place: each quadruple `(x0, x1, x2, x3)` at
/// distance `quarter` becomes, with `a1 = w^2j x1`, `a2 = w^j x2`,
/// `a3 = w^3j x3` and `i = w^quarter`,
/// `(x0 + a1) +- (a2 + a3)` and `(x0 - a1) +- i (a2 - a3)`: the same as two
/// radix-2 stages.
pub(crate) fn radix4_stage(data: &mut Vec<u64>, quarter: usize, w: u64, w2: u64, w3: u64, m: u64)
    requires
        m >= 2,
        quarter >= 1,
        4 * quarter <= old(data)@.len(),
        (old(data)@.len() as int) % (4 * quarter as int) == 0,
        forall|i: int| 0 <= i < old(data)@.len() ==> old(data)@[i] < m,
        w < m,
        w2 == (w * w) % (m as int),
        w3 == (w2 * w) % (m as int),
    ensures
        final(data)@ == stage_result(
            stage_result(old(data)@, quarter as nat, w2 as int, m as int),
            2 * quarter as nat,
            w as int,
            m as int,
        ),
{
    let n = data.len();
    let q = quarter;
    let len = 4 * q;
    let ghost mi = m as int;
    let ghost prev = data@;
    let ghost r1 = stage_result(prev, q as nat, w2 as int, mi);
    let ghost r2 = stage_result(r1, 2 * q as nat, w as int, mi);
    let imag = mod_pow_fast(w, q as u64, m);
    let mut start: usize = 0;
    while start < n
        invariant
            n == data@.len(),
            n == prev.len(),
            len == 4 * q,
            q >= 1,
            m >= 2,
            mi == m,
            len <= n,
            w < m,
            w2 == (w * w) % mi,
            w3 == (w2 * w) % mi,
            imag == pow(w as int, q as nat) % mi,
            r1 == stage_result(prev, q as nat, w2 as int, mi),
            r2 == stage_result(r1, 2 * q as nat, w as int, mi),
            start <= n,
            start % len == 0,
            n % len == 0,
            forall|i: int| 0 <= i < n ==> prev[i] < m,
            forall|p: int| 0 <= p < n ==> #[trigger] data@[p] == if p < start { r2[p] } else { prev[p] },
        decreases n - start,
    {
        proof {
            lemma_next_block(start as int, len as int, n as int);
            lemma_fundamental_div_mod(start as int, len as int);
            let kb = (start as int) / (len as int);
            assert(start == (2 * kb) * (2 * q)) by (nonlinear_arith)
                requires
                    start == len * kb + 0,
                    len == 4 * q,
            ;
            lemma_mod_multiples_basic(2 * kb, 2 * q as int);
            assert((start + 2 * q) == (2 * kb + 1) * (2 * q)) by (nonlinear_arith)
                requires
                    start == (2 * kb) * (2 * q),
            ;
            lemma_mod_multiples_basic(2 * kb + 1, 2 * q as int);
        }
        let mut j: usize = 0;
        let mut tw1: u64 = 1;
        let mut tw2: u64 = 1;
        let mut tw3: u64 = 1;
        let mut twq: u64 = imag;
        proof {
            lemma_pow0(w as int);
            lemma_pow0(w2 as int);
            lemma_pow0(w3 as int);
            lemma_small_mod(1, m as nat);
        }
        while j < q
            invariant
                n == data@.len(),
                n == prev.len(),
                len == 4 * q,
                q >= 1,
                m >= 2,
                mi == m,
                w < m,
                w2 == (w * w) % mi,
                w3 == (w2 * w) % mi,
                imag == pow(w as int, q as nat) % mi,
                r1 == stage_result(prev, q as nat, w2 as int, mi),
                r2 == stage_result(r1, 2 * q as nat, w as int, mi),
                start + len <= n,
                start % len == 0,
                (start as int) % (2 * q as int) == 0,
                ((start + 2 * q) as int) % (2 * q as int) == 0,
                j <= q,
                tw1 == pow(w as int, j as nat) % mi,
                tw2 == pow(w2 as int, j as nat) % mi,
                tw3 == pow(w3 as int, j as nat) % mi,
                twq == pow(w as int, (j + q) as nat) % mi,
                forall|i: int| 0 <= i < n ==> prev[i] < m,
                forall|p: int|
                    0 <= p < n ==> #[trigger] data@[p] == if p < start || (start <= p < start + len
                        && (p - start) % (q as int) < j) {
                        r2[p]
                    } else {
                        prev[p]
                    },
            decreases q - j,
        {
            let p0 = start + j;
            let p1 = p0 + q;
            let p2 = p1 + q;
            let p3 = p2 + q;
            proof {
                lemma_quad_positions(start as int, q as int, j as int, p0 as int);
                lemma_quad_positions(start as int, q as int, j as int, p1 as int);
                lemma_quad_positions(start as int, q as int, j as int, p2 as int);
                lemma_quad_positions(start as int, q as int, j as int, p3 as int);
            }
            let x0 = data[p0];
            let x1 = data[p1];
            let x2 = data[p2];
            let x3 = data[p3];
            let a1 = mod_mul_fast(tw2, x1, m);
            let a2 = mod_mul_fast(tw1, x2, m);
            let a3 = mod_mul_fast(tw3, x3, m);
            let t0 = mod_add_fast(x0, a1, m);
            let t1 = mod_sub_fast(x0, a1, m);
            let t2 = mod_add_fast(a2, a3, m);
            let d = mod_sub_fast(a2, a3, m);
            let t3 = mod_mul_fast(imag, d, m);
            let o0 = mod_add_fast(t0, t2, m);
            let o1 = mod_add_fast(t1, t3, m);
            let o2 = mod_sub_fast(t0, t2, m);
            let o3 = mod_sub_fast(t1, t3, m);
            proof {
                lemma_radix4_point(prev, q as int, w as int, w2 as int, w3 as int, imag as int, mi, start as int, j as int);
            }
            data.set(p0, o0);
            data.set(p1, o1);
            data.set(p2, o2);
            data.set(p3, o3);
            proof {
                assert forall|p: int| 0 <= p < n implies #[trigger] data@[p] == if p < start || (
                start <= p < start + len && (p - start) % (q as int) < j + 1) {
                    r2[p]
                } else {
                    prev[p]
                } by {
                    if start <= p < start + len {
                        lemma_quad_positions(start as int, q as int, j as int, p);
                    }
                }
                lemma_pow_next_mod(w as int, j as nat, mi);
                lemma_pow_next_mod(w2 as int, j as nat, mi);
                lemma_pow_next_mod(w3 as int, j as nat, mi);
                lemma_pow_next_mod(w as int, (j + q) as nat, mi);
                lemma_small_mod(w as nat, m as nat);
                lemma_small_mod(w2 as nat, m as nat);
                lemma_small_mod(w3 as nat, m as nat);
            }
            tw1 = mod_mul_fast(tw1, w, m);
            tw2 = mod_mul_fast(tw2, w2, m);
            tw3 = mod_mul_fast(tw3, w3, m);
            twq = mod_mul_fast(twq, w, m);
            j = j + 1;
        }
        proof {
            assert forall|p: int| 0 <= p < n implies #[trigger] data@[p] == if p < start + len {
                r2[p]
            } else {
                prev[p]
            } by {
                if start <= p < start + len {
                    lemma_quad_positions(start as int, q as int, 0, p);
                }
            }
        }
        start = start + len;
    }
    assert(data@ =~= r2);
}

} // verus!
