//! A residue number system: an integer below the product `M` of pairwise
//! coprime moduli is held as its residues, one per modulus, and rebuilt by
//! the Chinese remainder theorem from precomputed constants.

use vstd::prelude::*;
use vstd::arithmetic::div_mod::*;
use vstd::arithmetic::mul::*;
use crate::error::FheError;
use crate::modular::{has_inverse, mod_inv_extended, mod_mul_fast, mod_add_fast};
use crate::poly::{sum, lemma_sum_mod, lemma_sum_single};

verus! {

/// The product of a sequence of moduli.
pub open spec fn product(s: Seq<u64>) -> int
    decreases s.len(),
{
    if s.len() == 0 {
        1
    } else {
        product(s.drop_last()) * s.last()
    }
}

/// `M / m_i`: the product of every modulus but the one at `i`.
pub open spec fn cofactor(s: Seq<u64>, i: int) -> int {
    product(s.remove(i))
}

/// Moduli that a base can be built from: each at least two, a product that
/// fits in 128 bits, and every cofactor `M / m_i` invertible modulo `m_i`
/// (which holds exactly when the moduli are pairwise coprime).
pub open spec fn base_ok(s: Seq<u64>) -> bool {
    &&& forall|i: int| 0 <= i < s.len() ==> #[trigger] s[i] >= 2
    &&& product(s) <= u128::MAX
    &&& forall|i: int| 0 <= i < s.len() ==> has_inverse(#[trigger] cofactor(s, i) % (s[i] as int), s[i] as int)
}

/// A product of positive moduli is positive.
pub proof fn lemma_product_positive(s: Seq<u64>)
    requires
        forall|i: int| 0 <= i < s.len() ==> #[trigger] s[i] >= 1,
    ensures
        product(s) >= 1,
    decreases s.len(),
{
    if s.len() > 0 {
        lemma_product_positive(s.drop_last());
        lemma_mul_increases(s.last() as int, product(s.drop_last()));
        lemma_mul_is_commutative(s.last() as int, product(s.drop_last()));
    }
}

/// Taking out the element at `q` divides the product by it.
pub proof fn lemma_product_remove(t: Seq<u64>, q: int)
    requires
        0 <= q < t.len(),
    ensures
        product(t) == t[q] * product(t.remove(q)),
    decreases t.len(),
{
    if q == t.len() - 1 {
        assert(t.remove(q) =~= t.drop_last());
        lemma_mul_is_commutative(t[q] as int, product(t.drop_last()));
    } else {
        let d = t.drop_last();
        lemma_product_remove(d, q);
        assert(t.remove(q).drop_last() =~= d.remove(q));
        assert(t.remove(q).last() == t.last());
        let a = t[q] as int;
        let b = product(d.remove(q));
        let c = t.last() as int;
        assert((a * b) * c == a * (b * c)) by (nonlinear_arith);
    }
}

/// A prefix of positive moduli has a product no larger than the whole.
proof fn lemma_product_prefix_le(s: Seq<u64>, i: int)
    requires
        0 <= i <= s.len(),
        forall|j: int| 0 <= j < s.len() ==> #[trigger] s[j] >= 1,
    ensures
        product(s.subrange(0, i)) <= product(s),
    decreases s.len() - i,
{
    if i < s.len() {
        lemma_product_prefix_le(s, i + 1);
        let ghost t = s.subrange(0, i + 1);
        assert(t.drop_last() =~= s.subrange(0, i));
        lemma_product_positive(s.subrange(0, i));
        lemma_mul_increases(s[i] as int, product(s.subrange(0, i)));
        lemma_mul_is_commutative(s[i] as int, product(s.subrange(0, i)));
    } else {
        assert(s.subrange(0, i) =~= s);
    }
}

/// The residues of `x`, one per modulus.
pub open spec fn residues_of(x: int, s: Seq<u64>) -> Seq<u64> {
    Seq::new(s.len(), |i: int| (x % (s[i] as int)) as u64)
}

/// `y` is below the product and has the given residues.
pub open spec fn is_crt_solution(s: Seq<u64>, r: Seq<u64>, y: int) -> bool {
    &&& 0 <= y < product(s)
    &&& forall|i: int| 0 <= i < s.len() ==> #[trigger] (y % (s[i] as int)) == (r[i] as int) % (s[i] as int)
}

/// The integer below `M` with residues `r`: the reconstruction.
pub open spec fn crt_reconstruct(s: Seq<u64>, r: Seq<u64>) -> int {
    choose|y: int| is_crt_solution(s, r, y)
}

/// A number divisible by each modulus of a base is divisible by their
/// product.
proof fn lemma_crt_divides(s: Seq<u64>, d: int)
    requires
        forall|i: int| 0 <= i < s.len() ==> #[trigger] s[i] >= 2,
        forall|i: int| 0 <= i < s.len() ==> has_inverse(#[trigger] cofactor(s, i) % (s[i] as int), s[i] as int),
        forall|i: int| 0 <= i < s.len() ==> d % (#[trigger] s[i] as int) == 0,
    ensures
        d % product(s) == 0,
    decreases s.len(),
{
    if s.len() == 0 {
        lemma_fundamental_div_mod_converse(d, 1, d, 0);
    } else {
        let k = s.len() - 1;
        let s1 = s.drop_last();
        let l = s.last() as int;
        assert forall|i: int| 0 <= i < s1.len() implies has_inverse(#[trigger] cofactor(s1, i) % (
        s1[i] as int), s1[i] as int) by {
            let mi = s1[i] as int;
            assert(s[i] == s1[i]);
            assert(s.remove(i).drop_last() =~= s1.remove(i));
            assert(s.remove(i).last() == s.last());
            assert(cofactor(s, i) == cofactor(s1, i) * l);
            assert(has_inverse(cofactor(s, i) % mi, mi));
            let x = choose|x: int| #[trigger] (((cofactor(s, i) % mi) * x) % mi) == 1;
            lemma_mul_mod_noop_left(cofactor(s, i), x, mi);
            lemma_mul_mod_noop_left(cofactor(s1, i), l * x, mi);
            assert(cofactor(s1, i) * (l * x) == (cofactor(s1, i) * l) * x) by (nonlinear_arith);
            assert(((cofactor(s1, i) % mi) * (l * x)) % mi == 1);
        }
        lemma_crt_divides(s1, d);
        // product(s1) is invertible modulo the last modulus
        assert(s.remove(k) =~= s1);
        assert(has_inverse(cofactor(s, k) % l, l));
        let p1 = product(s1);
        let x = choose|x: int| #[trigger] (((cofactor(s, k) % l) * x) % l) == 1;
        lemma_mul_mod_noop_left(p1, x, l);
        assert((p1 * x) % l == 1);
        lemma_product_positive(s1);
        lemma_fundamental_div_mod(d, p1);
        let t = d / p1;
        assert(d == p1 * t);
        // t == t (p1 x) == d x == 0 (mod l)
        lemma_mul_mod_noop_right(t, p1 * x, l);
        lemma_mul_mod_noop_left(d, x, l);
        assert(t * (p1 * x) == d * x) by (nonlinear_arith)
            requires
                d == p1 * t,
        ;
        lemma_small_mod(1, l as nat);
        lemma_small_mod(0, l as nat);
        assert(t % l == 0);
        lemma_fundamental_div_mod(t, l);
        let u = t / l;
        assert(d == (p1 * l) * u) by (nonlinear_arith)
            requires
                d == p1 * t,
                t == l * u + 0,
        ;
        assert(p1 * l > 0) by (nonlinear_arith)
            requires
                p1 >= 1,
                l >= 2,
        ;
        lemma_mod_multiples_basic(u, p1 * l);
        lemma_mul_is_commutative(u, p1 * l);
    }
}

/// Over a valid base, residues determine the value below the product.
pub proof fn lemma_crt_unique(s: Seq<u64>, r: Seq<u64>, y1: int, y2: int)
    requires
        base_ok(s),
        is_crt_solution(s, r, y1),
        is_crt_solution(s, r, y2),
    ensures
        y1 == y2,
{
    let d = y1 - y2;
    assert forall|i: int| 0 <= i < s.len() implies d % (#[trigger] s[i] as int) == 0 by {
        lemma_sub_mod_noop(y1, y2, s[i] as int);
        lemma_small_mod(0, s[i] as nat);
    }
    lemma_crt_divides(s, d);
    let big_m = product(s);
    lemma_fundamental_div_mod(d, big_m);
    assert(d == 0) by (nonlinear_arith)
        requires
            d == big_m * (d / big_m) + 0,
            -big_m < d < big_m,
    ;
}

/// Converting to residues and back: for every `x >= 0` and every valid
/// base, rebuilding from the residues of `x` gives `x mod M`.
pub proof fn lemma_rns_round_trip(s: Seq<u64>, x: int)
    requires
        base_ok(s),
        x >= 0,
    ensures
        crt_reconstruct(s, residues_of(x, s)) == x % product(s),
{
    let big_m = product(s);
    let r = residues_of(x, s);
    lemma_product_positive(s);
    lemma_mod_bound(x, big_m);
    assert forall|i: int| 0 <= i < s.len() implies #[trigger] ((x % big_m) % (s[i] as int)) == (
    r[i] as int) % (s[i] as int) by {
        let mi = s[i] as int;
        lemma_product_remove(s, i);
        lemma_mul_is_commutative(mi, cofactor(s, i));
        lemma_product_positive(s.remove(i));
        lemma_mod_mod(x, mi, cofactor(s, i));
        lemma_mod_twice(x, mi);
    }
    assert(is_crt_solution(s, r, x % big_m));
    lemma_crt_unique(s, r, crt_reconstruct(s, r), x % big_m);
}

/// The `j`-th term of the reconstruction sum:
/// `((r_j mod m_j) * inv_j mod m_j) * (M / m_j)`.
pub open spec fn crt_term(s: Seq<u64>, inv: Seq<u128>, r: Seq<u64>, j: int) -> int {
    ((((r[j] as int) % (s[j] as int)) * inv[j]) % (s[j] as int)) * cofactor(s, j)
}

/// A residue number system base with its CRT constants.
pub struct FastRns {
    moduli: Vec<u64>,
    m_product: u128,
    m_prod_div: Vec<u128>,
    inv_prod_div: Vec<u128>,
}

impl View for FastRns {
    type V = Seq<u64>;

    closed spec fn view(&self) -> Seq<u64> {
        self.moduli@
    }
}

impl FastRns {
    /// The constants agree with the moduli.
    pub closed spec fn wf(&self) -> bool {
        let s = self.moduli@;
        &&& base_ok(s)
        &&& self.m_product == product(s)
        &&& self.m_prod_div@.len() == s.len()
        &&& self.inv_prod_div@.len() == s.len()
        &&& forall|i: int| 0 <= i < s.len() ==> #[trigger] self.m_prod_div@[i] == cofactor(s, i)
        &&& forall|i: int|
            0 <= i < s.len() ==> #[trigger] self.inv_prod_div@[i] < s[i] && (cofactor(s, i)
                * self.inv_prod_div@[i]) % (s[i] as int) == 1
    }

    /// Builds a base from its moduli, precomputing `M`, each `M / m_i` and
    /// its inverse modulo `m_i`.
    pub fn new(moduli: Vec<u64>) -> (r: Result<FastRns, FheError>)
        ensures
            match r {
                Ok(b) => b.wf() && b@ == moduli@,
                Err(e) => {
                    ||| (e == FheError::InvalidModulus && (exists|i: int|
                        0 <= i < moduli@.len() && #[trigger] moduli@[i] < 2))
                    ||| (e == FheError::InvalidModulus && (forall|i: int|
                        0 <= i < moduli@.len() ==> #[trigger] moduli@[i] >= 2) && product(moduli@)
                        > u128::MAX)
                    ||| (e == FheError::NotInvertible && (forall|i: int|
                        0 <= i < moduli@.len() ==> #[trigger] moduli@[i] >= 2) && product(moduli@)
                        <= u128::MAX && !base_ok(moduli@))
                },
            },
    {
        let k = moduli.len();
        let ghost s = moduli@;
        let mut i: usize = 0;
        while i < k
            invariant
                k == s.len(),
                s == moduli@,
                i <= k,
                forall|j: int| 0 <= j < i ==> #[trigger] s[j] >= 2,
            decreases k - i,
        {
            if moduli[i] < 2 {
                return Err(FheError::InvalidModulus);
            }
            i = i + 1;
        }
        let mut prod: u128 = 1;
        i = 0;
        assert(s.subrange(0, 0).len() == 0);
        while i < k
            invariant
                k == s.len(),
                s == moduli@,
                i <= k,
                forall|j: int| 0 <= j < k ==> #[trigger] s[j] >= 2,
                prod == product(s.subrange(0, i as int)),
            decreases k - i,
        {
            let m = moduli[i] as u128;
            let ghost t = s.subrange(0, i + 1);
            assert(t.drop_last() =~= s.subrange(0, i as int));
            if prod > u128::MAX / m {
                proof {
                    assert(prod * m > u128::MAX) by (nonlinear_arith)
                        requires
                            prod > u128::MAX / m,
                            m >= 2,
                    ;
                    lemma_product_prefix_le(s, i + 1);
                }
                return Err(FheError::InvalidModulus);
            }
            proof {
                assert(prod * m <= u128::MAX) by (nonlinear_arith)
                    requires
                        prod <= u128::MAX / m,
                        m >= 2,
                ;
            }
            prod = prod * m;
            i = i + 1;
        }
        assert(s.subrange(0, k as int) =~= s);
        let mut m_prod_div: Vec<u128> = Vec::new();
        let mut inv_prod_div: Vec<u128> = Vec::new();
        i = 0;
        while i < k
            invariant
                k == s.len(),
                s == moduli@,
                i <= k,
                forall|j: int| 0 <= j < k ==> #[trigger] s[j] >= 2,
                prod == product(s),
                m_prod_div@.len() == i,
                inv_prod_div@.len() == i,
                forall|j: int| 0 <= j < i ==> #[trigger] m_prod_div@[j] == cofactor(s, j),
                forall|j: int|
                    0 <= j < i ==> #[trigger] inv_prod_div@[j] < s[j] && (cofactor(s, j)
                        * inv_prod_div@[j]) % (s[j] as int) == 1,
                forall|j: int|
                    0 <= j < i ==> has_inverse(#[trigger] cofactor(s, j) % (s[j] as int), s[j] as int),
            decreases k - i,
        {
            let mi = moduli[i];
            let m = mi as u128;
            proof {
                lemma_product_remove(s, i as int);
                lemma_fundamental_div_mod_converse(prod as int, m as int, cofactor(s, i as int), 0);
                lemma_mul_is_commutative(m as int, cofactor(s, i as int));
            }
            let d = prod / m;
            let dm = (d % m) as u64;
            match mod_inv_extended(dm, mi) {
                Ok(inv) => {
                    proof {
                        lemma_mul_mod_noop_left(d as int, inv as int, m as int);
                        assert(has_inverse(cofactor(s, i as int) % (s[i as int] as int), s[i as int] as int));
                    }
                    m_prod_div.push(d);
                    inv_prod_div.push(inv as u128);
                },
                Err(_) => {
                    return Err(FheError::NotInvertible);
                },
            }
            i = i + 1;
        }
        let b = FastRns { moduli, m_product: prod, m_prod_div, inv_prod_div };
        Ok(b)
    }

    /// The moduli of the base.
    pub fn moduli(&self) -> (r: &Vec<u64>)
        ensures
            r@ == self@,
    {
        &self.moduli
    }

    /// The product `M` of the moduli.
    pub fn product(&self) -> (r: u128)
        requires
            self.wf(),
        ensures
            r == product(self@),
    {
        self.m_product
    }

    /// Rebuilds the integer below `M` with the given residues:
    /// `sum_i ((r_i * inv_i) mod m_i) * (M / m_i) mod M`, accumulated below
    /// `M` so that nothing overflows.
    pub fn from_rns_fast(&self, residues: &[u64]) -> (r: u128)
        requires
            self.wf(),
            residues@.len() == self@.len(),
        ensures
            r < product(self@),
            forall|i: int|
                0 <= i < self@.len() ==> #[trigger] (r as int % (self@[i] as int)) == (residues@[i] as int)
                    % (self@[i] as int),
            r == crt_reconstruct(self@, residues@),
    {
        let ghost s = self.moduli@;
        let ghost inv = self.inv_prod_div@;
        let ghost rs = residues@;
        let k = residues.len();
        let big_m = self.m_product;
        proof {
            lemma_product_positive(s);
        }
        let mut result: u128 = 0;
        let mut i: usize = 0;
        proof {
            lemma_small_mod(0, big_m as nat);
        }
        while i < k
            invariant
                self.wf(),
                s == self.moduli@,
                inv == self.inv_prod_div@,
                rs == residues@,
                residues@.len() == k,
                k == s.len(),
                big_m == product(s),
                big_m >= 1,
                i <= k,
                result < big_m,
                result == sum(i as nat, |j: int| crt_term(s, inv, rs, j)) % (big_m as int),
            decreases k - i,
        {
            let mi = self.moduli[i] as u128;
            let inv_i = self.inv_prod_div[i];
            let cof = self.m_prod_div[i];
            proof {
                assert(s[i as int] >= 2);
                assert((residues@[i as int] as u128 % mi) * inv_i < mi * mi) by (nonlinear_arith)
                    requires
                        residues@[i as int] as u128 % mi < mi,
                        inv_i < mi,
                ;
                assert(mi * mi <= u128::MAX) by (nonlinear_arith)
                    requires
                        mi <= u64::MAX,
                ;
            }
            let c = ((residues[i] as u128 % mi) * inv_i) % mi;
            proof {
                lemma_product_remove(s, i as int);
                assert forall|j: int| 0 <= j < s.remove(i as int).len() implies #[trigger] s.remove(
                    i as int,
                )[j] >= 1 by {
                    if j < i {
                        assert(s.remove(i as int)[j] == s[j]);
                    } else {
                        assert(s.remove(i as int)[j] == s[j + 1]);
                    }
                }
                lemma_product_positive(s.remove(i as int));
                assert(c * cof < big_m) by (nonlinear_arith)
                    requires
                        c < mi,
                        big_m == mi * cof,
                        cof >= 1,
                ;
            }
            let term = c * cof;
            let ghost prev = sum(i as nat, |j: int| crt_term(s, inv, rs, j));
            proof {
                assert(term == crt_term(s, inv, rs, i as int));
                lemma_add_mod_noop(prev, term as int, big_m as int);
                lemma_small_mod(term as nat, big_m as nat);
            }
            if result >= big_m - term {
                result = result - (big_m - term);
                proof {
                    lemma_fundamental_div_mod_converse(
                        (prev % (big_m as int)) + term,
                        big_m as int,
                        1,
                        result as int,
                    );
                }
            } else {
                result = result + term;
                proof {
                    lemma_small_mod(result as nat, big_m as nat);
                }
            }
            i = i + 1;
        }
        proof {
            self.lemma_crt_residues(rs, result as int);
            assert(is_crt_solution(s, rs, result as int));
            lemma_crt_unique(s, rs, crt_reconstruct(s, rs), result as int);
        }
        result
    }

    proof fn lemma_crt_residues(&self, rs: Seq<u64>, result: int)
        requires
            self.wf(),
            rs.len() == self@.len(),
            result == sum(self@.len(), |j: int| crt_term(self@, self.inv_prod_div@, rs, j)) % product(
                self@,
            ),
        ensures
            forall|l: int|
                0 <= l < self@.len() ==> #[trigger] (result % (self@[l] as int)) == (rs[l] as int) % (
                self@[l] as int),
    {
        let s = self@;
        let inv = self.inv_prod_div@;
        let k = s.len();
        let big_m = product(s);
        let f = |j: int| crt_term(s, inv, rs, j);
        assert forall|l: int| 0 <= l < k implies #[trigger] (result % (s[l] as int)) == (rs[l] as int) % (
        s[l] as int) by {
            let ml = s[l] as int;
            lemma_product_remove(s, l);
            lemma_product_positive(s.remove(l));
            lemma_mod_mod(sum(k, f), ml, cofactor(s, l));
            let g = |j: int| if j == l { f(l) } else { 0 };
            assert forall|j: int| 0 <= j < k implies #[trigger] f(j) % ml == g(j) % ml by {
                if j != l {
                    let t = s.remove(j);
                    let q = if l < j { l } else { l - 1 };
                    assert(t[q] == s[l]);
                    lemma_product_remove(t, q);
                    let c = ((((rs[j] as int) % (s[j] as int)) * inv[j]) % (s[j] as int));
                    assert(f(j) == (c * product(t.remove(q))) * ml) by (nonlinear_arith)
                        requires
                            f(j) == c * product(t),
                            product(t) == ml * product(t.remove(q)),
                    ;
                    lemma_mod_multiples_basic(c * product(t.remove(q)), ml);
                    lemma_small_mod(0, ml as nat);
                }
            }
            lemma_sum_mod(k, f, g, ml);
            lemma_sum_single(k, g, l);
            // the term at l: (r_l * inv_l mod m_l) * cof_l == r_l
            let rl = (rs[l] as int) % ml;
            let il = inv[l] as int;
            let cl = cofactor(s, l);
            lemma_mul_mod_noop_left(rl * il, cl, ml);
            assert((rl * il) * cl == rl * (cl * il)) by (nonlinear_arith);
            lemma_mul_mod_noop_right(rl, cl * il, ml);
            lemma_small_mod(rl as nat, ml as nat);
        }
    }

    /// The residues of `x`: `x mod m_i` for each modulus.
    pub fn to_rns_single(&self, x: u64) -> (r: Vec<u64>)
        requires
            self.wf(),
        ensures
            r@.len() == self@.len(),
            forall|i: int| 0 <= i < self@.len() ==> #[trigger] r@[i] == x % self@[i],
            r@ == residues_of(x as int, self@),
    {
        let k = self.moduli.len();
        let mut r: Vec<u64> = Vec::new();
        let mut i: usize = 0;
        while i < k
            invariant
                self.wf(),
                k == self@.len(),
                i <= k,
                r@.len() == i,
                forall|j: int| 0 <= j < i ==> #[trigger] r@[j] == x % self@[j],
            decreases k - i,
        {
            assert(self@[i as int] >= 2);
            r.push(x % self.moduli[i]);
            i = i + 1;
        }
        assert(r@ =~= residues_of(x as int, self@));
        r
    }

    /// The residues of each number in turn.
    pub fn to_rns_batch(&self, numbers: &[u64]) -> (r: Vec<Vec<u64>>)
        requires
            self.wf(),
        ensures
            r@.len() == numbers@.len(),
            forall|n: int, i: int|
                0 <= n < numbers@.len() && 0 <= i < self@.len() ==> (#[trigger] r@[n]@[i])
                    == numbers@[n] % self@[i] && r@[n]@.len() == self@.len(),
    {
        let mut r: Vec<Vec<u64>> = Vec::new();
        let mut n: usize = 0;
        while n < numbers.len()
            invariant
                self.wf(),
                n <= numbers@.len(),
                r@.len() == n,
                forall|q: int, i: int|
                    0 <= q < n && 0 <= i < self@.len() ==> (#[trigger] r@[q]@[i]) == numbers@[q]
                        % self@[i] && r@[q]@.len() == self@.len(),
            decreases numbers@.len() - n,
        {
            let v = self.to_rns_single(numbers[n]);
            r.push(v);
            n = n + 1;
        }
        r
    }

    /// Slotwise addition: slot `i` of the result is `(a_i + b_i) mod m_i`;
    /// no slot reads another slot's modulus.
    pub fn rns_add_fast(&self, a: &[u64], b: &[u64]) -> (r: Result<Vec<u64>, FheError>)
        requires
            self.wf(),
        ensures
            match r {
                Ok(v) => a@.len() == self@.len() && b@.len() == self@.len() && v@.len()
                    == self@.len() && forall|i: int|
                    0 <= i < self@.len() ==> #[trigger] v@[i] == (a@[i] + b@[i]) % (
                    self@[i] as int),
                Err(e) => e == FheError::SizeMismatch && !(a@.len() == self@.len() && b@.len()
                    == self@.len()),
            },
    {
        let k = self.moduli.len();
        if a.len() != k || b.len() != k {
            return Err(FheError::SizeMismatch);
        }
        let mut v: Vec<u64> = Vec::new();
        let mut i: usize = 0;
        while i < k
            invariant
                self.wf(),
                k == self@.len(),
                a@.len() == k,
                b@.len() == k,
                i <= k,
                v@.len() == i,
                forall|j: int| 0 <= j < i ==> #[trigger] v@[j] == (a@[j] + b@[j]) % (self@[j] as int),
            decreases k - i,
        {
            let m = self.moduli[i];
            assert(self@[i as int] >= 2);
            proof {
                lemma_add_mod_noop(a@[i as int] as int, b@[i as int] as int, m as int);
            }
            v.push(mod_add_fast(a[i] % m, b[i] % m, m));
            i = i + 1;
        }
        Ok(v)
    }

    /// Slotwise multiplication: slot `i` of the result is
    /// `(a_i * b_i) mod m_i`, through a double-width product.
    pub fn rns_mul_fast(&self, a: &[u64], b: &[u64]) -> (r: Result<Vec<u64>, FheError>)
        requires
            self.wf(),
        ensures
            match r {
                Ok(v) => a@.len() == self@.len() && b@.len() == self@.len() && v@.len()
                    == self@.len() && forall|i: int|
                    0 <= i < self@.len() ==> #[trigger] v@[i] == (a@[i] * b@[i]) % (
                    self@[i] as int),
                Err(e) => e == FheError::SizeMismatch && !(a@.len() == self@.len() && b@.len()
                    == self@.len()),
            },
    {
        let k = self.moduli.len();
        if a.len() != k || b.len() != k {
            return Err(FheError::SizeMismatch);
        }
        let mut v: Vec<u64> = Vec::new();
        let mut i: usize = 0;
        while i < k
            invariant
                self.wf(),
                k == self@.len(),
                a@.len() == k,
                b@.len() == k,
                i <= k,
                v@.len() == i,
                forall|j: int| 0 <= j < i ==> #[trigger] v@[j] == (a@[j] * b@[j]) % (self@[j] as int),
            decreases k - i,
        {
            assert(self@[i as int] >= 2);
            v.push(mod_mul_fast(a[i], b[i], self.moduli[i]));
            i = i + 1;
        }
        Ok(v)
    }
}

} // verus!
