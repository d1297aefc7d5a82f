//! Bit reversal of indices: its specification, the table that a transform
//! context keeps, and the in-place permutation.

use vstd::prelude::*;
use vstd::arithmetic::power2::*;

verus! {

/// The low `k` bits of `x` in reverse order.
pub open spec fn rev(k: nat, x: int) -> int
    decreases k,
{
    if k == 0 {
        0
    } else {
        (x % 2) * pow2((k - 1) as nat) + rev((k - 1) as nat, x / 2)
    }
}

/// Reversing `k` bits gives a value below `2^k`.
pub proof fn lemma_rev_bound(k: nat, x: int)
    requires
        x >= 0,
    ensures
        0 <= rev(k, x) < pow2(k),
    decreases k,
{
    if k > 0 {
        lemma_rev_bound((k - 1) as nat, x / 2);
        lemma_pow2_unfold(k);
        let p = pow2((k - 1) as nat);
        assert(rev(k, x) == (x % 2) * p + rev((k - 1) as nat, x / 2));
        if x % 2 == 0 {
            assert((x % 2) * p == 0);
        } else {
            assert((x % 2) * p == p);
        }
    } else {
        lemma2_to64();
    }
}

/// Reversing `k` bits moves the top bit to the bottom.
pub(crate) proof fn lemma_rev_top(k: nat, r: int, z: int)
    requires
        k >= 1,
        r == 0 || r == 1,
        0 <= z < pow2((k - 1) as nat),
    ensures
        rev(k, r * pow2((k - 1) as nat) + z) == r + 2 * rev((k - 1) as nat, z),
    decreases k,
{
    let x = r * pow2((k - 1) as nat) + z;
    if k == 1 {
        lemma2_to64();
        assert(z == 0);
        assert(x == r);
        assert(rev(0, x / 2) == 0);
        assert(rev(0, z) == 0);
        assert(rev(1, x) == (x % 2) * pow2(0) + rev(0, x / 2));
    } else {
        let p = pow2((k - 2) as nat);
        lemma_pow2_unfold((k - 1) as nat);
        assert(pow2((k - 1) as nat) == 2 * p);
        if r == 0 {
            assert(x == z);
        } else {
            assert(x == 2 * p + z);
        }
        assert(x % 2 == z % 2);
        assert(x / 2 == r * p + z / 2);
        assert(pow2((k - 2) as nat) == pow2(((k - 1) - 1) as nat));
        lemma_rev_top((k - 1) as nat, r, z / 2);
        assert(rev(k, x) == (x % 2) * (2 * p) + rev((k - 1) as nat, x / 2));
        assert(rev((k - 1) as nat, z) == (z % 2) * p + rev((k - 2) as nat, z / 2));
        assert((x % 2) * (2 * p) == 2 * ((z % 2) * p)) by (nonlinear_arith)
            requires
                x % 2 == z % 2,
        ;
    }
}

/// Reversing the bits twice gives the index back.
pub proof fn lemma_rev_involution(k: nat, x: int)
    requires
        0 <= x < pow2(k),
    ensures
        rev(k, rev(k, x)) == x,
    decreases k,
{
    if k == 0 {
        lemma2_to64();
    } else {
        lemma_pow2_unfold(k);
        lemma_rev_bound((k - 1) as nat, x / 2);
        lemma_rev_involution((k - 1) as nat, x / 2);
        lemma_rev_top(k, x % 2, rev((k - 1) as nat, x / 2));
    }
}

/// Reverses the low `k` bits of `x`.
pub(crate) fn reverse_bits(x: usize, k: usize) -> (r: usize)
    requires
        0 <= x < pow2(k as nat),
        pow2(k as nat) <= usize::MAX,
    ensures
        r == rev(k as nat, x as int),
{
    let mut acc: usize = 0;
    let mut y: usize = x;
    let mut i: usize = 0;
    proof {
        lemma_pow2_pos(k as nat);
        lemma2_to64();
    }
    while i < k
        invariant
            i <= k,
            pow2(k as nat) <= usize::MAX,
            acc < pow2(i as nat),
            acc * pow2((k - i) as nat) + rev((k - i) as nat, y as int) == rev(k as nat, x as int),
        decreases k - i,
    {
        let ghost e = (k - i - 1) as nat;
        proof {
            lemma_pow2_unfold((k - i) as nat);
            lemma_pow2_unfold((i + 1) as nat);
            assert(acc * pow2((k - i) as nat) + (y % 2) * pow2(e) == (2 * acc + y % 2) * pow2(e))
                by (nonlinear_arith)
                requires
                    pow2((k - i) as nat) == 2 * pow2(e),
            ;
            assert(rev((k - i) as nat, y as int) == (y % 2) * pow2(e) + rev(e, (y / 2) as int));
        }
        assert(2 * acc + 1 < pow2((i + 1) as nat));
        assert(pow2((i + 1) as nat) <= pow2(k as nat)) by {
            if i + 1 < k {
                lemma_pow2_strictly_increases((i + 1) as nat, k as nat);
            }
        }
        acc = 2 * acc + y % 2;
        y = y / 2;
        i = i + 1;
    }
    proof {
        lemma2_to64();
        assert(rev(0, y as int) == 0);
        assert(acc * pow2(0) == acc);
    }
    acc
}

/// The table `i -> rev(log_n, i)` for `i < n`.
pub(crate) fn build_bitrev(n: usize, log_n: usize) -> (v: Vec<usize>)
    requires
        n == pow2(log_n as nat),
    ensures
        v@.len() == n,
        forall|i: int| 0 <= i < n ==> #[trigger] v@[i] == rev(log_n as nat, i),
{
    let mut v: Vec<usize> = Vec::new();
    let mut i: usize = 0;
    while i < n
        invariant
            n == pow2(log_n as nat),
            i <= n,
            v@.len() == i,
            forall|j: int| 0 <= j < i ==> #[trigger] v@[j] == rev(log_n as nat, j),
        decreases n - i,
    {
        let r = reverse_bits(i, log_n);
        v.push(r);
        i = i + 1;
    }
    v
}

/// The reversed indices of blocks `2b` and `2b + 1` in terms of block `b`.
pub(crate) proof fn lemma_rev_children(k: nat, b: int)
    requires
        k >= 1,
        b >= 0,
    ensures
        rev(k, 2 * b) == rev((k - 1) as nat, b),
        rev(k, 2 * b + 1) == pow2((k - 1) as nat) + rev((k - 1) as nat, b),
{
    assert((2 * b) % 2 == 0 && (2 * b) / 2 == b);
    assert((2 * b + 1) % 2 == 1 && (2 * b + 1) / 2 == b);
    assert(rev(k, 2 * b) == ((2 * b) % 2) * pow2((k - 1) as nat) + rev((k - 1) as nat, (2 * b) / 2));
    assert(rev(k, 2 * b + 1) == ((2 * b + 1) % 2) * pow2((k - 1) as nat) + rev(
        (k - 1) as nat,
        (2 * b + 1) / 2,
    ));
}

/// `a` permuted by bit reversal of the indices.
pub open spec fn bitrev_perm(a: Seq<u64>, log_n: nat) -> Seq<u64> {
    Seq::new(a.len(), |i: int| a[rev(log_n, i)])
}

/// Permutes `data` by the precomputed bit-reversal table: index `i` swaps
/// with `rev(i)` once, when `i < rev(i)`.
pub(crate) fn bit_reverse_permute(data: &mut Vec<u64>, bitrev: &Vec<usize>, Ghost(log_n): Ghost<nat>)
    requires
        old(data)@.len() == pow2(log_n),
        bitrev@.len() == old(data)@.len(),
        forall|i: int| 0 <= i < bitrev@.len() ==> #[trigger] bitrev@[i] == rev(log_n, i),
    ensures
        final(data)@ == bitrev_perm(old(data)@, log_n),
{
    let n = data.len();
    let ghost a = data@;
    let mut i: usize = 0;
    assert forall|p: int| 0 <= p < n implies 0 <= #[trigger] rev(log_n, p) < n by {
        lemma_rev_bound(log_n, p);
    }
    while i < n
        invariant
            n == data@.len(),
            n == a.len(),
            n == pow2(log_n),
            forall|p: int| 0 <= p < n ==> 0 <= #[trigger] rev(log_n, p) < n,
            bitrev@.len() == n,
            forall|q: int| 0 <= q < bitrev@.len() ==> #[trigger] bitrev@[q] == rev(log_n, q),
            i <= n,
            forall|p: int|
                0 <= p < n ==> #[trigger] data@[p] == if p < i || rev(log_n, p) < i {
                    a[rev(log_n, p)]
                } else {
                    a[p]
                },
        decreases n - i,
    {
        let j = bitrev[i];
        proof {
            lemma_rev_bound(log_n, i as int);
            lemma_rev_involution(log_n, i as int);
            assert forall|p: int| 0 <= p < n && rev(log_n, p) == i implies p == j by {
                lemma_rev_involution(log_n, p);
            }
        }
        if i < j {
            let x = data[i];
            let y = data[j];
            data.set(i, y);
            data.set(j, x);
        }
        i = i + 1;
    }
    assert(data@ =~= bitrev_perm(a, log_n)) by {
        assert forall|p: int| 0 <= p < n implies data@[p] == a[rev(log_n, p)] by {
            lemma_rev_bound(log_n, p);
        }
    }
}

} // verus!
