//! A caller-owned pool of working buffers, keyed by length, to reuse
//! allocations across transforms without any process-wide state.

use vstd::prelude::*;

verus! {

/// The index of the first `v` in `s`, or `-1`.
pub open spec fn first_index(s: Seq<nat>, v: nat) -> int
    decreases s.len(),
{
    if s.len() == 0 {
        -1
    } else if s[0] == v {
        0
    } else {
        let k = first_index(s.subrange(1, s.len() as int), v);
        if k < 0 {
            -1
        } else {
            k + 1
        }
    }
}

/// `i` is the first index of `v` when no earlier element is `v`.
proof fn lemma_first_index(s: Seq<nat>, v: nat, i: int)
    requires
        0 <= i <= s.len(),
        forall|j: int| 0 <= j < i ==> s[j] != v,
        i < s.len() ==> s[i] == v,
    ensures
        first_index(s, v) == if i < s.len() { i } else { -1 },
    decreases s.len(),
{
    if s.len() > 0 && i > 0 {
        let t = s.subrange(1, s.len() as int);
        lemma_first_index(t, v, i - 1);
    }
}

/// Free buffers, handed out by length and given back by the caller.
pub struct ScratchPool {
    free: Vec<Vec<u64>>,
}

impl View for ScratchPool {
    type V = Seq<nat>;

    /// The lengths of the free buffers, in the order they were released.
    closed spec fn view(&self) -> Seq<nat> {
        self.free@.map_values(|b: Vec<u64>| b@.len())
    }
}

impl ScratchPool {
    /// An empty pool.
    pub fn new() -> (r: Self)
        ensures
            r@ == Seq::<nat>::empty(),
    {
        let r = ScratchPool { free: Vec::new() };
        assert(r@ =~= Seq::<nat>::empty());
        r
    }

    /// The number of free buffers.
    pub fn free_buffers(&self) -> (r: usize)
        ensures
            r == self@.len(),
    {
        self.free.len()
    }

    /// A zeroed buffer of `size` words: the first free buffer of that
    /// length if there is one, else a new one.
    pub fn acquire(&mut self, size: usize) -> (r: Vec<u64>)
        ensures
            r@ == Seq::new(size as nat, |i: int| 0u64),
            first_index(old(self)@, size as nat) >= 0 ==> final(self)@ == old(self)@.remove(
                first_index(old(self)@, size as nat),
            ),
            first_index(old(self)@, size as nat) < 0 ==> final(self)@ == old(self)@,
    {
        let ghost lens = self@;
        let n = self.free.len();
        let mut i: usize = 0;
        while i < n
            invariant
                n == self.free@.len(),
                lens == self@,
                i <= n,
                forall|j: int| 0 <= j < i ==> lens[j] != size as nat,
            ensures
                n == self.free@.len(),
                lens == self@,
                i <= n,
                forall|j: int| 0 <= j < i ==> lens[j] != size as nat,
                i < n ==> lens[i as int] == size as nat,
            decreases n - i,
        {
            if self.free[i].len() == size {
                assert(lens[i as int] == self.free@[i as int]@.len());
                break;
            }
            i = i + 1;
        }
        proof {
            if i < n {
                assert(lens[i as int] == self.free@[i as int]@.len());
            }
        }
        let mut buf: Vec<u64> = if i < n && self.free[i].len() == size {
            proof {
                lemma_first_index(lens, size as nat, i as int);
            }
            let b = self.free.remove(i);
            proof {
                assert(self@ =~= lens.remove(i as int));
            }
            b
        } else {
            proof {
                lemma_first_index(lens, size as nat, n as int);
            }
            Vec::new()
        };
        buf.clear();
        let mut k: usize = 0;
        while k < size
            invariant
                k <= size,
                buf@ == Seq::new(k as nat, |i: int| 0u64),
            decreases size - k,
        {
            buf.push(0);
            k = k + 1;
            assert(buf@ =~= Seq::new(k as nat, |i: int| 0u64));
        }
        buf
    }

    /// Gives a buffer back for reuse.
    pub fn release(&mut self, buf: Vec<u64>)
        ensures
            final(self)@ == old(self)@.push(buf@.len()),
    {
        let ghost lens = self@;
        let ghost l = buf@.len();
        self.free.push(buf);
        assert(self@ =~= lens.push(l));
    }
}

} // verus!
