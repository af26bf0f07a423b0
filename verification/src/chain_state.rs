//! Bit-packed n-by-n boolean matrix: one bit per entry, stored in 64-bit
//! words. The annealing state uses it for the adjacency lookup of the input
//! graph.

use vstd::prelude::*;

verus! {

/// An n-by-n boolean matrix packed into 64-bit words.
pub struct BitMatrix {
    size: usize,
    data: Vec<u64>,
}

impl BitMatrix {
    /// Side length of the matrix.
    pub closed spec fn dim(self) -> int {
        self.size as int
    }

    /// The word storage is sized for `size * size` bits.
    pub closed spec fn wf(self) -> bool {
        &&& self.size <= 0x8000
        &&& self.data.len() == self.size * self.size / 64 + 1
    }

    /// The bit stored for entry (u, v).
    pub closed spec fn entry(self, u: int, v: int) -> bool {
        let idx = u * self.dim() + v;
        (self.data[idx / 64] >> ((idx % 64) as u64)) & 1u64 == 1u64
    }

    proof fn lemma_index_in_range(self, u: int, v: int)
        requires
            self.wf(),
            0 <= u < self.dim(),
            0 <= v < self.dim(),
        ensures
            0 <= u * self.dim() + v < self.size * self.size,
            0 <= (u * self.dim() + v) / 64 < self.data.len(),
            self.size * self.size <= 0x4000_0000,
    {
        let s = self.dim();
        assert(0 <= u * s + v < s * s) by (nonlinear_arith)
            requires 0 <= u < s && 0 <= v < s;
        assert(s * s <= 0x4000_0000) by (nonlinear_arith)
            requires 0 <= s <= 0x8000;
        let idx = u * s + v;
        assert(idx / 64 < s * s / 64 + 1);
    }

    /// Distinct in-range coordinates land on distinct packed-bit indices.
    proof fn lemma_index_injective(self, u: int, v: int, x: int, y: int)
        requires
            self.wf(),
            0 <= u < self.dim(),
            0 <= v < self.dim(),
            0 <= x < self.dim(),
            0 <= y < self.dim(),
            u * self.dim() + v == x * self.dim() + y,
        ensures
            u == x,
            v == y,
    {
        let s = self.dim();
        assert(u == x && v == y) by (nonlinear_arith)
            requires
                0 <= u < s && 0 <= v < s && 0 <= x < s && 0 <= y < s,
                u * s + v == x * s + y;
    }

    /// Side length of the matrix.
    pub fn dimension(&self) -> (r: usize)
        ensures
            r == self.dim(),
    {
        self.size
    }

    /// Fresh matrix with every entry false.
    pub fn new(size: usize) -> (r: Self)
        requires
            size <= 0x8000,
        ensures
            r.wf(),
            r.dim() == size,
            forall|u: int, v: int|
                0 <= u < size && 0 <= v < size ==> !r.entry(u, v),
    {
        proof {
            assert(size * size <= 0x4000_0000) by (nonlinear_arith)
                requires size <= 0x8000;
        }
        let words = size * size / 64 + 1;
        let mut data: Vec<u64> = Vec::new();
        while data.len() < words
            invariant
                data.len() <= words,
                forall|k: int| 0 <= k < data.len() ==> data[k] == 0u64,
            decreases words - data.len(),
        {
            data.push(0u64);
        }
        let r = BitMatrix { size, data };
        proof {
            assert forall|u: int, v: int|
                0 <= u < size && 0 <= v < size implies !r.entry(u, v) by {
                r.lemma_index_in_range(u, v);
                let idx = u * r.dim() + v;
                let k = (idx % 64) as u64;
                assert((0u64 >> k) & 1u64 == 0u64) by (bit_vector);
            }
        }
        r
    }

    /// Read the bit at (u, v).
    pub fn get(&self, u: usize, v: usize) -> (r: bool)
        requires
            self.wf(),
            u < self.dim(),
            v < self.dim(),
        ensures
            r == self.entry(u as int, v as int),
    {
        proof {
            self.lemma_index_in_range(u as int, v as int);
        }
        let idx = u * self.size + v;
        let w = self.data[idx / 64];
        let r = w & (1u64 << ((idx % 64) as u64)) != 0;
        proof {
            let k = ((u as int * self.dim() + v) % 64) as u64;
            assert(k == (idx % 64) as u64);
            assert((w & (1u64 << k) != 0) == ((w >> k) & 1u64 == 1u64)) by (bit_vector)
                requires k < 64u64;
        }
        r
    }

    /// Write the bit at (u, v), leaving every other entry unchanged.
    pub fn set(&mut self, u: usize, v: usize, value: bool)
        requires
            old(self).wf(),
            u < old(self).dim(),
            v < old(self).dim(),
        ensures
            final(self).wf(),
            final(self).dim() == old(self).dim(),
            final(self).entry(u as int, v as int) == value,
            forall|x: int, y: int|
                0 <= x < old(self).dim() && 0 <= y < old(self).dim()
                    && !(x == u && y == v)
                    ==> final(self).entry(x, y) == old(self).entry(x, y),
    {
        proof {
            self.lemma_index_in_range(u as int, v as int);
        }
        let idx = u * self.size + v;
        let word_at = idx / 64;
        let shift = (idx % 64) as u64;
        let w = self.data[word_at];
        let w2 = if value {
            w | (1u64 << shift)
        } else {
            w & !(1u64 << shift)
        };
        self.data.set(word_at, w2);
        proof {
            let k = shift;
            if value {
                assert(((w | (1u64 << k)) >> k) & 1u64 == 1u64) by (bit_vector)
                    requires k < 64u64;
                assert(forall|j: u64| j < 64u64 && j != k ==>
                    ((w | (1u64 << k)) >> j) & 1u64 == (w >> j) & 1u64) by (bit_vector)
                    requires k < 64u64;
            } else {
                assert(((w & !(1u64 << k)) >> k) & 1u64 == 0u64) by (bit_vector)
                    requires k < 64u64;
                assert(forall|j: u64| j < 64u64 && j != k ==>
                    ((w & !(1u64 << k)) >> j) & 1u64 == (w >> j) & 1u64) by (bit_vector)
                    requires k < 64u64;
            }
            let s = self.dim();
            let idx0 = u as int * s + v;
            assert forall|x: int, y: int|
                0 <= x < s && 0 <= y < s && !(x == u as int && y == v as int)
                    implies final(self).entry(x, y) == old(self).entry(x, y) by {
                old(self).lemma_index_in_range(x, y);
                let idx2 = x * s + y;
                if idx2 / 64 == idx0 / 64 {
                    if idx2 % 64 == idx0 % 64 {
                        vstd::arithmetic::div_mod::lemma_fundamental_div_mod(idx2, 64);
                        vstd::arithmetic::div_mod::lemma_fundamental_div_mod(idx0, 64);
                        old(self).lemma_index_injective(u as int, v as int, x, y);
                        assert(false);
                    }
                }
            }
        }
    }
}

} // verus!
