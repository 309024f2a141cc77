//! A square matrix of edge weights, stored row-major in a flat vector.

use vstd::prelude::*;
use vstd::pervasive::VecAdditionalExecFns;

verus! {

/// A square `n` by `n` matrix of `u16` entries, stored row-major.
pub struct Matrix {
    pub n: usize,
    pub data: Vec<u16>,
}

impl Matrix {
    /// The backing vector holds exactly one entry per cell.
    pub open spec fn wf(self) -> bool {
        &&& self.data@.len() == self.n * self.n
        &&& self.n * self.n <= usize::MAX
    }

    /// The entry in row `x`, column `y`.
    pub open spec fn spec_at(self, x: int, y: int) -> u16 {
        self.data@[x * self.n + y]
    }

    /// A new matrix with every entry zero.
    pub fn zeroes(n: usize) -> (r: Matrix)
        requires
            n * n <= usize::MAX,

        ensures
            r.wf(),
            r.n == n,
            forall|x: int, y: int| 0 <= x < n && 0 <= y < n ==> r.spec_at(x, y) == 0,
    {
        let size: usize = n * n;
        let data: Vec<u16> = vec![0u16; size];
        let r = Matrix { n, data };
        proof {
            assert forall|x: int, y: int| 0 <= x < n && 0 <= y < n implies r.spec_at(x, y) == 0 by {
                lemma_index_in_range(n as int, x, y);
            }
        }
        r
    }

    /// The dimensions of the matrix (rows, columns).
    pub fn dim(&self) -> (r: (usize, usize))
        ensures
            r.0 == self.n,
            r.1 == self.n,
    {
        (self.n, self.n)
    }

    /// Read the entry in row `x`, column `y`.
    pub fn at(&self, x: usize, y: usize) -> (r: u16)
        requires
            self.wf(),
            x < self.n,
            y < self.n,
        ensures
            r == self.spec_at(x as int, y as int),
    {
        proof {
            lemma_index_in_range(self.n as int, x as int, y as int);
            assert((x as int) * (self.n as int) + (y as int) < self.data@.len());
        }
        self.data[x * self.n + y]
    }

    /// Write `v` into row `x`, column `y`, leaving all other entries unchanged.
    pub fn set(&mut self, x: usize, y: usize, v: u16)
        requires
            old(self).wf(),
            x < old(self).n,
            y < old(self).n,
        ensures
            final(self).wf(),
            final(self).n == old(self).n,
            final(self).spec_at(x as int, y as int) == v,
            forall|i: int, j: int|
                0 <= i < final(self).n && 0 <= j < final(self).n && !(i == x && j == y)
                    ==> final(self).spec_at(i, j) == old(self).spec_at(i, j),
    {
        proof {
            lemma_index_in_range(self.n as int, x as int, y as int);
            assert((x as int) * (self.n as int) + (y as int) < self.data@.len());
        }
        self.data.set(x * self.n + y, v);
        proof {
            assert forall|i: int, j: int|
                0 <= i < self.n && 0 <= j < self.n && !(i == x && j == y) implies self.spec_at(
                i,
                j,
            ) == old(self).spec_at(i, j) by {
                lemma_index_in_range(self.n as int, i, j);
                lemma_flat_index_injective(self.n as int, i, j, x as int, y as int);
            }
        }
    }
}

/// A cell's flat index lies inside the backing vector.
pub proof fn lemma_index_in_range(n: int, x: int, y: int)
    requires
        0 <= x < n,
        0 <= y < n,
    ensures
        0 <= x * n + y < n * n,
{
    assert(0 <= x * n + y < n * n) by (nonlinear_arith)
        requires
            0 <= x < n,
            0 <= y < n,
    ;
}

/// Distinct cells have distinct flat indices.
pub proof fn lemma_flat_index_injective(n: int, x1: int, y1: int, x2: int, y2: int)
    requires
        0 <= x1 < n,
        0 <= y1 < n,
        0 <= x2 < n,
        0 <= y2 < n,
        !(x1 == x2 && y1 == y2),
    ensures
        x1 * n + y1 != x2 * n + y2,
{
    assert(x1 * n + y1 != x2 * n + y2) by (nonlinear_arith)
        requires
            0 <= x1 < n,
            0 <= y1 < n,
            0 <= x2 < n,
            0 <= y2 < n,
            !(x1 == x2 && y1 == y2),
    ;
}

} // verus!
