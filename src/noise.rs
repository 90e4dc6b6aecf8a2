use vstd::prelude::*;

verus! {

/// Bound on a column's length, and exclusive bound on a surface height. It keeps every
/// vertex index of a chunk's mesh within `u32`.
pub const MAX_HEIGHT: u32 = 0x10000;

/// A square tile of surface-height samples that repeats across the world.
///
/// Sample `(x, z)` of the tile sits at `heights[z * size + x]`; it is the surface height
/// that the tile's noise value maps to.
pub struct NoiseField {
    pub size: usize,
    pub heights: Vec<u32>,
}

/// Wraps a world coordinate onto the tile: the non-negative remainder by `n`.
pub open spec fn wrap_spec(a: int, n: int) -> int {
    a % n
}

impl NoiseField {
    pub open spec fn wf(&self) -> bool {
        &&& self.size > 0
        &&& self.heights@.len() == self.size * self.size
        &&& forall|i: int| 0 <= i < self.heights@.len() ==> #[trigger] self.heights@[i] < MAX_HEIGHT
    }

    /// Surface height at world column `(wx, wz)`, read from the tile with wraparound.
    pub open spec fn height_at(&self, wx: int, wz: int) -> int {
        let n = self.size as int;
        self.heights@[wrap_spec(wz, n) * n + wrap_spec(wx, n)] as int
    }

    /// A tile of the given side length; `None` unless it holds `size * size` samples,
    /// each below `MAX_HEIGHT`.
    pub fn new(size: usize, heights: Vec<u32>) -> (r: Option<NoiseField>)
        ensures
            r is Some <==> (size > 0 && heights@.len() == size * size && forall|i: int|
                0 <= i < heights@.len() ==> #[trigger] heights@[i] < MAX_HEIGHT),
            r matches Some(f) ==> f.size == size && f.heights@ == heights@ && f.wf(),
    {
        if size == 0 {
            return None;
        }
        if size > heights.len() || heights.len() / size != size || heights.len() % size != 0 {
            proof {
                if heights@.len() == size * size {
                    vstd::arithmetic::div_mod::lemma_div_multiples_vanish(size as int, size as int);
                    vstd::arithmetic::div_mod::lemma_mod_multiples_basic(size as int, size as int);
                    vstd::arithmetic::mul::lemma_mul_increases(size as int, size as int);
                }
            }
            return None;
        }
        proof {
            vstd::arithmetic::div_mod::lemma_fundamental_div_mod(heights@.len() as int, size as int);
        }
        let mut i: usize = 0;
        while i < heights.len()
            invariant
                0 <= i <= heights@.len(),
                forall|j: int| 0 <= j < i ==> #[trigger] heights@[j] < MAX_HEIGHT,
            decreases heights@.len() - i,
        {
            if heights[i] >= MAX_HEIGHT {
                return None;
            }
            i += 1;
        }
        Some(NoiseField { size, heights })
    }

    /// Tile index of a world coordinate: its non-negative remainder by the tile size.
    fn wrap(&self, a: i64) -> (r: usize)
        requires
            self.wf(),
        ensures
            r as int == wrap_spec(a as int, self.size as int),
            r < self.size,
    {
        let n = self.size as u64;
        if a >= 0 {
            (a as u64 % n) as usize
        } else {
            let m: u64 = (-(a + 1)) as u64 % n;
            let r: u64 = n - 1 - m;
            assert(r as int == (a as int) % (n as int)) by {
                let b = -(a as int + 1);
                vstd::arithmetic::div_mod::lemma_fundamental_div_mod(b, n as int);
                let q = b / (n as int);
                assert(a as int == (-q - 1) * (n as int) + (n as int - 1 - m)) by (nonlinear_arith)
                    requires
                        b == q * (n as int) + m,
                        b == -(a as int + 1),
                ;
                vstd::arithmetic::div_mod::lemma_fundamental_div_mod_converse(
                    a as int,
                    n as int,
                    -q - 1,
                    n as int - 1 - m,
                );
            }
            r as usize
        }
    }

    /// Surface height at world column `(wx, wz)`.
    pub fn height_at_world(&self, wx: i64, wz: i64) -> (r: u32)
        requires
            self.wf(),
        ensures
            r as int == self.height_at(wx as int, wz as int),
            r < MAX_HEIGHT,
    {
        let ix = self.wrap(wx);
        let iz = self.wrap(wz);
        let len = self.heights.len();
        proof {
            let n = self.size as int;
            assert(iz * n + ix < n * n) by (nonlinear_arith)
                requires
                    0 <= ix < n,
                    0 <= iz < n,
            ;
            assert(0 <= iz * n) by (nonlinear_arith)
                requires
                    0 <= iz,
                    0 <= n,
            ;
            assert(n * n == self.heights@.len());
            assert(iz * n + ix < len);
        }
        let row: usize = iz * self.size;
        self.heights[row + ix]
    }
}

} // verus!
