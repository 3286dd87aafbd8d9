//! Fixed-rank dense grids.
//!
//! The chunked map artifacts are dense numeric arrays: a 2-D byte grid for
//! movement bitmasks and 3-D grids for the packed walk, dash and teleport
//! data. These types store such an array row-major in one `Vec`, with the
//! last axis fastest.

use vstd::prelude::*;

verus! {

proof fn lemma_idx2(x: int, y: int, w: int, h: int)
    by (nonlinear_arith)
    requires
        0 <= x < w,
        0 <= y < h,
    ensures
        0 <= x * h,
        x * h + y < w * h,
{
}

proof fn lemma_idx2_inj(x1: int, y1: int, x2: int, y2: int, h: int)
    by (nonlinear_arith)
    requires
        0 <= y1 < h,
        0 <= y2 < h,
        0 <= x1,
        0 <= x2,
        x1 * h + y1 == x2 * h + y2,
    ensures
        x1 == x2,
        y1 == y2,
{
}

proof fn lemma_idx3(x: int, y: int, k: int, w: int, h: int, d: int)
    by (nonlinear_arith)
    requires
        0 <= x < w,
        0 <= y < h,
        0 <= k < d,
    ensures
        0 <= (x * h + y) * d,
        (x * h + y) * d + k < w * h * d,
        x * h + y < w * h,
        w * h <= w * h * d,
{
}

proof fn lemma_mul3_le(w: int, h: int, d: int)
    by (nonlinear_arith)
    requires
        0 <= w,
        0 <= h,
        1 <= d,
    ensures
        w * h <= w * h * d,
{
}

proof fn lemma_idx3_inj(x1: int, y1: int, k1: int, x2: int, y2: int, k2: int, h: int, d: int)
    by (nonlinear_arith)
    requires
        0 <= y1 < h,
        0 <= y2 < h,
        0 <= k1 < d,
        0 <= k2 < d,
        0 <= x1,
        0 <= x2,
        (x1 * h + y1) * d + k1 == (x2 * h + y2) * d + k2,
    ensures
        x1 == x2,
        y1 == y2,
        k1 == k2,
{
}

/// Dense 2-D grid of bytes, indexed `(x, y)`.
pub struct ByteGrid {
    pub width: usize,
    pub height: usize,
    pub data: Vec<u8>,
}

impl ByteGrid {
    pub open spec fn wf(self) -> bool {
        &&& self.width <= 65536
        &&& self.height <= 65536
        &&& self.data.len() == self.width * self.height
    }

    pub open spec fn at(self, x: int, y: int) -> u8 {
        self.data@[x * self.height + y]
    }

    /// A grid of the given dimensions with every cell zero.
    pub fn new(width: usize, height: usize) -> (g: Self)
        requires
            width <= 65536,
            height <= 65536,
            width * height <= 0x1000_0000,
        ensures
            g.wf(),
            g.width == width,
            g.height == height,
            forall|x: int, y: int|
                0 <= x < width && 0 <= y < height ==> #[trigger] g.at(x, y) == 0,
    {
        proof {
            if width > 0 && height > 0 {
                lemma_idx2(width - 1, height - 1, width as int, height as int);
            }
        }
        let n = width * height;
        let mut data: Vec<u8> = Vec::new();
        let mut i: usize = 0;
        while i < n
            invariant
                i <= n,
                data.len() == i,
                forall|j: int| 0 <= j < i ==> data@[j] == 0,
            decreases n - i,
        {
            data.push(0);
            i = i + 1;
        }
        let g = ByteGrid { width, height, data };
        proof {
            assert forall|x: int, y: int|
                0 <= x < width && 0 <= y < height implies #[trigger] g.at(x, y) == 0 by {
                lemma_idx2(x, y, width as int, height as int);
            }
        }
        g
    }

    pub fn get(&self, x: usize, y: usize) -> (r: u8)
        requires
            self.wf(),
            x < self.width,
            y < self.height,
        ensures
            r == self.at(x as int, y as int),
    {
        proof {
            lemma_idx2(x as int, y as int, self.width as int, self.height as int);
        }
        self.data[x * self.height + y]
    }

    pub fn set(&mut self, x: usize, y: usize, v: u8)
        requires
            old(self).wf(),
            x < old(self).width,
            y < old(self).height,
        ensures
            final(self).wf(),
            final(self).width == old(self).width,
            final(self).height == old(self).height,
            final(self).at(x as int, y as int) == v,
            forall|x2: int, y2: int|
                0 <= x2 < old(self).width && 0 <= y2 < old(self).height && !(x2 == x && y2 == y)
                    ==> #[trigger] final(self).at(x2, y2) == old(self).at(x2, y2),
    {
        proof {
            lemma_idx2(x as int, y as int, self.width as int, self.height as int);
        }
        let idx = x * self.height + y;
        self.data[idx] = v;
        proof {
            assert forall|x2: int, y2: int|
                0 <= x2 < self.width && 0 <= y2 < self.height && !(x2 == x && y2 == y) implies #[trigger] self
                .at(x2, y2) == old(self).at(x2, y2) by {
                lemma_idx2(x2, y2, self.width as int, self.height as int);
                if x2 * self.height + y2 == x * self.height + y {
                    lemma_idx2_inj(x2, y2, x as int, y as int, self.height as int);
                }
            }
        }
    }
}

/// Dense 3-D grid of 64-bit words, indexed `(x, y, k)`.
pub struct WordGrid3 {
    pub width: usize,
    pub height: usize,
    pub depth: usize,
    pub data: Vec<u64>,
}

impl WordGrid3 {
    pub open spec fn wf(self) -> bool {
        &&& self.width <= 65536
        &&& self.height <= 65536
        &&& self.depth <= 16
        &&& self.data.len() == self.width * self.height * self.depth
    }

    pub open spec fn at(self, x: int, y: int, k: int) -> u64 {
        self.data@[(x * self.height + y) * self.depth + k]
    }

    /// A grid of the given dimensions with every cell zero.
    pub fn new(width: usize, height: usize, depth: usize) -> (g: Self)
        requires
            width <= 65536,
            height <= 65536,
            1 <= depth <= 16,
            width * height * depth <= 0x1000_0000,
        ensures
            g.wf(),
            g.width == width,
            g.height == height,
            g.depth == depth,
            forall|x: int, y: int, k: int|
                0 <= x < width && 0 <= y < height && 0 <= k < depth ==> #[trigger] g.at(x, y, k)
                    == 0,
    {
        proof {
            lemma_mul3_le(width as int, height as int, depth as int);
            if width > 0 && height > 0 && depth > 0 {
                lemma_idx3(
                    width - 1,
                    height - 1,
                    depth - 1,
                    width as int,
                    height as int,
                    depth as int,
                );
            }
        }
        let n = width * height * depth;
        let mut data: Vec<u64> = Vec::new();
        let mut i: usize = 0;
        while i < n
            invariant
                i <= n,
                data.len() == i,
                forall|j: int| 0 <= j < i ==> data@[j] == 0,
            decreases n - i,
        {
            data.push(0);
            i = i + 1;
        }
        let g = WordGrid3 { width, height, depth, data };
        proof {
            assert forall|x: int, y: int, k: int|
                0 <= x < width && 0 <= y < height && 0 <= k < depth implies #[trigger] g.at(x, y, k)
                == 0 by {
                lemma_idx3(x, y, k, width as int, height as int, depth as int);
            }
        }
        g
    }

    pub fn get(&self, x: usize, y: usize, k: usize) -> (r: u64)
        requires
            self.wf(),
            x < self.width,
            y < self.height,
            k < self.depth,
        ensures
            r == self.at(x as int, y as int, k as int),
    {
        proof {
            lemma_idx3(
                x as int,
                y as int,
                k as int,
                self.width as int,
                self.height as int,
                self.depth as int,
            );
        }
        self.data[(x * self.height + y) * self.depth + k]
    }

    pub fn set(&mut self, x: usize, y: usize, k: usize, v: u64)
        requires
            old(self).wf(),
            x < old(self).width,
            y < old(self).height,
            k < old(self).depth,
        ensures
            final(self).wf(),
            final(self).width == old(self).width,
            final(self).height == old(self).height,
            final(self).depth == old(self).depth,
            final(self).at(x as int, y as int, k as int) == v,
            forall|x2: int, y2: int, k2: int|
                0 <= x2 < old(self).width && 0 <= y2 < old(self).height && 0 <= k2 < old(
                    self,
                ).depth && !(x2 == x && y2 == y && k2 == k) ==> #[trigger] final(self).at(
                    x2,
                    y2,
                    k2,
                ) == old(self).at(x2, y2, k2),
    {
        proof {
            lemma_idx3(
                x as int,
                y as int,
                k as int,
                self.width as int,
                self.height as int,
                self.depth as int,
            );
        }
        let idx = (x * self.height + y) * self.depth + k;
        self.data[idx] = v;
        proof {
            assert forall|x2: int, y2: int, k2: int|
                0 <= x2 < self.width && 0 <= y2 < self.height && 0 <= k2 < self.depth && !(x2 == x
                    && y2 == y && k2 == k) implies #[trigger] self.at(x2, y2, k2) == old(self).at(
                x2,
                y2,
                k2,
            ) by {
                lemma_idx3(x2, y2, k2, self.width as int, self.height as int, self.depth as int);
                if (x2 * self.height + y2) * self.depth + k2 == (x as int * self.height + y) * self.depth + k {
                    lemma_idx3_inj(
                        x2,
                        y2,
                        k2,
                        x as int,
                        y as int,
                        k as int,
                        self.height as int,
                        self.depth as int,
                    );
                }
            }
        }
    }
}

/// Dense 3-D grid of bytes, indexed `(x, y, k)`.
pub struct ByteGrid3 {
    pub width: usize,
    pub height: usize,
    pub depth: usize,
    pub data: Vec<u8>,
}

impl ByteGrid3 {
    pub open spec fn wf(self) -> bool {
        &&& self.width <= 65536
        &&& self.height <= 65536
        &&& self.depth <= 16
        &&& self.data.len() == self.width * self.height * self.depth
    }

    pub open spec fn at(self, x: int, y: int, k: int) -> u8 {
        self.data@[(x * self.height + y) * self.depth + k]
    }

    /// A grid of the given dimensions with every cell zero.
    pub fn new(width: usize, height: usize, depth: usize) -> (g: Self)
        requires
            width <= 65536,
            height <= 65536,
            1 <= depth <= 16,
            width * height * depth <= 0x1000_0000,
        ensures
            g.wf(),
            g.width == width,
            g.height == height,
            g.depth == depth,
            forall|x: int, y: int, k: int|
                0 <= x < width && 0 <= y < height && 0 <= k < depth ==> #[trigger] g.at(x, y, k)
                    == 0,
    {
        proof {
            lemma_mul3_le(width as int, height as int, depth as int);
            if width > 0 && height > 0 && depth > 0 {
                lemma_idx3(
                    width - 1,
                    height - 1,
                    depth - 1,
                    width as int,
                    height as int,
                    depth as int,
                );
            }
        }
        let n = width * height * depth;
        let mut data: Vec<u8> = Vec::new();
        let mut i: usize = 0;
        while i < n
            invariant
                i <= n,
                data.len() == i,
                forall|j: int| 0 <= j < i ==> data@[j] == 0,
            decreases n - i,
        {
            data.push(0);
            i = i + 1;
        }
        let g = ByteGrid3 { width, height, depth, data };
        proof {
            assert forall|x: int, y: int, k: int|
                0 <= x < width && 0 <= y < height && 0 <= k < depth implies #[trigger] g.at(x, y, k)
                == 0 by {
                lemma_idx3(x, y, k, width as int, height as int, depth as int);
            }
        }
        g
    }

    pub fn get(&self, x: usize, y: usize, k: usize) -> (r: u8)
        requires
            self.wf(),
            x < self.width,
            y < self.height,
            k < self.depth,
        ensures
            r == self.at(x as int, y as int, k as int),
    {
        proof {
            lemma_idx3(
                x as int,
                y as int,
                k as int,
                self.width as int,
                self.height as int,
                self.depth as int,
            );
        }
        self.data[(x * self.height + y) * self.depth + k]
    }

    pub fn set(&mut self, x: usize, y: usize, k: usize, v: u8)
        requires
            old(self).wf(),
            x < old(self).width,
            y < old(self).height,
            k < old(self).depth,
        ensures
            final(self).wf(),
            final(self).width == old(self).width,
            final(self).height == old(self).height,
            final(self).depth == old(self).depth,
            final(self).at(x as int, y as int, k as int) == v,
            forall|x2: int, y2: int, k2: int|
                0 <= x2 < old(self).width && 0 <= y2 < old(self).height && 0 <= k2 < old(
                    self,
                ).depth && !(x2 == x && y2 == y && k2 == k) ==> #[trigger] final(self).at(
                    x2,
                    y2,
                    k2,
                ) == old(self).at(x2, y2, k2),
    {
        proof {
            lemma_idx3(
                x as int,
                y as int,
                k as int,
                self.width as int,
                self.height as int,
                self.depth as int,
            );
        }
        let idx = (x * self.height + y) * self.depth + k;
        self.data[idx] = v;
        proof {
            assert forall|x2: int, y2: int, k2: int|
                0 <= x2 < self.width && 0 <= y2 < self.height && 0 <= k2 < self.depth && !(x2 == x
                    && y2 == y && k2 == k) implies #[trigger] self.at(x2, y2, k2) == old(self).at(
                x2,
                y2,
                k2,
            ) by {
                lemma_idx3(x2, y2, k2, self.width as int, self.height as int, self.depth as int);
                if (x2 * self.height + y2) * self.depth + k2 == (x as int * self.height + y) * self.depth + k {
                    lemma_idx3_inj(
                        x2,
                        y2,
                        k2,
                        x as int,
                        y as int,
                        k as int,
                        self.height as int,
                        self.depth as int,
                    );
                }
            }
        }
    }
}

} // verus!
