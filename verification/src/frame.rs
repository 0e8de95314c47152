//! Frame plane data and rectangular regions.

use vstd::prelude::*;
use vstd::arithmetic::mul::*;

verus! {

/// Smallest coding block side the partition search descends to.
pub const MIN_BLOCK: usize = 8;

/// Largest coding block side (one whole tile at most this size per node).
pub const MAX_BLOCK: usize = 64;

/// A rectangular block of a frame plane: top-left position and size.
/// Immutable once decided.
#[derive(Clone, Copy, PartialEq, Eq, Structural, Debug)]
pub struct Region {
    pub x: usize,
    pub y: usize,
    pub w: usize,
    pub h: usize,
}

impl Region {
    /// Number of samples the region covers.
    pub open spec fn area(&self) -> int {
        self.w * self.h
    }
}

/// A coding block side is one of the supported power-of-two sizes.
pub open spec fn size_valid(w: usize) -> bool {
    w == 8 || w == 16 || w == 32 || w == 64
}

/// A square region of supported size lying inside the plane.
pub open spec fn region_in_plane(p: Plane, r: Region) -> bool {
    &&& size_valid(r.w)
    &&& r.h == r.w
    &&& r.x + r.w <= p.width
    &&& r.y + r.h <= p.height
}

/// One sample plane of a frame, row-major.
pub struct Plane {
    pub width: usize,
    pub height: usize,
    pub data: Vec<u16>,
}

impl Plane {
    /// Well-formedness: the sample buffer holds exactly one value per
    /// position.
    pub open spec fn wf(&self) -> bool {
        &&& self.data@.len() == self.width * self.height
        &&& 1 <= self.width <= 0xFFFF
        &&& 1 <= self.height <= 0xFFFF
    }

    /// The sample at a position, as the specification sees it.
    pub open spec fn spec_sample(&self, x: int, y: int) -> u16 {
        self.data@[y * self.width + x]
    }

    /// Builds a plane when the buffer length matches the dimensions.
    pub fn new(width: usize, height: usize, data: Vec<u16>) -> (r: Option<Plane>)
        ensures
            match r {
                Some(p) => p.wf() && p.width == width && p.height == height && p.data@ == data@,
                None => !(data@.len() == width * height && 1 <= width <= 0xFFFF && 1 <= height
                    <= 0xFFFF),
            },
    {
        if width == 0 || height == 0 || width > 0xFFFF || height > 0xFFFF {
            return None;
        }
        proof {
            lemma_mul_strict_upper_bound(width as int, 0x1_0000, height as int, 0x1_0000);
        }
        let n: u64 = (width as u64) * (height as u64);
        if (data.len() as u64) != n {
            return None;
        }
        Some(Plane { width, height, data })
    }

    /// Reads one sample.
    pub fn sample(&self, x: usize, y: usize) -> (r: u16)
        requires
            self.wf(),
            x < self.width,
            y < self.height,
        ensures
            r == self.spec_sample(x as int, y as int),
    {
        let n = self.data.len();
        proof {
            let yi = y as int;
            let wi = self.width as int;
            let hi = self.height as int;
            assert((yi + 1) * wi <= hi * wi) by {
                lemma_mul_inequality(yi + 1, hi, wi);
            }
            assert((yi + 1) * wi == yi * wi + wi) by {
                lemma_mul_is_distributive_add_other_way(wi, yi, 1);
                lemma_mul_basics(wi);
            }
            assert(hi * wi == wi * hi) by {
                lemma_mul_is_commutative(hi, wi);
            }
            assert(yi * wi + x < wi * hi);
            assert(n == self.data@.len());
        }
        self.data[y * self.width + x]
    }
}

} // verus!
