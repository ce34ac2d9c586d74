//! The carrier: a two-dimensional surface of channel bytes addressed by
//! grid coordinates.  The core reads and writes single channel values; how
//! the bytes reach an image file is the caller's business.

use vstd::prelude::*;

verus! {

broadcast use vstd::arithmetic::mul::lemma_mul_is_commutative;

/// Flat index of coordinate `(x, y)` on a surface of width `w`.
pub open spec fn pix_at(x: u32, y: u32, w: u32) -> int {
    y * w + x
}

pub proof fn lemma_pix_at_bound(x: u32, y: u32, w: u32, h: u32)
    requires
        x < w,
        y < h,
    ensures
        0 <= pix_at(x, y, w) < w * h,
{
    assert(y * w + x < w * h) by (nonlinear_arith)
        requires
            x < w,
            y < h,
    ;
}

pub proof fn lemma_pix_at_injective(x1: u32, y1: u32, x2: u32, y2: u32, w: u32)
    requires
        x1 < w,
        x2 < w,
        pix_at(x1, y1, w) == pix_at(x2, y2, w),
    ensures
        x1 == x2,
        y1 == y2,
{
    vstd::arithmetic::div_mod::lemma_fundamental_div_mod_converse(
        pix_at(x1, y1, w),
        w as int,
        y1 as int,
        x1 as int,
    );
    vstd::arithmetic::div_mod::lemma_fundamental_div_mod_converse(
        pix_at(x2, y2, w),
        w as int,
        y2 as int,
        x2 as int,
    );
}

/// One channel plane of a pixel surface, row-major.
pub struct Carrier {
    width: u32,
    height: u32,
    data: Vec<u8>,
}

impl View for Carrier {
    type V = Seq<u8>;

    closed spec fn view(&self) -> Seq<u8> {
        self.data@
    }
}

impl Carrier {
    pub closed spec fn spec_width(self) -> u32 {
        self.width
    }

    pub closed spec fn spec_height(self) -> u32 {
        self.height
    }

    /// The surface holds one byte for each grid cell.
    pub open spec fn wf(self) -> bool {
        &&& self@.len() == self.spec_width() * self.spec_height()
        &&& self.spec_width() * self.spec_height() <= usize::MAX
    }

    /// A blank surface: every channel byte is zero.
    pub fn new(width: u32, height: u32) -> (r: Carrier)
        requires
            width * height <= usize::MAX,
        ensures
            r.wf(),
            r.spec_width() == width,
            r.spec_height() == height,
            r@.len() == width * height,
            forall|i: int| 0 <= i < r@.len() ==> r@[i] == 0,
    {
        let n = (width as usize) * (height as usize);
        let mut data: Vec<u8> = Vec::new();
        while data.len() < n
            invariant
                data@.len() <= n,
                forall|i: int| 0 <= i < data@.len() ==> data@[i] == 0,
            decreases n - data@.len(),
        {
            data.push(0);
        }
        Carrier { width, height, data }
    }

    /// A surface over existing channel bytes, one per grid cell.
    pub fn from_bytes(width: u32, height: u32, data: Vec<u8>) -> (r: Carrier)
        requires
            data@.len() == width * height,
            width * height <= usize::MAX,
        ensures
            r.wf(),
            r.spec_width() == width,
            r.spec_height() == height,
            r@ == data@,
    {
        Carrier { width, height, data }
    }

    pub fn dimensions(&self) -> (r: (u32, u32))
        ensures
            r.0 == self.spec_width(),
            r.1 == self.spec_height(),
    {
        (self.width, self.height)
    }

    /// The raw channel bytes, row-major.
    pub fn bytes(&self) -> (r: &Vec<u8>)
        ensures
            r@ == self@,
    {
        &self.data
    }

    pub fn get_channel(&self, x: u32, y: u32) -> (r: u8)
        requires
            self.wf(),
            x < self.spec_width(),
            y < self.spec_height(),
        ensures
            r == self@[pix_at(x, y, self.spec_width())],
    {
        proof {
            lemma_pix_at_bound(x, y, self.width, self.height);
        }
        self.data[(y as usize) * (self.width as usize) + (x as usize)]
    }

    pub fn set_channel(&mut self, x: u32, y: u32, v: u8)
        requires
            old(self).wf(),
            x < old(self).spec_width(),
            y < old(self).spec_height(),
        ensures
            final(self).wf(),
            final(self).spec_width() == old(self).spec_width(),
            final(self).spec_height() == old(self).spec_height(),
            final(self)@ == old(self)@.update(pix_at(x, y, old(self).spec_width()), v),
    {
        proof {
            lemma_pix_at_bound(x, y, self.width, self.height);
        }
        let i = (y as usize) * (self.width as usize) + (x as usize);
        self.data.set(i, v);
    }
}

} // verus!
