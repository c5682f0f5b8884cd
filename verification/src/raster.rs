use vstd::prelude::*;

verus! {

/// An RGB raster: `width * height` pixels, three bytes per pixel, stored
/// row-major with the origin at the top left and channel order R, G, B.
pub struct Raster {
    width: u32,
    height: u32,
    data: Vec<u8>,
}

/// Every pixel index pair within the grid maps into the byte buffer.
pub proof fn lemma_pixel_in_bounds(x: int, y: int, w: int, h: int)
    requires
        0 <= x < w,
        0 <= y < h,
    ensures
        0 <= y * w + x,
        3 * (y * w + x) + 2 < 3 * w * h,
{
    assert(0 <= y * w + x && 3 * (y * w + x) + 2 < 3 * w * h) by (nonlinear_arith)
        requires
            0 <= x < w,
            0 <= y < h,
    ;
}

/// Distinct pixel coordinates occupy distinct slots of the byte buffer.
pub proof fn lemma_pixel_index_injective(x1: int, y1: int, x2: int, y2: int, w: int)
    requires
        0 <= x1 < w,
        0 <= x2 < w,
        0 <= y1,
        0 <= y2,
        !(x1 == x2 && y1 == y2),
    ensures
        y1 * w + x1 != y2 * w + x2,
{
    if y1 != y2 {
        assert(y1 * w + x1 != y2 * w + x2) by (nonlinear_arith)
            requires
                0 <= x1 < w,
                0 <= x2 < w,
                0 <= y1,
                0 <= y2,
                y1 != y2,
        ;
    }
}

impl Raster {
    /// The raw pixel bytes, in the order the container format emits them.
    pub closed spec fn bytes(&self) -> Seq<u8> {
        self.data@
    }

    pub closed spec fn width_spec(&self) -> u32 {
        self.width
    }

    pub closed spec fn height_spec(&self) -> u32 {
        self.height
    }

    /// Exactly three bytes are stored for every pixel of the grid.
    pub open spec fn wf(&self) -> bool {
        self.bytes().len() == 3 * (self.width_spec() as int) * (self.height_spec() as int)
    }

    /// Channel `c` (0 red, 1 green, 2 blue) of the pixel at `(x, y)`.
    pub open spec fn chan(&self, x: int, y: int, c: int) -> u8 {
        self.bytes()[3 * (y * (self.width_spec() as int) + x) + c]
    }

    pub fn width(&self) -> (w: u32)
        ensures
            w == self.width_spec(),
    {
        self.width
    }

    pub fn height(&self) -> (h: u32)
        ensures
            h == self.height_spec(),
    {
        self.height
    }

    /// Wraps a byte buffer as a raster; succeeds exactly when the buffer
    /// holds three bytes per pixel of the requested grid.
    pub fn from_bytes(width: u32, height: u32, data: Vec<u8>) -> (r: Option<Raster>)
        ensures
            match r {
                Some(im) => im.wf() && im.width_spec() == width && im.height_spec() == height
                    && im.bytes() == data@,
                None => data@.len() != 3 * (width as int) * (height as int),
            },
    {
        proof {
            assert(3 * (width as int) * (height as int) < 0x1_0000_0000_0000_0000_0000) by (
            nonlinear_arith)
                requires
                    width <= 0xffff_ffffu32,
                    height <= 0xffff_ffffu32,
            ;
        }
        let need: u128 = 3u128 * (width as u128) * (height as u128);
        if (data.len() as u128) == need {
            Some(Raster { width, height, data })
        } else {
            None
        }
    }

    /// A borrowed view of the raw bytes.
    pub fn as_bytes(&self) -> (r: &Vec<u8>)
        ensures
            r@ == self.bytes(),
    {
        &self.data
    }

    pub fn get_pixel(&self, x: u32, y: u32) -> (p: (u8, u8, u8))
        requires
            self.wf(),
            x < self.width_spec(),
            y < self.height_spec(),
        ensures
            p.0 == self.chan(x as int, y as int, 0),
            p.1 == self.chan(x as int, y as int, 1),
            p.2 == self.chan(x as int, y as int, 2),
    {
        // the buffer length bounds the index arithmetic below
        let n = self.data.len();
        proof {
            lemma_pixel_in_bounds(
                x as int,
                y as int,
                self.width_spec() as int,
                self.height_spec() as int,
            );
        }
        let base: usize = 3 * ((y as usize) * (self.width as usize) + (x as usize));
        (self.data[base], self.data[base + 1], self.data[base + 2])
    }

    pub fn put_pixel(&mut self, x: u32, y: u32, p: (u8, u8, u8))
        requires
            old(self).wf(),
            x < old(self).width_spec(),
            y < old(self).height_spec(),
        ensures
            final(self).wf(),
            final(self).width_spec() == old(self).width_spec(),
            final(self).height_spec() == old(self).height_spec(),
            final(self).chan(x as int, y as int, 0) == p.0,
            final(self).chan(x as int, y as int, 1) == p.1,
            final(self).chan(x as int, y as int, 2) == p.2,
            forall|xx: int, yy: int, cc: int|
                0 <= xx < old(self).width_spec() && 0 <= yy < old(self).height_spec() && 0 <= cc
                    < 3 && !(xx == x && yy == y) ==> final(self).chan(xx, yy, cc) == old(
                    self,
                ).chan(xx, yy, cc),
    {
        // the buffer length bounds the index arithmetic below
        let n = self.data.len();
        proof {
            lemma_pixel_in_bounds(
                x as int,
                y as int,
                self.width_spec() as int,
                self.height_spec() as int,
            );
        }
        let base: usize = 3 * ((y as usize) * (self.width as usize) + (x as usize));
        self.data[base] = p.0;
        self.data[base + 1] = p.1;
        self.data[base + 2] = p.2;
        proof {
            let w = self.width_spec() as int;
            let h = self.height_spec() as int;
            assert forall|xx: int, yy: int, cc: int|
                0 <= xx < w && 0 <= yy < h && 0 <= cc < 3 && !(xx == x && yy
                    == y) implies self.chan(xx, yy, cc) == old(self).chan(xx, yy, cc) by {
                lemma_pixel_index_injective(xx, yy, x as int, y as int, w);
                lemma_pixel_in_bounds(xx, yy, w, h);
            }
        }
    }
}

} // verus!
