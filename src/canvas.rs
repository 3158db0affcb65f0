//! The pixel buffer that every renderer writes into: row-major, top-left
//! origin, three bytes (R, G, B) per pixel.
use vstd::prelude::*;

verus! {

/// Bytes per pixel.
pub const CHANNELS: usize = 3;

/// An owned RGB pixel buffer of fixed size.
pub struct Canvas {
    data: Vec<u8>,
    size: (i32, i32),
}

/// Byte offset of the first channel of pixel `(x, y)` on a canvas `width` wide.
pub open spec fn pixel_offset_spec(width: int, x: int, y: int) -> int {
    (y * width + x) * 3
}

/// Whether `(x, y)` lies in `[0, width) x [0, height)`.
pub open spec fn in_bounds(size: (i32, i32), x: int, y: int) -> bool {
    0 <= x < size.0 && 0 <= y < size.1
}

/// A buffer of `n` zero bytes.
pub open spec fn zeros(n: int) -> Seq<u8> {
    Seq::new(n as nat, |i: int| 0u8)
}

impl Canvas {
    pub closed spec fn spec_size(&self) -> (i32, i32) {
        self.size
    }

    pub closed spec fn spec_data(&self) -> Seq<u8> {
        self.data@
    }

    /// The buffer holds exactly `width * height * 3` bytes.
    pub open spec fn wf(&self) -> bool {
        &&& self.spec_size().0 >= 0
        &&& self.spec_size().1 >= 0
        &&& self.spec_data().len() == self.spec_size().0 * self.spec_size().1 * 3
        &&& self.spec_data().len() <= usize::MAX
    }

    /// A black canvas of `size = (width, height)` pixels.
    pub fn new(size: (i32, i32)) -> (r: Canvas)
        requires
            size.0 >= 0,
            size.1 >= 0,
            size.0 * size.1 * 3 <= usize::MAX,
        ensures
            r.wf(),
            r.spec_size() == size,
            r.spec_data() == zeros(size.0 * size.1 * 3),
    {
        let n = Self::byte_len(size);
        let data = Self::zero_buffer(n);
        Canvas { data, size }
    }

    fn byte_len(size: (i32, i32)) -> (n: usize)
        requires
            size.0 >= 0,
            size.1 >= 0,
            size.0 * size.1 * 3 <= usize::MAX,
        ensures
            n == size.0 * size.1 * 3,
    {
        let w = size.0 as usize;
        let h = size.1 as usize;
        proof {
            assert(w * h <= w * h * 3) by (nonlinear_arith)
                requires w * h >= 0;
        }
        w * h * 3
    }

    fn zero_buffer(n: usize) -> (v: Vec<u8>)
        ensures
            v@ == zeros(n as int),
    {
        let mut v: Vec<u8> = Vec::new();
        let mut i: usize = 0;
        while i < n
            invariant
                i <= n,
                v@ == zeros(i as int),
            decreases n - i,
        {
            v.push(0u8);
            i = i + 1;
            assert(v@ =~= zeros(i as int));
        }
        v
    }

    /// Resets every pixel to black; the size is kept.
    pub fn flush(&mut self)
        requires
            old(self).wf(),
        ensures
            final(self).wf(),
            final(self).spec_size() == old(self).spec_size(),
            final(self).spec_data() == zeros(old(self).spec_data().len() as int),
    {
        let n = self.data.len();
        self.data = Self::zero_buffer(n);
    }

    /// `(width, height)` in pixels.
    pub fn size(&self) -> (r: (i32, i32))
        ensures
            r == self.spec_size(),
    {
        self.size
    }

    /// The raw buffer, row-major with stride `width * 3`.
    pub fn data(&self) -> (r: &Vec<u8>)
        ensures
            r@ == self.spec_data(),
    {
        &self.data
    }

    /// The byte offset of pixel `(x, y)`, or `None` when it lies outside the canvas.
    pub fn pixel_offset(&self, x: i64, y: i64) -> (r: Option<usize>)
        requires
            self.wf(),
        ensures
            r is None <==> !in_bounds(self.spec_size(), x as int, y as int),
            r matches Some(o) ==> o == pixel_offset_spec(self.spec_size().0 as int, x as int, y as int)
                && o + 3 <= self.spec_data().len(),
    {
        if x < 0 || y < 0 || x >= self.size.0 as i64 || y >= self.size.1 as i64 {
            return None;
        }
        let w = self.size.0 as usize;
        let h = self.size.1 as usize;
        let xu = x as usize;
        let yu = y as usize;
        let n = self.data.len();
        proof {
            assert(n == w * h * 3);
            assert(yu * w + xu + 1 <= w * h) by (nonlinear_arith)
                requires yu < h, xu < w;
            assert((yu * w + xu) * 3 + 3 <= w * h * 3) by (nonlinear_arith)
                requires yu * w + xu + 1 <= w * h;
            assert(yu * w <= yu * w + xu);
        }
        Some((yu * w + xu) * 3)
    }

    /// The colour of pixel `(x, y)`, or `None` when it lies outside the canvas.
    pub fn pixel(&self, x: i64, y: i64) -> (r: Option<[u8; 3]>)
        requires
            self.wf(),
        ensures
            r is None <==> !in_bounds(self.spec_size(), x as int, y as int),
            r matches Some(p) ==> {
                let o = pixel_offset_spec(self.spec_size().0 as int, x as int, y as int);
                &&& p[0] == self.spec_data()[o]
                &&& p[1] == self.spec_data()[o + 1]
                &&& p[2] == self.spec_data()[o + 2]
            },
    {
        match self.pixel_offset(x, y) {
            None => None,
            Some(o) => Some([self.data[o], self.data[o + 1], self.data[o + 2]]),
        }
    }

    /// Sets pixel `(x, y)` to `rgb`; a pixel outside the canvas is silently
    /// skipped and the buffer stays as it was.
    pub fn set_pixel(&mut self, x: i64, y: i64, rgb: [u8; 3])
        requires
            old(self).wf(),
        ensures
            final(self).wf(),
            final(self).spec_size() == old(self).spec_size(),
            !in_bounds(old(self).spec_size(), x as int, y as int) ==> final(self).spec_data()
                == old(self).spec_data(),
            in_bounds(old(self).spec_size(), x as int, y as int) ==> {
                let o = pixel_offset_spec(old(self).spec_size().0 as int, x as int, y as int);
                final(self).spec_data() == old(self).spec_data().update(o, rgb[0]).update(
                    o + 1,
                    rgb[1],
                ).update(o + 2, rgb[2])
            },
    {
        match self.pixel_offset(x, y) {
            None => {},
            Some(o) => {
                self.data.set(o, rgb[0]);
                self.data.set(o + 1, rgb[1]);
                self.data.set(o + 2, rgb[2]);
            },
        }
    }
}

} // verus!
