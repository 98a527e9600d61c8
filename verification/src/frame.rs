use vstd::prelude::*;
use crate::color::Rgb;

verus! {

/// An RGB image stored row by row, as the camera delivers it.
pub struct Frame {
    width: u32,
    height: u32,
    pixels: Vec<Rgb>,
}

/// `f` is the `width` x `height` image whose pixel (x, y) is the three bytes of `data`
/// at `3 * (y * width + x)`.
pub open spec fn built_from(f: Frame, width: int, height: int, data: Seq<u8>) -> bool {
    &&& f.wf()
    &&& f.spec_width() == width
    &&& f.spec_height() == height
    &&& forall|x: int, y: int|
        0 <= x < width && 0 <= y < height ==> #[trigger] f.pixel(x, y) == (Rgb {
            r: data[3 * (y * width + x)],
            g: data[3 * (y * width + x) + 1],
            b: data[3 * (y * width + x) + 2],
        })
}

/// `data` lists the pixels of `f` row by row, three bytes each.
pub open spec fn raw_of(f: Frame, data: Seq<u8>) -> bool {
    &&& data.len() == f.spec_width() * f.spec_height() * 3
    &&& forall|x: int, y: int|
        0 <= x < f.spec_width() && 0 <= y < f.spec_height() ==> {
            let p = #[trigger] f.pixel(x, y);
            let k = 3 * (y * f.spec_width() + x);
            data[k] == p.r && data[k + 1] == p.g && data[k + 2] == p.b
        }
}

impl Frame {
    /// The pixel buffer holds exactly `width * height` pixels, and both dimensions fit in i32.
    pub closed spec fn wf(&self) -> bool {
        &&& self.pixels@.len() == self.width as int * self.height as int
        &&& self.width <= i32::MAX
        &&& self.height <= i32::MAX
    }

    pub closed spec fn spec_width(&self) -> nat {
        self.width as nat
    }

    pub closed spec fn spec_height(&self) -> nat {
        self.height as nat
    }

    /// The pixel in column `x`, row `y`.
    pub closed spec fn pixel(&self, x: int, y: int) -> Rgb {
        self.pixels@[y * self.width + x]
    }

    /// Index of pixel (x, y) in row-major order lies within `width * height`.
    proof fn lemma_index(w: int, h: int, x: int, y: int)
        requires
            0 <= x < w,
            0 <= y < h,
        ensures
            0 <= y * w + x < w * h,
    {
        assert(0 <= y * w + x < w * h) by (nonlinear_arith)
            requires
                0 <= x < w,
                0 <= y < h,
        ;
    }

    /// Builds an image from raw RGB bytes (three per pixel, row by row). `None` when the
    /// buffer is shorter than `width * height * 3` bytes or a dimension exceeds `i32::MAX`.
    pub fn from_raw(width: u32, height: u32, data: Vec<u8>) -> (r: Option<Frame>)
        ensures
            r is None <==> (data@.len() < width as int * height as int * 3 || width > i32::MAX
                || height > i32::MAX),
            r matches Some(f) ==> built_from(f, width as int, height as int, data@),
    {
        if width > i32::MAX as u32 || height > i32::MAX as u32 {
            return None;
        }
        assert(width as u128 * height as u128 <= 0xFFFF_FFFFu128 * 0xFFFF_FFFFu128) by (nonlinear_arith);
        let nn: u128 = width as u128 * height as u128;
        if (data.len() as u128) < nn * 3 {
            return None;
        }
        let dl = data.len();
        let n: usize = nn as usize;
        let mut pixels: Vec<Rgb> = Vec::new();
        let mut i: usize = 0;
        while i < n
            invariant
                n == width as int * height as int,
                data@.len() >= n * 3,
                dl == data@.len(),
                i <= n,
                pixels@.len() == i,
                forall|k: int|
                    0 <= k < i ==> #[trigger] pixels@[k] == (Rgb {
                        r: data@[3 * k],
                        g: data@[3 * k + 1],
                        b: data@[3 * k + 2],
                    }),
            decreases n - i,
        {
            let k: usize = 3 * i;
            pixels.push(Rgb { r: data[k], g: data[k + 1], b: data[k + 2] });
            i = i + 1;
        }
        let f = Frame { width, height, pixels };
        proof {
            assert forall|x: int, y: int| 0 <= x < width && 0 <= y < height implies #[trigger] f.pixel(x, y) == (Rgb {
                r: data@[3 * (y * width + x)],
                g: data@[3 * (y * width + x) + 1],
                b: data@[3 * (y * width + x) + 2],
            }) by {
                assert(0 <= y * width + x < width as int * height as int) by (nonlinear_arith)
                    requires
                        0 <= x < width,
                        0 <= y < height,
                ;
            }
        }
        Some(f)
    }

    /// The image as raw RGB bytes, row by row.
    pub fn into_raw(&self) -> (data: Vec<u8>)
        requires
            self.wf(),
        ensures
            raw_of(*self, data@),
    {
                let mut data: Vec<u8> = Vec::new();
        let mut i: usize = 0;
        while i < self.pixels.len()
            invariant
                i <= self.pixels@.len(),
                data@.len() == 3 * i,
                forall|k: int|
                    0 <= k < i ==> data@[3 * k] == #[trigger] self.pixels@[k].r && data@[3 * k + 1]
                        == self.pixels@[k].g && data@[3 * k + 2] == self.pixels@[k].b,
            decreases self.pixels@.len() - i,
        {
            let p = self.pixels[i];
            let ghost before = data@;
            data.push(p.r);
            data.push(p.g);
            data.push(p.b);
            proof {
                assert(data@ == before.push(p.r).push(p.g).push(p.b));
                assert(data@[3 * i] == p.r && data@[3 * i + 1] == p.g && data@[3 * i + 2] == p.b);
                assert(p == self.pixels@[i as int]);
                assert forall|k: int|
                    0 <= k < i + 1 implies data@[3 * k] == #[trigger] self.pixels@[k].r && data@[3 * k + 1]
                        == self.pixels@[k].g && data@[3 * k + 2] == self.pixels@[k].b by {
                    if k < i {
                        assert(3 * k + 2 < before.len());
                        assert(data@[3 * k] == before[3 * k]);
                        assert(data@[3 * k + 1] == before[3 * k + 1]);
                        assert(data@[3 * k + 2] == before[3 * k + 2]);
                        assert(before[3 * k] == self.pixels@[k].r);
                    } else {
                        assert(k == i);
                    }
                }
            }
            i = i + 1;
        }
        proof {
            assert forall|x: int, y: int|
                0 <= x < self.spec_width() && 0 <= y < self.spec_height() implies {
                    let p = #[trigger] self.pixel(x, y);
                    let k = 3 * (y * self.spec_width() + x);
                    data@[k] == p.r && data@[k + 1] == p.g && data@[k + 2] == p.b
                } by {
                Self::lemma_index(self.width as int, self.height as int, x, y);
                let k = y * self.width + x;
                assert(self.pixels@[k].r == data@[3 * k]);
            }
        }
        data
    }

    /// Number of pixels, `width * height`.
    pub fn pixel_count(&self) -> (n: usize)
        requires
            self.wf(),
        ensures
            n == self.spec_width() * self.spec_height(),
    {
        self.pixels.len()
    }

    /// Width and height.
    pub fn dimensions(&self) -> (d: (u32, u32))
        requires
            self.wf(),
        ensures
            d.0 == self.spec_width(),
            d.1 == self.spec_height(),
            d.0 <= i32::MAX,
            d.1 <= i32::MAX,
    {
                (self.width, self.height)
    }

    /// The pixel in column `x`, row `y`.
    pub fn get_pixel(&self, x: u32, y: u32) -> (p: Rgb)
        requires
            self.wf(),
            x < self.spec_width(),
            y < self.spec_height(),
        ensures
            p == self.pixel(x as int, y as int),
    {
        proof {
            Self::lemma_index(self.width as int, self.height as int, x as int, y as int);
        }
        let len = self.pixels.len();
        assert((y as usize) * (self.width as usize) <= (y as usize) * (self.width as usize) + (x as usize) < len);
        let k = y as usize * self.width as usize + x as usize;
        self.pixels[k]
    }

    /// Sets the pixel in column `x`, row `y`; every other pixel stays.
    pub fn put_pixel(&mut self, x: u32, y: u32, c: Rgb)
        requires
            old(self).wf(),
            x < old(self).spec_width(),
            y < old(self).spec_height(),
        ensures
            final(self).wf(),
            final(self).spec_width() == old(self).spec_width(),
            final(self).spec_height() == old(self).spec_height(),
            final(self).pixel(x as int, y as int) == c,
            forall|i: int, j: int|
                0 <= i < old(self).spec_width() && 0 <= j < old(self).spec_height() && (i != x || j
                    != y) ==> #[trigger] final(self).pixel(i, j) == old(self).pixel(i, j),
    {
        proof {
            Self::lemma_index(self.width as int, self.height as int, x as int, y as int);
        }
        let len = self.pixels.len();
        assert((y as usize) * (self.width as usize) <= (y as usize) * (self.width as usize) + (x as usize) < len);
        let k = y as usize * self.width as usize + x as usize;
        let mut px: Vec<Rgb> = Vec::new();
        std::mem::swap(&mut px, &mut self.pixels);
        px.set(k, c);
        std::mem::swap(&mut px, &mut self.pixels);
        proof {
            assert forall|i: int, j: int|
                0 <= i < old(self).spec_width() && 0 <= j < old(self).spec_height() && (i != x || j
                    != y) implies #[trigger] self.pixel(i, j) == old(self).pixel(i, j) by {
                Self::lemma_index(self.width as int, self.height as int, i, j);
                if j * self.width + i == y * self.width + x {
                    assert(i == x && j == y) by (nonlinear_arith)
                        requires
                            j * self.width + i == y * self.width + x,
                            0 <= i < self.width,
                            0 <= x < self.width,
                            0 <= j,
                            0 <= y,
                    ;
                }
            }
        }
    }
}

/// Pixel (i, j) lies in the rectangle [x0, x1) x [y0, y1).
pub open spec fn in_rect(x0: int, y0: int, x1: int, y1: int, i: int, j: int) -> bool {
    x0 <= i < x1 && y0 <= j < y1
}

impl Frame {
    /// Paints every pixel of the rectangle [x0, x1) x [y0, y1) that lies in the image;
    /// the rest of the rectangle is skipped and every other pixel stays.
    pub fn fill_rect(&mut self, x0: i32, y0: i32, x1: i32, y1: i32, c: Rgb)
        requires
            old(self).wf(),
        ensures
            final(self).wf(),
            final(self).spec_width() == old(self).spec_width(),
            final(self).spec_height() == old(self).spec_height(),
            forall|i: int, j: int|
                0 <= i < old(self).spec_width() && 0 <= j < old(self).spec_height()
                    ==> #[trigger] final(self).pixel(i, j) == (if in_rect(x0 as int, y0 as int, x1 as int, y1 as int, i, j) {
                    c
                } else {
                    old(self).pixel(i, j)
                }),
    {
        let (w, h) = self.dimensions();
        let mut x: i32 = x0;
        while x < x1
            invariant
                self.wf(),
                self.spec_width() == w,
                self.spec_height() == h,
                w == old(self).spec_width(),
                h == old(self).spec_height(),
                w <= i32::MAX,
                h <= i32::MAX,
                x0 <= x,
                x <= x1 || x == x0,
                forall|i: int, j: int|
                    0 <= i < w && 0 <= j < h ==> #[trigger] self.pixel(i, j) == (if x0 <= i < x && y0 <= j < y1 {
                        c
                    } else {
                        old(self).pixel(i, j)
                    }),
            decreases x1 - x,
        {
            let mut y: i32 = y0;
            while y < y1
                invariant
                    self.wf(),
                    self.spec_width() == w,
                    self.spec_height() == h,
                    w == old(self).spec_width(),
                    h == old(self).spec_height(),
                    w <= i32::MAX,
                    h <= i32::MAX,
                    x0 <= x < x1,
                    y0 <= y,
                    y <= y1 || y == y0,
                    forall|i: int, j: int|
                        0 <= i < w && 0 <= j < h ==> #[trigger] self.pixel(i, j) == (if (x0 <= i < x && y0 <= j < y1)
                            || (i == x && y0 <= j < y) {
                            c
                        } else {
                            old(self).pixel(i, j)
                        }),
                decreases y1 - y,
            {
                if x >= 0 && y >= 0 && x < w as i32 && y < h as i32 {
                    self.put_pixel(x as u32, y as u32, c);
                }
                y = y + 1;
            }
            x = x + 1;
        }
    }
}

impl Clone for Frame {
    fn clone(&self) -> (c: Frame)
        ensures
            self.wf() ==> c.wf(),
            c.spec_width() == self.spec_width(),
            c.spec_height() == self.spec_height(),
            forall|x: int, y: int| #[trigger] c.pixel(x, y) == self.pixel(x, y),
    {
                let mut pixels: Vec<Rgb> = Vec::new();
        let mut i: usize = 0;
        while i < self.pixels.len()
            invariant
                i <= self.pixels@.len(),
                pixels@ == self.pixels@.take(i as int),
            decreases self.pixels@.len() - i,
        {
            pixels.push(self.pixels[i]);
            i = i + 1;
            assert(pixels@ =~= self.pixels@.take(i as int));
        }
        assert(pixels@ =~= self.pixels@);
        Frame { width: self.width, height: self.height, pixels }
    }
}

/// Reading an image back out gives the bytes it was built from (as many as it uses).
pub proof fn law_raw_round_trip(f: Frame, width: int, height: int, data: Seq<u8>, out: Seq<u8>)
    requires
        built_from(f, width, height, data),
        data.len() >= width * height * 3,
        raw_of(f, out),
    ensures
        out == data.take(width * height * 3),
{
    let n = width * height * 3;
    assert forall|i: int| 0 <= i < n implies out[i] == data[i] by {
        let k = i / 3;
        let c = i % 3;
        assert(0 <= k < width * height);
        assert(width > 0) by (nonlinear_arith)
            requires
                0 <= k < width * height,
                height >= 0,
        ;
        vstd::arithmetic::div_mod::lemma_fundamental_div_mod(k, width);
        vstd::arithmetic::div_mod::lemma_mod_pos_bound(k, width);
        let x = k % width;
        let y = k / width;
        assert(0 <= y < height) by (nonlinear_arith)
            requires
                k == width * y + x,
                0 <= x < width,
                0 <= k < width * height,
        ;
        assert(y * width + x == k) by (nonlinear_arith)
            requires
                k == width * y + x,
        ;
        let p = f.pixel(x, y);
        assert(3 * k + c == i);
        if c == 0 {
            assert(out[3 * k] == p.r);
        } else if c == 1 {
            assert(out[3 * k + 1] == p.g);
        } else {
            assert(out[3 * k + 2] == p.b);
        }
    }
    assert(out =~= data.take(n));
}

/// Building an image from the bytes another image was read out as gives back its
/// pixels.
pub proof fn law_image_round_trip(f: Frame, g: Frame, out: Seq<u8>)
    requires
        f.wf(),
        raw_of(f, out),
        built_from(g, f.spec_width() as int, f.spec_height() as int, out),
    ensures
        forall|x: int, y: int|
            0 <= x < f.spec_width() && 0 <= y < f.spec_height() ==> #[trigger] g.pixel(x, y) == f.pixel(x, y),
{
    assert forall|x: int, y: int| 0 <= x < f.spec_width() && 0 <= y < f.spec_height() implies #[trigger] g.pixel(x, y)
        == f.pixel(x, y) by {
        let p = f.pixel(x, y);
        let q = g.pixel(x, y);
        assert(q.r == p.r && q.g == p.g && q.b == p.b);
    }
}

} // verus!
