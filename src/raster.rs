use vstd::prelude::*;

verus! {

/// One 8-bit sRGB pixel with straight (non-premultiplied) alpha.
#[derive(Clone, Copy, Debug, PartialEq, Eq, Structural)]
pub struct Pixel {
    pub r: u8,
    pub g: u8,
    pub b: u8,
    pub a: u8,
}

pub open spec fn transparent() -> Pixel {
    Pixel { r: 0, g: 0, b: 0, a: 0 }
}

/// Bytes `4k .. 4k + 4` of `bytes` spell the channels of pixel `k`.
pub open spec fn bytes_spell(bytes: Seq<u8>, pixels: Seq<Pixel>, k: int) -> bool {
    &&& bytes[4 * k] == pixels[k].r
    &&& bytes[4 * k + 1] == pixels[k].g
    &&& bytes[4 * k + 2] == pixels[k].b
    &&& bytes[4 * k + 3] == pixels[k].a
}

/// A colour channel of a translucent pixel divided by its alpha `a / 255`,
/// saturating at 255.
pub open spec fn unmultiplied(c: u8, a: u8) -> u8 {
    let n = (c as int * 255) / (a as int);
    if n > 255 {
        255
    } else {
        n as u8
    }
}

/// A translucent pixel with its colour divided by its alpha; fully opaque and
/// fully transparent pixels are left as they are.
pub open spec fn unpremultiplied(p: Pixel) -> Pixel {
    if p.a == 0 || p.a == 255 {
        p
    } else {
        Pixel {
            r: unmultiplied(p.r, p.a),
            g: unmultiplied(p.g, p.a),
            b: unmultiplied(p.b, p.a),
            a: p.a,
        }
    }
}

fn unmult(c: u8, a: u8) -> (r: u8)
    requires
        a > 0,
    ensures
        r == unmultiplied(c, a),
{
    let n: u16 = (c as u16) * 255 / (a as u16);
    if n > 255 {
        255
    } else {
        n as u8
    }
}

/// Divides the colour of every translucent pixel by its alpha, undoing the
/// premultiplication that an earlier tool left in the file.
pub fn fix_translucent(img: &mut Raster)
    ensures
        final(img).width == old(img).width,
        final(img).height == old(img).height,
        final(img).pixels@ == old(img).pixels@.map_values(|p: Pixel| unpremultiplied(p)),
{
    let n: usize = img.pixels.len();
    let mut i: usize = 0;
    while i < n
        invariant
            i <= n,
            n == img.pixels@.len(),
            img.width == old(img).width,
            img.height == old(img).height,
            img.pixels@.len() == old(img).pixels@.len(),
            forall|k: int| 0 <= k < i ==> img.pixels@[k] == unpremultiplied(old(img).pixels@[k]),
            forall|k: int| i <= k < n ==> img.pixels@[k] == old(img).pixels@[k],
        decreases n - i,
    {
        let p = img.pixels[i];
        if p.a != 0 && p.a != 255 {
            let q = Pixel { r: unmult(p.r, p.a), g: unmult(p.g, p.a), b: unmult(p.b, p.a), a: p.a };
            img.pixels.set(i, q);
        }
        i = i + 1;
    }
    assert(img.pixels@ =~= old(img).pixels@.map_values(|p: Pixel| unpremultiplied(p)));
}

/// A rectangular buffer of pixels stored row by row.
pub struct Raster {
    pub width: u32,
    pub height: u32,
    pub pixels: Vec<Pixel>,
}

pub proof fn lemma_cell_index(x: int, y: int, w: int, h: int)
    requires
        0 <= x < w,
        0 <= y < h,
    ensures
        0 <= y * w + x < w * h,
        y * w + x < (y + 1) * w,
        y * w <= y * w + x,
{
    assert(0 <= y * w + x < w * h) by (nonlinear_arith)
        requires
            0 <= x < w,
            0 <= y < h,
    ;
    assert(y * w + x < (y + 1) * w) by (nonlinear_arith)
        requires
            0 <= x < w,
    ;
    assert(0 <= y * w) by (nonlinear_arith)
        requires
            0 <= x < w,
            0 <= y,
    ;
}

/// Distinct cells of one row width never share a buffer index.
pub proof fn lemma_cell_index_injective(x1: int, y1: int, x2: int, y2: int, w: int)
    requires
        0 <= x1 < w,
        0 <= x2 < w,
        0 <= y1,
        0 <= y2,
        y1 * w + x1 == y2 * w + x2,
    ensures
        x1 == x2,
        y1 == y2,
{
    if y1 < y2 {
        assert((y1 + 1) * w <= y2 * w) by (nonlinear_arith)
            requires
                y1 + 1 <= y2,
                0 <= w,
        ;
        assert(false) by (nonlinear_arith)
            requires
                (y1 + 1) * w <= y2 * w,
                y1 * w + x1 == y2 * w + x2,
                x1 < w,
                0 <= x2,
        ;
    } else if y2 < y1 {
        assert((y2 + 1) * w <= y1 * w) by (nonlinear_arith)
            requires
                y2 + 1 <= y1,
                0 <= w,
        ;
        assert(false) by (nonlinear_arith)
            requires
                (y2 + 1) * w <= y1 * w,
                y1 * w + x1 == y2 * w + x2,
                x2 < w,
                0 <= x1,
        ;
    }
}

impl Raster {
    pub open spec fn wf(&self) -> bool {
        self.pixels@.len() == self.width as int * self.height as int
    }

    pub open spec fn in_bounds(&self, x: int, y: int) -> bool {
        0 <= x < self.width && 0 <= y < self.height
    }

    /// The pixel at column `x`, row `y`.
    pub open spec fn at(&self, x: int, y: int) -> Pixel {
        self.pixels@[y * self.width + x]
    }

    /// A `width` by `height` raster of fully transparent pixels.
    pub fn new(width: u32, height: u32) -> (r: Raster)
        requires
            width as int * height as int <= usize::MAX,
        ensures
            r.wf(),
            r.width == width,
            r.height == height,
            forall|x: int, y: int| r.in_bounds(x, y) ==> r.at(x, y) == transparent(),
    {
        let n: usize = width as usize * height as usize;
        let mut pixels: Vec<Pixel> = Vec::new();
        let mut i: usize = 0;
        while i < n
            invariant
                i <= n,
                pixels@.len() == i,
                forall|k: int| 0 <= k < i ==> pixels@[k] == transparent(),
            decreases n - i,
        {
            pixels.push(Pixel { r: 0, g: 0, b: 0, a: 0 });
            i = i + 1;
        }
        let r = Raster { width, height, pixels };
        assert forall|x: int, y: int| r.in_bounds(x, y) implies r.at(x, y) == transparent() by {
            lemma_cell_index(x, y, width as int, height as int);
        }
        r
    }

    /// Builds a raster from RGBA bytes, four per pixel, row by row; `None` when
    /// the byte count is not `4 * width * height`.
    pub fn from_rgba_bytes(width: u32, height: u32, bytes: &Vec<u8>) -> (r: Option<Raster>)
        ensures
            r is Some <==> bytes@.len() == 4 * (width as int * height as int),
            r matches Some(img) ==> {
                &&& img.wf()
                &&& img.width == width
                &&& img.height == height
                &&& forall|k: int|
                    0 <= k < img.pixels@.len() ==> #[trigger] bytes_spell(bytes@, img.pixels@, k)
            },
    {
        let len: usize = bytes.len();
        if len % 4 != 0 {
            return None;
        }
        let n: usize = len / 4;
        assert(width as int * height as int <= u64::MAX) by (nonlinear_arith)
            requires
                width <= u32::MAX,
                height <= u32::MAX,
        ;
        if width as u64 * height as u64 != n as u64 {
            return None;
        }
        let mut pixels: Vec<Pixel> = Vec::new();
        let mut i: usize = 0;
        let mut j: usize = 0;
        while i < n
            invariant
                i <= n,
                j == 4 * i,
                bytes@.len() == 4 * n,
                4 * n <= usize::MAX,
                pixels@.len() == i,
                forall|k: int| 0 <= k < i ==> #[trigger] bytes_spell(bytes@, pixels@, k),
            decreases n - i,
        {
            let p = Pixel { r: bytes[j], g: bytes[j + 1], b: bytes[j + 2], a: bytes[j + 3] };
            let ghost before = pixels@;
            pixels.push(p);
            assert forall|k: int| 0 <= k < i + 1 implies #[trigger] bytes_spell(
                bytes@,
                pixels@,
                k,
            ) by {
                if k < i {
                    assert(bytes_spell(bytes@, before, k));
                }
            }
            i = i + 1;
            j = j + 4;
        }
        Some(Raster { width, height, pixels })
    }

    /// The pixels as RGBA bytes, four per pixel, row by row.
    pub fn to_rgba_bytes(&self) -> (r: Vec<u8>)
        requires
            4 * self.pixels@.len() <= usize::MAX,
        ensures
            r@.len() == 4 * self.pixels@.len(),
            forall|k: int| 0 <= k < self.pixels@.len() ==> #[trigger] bytes_spell(r@, self.pixels@, k),
    {
        let mut out: Vec<u8> = Vec::new();
        let mut i: usize = 0;
        while i < self.pixels.len()
            invariant
                i <= self.pixels@.len(),
                4 * self.pixels@.len() <= usize::MAX,
                out@.len() == 4 * i,
                forall|k: int| 0 <= k < i ==> #[trigger] bytes_spell(out@, self.pixels@, k),
            decreases self.pixels@.len() - i,
        {
            let p = self.pixels[i];
            let ghost before = out@;
            out.push(p.r);
            out.push(p.g);
            out.push(p.b);
            out.push(p.a);
            assert(out@ == before + seq![p.r, p.g, p.b, p.a]);
            assert forall|k: int| 0 <= k < i + 1 implies #[trigger] bytes_spell(
                out@,
                self.pixels@,
                k,
            ) by {
                if k < i {
                    assert(bytes_spell(before, self.pixels@, k));
                    assert(out@[4 * k] == before[4 * k]);
                    assert(out@[4 * k + 1] == before[4 * k + 1]);
                    assert(out@[4 * k + 2] == before[4 * k + 2]);
                    assert(out@[4 * k + 3] == before[4 * k + 3]);
                }
            }
            i = i + 1;
        }
        out
    }

    pub fn get_pixel(&self, x: u32, y: u32) -> (p: Pixel)
        requires
            self.wf(),
            self.in_bounds(x as int, y as int),
        ensures
            p == self.at(x as int, y as int),
    {
        proof {
            lemma_cell_index(x as int, y as int, self.width as int, self.height as int);
        }
        let _len: usize = self.pixels.len();
        self.pixels[y as usize * self.width as usize + x as usize]
    }

    pub fn put_pixel(&mut self, x: u32, y: u32, p: Pixel)
        requires
            old(self).wf(),
            old(self).in_bounds(x as int, y as int),
        ensures
            final(self).wf(),
            final(self).width == old(self).width,
            final(self).height == old(self).height,
            final(self).at(x as int, y as int) == p,
            forall|i: int, j: int|
                final(self).in_bounds(i, j) && (i != x || j != y) ==> final(self).at(i, j)
                    == old(self).at(i, j),
    {
        proof {
            lemma_cell_index(x as int, y as int, self.width as int, self.height as int);
        }
        let _len: usize = self.pixels.len();
        let idx: usize = y as usize * self.width as usize + x as usize;
        self.pixels.set(idx, p);
        proof {
            assert forall|i: int, j: int|
                self.in_bounds(i, j) && (i != x || j != y) implies self.at(i, j)
                    == old(self).at(i, j) by {
                lemma_cell_index(i, j, self.width as int, self.height as int);
                if j * self.width + i == idx {
                    lemma_cell_index_injective(i, j, x as int, y as int, self.width as int);
                }
            }
        }
    }
}

} // verus!
