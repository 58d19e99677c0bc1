use crate::raster::{lemma_cell_index, transparent, Pixel, Raster};
use vstd::math::max;
use vstd::prelude::*;

verus! {

/// A grid coordinate: cell `(x, y)` of depth layer `z`.
#[derive(Clone, Copy, Debug, PartialEq, Eq, Structural, Hash)]
pub struct TilePos {
    pub x: u32,
    pub y: u32,
    pub z: u32,
}

#[verifier::external_type_specification]
#[verifier::external_body]
pub struct ExImageError(image::ImageError);

/// The width, height and RGBA8 bytes of the picture that `data` holds, or
/// `None` where the bytes do not decode.
pub uninterp spec fn png_rgba8(data: Seq<u8>) -> Option<(u32, u32, Seq<u8>)>;

/// Relies on image::load_from_memory and DynamicImage::to_rgba8: the decoded
/// picture depends on the bytes alone, and its RGBA8 copy is a freshly
/// allocated buffer of four bytes per pixel.
#[verifier::external_body]
fn decode_png(data: &[u8]) -> (r: Result<(u32, u32, Vec<u8>), image::ImageError>)
    ensures
        r is Ok <==> png_rgba8(data@) is Some,
        r matches Ok((w, h, bytes)) ==> {
            &&& png_rgba8(data@) == Some((w, h, bytes@))
            &&& bytes@.len() == 4 * (w as int * h as int)
        },
{
    let img = image::load_from_memory(data)?.to_rgba8();
    let (w, h) = img.dimensions();
    Ok((w, h, img.into_raw()))
}

/// Why a sheet layer could not be loaded.
#[derive(Clone, Copy, Debug, PartialEq, Eq, Structural)]
pub enum LayerError {
    /// The bytes are not a picture that can be decoded.
    Decode,
}

/// The pixel at `(i, j)` of `old` after growing it: the old pixel inside the
/// old bounds, transparent outside.
pub open spec fn grown_pixel(old: &Raster, i: int, j: int) -> Pixel {
    if old.in_bounds(i, j) {
        old.at(i, j)
    } else {
        transparent()
    }
}

/// A `w` by `h` copy of `old` with the new area transparent.
fn grown(old: &Raster, w: u32, h: u32) -> (r: Raster)
    requires
        old.wf(),
        w >= old.width,
        h >= old.height,
        w as int * h as int <= usize::MAX,
    ensures
        r.wf(),
        r.width == w,
        r.height == h,
        forall|i: int, j: int| r.in_bounds(i, j) ==> r.at(i, j) == grown_pixel(old, i, j),
{
    let mut pixels: Vec<Pixel> = Vec::new();
    let mut y: u32 = 0;
    while y < h
        invariant
            y <= h,
            old.wf(),
            w as int * h as int <= usize::MAX,
            pixels@.len() == y as int * w as int,
            forall|i: int, j: int|
                0 <= i < w && 0 <= j < y ==> #[trigger] pixels@[j * w + i] == grown_pixel(old, i, j),
        decreases h - y,
    {
        let mut x: u32 = 0;
        while x < w
            invariant
                x <= w,
                y < h,
                old.wf(),
                w as int * h as int <= usize::MAX,
                pixels@.len() == y as int * w as int + x,
                forall|i: int, j: int|
                    0 <= i < w && 0 <= j < y ==> #[trigger] pixels@[j * w + i] == grown_pixel(
                        old,
                        i,
                        j,
                    ),
                forall|i: int|
                    0 <= i < x ==> #[trigger] pixels@[y * w + i] == grown_pixel(old, i, y as int),
            decreases w - x,
        {
            let p = if x < old.width && y < old.height {
                old.get_pixel(x, y)
            } else {
                Pixel { r: 0, g: 0, b: 0, a: 0 }
            };
            let ghost before = pixels@;
            pixels.push(p);
            proof {
                assert forall|i: int, j: int| 0 <= i < w && 0 <= j < y implies #[trigger] pixels@[j
                    * w + i] == grown_pixel(old, i, j) by {
                    lemma_cell_index(i, j, w as int, y as int);
                    assert(w as int * y as int == y as int * w as int) by (nonlinear_arith);
                    assert(pixels@[j * w + i] == before[j * w + i]);
                }
                assert forall|i: int| 0 <= i < x + 1 implies #[trigger] pixels@[y * w + i]
                    == grown_pixel(old, i, y as int) by {
                    if i < x {
                        assert(pixels@[y * w + i] == before[y * w + i]);
                    }
                }
            }
            x = x + 1;
        }
        assert((y + 1) as int * w as int == y as int * w as int + w) by (nonlinear_arith);
        y = y + 1;
    }
    assert(w as int * h as int == h as int * w as int) by (nonlinear_arith);
    let r = Raster { width: w, height: h, pixels };
    assert forall|i: int, j: int| r.in_bounds(i, j) implies r.at(i, j) == grown_pixel(old, i, j) by {
        assert(pixels@[j * w + i] == grown_pixel(old, i, j));
    }
    r
}

/// The canvases of one cell size: one raster per depth layer.
pub struct Sheet {
    pub size: u32,
    pub layers: Vec<Raster>,
}

impl Sheet {
    pub open spec fn wf(&self) -> bool {
        forall|z: int| 0 <= z < self.layers@.len() ==> #[trigger] self.layers@[z].wf()
    }

    pub fn new(size: u32) -> (r: Sheet)
        ensures
            r.wf(),
            r.size == size,
            r.layers@.len() == 0,
    {
        Sheet { size, layers: Vec::new() }
    }

    /// Appends a layer decoded from the PNG `data`; fails, leaving the sheet
    /// as it was, exactly where the bytes do not decode.
    pub fn load_layer(&mut self, data: &[u8]) -> (r: Result<(), LayerError>)
        requires
            old(self).wf(),
        ensures
            final(self).wf(),
            final(self).size == old(self).size,
            r is Ok <==> png_rgba8(data@) is Some,
            r is Ok ==> {
                let (w, h, bytes) = png_rgba8(data@)->Some_0;
                let last = final(self).layers@.last();
                &&& final(self).layers@.len() == old(self).layers@.len() + 1
                &&& final(self).layers@.drop_last() == old(self).layers@
                &&& last.width == w
                &&& last.height == h
                &&& forall|k: int|
                    0 <= k < last.pixels@.len() ==> #[trigger] crate::raster::bytes_spell(
                        bytes,
                        last.pixels@,
                        k,
                    )
            },
            r is Err ==> final(self).layers@ == old(self).layers@,
    {
        match decode_png(data) {
            Ok((w, h, bytes)) => {
                match Raster::from_rgba_bytes(w, h, &bytes) {
                    Some(layer) => {
                        self.layers.push(layer);
                        assert(self.layers@.drop_last() =~= old(self).layers@);
                        Ok(())
                    },
                    None => Err(LayerError::Decode),
                }
            },
            Err(_) => Err(LayerError::Decode),
        }
    }

    /// Appends an empty layer of one cell.
    pub fn add_layer(&mut self)
        requires
            old(self).wf(),
            old(self).size as int * old(self).size as int <= usize::MAX,
        ensures
            final(self).wf(),
            final(self).size == old(self).size,
            final(self).layers@.len() == old(self).layers@.len() + 1,
            final(self).layers@.drop_last() == old(self).layers@,
            final(self).layers@.last().width == old(self).size,
            final(self).layers@.last().height == old(self).size,
            forall|i: int, j: int|
                final(self).layers@.last().in_bounds(i, j) ==> final(self).layers@.last().at(i, j)
                    == transparent(),
    {
        let layer = Raster::new(self.size, self.size);
        self.layers.push(layer);
        assert(self.layers@.drop_last() =~= old(self).layers@);
    }

    /// Enlarges layer `z` to `w` by `h`, keeping every pixel where it was and
    /// filling the new area with transparent pixels.
    pub fn grow(&mut self, w: u32, h: u32, z: u32)
        requires
            old(self).wf(),
            z < old(self).layers@.len(),
            w >= old(self).layers@[z as int].width,
            h >= old(self).layers@[z as int].height,
            w as int * h as int <= usize::MAX,
        ensures
            final(self).wf(),
            final(self).size == old(self).size,
            final(self).layers@.len() == old(self).layers@.len(),
            forall|k: int|
                0 <= k < old(self).layers@.len() && k != z ==> final(self).layers@[k] == old(
                    self,
                ).layers@[k],
            final(self).layers@[z as int].width == w,
            final(self).layers@[z as int].height == h,
            forall|i: int, j: int|
                final(self).layers@[z as int].in_bounds(i, j) ==> final(self).layers@[z as int].at(
                    i,
                    j,
                ) == grown_pixel(&old(self).layers@[z as int], i, j),
    {
        let new_layer = grown(&self.layers[z as usize], w, h);
        self.layers.set(z as usize, new_layer);
    }

    /// Width of layer `z` before an insertion; a layer not yet made counts as
    /// one empty cell.
    pub open spec fn base_width(&self, z: int) -> int {
        if z < self.layers@.len() {
            self.layers@[z].width as int
        } else {
            self.size as int
        }
    }

    pub open spec fn base_height(&self, z: int) -> int {
        if z < self.layers@.len() {
            self.layers@[z].height as int
        } else {
            self.size as int
        }
    }

    /// Pixel `(i, j)` of layer `z` before an insertion, read as if the layer
    /// had already been grown: transparent outside what it held.
    pub open spec fn base_pixel(&self, z: int, i: int, j: int) -> Pixel {
        if z < self.layers@.len() {
            grown_pixel(&self.layers@[z], i, j)
        } else {
            transparent()
        }
    }

    /// Whether pixel `(i, j)` lies in the cell of `pos` for cells of `size`.
    pub open spec fn in_cell(size: int, pos: TilePos, i: int, j: int) -> bool {
        &&& pos.x * size <= i < (pos.x + 1) * size
        &&& pos.y * size <= j < (pos.y + 1) * size
    }

    /// What `insert` needs: a tile of one cell, a layer that exists or comes
    /// next, and a grown layer whose extent and area fit the machine.
    pub open spec fn insert_fits(&self, pos: TilePos, tile: &Raster) -> bool {
        &&& self.wf()
        &&& tile.wf()
        &&& tile.width == self.size
        &&& tile.height == self.size
        &&& pos.z <= self.layers@.len()
        &&& (pos.x + 1) * self.size <= u32::MAX
        &&& (pos.y + 1) * self.size <= u32::MAX
        &&& self.size as int * self.size as int <= usize::MAX
        &&& max(self.base_width(pos.z as int), (pos.x + 1) * self.size) * max(
            self.base_height(pos.z as int),
            (pos.y + 1) * self.size,
        ) <= usize::MAX
    }

    /// `new` is `old` with `tile` written into the cell at `pos`: layer
    /// `pos.z` grown to cover the cell, its new area transparent, the cell
    /// holding the tile, and every other pixel and layer as it was.
    pub open spec fn inserted(old: &Sheet, new: &Sheet, pos: TilePos, tile: &Raster) -> bool {
        let z = pos.z as int;
        let layer = new.layers@[z];
        &&& new.wf()
        &&& new.size == old.size
        &&& new.layers@.len() == if z < old.layers@.len() {
            old.layers@.len() as int
        } else {
            (old.layers@.len() + 1) as int
        }
        &&& forall|k: int|
            0 <= k < old.layers@.len() && k != z ==> new.layers@[k] == old.layers@[k]
        &&& layer.width == max(old.base_width(z), (pos.x + 1) * old.size)
        &&& layer.height == max(old.base_height(z), (pos.y + 1) * old.size)
        &&& forall|i: int, j: int|
            layer.in_bounds(i, j) ==> layer.at(i, j) == if Self::in_cell(
                old.size as int,
                pos,
                i,
                j,
            ) {
                tile.at(i - pos.x * old.size, j - pos.y * old.size)
            } else {
                old.base_pixel(z, i, j)
            }
        &&& z < old.layers@.len() ==> forall|i: int, j: int|
            old.layers@[z].in_bounds(i, j) && !Self::in_cell(old.size as int, pos, i, j)
                ==> layer.at(i, j) == old.layers@[z].at(i, j)
    }

    /// Whether `insert_fits` holds, for callers that must check it.
    pub fn can_insert(&self, pos: TilePos, tile: &Raster) -> (r: bool)
        requires
            self.wf(),
        ensures
            r == self.insert_fits(pos, tile),
    {
        let size = self.size as u128;
        assert(tile.width as int * tile.height as int <= 0x1_0000_0000 * 0x1_0000_0000)
            by (nonlinear_arith);
        if tile.pixels.len() as u128 != tile.width as u128 * tile.height as u128 {
            return false;
        }
        if tile.width != self.size || tile.height != self.size {
            return false;
        }
        if pos.z as usize > self.layers.len() {
            return false;
        }
        let (bw, bh) = if (pos.z as usize) < self.layers.len() {
            (self.layers[pos.z as usize].width as u128, self.layers[pos.z as usize].height as u128)
        } else {
            (size, size)
        };
        assert((pos.x + 1) * size <= 0x1_0000_0000 * 0x1_0000_0000) by (nonlinear_arith)
            requires
                pos.x + 1 <= 0x1_0000_0000,
                size <= 0x1_0000_0000,
        ;
        assert((pos.y + 1) * size <= 0x1_0000_0000 * 0x1_0000_0000) by (nonlinear_arith)
            requires
                pos.y + 1 <= 0x1_0000_0000,
                size <= 0x1_0000_0000,
        ;
        let nw = (pos.x as u128 + 1) * size;
        let nh = (pos.y as u128 + 1) * size;
        if nw > u32::MAX as u128 || nh > u32::MAX as u128 {
            return false;
        }
        let gw: u128 = if nw > bw { nw } else { bw };
        let gh: u128 = if nh > bh { nh } else { bh };
        assert(gw * gh <= 0x1_0000_0000 * 0x1_0000_0000) by (nonlinear_arith)
            requires
                gw <= 0x1_0000_0000,
                gh <= 0x1_0000_0000,
        ;
        assert(size * size <= 0x1_0000_0000 * 0x1_0000_0000) by (nonlinear_arith)
            requires
                size <= 0x1_0000_0000,
        ;
        if size * size > usize::MAX as u128 {
            return false;
        }
        gw * gh <= usize::MAX as u128
    }

    /// Writes `tile`, one cell in size, into the cell at `pos`, first making
    /// layer `pos.z` if it is the next one and growing it to hold the cell.
    pub fn insert(&mut self, pos: TilePos, tile: &Raster)
        requires
            old(self).insert_fits(pos, tile),
        ensures
            Self::inserted(old(self), final(self), pos, tile),
    {
        let size = self.size;
        let z = pos.z as usize;
        if z == self.layers.len() {
            self.add_layer();
            assert forall|i: int, j: int| #[trigger]
                self.layers@[z as int].in_bounds(i, j) implies grown_pixel(
                &self.layers@[z as int],
                i,
                j,
            ) == old(self).base_pixel(z as int, i, j) by {}
        }
        let ghost before = *self;
        let w = self.layers[z].width;
        let h = self.layers[z].height;
        assert(pos.x * size + size == (pos.x + 1) * size) by (nonlinear_arith);
        assert(pos.y * size + size == (pos.y + 1) * size) by (nonlinear_arith);
        assert(pos.x * size <= (pos.x + 1) * size) by (nonlinear_arith);
        assert(pos.y * size <= (pos.y + 1) * size) by (nonlinear_arith);
        let nw = pos.x * size + size;
        let nh = pos.y * size + size;
        if nw > w || nh > h {
            let gw = if nw > w { nw } else { w };
            let gh = if nh > h { nh } else { h };
            self.grow(gw, gh, pos.z);
        } else {
            assert forall|i: int, j: int| #[trigger]
                self.layers@[z as int].in_bounds(i, j) implies self.layers@[z as int].at(i, j)
                == grown_pixel(&before.layers@[z as int], i, j) by {}
        }
        let ghost grown_layer = self.layers@[z as int];
        let mut layer = Raster { width: 0, height: 0, pixels: Vec::new() };
        self.layers.set_and_swap(z, &mut layer);
        assert(layer == grown_layer);
        let x0: u32 = pos.x * size;
        let y0: u32 = pos.y * size;
        let mut yy: u32 = 0;
        while yy < size
            invariant
                yy <= size,
                tile.wf(),
                tile.width == size,
                tile.height == size,
                layer.wf(),
                layer.width == grown_layer.width,
                layer.height == grown_layer.height,
                x0 + size <= layer.width,
                y0 + size <= layer.height,
                forall|i: int, j: int| #[trigger]
                    layer.in_bounds(i, j) ==> layer.at(i, j) == if x0 <= i < x0 + size && y0 <= j
                        < y0 + yy {
                        tile.at(i - x0, j - y0)
                    } else {
                        grown_layer.at(i, j)
                    },
            decreases size - yy,
        {
            let mut xx: u32 = 0;
            while xx < size
                invariant
                    xx <= size,
                    yy < size,
                    tile.wf(),
                    tile.width == size,
                    tile.height == size,
                    layer.wf(),
                    layer.width == grown_layer.width,
                    layer.height == grown_layer.height,
                    x0 + size <= layer.width,
                    y0 + size <= layer.height,
                    forall|i: int, j: int| #[trigger]
                        layer.in_bounds(i, j) ==> layer.at(i, j) == if x0 <= i < x0 + size && (y0
                            <= j < y0 + yy || (j == y0 + yy && i < x0 + xx)) {
                            tile.at(i - x0, j - y0)
                        } else {
                            grown_layer.at(i, j)
                        },
                decreases size - xx,
            {
                let p = tile.get_pixel(xx, yy);
                let ghost prev = layer;
                layer.put_pixel(x0 + xx, y0 + yy, p);
                assert forall|i: int, j: int| #[trigger]
                    layer.in_bounds(i, j) implies layer.at(i, j) == if x0 <= i < x0 + size && (y0
                        <= j < y0 + yy || (j == y0 + yy && i < x0 + xx + 1)) {
                        tile.at(i - x0, j - y0)
                    } else {
                        grown_layer.at(i, j)
                    } by {
                    if i != x0 + xx || j != y0 + yy {
                        assert(prev.in_bounds(i, j));
                        assert(layer.at(i, j) == prev.at(i, j));
                    }
                }
                xx = xx + 1;
            }
            yy = yy + 1;
        }
        self.layers.set(z, layer);
        assert forall|i: int, j: int|
            z < old(self).layers@.len() && old(self).layers@[z as int].in_bounds(i, j)
                && !Self::in_cell(size as int, pos, i, j) implies self.layers@[z as int].at(i, j)
            == old(self).layers@[z as int].at(i, j) by {
            assert(self.layers@[z as int].in_bounds(i, j));
        }
    }
}

/// Growing a canvas keeps what it held: after an insertion into an existing
/// layer, every old pixel outside the new cell is unchanged at its offset.
pub proof fn lemma_insert_keeps_pixels(old: Sheet, new: Sheet, pos: TilePos, tile: Raster, i: int, j: int)
    requires
        Sheet::inserted(&old, &new, pos, &tile),
        pos.z < old.layers@.len(),
        old.layers@[pos.z as int].in_bounds(i, j),
        !Sheet::in_cell(old.size as int, pos, i, j),
    ensures
        new.layers@[pos.z as int].at(i, j) == old.layers@[pos.z as int].at(i, j),
{
}

} // verus!
