//! RGBA images as plain bytes, and the pixel operations that the tile
//! operations are made of.
use vstd::prelude::*;
use crate::tiler::error::TileError;

verus! {

/// One RGBA pixel, eight bits a channel.
#[derive(Clone, Copy, Debug, PartialEq, Eq, Structural)]
pub struct Pixel {
    pub r: u8,
    pub g: u8,
    pub b: u8,
    pub a: u8,
}

impl Pixel {
    /// The fully transparent pixel that fills a fresh canvas.
    pub open spec fn clear() -> Pixel {
        Pixel { r: 0, g: 0, b: 0, a: 0 }
    }

    /// A pixel is fully transparent when its alpha channel is zero.
    pub open spec fn is_transparent(self) -> bool {
        self.a == 0
    }
}

/// The fully transparent pixel.
pub fn clear_pixel() -> (p: Pixel)
    ensures
        p == Pixel::clear(),
{
    Pixel { r: 0, g: 0, b: 0, a: 0 }
}

/// Where pixel `(x, y)` stands in the row-major order of an image `width`
/// pixels wide.
pub open spec fn pixel_index(width: int, x: int, y: int) -> int {
    y * width + x
}

/// The most bytes one pixel buffer may hold.
pub open spec fn max_bytes() -> int {
    isize::MAX as int
}

/// A pixel inside a `width` by `height` image has its place among the
/// `width * height` pixels.
pub proof fn lemma_pixel_index_in_range(width: int, height: int, x: int, y: int)
    requires
        0 <= x < width,
        0 <= y < height,
    ensures
        0 <= pixel_index(width, x, y) < width * height,
{
    assert(0 <= y * width) by (nonlinear_arith)
        requires
            0 <= y,
            0 <= width,
    ;
    assert(y * width + width <= height * width) by (nonlinear_arith)
        requires
            y + 1 <= height,
            0 <= width,
    ;
    assert(height * width == width * height) by (nonlinear_arith);
}

/// Two pixels of one image that share their place are the same pixel.
pub proof fn lemma_pixel_index_injective(width: int, x1: int, y1: int, x2: int, y2: int)
    requires
        0 <= x1 < width,
        0 <= x2 < width,
        pixel_index(width, x1, y1) == pixel_index(width, x2, y2),
    ensures
        x1 == x2,
        y1 == y2,
{
    assert(y1 == y2) by (nonlinear_arith)
        requires
            0 <= x1 < width,
            0 <= x2 < width,
            y1 * width + x1 == y2 * width + x2,
    ;
    assert(y1 * width == y2 * width);
}

/// The bytes that a `width` by `height` image takes.
fn byte_count(width: u32, height: u32) -> (n: u128)
    ensures
        n == 4 * (width * height),
{
    assert(0 <= width * height <= 0xffff_ffff * 0xffff_ffff) by (nonlinear_arith)
        requires
            0 <= width <= 0xffff_ffff,
            0 <= height <= 0xffff_ffff,
    ;
    4 * (width as u128 * height as u128)
}

/// A rectangular RGBA image: `width * height` pixels in row-major order, four
/// bytes to a pixel.
#[derive(Clone, Debug, PartialEq, Eq)]
pub struct Raster {
    pub(crate) width: u32,
    pub(crate) height: u32,
    pub(crate) data: Vec<u8>,
}

impl Raster {
    /// The buffer holds exactly four bytes for each pixel. Every image that
    /// this library hands out is well formed.
    pub closed spec fn wf(&self) -> bool {
        self.data@.len() == 4 * (self.width * self.height)
    }

    pub closed spec fn spec_width(&self) -> u32 {
        self.width
    }

    pub closed spec fn spec_height(&self) -> u32 {
        self.height
    }

    /// The raw channel bytes, pixel after pixel, row after row.
    pub closed spec fn bytes(&self) -> Seq<u8> {
        self.data@
    }

    /// Whether `(x, y)` is a pixel of this image.
    pub open spec fn contains(&self, x: int, y: int) -> bool {
        0 <= x < self.spec_width() && 0 <= y < self.spec_height()
    }

    /// The pixel at column `x` of row `y`.
    pub open spec fn pixel(&self, x: int, y: int) -> Pixel {
        let i = 4 * pixel_index(self.spec_width() as int, x, y);
        Pixel {
            r: self.bytes()[i],
            g: self.bytes()[i + 1],
            b: self.bytes()[i + 2],
            a: self.bytes()[i + 3],
        }
    }

    /// The pixel at `(x, y)`, or the fully transparent pixel where the image
    /// has none there.
    pub open spec fn pixel_or_clear(&self, x: int, y: int) -> Pixel {
        if self.contains(x, y) {
            self.pixel(x, y)
        } else {
            Pixel::clear()
        }
    }

    /// Whether every pixel of the image is fully transparent.
    pub open spec fn all_transparent(&self) -> bool {
        forall|x: int, y: int| self.contains(x, y) ==> (#[trigger] self.pixel(x, y)).is_transparent()
    }

    /// A canvas of the given size with every pixel fully transparent, or
    /// `Capacity` where its buffer would be larger than an allocation may be.
    pub fn new(width: u32, height: u32) -> (r: Result<Raster, TileError>)
        ensures
            4 * (width * height) > max_bytes() <==> r is Err,
            r is Err ==> r == Err::<Raster, TileError>(TileError::Capacity),
            r matches Ok(canvas) ==> {
                &&& canvas.wf()
                &&& canvas.spec_width() == width
                &&& canvas.spec_height() == height
                &&& forall|x: int, y: int|
                    canvas.contains(x, y) ==> #[trigger] canvas.pixel(x, y) == Pixel::clear()
            },
    {
        let wanted: u128 = byte_count(width, height);
        if wanted > isize::MAX as u128 {
            return Err(TileError::Capacity);
        }
        let data: Vec<u8> = vec![0u8; wanted as usize];
        let canvas = Raster { width, height, data };
        proof {
            assert forall|x: int, y: int| canvas.contains(x, y) implies #[trigger] canvas.pixel(
                x,
                y,
            ) == Pixel::clear() by {
                lemma_pixel_index_in_range(width as int, height as int, x, y);
            }
        }
        Ok(canvas)
    }

    /// An image over a given buffer of channel bytes, where the buffer holds
    /// exactly four bytes for each of the `width * height` pixels.
    pub fn from_raw(width: u32, height: u32, data: Vec<u8>) -> (r: Option<Raster>)
        ensures
            r is Some <==> data@.len() == 4 * (width * height),
            r matches Some(image) ==> {
                &&& image.wf()
                &&& image.spec_width() == width
                &&& image.spec_height() == height
                &&& image.bytes() == data@
            },
    {
        let wanted: u128 = byte_count(width, height);
        if data.len() as u128 == wanted {
            Some(Raster { width, height, data })
        } else {
            None
        }
    }

    /// The channel bytes of the image, pixel after pixel, row after row.
    pub fn into_raw(self) -> (data: Vec<u8>)
        requires
            self.wf(),
        ensures
            data@ == self.bytes(),
            data@.len() == 4 * (self.spec_width() * self.spec_height()),
    {
        self.data
    }

    #[verifier::when_used_as_spec(spec_width)]
    pub fn width(&self) -> (w: u32)
        ensures
            w == self.spec_width(),
    {
        self.width
    }

    #[verifier::when_used_as_spec(spec_height)]
    pub fn height(&self) -> (h: u32)
        ensures
            h == self.spec_height(),
    {
        self.height
    }

    /// Where the four bytes of pixel `(x, y)` start.
    fn offset_of(&self, x: u32, y: u32) -> (i: usize)
        requires
            self.wf(),
            self.contains(x as int, y as int),
        ensures
            i == 4 * pixel_index(self.spec_width() as int, x as int, y as int),
            i + 3 < self.bytes().len(),
            self.bytes().len() == 4 * (self.spec_width() * self.spec_height()),
    {
        proof {
            lemma_pixel_index_in_range(self.width as int, self.height as int, x as int, y as int);
            assert(0 <= y * self.width) by (nonlinear_arith)
                requires
                    0 <= y,
                    0 <= self.width,
            ;
            assert(0 <= self.width * self.height) by (nonlinear_arith)
                requires
                    0 <= self.width,
                    0 <= self.height,
            ;
        }
        assert(self.data.len() == self.data@.len());
        let at: usize = y as usize * self.width as usize + x as usize;
        4 * at
    }

    /// The pixel at column `x` of row `y`.
    pub fn get_pixel(&self, x: u32, y: u32) -> (p: Pixel)
        requires
            self.wf(),
            self.contains(x as int, y as int),
        ensures
            p == self.pixel(x as int, y as int),
    {
        let i = self.offset_of(x, y);
        Pixel { r: self.data[i], g: self.data[i + 1], b: self.data[i + 2], a: self.data[i + 3] }
    }

    /// Sets the pixel at column `x` of row `y` and leaves every other pixel
    /// as it was.
    pub fn put_pixel(&mut self, x: u32, y: u32, p: Pixel)
        requires
            old(self).wf(),
            old(self).contains(x as int, y as int),
        ensures
            final(self).wf(),
            final(self).spec_width() == old(self).spec_width(),
            final(self).spec_height() == old(self).spec_height(),
            final(self).pixel(x as int, y as int) == p,
            forall|u: int, v: int|
                old(self).contains(u, v) && (u != x || v != y) ==> #[trigger] final(self).pixel(u, v)
                    == old(self).pixel(u, v),
    {
        let i = self.offset_of(x, y);
        self.data.set(i, p.r);
        self.data.set(i + 1, p.g);
        self.data.set(i + 2, p.b);
        self.data.set(i + 3, p.a);
        proof {
            let w = self.width as int;
            assert forall|u: int, v: int| old(self).contains(u, v) && (u != x || v != y) implies #[trigger] self.pixel(
                u,
                v,
            ) == old(self).pixel(u, v) by {
                lemma_pixel_index_in_range(w, self.height as int, u, v);
                if pixel_index(w, u, v) == pixel_index(w, x as int, y as int) {
                    lemma_pixel_index_injective(w, u, v, x as int, y as int);
                }
            }
        }
    }

    /// Whether `(x, y)` lies in the block of `width` by `height` pixels whose
    /// top left corner is `(left, top)`.
    pub open spec fn in_block(left: int, top: int, width: int, height: int, x: int, y: int) -> bool {
        left <= x < left + width && top <= y < top + height
    }

    /// Copies the whole of `tile` onto this canvas, its top left corner at
    /// `(left, top)`, and leaves the pixels around the block as they were.
    pub fn draw(&mut self, tile: &Raster, left: u32, top: u32)
        requires
            old(self).wf(),
            tile.wf(),
            left + tile.spec_width() <= old(self).spec_width(),
            top + tile.spec_height() <= old(self).spec_height(),
        ensures
            final(self).wf(),
            final(self).spec_width() == old(self).spec_width(),
            final(self).spec_height() == old(self).spec_height(),
            forall|x: int, y: int|
                old(self).contains(x, y) ==> #[trigger] final(self).pixel(x, y) == (if Self::in_block(
                    left as int,
                    top as int,
                    tile.spec_width() as int,
                    tile.spec_height() as int,
                    x,
                    y,
                ) {
                    tile.pixel(x - left, y - top)
                } else {
                    old(self).pixel(x, y)
                }),
    {
        let tile_width = tile.width();
        let tile_height = tile.height();
        let mut ty: u32 = 0;
        while ty < tile_height
            invariant
                self.wf(),
                tile.wf(),
                tile_width == tile.spec_width(),
                tile_height == tile.spec_height(),
                self.spec_width() == old(self).spec_width(),
                self.spec_height() == old(self).spec_height(),
                left + tile_width <= self.spec_width(),
                top + tile_height <= self.spec_height(),
                ty <= tile_height,
                forall|x: int, y: int|
                    old(self).contains(x, y) ==> #[trigger] self.pixel(x, y) == (if Self::in_block(
                        left as int,
                        top as int,
                        tile_width as int,
                        ty as int,
                        x,
                        y,
                    ) {
                        tile.pixel(x - left, y - top)
                    } else {
                        old(self).pixel(x, y)
                    }),
            decreases tile_height - ty,
        {
            let mut tx: u32 = 0;
            while tx < tile_width
                invariant
                    self.wf(),
                    tile.wf(),
                    tile_width == tile.spec_width(),
                    tile_height == tile.spec_height(),
                    self.spec_width() == old(self).spec_width(),
                    self.spec_height() == old(self).spec_height(),
                    left + tile_width <= self.spec_width(),
                    top + tile_height <= self.spec_height(),
                    ty < tile_height,
                    tx <= tile_width,
                    forall|x: int, y: int|
                        old(self).contains(x, y) ==> #[trigger] self.pixel(x, y) == (if Self::in_block(
                            left as int,
                            top as int,
                            tile_width as int,
                            ty as int,
                            x,
                            y,
                        ) || Self::in_block(left as int, top + ty, tx as int, 1, x, y) {
                            tile.pixel(x - left, y - top)
                        } else {
                            old(self).pixel(x, y)
                        }),
                decreases tile_width - tx,
            {
                let p = tile.get_pixel(tx, ty);
                self.put_pixel(left + tx, top + ty, p);
                tx += 1;
            }
            ty += 1;
        }
    }

    /// Whether every pixel of the image is fully transparent.
    pub fn is_transparent(&self) -> (b: bool)
        requires
            self.wf(),
        ensures
            b == self.all_transparent(),
    {
        let mut y: u32 = 0;
        while y < self.height
            invariant
                self.wf(),
                y <= self.spec_height(),
                forall|u: int, v: int|
                    self.contains(u, v) && v < y ==> (#[trigger] self.pixel(u, v)).is_transparent(),
            decreases self.spec_height() - y,
        {
            let mut x: u32 = 0;
            while x < self.width
                invariant
                    self.wf(),
                    y < self.spec_height(),
                    x <= self.spec_width(),
                    forall|u: int, v: int|
                        self.contains(u, v) && (v < y || (v == y && u < x)) ==> (
                        #[trigger] self.pixel(u, v)).is_transparent(),
                decreases self.spec_width() - x,
            {
                let p = self.get_pixel(x, y);
                if p.a != 0 {
                    assert(self.contains(x as int, y as int));
                    return false;
                }
                x += 1;
            }
            y += 1;
        }
        true
    }
}

} // verus!
