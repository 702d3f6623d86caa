//! Texel lookup in a decoded raster image.
use vstd::prelude::*;

verus! {

/// A decoded RGB raster: rows from the top, three bytes per pixel.
#[verifier::external_body]
pub struct Raster {
    img: image::RgbImage,
}

/// The width in pixels of a raster.
pub uninterp spec fn raster_width(r: Raster) -> nat;

/// The height in pixels of a raster.
pub uninterp spec fn raster_height(r: Raster) -> nat;

/// The bytes of a raster, row after row, three per pixel.
pub uninterp spec fn raster_bytes(r: Raster) -> Seq<u8>;

/// The three channels of pixel `(x, y)` of a raster.
pub open spec fn pixel_spec(r: Raster, x: nat, y: nat) -> Seq<u8> {
    let i = 3 * (y * raster_width(r) + x);
    raster_bytes(r).subrange(i as int, i + 3int)
}

impl Raster {
    /// A raster of `width` by `height` pixels over `data`; `None` when `data`
    /// holds fewer than three bytes per pixel.
    ///
    /// Relies on image's `ImageBuffer::from_raw`, which keeps the buffer as it
    /// is and fails only when it is shorter than the image needs.
    #[verifier::external_body]
    fn from_raw(width: u32, height: u32, data: Vec<u8>) -> (r: Option<Raster>)
        ensures
            r is Some <==> 3 * width * height <= data.len(),
            r matches Some(img) ==> raster_width(img) == width && raster_height(img) == height
                && raster_bytes(img) == data@,
    {
        match image::RgbImage::from_raw(width, height, data) {
            Some(img) => Some(Raster { img }),
            None => None,
        }
    }

    /// Relies on image's `ImageBuffer::width`, which returns the width given
    /// at construction.
    #[verifier::external_body]
    fn width(&self) -> (r: u32)
        ensures
            r == raster_width(*self),
    {
        self.img.width()
    }

    /// Relies on image's `ImageBuffer::height`, which returns the height given
    /// at construction.
    #[verifier::external_body]
    fn height(&self) -> (r: u32)
        ensures
            r == raster_height(*self),
    {
        self.img.height()
    }

    /// Relies on image's `ImageBuffer::get_pixel`, which panics only outside
    /// the raster and otherwise reads the pixel's three bytes at
    /// `3 * (y * width + x)`.
    #[verifier::external_body]
    fn pixel(&self, x: u32, y: u32) -> (r: [u8; 3])
        requires
            x < raster_width(*self),
            y < raster_height(*self),
        ensures
            r@ == pixel_spec(*self, x as nat, y as nat),
    {
        self.img.get_pixel(x, y).0
    }
}

/// The column (or row) that a lookup at `x` reads in a raster `n` pixels wide
/// (or high): `x` itself, or the last one.
pub open spec fn clamp_index(x: nat, n: nat) -> nat {
    if x < n {
        x
    } else {
        (n - 1) as nat
    }
}

/// A texture that looks colours up in a raster image.
pub struct ImageTexture {
    pub data: Raster,
}

impl ImageTexture {
    /// A texture over a raster of `width` by `height` pixels whose bytes are
    /// `data`, row after row from the top, three per pixel; `None` when `data`
    /// is too short for that.
    pub fn from_raw(width: u32, height: u32, data: Vec<u8>) -> (r: Option<ImageTexture>)
        ensures
            r is Some <==> 3 * width * height <= data.len(),
            r matches Some(t) ==> raster_width(t.data) == width && raster_height(t.data) == height
                && raster_bytes(t.data) == data@,
    {
        match Raster::from_raw(width, height, data) {
            Some(data) => Some(ImageTexture { data }),
            None => None,
        }
    }

    pub fn width(&self) -> (r: u32)
        ensures
            r == raster_width(self.data),
    {
        self.data.width()
    }

    pub fn height(&self) -> (r: u32)
        ensures
            r == raster_height(self.data),
    {
        self.data.height()
    }

    /// The pixel at column `x` and row `y`, each clamped to the last one of
    /// the raster; `None` for a raster without pixels.
    pub fn texel(&self, x: u32, y: u32) -> (r: Option<[u8; 3]>)
        ensures
            r is None <==> raster_width(self.data) == 0 || raster_height(self.data) == 0,
            r matches Some(c) ==> c@ == pixel_spec(
                self.data,
                clamp_index(x as nat, raster_width(self.data)),
                clamp_index(y as nat, raster_height(self.data)),
            ),
    {
        let w = self.data.width();
        let h = self.data.height();
        if w == 0 || h == 0 {
            return None;
        }
        let cx = if x < w { x } else { w - 1 };
        let cy = if y < h { y } else { h - 1 };
        Some(self.data.pixel(cx, cy))
    }
}

} // verus!
