//! The pixels of a frame.

use vstd::prelude::*;
use tiny_skia::Pixmap;
use crate::video::scene::Scene;

verus! {

/// `tiny_skia::Pixmap`: a buffer of premultiplied RGBA pixels, row by row.
#[verifier::external_type_specification]
#[verifier::external_body]
pub struct ExPixmap(tiny_skia::Pixmap);

/// The bytes of a pixmap.
pub uninterp spec fn pixmap_data(pixmap: Pixmap) -> Seq<u8>;

/// The width and the height of a pixmap, in pixels.
pub uninterp spec fn pixmap_sides(pixmap: Pixmap) -> (u32, u32);

/// Sizes that a pixmap can have: neither side is 0, a row's bytes fit in 31 bits, and all bytes
/// can be addressed.
pub open spec fn pixmap_size_ok(width: int, height: int) -> bool {
    0 < width && 4 * width <= 0x7fff_ffff && 0 < height && 4 * width * height <= usize::MAX
}

/// `tiny_skia::Pixmap::new`: allocates a pixmap of the given width and height, all transparent
/// black, with four zero bytes for each pixel; `None` for a size that it cannot have. Sizes of more bytes than an allocation may
/// have are left out: there it panics.
pub assume_specification [Pixmap::new] (width: u32, height: u32) -> (pixmap: Option<Pixmap>)
    requires
        pixmap_size_ok(width as int, height as int) ==> 4 * width * height <= isize::MAX,
    ensures
        pixmap is Some <==> pixmap_size_ok(width as int, height as int),
        pixmap is Some ==> pixmap_sides(pixmap->0) == (width, height),
        pixmap is Some ==> pixmap_data(pixmap->0) == Seq::new(
            (4 * width * height) as nat,
            |i: int| 0u8,
        ),
;

/// `tiny_skia::Pixmap::take`: gives up the pixmap's bytes.
pub assume_specification [Pixmap::take] (pixmap: Pixmap) -> (data: Vec<u8>)
    ensures
        data@ == pixmap_data(pixmap),
;

impl Scene {
    /// Sizes for which frames can be drawn.
    pub open spec fn drawable(&self) -> bool {
        pixmap_size_ok(self.width as int, self.height as int) && 4 * self.width * self.height
            <= isize::MAX
    }

    /// An empty frame of the scene's size: every pixel transparent black.
    pub fn begin_frame(&self) -> (pixmap: Option<Pixmap>)
        requires
            pixmap_size_ok(self.width as int, self.height as int) ==> 4 * self.width * self.height
                <= isize::MAX,
        ensures
            pixmap is Some <==> self.drawable(),
            pixmap is Some ==> pixmap_sides(pixmap->0) == (self.width, self.height),
            pixmap is Some ==> pixmap_data(pixmap->0) == Seq::new(
                (4 * self.width * self.height) as nat,
                |i: int| 0u8,
            ),
    {
        Pixmap::new(self.width, self.height)
    }
}

/// The bytes of a finished frame, as they go to the encoder.
pub fn finish_frame(pixmap: Pixmap) -> (data: Vec<u8>)
    ensures
        data@ == pixmap_data(pixmap),
{
    pixmap.take()
}

/// A frame can be drawn if it has an area, its rows are not too long, and it fits into memory.
pub proof fn law_drawable_frames_fit(scene: &Scene)
    ensures
        scene.drawable() <==> scene.width > 0 && scene.height > 0 && scene.width <= 536870911 && 4
            * scene.width * scene.height <= isize::MAX,
{
}

} // verus!
