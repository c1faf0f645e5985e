//! The plain data of a scene description.

use vstd::prelude::*;

verus! {

/// The size of the picture and the effort spent on each pixel.
#[derive(Clone, Copy, Debug)]
pub struct Image {
    pub height: u32,
    pub samples_per_pixel: u32,
    pub max_depth: u32,
}

impl Image {
    /// The number of pixels of the picture at the given width, where that
    /// number fits in 32 bits.
    pub fn pixels(&self, image_width: u32) -> (count: Option<u32>)
        ensures
            count is Some <==> self.height * image_width <= u32::MAX,
            count is Some ==> count->0 == self.height * image_width,
    {
        self.height.checked_mul(image_width)
    }
}

} // verus!
