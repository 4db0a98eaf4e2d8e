//! A decoded image: a grid of pixels of four eight-bit channels each.

use vstd::prelude::*;

verus! {

/// What a decoded image is: its two dimensions and its samples, row by row,
/// the four channels of a pixel next to one another.
pub struct Raster {
    pub width: u32,
    pub height: u32,
    pub samples: Seq<u8>,
}

/// The samples are those of a `width` by `height` grid of four-channel
/// pixels, and a row of the image is short enough for the buffers that
/// resampling allocates for it (a limit that only a 32-bit machine can reach).
pub open spec fn valid_raster(width: u32, height: u32, samples: Seq<u8>) -> bool {
    &&& samples.len() == 4 * width * height
    &&& 128 * width <= isize::MAX
}

/// A decoded image. Its pixels have four channels of eight bits: an image of
/// another depth or layout is brought to this form before it is handed over.
pub struct DecodedImage {
    width: u32,
    height: u32,
    samples: Vec<u8>,
}

impl View for DecodedImage {
    type V = Raster;

    closed spec fn view(&self) -> Raster {
        Raster { width: self.width, height: self.height, samples: self.samples@ }
    }
}

impl DecodedImage {
    #[verifier::type_invariant]
    spec fn well_formed(self) -> bool {
        valid_raster(self.width, self.height, self.samples@)
    }

    /// Makes an image of the given dimensions from its samples, or nothing
    /// where the samples are not those of such an image.
    pub fn new(width: u32, height: u32, samples: Vec<u8>) -> (image: Option<DecodedImage>)
        ensures
            image is Some <==> valid_raster(width, height, samples@),
            image matches Some(made) ==> made@ == (Raster { width, height, samples: samples@ }),
    {
        assert((width as u128) * (height as u128) <= 0xFFFF_FFFF * 0xFFFF_FFFF)
            by (nonlinear_arith);
        assert(4 * width * height == 4 * ((width as u128) * (height as u128)))
            by (nonlinear_arith);
        let pixels: u128 = (width as u128) * (height as u128);
        let row_fits: bool = 128 * (width as u128) <= isize::MAX as u128;
        if samples.len() as u128 == 4 * pixels && row_fits {
            Some(DecodedImage { width, height, samples })
        } else {
            None
        }
    }

    /// Width in pixels.
    pub fn width(&self) -> (width: u32)
        ensures
            width == self@.width,
    {
        self.width
    }

    /// Height in pixels.
    pub fn height(&self) -> (height: u32)
        ensures
            height == self@.height,
    {
        self.height
    }

    /// The samples, which are always those of an image of this width and
    /// height.
    pub fn samples(&self) -> (samples: &Vec<u8>)
        ensures
            samples@ == self@.samples,
            valid_raster(self@.width, self@.height, samples@),
    {
        proof {
            use_type_invariant(self);
        }
        &self.samples
    }
}

} // verus!
