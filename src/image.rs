//! Decoded images: pixels in rows, with their size.
use vstd::prelude::*;

verus! {

/// An RGBA pixel with 8 bits per channel, packed in one word.
pub type Rgba8 = u32;

/// An alpha-only pixel.
pub type A8 = u8;

pub enum ImageData {
    RGBA8(Vec<Rgba8>),
    A8(Vec<A8>),
}

impl ImageData {
    /// The number of pixels.
    pub open spec fn spec_len(&self) -> nat {
        match self {
            ImageData::RGBA8(v) => v@.len(),
            ImageData::A8(v) => v@.len(),
        }
    }
}

pub struct Image {
    data: ImageData,
    width: usize,
    height: usize,
}

impl Image {
    pub closed spec fn spec_width(&self) -> usize {
        self.width
    }

    pub closed spec fn spec_height(&self) -> usize {
        self.height
    }

    pub closed spec fn spec_data(&self) -> &ImageData {
        &self.data
    }

    /// An image of `width * height` pixels, row after row; `None` when the
    /// pixel count does not match the size.
    pub fn new(data: ImageData, width: usize, height: usize) -> (r: Option<Image>)
        ensures
            r is Some <==> data.spec_len() == width * height,
            r matches Some(i) ==> i.spec_width() == width && i.spec_height() == height && *i.spec_data() == data,
    {
        let len = match &data {
            ImageData::RGBA8(v) => v.len(),
            ImageData::A8(v) => v.len(),
        };
        assert((width as u128) * (height as u128) <= u64::MAX as u128 * u64::MAX as u128) by (nonlinear_arith)
            requires
                width <= u64::MAX,
                height <= u64::MAX,
        ;
        if (width as u128) * (height as u128) == len as u128 {
            Some(Image { data, width, height })
        } else {
            None
        }
    }

    pub fn width(&self) -> (r: usize)
        ensures
            r == self.spec_width(),
    {
        self.width
    }

    pub fn height(&self) -> (r: usize)
        ensures
            r == self.spec_height(),
    {
        self.height
    }

    pub fn data(&self) -> (r: &ImageData)
        ensures
            r == self.spec_data(),
    {
        &self.data
    }
}

} // verus!
