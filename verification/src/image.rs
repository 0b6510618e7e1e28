//! image data and display options

use vstd::prelude::*;

use crate::color::Color;
use crate::geometry::{PhysicalRect, PhysicalSize};

verus! {

/// the bytes of an image, borrowed for the program's lifetime or owned
#[derive(Debug, PartialEq)]
pub enum ImagePixels {
    Static(&'static [u8]),
    Owned(Box<[u8]>),
}

impl ImagePixels {
    /// the bytes, whichever way they are held
    pub open spec fn byte_view(&self) -> Seq<u8> {
        match self {
            ImagePixels::Static(bytes) => bytes@,
            ImagePixels::Owned(bytes) => bytes@,
        }
    }

    pub fn bytes(&self) -> (bytes: &[u8])
        ensures
            bytes@ == self.byte_view(),
    {
        match self {
            ImagePixels::Static(bytes) => bytes,
            ImagePixels::Owned(bytes) => bytes,
        }
    }
}

/// how the bytes of a pixel are laid out
#[derive(Clone, Copy, Debug, PartialEq, Eq)]
pub enum ImageFormat {
    Rgb8,
    Luma8,
    Rgba8,
    Rgba8Premultiplied,
    Alpha8(Color),
}

impl ImageFormat {
    pub open spec fn pixel_bytes(self) -> nat {
        match self {
            ImageFormat::Rgb8 => 3,
            ImageFormat::Rgba8 | ImageFormat::Rgba8Premultiplied => 4,
            ImageFormat::Luma8 | ImageFormat::Alpha8(_) => 1,
        }
    }

    pub fn bytes_per_pixel(self) -> (bytes: usize)
        ensures
            bytes == self.pixel_bytes(),
            self is Rgba8 || self is Rgba8Premultiplied ==> bytes == 4,
            self is Rgb8 ==> bytes == 3,
            self is Luma8 || self is Alpha8 ==> bytes == 1,
    {
        match self {
            ImageFormat::Rgb8 => 3,
            ImageFormat::Rgba8 | ImageFormat::Rgba8Premultiplied => 4,
            ImageFormat::Luma8 | ImageFormat::Alpha8(_) => 1,
        }
    }
}

/// a pixel takes one byte per channel: four for red, green, blue and alpha,
/// three for red, green and blue, and one for a single luminance or alpha
/// channel; so a tightly packed row of `width` pixels takes that many bytes
/// `width` times
pub proof fn law_pixel_takes_a_byte_per_channel(format: ImageFormat, width: nat)
    ensures
        format is Rgba8 || format is Rgba8Premultiplied ==> format.pixel_bytes() == 4,
        format is Rgb8 ==> format.pixel_bytes() == 3,
        format is Luma8 || format is Alpha8 ==> format.pixel_bytes() == 1,
        format is Rgba8 || format is Rgba8Premultiplied ==> width * format.pixel_bytes() == 4 * width,
        format is Rgb8 ==> width * format.pixel_bytes() == 3 * width,
{
    if format is Rgba8 || format is Rgba8Premultiplied {
        assert(format.pixel_bytes() == 4);
        assert(width * 4 == 4 * width);
    } else if format is Rgb8 {
        assert(format.pixel_bytes() == 3);
        assert(width * 3 == 3 * width);
    }
}

/// pixels with their size, the rectangle used as texture and the row stride
#[derive(Debug, PartialEq)]
pub struct ImageData {
    pub pixels: ImagePixels,
    pub size: PhysicalSize,
    pub texture_rect: PhysicalRect,
    pub stride_bytes: usize,
    pub format: ImageFormat,
}

impl ImageData {
    /// the bytes of one texture row
    pub open spec fn row_bytes(&self) -> int {
        self.texture_rect.width * self.format.pixel_bytes()
    }

    /// the bytes from the first texture row to the end of the last
    pub open spec fn needed_bytes(&self) -> int {
        (self.texture_rect.height - 1) * self.stride_bytes + self.row_bytes()
    }

    /// the texture lies inside the image and its rows lie inside the pixel bytes
    pub open spec fn valid(&self) -> bool {
        &&& self.size.width > 0
        &&& self.size.height > 0
        &&& self.texture_rect.x >= 0
        &&& self.texture_rect.y >= 0
        &&& self.texture_rect.width > 0
        &&& self.texture_rect.height > 0
        &&& self.texture_rect.right() <= self.size.width
        &&& self.texture_rect.bottom() <= self.size.height
        &&& self.row_bytes() <= usize::MAX
        &&& self.stride_bytes >= self.row_bytes()
        &&& self.needed_bytes() <= usize::MAX
        &&& self.needed_bytes() <= self.pixels.byte_view().len()
    }

    /// an image whose texture is all of its `width` by `height` pixels, with
    /// tightly packed rows
    pub fn new(pixels: ImagePixels, format: ImageFormat, width: usize, height: usize) -> (image: Self)
        requires
            0 < width <= i32::MAX,
            0 < height <= i32::MAX,
            width * format.pixel_bytes() <= usize::MAX,
            (height - 1) * (width * format.pixel_bytes()) + width * format.pixel_bytes() <= pixels.byte_view().len(),
        ensures
            image.valid(),
            image.pixels == pixels,
            image.format == format,
            image.size == (PhysicalSize { width: width as i32, height: height as i32 }),
            image.texture_rect == (PhysicalRect { x: 0, y: 0, width: width as i32, height: height as i32 }),
            image.stride_bytes == width * format.pixel_bytes(),
            format is Rgba8 || format is Rgba8Premultiplied ==> image.stride_bytes == 4 * width,
            format is Rgb8 ==> image.stride_bytes == 3 * width,
            format is Luma8 || format is Alpha8 ==> image.stride_bytes == width,
    {
        let available = pixels.bytes().len();
        let width = width as i32;
        let height = height as i32;
        let stride_bytes = (width as usize) * format.bytes_per_pixel();
        let image = ImageData {
            pixels,
            size: PhysicalSize { width, height },
            texture_rect: PhysicalRect { x: 0, y: 0, width, height },
            stride_bytes,
            format,
        };
        proof {
            assert(image.needed_bytes() <= available);
        }
        image.validate();
        image
    }

    /// whether the texture lies inside the image and its rows inside the pixel bytes
    pub fn is_valid(&self) -> (valid: bool)
        ensures
            valid == self.valid(),
    {
        let available = self.pixels.bytes().len();
        if self.size.width <= 0 || self.size.height <= 0 {
            return false;
        }
        if self.texture_rect.x < 0 || self.texture_rect.y < 0 {
            return false;
        }
        if self.texture_rect.width <= 0 || self.texture_rect.height <= 0 {
            return false;
        }
        if (self.texture_rect.x as i64) + (self.texture_rect.width as i64) > self.size.width as i64 {
            return false;
        }
        if (self.texture_rect.y as i64) + (self.texture_rect.height as i64) > self.size.height as i64 {
            return false;
        }
        let row_bytes = match (self.texture_rect.width as usize).checked_mul(self.format.bytes_per_pixel()) {
            Some(row_bytes) => row_bytes,
            None => return false,
        };
        if self.stride_bytes < row_bytes {
            return false;
        }
        let offset = match (self.texture_rect.height as usize - 1).checked_mul(self.stride_bytes) {
            Some(offset) => offset,
            None => {
                proof {
                    assert((self.texture_rect.height - 1) * self.stride_bytes <= self.needed_bytes()) by (nonlinear_arith)
                        requires
                            self.row_bytes() >= 0,
                            self.needed_bytes() == (self.texture_rect.height - 1) * self.stride_bytes + self.row_bytes(),
                    ;
                }
                return false;
            },
        };
        let len = match offset.checked_add(row_bytes) {
            Some(len) => len,
            None => return false,
        };
        len <= available
    }

    /// checks the invariants of a valid image
    pub fn validate(&self)
        requires
            self.valid(),
    {
        let valid = self.is_valid();
        assert(valid);
    }
}

/// insets in source pixels that stay unscaled when an image is stretched
#[derive(Clone, Copy, Debug, Default, PartialEq, Eq, Structural)]
pub struct NineSlice {
    pub top: u16,
    pub right: u16,
    pub bottom: u16,
    pub left: u16,
}

impl NineSlice {
    pub fn uniform(value: u16) -> (slice: Self)
        ensures
            slice == (NineSlice { top: value, right: value, bottom: value, left: value }),
    {
        NineSlice { top: value, right: value, bottom: value, left: value }
    }
}

#[derive(Clone, Copy, Debug, Default, PartialEq, Eq, Structural)]
pub enum ImageFit {
    #[default]
    Fill,
    Contain,
    Cover,
}

#[derive(Clone, Copy, Debug, Default, PartialEq, Eq, Structural)]
pub enum ImageSampling {
    #[default]
    Nearest,
    Bilinear,
}

#[derive(Clone, Copy, Debug, Default, PartialEq, Eq, Structural)]
pub enum ImageTiling {
    #[default]
    Off,
    Repeat,
    Round,
}

#[derive(Clone, Copy, Debug, PartialEq, Eq, Hash, Structural)]
pub struct ImageId(pub u64);

} // verus!
