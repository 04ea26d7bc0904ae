//! Pixel buffers: decoding, resizing and the choice of colour channels.
//!
//! A buffer holds 8-bit samples row by row, the channels of a pixel side by
//! side. Turning samples into floating-point intensities is left to the
//! caller; [`Normalization`] names the transform to apply.

use crate::text::{bytes_equal, bytes_of};
use vstd::prelude::*;

verus! {

/// The channels that an image is delivered with.
#[derive(Clone, Copy, Debug, PartialEq, Eq, Structural)]
pub enum ColorMode {
    /// Three channels: red, green, blue.
    Rgb,
    /// One intensity channel.
    Grayscale,
}

/// The affine transform from a sample `x` to an intensity.
#[derive(Clone, Copy, Debug, PartialEq, Eq, Structural)]
pub enum Normalization {
    /// `x / 255`, into `[0, 1]`.
    UnitInterval,
    /// `x / 127.5 - 1`, into `[-1, 1]`.
    SignedUnit,
}

/// The number of channels of a colour mode.
pub open spec fn channel_count(mode: ColorMode) -> nat {
    match mode {
        ColorMode::Rgb => 3,
        ColorMode::Grayscale => 1,
    }
}

/// The bytes of `rgb`.
pub open spec fn rgb_name() -> Seq<u8> {
    seq![114u8, 103u8, 98u8]
}

/// The bytes of `grayscale`.
pub open spec fn grayscale_name() -> Seq<u8> {
    seq![103u8, 114u8, 97u8, 121u8, 115u8, 99u8, 97u8, 108u8, 101u8]
}

/// The colour mode that a name stands for.
pub open spec fn color_mode_named(name: Seq<u8>) -> Option<ColorMode> {
    if name == rgb_name() {
        Some(ColorMode::Rgb)
    } else if name == grayscale_name() {
        Some(ColorMode::Grayscale)
    } else {
        None
    }
}

/// What a [`PixelBuffer`] holds.
pub struct PixelBufferView {
    pub width: u32,
    pub height: u32,
    pub color_mode: ColorMode,
    pub data: Seq<u8>,
}

/// The buffer holds one sample for each channel of each pixel.
pub open spec fn well_shaped(v: PixelBufferView) -> bool {
    v.data.len() == v.width * v.height * channel_count(v.color_mode)
}

/// The longest side of an image that is resized, before and after. The
/// resampling places its samples in 32-bit floating point, which holds every
/// position up to this side exactly.
pub const MAX_SIDE: u32 = 65_535;

/// An RGB image of this size can be resized to `new_width` by `new_height`:
/// it has pixels, no side before or after exceeds [`MAX_SIDE`], and neither
/// the result nor the intermediate image of four 32-bit channels, `width` by
/// `new_height`, exceeds what can be allocated.
pub open spec fn resizable(v: PixelBufferView, new_width: u32, new_height: u32) -> bool {
    &&& v.color_mode == ColorMode::Rgb
    &&& 1 <= v.width <= MAX_SIDE
    &&& 1 <= v.height <= MAX_SIDE
    &&& new_width <= MAX_SIDE
    &&& new_height <= MAX_SIDE
    &&& 16 * v.width * new_height <= isize::MAX
    &&& 3 * new_width * new_height <= isize::MAX
}

/// The first channel of each pixel of an RGB buffer.
pub open spec fn first_channels(data: Seq<u8>) -> Seq<u8> {
    Seq::new(data.len() / 3, |i: int| data[3 * i])
}

/// Each sample of a one-channel buffer three times.
pub open spec fn tripled(data: Seq<u8>) -> Seq<u8> {
    Seq::new(data.len() * 3, |i: int| data[i / 3])
}

/// The samples of `v` in the colour mode `mode`: of an RGB buffer the first
/// channel stands for the intensity, and an intensity fills all three
/// channels of an RGB pixel.
pub open spec fn converted_data(v: PixelBufferView, mode: ColorMode) -> Seq<u8> {
    if v.color_mode == mode {
        v.data
    } else if mode == ColorMode::Grayscale {
        first_channels(v.data)
    } else {
        tripled(v.data)
    }
}

/// An image as 8-bit samples, `width * height * channels` of them.
#[derive(Debug, PartialEq, Eq)]
pub struct PixelBuffer {
    width: u32,
    height: u32,
    color_mode: ColorMode,
    data: Vec<u8>,
}

impl View for PixelBuffer {
    type V = PixelBufferView;

    closed spec fn view(&self) -> PixelBufferView {
        PixelBufferView {
            width: self.width,
            height: self.height,
            color_mode: self.color_mode,
            data: self.data@,
        }
    }
}

impl ColorMode {
    /// The number of channels.
    pub fn channels(self) -> (n: usize)
        ensures
            n == channel_count(self),
    {
        match self {
            ColorMode::Rgb => 3,
            ColorMode::Grayscale => 1,
        }
    }
}

/// Reads a colour mode from its name, `rgb` or `grayscale`.
pub fn parse_color_mode(name: &String) -> (mode: Option<ColorMode>)
    ensures
        mode == color_mode_named(bytes_of(name@)),
{
    let bytes = name.as_str().as_bytes();
    let rgb: [u8; 3] = [114u8, 103u8, 98u8];
    let grayscale: [u8; 9] = [103u8, 114u8, 97u8, 121u8, 115u8, 99u8, 97u8, 108u8, 101u8];
    proof {
        assert(rgb@ =~= rgb_name());
        assert(grayscale@ =~= grayscale_name());
    }
    if bytes_equal(bytes, rgb.as_slice()) {
        Some(ColorMode::Rgb)
    } else if bytes_equal(bytes, grayscale.as_slice()) {
        Some(ColorMode::Grayscale)
    } else {
        None
    }
}

/// Calls `image::load_from_memory`, then `DynamicImage::into_rgb8`, and hands
/// out the width, the height and the raw buffer of the RGB image.
///
/// Trusted: nothing is claimed of the outcome. `None` stands for every error
/// of the decoder.
#[verifier::external_body]
fn load_rgb8(bytes: &Vec<u8>) -> (decoded: Option<(u32, u32, Vec<u8>)>) {
    match image::load_from_memory(bytes) {
        Ok(picture) => {
            let rgb = picture.into_rgb8();
            Some((rgb.width(), rgb.height(), rgb.into_raw()))
        },
        Err(_) => None,
    }
}

/// Calls `image::imageops::resize` with the Lanczos filter of window 3 on an
/// RGB image given by its raw buffer, and hands out the raw buffer of the
/// result.
///
/// Trusted: the result holds three samples for each pixel of the new size.
/// Left out are the inputs on which the outside code fails: a buffer that is
/// not the image's, an image without pixels, sides so long that the 32-bit
/// floating-point positions of the samples are no longer exact, and sizes
/// whose buffers cannot be allocated.
#[verifier::external_body]
fn resize_rgb8(pixels: &Vec<u8>, width: u32, height: u32, new_width: u32, new_height: u32) -> (out:
    Vec<u8>)
    requires
        1 <= width <= MAX_SIDE,
        1 <= height <= MAX_SIDE,
        new_width <= MAX_SIDE,
        new_height <= MAX_SIDE,
        pixels.len() == 3 * width * height,
        16 * width * new_height <= isize::MAX,
        3 * new_width * new_height <= isize::MAX,
    ensures
        out.len() == 3 * new_width * new_height,
{
    let source = image::ImageBuffer::<image::Rgb<u8>, &[u8]>::from_raw(
        width,
        height,
        pixels.as_slice(),
    ).unwrap();
    image::imageops::resize(
        &source,
        new_width,
        new_height,
        image::imageops::FilterType::Lanczos3,
    ).into_raw()
}

impl PixelBuffer {
    #[verifier::type_invariant]
    spec fn holds(&self) -> bool {
        well_shaped(self@)
    }

    /// Makes a buffer of samples that are already in place. `None` where
    /// their number does not fit the size and the colour mode.
    pub fn from_raw(width: u32, height: u32, color_mode: ColorMode, data: Vec<u8>) -> (buffer:
        Option<PixelBuffer>)
        ensures
            buffer is Some <==> data.len() == width * height * channel_count(color_mode),
            buffer matches Some(b) ==> b@ == (PixelBufferView {
                width,
                height,
                color_mode,
                data: data@,
            }),
    {
        let channels = color_mode.channels() as u128;
        assert((width as u128) * (height as u128) <= 0xffff_ffff * 0xffff_ffff) by (nonlinear_arith)
            requires
                width <= 0xffff_ffff,
                height <= 0xffff_ffff,
        ;
        let area = (width as u128) * (height as u128);
        assert(area * channels == width * height * channel_count(color_mode)) by (nonlinear_arith)
            requires
                area == width * height,
                channels == channel_count(color_mode),
        ;
        if (data.len() as u128) == area * channels {
            Some(PixelBuffer { width, height, color_mode, data })
        } else {
            None
        }
    }

    /// The width in pixels.
    pub fn width(&self) -> (w: u32)
        ensures
            w == self@.width,
    {
        self.width
    }

    /// The height in pixels.
    pub fn height(&self) -> (h: u32)
        ensures
            h == self@.height,
    {
        self.height
    }

    /// The colour mode.
    pub fn color_mode(&self) -> (mode: ColorMode)
        ensures
            mode == self@.color_mode,
    {
        self.color_mode
    }

    /// The samples, row by row.
    pub fn data(&self) -> (data: &Vec<u8>)
        ensures
            data@ == self@.data,
            well_shaped(self@),
    {
        proof {
            use_type_invariant(self);
        }
        &self.data
    }

    /// The samples, row by row.
    pub fn into_data(self) -> (data: Vec<u8>)
        ensures
            data@ == self@.data,
            well_shaped(self@),
    {
        proof {
            use_type_invariant(&self);
        }
        self.data
    }

    /// The shape of the tensor that the samples fill: height, width, channels.
    pub fn tensor_shape(&self) -> (shape: (usize, usize, usize))
        ensures
            shape.0 == self@.height,
            shape.1 == self@.width,
            shape.2 == channel_count(self@.color_mode),
            shape.0 * shape.1 * shape.2 == self@.data.len(),
    {
        proof {
            use_type_invariant(self);
            assert(self.height * self.width * channel_count(self.color_mode) == self.width
                * self.height * channel_count(self.color_mode)) by (nonlinear_arith);
        }
        (self.height as usize, self.width as usize, self.color_mode.channels())
    }

    /// Delivers the image in the colour mode `mode`. The first channel of an
    /// RGB pixel is taken for its intensity; an intensity is written to all
    /// three channels of an RGB pixel.
    pub fn convert(self, mode: ColorMode) -> (out: PixelBuffer)
        ensures
            out@ == (PixelBufferView {
                width: self@.width,
                height: self@.height,
                color_mode: mode,
                data: converted_data(self@, mode),
            }),
    {
        proof {
            use_type_invariant(&self);
        }
        if self.color_mode == mode {
            return self;
        }
        let ghost area = self.width * self.height;
        let mut data: Vec<u8> = Vec::new();
        let mut i: usize = 0;
        match mode {
            ColorMode::Grayscale => {
                assert(self.data@.len() == area * 3);
                let count = self.data.len() / 3;
                while i < count
                    invariant
                        count == self.data@.len() / 3,
                        self.data@.len() == count * 3,
                        count * 3 <= usize::MAX,
                        i <= count,
                        data@.len() == i,
                        forall|j: int| 0 <= j < i ==> data@[j] == self.data@[3 * j],
                    decreases count - i,
                {
                    data.push(self.data[3 * i]);
                    i = i + 1;
                }
                assert(data@ =~= first_channels(self.data@));
                assert(data@.len() == self.width * self.height * 1) by (nonlinear_arith)
                    requires
                        data@.len() == count,
                        count * 3 == area * 3,
                        area == self.width * self.height,
                ;
            },
            ColorMode::Rgb => {
                assert(self.data@.len() == area) by (nonlinear_arith)
                    requires
                        self.data@.len() == self.width * self.height * 1,
                        area == self.width * self.height,
                ;
                let count = self.data.len();
                while i < count
                    invariant
                        count == self.data@.len(),
                        i <= count,
                        data@.len() == 3 * i,
                        forall|j: int| 0 <= j < 3 * i ==> data@[j] == self.data@[j / 3],
                    decreases count - i,
                {
                    let sample = self.data[i];
                    data.push(sample);
                    data.push(sample);
                    data.push(sample);
                    i = i + 1;
                }
                assert(data@ =~= tripled(self.data@));
                assert(data@.len() == self.width * self.height * 3) by (nonlinear_arith)
                    requires
                        data@.len() == 3 * count,
                        count == area,
                        area == self.width * self.height,
                ;
            },
        }
        PixelBuffer { width: self.width, height: self.height, color_mode: mode, data }
    }

    /// Resizes an RGB image to `new_width` by `new_height` with a Lanczos
    /// filter. `None` exactly where the image cannot be resized: it is not
    /// RGB, it has no pixels, a side before or after exceeds [`MAX_SIDE`],
    /// or the sizes exceed what can be allocated.
    pub fn resize(&self, new_width: u32, new_height: u32) -> (out: Option<PixelBuffer>)
        ensures
            out is Some <==> resizable(self@, new_width, new_height),
            out matches Some(b) ==> {
                &&& b@.width == new_width
                &&& b@.height == new_height
                &&& b@.color_mode == ColorMode::Rgb
            },
    {
        proof {
            use_type_invariant(self);
        }
        if self.color_mode != ColorMode::Rgb || self.width == 0 || self.height == 0 {
            return None;
        }
        if self.width > MAX_SIDE || self.height > MAX_SIDE || new_width > MAX_SIDE || new_height
            > MAX_SIDE {
            return None;
        }
        let limit = isize::MAX as u128;
        let w = self.width as u128;
        let nw = new_width as u128;
        let nh = new_height as u128;
        assert(w * nh <= 0xffff_ffff * 0xffff_ffff && nw * nh <= 0xffff_ffff * 0xffff_ffff)
            by (nonlinear_arith)
            requires
                w <= 0xffff_ffff,
                nw <= 0xffff_ffff,
                nh <= 0xffff_ffff,
        ;
        assert(16 * self.width * new_height == 16 * (w * nh) && 3 * new_width * new_height == 3 * (
        nw * nh)) by (nonlinear_arith)
            requires
                w == self.width,
                nw == new_width,
                nh == new_height,
        ;
        if 16 * (w * nh) > limit || 3 * (nw * nh) > limit {
            return None;
        }
        assert(self.data@.len() == 3 * self.width * self.height) by (nonlinear_arith)
            requires
                self.data@.len() == self.width * self.height * 3,
        ;
        let data = resize_rgb8(&self.data, self.width, self.height, new_width, new_height);
        assert(data@.len() == new_width * new_height * 3) by (nonlinear_arith)
            requires
                data@.len() == 3 * new_width * new_height,
        ;
        Some(PixelBuffer { width: new_width, height: new_height, color_mode: ColorMode::Rgb, data })
    }
}

/// Decodes the bytes of an image file to an RGB buffer. Whether bytes decode,
/// and to which samples, is for the decoder to say, and may differ from one
/// processor to the next; `None` also where its buffer does not fit its size.
pub fn decode_rgb(bytes: &Vec<u8>) -> (out: Option<PixelBuffer>)
    ensures
        out matches Some(b) ==> b@.color_mode == ColorMode::Rgb,
{
    match load_rgb8(bytes) {
        Some((width, height, data)) => PixelBuffer::from_raw(width, height, ColorMode::Rgb, data),
        None => None,
    }
}

/// Brings a decoded RGB image to the target size and the colour mode asked
/// for: first resized, then converted.
pub fn materialize_decoded(
    decoded: &PixelBuffer,
    target_width: u32,
    target_height: u32,
    mode: ColorMode,
) -> (out: Option<PixelBuffer>)
    ensures
        out is Some <==> resizable(decoded@, target_width, target_height),
        out matches Some(b) ==> {
            &&& b@.width == target_width
            &&& b@.height == target_height
            &&& b@.color_mode == mode
        },
{
    match decoded.resize(target_width, target_height) {
        Some(resized) => Some(resized.convert(mode)),
        None => None,
    }
}

/// Decodes the bytes of an image file, then resizes and converts the image as
/// [`materialize_decoded`] does. `None` where the decoder rejects the bytes
/// or that function refuses the decoded image.
pub fn materialize(bytes: &Vec<u8>, target_width: u32, target_height: u32, mode: ColorMode) -> (out:
    Option<PixelBuffer>)
    ensures
        out matches Some(b) ==> {
            &&& b@.width == target_width
            &&& b@.height == target_height
            &&& b@.color_mode == mode
        },
{
    match decode_rgb(bytes) {
        Some(decoded) => materialize_decoded(&decoded, target_width, target_height, mode),
        None => None,
    }
}

} // verus!
