use vstd::prelude::*;
use crate::color::RGB;

verus! {

/// A decoded image: `width * height` pixels in row-major order, each of
/// `channels` bytes (red, green, blue, and alpha when there are four).
#[derive(Debug)]
pub struct ImageData {
    width: u32,
    height: u32,
    channels: u8,
    data: Vec<u8>,
}

/// A pixel that takes part in palette extraction: its position and color.
#[derive(Debug, Clone, Copy, PartialEq, Eq, Structural)]
pub struct Pixel {
    /// The column.
    pub x: u32,
    /// The row.
    pub y: u32,
    /// The color.
    pub color: RGB,
}

/// Pixel `i` is kept: it has no alpha channel or a non-zero alpha.
pub open spec fn is_present(data: Seq<u8>, channels: nat, i: int) -> bool {
    channels < 4 || data[i * channels + 3] != 0
}

/// The kept pixels among the first `i`, in order.
pub open spec fn present_pixels(data: Seq<u8>, channels: nat, width: nat, i: int) -> Seq<Pixel>
    decreases i,
{
    if i <= 0 {
        Seq::empty()
    } else {
        let before = present_pixels(data, channels, width, i - 1);
        let k = i - 1;
        if is_present(data, channels, k) {
            before.push(Pixel {
                x: (k % (width as int)) as u32,
                y: (k / (width as int)) as u32,
                color: RGB {
                    r: data[k * channels],
                    g: data[k * channels + 1],
                    b: data[k * channels + 2],
                },
            })
        } else {
            before
        }
    }
}

impl ImageData {
    /// The number of columns.
    pub closed spec fn spec_width(&self) -> nat {
        self.width as nat
    }

    /// The number of rows.
    pub closed spec fn spec_height(&self) -> nat {
        self.height as nat
    }

    /// The number of bytes per pixel.
    pub closed spec fn spec_channels(&self) -> nat {
        self.channels as nat
    }

    /// The pixel bytes.
    pub closed spec fn spec_data(&self) -> Seq<u8> {
        self.data@
    }

    /// The data holds `width * height` pixels of three or four bytes.
    pub closed spec fn wf(&self) -> bool {
        &&& (self.channels == 3 || self.channels == 4)
        &&& self.data@.len() == self.width * self.height * self.channels
    }

    /// Wraps pixel bytes; none unless there are three or four channels and
    /// exactly `width * height` pixels.
    pub fn new(width: u32, height: u32, channels: u8, data: Vec<u8>) -> (r: Option<ImageData>)
        ensures
            r is Some <==> ((channels == 3 || channels == 4) && data@.len() == width * height * channels),
            r matches Some(img) ==> img.wf() && img.spec_width() == width && img.spec_height() == height
                && img.spec_channels() == channels && img.spec_data() == data@,
    {
        if channels != 3 && channels != 4 {
            return None;
        }
        assert((width as u128) * (height as u128) <= 0xFFFF_FFFF * 0xFFFF_FFFF) by (nonlinear_arith)
            requires
                width <= 0xFFFF_FFFF,
                height <= 0xFFFF_FFFF,
        ;
        let area: u128 = (width as u128) * (height as u128);
        assert(area * (channels as u128) <= 0xFFFF_FFFF * 0xFFFF_FFFF * 4) by (nonlinear_arith)
            requires
                area == width * height,
                width <= 0xFFFF_FFFF,
                height <= 0xFFFF_FFFF,
                channels <= 4,
        ;
        let total: u128 = area * (channels as u128);
        if data.len() as u128 != total {
            return None;
        }
        Some(ImageData { width, height, channels, data })
    }

    /// The number of columns.
    pub fn width(&self) -> (w: u32)
        ensures
            w == self.spec_width(),
    {
        self.width
    }

    /// The number of rows.
    pub fn height(&self) -> (h: u32)
        ensures
            h == self.spec_height(),
    {
        self.height
    }

    /// The number of bytes per pixel.
    pub fn channels(&self) -> (c: u8)
        ensures
            c == self.spec_channels(),
    {
        self.channels
    }

    /// The pixel bytes.
    pub fn data(&self) -> (d: &Vec<u8>)
        ensures
            d@ == self.spec_data(),
    {
        &self.data
    }

    /// The pixels that take part in extraction, in row-major order: all of
    /// them, except those whose alpha is zero when there is an alpha channel.
    pub fn present_pixels(&self) -> (r: Vec<Pixel>)
        requires
            self.wf(),
        ensures
            r@ == present_pixels(self.spec_data(), self.spec_channels(), self.spec_width(),
                (self.spec_width() * self.spec_height()) as int),
    {
        let ch = self.channels as usize;
        let len = self.data.len();
        let n = len / ch;
        proof {
            assert(self.data@.len() == (self.width * self.height) * ch) by (nonlinear_arith)
                requires
                    self.data@.len() == self.width * self.height * self.channels,
                    ch == self.channels,
            ;
            assert(n == self.width * self.height) by (nonlinear_arith)
                requires
                    self.data@.len() == (self.width * self.height) * ch,
                    n as int == (self.data@.len() as int) / (ch as int),
                    ch > 0,
            ;
        }
        let mut pixels: Vec<Pixel> = Vec::new();
        let mut i: usize = 0;
        while i < n
            invariant
                i <= n,
                n == self.width * self.height,
                self.wf(),
                ch == self.channels,
                self.data@.len() == n * ch,
                len == self.data@.len(),
                pixels@ == present_pixels(self.data@, ch as nat, self.width as nat, i as int),
            decreases n - i,
        {
            assert(i * ch + ch <= n * ch) by (nonlinear_arith)
                requires
                    i < n,
                    ch > 0,
            ;
            let base = i * ch;
            let keep = ch < 4 || self.data[base + 3] != 0;
            if keep {
                proof {
                    assert(self.width > 0) by (nonlinear_arith)
                        requires
                            i < self.width * self.height,
                    ;
                    assert((i as int) / (self.width as int) < self.height as int) by (nonlinear_arith)
                        requires
                            i < self.width * self.height,
                            self.width > 0,
                    ;
                }
                let x = (i % (self.width as usize)) as u32;
                let y = (i / (self.width as usize)) as u32;
                let color = RGB { r: self.data[base], g: self.data[base + 1], b: self.data[base + 2] };
                pixels.push(Pixel { x, y, color });
            }
            i = i + 1;
        }
        pixels
    }
}

/// An image whose every pixel has zero alpha has no present pixels.
pub proof fn lemma_transparent_image_is_empty(img: &ImageData)
    requires
        img.wf(),
        img.spec_channels() == 4,
        forall|i: int| 0 <= i < img.spec_width() * img.spec_height() ==> #[trigger] img.spec_data()[i * 4 + 3] == 0,
    ensures
        present_pixels(img.spec_data(), img.spec_channels(), img.spec_width(),
            (img.spec_width() * img.spec_height()) as int).len() == 0,
{
    lemma_none_present(img.spec_data(), img.spec_width(), (img.spec_width() * img.spec_height()) as int);
}

proof fn lemma_none_present(data: Seq<u8>, width: nat, n: int)
    requires
        forall|i: int| 0 <= i < n ==> #[trigger] data[i * 4 + 3] == 0,
    ensures
        present_pixels(data, 4, width, n).len() == 0,
    decreases n,
{
    if n > 0 {
        lemma_none_present(data, width, n - 1);
        assert(data[(n - 1) * 4 + 3] == 0);
    }
}

} // verus!
