//! An 8-bit image in the ASCII pixel-map format.
//!
//! The buffer holds one `Color` per pixel in row-major order; `to_ppm_bytes`
//! lays it out as text: a header with the format tag, the dimensions and the
//! channel maximum, then one tab-separated decimal triple per pixel. The
//! encoding is specified byte for byte.

use vstd::prelude::*;

verus! {

use crate::color::Color;
use vstd::pervasive::VecAdditionalExecFns;

/// The decimal digits of `n`, most significant first, as ASCII bytes.
pub open spec fn dec_spec(n: nat) -> Seq<u8>
    decreases n,
{
    if n < 10 {
        seq![(48 + n) as u8]
    } else {
        dec_spec(n / 10) + seq![(48 + n % 10) as u8]
    }
}

/// One pixel's line: the three channels in decimal, tab-separated, then a
/// line break.
pub open spec fn spec_pixel_line(c: Color) -> Seq<u8> {
    dec_spec(c.red as nat) + seq![9u8] + dec_spec(c.green as nat) + seq![9u8] + dec_spec(
        c.blue as nat,
    ) + seq![10u8]
}

/// The pixel lines of the buffer, in row-major order.
pub open spec fn spec_pixel_lines(pixels: Seq<Color>) -> Seq<u8>
    decreases pixels.len(),
{
    if pixels.len() == 0 {
        Seq::empty()
    } else {
        spec_pixel_lines(pixels.drop_last()) + spec_pixel_line(pixels.last())
    }
}

/// The whole image as text: `P3`, a line with width and length, the channel
/// maximum 255, then the pixel lines.
pub open spec fn spec_ppm_bytes(length: nat, width: nat, pixels: Seq<Color>) -> Seq<u8> {
    seq![80u8, 51u8, 10u8] + dec_spec(width) + seq![32u8] + dec_spec(length) + seq![
        10u8,
        50u8,
        53u8,
        53u8,
        10u8,
    ] + spec_pixel_lines(pixels)
}

/// Appends the decimal digits of `n` to `out`.
fn push_dec(out: &mut Vec<u8>, n: u64)
    ensures
        final(out)@ == old(out)@ + dec_spec(n as nat),
    decreases n,
{
    if n < 10 {
        out.push(48 + (n as u8));
        proof {
            assert(out@ =~= old(out)@ + dec_spec(n as nat));
        }
    } else {
        push_dec(out, n / 10);
        out.push(48 + ((n % 10) as u8));
        proof {
            assert(out@ =~= old(out)@ + dec_spec(n as nat));
        }
    }
}

/// An image buffer: one color per pixel, `length` rows of `width` columns,
/// row-major.
#[derive(Debug)]
pub struct PPM {
    length: usize,
    width: usize,
    pixels: Vec<Color>,
}

impl PPM {
    /// The number of rows.
    pub closed spec fn spec_length(self) -> int {
        self.length as int
    }

    /// The number of columns.
    pub closed spec fn spec_width(self) -> int {
        self.width as int
    }

    /// The pixels, row-major.
    pub closed spec fn spec_pixels(self) -> Seq<Color> {
        self.pixels@
    }

    /// The buffer holds exactly one color per pixel.
    pub open spec fn wf(self) -> bool {
        self.spec_pixels().len() == self.spec_length() * self.spec_width()
    }

    /// A black image of `length` rows and `width` columns.
    pub fn new(length: usize, width: usize) -> (r: PPM)
        requires
            length * width <= usize::MAX,
        ensures
            r.wf(),
            r.spec_length() == length,
            r.spec_width() == width,
            r.spec_pixels().len() == length * width,
            forall|i: int|
                0 <= i < r.spec_pixels().len() ==> r.spec_pixels()[i] == (Color {
                    red: 0u8,
                    green: 0u8,
                    blue: 0u8,
                }),
    {
        let total = length * width;
        let mut pixels: Vec<Color> = Vec::new();
        let mut i: usize = 0;
        while i < total
            invariant
                i <= total,
                pixels@.len() == i,
                forall|k: int|
                    0 <= k < i ==> pixels@[k] == (Color { red: 0u8, green: 0u8, blue: 0u8 }),
            decreases total - i,
        {
            pixels.push(Color::black());
            i = i + 1;
        }
        PPM { length, width, pixels }
    }

    pub fn get_length(&self) -> (r: usize)
        ensures
            r == self.spec_length(),
    {
        self.length
    }

    pub fn get_width(&self) -> (r: usize)
        ensures
            r == self.spec_width(),
    {
        self.width
    }

    pub fn get_pixel_vector(&self) -> (r: &Vec<Color>)
        ensures
            r@ == self.spec_pixels(),
    {
        &self.pixels
    }

    /// The pixel buffer, open for writing; what the caller writes through it
    /// is beyond this type's contracts, so well-formedness must be
    /// re-established by the caller where it is needed.
    pub fn get_pixel_vector_mut(&mut self) -> (r: &mut Vec<Color>)
        ensures
            r@ == old(self).spec_pixels(),
    {
        &mut self.pixels
    }

    /// The row and column of a flat pixel index, or nothing when the index
    /// lies beyond the image.
    pub fn grid_position(&self, index: &usize) -> (r: Option<(usize, usize)>)
        requires
            self.wf(),
        ensures
            *index >= self.spec_length() * self.spec_width() ==> r is None,
            *index < self.spec_length() * self.spec_width() ==> r == Some(
                (
                    (*index as int / self.spec_width()) as usize,
                    (*index as int % self.spec_width()) as usize,
                ),
            ),
    {
        let total = self.pixels.len();
        if *index >= total {
            None
        } else {
            proof {
                lemma_grid_position(*index as int, self.length as int, self.width as int);
            }
            Some((*index / self.width, *index % self.width))
        }
    }

    /// Writes one pixel; `row` and `col` must lie within the image.
    pub fn set_pixel(&mut self, pixel: Color, row: usize, col: usize)
        requires
            old(self).wf(),
            row < old(self).spec_length(),
            col < old(self).spec_width(),
        ensures
            final(self).wf(),
            final(self).spec_length() == old(self).spec_length(),
            final(self).spec_width() == old(self).spec_width(),
            final(self).spec_pixels() == old(self).spec_pixels().update(
                row * old(self).spec_width() + col,
                pixel,
            ),
    {
        let total = self.pixels.len();
        proof {
            lemma_flat_index(row as int, col as int, self.length as int, self.width as int);
        }
        let index = row * self.width + col;
        self.pixels.set(index, pixel);
    }

    /// The image as ASCII text, byte for byte as `spec_ppm_bytes` lays it
    /// out.
    pub fn to_ppm_bytes(&self) -> (r: Vec<u8>)
        requires
            self.wf(),
        ensures
            r@ == spec_ppm_bytes(
                self.spec_length() as nat,
                self.spec_width() as nat,
                self.spec_pixels(),
            ),
    {
        let mut out: Vec<u8> = Vec::new();
        out.push(80);
        out.push(51);
        out.push(10);
        push_dec(&mut out, self.width as u64);
        out.push(32);
        push_dec(&mut out, self.length as u64);
        out.push(10);
        out.push(50);
        out.push(53);
        out.push(53);
        out.push(10);
        let ghost header = out@;
        proof {
            assert(header =~= seq![80u8, 51u8, 10u8] + dec_spec(self.spec_width() as nat) + seq![
                32u8,
            ] + dec_spec(self.spec_length() as nat) + seq![10u8, 50u8, 53u8, 53u8, 10u8]);
        }
        let mut i: usize = 0;
        proof {
            assert(self.spec_pixels().take(0) =~= Seq::<Color>::empty());
        }
        while i < self.pixels.len()
            invariant
                i <= self.spec_pixels().len(),
                self.pixels@ == self.spec_pixels(),
                out@ == header + spec_pixel_lines(self.spec_pixels().take(i as int)),
            decreases self.spec_pixels().len() - i,
        {
            let c = self.pixels[i];
            let ghost before = out@;
            push_dec(&mut out, c.red as u64);
            out.push(9);
            push_dec(&mut out, c.green as u64);
            out.push(9);
            push_dec(&mut out, c.blue as u64);
            out.push(10);
            proof {
                assert(out@ =~= before + spec_pixel_line(c));
                assert(self.spec_pixels().take(i as int + 1).drop_last() =~= self.spec_pixels()
                    .take(i as int));
                assert(self.spec_pixels().take(i as int + 1).last() == self.spec_pixels()[
                    i as int]);
                assert(out@ =~= header + spec_pixel_lines(self.spec_pixels().take(i as int + 1)));
            }
            i = i + 1;
        }
        proof {
            assert(self.spec_pixels().take(self.spec_pixels().len() as int)
                =~= self.spec_pixels());
        }
        out
    }
}

/// A flat index below the pixel count has its row below the row count and
/// its column below the width; the width is in particular positive.
pub proof fn lemma_grid_position(index: int, length: int, width: int)
    requires
        0 <= index,
        0 <= width,
        0 <= length,
        index < length * width,
    ensures
        0 < width,
        0 <= index / width < length,
        0 <= index % width < width,
{
    assert(0 < width) by (nonlinear_arith)
        requires
            0 <= index,
            0 <= width,
            index < length * width,
    ;
    vstd::arithmetic::div_mod::lemma_remainder_lower(index, width);
    vstd::arithmetic::div_mod::lemma_remainder_upper(index, width);
    vstd::arithmetic::div_mod::lemma_div_pos_is_pos(index, width);
    vstd::arithmetic::div_mod::lemma_fundamental_div_mod(index, width);
    assert(index / width < length) by (nonlinear_arith)
        requires
            0 < width,
            0 <= index,
            index < length * width,
            width * (index / width) + index % width == index,
            0 <= index % width < width,
    ;
}

/// A row and column within the image map to a flat index below the pixel
/// count.
proof fn lemma_flat_index(row: int, col: int, length: int, width: int)
    requires
        0 <= row < length,
        0 <= col < width,
    ensures
        0 <= row * width + col < length * width,
        row * width + col <= (length - 1) * width + (width - 1),
{
    assert(row * width + col < length * width) by (nonlinear_arith)
        requires
            0 <= row < length,
            0 <= col < width,
    ;
    assert(row * width <= (length - 1) * width) by (nonlinear_arith)
        requires
            row <= length - 1,
            0 < width,
    ;
}

} // verus!
