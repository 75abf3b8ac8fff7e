//! Filters on images of four bytes to the pixel: red, green, blue, alpha.

use crate::arith::{difference, product, quotient, sum};
use crate::convert::{byte_of, integer_of, integer_value, rounded_byte_of};
use crate::root::square_root;
use crate::single::negation;
use crate::text::chars_of;
use crate::single::{
    at_most, decode, maximum, minimum, one_value, values, zero_value, Single, Value, ONE_BITS,
};
use vstd::prelude::*;

verus! {

/// The bit pattern of 255.
pub const FULL_BITS: u32 = 0x437f_0000;

/// The bit pattern of 128.
pub const MIDDLE_BITS: u32 = 0x4300_0000;

/// The bit pattern of 259.
pub const CONTRAST_BITS: u32 = 0x4381_8000;

/// The dimensions of an image.
pub struct ImageProcessor {
    width: u32,
    height: u32,
}

impl ImageProcessor {
    /// A processor for images of the given dimensions.
    pub fn new(width: u32, height: u32) -> (p: ImageProcessor)
        ensures
            p.width_spec() == width,
            p.height_spec() == height,
    {
        ImageProcessor { width, height }
    }

    /// The width.
    pub closed spec fn width_spec(&self) -> u32 {
        self.width
    }

    /// The height.
    pub closed spec fn height_spec(&self) -> u32 {
        self.height
    }

    /// The width.
    pub fn get_width(&self) -> (w: u32)
        ensures
            w == self.width_spec(),
    {
        self.width
    }

    /// The height.
    pub fn get_height(&self) -> (h: u32)
        ensures
            h == self.height_spec(),
    {
        self.height
    }

    /// Gives the processor other dimensions.
    pub fn set_dimensions(&mut self, width: u32, height: u32)
        ensures
            final(self).width_spec() == width,
            final(self).height_spec() == height,
    {
        self.width = width;
        self.height = height;
    }
}

/// The value of a byte.
pub open spec fn byte_value(b: u8) -> Value {
    Value::Finite { negative: false, units: (b as nat) * vstd::arithmetic::power2::pow2(149) }
}

/// A value brought into `[0, 255]` and cut off to a byte.
pub open spec fn channel_of(v: Value) -> u8 {
    byte_of(minimum(maximum(v, zero_value()), decode(FULL_BITS)))
}

/// A channel scaled by a factor.
pub open spec fn brightened_channel(b: u8, factor: Value) -> u8 {
    channel_of(product(byte_value(b), factor))
}

/// An image with every colour channel scaled by a factor, alpha kept.
pub open spec fn brightened_image(image: Seq<u8>, factor: Value) -> Seq<u8> {
    Seq::new(
        image.len(),
        |k: int|
            if k % 4 == 3 {
                image[k]
            } else {
                brightened_channel(image[k], factor)
            },
    )
}

/// The factor by which contrast spreads the channels about 128:
/// `259 * (factor + 255) / (255 * (259 - factor))`.
pub open spec fn contrast_factor(factor: Value) -> Value {
    quotient(
        product(decode(CONTRAST_BITS), sum(factor, decode(FULL_BITS))),
        product(decode(FULL_BITS), difference(decode(CONTRAST_BITS), factor)),
    )
}

/// A channel spread about 128 by a contrast factor.
pub open spec fn contrasted_channel(b: u8, spread: Value) -> u8 {
    channel_of(
        sum(product(spread, difference(byte_value(b), decode(MIDDLE_BITS))), decode(MIDDLE_BITS)),
    )
}

/// An image with every colour channel spread about 128, alpha kept.
pub open spec fn contrasted_image(image: Seq<u8>, spread: Value) -> Seq<u8> {
    Seq::new(
        image.len(),
        |k: int|
            if k % 4 == 3 {
                image[k]
            } else {
                contrasted_channel(image[k], spread)
            },
    )
}

/// The number of bytes of an image of the given dimensions.
pub open spec fn image_len(width: u32, height: u32) -> int {
    width * height * 4
}

/// Whether the data are an image of the given dimensions.
fn is_image(data: &[u8], width: u32, height: u32) -> (r: bool)
    requires
        image_len(width, height) <= u32::MAX,
    ensures
        r == (data@.len() == image_len(width, height)),
{
    assert(width * height <= width * height * 4) by (nonlinear_arith);
    assert(width * height * 4 == (width * height) * 4);
    let size: u64 = (width as u64) * (height as u64) * 4;
    data.len() as u64 == size
}

/// A value brought into `[0, 255]` and cut off to a byte.
fn to_channel(v: Single) -> (b: u8)
    ensures
        b == channel_of(v@),
{
    v.max(Single::from_bits(0)).min(Single::from_bits(FULL_BITS)).to_u8()
}

/// Scales the red, green and blue of every pixel by `factor`, each brought
/// into `0..=255`. Data that are not an image of the given dimensions are
/// left alone.
pub fn adjust_brightness(data: &mut [u8], width: u32, height: u32, factor: Single)
    requires
        image_len(width, height) <= u32::MAX,
    ensures
        old(data)@.len() == image_len(width, height) ==> final(data)@ == brightened_image(
            old(data)@,
            factor@,
        ),
        old(data)@.len() != image_len(width, height) ==> final(data)@ == old(data)@,
{
    if !is_image(data, width, height) {
        return;
    }
    let n = data.len();
    let mut i: usize = 0;
    while i < n
        invariant
            i <= n == data@.len() == old(data)@.len(),
            forall|k: int| 0 <= k < i ==> data@[k] == brightened_image(old(data)@, factor@)[k],
            forall|k: int| i <= k < n ==> data@[k] == old(data)@[k],
        decreases n - i,
    {
        if i % 4 != 3 {
            let b = to_channel(Single::from_u8(data[i]).mul(factor));
            data[i] = b;
        }
        i = i + 1;
    }
    proof {
        assert(data@ =~= brightened_image(old(data)@, factor@));
    }
}

/// Spreads the red, green and blue of every pixel about 128 by the factor
/// `259 * (factor + 255) / (255 * (259 - factor))`, each brought into
/// `0..=255`. Data that are not an image of the given dimensions are left
/// alone.
pub fn adjust_contrast(data: &mut [u8], width: u32, height: u32, factor: Single)
    requires
        image_len(width, height) <= u32::MAX,
    ensures
        old(data)@.len() == image_len(width, height) ==> final(data)@ == contrasted_image(
            old(data)@,
            contrast_factor(factor@),
        ),
        old(data)@.len() != image_len(width, height) ==> final(data)@ == old(data)@,
{
    if !is_image(data, width, height) {
        return;
    }
    let full = Single::from_bits(FULL_BITS);
    let middle = Single::from_bits(MIDDLE_BITS);
    let base = Single::from_bits(CONTRAST_BITS);
    let spread = base.mul(factor.add(full)).div(full.mul(base.sub(factor)));
    let n = data.len();
    let mut i: usize = 0;
    while i < n
        invariant
            i <= n == data@.len() == old(data)@.len(),
            spread@ == contrast_factor(factor@),
            middle@ == decode(MIDDLE_BITS),
            forall|k: int|
                0 <= k < i ==> data@[k] == contrasted_image(old(data)@, contrast_factor(factor@))[k],
            forall|k: int| i <= k < n ==> data@[k] == old(data)@[k],
        decreases n - i,
    {
        if i % 4 != 3 {
            let b = to_channel(spread.mul(Single::from_u8(data[i]).sub(middle)).add(middle));
            data[i] = b;
        }
        i = i + 1;
    }
    proof {
        assert(data@ =~= contrasted_image(old(data)@, contrast_factor(factor@)));
    }
}

/// The bit pattern of 0.299, the weight of red in the luminance.
pub const LUMA_RED_BITS: u32 = 0x3e99_1687;

/// The bit pattern of 0.587, the weight of green in the luminance.
pub const LUMA_GREEN_BITS: u32 = 0x3f16_45a2;

/// The bit pattern of 0.114, the weight of blue in the luminance.
pub const LUMA_BLUE_BITS: u32 = 0x3de9_78d5;

/// The bit pattern of 0.393, the weight of red in the red of sepia.
pub const SEPIA_RED_RED_BITS: u32 = 0x3ec9_374c;

/// The bit pattern of 0.769, the weight of green in the red of sepia.
pub const SEPIA_RED_GREEN_BITS: u32 = 0x3f44_dd2f;

/// The bit pattern of 0.189, the weight of blue in the red of sepia.
pub const SEPIA_RED_BLUE_BITS: u32 = 0x3e41_8937;

/// The bit pattern of 0.349, the weight of red in the green of sepia.
pub const SEPIA_GREEN_RED_BITS: u32 = 0x3eb2_b021;

/// The bit pattern of 0.686, the weight of green in the green of sepia.
pub const SEPIA_GREEN_GREEN_BITS: u32 = 0x3f2f_9db2;

/// The bit pattern of 0.168, the weight of blue in the green of sepia.
pub const SEPIA_GREEN_BLUE_BITS: u32 = 0x3e2c_0831;

/// The bit pattern of 0.272, the weight of red in the blue of sepia.
pub const SEPIA_BLUE_RED_BITS: u32 = 0x3e8b_4396;

/// The bit pattern of 0.534, the weight of green in the blue of sepia.
pub const SEPIA_BLUE_GREEN_BITS: u32 = 0x3f08_b439;

/// The bit pattern of 0.131, the weight of blue in the blue of sepia.
pub const SEPIA_BLUE_BLUE_BITS: u32 = 0x3e06_24dd;

/// The colour filters.
#[derive(Clone, Copy, Debug)]
pub enum ColorFilter {
    /// Warm brown tones.
    Sepia,
    /// The luminance on every channel.
    Grayscale,
    /// Every channel taken from 255.
    Invert,
    /// Red alone.
    Red,
    /// Green alone.
    Green,
    /// Blue alone.
    Blue,
}

/// The filter that a name stands for: `sepia`, `grayscale`, `invert`,
/// `red`, `green` or `blue`.
pub open spec fn filter_named(name: Seq<char>) -> Option<ColorFilter> {
    if name == seq!['s', 'e', 'p', 'i', 'a'] {
        Some(ColorFilter::Sepia)
    } else if name == seq!['g', 'r', 'a', 'y', 's', 'c', 'a', 'l', 'e'] {
        Some(ColorFilter::Grayscale)
    } else if name == seq!['i', 'n', 'v', 'e', 'r', 't'] {
        Some(ColorFilter::Invert)
    } else if name == seq!['r', 'e', 'd'] {
        Some(ColorFilter::Red)
    } else if name == seq!['g', 'r', 'e', 'e', 'n'] {
        Some(ColorFilter::Green)
    } else if name == seq!['b', 'l', 'u', 'e'] {
        Some(ColorFilter::Blue)
    } else {
        None
    }
}

/// `r * a + g * b + b * c`, added up from the left.
pub open spec fn blend(r: u8, g: u8, b: u8, x: u32, y: u32, z: u32) -> Value {
    sum(
        sum(product(byte_value(r), decode(x)), product(byte_value(g), decode(y))),
        product(byte_value(b), decode(z)),
    )
}

/// One channel of sepia: the blend of the colours by three weights, at
/// most 255, cut off to a byte.
pub open spec fn sepia_channel(r: u8, g: u8, b: u8, x: u32, y: u32, z: u32) -> u8 {
    byte_of(minimum(blend(r, g, b, x, y, z), decode(FULL_BITS)))
}

/// The luminance of a colour: `0.299 * r + 0.587 * g + 0.114 * b`.
pub open spec fn luminance(r: u8, g: u8, b: u8) -> Value {
    sum(
        sum(
            product(decode(LUMA_RED_BITS), byte_value(r)),
            product(decode(LUMA_GREEN_BITS), byte_value(g)),
        ),
        product(decode(LUMA_BLUE_BITS), byte_value(b)),
    )
}

/// Red, green and blue of a pixel after a filter.
pub open spec fn filtered_pixel(filter: ColorFilter, r: u8, g: u8, b: u8) -> (u8, u8, u8) {
    match filter {
        ColorFilter::Sepia => (
            sepia_channel(r, g, b, SEPIA_RED_RED_BITS, SEPIA_RED_GREEN_BITS, SEPIA_RED_BLUE_BITS),
            sepia_channel(
                r,
                g,
                b,
                SEPIA_GREEN_RED_BITS,
                SEPIA_GREEN_GREEN_BITS,
                SEPIA_GREEN_BLUE_BITS,
            ),
            sepia_channel(r, g, b, SEPIA_BLUE_RED_BITS, SEPIA_BLUE_GREEN_BITS, SEPIA_BLUE_BLUE_BITS),
        ),
        ColorFilter::Grayscale => {
            let gray = byte_of(luminance(r, g, b));
            (gray, gray, gray)
        },
        ColorFilter::Invert => ((255 - r) as u8, (255 - g) as u8, (255 - b) as u8),
        ColorFilter::Red => (r, 0, 0),
        ColorFilter::Green => (0, g, 0),
        ColorFilter::Blue => (0, 0, b),
    }
}

/// An image with a filter applied to every pixel, alpha kept.
pub open spec fn filtered_image(image: Seq<u8>, filter: ColorFilter) -> Seq<u8> {
    Seq::new(
        image.len(),
        |k: int|
            {
                let at = k - k % 4;
                let p = filtered_pixel(filter, image[at], image[at + 1], image[at + 2]);
                if k % 4 == 0 {
                    p.0
                } else if k % 4 == 1 {
                    p.1
                } else if k % 4 == 2 {
                    p.2
                } else {
                    image[k]
                }
            },
    )
}

/// Whether the characters spell the word.
fn spells(chars: &Vec<char>, word: &Vec<char>) -> (r: bool)
    ensures
        r == (chars@ == word@),
{
    if chars.len() != word.len() {
        return false;
    }
    let mut i: usize = 0;
    while i < chars.len()
        invariant
            i <= chars.len() == word.len(),
            forall|k: int| 0 <= k < i ==> chars@[k] == word@[k],
        decreases chars.len() - i,
    {
        if chars[i] != word[i] {
            return false;
        }
        i = i + 1;
    }
    proof {
        assert(chars@ =~= word@);
    }
    true
}

/// The filter that a name stands for.
pub fn parse_filter(name: &str) -> (r: Option<ColorFilter>)
    ensures
        r == filter_named(name@),
{
    let chars = chars_of(name);
    if spells(&chars, &vec!['s', 'e', 'p', 'i', 'a']) {
        Some(ColorFilter::Sepia)
    } else if spells(&chars, &vec!['g', 'r', 'a', 'y', 's', 'c', 'a', 'l', 'e']) {
        Some(ColorFilter::Grayscale)
    } else if spells(&chars, &vec!['i', 'n', 'v', 'e', 'r', 't']) {
        Some(ColorFilter::Invert)
    } else if spells(&chars, &vec!['r', 'e', 'd']) {
        Some(ColorFilter::Red)
    } else if spells(&chars, &vec!['g', 'r', 'e', 'e', 'n']) {
        Some(ColorFilter::Green)
    } else if spells(&chars, &vec!['b', 'l', 'u', 'e']) {
        Some(ColorFilter::Blue)
    } else {
        None
    }
}

/// `r * a + g * b + b * c`, added up from the left.
fn blend_of(r: u8, g: u8, b: u8, x: u32, y: u32, z: u32) -> (v: Single)
    ensures
        v@ == blend(r, g, b, x, y, z),
{
    Single::from_u8(r).mul(Single::from_bits(x)).add(
        Single::from_u8(g).mul(Single::from_bits(y)),
    ).add(Single::from_u8(b).mul(Single::from_bits(z)))
}

/// Red, green and blue of a pixel after a filter.
pub fn filter_pixel(filter: ColorFilter, r: u8, g: u8, b: u8) -> (p: (u8, u8, u8))
    ensures
        p == filtered_pixel(filter, r, g, b),
{
    let full = Single::from_bits(FULL_BITS);
    match filter {
        ColorFilter::Sepia => (
            blend_of(r, g, b, SEPIA_RED_RED_BITS, SEPIA_RED_GREEN_BITS, SEPIA_RED_BLUE_BITS).min(
                full,
            ).to_u8(),
            blend_of(r, g, b, SEPIA_GREEN_RED_BITS, SEPIA_GREEN_GREEN_BITS, SEPIA_GREEN_BLUE_BITS)
                .min(full).to_u8(),
            blend_of(r, g, b, SEPIA_BLUE_RED_BITS, SEPIA_BLUE_GREEN_BITS, SEPIA_BLUE_BLUE_BITS).min(
                full,
            ).to_u8(),
        ),
        ColorFilter::Grayscale => {
            let gray = Single::from_bits(LUMA_RED_BITS).mul(Single::from_u8(r)).add(
                Single::from_bits(LUMA_GREEN_BITS).mul(Single::from_u8(g)),
            ).add(Single::from_bits(LUMA_BLUE_BITS).mul(Single::from_u8(b))).to_u8();
            (gray, gray, gray)
        },
        ColorFilter::Invert => (255 - r, 255 - g, 255 - b),
        ColorFilter::Red => (r, 0, 0),
        ColorFilter::Green => (0, g, 0),
        ColorFilter::Blue => (0, 0, b),
    }
}

/// Applies the filter of the given name to every pixel. Data that are not
/// an image of the given dimensions, and names of no filter, change nothing.
pub fn apply_color_filter(data: &mut [u8], width: u32, height: u32, filter_type: &str)
    requires
        image_len(width, height) <= u32::MAX,
    ensures
        old(data)@.len() == image_len(width, height) && filter_named(filter_type@) is Some
            ==> final(data)@ == filtered_image(old(data)@, filter_named(filter_type@)->0),
        old(data)@.len() != image_len(width, height) || filter_named(filter_type@) is None
            ==> final(data)@ == old(data)@,
{
    if !is_image(data, width, height) {
        return;
    }
    let filter = match parse_filter(filter_type) {
        Some(filter) => filter,
        None => {
            return;
        },
    };
    let n = data.len();
    assert(n % 4 == 0) by {
        assert(width * height * 4 == (width * height) * 4);
    }
    let mut i: usize = 0;
    while i < n
        invariant
            i <= n == data@.len() == old(data)@.len(),
            n % 4 == 0,
            i % 4 == 0,
            forall|k: int| 0 <= k < i ==> data@[k] == filtered_image(old(data)@, filter)[k],
            forall|k: int| i <= k < n ==> data@[k] == old(data)@[k],
        decreases n - i,
    {
        let (r, g, b) = filter_pixel(filter, data[i], data[i + 1], data[i + 2]);
        data[i] = r;
        data[i + 1] = g;
        data[i + 2] = b;
        i = i + 4;
    }
    proof {
        assert(data@ =~= filtered_image(old(data)@, filter));
    }
}

/// The bit pattern of 4.
pub const FOUR_BITS: u32 = 0x4080_0000;

/// The channel `c` of the pixel at `(x, y)`.
pub open spec fn channel(image: Seq<u8>, width: int, x: int, y: int, c: int) -> u8 {
    image[(y * width + x) * 4 + c]
}

/// Every channel of every pixel has its place in the data.
pub proof fn lemma_channel_in_image(width: int, height: int, x: int, y: int, c: int)
    requires
        0 <= x < width,
        0 <= y < height,
        0 <= c < 4,
    ensures
        0 <= (y * width + x) * 4 + c < width * height * 4,
        0 <= y * width + x < width * height,
        (y * width + x) % width == x,
        (y * width + x) / width == y,
{
    assert(0 <= y * width && y * width + width <= height * width) by (nonlinear_arith)
        requires
            0 <= y < height,
            0 <= width,
    ;
    assert(height * width == width * height) by (nonlinear_arith);
    vstd::arithmetic::div_mod::lemma_fundamental_div_mod_converse(y * width + x, width, y, x);
}

/// Whether a pixel has all its eight neighbours.
pub open spec fn interior(width: int, height: int, x: int, y: int) -> bool {
    1 <= x < width - 1 && 1 <= y < height - 1
}

/// The sharpening kernel for a strength: the centre `1 + 4 * strength`,
/// its four neighbours `-strength`, the corners zero.
pub open spec fn sharpen_kernel(strength: Value) -> Seq<Value> {
    let side = negation(strength);
    seq![
        zero_value(),
        side,
        zero_value(),
        side,
        sum(one_value(), product(decode(FOUR_BITS), strength)),
        side,
        zero_value(),
        side,
        zero_value(),
    ]
}

/// The first `count` of the nine neighbours of a channel, each times its
/// weight, added up row by row from zero.
pub open spec fn weighted(
    image: Seq<u8>,
    width: int,
    x: int,
    y: int,
    c: int,
    kernel: Seq<Value>,
    count: int,
) -> Value
    decreases count,
{
    if count <= 0 {
        zero_value()
    } else {
        let j = count - 1;
        sum(
            weighted(image, width, x, y, c, kernel, j),
            product(byte_value(channel(image, width, x + j % 3 - 1, y + j / 3 - 1, c)), kernel[j]),
        )
    }
}

/// A sharpened image: the colour channels of every pixel with all its
/// neighbours weighted by the kernel, its alpha kept; the pixels at the
/// border cleared.
pub open spec fn sharpened_image(image: Seq<u8>, width: int, height: int, strength: Value) -> Seq<
    u8,
> {
    Seq::new(
        image.len(),
        |k: int|
            {
                let x = (k / 4) % width;
                let y = (k / 4) / width;
                if !interior(width, height, x, y) {
                    0
                } else if k % 4 == 3 {
                    image[k]
                } else {
                    channel_of(weighted(image, width, x, y, k % 4, sharpen_kernel(strength), 9))
                }
            },
    )
}

/// The nine neighbours of a channel, each times its weight, added up.
fn weigh(data: &[u8], width: u32, height: u32, x: u32, y: u32, c: u32, kernel: &Vec<Single>) -> (v:
    Single)
    requires
        data@.len() == image_len(width, height),
        image_len(width, height) <= u32::MAX,
        interior(width as int, height as int, x as int, y as int),
        c < 4,
        kernel@.len() == 9,
    ensures
        v@ == weighted(
            data@,
            width as int,
            x as int,
            y as int,
            c as int,
            values(kernel@),
            9,
        ),
{
    let mut total = Single::from_bits(0);
    let mut j: u32 = 0;
    while j < 9
        invariant
            j <= 9,
            data@.len() == image_len(width, height),
            image_len(width, height) <= u32::MAX,
            interior(width as int, height as int, x as int, y as int),
            c < 4,
            kernel@.len() == 9,
            total@ == weighted(
                data@,
                width as int,
                x as int,
                y as int,
                c as int,
                values(kernel@),
                j as int,
            ),
        decreases 9 - j,
    {
        let px: u32 = x + j % 3 - 1;
        let py: u32 = y + j / 3 - 1;
        proof {
            lemma_channel_in_image(width as int, height as int, px as int, py as int, c as int);
        }
        let at: usize = (((py as u64) * (width as u64) + (px as u64)) * 4 + (c as u64)) as usize;
        total = total.add(Single::from_u8(data[at]).mul(kernel[j as usize]));
        j = j + 1;
    }
    total
}

/// Writes the bytes of `from` over `data`.
fn overwrite(data: &mut [u8], from: &Vec<u8>)
    requires
        old(data)@.len() == from@.len(),
    ensures
        final(data)@ == from@,
{
    let n = data.len();
    let mut i: usize = 0;
    while i < n
        invariant
            i <= n == data@.len() == from@.len(),
            forall|k: int| 0 <= k < i ==> data@[k] == from@[k],
        decreases n - i,
    {
        data[i] = from[i];
        i = i + 1;
    }
    proof {
        assert(data@ =~= from@);
    }
}

/// Sharpens the image: every colour channel of a pixel with all its
/// neighbours becomes `1 + 4 * strength` times itself less `strength`
/// times its four neighbours, brought into `0..=255`; the border is
/// cleared. Data that are not an image of the given dimensions, and a
/// strength that is not positive, change nothing.
pub fn apply_sharpen(data: &mut [u8], width: u32, height: u32, strength: Single)
    requires
        image_len(width, height) <= u32::MAX,
    ensures
        old(data)@.len() == image_len(width, height) && !at_most(strength@, zero_value())
            ==> final(data)@ == sharpened_image(
            old(data)@,
            width as int,
            height as int,
            strength@,
        ),
        old(data)@.len() != image_len(width, height) || at_most(strength@, zero_value())
            ==> final(data)@ == old(data)@,
{
    if !is_image(data, width, height) || strength.le(Single::from_bits(0)) {
        return;
    }
    let zero = Single::from_bits(0);
    let side = strength.neg();
    let centre = Single::from_bits(ONE_BITS).add(Single::from_bits(FOUR_BITS).mul(strength));
    let kernel: Vec<Single> = vec![zero, side, zero, side, centre, side, zero, side, zero];
    proof {
        assert(values(kernel@) =~= sharpen_kernel(strength@));
    }
    let n = data.len();
    let mut temp: Vec<u8> = vec![0u8; n];
    assert(width * height * 4 == (width * height) * 4);
    let pixels: u32 = (n / 4) as u32;
    let mut p: u32 = 0;
    while p < pixels
        invariant
            p <= pixels == width * height,
            n == data@.len() == temp@.len() == image_len(width, height),
            data@ == old(data)@,
            image_len(width, height) <= u32::MAX,
            values(kernel@) == sharpen_kernel(strength@),
            kernel@.len() == 9,
            forall|k: int|
                0 <= k < 4 * p ==> temp@[k] == sharpened_image(
                    old(data)@,
                    width as int,
                    height as int,
                    strength@,
                )[k],
            forall|k: int| 4 * p <= k < n ==> temp@[k] == 0,
        decreases pixels - p,
    {
        assert(width > 0) by (nonlinear_arith)
            requires
                p < width * height,
        ;
        let x: u32 = p % width;
        let y: u32 = p / width;
        let base: usize = (p as usize) * 4;
        proof {
            assert(base / 4 == p && (base + 1) / 4 == p && (base + 2) / 4 == p && (base + 3) / 4
                == p);
        }
        if 1 <= x && (x as u64) + 1 < width as u64 && 1 <= y && (y as u64) + 1 < height as u64 {
            let r = to_channel(weigh(data, width, height, x, y, 0, &kernel));
            let g = to_channel(weigh(data, width, height, x, y, 1, &kernel));
            let b = to_channel(weigh(data, width, height, x, y, 2, &kernel));
            temp.set(base, r);
            temp.set(base + 1, g);
            temp.set(base + 2, b);
            temp.set(base + 3, data[base + 3]);
        }
        p = p + 1;
    }
    proof {
        assert(temp@ =~= sharpened_image(old(data)@, width as int, height as int, strength@));
    }
    overwrite(data, &temp);
}

/// The gray value of the pixel at `(x, y)`: its luminance cut off to an integer.
pub open spec fn gray(image: Seq<u8>, width: int, x: int, y: int) -> int {
    integer_of(
        luminance(
            channel(image, width, x, y, 0),
            channel(image, width, x, y, 1),
            channel(image, width, x, y, 2),
        ),
    ) as int
}

/// The horizontal gradient of Sobel at `(x, y)`.
pub open spec fn gradient_x(image: Seq<u8>, width: int, x: int, y: int) -> int {
    -gray(image, width, x - 1, y - 1) + gray(image, width, x + 1, y - 1) - 2 * gray(
        image,
        width,
        x - 1,
        y,
    ) + 2 * gray(image, width, x + 1, y) - gray(image, width, x - 1, y + 1) + gray(
        image,
        width,
        x + 1,
        y + 1,
    )
}

/// The vertical gradient of Sobel at `(x, y)`.
pub open spec fn gradient_y(image: Seq<u8>, width: int, x: int, y: int) -> int {
    -gray(image, width, x - 1, y - 1) - 2 * gray(image, width, x, y - 1) - gray(
        image,
        width,
        x + 1,
        y - 1,
    ) + gray(image, width, x - 1, y + 1) + 2 * gray(image, width, x, y + 1) + gray(
        image,
        width,
        x + 1,
        y + 1,
    )
}

/// The strength of the edge at `(x, y)`: the length of the gradient, at
/// most 255, cut off to a byte.
pub open spec fn edge_strength(image: Seq<u8>, width: int, x: int, y: int) -> u8 {
    let gx = gradient_x(image, width, x, y);
    let gy = gradient_y(image, width, x, y);
    byte_of(minimum(square_root(integer_value(gx * gx + gy * gy)), decode(FULL_BITS)))
}

/// The edges of an image: on the colour channels of every pixel with all
/// its neighbours the strength of the edge, its alpha kept; the pixels at
/// the border cleared.
pub open spec fn edge_image(image: Seq<u8>, width: int, height: int) -> Seq<u8> {
    Seq::new(
        image.len(),
        |k: int|
            {
                let x = (k / 4) % width;
                let y = (k / 4) / width;
                if !interior(width, height, x, y) {
                    0
                } else if k % 4 == 3 {
                    image[k]
                } else {
                    edge_strength(image, width, x, y)
                }
            },
    )
}

/// The gray value of the pixel at `(x, y)`.
fn gray_at(data: &[u8], width: u32, height: u32, x: u32, y: u32) -> (g: i128)
    requires
        data@.len() == image_len(width, height),
        image_len(width, height) <= u32::MAX,
        x < width,
        y < height,
    ensures
        g == gray(data@, width as int, x as int, y as int),
        i32::MIN <= g <= i32::MAX,
{
    proof {
        lemma_channel_in_image(width as int, height as int, x as int, y as int, 0);
        lemma_channel_in_image(width as int, height as int, x as int, y as int, 2);
    }
    let at: usize = (((y as u64) * (width as u64) + (x as u64)) * 4) as usize;
    let r = Single::from_u8(data[at]);
    let g = Single::from_u8(data[at + 1]);
    let b = Single::from_u8(data[at + 2]);
    Single::from_bits(LUMA_RED_BITS).mul(r).add(Single::from_bits(LUMA_GREEN_BITS).mul(g)).add(
        Single::from_bits(LUMA_BLUE_BITS).mul(b),
    ).to_int() as i128
}

/// The strength of the edge at `(x, y)`.
fn edge_at(data: &[u8], width: u32, height: u32, x: u32, y: u32) -> (e: u8)
    requires
        data@.len() == image_len(width, height),
        image_len(width, height) <= u32::MAX,
        interior(width as int, height as int, x as int, y as int),
    ensures
        e == edge_strength(data@, width as int, x as int, y as int),
{
    let nw = gray_at(data, width, height, x - 1, y - 1);
    let n = gray_at(data, width, height, x, y - 1);
    let ne = gray_at(data, width, height, x + 1, y - 1);
    let w = gray_at(data, width, height, x - 1, y);
    let e = gray_at(data, width, height, x + 1, y);
    let sw = gray_at(data, width, height, x - 1, y + 1);
    let s = gray_at(data, width, height, x, y + 1);
    let se = gray_at(data, width, height, x + 1, y + 1);
    let gx: i128 = -nw + ne - 2 * w + 2 * e - sw + se;
    let gy: i128 = -nw - 2 * n - ne + sw + 2 * s + se;
    assert(gx * gx + gy * gy <= 2 * (0x4_0000_0000 * 0x4_0000_0000) && gx * gx + gy * gy >= 0
        && gx * gx <= 0x4_0000_0000 * 0x4_0000_0000 && gy * gy <= 0x4_0000_0000 * 0x4_0000_0000)
        by (nonlinear_arith)
        requires
            -0x4_0000_0000 <= gx <= 0x4_0000_0000,
            -0x4_0000_0000 <= gy <= 0x4_0000_0000,
    ;
    let squares: i128 = gx * gx + gy * gy;
    Single::from_wide(squares).sqrt().min(Single::from_bits(FULL_BITS)).to_u8()
}

/// Finds the edges of the image by the operator of Sobel on its gray
/// values: the colour channels of every pixel with all its neighbours
/// become the strength of the edge there; the border is cleared. Data that
/// are not an image of the given dimensions change nothing.
pub fn apply_edge_detection(data: &mut [u8], width: u32, height: u32)
    requires
        image_len(width, height) <= u32::MAX,
    ensures
        old(data)@.len() == image_len(width, height) ==> final(data)@ == edge_image(
            old(data)@,
            width as int,
            height as int,
        ),
        old(data)@.len() != image_len(width, height) ==> final(data)@ == old(data)@,
{
    if !is_image(data, width, height) {
        return;
    }
    let n = data.len();
    let mut temp: Vec<u8> = vec![0u8; n];
    assert(width * height * 4 == (width * height) * 4);
    let pixels: u32 = (n / 4) as u32;
    let mut p: u32 = 0;
    while p < pixels
        invariant
            p <= pixels == width * height,
            n == data@.len() == temp@.len() == image_len(width, height),
            data@ == old(data)@,
            image_len(width, height) <= u32::MAX,
            forall|k: int|
                0 <= k < 4 * p ==> temp@[k] == edge_image(old(data)@, width as int, height as int)[k],
            forall|k: int| 4 * p <= k < n ==> temp@[k] == 0,
        decreases pixels - p,
    {
        assert(width > 0) by (nonlinear_arith)
            requires
                p < width * height,
        ;
        let x: u32 = p % width;
        let y: u32 = p / width;
        let base: usize = (p as usize) * 4;
        proof {
            assert(base / 4 == p && (base + 1) / 4 == p && (base + 2) / 4 == p && (base + 3) / 4
                == p);
        }
        if 1 <= x && (x as u64) + 1 < width as u64 && 1 <= y && (y as u64) + 1 < height as u64 {
            let strength = edge_at(data, width, height, x, y);
            temp.set(base, strength);
            temp.set(base + 1, strength);
            temp.set(base + 2, strength);
            temp.set(base + 3, data[base + 3]);
        }
        p = p + 1;
    }
    proof {
        assert(temp@ =~= edge_image(old(data)@, width as int, height as int));
    }
    overwrite(data, &temp);
}

/// `i` brought into `0..=last`.
pub open spec fn clamped_index(i: int, last: int) -> int {
    if i < 0 {
        0
    } else if i > last {
        last
    } else {
        i
    }
}

/// The first `count` samples along a row about `(x, y)`, each times its
/// weight, added up from zero. Samples beyond the ends of the row are
/// taken at its ends.
pub open spec fn row_blur(
    image: Seq<u8>,
    width: int,
    x: int,
    y: int,
    c: int,
    kernel: Seq<Value>,
    count: int,
) -> Value
    decreases count,
{
    if count <= 0 {
        zero_value()
    } else {
        let j = count - 1;
        let at = clamped_index(x + j - kernel.len() / 2, width - 1);
        sum(
            row_blur(image, width, x, y, c, kernel, j),
            product(byte_value(channel(image, width, at, y, c)), kernel[j]),
        )
    }
}

/// The first `count` samples along a column about `(x, y)`, each times
/// its weight, added up from zero.
pub open spec fn column_blur(
    image: Seq<u8>,
    width: int,
    height: int,
    x: int,
    y: int,
    c: int,
    kernel: Seq<Value>,
    count: int,
) -> Value
    decreases count,
{
    if count <= 0 {
        zero_value()
    } else {
        let j = count - 1;
        let at = clamped_index(y + j - kernel.len() / 2, height - 1);
        sum(
            column_blur(image, width, height, x, y, c, kernel, j),
            product(byte_value(channel(image, width, x, at, c)), kernel[j]),
        )
    }
}

/// An image blurred along its rows: every channel, alpha too, the rounded
/// sum of its weighted samples.
pub open spec fn rows_blurred(image: Seq<u8>, width: int, kernel: Seq<Value>) -> Seq<u8> {
    Seq::new(
        image.len(),
        |k: int|
            rounded_byte_of(
                row_blur(
                    image,
                    width,
                    (k / 4) % width,
                    (k / 4) / width,
                    k % 4,
                    kernel,
                    kernel.len() as int,
                ),
            ),
    )
}

/// An image blurred along its columns.
pub open spec fn columns_blurred(image: Seq<u8>, width: int, height: int, kernel: Seq<Value>) -> Seq<
    u8,
> {
    Seq::new(
        image.len(),
        |k: int|
            rounded_byte_of(
                column_blur(
                    image,
                    width,
                    height,
                    (k / 4) % width,
                    (k / 4) / width,
                    k % 4,
                    kernel,
                    kernel.len() as int,
                ),
            ),
    )
}

/// The largest kernel that the blur takes: as many weights as a 32-bit
/// signed integer counts.
pub const MAX_KERNEL_LEN: usize = 0x7FFF_FFFF;

/// Whether a blur of the given radius changes the data: the radius is
/// positive, and the data are an image of the given dimensions.
pub fn blur_applies(data_len: usize, width: u32, height: u32, radius: Single) -> (r: bool)
    requires
        image_len(width, height) <= u32::MAX,
    ensures
        r == (!at_most(radius@, zero_value()) && data_len == image_len(width, height)),
{
    assert(width * height <= width * height * 4) by (nonlinear_arith);
    assert(width * height * 4 == (width * height) * 4);
    let size: u64 = (width as u64) * (height as u64) * 4;
    !radius.le(Single::from_bits(0)) && data_len as u64 == size
}

/// One channel blurred along its row or its column.
fn blur_at(
    data: &Vec<u8>,
    width: u32,
    height: u32,
    x: u32,
    y: u32,
    c: u32,
    kernel: &[Single],
    along_row: bool,
) -> (b: u8)
    requires
        data@.len() == image_len(width, height),
        image_len(width, height) <= u32::MAX,
        x < width,
        y < height,
        c < 4,
        kernel@.len() <= MAX_KERNEL_LEN,
    ensures
        along_row ==> b == rounded_byte_of(
            row_blur(
                data@,
                width as int,
                x as int,
                y as int,
                c as int,
                values(kernel@),
                kernel@.len() as int,
            ),
        ),
        !along_row ==> b == rounded_byte_of(
            column_blur(
                data@,
                width as int,
                height as int,
                x as int,
                y as int,
                c as int,
                values(kernel@),
                kernel@.len() as int,
            ),
        ),
{
    let size = kernel.len();
    let half: i64 = (size / 2) as i64;
    let mut total = Single::from_bits(0);
    let mut j: usize = 0;
    while j < size
        invariant
            j <= size == kernel@.len() <= MAX_KERNEL_LEN,
            half == kernel@.len() / 2,
            data@.len() == image_len(width, height),
            image_len(width, height) <= u32::MAX,
            x < width,
            y < height,
            c < 4,
            along_row ==> total@ == row_blur(
                data@,
                width as int,
                x as int,
                y as int,
                c as int,
                values(kernel@),
                j as int,
            ),
            !along_row ==> total@ == column_blur(
                data@,
                width as int,
                height as int,
                x as int,
                y as int,
                c as int,
                values(kernel@),
                j as int,
            ),
        decreases size - j,
    {
        let (sx, sy): (u32, u32) = if along_row {
            let wanted: i64 = (x as i64) + (j as i64) - half;
            let at: i64 = if wanted < 0 {
                0
            } else if wanted > (width as i64) - 1 {
                (width as i64) - 1
            } else {
                wanted
            };
            (at as u32, y)
        } else {
            let wanted: i64 = (y as i64) + (j as i64) - half;
            let at: i64 = if wanted < 0 {
                0
            } else if wanted > (height as i64) - 1 {
                (height as i64) - 1
            } else {
                wanted
            };
            (x, at as u32)
        };
        proof {
            lemma_channel_in_image(width as int, height as int, sx as int, sy as int, c as int);
        }
        let at: usize = (((sy as u64) * (width as u64) + (sx as u64)) * 4 + (c as u64)) as usize;
        total = total.add(Single::from_u8(data[at]).mul(kernel[j]));
        j = j + 1;
    }
    total.round_to_u8()
}

/// One pass of the blur over all channels of all pixels.
fn blur_pass(data: &Vec<u8>, width: u32, height: u32, kernel: &[Single], along_row: bool) -> (out:
    Vec<u8>)
    requires
        data@.len() == image_len(width, height),
        image_len(width, height) <= u32::MAX,
        kernel@.len() <= MAX_KERNEL_LEN,
    ensures
        along_row ==> out@ == rows_blurred(data@, width as int, values(kernel@)),
        !along_row ==> out@ == columns_blurred(
            data@,
            width as int,
            height as int,
            values(kernel@),
        ),
{
    let n = data.len();
    let mut out: Vec<u8> = Vec::new();
    let mut k: usize = 0;
    while k < n
        invariant
            k <= n == data@.len() == image_len(width, height),
            image_len(width, height) <= u32::MAX,
            kernel@.len() <= MAX_KERNEL_LEN,
            out@.len() == k,
            along_row ==> forall|i: int|
                0 <= i < k ==> out@[i] == rows_blurred(
                    data@,
                    width as int,
                    values(kernel@),
                )[i],
            !along_row ==> forall|i: int|
                0 <= i < k ==> out@[i] == columns_blurred(
                    data@,
                    width as int,
                    height as int,
                    values(kernel@),
                )[i],
        decreases n - k,
    {
        let p: u32 = (k / 4) as u32;
        assert(width > 0 && p < width * height) by (nonlinear_arith)
            requires
                k < width * height * 4,
                p == k / 4,
        ;
        let x: u32 = p % width;
        let y: u32 = p / width;
        proof {
            vstd::arithmetic::div_mod::lemma_fundamental_div_mod(p as int, width as int);
            assert(y < height) by (nonlinear_arith)
                requires
                    p < width * height,
                    p == width * y + x,
                    0 <= x,
                    width > 0,
            ;
        }
        out.push(blur_at(data, width, height, x, y, (k % 4) as u32, kernel, along_row));
        k = k + 1;
    }
    proof {
        if along_row {
            assert(out@ =~= rows_blurred(data@, width as int, values(kernel@)));
        } else {
            assert(out@ =~= columns_blurred(
                data@,
                width as int,
                height as int,
                values(kernel@),
            ));
        }
    }
    out
}

/// Blurs the image with a kernel of weights, first along the rows, then
/// along the columns; every channel, alpha too, becomes the rounded sum of
/// its weighted samples. Data that are not an image of the given
/// dimensions change nothing.
pub fn apply_blur(data: &mut [u8], width: u32, height: u32, kernel: &[Single])
    requires
        image_len(width, height) <= u32::MAX,
        kernel@.len() <= MAX_KERNEL_LEN,
    ensures
        old(data)@.len() == image_len(width, height) ==> final(data)@ == columns_blurred(
            rows_blurred(old(data)@, width as int, values(kernel@)),
            width as int,
            height as int,
            values(kernel@),
        ),
        old(data)@.len() != image_len(width, height) ==> final(data)@ == old(data)@,
{
    if !is_image(data, width, height) {
        return;
    }
    let source = vstd::slice::slice_to_vec(data);
    let rows = blur_pass(&source, width, height, kernel, true);
    let columns = blur_pass(&rows, width, height, kernel, false);
    overwrite(data, &columns);
}

} // verus!
