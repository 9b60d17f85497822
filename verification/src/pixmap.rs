//! The plain-text pixmap: an image written out as decimal numbers.
//!
//! The text starts with a header that names the format and gives the width
//! and the height of the image and the largest value of a channel. A line
//! for each pixel follows, with the three bytes of the pixel.

use crate::render::pixel;
use crate::render::pixel_spec;
use crate::vec3::Vec3;
use vstd::prelude::*;
use vstd::string::StringExecFns;

verus! {

/// The number of the plain-text pixmap among the formats of its family. The
/// name of the format is the letter `P` and this number.
pub const PLAIN_PIXMAP: u32 = 3;

/// The character of a decimal digit.
pub open spec fn digit(d: int) -> char {
    if d == 0 {
        '0'
    } else if d == 1 {
        '1'
    } else if d == 2 {
        '2'
    } else if d == 3 {
        '3'
    } else if d == 4 {
        '4'
    } else if d == 5 {
        '5'
    } else if d == 6 {
        '6'
    } else if d == 7 {
        '7'
    } else if d == 8 {
        '8'
    } else {
        '9'
    }
}

/// The decimal numeral of a natural number, without leading zeros.
pub open spec fn decimal(n: int) -> Seq<char>
    decreases n,
{
    if n < 10 {
        seq![digit(n)]
    } else {
        decimal(n / 10).push(digit(n % 10))
    }
}

/// Appends one decimal digit to a text.
fn push_digit(text: &mut String, d: u32)
    requires
        d < 10,
    ensures
        final(text)@ == old(text)@.push(digit(d as int)),
{
    proof {
        reveal_strlit("0");
        reveal_strlit("1");
        reveal_strlit("2");
        reveal_strlit("3");
        reveal_strlit("4");
        reveal_strlit("5");
        reveal_strlit("6");
        reveal_strlit("7");
        reveal_strlit("8");
        reveal_strlit("9");
    }
    let ghost before = text@;
    if d == 0 {
        text.append("0");
    } else if d == 1 {
        text.append("1");
    } else if d == 2 {
        text.append("2");
    } else if d == 3 {
        text.append("3");
    } else if d == 4 {
        text.append("4");
    } else if d == 5 {
        text.append("5");
    } else if d == 6 {
        text.append("6");
    } else if d == 7 {
        text.append("7");
    } else if d == 8 {
        text.append("8");
    } else {
        text.append("9");
    }
    assert(text@ =~= before.push(digit(d as int)));
}

/// Appends the decimal numeral of `n` to a text.
pub fn push_decimal(text: &mut String, n: u32)
    ensures
        final(text)@ == old(text)@ + decimal(n as int),
    decreases n,
{
    let ghost before = text@;
    if n < 10 {
        push_digit(text, n);
        assert(text@ =~= before + decimal(n as int));
    } else {
        push_decimal(text, n / 10);
        push_digit(text, n % 10);
        assert(text@ =~= before + decimal(n as int));
    }
}

/// The line of a pixel: its three bytes in decimal, a space between them,
/// and a line end.
pub open spec fn pixel_line(bytes: (u8, u8, u8)) -> Seq<char> {
    decimal(bytes.0 as int) + seq![' '] + decimal(bytes.1 as int) + seq![' '] + decimal(
        bytes.2 as int,
    ) + seq!['\n']
}

/// The lines of a sequence of pixels, in their order.
pub open spec fn pixel_lines(pixels: Seq<(u8, u8, u8)>) -> Seq<char>
    decreases pixels.len(),
{
    if pixels.len() == 0 {
        Seq::empty()
    } else {
        pixel_lines(pixels.drop_last()) + pixel_line(pixels.last())
    }
}

/// The header of the pixmap of an image of the given size: the name of the
/// format, the width and the height, and 255, the largest value of a channel.
pub open spec fn header(image_width: int, image_height: int) -> Seq<char> {
    seq!['P'] + decimal(PLAIN_PIXMAP as int) + seq!['\n', ' '] + decimal(image_width) + seq![' ']
        + decimal(image_height) + seq!['\n', '2', '5', '5', '\n']
}

/// The pixmap of an image: the header, then the lines of the pixels.
pub open spec fn pixmap_text(
    image_width: int,
    image_height: int,
    pixels: Seq<(u8, u8, u8)>,
) -> Seq<char> {
    header(image_width, image_height) + pixel_lines(pixels)
}

/// Appends the line of a pixel to a text.
pub fn push_pixel_line(text: &mut String, bytes: (u8, u8, u8))
    ensures
        final(text)@ == old(text)@ + pixel_line(bytes),
{
    proof {
        reveal_strlit(" ");
        reveal_strlit("\n");
    }
    let ghost before = text@;
    push_decimal(text, bytes.0 as u32);
    text.append(" ");
    push_decimal(text, bytes.1 as u32);
    text.append(" ");
    push_decimal(text, bytes.2 as u32);
    text.append("\n");
    assert(text@ =~= before + pixel_line(bytes));
}

/// The line of the pixel whose samples add up to `color`: each channel of
/// the sum is divided by the number of samples, clamped and quantised, and
/// the three bytes are written in decimal.
pub fn color_to_string(color: &Vec3, samples_per_pixel: i32) -> (text: String)
    requires
        samples_per_pixel > 0,
    ensures
        text@ == pixel_line(pixel_spec(color@, samples_per_pixel as int)),
{
    let bytes = pixel(color, samples_per_pixel);
    let mut text = String::new();
    push_pixel_line(&mut text, bytes);
    assert(text@ =~= pixel_line(bytes));
    text
}

/// The pixmap of an image of the given size and pixels.
pub fn pixmap(image_width: i32, image_height: i32, pixels: &Vec<(u8, u8, u8)>) -> (text: String)
    requires
        0 <= image_width,
        0 <= image_height,
    ensures
        text@ == pixmap_text(image_width as int, image_height as int, pixels@),
{
    proof {
        reveal_strlit("P");
        reveal_strlit("\n ");
        reveal_strlit(" ");
        reveal_strlit("\n255\n");
    }
    let mut text = String::new();
    text.append("P");
    push_decimal(&mut text, PLAIN_PIXMAP);
    text.append("\n ");
    push_decimal(&mut text, image_width as u32);
    text.append(" ");
    push_decimal(&mut text, image_height as u32);
    text.append("\n255\n");
    assert(text@ =~= header(image_width as int, image_height as int));
    let n: usize = pixels.len();
    let mut i: usize = 0;
    while i < n
        invariant
            i <= n,
            n == pixels@.len(),
            text@ == header(image_width as int, image_height as int) + pixel_lines(
                pixels@.take(i as int),
            ),
        decreases n - i,
    {
        let ghost before = text@;
        push_pixel_line(&mut text, pixels[i]);
        proof {
            let seen = pixels@.take(i as int + 1);
            assert(seen.drop_last() == pixels@.take(i as int));
            assert(seen.last() == pixels@[i as int]);
            assert(text@ =~= header(image_width as int, image_height as int) + pixel_lines(seen));
        }
        i = i + 1;
    }
    proof {
        assert(pixels@.take(n as int) == pixels@);
    }
    text
}

} // verus!
