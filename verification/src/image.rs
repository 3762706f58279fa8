//! The picture as a stream: the order in which the pixels are rendered and
//! written, and the text of a plain pixel map.

use vstd::prelude::*;

verus! {

/// How many pixels a picture of the given width and height has. A picture
/// with a side that is not positive has none.
pub open spec fn pixel_count(image_width: i32, image_height: i32) -> int {
    if image_width <= 0 || image_height <= 0 {
        0
    } else {
        image_width * image_height
    }
}

/// The place in the stream of the pixel in column `i` of row `j`. Rows are
/// counted from the bottom of the picture and written from the top.
pub open spec fn stream_index(image_width: i32, image_height: i32, i: int, j: int) -> int {
    (image_height - 1 - j) * image_width + i
}

/// The column and the row of the pixel that stands at place `index` of the
/// stream, or nothing where the stream is shorter. The stream runs through the
/// rows from the top one, which has the highest number, to row zero, and
/// through each row from column zero upwards.
pub fn pixel_at(index: usize, image_width: i32, image_height: i32) -> (r: Option<(i32, i32)>)
    ensures
        r is Some <==> index < pixel_count(image_width, image_height),
        r matches Some((i, j)) ==> {
            &&& 0 <= i < image_width
            &&& 0 <= j < image_height
            &&& i == index as int % image_width as int
            &&& j == image_height - 1 - index as int / image_width as int
            &&& stream_index(image_width, image_height, i as int, j as int) == index
        },
{
    if image_width <= 0 || image_height <= 0 {
        return None;
    }
    let width: u64 = image_width as u64;
    let height: u64 = image_height as u64;
    assert(width * height <= 0x7FFF_FFFF * 0x7FFF_FFFF) by (nonlinear_arith)
        requires
            0 < width <= 0x7FFF_FFFF,
            0 < height <= 0x7FFF_FFFF,
    ;
    let count: u64 = width * height;
    let place: u64 = index as u64;
    if place >= count {
        return None;
    }
    let column: u64 = place % width;
    let row: u64 = place / width;
    proof {
        vstd::arithmetic::div_mod::lemma_fundamental_div_mod(place as int, width as int);
        assert(row < height) by (nonlinear_arith)
            requires
                place == width * row + column,
                0 <= column,
                place < width * height,
                0 < width,
        ;
        assert((image_height - 1 - (image_height - 1 - row)) * image_width + column == place)
            by (nonlinear_arith)
            requires
                place == width * row + column,
                width == image_width,
        ;
    }
    Some((column as i32, (height - 1 - row) as i32))
}

/// Every pixel of the picture stands at exactly one place of the stream: the
/// place of column `i` in row `j` is below the number of pixels, and two
/// pixels that stand at the same place are the same pixel.
pub proof fn lemma_stream_index_is_one_to_one(
    image_width: i32,
    image_height: i32,
    i: int,
    j: int,
    k: int,
    l: int,
)
    requires
        0 <= i < image_width,
        0 <= j < image_height,
        0 <= k < image_width,
        0 <= l < image_height,
    ensures
        0 <= stream_index(image_width, image_height, i, j) < pixel_count(
            image_width,
            image_height,
        ),
        stream_index(image_width, image_height, i, j) == stream_index(
            image_width,
            image_height,
            k,
            l,
        ) ==> i == k && j == l,
        j > l ==> stream_index(image_width, image_height, i, j) < stream_index(
            image_width,
            image_height,
            k,
            l,
        ),
        j == l && i < k ==> stream_index(image_width, image_height, i, j) < stream_index(
            image_width,
            image_height,
            k,
            l,
        ),
{
    let w = image_width as int;
    let h = image_height as int;
    assert(0 <= (h - 1 - j) * w + i < w * h) by (nonlinear_arith)
        requires
            0 <= i < w,
            0 <= j < h,
    ;
    assert(j > l ==> (h - 1 - j) * w + i < (h - 1 - l) * w + k) by (nonlinear_arith)
        requires
            0 <= i < w,
            0 <= k < w,
            0 <= j < h,
            0 <= l < h,
    ;
    assert(j < l ==> (h - 1 - j) * w + i > (h - 1 - l) * w + k) by (nonlinear_arith)
        requires
            0 <= i < w,
            0 <= k < w,
            0 <= j < h,
            0 <= l < h,
    ;
}

/// The character of a decimal digit.
pub open spec fn digit(d: int) -> u8 {
    (48 + d) as u8
}

/// A natural number in decimal, without leading zeros.
pub open spec fn decimal_nat(n: nat) -> Seq<u8>
    decreases n,
{
    if n < 10 {
        seq![digit(n as int)]
    } else {
        decimal_nat(n / 10).push(digit((n % 10) as int))
    }
}

/// A whole number in decimal, with a minus sign where it is below zero.
pub open spec fn decimal(n: int) -> Seq<u8> {
    if n < 0 {
        seq![45u8] + decimal_nat((-n) as nat)
    } else {
        decimal_nat(n as nat)
    }
}

/// The head of a plain pixel map: the magic number, the width and the height,
/// and the largest value of a channel, 255.
pub open spec fn header(image_width: i32, image_height: i32) -> Seq<u8> {
    seq![80u8, 51u8, 10u8] + decimal(image_width as int) + seq![32u8] + decimal(
        image_height as int,
    ) + seq![10u8, 50u8, 53u8, 53u8, 10u8]
}

/// The line of one pixel: its three channels in decimal, a space between
/// them, and a line feed.
pub open spec fn pixel_line(r: u8, g: u8, b: u8) -> Seq<u8> {
    decimal(r as int) + seq![32u8] + decimal(g as int) + seq![32u8] + decimal(b as int)
        + seq![10u8]
}

/// The lines of the first `n` pixels of a buffer that holds three bytes for
/// each pixel.
pub open spec fn pixel_lines(buf: Seq<u8>, n: nat) -> Seq<u8>
    decreases n,
{
    if n == 0 {
        Seq::<u8>::empty()
    } else {
        pixel_lines(buf, (n - 1) as nat) + pixel_line(
            buf[3 * (n - 1)],
            buf[3 * (n - 1) + 1],
            buf[3 * (n - 1) + 2],
        )
    }
}

/// The text of a plain pixel map: the head, then one line for each whole
/// pixel of the buffer. Bytes after the last whole pixel are left out.
pub open spec fn ppm_spec(buf: Seq<u8>, image_width: i32, image_height: i32) -> Seq<u8> {
    header(image_width, image_height) + pixel_lines(buf, (buf.len() / 3) as nat)
}

fn push_decimal_nat(out: &mut Vec<u8>, n: u64)
    ensures
        final(out)@ == old(out)@ + decimal_nat(n as nat),
    decreases n,
{
    if n >= 10 {
        push_decimal_nat(out, n / 10);
    }
    out.push(48 + (n % 10) as u8);
    assert(out@ =~= old(out)@ + decimal_nat(n as nat));
}

fn push_decimal(out: &mut Vec<u8>, n: i32)
    ensures
        final(out)@ == old(out)@ + decimal(n as int),
{
    if n < 0 {
        out.push(45);
        push_decimal_nat(out, (-(n as i64)) as u64);
        assert(out@ =~= old(out)@ + decimal(n as int));
    } else {
        push_decimal_nat(out, n as u64);
    }
}

/// The text of a plain pixel map for a buffer of pixels, three bytes each,
/// in the order of the stream.
pub fn write_ppm(buf: &Vec<u8>, image_width: i32, image_height: i32) -> (r: Vec<u8>)
    ensures
        r@ == ppm_spec(buf@, image_width, image_height),
{
    let mut out: Vec<u8> = Vec::new();
    out.push(80);
    out.push(51);
    out.push(10);
    push_decimal(&mut out, image_width);
    out.push(32);
    push_decimal(&mut out, image_height);
    out.push(10);
    out.push(50);
    out.push(53);
    out.push(53);
    out.push(10);
    assert(out@ =~= header(image_width, image_height));
    let pixels: usize = buf.len() / 3;
    let mut k: usize = 0;
    while k < pixels
        invariant
            k <= pixels,
            pixels == buf@.len() / 3,
            buf@.len() <= usize::MAX,
            out@ == header(image_width, image_height) + pixel_lines(buf@, k as nat),
        decreases pixels - k,
    {
        let ghost before = out@;
        push_decimal(&mut out, buf[3 * k] as i32);
        out.push(32);
        push_decimal(&mut out, buf[3 * k + 1] as i32);
        out.push(32);
        push_decimal(&mut out, buf[3 * k + 2] as i32);
        out.push(10);
        assert(out@ =~= before + pixel_line(
            buf@[3 * k as int],
            buf@[3 * k + 1],
            buf@[3 * k + 2],
        ));
        k += 1;
        assert(out@ =~= header(image_width, image_height) + pixel_lines(buf@, k as nat));
    }
    out
}

} // verus!
