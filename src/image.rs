//! Layout of the rendered image and its encoding as ASCII pixel-map text.
//!
//! Pixels are stored row-major, row `j` counted from the bottom of the image:
//! pixel `(i, j)` sits at index `i + j * width`. Each pixel is handed over as
//! three integer channel values, already quantised.
use vstd::prelude::*;

verus! {

/// ASCII codes of the characters the text is made of.
pub const ZERO: u8 = 48;
pub const MINUS: u8 = 45;
pub const SPACE: u8 = 32;
pub const NEWLINE: u8 = 10;
pub const UPPER_P: u8 = 80;

/// The decimal digits of `n`, most significant first, without leading zeros.
pub open spec fn decimal(n: nat) -> Seq<u8>
    decreases n,
{
    if n < 10 {
        seq![(ZERO + n) as u8]
    } else {
        decimal(n / 10) + seq![(ZERO + n % 10) as u8]
    }
}

/// `v` in decimal, with a leading `-` when it is negative.
pub open spec fn signed_decimal(v: int) -> Seq<u8> {
    if v < 0 {
        seq![MINUS] + decimal((-v) as nat)
    } else {
        decimal(v as nat)
    }
}

/// The header: the format tag, the size, and the largest channel value.
pub open spec fn ppm_header(width: nat, height: nat) -> Seq<u8> {
    seq![UPPER_P, (ZERO + 3) as u8, NEWLINE] + decimal(width) + seq![SPACE] + decimal(height) + seq![
        NEWLINE,
        (ZERO + 2) as u8,
        (ZERO + 5) as u8,
        (ZERO + 5) as u8,
        NEWLINE,
    ]
}

/// One pixel's line: its three channels separated by spaces.
pub open spec fn pixel_line(p: [i32; 3]) -> Seq<u8> {
    signed_decimal(p[0] as int) + seq![SPACE] + signed_decimal(p[1] as int) + seq![SPACE]
        + signed_decimal(p[2] as int) + seq![NEWLINE]
}

/// The lines of a run of pixels, in order.
pub open spec fn pixel_lines(run: Seq<[i32; 3]>) -> Seq<u8>
    decreases run.len(),
{
    if run.len() == 0 {
        Seq::empty()
    } else {
        pixel_lines(run.drop_last()) + pixel_line(run.last())
    }
}

/// Row `j` of a row-major image of the given width.
pub open spec fn image_row(pixels: Seq<[i32; 3]>, width: nat, j: nat) -> Seq<[i32; 3]> {
    pixels.subrange((j * width) as int, (j * width + width) as int)
}

/// The lines of rows `height - 1` down to `j`: from the top of the image.
pub open spec fn rows_from_top(pixels: Seq<[i32; 3]>, width: nat, height: nat, j: nat) -> Seq<u8>
    decreases height - j,
{
    if j >= height {
        Seq::empty()
    } else {
        rows_from_top(pixels, width, height, j + 1) + pixel_lines(image_row(pixels, width, j))
    }
}

/// The whole file: the header, then every pixel from the top row to the
/// bottom one, left to right within a row.
pub open spec fn ppm_text(pixels: Seq<[i32; 3]>, width: nat, height: nat) -> Seq<u8> {
    ppm_header(width, height) + rows_from_top(pixels, width, height, 0)
}

/// Index of pixel `(i, j)` in the row-major pixel buffer.
pub fn pixel_index(width: usize, height: usize, i: usize, j: usize) -> (k: usize)
    requires
        width * height <= usize::MAX,
        i + j * width < width * height,
    ensures
        k == i + j * width,
        k < width * height,
{
    i + j * width
}

fn push_decimal(out: &mut Vec<u8>, n: u64)
    ensures
        final(out)@ == old(out)@ + decimal(n as nat),
    decreases n,
{
    if n >= 10 {
        push_decimal(out, n / 10);
    }
    out.push(ZERO + (n % 10) as u8);
    proof {
        assert(final(out)@ =~= old(out)@ + decimal(n as nat));
    }
}

fn push_signed(out: &mut Vec<u8>, v: i32)
    ensures
        final(out)@ == old(out)@ + signed_decimal(v as int),
{
    if v < 0 {
        out.push(MINUS);
        let magnitude: u64 = (0 - (v as i64)) as u64;
        push_decimal(out, magnitude);
        proof {
            assert(final(out)@ =~= old(out)@ + signed_decimal(v as int));
        }
    } else {
        push_decimal(out, v as u64);
    }
}

fn push_pixel(out: &mut Vec<u8>, p: [i32; 3])
    ensures
        final(out)@ == old(out)@ + pixel_line(p),
{
    push_signed(out, p[0]);
    out.push(SPACE);
    push_signed(out, p[1]);
    out.push(SPACE);
    push_signed(out, p[2]);
    out.push(NEWLINE);
    proof {
        assert(final(out)@ =~= old(out)@ + pixel_line(p));
    }
}

/// Encodes a row-major image of `width` by `height` quantised pixels as
/// ASCII pixel-map text: the header `P3`, the line `"<width> <height>"`, the
/// line `255`, then one line `"<r> <g> <b>"` per pixel, from the top row to
/// the bottom one and from left to right within a row.
pub fn encode_ppm(pixels: &Vec<[i32; 3]>, width: usize, height: usize) -> (text: Vec<u8>)
    requires
        pixels.len() == width * height,
    ensures
        text@ == ppm_text(pixels@, width as nat, height as nat),
{
    let mut out: Vec<u8> = Vec::new();
    out.push(UPPER_P);
    out.push(ZERO + 3);
    out.push(NEWLINE);
    push_decimal(&mut out, width as u64);
    out.push(SPACE);
    push_decimal(&mut out, height as u64);
    out.push(NEWLINE);
    out.push(ZERO + 2);
    out.push(ZERO + 5);
    out.push(ZERO + 5);
    out.push(NEWLINE);
    proof {
        assert(out@ =~= ppm_header(width as nat, height as nat) + rows_from_top(
            pixels@,
            width as nat,
            height as nat,
            height as nat,
        ));
    }
    let mut j: usize = height;
    while j > 0
        invariant
            j <= height,
            pixels.len() == width * height,
            out@ == ppm_header(width as nat, height as nat) + rows_from_top(
                pixels@,
                width as nat,
                height as nat,
                j as nat,
            ),
        decreases j,
    {
        j = j - 1;
        proof {
            assert(j * width + width <= width * height) by (nonlinear_arith)
                requires
                    j < height,
            ;
        }
        let start: usize = j * width;
        let ghost before = out@;
        let mut i: usize = 0;
        while i < width
            invariant
                i <= width,
                start == j * width,
                start + width <= pixels.len(),
                out@ == before + pixel_lines(pixels@.subrange(start as int, start + i)),
            decreases width - i,
        {
            push_pixel(&mut out, pixels[start + i]);
            proof {
                assert(pixels@.subrange(start as int, start + i + 1).drop_last()
                    =~= pixels@.subrange(start as int, start + i));
            }
            i = i + 1;
        }
        proof {
            assert(out@ =~= ppm_header(width as nat, height as nat) + rows_from_top(
                pixels@,
                width as nat,
                height as nat,
                j as nat,
            ));
        }
    }
    out
}

} // verus!
