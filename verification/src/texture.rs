//! Pixel rows for texture uploads.

use vstd::prelude::*;

verus! {

/// The rows of `width` pixels in reverse order, counted from the end: the
/// last `width` pixels come first, and what is left at the start, if the
/// pixels are not whole rows, comes last.
pub open spec fn flipped<P>(pixels: Seq<P>, width: int) -> Seq<P>
    decreases pixels.len(),
{
    if width <= 0 || pixels.len() <= width {
        pixels
    } else {
        pixels.subrange(pixels.len() - width, pixels.len() as int) + flipped(
            pixels.subrange(0, pixels.len() - width),
            width,
        )
    }
}

/// Flipping keeps every pixel: the result is as long as the input.
pub proof fn lemma_flipped_len<P>(pixels: Seq<P>, width: int)
    ensures
        flipped(pixels, width).len() == pixels.len(),
    decreases pixels.len(),
{
    if width > 0 && pixels.len() > width {
        lemma_flipped_len(pixels.subrange(0, pixels.len() - width), width);
    }
}

/// In an image of whole rows, the pixel at column `c` of row `r` comes from
/// column `c` of the row `r` from the bottom.
pub proof fn lemma_flipped_rows<P>(pixels: Seq<P>, width: int, rows: int, r: int, c: int)
    requires
        width > 0,
        rows >= 0,
        pixels.len() == rows * width,
        0 <= r < rows,
        0 <= c < width,
    ensures
        0 <= r * width + c < pixels.len(),
        0 <= (rows - 1 - r) * width + c < pixels.len(),
        flipped(pixels, width)[r * width + c] == pixels[(rows - 1 - r) * width + c],
    decreases rows,
{
    assert(0 <= r * width + c < rows * width && 0 <= (rows - 1 - r) * width + c < rows * width)
        by (nonlinear_arith)
        requires
            width > 0,
            0 <= r < rows,
            0 <= c < width,
    ;
    if rows > 1 {
        assert(pixels.len() > width) by (nonlinear_arith)
            requires
                pixels.len() == rows * width,
                rows > 1,
                width > 0,
        ;
        let rest = pixels.subrange(0, pixels.len() - width);
        assert(rest.len() == (rows - 1) * width) by (nonlinear_arith)
            requires
                rest.len() == pixels.len() - width,
                pixels.len() == rows * width,
        ;
        lemma_flipped_len(rest, width);
        if r == 0 {
            assert((rows - 1) * width + c == pixels.len() - width + c) by (nonlinear_arith)
                requires
                    pixels.len() == rows * width,
            ;
        } else {
            lemma_flipped_rows(rest, width, rows - 1, r - 1, c);
            assert(r * width + c - width == (r - 1) * width + c) by (nonlinear_arith);
            assert((rows - 1 - 1 - (r - 1)) * width + c == (rows - 1 - r) * width + c);
        }
    } else {
        assert(pixels.len() == width) by (nonlinear_arith)
            requires
                pixels.len() == rows * width,
                rows == 1,
        ;
    }
}

/// The pixels with their rows in reverse order, as a texture upload that
/// counts rows from the bottom wants them.
pub fn flip<P: Copy>(pixels: &[P], width: u32) -> (out: Vec<P>)
    requires
        width > 0,
    ensures
        out@ == flipped(pixels@, width as int),
{
    let mut out: Vec<P> = Vec::with_capacity(pixels.len());
    let mut end: usize = pixels.len();
    assert(pixels@.subrange(0, end as int) =~= pixels@);
    assert(out@ + flipped(pixels@, width as int) =~= flipped(pixels@, width as int));
    while end > width as usize
        invariant
            width > 0,
            end <= pixels@.len(),
            flipped(pixels@, width as int) == out@ + flipped(pixels@.subrange(0, end as int), width as int),
        decreases end,
    {
        let start = end - width as usize;
        let ghost before = out@;
        let mut k = start;
        while k < end
            invariant
                start <= k <= end <= pixels@.len(),
                out@ == before + pixels@.subrange(start as int, k as int),
            decreases end - k,
        {
            out.push(pixels[k]);
            assert(pixels@.subrange(start as int, k + 1) =~= pixels@.subrange(start as int, k as int).push(
                pixels@[k as int],
            ));
            k += 1;
        }
        proof {
            let head = pixels@.subrange(0, end as int);
            assert(head.subrange(head.len() - width, head.len() as int) =~= pixels@.subrange(
                start as int,
                end as int,
            ));
            assert(head.subrange(0, head.len() - width) =~= pixels@.subrange(0, start as int));
            assert(out@ + flipped(pixels@.subrange(0, start as int), width as int) =~= before + flipped(
                head,
                width as int,
            ));
        }
        end = start;
    }
    let ghost before = out@;
    let mut k: usize = 0;
    while k < end
        invariant
            k <= end <= pixels@.len(),
            out@ == before + pixels@.subrange(0, k as int),
        decreases end - k,
    {
        out.push(pixels[k]);
        assert(pixels@.subrange(0, k + 1) =~= pixels@.subrange(0, k as int).push(pixels@[k as int]));
        k += 1;
    }
    out
}

} // verus!
