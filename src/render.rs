//! Filling one band of the pixel buffer, pixel by pixel.
use vstd::prelude::*;

use crate::intensity::{intensity, intensity_of};

verus! {

/// The byte at `(col, row)` of the row-major buffer `pixels`, `width`
/// pixels wide, is the intensity of an escape count that `escape` may give
/// for that pixel.
pub open spec fn pixel_rendered<F: Fn(usize, usize) -> Option<usize>>(
    escape: F,
    pixels: Seq<u8>,
    width: int,
    col: int,
    row: int,
) -> bool {
    exists|e: Option<usize>|
        #[trigger] escape.ensures((col as usize, row as usize), e) && pixels[row * width + col]
            == intensity_of(e)
}

/// A pixel of a full row lies in the buffer.
proof fn lemma_pixel_in_buffer(width: int, height: int, col: int, row: int)
    requires
        0 <= col < width,
        0 <= row < height,
    ensures
        0 <= row * width + col < width * height,
{
    assert(0 <= row * width + col < width * height) by (nonlinear_arith)
        requires
            0 <= col < width,
            0 <= row < height,
    ;
}

/// A pixel of an earlier row comes before every pixel of row `row`.
proof fn lemma_earlier_row(width: int, col: int, r: int, row: int)
    requires
        0 <= col < width,
        0 <= r < row,
    ensures
        r * width + col < row * width,
{
    assert(r * width + col < row * width) by (nonlinear_arith)
        requires
            0 <= col < width,
            0 <= r < row,
    ;
}

/// Fills a band `bounds.0` pixels wide and `bounds.1` rows high: the byte
/// of each pixel becomes the intensity of the escape count that `escape`
/// gives for its column and row.
pub fn render_band<F: Fn(usize, usize) -> Option<usize>>(
    pixels: &mut [u8],
    bounds: (usize, usize),
    escape: F,
)
    requires
        old(pixels)@.len() == bounds.0 * bounds.1,
        forall|c: usize, r: usize| c < bounds.0 && r < bounds.1 ==> #[trigger] escape.requires((c, r)),
    ensures
        final(pixels)@.len() == old(pixels)@.len(),
        forall|c: int, r: int|
            0 <= c < bounds.0 && 0 <= r < bounds.1 ==> #[trigger] pixel_rendered(
                escape,
                final(pixels)@,
                bounds.0 as int,
                c,
                r,
            ),
{
    let width = bounds.0;
    let height = bounds.1;
    let total: usize = pixels.len();
    let mut row: usize = 0;
    while row < height
        invariant
            total == width * height,
            pixels@.len() == width * height,
            width == bounds.0,
            height == bounds.1,
            row <= height,
            forall|c: usize, r: usize| c < width && r < height ==> #[trigger] escape.requires((c, r)),
            forall|c: int, r: int|
                0 <= c < width && 0 <= r < row ==> #[trigger] pixel_rendered(
                    escape,
                    pixels@,
                    width as int,
                    c,
                    r,
                ),
        decreases height - row,
    {
        let mut col: usize = 0;
        while col < width
            invariant
                total == width * height,
                pixels@.len() == width * height,
                width == bounds.0,
                height == bounds.1,
                row < height,
                col <= width,
                forall|c: usize, r: usize|
                    c < width && r < height ==> #[trigger] escape.requires((c, r)),
                forall|c: int, r: int|
                    0 <= c < width && 0 <= r < row ==> #[trigger] pixel_rendered(
                        escape,
                        pixels@,
                        width as int,
                        c,
                        r,
                    ),
                forall|c: int|
                    0 <= c < col ==> #[trigger] pixel_rendered(
                        escape,
                        pixels@,
                        width as int,
                        c,
                        row as int,
                    ),
            decreases width - col,
        {
            proof {
                lemma_pixel_in_buffer(width as int, height as int, col as int, row as int);
            }
            let steps = escape(col, row);
            let index = row * width + col;
            let ghost before = pixels@;
            pixels[index] = intensity(steps);
            proof {
                assert forall|c: int, r: int|
                    0 <= c < width && 0 <= r < row implies #[trigger] pixel_rendered(
                        escape,
                        pixels@,
                        width as int,
                        c,
                        r,
                    ) by {
                    assert(pixel_rendered(escape, before, width as int, c, r));
                    lemma_earlier_row(width as int, c, r, row as int);
                    lemma_pixel_in_buffer(width as int, height as int, c, r);
                    assert(pixels@[r * width + c] == before[r * width + c]);
                }
                assert forall|c: int| 0 <= c < col + 1 implies #[trigger] pixel_rendered(
                    escape,
                    pixels@,
                    width as int,
                    c,
                    row as int,
                ) by {
                    if c < col {
                        assert(pixel_rendered(escape, before, width as int, c, row as int));
                        assert(pixels@[row * width + c] == before[row * width + c]);
                    } else {
                        assert(escape.ensures((c as usize, row as usize), steps));
                    }
                }
            }
            col = col + 1;
        }
        row = row + 1;
    }
}

} // verus!
