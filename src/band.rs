//! Partition of an image's rows into contiguous horizontal bands, one unit
//! of work each.
use vstd::arithmetic::div_mod::{lemma_fundamental_div_mod, lemma_mod_pos_bound};
use vstd::prelude::*;

verus! {

/// Rows `[top, top + rows)` of the full image.
#[derive(Clone, Copy, Debug, PartialEq, Eq, Structural)]
pub struct Band {
    pub top: usize,
    pub rows: usize,
}

/// Row `r` lies in band `b`.
pub open spec fn band_holds_row(b: Band, r: int) -> bool {
    b.top <= r < b.top + b.rows
}

/// Byte `p` of a row-major buffer `width` pixels wide lies in band `b`.
pub open spec fn band_holds_byte(b: Band, width: int, p: int) -> bool {
    b.top * width <= p < (b.top + b.rows) * width
}

/// Some band of `bands` holds byte `p` of a buffer `width` pixels wide.
pub open spec fn covers_byte(bands: Seq<Band>, width: int, p: int) -> bool {
    exists|i: int| 0 <= i < bands.len() && band_holds_byte(#[trigger] bands[i], width, p)
}

impl Band {
    /// Pixel bounds of the band: the full width and the band's own rows.
    pub fn bounds(&self, width: usize) -> (r: (usize, usize))
        ensures
            r == (width, self.rows),
    {
        (width, self.rows)
    }

    /// The pixel of the full image at the band's upper-left corner.
    pub fn upper_left_pixel(&self) -> (r: (usize, usize))
        ensures
            r == (0usize, self.top),
    {
        (0, self.top)
    }

    /// The pixel of the full image at the band's lower-right corner: one
    /// past its last column and one below its last row.
    pub fn lower_right_pixel(&self, width: usize) -> (r: (usize, usize))
        requires
            self.top + self.rows <= usize::MAX,
        ensures
            r.0 == width,
            r.1 == self.top + self.rows,
    {
        (width, self.top + self.rows)
    }

    /// Start and end, end excluded, of the band's bytes in a row-major
    /// buffer `width` pixels wide.
    pub fn byte_range(&self, width: usize) -> (r: (usize, usize))
        requires
            self.top + self.rows <= usize::MAX,
            (self.top + self.rows) * width <= usize::MAX,
        ensures
            r.0 == self.top * width,
            r.1 == (self.top + self.rows) * width,
            forall|p: int| #[trigger] band_holds_byte(*self, width as int, p) <==> r.0 <= p < r.1,
    {
        proof {
            assert(self.top * width <= (self.top + self.rows) * width) by (nonlinear_arith);
        }
        (self.top * width, (self.top + self.rows) * width)
    }
}

/// Some band of `bands` holds row `r`.
pub open spec fn covers_row(bands: Seq<Band>, r: int) -> bool {
    exists|i: int| 0 <= i < bands.len() && band_holds_row(#[trigger] bands[i], r)
}

/// Bands of `per_band` rows from row `top` down to row `height`; the last
/// one keeps whatever rows remain.
pub open spec fn bands_from(top: usize, height: usize, per_band: usize) -> Seq<Band>
    decreases height - top,
{
    if top >= height || per_band == 0 {
        Seq::empty()
    } else {
        let rows = if height - top < per_band {
            (height - top) as usize
        } else {
            per_band
        };
        seq![Band { top, rows }] + bands_from((top + rows) as usize, height, per_band)
    }
}

/// Rows in each band when `height` rows go to `workers` workers: the
/// truncated quotient plus one.
pub open spec fn rows_per_band_of(height: usize, workers: usize) -> int {
    height / workers + 1
}

/// The bands that `partition_rows` yields.
pub open spec fn row_bands(height: usize, workers: usize) -> Seq<Band> {
    bands_from(0, height, rows_per_band_of(height, workers) as usize)
}

/// Rows in each band but the last.
pub fn rows_per_band(height: usize, workers: usize) -> (r: usize)
    requires
        workers > 0,
        height / workers < usize::MAX,
    ensures
        r == rows_per_band_of(height, workers),
        r > 0,
{
    height / workers + 1
}

/// Splits rows `[0, height)` into consecutive bands of `rows_per_band` rows;
/// the last band may be shorter, and no band is empty.
pub fn partition_rows(height: usize, workers: usize) -> (bands: Vec<Band>)
    requires
        workers > 0,
        height / workers < usize::MAX,
    ensures
        bands@ == row_bands(height, workers),
        bands@.len() <= workers,
        forall|i: int| 0 <= i < bands@.len() ==> #[trigger] bands@[i].rows > 0,
{
    let per_band = rows_per_band(height, workers);
    let mut bands: Vec<Band> = Vec::new();
    let mut top: usize = 0;
    while top < height
        invariant
            top <= height,
            per_band == rows_per_band_of(height, workers),
            per_band > 0,
            bands@ + bands_from(top, height, per_band) == row_bands(height, workers),
            top < height ==> top == bands@.len() * per_band,
            bands@.len() > 0 ==> (bands@.len() - 1) * per_band < top,
        decreases height - top,
    {
        let rows: usize = if height - top < per_band {
            height - top
        } else {
            per_band
        };
        let ghost rest = bands_from((top + rows) as usize, height, per_band);
        assert(bands_from(top, height, per_band) == seq![Band { top, rows }] + rest);
        assert(bands@ + bands_from(top, height, per_band) == bands@.push(Band { top, rows })
            + rest);
        proof {
            let k = bands@.len() as int;
            if rows == per_band {
                assert(top + rows == (k + 1) * per_band) by (nonlinear_arith)
                    requires
                        top == k * per_band,
                        rows == per_band,
                ;
            }
        }
        bands.push(Band { top, rows });
        top = top + rows;
    }
    proof {
        lemma_bands_from_tile(0, height, per_band);
        lemma_fundamental_div_mod(height as int, workers as int);
        lemma_mod_pos_bound(height as int, workers as int);
        let k = bands@.len() as int;
        let q = height as int / workers as int;
        let m = height as int % workers as int;
        if k > 0 {
            assert(k <= workers) by (nonlinear_arith)
                requires
                    (k - 1) * per_band < height,
                    per_band == q + 1,
                    height == workers * q + m,
                    m < workers,
                    workers > 0,
                    q >= 0,
            ;
        }
    }
    assert(bands_from(top, height, per_band) == Seq::<Band>::empty());
    assert(bands@ + Seq::<Band>::empty() == bands@);
    bands
}

/// The bands from row `top` lie in order, each non-empty and inside
/// `[top, height)`, and together they hold every row of that range.
proof fn lemma_bands_from_tile(top: usize, height: usize, per_band: usize)
    requires
        per_band > 0,
        top <= height,
    ensures
        forall|i: int|
            #![trigger bands_from(top, height, per_band)[i]]
            0 <= i < bands_from(top, height, per_band).len() ==> {
                let b = bands_from(top, height, per_band)[i];
                b.rows > 0 && top <= b.top && b.top + b.rows <= height
            },
        forall|i: int, j: int|
            0 <= i < j < bands_from(top, height, per_band).len() ==> #[trigger] bands_from(
                top,
                height,
                per_band,
            )[i].top + bands_from(top, height, per_band)[i].rows <= #[trigger] bands_from(
                top,
                height,
                per_band,
            )[j].top,
        forall|r: int| top <= r < height ==> #[trigger] covers_row(bands_from(top, height, per_band), r),
    decreases height - top,
{
    if top < height {
        let rows = if height - top < per_band {
            (height - top) as usize
        } else {
            per_band
        };
        let next = (top + rows) as usize;
        lemma_bands_from_tile(next, height, per_band);
        let s = bands_from(top, height, per_band);
        let rest = bands_from(next, height, per_band);
        assert(s == seq![Band { top, rows }] + rest);
        assert forall|i: int| 0 < i < s.len() implies s[i] == rest[i - 1] by {}
        assert forall|i: int, j: int|
            0 <= i < j < s.len() implies #[trigger] s[i].top + s[i].rows <= #[trigger] s[j].top by {
            assert(s[j] == rest[j - 1]);
            if i > 0 {
                assert(s[i] == rest[i - 1]);
            }
        }
        assert forall|r: int| top <= r < height implies #[trigger] covers_row(s, r) by {
            if r < next {
                assert(band_holds_row(s[0], r));
            } else {
                assert(covers_row(rest, r));
                let k = choose|k: int| 0 <= k < rest.len() && band_holds_row(#[trigger] rest[k], r);
                assert(s[k + 1] == rest[k]);
                assert(band_holds_row(s[k + 1], r));
            }
        }
    }
}

/// Every row of the image lies in exactly one band, and no band reaches
/// past the last row.
pub proof fn lemma_rows_covered_once(height: usize, workers: usize)
    requires
        workers > 0,
        height / workers < usize::MAX,
    ensures
        forall|r: int| 0 <= r < height ==> #[trigger] covers_row(row_bands(height, workers), r),
        forall|i: int, j: int, r: int|
            0 <= i < row_bands(height, workers).len() && 0 <= j < row_bands(height, workers).len()
                && #[trigger] band_holds_row(row_bands(height, workers)[i], r)
                && #[trigger] band_holds_row(row_bands(height, workers)[j], r) ==> i == j,
        forall|i: int, r: int|
            0 <= i < row_bands(height, workers).len() && #[trigger] band_holds_row(
                row_bands(height, workers)[i],
                r,
            ) ==> 0 <= r < height,
{
    let per_band = rows_per_band_of(height, workers) as usize;
    lemma_bands_from_tile(0, height, per_band);
    let s = row_bands(height, workers);
    assert forall|i: int, j: int, r: int|
        0 <= i < s.len() && 0 <= j < s.len() && #[trigger] band_holds_row(s[i], r)
            && #[trigger] band_holds_row(s[j], r) implies i == j by {
        if i < j {
            assert(s[i].top + s[i].rows <= s[j].top);
        } else if j < i {
            assert(s[j].top + s[j].rows <= s[i].top);
        }
    }
}

/// `a` rows of `width` bytes end at or before byte `p` just when `a` is at
/// most the row of byte `p`.
proof fn lemma_rows_before_byte(a: int, width: int, p: int)
    requires
        0 <= a,
        0 < width,
        0 <= p,
    ensures
        (a * width <= p) == (a <= p / width),
{
    lemma_fundamental_div_mod(p, width);
    lemma_mod_pos_bound(p, width);
    let q = p / width;
    if a <= q {
        assert(a * width <= width * q) by (nonlinear_arith)
            requires
                a <= q,
                0 < width,
        ;
    } else {
        assert(a * width >= width * q + width) by (nonlinear_arith)
            requires
                a >= q + 1,
                0 < width,
        ;
    }
}

/// A band holds a byte just when it holds the byte's row.
proof fn lemma_byte_in_row(b: Band, width: int, p: int)
    requires
        0 < width,
    ensures
        band_holds_byte(b, width, p) <==> 0 <= p && band_holds_row(b, p / width),
{
    assert(0 <= b.top * width) by (nonlinear_arith)
        requires
            0 < width,
            0 <= b.top,
    ;
    if 0 <= p {
        lemma_rows_before_byte(b.top as int, width, p);
        lemma_rows_before_byte(b.top + b.rows, width, p);
    }
}

/// Every byte of a buffer of `width` by `height` pixels lies in exactly one
/// band, and no band reaches past the buffer's end: filling each band's
/// bytes once fills the whole buffer once.
pub proof fn lemma_bytes_covered_once(width: usize, height: usize, workers: usize)
    requires
        width > 0,
        workers > 0,
        height / workers < usize::MAX,
    ensures
        forall|p: int|
            0 <= p < width * height ==> #[trigger] covers_byte(
                row_bands(height, workers),
                width as int,
                p,
            ),
        forall|i: int, j: int, p: int|
            0 <= i < row_bands(height, workers).len() && 0 <= j < row_bands(height, workers).len()
                && #[trigger] band_holds_byte(row_bands(height, workers)[i], width as int, p)
                && #[trigger] band_holds_byte(row_bands(height, workers)[j], width as int, p)
                ==> i == j,
        forall|i: int, p: int|
            0 <= i < row_bands(height, workers).len() && #[trigger] band_holds_byte(
                row_bands(height, workers)[i],
                width as int,
                p,
            ) ==> 0 <= p < width * height,
{
    let s = row_bands(height, workers);
    let w = width as int;
    lemma_rows_covered_once(height, workers);
    assert forall|p: int| 0 <= p < width * height implies #[trigger] covers_byte(s, w, p) by {
        lemma_rows_before_byte(height as int, w, p);
        assert(height * w == width * height) by (nonlinear_arith)
            requires
                w == width,
        ;
        assert(covers_row(s, p / w));
        let i = choose|i: int| 0 <= i < s.len() && band_holds_row(#[trigger] s[i], p / w);
        lemma_byte_in_row(s[i], w, p);
    }
    assert forall|i: int, j: int, p: int|
        0 <= i < s.len() && 0 <= j < s.len() && #[trigger] band_holds_byte(s[i], w, p)
            && #[trigger] band_holds_byte(s[j], w, p) implies i == j by {
        lemma_byte_in_row(s[i], w, p);
        lemma_byte_in_row(s[j], w, p);
    }
    assert forall|i: int, p: int|
        0 <= i < s.len() && #[trigger] band_holds_byte(s[i], w, p) implies 0 <= p < width
        * height by {
        lemma_byte_in_row(s[i], w, p);
        lemma_rows_before_byte(height as int, w, p);
        assert(height * w == width * height) by (nonlinear_arith)
            requires
                w == width,
        ;
    }
}

} // verus!
