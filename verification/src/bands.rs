//! Horizontal bands: the image's rows divided into contiguous runs, one per
//! worker, so that every row is painted by exactly one of them.

use vstd::prelude::*;

verus! {

/// The rows `first_row..end_row` of an image, the end not included.
#[derive(Clone, Copy, Debug, PartialEq, Eq, Structural)]
pub struct Band {
    pub first_row: usize,
    pub end_row: usize,
}

/// Rows given to each band but the last: the quotient of the division of the
/// rows among the bands, and one more, so that `band_count` bands of this
/// size always hold more than `height` rows.
pub open spec fn rows_per_band(height: nat, band_count: nat) -> nat
    recommends
        band_count >= 1,
{
    height / band_count + 1
}

/// First row of the band with the given index.
pub open spec fn band_start(height: nat, band_count: nat, index: nat) -> nat {
    index * rows_per_band(height, band_count)
}

/// Row at which the band with the given index ends: a full band's worth
/// after its start, or the end of the image where that comes first.
pub open spec fn band_end(height: nat, band_count: nat, index: nat) -> nat {
    let full = (index + 1) * rows_per_band(height, band_count);
    if full < height {
        full
    } else {
        height
    }
}

/// The band with the given index holds `row`.
pub open spec fn band_holds(height: nat, band_count: nat, index: nat, row: nat) -> bool {
    band_start(height, band_count, index) <= row < band_end(height, band_count, index)
}

/// Index of the band in which `row` falls.
pub open spec fn band_of(height: nat, band_count: nat, row: nat) -> nat {
    row / rows_per_band(height, band_count)
}

/// Number of bands that hold at least one row: the band of the last row and
/// all those before it.
pub open spec fn live_bands(height: nat, band_count: nat) -> nat {
    if height == 0 {
        0
    } else {
        band_of(height, band_count, (height - 1) as nat) + 1
    }
}

/// The bands follow one another from row 0 to row `height`, each holding at
/// least one row: together they hold every row of the image exactly once.
pub open spec fn tiles_rows(bands: Seq<Band>, height: nat) -> bool {
    &&& forall|k: int| 0 <= k < bands.len() ==> (#[trigger] bands[k]).first_row < bands[k].end_row
    &&& forall|k: int, next: int|
        0 <= k && next == k + 1 && next < bands.len() ==> (#[trigger] bands[k]).end_row == (
        #[trigger] bands[next]).first_row
    &&& if bands.len() == 0 {
        height == 0
    } else {
        bands.first().first_row == 0 && bands.last().end_row == height
    }
}

impl Band {
    /// The band does not end before it starts.
    pub open spec fn wf(&self) -> bool {
        self.first_row <= self.end_row
    }

    /// `row` is one of the rows of the band.
    pub open spec fn holds(&self, row: nat) -> bool {
        self.first_row <= row < self.end_row
    }

    /// Number of rows in the band.
    pub open spec fn row_count(&self) -> nat {
        (self.end_row - self.first_row) as nat
    }

    /// Bounds of the band taken as an image of its own, `width` pixels wide.
    pub open spec fn bounds(&self, width: usize) -> (usize, usize) {
        (width, (self.end_row - self.first_row) as usize)
    }

    /// Number of rows in the band.
    pub fn rows(&self) -> (count: usize)
        requires
            self.wf(),
        ensures
            count == self.row_count(),
    {
        self.end_row - self.first_row
    }

    /// Where the band lies in a row-major buffer of an image `width` pixels
    /// wide: the offsets of its first pixel and of the pixel after its last.
    pub fn pixel_range(&self, width: usize) -> (range: (usize, usize))
        requires
            self.wf(),
            self.end_row * width <= usize::MAX,
        ensures
            range.0 == self.first_row * width,
            range.1 == self.end_row * width,
            range.1 - range.0 == self.row_count() * width,
    {
        proof {
            assert(self.first_row * width <= self.end_row * width) by (nonlinear_arith)
                requires
                    self.first_row <= self.end_row,
            ;
            assert(self.end_row * width - self.first_row * width == (self.end_row
                - self.first_row) * width) by (nonlinear_arith);
        }
        (self.first_row * width, self.end_row * width)
    }
}

/// A row lies between `index` bands' worth of rows and one band's worth
/// more exactly when `index` is its quotient by the band size.
proof fn lemma_band_of_bracket(size: nat, index: nat, row: nat)
    requires
        size > 0,
    ensures
        (index * size <= row < (index + 1) * size) <==> index == row / size,
{
    vstd::arithmetic::div_mod::lemma_fundamental_div_mod(row as int, size as int);
    if index * size <= row < (index + 1) * size {
        let rest = row - index * size;
        assert(rest < size) by (nonlinear_arith)
            requires
                rest == row - index * size,
                row < (index + 1) * size,
        ;
        vstd::arithmetic::div_mod::lemma_fundamental_div_mod_converse_div(
            row as int,
            size as int,
            index as int,
            rest,
        );
    }
    if index == row / size {
        let rest = row % size;
        assert(index * size <= row < (index + 1) * size) by (nonlinear_arith)
            requires
                row == size * index + rest,
                0 <= rest < size,
        ;
    }
}

/// `band_count` bands of the chosen size hold more rows than the image has.
proof fn lemma_bands_exceed_height(height: nat, band_count: nat)
    requires
        band_count >= 1,
    ensures
        band_count * rows_per_band(height, band_count) > height,
{
    let q = height / band_count;
    let r = height % band_count;
    vstd::arithmetic::div_mod::lemma_fundamental_div_mod(height as int, band_count as int);
    assert(band_count * (q + 1) > height) by (nonlinear_arith)
        requires
            height == band_count * q + r,
            0 <= r < band_count,
    ;
}

/// The band with a given index holds a row exactly when the row is in the
/// image and the index is that of the row's band.
pub proof fn lemma_band_holds(height: nat, band_count: nat, index: nat, row: nat)
    requires
        band_count >= 1,
    ensures
        band_holds(height, band_count, index, row) <==> (row < height && index == band_of(
            height,
            band_count,
            row,
        )),
        row < height ==> band_of(height, band_count, row) < band_count,
{
    let size = rows_per_band(height, band_count);
    lemma_band_of_bracket(size, index, row);
    if row < height {
        let i = band_of(height, band_count, row);
        lemma_band_of_bracket(size, i, row);
        lemma_bands_exceed_height(height, band_count);
        assert(i < band_count) by (nonlinear_arith)
            requires
                i * size <= row,
                row < height,
                band_count * size > height,
                size > 0,
        ;
    }
}

/// The bands divide the rows of the image among themselves: every row of
/// the image is held by its band, every band that holds a row is one of the
/// `band_count` bands and the row is in the image, and no row is held by two
/// bands.
pub proof fn lemma_bands_partition_rows(height: nat, band_count: nat)
    requires
        band_count >= 1,
    ensures
        forall|row: nat|
            row < height ==> band_holds(
                height,
                band_count,
                #[trigger] band_of(height, band_count, row),
                row,
            ),
        forall|index: nat, row: nat| #[trigger]
            band_holds(height, band_count, index, row) ==> index < band_count && row < height,
        forall|first: nat, second: nat, row: nat|
            #![trigger band_holds(height, band_count, first, row), band_holds(height, band_count, second, row)]
            band_holds(height, band_count, first, row) && band_holds(
                height,
                band_count,
                second,
                row,
            ) ==> first == second,
{
    assert forall|row: nat| row < height implies band_holds(
        height,
        band_count,
        #[trigger] band_of(height, band_count, row),
        row,
    ) by {
        lemma_band_holds(height, band_count, band_of(height, band_count, row), row);
    }
    assert forall|index: nat, row: nat| #[trigger]
        band_holds(height, band_count, index, row) implies index < band_count && row < height by {
        lemma_band_holds(height, band_count, index, row);
    }
    assert forall|first: nat, second: nat, row: nat|
        #![trigger band_holds(height, band_count, first, row), band_holds(height, band_count, second, row)]
        band_holds(height, band_count, first, row) && band_holds(
            height,
            band_count,
            second,
            row,
        ) implies first == second by {
        lemma_band_holds(height, band_count, first, row);
        lemma_band_holds(height, band_count, second, row);
    }
}

/// The bands that hold a row are the first `live_bands` ones, and there are
/// never more of them than `band_count`.
pub proof fn lemma_live_bands(height: nat, band_count: nat, index: nat)
    requires
        band_count >= 1,
    ensures
        live_bands(height, band_count) <= band_count,
        index < live_bands(height, band_count) <==> band_start(height, band_count, index)
            < band_end(height, band_count, index),
{
    let size = rows_per_band(height, band_count);
    if height > 0 {
        let last = (height - 1) as nat;
        let top = band_of(height, band_count, last);
        lemma_band_holds(height, band_count, top, last);
        lemma_band_of_bracket(size, top, last);
        if index <= top {
            assert(index * size <= top * size) by (nonlinear_arith)
                requires
                    index <= top,
            ;
            assert(index * size < (index + 1) * size) by (nonlinear_arith)
                requires
                    size > 0,
            ;
        } else {
            assert(index * size >= (top + 1) * size) by (nonlinear_arith)
                requires
                    index >= top + 1,
            ;
        }
    } else {
        assert(index * size >= 0) by (nonlinear_arith);
    }
}

/// One of the bands holds `row`.
pub open spec fn some_band_holds(bands: Seq<Band>, row: nat) -> bool {
    exists|k: int| 0 <= k < bands.len() && #[trigger] bands[k].holds(row)
}

/// In a tiling a band ends where a later one starts or before.
pub proof fn lemma_tiles_ordered(bands: Seq<Band>, height: nat, earlier: int, later: int)
    requires
        tiles_rows(bands, height),
        0 <= earlier <= later < bands.len(),
    ensures
        bands[earlier].end_row <= bands[later].end_row,
        earlier < later ==> bands[earlier].end_row <= bands[later].first_row,
    decreases later - earlier,
{
    if earlier < later {
        lemma_tiles_ordered(bands, height, earlier + 1, later);
        assert(bands[earlier].end_row == bands[earlier + 1].first_row);
        assert(bands[earlier + 1].first_row < bands[earlier + 1].end_row);
    }
}

/// In a tiling no band reaches below the image.
pub proof fn lemma_tiles_within(bands: Seq<Band>, height: nat, k: int)
    requires
        tiles_rows(bands, height),
        0 <= k < bands.len(),
    ensures
        bands[k].first_row < bands[k].end_row <= height,
{
    lemma_tiles_ordered(bands, height, k, bands.len() - 1);
}

/// In a tiling every row of the image is held by a band, at or after any
/// band that starts at or above the row.
pub proof fn lemma_tiles_cover(bands: Seq<Band>, height: nat, row: nat, from: int) -> (k: int)
    requires
        tiles_rows(bands, height),
        row < height,
        0 <= from < bands.len(),
        bands[from].first_row <= row,
    ensures
        from <= k < bands.len(),
        bands[k].first_row <= row < bands[k].end_row,
    decreases bands.len() - from,
{
    if row < bands[from].end_row {
        from
    } else {
        assert(bands[from].end_row == bands[from + 1].first_row);
        lemma_tiles_cover(bands, height, row, from + 1)
    }
}

/// The bands of a tiling divide the rows of the image among themselves:
/// every row of the image is held by a band, every row that a band holds is
/// a row of the image, and two different bands hold no row in common.
pub proof fn lemma_tiling_partitions_rows(bands: Seq<Band>, height: nat)
    requires
        tiles_rows(bands, height),
    ensures
        forall|row: nat| row < height ==> #[trigger] some_band_holds(bands, row),
        forall|k: int, row: nat|
            0 <= k < bands.len() && #[trigger] bands[k].holds(row) ==> row < height,
        forall|j: int, k: int, row: nat|
            0 <= j < k < bands.len() && #[trigger] bands[j].holds(row) ==> !#[trigger] bands[k].holds(
                row,
            ),
{
    assert forall|row: nat| row < height implies #[trigger] some_band_holds(bands, row) by {
        let found = lemma_tiles_cover(bands, height, row, 0);
        assert(bands[found].holds(row));
    }
    assert forall|k: int, row: nat|
        0 <= k < bands.len() && #[trigger] bands[k].holds(row) implies row < height by {
        lemma_tiles_within(bands, height, k);
    }
    assert forall|j: int, k: int, row: nat|
        0 <= j < k < bands.len() && #[trigger] bands[j].holds(row) implies !#[trigger] bands[k].holds(
        row,
    ) by {
        lemma_tiles_ordered(bands, height, j, k);
    }
}

/// Divides `height` rows into at most `band_count` bands and lists, from the
/// top of the image down, those that hold at least one row.
pub fn plan_bands(height: usize, band_count: usize) -> (bands: Vec<Band>)
    requires
        band_count >= 1,
    ensures
        bands@.len() == live_bands(height as nat, band_count as nat),
        bands@.len() <= band_count,
        forall|k: int|
            0 <= k < bands@.len() ==> {
                &&& (#[trigger] bands@[k]).first_row == band_start(
                    height as nat,
                    band_count as nat,
                    k as nat,
                )
                &&& bands@[k].end_row == band_end(height as nat, band_count as nat, k as nat)
            },
        tiles_rows(bands@, height as nat),
{
    let quotient: usize = height / band_count;
    let ghost per_band = rows_per_band(height as nat, band_count as nat);
    let mut bands: Vec<Band> = Vec::new();
    let mut top: usize = 0;
    proof {
        assert(0 * per_band == 0) by (nonlinear_arith);
    }
    while top < height
        invariant
            band_count >= 1,
            per_band == rows_per_band(height as nat, band_count as nat),
            per_band == quotient + 1,
            top <= height,
            top < height ==> top == bands@.len() * per_band,
            top == height ==> bands@.len() == live_bands(height as nat, band_count as nat),
            forall|k: int|
                0 <= k < bands@.len() ==> {
                    &&& (#[trigger] bands@[k]).first_row == band_start(
                        height as nat,
                        band_count as nat,
                        k as nat,
                    )
                    &&& bands@[k].end_row == band_end(height as nat, band_count as nat, k as nat)
                    &&& bands@[k].first_row < bands@[k].end_row
                },
            forall|k: int, next: int|
                0 <= k && next == k + 1 && next < bands@.len() ==> (#[trigger] bands@[k]).end_row
                    == (#[trigger] bands@[next]).first_row,
            bands@.len() > 0 ==> bands@.first().first_row == 0 && bands@.last().end_row == top,
        decreases height - top,
    {
        let ghost index = bands@.len();
        let end: usize = if height - top - 1 > quotient {
            top + (quotient + 1)
        } else {
            height
        };
        proof {
            assert((index + 1) * per_band == top + per_band && (index == 0 ==> top == 0))
                by (nonlinear_arith)
                requires
                    top == index * per_band,
            ;
            if end == height {
                lemma_band_of_bracket(per_band, index, (height - 1) as nat);
            }
        }
        bands.push(Band { first_row: top, end_row: end });
        top = end;
    }
    proof {
        lemma_live_bands(height as nat, band_count as nat, 0);
    }
    bands
}

} // verus!
