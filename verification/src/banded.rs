//! Painting an image band by band.
//!
//! The raster is cut into the parts that hold the rows of each band, every
//! part is painted as a small image of its own, and the parts together are
//! the whole image, however the rows were divided.

use crate::bands::{lemma_tiles_within, plan_bands, tiles_rows, Band};
use crate::raster::{
    lemma_offset_in_raster, lemma_painting_determined, painted, painted_rows, pixel_offset,
    render, shade_spec, shaded_by, single_valued,
};
use vstd::prelude::*;

verus! {

/// The part of the raster of an image `width` pixels wide that holds the
/// rows of `band`.
pub open spec fn band_pixels(pixels: Seq<u8>, width: usize, band: Band) -> Seq<u8> {
    pixels.subrange(band.first_row * width, band.end_row * width)
}

/// The pieces put one after another.
pub open spec fn joined(pieces: Seq<Seq<u8>>) -> Seq<u8>
    decreases pieces.len(),
{
    if pieces.len() == 0 {
        Seq::empty()
    } else {
        joined(pieces.drop_last()) + pieces.last()
    }
}

/// Every escape time that `band_escape_at` gives for a pixel of a band that
/// starts at `first_row`, the row counted from the band's first, is one that
/// `escape_at` gives for that pixel of the whole image.
pub open spec fn follows<F: Fn(usize, usize) -> Option<u32>, G: Fn(usize, usize) -> Option<u32>>(
    band_escape_at: F,
    escape_at: G,
    width: usize,
    first_row: usize,
    rows: usize,
) -> bool {
    forall|column: usize, row: usize, escape: Option<u32>|
        #![trigger band_escape_at.ensures((column, row), escape)]
        column < width && row < rows && band_escape_at.ensures((column, row), escape)
            ==> escape_at.ensures((column, (first_row + row) as usize), escape)
}

/// A whole image is the rows from the first to the last of it.
pub proof fn lemma_painted_is_all_rows<G: Fn(usize, usize) -> Option<u32>>(
    pixels: Seq<u8>,
    bounds: (usize, usize),
    escape_at: G,
)
    ensures
        painted(pixels, bounds, escape_at) <==> painted_rows(
            pixels,
            bounds.0,
            0,
            bounds.1,
            escape_at,
        ),
{
    let width = bounds.0;
    assert(0 * width == 0) by (nonlinear_arith);
    if painted(pixels, bounds, escape_at) {
        assert forall|column: usize, row: usize|
            #![trigger pixel_offset(width as int, column as int, row as int)]
            column < width && 0 <= row < bounds.1 implies shaded_by(
            escape_at,
            column,
            row,
            pixels[pixel_offset(width as int, column as int, row as int) - 0 * width],
        ) by {}
    }
    if painted_rows(pixels, width, 0, bounds.1, escape_at) {
        assert forall|column: usize, row: usize|
            #![trigger pixel_offset(width as int, column as int, row as int)]
            column < width && row < bounds.1 implies shaded_by(
            escape_at,
            column,
            row,
            pixels[pixel_offset(width as int, column as int, row as int)],
        ) by {
            assert(pixel_offset(width as int, column as int, row as int) - 0 * width
                == pixel_offset(width as int, column as int, row as int));
        }
    }
}

/// A band painted as an image of its own holds its rows of the whole image,
/// where its evaluator follows that of the whole image.
pub proof fn lemma_band_painted<
    F: Fn(usize, usize) -> Option<u32>,
    G: Fn(usize, usize) -> Option<u32>,
>(part: Seq<u8>, width: usize, band: Band, band_escape_at: F, escape_at: G)
    requires
        band.wf(),
        painted(part, band.bounds(width), band_escape_at),
        follows(band_escape_at, escape_at, width, band.first_row, band.bounds(width).1),
    ensures
        painted_rows(part, width, band.first_row, band.end_row, escape_at),
{
    let first_row = band.first_row;
    let rows = band.bounds(width).1;
    assert forall|column: usize, row: usize|
        #![trigger pixel_offset(width as int, column as int, row as int)]
        column < width && first_row <= row < band.end_row implies shaded_by(
        escape_at,
        column,
        row,
        part[pixel_offset(width as int, column as int, row as int) - first_row * width],
    ) by {
        let place = pixel_offset(width as int, column as int, row as int);
        let local = (row - first_row) as usize;
        let local_place = pixel_offset(width as int, column as int, local as int);
        assert(local_place + first_row * width == place) by (nonlinear_arith)
            requires
                local == row - first_row,
                place == row * width + column,
                local_place == local * width + column,
        ;
        assert(shaded_by(band_escape_at, column, local, part[local_place]));
        let escape = choose|escape: Option<u32>|
            #![trigger band_escape_at.ensures((column, local), escape)]
            band_escape_at.ensures((column, local), escape) && part[local_place]
                == shade_spec(escape);
        assert(escape_at.ensures((column, row), escape));
    }
}

/// Rows put below the rows that end where they start make the rows from the
/// first of the upper to the last of the lower.
pub proof fn lemma_rows_join<G: Fn(usize, usize) -> Option<u32>>(
    upper: Seq<u8>,
    lower: Seq<u8>,
    width: usize,
    first_row: usize,
    middle_row: usize,
    end_row: usize,
    escape_at: G,
)
    requires
        painted_rows(upper, width, first_row, middle_row, escape_at),
        painted_rows(lower, width, middle_row, end_row, escape_at),
    ensures
        painted_rows(upper + lower, width, first_row, end_row, escape_at),
{
    let both = upper + lower;
    assert(both.len() == width * (end_row - first_row)) by (nonlinear_arith)
        requires
            both.len() == upper.len() + lower.len(),
            upper.len() == width * (middle_row - first_row),
            lower.len() == width * (end_row - middle_row),
    ;
    assert forall|column: usize, row: usize|
        #![trigger pixel_offset(width as int, column as int, row as int)]
        column < width && first_row <= row < end_row implies shaded_by(
        escape_at,
        column,
        row,
        both[pixel_offset(width as int, column as int, row as int) - first_row * width],
    ) by {
        let place = pixel_offset(width as int, column as int, row as int);
        let local = row - first_row;
        assert(place - first_row * width == pixel_offset(width as int, column as int, local))
            by (nonlinear_arith)
            requires
                place == row * width + column,
                local == row - first_row,
        ;
        if row < middle_row {
            lemma_offset_in_raster(
                width as int,
                middle_row - first_row,
                column as int,
                local,
            );
            assert(both[place - first_row * width] == upper[place - first_row * width]);
        } else {
            let lower_local = row - middle_row;
            lemma_offset_in_raster(
                width as int,
                end_row - middle_row,
                column as int,
                lower_local,
            );
            assert(place - first_row * width == upper.len() + pixel_offset(
                width as int,
                column as int,
                lower_local,
            )) by (nonlinear_arith)
                requires
                    place == row * width + column,
                    upper.len() == width * (middle_row - first_row),
                    lower_local == row - middle_row,
            ;
            assert(place - middle_row * width == pixel_offset(
                width as int,
                column as int,
                lower_local,
            )) by (nonlinear_arith)
                requires
                    place == row * width + column,
                    lower_local == row - middle_row,
            ;
            assert(both[place - first_row * width] == lower[place - middle_row * width]);
        }
    }
}

/// Each piece holds the rows of its band, painted.
pub open spec fn pieces_painted<G: Fn(usize, usize) -> Option<u32>>(
    pieces: Seq<Seq<u8>>,
    width: usize,
    bands: Seq<Band>,
    escape_at: G,
) -> bool {
    &&& pieces.len() == bands.len()
    &&& forall|k: int|
        0 <= k < bands.len() ==> painted_rows(
            pieces[k],
            width,
            (#[trigger] bands[k]).first_row,
            bands[k].end_row,
            escape_at,
        )
}

/// The pieces of the first `count` bands of a tiling, joined, hold the rows
/// of the image down to the end of the last of these bands.
proof fn lemma_bands_assemble_to<G: Fn(usize, usize) -> Option<u32>>(
    pieces: Seq<Seq<u8>>,
    bounds: (usize, usize),
    bands: Seq<Band>,
    escape_at: G,
    count: int,
)
    requires
        tiles_rows(bands, bounds.1 as nat),
        pieces_painted(pieces, bounds.0, bands, escape_at),
        0 <= count <= bands.len(),
    ensures
        painted_rows(
            joined(pieces.take(count)),
            bounds.0,
            0,
            if count == 0 {
                0
            } else {
                bands[count - 1].end_row
            },
            escape_at,
        ),
    decreases count,
{
    let width = bounds.0;
    if count == 0 {
        assert(joined(pieces.take(count)) =~= Seq::<u8>::empty());
        assert(width * (0 - 0) == 0) by (nonlinear_arith);
    } else {
        lemma_bands_assemble_to(pieces, bounds, bands, escape_at, count - 1);
        let band = bands[count - 1];
        assert(pieces.take(count).drop_last() =~= pieces.take(count - 1));
        assert(pieces.take(count).last() == pieces[count - 1]);
        if count > 1 {
            assert(bands[count - 2].end_row == bands[count - 1].first_row);
        }
        lemma_rows_join(
            joined(pieces.take(count - 1)),
            pieces[count - 1],
            width,
            0,
            band.first_row,
            band.end_row,
            escape_at,
        );
    }
}

/// Bands painted one by one make up the image: the pieces of the bands of a
/// tiling, each holding the painted rows of its band, are together the
/// painted image.
pub proof fn lemma_bands_assemble<G: Fn(usize, usize) -> Option<u32>>(
    pieces: Seq<Seq<u8>>,
    bounds: (usize, usize),
    bands: Seq<Band>,
    escape_at: G,
)
    requires
        tiles_rows(bands, bounds.1 as nat),
        pieces_painted(pieces, bounds.0, bands, escape_at),
    ensures
        painted(joined(pieces), bounds, escape_at),
{
    lemma_bands_assemble_to(pieces, bounds, bands, escape_at, bands.len() as int);
    assert(pieces.take(bands.len() as int) =~= pieces);
    lemma_painted_is_all_rows(joined(pieces), bounds, escape_at);
}

/// How the rows are divided into bands does not show in the image: with a
/// single-valued evaluator, two images of the same bounds that were painted
/// band by band are equal byte for byte, whatever the bands of each.
pub proof fn lemma_banding_irrelevant<G: Fn(usize, usize) -> Option<u32>>(
    bounds: (usize, usize),
    escape_at: G,
    pieces: Seq<Seq<u8>>,
    bands: Seq<Band>,
    other_pieces: Seq<Seq<u8>>,
    other_bands: Seq<Band>,
)
    requires
        single_valued(escape_at),
        tiles_rows(bands, bounds.1 as nat),
        pieces_painted(pieces, bounds.0, bands, escape_at),
        tiles_rows(other_bands, bounds.1 as nat),
        pieces_painted(other_pieces, bounds.0, other_bands, escape_at),
    ensures
        joined(pieces) == joined(other_pieces),
{
    lemma_bands_assemble(pieces, bounds, bands, escape_at);
    lemma_bands_assemble(other_pieces, bounds, other_bands, escape_at);
    lemma_painting_determined(joined(pieces), joined(other_pieces), bounds, escape_at);
}

/// The part of a band of a tiling lies inside the raster, and ends where the
/// part of the next band starts, or at the end of the raster.
proof fn lemma_band_in_raster(bands: Seq<Band>, bounds: (usize, usize), k: int)
    requires
        tiles_rows(bands, bounds.1 as nat),
        0 <= k < bands.len(),
    ensures
        bands[k].first_row < bands[k].end_row <= bounds.1,
        bands[k].first_row * bounds.0 <= bands[k].end_row * bounds.0 <= bounds.0 * bounds.1,
        bands[k].end_row * bounds.0 - bands[k].first_row * bounds.0 == bands[k].row_count()
            * bounds.0,
        bands[k].row_count() * bounds.0 == bounds.0 * bands[k].row_count(),
        k + 1 < bands.len() ==> bands[k].end_row == bands[k + 1].first_row,
        k + 1 == bands.len() ==> bands[k].end_row * bounds.0 == bounds.0 * bounds.1,
{
    let band = bands[k];
    let width = bounds.0;
    lemma_tiles_within(bands, bounds.1 as nat, k);
    assert(band.end_row * width <= width * bounds.1) by (nonlinear_arith)
        requires
            band.end_row <= bounds.1,
    ;
    assert(band.first_row * width <= band.end_row * width) by (nonlinear_arith)
        requires
            band.first_row <= band.end_row,
    ;
    assert(band.end_row * width - band.first_row * width == (band.end_row - band.first_row)
        * width) by (nonlinear_arith);
    assert((band.end_row - band.first_row) * width == width * (band.end_row - band.first_row))
        by (nonlinear_arith);
    if k + 1 < bands.len() {
        assert(bands[k].end_row == bands[k + 1].first_row);
    } else {
        assert(band == bands.last());
        assert(band.end_row * width == width * bounds.1) by (nonlinear_arith)
            requires
                band.end_row == bounds.1,
        ;
    }
}

/// Cuts the raster of an image into the parts that hold the rows of each
/// band of a tiling, in the order of the bands. The parts are what the
/// raster is made of: what is written into them is written into the raster.
pub fn split_bands<'a>(pixels: &'a mut [u8], bounds: (usize, usize), bands: &Vec<Band>) -> (parts:
    Vec<&'a mut [u8]>)
    requires
        old(pixels)@.len() == bounds.0 * bounds.1,
        tiles_rows(bands@, bounds.1 as nat),
    ensures
        parts@.len() == bands@.len(),
        forall|k: int|
            0 <= k < bands@.len() ==> parts@[k]@ == band_pixels(
                old(pixels)@,
                bounds.0,
                #[trigger] bands@[k],
            ),
        final(pixels)@ == joined(Seq::new(parts@.len(), |k: int| final(parts@[k])@)),
{
    let width: usize = bounds.0;
    let size: usize = pixels.len();
    let ghost whole = final(pixels)@;
    let ghost blank = pixels@;
    let mut parts: Vec<&'a mut [u8]> = Vec::new();
    let mut rest: &'a mut [u8] = pixels;
    let mut done: usize = 0;
    let mut k: usize = 0;
    proof {
        assert(Seq::new(parts@.len(), |j: int| final(parts@[j])@) =~= Seq::<Seq<u8>>::empty());
        assert(whole =~= Seq::<u8>::empty() + final(rest)@);
    }
    while k < bands.len()
        invariant
            width == bounds.0,
            size == bounds.0 * bounds.1,
            tiles_rows(bands@, bounds.1 as nat),
            0 <= k <= bands@.len(),
            parts@.len() == k,
            done <= size,
            k < bands@.len() ==> done == bands@[k as int].first_row * width,
            k == bands@.len() ==> done == size,
            rest@ == blank.subrange(done as int, size as int),
            blank.len() == size,
            blank == old(pixels)@,
            forall|j: int|
                0 <= j < k ==> parts@[j]@ == band_pixels(blank, bounds.0, #[trigger] bands@[j]),
            whole == joined(Seq::new(parts@.len(), |j: int| final(parts@[j])@)) + final(rest)@,
        decreases bands@.len() - k,
    {
        let band = bands[k];
        proof {
            lemma_band_in_raster(bands@, bounds, k as int);
        }
        let (start, end) = band.pixel_range(width);
        let ghost before = Seq::new(parts@.len(), |j: int| final(parts@[j])@);
        let ghost rest_final = final(rest)@;
        let (part, tail) = rest.split_at_mut(end - start);
        let ghost part_final = final(part)@;
        parts.push(part);
        rest = tail;
        done = end;
        k += 1;
        proof {
            let after = Seq::new(parts@.len(), |j: int| final(parts@[j])@);
            assert(after.drop_last() =~= before);
            assert(after.last() == part_final);
            assert(rest_final == part_final + final(rest)@);
            assert(joined(after) + final(rest)@ =~= joined(before) + rest_final);
        }
    }
    assert(rest@.len() == 0);
    parts
}

/// Paints the image of `bounds.0` columns and `bounds.1` rows into `pixels`
/// band by band, the rows being divided into at most `band_count` bands as
/// `plan_bands` divides them, and one band being painted after another. Each
/// pixel gets the grey level of the escape time that `escape_at` gives for
/// its column and its row in the whole image, so that the number of bands
/// does not show in the image.
pub fn render_all<G: Fn(usize, usize) -> Option<u32>>(
    pixels: &mut [u8],
    bounds: (usize, usize),
    band_count: usize,
    escape_at: G,
)
    requires
        old(pixels)@.len() == bounds.0 * bounds.1,
        band_count >= 1,
        forall|column: usize, row: usize|
            column < bounds.0 && row < bounds.1 ==> escape_at.requires((column, row)),
    ensures
        painted(final(pixels)@, bounds, escape_at),
{
    let width: usize = bounds.0;
    let size: usize = pixels.len();
    let bands = plan_bands(bounds.1, band_count);
    let evaluator = &escape_at;
    let ghost whole = final(pixels)@;
    let ghost mut done: Seq<u8> = Seq::empty();
    let mut rest: &mut [u8] = pixels;
    let mut top: usize = 0;
    let mut k: usize = 0;
    proof {
        assert(whole =~= done + final(rest)@);
        assert(width * (0 - 0) == 0) by (nonlinear_arith);
    }
    while k < bands.len()
        invariant
            width == bounds.0,
            size == bounds.0 * bounds.1,
            evaluator == &escape_at,
            tiles_rows(bands@, bounds.1 as nat),
            0 <= k <= bands@.len(),
            k < bands@.len() ==> top == bands@[k as int].first_row,
            k == bands@.len() ==> top == bounds.1,
            rest@.len() == size - top * width,
            whole == done + final(rest)@,
            painted_rows(done, width, 0, top, escape_at),
            forall|column: usize, row: usize|
                column < bounds.0 && row < bounds.1 ==> escape_at.requires((column, row)),
        decreases bands@.len() - k,
    {
        let band = bands[k];
        proof {
            lemma_band_in_raster(bands@, bounds, k as int);
        }
        let (start, end) = band.pixel_range(width);
        let rows: usize = band.rows();
        let first_row: usize = band.first_row;
        let (part, tail) = rest.split_at_mut(end - start);
        let band_escape_at = |column: usize, row: usize| -> (escape: Option<u32>)
            requires
                column < width,
                row < rows,
            ensures
                call_ensures(evaluator, (column, (first_row + row) as usize), escape),
            { evaluator(column, first_row + row) };
        render(part, (width, rows), band_escape_at);
        rest = tail;
        proof {
            lemma_band_painted(part@, width, band, band_escape_at, escape_at);
            lemma_rows_join(done, part@, width, 0, first_row, band.end_row, escape_at);
            done = done + part@;
            assert(whole =~= done + final(rest)@);
        }
        top = band.end_row;
        k += 1;
    }
    proof {
        assert(rest@.len() == 0) by (nonlinear_arith)
            requires
                rest@.len() == size - top * width,
                size == bounds.0 * bounds.1,
                top == bounds.1,
                width == bounds.0,
        ;
        assert(whole =~= done);
        lemma_painted_is_all_rows(whole, bounds, escape_at);
    }
}

} // verus!
