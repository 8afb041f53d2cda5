//! Painting escape times into a row-major greyscale raster, one byte per
//! pixel.
//!
//! The escape time of each pixel comes from an evaluator supplied by the
//! caller, which is asked once for every pixel, by column and row.

use vstd::prelude::*;

verus! {

/// Number of steps for which the orbit of a pixel is followed.
pub const ITERATION_LIMIT: u32 = 255;

/// Grey level of a pixel with the given escape time: black for a point that
/// did not escape, and otherwise the lighter the sooner it escaped. Only
/// the low eight bits of the count are taken.
pub open spec fn shade_spec(escape: Option<u32>) -> u8 {
    match escape {
        None => 0,
        Some(count) => (255 - count % 256) as u8,
    }
}

/// Grey level of a pixel with the given escape time.
#[verifier::when_used_as_spec(shade_spec)]
pub fn shade(escape: Option<u32>) -> (level: u8)
    ensures
        level == shade_spec(escape),
        escape is None ==> level == 0,
        escape matches Some(count) ==> (count <= 255 ==> level == 255 - count),
        escape matches Some(count) ==> (count < ITERATION_LIMIT ==> level >= 1),
{
    match escape {
        None => 0,
        Some(count) => {
            let low: u32 = count % 256;
            (255 - low) as u8
        },
    }
}

/// Number of bytes in the raster of an image of `bounds.0` columns and
/// `bounds.1` rows: none for an image without pixels, and none for one with
/// more pixels than a raster can hold.
pub fn raster_size(bounds: (usize, usize)) -> (size: Option<usize>)
    ensures
        match size {
            Some(bytes) => bounds.0 > 0 && bounds.1 > 0 && bytes == bounds.0 * bounds.1,
            None => bounds.0 == 0 || bounds.1 == 0 || bounds.0 * bounds.1 > usize::MAX,
        },
{
    if bounds.0 == 0 || bounds.1 == 0 {
        None
    } else {
        bounds.0.checked_mul(bounds.1)
    }
}

/// Place of the pixel at `column` and `row` in the raster of an image
/// `width` pixels wide.
pub open spec fn pixel_offset(width: int, column: int, row: int) -> int {
    row * width + column
}

/// `level` is the grey level of an escape time that the evaluator can give
/// for the pixel at `column` and `row`.
pub open spec fn shaded_by<F: Fn(usize, usize) -> Option<u32>>(
    escape_at: F,
    column: usize,
    row: usize,
    level: u8,
) -> bool {
    exists|escape: Option<u32>|
        #![trigger escape_at.ensures((column, row), escape)]
        escape_at.ensures((column, row), escape) && level == shade_spec(escape)
}

/// The raster holds an image of `bounds.0` columns and `bounds.1` rows in
/// which every pixel has the grey level of its escape time.
pub open spec fn painted<F: Fn(usize, usize) -> Option<u32>>(
    pixels: Seq<u8>,
    bounds: (usize, usize),
    escape_at: F,
) -> bool {
    &&& pixels.len() == bounds.0 * bounds.1
    &&& forall|column: usize, row: usize|
        #![trigger pixel_offset(bounds.0 as int, column as int, row as int)]
        column < bounds.0 && row < bounds.1 ==> shaded_by(
            escape_at,
            column,
            row,
            pixels[pixel_offset(bounds.0 as int, column as int, row as int)],
        )
}

/// The raster holds the rows `first_row..end_row` of an image `width` pixels
/// wide, and every pixel in them has the grey level of its escape time.
pub open spec fn painted_rows<F: Fn(usize, usize) -> Option<u32>>(
    pixels: Seq<u8>,
    width: usize,
    first_row: usize,
    end_row: usize,
    escape_at: F,
) -> bool {
    &&& first_row <= end_row
    &&& pixels.len() == width * (end_row - first_row)
    &&& forall|column: usize, row: usize|
        #![trigger pixel_offset(width as int, column as int, row as int)]
        column < width && first_row <= row < end_row ==> shaded_by(
            escape_at,
            column,
            row,
            pixels[pixel_offset(width as int, column as int, row as int) - first_row * width],
        )
}

/// The evaluator gives at most one escape time for each pixel.
pub open spec fn single_valued<F: Fn(usize, usize) -> Option<u32>>(escape_at: F) -> bool {
    forall|column: usize, row: usize, first: Option<u32>, second: Option<u32>|
        #![trigger escape_at.ensures((column, row), first), escape_at.ensures((column, row), second)]
        escape_at.ensures((column, row), first) && escape_at.ensures((column, row), second)
            ==> first == second
}

/// A pixel of the image has its place inside the raster.
pub proof fn lemma_offset_in_raster(width: int, height: int, column: int, row: int)
    requires
        0 <= column < width,
        0 <= row < height,
    ensures
        0 <= pixel_offset(width, column, row) < width * height,
{
    assert(row * width + width <= height * width) by (nonlinear_arith)
        requires
            row + 1 <= height,
            width >= 0,
    ;
    assert(row * width >= 0) by (nonlinear_arith)
        requires
            row >= 0,
            width >= 0,
    ;
    assert(height * width == width * height) by (nonlinear_arith);
}

/// Two pixels with the same place in the raster are the same pixel.
pub proof fn lemma_offset_injective(
    width: int,
    column: int,
    row: int,
    other_column: int,
    other_row: int,
)
    requires
        0 <= column < width,
        0 <= other_column < width,
        pixel_offset(width, column, row) == pixel_offset(width, other_column, other_row),
    ensures
        column == other_column,
        row == other_row,
{
    assert(row == other_row) by (nonlinear_arith)
        requires
            0 <= column < width,
            0 <= other_column < width,
            row * width + column == other_row * width + other_column,
    ;
}

/// Every place in the raster is that of the pixel whose column and row are
/// the remainder and the quotient of the place by the width.
pub proof fn lemma_offset_of_place(width: int, height: int, place: int)
    requires
        width >= 0,
        height >= 0,
        0 <= place < width * height,
    ensures
        0 <= place % width < width,
        0 <= place / width < height,
        pixel_offset(width, place % width, place / width) == place,
{
    assert(width > 0) by (nonlinear_arith)
        requires
            width >= 0,
            0 < width * height,
    ;
    vstd::arithmetic::div_mod::lemma_fundamental_div_mod(place, width);
    vstd::arithmetic::div_mod::lemma_mod_bound(place, width);
    let row = place / width;
    assert(0 <= row < height) by (nonlinear_arith)
        requires
            place == width * row + place % width,
            0 <= place % width < width,
            0 <= place < width * height,
    ;
    assert(row * width == width * row) by (nonlinear_arith);
}

/// With a single-valued evaluator the image is determined: two rasters
/// painted from it over the same bounds are equal byte for byte.
pub proof fn lemma_painting_determined<F: Fn(usize, usize) -> Option<u32>>(
    first: Seq<u8>,
    second: Seq<u8>,
    bounds: (usize, usize),
    escape_at: F,
)
    requires
        single_valued(escape_at),
        painted(first, bounds, escape_at),
        painted(second, bounds, escape_at),
    ensures
        first == second,
{
    let width = bounds.0 as int;
    let height = bounds.1 as int;
    assert forall|place: int| 0 <= place < first.len() implies first[place] == second[place] by {
        lemma_offset_of_place(width, height, place);
        let column = (place % width) as usize;
        let row = (place / width) as usize;
        assert(pixel_offset(width, column as int, row as int) == place);
        assert(shaded_by(escape_at, column, row, first[place]));
        assert(shaded_by(escape_at, column, row, second[place]));
    }
    assert(first =~= second);
}

/// Paints the image of `bounds.0` columns and `bounds.1` rows into `pixels`,
/// row after row: each pixel gets the grey level of the escape time that
/// `escape_at` gives for its column and row.
pub fn render<F: Fn(usize, usize) -> Option<u32>>(
    pixels: &mut [u8],
    bounds: (usize, usize),
    escape_at: F,
)
    requires
        old(pixels)@.len() == bounds.0 * bounds.1,
        forall|column: usize, row: usize|
            column < bounds.0 && row < bounds.1 ==> escape_at.requires((column, row)),
    ensures
        painted(final(pixels)@, bounds, escape_at),
{
    let width: usize = bounds.0;
    let height: usize = bounds.1;
    let size: usize = pixels.len();
    for row in 0..height
        invariant
            width == bounds.0,
            height == bounds.1,
            size == width * height,
            pixels@.len() == size,
            forall|column: usize, row: usize|
                column < width && row < height ==> escape_at.requires((column, row)),
            forall|c: usize, r: usize|
                #![trigger pixel_offset(width as int, c as int, r as int)]
                c < width && r < row ==> shaded_by(
                    escape_at,
                    c,
                    r,
                    pixels@[pixel_offset(width as int, c as int, r as int)],
                ),
    {
        for column in 0..width
            invariant
                width == bounds.0,
                height == bounds.1,
                row < height,
                size == width * height,
                pixels@.len() == size,
                forall|column: usize, row: usize|
                    column < width && row < height ==> escape_at.requires((column, row)),
                forall|c: usize, r: usize|
                    #![trigger pixel_offset(width as int, c as int, r as int)]
                    c < width && (r < row || (r == row && c < column)) ==> shaded_by(
                        escape_at,
                        c,
                        r,
                        pixels@[pixel_offset(width as int, c as int, r as int)],
                    ),
        {
            proof {
                lemma_offset_in_raster(width as int, height as int, column as int, row as int);
            }
            let escape = escape_at(column, row);
            let ghost before = pixels@;
            pixels[row * width + column] = shade(escape);
            proof {
                let place = pixel_offset(width as int, column as int, row as int);
                assert forall|c: usize, r: usize|
                    #![trigger pixel_offset(width as int, c as int, r as int)]
                    c < width && (r < row || (r == row && c < column + 1)) implies shaded_by(
                    escape_at,
                    c,
                    r,
                    pixels@[pixel_offset(width as int, c as int, r as int)],
                ) by {
                    let other = pixel_offset(width as int, c as int, r as int);
                    lemma_offset_in_raster(width as int, height as int, c as int, r as int);
                    if other == place {
                        lemma_offset_injective(
                            width as int,
                            c as int,
                            r as int,
                            column as int,
                            row as int,
                        );
                    } else {
                        assert(pixels@[other] == before[other]);
                    }
                }
            }
        }
    }
}

} // verus!
