use mandelbrot::bands::plan_bands;
use mandelbrot::escape::escape_time;
use mandelbrot::raster::{raster_size, render, shade, ITERATION_LIMIT};
use mandelbrot::render_all;

fn pixel_to_point(
    bounds: (usize, usize),
    pixel: (usize, usize),
    upper_left: (f64, f64),
    lower_right: (f64, f64),
) -> (f64, f64) {
    let (width, height) = (lower_right.0 - upper_left.0, upper_left.1 - lower_right.1);
    (
        upper_left.0 + pixel.0 as f64 * width / bounds.0 as f64,
        upper_left.1 - pixel.1 as f64 * height / bounds.1 as f64,
    )
}

fn mandelbrot_escape(c: (f64, f64)) -> Option<u32> {
    escape_time((0.0, 0.0), ITERATION_LIMIT, |z: (f64, f64)| {
        let re = z.0 * z.0 - z.1 * z.1 + c.0;
        let im = z.0 * z.1 + z.1 * z.0 + c.1;
        ((re, im), re * re + im * im > 4.0)
    })
}

fn render_in_bands(
    bounds: (usize, usize),
    band_count: usize,
    upper_left: (f64, f64),
    lower_right: (f64, f64),
) -> Vec<u8> {
    let mut pixels = vec![0u8; bounds.0 * bounds.1];
    for band in plan_bands(bounds.1, band_count) {
        let (start, end) = band.pixel_range(bounds.0);
        let band_bounds = (bounds.0, band.rows());
        let band_upper_left = pixel_to_point(bounds, (0, band.first_row), upper_left, lower_right);
        let band_lower_right =
            pixel_to_point(bounds, (bounds.0, band.end_row), upper_left, lower_right);
        render(&mut pixels[start..end], band_bounds, |column, row| {
            mandelbrot_escape(pixel_to_point(
                band_bounds,
                (column, row),
                band_upper_left,
                band_lower_right,
            ))
        });
    }
    pixels
}

#[test]
fn the_iteration_limit_is_255() {
    assert_eq!(ITERATION_LIMIT, 255);
}

#[test]
fn shade_is_black_for_points_that_stay() {
    assert_eq!(shade(None), 0);
}

#[test]
fn shade_is_lighter_the_sooner_a_point_escapes() {
    assert_eq!(shade(Some(0)), 255);
    assert_eq!(shade(Some(1)), 254);
    assert_eq!(shade(Some(8)), 247);
    assert_eq!(shade(Some(127)), 128);
    assert_eq!(shade(Some(254)), 1);
    assert_eq!(shade(Some(255)), 0);
}

#[test]
fn shade_takes_the_low_byte_of_large_counts() {
    assert_eq!(shade(Some(256)), 255);
    assert_eq!(shade(Some(257)), 254);
    assert_eq!(shade(Some(511)), 0);
    assert_eq!(shade(Some(u32::MAX)), 0);
    for count in 0..2000u32 {
        assert_eq!(shade(Some(count)), 255 - count as u8);
    }
}

#[test]
fn render_fills_the_raster_row_by_row() {
    let mut pixels = vec![7u8; 6];
    render(&mut pixels, (3, 2), |column, row| Some((row * 3 + column) as u32));
    assert_eq!(pixels, vec![255, 254, 253, 252, 251, 250]);
}

#[test]
fn render_asks_for_every_pixel_once() {
    let asked = std::cell::RefCell::new(Vec::new());
    let mut pixels = vec![9u8; 12];
    render(&mut pixels, (4, 3), |column, row| {
        asked.borrow_mut().push((column, row));
        if (column + row) % 2 == 0 {
            None
        } else {
            Some(column as u32)
        }
    });
    let expected: Vec<(usize, usize)> =
        (0..3).flat_map(|row| (0..4).map(move |column| (column, row))).collect();
    assert_eq!(*asked.borrow(), expected);
    assert_eq!(pixels, vec![0, 254, 0, 252, 255, 0, 253, 0, 0, 254, 0, 252]);
}

#[test]
fn render_of_an_empty_image_writes_nothing() {
    let mut none: Vec<u8> = Vec::new();
    render(&mut none, (0, 0), |_, _| unreachable!());
    render(&mut none, (5, 0), |_, _| unreachable!());
    render(&mut none, (0, 5), |_, _| unreachable!());
    assert!(none.is_empty());
}

#[test]
fn an_image_without_rows_has_no_bands_and_no_pixels() {
    let bounds = (1000, 0);
    assert!(plan_bands(bounds.1, 8).is_empty());
    let pixels = render_in_bands(bounds, 8, (-1.20, 0.35), (-1.0, 0.35));
    assert!(pixels.is_empty());
}

#[test]
fn rendering_twice_gives_the_same_bytes() {
    let first = render_in_bands((40, 30), 8, (-1.20, 0.35), (-1.0, 0.20));
    let second = render_in_bands((40, 30), 8, (-1.20, 0.35), (-1.0, 0.20));
    assert_eq!(first, second);
}

#[test]
fn the_number_of_bands_does_not_show_in_the_image() {
    let evaluate = |column: usize, row: usize| -> Option<u32> {
        if (column * 7 + row * 13) % 5 == 0 {
            None
        } else {
            Some(((column * 31 + row * 17) % 255) as u32)
        }
    };
    let bounds = (17, 23);
    let mut whole = vec![0u8; bounds.0 * bounds.1];
    render(&mut whole, bounds, evaluate);
    for band_count in [1, 2, 3, 8, 23, 24, 100] {
        let mut pixels = vec![0u8; bounds.0 * bounds.1];
        for band in plan_bands(bounds.1, band_count) {
            let (start, end) = band.pixel_range(bounds.0);
            render(&mut pixels[start..end], (bounds.0, band.rows()), |column, row| {
                evaluate(column, band.first_row + row)
            });
        }
        assert_eq!(pixels, whole);
    }
}

#[test]
fn one_band_and_eight_bands_give_the_same_image() {
    let one = render_in_bands((100, 75), 1, (-1.20, 0.35), (-1.0, 0.20));
    let eight = render_in_bands((100, 75), 8, (-1.20, 0.35), (-1.0, 0.20));
    assert_eq!(one, eight);
}

#[test]
fn the_upper_left_pixel_of_the_reference_image() {
    let bounds = (100, 75);
    let upper_left = (-1.20, 0.35);
    let lower_right = (-1.0, 0.20);
    assert_eq!(pixel_to_point(bounds, (0, 0), upper_left, lower_right), (-1.20, 0.35));
    assert_eq!(mandelbrot_escape((-1.20, 0.35)), Some(8));
    let pixels = render_in_bands(bounds, 8, upper_left, lower_right);
    assert_eq!(pixels.len(), 7500);
    assert_eq!(pixels[0], 247);
    assert_eq!(pixels[37 * 100 + 50], 240);
    assert_eq!(pixels[74 * 100 + 99], 0);
    assert_eq!(pixels.iter().map(|&p| p as u64).sum::<u64>(), 1_239_908);
}

#[test]
fn the_reference_image_painted_as_a_whole() {
    let bounds = (100, 75);
    let upper_left = (-1.20, 0.35);
    let lower_right = (-1.0, 0.20);
    let mut pixels = vec![0u8; 7500];
    render_all(&mut pixels, bounds, 8, |column, row| {
        mandelbrot_escape(pixel_to_point(bounds, (column, row), upper_left, lower_right))
    });
    assert_eq!(pixels[0], 247);
    assert_eq!(pixels.iter().map(|&p| p as u64).sum::<u64>(), 1_239_908);
    assert_eq!(pixels, render_in_bands(bounds, 8, upper_left, lower_right));
}

#[test]
fn raster_size_is_one_byte_for_each_pixel() {
    assert_eq!(raster_size((100, 75)), Some(7500));
    assert_eq!(raster_size((1, 1)), Some(1));
    assert_eq!(raster_size((1000, 750)), Some(750_000));
    assert_eq!(raster_size((usize::MAX, 1)), Some(usize::MAX));
}

#[test]
fn raster_size_of_an_image_without_pixels_is_none() {
    assert_eq!(raster_size((0, 0)), None);
    assert_eq!(raster_size((1000, 0)), None);
    assert_eq!(raster_size((0, 1000)), None);
}

#[test]
fn raster_size_of_an_image_too_large_is_none() {
    assert_eq!(raster_size((usize::MAX, 2)), None);
    assert_eq!(raster_size((usize::MAX, usize::MAX)), None);
    assert_eq!(raster_size((1 << (usize::BITS / 2), 1 << (usize::BITS / 2))), None);
}
