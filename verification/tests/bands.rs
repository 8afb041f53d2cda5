use mandelbrot::bands::{plan_bands, Band};

fn band(first_row: usize, end_row: usize) -> Band {
    Band { first_row, end_row }
}

#[test]
fn plan_bands_gives_each_band_the_quotient_and_one_more() {
    let bands = plan_bands(75, 8);
    assert_eq!(
        bands,
        vec![
            band(0, 10),
            band(10, 20),
            band(20, 30),
            band(30, 40),
            band(40, 50),
            band(50, 60),
            band(60, 70),
            band(70, 75),
        ]
    );
}

#[test]
fn plan_bands_leaves_out_empty_bands() {
    assert_eq!(
        plan_bands(8, 8),
        vec![band(0, 2), band(2, 4), band(4, 6), band(6, 8)]
    );
    assert_eq!(plan_bands(1, 8), vec![band(0, 1)]);
    assert_eq!(plan_bands(3, 8), vec![band(0, 1), band(1, 2), band(2, 3)]);
}

#[test]
fn plan_bands_with_one_band_takes_the_whole_image() {
    assert_eq!(plan_bands(7, 1), vec![band(0, 7)]);
    assert_eq!(plan_bands(1000, 1), vec![band(0, 1000)]);
}

#[test]
fn plan_bands_of_an_image_without_rows_is_empty() {
    assert_eq!(plan_bands(0, 1), vec![]);
    assert_eq!(plan_bands(0, 8), vec![]);
}

#[test]
fn plan_bands_last_band_may_be_full() {
    assert_eq!(plan_bands(4, 3), vec![band(0, 2), band(2, 4)]);
    assert_eq!(plan_bands(9, 2), vec![band(0, 5), band(5, 9)]);
    assert_eq!(plan_bands(10, 4), vec![band(0, 3), band(3, 6), band(6, 9), band(9, 10)]);
}

#[test]
fn plan_bands_covers_every_row_exactly_once() {
    for height in 0..200usize {
        for band_count in 1..20usize {
            let bands = plan_bands(height, band_count);
            assert!(bands.len() <= band_count);
            let mut seen = vec![0u32; height];
            let mut next = 0;
            for b in &bands {
                assert_eq!(b.first_row, next);
                assert!(b.first_row < b.end_row);
                assert!(b.end_row <= height);
                for row in b.first_row..b.end_row {
                    seen[row] += 1;
                }
                next = b.end_row;
            }
            assert_eq!(next, height);
            assert!(seen.iter().all(|&count| count == 1));
        }
    }
}

#[test]
fn plan_bands_follows_the_band_size() {
    for height in 0..100usize {
        for band_count in 1..12usize {
            let size = height / band_count + 1;
            let bands = plan_bands(height, band_count);
            assert_eq!(bands.len(), (height + size - 1) / size);
            for (k, b) in bands.iter().enumerate() {
                assert_eq!(b.first_row, k * size);
                assert_eq!(b.end_row, std::cmp::min((k + 1) * size, height));
            }
        }
    }
}

#[test]
fn plan_bands_of_a_very_tall_image() {
    let height = usize::MAX - 1;
    let bands = plan_bands(height, 2);
    let size = height / 2 + 1;
    assert_eq!(bands, vec![band(0, size), band(size, height)]);
    assert_eq!(plan_bands(usize::MAX, 2).len(), 2);
    assert_eq!(plan_bands(usize::MAX, 1), vec![band(0, usize::MAX)]);
}

#[test]
fn band_rows_and_pixel_range() {
    let b = band(10, 20);
    assert_eq!(b.rows(), 10);
    assert_eq!(b.pixel_range(100), (1000, 2000));
    assert_eq!(b.pixel_range(0), (0, 0));
    let last = band(70, 75);
    assert_eq!(last.rows(), 5);
    assert_eq!(last.pixel_range(100), (7000, 7500));
    let empty = band(3, 3);
    assert_eq!(empty.rows(), 0);
    assert_eq!(empty.pixel_range(7), (21, 21));
}

#[test]
fn pixel_ranges_of_a_plan_tile_the_raster() {
    let width = 13;
    for height in 0..60usize {
        let mut next = 0;
        for b in plan_bands(height, 8) {
            let (start, end) = b.pixel_range(width);
            assert_eq!(start, next);
            assert_eq!(end - start, b.rows() * width);
            next = end;
        }
        assert_eq!(next, width * height);
    }
}
