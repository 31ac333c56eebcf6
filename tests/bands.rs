use mandelbrot::band::{partition_rows, rows_per_band, Band};

fn shape(bands: &[Band]) -> Vec<(usize, usize)> {
    bands.iter().map(|b| (b.top, b.rows)).collect()
}

#[test]
fn rows_per_band_is_truncated_quotient_plus_one() {
    assert_eq!(rows_per_band(10, 8), 2);
    assert_eq!(rows_per_band(16, 8), 3);
    assert_eq!(rows_per_band(0, 8), 1);
    assert_eq!(rows_per_band(1080, 8), 136);
}

#[test]
fn partition_with_short_last_band() {
    let bands = partition_rows(10, 8);
    assert_eq!(shape(&bands), vec![(0, 2), (2, 2), (4, 2), (6, 2), (8, 2)]);
    let bands = partition_rows(16, 8);
    assert_eq!(
        shape(&bands),
        vec![(0, 3), (3, 3), (6, 3), (9, 3), (12, 3), (15, 1)]
    );
}

#[test]
fn partition_with_one_worker() {
    assert_eq!(shape(&partition_rows(5, 1)), vec![(0, 5)]);
}

#[test]
fn partition_of_no_rows() {
    assert!(partition_rows(0, 8).is_empty());
}

#[test]
fn partition_covers_each_row_once() {
    for height in 0..60usize {
        for workers in 1..12usize {
            let bands = partition_rows(height, workers);
            let mut seen = vec![0u32; height];
            for b in &bands {
                assert!(b.rows > 0);
                for r in b.top..b.top + b.rows {
                    seen[r] += 1;
                }
            }
            assert!(seen.iter().all(|&n| n == 1));
            assert!(bands.len() <= workers);
        }
    }
}

#[test]
fn band_geometry() {
    let b = Band { top: 6, rows: 3 };
    assert_eq!(b.bounds(100), (100, 3));
    assert_eq!(b.upper_left_pixel(), (0, 6));
    assert_eq!(b.lower_right_pixel(100), (100, 9));
    assert_eq!(b.byte_range(100), (600, 900));
}

#[test]
fn band_byte_ranges_tile_buffer() {
    let (width, height) = (7usize, 23usize);
    let bands = partition_rows(height, 8);
    let mut next = 0usize;
    for b in &bands {
        let (start, end) = b.byte_range(width);
        assert_eq!(start, next);
        next = end;
    }
    assert_eq!(next, width * height);
}
