use mandelbrot::band::partition_rows;
use mandelbrot::intensity::{intensity, ESCAPE_LIMIT};
use mandelbrot::render::render_band;

#[test]
fn intensity_values() {
    assert_eq!(intensity(None), 0);
    assert_eq!(intensity(Some(0)), 255);
    assert_eq!(intensity(Some(1)), 254);
    assert_eq!(intensity(Some(254)), 1);
    assert_eq!(intensity(Some(256)), 255);
    assert_eq!(ESCAPE_LIMIT, 255);
}

#[test]
fn render_band_writes_each_pixel() {
    let mut pixels = vec![7u8; 6];
    render_band(&mut pixels, (3, 2), |c: usize, r: usize| {
        if c == 0 {
            None
        } else {
            Some(c + 10 * r)
        }
    });
    assert_eq!(pixels, vec![0, 254, 253, 0, 244, 243]);
}

#[test]
fn render_empty_band() {
    let mut pixels: Vec<u8> = Vec::new();
    render_band(&mut pixels, (4, 0), |_c: usize, _r: usize| Some(0));
    assert!(pixels.is_empty());
}

#[test]
fn render_bands_of_whole_buffer() {
    let (width, height) = (5usize, 11usize);
    let mut pixels = vec![1u8; width * height];
    let mut rest: &mut [u8] = &mut pixels;
    for b in partition_rows(height, 8) {
        let (start, end) = b.byte_range(width);
        let (band, tail) = rest.split_at_mut(end - start);
        rest = tail;
        let top = b.top;
        render_band(band, b.bounds(width), |c: usize, r: usize| {
            if (c + r + top) % 2 == 0 {
                None
            } else {
                Some(c)
            }
        });
    }
    for r in 0..height {
        for c in 0..width {
            let expected = if (c + r) % 2 == 0 { 0 } else { 255 - c as u8 };
            assert_eq!(pixels[r * width + c], expected);
        }
    }
}

#[test]
fn render_two_by_one_image() {
    let (width, height) = (2usize, 1usize);
    let mut pixels = vec![9u8; width * height];
    let bands = partition_rows(height, 8);
    assert_eq!(bands.len(), 1);
    let b = bands[0];
    render_band(&mut pixels, b.bounds(width), |_c: usize, _r: usize| None);
    assert_eq!(pixels, vec![0, 0]);
}
