//! End-to-end scenarios: the floating-point coordinate mapping and
//! escape-time recurrence run here in the tests, as they do in the
//! application, and their results flow through the library's verified
//! intensity mapping.

use mandelbrot::render::intensity;
use mandelbrot::render::LIMIT;
use num::Complex;
use mandelbrot::parse::split_pair;

/// The application reads a coordinate pair this way: the verified split at
/// the first comma, then floating-point reads of the halves.
fn parse_complex(s: &str) -> Option<Complex<f64>> {
    match split_pair(s, ',') {
        Some((re, im)) => match (re.parse::<f64>(), im.parse::<f64>()) {
            (Ok(re), Ok(im)) => Some(Complex { re, im }),
            _ => None,
        },
        None => None,
    }
}

fn pixel_to_point(
    bounds: (usize, usize),
    pixel: (usize, usize),
    upper_left: Complex<f64>,
    lower_right: Complex<f64>,
) -> Complex<f64> {
    let (width, height) = (
        lower_right.re - upper_left.re,
        upper_left.im - lower_right.im,
    );
    Complex {
        re: upper_left.re + pixel.0 as f64 * width / bounds.0 as f64,
        im: upper_left.im - pixel.1 as f64 * height / bounds.1 as f64,
    }
}

fn escape_time(c: Complex<f64>, limit: u32) -> Option<u32> {
    let mut z = Complex { re: 0.0, im: 0.0 };
    for i in 0..limit {
        z = z * z + c;
        if z.norm_sqr() > 4.0 {
            return Some(i);
        }
    }
    None
}

#[test]
fn test_center_pixel_of_symmetric_viewport_is_black() {
    // A 100x100 image of the square from -1+1i to 1-1i: pixel (50, 50) is the
    // origin, which never escapes, so its intensity byte is 0.
    let upper_left = Complex { re: -1.0, im: 1.0 };
    let lower_right = Complex { re: 1.0, im: -1.0 };
    let point = pixel_to_point((100, 100), (50, 50), upper_left, lower_right);
    assert_eq!(point, Complex { re: 0.0, im: 0.0 });
    let t = escape_time(point, LIMIT);
    assert_eq!(t, None);
    assert_eq!(intensity(t), 0);
}

#[test]
fn test_far_corner_pixel_escapes_immediately() {
    // A 10x10 image of the square from -2+2i to 2-2i: pixel (0, 0) is the
    // corner -2+2i, whose magnitude exceeds 2, so the very first iterate
    // already escapes and the intensity byte is 255.
    let upper_left = Complex { re: -2.0, im: 2.0 };
    let lower_right = Complex { re: 2.0, im: -2.0 };
    let point = pixel_to_point((10, 10), (0, 0), upper_left, lower_right);
    assert_eq!(point, upper_left);
    assert!(point.norm_sqr() > 4.0);
    let t = escape_time(point, LIMIT);
    assert_eq!(t, Some(0));
    assert_eq!(intensity(t), 255);
}

#[test]
fn test_origin_never_escapes_whatever_the_limit() {
    // Zero is a fixed point of the recurrence.
    let origin = Complex { re: 0.0, im: 0.0 };
    assert_eq!(escape_time(origin, 1), None);
    assert_eq!(escape_time(origin, LIMIT), None);
    // And the evaluator returns the same answer on every run.
    assert_eq!(escape_time(origin, LIMIT), escape_time(origin, LIMIT));
}

#[test]
fn test_points_outside_radius_escape_at_once() {
    for c in [
        Complex { re: 3.0, im: 0.0 },
        Complex { re: 0.0, im: -2.5 },
        Complex { re: -2.0, im: 2.0 },
        Complex { re: 1.8, im: 1.8 },
    ] {
        assert_eq!(escape_time(c, LIMIT), Some(0));
        assert_eq!(intensity(escape_time(c, LIMIT)), 255);
    }
}

#[test]
fn test_corner_pixels_map_to_viewport_corners() {
    // Pixel (0, 0) is exactly the upper-left corner and pixel
    // (width, height) exactly the lower-right one.
    let upper_left = Complex { re: -2.0, im: 2.0 };
    let lower_right = Complex { re: 2.0, im: -2.0 };
    let p00 = pixel_to_point((10, 10), (0, 0), upper_left, lower_right);
    let pwh = pixel_to_point((10, 10), (10, 10), upper_left, lower_right);
    assert_eq!(p00, upper_left);
    assert_eq!(pwh, lower_right);

    let upper_left = Complex { re: -1.5, im: 1.0 };
    let lower_right = Complex { re: 0.5, im: -0.5 };
    let p00 = pixel_to_point((8, 4), (0, 0), upper_left, lower_right);
    let pwh = pixel_to_point((8, 4), (8, 4), upper_left, lower_right);
    assert_eq!(p00, upper_left);
    assert_eq!(pwh, lower_right);
}

#[test]
fn test_parse_complex() {
    assert_eq!(
        parse_complex("123,321"),
        Some(Complex {
            re: 123.0,
            im: 321.0
        })
    );
    assert_eq!(parse_complex("123,"), None);
}
