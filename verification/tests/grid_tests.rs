use mandelbrot::grid::Bounds;

#[test]
fn test_bounds_new_rejects_empty_images() {
    assert!(Bounds::new(0, 5).is_none());
    assert!(Bounds::new(5, 0).is_none());
    assert!(Bounds::new(0, 0).is_none());
    assert!(Bounds::new(usize::MAX, 2).is_none());
}

#[test]
fn test_buffer_len_is_width_times_height() {
    let b = Bounds::new(100, 75).unwrap();
    assert_eq!(b.buffer_len(), 7500);
    let one = Bounds::new(1, 1).unwrap();
    assert_eq!(one.buffer_len(), 1);
}

#[test]
fn test_pixel_index_row_major() {
    let b = Bounds::new(10, 4).unwrap();
    assert_eq!(b.pixel_index(0, 0), 0);
    assert_eq!(b.pixel_index(9, 0), 9);
    assert_eq!(b.pixel_index(0, 1), 10);
    assert_eq!(b.pixel_index(3, 2), 23);
    assert_eq!(b.pixel_index(9, 3), 39);
}

#[test]
fn test_row_and_column_recover_pixel() {
    let b = Bounds::new(10, 4).unwrap();
    for p in 0..b.buffer_len() {
        let row = b.row_of(p);
        let column = b.column_of(p);
        assert_eq!(b.pixel_index(column, row), p);
    }
}

#[test]
fn test_every_index_in_exactly_one_band() {
    // Row bands of a 7-wide image: index p lies in band p / 7 and no other.
    let b = Bounds::new(7, 5).unwrap();
    for p in 0..b.buffer_len() {
        let mut containing = 0;
        for row in 0..b.height {
            let start = row * b.width;
            if start <= p && p < start + b.width {
                containing += 1;
                assert_eq!(row, b.row_of(p));
            }
        }
        assert_eq!(containing, 1);
    }
}
