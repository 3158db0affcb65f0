use mray::canvas::Canvas;

#[test]
fn new_canvas_is_black_and_sized() {
    let c = Canvas::new((4, 3));
    assert_eq!(c.size(), (4, 3));
    assert_eq!(c.data().len(), 4 * 3 * 3);
    assert!(c.data().iter().all(|b| *b == 0));
}

#[test]
fn empty_canvas_has_no_bytes() {
    let c = Canvas::new((0, 5));
    assert_eq!(c.data().len(), 0);
    assert_eq!(c.pixel(0, 0), None);
}

#[test]
fn pixel_offset_is_row_major() {
    let c = Canvas::new((4, 3));
    assert_eq!(c.pixel_offset(0, 0), Some(0));
    assert_eq!(c.pixel_offset(1, 0), Some(3));
    assert_eq!(c.pixel_offset(0, 1), Some(12));
    assert_eq!(c.pixel_offset(3, 2), Some(33));
    assert_eq!(c.pixel_offset(4, 0), None);
    assert_eq!(c.pixel_offset(0, 3), None);
    assert_eq!(c.pixel_offset(-1, 0), None);
    assert_eq!(c.pixel_offset(0, -1), None);
}

#[test]
fn set_pixel_writes_three_channels() {
    let mut c = Canvas::new((4, 3));
    c.set_pixel(2, 1, [10, 20, 30]);
    assert_eq!(c.pixel(2, 1), Some([10, 20, 30]));
    let o = 12 + 6;
    assert_eq!(&c.data()[o..o + 3], &[10, 20, 30]);
    let others: usize = c.data().iter().filter(|b| **b != 0).count();
    assert_eq!(others, 3);
}

#[test]
fn set_pixel_outside_changes_nothing() {
    let mut c = Canvas::new((4, 3));
    c.set_pixel(1, 1, [7, 8, 9]);
    let before = c.data().clone();
    c.set_pixel(-1, 0, [255, 255, 255]);
    c.set_pixel(4, 0, [255, 255, 255]);
    c.set_pixel(0, 3, [255, 255, 255]);
    c.set_pixel(i64::MAX, i64::MIN, [255, 255, 255]);
    assert_eq!(c.data(), &before);
}

#[test]
fn flush_clears_and_keeps_size() {
    let mut c = Canvas::new((2, 2));
    c.set_pixel(1, 1, [1, 2, 3]);
    c.flush();
    assert_eq!(c.size(), (2, 2));
    assert_eq!(c.data(), &vec![0u8; 12]);
}
