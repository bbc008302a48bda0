use pathtrace::raster::{pixel_coords, PixelWrite, Raster, Rgb8};

fn rgb(r: u8, g: u8, b: u8) -> Rgb8 {
    Rgb8 { r, g, b }
}

fn write(x: u32, y: u32, color: Rgb8) -> PixelWrite {
    PixelWrite { x, y, color }
}

#[test]
fn new_raster_is_black_and_sized() {
    let r = Raster::new(4, 2);
    assert_eq!(r.width(), 4);
    assert_eq!(r.height(), 2);
    assert_eq!(r.samples(), vec![0u8; 24]);
    assert_eq!(r.pixel(3, 1), rgb(0, 0, 0));
}

#[test]
fn empty_raster_has_no_samples() {
    let r = Raster::new(0, 5);
    assert_eq!(r.width(), 0);
    assert_eq!(r.height(), 5);
    assert!(r.samples().is_empty());
}

#[test]
fn write_lands_row_major_at_three_bytes_per_pixel() {
    let mut r = Raster::new(3, 2);
    r.write_pixels(&vec![write(1, 1, rgb(10, 20, 30))]);
    let s = r.samples();
    let i = 3 * (1 * 3 + 1);
    assert_eq!(&s[i..i + 3], &[10, 20, 30]);
    assert_eq!(s.iter().filter(|b| **b != 0).count(), 3);
    assert_eq!(r.pixel(1, 1), rgb(10, 20, 30));
    assert_eq!(r.pixel(0, 0), rgb(0, 0, 0));
}

#[test]
fn later_write_to_same_pixel_wins() {
    let mut r = Raster::new(2, 2);
    r.write_pixels(&vec![write(0, 1, rgb(1, 2, 3)), write(0, 1, rgb(7, 8, 9))]);
    assert_eq!(r.pixel(0, 1), rgb(7, 8, 9));
}

#[test]
fn top_left_and_bottom_right_corners() {
    let mut r = Raster::new(2, 2);
    r.write_pixels(&vec![write(0, 0, rgb(255, 0, 0)), write(1, 1, rgb(0, 0, 255))]);
    assert_eq!(r.samples(), vec![255, 0, 0, 0, 0, 0, 0, 0, 0, 0, 0, 255]);
}

#[test]
fn arrival_order_does_not_change_the_raster() {
    let ws = vec![
        write(0, 0, rgb(1, 1, 1)),
        write(1, 0, rgb(2, 2, 2)),
        write(0, 1, rgb(3, 3, 3)),
        write(1, 1, rgb(4, 4, 4)),
    ];
    let mut reversed = ws.clone();
    reversed.reverse();
    let mut a = Raster::new(2, 2);
    let mut b = Raster::new(2, 2);
    a.write_pixels(&ws);
    b.write_pixels(&reversed);
    assert_eq!(a.samples(), b.samples());
    assert_eq!(a.samples(), vec![1, 1, 1, 2, 2, 2, 3, 3, 3, 4, 4, 4]);
}

#[test]
fn coords_are_row_major() {
    let c = pixel_coords(3, 2);
    assert_eq!(c, vec![(0, 0), (1, 0), (2, 0), (0, 1), (1, 1), (2, 1)]);
}

#[test]
fn coords_of_empty_raster() {
    assert!(pixel_coords(0, 7).is_empty());
    assert!(pixel_coords(7, 0).is_empty());
}
