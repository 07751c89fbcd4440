use poe_alarm::gray_image::{check_plane, pack_gray, place_rows, PixelFormat, PlaneCheck};

#[test]
fn gray_rows_are_packed_without_their_padding() {
    // Two rows of three pixels, each row padded to a stride of five bytes.
    let pixels = [1, 2, 3, 99, 99, 4, 5, 6, 99, 99];
    assert_eq!(pack_gray(&pixels, 3, 2, 5, PixelFormat::Gray8), vec![1, 2, 3, 4, 5, 6]);
}

#[test]
fn bgra_pixels_give_their_blue_channel() {
    let pixels = [10, 20, 30, 255, 11, 21, 31, 255, 12, 22, 32, 255, 13, 23, 33, 255];
    assert_eq!(pack_gray(&pixels, 2, 2, 8, PixelFormat::Bgra8), vec![10, 11, 12, 13]);
    assert_eq!(pack_gray(&pixels, 0, 0, 0, PixelFormat::Bgra8), Vec::<u8>::new());
}

#[test]
fn a_plane_is_checked_before_the_image_is_copied_into_it() {
    assert_eq!(check_plane(0, 4, 2, 8, 4, 2), PlaneCheck::Fits { start: 0, stride: 4 });
    assert_eq!(check_plane(2, 6, 2, 16, 4, 2), PlaneCheck::Fits { start: 2, stride: 6 });
    assert_eq!(check_plane(2, 6, 2, 11, 4, 2), PlaneCheck::TooSmall { required: 12 });
    assert_eq!(check_plane(-1, 6, 2, 100, 4, 2), PlaneCheck::Invalid);
    assert_eq!(check_plane(0, 3, 2, 100, 4, 2), PlaneCheck::Invalid);
    assert_eq!(check_plane(0, 4, 1, 100, 4, 2), PlaneCheck::Invalid);
}

#[test]
fn rows_land_at_their_stride_and_nothing_else_moves() {
    let mut plane = vec![0u8; 12];
    place_rows(&mut plane, &[1, 2, 3, 4], 2, 2, 1, 5);
    assert_eq!(plane, vec![0, 1, 2, 0, 0, 0, 3, 4, 0, 0, 0, 0]);
}
