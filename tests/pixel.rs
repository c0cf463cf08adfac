use ppm_image::Pixel;

#[allow(non_snake_case)]
#[test]
fn PixelCreation() {
    let mut pixelA: Pixel = Pixel::new(0, 0, 0);
    let pixelB: Pixel = Pixel::new(255, 255, 255);

    pixelA.invert();

    assert!(pixelA.eq(&pixelB));
}

#[test]
fn init_is_black() {
    assert_eq!(Pixel::init(), Pixel::new(0, 0, 0));
}

#[test]
fn invert_twice_gives_back_the_pixel() {
    let original = Pixel::new(12, 200, 77);
    let mut p = original;
    p.invert();
    assert_eq!(p, Pixel::new(243, 55, 178));
    p.invert();
    assert_eq!(p, original);
}

#[test]
fn greyscale_uses_a_wide_sum() {
    let mut p = Pixel::new(255, 255, 255);
    p.greyScale();
    assert_eq!(p, Pixel::new(255, 255, 255));
    let mut q = Pixel::new(10, 20, 31);
    q.greyScale();
    assert_eq!(q, Pixel::new(20, 20, 20));
}

#[test]
fn greyscale_twice_equals_once() {
    let mut p = Pixel::new(100, 3, 250);
    p.greyScale();
    let once = p;
    p.greyScale();
    assert_eq!(p, once);
    assert_eq!(once, Pixel::new(117, 117, 117));
}

#[test]
fn display_writes_channels_with_trailing_spaces() {
    assert_eq!(Pixel::new(0, 7, 255).display(), "0 7 255 ");
}

#[test]
fn pixels_differing_in_one_channel_are_unequal() {
    assert_ne!(Pixel::new(1, 2, 3), Pixel::new(1, 2, 4));
    assert_ne!(Pixel::new(1, 2, 3), Pixel::new(1, 9, 3));
}
