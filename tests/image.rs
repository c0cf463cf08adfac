use ppm_image::{check_extension, FormatError, Image, Pixel};

fn px(r: u8, g: u8, b: u8) -> Pixel {
    Pixel::new(r, g, b)
}

#[test]
fn loads_two_pixels_and_inverts_them() {
    let mut img = Image::from_ppm("P3\n2 1\n255\n0 0 0 255 255 255\n").unwrap();
    assert_eq!(img.height, 1);
    assert_eq!(img.width, 2);
    assert_eq!(img.pixels, vec![px(0, 0, 0), px(255, 255, 255)]);
    img.invert();
    assert_eq!(img.pixels, vec![px(255, 255, 255), px(0, 0, 0)]);
}

#[test]
fn skips_comments_and_accepts_crlf() {
    let img = Image::from_ppm("# made by hand\r\nP3\r\n# size\r\n1 2\r\n255\r\n1 2 3\r\n4 5 6\r\n").unwrap();
    assert_eq!(img.height, 2);
    assert_eq!(img.width, 1);
    assert_eq!(img.pixels, vec![px(1, 2, 3), px(4, 5, 6)]);
}

#[test]
fn max_value_above_255_is_out_of_range() {
    assert_eq!(Image::from_ppm("P3\n1 1\n256\n1 2 3\n").err(), Some(FormatError::OutOfRange));
    assert_eq!(
        Image::from_ppm("P3\n99999999999999999999999999\n").err(),
        Some(FormatError::OutOfRange)
    );
}

#[test]
fn max_value_that_is_no_number_is_invalid_input() {
    assert_eq!(Image::from_ppm("P3\n1 1\nabc\n").err(), Some(FormatError::InvalidInput));
}

#[test]
fn pixels_before_dimensions_are_uninitialized() {
    assert_eq!(Image::from_ppm("P3\n1 2 3\n").err(), Some(FormatError::UninitializedImage));
    assert_eq!(Image::from_ppm("P3\n\n").err(), Some(FormatError::UninitializedImage));
}

#[test]
fn bad_channel_values_are_invalid() {
    assert_eq!(Image::from_ppm("P3\n1 1\n255\n1 2 x\n").err(), Some(FormatError::InvalidPixelValue));
    assert_eq!(Image::from_ppm("P3\n1 1\n255\n1 2 256\n").err(), Some(FormatError::InvalidPixelValue));
    assert_eq!(
        Image::from_ppm("P3\n2 1\n255\n1 2 3 4\n").err(),
        Some(FormatError::InvalidPixelValue)
    );
}

#[test]
fn malformed_dimensions_are_invalid_input() {
    assert_eq!(Image::from_ppm("P3\n2 x\n").err(), Some(FormatError::InvalidInput));
}

#[test]
fn wrong_pixel_count_is_a_size_mismatch() {
    assert_eq!(Image::from_ppm("P3\n2 2\n255\n1 2 3\n").err(), Some(FormatError::SizeMismatch));
}

#[test]
fn second_dimension_line_starts_over() {
    let img = Image::from_ppm("P3\n1 1\n255\n9 9 9\n2 1\n1 1 1 2 2 2\n").unwrap();
    assert_eq!(img.width, 2);
    assert_eq!(img.height, 1);
    assert_eq!(img.pixels, vec![px(1, 1, 1), px(2, 2, 2)]);
}

#[test]
fn text_without_dimensions_is_the_empty_image() {
    let img = Image::from_ppm("").unwrap();
    assert_eq!((img.height, img.width, img.pixels.len()), (0, 0, 0));
    let img = Image::from_ppm("P3\n255\n").unwrap();
    assert_eq!((img.height, img.width, img.pixels.len()), (0, 0, 0));
}

#[test]
fn get_pixel_is_row_major_and_bounded() {
    let img = Image::from_ppm("P3\n2 2\n255\n1 1 1 2 2 2\n3 3 3 4 4 4\n").unwrap();
    assert_eq!(img.getPixel(0, 1), Ok(px(2, 2, 2)));
    assert_eq!(img.getPixel(1, 0), Ok(px(3, 3, 3)));
    assert_eq!(img.getPixel(1, 1), Ok(px(4, 4, 4)));
    assert_eq!(img.getPixel(2, 0), Err(FormatError::IndexOutOfBounds));
    assert_eq!(img.getPixel(usize::MAX, usize::MAX), Err(FormatError::IndexOutOfBounds));
}

#[test]
fn new_image_has_dimensions_and_no_pixels() {
    let img = Image::new(&3, &4);
    assert_eq!((img.height, img.width, img.pixels.len()), (3, 4, 0));
    assert_eq!(img.getPixel(0, 0), Err(FormatError::IndexOutOfBounds));
}

#[test]
fn writes_the_ppm_text() {
    let img = Image::from_ppm("P3\n2 1\n255\n0 10 255 7 8 9\n").unwrap();
    assert_eq!(img.to_ppm().unwrap(), "P3\n2 1\n255\n0 10 255 7 8 9 \n");
    assert_eq!(img.toString().unwrap(), "0 10 255 7 8 9 \n");
}

#[test]
fn writing_an_image_short_of_pixels_fails() {
    let img = Image::new(&1, &1);
    assert_eq!(img.to_ppm().err(), Some(FormatError::IndexOutOfBounds));
    assert_eq!(img.toString().err(), Some(FormatError::IndexOutOfBounds));
}

#[test]
fn written_text_reads_back_the_same_image() {
    let mut img = Image::new(&2, &3);
    for k in 0..6u8 {
        img.pixels.push(px(k, 40 * k, 255 - k));
    }
    let back = Image::from_ppm(&img.to_ppm().unwrap()).unwrap();
    assert_eq!((back.height, back.width), (2, 3));
    assert_eq!(back.pixels, img.pixels);
    let empty = Image::new(&2, &0);
    let back = Image::from_ppm(&empty.to_ppm().unwrap()).unwrap();
    assert_eq!((back.height, back.width, back.pixels.len()), (2, 0, 0));
}

#[test]
fn greyscale_of_image_is_idempotent() {
    let mut img = Image::from_ppm("P3\n2 1\n255\n10 20 31 0 0 255\n").unwrap();
    img.greyScale();
    assert_eq!(img.pixels, vec![px(20, 20, 20), px(85, 85, 85)]);
    let once = img.pixels.clone();
    img.greyScale();
    assert_eq!(img.pixels, once);
}

#[test]
fn only_the_ppm_extension_is_accepted() {
    assert_eq!(check_extension(Some("ppm")), Ok(()));
    assert_eq!(check_extension(Some("png")), Err(FormatError::InvalidInput));
    assert_eq!(check_extension(Some("PPM")), Err(FormatError::InvalidInput));
    assert_eq!(check_extension(None), Err(FormatError::InvalidInput));
}
