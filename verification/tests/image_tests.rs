use raytracer::color::Color;
use raytracer::image::Image;
use raytracer::ray_image::RayImage;
use raytracer::text::{append_decimal, digit_str};

#[test]
fn new_image_is_black() {
    let image = Image::new(3, 2);
    for y in 0..2 {
        for x in 0..3 {
            assert_eq!(image.get_pixel(x, y), Color::new(0, 0, 0));
        }
    }
    assert_eq!(image.get_dimensions(), (3, 2));
}

#[test]
fn set_pixel_changes_one_place() {
    let mut image = Image::new(3, 2);
    image.set_pixel(2, 1, Color::new(9, 8, 7));
    for y in 0..2 {
        for x in 0..3 {
            let expected = if (x, y) == (2, 1) { Color::new(9, 8, 7) } else { Color::new(0, 0, 0) };
            assert_eq!(image.get_pixel(x, y), expected);
        }
    }
}

#[test]
fn cursor_walks_row_after_row() {
    let mut image = Image::new(3, 2);
    let mut cursor = image.pixel_mut_iter();
    let mut seen = Vec::new();
    while let Some(place) = cursor.next() {
        seen.push(place);
    }
    assert_eq!(seen, vec![(0, 0), (1, 0), (2, 0), (0, 1), (1, 1), (2, 1)]);
    assert_eq!(cursor.next(), None);
}

#[test]
fn cursor_of_an_empty_image_ends_at_once() {
    let mut image = Image::new(0, 5);
    assert_eq!(image.pixel_mut_iter().next(), None);
    let mut image = Image::new(5, 0);
    assert_eq!(image.pixel_mut_iter().next(), None);
}

#[test]
fn ppm_text_of_a_small_image() {
    let mut image = Image::new(2, 2);
    image.set_pixel(0, 0, Color::new(255, 0, 0));
    image.set_pixel(1, 0, Color::new(0, 128, 7));
    image.set_pixel(1, 1, Color::new(10, 20, 30));
    assert_eq!(image.to_ppm(), "P3\n2 2\n255\n255 0 0\n0 128 7\n0 0 0\n10 20 30\n");
}

#[test]
fn ppm_text_of_an_empty_image() {
    assert_eq!(Image::new(0, 0).to_ppm(), "P3\n0 0\n255\n");
}

#[test]
fn image_clone_is_equal_pixel_by_pixel() {
    let mut image = Image::new(2, 1);
    image.set_pixel(1, 0, Color::new(1, 2, 3));
    let copy = image.clone();
    assert_eq!(copy.to_ppm(), image.to_ppm());
}

#[test]
fn ray_image_behaves_as_a_grid() {
    let mut image = RayImage::new(4, 3);
    assert_eq!(image.get_dimensions(), (4, 3));
    let mut cursor = image.pixel_mut_iter();
    let mut count = 0usize;
    while let Some((x, y)) = cursor.next() {
        image.set_pixel(x, y, Color::new(x as u8, y as u8, count as u8));
        count += 1;
    }
    assert_eq!(count, 12);
    assert_eq!(image.get_pixel(3, 2), Color::new(3, 2, 11));
    assert_eq!(image.get_pixel(0, 1), Color::new(0, 1, 4));
    let copy = image.clone();
    assert_eq!(copy.to_ppm(), image.to_ppm());
    assert!(image.to_ppm().starts_with("P3\n4 3\n255\n0 0 0\n1 0 1\n"));
}

#[test]
fn decimal_text() {
    let mut s = String::new();
    append_decimal(&mut s, 0);
    s.push(' ');
    append_decimal(&mut s, 7);
    s.push(' ');
    append_decimal(&mut s, 1600);
    s.push(' ');
    append_decimal(&mut s, usize::MAX);
    assert_eq!(s, format!("0 7 1600 {}", usize::MAX));
    assert_eq!(digit_str(0), "0");
    assert_eq!(digit_str(9), "9");
}
