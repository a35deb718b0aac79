use raytracer::color::{gamma_channel, Color};
use raytracer::render::{build, render_pixel};

#[test]
fn pixel_of_identical_samples_is_the_sample_gamma_corrected() {
    let sample = Color::new(64, 128, 255);
    for rays in [1usize, 2, 7, 200] {
        let c = render_pixel(3, 4, rays, &|_, _, _| sample);
        assert_eq!(c, Color::new(gamma_channel(64), gamma_channel(128), gamma_channel(255)));
        assert_eq!(c, sample.gamma_corrected());
    }
}

#[test]
fn pixel_averages_before_gamma() {
    // Samples 0, 10, 20, 30: mean 15, and the red channel 1, 2, 3, 4: mean 2.
    let c = render_pixel(0, 0, 4, &|_, _, n| Color::new(n as u8 + 1, (n * 10) as u8, 0));
    assert_eq!(c, Color::new(gamma_channel(2), gamma_channel(15), 0));
    assert_eq!(c, Color::new(22, 61, 0));
}

#[test]
fn pixel_function_gets_its_place_and_each_sample_number_once() {
    let seen = std::cell::RefCell::new(Vec::new());
    render_pixel(5, 6, 3, &|x, y, n| {
        seen.borrow_mut().push((x, y, n));
        Color::new(0, 0, 0)
    });
    assert_eq!(seen.into_inner(), vec![(5, 6, 0), (5, 6, 1), (5, 6, 2)]);
}

#[test]
fn build_fills_every_pixel_from_its_own_place() {
    let image = build(4, 3, 5, &|x, y, _| Color::new((x * 60) as u8, (y * 100) as u8, 255));
    assert_eq!(image.get_dimensions(), (4, 3));
    for y in 0..3 {
        for x in 0..4 {
            let expected = Color::new((x * 60) as u8, (y * 100) as u8, 255).gamma_corrected();
            assert_eq!(image.get_pixel(x, y), expected);
        }
    }
}

#[test]
fn build_of_an_empty_image_asks_for_no_sample() {
    let image = build(0, 3, 5, &|_, _, _| panic!("no pixel to sample"));
    assert_eq!(image.get_dimensions(), (0, 3));
    assert_eq!(image.to_ppm(), "P3\n0 3\n255\n");
}
