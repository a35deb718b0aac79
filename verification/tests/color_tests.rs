use raytracer::color::{gamma_channel, Color, ColorAverager};

#[test]
fn color_new_keeps_channels() {
    let c = Color::new(1, 2, 3);
    assert_eq!((c.red, c.green, c.blue), (1, 2, 3));
}

#[test]
fn apply_func_maps_each_channel() {
    let mut c = Color::new(10, 20, 250);
    c.apply_func(|v| v / 2);
    assert_eq!(c, Color::new(5, 10, 125));
}

#[test]
fn gamma_matches_the_square_root_formula_on_every_channel_value() {
    for c in 0..=255u8 {
        let expected = ((c as f64 / 255.0).sqrt() * 255.0) as u8;
        assert_eq!(gamma_channel(c), expected, "channel {}", c);
    }
}

#[test]
fn gamma_exact_values() {
    assert_eq!(gamma_channel(0), 0);
    assert_eq!(gamma_channel(1), 15);
    assert_eq!(gamma_channel(64), 127);
    assert_eq!(gamma_channel(128), 180);
    assert_eq!(gamma_channel(255), 255);
}

#[test]
fn gamma_corrected_works_channel_by_channel() {
    assert_eq!(Color::new(0, 64, 255).gamma_corrected(), Color::new(0, 127, 255));
}

#[test]
fn averager_rounds_the_mean_down() {
    let mut a = ColorAverager::new();
    a.add(Color::new(10, 0, 255));
    a.add(Color::new(13, 1, 255));
    assert_eq!(a.count(), 2);
    assert_eq!(a.average(), Color::new(11, 0, 255));
}

#[test]
fn averaging_identical_samples_gives_the_sample_back() {
    let sample = Color::new(37, 200, 255);
    for n in [1u32, 2, 3, 200, 500] {
        let mut a = ColorAverager::new();
        for _ in 0..n {
            a.add(sample);
        }
        assert_eq!(a.average(), sample);
        assert_eq!(a.average().gamma_corrected(), sample.gamma_corrected());
    }
}

#[test]
fn averager_clone_keeps_the_tally() {
    let mut a = ColorAverager::new();
    a.add(Color::new(4, 8, 12));
    let b = a.clone();
    assert_eq!(b.count(), 1);
    assert_eq!(b.average(), Color::new(4, 8, 12));
}
