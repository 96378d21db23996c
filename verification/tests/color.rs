use gouache::color::srgb_to_linear;
use gouache::Color;

fn exact(x: u16) -> f64 {
    let c = x as f64 / 65535.0;
    let l = if c < 0.04045 { c / 12.92 } else { ((c + 0.055) / 1.055).powf(2.4) };
    l * 65535.0
}

#[test]
fn the_ends_of_the_range_stay() {
    assert_eq!(srgb_to_linear(0), 0);
    assert_eq!(srgb_to_linear(65535), 65535);
}

#[test]
fn below_the_knee_light_is_linear() {
    assert_eq!(srgb_to_linear(1292), 100);
    assert_eq!(srgb_to_linear(2650), 205);
    assert_eq!(srgb_to_linear(6), 0);
    assert_eq!(srgb_to_linear(7), 1);
}

#[test]
fn above_the_knee_light_is_a_power() {
    // ((0.5 + 0.055) / 1.055) ^ 2.4 is 0.21404.
    assert_eq!(srgb_to_linear(32768), 14028);
    assert_eq!(srgb_to_linear(2651), 205);
}

#[test]
fn linear_light_is_within_one_step_of_the_transfer_function() {
    let mut x: u32 = 0;
    while x <= 65535 {
        let got = srgb_to_linear(x as u16) as f64;
        assert!((got - exact(x as u16)).abs() <= 1.0, "{} gives {} for {}", x, got, exact(x as u16));
        x += 13;
    }
}

#[test]
fn linear_light_grows_with_the_component() {
    let mut last = 0;
    for x in 0..=65535u16 {
        let y = srgb_to_linear(x);
        assert!(y >= last);
        last = y;
    }
}

#[test]
fn colour_is_multiplied_by_alpha() {
    assert_eq!(Color::rgba(65535, 32768, 0, 65535).to_linear_premul(), [65535, 14028, 0, 65535]);
    assert_eq!(Color::rgba(65535, 32768, 0, 32768).to_linear_premul(), [32768, 7014, 0, 32768]);
    assert_eq!(Color::rgba(65535, 65535, 65535, 0).to_linear_premul(), [0, 0, 0, 0]);
    assert_eq!(Color::rgba(65535, 65535, 65535, 1).to_linear_premul(), [1, 1, 1, 1]);
}
