use asciimation::color::{Color, HSVColor, FULL};
use asciimation::frame::{value_to_char, Character};

#[test]
fn hsv_primaries() {
    let red = Color::from(HSVColor { h: 0, s: FULL, v: FULL });
    let green = Color::from(HSVColor { h: FULL / 3, s: FULL, v: FULL });
    let blue = Color::from(HSVColor { h: 2 * FULL / 3, s: FULL, v: FULL });
    assert_eq!(red, Color { r: FULL, g: 0, b: 0 });
    assert_eq!(green, Color { r: 0, g: FULL, b: 0 });
    assert_eq!(blue, Color { r: 0, g: 0, b: FULL });
}

#[test]
fn hsv_hue_sweep_stays_in_range() {
    let mut h = 0;
    while h < FULL {
        let c = Color::from(HSVColor { h, s: FULL, v: FULL });
        assert!(c.r <= FULL && c.g <= FULL && c.b <= FULL);
        h += 7;
    }
}

#[test]
fn hsv_mid_sector_value() {
    // hue 1/12: sector 0, half way: red full, green half
    let c = HSVColor { h: FULL / 12, s: FULL, v: FULL }.to_color();
    assert_eq!(c, Color { r: FULL, g: FULL / 2, b: 0 });
    // grey when unsaturated
    let g = HSVColor { h: 1234, s: 0, v: 2400 }.to_color();
    assert_eq!(g, Color { r: 2400, g: 2400, b: 2400 });
}

#[test]
fn hsv_sector_wraps_modulo_six() {
    // hue 7/6: sector 7 is sector 1 (yellow at its start)
    let c = HSVColor { h: 7 * FULL / 6, s: FULL, v: FULL }.to_color();
    assert_eq!(c, Color { r: FULL, g: FULL, b: 0 });
}

#[test]
fn random_hue_is_vivid() {
    for _ in 0..50 {
        let c = HSVColor::random_hue();
        assert!(c.h < FULL);
        assert_eq!((c.s, c.v), (FULL, FULL));
    }
}

#[test]
fn scale_clamps_and_keeps() {
    let base = Color { r: 3000, g: 1200, b: 6000 };
    let mut c = base;
    c.scale(FULL);
    assert_eq!(c, base);
    let mut c = base;
    c.scale(0);
    assert_eq!(c, Color::black());
    let mut c = base;
    c.scale(FULL * 3 / 2);
    assert_eq!(c, Color { r: 4500, g: 1800, b: FULL });
}

#[test]
fn subtract_clamps_at_zero() {
    let mut c = Color { r: 500, g: 3000, b: 0 };
    c.subtract(1000);
    assert_eq!(c, Color { r: 0, g: 2000, b: 0 });
}

#[test]
fn luminance_weights() {
    assert_eq!(Color::white().luminance(), FULL);
    assert_eq!(Color { r: FULL, g: 0, b: 0 }.luminance(), 1800);
    assert_eq!(Color { r: 0, g: FULL, b: 0 }.luminance(), 3540);
    assert_eq!(Color { r: 0, g: 0, b: FULL }.luminance(), 660);
}

#[test]
fn luminance_grows_with_scale() {
    let base = Color { r: 4000, g: 2500, b: 1000 };
    let mut last = 0;
    for f in [0, 1000, 2000, 3000, 6000, 9000] {
        let mut c = base;
        c.scale(f);
        assert!(c.luminance() >= last);
        last = c.luminance();
    }
}

#[test]
fn interpolate_ends_and_middle() {
    let a = Color { r: FULL, g: 0, b: 0 };
    let b = Color { r: 0, g: 0, b: FULL };
    assert_eq!(a.interpolate(&b, 0), a);
    assert_eq!(a.interpolate(&b, FULL), b);
    assert_eq!(a.interpolate(&b, FULL / 2), Color { r: 3000, g: 0, b: 3000 });
    // t beyond 1 is clamped
    assert_eq!(a.interpolate(&b, 5 * FULL), b);
}

#[test]
fn value_to_char_ends() {
    assert_eq!(value_to_char(0), '$');
    assert_eq!(value_to_char(FULL as i64), ' ');
    assert_eq!(value_to_char(-300), '$');
    assert_eq!(value_to_char(4 * FULL as i64), ' ');
    assert_eq!(value_to_char(FULL as i64 / 2), 'x');
}

#[test]
fn value_to_char_monotonic() {
    let ramp: Vec<char> = "$@B%8&WM#*oahkbdpqwmZO0QLCJUYXzcvunxrjft/\\|()1{}[]?-_+~<>i!lI;:,\"^`'. "
        .chars()
        .collect();
    let mut last = 0;
    let mut v: i64 = 0;
    while v <= FULL as i64 {
        let g = value_to_char(v);
        let idx = ramp.iter().position(|&r| r == g).unwrap();
        assert!(idx >= last);
        last = idx;
        v += 13;
    }
}

#[test]
fn character_random_is_printable() {
    for _ in 0..50 {
        let c = Character::random();
        assert!((32..128).contains(&(c.character as u32)));
        assert!(c.color.r <= FULL && c.color.g <= FULL && c.color.b <= FULL);
    }
}
