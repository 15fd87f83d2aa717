use space_travel::color::Color;
use space_travel::depth::{depth_key, DEPTH_INFINITE};
use space_travel::framebuffer::Framebuffer;

fn key(depth: f32) -> u32 {
    depth_key(depth.to_bits())
}

#[test]
fn keys_of_chosen_depths() {
    assert_eq!(key(0.0), 0x7F80_0000);
    assert_eq!(key(-0.0), 0x7F80_0000);
    assert_eq!(key(1.0), 0x7F80_0000 + 0x3F80_0000);
    assert_eq!(key(-1.0), 0x7F80_0000 - 0x3F80_0000);
    assert_eq!(key(f32::NEG_INFINITY), 0);
    assert_eq!(key(f32::MAX), 0xFEFF_FFFF);
    assert_eq!(key(f32::MIN), 1);
    assert_eq!(key(f32::INFINITY), DEPTH_INFINITE);
    assert_eq!(key(f32::NAN), DEPTH_INFINITE);
    assert_eq!(depth_key(0xFFC0_0000), DEPTH_INFINITE);
    assert_eq!(depth_key(0x7F80_0001), DEPTH_INFINITE);
    assert_eq!(depth_key(0xFFFF_FFFF), DEPTH_INFINITE);
}

#[test]
fn keys_compare_as_the_depths_do() {
    let depths = [
        f32::NEG_INFINITY,
        f32::MIN,
        -1000.0,
        -1.5,
        -1.0,
        -f32::MIN_POSITIVE,
        -1e-45,
        0.0,
        1e-45,
        f32::MIN_POSITIVE,
        0.25,
        0.999_999_9,
        1.0,
        1.000_000_1,
        2.0,
        1000.0,
        f32::MAX,
        f32::INFINITY,
    ];
    for a in depths {
        for b in depths {
            assert_eq!(a < b, key(a) < key(b), "{} and {}", a, b);
            assert_eq!(a == b, key(a) == key(b), "{} and {}", a, b);
        }
    }
}

#[test]
fn finite_depths_pass_a_cleared_pixel() {
    let red = Color::new(255, 0, 0, 255);
    for depth in [f32::MAX, 1000.0, 1.0, 0.0, -3.0, f32::MIN, f32::NEG_INFINITY] {
        let mut fb = Framebuffer::new(1, 1);
        fb.point(0, 0, red, key(depth));
        assert_eq!(fb.get_color(0, 0), Some(red));
    }
    for depth in [f32::INFINITY, f32::NAN] {
        let mut fb = Framebuffer::new(1, 1);
        fb.point(0, 0, red, key(depth));
        assert_eq!(fb.get_color(0, 0), Some(Color::new(0, 0, 0, 255)));
    }
}

#[test]
fn nearer_depth_wins_in_either_order() {
    let red = Color::new(255, 0, 0, 255);
    let blue = Color::new(0, 0, 255, 255);
    let mut fb = Framebuffer::new(1, 1);
    fb.point(0, 0, red, key(1.0));
    fb.point(0, 0, blue, key(2.0));
    assert_eq!(fb.get_color(0, 0), Some(red));
    let mut fb = Framebuffer::new(1, 1);
    fb.point(0, 0, blue, key(2.0));
    fb.point(0, 0, red, key(1.0));
    assert_eq!(fb.get_color(0, 0), Some(red));
    let mut fb = Framebuffer::new(1, 1);
    fb.point(0, 0, blue, key(1.0));
    fb.point(0, 0, red, key(1.0));
    assert_eq!(fb.get_color(0, 0), Some(blue));
}
