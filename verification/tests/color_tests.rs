use sightgfx::Color;

#[test]
fn named_colors_match_their_channels() {
    assert_eq!(Color::black(), Color::rgb(0, 0, 0));
    assert_eq!(Color::white(), Color::rgb(255, 255, 255));
    assert_eq!(Color::red(), Color::rgb(255, 0, 0));
    assert_eq!(Color::green(), Color::rgb(0, 255, 0));
    assert_eq!(Color::blue(), Color::rgb(0, 0, 255));
    assert_eq!(Color::yellow(), Color::rgb(255, 255, 0));
    assert_eq!(Color::cyan(), Color::rgb(0, 255, 255));
    assert_eq!(Color::magenta(), Color::rgb(255, 0, 255));
    assert_eq!(Color::orange(), Color::rgb(255, 165, 0));
    assert_eq!(Color::purple(), Color::rgb(128, 0, 128));
    assert_eq!(Color::gray(), Color::rgb(128, 128, 128));
    assert_eq!(Color::light_gray(), Color::rgb(192, 192, 192));
    assert_eq!(Color::dark_gray(), Color::rgb(64, 64, 64));
    assert_eq!(Color::transparent(), Color::rgba(0, 0, 0, 0));
}

#[test]
fn rgb_is_opaque() {
    let c = Color::rgb(10, 20, 30);
    assert_eq!(c, Color { r: 10, g: 20, b: 30, a: 255 });
}

#[test]
fn rgba_keeps_alpha() {
    let c = Color::rgba(1, 2, 3, 4);
    assert_eq!(c.a, 4);
}

#[test]
fn to_u32_packs_bgra() {
    let c = Color::rgba(0x12, 0x34, 0x56, 0x78);
    assert_eq!(c.to_u32(), 0x7812_3456);
    assert_eq!(Color::rgb(255, 0, 0).to_u32(), 0xFF_FF0000);
    assert_eq!(Color::rgb(0, 0, 255).to_u32(), 0xFF_0000FF);
}

#[test]
fn blend_opaque_returns_source() {
    let c = Color::rgba(10, 20, 30, 255);
    let bg = Color::rgb(200, 200, 200);
    assert_eq!(c.blend(bg), c);
}

#[test]
fn blend_transparent_returns_background() {
    let c = Color::rgba(10, 20, 30, 0);
    let bg = Color::rgb(200, 100, 50);
    assert_eq!(c.blend(bg), bg);
}

#[test]
fn blend_half_mixes_channels() {
    let c = Color::rgba(100, 0, 200, 128);
    let bg = Color::rgb(0, 200, 100);
    let r = c.blend(bg);
    // (100*128 + 0*127)/255 = 50, (0*128 + 200*127)/255 = 99,
    // (200*128 + 100*127)/255 = 150; result fully opaque.
    assert_eq!(r, Color { r: 50, g: 99, b: 150, a: 255 });
}

#[test]
fn lerp_at_zero_returns_first() {
    let a = Color::rgba(10, 20, 30, 40);
    let b = Color::rgba(200, 180, 160, 140);
    assert_eq!(a.lerp(b, 0, 100), a);
}

#[test]
fn lerp_at_one_returns_second() {
    let a = Color::rgba(10, 20, 30, 40);
    let b = Color::rgba(200, 180, 160, 140);
    assert_eq!(a.lerp(b, 100, 100), b);
    // The fraction is clamped above one.
    assert_eq!(a.lerp(b, 250, 100), b);
}

#[test]
fn lerp_midpoint_is_exact() {
    let a = Color::rgb(0, 100, 200);
    let b = Color::rgb(100, 0, 250);
    let m = a.lerp(b, 1, 2);
    assert_eq!(m, Color { r: 50, g: 50, b: 225, a: 255 });
}

#[test]
fn lerp_is_monotonic_per_channel() {
    let a = Color::rgb(10, 250, 0);
    let b = Color::rgb(240, 5, 128);
    let mut prev = a.lerp(b, 0, 17);
    for n in 1..=17 {
        let cur = a.lerp(b, n, 17);
        assert!(cur.r >= prev.r);
        assert!(cur.g <= prev.g);
        assert!(cur.b >= prev.b);
        prev = cur;
    }
}
