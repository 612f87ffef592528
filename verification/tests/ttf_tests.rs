use sightgfx::ttf::rasterize_glyph;
use sightgfx::ttf::GlyphCache;
use sightgfx::ttf::Segment;
use sightgfx::Color;
use sightgfx::Sight;

/// A closed square from (2,2) to (10,10) in font units.
fn square_outline() -> Vec<Segment> {
    vec![
        Segment::MoveTo(2, 2),
        Segment::LineTo(10, 2),
        Segment::LineTo(10, 10),
        Segment::LineTo(2, 10),
        Segment::Close,
    ]
}

#[test]
fn rasterize_square_covers_its_interior() {
    // At size == upem, one font unit is one pixel.
    let g = rasterize_glyph(&square_outline(), 16, 16, 12);
    assert_eq!(g.advance, 12);
    assert_eq!(g.bearing_x, 2);
    assert_eq!(g.bearing_y, 10);
    assert_eq!(g.width, 9);
    assert_eq!(g.height, 9);
    assert_eq!(g.coverage.len(), 81);
    for gy in 0..9usize {
        for gx in 0..9usize {
            let expect = if gx < 8 && gy < 8 { 255 } else { 0 };
            assert_eq!(g.coverage[gy * 9 + gx], expect, "at {} {}", gx, gy);
        }
    }
}

#[test]
fn rasterize_empty_outline_gives_an_empty_glyph() {
    let g = rasterize_glyph(&Vec::new(), 1000, 20, 500);
    assert_eq!(g.width, 0);
    assert_eq!(g.height, 0);
    assert_eq!(g.coverage.len(), 0);
    // 500 * 20 * 256 / 1000 / 256 = 10.
    assert_eq!(g.advance, 10);
}

#[test]
fn curves_flatten_inside_the_control_hull() {
    let segs = vec![
        Segment::MoveTo(0, 0),
        Segment::QuadTo(8, 16, 16, 0),
        Segment::Close,
    ];
    let g = rasterize_glyph(&segs, 16, 16, 16);
    // The flattened arch stays within the control-point box.
    assert!(g.width <= 17);
    assert!(g.height <= 17);
    assert!(g.width >= 10);
}

#[test]
fn cache_lookup_insert_and_clear() {
    let mut cache = GlyphCache::new();
    assert_eq!(cache.len(), 0);
    assert!(cache.get(65, 16).is_none());
    let g = rasterize_glyph(&square_outline(), 16, 16, 12);
    cache.insert(65, 16, g);
    assert_eq!(cache.len(), 1);
    assert!(cache.get(65, 16).is_some());
    assert!(cache.get(65, 17).is_none());
    assert!(cache.get(66, 16).is_none());
    // Reinserting the same key replaces, never duplicates.
    let g2 = rasterize_glyph(&square_outline(), 16, 16, 13);
    cache.insert(65, 16, g2);
    assert_eq!(cache.len(), 1);
    assert_eq!(cache.get(65, 16).unwrap().advance, 13);
    cache.clear_cache();
    assert_eq!(cache.len(), 0);
    assert!(cache.get(65, 16).is_none());
}

#[test]
fn missing_glyphs_lists_uncached_codepoints_once_filled_its_empty() {
    let mut cache = GlyphCache::new();
    let missing = sightgfx::ttf::missing_glyphs(&cache, "AB\nA", 16);
    assert_eq!(missing, vec![65, 66, 65]);
    let g = rasterize_glyph(&square_outline(), 16, 16, 12);
    cache.insert(65, 16, g.clone());
    cache.insert(66, 16, g);
    // The cache was populated once: nothing is missing on a second pass.
    assert_eq!(sightgfx::ttf::missing_glyphs(&cache, "AB\nA", 16).len(), 0);
    // A different size misses again.
    assert_eq!(sightgfx::ttf::missing_glyphs(&cache, "A", 17), vec![65]);
}

#[test]
fn draw_text_cached_twice_gives_identical_pixels() {
    let mut cache = GlyphCache::new();
    let g = rasterize_glyph(&square_outline(), 16, 16, 12);
    cache.insert(65, 16, g);
    let c = Color::rgb(255, 255, 255);
    let mut s = Sight::new(40, 30);
    s.draw_text_cached(&cache, "AA", 0, 20, 16, c);
    let first = s.buffer().clone();
    s.draw_text_cached(&cache, "AA", 0, 20, 16, c);
    assert_eq!(s.buffer(), &first);
    // The glyph box sits at pen + bearings: its top-left inked pixel.
    assert_eq!(s.get_pixel(2, 10), c.to_u32());
    // The second glyph lands one advance (12) to the right.
    assert_eq!(s.get_pixel(14, 10), c.to_u32());
}

#[test]
fn draw_text_cached_skips_uncached_characters() {
    let cache = GlyphCache::new();
    let mut s = Sight::new(20, 20);
    s.present();
    s.draw_text_cached(&cache, "AB", 0, 10, 16, Color::rgb(1, 1, 1));
    assert!(!s.present());
}

#[test]
fn newline_resets_the_cached_pen() {
    let mut cache = GlyphCache::new();
    let g = rasterize_glyph(&square_outline(), 16, 16, 12);
    cache.insert(65, 16, g);
    let c = Color::rgb(200, 0, 0);
    let mut s = Sight::new(40, 40);
    s.draw_text_cached(&cache, "A\nA", 0, 12, 16, c);
    // First line glyph top row at y == 12 - 10.
    assert_eq!(s.get_pixel(2, 2), c.to_u32());
    // Second line: pen y advanced by the pixel size.
    assert_eq!(s.get_pixel(2, 18), c.to_u32());
}

#[test]
fn text_width_cached_sums_advances_per_line() {
    let mut cache = GlyphCache::new();
    let g = rasterize_glyph(&square_outline(), 16, 16, 12);
    cache.insert(65, 16, g);
    assert_eq!(sightgfx::ttf::text_width_cached(&cache, "AAA", 16), 36);
    assert_eq!(sightgfx::ttf::text_width_cached(&cache, "A\nAA", 16), 24);
    // Uncached characters advance nothing.
    assert_eq!(sightgfx::ttf::text_width_cached(&cache, "AZ", 16), 12);
    assert_eq!(sightgfx::ttf::text_width_cached(&cache, "", 16), 0);
}
