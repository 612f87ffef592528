use sightgfx::bdf::parse_bdf_font;
use sightgfx::bdf::Font;
use sightgfx::bdf::FontType;
use sightgfx::Color;
use sightgfx::Sight;

const MINIMAL_FONT: &str = "FONT testface\n\
SIZE 16\n\
FONTBOUNDINGBOX 6 8 0 -2\n\
STARTCHAR A\n\
ENCODING 65\n\
DWIDTH 7\n\
BBX 1 1 0 0\n\
BITMAP\n\
80\n\
ENDCHAR\n";

#[test]
fn parse_minimal_font() {
    let font = parse_bdf_font(MINIMAL_FONT.as_bytes()).unwrap();
    assert_eq!(font.font_name, b"testface".to_vec());
    assert_eq!(font.size, 16);
    assert_eq!(font.bounding_box, (6, 8, 0, -2));
    assert_eq!(font.glyphs.len(), 1);
    let g = font.get_glyph('A').unwrap();
    assert_eq!(g.encoding, 65);
    assert_eq!(g.device_width, 7);
    assert_eq!(g.width, 1);
    assert_eq!(g.height, 1);
    assert_eq!(g.bitmap, vec![0x80]);
}

#[test]
fn text_width_uses_device_width_and_fallback() {
    let font = parse_bdf_font(MINIMAL_FONT.as_bytes()).unwrap();
    // A mapped character advances by its declared device width.
    assert_eq!(font.text_width("A"), 7);
    // An unmapped character advances by the global bounding-box width.
    assert_eq!(font.text_width("B"), 6);
    assert_eq!(font.text_width("AA"), 14);
    // The widest line wins.
    assert_eq!(font.text_width("A\nAAA\nAA"), 21);
    assert_eq!(font.text_width(""), 0);
}

#[test]
fn text_height_and_dimensions() {
    let font = parse_bdf_font(MINIMAL_FONT.as_bytes()).unwrap();
    assert_eq!(font.text_height(), 8);
    assert_eq!(font.text_dimensions("A\nAA"), (14, 16));
    assert_eq!(font.text_dimensions("A"), (7, 8));
}

#[test]
fn glyph_draw_sets_the_inked_pixel() {
    let font = parse_bdf_font(MINIMAL_FONT.as_bytes()).unwrap();
    let g = font.get_glyph('A').unwrap();
    let mut s = Sight::new(8, 8);
    let c = Color::rgb(255, 255, 255);
    g.draw(3, 4, c, &mut s);
    assert_eq!(s.get_pixel(3, 4), c.to_u32());
    assert_eq!(s.buffer().iter().filter(|&&p| p != 0).count(), 1);
}

#[test]
fn draw_char_returns_the_advance() {
    let font = parse_bdf_font(MINIMAL_FONT.as_bytes()).unwrap();
    let mut s = Sight::new(8, 8);
    let c = Color::rgb(1, 1, 1);
    assert_eq!(font.draw_char('A', 0, 0, c, &mut s), 7);
    assert_eq!(font.draw_char('Z', 0, 0, c, &mut s), 6);
}

#[test]
fn draw_text_advances_the_pen_and_honors_newlines() {
    let font = parse_bdf_font(MINIMAL_FONT.as_bytes()).unwrap();
    let mut s = Sight::new(20, 20);
    let c = Color::rgb(9, 9, 9);
    font.draw_text("AA\nA", 1, 2, c, &mut s);
    // First line: glyphs at pen x 1 and 8; second line: one line height
    // (8) below, back at x 1.
    assert_eq!(s.get_pixel(1, 2), c.to_u32());
    assert_eq!(s.get_pixel(8, 2), c.to_u32());
    assert_eq!(s.get_pixel(1, 10), c.to_u32());
    assert_eq!(s.buffer().iter().filter(|&&p| p != 0).count(), 3);
}

#[test]
fn high_codepoints_are_parsed_but_discarded() {
    let text = "STARTCHAR big\nENCODING 700\nDWIDTH 5\nBBX 1 1 0 0\nBITMAP\n80\nENDCHAR\n";
    let font = parse_bdf_font(text.as_bytes()).unwrap();
    assert_eq!(font.glyphs.len(), 0);
}

#[test]
fn malformed_numbers_read_as_zero() {
    let text = "SIZE banana\nSTARTCHAR x\nENCODING oops\nDWIDTH -\nBBX 2 2 0 0\nBITMAP\nC0\n80\nENDCHAR\n";
    let font = parse_bdf_font(text.as_bytes()).unwrap();
    assert_eq!(font.size, 0);
    // The glyph landed under codepoint zero with device width zero.
    let g = font.get_glyph('\0').unwrap();
    assert_eq!(g.device_width, 0);
    assert_eq!(g.bitmap, vec![0xC0, 0x80]);
}

#[test]
fn later_glyphs_replace_earlier_ones_with_the_same_codepoint() {
    let text = "STARTCHAR a\nENCODING 65\nDWIDTH 3\nBBX 1 1 0 0\nBITMAP\n80\nENDCHAR\n\
STARTCHAR b\nENCODING 65\nDWIDTH 9\nBBX 1 1 0 0\nBITMAP\n40\nENDCHAR\n";
    let font = parse_bdf_font(text.as_bytes()).unwrap();
    assert_eq!(font.glyphs.len(), 1);
    assert_eq!(font.get_glyph('A').unwrap().device_width, 9);
}

#[test]
fn get_min_offsets_caps_at_zero() {
    let font = parse_bdf_font(MINIMAL_FONT.as_bytes()).unwrap();
    assert_eq!(font.get_min_offsets(), (0, 0));
    let text = "STARTCHAR q\nENCODING 113\nDWIDTH 4\nBBX 2 3 -1 -2\nBITMAP\nC0\nC0\nC0\nENDCHAR\n";
    let font2 = parse_bdf_font(text.as_bytes()).unwrap();
    assert_eq!(font2.get_min_offsets(), (-1, -2));
}

#[test]
fn font_new_is_empty() {
    let font = Font::new(FontType::Bdf, b"empty".to_vec());
    assert_eq!(font.glyphs.len(), 0);
    assert_eq!(font.size, 0);
    assert!(font.get_glyph('A').is_none());
}

#[test]
fn whitespace_and_unknown_lines_are_skipped() {
    let text = "\n\n  \nCOMMENT nothing to see\nCHARS 1\nSTARTCHAR A\nENCODING 65\nDWIDTH 2\nBBX 1 1 0 0\nBITMAP\n80\nENDCHAR";
    let font = parse_bdf_font(text.as_bytes()).unwrap();
    assert_eq!(font.glyphs.len(), 1);
    assert_eq!(font.get_glyph('A').unwrap().device_width, 2);
}
