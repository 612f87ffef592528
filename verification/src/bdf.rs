//! A decoder for line-oriented bitmap glyph fonts, and text drawing on
//! the canvas through per-glyph bit tests. Parsing is lenient: malformed
//! numeric fields read as zero, and glyphs with codepoints of 256 or more
//! are parsed but discarded.

use vstd::prelude::*;

use crate::color::Color;
use crate::sight::Sight;
use crate::sight::SightView;

verus! {

/// The recognized bitmap font flavor.
#[derive(Clone, Copy, Debug, PartialEq, Eq, Structural)]
pub enum FontType {
    Bdf,
}

/// One glyph: a packed 1-bit-per-pixel bitmap with its metrics.
#[derive(Clone, Debug)]
pub struct Glyph {
    pub encoding: u32,
    pub bitmap: Vec<u8>,
    pub width: u32,
    pub height: u32,
    pub offset_x: i32,
    pub offset_y: i32,
    pub device_width: u32,
}

/// The mathematical model of a glyph.
pub ghost struct GlyphView {
    pub encoding: int,
    pub bitmap: Seq<u8>,
    pub width: int,
    pub height: int,
    pub offset_x: int,
    pub offset_y: int,
    pub device_width: int,
}

impl View for Glyph {
    type V = GlyphView;

    open spec fn view(&self) -> GlyphView {
        GlyphView {
            encoding: self.encoding as int,
            bitmap: self.bitmap@,
            width: self.width as int,
            height: self.height as int,
            offset_x: self.offset_x as int,
            offset_y: self.offset_y as int,
            device_width: self.device_width as int,
        }
    }
}

impl GlyphView {
    /// Whether bit `(col, row)` of the glyph bitmap is set. Rows are
    /// padded to whole bytes, the leftmost pixel in the highest bit;
    /// bytes missing from a short bitmap read as unset.
    pub open spec fn bit_set(self, col: int, row: int) -> bool {
        let bpr = (self.width + 7) / 8;
        let byte_index = row * bpr + col / 8;
        let bit: u8 = (7 - (col % 8)) as u8;
        &&& 0 <= byte_index < self.bitmap.len()
        &&& self.bitmap[byte_index] & (1u8 << bit) != 0
    }
}

impl SightView {
    /// Whether cell `j` is an inked pixel of the glyph drawn at `(x, y)`.
    pub open spec fn glyph_cell(self, g: GlyphView, x: int, y: int, j: int) -> bool {
        &&& self.width > 0
        &&& x <= self.cell_x(j) < x + g.width
        &&& y <= self.cell_y(j) < y + g.height
        &&& g.bit_set(self.cell_x(j) - x, self.cell_y(j) - y)
    }

    /// Drawing a glyph at `(x, y)`: every addressable cell under a set
    /// bitmap bit takes the color's packed form.
    pub open spec fn glyph_spec(self, g: GlyphView, x: int, y: int, c: Color) -> SightView {
        SightView {
            fb: Seq::new(
                self.fb.len(),
                |j: int|
                    if self.glyph_cell(g, x, y, j) {
                        c.spec_to_u32()
                    } else {
                        self.fb[j]
                    },
            ),
            dirty: self.dirty || (exists|j: int|
                0 <= j < self.fb.len() && self.glyph_cell(g, x, y, j)),
            ..self
        }
    }
}

impl Glyph {
    /// Draws the glyph with already-widened pen coordinates.
    pub(crate) fn draw_at_w(&self, x: i64, y: i64, color: Color, sight: &mut Sight)
        requires
            old(sight)@.wf(),
            -0x4000_0000_0000_0000 <= x <= 0x4000_0000_0000_0000,
            -0x4000_0000_0000_0000 <= y <= 0x4000_0000_0000_0000,
        ensures
            final(sight)@.wf(),
            final(sight)@ == old(sight)@.glyph_spec(self@, x as int, y as int, color),
    {
        let ghost v0 = sight@;
        let ghost g = self@;
        let bpr: u64 = ((self.width as u64) + 7) / 8;
        let blen = self.bitmap.len();
        let mut row: u32 = 0;
        while row < self.height
            invariant
                sight@.wf(),
                sight@.width == v0.width,
                sight@.height == v0.height,
                sight@.fb.len() == v0.fb.len(),
                v0.wf(),
                g == self@,
                bpr == (g.width + 7) / 8,
                blen == g.bitmap.len(),
                -0x4000_0000_0000_0000 <= x <= 0x4000_0000_0000_0000,
                -0x4000_0000_0000_0000 <= y <= 0x4000_0000_0000_0000,
                0 <= row <= g.height,
                sight@.dirty == (v0.dirty || (exists|j: int|
                    0 <= j < v0.fb.len() && v0.glyph_cell(g, x as int, y as int, j) && v0.cell_y(j)
                        - y < row)),
                forall|j: int|
                    0 <= j < v0.fb.len() ==> sight@.fb[j] == (if v0.glyph_cell(
                        g,
                        x as int,
                        y as int,
                        j,
                    ) && v0.cell_y(j) - y < row {
                        color.spec_to_u32()
                    } else {
                        v0.fb[j]
                    }),
            decreases g.height - row,
        {
            let mut col: u32 = 0;
            while col < self.width
                invariant
                    sight@.wf(),
                    sight@.width == v0.width,
                    sight@.height == v0.height,
                    sight@.fb.len() == v0.fb.len(),
                    v0.wf(),
                    g == self@,
                    bpr == (g.width + 7) / 8,
                    blen == g.bitmap.len(),
                    -0x4000_0000_0000_0000 <= x <= 0x4000_0000_0000_0000,
                    -0x4000_0000_0000_0000 <= y <= 0x4000_0000_0000_0000,
                    0 <= row < g.height,
                    0 <= col <= g.width,
                    sight@.dirty == (v0.dirty || (exists|j: int|
                        0 <= j < v0.fb.len() && v0.glyph_cell(g, x as int, y as int, j) && (
                        v0.cell_y(j) - y < row || (v0.cell_y(j) - y == row && v0.cell_x(j) - x
                            < col)))),
                    forall|j: int|
                        0 <= j < v0.fb.len() ==> sight@.fb[j] == (if v0.glyph_cell(
                            g,
                            x as int,
                            y as int,
                            j,
                        ) && (v0.cell_y(j) - y < row || (v0.cell_y(j) - y == row && v0.cell_x(j) - x
                            < col)) {
                            color.spec_to_u32()
                        } else {
                            v0.fb[j]
                        }),
                decreases g.width - col,
            {
                proof {
                    assert(0 <= (row as int) * (bpr as int) <= 0xffff_ffffi64 * 0x2000_0001i64)
                        by (nonlinear_arith)
                        requires
                            0 <= row as int <= 0xffff_ffff,
                            0 <= bpr as int <= 0x2000_0001,
                    ;
                }
                let byte_index: u64 = (row as u64) * bpr + (col as u64) / 8;
                let inked: bool = if byte_index < blen as u64 {
                    let byte = self.bitmap[byte_index as usize];
                    let bit: u32 = 7 - (col % 8);
                    byte & ((1u8) << bit) != 0
                } else {
                    false
                };
                proof {
                    assert(inked == g.bit_set(col as int, row as int));
                }
                if inked {
                    sight.put_pixel_w(x + col as i64, y + row as i64, color);
                }
                proof {
                    let px = x as int + col;
                    let py = y as int + row;
                    if v0.in_bounds(px, py) && inked {
                        crate::sight::lemma_idx_in_range(v0, px, py);
                        crate::sight::lemma_idx_decompose(v0, px, py);
                        let j0 = v0.idx(px, py);
                        assert(0 <= j0 < v0.fb.len() && v0.glyph_cell(g, x as int, y as int, j0)
                            && v0.cell_y(j0) - y == row && v0.cell_x(j0) - x < col + 1);
                    }
                    assert forall|j: int| 0 <= j < v0.fb.len() implies sight@.fb[j] == (if
                        v0.glyph_cell(g, x as int, y as int, j) && (v0.cell_y(j) - y < row || (
                        v0.cell_y(j) - y == row && v0.cell_x(j) - x < col + 1)) {
                        color.spec_to_u32()
                    } else {
                        v0.fb[j]
                    }) by {
                        crate::sight::lemma_cell_decompose(v0, j);
                    }
                    if !(v0.in_bounds(px, py) && inked) {
                        assert forall|j: int| 0 <= j < v0.fb.len() implies (v0.glyph_cell(
                            g,
                            x as int,
                            y as int,
                            j,
                        ) && (v0.cell_y(j) - y < row || (v0.cell_y(j) - y == row && v0.cell_x(j) - x
                            < col + 1))) == (v0.glyph_cell(g, x as int, y as int, j) && (v0.cell_y(
                            j,
                        ) - y < row || (v0.cell_y(j) - y == row && v0.cell_x(j) - x < col))) by {
                            crate::sight::lemma_cell_decompose(v0, j);
                        }
                    }
                }
                col += 1;
            }
            row += 1;
        }
        proof {
            assert(sight@.fb =~= v0.glyph_spec(g, x as int, y as int, color).fb);
        }
    }

    /// Draws the glyph's set bits at `(x, y)`: each inked pixel that lands
    /// on the canvas takes the color.
    pub fn draw(&self, x: i32, y: i32, color: Color, sight: &mut Sight)
        requires
            old(sight)@.wf(),
        ensures
            final(sight)@.wf(),
            final(sight)@ == old(sight)@.glyph_spec(self@, x as int, y as int, color),
    {
        self.draw_at_w(x as i64, y as i64, color, sight);
    }
}

/// The first glyph of a table with the given encoding.
pub open spec fn find_glyph(glyphs: Seq<GlyphView>, enc: int) -> Option<GlyphView>
    decreases glyphs.len(),
{
    if glyphs.len() == 0 {
        None
    } else if glyphs[0].encoding == enc {
        Some(glyphs[0])
    } else {
        find_glyph(glyphs.drop_first(), enc)
    }
}

/// When the first `k` entries miss and entry `k` matches, the lookup
/// returns entry `k`.
pub proof fn lemma_find_glyph_at(glyphs: Seq<GlyphView>, enc: int, k: int)
    requires
        0 <= k < glyphs.len(),
        forall|i: int| 0 <= i < k ==> glyphs[i].encoding != enc,
        glyphs[k].encoding == enc,
    ensures
        find_glyph(glyphs, enc) == Some(glyphs[k]),
    decreases k,
{
    if k > 0 {
        lemma_find_glyph_at(glyphs.drop_first(), enc, k - 1);
    }
}

/// When no entry matches, the lookup misses.
pub proof fn lemma_find_glyph_none(glyphs: Seq<GlyphView>, enc: int)
    requires
        forall|i: int| 0 <= i < glyphs.len() ==> glyphs[i].encoding != enc,
    ensures
        find_glyph(glyphs, enc) is None,
    decreases glyphs.len(),
{
    if glyphs.len() > 0 {
        lemma_find_glyph_none(glyphs.drop_first(), enc);
    }
}

/// A font: global metrics plus a table of glyphs with unique codepoints.
#[derive(Debug)]
pub struct Font {
    pub font_type: FontType,
    pub font_name: Vec<u8>,
    pub size: u32,
    pub bounding_box: (u32, u32, i32, i32),
    pub glyphs: Vec<Glyph>,
}

/// The mathematical model of a font.
pub ghost struct FontView {
    pub name: Seq<u8>,
    pub size: int,
    pub bounding_box: (int, int, int, int),
    pub glyphs: Seq<GlyphView>,
}

impl View for Font {
    type V = FontView;

    open spec fn view(&self) -> FontView {
        FontView {
            name: self.font_name@,
            size: self.size as int,
            bounding_box: (
                self.bounding_box.0 as int,
                self.bounding_box.1 as int,
                self.bounding_box.2 as int,
                self.bounding_box.3 as int,
            ),
            glyphs: Seq::new(self.glyphs@.len(), |i: int| self.glyphs@[i]@),
        }
    }
}

impl FontView {
    /// The glyph table maps each codepoint at most once, and keeps only
    /// codepoints below 256.
    pub open spec fn wf(self) -> bool {
        &&& forall|i: int, k: int|
            0 <= i < k < self.glyphs.len() ==> self.glyphs[i].encoding != self.glyphs[k].encoding
        &&& forall|i: int| 0 <= i < self.glyphs.len() ==> 0 <= #[trigger] self.glyphs[i].encoding < 256
    }

    /// The pen advance for one codepoint: the glyph's device width, or
    /// the global bounding-box width for unmapped codepoints.
    pub open spec fn advance_of(self, ch: int) -> int {
        match find_glyph(self.glyphs, ch) {
            Some(g) => g.device_width,
            None => self.bounding_box.0,
        }
    }
}

impl Font {
    /// An empty font with a name: no glyphs, zero metrics.
    pub fn new(font_type: FontType, font_name: Vec<u8>) -> (f: Font)
        ensures
            f@.wf(),
            f@.name == font_name@,
            f@.size == 0,
            f@.bounding_box == (0int, 0int, 0int, 0int),
            f@.glyphs.len() == 0,
            f.font_type == font_type,
    {
        Font { font_type, font_name, size: 0, bounding_box: (0, 0, 0, 0), glyphs: Vec::new() }
    }

    /// Looks one codepoint up in the glyph table.
    pub fn get_glyph(&self, ch: char) -> (r: Option<&Glyph>)
        ensures
            match r {
                Some(g) => find_glyph(self@.glyphs, ch as int) == Some(g@),
                None => find_glyph(self@.glyphs, ch as int) is None,
            },
    {
        let enc = ch as u32;
        let n = self.glyphs.len();
        let mut i: usize = 0;
        while i < n
            invariant
                n == self.glyphs@.len(),
                0 <= i <= n,
                enc == ch as u32,
                forall|k: int| 0 <= k < i ==> self@.glyphs[k].encoding != enc as int,
            decreases n - i,
        {
            if self.glyphs[i].encoding == enc {
                proof {
                    lemma_find_glyph_at(self@.glyphs, enc as int, i as int);
                }
                return Some(&self.glyphs[i]);
            }
            i += 1;
        }
        proof {
            lemma_find_glyph_none(self@.glyphs, enc as int);
        }
        None
    }

    /// The height of one text line: the global bounding-box height.
    pub fn text_height(&self) -> (h: u32)
        ensures
            h as int == self@.bounding_box.1,
    {
        self.bounding_box.1
    }
}

/// The least glyph x offset in the table, capped at zero.
pub open spec fn min_offset_x(glyphs: Seq<GlyphView>) -> int
    decreases glyphs.len(),
{
    if glyphs.len() == 0 {
        0
    } else {
        let rest = min_offset_x(glyphs.drop_last());
        if glyphs.last().offset_x < rest {
            glyphs.last().offset_x
        } else {
            rest
        }
    }
}

/// The least glyph y offset in the table, capped at zero.
pub open spec fn min_offset_y(glyphs: Seq<GlyphView>) -> int
    decreases glyphs.len(),
{
    if glyphs.len() == 0 {
        0
    } else {
        let rest = min_offset_y(glyphs.drop_last());
        if glyphs.last().offset_y < rest {
            glyphs.last().offset_y
        } else {
            rest
        }
    }
}

impl Font {
    /// The least x and y bearing over all glyphs, capped at zero.
    pub fn get_min_offsets(&self) -> (r: (i32, i32))
        ensures
            r.0 as int == min_offset_x(self@.glyphs),
            r.1 as int == min_offset_y(self@.glyphs),
    {
        let mut min_x: i32 = 0;
        let mut min_y: i32 = 0;
        let n = self.glyphs.len();
        let mut i: usize = 0;
        while i < n
            invariant
                n == self.glyphs@.len(),
                0 <= i <= n,
                min_x as int == min_offset_x(self@.glyphs.subrange(0, i as int)),
                min_y as int == min_offset_y(self@.glyphs.subrange(0, i as int)),
            decreases n - i,
        {
            let ghost pre = self@.glyphs.subrange(0, i as int);
            if self.glyphs[i].offset_x < min_x {
                min_x = self.glyphs[i].offset_x;
            }
            if self.glyphs[i].offset_y < min_y {
                min_y = self.glyphs[i].offset_y;
            }
            proof {
                let cur = self@.glyphs.subrange(0, i + 1);
                assert(cur.drop_last() =~= pre);
                assert(cur.last() == self@.glyphs[i as int]);
            }
            i += 1;
        }
        proof {
            assert(self@.glyphs.subrange(0, n as int) =~= self@.glyphs);
        }
        (min_x, min_y)
    }
}


impl SightView {
    /// Drawing one codepoint: the glyph's inked pixels, or nothing for an
    /// unmapped codepoint.
    pub open spec fn char_spec(self, f: FontView, ch: int, x: int, y: int, c: Color) -> SightView {
        match find_glyph(f.glyphs, ch) {
            Some(g) => self.glyph_spec(g, x, y, c),
            None => self,
        }
    }

    /// Drawing the tail of a text from index `i` on: a newline resets the
    /// pen to `start_x` and advances one line height; any other character
    /// draws its glyph at the pen and advances by its width.
    pub open spec fn text_from(
        self,
        f: FontView,
        text: Seq<char>,
        i: int,
        start_x: int,
        penx: int,
        peny: int,
        c: Color,
    ) -> SightView
        decreases text.len() - i,
    {
        if i < 0 || i >= text.len() {
            self
        } else {
            let ch = text[i];
            if ch == '\n' {
                self.text_from(f, text, i + 1, start_x, start_x, peny + f.bounding_box.1, c)
            } else {
                self.char_spec(f, ch as int, penx, peny, c).text_from(
                    f,
                    text,
                    i + 1,
                    start_x,
                    penx + f.advance_of(ch as int),
                    peny,
                    c,
                )
            }
        }
    }
}

/// The width of the widest text line from index `i` on, given the line
/// width `cur` accumulated so far and the running maximum `maxw`.
pub open spec fn text_width_from(f: FontView, text: Seq<char>, i: int, cur: int, maxw: int) -> int
    decreases text.len() - i,
{
    if i < 0 || i >= text.len() {
        if cur > maxw {
            cur
        } else {
            maxw
        }
    } else if text[i] == '\n' {
        text_width_from(f, text, i + 1, 0, if cur > maxw {
            cur
        } else {
            maxw
        })
    } else {
        text_width_from(f, text, i + 1, cur + f.advance_of(text[i] as int), maxw)
    }
}

/// The width of the widest line of a text.
pub open spec fn spec_text_width(f: FontView, text: Seq<char>) -> int {
    text_width_from(f, text, 0, 0, 0)
}

/// The number of newline characters from index `i` on.
pub open spec fn newline_count(text: Seq<char>, i: int) -> int
    decreases text.len() - i,
{
    if i < 0 || i >= text.len() {
        0
    } else {
        (if text[i] == '\n' {
            1int
        } else {
            0int
        }) + newline_count(text, i + 1)
    }
}

/// The running width never exceeds the final maximum, when every advance
/// is nonnegative.
pub proof fn lemma_text_width_lb(f: FontView, text: Seq<char>, i: int, cur: int, maxw: int)
    requires
        f.wf() || true,
        f.bounding_box.0 >= 0,
        forall|k: int| 0 <= k < f.glyphs.len() ==> #[trigger] f.glyphs[k].device_width >= 0,
    ensures
        text_width_from(f, text, i, cur, maxw) >= cur,
        text_width_from(f, text, i, cur, maxw) >= maxw,
    decreases text.len() - i,
{
    if 0 <= i && i < text.len() {
        if text[i] == '\n' {
            lemma_text_width_lb(f, text, i + 1, 0, if cur > maxw {
                cur
            } else {
                maxw
            });
        } else {
            lemma_find_glyph_width(f.glyphs, text[i] as int);
            lemma_text_width_lb(f, text, i + 1, cur + f.advance_of(text[i] as int), maxw);
        }
    }
}

/// A found glyph is an entry of the table.
pub proof fn lemma_find_glyph_width(glyphs: Seq<GlyphView>, enc: int)
    requires
        forall|k: int| 0 <= k < glyphs.len() ==> #[trigger] glyphs[k].device_width >= 0,
    ensures
        match find_glyph(glyphs, enc) {
            Some(g) => g.device_width >= 0,
            None => true,
        },
    decreases glyphs.len(),
{
    if glyphs.len() > 0 && glyphs[0].encoding != enc {
        let rest = glyphs.drop_first();
        assert forall|k: int| 0 <= k < rest.len() implies #[trigger] rest[k].device_width >= 0 by {
            assert(rest[k] == glyphs[k + 1]);
        }
        lemma_find_glyph_width(rest, enc);
    }
}

impl Font {
    /// Draws one character at `(x, y)` and returns the pen advance: the
    /// glyph's device width, or the global bounding-box width for an
    /// unmapped codepoint.
    pub fn draw_char(&self, ch: char, x: i32, y: i32, color: Color, sight: &mut Sight) -> (adv:
        u32)
        requires
            old(sight)@.wf(),
        ensures
            final(sight)@.wf(),
            final(sight)@ == old(sight)@.char_spec(self@, ch as int, x as int, y as int, color),
            adv as int == self@.advance_of(ch as int),
    {
        match self.get_glyph(ch) {
            Some(g) => {
                let adv = g.device_width;
                g.draw(x, y, color, sight);
                adv
            },
            None => self.bounding_box.0,
        }
    }

    /// Draws a text with the pen starting at `(x, y)`: embedded newlines
    /// reset the pen x and advance y by the font's line height; every
    /// other character draws its glyph and advances the pen.
    pub fn draw_text(&self, text: &str, x: i32, y: i32, color: Color, sight: &mut Sight)
        requires
            old(sight)@.wf(),
            text@.len() <= 0x2000_0000,
        ensures
            final(sight)@.wf(),
            final(sight)@ == old(sight)@.text_from(
                self@,
                text@,
                0,
                x as int,
                x as int,
                y as int,
                color,
            ),
    {
        let ghost v0 = sight@;
        let ghost f = self@;
        let n = text.unicode_len();
        let line_height = self.bounding_box.1;
        let mut penx: i64 = x as i64;
        let mut peny: i64 = y as i64;
        let mut i: usize = 0;
        while i < n
            invariant
                sight@.wf(),
                v0.wf(),
                f == self@,
                n == text@.len(),
                n <= 0x2000_0000,
                0 <= i <= n,
                line_height as int == f.bounding_box.1,
                -0x8000_0000 <= penx <= 0x8000_0000 + (i as int) * 0x1_0000_0000,
                -0x8000_0000 <= peny <= 0x8000_0000 + (i as int) * 0x1_0000_0000,
                sight@.text_from(f, text@, i as int, x as int, penx as int, peny as int, color)
                    == v0.text_from(f, text@, 0, x as int, x as int, y as int, color),
            decreases n - i,
        {
            let ch = text.get_char(i);
            if ch == '\n' {
                penx = x as i64;
                peny = peny + line_height as i64;
            } else {
                match self.get_glyph(ch) {
                    Some(g) => {
                        let adv = g.device_width;
                        g.draw_at_w(penx, peny, color, sight);
                        penx = penx + adv as i64;
                    },
                    None => {
                        penx = penx + self.bounding_box.0 as i64;
                    },
                }
            }
            i += 1;
        }
        proof {
            assert(sight@.text_from(f, text@, n as int, x as int, penx as int, peny as int, color)
                == sight@);
        }
    }

    /// The width of the widest line of a text: glyph device widths summed
    /// per line, the global bounding-box width for unmapped codepoints.
    pub fn text_width(&self, text: &str) -> (w: u32)
        requires
            spec_text_width(self@, text@) <= u32::MAX,
        ensures
            w as int == spec_text_width(self@, text@),
    {
        let ghost f = self@;
        let n = text.unicode_len();
        let mut cur: u32 = 0;
        let mut maxw: u32 = 0;
        let mut i: usize = 0;
        proof {
            lemma_text_width_lb(f, text@, 0, 0, 0);
        }
        while i < n
            invariant
                f == self@,
                n == text@.len(),
                0 <= i <= n,
                text_width_from(f, text@, i as int, cur as int, maxw as int) == spec_text_width(
                    f,
                    text@,
                ),
                spec_text_width(f, text@) <= u32::MAX,
            decreases n - i,
        {
            let ch = text.get_char(i);
            if ch == '\n' {
                if cur > maxw {
                    maxw = cur;
                }
                cur = 0;
            } else {
                let adv = self.char_advance(ch);
                proof {
                    lemma_text_width_lb(
                        f,
                        text@,
                        i + 1,
                        cur as int + f.advance_of(ch as int),
                        maxw as int,
                    );
                }
                cur = cur + adv;
            }
            i += 1;
        }
        if cur > maxw {
            maxw = cur;
        }
        maxw
    }

    /// The pen advance of one codepoint, without drawing.
    fn char_advance(&self, ch: char) -> (adv: u32)
        ensures
            adv as int == self@.advance_of(ch as int),
    {
        match self.get_glyph(ch) {
            Some(g) => g.device_width,
            None => self.bounding_box.0,
        }
    }

    /// The bounding size of a text: the widest line width, and the line
    /// height times the number of lines.
    pub fn text_dimensions(&self, text: &str) -> (r: (u32, u32))
        requires
            spec_text_width(self@, text@) <= u32::MAX,
            self@.bounding_box.1 * (newline_count(text@, 0) + 1) <= u32::MAX,
        ensures
            r.0 as int == spec_text_width(self@, text@),
            r.1 as int == self@.bounding_box.1 * (newline_count(text@, 0) + 1),
    {
        let ghost f = self@;
        let width = self.text_width(text);
        let n = text.unicode_len();
        let mut count: u128 = 1;
        let mut i: usize = 0;
        while i < n
            invariant
                f == self@,
                n == text@.len(),
                0 <= i <= n,
                1 <= count <= 1 + i as int,
                count == 1 + newline_count(text@, 0) - newline_count(text@, i as int),
            decreases n - i,
        {
            let ch = text.get_char(i);
            if ch == '\n' {
                count = count + 1;
            }
            i += 1;
        }
        proof {
            assert(newline_count(text@, n as int) == 0);
            assert(self@.bounding_box.1 * count as int == self@.bounding_box.1 * (newline_count(
                text@,
                0,
            ) + 1)) by (nonlinear_arith)
                requires
                    count as int == newline_count(text@, 0) + 1,
            ;
            assert(self@.bounding_box.1 >= 0);
        }
        let height = (self.bounding_box.1 as u128 * count) as u32;
        (width, height)
    }
}


/// ASCII whitespace, as the line parser recognizes it.
pub open spec fn is_ws(c: u8) -> bool {
    c == 32 || c == 9 || c == 10 || c == 13 || c == 11 || c == 12
}

/// The first index at or after `i` holding a non-whitespace byte.
pub open spec fn skip_ws(s: Seq<u8>, i: int) -> int
    decreases s.len() - i,
{
    if 0 <= i < s.len() && is_ws(s[i]) {
        skip_ws(s, i + 1)
    } else {
        i
    }
}

/// The first index at or after `i` holding a whitespace byte.
pub open spec fn skip_tok(s: Seq<u8>, i: int) -> int
    decreases s.len() - i,
{
    if 0 <= i < s.len() && !is_ws(s[i]) {
        skip_tok(s, i + 1)
    } else {
        i
    }
}

/// The length of `s` with trailing whitespace removed.
pub open spec fn rtrim_end(s: Seq<u8>) -> int
    decreases s.len(),
{
    if s.len() > 0 && is_ws(s.last()) {
        rtrim_end(s.drop_last())
    } else {
        s.len() as int
    }
}

/// The trimmed length never exceeds the length.
pub proof fn lemma_rtrim_le(s: Seq<u8>)
    ensures
        0 <= rtrim_end(s) <= s.len(),
    decreases s.len(),
{
    if s.len() > 0 && is_ws(s.last()) {
        lemma_rtrim_le(s.drop_last());
    }
}

/// A non-whitespace byte keeps every position up to it from being
/// trimmed away.
pub proof fn lemma_rtrim_pos(s: Seq<u8>, p: int)
    requires
        0 <= p < s.len(),
        !is_ws(s[p]),
    ensures
        rtrim_end(s) >= p + 1,
    decreases s.len(),
{
    if s.len() > 0 && is_ws(s.last()) {
        lemma_rtrim_pos(s.drop_last(), p);
    }
}

/// `s` with leading and trailing whitespace removed.
pub open spec fn trim_of(s: Seq<u8>) -> Seq<u8> {
    let b = skip_ws(s, 0);
    let e = rtrim_end(s);
    if b <= e {
        s.subrange(b, e)
    } else {
        Seq::empty()
    }
}

/// Whether `s` begins with the bytes of `p`.
pub open spec fn starts_with(s: Seq<u8>, p: Seq<u8>) -> bool {
    p.len() <= s.len() && s.subrange(0, p.len() as int) == p
}

/// A decimal digit.
pub open spec fn is_digit(c: u8) -> bool {
    48 <= c <= 57
}

/// Whether every byte of `s` is a decimal digit.
pub open spec fn all_digits(s: Seq<u8>) -> bool {
    forall|i: int| 0 <= i < s.len() ==> is_digit(#[trigger] s[i])
}

/// The value of a decimal digit string.
pub open spec fn digits_val(s: Seq<u8>) -> int
    decreases s.len(),
{
    if s.len() == 0 {
        0
    } else {
        digits_val(s.drop_last()) * 10 + (s.last() - 48)
    }
}

/// A digit string's value is never negative.
pub proof fn lemma_digits_val_nonneg(s: Seq<u8>)
    requires
        all_digits(s),
    ensures
        digits_val(s) >= 0,
    decreases s.len(),
{
    if s.len() > 0 {
        assert(all_digits(s.drop_last())) by {
            assert(forall|i: int|
                0 <= i < s.len() - 1 ==> #[trigger] s.drop_last()[i] == s[i]);
        }
        lemma_digits_val_nonneg(s.drop_last());
        assert(digits_val(s.drop_last()) * 10 >= 0) by (nonlinear_arith)
            requires
                digits_val(s.drop_last()) >= 0,
        ;
    }
}

/// The lenient unsigned field parse: an optional plus sign and decimal
/// digits within the 32-bit range; anything else reads as zero.
pub open spec fn parse_u32_or0(s: Seq<u8>) -> int {
    let body = if s.len() > 0 && s[0] == 43 {
        s.drop_first()
    } else {
        s
    };
    if body.len() > 0 && all_digits(body) && digits_val(body) <= 0xffff_ffff {
        digits_val(body)
    } else {
        0
    }
}

/// The lenient signed field parse: an optional sign and decimal digits
/// within the signed 32-bit range; anything else reads as zero.
pub open spec fn parse_i32_or0(s: Seq<u8>) -> int {
    if s.len() > 0 && s[0] == 45 {
        let body = s.drop_first();
        if body.len() > 0 && all_digits(body) && digits_val(body) <= 0x8000_0000 {
            -digits_val(body)
        } else {
            0
        }
    } else {
        let body = if s.len() > 0 && s[0] == 43 {
            s.drop_first()
        } else {
            s
        };
        if body.len() > 0 && all_digits(body) && digits_val(body) <= 0x7fff_ffff {
            digits_val(body)
        } else {
            0
        }
    }
}

/// The start of the `k`-th whitespace-separated token of `s`.
pub open spec fn tok_start(s: Seq<u8>, k: int) -> int
    decreases k,
{
    if k <= 0 {
        skip_ws(s, 0)
    } else {
        skip_ws(s, skip_tok(s, tok_start(s, k - 1)))
    }
}

/// The `k`-th whitespace-separated token of `s`; empty when `s` has no
/// more than `k` tokens.
pub open spec fn token(s: Seq<u8>, k: int) -> Seq<u8> {
    s.subrange(tok_start(s, k), skip_tok(s, tok_start(s, k)))
}

/// Whether the window `[ls, le)` of `data` begins with the bytes of `p`.
fn starts_with_at(data: &[u8], ls: usize, le: usize, p: &[u8]) -> (r: bool)
    requires
        ls <= le <= data@.len(),
    ensures
        r == starts_with(data@.subrange(ls as int, le as int), p@),
{
    let ghost line = data@.subrange(ls as int, le as int);
    let plen = p.len();
    if le - ls < plen {
        return false;
    }
    let mut i: usize = 0;
    while i < plen
        invariant
            ls <= le <= data@.len(),
            line == data@.subrange(ls as int, le as int),
            plen == p@.len() <= line.len(),
            0 <= i <= plen,
            forall|k: int| 0 <= k < i ==> line[k] == p@[k],
        decreases plen - i,
    {
        if data[ls + i] != p[i] {
            proof {
                assert(line[i as int] != p@[i as int]);
                assert(line.subrange(0, plen as int)[i as int] == line[i as int]);
            }
            return false;
        }
        i += 1;
    }
    proof {
        assert(line.subrange(0, plen as int) =~= p@);
    }
    true
}

/// The window of `[b, e)` of `data` with surrounding whitespace removed.
fn trim_at(data: &[u8], b: usize, e: usize) -> (r: (usize, usize))
    requires
        b <= e <= data@.len(),
    ensures
        b <= r.0 <= r.1 <= e,
        data@.subrange(r.0 as int, r.1 as int) == trim_of(data@.subrange(b as int, e as int)),
{
    let ghost line = data@.subrange(b as int, e as int);
    let mut tb = b;
    while tb < e && is_ws_exec(data[tb])
        invariant
            b <= tb <= e <= data@.len(),
            line == data@.subrange(b as int, e as int),
            skip_ws(line, tb - b) == skip_ws(line, 0),
        decreases e - tb,
    {
        proof {
            assert(line[tb - b] == data@[tb as int]);
        }
        tb += 1;
    }
    proof {
        if tb < e {
            assert(line[tb - b] == data@[tb as int]);
        }
        assert(skip_ws(line, tb - b) == tb - b);
    }
    let mut te = e;
    proof {
        assert(line.subrange(0, (e - b) as int) =~= line);
    }
    while te > tb && is_ws_exec(data[te - 1])
        invariant
            b <= tb <= te <= e <= data@.len(),
            line == data@.subrange(b as int, e as int),
            skip_ws(line, 0) == tb - b,
            tb < e ==> !is_ws(line[tb - b]),
            rtrim_end(line.subrange(0, te - b)) == rtrim_end(line),
        decreases te,
    {
        proof {
            let m = te - b;
            let pre = line.subrange(0, m);
            assert(pre.last() == data@[te - 1]);
            assert(pre.drop_last() =~= line.subrange(0, m - 1));
        }
        te -= 1;
    }
    proof {
        lemma_rtrim_le(line);
        let m = te - b;
        let pre = line.subrange(0, m);
        if te > tb {
            assert(pre.last() == data@[te - 1]);
            assert(!is_ws(pre.last()));
            assert(rtrim_end(pre) == m);
            assert(rtrim_end(line) == te - b);
            assert(data@.subrange(tb as int, te as int) =~= trim_of(line));
        } else {
            if tb < e {
                lemma_rtrim_pos(line, tb - b);
                lemma_rtrim_le(pre);
                assert(false);
            }
            assert(tb == e && te == e);
            assert(skip_ws(line, 0) == line.len());
            assert(data@.subrange(tb as int, te as int) =~= Seq::<u8>::empty());
            if rtrim_end(line) >= line.len() {
                assert(trim_of(line) =~= Seq::<u8>::empty());
            } else {
                assert(trim_of(line) =~= Seq::<u8>::empty());
            }
        }
    }
    (tb, te)
}

/// ASCII whitespace.
fn is_ws_exec(c: u8) -> (r: bool)
    ensures
        r == is_ws(c),
{
    c == 32 || c == 9 || c == 10 || c == 13 || c == 11 || c == 12
}

/// The bounds of the `k`-th token of the window `[b, e)` of `data`.
fn token_at(data: &[u8], b: usize, e: usize, k: usize) -> (r: (usize, usize))
    requires
        b <= e <= data@.len(),
        k <= 8,
    ensures
        b <= r.0 <= r.1 <= e,
        data@.subrange(r.0 as int, r.1 as int) == token(
            data@.subrange(b as int, e as int),
            k as int,
        ),
        r.0 as int - b == tok_start(data@.subrange(b as int, e as int), k as int),
        r.1 as int - b == skip_tok(
            data@.subrange(b as int, e as int),
            tok_start(data@.subrange(b as int, e as int), k as int),
        ),
{
    let ghost line = data@.subrange(b as int, e as int);
    let mut ts = skip_ws_at(data, b, e, b);
    let mut kk: usize = 0;
    while kk < k
        invariant
            b <= ts <= e <= data@.len(),
            line == data@.subrange(b as int, e as int),
            0 <= kk <= k <= 8,
            ts as int - b == tok_start(line, kk as int),
        decreases k - kk,
    {
        let end = skip_tok_at(data, b, e, ts);
        let next = skip_ws_at(data, b, e, end);
        ts = next;
        kk += 1;
    }
    let te = skip_tok_at(data, b, e, ts);
    proof {
        assert(data@.subrange(ts as int, te as int) =~= token(line, k as int));
    }
    (ts, te)
}

/// The first non-whitespace position at or after `i` in the window.
fn skip_ws_at(data: &[u8], b: usize, e: usize, i: usize) -> (r: usize)
    requires
        b <= i <= e <= data@.len(),
    ensures
        i <= r <= e,
        r as int - b == skip_ws(data@.subrange(b as int, e as int), i as int - b),
{
    let ghost line = data@.subrange(b as int, e as int);
    let mut cur = i;
    while cur < e && is_ws_exec(data[cur])
        invariant
            b <= i <= cur <= e <= data@.len(),
            line == data@.subrange(b as int, e as int),
            skip_ws(line, cur - b) == skip_ws(line, i - b),
        decreases e - cur,
    {
        proof {
            assert(line[cur - b] == data@[cur as int]);
        }
        cur += 1;
    }
    proof {
        if cur < e {
            assert(line[cur - b] == data@[cur as int]);
        }
        assert(skip_ws(line, cur - b) == cur - b);
    }
    cur
}

/// The first whitespace position at or after `i` in the window.
fn skip_tok_at(data: &[u8], b: usize, e: usize, i: usize) -> (r: usize)
    requires
        b <= i <= e <= data@.len(),
    ensures
        i <= r <= e,
        r as int - b == skip_tok(data@.subrange(b as int, e as int), i as int - b),
{
    let ghost line = data@.subrange(b as int, e as int);
    let mut cur = i;
    while cur < e && !is_ws_exec(data[cur])
        invariant
            b <= i <= cur <= e <= data@.len(),
            line == data@.subrange(b as int, e as int),
            skip_tok(line, cur - b) == skip_tok(line, i - b),
        decreases e - cur,
    {
        proof {
            assert(line[cur - b] == data@[cur as int]);
        }
        cur += 1;
    }
    proof {
        if cur < e {
            assert(line[cur - b] == data@[cur as int]);
        }
        assert(skip_tok(line, cur - b) == cur - b);
    }
    cur
}

/// Parses the window `[b, e)` of `data` as a lenient unsigned field.
fn parse_u32_at(data: &[u8], b: usize, e: usize) -> (r: u32)
    requires
        b <= e <= data@.len(),
    ensures
        r as int == parse_u32_or0(data@.subrange(b as int, e as int)),
{
    let ghost s = data@.subrange(b as int, e as int);
    let b2: usize = if e > b && data[b] == 43 {
        b + 1
    } else {
        b
    };
    let ghost body = data@.subrange(b2 as int, e as int);
    proof {
        if e > b && data@[b as int] == 43 {
            assert(s[0] == 43);
            assert(body =~= s.drop_first());
        } else {
            assert(body =~= s);
        }
    }
    if b2 == e {
        return 0;
    }
    let mut acc: u64 = 0;
    let mut big: bool = false;
    let mut i = b2;
    while i < e
        invariant
            b2 <= i <= e <= data@.len(),
            body == data@.subrange(b2 as int, e as int),
            body.len() > 0,
            parse_u32_or0(data@.subrange(b as int, e as int)) == (if all_digits(body)
                && digits_val(body) <= 0xffff_ffff {
                digits_val(body)
            } else {
                0
            }),
            all_digits(body.subrange(0, i - b2)),
            !big ==> acc as int == digits_val(body.subrange(0, i - b2)) && acc
                <= 0xffff_ffff,
            big ==> digits_val(body.subrange(0, i - b2)) > 0xffff_ffff,
        decreases e - i,
    {
        let c = data[i];
        proof {
            assert(body[i - b2] == data@[i as int]);
        }
        if c < 48 || c > 57 {
            proof {
                assert(!is_digit(body[i - b2]));
                assert(!all_digits(body));
            }
            return 0;
        }
        let ghost pre = body.subrange(0, i - b2);
        let ghost pre2 = body.subrange(0, i + 1 - b2);
        proof {
            assert(pre2.drop_last() =~= pre);
            assert(pre2.last() == body[i - b2]);
            assert(digits_val(pre2) == digits_val(pre) * 10 + (body[i - b2] - 48));
            lemma_digits_val_nonneg(pre);
            if big {
                assert(digits_val(pre) * 10 >= digits_val(pre)) by (nonlinear_arith)
                    requires
                        digits_val(pre) >= 0,
                ;
            }
        }
        if !big {
            acc = acc * 10 + ((c - 48) as u64);
            if acc > 0xffff_ffff {
                big = true;
            }
        }
        i += 1;
    }
    proof {
        assert(body.subrange(0, e - b2) =~= body);
    }
    if big {
        0
    } else {
        acc as u32
    }
}

/// Parses the window `[b, e)` of `data` as a lenient signed field.
fn parse_i32_at(data: &[u8], b: usize, e: usize) -> (r: i32)
    requires
        b <= e <= data@.len(),
    ensures
        r as int == parse_i32_or0(data@.subrange(b as int, e as int)),
{
    let ghost s = data@.subrange(b as int, e as int);
    let neg: bool = e > b && data[b] == 45;
    let b2: usize = if e > b && (data[b] == 43 || data[b] == 45) {
        b + 1
    } else {
        b
    };
    let ghost body = data@.subrange(b2 as int, e as int);
    proof {
        if e > b && (data@[b as int] == 43 || data@[b as int] == 45) {
            assert(s[0] == data@[b as int]);
            assert(body =~= s.drop_first());
        } else {
            assert(body =~= s);
        }
    }
    if b2 == e {
        return 0;
    }
    let mut acc: u64 = 0;
    let mut big: bool = false;
    let mut i = b2;
    while i < e
        invariant
            b2 <= i <= e <= data@.len(),
            body == data@.subrange(b2 as int, e as int),
            body.len() > 0,
            parse_i32_or0(data@.subrange(b as int, e as int)) == (if neg {
                if all_digits(body) && digits_val(body) <= 0x8000_0000 {
                    -digits_val(body)
                } else {
                    0
                }
            } else {
                if all_digits(body) && digits_val(body) <= 0x7fff_ffff {
                    digits_val(body)
                } else {
                    0
                }
            }),
            all_digits(body.subrange(0, i - b2)),
            !big ==> acc as int == digits_val(body.subrange(0, i - b2)) && acc
                <= 0x1_0000_0000,
            big ==> digits_val(body.subrange(0, i - b2)) > 0x1_0000_0000,
        decreases e - i,
    {
        let c = data[i];
        proof {
            assert(body[i - b2] == data@[i as int]);
        }
        if c < 48 || c > 57 {
            proof {
                assert(!is_digit(body[i - b2]));
                assert(!all_digits(body));
            }
            return 0;
        }
        let ghost pre = body.subrange(0, i - b2);
        let ghost pre2 = body.subrange(0, i + 1 - b2);
        proof {
            assert(pre2.drop_last() =~= pre);
            assert(pre2.last() == body[i - b2]);
            assert(digits_val(pre2) == digits_val(pre) * 10 + (body[i - b2] - 48));
            lemma_digits_val_nonneg(pre);
            if big {
                assert(digits_val(pre) * 10 >= digits_val(pre)) by (nonlinear_arith)
                    requires
                        digits_val(pre) >= 0,
                ;
            }
        }
        if !big {
            acc = acc * 10 + ((c - 48) as u64);
            if acc > 0x1_0000_0000 {
                big = true;
            }
        }
        i += 1;
    }
    proof {
        assert(body.subrange(0, e - b2) =~= body);
    }
    if big {
        return 0;
    }
    if neg {
        if acc > 0x8000_0000 {
            0
        } else {
            (0 - acc as i64) as i32
        }
    } else {
        if acc > 0x7fff_ffff {
            0
        } else {
            acc as i32
        }
    }
}

/// The value of one hex digit, or -1 for any other byte.
pub open spec fn hex_val(c: u8) -> int {
    if 48 <= c <= 57 {
        c - 48
    } else if 97 <= c <= 102 {
        c - 87
    } else if 65 <= c <= 70 {
        c - 55
    } else {
        -1
    }
}

/// The bitmap bytes encoded by one hex row, read in two-digit windows; a
/// window with a non-hex byte is skipped, and an odd trailing digit
/// stands alone.
pub open spec fn hex_row(s: Seq<u8>, i: int) -> Seq<u8>
    decreases s.len() - i,
{
    if i < 0 || i >= s.len() {
        Seq::empty()
    } else if i + 1 < s.len() {
        let h0 = hex_val(s[i]);
        let h1 = hex_val(s[i + 1]);
        if h0 >= 0 && h1 >= 0 {
            seq![(h0 * 16 + h1) as u8] + hex_row(s, i + 2)
        } else {
            hex_row(s, i + 2)
        }
    } else {
        let h0 = hex_val(s[i]);
        if h0 >= 0 {
            seq![h0 as u8]
        } else {
            Seq::empty()
        }
    }
}

/// The value of one hex digit, or -1.
fn hex_val_exec(c: u8) -> (r: i32)
    ensures
        r as int == hex_val(c),
{
    if 48 <= c && c <= 57 {
        (c - 48) as i32
    } else if 97 <= c && c <= 102 {
        (c - 87) as i32
    } else if 65 <= c && c <= 70 {
        (c - 55) as i32
    } else {
        -1
    }
}

/// Appends the bitmap bytes of one hex row to `bits`.
fn hex_append(data: &[u8], b: usize, e: usize, bits: &mut Vec<u8>)
    requires
        b <= e <= data@.len(),
    ensures
        final(bits)@ == old(bits)@ + hex_row(data@.subrange(b as int, e as int), 0),
{
    let ghost line = data@.subrange(b as int, e as int);
    let ghost target = old(bits)@ + hex_row(line, 0);
    let mut i = b;
    while i < e
        invariant
            b <= i <= e <= data@.len(),
            line == data@.subrange(b as int, e as int),
            target == old(bits)@ + hex_row(line, 0),
            target == bits@ + hex_row(line, i - b),
        decreases e - i,
    {
        proof {
            assert(line[i - b] == data@[i as int]);
            if i + 1 < e {
                assert(line[i + 1 - b] == data@[i + 1 as int]);
            }
        }
        if i + 1 < e {
            let h0 = hex_val_exec(data[i]);
            let h1 = hex_val_exec(data[i + 1]);
            if h0 >= 0 && h1 >= 0 {
                let byte = (h0 * 16 + h1) as u8;
                bits.push(byte);
                proof {
                    assert(bits@ + hex_row(line, i + 2 - b) =~= target);
                }
            }
            i += 2;
        } else {
            let h0 = hex_val_exec(data[i]);
            if h0 >= 0 {
                bits.push(h0 as u8);
                proof {
                    assert(bits@ + hex_row(line, i + 1 - b) =~= target);
                }
            }
            i += 1;
        }
    }
    proof {
        assert(hex_row(line, e - b) =~= Seq::<u8>::empty());
        assert(bits@ =~= target);
    }
}


/// The keyword introducing the font name.
pub open spec fn kw_font() -> Seq<u8> {
    seq![70u8, 79u8, 78u8, 84u8, 32u8]
}

/// The keyword introducing the point size.
pub open spec fn kw_size() -> Seq<u8> {
    seq![83u8, 73u8, 90u8, 69u8, 32u8]
}

/// The keyword introducing the global bounding box.
pub open spec fn kw_fbb() -> Seq<u8> {
    seq![
        70u8,
        79u8,
        78u8,
        84u8,
        66u8,
        79u8,
        85u8,
        78u8,
        68u8,
        73u8,
        78u8,
        71u8,
        66u8,
        79u8,
        88u8,
        32u8,
    ]
}

/// The marker opening one glyph record.
pub open spec fn kw_startchar() -> Seq<u8> {
    seq![83u8, 84u8, 65u8, 82u8, 84u8, 67u8, 72u8, 65u8, 82u8]
}

/// The keyword introducing a glyph's codepoint.
pub open spec fn kw_encoding() -> Seq<u8> {
    seq![69u8, 78u8, 67u8, 79u8, 68u8, 73u8, 78u8, 71u8, 32u8]
}

/// The keyword introducing a glyph's device width.
pub open spec fn kw_dwidth() -> Seq<u8> {
    seq![68u8, 87u8, 73u8, 68u8, 84u8, 72u8, 32u8]
}

/// The keyword introducing a glyph's bounding box.
pub open spec fn kw_bbx() -> Seq<u8> {
    seq![66u8, 66u8, 88u8, 32u8]
}

/// The marker opening a glyph's hex bitmap rows.
pub open spec fn kw_bitmap() -> Seq<u8> {
    seq![66u8, 73u8, 84u8, 77u8, 65u8, 80u8]
}

/// The marker closing one glyph record.
pub open spec fn kw_endchar() -> Seq<u8> {
    seq![69u8, 78u8, 68u8, 67u8, 72u8, 65u8, 82u8]
}

/// A glyph record as it begins: everything zero.
pub open spec fn empty_glyph() -> GlyphView {
    GlyphView {
        encoding: 0,
        bitmap: Seq::empty(),
        width: 0,
        height: 0,
        offset_x: 0,
        offset_y: 0,
        device_width: 0,
    }
}

/// The model of an optional glyph in progress.
pub open spec fn opt_view(o: Option<Glyph>) -> Option<GlyphView> {
    match o {
        Some(g) => Some(g@),
        None => None,
    }
}

/// A glyph table with `g` recorded: the entry with `g`'s codepoint is
/// replaced if one exists, else `g` is appended.
pub open spec fn insert_glyph(glyphs: Seq<GlyphView>, g: GlyphView) -> Seq<GlyphView> {
    if exists|i: int| 0 <= i < glyphs.len() && glyphs[i].encoding == g.encoding {
        glyphs.update(
            choose|i: int| 0 <= i < glyphs.len() && glyphs[i].encoding == g.encoding,
            g,
        )
    } else {
        glyphs.push(g)
    }
}

/// The parser state after one trimmed, nonempty line: the font under
/// construction, the glyph record in progress, whether hex bitmap rows
/// are being read, and the rows read so far.
pub open spec fn spec_parse_line(
    line: Seq<u8>,
    f: FontView,
    cur: Option<GlyphView>,
    inb: bool,
    bits: Seq<u8>,
) -> (FontView, Option<GlyphView>, bool, Seq<u8>) {
    if starts_with(line, kw_font()) {
        (FontView { name: trim_of(line.skip(5)), ..f }, cur, inb, bits)
    } else if starts_with(line, kw_size()) {
        (FontView { size: parse_u32_or0(trim_of(line.skip(5))), ..f }, cur, inb, bits)
    } else if starts_with(line, kw_fbb()) {
        let rest = line.skip(16);
        if token(rest, 3).len() > 0 {
            (
                FontView {
                    bounding_box: (
                        parse_u32_or0(token(rest, 0)),
                        parse_u32_or0(token(rest, 1)),
                        parse_i32_or0(token(rest, 2)),
                        parse_i32_or0(token(rest, 3)),
                    ),
                    ..f
                },
                cur,
                inb,
                bits,
            )
        } else {
            (f, cur, inb, bits)
        }
    } else if starts_with(line, kw_startchar()) {
        (f, Some(empty_glyph()), inb, bits)
    } else if starts_with(line, kw_encoding()) {
        match cur {
            Some(g) => (
                f,
                Some(GlyphView { encoding: parse_u32_or0(trim_of(line.skip(9))), ..g }),
                inb,
                bits,
            ),
            None => (f, cur, inb, bits),
        }
    } else if starts_with(line, kw_dwidth()) {
        match cur {
            Some(g) => {
                let rest = line.skip(7);
                if token(rest, 0).len() > 0 {
                    (
                        f,
                        Some(GlyphView { device_width: parse_u32_or0(token(rest, 0)), ..g }),
                        inb,
                        bits,
                    )
                } else {
                    (f, cur, inb, bits)
                }
            },
            None => (f, cur, inb, bits),
        }
    } else if starts_with(line, kw_bbx()) {
        match cur {
            Some(g) => {
                let rest = line.skip(4);
                if token(rest, 3).len() > 0 {
                    (
                        f,
                        Some(
                            GlyphView {
                                width: parse_u32_or0(token(rest, 0)),
                                height: parse_u32_or0(token(rest, 1)),
                                offset_x: parse_i32_or0(token(rest, 2)),
                                offset_y: parse_i32_or0(token(rest, 3)),
                                ..g
                            },
                        ),
                        inb,
                        bits,
                    )
                } else {
                    (f, cur, inb, bits)
                }
            },
            None => (f, cur, inb, bits),
        }
    } else if line == kw_bitmap() {
        (f, cur, true, Seq::empty())
    } else if line == kw_endchar() {
        match cur {
            Some(g) => {
                if 0 <= g.encoding < 256 {
                    (
                        FontView {
                            glyphs: insert_glyph(f.glyphs, GlyphView { bitmap: bits, ..g }),
                            ..f
                        },
                        None,
                        false,
                        Seq::empty(),
                    )
                } else {
                    (f, None, false, bits)
                }
            },
            None => (f, None, false, bits),
        }
    } else if inb {
        (f, cur, inb, bits + hex_row(line, 0))
    } else {
        (f, cur, inb, bits)
    }
}

impl Font {
    /// Records a finished glyph: the entry with the same codepoint is
    /// replaced if one exists, else the glyph is appended. Uniqueness of
    /// codepoints is preserved.
    fn insert_glyph_exec(&mut self, g: Glyph)
        requires
            old(self)@.wf(),
            g@.encoding < 256,
        ensures
            final(self)@ == (FontView { glyphs: insert_glyph(old(self)@.glyphs, g@), ..old(self)@ }),
            final(self)@.wf(),
            final(self).font_type == old(self).font_type,
    {
        let ghost gs0 = self@.glyphs;
        let ghost gv = g@;
        let n = self.glyphs.len();
        let mut i: usize = 0;
        while i < n
            invariant
                n == self.glyphs@.len(),
                0 <= i <= n,
                gs0 == self@.glyphs,
                gv == g@,
                old(self)@ == self@,
                old(self)@.wf(),
                gv.encoding < 256,
                self.font_type == old(self).font_type,
                forall|k: int| 0 <= k < i ==> gs0[k].encoding != gv.encoding,
            decreases n - i,
        {
            if self.glyphs[i].encoding == g.encoding {
                proof {
                    assert(gs0[i as int].encoding == gv.encoding);
                    let w = choose|w: int|
                        0 <= w < gs0.len() && gs0[w].encoding == gv.encoding;
                    assert(old(self)@.wf());
                    assert(w == i as int);
                }
                self.glyphs[i] = g;
                proof {
                    assert(self@.glyphs =~= insert_glyph(gs0, gv));
                    assert(final(self)@.glyphs == insert_glyph(gs0, gv));
                }
                return ;
            }
            i += 1;
        }
        proof {
            assert(forall|k: int| 0 <= k < gs0.len() ==> gs0[k].encoding != gv.encoding);
        }
        self.glyphs.push(g);
        proof {
            assert(self@.glyphs =~= insert_glyph(gs0, gv));
        }
    }
}

/// Applies one trimmed, nonempty line of a font description to the
/// parser state, exactly as `spec_parse_line` says.
pub fn parse_line(
    data: &[u8],
    ls: usize,
    le: usize,
    font: &mut Font,
    current_glyph: &mut Option<Glyph>,
    in_bitmap: &mut bool,
    bitmap_data: &mut Vec<u8>,
)
    requires
        ls <= le <= data@.len(),
        old(font)@.wf(),
    ensures
        ({
            let r = spec_parse_line(
                data@.subrange(ls as int, le as int),
                old(font)@,
                opt_view(*old(current_glyph)),
                *old(in_bitmap),
                old(bitmap_data)@,
            );
            &&& final(font)@ == r.0
            &&& opt_view(*final(current_glyph)) == r.1
            &&& *final(in_bitmap) == r.2
            &&& final(bitmap_data)@ == r.3
        }),
        final(font)@.wf(),
        final(font).font_type == old(font).font_type,
{
    let ghost line = data@.subrange(ls as int, le as int);
    let kfont: [u8; 5] = [70u8, 79u8, 78u8, 84u8, 32u8];
    let ksize: [u8; 5] = [83u8, 73u8, 90u8, 69u8, 32u8];
    let kfbb: [u8; 16] = [
        70u8,
        79u8,
        78u8,
        84u8,
        66u8,
        79u8,
        85u8,
        78u8,
        68u8,
        73u8,
        78u8,
        71u8,
        66u8,
        79u8,
        88u8,
        32u8,
    ];
    let kstart: [u8; 9] = [83u8, 84u8, 65u8, 82u8, 84u8, 67u8, 72u8, 65u8, 82u8];
    let kenc: [u8; 9] = [69u8, 78u8, 67u8, 79u8, 68u8, 73u8, 78u8, 71u8, 32u8];
    let kdw: [u8; 7] = [68u8, 87u8, 73u8, 68u8, 84u8, 72u8, 32u8];
    let kbbx: [u8; 4] = [66u8, 66u8, 88u8, 32u8];
    let kbm: [u8; 6] = [66u8, 73u8, 84u8, 77u8, 65u8, 80u8];
    let kend: [u8; 7] = [69u8, 78u8, 68u8, 67u8, 72u8, 65u8, 82u8];
    proof {
        assert(kfont@ =~= kw_font());
        assert(ksize@ =~= kw_size());
        assert(kfbb@ =~= kw_fbb());
        assert(kstart@ =~= kw_startchar());
        assert(kenc@ =~= kw_encoding());
        assert(kdw@ =~= kw_dwidth());
        assert(kbbx@ =~= kw_bbx());
        assert(kbm@ =~= kw_bitmap());
        assert(kend@ =~= kw_endchar());
    }
    if starts_with_at(data, ls, le, kfont.as_slice()) {
        let (tb, te) = trim_at(data, ls + 5, le);
        let mut name: Vec<u8> = Vec::new();
        let mut i = tb;
        while i < te
            invariant
                ls + 5 <= tb <= i <= te <= le <= data@.len(),
                name@ =~= data@.subrange(tb as int, i as int),
            decreases te - i,
        {
            name.push(data[i]);
            proof {
                assert(name@ =~= data@.subrange(tb as int, i + 1));
            }
            i += 1;
        }
        font.font_name = name;
        proof {
            assert(data@.subrange(tb as int, te as int) =~= line.skip(5).subrange(
                skip_ws(line.skip(5), 0),
                rtrim_end(line.skip(5)),
            ) || true);
            assert(line.skip(5) =~= data@.subrange(ls + 5, le as int));
            assert(final(font)@ == (FontView {
                name: trim_of(line.skip(5)),
                ..old(font)@
            }));
        }
    } else if starts_with_at(data, ls, le, ksize.as_slice()) {
        let (tb, te) = trim_at(data, ls + 5, le);
        let v = parse_u32_at(data, tb, te);
        font.size = v;
        proof {
            assert(line.skip(5) =~= data@.subrange(ls + 5, le as int));
        }
    } else if starts_with_at(data, ls, le, kfbb.as_slice()) {
        proof {
            assert(line.skip(16) =~= data@.subrange(ls + 16, le as int));
        }
        let (t3b, t3e) = token_at(data, ls + 16, le, 3);
        if t3e > t3b {
            let (t0b, t0e) = token_at(data, ls + 16, le, 0);
            let (t1b, t1e) = token_at(data, ls + 16, le, 1);
            let (t2b, t2e) = token_at(data, ls + 16, le, 2);
            let w = parse_u32_at(data, t0b, t0e);
            let h = parse_u32_at(data, t1b, t1e);
            let ox = parse_i32_at(data, t2b, t2e);
            let oy = parse_i32_at(data, t3b, t3e);
            font.bounding_box = (w, h, ox, oy);
        }
    } else if starts_with_at(data, ls, le, kstart.as_slice()) {
        *current_glyph = Some(
            Glyph {
                encoding: 0,
                bitmap: Vec::new(),
                width: 0,
                height: 0,
                offset_x: 0,
                offset_y: 0,
                device_width: 0,
            },
        );
        proof {
            assert(opt_view(*final(current_glyph)) == Some(empty_glyph()));
        }
    } else if starts_with_at(data, ls, le, kenc.as_slice()) {
        proof {
            assert(line.skip(9) =~= data@.subrange(ls + 9, le as int));
        }
        if current_glyph.is_some() {
            let (tb, te) = trim_at(data, ls + 9, le);
            let v = parse_u32_at(data, tb, te);
            match current_glyph {
                Some(g) => {
                    g.encoding = v;
                },
                None => {},
            }
        }
    } else if starts_with_at(data, ls, le, kdw.as_slice()) {
        proof {
            assert(line.skip(7) =~= data@.subrange(ls + 7, le as int));
        }
        if current_glyph.is_some() {
            let (t0b, t0e) = token_at(data, ls + 7, le, 0);
            if t0e > t0b {
                let v = parse_u32_at(data, t0b, t0e);
                match current_glyph {
                    Some(g) => {
                        g.device_width = v;
                    },
                    None => {},
                }
            }
        }
    } else if starts_with_at(data, ls, le, kbbx.as_slice()) {
        proof {
            assert(line.skip(4) =~= data@.subrange(ls + 4, le as int));
        }
        if current_glyph.is_some() {
            let (t3b, t3e) = token_at(data, ls + 4, le, 3);
            if t3e > t3b {
                let (t0b, t0e) = token_at(data, ls + 4, le, 0);
                let (t1b, t1e) = token_at(data, ls + 4, le, 1);
                let (t2b, t2e) = token_at(data, ls + 4, le, 2);
                let w = parse_u32_at(data, t0b, t0e);
                let h = parse_u32_at(data, t1b, t1e);
                let ox = parse_i32_at(data, t2b, t2e);
                let oy = parse_i32_at(data, t3b, t3e);
                match current_glyph {
                    Some(g) => {
                        g.width = w;
                        g.height = h;
                        g.offset_x = ox;
                        g.offset_y = oy;
                    },
                    None => {},
                }
            }
        }
    } else if le - ls == 6 && starts_with_at(data, ls, le, kbm.as_slice()) {
        proof {
            assert(line =~= kw_bitmap());
        }
        *in_bitmap = true;
        bitmap_data.clear();
    } else if le - ls == 7 && starts_with_at(data, ls, le, kend.as_slice()) {
        proof {
            assert(line =~= kw_endchar());
        }
        let taken = current_glyph.take();
        match taken {
            Some(mut g) => {
                if g.encoding < 256 {
                    let mut bits: Vec<u8> = Vec::new();
                    core::mem::swap(&mut bits, bitmap_data);
                    g.bitmap = bits;
                    font.insert_glyph_exec(g);
                }
            },
            None => {},
        }
        *in_bitmap = false;
    } else if *in_bitmap {
        proof {
            if line == kw_bitmap() {
                assert(line.subrange(0, 6) =~= kw_bitmap());
            }
            if line == kw_endchar() {
                assert(line.subrange(0, 7) =~= kw_endchar());
            }
        }
        hex_append(data, ls, le, bitmap_data);
    } else {
        proof {
            if line == kw_bitmap() {
                assert(line.subrange(0, 6) =~= kw_bitmap());
            }
            if line == kw_endchar() {
                assert(line.subrange(0, 7) =~= kw_endchar());
            }
        }
    }
}

/// The parser state after scanning `data` from position `i` on, with the
/// current line beginning at `line_start`: each newline or the buffer end
/// closes a line, which is trimmed and applied when nonempty.
pub open spec fn spec_parse_from(
    data: Seq<u8>,
    i: int,
    line_start: int,
    f: FontView,
    cur: Option<GlyphView>,
    inb: bool,
    bits: Seq<u8>,
) -> (FontView, Option<GlyphView>, bool, Seq<u8>)
    decreases data.len() + 1 - i,
{
    if i < 0 || i > data.len() {
        (f, cur, inb, bits)
    } else if i == data.len() || data[i] == 10 {
        let raw = data.subrange(line_start, i);
        let t = trim_of(raw);
        let st = if i > line_start && t.len() > 0 {
            spec_parse_line(t, f, cur, inb, bits)
        } else {
            (f, cur, inb, bits)
        };
        spec_parse_from(data, i + 1, i + 1, st.0, st.1, st.2, st.3)
    } else {
        spec_parse_from(data, i + 1, line_start, f, cur, inb, bits)
    }
}

/// The font decoded from a whole byte buffer.
pub open spec fn spec_parse_bdf(data: Seq<u8>) -> FontView {
    spec_parse_from(
        data,
        0,
        0,
        FontView { name: Seq::empty(), size: 0, bounding_box: (0, 0, 0, 0), glyphs: Seq::empty() },
        None,
        false,
        Seq::empty(),
    ).0
}

/// Decodes a line-oriented bitmap font description. The parse is lenient
/// and never fails: unrecognized lines are skipped, malformed numeric
/// fields read as zero, and only glyphs with codepoints below 256 are
/// kept, each codepoint at most once.
pub fn parse_bdf_font(data: &[u8]) -> (r: Result<Font, &'static str>)
    ensures
        match r {
            Ok(f) => f@ == spec_parse_bdf(data@) && f@.wf() && f.font_type == FontType::Bdf,
            Err(_) => false,
        },
{
    let ghost d = data@;
    let ghost init = FontView {
        name: Seq::empty(),
        size: 0,
        bounding_box: (0, 0, 0, 0),
        glyphs: Seq::empty(),
    };
    let mut font = Font {
        font_type: FontType::Bdf,
        font_name: Vec::new(),
        size: 0,
        bounding_box: (0, 0, 0, 0),
        glyphs: Vec::new(),
    };
    let mut current_glyph: Option<Glyph> = None;
    let mut in_bitmap = false;
    let mut bitmap_data: Vec<u8> = Vec::new();
    let n = data.len();
    let mut line_start: usize = 0;
    let mut i: usize = 0;
    proof {
        assert(font@.glyphs =~= init.glyphs);
        assert(font@.name =~= init.name);
        assert(font@ == init);
        assert(bitmap_data@ =~= Seq::<u8>::empty());
    }
    while i < n
        invariant
            n == d.len(),
            d == data@,
            0 <= line_start <= i <= n,
            font@.wf(),
            font.font_type == FontType::Bdf,
            spec_parse_from(
                d,
                i as int,
                line_start as int,
                font@,
                opt_view(current_glyph),
                in_bitmap,
                bitmap_data@,
            ) == spec_parse_from(d, 0, 0, init, None, false, Seq::empty()),
        decreases n - i,
    {
        if data[i] == 10 {
            if i > line_start {
                let (tb, te) = trim_at(data, line_start, i);
                if te > tb {
                    parse_line(data, tb, te, &mut font, &mut current_glyph, &mut in_bitmap,
                        &mut bitmap_data);
                    proof {
                        assert(data@.subrange(tb as int, te as int) == trim_of(
                            d.subrange(line_start as int, i as int),
                        ));
                    }
                } else {
                    proof {
                        assert(trim_of(d.subrange(line_start as int, i as int)).len() == 0);
                    }
                }
            }
            line_start = i + 1;
        }
        i += 1;
    }
    let ghost f0 = font@;
    let ghost c0 = opt_view(current_glyph);
    let ghost ib0 = in_bitmap;
    let ghost s0 = bitmap_data@;
    if n > line_start {
        let (tb, te) = trim_at(data, line_start, n);
        if te > tb {
            parse_line(data, tb, te, &mut font, &mut current_glyph, &mut in_bitmap,
                &mut bitmap_data);
            proof {
                assert(data@.subrange(tb as int, te as int) == trim_of(
                    d.subrange(line_start as int, n as int),
                ));
            }
        } else {
            proof {
                assert(trim_of(d.subrange(line_start as int, n as int)).len() == 0);
            }
        }
    }
    proof {
        assert(spec_parse_from(d, n as int, line_start as int, f0, c0, ib0, s0)
            == spec_parse_from(
            d,
            n as int + 1,
            n as int + 1,
            font@,
            opt_view(current_glyph),
            in_bitmap,
            bitmap_data@,
        ));
        assert(spec_parse_from(
            d,
            n as int + 1,
            n as int + 1,
            font@,
            opt_view(current_glyph),
            in_bitmap,
            bitmap_data@,
        ) == (font@, opt_view(current_glyph), in_bitmap, bitmap_data@));
    }
    Ok(font)
}

} // verus!
