//! The canvas: a pixel-addressable framebuffer with scan-conversion
//! drawing routines and a dirty flag that tracks unpresented work.
//!
//! The canvas owns the pixel store. Pushing the finished frame to a
//! physical destination (a window, a memory-mapped device) is the
//! caller's part: `present` reports whether a flush is owed and clears
//! the dirty flag, and `buffer` hands out the packed pixels to flush.

use vstd::prelude::*;

use crate::bmp::BmpImage;
use crate::color::Color;
use crate::geom::Point;
use crate::geom::Rect;

verus! {

/// The mathematical model of a canvas: the packed pixel sequence in
/// row-major order, the fixed dimensions, and the dirty flag.
pub ghost struct SightView {
    pub fb: Seq<u32>,
    pub width: int,
    pub height: int,
    pub dirty: bool,
}

/// Absolute value.
pub open spec fn iabs(v: int) -> int {
    if v >= 0 {
        v
    } else {
        -v
    }
}

/// The larger of two integers.
pub open spec fn imax(a: int, b: int) -> int {
    if a >= b {
        a
    } else {
        b
    }
}

/// The smaller of two integers.
pub open spec fn imin(a: int, b: int) -> int {
    if a <= b {
        a
    } else {
        b
    }
}

impl SightView {
    /// The pixel store covers exactly `width * height` cells.
    pub open spec fn wf(self) -> bool {
        &&& self.fb.len() == self.width * self.height
        &&& self.width >= 0
        &&& self.height >= 0
    }

    /// Whether `(x, y)` is an addressable pixel.
    pub open spec fn in_bounds(self, x: int, y: int) -> bool {
        0 <= x < self.width && 0 <= y < self.height
    }

    /// The row-major cell index of `(x, y)`.
    pub open spec fn idx(self, x: int, y: int) -> int {
        y * self.width + x
    }

    /// The column of cell `j`.
    pub open spec fn cell_x(self, j: int) -> int {
        j % self.width
    }

    /// The row of cell `j`.
    pub open spec fn cell_y(self, j: int) -> int {
        j / self.width
    }

    /// Two canvases share dimensions.
    pub open spec fn same_dims(self, other: SightView) -> bool {
        self.width == other.width && self.height == other.height
    }

    /// Writing one pixel: a no-op outside the canvas; inside, the cell
    /// takes the color's packed form and the canvas becomes dirty.
    pub open spec fn put_pixel(self, x: int, y: int, c: Color) -> SightView {
        if self.in_bounds(x, y) {
            SightView { fb: self.fb.update(self.idx(x, y), c.spec_to_u32()), dirty: true, ..self }
        } else {
            self
        }
    }

    /// The opaque color stored at cell `j`, alpha read as full.
    pub open spec fn stored_color(self, j: int) -> Color {
        unpack_rgb(self.fb[j])
    }

    /// Writing one anti-aliased pixel: the color's alpha is scaled by
    /// `cov / 255`, then blended over the pixel already stored there.
    pub open spec fn put_pixel_aa(self, x: int, y: int, c: Color, cov: u8) -> SightView {
        if self.in_bounds(x, y) {
            let scaled = Color {
                a: ((c.a as int * cov as int) / 255) as u8,
                ..c
            };
            let blended = scaled.spec_blend(self.stored_color(self.idx(x, y)));
            SightView {
                fb: self.fb.update(self.idx(x, y), blended.spec_to_u32()),
                dirty: true,
                ..self
            }
        } else {
            self
        }
    }

    /// Clearing: every cell takes the color's packed form; dirty is set.
    pub open spec fn clear_spec(self, c: Color) -> SightView {
        SightView { fb: Seq::new(self.fb.len(), |j: int| c.spec_to_u32()), dirty: true, ..self }
    }

    /// Presenting: the dirty flag is cleared, pixels stay; the returned
    /// flag says whether a flush of the physical surface is owed.
    pub open spec fn present_spec(self) -> (SightView, bool) {
        (SightView { dirty: false, ..self }, self.dirty)
    }

    /// Whether cell `j` lies inside the box `[x, x+w) x [y, y+h)` clipped
    /// to the canvas.
    pub open spec fn box_cell(self, x: int, y: int, w: int, h: int, j: int) -> bool {
        &&& self.width > 0
        &&& imax(x, 0) <= self.cell_x(j) < imin(x + w, self.width)
        &&& imax(y, 0) <= self.cell_y(j) < imin(y + h, self.height)
    }

    /// Whether the box covers at least one addressable pixel.
    pub open spec fn box_hits(self, x: int, y: int, w: int, h: int) -> bool {
        imax(x, 0) < imin(x + w, self.width) && imax(y, 0) < imin(y + h, self.height)
    }

    /// Filling a box: every cell of the clipped box takes the color's
    /// packed form; dirty is set exactly when a pixel was written.
    pub open spec fn fill_box_spec(self, x: int, y: int, w: int, h: int, c: Color) -> SightView {
        SightView {
            fb: Seq::new(
                self.fb.len(),
                |j: int|
                    if self.box_cell(x, y, w, h, j) {
                        c.spec_to_u32()
                    } else {
                        self.fb[j]
                    },
            ),
            dirty: self.dirty || self.box_hits(x, y, w, h),
            ..self
        }
    }

    /// The left edge of a rectangle clipped to the canvas.
    pub open spec fn clip_x0(self, r: Rect) -> int {
        imax(r.x as int, 0)
    }

    /// One past the right edge of a rectangle clipped to the canvas.
    pub open spec fn clip_x1(self, r: Rect) -> int {
        imin(r.x + r.width, self.width)
    }

    /// The top edge of a rectangle clipped to the canvas.
    pub open spec fn clip_y0(self, r: Rect) -> int {
        imax(r.y as int, 0)
    }

    /// One past the bottom edge of a rectangle clipped to the canvas.
    pub open spec fn clip_y1(self, r: Rect) -> int {
        imin(r.y + r.height, self.height)
    }

    /// Whether cell `j` lies inside the rectangle clipped to the canvas.
    pub open spec fn rect_cell(self, r: Rect, j: int) -> bool {
        self.box_cell(r.x as int, r.y as int, r.width as int, r.height as int, j)
    }

    /// Whether a rectangle covers at least one addressable pixel.
    pub open spec fn rect_hits(self, r: Rect) -> bool {
        self.box_hits(r.x as int, r.y as int, r.width as int, r.height as int)
    }

    /// Filling a rectangle: every cell of the clipped rectangle takes the
    /// color's packed form; dirty is set exactly when a pixel was written.
    pub open spec fn fill_rect_spec(self, r: Rect, c: Color) -> SightView {
        self.fill_box_spec(r.x as int, r.y as int, r.width as int, r.height as int, c)
    }

    /// Filling one horizontal span: row `y` from `xl` to `xr`, both ends
    /// inclusive, clipped to the canvas.
    pub open spec fn fill_span_spec(self, y: int, xl: int, xr: int, c: Color) -> SightView {
        self.fill_box_spec(xl, y, xr - xl + 1, 1, c)
    }
}

/// The number of pixels a rectangle fill writes: the area of the
/// rectangle clipped to the canvas.
pub open spec fn fill_rect_count(v: SightView, r: Rect) -> int {
    let w = v.clip_x1(r) - v.clip_x0(r);
    let h = v.clip_y1(r) - v.clip_y0(r);
    if w > 0 && h > 0 {
        w * h
    } else {
        0
    }
}

/// Whether a rectangle lies fully on the canvas.
pub open spec fn rect_on_canvas(v: SightView, r: Rect) -> bool {
    0 <= r.x && 0 <= r.y && r.x + r.width <= v.width && r.y + r.height <= v.height
}

/// A rectangle fill writes exactly `width * height` pixels when the
/// rectangle lies fully on the canvas, and strictly fewer when a nonempty
/// rectangle is clipped at a canvas edge.
pub proof fn lemma_fill_rect_count(v: SightView, r: Rect)
    requires
        v.wf(),
    ensures
        rect_on_canvas(v, r) ==> fill_rect_count(v, r) == r.width * r.height,
        fill_rect_count(v, r) <= r.width * r.height,
        r.width > 0 && r.height > 0 && !rect_on_canvas(v, r) ==> fill_rect_count(v, r) < r.width
            * r.height,
{
    let w = v.clip_x1(r) - v.clip_x0(r);
    let h = v.clip_y1(r) - v.clip_y0(r);
    assert(r.width as int * r.height as int >= 0) by (nonlinear_arith)
        requires
            r.width >= 0,
            r.height >= 0,
    ;
    if w > 0 && h > 0 {
        assert(w <= r.width && h <= r.height);
        assert(w * h <= r.width * r.height) by (nonlinear_arith)
            requires
                0 < w <= r.width,
                0 < h <= r.height,
        ;
        if !rect_on_canvas(v, r) {
            assert(w < r.width || h < r.height);
            assert(w * h < r.width * r.height) by (nonlinear_arith)
                requires
                    0 < w <= r.width,
                    0 < h <= r.height,
                    w < r.width || h < r.height,
            ;
        }
    } else {
        if r.width > 0 && r.height > 0 {
            assert(0 < r.width * r.height) by (nonlinear_arith)
                requires
                    r.width > 0,
                    r.height > 0,
            ;
        }
        if rect_on_canvas(v, r) {
            assert(w == r.width && h == r.height);
            assert(r.width == 0 || r.height == 0);
            assert(r.width as int * r.height as int == 0) by (nonlinear_arith)
                requires
                    r.width == 0 || r.height == 0,
            ;
        }
    }
}

/// Reads an opaque color back out of a packed BGRA word.
pub open spec fn unpack_rgb(p: u32) -> Color {
    Color {
        r: ((p as int / 0x10000) % 0x100) as u8,
        g: ((p as int / 0x100) % 0x100) as u8,
        b: (p as int % 0x100) as u8,
        a: 255,
    }
}

/// An addressable pixel's cell index lies inside the store.
pub proof fn lemma_idx_in_range(v: SightView, x: int, y: int)
    requires
        v.wf(),
        v.in_bounds(x, y),
    ensures
        0 <= v.idx(x, y) < v.fb.len(),
{
    assert(0 <= y * v.width + x < v.width * v.height) by (nonlinear_arith)
        requires
            0 <= x < v.width,
            0 <= y < v.height,
    ;
}

/// A cell index decomposes uniquely into its column and row.
pub proof fn lemma_idx_decompose(v: SightView, x: int, y: int)
    requires
        v.wf(),
        v.in_bounds(x, y),
    ensures
        v.cell_x(v.idx(x, y)) == x,
        v.cell_y(v.idx(x, y)) == y,
{
    vstd::arithmetic::div_mod::lemma_fundamental_div_mod_converse(y * v.width + x, v.width, y, x);
}

/// Every cell index addresses an in-bounds pixel, and writing that
/// pixel's coordinates addresses the same cell.
pub proof fn lemma_cell_decompose(v: SightView, j: int)
    requires
        v.wf(),
        0 <= j < v.fb.len(),
    ensures
        v.width > 0,
        v.in_bounds(v.cell_x(j), v.cell_y(j)),
        v.idx(v.cell_x(j), v.cell_y(j)) == j,
{
    assert(v.width > 0) by (nonlinear_arith)
        requires
            v.width * v.height == v.fb.len(),
            0 <= j < v.fb.len(),
            v.width >= 0,
            v.height >= 0,
    ;
    vstd::arithmetic::div_mod::lemma_fundamental_div_mod(j, v.width);
    vstd::arithmetic::div_mod::lemma_mod_bound(j, v.width);
    assert(v.cell_y(j) < v.height) by (nonlinear_arith)
        requires
            v.width > 0,
            j < v.width * v.height,
            0 <= j,
            v.cell_y(j) == j / v.width,
    ;
    assert(v.cell_y(j) >= 0) by {
        vstd::arithmetic::div_mod::lemma_div_pos_is_pos(j, v.width);
    }
}

/// A canvas bound to a framebuffer of fixed dimensions.
pub struct Sight {
    pub fb: Vec<u32>,
    pub width: u32,
    pub height: u32,
    pub dirty: bool,
}

impl View for Sight {
    type V = SightView;

    open spec fn view(&self) -> SightView {
        SightView {
            fb: self.fb@,
            width: self.width as int,
            height: self.height as int,
            dirty: self.dirty,
        }
    }
}

impl Sight {
    /// The store index of an addressable pixel.
    fn cell_index(&self, x: i64, y: i64) -> (j: usize)
        requires
            self@.wf(),
            self@.in_bounds(x as int, y as int),
        ensures
            j as int == self@.idx(x as int, y as int),
            j < self@.fb.len(),
    {
        proof {
            lemma_idx_in_range(self@, x as int, y as int);
        }
        let len = self.fb.len();
        (y as u64 * self.width as u64 + x as u64) as usize
    }

    /// A fresh canvas: all pixels zeroed, marked dirty so that the first
    /// present pushes the initial frame out.
    pub fn new(width: u32, height: u32) -> (s: Sight)
        requires
            width as int * height as int <= usize::MAX as int,
        ensures
            s@.wf(),
            s@.width == width as int,
            s@.height == height as int,
            s@.dirty == true,
            forall|j: int| 0 <= j < s@.fb.len() ==> s@.fb[j] == 0u32,
    {
        proof {
            assert(width as int * height as int >= 0) by (nonlinear_arith)
                requires
                    width >= 0,
                    height >= 0,
            ;
        }
        let n = (width as u64 * height as u64) as usize;
        let mut fb: Vec<u32> = Vec::new();
        while fb.len() < n
            invariant
                fb.len() <= n,
                n == width as int * height as int,
                forall|j: int| 0 <= j < fb.len() ==> fb[j] == 0u32,
            decreases n - fb.len(),
        {
            fb.push(0);
        }
        Sight { fb, width, height, dirty: true }
    }

    /// The canvas width in pixels.
    pub fn width(&self) -> (w: u32)
        ensures
            w as int == self@.width,
    {
        self.width
    }

    /// The canvas height in pixels.
    pub fn height(&self) -> (h: u32)
        ensures
            h as int == self@.height,
    {
        self.height
    }

    /// The packed pixels, row-major, for the caller's flush.
    pub fn buffer(&self) -> (fb: &Vec<u32>)
        ensures
            fb@ == self@.fb,
    {
        &self.fb
    }

    /// Reads one pixel back.
    pub fn get_pixel(&self, x: u32, y: u32) -> (p: u32)
        requires
            self@.wf(),
            self@.in_bounds(x as int, y as int),
        ensures
            p == self@.fb[self@.idx(x as int, y as int)],
    {
        let j = self.cell_index(x as i64, y as i64);
        self.fb[j]
    }

    /// Writes `color` to every addressable pixel and marks the canvas
    /// dirty.
    pub fn clear(&mut self, color: Color)
        requires
            old(self)@.wf(),
        ensures
            final(self)@.wf(),
            final(self)@ == old(self)@.clear_spec(color),
    {
        let packed = color.to_u32();
        let n = self.fb.len();
        let mut i: usize = 0;
        while i < n
            invariant
                n == self.fb.len(),
                self@.fb.len() == old(self)@.fb.len(),
                self@.width == old(self)@.width,
                self@.height == old(self)@.height,
                self@.dirty == old(self)@.dirty,
                i <= n,
                packed == color.spec_to_u32(),
                forall|j: int| 0 <= j < i ==> self@.fb[j] == packed,
                forall|j: int| i <= j < n ==> self@.fb[j] == old(self)@.fb[j],
            decreases n - i,
        {
            self.fb[i] = packed;
            i += 1;
        }
        self.dirty = true;
        proof {
            assert(self@.fb =~= old(self)@.clear_spec(color).fb);
        }
    }

    /// Writes one pixel, with coordinates already widened; a silent no-op
    /// outside the canvas.
    pub(crate) fn put_pixel_w(&mut self, x: i64, y: i64, color: Color)
        requires
            old(self)@.wf(),
        ensures
            final(self)@.wf(),
            final(self)@ == old(self)@.put_pixel(x as int, y as int, color),
    {
        if x < 0 || y < 0 || x >= self.width as i64 || y >= self.height as i64 {
            return ;
        }
        let j = self.cell_index(x, y);
        let packed = color.to_u32();
        self.fb[j] = packed;
        self.dirty = true;
        proof {
            assert(self@.fb =~= old(self)@.put_pixel(x as int, y as int, color).fb);
        }
    }

    /// Bounds-checks `(x, y)` against the canvas; outside it, nothing is
    /// written and the dirty flag keeps its value. Inside, the pixel takes
    /// the color's packed form and the canvas is dirty.
    pub fn put_pixel(&mut self, x: i32, y: i32, color: Color)
        requires
            old(self)@.wf(),
        ensures
            final(self)@.wf(),
            final(self)@ == old(self)@.put_pixel(x as int, y as int, color),
            !old(self)@.in_bounds(x as int, y as int) ==> final(self)@ == old(self)@,
    {
        self.put_pixel_w(x as i64, y as i64, color);
    }

    /// Writes one pixel with fractional coverage `cov / 255`: the color's
    /// alpha is scaled by the coverage, then blended over the pixel already
    /// stored there. The anti-aliasing primitive.
    pub fn put_pixel_aa(&mut self, x: i32, y: i32, color: Color, cov: u8)
        requires
            old(self)@.wf(),
        ensures
            final(self)@.wf(),
            final(self)@ == old(self)@.put_pixel_aa(x as int, y as int, color, cov),
            !old(self)@.in_bounds(x as int, y as int) ==> final(self)@ == old(self)@,
    {
        if x < 0 || y < 0 || (x as i64) >= self.width as i64 || (y as i64) >= self.height as i64 {
            return ;
        }
        let j = self.cell_index(x as i64, y as i64);
        let p = self.fb[j];
        let existing = Color {
            r: ((p / 0x10000) % 0x100) as u8,
            g: ((p / 0x100) % 0x100) as u8,
            b: (p % 0x100) as u8,
            a: 255,
        };
        proof {
            assert(color.a as int * cov as int <= 255 * 255) by (nonlinear_arith)
                requires
                    color.a <= 255,
                    cov <= 255,
            ;
            assert(color.a as int * cov as int >= 0) by (nonlinear_arith)
                requires
                    color.a >= 0,
                    cov >= 0,
            ;
        }
        let scaled_a = ((color.a as u32 * cov as u32) / 255) as u8;
        let scaled = Color { r: color.r, g: color.g, b: color.b, a: scaled_a };
        let blended = scaled.blend(existing);
        let packed = blended.to_u32();
        self.fb[j] = packed;
        self.dirty = true;
        proof {
            assert(self@.fb =~= old(self)@.put_pixel_aa(x as int, y as int, color, cov).fb);
        }
    }

    /// Reports whether a flush of the physical surface is owed — exactly
    /// when drawing has happened since the last present — and clears the
    /// dirty flag. Pixels are untouched.
    pub fn present(&mut self) -> (flush: bool)
        ensures
            final(self)@ == old(self)@.present_spec().0,
            flush == old(self)@.present_spec().1,
    {
        let flush = self.dirty;
        self.dirty = false;
        flush
    }

    /// Marks unflushed drawing state by hand: a caller whose flush of the
    /// physical surface failed restores the flag with this, so that the
    /// next present retries the flush.
    pub fn mark_dirty(&mut self)
        ensures
            final(self)@ == (SightView { dirty: true, ..old(self)@ }),
    {
        self.dirty = true;
    }

    /// Asks for a flush unconditionally and clears the dirty flag.
    pub fn force_present(&mut self) -> (flush: bool)
        ensures
            final(self)@ == old(self)@.present_spec().0,
            flush == true,
    {
        self.dirty = false;
        true
    }
}

/// A present asks for one flush per dirty transition: a second present
/// with no drawing in between never asks for another.
pub proof fn lemma_present_twice(v: SightView)
    ensures
        v.present_spec().0.present_spec().1 == false,
{
}

impl Sight {
    /// Fills one clipped box with already-widened coordinates.
    fn fill_box_w(&mut self, bx: i64, by: i64, bw: i64, bh: i64, color: Color)
        requires
            old(self)@.wf(),
            -0x10_0000_0000 <= bx <= 0x10_0000_0000,
            -0x10_0000_0000 <= by <= 0x10_0000_0000,
            0 <= bw <= 0x10_0000_0000,
            0 <= bh <= 0x10_0000_0000,
        ensures
            final(self)@.wf(),
            final(self)@ == old(self)@.fill_box_spec(bx as int, by as int, bw as int, bh as int, color),
    {
        let ghost v0 = self@;
        let x0: i64 = if bx < 0 {
            0
        } else {
            bx
        };
        let x1: i64 = {
            let e = bx + bw;
            if e > self.width as i64 {
                self.width as i64
            } else {
                e
            }
        };
        let y0: i64 = if by < 0 {
            0
        } else {
            by
        };
        let y1: i64 = {
            let e = by + bh;
            if e > self.height as i64 {
                self.height as i64
            } else {
                e
            }
        };
        if x0 >= x1 || y0 >= y1 {
            proof {
                assert(!v0.box_hits(bx as int, by as int, bw as int, bh as int));
                assert(forall|j: int|
                    0 <= j < v0.fb.len() ==> !v0.box_cell(bx as int, by as int, bw as int, bh as int, j));
                assert(self@.fb =~= v0.fill_box_spec(
                    bx as int,
                    by as int,
                    bw as int,
                    bh as int,
                    color,
                ).fb);
            }
            return ;
        }
        let packed = color.to_u32();
        let mut y = y0;
        while y < y1
            invariant
                self@.wf(),
                self@.width == v0.width,
                self@.height == v0.height,
                self@.fb.len() == v0.fb.len(),
                v0.wf(),
                x0 as int == imax(bx as int, 0),
                x1 as int == imin(bx + bw, v0.width),
                y0 as int == imax(by as int, 0),
                y1 as int == imin(by + bh, v0.height),
                0 <= x0 < x1 <= v0.width,
                0 <= y0 <= y <= y1 <= v0.height,
                packed == color.spec_to_u32(),
                self@.dirty == (v0.dirty || y > y0),
                forall|j: int|
                    0 <= j < v0.fb.len() ==> self@.fb[j] == (if v0.box_cell(
                        bx as int,
                        by as int,
                        bw as int,
                        bh as int,
                        j,
                    ) && v0.cell_y(j) < y {
                        packed
                    } else {
                        v0.fb[j]
                    }),
            decreases y1 - y,
        {
            let mut x = x0;
            proof {
                assert forall|j: int| 0 <= j < v0.fb.len() implies self@.fb[j] == (if v0.box_cell(
                    bx as int,
                    by as int,
                    bw as int,
                    bh as int,
                    j,
                ) && (v0.cell_y(j) < y || (v0.cell_y(j) == y && v0.cell_x(j) < x)) {
                    packed
                } else {
                    v0.fb[j]
                }) by {
                    assert(self@.fb[j] == (if v0.box_cell(
                        bx as int,
                        by as int,
                        bw as int,
                        bh as int,
                        j,
                    ) && v0.cell_y(j) < y {
                        packed
                    } else {
                        v0.fb[j]
                    }));
                    if v0.box_cell(bx as int, by as int, bw as int, bh as int, j) && v0.cell_y(j)
                        == y {
                        assert(v0.cell_x(j) >= x0);
                    }
                }
            }
            while x < x1
                invariant
                    self@.wf(),
                    self@.width == v0.width,
                    self@.height == v0.height,
                    self@.fb.len() == v0.fb.len(),
                    v0.wf(),
                    x0 as int == imax(bx as int, 0),
                    x1 as int == imin(bx + bw, v0.width),
                    y0 as int == imax(by as int, 0),
                    y1 as int == imin(by + bh, v0.height),
                    0 <= x0 <= x <= x1 <= v0.width,
                    0 <= y0 <= y < y1 <= v0.height,
                    packed == color.spec_to_u32(),
                    self@.dirty == (v0.dirty || y > y0 || x > x0),
                    forall|j: int|
                        0 <= j < v0.fb.len() ==> self@.fb[j] == (if v0.box_cell(
                            bx as int,
                            by as int,
                            bw as int,
                            bh as int,
                            j,
                        ) && (v0.cell_y(j) < y || (v0.cell_y(j) == y && v0.cell_x(j) < x)) {
                            packed
                        } else {
                            v0.fb[j]
                        }),
                decreases x1 - x,
            {
                self.put_pixel_w(x, y, color);
                proof {
                    lemma_idx_in_range(v0, x as int, y as int);
                    lemma_idx_decompose(v0, x as int, y as int);
                    assert forall|j: int| 0 <= j < v0.fb.len() implies self@.fb[j] == (if
                        v0.box_cell(bx as int, by as int, bw as int, bh as int, j) && (v0.cell_y(j)
                        < y || (v0.cell_y(j) == y && v0.cell_x(j) < x + 1)) {
                        packed
                    } else {
                        v0.fb[j]
                    }) by {
                        lemma_cell_decompose(v0, j);
                    }
                }
                x += 1;
            }
            y += 1;
        }
        proof {
            assert forall|j: int| 0 <= j < v0.fb.len() implies self@.fb[j] == (if v0.box_cell(
                bx as int,
                by as int,
                bw as int,
                bh as int,
                j,
            ) {
                packed
            } else {
                v0.fb[j]
            }) by {
                lemma_cell_decompose(v0, j);
            }
            assert(self@.fb =~= v0.fill_box_spec(bx as int, by as int, bw as int, bh as int, color).fb);
        }
    }

    /// Fills the rectangle `[x, x+width) x [y, y+height)` with `color`,
    /// clamped to the canvas; pixels outside the rectangle keep their
    /// value, and dirty is set exactly when at least one pixel landed.
    pub fn fill_rect(&mut self, rect: Rect, color: Color)
        requires
            old(self)@.wf(),
        ensures
            final(self)@.wf(),
            final(self)@ == old(self)@.fill_rect_spec(rect, color),
    {
        self.fill_box_w(
            rect.x as i64,
            rect.y as i64,
            rect.width as i64,
            rect.height as i64,
            color,
        );
    }
}

/// The loop measure of the midpoint circle walk.
pub open spec fn circle_measure(x: int, y: int) -> nat {
    if x + 1 >= y {
        (x + 1 - y) as nat
    } else {
        0
    }
}

/// Whether the offset `(dx, dy)` lies inside a disk of radius `r`.
pub open spec fn disk_covers(r: int, dx: int, dy: int) -> bool {
    dx * dx + dy * dy <= r * r
}

/// A disk offset never exceeds the radius along either axis.
pub proof fn lemma_disk_bound(r: int, dx: int, dy: int)
    requires
        r >= 0,
        disk_covers(r, dx, dy),
    ensures
        -r <= dx <= r,
        -r <= dy <= r,
{
    assert(-r <= dx <= r && -r <= dy <= r) by (nonlinear_arith)
        requires
            r >= 0,
            dx * dx + dy * dy <= r * r,
    ;
}

impl SightView {
    /// The eight octant mirrors of `(x, y)` about the circle center,
    /// written in one fixed order.
    pub open spec fn put8(self, cx: int, cy: int, x: int, y: int, c: Color) -> SightView {
        self.put_pixel(cx + x, cy + y, c).put_pixel(cx + y, cy + x, c).put_pixel(
            cx - y,
            cy + x,
            c,
        ).put_pixel(cx - x, cy + y, c).put_pixel(cx - x, cy - y, c).put_pixel(
            cx - y,
            cy - x,
            c,
        ).put_pixel(cx + y, cy - x, c).put_pixel(cx + x, cy - y, c)
    }

    /// The midpoint circle walk: one octant step per call, mirrored
    /// eight ways, with the integer decision variable `err`.
    pub open spec fn circle_loop(
        self,
        cx: int,
        cy: int,
        x: int,
        y: int,
        err: int,
        c: Color,
    ) -> SightView
        decreases circle_measure(x, y),
    {
        if x >= y {
            let v1 = self.put8(cx, cy, x, y, c);
            let y1 = y + 1;
            let e1 = if err <= 0 {
                err + 2 * y1 + 1
            } else {
                err
            };
            if e1 > 0 {
                v1.circle_loop(cx, cy, x - 1, y1, e1 - 2 * (x - 1) - 1, c)
            } else {
                v1.circle_loop(cx, cy, x, y1, e1, c)
            }
        } else {
            self
        }
    }

    /// A circle outline: the eight-way mirrored midpoint walk; radii of
    /// zero or below draw nothing.
    pub open spec fn circle_stroke_spec(self, cx: int, cy: int, r: int, c: Color) -> SightView {
        if r <= 0 {
            self
        } else {
            self.circle_loop(cx, cy, r, 0, 0, c)
        }
    }

    /// Whether cell `j` lies inside the disk of radius `r` at `(cx, cy)`.
    pub open spec fn disk_cell(self, cx: int, cy: int, r: int, j: int) -> bool {
        self.width > 0 && disk_covers(r, self.cell_x(j) - cx, self.cell_y(j) - cy)
    }

    /// A filled circle: every addressable pixel within `r` of the center
    /// (by squared distance) takes the color; radii of zero or below draw
    /// nothing.
    pub open spec fn fill_circle_spec(self, cx: int, cy: int, r: int, c: Color) -> SightView {
        if r <= 0 {
            self
        } else {
            SightView {
                fb: Seq::new(
                    self.fb.len(),
                    |j: int|
                        if self.disk_cell(cx, cy, r, j) {
                            c.spec_to_u32()
                        } else {
                            self.fb[j]
                        },
                ),
                dirty: self.dirty || (exists|j: int|
                    0 <= j < self.fb.len() && self.disk_cell(cx, cy, r, j)),
                ..self
            }
        }
    }
}

impl Sight {
    /// Strokes one circle with already-widened coordinates.
    fn draw_circle_w(&mut self, cx: i64, cy: i64, radius: i64, color: Color)
        requires
            old(self)@.wf(),
            -0x10_0000_0000 <= cx <= 0x10_0000_0000,
            -0x10_0000_0000 <= cy <= 0x10_0000_0000,
            radius <= 0x1_0000_0000,
        ensures
            final(self)@.wf(),
            final(self)@ == old(self)@.circle_stroke_spec(
                cx as int,
                cy as int,
                radius as int,
                color,
            ),
    {
        if radius <= 0 {
            return ;
        }
        let ghost v0 = self@;
        let cxw = cx;
        let cyw = cy;
        let rw = radius;
        let mut x: i64 = rw;
        let mut y: i64 = 0;
        let mut err: i64 = 0;
        while x >= y
            invariant
                self@.wf(),
                radius >= 1,
                rw == radius as int,
                cxw == cx as int,
                cyw == cy as int,
                -0x10_0000_0000 <= cxw <= 0x10_0000_0000,
                -0x10_0000_0000 <= cyw <= 0x10_0000_0000,
                1 <= rw <= 0x1_0000_0000,
                0 <= y <= rw + 1,
                -1 <= x <= rw,
                y == 0 ==> x == rw,
                -(2 * rw + 3) <= err <= 2 * rw + 3,
                v0.circle_stroke_spec(cx as int, cy as int, radius as int, color)
                    == self@.circle_loop(cxw as int, cyw as int, x as int, y as int, err as int, color),
            decreases circle_measure(x as int, y as int),
        {
            let ghost pre = self@;
            self.put_pixel_w(cxw + x, cyw + y, color);
            self.put_pixel_w(cxw + y, cyw + x, color);
            self.put_pixel_w(cxw - y, cyw + x, color);
            self.put_pixel_w(cxw - x, cyw + y, color);
            self.put_pixel_w(cxw - x, cyw - y, color);
            self.put_pixel_w(cxw - y, cyw - x, color);
            self.put_pixel_w(cxw + y, cyw - x, color);
            self.put_pixel_w(cxw + x, cyw - y, color);
            proof {
                assert(self@ == pre.put8(cxw as int, cyw as int, x as int, y as int, color));
            }
            let ghost ox = x;
            let ghost oy = y;
            let ghost oerr = err;
            y += 1;
            if err <= 0 {
                err = err + 2 * y + 1;
            }
            if err > 0 {
                x -= 1;
                err = err - (2 * x + 1);
            }
            proof {
                assert(pre.circle_loop(cxw as int, cyw as int, ox as int, oy as int, oerr as int, color)
                    == self@.circle_loop(cxw as int, cyw as int, x as int, y as int, err as int, color));
            }
        }
    }

    /// Fills one disk with already-widened coordinates.
    fn fill_circle_w(&mut self, cx: i64, cy: i64, radius: i64, color: Color)
        requires
            old(self)@.wf(),
            -0x10_0000_0000 <= cx <= 0x10_0000_0000,
            -0x10_0000_0000 <= cy <= 0x10_0000_0000,
            radius <= 0x7fff_ffff,
        ensures
            final(self)@.wf(),
            final(self)@ == old(self)@.fill_circle_spec(cx as int, cy as int, radius as int, color),
    {
        if radius <= 0 {
            return ;
        }
        let ghost v0 = self@;
        let cxw = cx;
        let cyw = cy;
        let rw = radius;
        proof {
            assert(rw * rw <= 0x7fff_ffffi64 * 0x7fff_ffffi64) by (nonlinear_arith)
                requires
                    1 <= rw <= 0x7fff_ffffi64,
            ;
            assert(rw * rw >= 0) by (nonlinear_arith)
                requires
                    rw >= 1,
            ;
        }
        let rr = rw * rw;
        let packed = color.to_u32();
        let mut dy: i64 = -rw;
        proof {
            assert forall|j: int|
                0 <= j < v0.fb.len() && v0.disk_cell(cxw as int, cyw as int, rw as int, j) implies
                    !(v0.cell_y(j) - cyw < -rw) by {
                lemma_disk_bound(rw as int, v0.cell_x(j) - cxw, v0.cell_y(j) - cyw);
            }
        }
        while dy <= rw
            invariant
                self@.wf(),
                self@.width == v0.width,
                self@.height == v0.height,
                self@.fb.len() == v0.fb.len(),
                v0.wf(),
                radius >= 1,
                rw == radius as int,
                rr == rw * rw,
                cxw == cx as int,
                cyw == cy as int,
                -0x10_0000_0000 <= cxw <= 0x10_0000_0000,
                -0x10_0000_0000 <= cyw <= 0x10_0000_0000,
                1 <= rw <= 0x7fff_ffff,
                packed == color.spec_to_u32(),
                -rw <= dy <= rw + 1,
                self@.dirty == (v0.dirty || (exists|j: int|
                    0 <= j < v0.fb.len() && v0.disk_cell(cxw as int, cyw as int, rw as int, j)
                        && v0.cell_y(j) - cyw < dy)),
                forall|j: int|
                    0 <= j < v0.fb.len() ==> self@.fb[j] == (if v0.disk_cell(
                        cxw as int,
                        cyw as int,
                        rw as int,
                        j,
                    ) && v0.cell_y(j) - cyw < dy {
                        packed
                    } else {
                        v0.fb[j]
                    }),
            decreases rw + 1 - dy,
        {
            let mut dx: i64 = -rw;
            proof {
                assert forall|j: int|
                    0 <= j < v0.fb.len() && v0.disk_cell(cxw as int, cyw as int, rw as int, j)
                        implies !(v0.cell_x(j) - cxw < -rw) by {
                    lemma_disk_bound(rw as int, v0.cell_x(j) - cxw, v0.cell_y(j) - cyw);
                }
            }
            while dx <= rw
                invariant
                    self@.wf(),
                    self@.width == v0.width,
                    self@.height == v0.height,
                    self@.fb.len() == v0.fb.len(),
                    v0.wf(),
                    radius >= 1,
                    rw == radius as int,
                    rr == rw * rw,
                    cxw == cx as int,
                    cyw == cy as int,
                    -0x10_0000_0000 <= cxw <= 0x10_0000_0000,
                    -0x10_0000_0000 <= cyw <= 0x10_0000_0000,
                    1 <= rw <= 0x7fff_ffff,
                    packed == color.spec_to_u32(),
                    -rw <= dy <= rw,
                    -rw <= dx <= rw + 1,
                    self@.dirty == (v0.dirty || (exists|j: int|
                        0 <= j < v0.fb.len() && v0.disk_cell(cxw as int, cyw as int, rw as int, j)
                            && (v0.cell_y(j) - cyw < dy || (v0.cell_y(j) - cyw == dy && v0.cell_x(j)
                            - cxw < dx)))),
                    forall|j: int|
                        0 <= j < v0.fb.len() ==> self@.fb[j] == (if v0.disk_cell(
                            cxw as int,
                            cyw as int,
                            rw as int,
                            j,
                        ) && (v0.cell_y(j) - cyw < dy || (v0.cell_y(j) - cyw == dy && v0.cell_x(j)
                            - cxw < dx)) {
                            packed
                        } else {
                            v0.fb[j]
                        }),
                decreases rw + 1 - dx,
            {
                let ghost pre = self@;
                proof {
                    assert(0 <= dx * dx <= rr && 0 <= dy * dy <= rr) by (nonlinear_arith)
                        requires
                            -rw <= dx <= rw,
                            -rw <= dy <= rw,
                            rr == rw * rw,
                            rw >= 1,
                    ;
                    assert(rr <= 0x7fff_ffffi64 * 0x7fff_ffffi64) by (nonlinear_arith)
                        requires
                            1 <= rw <= 0x7fff_ffffi64,
                            rr == rw * rw,
                    ;
                }
                let covered = dx * dx + dy * dy <= rr;
                if covered {
                    self.put_pixel_w(cxw + dx, cyw + dy, color);
                }
                proof {
                    let px = cxw + dx;
                    let py = cyw + dy;
                    if v0.in_bounds(px as int, py as int) && covered {
                        lemma_idx_in_range(v0, px as int, py as int);
                        lemma_idx_decompose(v0, px as int, py as int);
                        let j0 = v0.idx(px as int, py as int);
                        assert(0 <= j0 < v0.fb.len() && v0.disk_cell(
                            cxw as int,
                            cyw as int,
                            rw as int,
                            j0,
                        ) && v0.cell_y(j0) - cyw == dy && v0.cell_x(j0) - cxw < dx + 1);
                    }
                    assert forall|j: int| 0 <= j < v0.fb.len() implies self@.fb[j] == (if
                        v0.disk_cell(cxw as int, cyw as int, rw as int, j) && (v0.cell_y(j) - cyw
                        < dy || (v0.cell_y(j) - cyw == dy && v0.cell_x(j) - cxw < dx + 1)) {
                        packed
                    } else {
                        v0.fb[j]
                    }) by {
                        lemma_cell_decompose(v0, j);
                    }
                    if !(v0.in_bounds(px as int, py as int) && covered) {
                        assert forall|j: int| 0 <= j < v0.fb.len() implies (v0.disk_cell(
                            cxw as int,
                            cyw as int,
                            rw as int,
                            j,
                        ) && (v0.cell_y(j) - cyw < dy || (v0.cell_y(j) - cyw == dy && v0.cell_x(j)
                            - cxw < dx + 1))) == (v0.disk_cell(cxw as int, cyw as int, rw as int, j)
                            && (v0.cell_y(j) - cyw < dy || (v0.cell_y(j) - cyw == dy && v0.cell_x(j)
                            - cxw < dx))) by {
                            lemma_cell_decompose(v0, j);
                        }
                    }
                }
                dx += 1;
            }
            proof {
                assert forall|j: int| 0 <= j < v0.fb.len() implies (v0.disk_cell(
                    cxw as int,
                    cyw as int,
                    rw as int,
                    j,
                ) && (v0.cell_y(j) - cyw < dy || (v0.cell_y(j) - cyw == dy && v0.cell_x(j) - cxw
                    < rw + 1))) == (v0.disk_cell(cxw as int, cyw as int, rw as int, j) && v0.cell_y(
                    j,
                ) - cyw < dy + 1) by {
                    if v0.disk_cell(cxw as int, cyw as int, rw as int, j) {
                        lemma_disk_bound(
                            rw as int,
                            v0.cell_x(j) - cxw,
                            v0.cell_y(j) - cyw,
                        );
                    }
                }
            }
            dy += 1;
        }
        proof {
            assert forall|j: int| 0 <= j < v0.fb.len() implies (v0.disk_cell(
                cxw as int,
                cyw as int,
                rw as int,
                j,
            ) && v0.cell_y(j) - cyw < rw + 1) == v0.disk_cell(cxw as int, cyw as int, rw as int, j) by {
                if v0.disk_cell(cxw as int, cyw as int, rw as int, j) {
                    lemma_disk_bound(rw as int, v0.cell_x(j) - cxw, v0.cell_y(j) - cyw);
                }
            }
            assert(self@.fb =~= v0.fill_circle_spec(cx as int, cy as int, radius as int, color).fb);
        }
    }
}

/// Rounds `d * i / n` to the nearest integer, halving away from zero.
pub open spec fn div_round(d: int, i: int, n: int) -> int {
    if d >= 0 {
        (2 * d * i + n) / (2 * n)
    } else {
        -((2 * (-d) * i + n) / (2 * n))
    }
}

/// The number of steps of a line walk: the span along its longer axis.
pub open spec fn line_steps(x0: int, y0: int, x1: int, y1: int) -> int {
    imax(iabs(x1 - x0), iabs(y1 - y0))
}

/// The i-th pixel of the line walk from `(x0, y0)` to `(x1, y1)`: both
/// coordinates step linearly, rounded to the nearest pixel.
pub open spec fn line_point(x0: int, y0: int, x1: int, y1: int, i: int) -> (int, int) {
    let n = line_steps(x0, y0, x1, y1);
    if n == 0 {
        (x0, y0)
    } else {
        (x0 + div_round(x1 - x0, i, n), y0 + div_round(y1 - y0, i, n))
    }
}

/// The canonical endpoint order of a line walk: the walk always starts
/// from the lexicographically smaller endpoint, so the inked pixels do
/// not depend on the order in which the endpoints are given.
pub open spec fn line_norm(x0: int, y0: int, x1: int, y1: int) -> (int, int, int, int) {
    if x0 > x1 || (x0 == x1 && y0 > y1) {
        (x1, y1, x0, y0)
    } else {
        (x0, y0, x1, y1)
    }
}

impl SightView {
    /// The first `k` pixels of a line walk, written in walk order.
    pub open spec fn line_upto(
        self,
        x0: int,
        y0: int,
        x1: int,
        y1: int,
        c: Color,
        k: int,
    ) -> SightView
        decreases k,
    {
        if k <= 0 {
            self
        } else {
            let prev = self.line_upto(x0, y0, x1, y1, c, k - 1);
            let p = line_point(x0, y0, x1, y1, k - 1);
            prev.put_pixel(p.0, p.1, c)
        }
    }

    /// A whole line: every pixel of the walk, endpoints included.
    pub open spec fn line_spec(self, x0: int, y0: int, x1: int, y1: int, c: Color) -> SightView {
        let nm = line_norm(x0, y0, x1, y1);
        self.line_upto(nm.0, nm.1, nm.2, nm.3, c, line_steps(x0, y0, x1, y1) + 1)
    }

    /// The first `k` parallel copies of a thick line, offset along the
    /// axis perpendicular to the line's longer span and centered.
    pub open spec fn thick_upto(
        self,
        x0: int,
        y0: int,
        x1: int,
        y1: int,
        c: Color,
        t: int,
        k: int,
    ) -> SightView
        decreases k,
    {
        if k <= 0 {
            self
        } else {
            let prev = self.thick_upto(x0, y0, x1, y1, c, t, k - 1);
            let o = (k - 1) - (t - 1) / 2;
            if iabs(x1 - x0) >= iabs(y1 - y0) {
                prev.line_spec(x0, y0 + o, x1, y1 + o, c)
            } else {
                prev.line_spec(x0 + o, y0, x1 + o, y1, c)
            }
        }
    }

    /// A thick line: a plain line for thickness at most one; a no-op for
    /// a zero-length thick line; otherwise `t` centered parallel copies.
    pub open spec fn thick_line_spec(
        self,
        x0: int,
        y0: int,
        x1: int,
        y1: int,
        c: Color,
        t: int,
    ) -> SightView {
        if t <= 1 {
            self.line_spec(x0, y0, x1, y1, c)
        } else if x0 == x1 && y0 == y1 {
            self
        } else {
            self.thick_upto(x0, y0, x1, y1, c, t, t)
        }
    }

    /// A rectangle outline: four lines around the border, far edges at
    /// `x + width - 1` and `y + height - 1` inclusive.
    pub open spec fn rect_stroke_spec(self, r: Rect, c: Color) -> SightView {
        let xa = r.x as int;
        let ya = r.y as int;
        let xb = r.x + r.width - 1;
        let yb = r.y + r.height - 1;
        self.line_spec(xa, ya, xb, ya, c).line_spec(xb, ya, xb, yb, c).line_spec(
            xb,
            yb,
            xa,
            yb,
            c,
        ).line_spec(xa, yb, xa, ya, c)
    }
}

/// Rounds `d * i / n` to the nearest integer; `i128` keeps the scaled
/// products exact.
fn div_round_exec(d: i64, i: i64, n: i64) -> (r: i64)
    requires
        0 < n <= 0x4_0000_0000,
        0 <= i <= n,
        -0x4_0000_0000 <= d <= 0x4_0000_0000,
    ensures
        r as int == div_round(d as int, i as int, n as int),
        d >= 0 ==> 0 <= r <= d,
        d < 0 ==> d <= r <= 0,
{
    let ad: u128 = if d >= 0 {
        d as u128
    } else {
        (-d) as u128
    };
    proof {
        assert(2 * ad * i <= 2 * 0x4_0000_0000 * 0x4_0000_0000) by (nonlinear_arith)
            requires
                0 <= ad <= 0x4_0000_0000,
                0 <= i <= 0x4_0000_0000,
        ;
    }
    let num: u128 = 2 * ad * (i as u128) + (n as u128);
    let den: u128 = 2 * (n as u128);
    let q: u128 = num / den;
    proof {
        lemma_div_round_bound(ad as int, i as int, n as int);
    }
    if d >= 0 {
        q as i64
    } else {
        -(q as i64)
    }
}

/// The rounded step `(2*d*i + n) / (2*n)` stays between 0 and `d`.
proof fn lemma_div_round_bound(d: int, i: int, n: int)
    requires
        n > 0,
        0 <= i <= n,
        d >= 0,
    ensures
        0 <= (2 * d * i + n) / (2 * n) <= d,
{
    assert(2 * d * i >= 0) by (nonlinear_arith)
        requires
            d >= 0,
            i >= 0,
    ;
    assert(2 * d * i <= 2 * d * n) by (nonlinear_arith)
        requires
            d >= 0,
            i <= n,
    ;
    vstd::arithmetic::div_mod::lemma_div_pos_is_pos(2 * d * i + n, 2 * n);
    vstd::arithmetic::div_mod::lemma_div_is_ordered(2 * d * i + n, 2 * d * n + n, 2 * n);
    assert(2 * d * n + n == d * (2 * n) + n) by (nonlinear_arith);
    vstd::arithmetic::div_mod::lemma_fundamental_div_mod_converse(d * (2 * n) + n, 2 * n, d, n);
}

/// The i-th pixel of a line walk.
fn line_point_exec(x0: i64, y0: i64, x1: i64, y1: i64, i: i64, n: i64) -> (p: (i64, i64))
    requires
        -0x2_0000_0000 <= x0 <= 0x2_0000_0000,
        -0x2_0000_0000 <= y0 <= 0x2_0000_0000,
        -0x2_0000_0000 <= x1 <= 0x2_0000_0000,
        -0x2_0000_0000 <= y1 <= 0x2_0000_0000,
        n == line_steps(x0 as int, y0 as int, x1 as int, y1 as int),
        0 <= i <= n,
    ensures
        p.0 as int == line_point(x0 as int, y0 as int, x1 as int, y1 as int, i as int).0,
        p.1 as int == line_point(x0 as int, y0 as int, x1 as int, y1 as int, i as int).1,
{
    if n == 0 {
        (x0, y0)
    } else {
        let sx = div_round_exec(x1 - x0, i, n);
        let sy = div_round_exec(y1 - y0, i, n);
        (x0 + sx, y0 + sy)
    }
}

/// A line's pixels do not depend on the order of its endpoints: both
/// orders normalize to the same walk.
pub proof fn lemma_line_symmetric(v: SightView, x0: int, y0: int, x1: int, y1: int, c: Color)
    ensures
        v.line_spec(x0, y0, x1, y1, c) == v.line_spec(x1, y1, x0, y0, c),
{
    assert(line_norm(x0, y0, x1, y1) == line_norm(x1, y1, x0, y0));
    assert(line_steps(x0, y0, x1, y1) == line_steps(x1, y1, x0, y0));
}

impl Sight {
    /// Walks one line with already-widened coordinates.
    fn draw_line_w(&mut self, x0: i64, y0: i64, x1: i64, y1: i64, color: Color)
        requires
            old(self)@.wf(),
            -0x2_0000_0000 <= x0 <= 0x2_0000_0000,
            -0x2_0000_0000 <= y0 <= 0x2_0000_0000,
            -0x2_0000_0000 <= x1 <= 0x2_0000_0000,
            -0x2_0000_0000 <= y1 <= 0x2_0000_0000,
        ensures
            final(self)@.wf(),
            final(self)@ == old(self)@.line_spec(x0 as int, y0 as int, x1 as int, y1 as int, color),
    {
        let ghost v0 = self@;
        let swap = x0 > x1 || (x0 == x1 && y0 > y1);
        let ax0 = if swap {
            x1
        } else {
            x0
        };
        let ay0 = if swap {
            y1
        } else {
            y0
        };
        let ax1 = if swap {
            x0
        } else {
            x1
        };
        let ay1 = if swap {
            y0
        } else {
            y1
        };
        proof {
            assert(line_norm(x0 as int, y0 as int, x1 as int, y1 as int) == (
                ax0 as int,
                ay0 as int,
                ax1 as int,
                ay1 as int,
            ));
            assert(line_steps(ax0 as int, ay0 as int, ax1 as int, ay1 as int) == line_steps(
                x0 as int,
                y0 as int,
                x1 as int,
                y1 as int,
            ));
        }
        let dx = if ax1 >= ax0 {
            ax1 - ax0
        } else {
            ax0 - ax1
        };
        let dy = if ay1 >= ay0 {
            ay1 - ay0
        } else {
            ay0 - ay1
        };
        let n = if dx >= dy {
            dx
        } else {
            dy
        };
        let mut i: i64 = 0;
        while i <= n
            invariant
                self@.wf(),
                v0.wf(),
                n == line_steps(ax0 as int, ay0 as int, ax1 as int, ay1 as int),
                n == line_steps(x0 as int, y0 as int, x1 as int, y1 as int),
                0 <= i <= n + 1,
                -0x2_0000_0000 <= ax0 <= 0x2_0000_0000,
                -0x2_0000_0000 <= ay0 <= 0x2_0000_0000,
                -0x2_0000_0000 <= ax1 <= 0x2_0000_0000,
                -0x2_0000_0000 <= ay1 <= 0x2_0000_0000,
                self@ == v0.line_upto(
                    ax0 as int,
                    ay0 as int,
                    ax1 as int,
                    ay1 as int,
                    color,
                    i as int,
                ),
            decreases n + 1 - i,
        {
            let p = line_point_exec(ax0, ay0, ax1, ay1, i, n);
            self.put_pixel_w(p.0, p.1, color);
            proof {
                assert(self@ == v0.line_upto(
                    ax0 as int,
                    ay0 as int,
                    ax1 as int,
                    ay1 as int,
                    color,
                    i + 1,
                ));
            }
            i += 1;
        }
    }

    /// Draws an integer line between `p1` and `p2`: both coordinates step
    /// linearly along the longer axis, rounded to the nearest pixel, from
    /// the lexicographically smaller endpoint, so the same pixels are
    /// inked whichever way round the endpoints are given; a degenerate
    /// line writes exactly its one endpoint pixel.
    pub fn draw_line(&mut self, p1: Point, p2: Point, color: Color)
        requires
            old(self)@.wf(),
        ensures
            final(self)@.wf(),
            final(self)@ == old(self)@.line_spec(
                p1.x as int,
                p1.y as int,
                p2.x as int,
                p2.y as int,
                color,
            ),
            final(self)@ == old(self)@.line_spec(
                p2.x as int,
                p2.y as int,
                p1.x as int,
                p1.y as int,
                color,
            ),
            p1 == p2 ==> final(self)@ == old(self)@.put_pixel(p1.x as int, p1.y as int, color),
    {
        self.draw_line_w(p1.x as i64, p1.y as i64, p2.x as i64, p2.y as i64, color);
        proof {
            lemma_line_symmetric(
                old(self)@,
                p1.x as int,
                p1.y as int,
                p2.x as int,
                p2.y as int,
                color,
            );
            if p1 == p2 {
                let v0 = old(self)@;
                assert(line_steps(p1.x as int, p1.y as int, p2.x as int, p2.y as int) == 0);
                assert(v0.line_upto(p1.x as int, p1.y as int, p2.x as int, p2.y as int, color, 1)
                    == v0.line_upto(
                    p1.x as int,
                    p1.y as int,
                    p2.x as int,
                    p2.y as int,
                    color,
                    0,
                ).put_pixel(p1.x as int, p1.y as int, color));
            }
        }
    }

    /// Draws `thickness` parallel copies of the line, offset by one pixel
    /// each along the axis perpendicular to the longer span and centered
    /// on the segment. Thickness at most one draws the plain line; a
    /// zero-length thick line is a no-op.
    pub fn draw_thick_line(&mut self, p1: Point, p2: Point, color: Color, thickness: i32)
        requires
            old(self)@.wf(),
        ensures
            final(self)@.wf(),
            final(self)@ == old(self)@.thick_line_spec(
                p1.x as int,
                p1.y as int,
                p2.x as int,
                p2.y as int,
                color,
                thickness as int,
            ),
            thickness <= 1 ==> final(self)@ == old(self)@.line_spec(
                p1.x as int,
                p1.y as int,
                p2.x as int,
                p2.y as int,
                color,
            ),
    {
        if thickness <= 1 {
            self.draw_line(p1, p2, color);
            return ;
        }
        if p1.x == p2.x && p1.y == p2.y {
            return ;
        }
        let ghost v0 = self@;
        let x0 = p1.x as i64;
        let y0 = p1.y as i64;
        let x1 = p2.x as i64;
        let y1 = p2.y as i64;
        let dx = if x1 >= x0 {
            x1 - x0
        } else {
            x0 - x1
        };
        let dy = if y1 >= y0 {
            y1 - y0
        } else {
            y0 - y1
        };
        let half = ((thickness - 1) / 2) as i64;
        let mut k: i64 = 0;
        while k < thickness as i64
            invariant
                self@.wf(),
                v0.wf(),
                2 <= thickness,
                0 <= k <= thickness as i64,
                half == (thickness - 1) as int / 2,
                x0 == p1.x as int && y0 == p1.y as int && x1 == p2.x as int && y1 == p2.y as int,
                dx == iabs(x1 - x0),
                dy == iabs(y1 - y0),
                self@ == v0.thick_upto(
                    x0 as int,
                    y0 as int,
                    x1 as int,
                    y1 as int,
                    color,
                    thickness as int,
                    k as int,
                ),
            decreases thickness as i64 - k,
        {
            let o = k - half;
            if dx >= dy {
                self.draw_line_w(x0, y0 + o, x1, y1 + o, color);
            } else {
                self.draw_line_w(x0 + o, y0, x1 + o, y1, color);
            }
            proof {
                assert(self@ == v0.thick_upto(
                    x0 as int,
                    y0 as int,
                    x1 as int,
                    y1 as int,
                    color,
                    thickness as int,
                    k + 1,
                ));
            }
            k += 1;
        }
    }

    /// Strokes a rectangle border: four lines, far edges inclusive.
    pub fn draw_rect(&mut self, rect: Rect, color: Color)
        requires
            old(self)@.wf(),
        ensures
            final(self)@.wf(),
            final(self)@ == old(self)@.rect_stroke_spec(rect, color),
    {
        let xa = rect.x as i64;
        let ya = rect.y as i64;
        let xb = rect.x as i64 + rect.width as i64 - 1;
        let yb = rect.y as i64 + rect.height as i64 - 1;
        self.draw_line_w(xa, ya, xb, ya, color);
        self.draw_line_w(xb, ya, xb, yb, color);
        self.draw_line_w(xb, yb, xa, yb, color);
        self.draw_line_w(xa, yb, xa, ya, color);
    }
}


/// The y-stable ordering of three points used by the triangle fill.
pub open spec fn sort3(p1: Point, p2: Point, p3: Point) -> (Point, Point, Point) {
    let a = if p2.y < p1.y {
        p2
    } else {
        p1
    };
    let b = if p2.y < p1.y {
        p1
    } else {
        p2
    };
    if p3.y < a.y {
        (p3, a, b)
    } else if p3.y < b.y {
        (a, p3, b)
    } else {
        (a, b, p3)
    }
}

/// The x coordinate where the edge from `a` to `b` crosses row `y`,
/// interpolated linearly and truncated toward `a`.
pub open spec fn edge_x_at(a: Point, b: Point, y: int) -> int {
    if b.x >= a.x {
        a.x + (b.x - a.x) * (y - a.y) / (b.y - a.y)
    } else {
        a.x - (a.x - b.x) * (y - a.y) / (b.y - a.y)
    }
}

/// The x reached on the long edge (`q0` to `q2`) at row `y`.
pub open spec fn tri_xa(q0: Point, q2: Point, y: int) -> int {
    edge_x_at(q0, q2, y)
}

/// The x reached on the short edges (`q0` to `q1`, then `q1` to `q2`)
/// at row `y`.
pub open spec fn tri_xb(q0: Point, q1: Point, q2: Point, y: int) -> int {
    if y < q1.y {
        edge_x_at(q0, q1, y)
    } else if q1.y < q2.y {
        edge_x_at(q1, q2, y)
    } else {
        q1.x as int
    }
}

impl SightView {
    /// The first `k` scanline rows of a triangle fill, top row first.
    pub open spec fn tri_rows(self, q0: Point, q1: Point, q2: Point, c: Color, k: int) -> SightView
        decreases k,
    {
        if k <= 0 {
            self
        } else {
            let prev = self.tri_rows(q0, q1, q2, c, k - 1);
            let y = q0.y + k - 1;
            let xa = tri_xa(q0, q2, y);
            let xb = tri_xb(q0, q1, q2, y);
            prev.fill_span_spec(y, imin(xa, xb), imax(xa, xb), c)
        }
    }

    /// A filled triangle: vertices sorted by y; a fully flat triangle
    /// degenerates to one row span, or to nothing when it is one point;
    /// otherwise each row spans between the long edge and the short edges,
    /// both ends inclusive.
    pub open spec fn fill_triangle_spec(self, p1: Point, p2: Point, p3: Point, c: Color) -> SightView {
        let q = sort3(p1, p2, p3);
        let q0 = q.0;
        let q1 = q.1;
        let q2 = q.2;
        if q0.y == q2.y {
            let xmin = imin(q0.x as int, imin(q1.x as int, q2.x as int));
            let xmax = imax(q0.x as int, imax(q1.x as int, q2.x as int));
            if xmin == xmax {
                self
            } else {
                self.fill_span_spec(q0.y as int, xmin, xmax, c)
            }
        } else {
            self.tri_rows(q0, q1, q2, c, q2.y - q0.y + 1)
        }
    }

    /// A triangle outline: three lines between the vertices.
    pub open spec fn tri_stroke_spec(self, p1: Point, p2: Point, p3: Point, c: Color) -> SightView {
        self.line_spec(p1.x as int, p1.y as int, p2.x as int, p2.y as int, c).line_spec(
            p2.x as int,
            p2.y as int,
            p3.x as int,
            p3.y as int,
            c,
        ).line_spec(p3.x as int, p3.y as int, p1.x as int, p1.y as int, c)
    }

    /// A horizontal gradient: every cell of the clipped rectangle takes
    /// the interpolation of the two colors by its column offset.
    pub open spec fn gradient_h_spec(self, r: Rect, c1: Color, c2: Color) -> SightView {
        SightView {
            fb: Seq::new(
                self.fb.len(),
                |j: int|
                    if self.rect_cell(r, j) {
                        c1.spec_lerp(c2, self.cell_x(j) - r.x, r.width as int).spec_to_u32()
                    } else {
                        self.fb[j]
                    },
            ),
            dirty: self.dirty || self.rect_hits(r),
            ..self
        }
    }

    /// A vertical gradient: every cell of the clipped rectangle takes
    /// the interpolation of the two colors by its row offset.
    pub open spec fn gradient_v_spec(self, r: Rect, c1: Color, c2: Color) -> SightView {
        SightView {
            fb: Seq::new(
                self.fb.len(),
                |j: int|
                    if self.rect_cell(r, j) {
                        c1.spec_lerp(c2, self.cell_y(j) - r.y, r.height as int).spec_to_u32()
                    } else {
                        self.fb[j]
                    },
            ),
            dirty: self.dirty || self.rect_hits(r),
            ..self
        }
    }

    /// The first `k` points of a point list, written in order.
    pub open spec fn points_upto(self, pts: Seq<Point>, c: Color, k: int) -> SightView
        decreases k,
    {
        if k <= 0 {
            self
        } else {
            self.points_upto(pts, c, k - 1).put_pixel(
                pts[k - 1].x as int,
                pts[k - 1].y as int,
                c,
            )
        }
    }

    /// A point list: every listed pixel written in order.
    pub open spec fn points_spec(self, pts: Seq<Point>, c: Color) -> SightView {
        self.points_upto(pts, c, pts.len() as int)
    }
}

/// The corner radius of a rounded rectangle, clamped to at most half the
/// smaller dimension and at least zero.
pub open spec fn clamp_radius(r: Rect, radius: int) -> int {
    imax(0, imin(radius, imin(r.width as int / 2, r.height as int / 2)))
}

impl SightView {
    /// A rounded-rectangle outline: the rectangle border plus one corner
    /// circle at each corner, radius clamped.
    pub open spec fn rounded_stroke_spec(self, r: Rect, radius: int, c: Color) -> SightView {
        let rc = clamp_radius(r, radius);
        self.rect_stroke_spec(r, c).circle_stroke_spec(r.x + rc, r.y + rc, rc, c)
            .circle_stroke_spec(r.x + r.width - rc - 1, r.y + rc, rc, c)
            .circle_stroke_spec(r.x + rc, r.y + r.height - rc - 1, rc, c)
            .circle_stroke_spec(r.x + r.width - rc - 1, r.y + r.height - rc - 1, rc, c)
    }

    /// A filled rounded rectangle: a center column, two side columns
    /// inset by the clamped radius, and four corner disks.
    pub open spec fn rounded_fill_spec(self, r: Rect, radius: int, c: Color) -> SightView {
        let rc = clamp_radius(r, radius);
        self.fill_box_spec(r.x + rc, r.y as int, r.width - 2 * rc, r.height as int, c)
            .fill_box_spec(r.x as int, r.y + rc, rc, r.height - 2 * rc, c)
            .fill_box_spec(r.x + r.width - rc, r.y + rc, rc, r.height - 2 * rc, c)
            .fill_circle_spec(r.x + rc, r.y + rc, rc, c)
            .fill_circle_spec(r.x + r.width - rc - 1, r.y + rc, rc, c)
            .fill_circle_spec(r.x + rc, r.y + r.height - rc - 1, rc, c)
            .fill_circle_spec(r.x + r.width - rc - 1, r.y + r.height - rc - 1, rc, c)
    }
}

/// A linear scaling `d * t / n` never exceeds `d` while `t` stays within
/// `n`.
proof fn lemma_scale_bound(d: int, t: int, n: int)
    requires
        n > 0,
        0 <= t <= n,
        d >= 0,
    ensures
        0 <= d * t / n <= d,
{
    assert(0 <= d * t) by (nonlinear_arith)
        requires
            d >= 0,
            t >= 0,
    ;
    assert(d * t <= d * n) by (nonlinear_arith)
        requires
            d >= 0,
            t <= n,
    ;
    vstd::arithmetic::div_mod::lemma_div_pos_is_pos(d * t, n);
    vstd::arithmetic::div_mod::lemma_div_is_ordered(d * t, d * n, n);
    vstd::arithmetic::div_mod::lemma_div_by_multiple(d, n);
}

/// The x of an edge crossing at row `y`.
fn edge_x_exec(a: Point, b: Point, y: i64) -> (r: i64)
    requires
        a.y as int <= y as int <= b.y as int,
        (a.y as int) < (b.y as int),
    ensures
        r as int == edge_x_at(a, b, y as int),
        imin(a.x as int, b.x as int) <= r as int <= imax(a.x as int, b.x as int),
{
    let dy = (y - a.y as i64) as u64;
    let dyab = (b.y as i64 - a.y as i64) as u64;
    if b.x >= a.x {
        let d = (b.x as i64 - a.x as i64) as u64;
        proof {
            assert(d * dy <= 0xffff_ffffu64 * 0xffff_ffffu64) by (nonlinear_arith)
                requires
                    0 <= d <= 0xffff_ffffu64,
                    0 <= dy <= 0xffff_ffffu64,
            ;
            lemma_scale_bound(d as int, dy as int, dyab as int);
        }
        let step = d * dy / dyab;
        a.x as i64 + step as i64
    } else {
        let d = (a.x as i64 - b.x as i64) as u64;
        proof {
            assert(d * dy <= 0xffff_ffffu64 * 0xffff_ffffu64) by (nonlinear_arith)
                requires
                    0 <= d <= 0xffff_ffffu64,
                    0 <= dy <= 0xffff_ffffu64,
            ;
            lemma_scale_bound(d as int, dy as int, dyab as int);
        }
        let step = d * dy / dyab;
        a.x as i64 - step as i64
    }
}

impl Sight {
    /// Strokes a circle with the eight-way symmetric midpoint algorithm;
    /// a silent no-op for radii of zero or below.
    pub fn draw_circle(&mut self, cx: i32, cy: i32, radius: i32, color: Color)
        requires
            old(self)@.wf(),
        ensures
            final(self)@.wf(),
            final(self)@ == old(self)@.circle_stroke_spec(
                cx as int,
                cy as int,
                radius as int,
                color,
            ),
    {
        self.draw_circle_w(cx as i64, cy as i64, radius as i64, color);
    }

    /// Fills a disk: every addressable pixel whose squared distance from
    /// the center is at most `radius` squared takes the color; a silent
    /// no-op for radii of zero or below.
    pub fn fill_circle(&mut self, cx: i32, cy: i32, radius: i32, color: Color)
        requires
            old(self)@.wf(),
        ensures
            final(self)@.wf(),
            final(self)@ == old(self)@.fill_circle_spec(cx as int, cy as int, radius as int, color),
    {
        self.fill_circle_w(cx as i64, cy as i64, radius as i64, color);
    }

    /// Strokes a triangle: three lines between the vertices.
    pub fn draw_triangle(&mut self, p1: Point, p2: Point, p3: Point, color: Color)
        requires
            old(self)@.wf(),
        ensures
            final(self)@.wf(),
            final(self)@ == old(self)@.tri_stroke_spec(p1, p2, p3, color),
    {
        self.draw_line(p1, p2, color);
        self.draw_line(p2, p3, color);
        self.draw_line(p3, p1, color);
    }

    /// Fills a triangle by sorting the vertices by y and scan-filling each
    /// row between the long edge and the short edges, span ends inclusive.
    /// A fully flat triangle writes a single row span, or nothing when its
    /// width degenerates to one point.
    pub fn fill_triangle(&mut self, p1: Point, p2: Point, p3: Point, color: Color)
        requires
            old(self)@.wf(),
        ensures
            final(self)@.wf(),
            final(self)@ == old(self)@.fill_triangle_spec(p1, p2, p3, color),
            p1.y == p2.y && p2.y == p3.y && p1.x == p2.x && p2.x == p3.x ==> final(self)@ == old(
                self,
            )@,
            p1.y == p2.y && p2.y == p3.y && !(p1.x == p2.x && p2.x == p3.x) ==> final(self)@ == old(
                self,
            )@.fill_span_spec(
                p1.y as int,
                imin(p1.x as int, imin(p2.x as int, p3.x as int)),
                imax(p1.x as int, imax(p2.x as int, p3.x as int)),
                color,
            ),
    {
        let ghost v0 = self@;
        let a = if p2.y < p1.y {
            p2
        } else {
            p1
        };
        let b = if p2.y < p1.y {
            p1
        } else {
            p2
        };
        let (q0, q1, q2) = if p3.y < a.y {
            (p3, a, b)
        } else if p3.y < b.y {
            (a, p3, b)
        } else {
            (a, b, p3)
        };
        if q0.y == q2.y {
            let xmin = if q0.x <= q1.x && q0.x <= q2.x {
                q0.x
            } else if q1.x <= q2.x {
                q1.x
            } else {
                q2.x
            };
            let xmax = if q0.x >= q1.x && q0.x >= q2.x {
                q0.x
            } else if q1.x >= q2.x {
                q1.x
            } else {
                q2.x
            };
            if xmin == xmax {
                return ;
            }
            self.fill_box_w(xmin as i64, q0.y as i64, (xmax as i64 - xmin as i64) + 1, 1, color);
            return ;
        }
        let yend = q2.y as i64;
        let mut y = q0.y as i64;
        while y <= yend
            invariant
                self@.wf(),
                v0.wf(),
                (q0.y as int) < (q2.y as int),
                q0.y as int <= q1.y as int <= q2.y as int,
                yend == q2.y as int,
                q0.y as int <= y as int <= q2.y as int + 1,
                self@ == v0.tri_rows(q0, q1, q2, color, y - q0.y as int),
            decreases yend + 1 - y,
        {
            let xa = edge_x_exec(q0, q2, y);
            let xb = if y < q1.y as i64 {
                edge_x_exec(q0, q1, y)
            } else if q1.y < q2.y {
                edge_x_exec(q1, q2, y)
            } else {
                q1.x as i64
            };
            let lo = if xa <= xb {
                xa
            } else {
                xb
            };
            let hi = if xa <= xb {
                xb
            } else {
                xa
            };
            self.fill_box_w(lo, y, (hi - lo) + 1, 1, color);
            proof {
                assert(self@ == v0.tri_rows(q0, q1, q2, color, y + 1 - q0.y as int));
            }
            y += 1;
        }
    }

    /// Fills a horizontal gradient: each column of the rectangle takes the
    /// interpolation of the two colors by its column offset.
    pub fn fill_gradient_h(&mut self, rect: Rect, c1: Color, c2: Color)
        requires
            old(self)@.wf(),
        ensures
            final(self)@.wf(),
            final(self)@ == old(self)@.gradient_h_spec(rect, c1, c2),
    {
        let ghost v0 = self@;
        let x0: i64 = if rect.x < 0 {
            0
        } else {
            rect.x as i64
        };
        let x1: i64 = {
            let e = rect.x as i64 + rect.width as i64;
            if e > self.width as i64 {
                self.width as i64
            } else {
                e
            }
        };
        let y0: i64 = if rect.y < 0 {
            0
        } else {
            rect.y as i64
        };
        let y1: i64 = {
            let e = rect.y as i64 + rect.height as i64;
            if e > self.height as i64 {
                self.height as i64
            } else {
                e
            }
        };
        if x0 >= x1 || y0 >= y1 {
            proof {
                assert(!v0.rect_hits(rect));
                assert(forall|j: int| 0 <= j < v0.fb.len() ==> !v0.rect_cell(rect, j));
                assert(self@.fb =~= v0.gradient_h_spec(rect, c1, c2).fb);
            }
            return ;
        }
        let mut x = x0;
        while x < x1
            invariant
                self@.wf(),
                self@.width == v0.width,
                self@.height == v0.height,
                self@.fb.len() == v0.fb.len(),
                v0.wf(),
                x0 as int == imax(rect.x as int, 0),
                x1 as int == imin(rect.x + rect.width, v0.width),
                y0 as int == imax(rect.y as int, 0),
                y1 as int == imin(rect.y + rect.height, v0.height),
                0 <= x0 <= x <= x1 <= v0.width,
                0 <= y0 < y1 <= v0.height,
                rect.width > 0,
                self@.dirty == (v0.dirty || x > x0),
                forall|j: int|
                    0 <= j < v0.fb.len() ==> self@.fb[j] == (if v0.rect_cell(rect, j) && v0.cell_x(
                        j,
                    ) < x {
                        c1.spec_lerp(c2, v0.cell_x(j) - rect.x, rect.width as int).spec_to_u32()
                    } else {
                        v0.fb[j]
                    }),
            decreases x1 - x,
        {
            let col = c1.lerp(c2, (x - rect.x as i64) as u32, rect.width);
            let mut y = y0;
            proof {
                assert forall|j: int| 0 <= j < v0.fb.len() implies self@.fb[j] == (if v0.rect_cell(
                    rect,
                    j,
                ) && (v0.cell_x(j) < x || (v0.cell_x(j) == x && v0.cell_y(j) < y)) {
                    c1.spec_lerp(c2, v0.cell_x(j) - rect.x, rect.width as int).spec_to_u32()
                } else {
                    v0.fb[j]
                }) by {
                    assert(self@.fb[j] == (if v0.rect_cell(rect, j) && v0.cell_x(j) < x {
                        c1.spec_lerp(c2, v0.cell_x(j) - rect.x, rect.width as int).spec_to_u32()
                    } else {
                        v0.fb[j]
                    }));
                    if v0.rect_cell(rect, j) && v0.cell_x(j) == x {
                        assert(v0.cell_y(j) >= y0);
                    }
                }
            }
            while y < y1
                invariant
                    self@.wf(),
                    self@.width == v0.width,
                    self@.height == v0.height,
                    self@.fb.len() == v0.fb.len(),
                    v0.wf(),
                    x0 as int == imax(rect.x as int, 0),
                    x1 as int == imin(rect.x + rect.width, v0.width),
                    y0 as int == imax(rect.y as int, 0),
                    y1 as int == imin(rect.y + rect.height, v0.height),
                    0 <= x0 <= x < x1 <= v0.width,
                    0 <= y0 <= y <= y1 <= v0.height,
                    rect.width > 0,
                    col == c1.spec_lerp(c2, x - rect.x, rect.width as int),
                    self@.dirty == (v0.dirty || x > x0 || y > y0),
                    forall|j: int|
                        0 <= j < v0.fb.len() ==> self@.fb[j] == (if v0.rect_cell(rect, j) && (
                        v0.cell_x(j) < x || (v0.cell_x(j) == x && v0.cell_y(j) < y)) {
                            c1.spec_lerp(c2, v0.cell_x(j) - rect.x, rect.width as int).spec_to_u32()
                        } else {
                            v0.fb[j]
                        }),
                decreases y1 - y,
            {
                self.put_pixel_w(x, y, col);
                proof {
                    lemma_idx_in_range(v0, x as int, y as int);
                    lemma_idx_decompose(v0, x as int, y as int);
                    assert forall|j: int| 0 <= j < v0.fb.len() implies self@.fb[j] == (if
                        v0.rect_cell(rect, j) && (v0.cell_x(j) < x || (v0.cell_x(j) == x
                        && v0.cell_y(j) < y + 1)) {
                        c1.spec_lerp(c2, v0.cell_x(j) - rect.x, rect.width as int).spec_to_u32()
                    } else {
                        v0.fb[j]
                    }) by {
                        lemma_cell_decompose(v0, j);
                    }
                }
                y += 1;
            }
            x += 1;
        }
        proof {
            assert forall|j: int| 0 <= j < v0.fb.len() implies self@.fb[j] == (if v0.rect_cell(
                rect,
                j,
            ) {
                c1.spec_lerp(c2, v0.cell_x(j) - rect.x, rect.width as int).spec_to_u32()
            } else {
                v0.fb[j]
            }) by {
                lemma_cell_decompose(v0, j);
            }
            assert(self@.fb =~= v0.gradient_h_spec(rect, c1, c2).fb);
        }
    }

    /// Fills a vertical gradient: each row of the rectangle takes the
    /// interpolation of the two colors by its row offset.
    pub fn fill_gradient_v(&mut self, rect: Rect, c1: Color, c2: Color)
        requires
            old(self)@.wf(),
        ensures
            final(self)@.wf(),
            final(self)@ == old(self)@.gradient_v_spec(rect, c1, c2),
    {
        let ghost v0 = self@;
        let x0: i64 = if rect.x < 0 {
            0
        } else {
            rect.x as i64
        };
        let x1: i64 = {
            let e = rect.x as i64 + rect.width as i64;
            if e > self.width as i64 {
                self.width as i64
            } else {
                e
            }
        };
        let y0: i64 = if rect.y < 0 {
            0
        } else {
            rect.y as i64
        };
        let y1: i64 = {
            let e = rect.y as i64 + rect.height as i64;
            if e > self.height as i64 {
                self.height as i64
            } else {
                e
            }
        };
        if x0 >= x1 || y0 >= y1 {
            proof {
                assert(!v0.rect_hits(rect));
                assert(forall|j: int| 0 <= j < v0.fb.len() ==> !v0.rect_cell(rect, j));
                assert(self@.fb =~= v0.gradient_v_spec(rect, c1, c2).fb);
            }
            return ;
        }
        let mut y = y0;
        while y < y1
            invariant
                self@.wf(),
                self@.width == v0.width,
                self@.height == v0.height,
                self@.fb.len() == v0.fb.len(),
                v0.wf(),
                x0 as int == imax(rect.x as int, 0),
                x1 as int == imin(rect.x + rect.width, v0.width),
                y0 as int == imax(rect.y as int, 0),
                y1 as int == imin(rect.y + rect.height, v0.height),
                0 <= x0 < x1 <= v0.width,
                0 <= y0 <= y <= y1 <= v0.height,
                rect.height > 0,
                self@.dirty == (v0.dirty || y > y0),
                forall|j: int|
                    0 <= j < v0.fb.len() ==> self@.fb[j] == (if v0.rect_cell(rect, j) && v0.cell_y(
                        j,
                    ) < y {
                        c1.spec_lerp(c2, v0.cell_y(j) - rect.y, rect.height as int).spec_to_u32()
                    } else {
                        v0.fb[j]
                    }),
            decreases y1 - y,
        {
            let row = c1.lerp(c2, (y - rect.y as i64) as u32, rect.height);
            let mut x = x0;
            proof {
                assert forall|j: int| 0 <= j < v0.fb.len() implies self@.fb[j] == (if v0.rect_cell(
                    rect,
                    j,
                ) && (v0.cell_y(j) < y || (v0.cell_y(j) == y && v0.cell_x(j) < x)) {
                    c1.spec_lerp(c2, v0.cell_y(j) - rect.y, rect.height as int).spec_to_u32()
                } else {
                    v0.fb[j]
                }) by {
                    assert(self@.fb[j] == (if v0.rect_cell(rect, j) && v0.cell_y(j) < y {
                        c1.spec_lerp(c2, v0.cell_y(j) - rect.y, rect.height as int).spec_to_u32()
                    } else {
                        v0.fb[j]
                    }));
                    if v0.rect_cell(rect, j) && v0.cell_y(j) == y {
                        assert(v0.cell_x(j) >= x0);
                    }
                }
            }
            while x < x1
                invariant
                    self@.wf(),
                    self@.width == v0.width,
                    self@.height == v0.height,
                    self@.fb.len() == v0.fb.len(),
                    v0.wf(),
                    x0 as int == imax(rect.x as int, 0),
                    x1 as int == imin(rect.x + rect.width, v0.width),
                    y0 as int == imax(rect.y as int, 0),
                    y1 as int == imin(rect.y + rect.height, v0.height),
                    0 <= x0 <= x <= x1 <= v0.width,
                    0 <= y0 <= y < y1 <= v0.height,
                    rect.height > 0,
                    row == c1.spec_lerp(c2, y - rect.y, rect.height as int),
                    self@.dirty == (v0.dirty || y > y0 || x > x0),
                    forall|j: int|
                        0 <= j < v0.fb.len() ==> self@.fb[j] == (if v0.rect_cell(rect, j) && (
                        v0.cell_y(j) < y || (v0.cell_y(j) == y && v0.cell_x(j) < x)) {
                            c1.spec_lerp(c2, v0.cell_y(j) - rect.y, rect.height as int).spec_to_u32()
                        } else {
                            v0.fb[j]
                        }),
                decreases x1 - x,
            {
                self.put_pixel_w(x, y, row);
                proof {
                    lemma_idx_in_range(v0, x as int, y as int);
                    lemma_idx_decompose(v0, x as int, y as int);
                    assert forall|j: int| 0 <= j < v0.fb.len() implies self@.fb[j] == (if
                        v0.rect_cell(rect, j) && (v0.cell_y(j) < y || (v0.cell_y(j) == y
                        && v0.cell_x(j) < x + 1)) {
                        c1.spec_lerp(c2, v0.cell_y(j) - rect.y, rect.height as int).spec_to_u32()
                    } else {
                        v0.fb[j]
                    }) by {
                        lemma_cell_decompose(v0, j);
                    }
                }
                x += 1;
            }
            y += 1;
        }
        proof {
            assert forall|j: int| 0 <= j < v0.fb.len() implies self@.fb[j] == (if v0.rect_cell(
                rect,
                j,
            ) {
                c1.spec_lerp(c2, v0.cell_y(j) - rect.y, rect.height as int).spec_to_u32()
            } else {
                v0.fb[j]
            }) by {
                lemma_cell_decompose(v0, j);
            }
            assert(self@.fb =~= v0.gradient_v_spec(rect, c1, c2).fb);
        }
    }

    /// Strokes a rounded rectangle: the rectangle border plus one corner
    /// circle at each corner, radius clamped to half the smaller
    /// dimension.
    pub fn draw_rounded_rect(&mut self, rect: Rect, radius: i32, color: Color)
        requires
            old(self)@.wf(),
        ensures
            final(self)@.wf(),
            final(self)@ == old(self)@.rounded_stroke_spec(rect, radius as int, color),
    {
        let rc: i64 = {
            let half_w = (rect.width / 2) as i64;
            let half_h = (rect.height / 2) as i64;
            let m = if radius as i64 <= half_w {
                radius as i64
            } else {
                half_w
            };
            let m = if m <= half_h {
                m
            } else {
                half_h
            };
            if m < 0 {
                0
            } else {
                m
            }
        };
        self.draw_rect(rect, color);
        self.draw_circle_w(rect.x as i64 + rc, rect.y as i64 + rc, rc, color);
        self.draw_circle_w(
            rect.x as i64 + rect.width as i64 - rc - 1,
            rect.y as i64 + rc,
            rc,
            color,
        );
        self.draw_circle_w(
            rect.x as i64 + rc,
            rect.y as i64 + rect.height as i64 - rc - 1,
            rc,
            color,
        );
        self.draw_circle_w(
            rect.x as i64 + rect.width as i64 - rc - 1,
            rect.y as i64 + rect.height as i64 - rc - 1,
            rc,
            color,
        );
    }

    /// Fills a rounded rectangle: a center column, two side columns inset
    /// by the clamped radius, and four corner disks.
    pub fn fill_rounded_rect(&mut self, rect: Rect, radius: i32, color: Color)
        requires
            old(self)@.wf(),
        ensures
            final(self)@.wf(),
            final(self)@ == old(self)@.rounded_fill_spec(rect, radius as int, color),
    {
        let rc: i64 = {
            let half_w = (rect.width / 2) as i64;
            let half_h = (rect.height / 2) as i64;
            let m = if radius as i64 <= half_w {
                radius as i64
            } else {
                half_w
            };
            let m = if m <= half_h {
                m
            } else {
                half_h
            };
            if m < 0 {
                0
            } else {
                m
            }
        };
        proof {
            assert(2 * (rect.width as int / 2) <= rect.width as int);
            assert(2 * (rect.height as int / 2) <= rect.height as int);
        }
        self.fill_box_w(
            rect.x as i64 + rc,
            rect.y as i64,
            rect.width as i64 - 2 * rc,
            rect.height as i64,
            color,
        );
        self.fill_box_w(
            rect.x as i64,
            rect.y as i64 + rc,
            rc,
            rect.height as i64 - 2 * rc,
            color,
        );
        self.fill_box_w(
            rect.x as i64 + rect.width as i64 - rc,
            rect.y as i64 + rc,
            rc,
            rect.height as i64 - 2 * rc,
            color,
        );
        self.fill_circle_w(rect.x as i64 + rc, rect.y as i64 + rc, rc, color);
        self.fill_circle_w(
            rect.x as i64 + rect.width as i64 - rc - 1,
            rect.y as i64 + rc,
            rc,
            color,
        );
        self.fill_circle_w(
            rect.x as i64 + rc,
            rect.y as i64 + rect.height as i64 - rc - 1,
            rc,
            color,
        );
        self.fill_circle_w(
            rect.x as i64 + rect.width as i64 - rc - 1,
            rect.y as i64 + rect.height as i64 - rc - 1,
            rc,
            color,
        );
    }

    /// Writes a list of pixels in order; each lands only if addressable.
    pub fn draw_points(&mut self, pts: &Vec<Point>, color: Color)
        requires
            old(self)@.wf(),
        ensures
            final(self)@.wf(),
            final(self)@ == old(self)@.points_spec(pts@, color),
    {
        let ghost v0 = self@;
        let n = pts.len();
        let mut k: usize = 0;
        while k < n
            invariant
                self@.wf(),
                v0.wf(),
                n == pts@.len(),
                0 <= k <= n,
                self@ == v0.points_upto(pts@, color, k as int),
            decreases n - k,
        {
            let p = pts[k];
            self.put_pixel_w(p.x as i64, p.y as i64, color);
            proof {
                assert(self@ == v0.points_upto(pts@, color, k + 1));
            }
            k += 1;
        }
    }
}


/// The color of source pixel `(col, row)` of a row-major BGRA buffer.
pub open spec fn blit_src_color(data: Seq<u8>, w: int, col: int, row: int) -> Color {
    let i = 4 * (row * w + col);
    Color { r: data[i + 2], g: data[i + 1], b: data[i], a: data[i + 3] }
}

impl SightView {
    /// Whether cell `j` receives a pixel of the blit: inside the image
    /// box at `(x, y)`, and the source pixel is not fully transparent.
    pub open spec fn blit_cell(
        self,
        data: Seq<u8>,
        bw: int,
        bh: int,
        x: int,
        y: int,
        j: int,
    ) -> bool {
        &&& self.width > 0
        &&& x <= self.cell_x(j) < x + bw
        &&& y <= self.cell_y(j) < y + bh
        &&& blit_src_color(data, bw, self.cell_x(j) - x, self.cell_y(j) - y).a != 0
    }

    /// Blitting an image at `(x, y)`: every addressable cell under a
    /// non-transparent source pixel takes that pixel's packed color.
    pub open spec fn blit_spec(self, data: Seq<u8>, bw: int, bh: int, x: int, y: int) -> SightView {
        SightView {
            fb: Seq::new(
                self.fb.len(),
                |j: int|
                    if self.blit_cell(data, bw, bh, x, y, j) {
                        blit_src_color(
                            data,
                            bw,
                            self.cell_x(j) - x,
                            self.cell_y(j) - y,
                        ).spec_to_u32()
                    } else {
                        self.fb[j]
                    },
            ),
            dirty: self.dirty || (exists|j: int|
                0 <= j < self.fb.len() && self.blit_cell(data, bw, bh, x, y, j)),
            ..self
        }
    }
}

impl Sight {
    /// Blits a decoded image pixel by pixel at `(x, y)`, skipping fully
    /// transparent source pixels; out-of-canvas pixels are discarded.
    pub fn draw_bmp(&mut self, bmp: &BmpImage, x: i32, y: i32)
        requires
            old(self)@.wf(),
            bmp.wf(),
        ensures
            final(self)@.wf(),
            final(self)@ == old(self)@.blit_spec(
                bmp.data@,
                bmp.width as int,
                bmp.height as int,
                x as int,
                y as int,
            ),
    {
        let ghost v0 = self@;
        let ghost data = bmp.data@;
        let bw = bmp.width;
        let bh = bmp.height;
        let xw = x as i64;
        let yw = y as i64;
        let dlen = bmp.data.len();
        let mut row: u32 = 0;
        while row < bh
            invariant
                self@.wf(),
                self@.width == v0.width,
                self@.height == v0.height,
                self@.fb.len() == v0.fb.len(),
                v0.wf(),
                bmp.wf(),
                data == bmp.data@,
                bw == bmp.width,
                bh == bmp.height,
                dlen == data.len(),
                xw == x as int,
                yw == y as int,
                0 <= row <= bh,
                self@.dirty == (v0.dirty || (exists|j: int|
                    0 <= j < v0.fb.len() && v0.blit_cell(
                        data,
                        bw as int,
                        bh as int,
                        x as int,
                        y as int,
                        j,
                    ) && v0.cell_y(j) - y < row)),
                forall|j: int|
                    0 <= j < v0.fb.len() ==> self@.fb[j] == (if v0.blit_cell(
                        data,
                        bw as int,
                        bh as int,
                        x as int,
                        y as int,
                        j,
                    ) && v0.cell_y(j) - y < row {
                        blit_src_color(
                            data,
                            bw as int,
                            v0.cell_x(j) - x,
                            v0.cell_y(j) - y,
                        ).spec_to_u32()
                    } else {
                        v0.fb[j]
                    }),
            decreases bh - row,
        {
            let mut col: u32 = 0;
            while col < bw
                invariant
                    self@.wf(),
                    self@.width == v0.width,
                    self@.height == v0.height,
                    self@.fb.len() == v0.fb.len(),
                    v0.wf(),
                    bmp.wf(),
                    data == bmp.data@,
                    bw == bmp.width,
                    bh == bmp.height,
                    dlen == data.len(),
                    xw == x as int,
                    yw == y as int,
                    0 <= row < bh,
                    0 <= col <= bw,
                    self@.dirty == (v0.dirty || (exists|j: int|
                        0 <= j < v0.fb.len() && v0.blit_cell(
                            data,
                            bw as int,
                            bh as int,
                            x as int,
                            y as int,
                            j,
                        ) && (v0.cell_y(j) - y < row || (v0.cell_y(j) - y == row && v0.cell_x(j) - x
                            < col)))),
                    forall|j: int|
                        0 <= j < v0.fb.len() ==> self@.fb[j] == (if v0.blit_cell(
                            data,
                            bw as int,
                            bh as int,
                            x as int,
                            y as int,
                            j,
                        ) && (v0.cell_y(j) - y < row || (v0.cell_y(j) - y == row && v0.cell_x(j) - x
                            < col)) {
                            blit_src_color(
                                data,
                                bw as int,
                                v0.cell_x(j) - x,
                                v0.cell_y(j) - y,
                            ).spec_to_u32()
                        } else {
                            v0.fb[j]
                        }),
                decreases bw - col,
            {
                proof {
                    assert(0 <= (row as int) * (bw as int) + (col as int) && (row as int) * (
                    bw as int) + (col as int) < (bw as int) * (bh as int)) by (nonlinear_arith)
                        requires
                            0 <= (col as int) < (bw as int),
                            0 <= (row as int) < (bh as int),
                    ;
                    assert(4 * ((bw as int) * (bh as int)) == 4 * (bw as int) * (bh as int))
                        by (nonlinear_arith);
                }
                let i = (4 * (row as u64 * bw as u64 + col as u64)) as usize;
                let cb = bmp.data[i];
                let cg = bmp.data[i + 1];
                let cr = bmp.data[i + 2];
                let ca = bmp.data[i + 3];
                let color = Color { r: cr, g: cg, b: cb, a: ca };
                if ca != 0 {
                    self.put_pixel_w(xw + col as i64, yw + row as i64, color);
                }
                proof {
                    let px = x + col as int;
                    let py = y + row as int;
                    if v0.in_bounds(px, py) && ca != 0 {
                        lemma_idx_in_range(v0, px, py);
                        lemma_idx_decompose(v0, px, py);
                        let j0 = v0.idx(px, py);
                        assert(0 <= j0 < v0.fb.len() && v0.blit_cell(
                            data,
                            bw as int,
                            bh as int,
                            x as int,
                            y as int,
                            j0,
                        ) && v0.cell_y(j0) - y == row && v0.cell_x(j0) - x < col + 1);
                    }
                    assert forall|j: int| 0 <= j < v0.fb.len() implies self@.fb[j] == (if
                        v0.blit_cell(data, bw as int, bh as int, x as int, y as int, j) && (
                        v0.cell_y(j) - y < row || (v0.cell_y(j) - y == row && v0.cell_x(j) - x < col
                        + 1)) {
                        blit_src_color(
                            data,
                            bw as int,
                            v0.cell_x(j) - x,
                            v0.cell_y(j) - y,
                        ).spec_to_u32()
                    } else {
                        v0.fb[j]
                    }) by {
                        lemma_cell_decompose(v0, j);
                    }
                    if !(v0.in_bounds(px, py) && ca != 0) {
                        assert forall|j: int| 0 <= j < v0.fb.len() implies (v0.blit_cell(
                            data,
                            bw as int,
                            bh as int,
                            x as int,
                            y as int,
                            j,
                        ) && (v0.cell_y(j) - y < row || (v0.cell_y(j) - y == row && v0.cell_x(j) - x
                            < col + 1))) == (v0.blit_cell(
                            data,
                            bw as int,
                            bh as int,
                            x as int,
                            y as int,
                            j,
                        ) && (v0.cell_y(j) - y < row || (v0.cell_y(j) - y == row && v0.cell_x(j) - x
                            < col))) by {
                            lemma_cell_decompose(v0, j);
                        }
                    }
                }
                col += 1;
            }
            row += 1;
        }
        proof {
            assert(self@.fb =~= v0.blit_spec(data, bw as int, bh as int, x as int, y as int).fb);
        }
    }
}


} // verus!
