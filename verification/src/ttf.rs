//! A rasterizer for outline-font glyphs. Outlines arrive as move, line,
//! quadratic and cubic segments in integer font units, y up; the
//! rasterizer scales them by `size / units_per_em` into 1/256-pixel
//! fixed-point space with y down, flattens the curves into fixed-step
//! polylines, rasterizes even-odd coverage by counting edge crossings at
//! each pixel center, caches the result keyed by codepoint and pixel
//! size, and composites cached glyphs onto the canvas with a binary
//! coverage threshold of one half.

use vstd::prelude::*;

use crate::color::Color;
use crate::sight::Sight;
use crate::sight::SightView;

verus! {

/// One outline segment, in integer font units with y pointing up.
#[derive(Clone, Copy, Debug, PartialEq, Eq, Structural)]
pub enum Segment {
    /// Close the running contour and start a new one at the point.
    MoveTo(i32, i32),
    /// A straight edge to the point.
    LineTo(i32, i32),
    /// A quadratic curve: control point, then end point.
    QuadTo(i32, i32, i32, i32),
    /// A cubic curve: two control points, then the end point.
    CurveTo(i32, i32, i32, i32, i32, i32),
    /// Close the running contour.
    Close,
}

/// The font-unit magnitude the rasterizer accepts.
pub open spec fn coord_ok(c: int) -> bool {
    -0x8000 <= c <= 0x8000
}

/// Whether every coordinate of one segment is in range.
pub open spec fn seg_bounded(s: Segment) -> bool {
    match s {
        Segment::MoveTo(x, y) => coord_ok(x as int) && coord_ok(y as int),
        Segment::LineTo(x, y) => coord_ok(x as int) && coord_ok(y as int),
        Segment::QuadTo(cx, cy, x, y) => coord_ok(cx as int) && coord_ok(cy as int) && coord_ok(
            x as int,
        ) && coord_ok(y as int),
        Segment::CurveTo(c1x, c1y, c2x, c2y, x, y) => coord_ok(c1x as int) && coord_ok(c1y as int)
            && coord_ok(c2x as int) && coord_ok(c2y as int) && coord_ok(x as int) && coord_ok(
            y as int,
        ),
        Segment::Close => true,
    }
}

/// Whether every coordinate of a segment list is in range.
pub open spec fn segs_bounded(segs: Seq<Segment>) -> bool {
    forall|i: int| 0 <= i < segs.len() ==> seg_bounded(#[trigger] segs[i])
}

/// A font-unit coordinate scaled into 1/256-pixel units: `c * size * 256
/// / upem`, truncated toward zero.
pub open spec fn scale_fix(c: int, size: int, upem: int) -> int {
    if c >= 0 {
        c * size * 256 / upem
    } else {
        -((-c) * size * 256 / upem)
    }
}

/// A scaled coordinate stays within two to the thirty-first.
proof fn lemma_scale_fix_bound(c: int, size: int, upem: int)
    requires
        coord_ok(c),
        16 <= upem,
        1 <= size <= 4096,
    ensures
        -0x8000_0000 <= scale_fix(c, size, upem) <= 0x8000_0000,
{
    let a = if c >= 0 {
        c
    } else {
        -c
    };
    assert(a * size * 256 <= 0x8000 * 4096 * 256) by (nonlinear_arith)
        requires
            0 <= a <= 0x8000,
            1 <= size <= 4096,
    ;
    assert(a * size * 256 >= 0) by (nonlinear_arith)
        requires
            a >= 0,
            size >= 1,
    ;
    vstd::arithmetic::div_mod::lemma_div_pos_is_pos(a * size * 256, upem);
    vstd::arithmetic::div_mod::lemma_div_is_ordered(a * size * 256, 0x8000int * 4096 * 256, upem);
    vstd::arithmetic::div_mod::lemma_div_is_ordered_by_denominator(0x8000int * 4096 * 256, 16, upem);
}

/// Scales one font-unit coordinate into fixed-point pixel space.
fn scale_fix_exec(c: i32, size: u32, upem: u32) -> (r: i64)
    requires
        coord_ok(c as int),
        16 <= upem,
        1 <= size <= 4096,
    ensures
        r as int == scale_fix(c as int, size as int, upem as int),
        -0x8000_0000 <= r <= 0x8000_0000,
{
    proof {
        lemma_scale_fix_bound(c as int, size as int, upem as int);
        let a: int = if c >= 0 {
            c as int
        } else {
            -(c as int)
        };
        assert(0 <= a * (size as int) <= 0x8000 * 4096) by (nonlinear_arith)
            requires
                0 <= a <= 0x8000,
                1 <= size as int <= 4096,
        ;
    }
    if c >= 0 {
        ((c as i64) * (size as i64) * 256) / (upem as i64)
    } else {
        -((((-c) as i64) * (size as i64) * 256) / (upem as i64))
    }
}

/// A point in 1/256-pixel fixed-point space, y down.
pub type FixPoint = (i64, i64);

/// The flattening state: finished contours, and the contour being built.
pub ghost struct FlattenState {
    pub done: Seq<Seq<FixPoint>>,
    pub cur: Seq<FixPoint>,
}

/// The last point of the running contour, or the origin when it is
/// empty.
pub open spec fn last_of(cur: Seq<FixPoint>) -> FixPoint {
    if cur.len() > 0 {
        cur.last()
    } else {
        (0i64, 0i64)
    }
}

/// One fixed-step sample of a quadratic curve, at `t = i / 10`; the
/// weighted average is taken in fixed-point space and truncated.
pub open spec fn quad_point(p0: FixPoint, c: FixPoint, p1: FixPoint, i: int) -> FixPoint {
    let u = 10 - i;
    let nx = u * u * p0.0 + 2 * u * i * c.0 + i * i * p1.0;
    let ny = u * u * p0.1 + 2 * u * i * c.1 + i * i * p1.1;
    (fix_div(nx, 100) as i64, fix_div(ny, 100) as i64)
}

/// One fixed-step sample of a cubic curve, at `t = i / 15`.
pub open spec fn cubic_point(
    p0: FixPoint,
    c1: FixPoint,
    c2: FixPoint,
    p1: FixPoint,
    i: int,
) -> FixPoint {
    let u = 15 - i;
    let nx = u * u * u * p0.0 + 3 * u * u * i * c1.0 + 3 * u * i * i * c2.0 + i * i * i * p1.0;
    let ny = u * u * u * p0.1 + 3 * u * u * i * c1.1 + 3 * u * i * i * c2.1 + i * i * i * p1.1;
    (fix_div(nx, 3375) as i64, fix_div(ny, 3375) as i64)
}

/// Signed division truncated toward zero.
pub open spec fn fix_div(n: int, d: int) -> int {
    if n >= 0 {
        n / d
    } else {
        -((-n) / d)
    }
}

/// The quadratic samples at `t = 1/10 .. k/10` appended in order.
pub open spec fn quad_points(p0: FixPoint, c: FixPoint, p1: FixPoint, k: int) -> Seq<FixPoint>
    decreases k,
{
    if k <= 0 {
        Seq::empty()
    } else {
        quad_points(p0, c, p1, k - 1).push(quad_point(p0, c, p1, k))
    }
}

/// The cubic samples at `t = 1/15 .. k/15` appended in order.
pub open spec fn cubic_points(
    p0: FixPoint,
    c1: FixPoint,
    c2: FixPoint,
    p1: FixPoint,
    k: int,
) -> Seq<FixPoint>
    decreases k,
{
    if k <= 0 {
        Seq::empty()
    } else {
        cubic_points(p0, c1, c2, p1, k - 1).push(cubic_point(p0, c1, c2, p1, k))
    }
}

/// Applying one outline segment to the flattening state: a move closes
/// the running contour and starts a new one; lines append one point;
/// curves append their fixed-step samples; a close stores the contour.
pub open spec fn flatten_step(st: FlattenState, seg: Segment, size: int, upem: int) -> FlattenState {
    match seg {
        Segment::MoveTo(x, y) => {
            let p = (
                scale_fix(x as int, size, upem) as i64,
                -scale_fix(y as int, size, upem) as i64,
            );
            FlattenState {
                done: if st.cur.len() > 0 {
                    st.done.push(st.cur)
                } else {
                    st.done
                },
                cur: seq![p],
            }
        },
        Segment::LineTo(x, y) => {
            let p = (
                scale_fix(x as int, size, upem) as i64,
                -scale_fix(y as int, size, upem) as i64,
            );
            FlattenState { cur: st.cur.push(p), ..st }
        },
        Segment::QuadTo(cx, cy, x, y) => {
            let c = (
                scale_fix(cx as int, size, upem) as i64,
                -scale_fix(cy as int, size, upem) as i64,
            );
            let p = (
                scale_fix(x as int, size, upem) as i64,
                -scale_fix(y as int, size, upem) as i64,
            );
            FlattenState { cur: st.cur + quad_points(last_of(st.cur), c, p, 10), ..st }
        },
        Segment::CurveTo(c1x, c1y, c2x, c2y, x, y) => {
            let c1 = (
                scale_fix(c1x as int, size, upem) as i64,
                -scale_fix(c1y as int, size, upem) as i64,
            );
            let c2 = (
                scale_fix(c2x as int, size, upem) as i64,
                -scale_fix(c2y as int, size, upem) as i64,
            );
            let p = (
                scale_fix(x as int, size, upem) as i64,
                -scale_fix(y as int, size, upem) as i64,
            );
            FlattenState { cur: st.cur + cubic_points(last_of(st.cur), c1, c2, p, 15), ..st }
        },
        Segment::Close => {
            FlattenState {
                done: if st.cur.len() > 0 {
                    st.done.push(st.cur)
                } else {
                    st.done
                },
                cur: Seq::empty(),
            }
        },
    }
}

/// The flattening state after the first `k` segments.
pub open spec fn flatten_upto(segs: Seq<Segment>, size: int, upem: int, k: int) -> FlattenState
    decreases k,
{
    if k <= 0 {
        FlattenState { done: Seq::empty(), cur: Seq::empty() }
    } else {
        flatten_step(flatten_upto(segs, size, upem, k - 1), segs[k - 1], size, upem)
    }
}

/// The contours of a flattened outline: every stored contour, plus the
/// running one when the outline did not close it.
pub open spec fn flatten_contours(segs: Seq<Segment>, size: int, upem: int) -> Seq<Seq<FixPoint>> {
    let st = flatten_upto(segs, size, upem, segs.len() as int);
    if st.cur.len() > 0 {
        st.done.push(st.cur)
    } else {
        st.done
    }
}

/// A rasterized glyph: an 8-bit coverage bitmap with pixel metrics.
#[derive(Clone, Debug)]
pub struct CachedGlyph {
    pub coverage: Vec<u8>,
    pub width: u32,
    pub height: u32,
    pub bearing_x: i32,
    pub bearing_y: i32,
    pub advance: i32,
}

impl CachedGlyph {
    /// The coverage bitmap holds one byte for every pixel.
    pub open spec fn wf(self) -> bool {
        self.coverage@.len() == self.width as int * self.height as int
    }
}

/// One cache entry: a rasterized glyph keyed by codepoint and pixel
/// size.
pub struct CacheEntry {
    pub ch: u32,
    pub size: u32,
    pub glyph: CachedGlyph,
}

/// The first cache entry for a codepoint and size.
pub open spec fn find_entry(entries: Seq<CacheEntry>, ch: int, size: int) -> Option<CacheEntry>
    decreases entries.len(),
{
    if entries.len() == 0 {
        None
    } else if entries[0].ch == ch && entries[0].size == size {
        Some(entries[0])
    } else {
        find_entry(entries.drop_first(), ch, size)
    }
}

/// When the first `k` entries miss and entry `k` matches, the lookup
/// returns entry `k`.
pub proof fn lemma_find_entry_at(entries: Seq<CacheEntry>, ch: int, size: int, k: int)
    requires
        0 <= k < entries.len(),
        forall|i: int|
            0 <= i < k ==> !(#[trigger] entries[i].ch == ch && entries[i].size == size),
        entries[k].ch == ch && entries[k].size == size,
    ensures
        find_entry(entries, ch, size) == Some(entries[k]),
    decreases k,
{
    if k > 0 {
        lemma_find_entry_at(entries.drop_first(), ch, size, k - 1);
    }
}

/// When no entry matches, the lookup misses.
pub proof fn lemma_find_entry_none(entries: Seq<CacheEntry>, ch: int, size: int)
    requires
        forall|i: int|
            0 <= i < entries.len() ==> !(#[trigger] entries[i].ch == ch && entries[i].size
                == size),
    ensures
        find_entry(entries, ch, size) is None,
    decreases entries.len(),
{
    if entries.len() > 0 {
        lemma_find_entry_none(entries.drop_first(), ch, size);
    }
}

/// A lazily filled cache of rasterized glyphs, keyed by codepoint and
/// pixel size; entries stay until the cache is cleared.
pub struct GlyphCache {
    pub entries: Vec<CacheEntry>,
}

impl GlyphCache {
    /// Each codepoint and size pair appears at most once.
    pub open spec fn wf(self) -> bool {
        forall|i: int, k: int|
            0 <= i < k < self.entries@.len() ==> !(self.entries@[i].ch == self.entries@[k].ch
                && self.entries@[i].size == self.entries@[k].size)
    }

    /// An empty cache.
    pub fn new() -> (c: GlyphCache)
        ensures
            c.wf(),
            c.entries@.len() == 0,
    {
        GlyphCache { entries: Vec::new() }
    }

    /// The number of cached glyphs.
    pub fn len(&self) -> (n: usize)
        ensures
            n == self.entries@.len(),
    {
        self.entries.len()
    }

    /// Looks up the glyph cached for a codepoint at a pixel size.
    pub fn get(&self, ch: u32, size: u32) -> (r: Option<&CachedGlyph>)
        ensures
            match r {
                Some(g) => exists|e: CacheEntry|
                    find_entry(self.entries@, ch as int, size as int) == Some(e) && e.glyph == *g,
                None => find_entry(self.entries@, ch as int, size as int) is None,
            },
    {
        let n = self.entries.len();
        let mut i: usize = 0;
        while i < n
            invariant
                n == self.entries@.len(),
                0 <= i <= n,
                forall|k: int|
                    0 <= k < i ==> !(#[trigger] self.entries@[k].ch == ch as int
                        && self.entries@[k].size == size as int),
            decreases n - i,
        {
            if self.entries[i].ch == ch && self.entries[i].size == size {
                proof {
                    lemma_find_entry_at(self.entries@, ch as int, size as int, i as int);
                }
                return Some(&self.entries[i].glyph);
            }
            i += 1;
        }
        proof {
            lemma_find_entry_none(self.entries@, ch as int, size as int);
        }
        None
    }

    /// Caches a glyph for a codepoint at a pixel size, replacing any
    /// entry already stored under that key.
    pub fn insert(&mut self, ch: u32, size: u32, glyph: CachedGlyph)
        requires
            old(self).wf(),
        ensures
            final(self).wf(),
            ({
                let e = find_entry(final(self).entries@, ch as int, size as int);
                e is Some && e->Some_0.glyph == glyph
            }),
            forall|c2: int, s2: int|
                !(c2 == ch as int && s2 == size as int) ==> find_entry(
                    final(self).entries@,
                    c2,
                    s2,
                ) == find_entry(old(self).entries@, c2, s2),
    {
        let ghost es0 = self.entries@;
        let n = self.entries.len();
        let mut i: usize = 0;
        while i < n
            invariant
                n == self.entries@.len(),
                0 <= i <= n,
                es0 == self.entries@,
                old(self).wf(),
                old(self).entries@ == es0,
                forall|k: int|
                    0 <= k < i ==> !(#[trigger] es0[k].ch == ch as int && es0[k].size
                        == size as int),
            decreases n - i,
        {
            if self.entries[i].ch == ch && self.entries[i].size == size {
                self.entries[i] = CacheEntry { ch, size, glyph };
                proof {
                    lemma_insert_replace(es0, self.entries@, ch as int, size as int, i as int);
                }
                return ;
            }
            i += 1;
        }
        self.entries.push(CacheEntry { ch, size, glyph });
        proof {
            lemma_insert_append(es0, self.entries@, ch as int, size as int);
        }
    }

    /// Drops every cached glyph.
    pub fn clear_cache(&mut self)
        ensures
            final(self).wf(),
            final(self).entries@.len() == 0,
            forall|c2: int, s2: int| find_entry(final(self).entries@, c2, s2) is None,
    {
        self.entries.clear();
    }
}

/// Replacing the first matching entry changes that key's lookup and no
/// other.
proof fn lemma_insert_replace(
    es0: Seq<CacheEntry>,
    es1: Seq<CacheEntry>,
    ch: int,
    size: int,
    k: int,
)
    requires
        0 <= k < es0.len(),
        es1.len() == es0.len(),
        forall|i: int| 0 <= i < k ==> !(#[trigger] es0[i].ch == ch && es0[i].size == size),
        es0[k].ch == ch && es0[k].size == size,
        es1[k].ch == ch && es1[k].size == size,
        forall|i: int| 0 <= i < es0.len() && i != k ==> es0[i] == #[trigger] es1[i],
    ensures
        find_entry(es1, ch, size) == Some(es1[k]),
        forall|c2: int, s2: int|
            !(c2 == ch && s2 == size) ==> #[trigger] find_entry(es1, c2, s2) == find_entry(
                es0,
                c2,
                s2,
            ),
    decreases es0.len(),
{
    assert forall|i: int| 0 <= i < k implies !(#[trigger] es1[i].ch == ch && es1[i].size == size) by {
        assert(es1[i] == es0[i]);
    }
    lemma_find_entry_at(es1, ch, size, k);
    assert forall|c2: int, s2: int| !(c2 == ch && s2 == size) implies #[trigger] find_entry(
        es1,
        c2,
        s2,
    ) == find_entry(es0, c2, s2) by {
        lemma_find_same(es0, es1, c2, s2, ch, size, k);
    }
}

/// Lookups for other keys walk the same entries.
proof fn lemma_find_same(
    es0: Seq<CacheEntry>,
    es1: Seq<CacheEntry>,
    c2: int,
    s2: int,
    ch: int,
    size: int,
    k: int,
)
    requires
        es1.len() == es0.len(),
        0 <= k < es0.len(),
        es0[k].ch == ch && es0[k].size == size,
        es1[k].ch == ch && es1[k].size == size,
        forall|i: int| 0 <= i < es0.len() && i != k ==> es0[i] == #[trigger] es1[i],
        !(c2 == ch && s2 == size),
    ensures
        find_entry(es1, c2, s2) == find_entry(es0, c2, s2),
    decreases es0.len(),
{
    if es0.len() > 0 {
        if k == 0 {
            assert(!(es0[0].ch == c2 && es0[0].size == s2));
            assert(!(es1[0].ch == c2 && es1[0].size == s2));
            assert(es0.drop_first() =~= es1.drop_first());
        } else {
            assert(es1[0] == es0[0]);
            if !(es0[0].ch == c2 && es0[0].size == s2) {
                assert forall|i: int|
                    0 <= i < es0.drop_first().len() && i != k - 1 implies es0.drop_first()[i]
                    == #[trigger] es1.drop_first()[i] by {
                    assert(es0.drop_first()[i] == es0[i + 1]);
                    assert(es1.drop_first()[i] == es1[i + 1]);
                }
                lemma_find_same(es0.drop_first(), es1.drop_first(), c2, s2, ch, size, k - 1);
            }
        }
    }
}

/// Appending a fresh entry serves that key and leaves others alone.
proof fn lemma_insert_append(es0: Seq<CacheEntry>, es1: Seq<CacheEntry>, ch: int, size: int)
    requires
        es1.len() == es0.len() + 1,
        forall|i: int| 0 <= i < es0.len() ==> es0[i] == #[trigger] es1[i],
        forall|i: int| 0 <= i < es0.len() ==> !(#[trigger] es0[i].ch == ch && es0[i].size == size),
        es1[es0.len() as int].ch == ch && es1[es0.len() as int].size == size,
    ensures
        find_entry(es1, ch, size) == Some(es1[es0.len() as int]),
        forall|c2: int, s2: int|
            !(c2 == ch && s2 == size) ==> #[trigger] find_entry(es1, c2, s2) == find_entry(
                es0,
                c2,
                s2,
            ),
    decreases es0.len(),
{
    assert forall|i: int|
        0 <= i < es0.len() implies !(#[trigger] es1[i].ch == ch && es1[i].size == size) by {
        assert(es1[i] == es0[i]);
    }
    lemma_find_entry_at(es1, ch, size, es0.len() as int);
    assert forall|c2: int, s2: int| !(c2 == ch && s2 == size) implies #[trigger] find_entry(
        es1,
        c2,
        s2,
    ) == find_entry(es0, c2, s2) by {
        lemma_find_append(es0, es1, c2, s2);
    }
}

/// A lookup that cannot match the appended entry ignores it.
proof fn lemma_find_append(es0: Seq<CacheEntry>, es1: Seq<CacheEntry>, c2: int, s2: int)
    requires
        es1.len() == es0.len() + 1,
        forall|i: int| 0 <= i < es0.len() ==> es0[i] == #[trigger] es1[i],
        !(es1[es0.len() as int].ch == c2 && es1[es0.len() as int].size == s2),
    ensures
        find_entry(es1, c2, s2) == find_entry(es0, c2, s2),
    decreases es0.len(),
{
    if es0.len() == 0 {
        assert(find_entry(es0, c2, s2) is None);
    } else {
        assert(es1[0] == es0[0]);
        if !(es0[0].ch == c2 && es0[0].size == s2) {
            assert forall|i: int|
                0 <= i < es0.drop_first().len() implies es0.drop_first()[i] == #[trigger] es1.drop_first()[i] by {
                assert(es0.drop_first()[i] == es0[i + 1]);
                assert(es1.drop_first()[i] == es1[i + 1]);
            }
            assert(es1.drop_first()[es0.drop_first().len() as int] == es1[es0.len() as int]);
            lemma_find_append(es0.drop_first(), es1.drop_first(), c2, s2);
        }
    }
}


/// Truncated division keeps a bounded numerator's quotient bounded.
proof fn lemma_fix_div_bound(n: int, d: int, m: int)
    requires
        d > 0,
        m >= 0,
        -(d * m) <= n <= d * m,
    ensures
        -m <= fix_div(n, d) <= m,
{
    if n >= 0 {
        vstd::arithmetic::div_mod::lemma_div_pos_is_pos(n, d);
        vstd::arithmetic::div_mod::lemma_div_is_ordered(n, d * m, d);
        assert(d * m == m * d) by (nonlinear_arith);
        vstd::arithmetic::div_mod::lemma_div_by_multiple(m, d);
    } else {
        vstd::arithmetic::div_mod::lemma_div_pos_is_pos(-n, d);
        vstd::arithmetic::div_mod::lemma_div_is_ordered(-n, d * m, d);
        assert(d * m == m * d) by (nonlinear_arith);
        vstd::arithmetic::div_mod::lemma_div_by_multiple(m, d);
    }
}

/// Whether every point of every contour stays within the scaled range.
pub open spec fn points_bounded(cs: Seq<Seq<FixPoint>>) -> bool {
    forall|i: int, k: int|
        0 <= i < cs.len() && 0 <= k < cs[i].len() ==> -0x8000_0000 <= (#[trigger] cs[i][k]).0
            <= 0x8000_0000 && -0x8000_0000 <= cs[i][k].1 <= 0x8000_0000
}

/// The sequence of contour models behind a contour vector.
pub open spec fn contours_view(c: Seq<Vec<FixPoint>>) -> Seq<Seq<FixPoint>> {
    Seq::new(c.len(), |i: int| c[i]@)
}

/// One quadratic sample.
fn quad_point_exec(p0: FixPoint, c: FixPoint, p1: FixPoint, i: u32) -> (r: FixPoint)
    requires
        0 <= i <= 10,
        -0x8000_0000 <= p0.0 <= 0x8000_0000,
        -0x8000_0000 <= p0.1 <= 0x8000_0000,
        -0x8000_0000 <= c.0 <= 0x8000_0000,
        -0x8000_0000 <= c.1 <= 0x8000_0000,
        -0x8000_0000 <= p1.0 <= 0x8000_0000,
        -0x8000_0000 <= p1.1 <= 0x8000_0000,
    ensures
        r == quad_point(p0, c, p1, i as int),
        -0x8000_0000 <= r.0 <= 0x8000_0000,
        -0x8000_0000 <= r.1 <= 0x8000_0000,
{
    let u = (10 - i) as i64;
    let t = i as i64;
    proof {
        assert(u * u + 2 * u * t + t * t == 100) by (nonlinear_arith)
            requires
                u == 10 - t,
                0 <= t <= 10,
        ;
        assert(0 <= u * u <= 100 && 0 <= 2 * u * t <= 100 && 0 <= t * t <= 100)
            by (nonlinear_arith)
            requires
                u == 10 - t,
                0 <= t <= 10,
        ;
        let m: int = 0x8000_0000;
        assert forall|w: int, p: int|
            0 <= w <= 100 && -m <= p <= m implies -(100 * m) <= #[trigger] (w * p) <= 100 * m by {
            assert(-(100 * m) <= w * p <= 100 * m) by (nonlinear_arith)
                requires
                    0 <= w <= 100,
                    -m <= p <= m,
                    m == 0x8000_0000,
            ;
        }
    }
    let nx: i128 = (u * u) as i128 * p0.0 as i128 + (2 * u * t) as i128 * c.0 as i128 + (t
        * t) as i128 * p1.0 as i128;
    let ny: i128 = (u * u) as i128 * p0.1 as i128 + (2 * u * t) as i128 * c.1 as i128 + (t
        * t) as i128 * p1.1 as i128;
    proof {
        let m: int = 0x8000_0000;
        assert(-(100 * m) <= nx <= 100 * m && -(100 * m) <= ny <= 100 * m) by (nonlinear_arith)
            requires
                m == 0x8000_0000,
                u * u + 2 * u * t + t * t == 100,
                0 <= u * u,
                0 <= 2 * u * t,
                0 <= t * t,
                nx == u * u * (p0.0 as int) + 2 * u * t * (c.0 as int) + t * t * (p1.0 as int),
                ny == u * u * (p0.1 as int) + 2 * u * t * (c.1 as int) + t * t * (p1.1 as int),
                -m <= p0.0 <= m,
                -m <= p0.1 <= m,
                -m <= c.0 <= m,
                -m <= c.1 <= m,
                -m <= p1.0 <= m,
                -m <= p1.1 <= m,
        ;
        lemma_fix_div_bound(nx as int, 100, m);
        lemma_fix_div_bound(ny as int, 100, m);
    }
    let rx: i128 = if nx >= 0 {
        nx / 100
    } else {
        -((-nx) / 100)
    };
    let ry: i128 = if ny >= 0 {
        ny / 100
    } else {
        -((-ny) / 100)
    };
    (rx as i64, ry as i64)
}

/// One cubic sample.
#[verifier::rlimit(50)]
fn cubic_point_exec(p0: FixPoint, c1: FixPoint, c2: FixPoint, p1: FixPoint, i: u32) -> (r:
    FixPoint)
    requires
        0 <= i <= 15,
        -0x8000_0000 <= p0.0 <= 0x8000_0000,
        -0x8000_0000 <= p0.1 <= 0x8000_0000,
        -0x8000_0000 <= c1.0 <= 0x8000_0000,
        -0x8000_0000 <= c1.1 <= 0x8000_0000,
        -0x8000_0000 <= c2.0 <= 0x8000_0000,
        -0x8000_0000 <= c2.1 <= 0x8000_0000,
        -0x8000_0000 <= p1.0 <= 0x8000_0000,
        -0x8000_0000 <= p1.1 <= 0x8000_0000,
    ensures
        r == cubic_point(p0, c1, c2, p1, i as int),
        -0x8000_0000 <= r.0 <= 0x8000_0000,
        -0x8000_0000 <= r.1 <= 0x8000_0000,
{
    let u = (15 - i) as i64;
    let t = i as i64;
    proof {
        assert(u * u * u + 3 * u * u * t + 3 * u * t * t + t * t * t == 3375 && 0 <= u * u * u
            <= 3375 && 0 <= 3 * u * u * t <= 3375 && 0 <= 3 * u * t * t <= 3375 && 0 <= t * t * t
            <= 3375) by (nonlinear_arith)
            requires
                u == 15 - t,
                0 <= t <= 15,
        ;
        let m: int = 0x8000_0000;
        assert forall|w: int, p: int|
            0 <= w <= 3375 && -m <= p <= m implies -(3375 * m) <= #[trigger] (w * p) <= 3375
            * m by {
            assert(-(3375 * m) <= w * p <= 3375 * m) by (nonlinear_arith)
                requires
                    0 <= w <= 3375,
                    -m <= p <= m,
                    m == 0x8000_0000,
            ;
        }
    }
    let nx: i128 = (u * u * u) as i128 * p0.0 as i128 + (3 * u * u * t) as i128 * c1.0 as i128 + (3
        * u * t * t) as i128 * c2.0 as i128 + (t * t * t) as i128 * p1.0 as i128;
    let ny: i128 = (u * u * u) as i128 * p0.1 as i128 + (3 * u * u * t) as i128 * c1.1 as i128 + (3
        * u * t * t) as i128 * c2.1 as i128 + (t * t * t) as i128 * p1.1 as i128;
    proof {
        let m: int = 0x8000_0000;
        assert(-(3375 * m) <= nx <= 3375 * m && -(3375 * m) <= ny <= 3375 * m)
            by (nonlinear_arith)
            requires
                m == 0x8000_0000,
                u * u * u + 3 * u * u * t + 3 * u * t * t + t * t * t == 3375,
                0 <= u * u * u,
                0 <= 3 * u * u * t,
                0 <= 3 * u * t * t,
                0 <= t * t * t,
                nx == u * u * u * (p0.0 as int) + 3 * u * u * t * (c1.0 as int) + 3 * u * t * t * (
                c2.0 as int) + t * t * t * (p1.0 as int),
                ny == u * u * u * (p0.1 as int) + 3 * u * u * t * (c1.1 as int) + 3 * u * t * t * (
                c2.1 as int) + t * t * t * (p1.1 as int),
                -m <= p0.0 <= m,
                -m <= p0.1 <= m,
                -m <= c1.0 <= m,
                -m <= c1.1 <= m,
                -m <= c2.0 <= m,
                -m <= c2.1 <= m,
                -m <= p1.0 <= m,
                -m <= p1.1 <= m,
        ;
        lemma_fix_div_bound(nx as int, 3375, m);
        lemma_fix_div_bound(ny as int, 3375, m);
    }
    let rx: i128 = if nx >= 0 {
        nx / 3375
    } else {
        -((-nx) / 3375)
    };
    let ry: i128 = if ny >= 0 {
        ny / 3375
    } else {
        -((-ny) / 3375)
    };
    (rx as i64, ry as i64)
}

/// Flattens an outline into contour polylines in fixed-point pixel
/// space, y down.
fn flatten_exec(segs: &Vec<Segment>, size: u32, upem: u32) -> (contours: Vec<Vec<FixPoint>>)
    requires
        segs_bounded(segs@),
        16 <= upem,
        1 <= size <= 4096,
    ensures
        contours_view(contours@) == flatten_contours(segs@, size as int, upem as int),
        points_bounded(flatten_contours(segs@, size as int, upem as int)),
        contours@.len() <= segs@.len() + 1,
        forall|i: int|
            0 <= i < contours@.len() ==> (#[trigger] contours@[i])@.len() <= 16 * segs@.len() + 1,
{
    let ghost sz = size as int;
    let ghost up = upem as int;
    let mut done: Vec<Vec<FixPoint>> = Vec::new();
    let mut cur: Vec<FixPoint> = Vec::new();
    let n = segs.len();
    let mut k: usize = 0;
    proof {
        assert(contours_view(done@) =~= flatten_upto(segs@, sz, up, 0).done);
        assert(cur@ =~= flatten_upto(segs@, sz, up, 0).cur);
    }
    while k < n
        invariant
            segs_bounded(segs@),
            16 <= upem,
            1 <= size <= 4096,
            sz == size as int,
            up == upem as int,
            n == segs@.len(),
            0 <= k <= n,
            contours_view(done@) == flatten_upto(segs@, sz, up, k as int).done,
            cur@ == flatten_upto(segs@, sz, up, k as int).cur,
            done@.len() <= k as int,
            cur@.len() <= 16 * (k as int) + 1,
            forall|i: int|
                0 <= i < done@.len() ==> (#[trigger] done@[i])@.len() <= 16 * (n as int) + 1,
            forall|i: int, j: int|
                0 <= i < done@.len() && 0 <= j < done@[i]@.len() ==> -0x8000_0000 <= (
                #[trigger] done@[i]@[j]).0 <= 0x8000_0000 && -0x8000_0000 <= done@[i]@[j].1
                    <= 0x8000_0000,
            forall|j: int|
                0 <= j < cur@.len() ==> -0x8000_0000 <= (#[trigger] cur@[j]).0 <= 0x8000_0000
                    && -0x8000_0000 <= cur@[j].1 <= 0x8000_0000,
        decreases n - k,
    {
        let ghost st0 = flatten_upto(segs@, sz, up, k as int);
        let seg = segs[k];
        proof {
            assert(seg_bounded(segs@[k as int]));
        }
        match seg {
            Segment::MoveTo(x, y) => {
                let px = scale_fix_exec(x, size, upem);
                let py = -scale_fix_exec(y, size, upem);
                if cur.len() > 0 {
                    let mut finished: Vec<FixPoint> = Vec::new();
                    core::mem::swap(&mut finished, &mut cur);
                    done.push(finished);
                }
                cur = Vec::new();
                cur.push((px, py));
                proof {
                    let st1 = flatten_step(st0, segs@[k as int], sz, up);
                    assert(cur@ =~= st1.cur);
                    assert(contours_view(done@) =~= st1.done);
                }
            },
            Segment::LineTo(x, y) => {
                let px = scale_fix_exec(x, size, upem);
                let py = -scale_fix_exec(y, size, upem);
                cur.push((px, py));
                proof {
                    let st1 = flatten_step(st0, segs@[k as int], sz, up);
                    assert(cur@ =~= st1.cur);
                    assert(contours_view(done@) =~= st1.done);
                }
            },
            Segment::QuadTo(cx, cy, x, y) => {
                let cpx = scale_fix_exec(cx, size, upem);
                let cpy = -scale_fix_exec(cy, size, upem);
                let px = scale_fix_exec(x, size, upem);
                let py = -scale_fix_exec(y, size, upem);
                let p0: FixPoint = if cur.len() > 0 {
                    cur[cur.len() - 1]
                } else {
                    (0, 0)
                };
                proof {
                    assert(p0 == last_of(st0.cur));
                }
                let ghost base = cur@;
                let mut i: u32 = 1;
                while i <= 10
                    invariant
                        1 <= i <= 11,
                        -0x8000_0000 <= p0.0 <= 0x8000_0000,
                        -0x8000_0000 <= p0.1 <= 0x8000_0000,
                        -0x8000_0000 <= cpx <= 0x8000_0000,
                        -0x8000_0000 <= cpy <= 0x8000_0000,
                        -0x8000_0000 <= px <= 0x8000_0000,
                        -0x8000_0000 <= py <= 0x8000_0000,
                        cur@ == base + quad_points(p0, (cpx, cpy), (px, py), i - 1),
                        base.len() <= 16 * (k as int) + 1,
                        cur@.len() == base.len() + i - 1,
                        k < n,
                        forall|j: int|
                            0 <= j < cur@.len() ==> -0x8000_0000 <= (#[trigger] cur@[j]).0
                                <= 0x8000_0000 && -0x8000_0000 <= cur@[j].1 <= 0x8000_0000,
                    decreases 11 - i,
                {
                    let q = quad_point_exec(p0, (cpx, cpy), (px, py), i);
                    cur.push(q);
                    proof {
                        assert(cur@ =~= base + quad_points(p0, (cpx, cpy), (px, py), i as int));
                    }
                    i += 1;
                }
                proof {
                    let st1 = flatten_step(st0, segs@[k as int], sz, up);
                    assert(cur@ =~= st1.cur);
                    assert(contours_view(done@) =~= st1.done);
                }
            },
            Segment::CurveTo(c1x, c1y, c2x, c2y, x, y) => {
                let c1px = scale_fix_exec(c1x, size, upem);
                let c1py = -scale_fix_exec(c1y, size, upem);
                let c2px = scale_fix_exec(c2x, size, upem);
                let c2py = -scale_fix_exec(c2y, size, upem);
                let px = scale_fix_exec(x, size, upem);
                let py = -scale_fix_exec(y, size, upem);
                let p0: FixPoint = if cur.len() > 0 {
                    cur[cur.len() - 1]
                } else {
                    (0, 0)
                };
                proof {
                    assert(p0 == last_of(st0.cur));
                }
                let ghost base = cur@;
                let mut i: u32 = 1;
                while i <= 15
                    invariant
                        1 <= i <= 16,
                        -0x8000_0000 <= p0.0 <= 0x8000_0000,
                        -0x8000_0000 <= p0.1 <= 0x8000_0000,
                        -0x8000_0000 <= c1px <= 0x8000_0000,
                        -0x8000_0000 <= c1py <= 0x8000_0000,
                        -0x8000_0000 <= c2px <= 0x8000_0000,
                        -0x8000_0000 <= c2py <= 0x8000_0000,
                        -0x8000_0000 <= px <= 0x8000_0000,
                        -0x8000_0000 <= py <= 0x8000_0000,
                        cur@ == base + cubic_points(p0, (c1px, c1py), (c2px, c2py), (px, py), i
                            - 1),
                        base.len() <= 16 * (k as int) + 1,
                        cur@.len() == base.len() + i - 1,
                        k < n,
                        forall|j: int|
                            0 <= j < cur@.len() ==> -0x8000_0000 <= (#[trigger] cur@[j]).0
                                <= 0x8000_0000 && -0x8000_0000 <= cur@[j].1 <= 0x8000_0000,
                    decreases 16 - i,
                {
                    let q = cubic_point_exec(p0, (c1px, c1py), (c2px, c2py), (px, py), i);
                    cur.push(q);
                    proof {
                        assert(cur@ =~= base + cubic_points(
                            p0,
                            (c1px, c1py),
                            (c2px, c2py),
                            (px, py),
                            i as int,
                        ));
                    }
                    i += 1;
                }
                proof {
                    let st1 = flatten_step(st0, segs@[k as int], sz, up);
                    assert(cur@ =~= st1.cur);
                    assert(contours_view(done@) =~= st1.done);
                }
            },
            Segment::Close => {
                if cur.len() > 0 {
                    let mut finished: Vec<FixPoint> = Vec::new();
                    core::mem::swap(&mut finished, &mut cur);
                    done.push(finished);
                }
                proof {
                    let st1 = flatten_step(st0, segs@[k as int], sz, up);
                    assert(cur@ =~= st1.cur);
                    assert(contours_view(done@) =~= st1.done);
                }
            },
        }
        k += 1;
    }
    if cur.len() > 0 {
        done.push(cur);
        proof {
            assert(contours_view(done@) =~= flatten_contours(segs@, sz, up));
        }
    } else {
        proof {
            assert(contours_view(done@) =~= flatten_contours(segs@, sz, up));
        }
    }
    done
}


/// Whether a flattened outline has any point at all.
pub open spec fn has_points(cs: Seq<Seq<FixPoint>>) -> bool {
    exists|i: int| 0 <= i < cs.len() && cs[i].len() > 0
}

/// Whether the edge from `p0` to `p1` crosses the horizontal scanline at
/// `ys`, counted half-open so a shared vertex is counted once.
pub open spec fn edge_crosses(p0: FixPoint, p1: FixPoint, ys: int) -> bool {
    (p0.1 <= ys < p1.1) || (p1.1 <= ys < p0.1)
}

/// The x where the edge crosses the scanline at `ys`, interpolated
/// linearly from the lower endpoint and truncated toward it.
pub open spec fn edge_cross_x(p0: FixPoint, p1: FixPoint, ys: int) -> int {
    let a = if p0.1 <= p1.1 {
        p0
    } else {
        p1
    };
    let b = if p0.1 <= p1.1 {
        p1
    } else {
        p0
    };
    a.0 + fix_div((b.0 - a.0) * (ys - a.1), b.1 - a.1)
}

/// Whether the edge crosses the scanline at `ys` at or left of `xs`.
pub open spec fn edge_hits(p0: FixPoint, p1: FixPoint, ys: int, xs: int) -> bool {
    edge_crosses(p0, p1, ys) && edge_cross_x(p0, p1, ys) <= xs
}

/// The endpoint of the `k`-th edge of a closed polyline: the next point,
/// wrapping to the first.
pub open spec fn edge_end(c: Seq<FixPoint>, k: int) -> FixPoint {
    if k + 1 < c.len() {
        c[k + 1]
    } else {
        c[0]
    }
}

/// How many of the first `k` edges of one closed contour cross the
/// scanline at `ys` at or left of `xs`.
pub open spec fn contour_hits(c: Seq<FixPoint>, ys: int, xs: int, k: int) -> int
    decreases k,
{
    if k <= 0 {
        0
    } else {
        contour_hits(c, ys, xs, k - 1) + (if edge_hits(c[k - 1], edge_end(c, k - 1), ys, xs) {
            1int
        } else {
            0int
        })
    }
}

/// How many edges of the first `m` contours cross the scanline at `ys`
/// at or left of `xs`.
pub open spec fn contours_hits(cs: Seq<Seq<FixPoint>>, ys: int, xs: int, m: int) -> int
    decreases m,
{
    if m <= 0 {
        0
    } else {
        contours_hits(cs, ys, xs, m - 1) + contour_hits(cs[m - 1], ys, xs, cs[m - 1].len() as int)
    }
}

/// Even-odd membership of the pixel at `(px, py)`: the center of the
/// pixel lies inside the outline exactly when an odd number of edges
/// cross the center's scanline at or left of it.
pub open spec fn pixel_covered(cs: Seq<Seq<FixPoint>>, px: int, py: int) -> bool {
    contours_hits(cs, 256 * py + 128, 256 * px + 128, cs.len() as int) % 2 == 1
}

/// Counts the edges of one contour crossing the scanline at `ys` at or
/// left of `xs`.
fn contour_hits_exec(c: &Vec<FixPoint>, ys: i64, xs: i64) -> (cnt: u64)
    requires
        forall|j: int|
            0 <= j < c@.len() ==> -0x8000_0000 <= (#[trigger] c@[j]).0 <= 0x8000_0000
                && -0x8000_0000 <= c@[j].1 <= 0x8000_0000,
        -0x10_0000_0000 <= ys <= 0x10_0000_0000,
        -0x10_0000_0000 <= xs <= 0x10_0000_0000,
    ensures
        cnt as int == contour_hits(c@, ys as int, xs as int, c@.len() as int),
        cnt <= c@.len(),
{
    let n = c.len();
    let mut cnt: u64 = 0;
    let mut k: usize = 0;
    while k < n
        invariant
            n == c@.len(),
            0 <= k <= n,
            forall|j: int|
                0 <= j < c@.len() ==> -0x8000_0000 <= (#[trigger] c@[j]).0 <= 0x8000_0000
                    && -0x8000_0000 <= c@[j].1 <= 0x8000_0000,
            -0x10_0000_0000 <= ys <= 0x10_0000_0000,
            -0x10_0000_0000 <= xs <= 0x10_0000_0000,
            cnt as int == contour_hits(c@, ys as int, xs as int, k as int),
            cnt <= k,
        decreases n - k,
    {
        let p0 = c[k];
        let p1 = if k + 1 < n {
            c[k + 1]
        } else {
            c[0]
        };
        proof {
            assert(p1 == edge_end(c@, k as int));
        }
        let crosses = (p0.1 <= ys && ys < p1.1) || (p1.1 <= ys && ys < p0.1);
        if crosses {
            let a = if p0.1 <= p1.1 {
                p0
            } else {
                p1
            };
            let b = if p0.1 <= p1.1 {
                p1
            } else {
                p0
            };
            let dx: i128 = (b.0 - a.0) as i128;
            let t: i128 = (ys - a.1) as i128;
            let dy: i128 = (b.1 - a.1) as i128;
            proof {
                assert(-0x20_0000_0000i128 * 0x20_0000_0000i128 <= dx * t <= 0x20_0000_0000i128
                    * 0x20_0000_0000i128) by (nonlinear_arith)
                    requires
                        -0x20_0000_0000 <= dx <= 0x20_0000_0000,
                        -0x20_0000_0000 <= t <= 0x20_0000_0000,
                ;
            }
            let num: i128 = dx * t;
            let q: i128 = if num >= 0 {
                num / dy
            } else {
                -((-num) / dy)
            };
            let cx: i128 = a.0 as i128 + q;
            proof {
                assert(q == fix_div(num as int, dy as int));
                assert(cx == edge_cross_x(p0, p1, ys as int));
            }
            if cx <= xs as i128 {
                cnt = cnt + 1;
            }
        }
        proof {
            assert(contour_hits(c@, ys as int, xs as int, k + 1) == contour_hits(
                c@,
                ys as int,
                xs as int,
                k as int,
            ) + (if edge_hits(c@[k as int], edge_end(c@, k as int), ys as int, xs as int) {
                1int
            } else {
                0int
            }));
        }
        k += 1;
    }
    cnt
}

/// Counts the edges of every contour crossing the scanline at `ys` at or
/// left of `xs`.
fn contours_hits_exec(cs: &Vec<Vec<FixPoint>>, ys: i64, xs: i64) -> (cnt: u64)
    requires
        points_bounded(contours_view(cs@)),
        cs@.len() <= 0xffff_ffff,
        forall|i: int| 0 <= i < cs@.len() ==> (#[trigger] cs@[i])@.len() <= 0xffff_ffff,
        -0x10_0000_0000 <= ys <= 0x10_0000_0000,
        -0x10_0000_0000 <= xs <= 0x10_0000_0000,
    ensures
        cnt as int == contours_hits(contours_view(cs@), ys as int, xs as int, cs@.len() as int),
{
    let ghost cv = contours_view(cs@);
    let n = cs.len();
    let mut cnt: u64 = 0;
    let mut m: usize = 0;
    while m < n
        invariant
            cv == contours_view(cs@),
            points_bounded(cv),
            n == cs@.len() <= 0xffff_ffff,
            forall|i: int| 0 <= i < cs@.len() ==> (#[trigger] cs@[i])@.len() <= 0xffff_ffff,
            -0x10_0000_0000 <= ys <= 0x10_0000_0000,
            -0x10_0000_0000 <= xs <= 0x10_0000_0000,
            0 <= m <= n,
            cnt as int == contours_hits(cv, ys as int, xs as int, m as int),
            cnt <= m as int * 0xffff_ffff,
        decreases n - m,
    {
        proof {
            assert(cv[m as int] == cs@[m as int]@);
            assert(forall|j: int|
                0 <= j < cv[m as int].len() ==> -0x8000_0000 <= (#[trigger] cv[m as int][j]).0
                    <= 0x8000_0000 && -0x8000_0000 <= cv[m as int][j].1 <= 0x8000_0000);
            assert((m as int + 1) * 0xffff_ffff == m as int * 0xffff_ffff + 0xffff_ffff)
                by (nonlinear_arith);
            assert(m as int * 0xffff_ffff <= 0xffff_ffffi64 * 0xffff_ffffi64)
                by (nonlinear_arith)
                requires
                    0 <= m as int <= 0xffff_ffff,
            ;
        }
        let c = contour_hits_exec(&cs[m], ys, xs);
        cnt = cnt + c;
        m += 1;
    }
    cnt
}

/// Floor division by 256.
fn floor_div256(v: i64) -> (r: i64)
    requires
        -0x8000_0000 <= v <= 0x8000_0000,
    ensures
        r as int == v as int / 256,
{
    if v >= 0 {
        v / 256
    } else {
        proof {
            vstd::arithmetic::div_mod::lemma_fundamental_div_mod(v as int, 256);
            vstd::arithmetic::div_mod::lemma_mod_bound(v as int, 256);
            let q = v as int / 256;
            let m = v as int % 256;
            assert((-(v as int)) + 255 == 256 * (-q) + (255 - m));
            assert((-q) * 256 + (255 - m) == 256 * (-q) + (255 - m)) by (nonlinear_arith);
            vstd::arithmetic::div_mod::lemma_fundamental_div_mod_converse(
                (-(v as int)) + 255,
                256,
                -q,
                255 - m,
            );
            vstd::arithmetic::div_mod::lemma_div_is_ordered(0, -(v as int) + 255, 256);
        }
        -(((-v) + 255) / 256)
    }
}

/// The greatest lower pixel bound and extent of a flattened outline:
/// `(bx, ty, w, h)` so that every point lies in the pixel box, found by
/// scanning every contour point; an outline with no points reports a
/// zero-sized box.
fn bbox_exec(cs: &Vec<Vec<FixPoint>>) -> (r: (i64, i64, i64, i64))
    requires
        points_bounded(contours_view(cs@)),
    ensures
        !has_points(contours_view(cs@)) ==> r == (0i64, 0i64, 0i64, 0i64),
        has_points(contours_view(cs@)) ==> {
            let cv = contours_view(cs@);
            &&& r.2 >= 1 && r.3 >= 1
            &&& -0x80_0000 <= r.0 <= 0x80_0000 && -0x80_0000 <= r.1 <= 0x80_0000
            &&& r.2 <= 0x100_0001 && r.3 <= 0x100_0001
            &&& forall|i: int, j: int|
                0 <= i < cv.len() && 0 <= j < cv[i].len() ==> 256 * r.0 <= (#[trigger] cv[i][j]).0
                    < 256 * (r.0 + r.2) && 256 * r.1 <= cv[i][j].1 < 256 * (r.1 + r.3)
        },
{
    let ghost cv = contours_view(cs@);
    let n = cs.len();
    let mut seen = false;
    let mut minx: i64 = 0;
    let mut maxx: i64 = 0;
    let mut miny: i64 = 0;
    let mut maxy: i64 = 0;
    let mut i: usize = 0;
    while i < n
        invariant
            cv == contours_view(cs@),
            points_bounded(cv),
            n == cs@.len(),
            0 <= i <= n,
            !seen ==> minx == 0 && maxx == 0 && miny == 0 && maxy == 0,
            !seen ==> forall|a: int| 0 <= a < i ==> (#[trigger] cv[a]).len() == 0,
            seen ==> exists|a: int| 0 <= a < i && (#[trigger] cv[a]).len() > 0,
            seen ==> -0x8000_0000 <= minx <= maxx <= 0x8000_0000 && -0x8000_0000 <= miny <= maxy
                <= 0x8000_0000,
            seen ==> forall|a: int, j: int|
                0 <= a < i && 0 <= j < cv[a].len() ==> minx <= (#[trigger] cv[a][j]).0 <= maxx
                    && miny <= cv[a][j].1 <= maxy,
        decreases n - i,
    {
        let c = &cs[i];
        let cn = c.len();
        let mut j: usize = 0;
        proof {
            assert(cv[i as int] == cs@[i as int]@);
        }
        while j < cn
            invariant
                cv == contours_view(cs@),
                points_bounded(cv),
                n == cs@.len(),
                0 <= i < n,
                cn == cv[i as int].len(),
                c@ == cv[i as int],
                0 <= j <= cn,
                !seen ==> minx == 0 && maxx == 0 && miny == 0 && maxy == 0,
                !seen ==> (forall|a: int| 0 <= a < i ==> (#[trigger] cv[a]).len() == 0) && j == 0,
                seen ==> (exists|a: int| 0 <= a < i && (#[trigger] cv[a]).len() > 0) || j > 0,
                seen ==> -0x8000_0000 <= minx <= maxx <= 0x8000_0000 && -0x8000_0000 <= miny
                    <= maxy <= 0x8000_0000,
                seen ==> forall|a: int, jj: int|
                    0 <= a < i && 0 <= jj < cv[a].len() ==> minx <= (#[trigger] cv[a][jj]).0 <= maxx
                        && miny <= cv[a][jj].1 <= maxy,
                seen ==> forall|jj: int|
                    0 <= jj < j ==> minx <= (#[trigger] cv[i as int][jj]).0 <= maxx && miny
                        <= cv[i as int][jj].1 <= maxy,
            decreases cn - j,
        {
            let p = c[j];
            if !seen {
                seen = true;
                minx = p.0;
                maxx = p.0;
                miny = p.1;
                maxy = p.1;
            } else {
                if p.0 < minx {
                    minx = p.0;
                }
                if p.0 > maxx {
                    maxx = p.0;
                }
                if p.1 < miny {
                    miny = p.1;
                }
                if p.1 > maxy {
                    maxy = p.1;
                }
            }
            j += 1;
        }
        i += 1;
    }
    if !seen {
        proof {
            assert(!has_points(cv));
        }
        return (0, 0, 0, 0);
    }
    let bx = floor_div256(minx);
    let ty = floor_div256(miny);
    let bx2 = floor_div256(maxx);
    let ty2 = floor_div256(maxy);
    let w = bx2 - bx + 1;
    let h = ty2 - ty + 1;
    proof {
        vstd::arithmetic::div_mod::lemma_fundamental_div_mod(minx as int, 256);
        vstd::arithmetic::div_mod::lemma_fundamental_div_mod(maxx as int, 256);
        vstd::arithmetic::div_mod::lemma_fundamental_div_mod(miny as int, 256);
        vstd::arithmetic::div_mod::lemma_fundamental_div_mod(maxy as int, 256);
        vstd::arithmetic::div_mod::lemma_mod_bound(minx as int, 256);
        vstd::arithmetic::div_mod::lemma_mod_bound(maxx as int, 256);
        vstd::arithmetic::div_mod::lemma_mod_bound(miny as int, 256);
        vstd::arithmetic::div_mod::lemma_mod_bound(maxy as int, 256);
        vstd::arithmetic::div_mod::lemma_div_is_ordered(minx as int, maxx as int, 256);
        vstd::arithmetic::div_mod::lemma_div_is_ordered(miny as int, maxy as int, 256);
        vstd::arithmetic::div_mod::lemma_div_is_ordered(-0x8000_0000, minx as int, 256);
        vstd::arithmetic::div_mod::lemma_div_is_ordered(minx as int, 0x8000_0000, 256);
        vstd::arithmetic::div_mod::lemma_div_is_ordered(-0x8000_0000, miny as int, 256);
        vstd::arithmetic::div_mod::lemma_div_is_ordered(miny as int, 0x8000_0000, 256);
        vstd::arithmetic::div_mod::lemma_div_is_ordered(maxx as int, 0x8000_0000, 256);
        vstd::arithmetic::div_mod::lemma_div_is_ordered(maxy as int, 0x8000_0000, 256);
    }
    (bx, ty, w, h)
}


/// Two row-major pixel positions with equal flat indices are the same.
proof fn lemma_cov_unique(w: int, y1: int, x1: int, y2: int, x2: int)
    requires
        w > 0,
        0 <= x1 < w,
        0 <= x2 < w,
        0 <= y1,
        0 <= y2,
        y1 * w + x1 == y2 * w + x2,
    ensures
        y1 == y2,
        x1 == x2,
{
    vstd::arithmetic::div_mod::lemma_fundamental_div_mod_converse(y1 * w + x1, w, y1, x1);
    vstd::arithmetic::div_mod::lemma_fundamental_div_mod_converse(y2 * w + x2, w, y2, x2);
}

/// Rasterizes the coverage bitmap of a pixel box: byte `gy*w + gx` is
/// 255 exactly when the center of pixel `(bx+gx, ty+gy)` lies inside the
/// outline by the even-odd rule, else 0.
fn coverage_bitmap(cs: &Vec<Vec<FixPoint>>, bx: i64, ty: i64, w: i64, h: i64) -> (data: Vec<u8>)
    requires
        points_bounded(contours_view(cs@)),
        cs@.len() <= 0xffff_ffff,
        forall|i: int| 0 <= i < cs@.len() ==> (#[trigger] cs@[i])@.len() <= 0xffff_ffff,
        -0x80_0000 <= bx <= 0x80_0000,
        -0x80_0000 <= ty <= 0x80_0000,
        0 <= w <= 0x100_0001,
        0 <= h <= 0x100_0001,
    ensures
        data@.len() == w * h,
        forall|gx: int, gy: int|
            0 <= gx < w && 0 <= gy < h ==> #[trigger] data@[gy * w + gx] == (if pixel_covered(
                contours_view(cs@),
                bx + gx,
                ty + gy,
            ) {
                255u8
            } else {
                0u8
            }),
{
    let ghost cv = contours_view(cs@);
    let mut data: Vec<u8> = Vec::new();
    let mut gy: i64 = 0;
    proof {
        assert(0int * w == 0) by (nonlinear_arith);
    }
    while gy < h
        invariant
            cv == contours_view(cs@),
            points_bounded(cv),
            cs@.len() <= 0xffff_ffff,
            forall|i: int| 0 <= i < cs@.len() ==> (#[trigger] cs@[i])@.len() <= 0xffff_ffff,
            -0x80_0000 <= bx <= 0x80_0000,
            -0x80_0000 <= ty <= 0x80_0000,
            0 <= w <= 0x100_0001,
            0 <= h <= 0x100_0001,
            0 <= gy <= h,
            data@.len() == gy * w,
            forall|ax: int, ay: int|
                0 <= ax < w && 0 <= ay < gy ==> #[trigger] data@[ay * w + ax] == (if pixel_covered(
                    cv,
                    bx + ax,
                    ty + ay,
                ) {
                    255u8
                } else {
                    0u8
                }),
        decreases h - gy,
    {
        let ys: i64 = 256 * (ty + gy) + 128;
        let mut gx: i64 = 0;
        proof {
            assert(gy * w + 0 == gy * w) by (nonlinear_arith);
        }
        while gx < w
            invariant
                cv == contours_view(cs@),
                points_bounded(cv),
                cs@.len() <= 0xffff_ffff,
                forall|i: int| 0 <= i < cs@.len() ==> (#[trigger] cs@[i])@.len() <= 0xffff_ffff,
                -0x80_0000 <= bx <= 0x80_0000,
                -0x80_0000 <= ty <= 0x80_0000,
                0 <= w <= 0x100_0001,
                0 <= h <= 0x100_0001,
                0 <= gy < h,
                0 <= gx <= w,
                ys == 256 * (ty + gy) + 128,
                data@.len() == gy * w + gx,
                forall|ax: int, ay: int|
                    0 <= ax < w && 0 <= ay < h && (ay < gy || (ay == gy && ax < gx))
                        ==> #[trigger] data@[ay * w + ax] == (if pixel_covered(
                        cv,
                        bx + ax,
                        ty + ay,
                    ) {
                        255u8
                    } else {
                        0u8
                    }),
            decreases w - gx,
        {
            let xs: i64 = 256 * (bx + gx) + 128;
            let cnt = contours_hits_exec(cs, ys, xs);
            let byte: u8 = if cnt % 2 == 1 {
                255
            } else {
                0
            };
            let ghost len0 = data@.len();
            proof {
                assert(byte == (if pixel_covered(cv, bx + gx, ty + gy) {
                    255u8
                } else {
                    0u8
                }));
            }
            data.push(byte);
            proof {
                assert forall|ax: int, ay: int|
                    0 <= ax < w && 0 <= ay < h && (ay < gy || (ay == gy && ax < gx + 1)) implies
                    #[trigger] data@[ay * w + ax] == (if pixel_covered(cv, bx + ax, ty + ay) {
                    255u8
                } else {
                    0u8
                }) by {
                    if ay == gy && ax == gx {
                        assert(ay * w + ax == len0);
                    } else {
                        assert(ay * w + ax < len0) by (nonlinear_arith)
                            requires
                                ay < gy || (ay == gy && ax < gx),
                                0 <= ay,
                                0 <= ax < w,
                                0 <= gx,
                                w > 0,
                                len0 == gy * w + gx,
                        ;
                    }
                }
            }
            gx += 1;
        }
        proof {
            assert(gy * w + w == (gy + 1) * w) by (nonlinear_arith);
        }
        gy += 1;
    }
    proof {
        assert(h * w == w * h) by (nonlinear_arith);
    }
    data
}

impl CachedGlyph {
    /// The pixel metrics stay within the rasterizer's working range.
    pub open spec fn bounded(self) -> bool {
        &&& self.width <= 0x100_0001
        &&& self.height <= 0x100_0001
        &&& -0x80_0001 <= self.bearing_x <= 0x80_0001
        &&& -0x80_0001 <= self.bearing_y <= 0x80_0001
    }
}

/// Rasterizes one glyph outline at a pixel size: the outline is scaled
/// by `size / upem` into fixed-point pixel space with y down, flattened,
/// and sampled at every pixel center of its bounding box with the
/// even-odd rule; coverage is binary. Bearings place the box relative to
/// the pen: `bearing_x` right of the pen, `bearing_y` above the
/// baseline. The advance is the scaled advance width, truncated.
pub fn rasterize_glyph(segments: &Vec<Segment>, upem: u32, size: u32, advance_units: i32) -> (g:
    CachedGlyph)
    requires
        segs_bounded(segments@),
        segments@.len() <= 0x100_0000,
        16 <= upem,
        1 <= size <= 4096,
        coord_ok(advance_units as int),
    ensures
        g.wf(),
        g.bounded(),
        g.advance as int == fix_div(
            scale_fix(advance_units as int, size as int, upem as int),
            256,
        ),
        ({
            let cs = flatten_contours(segments@, size as int, upem as int);
            &&& (!has_points(cs) ==> g.width == 0 && g.height == 0 && g.bearing_x == 0
                && g.bearing_y == 0)
            &&& (has_points(cs) ==> {
                &&& g.width >= 1 && g.height >= 1
                &&& forall|i: int, j: int|
                    0 <= i < cs.len() && 0 <= j < cs[i].len() ==> 256 * g.bearing_x <= (
                    #[trigger] cs[i][j]).0 < 256 * (g.bearing_x + g.width) && 256 * (
                    -g.bearing_y) <= cs[i][j].1 < 256 * (-g.bearing_y + g.height)
            })
            &&& forall|gx: int, gy: int|
                0 <= gx < g.width && 0 <= gy < g.height ==> #[trigger] g.coverage@[gy * g.width
                    + gx] == (if pixel_covered(cs, g.bearing_x + gx, -g.bearing_y + gy) {
                    255u8
                } else {
                    0u8
                })
        }),
{
    let contours = flatten_exec(segments, size, upem);
    let ghost cv = contours_view(contours@);
    let (bx, ty, w, h) = bbox_exec(&contours);
    let data = coverage_bitmap(&contours, bx, ty, w, h);
    let sfx = scale_fix_exec(advance_units, size, upem);
    let advance: i64 = if sfx >= 0 {
        sfx / 256
    } else {
        -((-sfx) / 256)
    };
    CachedGlyph {
        coverage: data,
        width: w as u32,
        height: h as u32,
        bearing_x: bx as i32,
        bearing_y: (-ty) as i32,
        advance: advance as i32,
    }
}


/// Whether cell `j` of a canvas of width `w` is a covered pixel of a
/// cached glyph composited with its pen at `(x, y)`: inside the glyph box
/// placed by the bearings, with coverage above one half.
pub open spec fn cov_cell_w(w: int, g: CachedGlyph, x: int, y: int, j: int) -> bool {
    let gx = j % w - (x + g.bearing_x);
    let gy = j / w - (y - g.bearing_y);
    &&& w > 0
    &&& 0 <= gx < g.width
    &&& 0 <= gy < g.height
    &&& g.coverage@[gy * g.width + gx] > 127
}

impl SightView {
    /// Whether cell `j` is a covered pixel of a cached glyph composited
    /// with its pen at `(x, y)`.
    pub open spec fn cov_cell(self, g: CachedGlyph, x: int, y: int, j: int) -> bool {
        cov_cell_w(self.width, g, x, y, j)
    }

    /// Compositing one cached glyph at the pen `(x, y)`: every
    /// addressable cell with coverage above one half takes the color.
    pub open spec fn cov_glyph_spec(self, g: CachedGlyph, x: int, y: int, c: Color) -> SightView {
        SightView {
            fb: Seq::new(
                self.fb.len(),
                |j: int|
                    if self.cov_cell(g, x, y, j) {
                        c.spec_to_u32()
                    } else {
                        self.fb[j]
                    },
            ),
            dirty: self.dirty || (exists|j: int|
                0 <= j < self.fb.len() && self.cov_cell(g, x, y, j)),
            ..self
        }
    }

    /// Drawing one codepoint from the cache: its glyph when cached,
    /// nothing otherwise.
    pub open spec fn cached_char_spec(
        self,
        cache: Seq<CacheEntry>,
        ch: int,
        size: int,
        x: int,
        y: int,
        c: Color,
    ) -> SightView {
        match find_entry(cache, ch, size) {
            Some(e) => self.cov_glyph_spec(e.glyph, x, y, c),
            None => self,
        }
    }

    /// Drawing the tail of a text from the cache: a newline resets the
    /// pen to `start_x` and advances one pixel-size line; any other
    /// character composites its cached glyph at the pen and advances by
    /// the glyph's advance, or is skipped entirely when uncached.
    pub open spec fn cached_text_from(
        self,
        cache: Seq<CacheEntry>,
        text: Seq<char>,
        i: int,
        start_x: int,
        penx: int,
        peny: int,
        size: int,
        c: Color,
    ) -> SightView
        decreases text.len() - i,
    {
        if i < 0 || i >= text.len() {
            self
        } else {
            let ch = text[i];
            if ch == '\n' {
                self.cached_text_from(cache, text, i + 1, start_x, start_x, peny + size, size, c)
            } else {
                self.cached_char_spec(cache, ch as int, size, penx, peny, c).cached_text_from(
                    cache,
                    text,
                    i + 1,
                    start_x,
                    penx + cached_advance(cache, ch as int, size),
                    peny,
                    size,
                    c,
                )
            }
        }
    }
}

/// The pen advance of one codepoint from the cache; an uncached
/// codepoint advances nothing.
pub open spec fn cached_advance(cache: Seq<CacheEntry>, ch: int, size: int) -> int {
    match find_entry(cache, ch, size) {
        Some(e) => e.glyph.advance as int,
        None => 0,
    }
}

impl Sight {
    /// Composites one cached glyph with its pen at `(x, y)`: every pixel
    /// with coverage above one half takes the color opaquely; others are
    /// untouched.
    pub fn draw_cached_glyph(&mut self, g: &CachedGlyph, x: i64, y: i64, color: Color)
        requires
            old(self)@.wf(),
            g.wf(),
            g.bounded(),
            -0x1000_0000_0000_0000 <= x <= 0x1000_0000_0000_0000,
            -0x1000_0000_0000_0000 <= y <= 0x1000_0000_0000_0000,
        ensures
            final(self)@.wf(),
            final(self)@ == old(self)@.cov_glyph_spec(*g, x as int, y as int, color),
    {
        let ghost v0 = self@;
        let gw = g.width;
        let gh = g.height;
        let ox = x + g.bearing_x as i64;
        let oy = y - g.bearing_y as i64;
        let mut gy: u32 = 0;
        while gy < gh
            invariant
                self@.wf(),
                self@.width == v0.width,
                self@.height == v0.height,
                self@.fb.len() == v0.fb.len(),
                v0.wf(),
                g.wf(),
                g.bounded(),
                gw == g.width,
                gh == g.height,
                ox == x as int + g.bearing_x,
                oy == y as int - g.bearing_y,
                -0x1000_0000_0000_0000 <= x <= 0x1000_0000_0000_0000,
                -0x1000_0000_0000_0000 <= y <= 0x1000_0000_0000_0000,
                0 <= gy <= gh,
                self@.dirty == (v0.dirty || (exists|j: int|
                    0 <= j < v0.fb.len() && v0.cov_cell(*g, x as int, y as int, j) && v0.cell_y(j)
                        - oy < gy)),
                forall|j: int|
                    0 <= j < v0.fb.len() ==> self@.fb[j] == (if v0.cov_cell(*g, x as int, y as int, j)
                        && v0.cell_y(j) - oy < gy {
                        color.spec_to_u32()
                    } else {
                        v0.fb[j]
                    }),
            decreases gh - gy,
        {
            let mut gx: u32 = 0;
            while gx < gw
                invariant
                    self@.wf(),
                    self@.width == v0.width,
                    self@.height == v0.height,
                    self@.fb.len() == v0.fb.len(),
                    v0.wf(),
                    g.wf(),
                    g.bounded(),
                    gw == g.width,
                    gh == g.height,
                    ox == x as int + g.bearing_x,
                    oy == y as int - g.bearing_y,
                    -0x1000_0000_0000_0000 <= x <= 0x1000_0000_0000_0000,
                    -0x1000_0000_0000_0000 <= y <= 0x1000_0000_0000_0000,
                    0 <= gy < gh,
                    0 <= gx <= gw,
                    self@.dirty == (v0.dirty || (exists|j: int|
                        0 <= j < v0.fb.len() && v0.cov_cell(*g, x as int, y as int, j) && (
                        v0.cell_y(j) - oy < gy || (v0.cell_y(j) - oy == gy && v0.cell_x(j) - ox
                            < gx)))),
                    forall|j: int|
                        0 <= j < v0.fb.len() ==> self@.fb[j] == (if v0.cov_cell(
                            *g,
                            x as int,
                            y as int,
                            j,
                        ) && (v0.cell_y(j) - oy < gy || (v0.cell_y(j) - oy == gy && v0.cell_x(j)
                            - ox < gx)) {
                            color.spec_to_u32()
                        } else {
                            v0.fb[j]
                        }),
                decreases gw - gx,
            {
                let clen = g.coverage.len();
                proof {
                    assert(0 <= (gy as int) * (gw as int) + (gx as int) && (gy as int) * (
                    gw as int) + (gx as int) < (gw as int) * (gh as int)) by (nonlinear_arith)
                        requires
                            0 <= (gx as int) < (gw as int),
                            0 <= (gy as int) < (gh as int),
                    ;
                    assert(clen == (gw as int) * (gh as int));
                }
                let ci = (gy as u64 * gw as u64 + gx as u64) as usize;
                let cov = g.coverage[ci];
                if cov > 127 {
                    self.put_pixel_w(ox + gx as i64, oy + gy as i64, color);
                }
                proof {
                    let px = ox as int + gx;
                    let py = oy as int + gy;
                    if v0.in_bounds(px, py) && cov > 127 {
                        crate::sight::lemma_idx_in_range(v0, px, py);
                        crate::sight::lemma_idx_decompose(v0, px, py);
                        let j0 = v0.idx(px, py);
                        assert(0 <= j0 < v0.fb.len() && v0.cov_cell(*g, x as int, y as int, j0)
                            && v0.cell_y(j0) - oy == gy && v0.cell_x(j0) - ox < gx + 1);
                    }
                    assert forall|j: int| 0 <= j < v0.fb.len() implies self@.fb[j] == (if
                        v0.cov_cell(*g, x as int, y as int, j) && (v0.cell_y(j) - oy < gy || (
                        v0.cell_y(j) - oy == gy && v0.cell_x(j) - ox < gx + 1)) {
                        color.spec_to_u32()
                    } else {
                        v0.fb[j]
                    }) by {
                        crate::sight::lemma_cell_decompose(v0, j);
                    }
                    if !(v0.in_bounds(px, py) && cov > 127) {
                        assert forall|j: int| 0 <= j < v0.fb.len() implies (v0.cov_cell(
                            *g,
                            x as int,
                            y as int,
                            j,
                        ) && (v0.cell_y(j) - oy < gy || (v0.cell_y(j) - oy == gy && v0.cell_x(j)
                            - ox < gx + 1))) == (v0.cov_cell(*g, x as int, y as int, j) && (
                        v0.cell_y(j) - oy < gy || (v0.cell_y(j) - oy == gy && v0.cell_x(j) - ox
                            < gx))) by {
                            crate::sight::lemma_cell_decompose(v0, j);
                        }
                    }
                }
                gx += 1;
            }
            gy += 1;
        }
        proof {
            assert(self@.fb =~= v0.cov_glyph_spec(*g, x as int, y as int, color).fb);
        }
    }
}

/// Whether every glyph of a cache keeps the rasterizer's metric range.
pub open spec fn cache_bounded(cache: Seq<CacheEntry>) -> bool {
    forall|i: int|
        0 <= i < cache.len() ==> (#[trigger] cache[i]).glyph.wf() && cache[i].glyph.bounded()
            && -0x100_0000 <= cache[i].glyph.advance <= 0x100_0000
}

/// A found entry keeps the cache's bounds.
pub proof fn lemma_find_entry_bounded(cache: Seq<CacheEntry>, ch: int, size: int)
    requires
        cache_bounded(cache),
    ensures
        match find_entry(cache, ch, size) {
            Some(e) => e.glyph.wf() && e.glyph.bounded() && -0x100_0000 <= e.glyph.advance
                <= 0x100_0000,
            None => true,
        },
    decreases cache.len(),
{
    if cache.len() > 0 && !(cache[0].ch == ch && cache[0].size == size) {
        assert forall|i: int|
            0 <= i < cache.drop_first().len() implies (#[trigger] cache.drop_first()[i]).glyph.wf()
            && cache.drop_first()[i].glyph.bounded() && -0x100_0000
            <= cache.drop_first()[i].glyph.advance <= 0x100_0000 by {
            assert(cache.drop_first()[i] == cache[i + 1]);
        }
        lemma_find_entry_bounded(cache.drop_first(), ch, size);
    }
}

impl GlyphCache {
    /// Whether every cached glyph keeps the rasterizer's metric range.
    pub open spec fn all_bounded(self) -> bool {
        cache_bounded(self.entries@)
    }
}

impl Sight {
    /// Draws a text from the glyph cache with the pen starting at
    /// `(x, y)`: a newline resets the pen x and advances y by the pixel
    /// size; every other character composites its cached glyph and
    /// advances the pen by the glyph's advance; characters with no cached
    /// glyph are skipped.
    pub fn draw_text_cached(
        &mut self,
        cache: &GlyphCache,
        text: &str,
        x: i32,
        y: i32,
        size: u32,
        color: Color,
    )
        requires
            old(self)@.wf(),
            cache.all_bounded(),
            text@.len() <= 0x2000_0000,
            size <= 4096,
        ensures
            final(self)@.wf(),
            final(self)@ == old(self)@.cached_text_from(
                cache.entries@,
                text@,
                0,
                x as int,
                x as int,
                y as int,
                size as int,
                color,
            ),
    {
        let ghost v0 = self@;
        let ghost ce = cache.entries@;
        let n = text.unicode_len();
        let mut penx: i64 = x as i64;
        let mut peny: i64 = y as i64;
        let mut i: usize = 0;
        while i < n
            invariant
                self@.wf(),
                v0.wf(),
                ce == cache.entries@,
                cache.all_bounded(),
                n == text@.len(),
                n <= 0x2000_0000,
                size <= 4096,
                0 <= i <= n,
                -0x8000_0000 - (i as int) * 0x100_0000 <= penx <= 0x8000_0000 + (i as int)
                    * 0x100_0000,
                -0x8000_0000 <= peny <= 0x8000_0000 + (i as int) * 0x1_0000,
                self@.cached_text_from(
                    ce,
                    text@,
                    i as int,
                    x as int,
                    penx as int,
                    peny as int,
                    size as int,
                    color,
                ) == v0.cached_text_from(
                    ce,
                    text@,
                    0,
                    x as int,
                    x as int,
                    y as int,
                    size as int,
                    color,
                ),
            decreases n - i,
        {
            let ch = text.get_char(i);
            if ch == '\n' {
                penx = x as i64;
                peny = peny + size as i64;
            } else {
                proof {
                    lemma_find_entry_bounded(ce, ch as int, size as int);
                }
                match cache.get(ch as u32, size) {
                    Some(g) => {
                        let adv = g.advance;
                        self.draw_cached_glyph(g, penx, peny, color);
                        penx = penx + adv as i64;
                    },
                    None => {},
                }
            }
            i += 1;
        }
        proof {
            assert(self@.cached_text_from(
                ce,
                text@,
                n as int,
                x as int,
                penx as int,
                peny as int,
                size as int,
                color,
            ) == self@);
        }
    }
}

/// The codepoints of a text's tail that have no cached glyph at the
/// pixel size, newlines excluded, in text order.
pub open spec fn missing_from(
    cache: Seq<CacheEntry>,
    text: Seq<char>,
    size: int,
    i: int,
) -> Seq<u32>
    decreases text.len() - i,
{
    if i < 0 || i >= text.len() {
        Seq::empty()
    } else {
        let rest = missing_from(cache, text, size, i + 1);
        if text[i] != '\n' && find_entry(cache, text[i] as int, size) is None {
            seq![text[i] as u32] + rest
        } else {
            rest
        }
    }
}

/// The codepoints of a text that still need rasterizing before the text
/// can draw fully from the cache.
pub fn missing_glyphs(cache: &GlyphCache, text: &str, size: u32) -> (r: Vec<u32>)
    ensures
        r@ == missing_from(cache.entries@, text@, size as int, 0),
{
    let ghost ce = cache.entries@;
    let ghost target = missing_from(ce, text@, size as int, 0);
    let n = text.unicode_len();
    let mut out: Vec<u32> = Vec::new();
    let mut i: usize = 0;
    while i < n
        invariant
            ce == cache.entries@,
            target == missing_from(ce, text@, size as int, 0),
            n == text@.len(),
            0 <= i <= n,
            target == out@ + missing_from(ce, text@, size as int, i as int),
        decreases n - i,
    {
        let ch = text.get_char(i);
        if ch != '\n' && cache.get(ch as u32, size).is_none() {
            out.push(ch as u32);
            proof {
                assert(out@ + missing_from(ce, text@, size as int, i + 1) =~= target);
            }
        }
        i += 1;
    }
    proof {
        assert(out@ =~= target);
    }
    out
}

/// The width of the widest cached text line from index `i` on.
pub open spec fn cached_width_from(
    cache: Seq<CacheEntry>,
    text: Seq<char>,
    size: int,
    i: int,
    cur: int,
    maxw: int,
) -> int
    decreases text.len() - i,
{
    if i < 0 || i >= text.len() {
        if cur > maxw {
            cur
        } else {
            maxw
        }
    } else if text[i] == '\n' {
        cached_width_from(cache, text, size, i + 1, 0, if cur > maxw {
            cur
        } else {
            maxw
        })
    } else {
        cached_width_from(
            cache,
            text,
            size,
            i + 1,
            cur + cached_advance(cache, text[i] as int, size),
            maxw,
        )
    }
}

/// The width of the widest line of a text, summing cached advances; an
/// uncached character contributes nothing, as drawing skips it.
pub fn text_width_cached(cache: &GlyphCache, text: &str, size: u32) -> (w: i64)
    requires
        cache.all_bounded(),
        text@.len() <= 0x2000_0000,
    ensures
        w as int == cached_width_from(cache.entries@, text@, size as int, 0, 0, 0),
{
    let ghost ce = cache.entries@;
    let n = text.unicode_len();
    let mut cur: i64 = 0;
    let mut maxw: i64 = 0;
    let mut i: usize = 0;
    while i < n
        invariant
            ce == cache.entries@,
            cache.all_bounded(),
            n == text@.len(),
            n <= 0x2000_0000,
            0 <= i <= n,
            -((i as int) * 0x100_0000) <= cur <= (i as int) * 0x100_0000,
            -((i as int) * 0x100_0000) <= maxw <= (i as int) * 0x100_0000,
            cached_width_from(ce, text@, size as int, i as int, cur as int, maxw as int)
                == cached_width_from(ce, text@, size as int, 0, 0, 0),
        decreases n - i,
    {
        let ch = text.get_char(i);
        if ch == '\n' {
            if cur > maxw {
                maxw = cur;
            }
            cur = 0;
        } else {
            proof {
                lemma_find_entry_bounded(ce, ch as int, size as int);
            }
            let adv: i64 = match cache.get(ch as u32, size) {
                Some(g) => g.advance as i64,
                None => 0,
            };
            proof {
                assert(adv as int == cached_advance(ce, ch as int, size as int));
            }
            cur = cur + adv;
        }
        i += 1;
    }
    if cur > maxw {
        maxw = cur;
    }
    maxw
}

/// A text whose every non-newline character is cached has nothing left
/// to rasterize: drawing it twice fills the cache once, on the first
/// pass.
pub proof fn lemma_missing_empty(cache: Seq<CacheEntry>, text: Seq<char>, size: int, i: int)
    requires
        forall|k: int|
            i <= k < text.len() ==> text[k] == '\n' || find_entry(
                cache,
                #[trigger] text[k] as int,
                size,
            ) is Some,
    ensures
        missing_from(cache, text, size, i).len() == 0,
    decreases text.len() - i,
{
    if 0 <= i && i < text.len() {
        lemma_missing_empty(cache, text, size, i + 1);
    }
}


/// Whether cell `j` of a canvas of width `vw` lies under some cached
/// glyph of the text tail laid out from the pen `(penx, peny)`.
pub open spec fn text_cov(
    cache: Seq<CacheEntry>,
    text: Seq<char>,
    i: int,
    start_x: int,
    penx: int,
    peny: int,
    size: int,
    vw: int,
    j: int,
) -> bool
    decreases text.len() - i,
{
    if i < 0 || i >= text.len() {
        false
    } else if text[i] == '\n' {
        text_cov(cache, text, i + 1, start_x, start_x, peny + size, size, vw, j)
    } else {
        let hit = match find_entry(cache, text[i] as int, size) {
            Some(e) => cov_cell_w(vw, e.glyph, penx, peny, j),
            None => false,
        };
        hit || text_cov(
            cache,
            text,
            i + 1,
            start_x,
            penx + cached_advance(cache, text[i] as int, size),
            peny,
            size,
            vw,
            j,
        )
    }
}

/// Drawing a cached text writes exactly the cells under its glyphs: each
/// covered cell takes the color's packed form, every other cell keeps
/// its value, and dirty is set exactly when some covered cell exists.
pub proof fn lemma_cached_text_characterize(
    v: SightView,
    cache: Seq<CacheEntry>,
    text: Seq<char>,
    i: int,
    sx: int,
    px: int,
    py: int,
    size: int,
    c: Color,
)
    ensures
        ({
            let r = v.cached_text_from(cache, text, i, sx, px, py, size, c);
            &&& r.width == v.width
            &&& r.height == v.height
            &&& r.fb.len() == v.fb.len()
            &&& (forall|j: int|
                0 <= j < v.fb.len() ==> r.fb[j] == (if text_cov(
                    cache,
                    text,
                    i,
                    sx,
                    px,
                    py,
                    size,
                    v.width,
                    j,
                ) {
                    c.spec_to_u32()
                } else {
                    v.fb[j]
                }))
            &&& r.dirty == (v.dirty || (exists|j: int|
                0 <= j < v.fb.len() && text_cov(cache, text, i, sx, px, py, size, v.width, j)))
        }),
    decreases text.len() - i,
{
    let r = v.cached_text_from(cache, text, i, sx, px, py, size, c);
    if i < 0 || i >= text.len() {
        assert(r == v);
        assert(!(exists|j: int|
            0 <= j < v.fb.len() && text_cov(cache, text, i, sx, px, py, size, v.width, j)));
    } else if text[i] == '\n' {
        let i2 = i + 1;
        let py2 = py + size;
        lemma_cached_text_characterize(v, cache, text, i2, sx, sx, py2, size, c);
        assert forall|j: int| 0 <= j < v.fb.len() implies text_cov(
            cache,
            text,
            i,
            sx,
            px,
            py,
            size,
            v.width,
            j,
        ) == text_cov(cache, text, i2, sx, sx, py2, size, v.width, j) by {}
        let efull = (exists|j: int|
            0 <= j < v.fb.len() && text_cov(cache, text, i, sx, px, py, size, v.width, j));
        let etail = (exists|j: int|
            0 <= j < v.fb.len() && text_cov(cache, text, i2, sx, sx, py2, size, v.width, j));
        assert(efull == etail) by {
            if efull {
                let j = choose|j: int|
                    0 <= j < v.fb.len() && text_cov(cache, text, i, sx, px, py, size, v.width, j);
                assert(text_cov(cache, text, i2, sx, sx, py2, size, v.width, j));
            }
            if etail {
                let j = choose|j: int|
                    0 <= j < v.fb.len() && text_cov(cache, text, i2, sx, sx, py2, size, v.width, j);
                assert(text_cov(cache, text, i, sx, px, py, size, v.width, j));
            }
        }
    } else {
        let ch = text[i] as int;
        let w = v.cached_char_spec(cache, ch, size, px, py, c);
        let px2 = px + cached_advance(cache, ch, size);
        let i2 = i + 1;
        assert(w.width == v.width && w.height == v.height && w.fb.len() == v.fb.len());
        lemma_cached_text_characterize(w, cache, text, i2, sx, px2, py, size, c);
        assert forall|j: int| 0 <= j < v.fb.len() implies r.fb[j] == (if text_cov(
            cache,
            text,
            i,
            sx,
            px,
            py,
            size,
            v.width,
            j,
        ) {
            c.spec_to_u32()
        } else {
            v.fb[j]
        }) by {
            let hit = match find_entry(cache, ch, size) {
                Some(e) => cov_cell_w(v.width, e.glyph, px, py, j),
                None => false,
            };
            assert(w.fb[j] == (if hit {
                c.spec_to_u32()
            } else {
                v.fb[j]
            }));
        }
        let etail = (exists|j: int|
            0 <= j < v.fb.len() && text_cov(cache, text, i2, sx, px2, py, size, v.width, j));
        let efull = (exists|j: int|
            0 <= j < v.fb.len() && text_cov(cache, text, i, sx, px, py, size, v.width, j));
        assert(r.dirty == (w.dirty || etail));
        match find_entry(cache, ch, size) {
            Some(e) => {
                let echar = (exists|j: int|
                    0 <= j < v.fb.len() && cov_cell_w(v.width, e.glyph, px, py, j));
                assert(w == v.cov_glyph_spec(e.glyph, px, py, c));
                assert(w.dirty == (v.dirty || echar)) by {
                    if w.dirty && !v.dirty {
                        let j = choose|j: int|
                            0 <= j < v.fb.len() && v.cov_cell(e.glyph, px, py, j);
                        assert(cov_cell_w(v.width, e.glyph, px, py, j));
                    }
                    if echar {
                        let j = choose|j: int|
                            0 <= j < v.fb.len() && cov_cell_w(v.width, e.glyph, px, py, j);
                        assert(v.cov_cell(e.glyph, px, py, j));
                    }
                }
                assert((echar || etail) == efull) by {
                    if echar {
                        let j = choose|j: int|
                            0 <= j < v.fb.len() && cov_cell_w(v.width, e.glyph, px, py, j);
                        assert(text_cov(cache, text, i, sx, px, py, size, v.width, j));
                    }
                    if etail {
                        let j = choose|j: int|
                            0 <= j < v.fb.len() && text_cov(
                                cache,
                                text,
                                i2,
                                sx,
                                px2,
                                py,
                                size,
                                v.width,
                                j,
                            );
                        assert(text_cov(cache, text, i, sx, px, py, size, v.width, j));
                    }
                    if efull {
                        let j = choose|j: int|
                            0 <= j < v.fb.len() && text_cov(
                                cache,
                                text,
                                i,
                                sx,
                                px,
                                py,
                                size,
                                v.width,
                                j,
                            );
                        assert(cov_cell_w(v.width, e.glyph, px, py, j) || text_cov(
                            cache,
                            text,
                            i2,
                            sx,
                            px2,
                            py,
                            size,
                            v.width,
                            j,
                        ));
                    }
                }
            },
            None => {
                assert(w == v);
                assert(etail == efull) by {
                    if etail {
                        let j = choose|j: int|
                            0 <= j < v.fb.len() && text_cov(
                                cache,
                                text,
                                i2,
                                sx,
                                px2,
                                py,
                                size,
                                v.width,
                                j,
                            );
                        assert(text_cov(cache, text, i, sx, px, py, size, v.width, j));
                    }
                    if efull {
                        let j = choose|j: int|
                            0 <= j < v.fb.len() && text_cov(
                                cache,
                                text,
                                i,
                                sx,
                                px,
                                py,
                                size,
                                v.width,
                                j,
                            );
                        assert(text_cov(cache, text, i2, sx, px2, py, size, v.width, j));
                    }
                }
            },
        }
    }
}

/// Drawing the same cached text twice leaves exactly the pixels of the
/// first drawing: the threshold composite writes opaquely, so a second
/// identical pass changes nothing.
pub proof fn lemma_cached_text_twice(
    v: SightView,
    cache: Seq<CacheEntry>,
    text: Seq<char>,
    x: int,
    y: int,
    size: int,
    c: Color,
)
    ensures
        ({
            let once = v.cached_text_from(cache, text, 0, x, x, y, size, c);
            once.cached_text_from(cache, text, 0, x, x, y, size, c) == once
        }),
{
    let once = v.cached_text_from(cache, text, 0, x, x, y, size, c);
    let twice = once.cached_text_from(cache, text, 0, x, x, y, size, c);
    lemma_cached_text_characterize(v, cache, text, 0, x, x, y, size, c);
    lemma_cached_text_characterize(once, cache, text, 0, x, x, y, size, c);
    assert(twice.fb =~= once.fb);
    assert(twice.dirty == once.dirty) by {
        if once.dirty && !v.dirty {
            let j = choose|j: int|
                0 <= j < v.fb.len() && text_cov(cache, text, 0, x, x, y, size, v.width, j);
            assert(0 <= j < once.fb.len() && text_cov(
                cache,
                text,
                0,
                x,
                x,
                y,
                size,
                once.width,
                j,
            ));
        }
    }
}

} // verus!
