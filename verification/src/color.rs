//! Packed RGBA color values with alpha blending and linear interpolation.

use vstd::prelude::*;

verus! {

/// A color with four independent 8-bit channels.
#[derive(Clone, Copy, Debug, PartialEq, Eq, Structural)]
pub struct Color {
    pub r: u8,
    pub g: u8,
    pub b: u8,
    pub a: u8,
}

impl Color {
    /// Opaque black.
    pub fn black() -> (c: Color)
        ensures
            c == (Color { r: 0u8, g: 0u8, b: 0u8, a: 255u8 }),
    {
        Color { r: 0, g: 0, b: 0, a: 255 }
    }

    /// Opaque white.
    pub fn white() -> (c: Color)
        ensures
            c == (Color { r: 255u8, g: 255u8, b: 255u8, a: 255u8 }),
    {
        Color { r: 255, g: 255, b: 255, a: 255 }
    }

    /// Opaque red.
    pub fn red() -> (c: Color)
        ensures
            c == (Color { r: 255u8, g: 0u8, b: 0u8, a: 255u8 }),
    {
        Color { r: 255, g: 0, b: 0, a: 255 }
    }

    /// Opaque green.
    pub fn green() -> (c: Color)
        ensures
            c == (Color { r: 0u8, g: 255u8, b: 0u8, a: 255u8 }),
    {
        Color { r: 0, g: 255, b: 0, a: 255 }
    }

    /// Opaque blue.
    pub fn blue() -> (c: Color)
        ensures
            c == (Color { r: 0u8, g: 0u8, b: 255u8, a: 255u8 }),
    {
        Color { r: 0, g: 0, b: 255, a: 255 }
    }

    /// Opaque yellow.
    pub fn yellow() -> (c: Color)
        ensures
            c == (Color { r: 255u8, g: 255u8, b: 0u8, a: 255u8 }),
    {
        Color { r: 255, g: 255, b: 0, a: 255 }
    }

    /// Opaque cyan.
    pub fn cyan() -> (c: Color)
        ensures
            c == (Color { r: 0u8, g: 255u8, b: 255u8, a: 255u8 }),
    {
        Color { r: 0, g: 255, b: 255, a: 255 }
    }

    /// Opaque magenta.
    pub fn magenta() -> (c: Color)
        ensures
            c == (Color { r: 255u8, g: 0u8, b: 255u8, a: 255u8 }),
    {
        Color { r: 255, g: 0, b: 255, a: 255 }
    }

    /// Opaque orange.
    pub fn orange() -> (c: Color)
        ensures
            c == (Color { r: 255u8, g: 165u8, b: 0u8, a: 255u8 }),
    {
        Color { r: 255, g: 165, b: 0, a: 255 }
    }

    /// Opaque purple.
    pub fn purple() -> (c: Color)
        ensures
            c == (Color { r: 128u8, g: 0u8, b: 128u8, a: 255u8 }),
    {
        Color { r: 128, g: 0, b: 128, a: 255 }
    }

    /// Opaque mid gray.
    pub fn gray() -> (c: Color)
        ensures
            c == (Color { r: 128u8, g: 128u8, b: 128u8, a: 255u8 }),
    {
        Color { r: 128, g: 128, b: 128, a: 255 }
    }

    /// Opaque light gray.
    pub fn light_gray() -> (c: Color)
        ensures
            c == (Color { r: 192u8, g: 192u8, b: 192u8, a: 255u8 }),
    {
        Color { r: 192, g: 192, b: 192, a: 255 }
    }

    /// Opaque dark gray.
    pub fn dark_gray() -> (c: Color)
        ensures
            c == (Color { r: 64u8, g: 64u8, b: 64u8, a: 255u8 }),
    {
        Color { r: 64, g: 64, b: 64, a: 255 }
    }

    /// Fully transparent black.
    pub fn transparent() -> (c: Color)
        ensures
            c == (Color { r: 0u8, g: 0u8, b: 0u8, a: 0u8 }),
    {
        Color { r: 0, g: 0, b: 0, a: 0 }
    }

    /// The order-fixed bit packing of a color: blue in the low byte, then
    /// green, red, and alpha in the high byte.
    pub open spec fn spec_to_u32(self) -> u32 {
        (self.b as u32 + self.g as u32 * 0x100 + self.r as u32 * 0x10000 + self.a as u32
            * 0x1000000) as u32
    }

    /// The blend of `self` over the opaque background `bg`: per-channel
    /// `(fg*a + bg*(255-a)) / 255`, fully opaque afterwards. A fully opaque
    /// source returns `self` exactly; a fully transparent one returns `bg`.
    pub open spec fn spec_blend(self, bg: Color) -> Color {
        if self.a == 255 {
            self
        } else if self.a == 0 {
            bg
        } else {
            Color {
                r: blend_channel(self.r, bg.r, self.a),
                g: blend_channel(self.g, bg.g, self.a),
                b: blend_channel(self.b, bg.b, self.a),
                a: 255,
            }
        }
    }

    /// Linear interpolation from `self` (at `num == 0`) to `other`
    /// (at `num == den`), the fraction `num / den` clamped to [0, 1].
    pub open spec fn spec_lerp(self, other: Color, num: int, den: int) -> Color {
        let n = if num > den {
            den
        } else {
            num
        };
        Color {
            r: lerp_channel(self.r, other.r, n, den),
            g: lerp_channel(self.g, other.g, n, den),
            b: lerp_channel(self.b, other.b, n, den),
            a: lerp_channel(self.a, other.a, n, den),
        }
    }

    /// A fully opaque color from its three channels.
    pub fn rgb(r: u8, g: u8, b: u8) -> (c: Color)
        ensures
            c == (Color { r, g, b, a: 255u8 }),
    {
        Color { r, g, b, a: 255 }
    }

    /// A color from all four channels.
    pub fn rgba(r: u8, g: u8, b: u8, a: u8) -> (c: Color)
        ensures
            c == (Color { r, g, b, a }),
    {
        Color { r, g, b, a }
    }

    /// Packs the color into one little-endian BGRA machine word.
    pub fn to_u32(self) -> (p: u32)
        ensures
            p == self.spec_to_u32(),
    {
        self.b as u32 + self.g as u32 * 0x100 + self.r as u32 * 0x10000 + self.a as u32
            * 0x1000000
    }

    /// Alpha-blends the color over the opaque background `bg`.
    pub fn blend(self, bg: Color) -> (c: Color)
        ensures
            c == self.spec_blend(bg),
            self.a == 255 ==> c == self,
            self.a == 0 ==> c == bg,
    {
        if self.a == 255 {
            return self;
        }
        if self.a == 0 {
            return bg;
        }
        let alpha = self.a as u32;
        let inv_alpha = 255 - alpha;
        proof {
            lemma_blend_channel_bound(self.r, bg.r, self.a);
            lemma_blend_channel_bound(self.g, bg.g, self.a);
            lemma_blend_channel_bound(self.b, bg.b, self.a);
        }
        Color {
            r: ((self.r as u32 * alpha + bg.r as u32 * inv_alpha) / 255) as u8,
            g: ((self.g as u32 * alpha + bg.g as u32 * inv_alpha) / 255) as u8,
            b: ((self.b as u32 * alpha + bg.b as u32 * inv_alpha) / 255) as u8,
            a: 255,
        }
    }

    /// Linear interpolation from `self` toward `other` by the fraction
    /// `num / den`, clamped to [0, 1]. Each channel moves toward the
    /// matching channel of `other`, reaching it exactly at `num == den`.
    pub fn lerp(self, other: Color, num: u32, den: u32) -> (c: Color)
        requires
            den > 0,
        ensures
            c == self.spec_lerp(other, num as int, den as int),
            num == 0 ==> c == self,
            num >= den ==> c == other,
    {
        let n = if num > den {
            den
        } else {
            num
        };
        let c = Color {
            r: lerp_channel_exec(self.r, other.r, n, den),
            g: lerp_channel_exec(self.g, other.g, n, den),
            b: lerp_channel_exec(self.b, other.b, n, den),
            a: lerp_channel_exec(self.a, other.a, n, den),
        };
        proof {
            if num == 0 {
                lemma_lerp_channel_ends(self.r, other.r, den as int);
                lemma_lerp_channel_ends(self.g, other.g, den as int);
                lemma_lerp_channel_ends(self.b, other.b, den as int);
                lemma_lerp_channel_ends(self.a, other.a, den as int);
            }
            if num >= den {
                lemma_lerp_channel_ends(self.r, other.r, den as int);
                lemma_lerp_channel_ends(self.g, other.g, den as int);
                lemma_lerp_channel_ends(self.b, other.b, den as int);
                lemma_lerp_channel_ends(self.a, other.a, den as int);
            }
        }
        c
    }
}

/// One channel of an alpha blend: `(fg*a + bg*(255-a)) / 255`.
pub open spec fn blend_channel(fg: u8, bg: u8, a: u8) -> u8 {
    ((fg as int * a as int + bg as int * (255 - a as int)) / 255) as u8
}

/// One channel of a linear interpolation, moving `a` toward `b` by the
/// fraction `num / den`; integer division truncates toward `a`.
pub open spec fn lerp_channel(a: u8, b: u8, num: int, den: int) -> u8 {
    if b >= a {
        (a as int + (b as int - a as int) * num / den) as u8
    } else {
        (a as int - (a as int - b as int) * num / den) as u8
    }
}

proof fn lemma_blend_channel_bound(fg: u8, bg: u8, a: u8)
    ensures
        0 <= fg as int * a as int + bg as int * (255 - a as int) <= 255 * 255,
        0 <= (fg as int * a as int + bg as int * (255 - a as int)) / 255 <= 255,
{
    assert(fg as int * a as int <= 255 * a as int) by (nonlinear_arith)
        requires
            fg <= 255,
            a >= 0,
    ;
    assert(bg as int * (255 - a as int) <= 255 * (255 - a as int)) by (nonlinear_arith)
        requires
            bg <= 255,
            a <= 255,
    ;
    assert(fg as int * a as int >= 0) by (nonlinear_arith)
        requires
            fg >= 0,
            a >= 0,
    ;
    assert(bg as int * (255 - a as int) >= 0) by (nonlinear_arith)
        requires
            bg >= 0,
            a <= 255,
    ;
}

/// The interpolated channel stays between its two endpoints.
proof fn lemma_lerp_channel_bounds(a: u8, b: u8, num: int, den: int)
    requires
        den > 0,
        0 <= num <= den,
    ensures
        b >= a ==> a as int <= a as int + (b as int - a as int) * num / den <= b as int,
        b < a ==> b as int <= a as int - (a as int - b as int) * num / den <= a as int,
{
    let d = if b >= a {
        b as int - a as int
    } else {
        a as int - b as int
    };
    assert(0 <= d * num) by (nonlinear_arith)
        requires
            d >= 0,
            num >= 0,
    ;
    assert(d * num <= d * den) by (nonlinear_arith)
        requires
            d >= 0,
            num <= den,
    ;
    vstd::arithmetic::div_mod::lemma_div_is_ordered(d * num, d * den, den);
    vstd::arithmetic::div_mod::lemma_div_by_multiple(d, den);
    vstd::arithmetic::div_mod::lemma_div_pos_is_pos(d * num, den);
}

/// At `num == 0` the interpolation returns the first endpoint; at
/// `num == den` it returns the second.
proof fn lemma_lerp_channel_ends(a: u8, b: u8, den: int)
    requires
        den > 0,
    ensures
        lerp_channel(a, b, 0, den) == a,
        lerp_channel(a, b, den, den) == b,
{
    let d = if b >= a {
        b as int - a as int
    } else {
        a as int - b as int
    };
    assert(d * 0 == 0) by (nonlinear_arith);
    vstd::arithmetic::div_mod::lemma_div_by_multiple(0, den);
    vstd::arithmetic::div_mod::lemma_div_by_multiple(d, den);
}

fn lerp_channel_exec(a: u8, b: u8, num: u32, den: u32) -> (r: u8)
    requires
        den > 0,
        num <= den,
    ensures
        r == lerp_channel(a, b, num as int, den as int),
{
    proof {
        lemma_lerp_channel_bounds(a, b, num as int, den as int);
    }
    if b >= a {
        let d = (b - a) as u64;
        assert(d * num <= 255 * 0xffff_ffffu64) by (nonlinear_arith)
            requires
                d <= 255,
                num <= 0xffff_ffffu64,
        ;
        let step = d * (num as u64) / (den as u64);
        a + (step as u8)
    } else {
        let d = (a - b) as u64;
        assert(d * num <= 255 * 0xffff_ffffu64) by (nonlinear_arith)
            requires
                d <= 255,
                num <= 0xffff_ffffu64,
        ;
        let step = d * (num as u64) / (den as u64);
        a - (step as u8)
    }
}

/// The interpolation is monotonic in the fraction, per channel: as `num`
/// grows from 0 to `den`, each channel moves from the first color's value
/// toward the second color's value without ever backing up.
pub proof fn lemma_lerp_monotonic(c1: Color, c2: Color, n1: int, n2: int, den: int)
    requires
        den > 0,
        0 <= n1 <= n2 <= den,
    ensures
        c1.r <= c2.r ==> c1.spec_lerp(c2, n1, den).r <= c1.spec_lerp(c2, n2, den).r,
        c1.r >= c2.r ==> c1.spec_lerp(c2, n1, den).r >= c1.spec_lerp(c2, n2, den).r,
        c1.g <= c2.g ==> c1.spec_lerp(c2, n1, den).g <= c1.spec_lerp(c2, n2, den).g,
        c1.g >= c2.g ==> c1.spec_lerp(c2, n1, den).g >= c1.spec_lerp(c2, n2, den).g,
        c1.b <= c2.b ==> c1.spec_lerp(c2, n1, den).b <= c1.spec_lerp(c2, n2, den).b,
        c1.b >= c2.b ==> c1.spec_lerp(c2, n1, den).b >= c1.spec_lerp(c2, n2, den).b,
        c1.a <= c2.a ==> c1.spec_lerp(c2, n1, den).a <= c1.spec_lerp(c2, n2, den).a,
        c1.a >= c2.a ==> c1.spec_lerp(c2, n1, den).a >= c1.spec_lerp(c2, n2, den).a,
{
    lemma_lerp_channel_monotonic(c1.r, c2.r, n1, n2, den);
    lemma_lerp_channel_monotonic(c1.g, c2.g, n1, n2, den);
    lemma_lerp_channel_monotonic(c1.b, c2.b, n1, n2, den);
    lemma_lerp_channel_monotonic(c1.a, c2.a, n1, n2, den);
}

proof fn lemma_lerp_channel_monotonic(a: u8, b: u8, n1: int, n2: int, den: int)
    requires
        den > 0,
        0 <= n1 <= n2 <= den,
    ensures
        b >= a ==> lerp_channel(a, b, n1, den) <= lerp_channel(a, b, n2, den),
        b <= a ==> lerp_channel(a, b, n1, den) >= lerp_channel(a, b, n2, den),
{
    let d = if b >= a {
        b as int - a as int
    } else {
        a as int - b as int
    };
    if a == b {
        assert(d == 0);
        assert(d * n1 == 0 && d * n2 == 0) by (nonlinear_arith)
            requires
                d == 0,
        ;
        vstd::arithmetic::div_mod::lemma_div_of0(den);
    }
    assert(d * n1 <= d * n2) by (nonlinear_arith)
        requires
            d >= 0,
            n1 <= n2,
    ;
    vstd::arithmetic::div_mod::lemma_div_is_ordered(d * n1, d * n2, den);
    lemma_lerp_channel_bounds(a, b, n1, den);
    lemma_lerp_channel_bounds(a, b, n2, den);
}

} // verus!
