//! RGBA colors and the arithmetic the engine does on them: channel-sum
//! color distance, "over" alpha compositing, and the nonlinear mapping from
//! the 0-100 tolerance setting to a channel-sum distance bound.

use vstd::prelude::*;

verus! {

/// One pixel: red, green, blue and alpha, eight bits each.
#[derive(Clone, Copy, PartialEq, Eq, Structural, Debug)]
pub struct Rgba {
    pub r: u8,
    pub g: u8,
    pub b: u8,
    pub a: u8,
}

impl Rgba {
    /// The all-zero color: fully transparent black.
    pub open spec fn spec_transparent() -> Rgba {
        Rgba { r: 0, g: 0, b: 0, a: 0 }
    }

    /// Fully transparent black, the initial content of every buffer.
    pub fn transparent() -> (c: Rgba)
        ensures
            c == Rgba::spec_transparent(),
    {
        Rgba { r: 0, g: 0, b: 0, a: 0 }
    }

    /// A color whose alpha channel is at its maximum covers whatever lies
    /// below it when composited.
    pub open spec fn is_opaque(self) -> bool {
        self.a == 255
    }
}

/// Distance of two channel values: their absolute difference.
pub open spec fn channel_dist(x: u8, y: u8) -> int {
    if x >= y {
        x - y
    } else {
        y - x
    }
}

/// Distance of two colors: the sum of the four channel differences,
/// between 0 and 1020.
pub open spec fn color_dist(a: Rgba, b: Rgba) -> int {
    channel_dist(a.r, b.r) + channel_dist(a.g, b.g) + channel_dist(a.b, b.b) + channel_dist(
        a.a,
        b.a,
    )
}

/// Absolute difference of two channel values.
fn channel_diff(x: u8, y: u8) -> (d: u8)
    ensures
        d == channel_dist(x, y),
{
    if x >= y {
        x - y
    } else {
        y - x
    }
}

/// The channel-sum distance of two colors, used by the fill algorithms to
/// decide whether a pixel counts as "the same color".
pub fn compare_colors(color_a: Rgba, color_b: Rgba) -> (d: u16)
    ensures
        d == color_dist(color_a, color_b),
        d <= 1020,
{
    let dr = channel_diff(color_a.r, color_b.r) as u16;
    let dg = channel_diff(color_a.g, color_b.g) as u16;
    let db = channel_diff(color_a.b, color_b.b) as u16;
    let da = channel_diff(color_a.a, color_b.a) as u16;
    dr + dg + db + da
}

/// One channel of the "over" operator on 0-255 channel values: the top
/// channel plus the bottom channel weighted by what the top alpha lets
/// through, capped at 255. This is `min(top + (1 - top_a) * bottom, 1)`
/// over channels normalized to 0-1, carried out over 0-255 integers with
/// the weight rounded down.
pub open spec fn overlay_channel(top_c: int, top_a: int, bot_c: int) -> int {
    let v = top_c + ((255 - top_a) * bot_c) / 255;
    if v > 255 {
        255
    } else {
        v
    }
}

/// The "over" operator on whole colors: each color channel and the alpha
/// channel are composited the same way.
pub open spec fn overlay_spec(top: Rgba, bottom: Rgba) -> Rgba {
    Rgba {
        r: overlay_channel(top.r as int, top.a as int, bottom.r as int) as u8,
        g: overlay_channel(top.g as int, top.a as int, bottom.g as int) as u8,
        b: overlay_channel(top.b as int, top.a as int, bottom.b as int) as u8,
        a: overlay_channel(top.a as int, top.a as int, bottom.a as int) as u8,
    }
}

/// One channel of the executable "over" operator.
fn overlay_channel_exec(top_c: u8, top_a: u8, bot_c: u8) -> (r: u8)
    ensures
        r == overlay_channel(top_c as int, top_a as int, bot_c as int),
{
    proof {
        assert((255 - top_a as u32) * (bot_c as u32) <= 255 * 255) by (nonlinear_arith)
            requires
                top_a <= 255,
                bot_c <= 255,
        ;
    }
    let v: u32 = top_c as u32 + ((255 - top_a as u32) * bot_c as u32) / 255;
    if v > 255 {
        255
    } else {
        v as u8
    }
}

/// Composites `c1` over `c2` with the "over" operator.
pub fn overlay_colors(c1: Rgba, c2: Rgba) -> (r: Rgba)
    ensures
        r == overlay_spec(c1, c2),
{
    Rgba {
        r: overlay_channel_exec(c1.r, c1.a, c2.r),
        g: overlay_channel_exec(c1.g, c1.a, c2.g),
        b: overlay_channel_exec(c1.b, c1.a, c2.b),
        a: overlay_channel_exec(c1.a, c1.a, c2.a),
    }
}

/// An opaque top color covers the bottom color completely.
pub proof fn lemma_overlay_opaque(top: Rgba, bottom: Rgba)
    requires
        top.is_opaque(),
    ensures
        overlay_spec(top, bottom) == top,
{
    assert((255 - top.a as int) * (bottom.r as int) == 0) by (nonlinear_arith)
        requires
            top.a == 255,
    ;
    assert((255 - top.a as int) * (bottom.g as int) == 0) by (nonlinear_arith)
        requires
            top.a == 255,
    ;
    assert((255 - top.a as int) * (bottom.b as int) == 0) by (nonlinear_arith)
        requires
            top.a == 255,
    ;
    assert((255 - top.a as int) * (bottom.a as int) == 0) by (nonlinear_arith)
        requires
            top.a == 255,
    ;
    assert(overlay_channel(top.r as int, top.a as int, bottom.r as int) == top.r as int);
    assert(overlay_channel(top.g as int, top.a as int, bottom.g as int) == top.g as int);
    assert(overlay_channel(top.b as int, top.a as int, bottom.b as int) == top.b as int);
    assert(overlay_channel(top.a as int, top.a as int, bottom.a as int) == top.a as int);
}

/// A fully transparent top color leaves the bottom color as it is.
pub proof fn lemma_overlay_transparent(top: Rgba, bottom: Rgba)
    requires
        top == Rgba::spec_transparent(),
    ensures
        overlay_spec(top, bottom) == bottom,
{
}

/// The growth curve behind the tolerance mapping: a fixed-point
/// approximation of 1.04 to the n-th power, scaled by 2^20, each step
/// multiplying by 26/25 with the remainder dropped. The cap at 2^27 keeps
/// the recurrence trivially bounded; for every exponent up to 100 the value
/// stays far below the cap, so the cap never bites on inputs the slider
/// can produce.
pub open spec fn growth_scaled(n: nat) -> int
    decreases n,
{
    if n == 0 {
        0x100000
    } else {
        let p = growth_scaled((n - 1) as nat);
        if p > 0x8000000 {
            p
        } else {
            (p * 26) / 25
        }
    }
}

/// What the 0-100 tolerance setting means as a 0-1020 channel-sum distance
/// bound: zero demands an exact match; a positive setting n maps to
/// `1.04^n * n / 4` rounded down, computed in the fixed point of
/// `growth_scaled`.
pub open spec fn tolerance_spec(n: nat) -> int {
    if n == 0 {
        0
    } else {
        (growth_scaled(n) * (n as int)) / 0x400000int
    }
}

/// Maps the tolerance setting the user picks (0 to 100) to the distance
/// bound the fill algorithms compare against. A setting of zero means
/// exact-match-only; the curve itself is not defined there, so zero is
/// answered directly rather than fed to it.
pub fn map_tolerance(input: u8) -> (t: u16)
    requires
        input <= 100,
    ensures
        t == tolerance_spec(input as nat),
{
    if input == 0 {
        return 0;
    }
    let mut scaled: u64 = 0x100000;
    let mut i: u8 = 0;
    while i < input
        invariant
            i <= input,
            input <= 100,
            scaled == growth_scaled(i as nat),
            0 < scaled <= 0x8666666,
        decreases input - i,
    {
        if scaled <= 0x8000000 {
            scaled = (scaled * 26) / 25;
        }
        i = i + 1;
    }
    proof {
        assert(scaled * (input as u64) <= 0x8666666 * 100) by (nonlinear_arith)
            requires
                0 < scaled <= 0x8666666,
                0 < input <= 100,
        ;
    }
    let prod: u64 = scaled * (input as u64);
    (prod / 0x400000) as u16
}

} // verus!
