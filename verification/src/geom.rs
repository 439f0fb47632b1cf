//! Fixed-point geometry.
//!
//! Every length, coordinate and size in the tree is an `i64` counting
//! subpixel units; `SCALE` units make one whole pixel. Keeping geometry in
//! integers makes layout arithmetic, and in particular whole-pixel rounding,
//! exact and provable.

use vstd::prelude::*;

verus! {

/// Subpixel units per whole pixel.
pub const SCALE: i64 = 64;

/// Half of `SCALE`; rounding to a pixel adds this before dividing.
pub const HALF_SCALE: i64 = 32;

/// Every coordinate a cached layout stores lies in `[-COORD_LIMIT, COORD_LIMIT]`.
/// The value is a multiple of `SCALE`.
pub const COORD_LIMIT: i64 = 70368744177664;

/// A width/height pair in subpixel units.
#[derive(Clone, Copy, Debug, PartialEq, Eq, Structural)]
pub struct SizeUnits {
    pub width: i64,
    pub height: i64,
}

/// An x/y position in subpixel units.
#[derive(Clone, Copy, Debug, PartialEq, Eq, Structural)]
pub struct PointUnits {
    pub x: i64,
    pub y: i64,
}

/// Per-edge lengths in subpixel units (border, padding, margin).
#[derive(Clone, Copy, Debug, PartialEq, Eq, Structural)]
pub struct RectUnits {
    pub left: i64,
    pub right: i64,
    pub top: i64,
    pub bottom: i64,
}

/// The constraint a layout is computed under, per axis.
#[derive(Clone, Copy, Debug, PartialEq, Eq, Structural)]
pub enum AvailableSpace {
    /// A definite number of subpixel units.
    Definite(i64),
    /// Size the content as small as it can get.
    MinContent,
    /// Size the content as large as it wants to be.
    MaxContent,
}

/// The two-axis available-space constraint of a layout call; also the
/// cache-invalidation signature stored with each computed layout.
#[derive(Clone, Copy, Debug, PartialEq, Eq, Structural)]
pub struct AvailableSize {
    pub width: AvailableSpace,
    pub height: AvailableSpace,
}

impl SizeUnits {
    /// The zero size.
    pub fn zero() -> (r: SizeUnits)
        ensures
            r.width == 0 && r.height == 0,
    {
        SizeUnits { width: 0, height: 0 }
    }
}

impl RectUnits {
    /// All four edges zero.
    pub fn zero() -> (r: RectUnits)
        ensures
            r.left == 0 && r.right == 0 && r.top == 0 && r.bottom == 0,
    {
        RectUnits { left: 0, right: 0, top: 0, bottom: 0 }
    }
}

/// The number of subpixel units in `n` whole pixels.
pub open spec fn spec_px(n: int) -> int {
    n * (SCALE as int)
}

/// Converts whole pixels to subpixel units.
pub fn px(n: i64) -> (r: i64)
    requires
        -1099511627776 <= n <= 1099511627776,
    ensures
        r == spec_px(n as int),
        -COORD_LIMIT <= r <= COORD_LIMIT,
{
    proof {
        assert(-COORD_LIMIT <= n * 64 <= COORD_LIMIT) by (nonlinear_arith)
            requires -1099511627776 <= n <= 1099511627776;
    }
    n * SCALE
}

/// `v` rounded to the nearest multiple of `SCALE`, halves rounding up.
pub open spec fn round_units(v: int) -> int {
    ((v + HALF_SCALE) / (SCALE as int)) * (SCALE as int)
}

/// The rounding error never reaches half a pixel below nor exceeds half a pixel above.
pub proof fn lemma_round_error(v: int)
    ensures
        -HALF_SCALE < round_units(v) - v <= HALF_SCALE,
        round_units(v) % (SCALE as int) == 0,
{
    let s = SCALE as int;
    vstd::arithmetic::div_mod::lemma_fundamental_div_mod(v + HALF_SCALE, s);
    vstd::arithmetic::div_mod::lemma_mod_bound(v + HALF_SCALE, s);
    vstd::arithmetic::div_mod::lemma_mod_multiples_basic((v + HALF_SCALE) / s, s);
}

/// Rounding is monotone.
pub proof fn lemma_round_monotone(a: int, b: int)
    requires
        a <= b,
    ensures
        round_units(a) <= round_units(b),
{
    let s = SCALE as int;
    vstd::arithmetic::div_mod::lemma_div_is_ordered(a + HALF_SCALE, b + HALF_SCALE, s);
    assert(((a + HALF_SCALE) / s) * s <= ((b + HALF_SCALE) / s) * s) by (nonlinear_arith)
        requires (a + HALF_SCALE) / s <= (b + HALF_SCALE) / s, s > 0;
}

/// Rounding a length relative to a parent origin whose subpixel remainder is
/// `f` changes the length by strictly less than one pixel, and keeps a
/// non-negative length non-negative.
pub proof fn lemma_relative_round(f: int, v: int)
    requires
        0 <= f < SCALE,
    ensures
        -SCALE < (round_units(f + v) - round_units(f)) - v < SCALE,
        v >= 0 ==> round_units(f + v) - round_units(f) >= 0,
{
    lemma_round_error(f + v);
    lemma_round_error(f);
    if v >= 0 {
        lemma_round_monotone(f, f + v);
    }
}

/// Rounds a coordinate to the nearest whole pixel, in subpixel units.
pub fn round_to_pixel(v: i64) -> (r: i64)
    requires
        -COORD_LIMIT - SCALE <= v <= COORD_LIMIT + SCALE,
    ensures
        r == round_units(v as int),
        -COORD_LIMIT - SCALE <= r <= COORD_LIMIT + SCALE,
{
    let shifted: u64 = (v + COORD_LIMIT + HALF_SCALE + SCALE) as u64;
    let q: u64 = shifted / 64;
    let r: i64 = (q * 64) as i64 - COORD_LIMIT - SCALE;
    proof {
        let s = SCALE as int;
        let off: int = (COORD_LIMIT + SCALE) as int;
        let a = v + HALF_SCALE;
        // off is a multiple of SCALE, so the offset passes through the division.
        vstd::arithmetic::div_mod::lemma_hoist_over_denominator(a, off / s, s as nat);
        assert(off == (off / s) * s);
        assert((a + off) / s == a / s + off / s);
        assert(((a + off) / s) * s == (a / s) * s + off) by (nonlinear_arith)
            requires (a + off) / s == a / s + off / s, off == (off / s) * s, s > 0;
        lemma_round_error(v as int);
    }
    r
}

} // verus!
