//! The pixel-local two-strip color transform.
//!
//! The transform simulates a historical two-color photographic process: each
//! channel is compared against a weighted gray that omits that channel's own
//! luma weight, the differences are complemented, recombined, and the final
//! triple is assembled with a deliberate channel permutation (the recombined
//! green becomes the output blue).
//!
//! The arithmetic is exact. Every intermediate value of the algorithm is a
//! rational number whose denominator is fixed by its stage, so each value is
//! carried as an integer numerator at a documented denominator:
//!
//! - the luma weights are 30/100, 59/100 and 11/100;
//! - the three partial grays have denominators 70, 41 and 89 (the sums of the
//!   two weights that remain when one channel's weight is dropped);
//! - the recombined channels have denominators 41*89*256 = 934144,
//!   70*89*256 = 1594880 and 70*41*256 = 734720;
//! - the luminance of the recombined triple has denominator
//!   100*70*41*89*256 = 6539008000.
//!
//! The output channels truncate those rationals to integers, which is plain
//! integer division of a non-negative numerator by its denominator.

use vstd::prelude::*;

verus! {

/// One 8-bit RGB pixel.
#[derive(Clone, Copy, PartialEq, Eq, Structural, Debug)]
pub struct Pixel {
    pub r: u8,
    pub g: u8,
    pub b: u8,
}

/// Clamp a numerator into `[0, hi]`; with `hi` the scaled image of 255 this
/// is `clamp(v) = max(0, min(255, v))` applied to the underlying rational.
pub open spec fn clamp_num(v: int, hi: int) -> int {
    if v < 0 {
        0
    } else if v > hi {
        hi
    } else {
        v
    }
}

/// Numerator, at denominator 70, of the inverse-strip red channel
/// `r2 = 255 - clamp(r - c)`, where `c = (0.59*g + 0.11*b) / 0.70` is the
/// weighted gray that omits the red weight.
pub open spec fn strip_red(r: int, g: int, b: int) -> int {
    70 * 255 - clamp_num(70 * r - (59 * g + 11 * b), 17850)
}

/// Numerator, at denominator 41, of the inverse-strip green channel
/// `g2 = 255 - clamp(g - m)`, where `m = (0.30*r + 0.11*b) / 0.41` omits the
/// green weight.
pub open spec fn strip_green(r: int, g: int, b: int) -> int {
    41 * 255 - clamp_num(41 * g - (30 * r + 11 * b), 10455)
}

/// Numerator, at denominator 89, of the inverse-strip blue channel
/// `b2 = 255 - clamp(b - y)`, where `y = (0.30*r + 0.59*g) / 0.89` omits the
/// blue weight.
pub open spec fn strip_blue(r: int, g: int, b: int) -> int {
    89 * 255 - clamp_num(89 * b - (30 * r + 59 * g), 22695)
}

/// Numerator, at denominator 934144 = 41*89*256, of the recombined red
/// `clamp(r - (255 - g2*b2/256))`.
pub open spec fn recombined_red(r: int, g: int, b: int) -> int {
    clamp_num((r - 255) * 934144 + strip_green(r, g, b) * strip_blue(r, g, b), 238206720)
}

/// Numerator, at denominator 1594880 = 70*89*256, of the recombined green
/// `clamp(g - (255 - r2*b2/256))`.
pub open spec fn recombined_green(r: int, g: int, b: int) -> int {
    clamp_num((g - 255) * 1594880 + strip_red(r, g, b) * strip_blue(r, g, b), 406694400)
}

/// Numerator, at denominator 734720 = 70*41*256, of the recombined blue
/// `clamp(b - (255 - r2*g2/256))`.
pub open spec fn recombined_blue(r: int, g: int, b: int) -> int {
    clamp_num((b - 255) * 734720 + strip_red(r, g, b) * strip_green(r, g, b), 187353600)
}

/// Numerator, at denominator 6539008000 = 100*70*41*89*256, of the full
/// luminance `l = 0.30*r_new + 0.59*g_new + 0.11*b_new` of the recombined
/// triple.  The coefficients are 30*70, 59*41 and 11*89: each recombined
/// numerator is first brought to the common denominator 70*41*89*256.
pub open spec fn luma_num(r: int, g: int, b: int) -> int {
    2100 * recombined_red(r, g, b) + 2419 * recombined_green(r, g, b) + 979 * recombined_blue(
        r,
        g,
        b,
    )
}

/// Output red channel: the recombined red, truncated to an integer.
pub open spec fn out_red(r: int, g: int, b: int) -> int {
    recombined_red(r, g, b) / 934144
}

/// Output green channel: the clamped luminance, truncated to an integer.
pub open spec fn out_green(r: int, g: int, b: int) -> int {
    clamp_num(luma_num(r, g, b), 1667447040000) / 6539008000
}

/// Output blue channel: the recombined green, truncated to an integer — the
/// deliberate channel permutation of the simulated process.
pub open spec fn out_blue(r: int, g: int, b: int) -> int {
    recombined_green(r, g, b) / 1594880
}

/// The whole transform as a function on pixels.
pub open spec fn transform_spec(p: Pixel) -> Pixel {
    Pixel {
        r: out_red(p.r as int, p.g as int, p.b as int) as u8,
        g: out_green(p.r as int, p.g as int, p.b as int) as u8,
        b: out_blue(p.r as int, p.g as int, p.b as int) as u8,
    }
}

/// Totality: on channel values in `[0, 255]` every output channel is again
/// in `[0, 255]`, so the truncation to `u8` in `transform_spec` loses
/// nothing.
pub proof fn lemma_transform_total(r: int, g: int, b: int)
    requires
        0 <= r <= 255,
        0 <= g <= 255,
        0 <= b <= 255,
    ensures
        0 <= out_red(r, g, b) <= 255,
        0 <= out_green(r, g, b) <= 255,
        0 <= out_blue(r, g, b) <= 255,
{
    assert(0 <= recombined_red(r, g, b) <= 238206720);
    assert(0 <= recombined_green(r, g, b) <= 406694400);
    assert(0 <= recombined_blue(r, g, b) <= 187353600);
    assert(0 <= clamp_num(luma_num(r, g, b), 1667447040000) <= 1667447040000);
    lemma_quotient_in_range(recombined_red(r, g, b), 934144);
    lemma_quotient_in_range(recombined_green(r, g, b), 1594880);
    lemma_quotient_in_range(clamp_num(luma_num(r, g, b), 1667447040000), 6539008000);
}

/// A numerator in `[0, 255*d]` divides down to a value in `[0, 255]`.
proof fn lemma_quotient_in_range(v: int, d: int)
    by (nonlinear_arith)
    requires
        d > 0,
        0 <= v <= 255 * d,
    ensures
        0 <= v / d <= 255,
{
}

/// Determinism: the transform is a function of its input pixel alone, so any
/// two results computed from the same input are identical.
pub proof fn lemma_transform_deterministic(p: Pixel, q1: Pixel, q2: Pixel)
    requires
        q1 == transform_spec(p),
        q2 == transform_spec(p),
    ensures
        q1 == q2,
{
}

/// Apply the two-strip transform to one pixel.  Total over all inputs,
/// deterministic, and free of side effects.
#[verifier::rlimit(50)]
pub fn transform_pixel(p: Pixel) -> (q: Pixel)
    ensures
        q == transform_spec(p),
{
    let r = p.r as u64;
    let g = p.g as u64;
    let b = p.b as u64;

    // Inverse-strip numerators: 70*r2, 41*g2, 89*b2.
    let gray_c: u64 = 59 * g + 11 * b;
    let scaled_r: u64 = 70 * r;
    let strip_r: u64 = 17850 - (if scaled_r <= gray_c {
        0
    } else {
        scaled_r - gray_c
    });
    let gray_m: u64 = 30 * r + 11 * b;
    let scaled_g: u64 = 41 * g;
    let strip_g: u64 = 10455 - (if scaled_g <= gray_m {
        0
    } else {
        scaled_g - gray_m
    });
    let gray_y: u64 = 30 * r + 59 * g;
    let scaled_b: u64 = 89 * b;
    let strip_b: u64 = 22695 - (if scaled_b <= gray_y {
        0
    } else {
        scaled_b - gray_y
    });
    assert(strip_r as int == strip_red(r as int, g as int, b as int));
    assert(strip_g as int == strip_green(r as int, g as int, b as int));
    assert(strip_b as int == strip_blue(r as int, g as int, b as int));

    // Recombined numerators: each product of two strip numerators is the
    // numerator of g2*b2/256 (and its siblings) at the recombined
    // denominator, and subtracting the scaled deficit (255 - channel)
    // realises `channel - (255 - product)`.
    assert(strip_g * strip_b <= 237276225) by (nonlinear_arith)
        requires
            strip_g <= 10455,
            strip_b <= 22695,
    ;
    assert(strip_r * strip_b <= 405105750) by (nonlinear_arith)
        requires
            strip_r <= 17850,
            strip_b <= 22695,
    ;
    assert(strip_r * strip_g <= 186621750) by (nonlinear_arith)
        requires
            strip_r <= 17850,
            strip_g <= 10455,
    ;
    let prod_gb: u64 = strip_g * strip_b;
    let deficit_r: u64 = (255 - r) * 934144;
    let rec_r: u64 = if prod_gb <= deficit_r {
        0
    } else {
        prod_gb - deficit_r
    };
    let prod_rb: u64 = strip_r * strip_b;
    let deficit_g: u64 = (255 - g) * 1594880;
    let rec_g: u64 = if prod_rb <= deficit_g {
        0
    } else {
        prod_rb - deficit_g
    };
    let prod_rg: u64 = strip_r * strip_g;
    let deficit_b: u64 = (255 - b) * 734720;
    let rec_b: u64 = if prod_rg <= deficit_b {
        0
    } else {
        prod_rg - deficit_b
    };
    assert(rec_r as int == recombined_red(r as int, g as int, b as int));
    assert(rec_g as int == recombined_green(r as int, g as int, b as int));
    assert(rec_b as int == recombined_blue(r as int, g as int, b as int));

    // Luminance of the recombined triple, then the three truncations.
    let lum: u64 = 2100 * rec_r + 2419 * rec_g + 979 * rec_b;
    let lum_clamped: u64 = if lum > 1667447040000 {
        1667447040000
    } else {
        lum
    };
    assert(lum_clamped as int == clamp_num(
        luma_num(r as int, g as int, b as int),
        1667447040000,
    ));
    let out_r: u64 = rec_r / 934144;
    let out_g: u64 = lum_clamped / 6539008000;
    let out_b: u64 = rec_g / 1594880;
    proof {
        lemma_transform_total(r as int, g as int, b as int);
    }
    Pixel { r: out_r as u8, g: out_g as u8, b: out_b as u8 }
}

} // verus!
