use vstd::prelude::*;
use rand::Rng;

verus! {

use vstd::arithmetic::div_mod::lemma_fundamental_div_mod;
use vstd::arithmetic::div_mod::lemma_mod_bound;
use vstd::arithmetic::mul::lemma_mul_inequality;

/// The failure categories the generator can report.
#[derive(Debug, Clone, Copy, PartialEq, Eq, Structural)]
pub enum PuzzleError {
    /// A derived parameter range is empty, or a requested grid cannot exist.
    InvalidParameter,
    /// The image source failed at the transport layer.
    SourceUnavailable,
    /// The fetched bytes did not decode as an image.
    SourceMalformed,
    /// The fetched image does not have the requested dimensions.
    SourceWrongSize,
    /// An output stream could not be created, written, or flushed.
    Io,
}

/// A fully resolved parameter tuple for one puzzle.
#[derive(Debug, Clone, Copy, PartialEq, Eq)]
pub struct Params {
    /// Pixels per tile side.
    pub division_size: u32,
    /// Tile grid shape as `(cols, rows)`.
    pub division: (u32, u32),
    /// Metadata: cap on selection operations.
    pub select_limit: u32,
    /// Metadata: cost coefficient for select.
    pub select_rate: u32,
    /// Metadata: cost coefficient for swap.
    pub swap_rate: u32,
}

/// Lower bound of the admissible division range for tile side `s`.
pub open spec fn division_lo(s: u32) -> int {
    if 32 as int / (s as int) > 2 {
        32 as int / (s as int)
    } else {
        2
    }
}

/// Upper bound of the admissible division range for tile side `s`.
pub open spec fn division_hi(s: u32) -> int {
    if 2048 as int / (s as int) < 16 {
        2048 as int / (s as int)
    } else {
        16
    }
}

/// Exactly the inputs on which the resolver reports `InvalidParameter`:
/// a tile side of zero, an empty derived division range, a grid with an
/// empty axis, or a grid whose pixel size cannot be represented.
pub open spec fn resolver_rejects(division_size: Option<u32>, division: Option<(u32, u32)>) -> bool {
    match (division_size, division) {
        (Some(s), None) => s == 0 || division_lo(s) > division_hi(s),
        (Some(s), Some(d)) => s == 0 || d.0 == 0 || d.1 == 0 || d.0 * s > u32::MAX || d.1 * s
            > u32::MAX,
        (None, Some(d)) => d.0 == 0 || d.1 == 0 || d.0 * 256 > u32::MAX || d.1 * 256 > u32::MAX,
        (None, None) => false,
    }
}

impl Params {
    /// The grid is non-empty and its pixel dimensions fit the raster types.
    pub open spec fn wf(&self) -> bool {
        &&& self.division_size >= 1
        &&& self.division.0 >= 1
        &&& self.division.1 >= 1
        &&& self.division.0 * self.division_size <= u32::MAX
        &&& self.division.1 * self.division_size <= u32::MAX
    }

    /// The pixel size of the raster the grid asks for.
    pub fn image_size(&self) -> (r: (u32, u32))
        requires
            self.wf(),
        ensures
            r.0 == self.division.0 * self.division_size,
            r.1 == self.division.1 * self.division_size,
    {
        (self.division.0 * self.division_size, self.division.1 * self.division_size)
    }
}

/// Relies on `rand::thread_rng` and `rand::Rng::gen_range` over an inclusive
/// range: the sampled value lies within the given bounds.
#[verifier::external_body]
pub(crate) fn rand_inclusive(lo: u64, hi: u64) -> (r: u64)
    requires
        lo <= hi,
    ensures
        lo <= r <= hi,
{
    rand::thread_rng().gen_range(lo..=hi)
}

/// The width/height pair of flags is all-or-nothing: a lone member of the
/// pair counts as unspecified.
pub fn pair_division(width: Option<u32>, height: Option<u32>) -> (r: Option<(u32, u32)>)
    ensures
        match (width, height) {
            (Some(w), Some(h)) => r == Some((w, h)),
            _ => r is None,
        },
{
    match (width, height) {
        (Some(w), Some(h)) => Some((w, h)),
        _ => None,
    }
}

/// Fills every absent parameter with a uniformly sampled value from its
/// admissible range; present values pass through unchanged. Fails exactly
/// on the inputs `resolver_rejects` describes.
pub fn resolve_parameters(
    division_size: Option<u32>,
    division: Option<(u32, u32)>,
    select_limit: Option<u32>,
    select_rate: Option<u32>,
    swap_rate: Option<u32>,
) -> (r: Result<Params, PuzzleError>)
    ensures
        match r {
            Ok(p) => {
                &&& !resolver_rejects(division_size, division)
                &&& p.wf()
                &&& match division_size {
                    Some(s) => p.division_size == s,
                    None => 16 <= p.division_size <= 256,
                }
                &&& match division {
                    Some(d) => p.division == d,
                    None => division_lo(p.division_size) <= p.division.0 <= division_hi(
                        p.division_size,
                    ) && division_lo(p.division_size) <= p.division.1 <= division_hi(
                        p.division_size,
                    ),
                }
                &&& match select_limit {
                    Some(v) => p.select_limit == v,
                    None => 2 <= p.select_limit <= 128,
                }
                &&& match select_rate {
                    Some(v) => p.select_rate == v,
                    None => 1 <= p.select_rate <= 500,
                }
                &&& match swap_rate {
                    Some(v) => p.swap_rate == v,
                    None => 1 <= p.swap_rate <= 500,
                }
            },
            Err(e) => e == PuzzleError::InvalidParameter && resolver_rejects(
                division_size,
                division,
            ),
        },
{
    let size_given = division_size.is_some();
    let s: u32 = match division_size {
        Some(x) => {
            if x == 0 {
                return Err(PuzzleError::InvalidParameter);
            }
            x
        },
        None => rand_inclusive(16, 256) as u32,
    };
    let d: (u32, u32) = match division {
        Some(d) => {
            if d.0 == 0 || d.1 == 0 {
                return Err(PuzzleError::InvalidParameter);
            }
            let cap: u64 = if size_given {
                s as u64
            } else {
                256u64
            };
            proof {
                assert((d.0 as int) * (cap as int) < 0x1_0000_0000_0000_0000 && (d.1 as int) * (
                cap as int) < 0x1_0000_0000_0000_0000) by (nonlinear_arith)
                    requires
                        d.0 <= 0xffff_ffffu32,
                        d.1 <= 0xffff_ffffu32,
                        cap <= 0xffff_ffffu64,
                ;
            }
            if (d.0 as u64) * cap > (u32::MAX as u64) || (d.1 as u64) * cap > (u32::MAX as u64) {
                return Err(PuzzleError::InvalidParameter);
            }
            proof {
                if !size_given {
                    lemma_mul_inequality(s as int, 256, d.0 as int);
                    lemma_mul_inequality(s as int, 256, d.1 as int);
                }
            }
            d
        },
        None => {
            let lo32: u32 = 32 / s;
            let lo: u32 = if lo32 > 2 {
                lo32
            } else {
                2
            };
            let hi2048: u32 = 2048 / s;
            let hi: u32 = if hi2048 < 16 {
                hi2048
            } else {
                16
            };
            proof {
                if !size_given {
                    lemma_sampled_range_nonempty(s as int);
                }
            }
            if lo > hi {
                return Err(PuzzleError::InvalidParameter);
            }
            let dx = rand_inclusive(lo as u64, hi as u64) as u32;
            let dy = rand_inclusive(lo as u64, hi as u64) as u32;
            proof {
                lemma_division_sample_fits(s as int, dx as int);
                lemma_division_sample_fits(s as int, dy as int);
            }
            (dx, dy)
        },
    };
    let select_limit: u32 = match select_limit {
        Some(v) => v,
        None => rand_inclusive(2, 128) as u32,
    };
    let select_rate: u32 = match select_rate {
        Some(v) => v,
        None => rand_inclusive(1, 500) as u32,
    };
    let swap_rate: u32 = match swap_rate {
        Some(v) => v,
        None => rand_inclusive(1, 500) as u32,
    };
    Ok(Params { division_size: s, division: d, select_limit, select_rate, swap_rate })
}

/// A division sampled from its admissible range keeps the pixel size of
/// the grid within the raster types.
proof fn lemma_division_sample_fits(s: int, d: int)
    requires
        1 <= s <= u32::MAX,
        0 <= d,
        d <= division_hi(s as u32),
    ensures
        d * s <= u32::MAX,
{
    lemma_fundamental_div_mod(2048, s);
    lemma_mod_bound(2048, s);
    assert((2048 as int / s) * s <= 2048) by (nonlinear_arith)
        requires
            s >= 1,
            2048 == s * (2048 as int / s) + (2048 as int % s),
            0 <= 2048 as int % s,
    ;
    lemma_mul_inequality(d, 2048 as int / s, s);
}

/// For any sampled tile side, the derived division range is non-empty.
proof fn lemma_sampled_range_nonempty(s: int)
    requires
        16 <= s <= 256,
    ensures
        32 as int / s <= 2,
        2048 as int / s >= 8,
{
    lemma_fundamental_div_mod(32, s);
    lemma_mod_bound(32, s);
    lemma_fundamental_div_mod(2048, s);
    lemma_mod_bound(2048, s);
    assert(32 as int / s <= 2) by (nonlinear_arith)
        requires
            16 <= s <= 256,
            32 == s * (32 as int / s) + (32 as int % s),
            0 <= 32 as int % s < s,
    ;
    assert(2048 as int / s >= 8) by (nonlinear_arith)
        requires
            16 <= s <= 256,
            2048 == s * (2048 as int / s) + (2048 as int % s),
            0 <= 2048 as int % s < s,
    ;
}

} // verus!
