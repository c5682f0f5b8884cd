use vstd::prelude::*;

verus! {

use vstd::arithmetic::div_mod::lemma_fundamental_div_mod;
use vstd::arithmetic::div_mod::lemma_fundamental_div_mod_converse;
use vstd::arithmetic::div_mod::lemma_mod_bound;
use vstd::arithmetic::mul::lemma_mul_inequality;
use crate::params::{Params, PuzzleError, rand_inclusive};
use crate::raster::{Raster, lemma_pixel_in_bounds, lemma_pixel_index_injective};

/// A quarter- or half-turn applied to one tile.
#[derive(Debug, Clone, Copy, PartialEq, Eq, Structural)]
pub enum RotateDirection {
    /// Clockwise quarter turn.
    Rotate90,
    /// Half turn.
    Rotate180,
    /// Counter-clockwise quarter turn.
    Rotate270,
}

/// Whether pixel `(x, y)` lies in the rectangle of tile `t` for tile side `s`.
pub open spec fn in_tile(t: (u32, u32), s: u32, x: int, y: int) -> bool {
    &&& t.0 * s <= x < t.0 * s + s
    &&& t.1 * s <= y < t.1 * s + s
}

/// Source channel a pixel shows after the rectangles of `a` and `b` have
/// exchanged their contents.
pub open spec fn swap_src_chan(
    im0: Raster,
    a: (u32, u32),
    b: (u32, u32),
    s: u32,
    x: int,
    y: int,
    c: int,
) -> u8 {
    if in_tile(a, s, x, y) {
        im0.chan(x - a.0 * s + b.0 * s, y - a.1 * s + b.1 * s, c)
    } else if in_tile(b, s, x, y) {
        im0.chan(x - b.0 * s + a.0 * s, y - b.1 * s + a.1 * s, c)
    } else {
        im0.chan(x, y, c)
    }
}

/// `im1` is `im0` with the contents of tiles `a` and `b` exchanged.
pub open spec fn swap_rel(im0: Raster, im1: Raster, a: (u32, u32), b: (u32, u32), s: u32) -> bool {
    &&& im1.width_spec() == im0.width_spec()
    &&& im1.height_spec() == im0.height_spec()
    &&& forall|x: int, y: int, c: int|
        0 <= x < im0.width_spec() && 0 <= y < im0.height_spec() && 0 <= c < 3 ==> #[trigger] im1.chan(
            x,
            y,
            c,
        ) == swap_src_chan(im0, a, b, s, x, y, c)
}

/// Local source coordinates within a tile: the pixel of the original tile
/// that lands on local destination `(u, v)` under the given rotation.
pub open spec fn rot_src(dir: RotateDirection, u: int, v: int, s: u32) -> (int, int) {
    match dir {
        RotateDirection::Rotate90 => (v, s - 1 - u),
        RotateDirection::Rotate180 => (s - 1 - u, s - 1 - v),
        RotateDirection::Rotate270 => (s - 1 - v, u),
    }
}

/// `im1` is `im0` with the rectangle of tile `t` rotated by `dir` and every
/// other pixel untouched.
pub open spec fn rot_rel(im0: Raster, im1: Raster, t: (u32, u32), dir: RotateDirection, s: u32) -> bool {
    &&& im1.width_spec() == im0.width_spec()
    &&& im1.height_spec() == im0.height_spec()
    &&& forall|x: int, y: int, c: int|
        0 <= x < im0.width_spec() && 0 <= y < im0.height_spec() && 0 <= c < 3 ==> #[trigger] im1.chan(
            x,
            y,
            c,
        ) == if in_tile(t, s, x, y) {
            im0.chan(
                t.0 * s + rot_src(dir, x - t.0 * s, y - t.1 * s, s).0,
                t.1 * s + rot_src(dir, x - t.0 * s, y - t.1 * s, s).1,
                c,
            )
        } else {
            im0.chan(x, y, c)
        }
}

/// Two grid-aligned tile rectangles meet only if they are the same tile.
pub proof fn lemma_tiles_disjoint(a: (u32, u32), b: (u32, u32), s: u32, x: int, y: int)
    requires
        s >= 1,
        in_tile(a, s, x, y),
        in_tile(b, s, x, y),
    ensures
        a == b,
{
    if a.0 != b.0 {
        assert(false) by (nonlinear_arith)
            requires
                s >= 1,
                a.0 * s <= x < a.0 * s + s,
                b.0 * s <= x < b.0 * s + s,
                a.0 != b.0,
        ;
    }
    if a.1 != b.1 {
        assert(false) by (nonlinear_arith)
            requires
                s >= 1,
                a.1 * s <= y < a.1 * s + s,
                b.1 * s <= y < b.1 * s + s,
                a.1 != b.1,
        ;
    }
    assert(a == b);
}

/// Splitting a counter below `n * s` by division and remainder lands on a
/// valid `(quotient, remainder)` cell.
pub proof fn lemma_div_mod_decompose(k: int, s: int, n: int)
    requires
        s >= 1,
        0 <= k,
        k < n * s,
    ensures
        0 <= k / s < n,
        0 <= k % s < s,
        k == (k / s) * s + k % s,
{
    lemma_fundamental_div_mod(k, s);
    lemma_mod_bound(k, s);
    assert(0 <= k / s && k / s < n && k == (k / s) * s + k % s) by (nonlinear_arith)
        requires
            s >= 1,
            0 <= k,
            k < n * s,
            k == s * (k / s) + k % s,
            0 <= k % s < s,
    ;
}

pub struct Puzzle {
    division: (u32, u32),
    division_size: u32,
    select_limit: u32,
    select_rate: u32,
    swap_rate: u32,
    image: Raster,
}

impl Puzzle {
    pub closed spec fn division_spec(&self) -> (u32, u32) {
        self.division
    }

    pub closed spec fn division_size_spec(&self) -> u32 {
        self.division_size
    }

    pub closed spec fn select_limit_spec(&self) -> u32 {
        self.select_limit
    }

    pub closed spec fn select_rate_spec(&self) -> u32 {
        self.select_rate
    }

    pub closed spec fn swap_rate_spec(&self) -> u32 {
        self.swap_rate
    }

    pub closed spec fn image_spec(&self) -> Raster {
        self.image
    }

    /// The raster holds exactly the tile grid: a positive number of square
    /// tiles on each axis, with no fractional strip.
    pub open spec fn wf(&self) -> bool {
        &&& self.division_size_spec() >= 1
        &&& self.division_spec().0 >= 1
        &&& self.division_spec().1 >= 1
        &&& self.image_spec().wf()
        &&& self.image_spec().width_spec() == self.division_spec().0 * self.division_size_spec()
        &&& self.image_spec().height_spec() == self.division_spec().1 * self.division_size_spec()
    }

    /// Tile coordinates that lie on the grid.
    pub open spec fn valid_tile(&self, t: (u32, u32)) -> bool {
        t.0 < self.division_spec().0 && t.1 < self.division_spec().1
    }

    /// All parameters and the raster dimensions agree between two states.
    pub open spec fn same_shape(p0: &Puzzle, p1: &Puzzle) -> bool {
        &&& p1.division_spec() == p0.division_spec()
        &&& p1.division_size_spec() == p0.division_size_spec()
        &&& p1.select_limit_spec() == p0.select_limit_spec()
        &&& p1.select_rate_spec() == p0.select_rate_spec()
        &&& p1.swap_rate_spec() == p0.swap_rate_spec()
        &&& p1.image_spec().width_spec() == p0.image_spec().width_spec()
        &&& p1.image_spec().height_spec() == p0.image_spec().height_spec()
    }

    pub fn division(&self) -> (r: (u32, u32))
        ensures
            r == self.division_spec(),
    {
        self.division
    }

    pub fn division_size(&self) -> (r: u32)
        ensures
            r == self.division_size_spec(),
    {
        self.division_size
    }

    pub fn select_limit(&self) -> (r: u32)
        ensures
            r == self.select_limit_spec(),
    {
        self.select_limit
    }

    pub fn select_rate(&self) -> (r: u32)
        ensures
            r == self.select_rate_spec(),
    {
        self.select_rate
    }

    pub fn swap_rate(&self) -> (r: u32)
        ensures
            r == self.swap_rate_spec(),
    {
        self.swap_rate
    }

    pub fn image(&self) -> (r: &Raster)
        ensures
            *r == self.image_spec(),
    {
        &self.image
    }

    /// Derives the grid shape from the raster dimensions.
    fn new(division_size: u32, select_limit: u32, select_rate: u32, swap_rate: u32, image: Raster) -> (p:
        Puzzle)
        requires
            division_size >= 1,
            image.wf(),
            image.width_spec() >= division_size,
            image.height_spec() >= division_size,
            image.width_spec() as int % division_size as int == 0,
            image.height_spec() as int % division_size as int == 0,
        ensures
            p.wf(),
            p.division_size_spec() == division_size,
            p.select_limit_spec() == select_limit,
            p.select_rate_spec() == select_rate,
            p.swap_rate_spec() == swap_rate,
            p.image_spec() == image,
            p.division_spec().0 == image.width_spec() as int / division_size as int,
            p.division_spec().1 == image.height_spec() as int / division_size as int,
    {
        proof {
            let w = image.width_spec() as int;
            let h = image.height_spec() as int;
            let s = division_size as int;
            lemma_fundamental_div_mod(w, s);
            lemma_fundamental_div_mod(h, s);
            lemma_mod_bound(w, s);
            lemma_mod_bound(h, s);
            assert(w == (w / s) * s && w / s >= 1) by (nonlinear_arith)
                requires
                    s >= 1,
                    w >= s,
                    w == s * (w / s) + w % s,
                    0 <= w % s,
                    w % s == 0,
            ;
            assert(h == (h / s) * s && h / s >= 1) by (nonlinear_arith)
                requires
                    s >= 1,
                    h >= s,
                    h == s * (h / s) + h % s,
                    0 <= h % s,
                    h % s == 0,
            ;
        }
        Puzzle {
            division: (image.width() / division_size, image.height() / division_size),
            division_size,
            select_limit,
            select_rate,
            swap_rate,
            image,
        }
    }

    /// Builds the puzzle from resolved parameters and the fetched raster.
    /// Succeeds exactly when the raster has the requested dimensions.
    pub fn generate(params: &Params, image: Raster) -> (r: Result<Puzzle, PuzzleError>)
        requires
            params.wf(),
        ensures
            match r {
                Ok(p) => {
                    &&& image.wf()
                    &&& image.width_spec() == params.division.0 * params.division_size
                    &&& image.height_spec() == params.division.1 * params.division_size
                    &&& p.wf()
                    &&& p.division_spec() == params.division
                    &&& p.division_size_spec() == params.division_size
                    &&& p.select_limit_spec() == params.select_limit
                    &&& p.select_rate_spec() == params.select_rate
                    &&& p.swap_rate_spec() == params.swap_rate
                    &&& p.image_spec() == image
                },
                Err(e) => {
                    &&& e == PuzzleError::SourceWrongSize
                    &&& (!image.wf() || image.width_spec() != params.division.0
                        * params.division_size || image.height_spec() != params.division.1
                        * params.division_size)
                },
            },
    {
        let (w, h) = params.image_size();
        let n = image.as_bytes().len();
        let iw = image.width();
        let ih = image.height();
        proof {
            assert(3 * (iw as int) * (ih as int) < 0x1_0000_0000_0000_0000_0000) by (
            nonlinear_arith)
                requires
                    iw <= 0xffff_ffffu32,
                    ih <= 0xffff_ffffu32,
            ;
        }
        let wide: u128 = 3u128 * (iw as u128) * (ih as u128);
        if iw != w || ih != h || (n as u128) != wide {
            return Err(PuzzleError::SourceWrongSize);
        }
        proof {
            let s = params.division_size as int;
            let c = params.division.0 as int;
            let rr = params.division.1 as int;
            lemma_mul_mod_zero(c, s);
            lemma_mul_mod_zero(rr, s);
            lemma_mul_inequality(1, c, s);
            lemma_mul_inequality(1, rr, s);
            lemma_mul_div_exact(c, s);
            lemma_mul_div_exact(rr, s);
        }
        let p = Self::new(
            params.division_size,
            params.select_limit,
            params.select_rate,
            params.swap_rate,
            image,
        );
        Ok(p)
    }
}

/// Progress order of the pixel walk inside tile `t`: local cell `(u, v)`
/// has been visited once `u * s + v < k`.
pub open spec fn tile_done(t: (u32, u32), s: u32, x: int, y: int, k: int) -> bool {
    (x - t.0 * s) * (s as int) + (y - t.1 * s) < k
}

/// The swap walk has exchanged the first `k` cells of tiles `a` and `b`
/// and touched nothing else.
spec fn swap_partial(im0: Raster, im1: Raster, a: (u32, u32), b: (u32, u32), s: u32, k: int) -> bool {
    &&& im1.width_spec() == im0.width_spec()
    &&& im1.height_spec() == im0.height_spec()
    &&& forall|x: int, y: int, c: int|
        0 <= x < im0.width_spec() && 0 <= y < im0.height_spec() && 0 <= c < 3 ==> #[trigger] im1.chan(
            x,
            y,
            c,
        ) == (if in_tile(a, s, x, y) && tile_done(a, s, x, y, k) {
            im0.chan(x - a.0 * s + b.0 * s, y - a.1 * s + b.1 * s, c)
        } else if !in_tile(a, s, x, y) && in_tile(b, s, x, y) && tile_done(b, s, x, y, k) {
            im0.chan(x - b.0 * s + a.0 * s, y - b.1 * s + a.1 * s, c)
        } else {
            im0.chan(x, y, c)
        })
}

/// A tile corner times the grid width stays within the raster.
proof fn lemma_tile_corner_bound(t0: int, n: int, s: int)
    requires
        0 <= t0 < n,
        s >= 1,
    ensures
        0 <= t0 * s,
        t0 * s + s <= n * s,
{
    assert(0 <= t0 * s && t0 * s + s <= n * s) by (nonlinear_arith)
        requires
            0 <= t0 < n,
            s >= 1,
    ;
}

/// Every local cell index lies below the tile's cell count.
proof fn lemma_local_index_below(u: int, v: int, s: int)
    requires
        0 <= u < s,
        0 <= v < s,
    ensures
        u * s + v < s * s,
{
    assert(u * s + v < s * s) by (nonlinear_arith)
        requires
            0 <= u < s,
            0 <= v < s,
    ;
}

impl Puzzle {
    /// Exchanges the pixel rectangles of tiles `a` and `b` per pixel,
    /// without a tile-sized scratch buffer. A self-swap is a no-op.
    pub fn swap_tile(&mut self, a: (u32, u32), b: (u32, u32))
        requires
            old(self).wf(),
            old(self).valid_tile(a),
            old(self).valid_tile(b),
        ensures
            final(self).wf(),
            Puzzle::same_shape(old(self), final(self)),
            swap_rel(
                old(self).image_spec(),
                final(self).image_spec(),
                a,
                b,
                old(self).division_size_spec(),
            ),
    {
        let s = self.division_size;
        let ghost im0 = self.image_spec();
        proof {
            lemma_tile_corner_bound(a.0 as int, self.division_spec().0 as int, s as int);
            lemma_tile_corner_bound(a.1 as int, self.division_spec().1 as int, s as int);
            lemma_tile_corner_bound(b.0 as int, self.division_spec().0 as int, s as int);
            lemma_tile_corner_bound(b.1 as int, self.division_spec().1 as int, s as int);
        }
        let ax0: u32 = a.0 * s;
        let ay0: u32 = a.1 * s;
        let bx0: u32 = b.0 * s;
        let by0: u32 = b.1 * s;
        proof {
            assert((s as int) * (s as int) < 0x1_0000_0000_0000_0000) by (nonlinear_arith)
                requires
                    s <= 0xffff_ffffu32,
            ;
        }
        let total: u64 = (s as u64) * (s as u64);
        let mut k: u64 = 0;
        while k < total
            invariant
                old(self).wf(),
                self.wf(),
                s == self.division_size_spec(),
                s >= 1,
                self.division_spec() == old(self).division_spec(),
                self.select_limit_spec() == old(self).select_limit_spec(),
                self.select_rate_spec() == old(self).select_rate_spec(),
                self.swap_rate_spec() == old(self).swap_rate_spec(),
                im0 == old(self).image_spec(),
                self.image_spec().width_spec() == im0.width_spec(),
                self.image_spec().height_spec() == im0.height_spec(),
                a.0 < self.division_spec().0,
                a.1 < self.division_spec().1,
                b.0 < self.division_spec().0,
                b.1 < self.division_spec().1,
                ax0 == a.0 * s,
                ay0 == a.1 * s,
                bx0 == b.0 * s,
                by0 == b.1 * s,
                ax0 + s <= im0.width_spec(),
                ay0 + s <= im0.height_spec(),
                bx0 + s <= im0.width_spec(),
                by0 + s <= im0.height_spec(),
                total == (s as int) * (s as int),
                0 <= k <= total,
                swap_partial(im0, self.image_spec(), a, b, s, k as int),
            decreases total - k,
        {
            proof {
                lemma_div_mod_decompose(k as int, s as int, s as int);
            }
            let u: u32 = (k / (s as u64)) as u32;
            let v: u32 = (k % (s as u64)) as u32;
            let ghost im_prev = self.image_spec();
            let p = self.image.get_pixel(ax0 + u, ay0 + v);
            let q = self.image.get_pixel(bx0 + u, by0 + v);
            self.image.put_pixel(ax0 + u, ay0 + v, q);
            let ghost im_mid = self.image_spec();
            self.image.put_pixel(bx0 + u, by0 + v, p);
            proof {
                let w = im0.width_spec() as int;
                let h = im0.height_spec() as int;
                let si = s as int;
                let ui = u as int;
                let vi = v as int;
                let pax = ax0 as int + ui;
                let pay = ay0 as int + vi;
                let pbx = bx0 as int + ui;
                let pby = by0 as int + vi;
                assert(ui * si + vi == k as int);
                assert forall|x: int, y: int, c: int|
                    0 <= x < w && 0 <= y < h && 0 <= c < 3 implies #[trigger] self.image_spec().chan(
                    x,
                    y,
                    c,
                ) == (if in_tile(a, s, x, y) && tile_done(a, s, x, y, k as int + 1) {
                    im0.chan(x - a.0 * s + b.0 * s, y - a.1 * s + b.1 * s, c)
                } else if !in_tile(a, s, x, y) && in_tile(b, s, x, y) && tile_done(
                    b,
                    s,
                    x,
                    y,
                    k as int + 1,
                ) {
                    im0.chan(x - b.0 * s + a.0 * s, y - b.1 * s + a.1 * s, c)
                } else {
                    im0.chan(x, y, c)
                }) by {
                    if in_tile(a, s, x, y) && in_tile(b, s, x, y) {
                        lemma_tiles_disjoint(a, b, s, x, y);
                    }
                    if in_tile(a, s, x, y) && !(x == pax && y == pay) {
                        lemma_pixel_index_injective(y - ay0, x - ax0, vi, ui, si);
                    }
                    if in_tile(b, s, x, y) && !(x == pbx && y == pby) {
                        lemma_pixel_index_injective(y - by0, x - bx0, vi, ui, si);
                    }
                    if in_tile(a, s, pax, pay) && in_tile(b, s, pax, pay) {
                        lemma_tiles_disjoint(a, b, s, pax, pay);
                    }
                    if in_tile(a, s, pbx, pby) && in_tile(b, s, pbx, pby) {
                        lemma_tiles_disjoint(a, b, s, pbx, pby);
                    }
                    assert(im_prev.chan(pax, pay, 0) == im0.chan(pax, pay, 0));
                    assert(im_prev.chan(pax, pay, 1) == im0.chan(pax, pay, 1));
                    assert(im_prev.chan(pax, pay, 2) == im0.chan(pax, pay, 2));
                    assert(im_prev.chan(pbx, pby, 0) == im0.chan(pbx, pby, 0));
                    assert(im_prev.chan(pbx, pby, 1) == im0.chan(pbx, pby, 1));
                    assert(im_prev.chan(pbx, pby, 2) == im0.chan(pbx, pby, 2));
                    assert(im_mid.chan(x, y, c) == if x == pax && y == pay {
                        im_prev.chan(pbx, pby, c)
                    } else {
                        im_prev.chan(x, y, c)
                    });
                }
            }
            k = k + 1;
        }
        proof {
            let w = im0.width_spec() as int;
            let h = im0.height_spec() as int;
            let si = s as int;
            assert forall|x: int, y: int, c: int|
                0 <= x < w && 0 <= y < h && 0 <= c < 3 implies #[trigger] self.image_spec().chan(
                x,
                y,
                c,
            ) == swap_src_chan(im0, a, b, s, x, y, c) by {
                if in_tile(a, s, x, y) {
                    lemma_local_index_below(x - a.0 * si, y - a.1 * si, si);
                }
                if in_tile(b, s, x, y) {
                    lemma_local_index_below(x - b.0 * si, y - b.1 * si, si);
                }
            }
        }
    }
}

/// Writing a local cell back to its own row and column recovers the cell.
pub proof fn lemma_cell_decompose(u: int, v: int, s: int)
    requires
        s >= 1,
        0 <= u < s,
        0 <= v,
    ensures
        (v * s + u) / s == v,
        (v * s + u) % s == u,
{
    lemma_fundamental_div_mod_converse(v * s + u, s, v, u);
}

impl Puzzle {
    /// Rotates the pixel rectangle of tile `t` in place, through a scratch
    /// copy of the rotated tile.
    pub fn rotate_tile(&mut self, t: (u32, u32), direction: RotateDirection)
        requires
            old(self).wf(),
            old(self).valid_tile(t),
        ensures
            final(self).wf(),
            Puzzle::same_shape(old(self), final(self)),
            rot_rel(
                old(self).image_spec(),
                final(self).image_spec(),
                t,
                direction,
                old(self).division_size_spec(),
            ),
    {
        let s = self.division_size;
        let ghost im0 = self.image_spec();
        proof {
            lemma_tile_corner_bound(t.0 as int, self.division_spec().0 as int, s as int);
            lemma_tile_corner_bound(t.1 as int, self.division_spec().1 as int, s as int);
            assert((s as int) * (s as int) < 0x1_0000_0000_0000_0000) by (nonlinear_arith)
                requires
                    s <= 0xffff_ffffu32,
            ;
        }
        let tx0: u32 = t.0 * s;
        let ty0: u32 = t.1 * s;
        let total: u64 = (s as u64) * (s as u64);
        let mut scratch: Vec<u8> = Vec::new();
        let mut k: u64 = 0;
        while k < total
            invariant
                self == old(self),
                old(self).wf(),
                s == self.division_size_spec(),
                s >= 1,
                im0 == self.image_spec(),
                t.0 < self.division_spec().0,
                t.1 < self.division_spec().1,
                tx0 == t.0 * s,
                ty0 == t.1 * s,
                tx0 + s <= im0.width_spec(),
                ty0 + s <= im0.height_spec(),
                total == (s as int) * (s as int),
                0 <= k <= total,
                scratch@.len() == 3 * k,
                forall|j: int, c: int|
                    0 <= j < k && 0 <= c < 3 ==> #[trigger] scratch@[3 * j + c] == im0.chan(
                        tx0 + rot_src(direction, j % (s as int), j / (s as int), s).0,
                        ty0 + rot_src(direction, j % (s as int), j / (s as int), s).1,
                        c,
                    ),
            decreases total - k,
        {
            proof {
                lemma_div_mod_decompose(k as int, s as int, s as int);
            }
            let v: u32 = (k / (s as u64)) as u32;
            let u: u32 = (k % (s as u64)) as u32;
            let (sx, sy): (u32, u32) = match direction {
                RotateDirection::Rotate90 => (v, s - 1 - u),
                RotateDirection::Rotate180 => (s - 1 - u, s - 1 - v),
                RotateDirection::Rotate270 => (s - 1 - v, u),
            };
            let p = self.image.get_pixel(tx0 + sx, ty0 + sy);
            scratch.push(p.0);
            scratch.push(p.1);
            scratch.push(p.2);
            proof {
                assert(k as int == (v as int) * (s as int) + u as int);
                lemma_cell_decompose(u as int, v as int, s as int);
                assert forall|j: int, c: int| 0 <= j < k as int + 1 && 0 <= c < 3 implies #[trigger] scratch@[3
                    * j + c] == im0.chan(
                    tx0 + rot_src(direction, j % (s as int), j / (s as int), s).0,
                    ty0 + rot_src(direction, j % (s as int), j / (s as int), s).1,
                    c,
                ) by {
                    if j == k as int {
                        assert(j % (s as int) == u as int && j / (s as int) == v as int);
                    }
                }
            }
            k = k + 1;
        }
        let m = scratch.len();
        let mut k2: u64 = 0;
        while k2 < total
            invariant
                old(self).wf(),
                self.wf(),
                s == self.division_size_spec(),
                s >= 1,
                self.division_spec() == old(self).division_spec(),
                self.select_limit_spec() == old(self).select_limit_spec(),
                self.select_rate_spec() == old(self).select_rate_spec(),
                self.swap_rate_spec() == old(self).swap_rate_spec(),
                im0 == old(self).image_spec(),
                self.image_spec().width_spec() == im0.width_spec(),
                self.image_spec().height_spec() == im0.height_spec(),
                t.0 < self.division_spec().0,
                t.1 < self.division_spec().1,
                tx0 == t.0 * s,
                ty0 == t.1 * s,
                tx0 + s <= im0.width_spec(),
                ty0 + s <= im0.height_spec(),
                total == (s as int) * (s as int),
                m == scratch@.len(),
                scratch@.len() == 3 * total,
                forall|j: int, c: int|
                    0 <= j < total && 0 <= c < 3 ==> #[trigger] scratch@[3 * j + c] == im0.chan(
                        tx0 + rot_src(direction, j % (s as int), j / (s as int), s).0,
                        ty0 + rot_src(direction, j % (s as int), j / (s as int), s).1,
                        c,
                    ),
                0 <= k2 <= total,
                forall|x: int, y: int, c: int|
                    0 <= x < im0.width_spec() && 0 <= y < im0.height_spec() && 0 <= c < 3
                        ==> #[trigger] self.image_spec().chan(x, y, c) == (if in_tile(t, s, x, y)
                        && tile_done(t, s, x, y, k2 as int) {
                        im0.chan(
                            t.0 * s + rot_src(direction, x - t.0 * s, y - t.1 * s, s).0,
                            t.1 * s + rot_src(direction, x - t.0 * s, y - t.1 * s, s).1,
                            c,
                        )
                    } else {
                        im0.chan(x, y, c)
                    }),
            decreases total - k2,
        {
            proof {
                lemma_div_mod_decompose(k2 as int, s as int, s as int);
                lemma_pixel_in_bounds(
                    (k2 as int) / (s as int),
                    (k2 as int) % (s as int),
                    s as int,
                    s as int,
                );
                lemma_cell_decompose((k2 as int) / (s as int), (k2 as int) % (s as int), s as int);
                let si = s as int;
                let ui = (k2 as int) / si;
                let vi = (k2 as int) % si;
                assert(0 <= vi * si && 3 * si * si == 3 * (si * si)) by (nonlinear_arith)
                    requires
                        si >= 1,
                        0 <= vi,
                ;
                assert(3 * (vi * si + ui) + 2 < 3 * (si * si));
                assert(3 * (vi * si + ui) + 2 < m as int);
            }
            let u: u32 = (k2 / (s as u64)) as u32;
            let v: u32 = (k2 % (s as u64)) as u32;
            let cell: usize = 3 * ((v as usize) * (s as usize) + (u as usize));
            let value: (u8, u8, u8) = (scratch[cell], scratch[cell + 1], scratch[cell + 2]);
            let ghost im_prev = self.image_spec();
            self.image.put_pixel(tx0 + u, ty0 + v, value);
            proof {
                let w = im0.width_spec() as int;
                let h = im0.height_spec() as int;
                let si = s as int;
                let ui = u as int;
                let vi = v as int;
                let px = tx0 as int + ui;
                let py = ty0 as int + vi;
                assert(ui * si + vi == k2 as int);
                assert((vi * si + ui) % si == ui && (vi * si + ui) / si == vi);
                let j = vi * si + ui;
                assert(3 * j + 2 < 3 * (si * si));
                assert(0 <= j < total as int);
                assert(scratch@[3 * j + 0] == im0.chan(
                    tx0 + rot_src(direction, j % (s as int), j / (s as int), s).0,
                    ty0 + rot_src(direction, j % (s as int), j / (s as int), s).1,
                    0,
                ));
                assert(scratch@[3 * j + 1] == im0.chan(
                    tx0 + rot_src(direction, j % (s as int), j / (s as int), s).0,
                    ty0 + rot_src(direction, j % (s as int), j / (s as int), s).1,
                    1,
                ));
                assert(scratch@[3 * j + 2] == im0.chan(
                    tx0 + rot_src(direction, j % (s as int), j / (s as int), s).0,
                    ty0 + rot_src(direction, j % (s as int), j / (s as int), s).1,
                    2,
                ));
                assert(cell as int == 3 * j);
                assert(value.0 == im0.chan(
                    tx0 + rot_src(direction, ui, vi, s).0,
                    ty0 + rot_src(direction, ui, vi, s).1,
                    0,
                ));
                assert(value.1 == im0.chan(
                    tx0 + rot_src(direction, ui, vi, s).0,
                    ty0 + rot_src(direction, ui, vi, s).1,
                    1,
                ));
                assert(value.2 == im0.chan(
                    tx0 + rot_src(direction, ui, vi, s).0,
                    ty0 + rot_src(direction, ui, vi, s).1,
                    2,
                ));
                assert forall|x: int, y: int, c: int|
                    0 <= x < w && 0 <= y < h && 0 <= c < 3 implies #[trigger] self.image_spec().chan(
                    x,
                    y,
                    c,
                ) == (if in_tile(t, s, x, y) && tile_done(t, s, x, y, k2 as int + 1) {
                    im0.chan(
                        t.0 * s + rot_src(direction, x - t.0 * s, y - t.1 * s, s).0,
                        t.1 * s + rot_src(direction, x - t.0 * s, y - t.1 * s, s).1,
                        c,
                    )
                } else {
                    im0.chan(x, y, c)
                }) by {
                    if in_tile(t, s, x, y) && !(x == px && y == py) {
                        lemma_pixel_index_injective(y - ty0, x - tx0, vi, ui, si);
                    }
                    assert(self.image_spec().chan(x, y, c) == if x == px && y == py {
                        if c == 0 {
                            value.0
                        } else if c == 1 {
                            value.1
                        } else {
                            value.2
                        }
                    } else {
                        im_prev.chan(x, y, c)
                    });
                }
            }
            k2 = k2 + 1;
        }
        proof {
            let w = im0.width_spec() as int;
            let h = im0.height_spec() as int;
            let si = s as int;
            assert forall|x: int, y: int, c: int|
                0 <= x < w && 0 <= y < h && 0 <= c < 3 implies #[trigger] self.image_spec().chan(
                x,
                y,
                c,
            ) == (if in_tile(t, s, x, y) {
                im0.chan(
                    t.0 * s + rot_src(direction, x - t.0 * s, y - t.1 * s, s).0,
                    t.1 * s + rot_src(direction, x - t.0 * s, y - t.1 * s, s).1,
                    c,
                )
            } else {
                im0.chan(x, y, c)
            }) by {
                if in_tile(t, s, x, y) {
                    lemma_local_index_below(x - t.0 * si, y - t.1 * si, si);
                }
            }
        }
    }
}

/// One of the three rotations, drawn uniformly.
fn random_direction() -> (r: RotateDirection)
    ensures
        r == RotateDirection::Rotate90 || r == RotateDirection::Rotate180 || r
            == RotateDirection::Rotate270,
{
    let roll = rand_inclusive(0, 2);
    match roll {
        0 => RotateDirection::Rotate90,
        1 => RotateDirection::Rotate180,
        _ => RotateDirection::Rotate270,
    }
}

impl Puzzle {
    /// A tile drawn uniformly from the whole grid.
    fn select_random_tile(&self) -> (t: (u32, u32))
        requires
            self.wf(),
        ensures
            self.valid_tile(t),
    {
        let x = rand_inclusive(0, (self.division.0 - 1) as u64) as u32;
        let y = rand_inclusive(0, (self.division.1 - 1) as u64) as u32;
        (x, y)
    }

    /// A tile drawn uniformly from the grid without the anchor `(0, 0)`.
    fn select_random_tile_without_upper_left(&self) -> (t: (u32, u32))
        requires
            self.wf(),
            (self.division_spec().0 as int) * (self.division_spec().1 as int) >= 2,
        ensures
            self.valid_tile(t),
            !(t.0 == 0 && t.1 == 0),
    {
        let cols = self.division.0;
        let rows = self.division.1;
        proof {
            assert((cols as int) * (rows as int) < 0x1_0000_0000_0000_0000 && (cols as int) * (
            rows as int) == (rows as int) * (cols as int)) by (nonlinear_arith)
                requires
                    cols <= 0xffff_ffffu32,
                    rows <= 0xffff_ffffu32,
            ;
        }
        let n: u64 = (cols as u64) * (rows as u64);
        let k = rand_inclusive(1, n - 1);
        proof {
            lemma_div_mod_decompose(k as int, cols as int, rows as int);
            let ki = k as int;
            let ci = cols as int;
            assert(!(ki / ci == 0 && ki % ci == 0)) by (nonlinear_arith)
                requires
                    ki >= 1,
                    ki == (ki / ci) * ci + ki % ci,
            ;
        }
        let x = (k % (cols as u64)) as u32;
        let y = (k / (cols as u64)) as u32;
        (x, y)
    }

    /// The swap pass: `5 * cols * rows` uniformly random tile swaps, anchor
    /// included, self-swaps allowed and counted. Tiles are only permuted,
    /// never rotated: the multiset of tile contents is preserved.
    pub fn random_swap(&mut self)
        requires
            old(self).wf(),
        ensures
            final(self).wf(),
            Puzzle::same_shape(old(self), final(self)),
            crate::laws::tiles_seq(
                final(self).image_spec(),
                old(self).division_spec().0,
                old(self).division_spec().1,
                old(self).division_size_spec(),
            ).to_multiset() == crate::laws::tiles_seq(
                old(self).image_spec(),
                old(self).division_spec().0,
                old(self).division_spec().1,
                old(self).division_size_spec(),
            ).to_multiset(),
            crate::laws::orbits_seq(
                final(self).image_spec(),
                old(self).division_spec().0,
                old(self).division_spec().1,
                old(self).division_size_spec(),
            ).to_multiset() == crate::laws::orbits_seq(
                old(self).image_spec(),
                old(self).division_spec().0,
                old(self).division_spec().1,
                old(self).division_size_spec(),
            ).to_multiset(),
    {
        let cols = self.division.0;
        let rows = self.division.1;
        let s = self.division_size;
        proof {
            assert((cols as int) * (rows as int) < 0x1_0000_0000_0000_0000) by (nonlinear_arith)
                requires
                    cols <= 0xffff_ffffu32,
                    rows <= 0xffff_ffffu32,
            ;
        }
        let total: u128 = (cols as u128) * (rows as u128) * 5;
        let mut i: u128 = 0;
        while i < total
            invariant
                old(self).wf(),
                self.wf(),
                Puzzle::same_shape(old(self), self),
                cols == self.division_spec().0,
                rows == self.division_spec().1,
                s == self.division_size_spec(),
                0 <= i <= total,
                crate::laws::tiles_seq(self.image_spec(), cols, rows, s).to_multiset()
                    == crate::laws::tiles_seq(old(self).image_spec(), cols, rows, s).to_multiset(),
                crate::laws::orbits_seq(self.image_spec(), cols, rows, s).to_multiset()
                    == crate::laws::orbits_seq(old(self).image_spec(), cols, rows, s).to_multiset(),
            decreases total - i,
        {
            let a = self.select_random_tile();
            let b = self.select_random_tile();
            let ghost im_prev = self.image_spec();
            self.swap_tile(a, b);
            proof {
                crate::laws::lemma_swap_preserves_tile_multiset(
                    im_prev,
                    self.image_spec(),
                    a,
                    b,
                    s,
                    cols,
                    rows,
                );
                crate::laws::lemma_swap_preserves_orbit_multiset(
                    im_prev,
                    self.image_spec(),
                    a,
                    b,
                    s,
                    cols,
                    rows,
                );
            }
            i = i + 1;
        }
    }

    /// The rotate pass: `5 * cols * rows` uniformly random rotations of
    /// non-anchor tiles. Tiles never move: each tile ends as some rotation
    /// of its own previous content, in its own position; the pixel
    /// rectangle of the anchor tile `(0, 0)` is byte-identical before and
    /// after the pass; and the multiset of tile rotation orbits is
    /// preserved.
    pub fn random_rotate(&mut self)
        requires
            old(self).wf(),
            (old(self).division_spec().0 as int) * (old(self).division_spec().1 as int) >= 2,
        ensures
            final(self).wf(),
            Puzzle::same_shape(old(self), final(self)),
            forall|x: int, y: int, c: int|
                0 <= c < 3 && in_tile((0u32, 0u32), old(self).division_size_spec(), x, y)
                    ==> #[trigger] final(self).image_spec().chan(x, y, c) == old(
                    self,
                ).image_spec().chan(x, y, c),
            forall|t: (u32, u32)|
                t.0 < old(self).division_spec().0 && t.1 < old(self).division_spec().1
                    ==> #[trigger] crate::laws::tile_orbit(
                    crate::laws::tile_content(
                        old(self).image_spec(),
                        t,
                        old(self).division_size_spec(),
                    ),
                    old(self).division_size_spec(),
                ).contains(
                    crate::laws::tile_content(
                        final(self).image_spec(),
                        t,
                        old(self).division_size_spec(),
                    ),
                ),
            crate::laws::orbits_seq(
                final(self).image_spec(),
                old(self).division_spec().0,
                old(self).division_spec().1,
                old(self).division_size_spec(),
            ).to_multiset() == crate::laws::orbits_seq(
                old(self).image_spec(),
                old(self).division_spec().0,
                old(self).division_spec().1,
                old(self).division_size_spec(),
            ).to_multiset(),
    {
        let cols = self.division.0;
        let rows = self.division.1;
        let s = self.division_size;
        proof {
            assert((cols as int) * (rows as int) < 0x1_0000_0000_0000_0000) by (nonlinear_arith)
                requires
                    cols <= 0xffff_ffffu32,
                    rows <= 0xffff_ffffu32,
            ;
            lemma_tile_corner_bound(0, cols as int, s as int);
            lemma_tile_corner_bound(0, rows as int, s as int);
        }
        let total: u128 = (cols as u128) * (rows as u128) * 5;
        let mut i: u128 = 0;
        while i < total
            invariant
                old(self).wf(),
                self.wf(),
                Puzzle::same_shape(old(self), self),
                s == self.division_size_spec(),
                cols == self.division_spec().0,
                rows == self.division_spec().1,
                (cols as int) * (rows as int) >= 2,
                s <= self.image_spec().width_spec(),
                s <= self.image_spec().height_spec(),
                0 <= i <= total,
                forall|x: int, y: int, c: int|
                    0 <= c < 3 && in_tile((0u32, 0u32), s, x, y)
                        ==> #[trigger] self.image_spec().chan(x, y, c) == old(
                        self,
                    ).image_spec().chan(x, y, c),
                forall|t: (u32, u32)|
                    t.0 < cols && t.1 < rows ==> #[trigger] crate::laws::tile_orbit(
                        crate::laws::tile_content(old(self).image_spec(), t, s),
                        s,
                    ).contains(crate::laws::tile_content(self.image_spec(), t, s)),
                crate::laws::orbits_seq(self.image_spec(), cols, rows, s).to_multiset()
                    == crate::laws::orbits_seq(old(self).image_spec(), cols, rows, s).to_multiset(),
            decreases total - i,
        {
            let t = self.select_random_tile_without_upper_left();
            let direction = random_direction();
            let ghost im_prev = self.image_spec();
            self.rotate_tile(t, direction);
            proof {
                crate::laws::lemma_rotate_step_keeps_orbits(
                    old(self).image_spec(),
                    im_prev,
                    self.image_spec(),
                    t,
                    direction,
                    s,
                    cols,
                    rows,
                );
                crate::laws::lemma_rotate_preserves_orbit_multiset(
                    im_prev,
                    self.image_spec(),
                    t,
                    direction,
                    s,
                    cols,
                    rows,
                );
                assert forall|x: int, y: int, c: int|
                    0 <= c < 3 && in_tile((0u32, 0u32), s, x, y) implies #[trigger] self.image_spec().chan(
                    x,
                    y,
                    c,
                ) == old(self).image_spec().chan(x, y, c) by {
                    if in_tile(t, s, x, y) {
                        lemma_tiles_disjoint((0u32, 0u32), t, s, x, y);
                    }
                    assert(self.image_spec().chan(x, y, c) == im_prev.chan(x, y, c));
                }
            }
            i = i + 1;
        }
    }
}

/// A multiple of a positive number divides back to the factor and leaves no
/// remainder.
proof fn lemma_mul_div_exact(c: int, s: int)
    requires
        s >= 1,
        c >= 0,
    ensures
        (c * s) / s == c,
{
    lemma_fundamental_div_mod(c * s, s);
    lemma_mod_bound(c * s, s);
    assert((c * s) / s == c) by (nonlinear_arith)
        requires
            s >= 1,
            c >= 0,
            c * s == s * ((c * s) / s) + (c * s) % s,
            0 <= (c * s) % s < s,
    ;
}

/// A multiple of a positive number leaves no remainder.
proof fn lemma_mul_mod_zero(c: int, s: int)
    requires
        s >= 1,
        c >= 0,
    ensures
        (c * s) % s == 0,
{
    lemma_fundamental_div_mod(c * s, s);
    lemma_mod_bound(c * s, s);
    lemma_mul_div_exact(c, s);
    assert((c * s) % s == 0) by (nonlinear_arith)
        requires
            s >= 1,
            c >= 0,
            c * s == s * ((c * s) / s) + (c * s) % s,
            0 <= (c * s) % s < s,
            (c * s) / s == c,
    ;
}

} // verus!
