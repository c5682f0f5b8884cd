use vstd::prelude::*;

verus! {

use crate::puzzle::{
    RotateDirection,
    in_tile,
    lemma_cell_decompose,
    lemma_div_mod_decompose,
    lemma_tiles_disjoint,
    rot_rel,
    rot_src,
    swap_rel,
};
use crate::raster::{Raster, lemma_pixel_in_bounds};
use vstd::seq_lib::lemma_multiset_commutative;

/// A raster is determined by its channels: equal dimensions and equal
/// channel values everywhere give equal byte buffers.
pub proof fn lemma_bytes_from_chans(r0: Raster, r1: Raster)
    requires
        r0.wf(),
        r1.wf(),
        r1.width_spec() == r0.width_spec(),
        r1.height_spec() == r0.height_spec(),
        forall|x: int, y: int, c: int|
            0 <= x < r0.width_spec() && 0 <= y < r0.height_spec() && 0 <= c < 3
                ==> #[trigger] r1.chan(x, y, c) == r0.chan(x, y, c),
    ensures
        r1.bytes() == r0.bytes(),
{
    let w = r0.width_spec() as int;
    let h = r0.height_spec() as int;
    assert forall|i: int| 0 <= i < r0.bytes().len() implies r1.bytes()[i] == r0.bytes()[i] by {
        assert(3 * (w * h) == 3 * w * h && (w * h) * 3 == 3 * (w * h)) by (nonlinear_arith);
        lemma_div_mod_decompose(i, 3, w * h);
        let pi = i / 3;
        let pc = i % 3;
        lemma_div_mod_decompose(pi, w, h);
        let px = pi % w;
        let py = pi / w;
        assert(pi * 3 == 3 * pi) by (nonlinear_arith);
        assert(3 * (py * w + px) + pc == i);
        assert(r1.chan(px, py, pc) == r0.chan(px, py, pc));
    }
    assert(r1.bytes() =~= r0.bytes());
}

/// Swapping a tile with itself leaves the raster byte-identical.
pub proof fn lemma_swap_self(im0: Raster, im1: Raster, a: (u32, u32), s: u32)
    requires
        s >= 1,
        im0.wf(),
        im1.wf(),
        swap_rel(im0, im1, a, a, s),
    ensures
        im1.bytes() == im0.bytes(),
{
    lemma_bytes_from_chans(im0, im1);
}

/// Swap symmetry: exchanging the same two tiles twice restores the raster
/// byte-for-byte.
pub proof fn lemma_swap_symmetry(
    im0: Raster,
    im1: Raster,
    im2: Raster,
    a: (u32, u32),
    b: (u32, u32),
    s: u32,
    cols: u32,
    rows: u32,
)
    requires
        s >= 1,
        im0.wf(),
        im1.wf(),
        im2.wf(),
        im0.width_spec() == cols * s,
        im0.height_spec() == rows * s,
        a.0 < cols,
        a.1 < rows,
        b.0 < cols,
        b.1 < rows,
        swap_rel(im0, im1, a, b, s),
        swap_rel(im1, im2, a, b, s),
    ensures
        im2.bytes() == im0.bytes(),
{
    let w = im0.width_spec() as int;
    let h = im0.height_spec() as int;
    assert forall|x: int, y: int, c: int|
        0 <= x < w && 0 <= y < h && 0 <= c < 3 implies #[trigger] im2.chan(x, y, c) == im0.chan(
        x,
        y,
        c,
    ) by {
        lemma_tile_image_bounds(a, s, cols, rows);
        lemma_tile_image_bounds(b, s, cols, rows);
        if in_tile(a, s, x, y) && in_tile(b, s, x, y) {
            lemma_tiles_disjoint(a, b, s, x, y);
        }
        if in_tile(a, s, x, y) {
            let xb = x - a.0 * s + b.0 * s;
            let yb = y - a.1 * s + b.1 * s;
            if in_tile(a, s, xb, yb) && in_tile(b, s, xb, yb) {
                lemma_tiles_disjoint(a, b, s, xb, yb);
            }
            assert(im2.chan(x, y, c) == im1.chan(xb, yb, c));
            assert(im1.chan(xb, yb, c) == im0.chan(x, y, c));
        } else if in_tile(b, s, x, y) {
            let xa = x - b.0 * s + a.0 * s;
            let ya = y - b.1 * s + a.1 * s;
            if in_tile(a, s, xa, ya) && in_tile(b, s, xa, ya) {
                lemma_tiles_disjoint(a, b, s, xa, ya);
            }
            assert(im2.chan(x, y, c) == im1.chan(xa, ya, c));
            assert(im1.chan(xa, ya, c) == im0.chan(x, y, c));
        } else {
            assert(im2.chan(x, y, c) == im1.chan(x, y, c));
            assert(im1.chan(x, y, c) == im0.chan(x, y, c));
        }
    }
    lemma_bytes_from_chans(im0, im2);
}

/// Tile `t1` of `im1` shows exactly the content tile `t0` of `im0` held.
pub open spec fn tiles_equal(
    im0: Raster,
    t0: (u32, u32),
    im1: Raster,
    t1: (u32, u32),
    s: u32,
) -> bool {
    forall|u: int, v: int, c: int|
        0 <= u < s && 0 <= v < s && 0 <= c < 3 ==> #[trigger] im1.chan(
            t1.0 * s + u,
            t1.1 * s + v,
            c,
        ) == im0.chan(t0.0 * s + u, t0.1 * s + v, c)
}

/// A tile swap permutes tile contents by a transposition: tile `a` takes
/// tile `b`'s content, tile `b` takes tile `a`'s, and every other tile
/// keeps its own. The multiset of tile contents is therefore preserved.
pub proof fn lemma_swap_permutes_tiles(
    im0: Raster,
    im1: Raster,
    a: (u32, u32),
    b: (u32, u32),
    s: u32,
    cols: u32,
    rows: u32,
)
    requires
        s >= 1,
        im0.width_spec() == cols * s,
        im0.height_spec() == rows * s,
        a.0 < cols,
        a.1 < rows,
        b.0 < cols,
        b.1 < rows,
        swap_rel(im0, im1, a, b, s),
    ensures
        tiles_equal(im0, b, im1, a, s),
        tiles_equal(im0, a, im1, b, s),
        forall|t: (u32, u32)|
            t.0 < cols && t.1 < rows && t != a && t != b ==> #[trigger] tiles_equal(
                im0,
                t,
                im1,
                t,
                s,
            ),
{
    lemma_tile_image_bounds(a, s, cols, rows);
    lemma_tile_image_bounds(b, s, cols, rows);
    assert forall|u: int, v: int, c: int|
        0 <= u < s && 0 <= v < s && 0 <= c < 3 implies #[trigger] im1.chan(
        a.0 * s + u,
        a.1 * s + v,
        c,
    ) == im0.chan(b.0 * s + u, b.1 * s + v, c) by {
        assert(in_tile(a, s, a.0 * s + u, a.1 * s + v));
    }
    assert forall|u: int, v: int, c: int|
        0 <= u < s && 0 <= v < s && 0 <= c < 3 implies #[trigger] im1.chan(
        b.0 * s + u,
        b.1 * s + v,
        c,
    ) == im0.chan(a.0 * s + u, a.1 * s + v, c) by {
        let x = b.0 * s + u;
        let y = b.1 * s + v;
        assert(in_tile(b, s, x, y));
        if in_tile(a, s, x, y) {
            lemma_tiles_disjoint(a, b, s, x, y);
        }
    }
    assert forall|t: (u32, u32)|
        t.0 < cols && t.1 < rows && t != a && t != b implies #[trigger] tiles_equal(
        im0,
        t,
        im1,
        t,
        s,
    ) by {
        lemma_tile_image_bounds(t, s, cols, rows);
        assert forall|u: int, v: int, c: int|
            0 <= u < s && 0 <= v < s && 0 <= c < 3 implies #[trigger] im1.chan(
            t.0 * s + u,
            t.1 * s + v,
            c,
        ) == im0.chan(t.0 * s + u, t.1 * s + v, c) by {
            let x = t.0 * s + u;
            let y = t.1 * s + v;
            assert(in_tile(t, s, x, y));
            if in_tile(a, s, x, y) {
                lemma_tiles_disjoint(a, t, s, x, y);
            }
            if in_tile(b, s, x, y) {
                lemma_tiles_disjoint(b, t, s, x, y);
            }
        }
    }
}

/// The bytes of tile `t`: row-major within the tile, channel order R, G, B.
pub open spec fn tile_content(im: Raster, t: (u32, u32), s: u32) -> Seq<u8> {
    Seq::new(
        (3 * (s as int) * (s as int)) as nat,
        |k: int|
            im.chan(
                t.0 * s + (k / 3) % (s as int),
                t.1 * s + (k / 3) / (s as int),
                k % 3,
            ),
    )
}

/// The contents of every tile of the grid, row-major over the grid.
pub open spec fn tiles_seq(im: Raster, cols: u32, rows: u32, s: u32) -> Seq<Seq<u8>> {
    Seq::new(
        ((cols as int) * (rows as int)) as nat,
        |i: int| tile_content(im, ((i % (cols as int)) as u32, (i / (cols as int)) as u32), s),
    )
}

/// Tiles that show the same content have equal content sequences.
proof fn lemma_tile_content_eq(im0: Raster, t0: (u32, u32), im1: Raster, t1: (u32, u32), s: u32)
    requires
        s >= 1,
        tiles_equal(im0, t0, im1, t1, s),
    ensures
        tile_content(im1, t1, s) == tile_content(im0, t0, s),
{
    let si = s as int;
    assert forall|k: int| 0 <= k < 3 * si * si implies tile_content(im1, t1, s)[k]
        == tile_content(im0, t0, s)[k] by {
        assert((si * si) * 3 == 3 * si * si && 3 * (si * si) == 3 * si * si) by (nonlinear_arith);
        lemma_div_mod_decompose(k, 3, si * si);
        lemma_div_mod_decompose(k / 3, si, si);
        let u = (k / 3) % si;
        let v = (k / 3) / si;
        let c = k % 3;
        assert(im1.chan(t1.0 * s + u, t1.1 * s + v, c) == im0.chan(t0.0 * s + u, t0.1 * s + v, c));
    }
    assert(tile_content(im1, t1, s) =~= tile_content(im0, t0, s));
}

/// The multiset of a five-part concatenation is the sum of the parts.
proof fn lemma_concat5_multiset<A>(a: Seq<A>, b: Seq<A>, c: Seq<A>, d: Seq<A>, e: Seq<A>)
    ensures
        (a + b + c + d + e).to_multiset() == a.to_multiset().add(b.to_multiset()).add(
            c.to_multiset(),
        ).add(d.to_multiset()).add(e.to_multiset()),
{
    lemma_multiset_commutative(a + b + c + d, e);
    lemma_multiset_commutative(a + b + c, d);
    lemma_multiset_commutative(a + b, c);
    lemma_multiset_commutative(a, b);
}

/// Exchanging two positions of a sequence leaves its multiset unchanged.
proof fn lemma_swap_update_multiset<A>(s: Seq<A>, i: int, j: int)
    requires
        0 <= i < s.len(),
        0 <= j < s.len(),
    ensures
        s.update(i, s[j]).update(j, s[i]).to_multiset() == s.to_multiset(),
{
    let t = s.update(i, s[j]).update(j, s[i]);
    if i == j {
        assert(t =~= s);
    } else {
        let lo = if i < j {
            i
        } else {
            j
        };
        let hi = if i < j {
            j
        } else {
            i
        };
        let front = s.subrange(0, lo);
        let mid = s.subrange(lo + 1, hi);
        let back = s.subrange(hi + 1, s.len() as int);
        assert(s =~= front + seq![s[lo]] + mid + seq![s[hi]] + back);
        assert(t =~= front + seq![s[hi]] + mid + seq![s[lo]] + back);
        lemma_concat5_multiset(front, seq![s[lo]], mid, seq![s[hi]], back);
        lemma_concat5_multiset(front, seq![s[hi]], mid, seq![s[lo]], back);
        assert(t.to_multiset() =~= s.to_multiset());
    }
}

/// Multiset preservation: a tile swap leaves the multiset of tile contents
/// equal to the initial one.
pub proof fn lemma_swap_preserves_tile_multiset(
    im0: Raster,
    im1: Raster,
    a: (u32, u32),
    b: (u32, u32),
    s: u32,
    cols: u32,
    rows: u32,
)
    requires
        s >= 1,
        im0.width_spec() == cols * s,
        im0.height_spec() == rows * s,
        a.0 < cols,
        a.1 < rows,
        b.0 < cols,
        b.1 < rows,
        swap_rel(im0, im1, a, b, s),
    ensures
        tiles_seq(im1, cols, rows, s).to_multiset() == tiles_seq(im0, cols, rows, s).to_multiset(),
{
    lemma_swap_permutes_tiles(im0, im1, a, b, s, cols, rows);
    let ci = cols as int;
    let ri = rows as int;
    let t0 = tiles_seq(im0, cols, rows, s);
    let t1 = tiles_seq(im1, cols, rows, s);
    let ia = (a.1 as int) * ci + (a.0 as int);
    let ib = (b.1 as int) * ci + (b.0 as int);
    lemma_cell_decompose(a.0 as int, a.1 as int, ci);
    lemma_cell_decompose(b.0 as int, b.1 as int, ci);
    assert(ri * ci == ci * ri) by (nonlinear_arith);
    assert(0 <= ia < ci * ri && 0 <= ib < ci * ri) by (nonlinear_arith)
        requires
            0 <= a.0 < ci,
            0 <= a.1 < ri,
            0 <= b.0 < ci,
            0 <= b.1 < ri,
            ia == (a.1 as int) * ci + (a.0 as int),
            ib == (b.1 as int) * ci + (b.0 as int),
    ;
    assert forall|i: int| 0 <= i < ci * ri implies t1[i] == t0.update(ia, t0[ib]).update(
        ib,
        t0[ia],
    )[i] by {
        lemma_div_mod_decompose(i, ci, ri);
        let t = ((i % ci) as u32, (i / ci) as u32);
        if i == ia {
            assert(t == a);
            lemma_tile_content_eq(im0, b, im1, a, s);
        }
        if i == ib {
            assert(t == b);
            lemma_tile_content_eq(im0, a, im1, b, s);
        }
        if i != ia && i != ib {
            assert(t != a && t != b);
            assert(tiles_equal(im0, t, im1, t, s));
            lemma_tile_content_eq(im0, t, im1, t, s);
        }
    }
    assert(t1 =~= t0.update(ia, t0[ib]).update(ib, t0[ia]));
    lemma_swap_update_multiset(t0, ia, ib);
}

/// A tile content rotated as `rot_tile` rotates the pixel rectangle: local
/// destination `(u, v)` shows the source cell `rot_src(dir, u, v, s)`.
pub open spec fn rot_content(c: Seq<u8>, dir: RotateDirection, s: u32) -> Seq<u8> {
    Seq::new(
        (3 * (s as int) * (s as int)) as nat,
        |k: int|
            {
                let u = (k / 3) % (s as int);
                let v = (k / 3) / (s as int);
                let sx = rot_src(dir, u, v, s).0;
                let sy = rot_src(dir, u, v, s).1;
                c[3 * (sy * (s as int) + sx) + (k % 3)]
            },
    )
}

/// A tile rotation only rewrites the rotated tile, and rewrites it to the
/// stated rotation of its own content: together with the swap transposition
/// this keeps the multiset of tile contents up to rotation.
pub proof fn lemma_rotate_permutes_tiles(
    im0: Raster,
    im1: Raster,
    t: (u32, u32),
    dir: RotateDirection,
    s: u32,
    cols: u32,
    rows: u32,
)
    requires
        s >= 1,
        im0.width_spec() == cols * s,
        im0.height_spec() == rows * s,
        t.0 < cols,
        t.1 < rows,
        rot_rel(im0, im1, t, dir, s),
    ensures
        tile_content(im1, t, s) == rot_content(tile_content(im0, t, s), dir, s),
        forall|t2: (u32, u32)|
            t2.0 < cols && t2.1 < rows && t2 != t ==> #[trigger] tiles_equal(im0, t2, im1, t2, s),
{
    let si = s as int;
    lemma_tile_image_bounds(t, s, cols, rows);
    assert forall|k: int| 0 <= k < 3 * si * si implies tile_content(im1, t, s)[k] == rot_content(
        tile_content(im0, t, s),
        dir,
        s,
    )[k] by {
        assert((si * si) * 3 == 3 * si * si && 3 * (si * si) == 3 * si * si) by (nonlinear_arith);
        lemma_div_mod_decompose(k, 3, si * si);
        lemma_div_mod_decompose(k / 3, si, si);
        let u = (k / 3) % si;
        let v = (k / 3) / si;
        let ch = k % 3;
        let sx = rot_src(dir, u, v, s).0;
        let sy = rot_src(dir, u, v, s).1;
        let x = t.0 * s + u;
        let y = t.1 * s + v;
        assert(in_tile(t, s, x, y));
        assert(im1.chan(x, y, ch) == im0.chan(t.0 * s + sx, t.1 * s + sy, ch));
        lemma_pixel_in_bounds(sx, sy, si, si);
        lemma_cell_decompose(sx, sy, si);
        let p = sy * si + sx;
        assert(p * 3 == 3 * p) by (nonlinear_arith);
        lemma_cell_decompose(ch, p, 3);
        assert(tile_content(im0, t, s)[3 * p + ch] == im0.chan(t.0 * s + sx, t.1 * s + sy, ch));
    }
    assert(tile_content(im1, t, s) =~= rot_content(tile_content(im0, t, s), dir, s));
    assert forall|t2: (u32, u32)|
        t2.0 < cols && t2.1 < rows && t2 != t implies #[trigger] tiles_equal(
        im0,
        t2,
        im1,
        t2,
        s,
    ) by {
        lemma_tile_image_bounds(t2, s, cols, rows);
        assert forall|u: int, v: int, c: int|
            0 <= u < s && 0 <= v < s && 0 <= c < 3 implies #[trigger] im1.chan(
            t2.0 * s + u,
            t2.1 * s + v,
            c,
        ) == im0.chan(t2.0 * s + u, t2.1 * s + v, c) by {
            let x = t2.0 * s + u;
            let y = t2.1 * s + v;
            assert(in_tile(t2, s, x, y));
            if in_tile(t, s, x, y) {
                lemma_tiles_disjoint(t, t2, s, x, y);
            }
        }
    }
}

/// The quarter-turn count of applying `d1` and then `d2`, modulo a full
/// turn; `None` is the identity.
pub open spec fn compose_turns(d1: RotateDirection, d2: RotateDirection) -> Option<
    RotateDirection,
> {
    match (d1, d2) {
        (RotateDirection::Rotate90, RotateDirection::Rotate90) => Some(RotateDirection::Rotate180),
        (RotateDirection::Rotate90, RotateDirection::Rotate180) => Some(
            RotateDirection::Rotate270,
        ),
        (RotateDirection::Rotate90, RotateDirection::Rotate270) => None,
        (RotateDirection::Rotate180, RotateDirection::Rotate90) => Some(
            RotateDirection::Rotate270,
        ),
        (RotateDirection::Rotate180, RotateDirection::Rotate180) => None,
        (RotateDirection::Rotate180, RotateDirection::Rotate270) => Some(
            RotateDirection::Rotate90,
        ),
        (RotateDirection::Rotate270, RotateDirection::Rotate90) => None,
        (RotateDirection::Rotate270, RotateDirection::Rotate180) => Some(
            RotateDirection::Rotate90,
        ),
        (RotateDirection::Rotate270, RotateDirection::Rotate270) => Some(
            RotateDirection::Rotate180,
        ),
    }
}

/// Content rotations compose as quarter turns do.
proof fn lemma_rot_content_compose(c: Seq<u8>, s: u32, d1: RotateDirection, d2: RotateDirection)
    requires
        s >= 1,
        c.len() == 3 * (s as int) * (s as int),
    ensures
        rot_content(rot_content(c, d1, s), d2, s) == (match compose_turns(d1, d2) {
            Some(d) => rot_content(c, d, s),
            None => c,
        }),
{
    let si = s as int;
    let lhs = rot_content(rot_content(c, d1, s), d2, s);
    let rhs = match compose_turns(d1, d2) {
        Some(d) => rot_content(c, d, s),
        None => c,
    };
    assert forall|k: int| 0 <= k < 3 * si * si implies lhs[k] == rhs[k] by {
        assert((si * si) * 3 == 3 * si * si && 3 * (si * si) == 3 * si * si) by (nonlinear_arith);
        lemma_div_mod_decompose(k, 3, si * si);
        lemma_div_mod_decompose(k / 3, si, si);
        let u = (k / 3) % si;
        let v = (k / 3) / si;
        let ch = k % 3;
        let m2 = rot_src(d2, u, v, s);
        lemma_pixel_in_bounds(m2.0, m2.1, si, si);
        lemma_cell_decompose(m2.0, m2.1, si);
        let p2 = m2.1 * si + m2.0;
        assert(p2 * 3 == 3 * p2) by (nonlinear_arith);
        lemma_cell_decompose(ch, p2, 3);
        let m1 = rot_src(d1, m2.0, m2.1, s);
        assert(lhs[k] == c[3 * (m1.1 * si + m1.0) + ch]);
        match compose_turns(d1, d2) {
            Some(d) => {
                let m3 = rot_src(d, u, v, s);
                assert(m1 == m3);
            },
            None => {
                let p = k / 3;
                assert(m1.0 == u && m1.1 == v);
                assert(v * si + u == p);
                assert(p * 3 == 3 * p) by (nonlinear_arith);
                assert(3 * (v * si + u) + ch == k);
            },
        }
    }
    assert(lhs =~= rhs);
}

/// The orbit of a tile content under the four rotations.
pub open spec fn tile_orbit(c: Seq<u8>, s: u32) -> Set<Seq<u8>> {
    set![
        c,
        rot_content(c, RotateDirection::Rotate90, s),
        rot_content(c, RotateDirection::Rotate180, s),
        rot_content(c, RotateDirection::Rotate270, s),
    ]
}

/// Rotating a tile content does not change its orbit.
pub proof fn lemma_rotation_keeps_orbit(c: Seq<u8>, dir: RotateDirection, s: u32)
    requires
        s >= 1,
        c.len() == 3 * (s as int) * (s as int),
    ensures
        tile_orbit(rot_content(c, dir, s), s) == tile_orbit(c, s),
{
    lemma_rot_content_compose(c, s, dir, RotateDirection::Rotate90);
    lemma_rot_content_compose(c, s, dir, RotateDirection::Rotate180);
    lemma_rot_content_compose(c, s, dir, RotateDirection::Rotate270);
    assert(tile_orbit(rot_content(c, dir, s), s) =~= tile_orbit(c, s));
}

/// After a pass that preserves the multiset of tile contents, every tile
/// holds a content that some tile of the original raster held. In
/// particular, a raster of solid tiles stays a raster of solid tiles, and
/// the multiset of their colours is unchanged.
pub proof fn lemma_tile_after_swaps_is_original(
    im0: Raster,
    im1: Raster,
    cols: u32,
    rows: u32,
    s: u32,
    t: (u32, u32),
)
    requires
        t.0 < cols,
        t.1 < rows,
        tiles_seq(im1, cols, rows, s).to_multiset() == tiles_seq(im0, cols, rows, s).to_multiset(),
    ensures
        exists|t0: (u32, u32)|
            t0.0 < cols && t0.1 < rows && tile_content(im1, t, s) == #[trigger] tile_content(
                im0,
                t0,
                s,
            ),
{
    broadcast use vstd::seq_lib::group_to_multiset_ensures;

    let ci = cols as int;
    let ri = rows as int;
    let sq0 = tiles_seq(im0, cols, rows, s);
    let sq1 = tiles_seq(im1, cols, rows, s);
    let it = (t.1 as int) * ci + (t.0 as int);
    lemma_cell_decompose(t.0 as int, t.1 as int, ci);
    assert(0 <= it < ci * ri) by (nonlinear_arith)
        requires
            0 <= t.0 < ci,
            0 <= t.1 < ri,
            it == (t.1 as int) * ci + (t.0 as int),
    ;
    let c = tile_content(im1, t, s);
    assert(sq1[it] == c);
    assert(sq1.contains(c));
    assert(sq0.to_multiset().count(c) > 0);
    assert(sq0.contains(c));
    let j = choose|j: int| 0 <= j < sq0.len() && sq0[j] == c;
    assert(ri * ci == ci * ri) by (nonlinear_arith);
    lemma_div_mod_decompose(j, ci, ri);
    let t0 = ((j % ci) as u32, (j / ci) as u32);
    assert(t0.0 < cols && t0.1 < rows && tile_content(im1, t, s) == tile_content(im0, t0, s));
}

/// An orbit is closed under rotation: rotating any member of a content's
/// orbit yields a member of the same orbit.
pub proof fn lemma_orbit_closed_under_rotation(c: Seq<u8>, x: Seq<u8>, dir: RotateDirection, s: u32)
    requires
        s >= 1,
        c.len() == 3 * (s as int) * (s as int),
        tile_orbit(c, s).contains(x),
    ensures
        tile_orbit(c, s).contains(rot_content(x, dir, s)),
{
    lemma_rot_content_compose(c, s, RotateDirection::Rotate90, dir);
    lemma_rot_content_compose(c, s, RotateDirection::Rotate180, dir);
    lemma_rot_content_compose(c, s, RotateDirection::Rotate270, dir);
}

/// One step of the rotate pass keeps every tile's content inside the
/// rotation orbit of the content it originally held, in place.
pub proof fn lemma_rotate_step_keeps_orbits(
    im_old: Raster,
    im_prev: Raster,
    im_cur: Raster,
    t: (u32, u32),
    dir: RotateDirection,
    s: u32,
    cols: u32,
    rows: u32,
)
    requires
        s >= 1,
        im_old.width_spec() == cols * s,
        im_old.height_spec() == rows * s,
        im_prev.width_spec() == cols * s,
        im_prev.height_spec() == rows * s,
        t.0 < cols,
        t.1 < rows,
        rot_rel(im_prev, im_cur, t, dir, s),
        forall|t2: (u32, u32)|
            t2.0 < cols && t2.1 < rows ==> #[trigger] tile_orbit(
                tile_content(im_old, t2, s),
                s,
            ).contains(tile_content(im_prev, t2, s)),
    ensures
        forall|t2: (u32, u32)|
            t2.0 < cols && t2.1 < rows ==> #[trigger] tile_orbit(
                tile_content(im_old, t2, s),
                s,
            ).contains(tile_content(im_cur, t2, s)),
{
    lemma_rotate_permutes_tiles(im_prev, im_cur, t, dir, s, cols, rows);
    assert forall|t2: (u32, u32)| t2.0 < cols && t2.1 < rows implies #[trigger] tile_orbit(
        tile_content(im_old, t2, s),
        s,
    ).contains(tile_content(im_cur, t2, s)) by {
        if t2 == t {
            lemma_orbit_closed_under_rotation(
                tile_content(im_old, t, s),
                tile_content(im_prev, t, s),
                dir,
                s,
            );
        } else {
            lemma_tile_content_eq(im_prev, t2, im_cur, t2, s);
        }
    }
}

/// The rotation orbits of every tile of the grid, row-major over the grid.
pub open spec fn orbits_seq(im: Raster, cols: u32, rows: u32, s: u32) -> Seq<Set<Seq<u8>>> {
    Seq::new(
        ((cols as int) * (rows as int)) as nat,
        |i: int|
            tile_orbit(
                tile_content(im, ((i % (cols as int)) as u32, (i / (cols as int)) as u32), s),
                s,
            ),
    )
}

/// Multiset preservation: a tile swap keeps the multiset of tile orbits.
pub proof fn lemma_swap_preserves_orbit_multiset(
    im0: Raster,
    im1: Raster,
    a: (u32, u32),
    b: (u32, u32),
    s: u32,
    cols: u32,
    rows: u32,
)
    requires
        s >= 1,
        im0.width_spec() == cols * s,
        im0.height_spec() == rows * s,
        a.0 < cols,
        a.1 < rows,
        b.0 < cols,
        b.1 < rows,
        swap_rel(im0, im1, a, b, s),
    ensures
        orbits_seq(im1, cols, rows, s).to_multiset() == orbits_seq(
            im0,
            cols,
            rows,
            s,
        ).to_multiset(),
{
    lemma_swap_permutes_tiles(im0, im1, a, b, s, cols, rows);
    let ci = cols as int;
    let ri = rows as int;
    let o0 = orbits_seq(im0, cols, rows, s);
    let o1 = orbits_seq(im1, cols, rows, s);
    let ia = (a.1 as int) * ci + (a.0 as int);
    let ib = (b.1 as int) * ci + (b.0 as int);
    lemma_cell_decompose(a.0 as int, a.1 as int, ci);
    lemma_cell_decompose(b.0 as int, b.1 as int, ci);
    assert(ri * ci == ci * ri) by (nonlinear_arith);
    assert(0 <= ia < ci * ri && 0 <= ib < ci * ri) by (nonlinear_arith)
        requires
            0 <= a.0 < ci,
            0 <= a.1 < ri,
            0 <= b.0 < ci,
            0 <= b.1 < ri,
            ia == (a.1 as int) * ci + (a.0 as int),
            ib == (b.1 as int) * ci + (b.0 as int),
    ;
    assert forall|i: int| 0 <= i < ci * ri implies o1[i] == o0.update(ia, o0[ib]).update(
        ib,
        o0[ia],
    )[i] by {
        lemma_div_mod_decompose(i, ci, ri);
        let t = ((i % ci) as u32, (i / ci) as u32);
        if i == ia {
            assert(t == a);
            lemma_tile_content_eq(im0, b, im1, a, s);
        }
        if i == ib {
            assert(t == b);
            lemma_tile_content_eq(im0, a, im1, b, s);
        }
        if i != ia && i != ib {
            assert(t != a && t != b);
            assert(tiles_equal(im0, t, im1, t, s));
            lemma_tile_content_eq(im0, t, im1, t, s);
        }
    }
    assert(o1 =~= o0.update(ia, o0[ib]).update(ib, o0[ia]));
    lemma_swap_update_multiset(o0, ia, ib);
}

/// Multiset preservation: a tile rotation keeps the multiset of tile
/// orbits. With the swap case, any sequence of the two operators keeps the
/// multiset of tile orbits equal to the initial one.
pub proof fn lemma_rotate_preserves_orbit_multiset(
    im0: Raster,
    im1: Raster,
    t: (u32, u32),
    dir: RotateDirection,
    s: u32,
    cols: u32,
    rows: u32,
)
    requires
        s >= 1,
        im0.width_spec() == cols * s,
        im0.height_spec() == rows * s,
        t.0 < cols,
        t.1 < rows,
        rot_rel(im0, im1, t, dir, s),
    ensures
        orbits_seq(im1, cols, rows, s).to_multiset() == orbits_seq(
            im0,
            cols,
            rows,
            s,
        ).to_multiset(),
{
    lemma_rotate_permutes_tiles(im0, im1, t, dir, s, cols, rows);
    let ci = cols as int;
    let ri = rows as int;
    let o0 = orbits_seq(im0, cols, rows, s);
    let o1 = orbits_seq(im1, cols, rows, s);
    let it = (t.1 as int) * ci + (t.0 as int);
    lemma_cell_decompose(t.0 as int, t.1 as int, ci);
    assert(ri * ci == ci * ri) by (nonlinear_arith);
    assert forall|i: int| 0 <= i < ci * ri implies o1[i] == o0[i] by {
        lemma_div_mod_decompose(i, ci, ri);
        let t2 = ((i % ci) as u32, (i / ci) as u32);
        if i == it {
            assert(t2 == t);
            lemma_rotation_keeps_orbit(tile_content(im0, t, s), dir, s);
        } else {
            assert(t2 != t);
            assert(tiles_equal(im0, t2, im1, t2, s));
            lemma_tile_content_eq(im0, t2, im1, t2, s);
        }
    }
    assert(o1 =~= o0);
}

/// A valid tile's rectangle lies inside the raster.
proof fn lemma_tile_image_bounds(t: (u32, u32), s: u32, cols: u32, rows: u32)
    requires
        s >= 1,
        t.0 < cols,
        t.1 < rows,
    ensures
        0 <= t.0 * s,
        t.0 * s + s <= cols * s,
        0 <= t.1 * s,
        t.1 * s + s <= rows * s,
{
    assert(0 <= t.0 * s && t.0 * s + s <= cols * s) by (nonlinear_arith)
        requires
            s >= 1,
            t.0 < cols,
    ;
    assert(0 <= t.1 * s && t.1 * s + s <= rows * s) by (nonlinear_arith)
        requires
            s >= 1,
            t.1 < rows,
    ;
}

/// One step of pixel chasing through a rotation: the channel a rotated
/// raster shows inside the tile.
proof fn lemma_rot_step(
    im0: Raster,
    im1: Raster,
    t: (u32, u32),
    dir: RotateDirection,
    s: u32,
    cols: u32,
    rows: u32,
    u: int,
    v: int,
    c: int,
)
    requires
        s >= 1,
        im0.width_spec() == cols * s,
        im0.height_spec() == rows * s,
        t.0 < cols,
        t.1 < rows,
        rot_rel(im0, im1, t, dir, s),
        0 <= u < s,
        0 <= v < s,
        0 <= c < 3,
    ensures
        im1.chan(t.0 * s + u, t.1 * s + v, c) == im0.chan(
            t.0 * s + rot_src(dir, u, v, s).0,
            t.1 * s + rot_src(dir, u, v, s).1,
            c,
        ),
{
    lemma_tile_image_bounds(t, s, cols, rows);
    let x = t.0 * s + u;
    let y = t.1 * s + v;
    assert(in_tile(t, s, x, y));
    assert(im1.chan(x, y, c) == im0.chan(
        t.0 * s + rot_src(dir, x - t.0 * s, y - t.1 * s, s).0,
        t.1 * s + rot_src(dir, x - t.0 * s, y - t.1 * s, s).1,
        c,
    ));
}

/// Rotation order: a clockwise quarter turn applied four times restores
/// the raster byte-for-byte.
pub proof fn lemma_rotate90_four_times(
    im0: Raster,
    im1: Raster,
    im2: Raster,
    im3: Raster,
    im4: Raster,
    t: (u32, u32),
    s: u32,
    cols: u32,
    rows: u32,
)
    requires
        s >= 1,
        im0.wf(),
        im1.wf(),
        im2.wf(),
        im3.wf(),
        im4.wf(),
        im0.width_spec() == cols * s,
        im0.height_spec() == rows * s,
        t.0 < cols,
        t.1 < rows,
        rot_rel(im0, im1, t, RotateDirection::Rotate90, s),
        rot_rel(im1, im2, t, RotateDirection::Rotate90, s),
        rot_rel(im2, im3, t, RotateDirection::Rotate90, s),
        rot_rel(im3, im4, t, RotateDirection::Rotate90, s),
    ensures
        im4.bytes() == im0.bytes(),
{
    let w = im0.width_spec() as int;
    let h = im0.height_spec() as int;
    assert forall|x: int, y: int, c: int|
        0 <= x < w && 0 <= y < h && 0 <= c < 3 implies #[trigger] im4.chan(x, y, c) == im0.chan(
        x,
        y,
        c,
    ) by {
        if in_tile(t, s, x, y) {
            let d = RotateDirection::Rotate90;
            let u = x - t.0 * s;
            let v = y - t.1 * s;
            lemma_rot_step(im3, im4, t, d, s, cols, rows, u, v, c);
            lemma_rot_step(im2, im3, t, d, s, cols, rows, v, s - 1 - u, c);
            lemma_rot_step(im1, im2, t, d, s, cols, rows, s - 1 - u, s - 1 - v, c);
            lemma_rot_step(im0, im1, t, d, s, cols, rows, s - 1 - v, u, c);
        } else {
            assert(im4.chan(x, y, c) == im3.chan(x, y, c));
            assert(im3.chan(x, y, c) == im2.chan(x, y, c));
            assert(im2.chan(x, y, c) == im1.chan(x, y, c));
            assert(im1.chan(x, y, c) == im0.chan(x, y, c));
        }
    }
    lemma_bytes_from_chans(im0, im4);
}

/// Rotation order: a half turn applied twice restores the raster.
pub proof fn lemma_rotate180_twice(
    im0: Raster,
    im1: Raster,
    im2: Raster,
    t: (u32, u32),
    s: u32,
    cols: u32,
    rows: u32,
)
    requires
        s >= 1,
        im0.wf(),
        im1.wf(),
        im2.wf(),
        im0.width_spec() == cols * s,
        im0.height_spec() == rows * s,
        t.0 < cols,
        t.1 < rows,
        rot_rel(im0, im1, t, RotateDirection::Rotate180, s),
        rot_rel(im1, im2, t, RotateDirection::Rotate180, s),
    ensures
        im2.bytes() == im0.bytes(),
{
    let w = im0.width_spec() as int;
    let h = im0.height_spec() as int;
    assert forall|x: int, y: int, c: int|
        0 <= x < w && 0 <= y < h && 0 <= c < 3 implies #[trigger] im2.chan(x, y, c) == im0.chan(
        x,
        y,
        c,
    ) by {
        if in_tile(t, s, x, y) {
            let d = RotateDirection::Rotate180;
            let u = x - t.0 * s;
            let v = y - t.1 * s;
            lemma_rot_step(im1, im2, t, d, s, cols, rows, u, v, c);
            lemma_rot_step(im0, im1, t, d, s, cols, rows, s - 1 - u, s - 1 - v, c);
        } else {
            assert(im2.chan(x, y, c) == im1.chan(x, y, c));
            assert(im1.chan(x, y, c) == im0.chan(x, y, c));
        }
    }
    lemma_bytes_from_chans(im0, im2);
}

/// Rotation order: a counter-clockwise quarter turn applied four times
/// restores the raster.
pub proof fn lemma_rotate270_four_times(
    im0: Raster,
    im1: Raster,
    im2: Raster,
    im3: Raster,
    im4: Raster,
    t: (u32, u32),
    s: u32,
    cols: u32,
    rows: u32,
)
    requires
        s >= 1,
        im0.wf(),
        im1.wf(),
        im2.wf(),
        im3.wf(),
        im4.wf(),
        im0.width_spec() == cols * s,
        im0.height_spec() == rows * s,
        t.0 < cols,
        t.1 < rows,
        rot_rel(im0, im1, t, RotateDirection::Rotate270, s),
        rot_rel(im1, im2, t, RotateDirection::Rotate270, s),
        rot_rel(im2, im3, t, RotateDirection::Rotate270, s),
        rot_rel(im3, im4, t, RotateDirection::Rotate270, s),
    ensures
        im4.bytes() == im0.bytes(),
{
    let w = im0.width_spec() as int;
    let h = im0.height_spec() as int;
    assert forall|x: int, y: int, c: int|
        0 <= x < w && 0 <= y < h && 0 <= c < 3 implies #[trigger] im4.chan(x, y, c) == im0.chan(
        x,
        y,
        c,
    ) by {
        if in_tile(t, s, x, y) {
            let d = RotateDirection::Rotate270;
            let u = x - t.0 * s;
            let v = y - t.1 * s;
            lemma_rot_step(im3, im4, t, d, s, cols, rows, u, v, c);
            lemma_rot_step(im2, im3, t, d, s, cols, rows, s - 1 - v, u, c);
            lemma_rot_step(im1, im2, t, d, s, cols, rows, s - 1 - u, s - 1 - v, c);
            lemma_rot_step(im0, im1, t, d, s, cols, rows, v, s - 1 - u, c);
        } else {
            assert(im4.chan(x, y, c) == im3.chan(x, y, c));
            assert(im3.chan(x, y, c) == im2.chan(x, y, c));
            assert(im2.chan(x, y, c) == im1.chan(x, y, c));
            assert(im1.chan(x, y, c) == im0.chan(x, y, c));
        }
    }
    lemma_bytes_from_chans(im0, im4);
}

/// Rotation order: a clockwise quarter turn followed by a counter-clockwise
/// quarter turn on the same tile restores the raster.
pub proof fn lemma_rotate90_then_270(
    im0: Raster,
    im1: Raster,
    im2: Raster,
    t: (u32, u32),
    s: u32,
    cols: u32,
    rows: u32,
)
    requires
        s >= 1,
        im0.wf(),
        im1.wf(),
        im2.wf(),
        im0.width_spec() == cols * s,
        im0.height_spec() == rows * s,
        t.0 < cols,
        t.1 < rows,
        rot_rel(im0, im1, t, RotateDirection::Rotate90, s),
        rot_rel(im1, im2, t, RotateDirection::Rotate270, s),
    ensures
        im2.bytes() == im0.bytes(),
{
    let w = im0.width_spec() as int;
    let h = im0.height_spec() as int;
    assert forall|x: int, y: int, c: int|
        0 <= x < w && 0 <= y < h && 0 <= c < 3 implies #[trigger] im2.chan(x, y, c) == im0.chan(
        x,
        y,
        c,
    ) by {
        if in_tile(t, s, x, y) {
            let u = x - t.0 * s;
            let v = y - t.1 * s;
            lemma_rot_step(im1, im2, t, RotateDirection::Rotate270, s, cols, rows, u, v, c);
            lemma_rot_step(im0, im1, t, RotateDirection::Rotate90, s, cols, rows, s - 1 - v, u, c);
        } else {
            assert(im2.chan(x, y, c) == im1.chan(x, y, c));
            assert(im1.chan(x, y, c) == im0.chan(x, y, c));
        }
    }
    lemma_bytes_from_chans(im0, im2);
}

} // verus!
