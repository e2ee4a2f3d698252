//! Procedural flower-patch raster: scatters chunky blossoms on a transparent
//! tile. Renders only the colour it is handed — no second hue is introduced.

use vstd::prelude::*;
use crate::random::{random_bool, random_i32_in, seeded_rng};

verus! {

/// Tunables for one flower patch.
pub struct FlowerPatchParams {
    pub canvas: usize,
    pub blossoms: usize,
    pub petal: usize,
    pub arm: usize,
    pub margin: usize,
}

impl Default for FlowerPatchParams {
    fn default() -> (p: Self)
        ensures
            p.canvas == 32,
            p.blossoms == 4,
            p.petal == 5,
            p.arm == 3,
            p.margin == 7,
    {
        Self { canvas: 32, blossoms: 4, petal: 5, arm: 3, margin: 7 }
    }
}

/// `x` moved `k` percent of the way to `y`, rounded half away from zero.
pub open spec fn mix_spec(x: int, y: int, k: int) -> int {
    (2 * (100 * x + (y - x) * k) + 100) / 200
}

/// A color moved `k` percent of the way to `target`, channel by channel.
pub open spec fn toward_spec(c: [u8; 3], target: [u8; 3], k: int) -> (int, int, int) {
    (mix_spec(c[0] as int, target[0] as int, k), mix_spec(c[1] as int, target[1] as int, k), mix_spec(c[2] as int, target[2] as int, k))
}

fn mix(x: u8, y: u8, k: u32) -> (r: u8)
    requires
        k <= 100,
    ensures
        r == mix_spec(x as int, y as int, k as int),
{
    let d: i64 = (y as i64) - (x as i64);
    proof {
        assert(-25500 <= d * (k as i64) <= 25500) by (nonlinear_arith)
            requires -255 <= d <= 255, 0 <= k <= 100;
    }
    let num: i64 = 100 * (x as i64) + d * (k as i64);
    proof {
        assert(0 <= num <= 25500) by (nonlinear_arith)
            requires num == 100 * x + (y - x) * k, 0 <= x <= 255, 0 <= y <= 255, 0 <= k <= 100;
    }
    ((2 * num + 100) / 200) as u8
}

/// `c` moved `k` percent of the way to `target`.
fn toward(c: [u8; 3], target: [u8; 3], k: u32) -> (r: [u8; 3])
    requires
        k <= 100,
    ensures
        r[0] == toward_spec(c, target, k as int).0,
        r[1] == toward_spec(c, target, k as int).1,
        r[2] == toward_spec(c, target, k as int).2,
{
    [mix(c[0], target[0], k), mix(c[1], target[1], k), mix(c[2], target[2], k)]
}

pub open spec fn clamp_u8(v: int) -> int {
    if v < 0 { 0 } else if v > 255 { 255 } else { v }
}

/// The RGBA of pixel `q` of a buffer.
pub open spec fn pix(px: Seq<u8>, q: int) -> (u8, u8, u8, u8) {
    (px[4 * q], px[4 * q + 1], px[4 * q + 2], px[4 * q + 3])
}

/// A petal pixel: opaque, the base color brightened or darkened by `shade`.
pub open spec fn petal_pix(base: (int, int, int), shade: int) -> (u8, u8, u8, u8) {
    (clamp_u8(base.0 + shade) as u8, clamp_u8(base.1 + shade) as u8, clamp_u8(base.2 + shade) as u8, 255u8)
}

/// Each pixel is either transparent black or an opaque petal shade in `-12..=12`.
pub open spec fn only_petals(px: Seq<u8>, n: int, base: (int, int, int)) -> bool {
    forall|q: int| 0 <= q < n * n ==> #[trigger] pix(px, q) == (0u8, 0u8, 0u8, 0u8)
        || exists|s: int| -12 <= s <= 12 && pix(px, q) == petal_pix(base, s)
}

/// Channel `i` (0 red, 1 green, 2 blue) of an RGBA pixel.
pub open spec fn chan(px: (u8, u8, u8, u8), i: int) -> int {
    if i == 0 { px.0 as int } else if i == 1 { px.1 as int } else { px.2 as int }
}

/// Channel `i` of a color.
pub open spec fn base_chan(c: (int, int, int), i: int) -> int {
    if i == 0 { c.0 } else if i == 1 { c.1 } else { c.2 }
}

/// A patch keeps the handed colour's channel order: wherever the colour's
/// channel `i` is no brighter than channel `j`, so is every painted pixel's.
pub proof fn lemma_patch_keeps_channel_order(px: Seq<u8>, n: int, color: [u8; 3], i: int, j: int)
    requires
        only_petals(px, n, toward_spec(color, [255u8, 255u8, 255u8], 15)),
        0 <= i < 3,
        0 <= j < 3,
        color[i] <= color[j],
    ensures
        forall|q: int| 0 <= q < n * n && (#[trigger] pix(px, q)).3 == 255 ==> chan(pix(px, q), i) <= chan(pix(px, q), j),
{
    let base = toward_spec(color, [255u8, 255u8, 255u8], 15);
    assert(base_chan(base, i) <= base_chan(base, j)) by {
        let xi = color[i] as int;
        let xj = color[j] as int;
        assert(mix_spec(xi, 255, 15) <= mix_spec(xj, 255, 15)) by (nonlinear_arith)
            requires xi <= xj;
    }
    assert forall|q: int| 0 <= q < n * n && (#[trigger] pix(px, q)).3 == 255 implies chan(pix(px, q), i) <= chan(pix(px, q), j) by {
        let s = choose|s: int| -12 <= s <= 12 && pix(px, q) == petal_pix(base, s);
        assert(chan(petal_pix(base, s), i) == clamp_u8(base_chan(base, i) + s));
        assert(chan(petal_pix(base, s), j) == clamp_u8(base_chan(base, j) + s));
    }
}

/// Pixel `q` of an `n`-wide tile lies in the `size × size` square centred on
/// `(cx, cy)`, whose top-left corner is `size / 2` up and left of the centre.
pub open spec fn in_square(q: int, n: int, cx: int, cy: int, size: int) -> bool {
    let x = q % n;
    let y = q / n;
    let half = size / 2;
    &&& cx - half <= x < cx - half + size
    &&& cy - half <= y < cy - half + size
}

/// Pixel `q` lies in a blossom: the centre square or one of the four squares
/// `arm` pixels above, below, left and right of it.
pub open spec fn in_blossom(q: int, n: int, cx: int, cy: int, size: int, arm: int) -> bool {
    ||| in_square(q, n, cx, cy, size)
    ||| in_square(q, n, cx, cy - arm, size)
    ||| in_square(q, n, cx, cy + arm, size)
    ||| in_square(q, n, cx - arm, cy, size)
    ||| in_square(q, n, cx + arm, cy, size)
}

/// The coordinates of a `size`-wide square centred on `c` fit an `i32`.
pub open spec fn span_fits(c: int, size: int) -> bool {
    &&& i32::MIN <= c - size / 2
    &&& c - size / 2 + size - 1 <= i32::MAX
}

/// A blossom's five squares, and the centres `arm` away, fit `i32` coordinates.
pub open spec fn blossom_fits(cx: int, cy: int, size: int, arm: int) -> bool {
    &&& 0 <= size <= i32::MAX
    &&& 0 <= arm <= i32::MAX
    &&& i32::MIN <= cx - arm && cx + arm <= i32::MAX
    &&& i32::MIN <= cy - arm && cy + arm <= i32::MAX
    &&& span_fits(cx - arm, size) && span_fits(cx + arm, size)
    &&& span_fits(cy - arm, size) && span_fits(cy + arm, size)
}

/// The patch's sizes fit the `i32` arithmetic that places blossoms: every
/// blossom the margin band admits, with its largest square, stays within
/// `i32` coordinates.
pub open spec fn patch_fits(p: FlowerPatchParams) -> bool {
    let lo = p.margin as int;
    let hi = if p.canvas - 1 - p.margin > lo { p.canvas - 1 - p.margin } else { lo };
    let m = if p.petal >= 1 { p.petal as int } else { 1 };
    &&& p.canvas <= i32::MAX
    &&& p.petal <= i32::MAX
    &&& p.arm <= i32::MAX
    &&& p.margin <= i32::MAX
    &&& hi + p.arm <= i32::MAX
    &&& hi + p.arm + m - m / 2 - 1 <= i32::MAX
}

/// Paint an opaque `size × size` square centred on `(cx, cy)`, clipped to the tile.
#[verifier::rlimit(40)]
fn block(buf: &mut Vec<u8>, n: usize, cx: i32, cy: i32, size: usize, col: [u8; 3])
    requires
        old(buf).len() == n * n * 4,
        n <= i32::MAX,
        size <= i32::MAX,
        span_fits(cx as int, size as int),
        span_fits(cy as int, size as int),
    ensures
        final(buf).len() == n * n * 4,
        forall|q: int| 0 <= q < n * n ==> #[trigger] pix(final(buf)@, q) == (if in_square(
            q,
            n as int,
            cx as int,
            cy as int,
            size as int,
        ) {
            (col[0], col[1], col[2], 255u8)
        } else {
            pix(old(buf)@, q)
        }),
{
    let ghost w = n as int;
    let half = size as i32 / 2;
    let ghost left = cx - half;
    let ghost top = cy - half;
    let mut dy: i32 = 0;
    while dy < size as i32
        invariant
            buf.len() == n * n * 4,
            w == n,
            n <= i32::MAX,
            size <= i32::MAX,
            span_fits(cx as int, size as int),
            span_fits(cy as int, size as int),
            half == size as int / 2,
            0 <= half <= i32::MAX / 2,
            left == cx - half,
            top == cy - half,
            0 <= dy <= size,
            forall|q: int| 0 <= q < n * n ==> #[trigger] pix(buf@, q) == (if in_square(q, w, cx as int, cy as int, size as int)
                && q / w - top < dy {
                (col[0], col[1], col[2], 255u8)
            } else {
                pix(old(buf)@, q)
            }),
        decreases size - dy,
    {
        let mut dx: i32 = 0;
        while dx < size as i32
            invariant
                buf.len() == n * n * 4,
                w == n,
                n <= i32::MAX,
                size <= i32::MAX,
                span_fits(cx as int, size as int),
                span_fits(cy as int, size as int),
                half == size as int / 2,
                0 <= half <= i32::MAX / 2,
                left == cx - half,
                top == cy - half,
                0 <= dy < size,
                0 <= dx <= size,
                forall|q: int| 0 <= q < n * n ==> #[trigger] pix(buf@, q) == (if in_square(q, w, cx as int, cy as int, size as int)
                    && (q / w - top < dy || (q / w - top == dy && q % w - left < dx)) {
                    (col[0], col[1], col[2], 255u8)
                } else {
                    pix(old(buf)@, q)
                }),
            decreases size - dx,
        {
            let x = cx - half + dx;
            let y = cy - half + dy;
            let ghost before = buf@;
            if !(x < 0 || y < 0 || x >= n as i32 || y >= n as i32) {
                proof {
                    crate::field::lemma_cell_at(y as int, x as int, w, w);
                }
                let cell = y as usize * n + x as usize;
                let idx = cell * 4;
                buf.set(idx, col[0]);
                buf.set(idx + 1, col[1]);
                buf.set(idx + 2, col[2]);
                buf.set(idx + 3, 255);
                assert forall|q: int| 0 <= q < n * n implies #[trigger] pix(buf@, q) == (if in_square(
                    q,
                    w,
                    cx as int,
                    cy as int,
                    size as int,
                ) && (q / w - top < dy || (q / w - top == dy && q % w - left < dx + 1)) {
                    (col[0], col[1], col[2], 255u8)
                } else {
                    pix(old(buf)@, q)
                }) by {
                    crate::field::lemma_cell_split(q, w, w);
                    if q != cell {
                        assert(pix(buf@, q) == pix(before, q));
                        if q / w == y && q % w == x {
                            assert(q == y * w + x);
                        }
                    }
                }
            } else {
                assert forall|q: int| 0 <= q < n * n implies #[trigger] pix(buf@, q) == (if in_square(
                    q,
                    w,
                    cx as int,
                    cy as int,
                    size as int,
                ) && (q / w - top < dy || (q / w - top == dy && q % w - left < dx + 1)) {
                    (col[0], col[1], col[2], 255u8)
                } else {
                    pix(old(buf)@, q)
                }) by {
                    crate::field::lemma_cell_split(q, w, w);
                }
            }
            dx += 1;
        }
        proof {
            assert forall|q: int| 0 <= q < n * n implies #[trigger] pix(buf@, q) == (if in_square(
                q,
                w,
                cx as int,
                cy as int,
                size as int,
            ) && q / w - top < dy + 1 {
                (col[0], col[1], col[2], 255u8)
            } else {
                pix(old(buf)@, q)
            }) by {
                crate::field::lemma_cell_split(q, w, w);
            }
        }
        dy += 1;
    }
}

/// Paints one blossom in `petal`: a plus of five `size × size` squares, the
/// centre one on `(cx, cy)` and the others `arm` pixels away along each axis,
/// clipped to the tile.
pub fn paint_blossom(buf: &mut Vec<u8>, n: usize, cx: i32, cy: i32, size: usize, arm: usize, petal: [u8; 3])
    requires
        old(buf).len() == n * n * 4,
        n <= i32::MAX,
        blossom_fits(cx as int, cy as int, size as int, arm as int),
    ensures
        final(buf).len() == n * n * 4,
        forall|q: int| 0 <= q < n * n ==> #[trigger] pix(final(buf)@, q) == (if in_blossom(
            q,
            n as int,
            cx as int,
            cy as int,
            size as int,
            arm as int,
        ) {
            (petal[0], petal[1], petal[2], 255u8)
        } else {
            pix(old(buf)@, q)
        }),
{
    let arm = arm as i32;
    block(buf, n, cx, cy, size, petal);
    block(buf, n, cx, cy - arm, size, petal);
    block(buf, n, cx, cy + arm, size, petal);
    block(buf, n, cx - arm, cy, size, petal);
    block(buf, n, cx + arm, cy, size, petal);
}

/// Index of the last blossom of `bl` (centre column, centre row, square size,
/// shade) whose plus covers pixel `q`, or `-1` when none does.
pub open spec fn last_cover(bl: Seq<(int, int, int, int)>, q: int, n: int, arm: int) -> int
    decreases bl.len(),
{
    if bl.len() == 0 {
        -1
    } else if in_blossom(q, n, bl.last().0, bl.last().1, bl.last().2, arm) {
        bl.len() - 1
    } else {
        last_cover(bl.drop_last(), q, n, arm)
    }
}

proof fn lemma_last_cover_range(bl: Seq<(int, int, int, int)>, q: int, n: int, arm: int)
    ensures
        -1 <= last_cover(bl, q, n, arm) < bl.len(),
    decreases bl.len(),
{
    if bl.len() > 0 {
        lemma_last_cover_range(bl.drop_last(), q, n, arm);
    }
}

/// `px` is the `n × n` tile that painting the blossoms `bl` in order onto a
/// transparent tile gives: each pixel carries the shade of the last blossom
/// covering it, or stays transparent.
pub open spec fn painted_patch(px: Seq<u8>, bl: Seq<(int, int, int, int)>, n: int, arm: int, base: (int, int, int)) -> bool {
    forall|q: int| 0 <= q < n * n ==> #[trigger] pix(px, q) == (if last_cover(bl, q, n, arm) < 0 {
        (0u8, 0u8, 0u8, 0u8)
    } else {
        petal_pix(base, bl[last_cover(bl, q, n, arm)].3)
    })
}

/// Blossoms a patch with params `p` can draw: centres within the margin band
/// (a single column and row when the band is empty), squares of `petal` or
/// one pixel less (never under one), shades in `-12..=12`.
pub open spec fn drawable(bl: Seq<(int, int, int, int)>, p: FlowerPatchParams) -> bool {
    let lo = p.margin as int;
    let hi = if p.canvas - 1 - p.margin > lo { p.canvas - 1 - p.margin } else { lo };
    let small = if p.petal - 1 > 1 { p.petal - 1 } else { 1 };
    forall|k: int| 0 <= k < bl.len() ==> {
        &&& lo <= #[trigger] bl[k].0 <= hi
        &&& lo <= bl[k].1 <= hi
        &&& (bl[k].2 == p.petal || bl[k].2 == small)
        &&& -12 <= bl[k].3 <= 12
    }
}

/// One more blossom the params admit keeps the blossom list drawable.
proof fn lemma_drawable_push(bl: Seq<(int, int, int, int)>, drawn: (int, int, int, int), p: FlowerPatchParams)
    requires
        drawable(bl, p),
        drawable(seq![drawn], p),
    ensures
        drawable(bl.push(drawn), p),
{
    let bl2 = bl.push(drawn);
    let lo = p.margin as int;
    let hi = if p.canvas - 1 - p.margin > lo { p.canvas - 1 - p.margin } else { lo };
    let small = if p.petal - 1 > 1 { p.petal - 1 } else { 1 };
    assert(seq![drawn][0] == drawn);
    assert forall|k: int| 0 <= k < bl2.len() implies {
        &&& lo <= #[trigger] bl2[k].0 <= hi
        &&& lo <= bl2[k].1 <= hi
        &&& (bl2[k].2 == p.petal || bl2[k].2 == small)
        &&& -12 <= bl2[k].3 <= 12
    } by {
        if k < bl.len() {
            assert(bl2[k] == bl[k]);
        } else {
            assert(bl2[k] == seq![drawn][0]);
        }
    }
}

/// Rasterize a flower patch into RGBA8: `canvas*canvas*4` bytes. Background
/// stays transparent; each blossom is a plus of five petal squares in one
/// shade of the handed colour brightened 15% toward white. Deterministic in
/// `seed`.
#[verifier::spinoff_prover]
#[verifier::rlimit(40)]
pub fn rasterize_flower_patch(p: &FlowerPatchParams, color: [u8; 3], seed: u64) -> (buf: Vec<u8>)
    requires
        p.canvas * p.canvas * 4 <= usize::MAX,
        patch_fits(*p),
    ensures
        buf.len() == p.canvas * p.canvas * 4,
        p.blossoms == 0 ==> forall|i: int| 0 <= i < buf.len() ==> buf[i] == 0,
        only_petals(buf@, p.canvas as int, toward_spec(color, [255u8, 255u8, 255u8], 15)),
        p.canvas > 0 ==> exists|bl: Seq<(int, int, int, int)>|
            #![trigger drawable(bl, *p)]
            bl.len() == p.blossoms && drawable(bl, *p) && painted_patch(
                buf@,
                bl,
                p.canvas as int,
                p.arm as int,
                toward_spec(color, [255u8, 255u8, 255u8], 15),
            ),
{
    let n = p.canvas;
    let total = n * n * 4;
    let mut buf: Vec<u8> = Vec::new();
    while buf.len() < total
        invariant
            buf.len() <= total,
            forall|i: int| 0 <= i < buf.len() ==> buf[i] == 0,
        decreases total - buf.len(),
    {
        buf.push(0);
    }
    let ghost base = toward_spec(color, [255u8, 255u8, 255u8], 15);
    if n == 0 || p.blossoms == 0 {
        assert forall|q: int| 0 <= q < n * n implies #[trigger] pix(buf@, q) == (0u8, 0u8, 0u8, 0u8)
            || exists|s: int| -12 <= s <= 12 && pix(buf@, q) == petal_pix(base, s) by {
            assert(buf[4 * q] == 0 && buf[4 * q + 1] == 0 && buf[4 * q + 2] == 0 && buf[4 * q + 3] == 0);
        }
        proof {
            let none = Seq::<(int, int, int, int)>::empty();
            assert forall|q: int| 0 <= q < n * n implies #[trigger] pix(buf@, q) == (if last_cover(none, q, n as int, p.arm as int) < 0 {
                (0u8, 0u8, 0u8, 0u8)
            } else {
                petal_pix(base, none[last_cover(none, q, n as int, p.arm as int)].3)
            }) by {
                assert(buf[4 * q] == 0 && buf[4 * q + 1] == 0 && buf[4 * q + 2] == 0 && buf[4 * q + 3] == 0);
            }
            assert(drawable(none, *p));
        }
        return buf;
    }
    let mut rng = seeded_rng(seed);
    let petal_base = toward(color, [255, 255, 255], 15);
    let lo = p.margin as i32;
    let hi0 = n as i32 - 1 - p.margin as i32;
    let hi = if hi0 > lo { hi0 } else { lo };
    let mut b: usize = 0;
    let ghost mut bl = Seq::<(int, int, int, int)>::empty();
    proof {
        assert forall|q: int| 0 <= q < n * n implies #[trigger] pix(buf@, q) == (if last_cover(bl, q, n as int, p.arm as int) < 0 {
            (0u8, 0u8, 0u8, 0u8)
        } else {
            petal_pix(base, bl[last_cover(bl, q, n as int, p.arm as int)].3)
        }) by {
            assert(buf[4 * q] == 0 && buf[4 * q + 1] == 0 && buf[4 * q + 2] == 0 && buf[4 * q + 3] == 0);
        }
    }
    while b < p.blossoms
        invariant
            bl.len() == b,
            drawable(bl, *p),
            lo == p.margin,
            hi == (if p.canvas - 1 - p.margin > lo { p.canvas - 1 - p.margin } else { lo as int }),
            painted_patch(buf@, bl, n as int, p.arm as int, base),
            buf.len() == n * n * 4,
            n == p.canvas,
            patch_fits(*p),
            0 <= lo,
            lo <= hi,
            petal_base[0] == base.0,
            petal_base[1] == base.1,
            petal_base[2] == base.2,
            b <= p.blossoms,
            only_petals(buf@, n as int, base),
        decreases p.blossoms - b,
    {
        let cx = random_i32_in(&mut rng, lo, hi);
        let cy = random_i32_in(&mut rng, lo, hi);
        let size = if random_bool(&mut rng) {
            p.petal
        } else {
            let s = p.petal.saturating_sub(1);
            if s > 1 { s } else { 1 }
        };
        let shade = random_i32_in(&mut rng, -12, 12);
        let c0 = petal_base[0] as i32 + shade;
        let c1 = petal_base[1] as i32 + shade;
        let c2 = petal_base[2] as i32 + shade;
        let petal = [
            (if c0 < 0 { 0 } else if c0 > 255 { 255 } else { c0 }) as u8,
            (if c1 < 0 { 0 } else if c1 > 255 { 255 } else { c1 }) as u8,
            (if c2 < 0 { 0 } else if c2 > 255 { 255 } else { c2 }) as u8,
        ];
        let ghost pp = petal_pix(base, shade as int);
        assert((petal[0], petal[1], petal[2], 255u8) == pp);
        let ghost b0 = buf@;
        paint_blossom(&mut buf, n, cx, cy, size, p.arm, petal);
        proof {
            assert forall|q: int| 0 <= q < n * n implies #[trigger] pix(buf@, q) == (0u8, 0u8, 0u8, 0u8)
                || exists|s: int| -12 <= s <= 12 && pix(buf@, q) == petal_pix(base, s) by {
                if pix(buf@, q) != pix(b0, q) {
                    assert(pix(buf@, q) == pp);
                }
            }
            let ghost prev = bl;
            let drawn = (cx as int, cy as int, size as int, shade as int);
            bl = bl.push(drawn);
            assert(bl.drop_last() =~= prev);
            assert forall|q: int| 0 <= q < n * n implies #[trigger] pix(buf@, q) == (if last_cover(bl, q, n as int, p.arm as int) < 0 {
                (0u8, 0u8, 0u8, 0u8)
            } else {
                petal_pix(base, bl[last_cover(bl, q, n as int, p.arm as int)].3)
            }) by {
                assert(pix(b0, q) == (if last_cover(prev, q, n as int, p.arm as int) < 0 {
                    (0u8, 0u8, 0u8, 0u8)
                } else {
                    petal_pix(base, prev[last_cover(prev, q, n as int, p.arm as int)].3)
                }));
                lemma_last_cover_range(prev, q, n as int, p.arm as int);
                if !in_blossom(q, n as int, cx as int, cy as int, size as int, p.arm as int) {
                    if last_cover(prev, q, n as int, p.arm as int) >= 0 {
                        assert(bl[last_cover(prev, q, n as int, p.arm as int)] == prev[last_cover(prev, q, n as int, p.arm as int)]);
                    }
                }
            }
            assert(drawable(seq![drawn], *p)) by {
                assert(seq![drawn][0] == drawn);
                assert(lo <= cx <= hi && lo <= cy <= hi);
            }
            lemma_drawable_push(prev, drawn, *p);
        }
        b += 1;
    }
    buf
}

} // verus!
