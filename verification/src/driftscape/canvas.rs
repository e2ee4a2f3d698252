//! The half-block canvas — a truecolor pixel buffer that prints as terminal text.
//!
//! Each terminal cell holds two stacked pixels printed as the upper-half block
//! `U+2580`: the glyph's foreground is the top pixel, its background the bottom
//! one. Drawing happens in pixel space (`cols` wide by `2 * rows` tall); `render`
//! turns the buffer into one ANSI frame, emitting a color escape only when the
//! color changes from the previous cell of the row.

use vstd::prelude::*;

verus! {

/// 8-bit truecolor.
pub type Rgb = (u8, u8, u8);

pub struct Canvas {
    /// Terminal columns, which is also the pixel width.
    pub cols: usize,
    /// Terminal rows. Pixel height is `2 * rows`.
    pub rows: usize,
    buf: Vec<Rgb>,
}

/// Whether the pixel `(x, y)` lies on a `cols × ph` canvas.
pub open spec fn in_bounds(x: int, y: int, cols: int, ph: int) -> bool {
    0 <= x < cols && 0 <= y < ph
}

/// The pixels after setting `(x, y)` to `c`; an off-canvas pixel leaves them unchanged.
pub open spec fn put_spec(px: Seq<Rgb>, cols: int, ph: int, x: int, y: int, c: Rgb) -> Seq<Rgb> {
    if in_bounds(x, y, cols, ph) {
        px.update(y * cols + x, c)
    } else {
        px
    }
}

/// The pixels after putting `c` at each point of `pts`, in order.
pub open spec fn paint(px: Seq<Rgb>, cols: int, ph: int, pts: Seq<(int, int)>, c: Rgb) -> Seq<Rgb>
    decreases pts.len(),
{
    if pts.len() == 0 {
        px
    } else {
        paint(put_spec(px, cols, ph, pts[0].0, pts[0].1, c), cols, ph, pts.drop_first(), c)
    }
}

pub open spec fn iabs(v: int) -> int {
    if v < 0 { -v } else { v }
}

/// `+1` when stepping from `a` toward a larger `b`, `-1` otherwise.
pub open spec fn toward_sign(a: int, b: int) -> int {
    if a < b { 1 } else { -1 }
}

/// The integer Bresenham walk from `(x, y)` with error term `err` toward `(x1, y1)`:
/// each pass visits the current pixel, stops on the target, and otherwise steps in
/// x when `2·err >= dy` and in y when `2·err <= dx`. `fuel` bounds the number of
/// pixels visited.
pub open spec fn walk(
    x: int, y: int, err: int, x1: int, y1: int, dx: int, dy: int, sx: int, sy: int, fuel: nat,
) -> Seq<(int, int)>
    decreases fuel,
{
    if fuel == 0 {
        Seq::empty()
    } else if x == x1 && y == y1 {
        seq![(x, y)]
    } else {
        let e2 = 2 * err;
        let err1 = if e2 >= dy { err + dy } else { err };
        let xn = if e2 >= dy { x + sx } else { x };
        let err2 = if e2 <= dx { err1 + dx } else { err1 };
        let yn = if e2 <= dx { y + sy } else { y };
        seq![(x, y)] + walk(xn, yn, err2, x1, y1, dx, dy, sx, sy, (fuel - 1) as nat)
    }
}

/// The pixels of the Bresenham segment from `(x0, y0)` to `(x1, y1)`, in drawing order.
pub open spec fn line_points(x0: int, y0: int, x1: int, y1: int) -> Seq<(int, int)> {
    let dx = iabs(x1 - x0);
    let dy = -iabs(y1 - y0);
    walk(x0, y0, dx + dy, x1, y1, dx, dy, toward_sign(x0, x1), toward_sign(y0, y1), (dx - dy + 1) as nat)
}

/// Segment endpoints whose Bresenham arithmetic stays inside `i32`: the
/// doubled error term runs between `-3·|y1 - y0|` and `3·|x1 - x0|`.
pub open spec fn line_fits(x0: int, y0: int, x1: int, y1: int) -> bool {
    &&& 3 * iabs(x1 - x0) <= i32::MAX
    &&& 3 * iabs(y1 - y0) <= i32::MAX
}

pub proof fn lemma_paint_push(px: Seq<Rgb>, cols: int, ph: int, pts: Seq<(int, int)>, p: (int, int), c: Rgb)
    ensures
        paint(px, cols, ph, pts.push(p), c) == put_spec(paint(px, cols, ph, pts, c), cols, ph, p.0, p.1, c),
    decreases pts.len(),
{
    if pts.len() == 0 {
        assert(pts.push(p).drop_first() =~= Seq::<(int, int)>::empty());
        let q = put_spec(px, cols, ph, p.0, p.1, c);
        assert(paint(q, cols, ph, Seq::<(int, int)>::empty(), c) == q);
        assert(pts.push(p)[0] == p);
    } else {
        assert(pts.push(p)[0] == pts[0]);
        assert(pts.push(p).drop_first() =~= pts.drop_first().push(p));
        lemma_paint_push(put_spec(px, cols, ph, pts[0].0, pts[0].1, c), cols, ph, pts.drop_first(), p, c);
    }
}

/// No x-step once the column is reached while rows remain.
proof fn lemma_no_x_overshoot(dx: int, dy: int, i: int, j: int, err: int)
    requires
        dx >= 0,
        0 <= j < dy,
        i == dx,
        err == dx - dy - i * dy + j * dx,
    ensures
        2 * err < -dy,
{
    assert(j * dx <= (dy - 1) * dx) by (nonlinear_arith)
        requires 0 <= j <= dy - 1, dx >= 0;
    assert((dy - 1) * dx == dy * dx - dx) by (nonlinear_arith);
    assert(i * dy == dx * dy) by (nonlinear_arith) requires i == dx;
}

/// No y-step once the row is reached while columns remain.
proof fn lemma_no_y_overshoot(dx: int, dy: int, i: int, j: int, err: int)
    requires
        dy >= 0,
        0 <= i < dx,
        j == dy,
        err == dx - dy - i * dy + j * dx,
    ensures
        2 * err > dx,
{
    assert(i * dy <= (dx - 1) * dy) by (nonlinear_arith)
        requires 0 <= i <= dx - 1, dy >= 0;
    assert((dx - 1) * dy == dx * dy - dy) by (nonlinear_arith);
    assert(j * dx == dx * dy) by (nonlinear_arith) requires j == dy;
}

/// Decimal digit characters.
pub open spec fn digit_chars() -> Seq<char> {
    seq!['0', '1', '2', '3', '4', '5', '6', '7', '8', '9']
}

/// Decimal text of `v`, most significant digit first, no leading zeros.
pub open spec fn dec(v: nat) -> Seq<char>
    decreases v,
{
    if v < 10 {
        seq![digit_chars()[v as int]]
    } else {
        dec(v / 10) + seq![digit_chars()[(v % 10) as int]]
    }
}

/// The upper-half block glyph.
pub open spec fn half_block() -> char {
    '\u{2580}'
}

/// `ESC [ H`: cursor home.
pub open spec fn home_code() -> Seq<char> {
    seq!['\x1b', '[', 'H']
}

/// `ESC [ 0 m`: attribute reset.
pub open spec fn reset_code() -> Seq<char> {
    seq!['\x1b', '[', '0', 'm']
}

/// Line break between terminal rows.
pub open spec fn crlf() -> Seq<char> {
    seq!['\r', '\n']
}

/// The 24-bit color escape: `ESC [ 38 ; 2 ; r ; g ; b m` for the foreground
/// (`layer == '3'`), `ESC [ 48 ; ...` for the background (`layer == '4'`).
pub open spec fn color_code(layer: char, c: Rgb) -> Seq<char> {
    seq!['\x1b', '[', layer, '8', ';', '2', ';'] + dec(c.0 as nat) + seq![';'] + dec(c.1 as nat) + seq![';']
        + dec(c.2 as nat) + seq!['m']
}

/// Text of terminal row `r` from column `c` on, given the colors last emitted in
/// this row: each cell emits its top color only when it differs from the last
/// foreground, its bottom color only when it differs from the last background,
/// then one half block.
pub open spec fn row_text(px: Seq<Rgb>, cols: int, r: int, c: int, fg: Option<Rgb>, bg: Option<Rgb>) -> Seq<char>
    decreases cols - c,
{
    if c >= cols || c < 0 {
        Seq::empty()
    } else {
        let top = px[(2 * r) * cols + c];
        let bot = px[(2 * r + 1) * cols + c];
        let s_fg = if fg != Some(top) { color_code('3', top) } else { Seq::empty() };
        let s_bg = if bg != Some(bot) { color_code('4', bot) } else { Seq::empty() };
        s_fg + s_bg + seq![half_block()] + row_text(px, cols, r, c + 1, Some(top), Some(bot))
    }
}

/// Text of terminal rows `r..rows`: each row's cells, a reset, and a line break
/// before every row but the first.
pub open spec fn frame_rows(px: Seq<Rgb>, cols: int, rows: int, r: int) -> Seq<char>
    decreases rows - r,
{
    if r >= rows || r < 0 {
        Seq::empty()
    } else {
        row_text(px, cols, r, 0, None, None) + reset_code() + (if r + 1 < rows { crlf() } else { Seq::empty() })
            + frame_rows(px, cols, rows, r + 1)
    }
}

/// One full ANSI frame of a `cols × rows` canvas.
pub open spec fn frame(px: Seq<Rgb>, cols: int, rows: int) -> Seq<char> {
    home_code() + frame_rows(px, cols, rows, 0)
}

/// Two pixels are distinct king-move neighbours.
pub open spec fn king_adjacent(a: (int, int), b: (int, int)) -> bool {
    &&& iabs(a.0 - b.0) <= 1
    &&& iabs(a.1 - b.1) <= 1
    &&& a != b
}

proof fn lemma_walk_shape(
    x: int, y: int, err: int, x1: int, y1: int, dx: int, dy: int, sx: int, sy: int, fuel: nat,
    x0: int, y0: int, i: int, j: int,
)
    requires
        dx >= 0,
        dy <= 0,
        sx == 1 || sx == -1,
        sy == 1 || sy == -1,
        x1 == x0 + sx * dx,
        y1 == y0 + sy * (-dy),
        x == x0 + sx * i,
        y == y0 + sy * j,
        0 <= i <= dx,
        0 <= j <= -dy,
        err == dx + dy + i * dy + j * dx,
        dx - i + (-dy) - j < fuel,
    ensures
        walk(x, y, err, x1, y1, dx, dy, sx, sy, fuel).len() > 0,
        walk(x, y, err, x1, y1, dx, dy, sx, sy, fuel)[0] == (x, y),
        walk(x, y, err, x1, y1, dx, dy, sx, sy, fuel).last() == (x1, y1),
        forall|k: int| 0 <= k < walk(x, y, err, x1, y1, dx, dy, sx, sy, fuel).len() - 1 ==>
            king_adjacent(#[trigger] walk(x, y, err, x1, y1, dx, dy, sx, sy, fuel)[k],
                walk(x, y, err, x1, y1, dx, dy, sx, sy, fuel)[k + 1]),
    decreases fuel,
{
    let w = walk(x, y, err, x1, y1, dx, dy, sx, sy, fuel);
    assert(sx * dx == sx * i ==> i == dx) by (nonlinear_arith) requires sx == 1 || sx == -1;
    assert(sy * (-dy) == sy * j ==> j == -dy) by (nonlinear_arith) requires sy == 1 || sy == -1;
    assert(i == dx ==> x == x1) by (nonlinear_arith) requires x1 == x0 + sx * dx, x == x0 + sx * i;
    assert(j == -dy ==> y == y1) by (nonlinear_arith) requires y1 == y0 + sy * (-dy), y == y0 + sy * j;
    if x == x1 && y == y1 {
    } else {
        let big_dx = dx;
        let big_dy = -dy;
        assert(i * big_dy == -(i * dy)) by (nonlinear_arith) requires big_dy == -dy;
        if i == big_dx {
            lemma_no_x_overshoot(big_dx, big_dy, i, j, err);
        }
        if j == big_dy {
            lemma_no_y_overshoot(big_dx, big_dy, i, j, err);
        }
        let e2 = 2 * err;
        let err1 = if e2 >= dy { err + dy } else { err };
        let xn = if e2 >= dy { x + sx } else { x };
        let i2 = if e2 >= dy { i + 1 } else { i };
        let err2 = if e2 <= dx { err1 + dx } else { err1 };
        let yn = if e2 <= dx { y + sy } else { y };
        let j2 = if e2 <= dx { j + 1 } else { j };
        assert((i + 1) * dy == i * dy + dy) by (nonlinear_arith);
        assert((j + 1) * dx == j * dx + dx) by (nonlinear_arith);
        assert(sx * (i + 1) == sx * i + sx) by (nonlinear_arith);
        assert(sy * (j + 1) == sy * j + sy) by (nonlinear_arith);
        lemma_walk_shape(xn, yn, err2, x1, y1, dx, dy, sx, sy, (fuel - 1) as nat, x0, y0, i2, j2);
        let rest = walk(xn, yn, err2, x1, y1, dx, dy, sx, sy, (fuel - 1) as nat);
        assert(w == seq![(x, y)] + rest);
        assert(king_adjacent(w[0], w[1]));
        assert forall|k: int| 0 <= k < w.len() - 1 implies king_adjacent(#[trigger] w[k], w[k + 1]) by {
            if k > 0 {
                assert(w[k] == rest[k - 1]);
                assert(w[k + 1] == rest[k]);
            }
        }
    }
}

/// A Bresenham segment starts at its first endpoint, ends at its second, and
/// moves one king step at a time, so the drawn line has no gaps.
pub proof fn lemma_line_points_connect(x0: int, y0: int, x1: int, y1: int)
    ensures
        line_points(x0, y0, x1, y1).len() > 0,
        line_points(x0, y0, x1, y1)[0] == (x0, y0),
        line_points(x0, y0, x1, y1).last() == (x1, y1),
        forall|k: int| 0 <= k < line_points(x0, y0, x1, y1).len() - 1 ==>
            king_adjacent(#[trigger] line_points(x0, y0, x1, y1)[k], line_points(x0, y0, x1, y1)[k + 1]),
{
    let dx = iabs(x1 - x0);
    let dy = -iabs(y1 - y0);
    let sx = toward_sign(x0, x1);
    let sy = toward_sign(y0, y1);
    lemma_walk_shape(x0, y0, dx + dy, x1, y1, dx, dy, sx, sy, (dx - dy + 1) as nat, x0, y0, 0, 0);
}

/// `v` lies between `a` and `b`, in either order.
pub open spec fn between(a: int, b: int, v: int) -> bool {
    (a <= v <= b) || (b <= v <= a)
}

proof fn lemma_walk_major(
    x: int, y: int, err: int, x1: int, y1: int, dx: int, dy: int, sx: int, sy: int, fuel: nat,
    x0: int, y0: int, i: int, j: int,
)
    requires
        dx >= 0,
        dy <= 0,
        sx == 1 || sx == -1,
        sy == 1 || sy == -1,
        x1 == x0 + sx * dx,
        y1 == y0 + sy * (-dy),
        x == x0 + sx * i,
        y == y0 + sy * j,
        0 <= i <= dx,
        0 <= j <= -dy,
        err == dx + dy + i * dy + j * dx,
        dx - i + (-dy) - j < fuel,
    ensures
        forall|k: int| 0 <= k < walk(x, y, err, x1, y1, dx, dy, sx, sy, fuel).len() ==>
            between(x0, x1, (#[trigger] walk(x, y, err, x1, y1, dx, dy, sx, sy, fuel)[k]).0)
            && between(y0, y1, walk(x, y, err, x1, y1, dx, dy, sx, sy, fuel)[k].1),
        dx >= -dy && 2 * err >= dy ==> walk(x, y, err, x1, y1, dx, dy, sx, sy, fuel).len() == dx - i + 1
            && forall|k: int| 0 <= k < walk(x, y, err, x1, y1, dx, dy, sx, sy, fuel).len() ==>
                (#[trigger] walk(x, y, err, x1, y1, dx, dy, sx, sy, fuel)[k]).0 == x + sx * k,
        -dy >= dx && 2 * err <= dx ==> walk(x, y, err, x1, y1, dx, dy, sx, sy, fuel).len() == -dy - j + 1
            && forall|k: int| 0 <= k < walk(x, y, err, x1, y1, dx, dy, sx, sy, fuel).len() ==>
                (#[trigger] walk(x, y, err, x1, y1, dx, dy, sx, sy, fuel)[k]).1 == y + sy * k,
    decreases fuel,
{
    let w = walk(x, y, err, x1, y1, dx, dy, sx, sy, fuel);
    let big_dx = dx;
    let big_dy = -dy;
    assert(sx * dx == sx * i ==> i == dx) by (nonlinear_arith) requires sx == 1 || sx == -1;
    assert(sy * (-dy) == sy * j ==> j == -dy) by (nonlinear_arith) requires sy == 1 || sy == -1;
    assert(i == dx ==> x == x1) by (nonlinear_arith) requires x1 == x0 + sx * dx, x == x0 + sx * i;
    assert(j == -dy ==> y == y1) by (nonlinear_arith) requires y1 == y0 + sy * (-dy), y == y0 + sy * j;
    assert(between(x0, x1, x)) by (nonlinear_arith)
        requires x1 == x0 + sx * dx, x == x0 + sx * i, 0 <= i <= dx, sx == 1 || sx == -1;
    assert(between(y0, y1, y)) by (nonlinear_arith)
        requires y1 == y0 + sy * big_dy, y == y0 + sy * j, 0 <= j <= big_dy, sy == 1 || sy == -1, big_dy == -dy;
    // On the major axis the minor coordinate is done when the major one is.
    assert(dx >= -dy && 2 * err >= dy && i == dx ==> j == -dy) by (nonlinear_arith)
        requires err == dx + dy + i * dy + j * dx, 0 <= j <= -dy, dx >= 0, dy <= 0;
    assert(-dy >= dx && 2 * err <= dx && j == -dy ==> i == dx) by (nonlinear_arith)
        requires err == dx + dy + i * dy + j * dx, 0 <= i <= dx, dx >= 0, dy <= 0;
    if x == x1 && y == y1 {
        assert(w == seq![(x, y)]);
    } else {
        assert(i * big_dy == -(i * dy)) by (nonlinear_arith) requires big_dy == -dy;
        if i == big_dx {
            lemma_no_x_overshoot(big_dx, big_dy, i, j, err);
        }
        if j == big_dy {
            lemma_no_y_overshoot(big_dx, big_dy, i, j, err);
        }
        let e2 = 2 * err;
        let err1 = if e2 >= dy { err + dy } else { err };
        let xn = if e2 >= dy { x + sx } else { x };
        let i2 = if e2 >= dy { i + 1 } else { i };
        let err2 = if e2 <= dx { err1 + dx } else { err1 };
        let yn = if e2 <= dx { y + sy } else { y };
        let j2 = if e2 <= dx { j + 1 } else { j };
        assert((i + 1) * dy == i * dy + dy) by (nonlinear_arith);
        assert((j + 1) * dx == j * dx + dx) by (nonlinear_arith);
        assert(sx * (i + 1) == sx * i + sx) by (nonlinear_arith);
        assert(sy * (j + 1) == sy * j + sy) by (nonlinear_arith);
        if dx >= -dy && 2 * err >= dy {
            assert(2 * err2 >= dy);
        }
        if -dy >= dx && 2 * err <= dx {
            assert(2 * err2 <= dx);
        }
        lemma_walk_major(xn, yn, err2, x1, y1, dx, dy, sx, sy, (fuel - 1) as nat, x0, y0, i2, j2);
        let rest = walk(xn, yn, err2, x1, y1, dx, dy, sx, sy, (fuel - 1) as nat);
        assert(w == seq![(x, y)] + rest);
        assert forall|k: int| 0 <= k < w.len() implies between(x0, x1, (#[trigger] w[k]).0) && between(y0, y1, w[k].1) by {
            if k > 0 {
                assert(w[k] == rest[k - 1]);
            }
        }
        if dx >= -dy && 2 * err >= dy {
            assert forall|k: int| 0 <= k < w.len() implies (#[trigger] w[k]).0 == x + sx * k by {
                if k > 0 {
                    assert(w[k] == rest[k - 1]);
                    assert(sx * (k - 1) + sx == sx * k) by (nonlinear_arith);
                }
            }
        }
        if -dy >= dx && 2 * err <= dx {
            assert forall|k: int| 0 <= k < w.len() implies (#[trigger] w[k]).1 == y + sy * k by {
                if k > 0 {
                    assert(w[k] == rest[k - 1]);
                    assert(sy * (k - 1) + sy == sy * k) by (nonlinear_arith);
                }
            }
        }
    }
}

/// A Bresenham segment stays in the box its endpoints span, and it has one
/// pixel per step along its longer axis: `max(|x1 - x0|, |y1 - y0|) + 1`
/// pixels, the `k`-th of them `k` steps along that axis from `(x0, y0)`.
/// Distinct steps along the longer axis make its pixels distinct.
pub proof fn lemma_line_points_shape(x0: int, y0: int, x1: int, y1: int)
    ensures
        forall|k: int| 0 <= k < line_points(x0, y0, x1, y1).len() ==>
            between(x0, x1, (#[trigger] line_points(x0, y0, x1, y1)[k]).0) && between(y0, y1, line_points(x0, y0, x1, y1)[k].1),
        iabs(x1 - x0) >= iabs(y1 - y0) ==> line_points(x0, y0, x1, y1).len() == iabs(x1 - x0) + 1
            && forall|k: int| 0 <= k < line_points(x0, y0, x1, y1).len() ==>
                (#[trigger] line_points(x0, y0, x1, y1)[k]).0 == x0 + toward_sign(x0, x1) * k,
        iabs(y1 - y0) >= iabs(x1 - x0) ==> line_points(x0, y0, x1, y1).len() == iabs(y1 - y0) + 1
            && forall|k: int| 0 <= k < line_points(x0, y0, x1, y1).len() ==>
                (#[trigger] line_points(x0, y0, x1, y1)[k]).1 == y0 + toward_sign(y0, y1) * k,
        line_points(x0, y0, x1, y1).no_duplicates(),
{
    let dx = iabs(x1 - x0);
    let dy = -iabs(y1 - y0);
    let sx = toward_sign(x0, x1);
    let sy = toward_sign(y0, y1);
    lemma_walk_major(x0, y0, dx + dy, x1, y1, dx, dy, sx, sy, (dx - dy + 1) as nat, x0, y0, 0, 0);
    let pts = line_points(x0, y0, x1, y1);
    assert forall|a: int, b: int| 0 <= a < b < pts.len() implies pts[a] != pts[b] by {
        if dx >= -dy {
            assert(pts[a].0 == x0 + sx * a && pts[b].0 == x0 + sx * b);
            assert(sx * a != sx * b) by (nonlinear_arith) requires a < b, sx == 1 || sx == -1;
        } else {
            assert(pts[a].1 == y0 + sy * a && pts[b].1 == y0 + sy * b);
            assert(sy * a != sy * b) by (nonlinear_arith) requires a < b, sy == 1 || sy == -1;
        }
    }
}

/// Whether some point of `pts` is the on-canvas pixel `q`.
pub open spec fn hits(pts: Seq<(int, int)>, cols: int, ph: int, q: int) -> bool {
    exists|k: int| 0 <= k < pts.len() && in_bounds(pts[k].0, pts[k].1, cols, ph) && #[trigger] (pts[k].1 * cols + pts[k].0) == q
}

/// Painting points changes exactly the on-canvas pixels among them, each to
/// the paint color; every other pixel keeps its color. Points off the canvas
/// are clipped, so a segment wholly off it changes nothing.
pub proof fn lemma_paint_pixels(px: Seq<Rgb>, cols: int, ph: int, pts: Seq<(int, int)>, c: Rgb)
    requires
        px.len() == cols * ph,
    ensures
        paint(px, cols, ph, pts, c).len() == px.len(),
        forall|q: int| 0 <= q < px.len() ==> #[trigger] paint(px, cols, ph, pts, c)[q] == (if hits(pts, cols, ph, q) {
            c
        } else {
            px[q]
        }),
    decreases pts.len(),
{
    if pts.len() > 0 {
        let p0 = pts[0];
        let px1 = put_spec(px, cols, ph, p0.0, p0.1, c);
        if in_bounds(p0.0, p0.1, cols, ph) {
            assert(p0.1 * cols + p0.0 < cols * ph) by (nonlinear_arith)
                requires 0 <= p0.0 < cols, 0 <= p0.1 < ph;
            assert(0 <= p0.1 * cols) by (nonlinear_arith) requires 0 <= p0.1, 0 <= cols;
        }
        lemma_paint_pixels(px1, cols, ph, pts.drop_first(), c);
        let rest = pts.drop_first();
        assert forall|q: int| 0 <= q < px.len() implies #[trigger] paint(px, cols, ph, pts, c)[q] == (if hits(pts, cols, ph, q) {
            c
        } else {
            px[q]
        }) by {
            if hits(rest, cols, ph, q) {
                let k = choose|k: int| 0 <= k < rest.len() && in_bounds(rest[k].0, rest[k].1, cols, ph)
                    && #[trigger] (rest[k].1 * cols + rest[k].0) == q;
                assert(pts[k + 1] == rest[k]);
                assert(hits(pts, cols, ph, q));
            } else if in_bounds(p0.0, p0.1, cols, ph) && p0.1 * cols + p0.0 == q {
                assert(hits(pts, cols, ph, q));
            } else {
                if hits(pts, cols, ph, q) {
                    let k = choose|k: int| 0 <= k < pts.len() && in_bounds(pts[k].0, pts[k].1, cols, ph)
                        && #[trigger] (pts[k].1 * cols + pts[k].0) == q;
                    if k > 0 {
                        assert(rest[k - 1] == pts[k]);
                        assert(hits(rest, cols, ph, q));
                    }
                }
            }
        }
    }
}

proof fn lemma_pixel_index(cols: int, ph: int, x: int, y: int)
    requires
        in_bounds(x, y, cols, ph),
    ensures
        0 <= y * cols + x < cols * ph,
{
    assert(y * cols + x < cols * ph) by (nonlinear_arith)
        requires 0 <= x < cols, 0 <= y < ph;
    assert(0 <= y * cols) by (nonlinear_arith) requires 0 <= y, 0 <= cols;
}

/// Putting the same pixel twice leaves the second color: the last write wins.
pub proof fn lemma_put_last_wins(px: Seq<Rgb>, cols: int, ph: int, x: int, y: int, a: Rgb, b: Rgb)
    requires
        px.len() == cols * ph,
    ensures
        put_spec(put_spec(px, cols, ph, x, y, a), cols, ph, x, y, b) == put_spec(px, cols, ph, x, y, b),
{
    if in_bounds(x, y, cols, ph) {
        lemma_pixel_index(cols, ph, x, y);
    }
    assert(put_spec(put_spec(px, cols, ph, x, y, a), cols, ph, x, y, b) =~= put_spec(px, cols, ph, x, y, b));
}

/// Puts to two different pixels commute.
pub proof fn lemma_puts_commute(px: Seq<Rgb>, cols: int, ph: int, x0: int, y0: int, a: Rgb, x1: int, y1: int, b: Rgb)
    requires
        px.len() == cols * ph,
        (x0, y0) != (x1, y1),
    ensures
        put_spec(put_spec(px, cols, ph, x0, y0, a), cols, ph, x1, y1, b) == put_spec(
            put_spec(px, cols, ph, x1, y1, b),
            cols,
            ph,
            x0,
            y0,
            a,
        ),
{
    if in_bounds(x0, y0, cols, ph) {
        lemma_pixel_index(cols, ph, x0, y0);
    }
    if in_bounds(x1, y1, cols, ph) {
        lemma_pixel_index(cols, ph, x1, y1);
    }
    if in_bounds(x0, y0, cols, ph) && in_bounds(x1, y1, cols, ph) {
        assert(y0 * cols + x0 != y1 * cols + x1) by {
            if y0 == y1 {
            } else if y0 < y1 {
                assert(y0 * cols + x0 < y1 * cols + x1) by (nonlinear_arith)
                    requires y0 < y1, 0 <= x0 < cols, 0 <= x1;
            } else {
                assert(y1 * cols + x1 < y0 * cols + x0) by (nonlinear_arith)
                    requires y1 < y0, 0 <= x1 < cols, 0 <= x0;
            }
        }
    }
    assert(put_spec(put_spec(px, cols, ph, x0, y0, a), cols, ph, x1, y1, b) =~= put_spec(
        put_spec(px, cols, ph, x1, y1, b),
        cols,
        ph,
        x0,
        y0,
        a,
    ));
}

/// Occurrences of `ch` in `s`.
pub open spec fn count_char(s: Seq<char>, ch: char) -> nat
    decreases s.len(),
{
    if s.len() == 0 {
        0
    } else {
        count_char(s.drop_last(), ch) + if s.last() == ch { 1nat } else { 0nat }
    }
}

pub proof fn lemma_count_add(a: Seq<char>, b: Seq<char>, ch: char)
    ensures
        count_char(a + b, ch) == count_char(a, ch) + count_char(b, ch),
    decreases b.len(),
{
    if b.len() == 0 {
        assert(a + b =~= a);
    } else {
        assert((a + b).drop_last() =~= a + b.drop_last());
        lemma_count_add(a, b.drop_last(), ch);
    }
}

proof fn lemma_count_small(s: Seq<char>, ch: char)
    requires
        forall|i: int| 0 <= i < s.len() ==> s[i] != ch,
    ensures
        count_char(s, ch) == 0,
    decreases s.len(),
{
    if s.len() > 0 {
        lemma_count_small(s.drop_last(), ch);
    }
}

proof fn lemma_dec_digits(v: nat)
    ensures
        forall|i: int| 0 <= i < dec(v).len() ==> digit_chars().contains(#[trigger] dec(v)[i]),
    decreases v,
{
    if v >= 10 {
        lemma_dec_digits(v / 10);
        let a = dec(v / 10);
        let d = digit_chars()[(v % 10) as int];
        assert(digit_chars()[(v % 10) as int] == d);
        assert forall|i: int| 0 <= i < dec(v).len() implies digit_chars().contains(#[trigger] dec(v)[i]) by {
            if i < a.len() {
                assert(dec(v)[i] == a[i]);
            } else {
                assert(dec(v)[i] == d);
            }
        }
    } else {
        assert(digit_chars()[v as int] == dec(v)[0]);
    }
}

proof fn lemma_color_code_has_no_block(layer: char, c: Rgb)
    requires
        layer == '3' || layer == '4',
    ensures
        count_char(color_code(layer, c), half_block()) == 0,
{
    lemma_dec_digits(c.0 as nat);
    lemma_dec_digits(c.1 as nat);
    lemma_dec_digits(c.2 as nat);
    let s = color_code(layer, c);
    assert forall|i: int| 0 <= i < s.len() implies s[i] != half_block() by {
        let p = seq!['\x1b', '[', layer, '8', ';', '2', ';'];
        let d0 = dec(c.0 as nat);
        let d1 = dec(c.1 as nat);
        let d2 = dec(c.2 as nat);
        assert(s =~= p + d0 + seq![';'] + d1 + seq![';'] + d2 + seq!['m']);
        if i < 7 {
        } else if i < 7 + d0.len() {
            assert(s[i] == d0[i - 7]);
            assert(digit_chars().contains(d0[i - 7]));
        } else if i < 8 + d0.len() {
        } else if i < 8 + d0.len() + d1.len() {
            assert(s[i] == d1[i - 8 - d0.len()]);
            assert(digit_chars().contains(d1[i - 8 - d0.len()]));
        } else if i < 9 + d0.len() + d1.len() {
        } else if i < 9 + d0.len() + d1.len() + d2.len() {
            assert(s[i] == d2[i - 9 - d0.len() - d1.len()]);
            assert(digit_chars().contains(d2[i - 9 - d0.len() - d1.len()]));
        } else {
        }
    }
    lemma_count_small(s, half_block());
}

proof fn lemma_row_blocks(px: Seq<Rgb>, cols: int, r: int, c: int, fg: Option<Rgb>, bg: Option<Rgb>)
    requires
        0 <= c <= cols,
    ensures
        count_char(row_text(px, cols, r, c, fg, bg), half_block()) == cols - c,
    decreases cols - c,
{
    if c < cols {
        let top = px[(2 * r) * cols + c];
        let bot = px[(2 * r + 1) * cols + c];
        let s_fg = if fg != Some(top) { color_code('3', top) } else { Seq::empty() };
        let s_bg = if bg != Some(bot) { color_code('4', bot) } else { Seq::empty() };
        let rest = row_text(px, cols, r, c + 1, Some(top), Some(bot));
        lemma_row_blocks(px, cols, r, c + 1, Some(top), Some(bot));
        lemma_color_code_has_no_block('3', top);
        lemma_color_code_has_no_block('4', bot);
        lemma_count_small(Seq::<char>::empty(), half_block());
        lemma_count_add(s_fg, s_bg, half_block());
        lemma_count_add(s_fg + s_bg, seq![half_block()], half_block());
        lemma_count_add(s_fg + s_bg + seq![half_block()], rest, half_block());
        assert(count_char(seq![half_block()], half_block()) == 1) by {
            assert(seq![half_block()].drop_last() =~= Seq::<char>::empty());
        }
    }
}

proof fn lemma_rows_blocks(px: Seq<Rgb>, cols: int, rows: int, r: int)
    requires
        0 <= r <= rows,
        0 <= cols,
    ensures
        count_char(frame_rows(px, cols, rows, r), half_block()) == (rows - r) * cols,
    decreases rows - r,
{
    if r < rows {
        lemma_rows_blocks(px, cols, rows, r + 1);
        lemma_row_blocks(px, cols, r, 0, None, None);
        let a = row_text(px, cols, r, 0, None, None);
        let b = reset_code();
        let c = if r + 1 < rows { crlf() } else { Seq::empty() };
        let d = frame_rows(px, cols, rows, r + 1);
        lemma_count_small(b, half_block());
        lemma_count_small(c, half_block());
        lemma_count_add(a, b, half_block());
        lemma_count_add(a + b, c, half_block());
        lemma_count_add(a + b + c, d, half_block());
        assert((rows - r) * cols == cols + (rows - (r + 1)) * cols) by (nonlinear_arith);
    } else {
        assert((rows - r) * cols == 0) by (nonlinear_arith) requires r == rows;
    }
}

/// A rendered frame prints exactly one half block per terminal cell.
pub proof fn lemma_frame_one_block_per_cell(px: Seq<Rgb>, cols: int, rows: int)
    requires
        0 <= cols,
        0 <= rows,
    ensures
        count_char(frame(px, cols, rows), half_block()) == cols * rows,
{
    lemma_rows_blocks(px, cols, rows, 0);
    lemma_count_small(home_code(), half_block());
    lemma_count_add(home_code(), frame_rows(px, cols, rows, 0), half_block());
    assert(rows * cols == cols * rows) by (nonlinear_arith);
}

fn push_digit(out: &mut String, d: u8)
    requires
        d < 10,
    ensures
        final(out)@ == old(out)@ + seq![digit_chars()[d as int]],
{
    match d {
        0 => {
            proof { reveal_strlit("0"); }
            out.append("0");
        },
        1 => {
            proof { reveal_strlit("1"); }
            out.append("1");
        },
        2 => {
            proof { reveal_strlit("2"); }
            out.append("2");
        },
        3 => {
            proof { reveal_strlit("3"); }
            out.append("3");
        },
        4 => {
            proof { reveal_strlit("4"); }
            out.append("4");
        },
        5 => {
            proof { reveal_strlit("5"); }
            out.append("5");
        },
        6 => {
            proof { reveal_strlit("6"); }
            out.append("6");
        },
        7 => {
            proof { reveal_strlit("7"); }
            out.append("7");
        },
        8 => {
            proof { reveal_strlit("8"); }
            out.append("8");
        },
        _ => {
            proof { reveal_strlit("9"); }
            out.append("9");
        },
    }
}

fn push_dec(out: &mut String, v: u8)
    ensures
        final(out)@ == old(out)@ + dec(v as nat),
{
    proof {
        reveal_with_fuel(dec, 3);
    }
    if v >= 100 {
        push_digit(out, v / 100);
        push_digit(out, (v / 10) % 10);
        push_digit(out, v % 10);
        assert(dec(v as nat) =~= seq![digit_chars()[(v / 100) as int]] + seq![digit_chars()[((v / 10) % 10) as int]] + seq![digit_chars()[(v % 10) as int]]);
    } else if v >= 10 {
        push_digit(out, v / 10);
        push_digit(out, v % 10);
        assert(dec(v as nat) =~= seq![digit_chars()[(v / 10) as int]] + seq![digit_chars()[(v % 10) as int]]);
    } else {
        push_digit(out, v);
    }
}

fn push_color(out: &mut String, background: bool, c: Rgb)
    ensures
        final(out)@ == old(out)@ + color_code(if background { '4' } else { '3' }, c),
{
    let ghost start = out@;
    if background {
        proof { reveal_strlit("\x1b[48;2;"); }
        out.append("\x1b[48;2;");
    } else {
        proof { reveal_strlit("\x1b[38;2;"); }
        out.append("\x1b[38;2;");
    }
    proof { reveal_strlit(";"); reveal_strlit("m"); }
    push_dec(out, c.0);
    out.append(";");
    push_dec(out, c.1);
    out.append(";");
    push_dec(out, c.2);
    out.append("m");
    assert(out@ =~= start + color_code(if background { '4' } else { '3' }, c));
}

fn same_color(last: Option<Rgb>, p: Rgb) -> (b: bool)
    ensures
        b == (last == Some(p)),
{
    match last {
        Some(q) => q.0 == p.0 && q.1 == p.1 && q.2 == p.2,
        None => false,
    }
}

impl Canvas {
    /// Buffer length matches the dimensions, and the dimensions fit a `usize`.
    pub open spec fn wf(&self) -> bool {
        &&& self.spec_cols() * self.spec_rows() * 2 <= usize::MAX
        &&& self.spec_rows() * 2 <= usize::MAX
        &&& self.pixels().len() == self.spec_cols() * self.spec_rows() * 2
    }

    /// Pixel width (the `cols` field).
    pub closed spec fn spec_cols(&self) -> int {
        self.cols as int
    }

    /// Terminal rows (the `rows` field).
    pub closed spec fn spec_rows(&self) -> int {
        self.rows as int
    }

    /// The pixels, row-major, `cols` per pixel row.
    pub closed spec fn pixels(&self) -> Seq<Rgb> {
        self.buf@
    }

    /// Pixel height.
    pub open spec fn spec_ph(&self) -> int {
        self.spec_rows() * 2
    }

    pub fn new(cols: usize, rows: usize) -> (s: Self)
        requires
            cols * rows * 2 <= usize::MAX,
            rows * 2 <= usize::MAX,
        ensures
            s.wf(),
            s.spec_cols() == cols,
            s.spec_rows() == rows,
            s.spec_ph() == rows * 2,
            s.pixels().len() == cols * rows * 2,
            forall|i: int| 0 <= i < s.pixels().len() ==> s.pixels()[i] == (0u8, 0u8, 0u8),
    {
        let n = cols * rows * 2;
        let mut buf: Vec<Rgb> = Vec::new();
        while buf.len() < n
            invariant
                buf.len() <= n,
                forall|i: int| 0 <= i < buf.len() ==> buf@[i] == (0u8, 0u8, 0u8),
            decreases n - buf.len(),
        {
            buf.push((0, 0, 0));
        }
        Self { cols, rows, buf }
    }

    /// Pixel height: two stacked pixels per terminal row.
    pub fn ph(&self) -> (h: usize)
        requires
            self.wf(),
        ensures
            h == self.spec_rows() * 2,
    {
        self.rows * 2
    }

    /// Fill the whole buffer with one color.
    pub fn clear(&mut self, c: Rgb)
        requires
            old(self).wf(),
        ensures
            final(self).wf(),
            final(self).spec_cols() == old(self).spec_cols(),
            final(self).spec_rows() == old(self).spec_rows(),
            final(self).pixels() == Seq::new(old(self).pixels().len(), |_i: int| c),
    {
        let n = self.buf.len();
        let mut i: usize = 0;
        while i < n
            invariant
                0 <= i <= n,
                n == self.buf.len(),
                self.cols == old(self).cols,
                self.rows == old(self).rows,
                self.buf.len() == old(self).pixels().len(),
                forall|j: int| 0 <= j < i ==> self.buf@[j] == c,
            decreases n - i,
        {
            self.buf.set(i, c);
            i += 1;
        }
        assert(self.pixels() =~= Seq::new(old(self).pixels().len(), |_i: int| c));
    }

    /// Set one pixel. Out-of-bounds coordinates are silently dropped.
    pub fn put(&mut self, x: i32, y: i32, c: Rgb)
        requires
            old(self).wf(),
        ensures
            final(self).wf(),
            final(self).spec_cols() == old(self).spec_cols(),
            final(self).spec_rows() == old(self).spec_rows(),
            final(self).pixels() == put_spec(old(self).pixels(), old(self).spec_cols(), old(self).spec_ph(), x as int, y as int, c),
    {
        if x < 0 || y < 0 {
            return;
        }
        let (x, y) = (x as usize, y as usize);
        if x >= self.cols || y >= self.ph() {
            return;
        }
        proof {
            assert((y as int) * (self.cols as int) + (x as int) < (self.cols as int) * (self.rows as int) * 2) by (nonlinear_arith)
                requires y < self.rows * 2, x < self.cols;
            assert(0 <= (y as int) * (self.cols as int)) by (nonlinear_arith);
        }
        self.buf.set(y * self.cols + x, c);
    }
    /// Draw a straight line between two pixels (integer Bresenham). Each step goes
    /// through the bounds-checked `put`, so a segment that runs off the edge is
    /// clipped pixel by pixel.
    pub fn line(&mut self, x0: i32, y0: i32, x1: i32, y1: i32, c: Rgb)
        requires
            old(self).wf(),
            line_fits(x0 as int, y0 as int, x1 as int, y1 as int),
        ensures
            final(self).wf(),
            final(self).spec_cols() == old(self).spec_cols(),
            final(self).spec_rows() == old(self).spec_rows(),
            final(self).pixels() == paint(
                old(self).pixels(),
                old(self).spec_cols(),
                old(self).spec_ph(),
                line_points(x0 as int, y0 as int, x1 as int, y1 as int),
                c,
            ),
    {
        let ddx = x1 - x0;
        let ddy = y1 - y0;
        let dx = if ddx < 0 { -ddx } else { ddx };
        let dy = if ddy < 0 { ddy } else { -ddy };
        let sx: i32 = if x0 < x1 { 1 } else { -1 };
        let sy: i32 = if y0 < y1 { 1 } else { -1 };
        let mut err = dx + dy;
        let mut x = x0;
        let mut y = y0;
        let ghost big_dx: int = dx as int;
        let ghost big_dy: int = -(dy as int);
        let ghost mut i: int = 0;
        let ghost mut j: int = 0;
        let ghost mut fuel: nat = (big_dx + big_dy + 1) as nat;
        let ghost mut visited: Seq<(int, int)> = Seq::empty();
        let ghost px0 = old(self).pixels();
        let ghost cols = old(self).spec_cols();
        let ghost ph = old(self).spec_ph();
        let ghost pts = line_points(x0 as int, y0 as int, x1 as int, y1 as int);
        loop
            invariant_except_break
                self.pixels() == paint(px0, cols, ph, visited, c),
                pts == visited + walk(x as int, y as int, err as int, x1 as int, y1 as int, dx as int, dy as int, sx as int, sy as int, fuel),
                0 <= i <= big_dx,
                0 <= j <= big_dy,
                big_dx - i + big_dy - j < fuel,
                err == big_dx - big_dy - i * big_dy + j * big_dx,
                -3 * big_dy <= 2 * err <= 3 * big_dx,
            invariant
                self.wf(),
                self.spec_cols() == cols,
                self.spec_rows() == old(self).spec_rows(),
                ph == self.spec_ph(),
                px0 == old(self).pixels(),
                cols == old(self).spec_cols(),
                pts == line_points(x0 as int, y0 as int, x1 as int, y1 as int),
                big_dx == dx,
                big_dy == -dy,
                3 * big_dx <= i32::MAX,
                3 * big_dy <= i32::MAX,
                sx == toward_sign(x0 as int, x1 as int),
                sy == toward_sign(y0 as int, y1 as int),
                x1 == x0 + sx * big_dx,
                y1 == y0 + sy * big_dy,
                x == x0 + sx * i,
                y == y0 + sy * j,
            ensures
                self.pixels() == paint(px0, cols, ph, pts, c),
            decreases big_dx - i + big_dy - j,
        {
            proof {
                lemma_paint_push(px0, cols, ph, visited, (x as int, y as int), c);
            }
            self.put(x, y, c);
            if x == x1 && y == y1 {
                proof {
                    assert(fuel > 0);
                    assert(walk(x as int, y as int, err as int, x1 as int, y1 as int, dx as int, dy as int, sx as int, sy as int, fuel) == seq![(x as int, y as int)]);
                    assert(pts =~= visited.push((x as int, y as int)));
                }
                break;
            }
            proof {
                if i == big_dx {
                    assert(x == x1);
                    lemma_no_x_overshoot(big_dx, big_dy, i, j, err as int);
                }
                if j == big_dy {
                    assert(y == y1);
                    lemma_no_y_overshoot(big_dx, big_dy, i, j, err as int);
                }
                let w = walk(x as int, y as int, err as int, x1 as int, y1 as int, dx as int, dy as int, sx as int, sy as int, fuel);
                assert(w == seq![(x as int, y as int)] + w.drop_first());
                assert(pts =~= visited.push((x as int, y as int)) + w.drop_first());
                visited = visited.push((x as int, y as int));
                fuel = (fuel - 1) as nat;
            }
            let e2 = 2 * err;
            if e2 >= dy {
                proof {
                    assert((i + 1) * big_dy == i * big_dy + big_dy) by (nonlinear_arith);
                    assert(sx * (i + 1) == sx * i + sx) by (nonlinear_arith);
                    i = i + 1;
                }
                err += dy;
                x += sx;
            }
            if e2 <= dx {
                proof {
                    assert((j + 1) * big_dx == j * big_dx + big_dx) by (nonlinear_arith);
                    assert(sy * (j + 1) == sy * j + sy) by (nonlinear_arith);
                    j = j + 1;
                }
                err += dx;
                y += sy;
            }
        }
    }
    /// Append one full frame of ANSI to `out`. Callers clear `out` first when
    /// reusing the buffer across frames.
    pub fn render(&self, out: &mut String)
        requires
            self.wf(),
        ensures
            final(out)@ == old(out)@ + frame(self.pixels(), self.spec_cols(), self.spec_rows()),
    {
        let ghost px = self.pixels();
        let ghost cols = self.cols as int;
        let ghost rows = self.rows as int;
        let ghost target = old(out)@ + frame(px, cols, rows);
        proof { reveal_strlit("\x1b[H"); }
        out.append("\x1b[H");
        assert(target =~= out@ + frame_rows(px, cols, rows, 0));
        let mut r: usize = 0;
        while r < self.rows
            invariant
                self.wf(),
                px == self.pixels(),
                cols == self.cols,
                rows == self.rows,
                r <= self.rows,
                target == out@ + frame_rows(px, cols, rows, r as int),
            decreases self.rows - r,
        {
            let mut last_fg: Option<Rgb> = None;
            let mut last_bg: Option<Rgb> = None;
            let ghost rest = reset_code() + (if r + 1 < rows { crlf() } else { Seq::empty() })
                + frame_rows(px, cols, rows, r + 1);
            assert(target =~= out@ + row_text(px, cols, r as int, 0, last_fg, last_bg) + rest);
            let mut c: usize = 0;
            while c < self.cols
                invariant
                    self.wf(),
                    px == self.pixels(),
                    cols == self.cols,
                    rows == self.rows,
                    r < self.rows,
                    c <= self.cols,
                    target == out@ + row_text(px, cols, r as int, c as int, last_fg, last_bg) + rest,
                decreases self.cols - c,
            {
                proof {
                    assert((2 * r + 1) * self.cols + c < self.cols * self.rows * 2) by (nonlinear_arith)
                        requires r < self.rows, c < self.cols;
                    assert(0 <= (2 * r) * self.cols) by (nonlinear_arith);
                    assert((2 * r + 1) * self.cols == (2 * r) * self.cols + self.cols) by (nonlinear_arith);
                }
                let top = self.buf[(2 * r) * self.cols + c];
                let bot = self.buf[(2 * r + 1) * self.cols + c];
                let ghost before = out@;
                let ghost tail = row_text(px, cols, r as int, c + 1, Some(top), Some(bot));
                if !same_color(last_fg, top) {
                    push_color(out, false, top);
                    last_fg = Some(top);
                }
                let ghost mid = out@;
                if !same_color(last_bg, bot) {
                    push_color(out, true, bot);
                    last_bg = Some(bot);
                }
                proof { reveal_strlit("\u{2580}"); }
                out.append("\u{2580}");
                assert(target =~= out@ + tail + rest);
                c += 1;
            }
            proof { reveal_strlit("\x1b[0m"); reveal_strlit("\r\n"); }
            out.append("\x1b[0m");
            if r + 1 < self.rows {
                out.append("\r\n");
            }
            assert(target =~= out@ + frame_rows(px, cols, rows, r + 1));
            r += 1;
        }
    }
}

} // verus!
