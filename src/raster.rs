//! Raster drawing: an RGB canvas held in an `image` buffer, and lines drawn on
//! it with Bresenham's integer algorithm.
use crate::path::{Line, Color};
use vstd::prelude::*;

verus! {

/// An `image` crate RGB buffer (`image::RgbImage`), which Verus cannot see
/// into: what it holds is `buffer_rows`.
#[verifier::external_body]
pub struct RgbBuffer {
    image: image::RgbImage,
}

/// What an RGB image holds: its rows from top to bottom, each row its pixels
/// from left to right.
pub uninterp spec fn buffer_rows(b: RgbBuffer) -> Seq<Seq<Color>>;

/// Relies on `image::ImageBuffer::from_pixel`: an image of `width` columns and
/// `height` rows with every pixel `c`. It panics when the buffer of
/// 3 * width * height bytes cannot be allocated.
#[verifier::external_body]
fn image_filled(width: u32, height: u32, c: Color) -> (r: RgbBuffer)
    requires
        3 * width * height <= isize::MAX,
    ensures
        buffer_rows(r) == Seq::new(height as nat, |y: int| Seq::new(width as nat, |x: int| c)),
{
    RgbBuffer { image: image::RgbImage::from_pixel(width, height, image::Rgb([c.0, c.1, c.2])) }
}

/// Relies on `image::ImageBuffer::put_pixel`: sets the pixel at column `x`,
/// row `y`, and nothing else. It panics outside the image.
#[verifier::external_body]
fn image_put(img: &mut RgbBuffer, x: u32, y: u32, c: Color)
    requires
        y < buffer_rows(*old(img)).len(),
        x < buffer_rows(*old(img))[y as int].len(),
    ensures
        buffer_rows(*final(img)) == buffer_rows(*old(img)).update(
            y as int,
            buffer_rows(*old(img))[y as int].update(x as int, c),
        ),
{
    img.image.put_pixel(x, y, image::Rgb([c.0, c.1, c.2]));
}

/// Relies on `image::ImageBuffer::get_pixel`: the pixel at column `x`, row
/// `y`. It panics outside the image.
#[verifier::external_body]
fn image_get(img: &RgbBuffer, x: u32, y: u32) -> (r: Color)
    requires
        y < buffer_rows(*img).len(),
        x < buffer_rows(*img)[y as int].len(),
    ensures
        r == buffer_rows(*img)[y as int][x as int],
{
    let p = img.image.get_pixel(x, y);
    (p.0[0], p.0[1], p.0[2])
}

/// The bytes of a grid whose rows have `width` pixels: row after row from
/// the top, each pixel as red, green, blue.
pub open spec fn raw_bytes(rows: Seq<Seq<Color>>, width: int) -> Seq<u8> {
    Seq::new(
        (3 * width * rows.len()) as nat,
        |k: int|
            {
                let p = rows[k / 3 / width][(k / 3) % width];
                if k % 3 == 0 {
                    p.0
                } else if k % 3 == 1 {
                    p.1
                } else {
                    p.2
                }
            },
    )
}

/// Relies on `image::ImageBuffer::into_raw`: the pixel bytes, row-major,
/// three channels per pixel. The buffer was made by `from_pixel`, so it holds
/// exactly 3 * width * height bytes.
#[verifier::external_body]
fn image_bytes(img: RgbBuffer, width: u32) -> (r: Vec<u8>)
    requires
        forall|y: int| 0 <= y < buffer_rows(img).len() ==> (#[trigger] buffer_rows(img)[y]).len() == width,
    ensures
        r@ == raw_bytes(buffer_rows(img), width as int),
{
    img.image.into_raw()
}

/// A grid of `width` by `height` pixels: every row has `width` pixels.
pub open spec fn is_grid(rows: Seq<Seq<Color>>, width: int, height: int) -> bool {
    &&& rows.len() == height
    &&& forall|y: int| 0 <= y < height ==> (#[trigger] rows[y]).len() == width
}

/// An RGB raster image. Row 0 is the top; y grows downward.
pub struct Canvas {
    width: u32,
    height: u32,
    image: RgbBuffer,
}

impl Canvas {
    /// Every row holds `width` pixels, and there are `height` rows.
    pub open spec fn wf(&self) -> bool {
        is_grid(self.pixels(), self.width() as int, self.height() as int)
    }

    /// The number of columns.
    pub closed spec fn width(&self) -> u32 {
        self.width
    }

    /// The number of rows.
    pub closed spec fn height(&self) -> u32 {
        self.height
    }

    /// The pixels, row by row from the top.
    pub closed spec fn pixels(&self) -> Seq<Seq<Color>> {
        buffer_rows(self.image)
    }

    /// A canvas of the given size filled with `background`.
    pub fn new(width: u32, height: u32, background: Color) -> (r: Canvas)
        requires
            3 * width * height <= isize::MAX,
        ensures
            r.wf(),
            r.width() == width,
            r.height() == height,
            r.pixels() == Seq::new(height as nat, |y: int| Seq::new(width as nat, |x: int| background)),
    {
        let image = image_filled(width, height, background);
        Canvas { width, height, image }
    }

    /// The number of columns.
    pub fn get_width(&self) -> (r: u32)
        ensures
            r == self.width(),
    {
        self.width
    }

    /// The number of rows.
    pub fn get_height(&self) -> (r: u32)
        ensures
            r == self.height(),
    {
        self.height
    }

    /// The pixel at column `x`, row `y`.
    pub fn pixel(&self, x: u32, y: u32) -> (r: Color)
        requires
            self.wf(),
            x < self.width(),
            y < self.height(),
        ensures
            r == self.pixels()[y as int][x as int],
    {
        image_get(&self.image, x, y)
    }

    /// Sets the pixel at column `x`, row `y`.
    pub fn put(&mut self, x: u32, y: u32, c: Color)
        requires
            old(self).wf(),
            x < old(self).width(),
            y < old(self).height(),
        ensures
            final(self).wf(),
            final(self).width() == old(self).width(),
            final(self).height() == old(self).height(),
            final(self).pixels() == old(self).pixels().update(
                y as int,
                old(self).pixels()[y as int].update(x as int, c),
            ),
    {
        let ghost before = buffer_rows(self.image);
        image_put(&mut self.image, x, y, c);
        proof {
            let rows = buffer_rows(self.image);
            assert forall|yy: int| 0 <= yy < self.height implies (#[trigger] rows[yy]).len()
                == self.width by {
                if yy != y {
                    assert(rows[yy] == before[yy]);
                }
            }
        }
    }

    /// The pixel bytes, for encoding: row after row from the top, each pixel
    /// as red, green, blue.
    pub fn into_bytes(self) -> (r: Vec<u8>)
        requires
            self.wf(),
        ensures
            r@ == raw_bytes(self.pixels(), self.width() as int),
    {
        let w = self.width;
        image_bytes(self.image, w)
    }
}

/// |a - b|.
pub open spec fn dist(a: int, b: int) -> int {
    if a >= b {
        a - b
    } else {
        b - a
    }
}

/// The unit step that leads from `a` toward `b` (-1 when they are equal).
pub open spec fn dir(a: int, b: int) -> int {
    if a < b {
        1
    } else {
        -1
    }
}

/// Twice Bresenham's error term at (x, y) on the line from (x0, y0) to
/// (x1, y1): with i = |x - x0| steps taken along x and j = |y - y0| along y,
/// it is 2 * (dx * (1 + j) - dy * (1 + i)) for dx = |x1 - x0|, dy = |y1 - y0|.
pub open spec fn error2(x0: int, y0: int, x1: int, y1: int, x: int, y: int) -> int {
    2 * (dist(x1, x0) * (1 + dist(y, y0)) - dist(y1, y0) * (1 + dist(x, x0)))
}

/// The point after (x, y) on the line: a step along x when twice the error
/// is at least -dy, a step along y when it is at most dx.
pub open spec fn next_point(x0: int, y0: int, x1: int, y1: int, x: int, y: int) -> (int, int) {
    let e2 = error2(x0, y0, x1, y1, x, y);
    (
        if e2 >= -dist(y1, y0) {
            x + dir(x0, x1)
        } else {
            x
        },
        if e2 <= dist(x1, x0) {
            y + dir(y0, y1)
        } else {
            y
        },
    )
}

/// The points of the line from (x, y) on, up to the end point (x1, y1), with
/// at most `fuel` steps.
pub open spec fn trace(x0: int, y0: int, x1: int, y1: int, x: int, y: int, fuel: nat) -> Seq<
    (int, int),
>
    decreases fuel,
{
    if (x == x1 && y == y1) || fuel == 0 {
        seq![(x, y)]
    } else {
        let n = next_point(x0, y0, x1, y1, x, y);
        seq![(x, y)] + trace(x0, y0, x1, y1, n.0, n.1, (fuel - 1) as nat)
    }
}

/// The pixels of the line from (x0, y0) to (x1, y1), in drawing order.
pub open spec fn line_points(x0: int, y0: int, x1: int, y1: int) -> Seq<(int, int)> {
    trace(x0, y0, x1, y1, x0, y0, (dist(x1, x0) + dist(y1, y0)) as nat)
}

/// (x, y) lies on a canvas of `width` by `height`.
pub open spec fn in_bounds(p: (int, int), width: int, height: int) -> bool {
    0 <= p.0 < width && 0 <= p.1 < height
}

/// The points drawn on a canvas: the points up to the first one outside it.
pub open spec fn visible(pts: Seq<(int, int)>, width: int, height: int) -> Seq<(int, int)>
    decreases pts.len(),
{
    if pts.len() == 0 || !in_bounds(pts[0], width, height) {
        Seq::empty()
    } else {
        seq![pts[0]] + visible(pts.drop_first(), width, height)
    }
}

/// `rows` with every pixel at one of the points `pts` set to `c`.
pub open spec fn painted(rows: Seq<Seq<Color>>, pts: Seq<(int, int)>, c: Color) -> Seq<Seq<Color>> {
    Seq::new(
        rows.len(),
        |y: int| Seq::new(rows[y].len(), |x: int| if pts.contains((x, y)) { c } else { rows[y][x] }),
    )
}

/// One step of the line from a point that is not its end: it moves toward
/// the end along x, along y or both, and never past it.
proof fn lemma_step(dx: int, dy: int, i: int, j: int)
    requires
        0 <= i <= dx,
        0 <= j <= dy,
        !(i == dx && j == dy),
    ensures
        2 * (dx * (1 + j) - dy * (1 + i)) >= -dy ==> i < dx,
        2 * (dx * (1 + j) - dy * (1 + i)) <= dx ==> j < dy,
        2 * (dx * (1 + j) - dy * (1 + i)) >= -dy || 2 * (dx * (1 + j) - dy * (1 + i)) <= dx,
{
    if i == dx {
        assert(dx * (1 + j) <= dx * dy) by (nonlinear_arith)
            requires
                0 <= dx,
                1 + j <= dy,
        ;
        assert(dy * (1 + i) == dy + dx * dy) by (nonlinear_arith)
            requires
                i == dx,
        ;
    }
    if j == dy {
        assert(dy * (1 + i) <= dy * dx) by (nonlinear_arith)
            requires
                0 <= dy,
                1 + i <= dx,
        ;
        assert(dx * (1 + j) == dx + dx * dy) by (nonlinear_arith)
            requires
                j == dy,
        ;
    }
    assert(2 * (dx * (1 + j) - dy * (1 + i)) >= -dy || 2 * (dx * (1 + j) - dy * (1 + i)) <= dx)
        by (nonlinear_arith)
        requires
            0 <= i,
            0 <= j,
            0 <= dx,
            0 <= dy,
    ;
}

/// The points drawn are the points up to the first one outside the canvas.
proof fn lemma_visible_prefix(pts: Seq<(int, int)>, k: int, width: int, height: int)
    requires
        0 <= k <= pts.len(),
        forall|m: int| 0 <= m < k ==> in_bounds(#[trigger] pts[m], width, height),
        k == pts.len() || !in_bounds(pts[k], width, height),
    ensures
        visible(pts, width, height) == pts.take(k),
    decreases k,
{
    if k == 0 {
        assert(pts.take(0) =~= Seq::<(int, int)>::empty());
    } else {
        let rest = pts.drop_first();
        assert forall|m: int| 0 <= m < k - 1 implies in_bounds(#[trigger] rest[m], width, height) by {
            assert(rest[m] == pts[m + 1]);
        }
        if k - 1 < rest.len() {
            assert(rest[k - 1] == pts[k]);
        }
        lemma_visible_prefix(rest, k - 1, width, height);
        assert(pts[0] == pts[0]);
        assert(seq![pts[0]] + rest.take(k - 1) =~= pts.take(k));
    }
}

/// Painting one more point sets that one pixel.
proof fn lemma_paint_more(rows: Seq<Seq<Color>>, pts: Seq<(int, int)>, k: int, c: Color, w: int)
    requires
        0 <= k < pts.len(),
        0 <= pts[k].1 < rows.len(),
        0 <= pts[k].0 < w,
        forall|y: int| 0 <= y < rows.len() ==> (#[trigger] rows[y]).len() == w,
    ensures
        painted(rows, pts.take(k + 1), c) == painted(rows, pts.take(k), c).update(
            pts[k].1,
            painted(rows, pts.take(k), c)[pts[k].1].update(pts[k].0, c),
        ),
{
    let a = painted(rows, pts.take(k + 1), c);
    let b = painted(rows, pts.take(k), c);
    let (px, py) = pts[k];
    let u = b.update(py, b[py].update(px, c));
    assert forall|y: int| 0 <= y < rows.len() implies #[trigger] a[y] =~= u[y] by {
        assert forall|x: int| 0 <= x < rows[y].len() implies a[y][x] == u[y][x] by {
            if pts.take(k + 1).contains((x, y)) && !(x == px && y == py) {
                let m = choose|m: int| 0 <= m < k + 1 && #[trigger] pts.take(k + 1)[m] == (x, y);
                assert(pts.take(k)[m] == (x, y));
            }
            if pts.take(k).contains((x, y)) {
                let m = choose|m: int| 0 <= m < k && #[trigger] pts.take(k)[m] == (x, y);
                assert(pts.take(k + 1)[m] == (x, y));
            }
            if x == px && y == py {
                assert(pts.take(k + 1)[k] == (x, y));
            }
        }
    }
    assert(a =~= u);
}

/// `p` to `q` is one step of an 8-connected walk with the unit steps `sx`
/// along x and `sy` along y: a move along x, along y, or both.
pub open spec fn is_step(p: (int, int), q: (int, int), sx: int, sy: int) -> bool {
    &&& (q.0 == p.0 || q.0 == p.0 + sx)
    &&& (q.1 == p.1 || q.1 == p.1 + sy)
    &&& q != p
}

proof fn lemma_trace_walk(x0: int, y0: int, x1: int, y1: int, x: int, y: int, fuel: nat)
    requires
        x0 < x1 ==> x0 <= x <= x1,
        x0 >= x1 ==> x1 <= x <= x0,
        y0 < y1 ==> y0 <= y <= y1,
        y0 >= y1 ==> y1 <= y <= y0,
        fuel >= (dist(x1, x0) - dist(x, x0)) + (dist(y1, y0) - dist(y, y0)),
    ensures
        trace(x0, y0, x1, y1, x, y, fuel).len() >= 1,
        trace(x0, y0, x1, y1, x, y, fuel)[0] == (x, y),
        trace(x0, y0, x1, y1, x, y, fuel).last() == (x1, y1),
        forall|k: int|
            0 <= k < trace(x0, y0, x1, y1, x, y, fuel).len() - 1 ==> is_step(
                #[trigger] trace(x0, y0, x1, y1, x, y, fuel)[k],
                trace(x0, y0, x1, y1, x, y, fuel)[k + 1],
                dir(x0, x1),
                dir(y0, y1),
            ),
    decreases fuel,
{
    let t = trace(x0, y0, x1, y1, x, y, fuel);
    if !(x == x1 && y == y1) {
        lemma_step(dist(x1, x0), dist(y1, y0), dist(x, x0), dist(y, y0));
        let n = next_point(x0, y0, x1, y1, x, y);
        let rest = trace(x0, y0, x1, y1, n.0, n.1, (fuel - 1) as nat);
        lemma_trace_walk(x0, y0, x1, y1, n.0, n.1, (fuel - 1) as nat);
        assert(t == seq![(x, y)] + rest);
        assert forall|k: int| 0 <= k < t.len() - 1 implies is_step(
            #[trigger] t[k],
            t[k + 1],
            dir(x0, x1),
            dir(y0, y1),
        ) by {
            if k > 0 {
                assert(t[k] == rest[k - 1]);
                assert(t[k + 1] == rest[k]);
            }
        }
    }
}

/// The pixels of a line form an 8-connected walk from its start to its end:
/// each pixel after the first is a neighbour of the one before it, reached by
/// a unit step toward the end along x, along y, or both.
pub proof fn lemma_line_is_connected(x0: int, y0: int, x1: int, y1: int)
    ensures
        line_points(x0, y0, x1, y1).len() >= 1,
        line_points(x0, y0, x1, y1)[0] == (x0, y0),
        line_points(x0, y0, x1, y1).last() == (x1, y1),
        forall|k: int|
            0 <= k < line_points(x0, y0, x1, y1).len() - 1 ==> is_step(
                #[trigger] line_points(x0, y0, x1, y1)[k],
                line_points(x0, y0, x1, y1)[k + 1],
                dir(x0, x1),
                dir(y0, y1),
            ),
{
    lemma_trace_walk(x0, y0, x1, y1, x0, y0, (dist(x1, x0) + dist(y1, y0)) as nat);
}

/// `a` moved `k` unit steps in the direction of the sign of `u`.
pub open spec fn along(a: int, u: int, k: int) -> int {
    if u > 0 {
        a + k
    } else if u < 0 {
        a - k
    } else {
        a
    }
}

/// The unit step from `a` toward `b`, or 0 when they are equal.
pub open spec fn unit(a: int, b: int) -> int {
    if a == b {
        0
    } else {
        dir(a, b)
    }
}


/// How far the k-th pixel of a line lies from the start along its minor axis,
/// for `major` steps along the major axis and `minor` along the other:
/// k * minor / major rounded to the nearest integer, a half rounded up.
pub open spec fn minor_offset(major: int, minor: int, k: int) -> int {
    (2 * minor * k + major) / (2 * major)
}

proof fn lemma_floor_bounds(a: int, d: int)
    requires
        0 <= a,
        0 < d,
    ensures
        0 <= a / d,
        d * (a / d) <= a < d * (a / d) + d,
{
    vstd::arithmetic::div_mod::lemma_fundamental_div_mod(a, d);
    vstd::arithmetic::div_mod::lemma_mod_pos_bound(a, d);
    vstd::arithmetic::div_mod::lemma_div_pos_is_pos(a, d);
}

/// From its k-th pixel on, a line that is at least as wide as it is tall
/// steps along x every time, and along y where the rounded offset grows.
proof fn lemma_trace_wide(x0: int, y0: int, x1: int, y1: int, k: int, fuel: nat)
    requires
        dist(x1, x0) >= dist(y1, y0),
        dist(x1, x0) > 0,
        0 <= k <= dist(x1, x0),
        fuel >= dist(x1, x0) - k,
    ensures
        ({
            let dx = dist(x1, x0);
            let dy = dist(y1, y0);
            let t = trace(
                x0,
                y0,
                x1,
                y1,
                along(x0, unit(x0, x1), k),
                along(y0, unit(y0, y1), minor_offset(dx, dy, k)),
                fuel,
            );
            &&& t.len() == dx - k + 1
            &&& forall|m: int|
                0 <= m < t.len() ==> #[trigger] t[m] == (
                    along(x0, unit(x0, x1), k + m),
                    along(y0, unit(y0, y1), minor_offset(dx, dy, k + m)),
                )
        }),
    decreases dist(x1, x0) - k,
{
    let dx = dist(x1, x0);
    let dy = dist(y1, y0);
    let ux = unit(x0, x1);
    let uy = unit(y0, y1);
    let j = minor_offset(dx, dy, k);
    let x = along(x0, ux, k);
    let y = along(y0, uy, j);
    let t = trace(x0, y0, x1, y1, x, y, fuel);
    assert(0 <= 2 * dy * k) by (nonlinear_arith)
        requires
            0 <= dy,
            0 <= k,
    ;
    lemma_floor_bounds(2 * dy * k + dx, 2 * dx);
    assert(j <= dy) by (nonlinear_arith)
        requires
            2 * dx * j <= 2 * dy * k + dx,
            k <= dx,
            0 <= dy,
            0 < dx,
    ;
    if dy == 0 {
        assert(j == 0) by (nonlinear_arith)
            requires
                2 * dx * j <= 2 * dy * k + dx,
                dy == 0,
                0 < dx,
                0 <= j,
        ;
    }
    if k == dx {
        assert(2 * dy * k + dx == 2 * dx * dy + dx) by (nonlinear_arith)
            requires
                k == dx,
        ;
        vstd::arithmetic::div_mod::lemma_fundamental_div_mod_converse(
            2 * dy * k + dx,
            2 * dx,
            dy,
            dx,
        );
        assert(x == x1 && y == y1);
    } else {
        assert(x != x1);
        let j2 = minor_offset(dx, dy, k + 1);
        assert(0 <= 2 * dy * (k + 1)) by (nonlinear_arith)
            requires
                0 <= dy,
                0 <= k,
        ;
        lemma_floor_bounds(2 * dy * (k + 1) + dx, 2 * dx);
        assert(2 * dy * (k + 1) == 2 * dy * k + 2 * dy) by (nonlinear_arith);
        assert(j <= j2 <= j + 1) by (nonlinear_arith)
            requires
                2 * dx * j <= 2 * dy * k + dx < 2 * dx * j + 2 * dx,
                2 * dx * j2 <= 2 * dy * k + 2 * dy + dx < 2 * dx * j2 + 2 * dx,
                0 <= dy <= dx,
                0 < dx,
        ;
        let e2 = error2(x0, y0, x1, y1, x, y);
        assert(dist(x, x0) == k);
        assert(dist(y, y0) == j);
        assert(dx * (1 + j) == dx + dx * j) by (nonlinear_arith);
        assert(dy * (1 + k) == dy + dy * k) by (nonlinear_arith);
        assert(e2 == 2 * dx + 2 * (dx * j) - 2 * dy - 2 * (dy * k));
        assert(2 * dx * j == 2 * (dx * j) && 2 * dy * k == 2 * (dy * k) && 2 * dx * j2 == 2 * (dx
            * j2)) by (nonlinear_arith);
        assert(e2 >= -dy);
        assert(2 * (dx * j) + 2 * dx <= 2 * (dy * k) + 2 * dy + dx <==> j2 == j + 1) by (
        nonlinear_arith)
            requires
                2 * (dx * j2) <= 2 * (dy * k) + 2 * dy + dx < 2 * (dx * j2) + 2 * dx,
                j <= j2 <= j + 1,
                0 < dx,
        ;
        assert(e2 <= dx <==> j2 == j + 1);
        assert(next_point(x0, y0, x1, y1, x, y) == (along(x0, ux, k + 1), along(y0, uy, j2)));
        lemma_trace_wide(x0, y0, x1, y1, k + 1, (fuel - 1) as nat);
        let rest = trace(
            x0,
            y0,
            x1,
            y1,
            along(x0, ux, k + 1),
            along(y0, uy, j2),
            (fuel - 1) as nat,
        );
        assert(t == seq![(x, y)] + rest);
        assert forall|m: int| 0 <= m < t.len() implies #[trigger] t[m] == (
            along(x0, ux, k + m),
            along(y0, uy, minor_offset(dx, dy, k + m)),
        ) by {
            if m > 0 {
                assert(t[m] == rest[m - 1]);
            }
        }
    }
}

proof fn lemma_trace_swap(x0: int, y0: int, x1: int, y1: int, x: int, y: int, fuel: nat)
    ensures
        trace(y0, x0, y1, x1, y, x, fuel) == trace(x0, y0, x1, y1, x, y, fuel).map_values(
            |p: (int, int)| (p.1, p.0),
        ),
    decreases fuel,
{
    let t = trace(x0, y0, x1, y1, x, y, fuel);
    let u = trace(y0, x0, y1, x1, y, x, fuel);
    if !((x == x1 && y == y1) || fuel == 0) {
        let n = next_point(x0, y0, x1, y1, x, y);
        assert(error2(y0, x0, y1, x1, y, x) == -error2(x0, y0, x1, y1, x, y));
        assert(next_point(y0, x0, y1, x1, y, x) == (n.1, n.0));
        lemma_trace_swap(x0, y0, x1, y1, n.0, n.1, (fuel - 1) as nat);
    }
    assert(u =~= t.map_values(|p: (int, int)| (p.1, p.0)));
}

/// Rounding offsets from both ends of a line meet unless one of them falls
/// exactly halfway.
proof fn lemma_offsets_meet(major: int, minor: int, k: int)
    requires
        0 < major,
        0 <= minor <= major,
        0 <= k <= major,
        !tie_at(major, minor, k),
    ensures
        minor_offset(major, minor, k) + minor_offset(major, minor, major - k) == minor,
{
    let a = 2 * minor * k + major;
    let b = 2 * minor * (major - k) + major;
    let d = 2 * major;
    assert(0 <= 2 * minor * k && 0 <= 2 * minor * (major - k)) by (nonlinear_arith)
        requires
            0 <= minor,
            0 <= k <= major,
    ;
    assert(a + b == d * (minor + 1)) by (nonlinear_arith)
        requires
            a == 2 * minor * k + major,
            b == 2 * minor * (major - k) + major,
            d == 2 * major,
    ;
    vstd::arithmetic::div_mod::lemma_fundamental_div_mod(a, d);
    vstd::arithmetic::div_mod::lemma_fundamental_div_mod(b, d);
    vstd::arithmetic::div_mod::lemma_mod_pos_bound(a, d);
    vstd::arithmetic::div_mod::lemma_mod_pos_bound(b, d);
    let qa = a / d;
    let qb = b / d;
    assert(qa + qb == minor) by (nonlinear_arith)
        requires
            a == d * qa + a % d,
            b == d * qb + b % d,
            0 < a % d < d,
            0 <= b % d < d,
            a + b == d * (minor + 1),
            0 < d,
    ;
}

/// A line at least as wide as tall with no halfway pixel covers the same
/// pixels from either end.
proof fn lemma_wide_symmetric(x0: int, y0: int, x1: int, y1: int)
    requires
        dist(x1, x0) >= dist(y1, y0),
        dist(x1, x0) > 0,
        !some_tie(dist(x1, x0), dist(y1, y0)),
    ensures
        line_points(x0, y0, x1, y1).to_set() == line_points(x1, y1, x0, y0).to_set(),
{
    let dx = dist(x1, x0);
    let dy = dist(y1, y0);
    let a = line_points(x0, y0, x1, y1);
    let b = line_points(x1, y1, x0, y0);
    assert(2 * dy * 0 + dx == dx) by (nonlinear_arith);
    vstd::arithmetic::div_mod::lemma_fundamental_div_mod_converse(dx, 2 * dx, 0, dx);
    assert(minor_offset(dx, dy, 0) == 0);
    lemma_trace_wide(x0, y0, x1, y1, 0, (dx + dy) as nat);
    lemma_trace_wide(x1, y1, x0, y0, 0, (dx + dy) as nat);
    assert(along(x0, unit(x0, x1), 0) == x0 && along(y0, unit(y0, y1), 0) == y0);
    assert(along(x1, unit(x1, x0), 0) == x1 && along(y1, unit(y1, y0), 0) == y1);
    assert forall|k: int| 0 <= k <= dx implies #[trigger] a[k] == b[dx - k] by {
        assert(!tie_at(dx, dy, k));
        lemma_offsets_meet(dx, dy, k);
    }
    assert forall|p: (int, int)| a.to_set().contains(p) implies b.to_set().contains(p) by {
        let m = choose|m: int| 0 <= m < a.len() && a[m] == p;
        assert(a[m] == b[dx - m]);
    }
    assert forall|p: (int, int)| b.to_set().contains(p) implies a.to_set().contains(p) by {
        let m = choose|m: int| 0 <= m < b.len() && b[m] == p;
        assert(a[dx - m] == b[dx - (dx - m)]);
    }
    assert(a.to_set() =~= b.to_set());
}

/// The k-th pixel of a line with `major` steps along its major axis and
/// `minor` along the other falls exactly halfway between two pixels across
/// the major axis: k * minor / major is an odd number of halves.
pub open spec fn tie_at(major: int, minor: int, k: int) -> bool {
    (2 * minor * k + major) % (2 * major) == 0
}

/// Some pixel of such a line falls halfway.
pub open spec fn some_tie(major: int, minor: int) -> bool {
    major > 0 && exists|k: int| 0 <= k <= major && #[trigger] tie_at(major, minor, k)
}

/// Some pixel of the line from (x0, y0) to (x1, y1) falls halfway.
pub open spec fn has_tie(x0: int, y0: int, x1: int, y1: int) -> bool {
    if dist(x1, x0) >= dist(y1, y0) {
        some_tie(dist(x1, x0), dist(y1, y0))
    } else {
        some_tie(dist(y1, y0), dist(x1, x0))
    }
}

/// A line covers the same pixels whichever of its ends it is drawn from,
/// unless one of its pixels falls exactly halfway between two (then the two
/// directions round that pixel apart: from (0, 0) to (2, 1) the line covers
/// (1, 1), from (2, 1) to (0, 0) it covers (1, 0)).
pub proof fn lemma_line_symmetric(x0: int, y0: int, x1: int, y1: int)
    requires
        !has_tie(x0, y0, x1, y1),
    ensures
        line_points(x0, y0, x1, y1).to_set() == line_points(x1, y1, x0, y0).to_set(),
{
    let dx = dist(x1, x0);
    let dy = dist(y1, y0);
    if dx == 0 && dy == 0 {
        assert(x0 == x1 && y0 == y1);
    } else if dx >= dy {
        lemma_wide_symmetric(x0, y0, x1, y1);
    } else {
        lemma_wide_symmetric(y0, x0, y1, x1);
        let f = (dx + dy) as nat;
        lemma_trace_swap(x0, y0, x1, y1, x0, y0, f);
        lemma_trace_swap(x1, y1, x0, y0, x1, y1, f);
        let a = line_points(x0, y0, x1, y1);
        let b = line_points(x1, y1, x0, y0);
        let sa = line_points(y0, x0, y1, x1);
        let sb = line_points(y1, x1, y0, x0);
        assert(sa == a.map_values(|p: (int, int)| (p.1, p.0)));
        assert(sb == b.map_values(|p: (int, int)| (p.1, p.0)));
        assert forall|p: (int, int)| a.to_set().contains(p) implies b.to_set().contains(p) by {
            let m = choose|m: int| 0 <= m < a.len() && a[m] == p;
            assert(sa[m] == (p.1, p.0));
            assert(sa.to_set().contains((p.1, p.0)));
            assert(sb.to_set().contains((p.1, p.0)));
            let n = choose|n: int| 0 <= n < sb.len() && sb[n] == (p.1, p.0);
            assert(b[n] == p);
        }
        assert forall|p: (int, int)| b.to_set().contains(p) implies a.to_set().contains(p) by {
            let m = choose|m: int| 0 <= m < b.len() && b[m] == p;
            assert(sb[m] == (p.1, p.0));
            assert(sb.to_set().contains((p.1, p.0)));
            assert(sa.to_set().contains((p.1, p.0)));
            let n = choose|n: int| 0 <= n < sa.len() && sa[n] == (p.1, p.0);
            assert(a[n] == p);
        }
        assert(a.to_set() =~= b.to_set());
    }
}

/// Draws `line` on `img` with Bresenham's integer algorithm, in the line's
/// colour. Drawing stops at the end point, or at the first point outside the
/// canvas: a line that leaves the canvas is not resumed if it comes back, and
/// one that starts outside draws nothing.
pub fn draw_line_img(img: &mut Canvas, line: &Line)
    requires
        old(img).wf(),
    ensures
        final(img).wf(),
        final(img).width() == old(img).width(),
        final(img).height() == old(img).height(),
        final(img).pixels() == painted(
            old(img).pixels(),
            visible(
                line_points(
                    line.start.0 as int,
                    line.start.1 as int,
                    line.end.0 as int,
                    line.end.1 as int,
                ),
                old(img).width() as int,
                old(img).height() as int,
            ),
            line.color,
        ),
        !in_bounds(
            (line.start.0 as int, line.start.1 as int),
            old(img).width() as int,
            old(img).height() as int,
        ) ==> final(img).pixels() == old(img).pixels(),
{
    let w = img.get_width();
    let h = img.get_height();
    let (x0, y0) = line.start;
    let (x1, y1) = line.end;
    let ghost pts = line_points(x0 as int, y0 as int, x1 as int, y1 as int);
    let ghost rows0 = img.pixels();
    let dx: i128 = if x1 >= x0 {
        x1 as i128 - x0 as i128
    } else {
        x0 as i128 - x1 as i128
    };
    let dy: i128 = if y1 >= y0 {
        y0 as i128 - y1 as i128
    } else {
        y1 as i128 - y0 as i128
    };
    let sx: i32 = if x0 < x1 {
        1
    } else {
        -1
    };
    let sy: i32 = if y0 < y1 {
        1
    } else {
        -1
    };
    let mut err: i128 = dx + dy;
    let mut x: i32 = x0;
    let mut y: i32 = y0;
    let ghost mut k: int = 0;
    let ghost mut fuel: nat = (dx - dy) as nat;
    proof {
        assert(dist(x as int, x0 as int) == 0 && dist(y as int, y0 as int) == 0);
        assert(dist(x1 as int, x0 as int) * (1 + 0) == dist(x1 as int, x0 as int));
        assert(dist(y1 as int, y0 as int) * (1 + 0) == dist(y1 as int, y0 as int));
        assert(pts.skip(0) =~= pts);
        assert(pts.len() >= 1);
        let p0 = painted(rows0, pts.take(0), line.color);
        assert forall|yy: int| 0 <= yy < rows0.len() implies #[trigger] p0[yy] =~= rows0[yy] by {}
        assert(p0 =~= rows0);
    }
    loop
        invariant_except_break
            img.pixels() == painted(rows0, pts.take(k), line.color),
        invariant
            img.wf(),
            rows0 == old(img).pixels(),
            w == old(img).width(),
            h == old(img).height(),
            is_grid(rows0, w as int, h as int),
            img.width() == w,
            img.height() == h,
            dx == dist(x1 as int, x0 as int),
            dy == -dist(y1 as int, y0 as int),
            sx == dir(x0 as int, x1 as int),
            sy == dir(y0 as int, y1 as int),
            x0 < x1 ==> x0 <= x <= x1,
            x0 >= x1 ==> x1 <= x <= x0,
            y0 < y1 ==> y0 <= y <= y1,
            y0 >= y1 ==> y1 <= y <= y0,
            err == dist(x1 as int, x0 as int) * (1 + dist(y as int, y0 as int)) - dist(
                y1 as int,
                y0 as int,
            ) * (1 + dist(x as int, x0 as int)),
            fuel >= (dx - dist(x as int, x0 as int)) + (-dy - dist(y as int, y0 as int)),
            0 <= k < pts.len(),
            k + fuel == dx - dy,
            pts.skip(k) == trace(x0 as int, y0 as int, x1 as int, y1 as int, x as int, y as int, fuel),
            forall|m: int| 0 <= m < k ==> in_bounds(#[trigger] pts[m], w as int, h as int),
        ensures
            img.pixels() == painted(rows0, visible(pts, w as int, h as int), line.color),
        decreases fuel,
    {
        let ghost t = trace(x0 as int, y0 as int, x1 as int, y1 as int, x as int, y as int, fuel);
        assert(pts.skip(k)[0] == (x as int, y as int));
        assert(pts[k] == (x as int, y as int));
        if !(x >= 0 && y >= 0 && (x as i64) < (w as i64) && (y as i64) < (h as i64)) {
            proof {
                lemma_visible_prefix(pts, k, w as int, h as int);
            }
            break;
        }
        proof {
            lemma_paint_more(rows0, pts, k, line.color, w as int);
        }
        img.put(x as u32, y as u32, line.color);
        if x == x1 && y == y1 {
            proof {
                assert(t.len() == 1);
                assert(pts.len() == k + 1);
                lemma_visible_prefix(pts, k + 1, w as int, h as int);
                assert(pts.take(k + 1) =~= pts);
            }
            break;
        }
        proof {
            lemma_step(dx as int, -dy as int, dist(x as int, x0 as int), dist(y as int, y0 as int));
            assert(fuel > 0);
            assert(pts.skip(k + 1) =~= pts.skip(k).drop_first());
        }
        let ghost i = dist(x as int, x0 as int);
        let ghost j = dist(y as int, y0 as int);
        proof {
            let ddx = dist(x1 as int, x0 as int);
            let ddy = dist(y1 as int, y0 as int);
            assert(0 <= ddx * (1 + j) <= 0x1_0000_0000 * 0x1_0000_0001) by (nonlinear_arith)
                requires
                    0 <= ddx < 0x1_0000_0000,
                    0 <= j <= ddy < 0x1_0000_0000,
            ;
            assert(0 <= ddy * (1 + i) <= 0x1_0000_0000 * 0x1_0000_0001) by (nonlinear_arith)
                requires
                    0 <= ddy < 0x1_0000_0000,
                    0 <= i <= ddx < 0x1_0000_0000,
            ;
        }
        let e2: i128 = 2 * err;
        let ghost err0 = err;
        let ghost xs = e2 >= dy;
        let ghost ys = e2 <= dx;
        let ghost (nx, ny) = next_point(x0 as int, y0 as int, x1 as int, y1 as int, x as int, y as int);
        if e2 >= dy {
            err = err + dy;
            x = x + sx;
        }
        if e2 <= dx {
            err = err + dx;
            y = y + sy;
        }
        proof {
            let ddx = dist(x1 as int, x0 as int);
            let ddy = dist(y1 as int, y0 as int);
            let i2 = dist(x as int, x0 as int);
            let j2 = dist(y as int, y0 as int);
            assert(ddx * (1 + j2) == ddx * (1 + j) + (j2 - j) * ddx) by (nonlinear_arith);
            assert(ddy * (1 + i2) == ddy * (1 + i) + (i2 - i) * ddy) by (nonlinear_arith);
            assert(i2 == i + if xs { 1int } else { 0int });
            assert(j2 == j + if ys { 1int } else { 0int });
            assert(err == err0 + (if xs { -ddy } else { 0int }) + (if ys { ddx } else { 0int }));
            if ys {
                assert((j2 - j) * ddx == ddx) by (nonlinear_arith)
                    requires
                        j2 - j == 1,
                ;
            } else {
                assert((j2 - j) * ddx == 0) by (nonlinear_arith)
                    requires
                        j2 - j == 0,
                ;
            }
            if xs {
                assert((i2 - i) * ddy == ddy) by (nonlinear_arith)
                    requires
                        i2 - i == 1,
                ;
            } else {
                assert((i2 - i) * ddy == 0) by (nonlinear_arith)
                    requires
                        i2 - i == 0,
                ;
            }
            assert(err == ddx * (1 + j2) - ddy * (1 + i2));
            assert(x == nx && y == ny);
            assert(t.drop_first() =~= trace(
                x0 as int,
                y0 as int,
                x1 as int,
                y1 as int,
                nx,
                ny,
                (fuel - 1) as nat,
            ));
            k = k + 1;
            fuel = (fuel - 1) as nat;
        }
    }
    proof {
        assert(pts[0] == (x0 as int, y0 as int));
        if !in_bounds((x0 as int, y0 as int), w as int, h as int) {
            let none = visible(pts, w as int, h as int);
            assert(none =~= Seq::<(int, int)>::empty());
            let p = painted(rows0, none, line.color);
            assert forall|yy: int| 0 <= yy < rows0.len() implies #[trigger] p[yy] =~= rows0[yy] by {}
            assert(img.pixels() =~= rows0);
        }
    }
}

} // verus!
