//! What discs, lines and arrows leave on a picture.

use crate::curves::lemma_product;
use crate::draw::{
    arrow_head, disc_reach, disc_row, disc_rows, in_disc, line_points, line_steps, put_at,
    with_arrow, with_disc, with_line,
};
use crate::fixed::{is_root, isqrt, lemma_isqrt, lemma_root_exists, Fixed};
use crate::math::Vec2;
use crate::plate::Plate;
use crate::render::marked;
use crate::scalar::{clamped, Scalar};
use crate::volcanoes::lemma_columns_differ;
use crate::world::{lemma_cell_in_grid, lemma_coords_of_cell};
use vstd::prelude::*;

verus! {

/// The pixel nearest to a point, wrapping in x.
pub open spec fn pixel_at(w: int, p: Vec2<Fixed>) -> int {
    ((p.y.raw + 32768) / 65536) * w + ((p.x.raw + 32768) / 65536) % w
}

/// A point lies on one of the rows of a picture.
pub open spec fn on_rows(h: int, p: Vec2<Fixed>) -> bool {
    0 <= (p.y.raw + 32768) / 65536 < h
}

/// A point that stays far from the ends of the range.
pub open spec fn is_placed(p: Vec2<Fixed>) -> bool {
    &&& -0x1000_0000_0000 <= p.x.raw <= 0x1000_0000_0000
    &&& -0x1000_0000_0000 <= p.y.raw <= 0x1000_0000_0000
}

proof fn lemma_put(w: int, h: int, pixels: Seq<(u8, u8, u8)>, p: Vec2<Fixed>, color: (u8, u8, u8))
    requires
        0 < w,
        pixels.len() == w * h,
        is_placed(p),
    ensures
        ({
            let after = put_at(w, h, pixels, p.x, p.y, color);
            &&& after.len() == w * h
            &&& on_rows(h, p) ==> 0 <= pixel_at(w, p) < w * h && after[pixel_at(w, p)] == color
            &&& forall|c: int|
                0 <= c < w * h && !(on_rows(h, p) && c == pixel_at(w, p)) ==> #[trigger] after[c]
                    == pixels[c]
        }),
{
    if on_rows(h, p) {
        lemma_cell_in_grid(
            w,
            h,
            ((p.x.raw + 32768) / 65536) % w,
            (p.y.raw + 32768) / 65536,
        );
    }
}

// --- discs -----------------------------------------------------------------
/// The point a number of cells away.
pub open spec fn shifted(p: Vec2<Fixed>, dx: int, dy: int) -> Vec2<Fixed> {
    Vec2 { x: p.x.add(Fixed::of_int(dx)), y: p.y.add(Fixed::of_int(dy)) }
}

/// A pixel is one of those that a disc covers: its offset from the centre is no
/// longer than the radius.
pub open spec fn is_covered(
    w: int,
    h: int,
    centre: Vec2<Fixed>,
    radius: Fixed,
    c: int,
    dx: int,
    dy: int,
) -> bool {
    &&& (dx * dx + dy * dy) * 65536 * 65536 < (radius.raw + 1) * (radius.raw + 1)
    &&& on_rows(h, shifted(centre, dx, dy))
    &&& c == pixel_at(w, shifted(centre, dx, dy))
}

proof fn lemma_in_disc(dx: int, dy: int, radius: Fixed)
    requires
        0 <= radius.raw <= 0x1_0000_0000,
        -0x1_0001 <= dx <= 0x1_0001,
        -0x1_0001 <= dy <= 0x1_0001,
    ensures
        in_disc(dx, dy, radius) <==> (dx * dx + dy * dy) * 65536 * 65536 < (radius.raw + 1) * (
        radius.raw + 1),
{
    let n = dx * dx + dy * dy;
    assert(0 <= n <= 0x4_0000_0000) by (nonlinear_arith)
        requires
            n == dx * dx + dy * dy,
            -0x1_0001 <= dx <= 0x1_0001,
            -0x1_0001 <= dy <= 0x1_0001,
    ;
    let v = n * 65536 * 65536;
    let r = lemma_root_exists(v);
    lemma_isqrt(v, r);
    assert(r <= 0x8_0000_0000) by (nonlinear_arith)
        requires
            r * r <= v,
            v <= 0x4_0000_0000 * 65536 * 65536,
            0 <= r,
    ;
    assert(Fixed::of_int(n).raw == n * 65536);
    if n == 0 {
        lemma_isqrt(0, 0);
    }
    assert(Fixed::of_int(n).sqrt().raw == r);
    let g = radius.raw as int;
    assert(r <= g <==> v < (g + 1) * (g + 1)) by (nonlinear_arith)
        requires
            is_root(r, v),
            0 <= g,
    ;
}

proof fn lemma_disc_row(
    w: int,
    h: int,
    pixels: Seq<(u8, u8, u8)>,
    centre: Vec2<Fixed>,
    radius: Fixed,
    color: (u8, u8, u8),
    dy: int,
    r: int,
    k: nat,
    c: int,
)
    requires
        0 < w,
        pixels.len() == w * h,
        -0x800_0000_0000 <= centre.x.raw <= 0x800_0000_0000,
        -0x800_0000_0000 <= centre.y.raw <= 0x800_0000_0000,
        0 <= radius.raw <= 0x1_0000_0000,
        r == (radius.raw + 65535) / 65536,
        -r <= dy <= r,
        k <= 2 * r + 1,
        0 <= c < w * h,
    ensures
        ({
            let after = disc_row(w, h, pixels, centre, radius, color, dy, r, k);
            let hit = exists|dx: int|
                -r <= dx < k - r && #[trigger] is_covered(w, h, centre, radius, c, dx, dy);
            &&& after.len() == w * h
            &&& after[c] == if hit {
                color
            } else {
                pixels[c]
            }
        }),
    decreases k,
{
    if k > 0 {
        lemma_disc_row(w, h, pixels, centre, radius, color, dy, r, (k - 1) as nat, c);
        let before = disc_row(w, h, pixels, centre, radius, color, dy, r, (k - 1) as nat);
        let dx = k - 1 - r;
        lemma_in_disc(dx, dy, radius);
        let p = shifted(centre, dx, dy);
        lemma_put(w, h, before, p, color);
        let after = disc_row(w, h, pixels, centre, radius, color, dy, r, k);
        let here = is_covered(w, h, centre, radius, c, dx, dy);
        assert(after[c] == if here {
            color
        } else {
            before[c]
        });
        if exists|d: int|
            -r <= d < k - r && #[trigger] is_covered(w, h, centre, radius, c, d, dy) {
            let d = choose|d: int|
                -r <= d < k - r && #[trigger] is_covered(w, h, centre, radius, c, d, dy);
            assert(d == dx || -r <= d < k - 1 - r);
        }
    }
}

proof fn lemma_disc_rows(
    w: int,
    h: int,
    pixels: Seq<(u8, u8, u8)>,
    centre: Vec2<Fixed>,
    radius: Fixed,
    color: (u8, u8, u8),
    r: int,
    k: nat,
    c: int,
)
    requires
        0 < w,
        pixels.len() == w * h,
        -0x800_0000_0000 <= centre.x.raw <= 0x800_0000_0000,
        -0x800_0000_0000 <= centre.y.raw <= 0x800_0000_0000,
        0 <= radius.raw <= 0x1_0000_0000,
        r == (radius.raw + 65535) / 65536,
        k <= 2 * r + 1,
        0 <= c < w * h,
    ensures
        ({
            let after = disc_rows(w, h, pixels, centre, radius, color, r, k);
            let hit = exists|dx: int, dy: int|
                -r <= dx <= r && -r <= dy < k - r && #[trigger] is_covered(
                    w,
                    h,
                    centre,
                    radius,
                    c,
                    dx,
                    dy,
                );
            &&& after.len() == w * h
            &&& after[c] == if hit {
                color
            } else {
                pixels[c]
            }
        }),
    decreases k,
{
    if k > 0 {
        lemma_disc_rows(w, h, pixels, centre, radius, color, r, (k - 1) as nat, c);
        let before = disc_rows(w, h, pixels, centre, radius, color, r, (k - 1) as nat);
        let dy = k - 1 - r;
        lemma_disc_row(w, h, before, centre, radius, color, dy, r, (2 * r + 1) as nat, c);
        let row_hit = exists|dx: int|
            -r <= dx < r + 1 && #[trigger] is_covered(w, h, centre, radius, c, dx, dy);
        let hit_before = exists|dx: int, e: int|
            -r <= dx <= r && -r <= e < k - 1 - r && #[trigger] is_covered(
                w,
                h,
                centre,
                radius,
                c,
                dx,
                e,
            );
        let hit = exists|dx: int, e: int|
            -r <= dx <= r && -r <= e < k - r && #[trigger] is_covered(
                w,
                h,
                centre,
                radius,
                c,
                dx,
                e,
            );
        if row_hit {
            let dx = choose|dx: int|
                -r <= dx < r + 1 && #[trigger] is_covered(w, h, centre, radius, c, dx, dy);
            assert(is_covered(w, h, centre, radius, c, dx, dy));
            assert(hit);
        }
        if hit {
            let (dx, e) = choose|dx: int, e: int|
                -r <= dx <= r && -r <= e < k - r && #[trigger] is_covered(
                    w,
                    h,
                    centre,
                    radius,
                    c,
                    dx,
                    e,
                );
            if e == dy {
                assert(row_hit);
            } else {
                assert(hit_before);
            }
        }
    }
}

/// A disc colours the pixels whose offset from its centre is no longer than its
/// radius, wrapping in x and clipped at the walls, and no others.
pub proof fn discs_cover_their_radius(
    w: int,
    h: int,
    pixels: Seq<(u8, u8, u8)>,
    centre: Vec2<Fixed>,
    radius: Fixed,
    color: (u8, u8, u8),
    c: int,
)
    requires
        0 < w,
        pixels.len() == w * h,
        -0x800_0000_0000 <= centre.x.raw <= 0x800_0000_0000,
        -0x800_0000_0000 <= centre.y.raw <= 0x800_0000_0000,
        0 <= radius.raw <= 0x1_0000_0000,
        0 <= c < w * h,
    ensures
        ({
            let after = with_disc(w, h, pixels, centre, radius, color);
            let hit = exists|dx: int, dy: int| #[trigger]
                is_covered(w, h, centre, radius, c, dx, dy);
            &&& after.len() == w * h
            &&& after[c] == if hit {
                color
            } else {
                pixels[c]
            }
        }),
{
    let r = (radius.raw + 65535) / 65536;
    assert(radius.ceil() == r);
    assert(disc_reach(radius) == r);
    lemma_disc_rows(w, h, pixels, centre, radius, color, r, (2 * r + 1) as nat, c);
    if exists|dx: int, dy: int| #[trigger] is_covered(w, h, centre, radius, c, dx, dy) {
        let (dx, dy) = choose|dx: int, dy: int| #[trigger]
            is_covered(w, h, centre, radius, c, dx, dy);
        let g = radius.raw as int;
        lemma_reach(dx, dy, g, r);
        lemma_reach(dy, dx, g, r);
        assert(-r <= dx <= r && -r <= dy <= r);
    }
}

proof fn lemma_reach(dx: int, dy: int, g: int, r: int)
    requires
        0 <= g,
        r == (g + 65535) / 65536,
        (dx * dx + dy * dy) * 65536 * 65536 < (g + 1) * (g + 1) || (dy * dy + dx * dx) * 65536
            * 65536 < (g + 1) * (g + 1),
    ensures
        -r <= dx <= r,
{
    let m = if dx < 0 {
        -dx
    } else {
        dx
    };
    assert(dx * dx == m * m && 0 <= dy * dy) by (nonlinear_arith)
        requires
            m == dx || m == -dx,
    ;
    let u = m * 65536;
    assert(u * u == (m * m) * 65536 * 65536) by (nonlinear_arith)
        requires
            u == m * 65536,
    ;
    assert(u < g + 1) by (nonlinear_arith)
        requires
            u * u < (g + 1) * (g + 1),
            0 <= g,
            0 <= u,
    ;
}

// --- lines -----------------------------------------------------------------
/// The point of a line after a share of the way.
pub open spec fn along(from: Vec2<Fixed>, to: Vec2<Fixed>, share: int) -> Vec2<Fixed> {
    Vec2 {
        x: Fixed { raw: (from.x.raw + ((to.x.raw - from.x.raw) * share) / 65536) as i64 },
        y: Fixed { raw: (from.y.raw + ((to.y.raw - from.y.raw) * share) / 65536) as i64 },
    }
}

/// A point whose lines stay far from the ends of the range.
pub open spec fn is_on_map(p: Vec2<Fixed>) -> bool {
    &&& -0x4000_0000 <= p.x.raw <= 0x4000_0000
    &&& -0x4000_0000 <= p.y.raw <= 0x4000_0000
}

proof fn lemma_along(from: Vec2<Fixed>, to: Vec2<Fixed>, t: Fixed)
    requires
        is_on_map(from),
        is_on_map(to),
        0 <= t.raw <= 65536,
    ensures
        from.added(to.taken(from).scaled(t)) == along(from, to, t.raw as int),
        is_on_map(along(from, to, t.raw as int)),
        t.raw == 0 ==> along(from, to, t.raw as int) == from,
        t.raw == 65536 ==> along(from, to, t.raw as int) == to,
{
    let span = to.taken(from);
    lemma_product(span.x, t);
    lemma_product(span.y, t);
    lemma_part_of(span.x.raw as int, t.raw as int);
    lemma_part_of(span.y.raw as int, t.raw as int);
}

proof fn lemma_part_of(d: int, t: int)
    requires
        0 <= t <= 65536,
    ensures
        d >= 0 ==> 0 <= (d * t) / 65536 <= d,
        d <= 0 ==> d <= (d * t) / 65536 <= 0,
        t == 0 ==> (d * t) / 65536 == 0,
        t == 65536 ==> (d * t) / 65536 == d,
{
    assert((d >= 0 ==> 0 <= (d * t) / 65536 <= d) && (d <= 0 ==> d <= (d * t) / 65536 <= 0) && (t
        == 0 ==> (d * t) / 65536 == 0) && (t == 65536 ==> (d * t) / 65536 == d))
        by (nonlinear_arith)
        requires
            0 <= t <= 65536,
    ;
}

/// How many pieces a line is drawn in: as many as its length has cells, so that
/// none of them is longer than a cell, and one at least.
pub proof fn lines_have_no_gaps(from: Vec2<Fixed>, to: Vec2<Fixed>)
    requires
        is_on_map(from),
        is_on_map(to),
    ensures
        ({
            let dx = to.x.raw - from.x.raw;
            let dy = to.y.raw - from.y.raw;
            let far = isqrt(((dx * dx) / 65536 + (dy * dy) / 65536) * 65536);
            let n = line_steps(from, to);
            &&& 1 <= n <= 0x1_0000
            &&& far <= n * 65536
            &&& n == 1 || (n - 1) * 65536 < far
        }),
{
    let dx = to.x.raw - from.x.raw;
    let dy = to.y.raw - from.y.raw;
    assert(0 <= dx * dx <= 0x8000_0000 * 0x8000_0000) by (nonlinear_arith)
        requires
            -0x8000_0000 <= dx <= 0x8000_0000,
    ;
    assert(0 <= dy * dy <= 0x8000_0000 * 0x8000_0000) by (nonlinear_arith)
        requires
            -0x8000_0000 <= dy <= 0x8000_0000,
    ;
    let sum = (dx * dx) / 65536 + (dy * dy) / 65536;
    let span = to.taken(from);
    assert(span.squared().raw == sum);
    let far = lemma_root_exists(sum * 65536);
    lemma_isqrt(sum * 65536, far);
    if sum == 0 {
        lemma_isqrt(0, 0);
    }
    assert(far <= 0xC000_0000) by (nonlinear_arith)
        requires
            far * far <= sum * 65536,
            sum <= 0x8000_0000 * 0x1_0000,
            0 <= far,
    ;
    assert(span.squared().sqrt().raw == far);
}

/// Half of a width.
pub open spec fn half_of(width: Fixed) -> Fixed {
    Fixed { raw: (width.raw / 2) as i64 }
}

/// A pixel is on a line: it is the one nearest to a point of it, or, on a line
/// wider than a pixel, one that the disc around such a point covers.
pub open spec fn is_on_line(
    w: int,
    h: int,
    from: Vec2<Fixed>,
    to: Vec2<Fixed>,
    width: Fixed,
    c: int,
    i: int,
) -> bool {
    let p = along(from, to, (i * 65536) / line_steps(from, to));
    if width.raw <= 65536 {
        on_rows(h, p) && c == pixel_at(w, p)
    } else {
        exists|dx: int, dy: int| #[trigger]
            is_covered(w, h, p, half_of(width), c, dx, dy)
    }
}

proof fn lemma_line(
    w: int,
    h: int,
    pixels: Seq<(u8, u8, u8)>,
    from: Vec2<Fixed>,
    to: Vec2<Fixed>,
    color: (u8, u8, u8),
    width: Fixed,
    k: nat,
    c: int,
)
    requires
        0 < w,
        pixels.len() == w * h,
        is_on_map(from),
        is_on_map(to),
        0 <= width.raw <= 0x1_0000_0000,
        k <= line_steps(from, to) + 1,
        0 <= c < w * h,
    ensures
        ({
            let after = line_points(w, h, pixels, from, to, color, width, k);
            let hit = exists|i: int|
                0 <= i < k && #[trigger] is_on_line(w, h, from, to, width, c, i);
            &&& after.len() == w * h
            &&& after[c] == if hit {
                color
            } else {
                pixels[c]
            }
        }),
    decreases k,
{
    if k > 0 {
        lemma_line(w, h, pixels, from, to, color, width, (k - 1) as nat, c);
        let before = line_points(w, h, pixels, from, to, color, width, (k - 1) as nat);
        lines_have_no_gaps(from, to);
        let n = line_steps(from, to);
        let i = k - 1;
        let t = Fixed::of_int(i).div(Fixed::of_int(n));
        let share = (i * 65536) / n;
        assert(0 <= share <= 65536 && ((i * 65536) * 65536) / (n * 65536) == share)
            by (nonlinear_arith)
            requires
                share == (i * 65536) / n,
                0 <= i <= n,
                1 <= n,
        ;
        assert(t.raw == share);
        lemma_along(from, to, t);
        let p = along(from, to, share);
        lemma_put(w, h, before, p, color);
        let half = Fixed::ratio(1, 2);
        assert(half.raw == 32768);
        lemma_product(width, half);
        assert((width.raw * 32768) / 65536 == width.raw / 2);
        discs_cover_their_radius(w, h, before, p, half_of(width), color, c);
        let after = line_points(w, h, pixels, from, to, color, width, k);
        let here = is_on_line(w, h, from, to, width, c, i);
        assert(width.mul(half) == half_of(width));
        assert(after[c] == if here {
            color
        } else {
            before[c]
        });
        if exists|j: int| 0 <= j < k && #[trigger] is_on_line(w, h, from, to, width, c, j) {
            let j = choose|j: int|
                0 <= j < k && #[trigger] is_on_line(w, h, from, to, width, c, j);
            assert(j == i || 0 <= j < k - 1);
        }
    }
}

/// A line colours the pixels along the straight way from one end to the other, both
/// ends included, and no others.
pub proof fn lines_go_straight_from_end_to_end(
    w: int,
    h: int,
    pixels: Seq<(u8, u8, u8)>,
    from: Vec2<Fixed>,
    to: Vec2<Fixed>,
    color: (u8, u8, u8),
    width: Fixed,
    c: int,
)
    requires
        0 < w,
        pixels.len() == w * h,
        is_on_map(from),
        is_on_map(to),
        0 <= width.raw <= 0x1_0000_0000,
        0 <= c < w * h,
    ensures
        ({
            let after = with_line(w, h, pixels, from, to, color, width);
            let hit = exists|i: int|
                0 <= i <= line_steps(from, to) && #[trigger] is_on_line(
                    w,
                    h,
                    from,
                    to,
                    width,
                    c,
                    i,
                );
            &&& after.len() == w * h
            &&& after[c] == if hit {
                color
            } else {
                pixels[c]
            }
            &&& (on_rows(h, from) && c == pixel_at(w, from)) ==> after[c] == color
            &&& (on_rows(h, to) && c == pixel_at(w, to)) ==> after[c] == color
        }),
{
    lines_have_no_gaps(from, to);
    let n = line_steps(from, to);
    lemma_line(w, h, pixels, from, to, color, width, (n + 1) as nat, c);
    let after = with_line(w, h, pixels, from, to, color, width);
    let first = Fixed { raw: 0 };
    let last = Fixed { raw: 65536 };
    lemma_along(from, to, first);
    lemma_along(from, to, last);
    assert((0int * 65536) / n == 0) by (nonlinear_arith)
        requires
            n >= 1,
    ;
    assert((n * 65536) / n == 65536) by (nonlinear_arith)
        requires
            n >= 1,
    ;
    let disc = half_of(width);
    if on_rows(h, from) && c == pixel_at(w, from) {
        assert(shifted(from, 0, 0) == from);
        lemma_centre(w, h, from, disc, c);
        assert(is_on_line(w, h, from, to, width, c, 0));
    }
    if on_rows(h, to) && c == pixel_at(w, to) {
        assert(shifted(to, 0, 0) == to);
        lemma_centre(w, h, to, disc, c);
        assert(is_on_line(w, h, from, to, width, c, n));
    }
}

proof fn lemma_centre(w: int, h: int, p: Vec2<Fixed>, radius: Fixed, c: int)
    requires
        on_rows(h, p),
        c == pixel_at(w, p),
        0 <= radius.raw,
        shifted(p, 0, 0) == p,
    ensures
        is_covered(w, h, p, radius, c, 0, 0),
{
    let g = radius.raw as int;
    assert(0 < (g + 1) * (g + 1)) by (nonlinear_arith)
        requires
            0 <= g,
    ;
}

// --- arrows ----------------------------------------------------------------
/// The head of an arrow: its two ends lie back from the tip by the length of the
/// head, four cells to nine, and to either side of the shaft by nine twentieths of
/// that, at a right angle to it. Gives how far they lie to the side.
pub proof fn arrow_heads_point_forward(from: Vec2<Fixed>, to: Vec2<Fixed>) -> (aside: int)
    requires
        is_on_map(from),
        is_on_map(to),
        ({
            let d = to.taken(from).unit();
            -131072 <= d.x.raw <= 131072 && -131072 <= d.y.raw <= 131072
        }),
    ensures
        ({
            let (left, right) = arrow_head(from, to);
            let d = to.taken(from).unit();
            let far = to.taken(from).squared().sqrt().raw as int;
            let head = if far < 262144 {
                262144
            } else if far > 589824 {
                589824
            } else {
                far
            };
            &&& left.x.raw + right.x.raw == 2 * (to.x.raw - (d.x.raw * head) / 65536)
            &&& left.y.raw + right.y.raw == 2 * (to.y.raw - (d.y.raw * head) / 65536)
            &&& left.x.raw - right.x.raw == 2 * ((-d.y.raw * aside) / 65536)
            &&& left.y.raw - right.y.raw == 2 * ((d.x.raw * aside) / 65536)
            &&& 9 * head - 200 <= 20 * aside <= 9 * head
        }),
{
    let d = to.taken(from).unit();
    let far = to.taken(from).squared().sqrt();
    let head = clamped(far, Fixed::of_int(4), Fixed::of_int(9));
    assert(262144 <= head.raw <= 589824);
    let share = Fixed::ratio(45, 100);
    assert(share.raw == 29491);
    lemma_product(head, share);
    let m = head.mul(share);
    assert(m.raw == (head.raw * 29491) / 65536);
    lemma_product(d.x, head);
    lemma_product(d.y, head);
    lemma_product(d.x, m);
    lemma_product(d.y.neg(), m);
    lemma_bounded(d.x.raw as int, head.raw as int);
    lemma_bounded(d.y.raw as int, head.raw as int);
    lemma_bounded(d.x.raw as int, m.raw as int);
    lemma_bounded(-d.y.raw, m.raw as int);
    m.raw as int
}

proof fn lemma_bounded(d: int, m: int)
    requires
        -131072 <= d <= 131072,
        0 <= m <= 589824,
    ensures
        -0x20_0000 <= (d * m) / 65536 <= 0x20_0000,
{
    assert(-131072 * 589824 <= d * m <= 131072 * 589824) by (nonlinear_arith)
        requires
            -131072 <= d <= 131072,
            0 <= m <= 589824,
    ;
}

/// A plate is marked on its site: the site of the plate that is drawn last is dark,
/// and there is a light ring around it.
pub proof fn sites_are_marked(
    w: int,
    h: int,
    pixels: Seq<(u8, u8, u8)>,
    plates: Seq<Plate<Fixed>>,
    k: nat,
)
    requires
        0 < k <= plates.len(),
        8 < w,
        pixels.len() == w * h,
        is_on_map(plates[k - 1].position),
        on_rows(h, plates[k - 1].position),
        drawn_so_far(w, h, pixels, plates, k).len() == w * h,
    ensures
        ({
            let after = marked(w, h, pixels, plates, k);
            let site = plates[k - 1].position;
            &&& after.len() == w * h
            &&& after[pixel_at(w, site)] == (20u8, 20u8, 20u8)
            &&& after[pixel_at(w, shifted(site, 2, 0))] == (250u8, 250u8, 250u8)
        }),
{
    let p = plates[k - 1];
    let site = p.position;
    let arrow = drawn_so_far(w, h, pixels, plates, k);
    let wide = Fixed::of_int(3);
    let narrow = Fixed::ratio(16, 10);
    assert(wide.raw == 196608 && narrow.raw == 104857);
    let light = (250u8, 250u8, 250u8);
    let dark = (20u8, 20u8, 20u8);
    let ring = with_disc(w, h, arrow, site, wide, light);
    let c = pixel_at(w, site);
    let d = pixel_at(w, shifted(site, 2, 0));
    let x = (site.x.raw + 32768) / 65536;
    let y = (site.y.raw + 32768) / 65536;
    lemma_cell_in_grid(w, h, x % w, y);
    lemma_cell_in_grid(w, h, (x + 2) % w, y);
    assert(shifted(site, 0, 0) == site);
    assert(shifted(site, 2, 0).y == site.y);
    assert((shifted(site, 2, 0).x.raw + 32768) / 65536 == x + 2);
    discs_cover_their_radius(w, h, arrow, site, wide, light, c);
    discs_cover_their_radius(w, h, arrow, site, wide, light, d);
    discs_cover_their_radius(w, h, ring, site, narrow, dark, c);
    discs_cover_their_radius(w, h, ring, site, narrow, dark, d);
    assert(is_covered(w, h, site, narrow, c, 0, 0));
    assert(is_covered(w, h, site, wide, d, 2, 0));
    if exists|dx: int, dy: int| #[trigger] is_covered(w, h, site, narrow, d, dx, dy) {
        let (dx, dy) = choose|dx: int, dy: int| #[trigger]
            is_covered(w, h, site, narrow, d, dx, dy);
        lemma_reach(dx, dy, 104857, 2);
        lemma_reach(dy, dx, 104857, 2);
        assert(-1 <= dx <= 1) by (nonlinear_arith)
            requires
                (dx * dx + dy * dy) * 65536 * 65536 < 104858 * 104858,
        ;
        let q = shifted(site, dx, dy);
        assert((q.x.raw + 32768) / 65536 == x + dx && (q.y.raw + 32768) / 65536 == y + dy);
        lemma_coords_of_cell(w, (x + dx) % w, y + dy);
        lemma_coords_of_cell(w, (x + 2) % w, y);
        assert((x + dx) % w == (x + 2) % w);
        lemma_columns_differ(w, x, dx, 2);
    }
}

/// The picture with the arrow of plate number `k`, counted from one, on it.
pub open spec fn drawn_so_far(
    w: int,
    h: int,
    pixels: Seq<(u8, u8, u8)>,
    plates: Seq<Plate<Fixed>>,
    k: nat,
) -> Seq<(u8, u8, u8)> {
    let p = plates[k - 1];
    with_arrow(
        w,
        h,
        marked(w, h, pixels, plates, (k - 1) as nat),
        p.position,
        p.position.added(p.velocity.scaled(Fixed::of_int(220))),
        (15u8, 15u8, 15u8),
        Fixed::ratio(16, 10),
    )
}

} // verus!
