//! Drawing on the picture of a cylinder: shapes wrap in x and are clipped at
//! the walls.

use crate::canvas::{channels, Picture};
use crate::math::{normalize_or_zero, turned, perp, Vec2};
use crate::scalar::{clamp_to, clamped, Scalar};
use crate::tectonics::MAX_CONE;
use vstd::prelude::*;

verus! {

/// The pixels after one has been coloured, wrapping in x and clipped at the
/// walls.
pub open spec fn put_at<S: Scalar>(
    w: int,
    h: int,
    pixels: Seq<(u8, u8, u8)>,
    x: S,
    y: S,
    color: (u8, u8, u8),
) -> Seq<(u8, u8, u8)> {
    let row = y.round() as int;
    if 0 <= row < h {
        pixels.update(row * w + x.round() as int % w, color)
    } else {
        pixels
    }
}

/// A picture that can be drawn on.
pub open spec fn drawable(img: &Picture) -> bool {
    img.wf() && img.wide() > 0
}

/// The picture has kept its size.
pub open spec fn same_frame(a: &Picture, b: &Picture) -> bool {
    a.wide() == b.wide() && a.high() == b.high()
}

fn put_wrapped<S: Scalar>(img: &mut Picture, x: S, y: S, color: [u8; 3])
    requires
        drawable(old(img)),
    ensures
        drawable(final(img)),
        same_frame(final(img), old(img)),
        final(img).pixels() == put_at(
            old(img).wide(),
            old(img).high(),
            old(img).pixels(),
            x,
            y,
            channels(color),
        ),
{
    let w: i64 = img.width() as i64;
    let h: i64 = img.height() as i64;
    let yi: i64 = y.round_near();
    if yi < 0 || yi >= h {
        return;
    }
    let xi: i64 = x.round_near().checked_rem_euclid(w).unwrap();
    img.put_pixel(xi as u32, yi as u32, color);
}

// --- discs -----------------------------------------------------------------
/// The offset `(dx, dy)` lies within a disc.
pub open spec fn in_disc<S: Scalar>(dx: int, dy: int, radius: S) -> bool {
    S::of_int(dx * dx + dy * dy).sqrt().le(radius)
}

/// The pixels after the first `k` columns of one row of a disc.
pub open spec fn disc_row<S: Scalar>(
    w: int,
    h: int,
    pixels: Seq<(u8, u8, u8)>,
    centre: Vec2<S>,
    radius: S,
    color: (u8, u8, u8),
    dy: int,
    r: int,
    k: nat,
) -> Seq<(u8, u8, u8)>
    decreases k,
{
    if k == 0 {
        pixels
    } else {
        let before = disc_row(w, h, pixels, centre, radius, color, dy, r, (k - 1) as nat);
        let dx = k - 1 - r;
        if in_disc(dx, dy, radius) {
            put_at(
                w,
                h,
                before,
                centre.x.add(S::of_int(dx)),
                centre.y.add(S::of_int(dy)),
                color,
            )
        } else {
            before
        }
    }
}

/// The pixels after the first `k` rows of a disc.
pub open spec fn disc_rows<S: Scalar>(
    w: int,
    h: int,
    pixels: Seq<(u8, u8, u8)>,
    centre: Vec2<S>,
    radius: S,
    color: (u8, u8, u8),
    r: int,
    k: nat,
) -> Seq<(u8, u8, u8)>
    decreases k,
{
    if k == 0 {
        pixels
    } else {
        let before = disc_rows(w, h, pixels, centre, radius, color, r, (k - 1) as nat);
        disc_row(w, h, before, centre, radius, color, k - 1 - r, r, (2 * r + 1) as nat)
    }
}

/// How far a disc reaches in each direction; no further than offsets can be
/// squared.
pub open spec fn disc_reach<S: Scalar>(radius: S) -> int {
    if radius.ceil() > MAX_CONE {
        MAX_CONE as int
    } else {
        radius.ceil() as int
    }
}

/// The pixels with a disc on them.
pub open spec fn with_disc<S: Scalar>(
    w: int,
    h: int,
    pixels: Seq<(u8, u8, u8)>,
    centre: Vec2<S>,
    radius: S,
    color: (u8, u8, u8),
) -> Seq<(u8, u8, u8)> {
    let r = disc_reach(radius);
    if r < 0 {
        pixels
    } else {
        disc_rows(w, h, pixels, centre, radius, color, r, (2 * r + 1) as nat)
    }
}

pub fn draw_disc<S: Scalar>(img: &mut Picture, centre: Vec2<S>, radius: S, color: [u8; 3])
    requires
        drawable(old(img)),
    ensures
        drawable(final(img)),
        same_frame(final(img), old(img)),
        final(img).pixels() == with_disc(
            old(img).wide(),
            old(img).high(),
            old(img).pixels(),
            centre,
            radius,
            channels(color),
        ),
{
    let reach: i64 = radius.round_up();
    if reach < 0 {
        return;
    }
    let r: i64 = if reach > MAX_CONE {
        MAX_CONE
    } else {
        reach
    };
    let ghost w = img.wide();
    let ghost h = img.high();
    let ghost start = img.pixels();
    let ghost c = channels(color);
    let mut dy: i64 = -r;
    while dy <= r
        invariant
            0 <= r <= MAX_CONE,
            -r <= dy <= r + 1,
            drawable(img),
            img.wide() == w,
            img.high() == h,
            c == channels(color),
            img.pixels() == disc_rows(
                w,
                h,
                start,
                centre,
                radius,
                c,
                r as int,
                (dy + r) as nat,
            ),
        decreases r + 1 - dy,
    {
        let ghost before = img.pixels();
        let mut dx: i64 = -r;
        while dx <= r
            invariant
                0 <= r <= MAX_CONE,
                -r <= dx <= r + 1,
                -r <= dy <= r,
                drawable(img),
                img.wide() == w,
                img.high() == h,
                c == channels(color),
                img.pixels() == disc_row(
                    w,
                    h,
                    before,
                    centre,
                    radius,
                    c,
                    dy as int,
                    r as int,
                    (dx + r) as nat,
                ),
            decreases r + 1 - dx,
        {
            proof {
                crate::tectonics::lemma_squares_fit(dx as int, dy as int);
            }
            if S::whole(dx * dx + dy * dy).root().at_most(radius) {
                put_wrapped(
                    img,
                    centre.x.plus(S::whole(dx)),
                    centre.y.plus(S::whole(dy)),
                    color,
                );
            }
            dx += 1;
        }
        dy += 1;
    }
}

// --- lines -----------------------------------------------------------------
/// How many pieces a line is drawn in.
pub open spec fn line_steps<S: Scalar>(from: Vec2<S>, to: Vec2<S>) -> int {
    let n = to.taken(from).squared().sqrt().ceil() as int;
    if n < 1 {
        1
    } else if n > i32::MAX {
        i32::MAX as int
    } else {
        n
    }
}

/// The pixels after the first `k` points of a line.
pub open spec fn line_points<S: Scalar>(
    w: int,
    h: int,
    pixels: Seq<(u8, u8, u8)>,
    from: Vec2<S>,
    to: Vec2<S>,
    color: (u8, u8, u8),
    width: S,
    k: nat,
) -> Seq<(u8, u8, u8)>
    decreases k,
{
    if k == 0 {
        pixels
    } else {
        let before = line_points(w, h, pixels, from, to, color, width, (k - 1) as nat);
        let t = S::of_int(k - 1).div(S::of_int(line_steps(from, to)));
        let p = from.added(to.taken(from).scaled(t));
        if width.le(S::of_int(1)) {
            put_at(w, h, before, p.x, p.y, color)
        } else {
            with_disc(w, h, before, p, width.mul(S::ratio(1, 2)), color)
        }
    }
}

/// The pixels with a line on them.
pub open spec fn with_line<S: Scalar>(
    w: int,
    h: int,
    pixels: Seq<(u8, u8, u8)>,
    from: Vec2<S>,
    to: Vec2<S>,
    color: (u8, u8, u8),
    width: S,
) -> Seq<(u8, u8, u8)> {
    line_points(w, h, pixels, from, to, color, width, (line_steps(from, to) + 1) as nat)
}

/// Straight line, wrapping in x and clipped at the walls.
pub fn draw_line<S: Scalar>(
    img: &mut Picture,
    from: Vec2<S>,
    to: Vec2<S>,
    color: [u8; 3],
    width: S,
)
    requires
        drawable(old(img)),
    ensures
        drawable(final(img)),
        same_frame(final(img), old(img)),
        final(img).pixels() == with_line(
            old(img).wide(),
            old(img).high(),
            old(img).pixels(),
            from,
            to,
            channels(color),
            width,
        ),
{
    let span = to.minus(from);
    let length: i64 = span.length().round_up();
    let steps: i64 = if length < 1 {
        1
    } else if length > 2_147_483_647 {
        2_147_483_647
    } else {
        length
    };
    let ghost w = img.wide();
    let ghost h = img.high();
    let ghost start = img.pixels();
    let ghost c = channels(color);
    let mut i: i64 = 0;
    while i <= steps
        invariant
            0 <= i <= steps + 1,
            steps == line_steps(from, to),
            1 <= steps <= i32::MAX,
            span == to.taken(from),
            drawable(img),
            img.wide() == w,
            img.high() == h,
            c == channels(color),
            img.pixels() == line_points(w, h, start, from, to, c, width, i as nat),
        decreases steps + 1 - i,
    {
        let t = S::whole(i).over(S::whole(steps));
        let p = from.plus(span.times(t));
        if width.at_most(S::whole(1)) {
            put_wrapped(img, p.x, p.y, color);
        } else {
            draw_disc(img, p, width.times(S::fraction(1, 2)), color);
        }
        i += 1;
    }
}

// --- arrows ----------------------------------------------------------------
/// Both coordinates are zero.
pub open spec fn is_zero<S: Scalar>(v: Vec2<S>) -> bool {
    let zero = S::of_int(0);
    v.x.le(zero) && zero.le(v.x) && v.y.le(zero) && zero.le(v.y)
}

/// The two ends of an arrow's head, on either side of its shaft.
pub open spec fn arrow_head<S: Scalar>(from: Vec2<S>, to: Vec2<S>) -> (Vec2<S>, Vec2<S>) {
    let dir = to.taken(from).unit();
    let head = clamped(to.taken(from).squared().sqrt(), S::of_int(4), S::of_int(9));
    let back = to.taken(dir.scaled(head));
    let side = turned(dir).scaled(head.mul(S::ratio(45, 100)));
    (back.added(side), back.taken(side))
}

/// The pixels with an arrow on them. An arrow that leads nowhere has no head.
pub open spec fn with_arrow<S: Scalar>(
    w: int,
    h: int,
    pixels: Seq<(u8, u8, u8)>,
    from: Vec2<S>,
    to: Vec2<S>,
    color: (u8, u8, u8),
    width: S,
) -> Seq<(u8, u8, u8)> {
    let shaft = with_line(w, h, pixels, from, to, color, width);
    if is_zero(to.taken(from).unit()) {
        shaft
    } else {
        let (left, right) = arrow_head(from, to);
        with_line(w, h, with_line(w, h, shaft, to, left, color, width), to, right, color, width)
    }
}

pub fn draw_arrow<S: Scalar>(
    img: &mut Picture,
    from: Vec2<S>,
    to: Vec2<S>,
    color: [u8; 3],
    width: S,
)
    requires
        drawable(old(img)),
    ensures
        drawable(final(img)),
        same_frame(final(img), old(img)),
        final(img).pixels() == with_arrow(
            old(img).wide(),
            old(img).high(),
            old(img).pixels(),
            from,
            to,
            channels(color),
            width,
        ),
{
    draw_line(img, from, to, color, width);
    let span = to.minus(from);
    let dir = normalize_or_zero(span);
    let zero = S::whole(0);
    if dir.x.at_most(zero) && zero.at_most(dir.x) && dir.y.at_most(zero) && zero.at_most(dir.y) {
        return;
    }
    let head = clamp_to(span.length(), S::whole(4), S::whole(9));
    let back = to.minus(dir.times(head));
    let side = perp(dir).times(head.times(S::fraction(45, 100)));
    draw_line(img, to, back.plus(side), color, width);
    draw_line(img, to, back.minus(side), color, width);
}

// --- laws ------------------------------------------------------------------
/// Drawing wraps across the seam: a point once around the world is the same
/// point.
pub proof fn drawing_wraps<S: Scalar>(
    w: int,
    h: int,
    pixels: Seq<(u8, u8, u8)>,
    x: S,
    turned_x: S,
    y: S,
    color: (u8, u8, u8),
    turns: int,
)
    requires
        w > 0,
        turned_x.round() == x.round() + turns * w,
    ensures
        put_at(w, h, pixels, turned_x, y, color) == put_at(w, h, pixels, x, y, color),
{
    vstd::arithmetic::div_mod::lemma_mod_multiples_vanish(turns, x.round() as int, w);
    assert(w * turns + x.round() == x.round() + turns * w) by (nonlinear_arith);
}

/// Drawing is clipped at the walls: a point off the picture changes nothing.
pub proof fn drawing_stops_at_the_walls<S: Scalar>(
    w: int,
    h: int,
    pixels: Seq<(u8, u8, u8)>,
    x: S,
    y: S,
    color: (u8, u8, u8),
)
    requires
        y.round() < 0 || y.round() >= h,
    ensures
        put_at(w, h, pixels, x, y, color) == pixels,
{
}

} // verus!
