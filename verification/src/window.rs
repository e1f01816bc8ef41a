//! Square windows: the bounding box of a hole, the window around it, and crops.

use vstd::prelude::*;

use crate::grid::{at, lemma_area_le, lemma_filled, lemma_place, lemma_position};
use crate::image::{Gray8, Rgb8};

verus! {

/// The network's three stride-2 stages require multiples of this.
pub const PAD_MOD: usize = 8;

/// Smallest window taken around a hole, so a tiny one still gets full context.
pub const TILE_MIN: usize = 512;

/// A square window, and the size of the part of the hole it was placed around.
#[derive(Debug, Clone, Copy, PartialEq, Eq, Structural)]
pub struct Tile {
    pub x0: usize,
    pub y0: usize,
    pub side: usize,
    pub bbox_w: usize,
    pub bbox_h: usize,
}

/// The smallest rectangle that holds a hole, both corners included.
#[derive(Debug, Clone, Copy, PartialEq, Eq, Structural)]
pub struct Bounds {
    pub min_x: usize,
    pub min_y: usize,
    pub max_x: usize,
    pub max_y: usize,
}

impl Bounds {
    /// Columns the hole spans.
    pub open spec fn wide(&self) -> int {
        self.max_x - self.min_x + 1
    }

    /// Rows the hole spans.
    pub open spec fn tall(&self) -> int {
        self.max_y - self.min_y + 1
    }
}

impl Tile {
    /// Whether the window covers a position.
    pub open spec fn covers(&self, x: int, y: int) -> bool {
        self.x0 <= x < self.x0 + self.side && self.y0 <= y < self.y0 + self.side
    }

    /// Whether the window lies inside an image of this size.
    pub open spec fn within(&self, width: int, height: int) -> bool {
        self.x0 + self.side <= width && self.y0 + self.side <= height
    }
}

/// Whether a mask marks any hole at all.
pub open spec fn has_hole(m: Gray8) -> bool {
    exists|x: int, y: int| m.hole(x, y)
}

/// `b` is the bounding box of the mask's hole: it holds all of it and every side
/// touches it.
pub open spec fn bounds_of(m: Gray8, b: Bounds) -> bool {
    &&& forall|x: int, y: int| #[trigger]
        m.hole(x, y) ==> b.min_x <= x <= b.max_x && b.min_y <= y <= b.max_y
    &&& exists|y: int| m.hole(b.min_x as int, y)
    &&& exists|y: int| m.hole(b.max_x as int, y)
    &&& exists|x: int| m.hole(x, b.min_y as int)
    &&& exists|x: int| m.hole(x, b.max_y as int)
}

/// Whether a position lies in the first `y` rows or the first `x` columns of the next.
spec fn seen(x: int, y: int, u: int, v: int) -> bool {
    v < y || v == y && u < x
}

/// The part of the mask seen so far holds no hole.
spec fn none_so_far(m: Gray8, x: int, y: int) -> bool {
    forall|u: int, v: int| seen(x, y, u, v) ==> !#[trigger] m.hole(u, v)
}

/// `b` is the bounding box of the part of the hole seen so far.
spec fn bounds_so_far(m: Gray8, b: Bounds, x: int, y: int) -> bool {
    &&& forall|u: int, v: int|
        seen(x, y, u, v) && #[trigger] m.hole(u, v) ==> b.min_x <= u <= b.max_x && b.min_y <= v
            <= b.max_y
    &&& exists|v: int| m.hole(b.min_x as int, v)
    &&& exists|v: int| m.hole(b.max_x as int, v)
    &&& exists|u: int| m.hole(u, b.min_y as int)
    &&& exists|u: int| m.hole(u, b.max_y as int)
}

proof fn lemma_bounds_start(m: Gray8, here: Bounds, x: int, y: int)
    requires
        none_so_far(m, x, y),
        m.hole(x, y),
        here.min_x == x,
        here.max_x == x,
        here.min_y == y,
        here.max_y == y,
    ensures
        bounds_so_far(m, here, x + 1, y),
{
    assert(m.hole(here.min_x as int, y) && m.hole(here.max_x as int, y));
    assert(m.hole(x, here.min_y as int) && m.hole(x, here.max_y as int));
}

proof fn lemma_bounds_grow(m: Gray8, b: Bounds, here: Bounds, x: int, y: int)
    requires
        bounds_so_far(m, b, x, y),
        m.hole(x, y),
        here.min_x == if x < b.min_x { x } else { b.min_x as int },
        here.min_y == if y < b.min_y { y } else { b.min_y as int },
        here.max_x == if x > b.max_x { x } else { b.max_x as int },
        here.max_y == if y > b.max_y { y } else { b.max_y as int },
    ensures
        bounds_so_far(m, here, x + 1, y),
{
    let a = choose|v: int| m.hole(b.min_x as int, v);
    let c = choose|v: int| m.hole(b.max_x as int, v);
    let d = choose|u: int| m.hole(u, b.min_y as int);
    let e = choose|u: int| m.hole(u, b.max_y as int);
    assert(m.hole(here.min_x as int, if x < b.min_x { y } else { a }));
    assert(m.hole(here.max_x as int, if x > b.max_x { y } else { c }));
    assert(m.hole(if y < b.min_y { x } else { d }, here.min_y as int));
    assert(m.hole(if y > b.max_y { x } else { e }, here.max_y as int));
}

/// The number of samples that completes `extent` to a multiple of the network's
/// stride.
pub open spec fn padding(extent: int) -> int {
    (PAD_MOD - extent % PAD_MOD as int) % PAD_MOD as int
}

/// The largest multiple of the network's stride that is not above `n`.
pub open spec fn rounded_down(n: int) -> int {
    n - n % PAD_MOD as int
}

/// The smallest multiple of the network's stride that is not below `n`.
pub open spec fn rounded_up(n: int) -> int {
    n + padding(n)
}

/// Where a window of `side` centred on `c` starts, kept inside `0..extent`.
pub open spec fn origin(c: int, side: int, extent: int) -> int {
    let last = if extent > side {
        extent - side
    } else {
        0
    };
    let centred = c - side / 2;
    if centred < 0 {
        0
    } else if centred > last {
        last
    } else {
        centred
    }
}

/// The side of the window for a hole of this extent: at least the minimum and twice
/// the hole, rounded up, and never more than the image can supply.
pub open spec fn window_side(width: int, height: int, wide: int, tall: int) -> int {
    let short = if width < height {
        width
    } else {
        height
    };
    let long = if wide > tall {
        wide
    } else {
        tall
    };
    let want = if 2 * long > TILE_MIN {
        2 * long
    } else {
        TILE_MIN as int
    };
    let cap = rounded_down(short);
    if cap < PAD_MOD {
        short
    } else if rounded_up(want) < cap {
        rounded_up(want)
    } else {
        cap
    }
}

/// `t` is the window around a hole with bounding box `b`.
pub open spec fn tile_of(m: Gray8, b: Bounds, t: Tile) -> bool {
    &&& t.bbox_w == b.wide()
    &&& t.bbox_h == b.tall()
    &&& t.side == window_side(m.width as int, m.height as int, b.wide(), b.tall())
    &&& t.x0 == origin(b.min_x + b.wide() / 2, t.side as int, m.width as int)
    &&& t.y0 == origin(b.min_y + b.tall() / 2, t.side as int, m.height as int)
}

/// What is seen before and after a part of a line differs by one at most, unless an end of
/// the line forbids it: the part goes from `from` up to `to`, the view from `at` for `side`.
pub open spec fn balanced(from: int, to: int, at: int, side: int, extent: int) -> bool {
    let before = from - at;
    let after = at + side - to;
    &&& before < after - 1 ==> at == 0
    &&& after < before - 1 ==> at + side == extent
}

/// A window shows as much on one side of a hole as on the other, as far as the image
/// allows.
pub open spec fn in_the_middle(m: Gray8, b: Bounds, t: Tile) -> bool {
    &&& balanced(b.min_x as int, b.max_x + 1, t.x0 as int, t.side as int, m.width as int)
    &&& balanced(b.min_y as int, b.max_y + 1, t.y0 as int, t.side as int, m.height as int)
}

/// A side is as long as a hole calls for: a multiple of 8, 512 at least, and twice what the
/// hole spans.
pub open spec fn will_do(b: Bounds, side: int) -> bool {
    side % 8 == 0 && 512 <= side && 2 * b.wide() <= side && 2 * b.tall() <= side
}

/// A window is no longer than any that will do, and where none that will do fits into the
/// image, it is the longest multiple of 8 that does.
pub open spec fn least(m: Gray8, b: Bounds, side: int) -> bool {
    &&& side <= m.width && side <= m.height
    &&& forall|k: int| #[trigger]
        will_do(b, k) && k <= m.width && k <= m.height ==> side <= k
    &&& !will_do(b, side) ==> forall|k: int|
        #![trigger k % 8]
        k % 8 == 0 && k <= m.width && k <= m.height ==> k <= side
    &&& 8 <= m.width && 8 <= m.height ==> side % 8 == 0
    &&& m.width < 8 || m.height < 8 ==> side == m.width || side == m.height
}

/// The number of rows or columns to add so that the network can run.
pub fn pad_to_stride(extent: usize) -> (pad: usize)
    ensures
        pad == padding(extent as int),
        pad < PAD_MOD,
        (extent + pad) % PAD_MOD as int == 0,
{
    let over: usize = extent % PAD_MOD;
    if over == 0 {
        0
    } else {
        PAD_MOD - over
    }
}

/// Find the bounding box of a mask's hole.
pub fn mask_bounds(mask: &Gray8) -> (res: Option<Bounds>)
    requires
        mask.wf(),
    ensures
        res is None <==> !has_hole(*mask),
        res matches Some(b) ==> bounds_of(*mask, b),
{
    let mut found: Option<Bounds> = None;
    let mut y: usize = 0;
    while y < mask.height
        invariant
            mask.wf(),
            0 <= y <= mask.height,
            found is None ==> none_so_far(*mask, 0, y as int),
            found matches Some(b) ==> bounds_so_far(*mask, b, 0, y as int),
        decreases mask.height - y,
    {
        let mut x: usize = 0;
        while x < mask.width
            invariant
                mask.wf(),
                0 <= x <= mask.width,
                0 <= y < mask.height,
                found is None ==> none_so_far(*mask, x as int, y as int),
                found matches Some(b) ==> bounds_so_far(*mask, b, x as int, y as int),
            decreases mask.width - x,
        {
            proof {
                lemma_place(mask.width as int, mask.height as int, x as int, y as int);
                assert(mask.hole(x as int, y as int) == (mask.data@[y * mask.width + x] > 0));
            }
            if mask.data[y * mask.width + x] > 0 {
                match found {
                    None => {
                        let here = Bounds { min_x: x, min_y: y, max_x: x, max_y: y };
                        proof {
                            lemma_bounds_start(*mask, here, x as int, y as int);
                        }
                        found = Some(here);
                    },
                    Some(b) => {
                        let here = Bounds {
                            min_x: if x < b.min_x { x } else { b.min_x },
                            min_y: if y < b.min_y { y } else { b.min_y },
                            max_x: if x > b.max_x { x } else { b.max_x },
                            max_y: if y > b.max_y { y } else { b.max_y },
                        };
                        proof {
                            lemma_bounds_grow(*mask, b, here, x as int, y as int);
                        }
                        found = Some(here);
                    },
                }
            }
            x += 1;
        }
        y += 1;
    }
    proof {
        if let Some(b) = found {
            let v = choose|v: int| mask.hole(b.min_x as int, v);
            assert(mask.hole(b.min_x as int, v));
        }
    }
    found
}

/// Top-left corner of a `side`-long window centred on `c`, kept inside
/// `[0, extent - side]`.  A window larger than the extent starts at 0.
pub fn window_origin(c: usize, side: usize, extent: usize) -> (o: usize)
    ensures
        o == origin(c as int, side as int, extent as int),
{
    let last: usize = if extent > side {
        extent - side
    } else {
        0
    };
    let half: usize = side / 2;
    if c < half {
        0
    } else if c - half > last {
        last
    } else {
        c - half
    }
}

/// The side of the window around a hole.
fn side_for(width: usize, height: usize, wide: usize, tall: usize) -> (side: usize)
    ensures
        side == window_side(width as int, height as int, wide as int, tall as int),
{
    let short: usize = if width < height {
        width
    } else {
        height
    };
    let long: usize = if wide > tall {
        wide
    } else {
        tall
    };
    let cap: usize = short - short % PAD_MOD;
    if cap < PAD_MOD {
        return short;
    }
    if long > cap / 2 {
        return cap;
    }
    let want: usize = if 2 * long > TILE_MIN {
        2 * long
    } else {
        TILE_MIN
    };
    let missing: usize = pad_to_stride(want);
    if want < cap && missing < cap - want {
        want + missing
    } else {
        cap
    }
}

/// The window to run the network on instead of the whole image: the smallest square
/// that is at least `TILE_MIN` and at least twice the hole's bounding box, rounded up
/// to a multiple of the stride, capped at the largest multiple that fits inside the
/// image, centred on the bounding box and clamped so it stays inside.
pub fn tile_rect(mask: &Gray8) -> (res: Option<Tile>)
    requires
        mask.wf(),
    ensures
        res is None <==> !has_hole(*mask),
        res matches Some(t) ==> exists|b: Bounds| #[trigger]
            bounds_of(*mask, b) && tile_of(*mask, b, t) && least(*mask, b, t.side as int)
                && in_the_middle(*mask, b, t),
{
    let b: Bounds = match mask_bounds(mask) {
        None => {
            return None;
        },
        Some(b) => b,
    };
    proof {
        lemma_bounds_inside(*mask, b);
    }
    let bbox_w: usize = b.max_x - b.min_x + 1;
    let bbox_h: usize = b.max_y - b.min_y + 1;
    let side: usize = side_for(mask.width, mask.height, bbox_w, bbox_h);
    let x0: usize = window_origin(b.min_x + bbox_w / 2, side, mask.width);
    let y0: usize = window_origin(b.min_y + bbox_h / 2, side, mask.height);
    let t = Tile { x0, y0, side, bbox_w, bbox_h };
    proof {
        law_window_is_the_least(*mask, b, t);
        law_window_is_in_the_middle(*mask, b, t);
    }
    assert(bounds_of(*mask, b) && tile_of(*mask, b, t));
    Some(t)
}

/// `out` holds the pixels of `img` that a window covers.
pub open spec fn crop_rgb_of(img: Rgb8, t: Tile, out: Rgb8) -> bool {
    &&& out.wf()
    &&& out.width == t.side
    &&& out.height == t.side
    &&& forall|x: int, y: int, c: int|
        0 <= x < t.side && 0 <= y < t.side && 0 <= c < 3 ==> #[trigger] out.sample(x, y, c)
            == img.sample(t.x0 + x, t.y0 + y, c)
}

/// `out` holds the pixels of a mask that a window covers.
pub open spec fn crop_gray_of(img: Gray8, t: Tile, out: Gray8) -> bool {
    &&& out.wf()
    &&& out.width == t.side
    &&& out.height == t.side
    &&& forall|x: int, y: int|
        0 <= x < t.side && 0 <= y < t.side ==> #[trigger] at(out.data@, t.side as int, x, y) == at(
            img.data@,
            img.width as int,
            t.x0 + x,
            t.y0 + y,
        )
}

/// Cut a window out of an image.
pub fn crop_rgb(img: &Rgb8, t: &Tile) -> (out: Rgb8)
    requires
        img.wf(),
        t.within(img.width as int, img.height as int),
    ensures
        crop_rgb_of(*img, *t, out),
{
    let ghost side = t.side as int;
    let ghost width = img.width as int;
    let ghost height = img.height as int;
    proof {
        lemma_area_le(side, side, width, height);
    }
    let mut data: Vec<u8> = Vec::new();
    let mut y: usize = 0;
    while y < t.side
        invariant
            img.wf(),
            t.within(img.width as int, img.height as int),
            side == t.side,
            width == img.width,
            height == img.height,
            y <= t.side,
            data@.len() == y * side * 3,
            forall|u: int, v: int, c: int|
                0 <= u < side && 0 <= v < y && 0 <= c < 3 ==> #[trigger] data@[(v * side + u) * 3
                    + c] == img.sample(t.x0 + u, t.y0 + v, c),
        decreases t.side - y,
    {
        let ghost rows = data@;
        let mut x: usize = 0;
        while x < t.side
            invariant
                img.wf(),
                t.within(img.width as int, img.height as int),
                side == t.side,
                width == img.width,
                height == img.height,
                y < t.side,
                x <= t.side,
                rows.len() == y * side * 3,
                data@.len() == (y * side + x) * 3,
                forall|k: int| 0 <= k < rows.len() ==> data@[k] == rows[k],
                forall|u: int, c: int|
                    0 <= u < x && 0 <= c < 3 ==> #[trigger] data@[(y * side + u) * 3 + c]
                        == img.sample(t.x0 + u, t.y0 + y, c),
            decreases t.side - x,
        {
            proof {
                lemma_place(width, height, t.x0 + x, t.y0 + y);
            }
            let o: usize = ((t.y0 + y) * img.width + t.x0 + x) * 3;
            data.push(img.data[o]);
            data.push(img.data[o + 1]);
            data.push(img.data[o + 2]);
            x += 1;
        }
        proof {
            assert((y + 1) * side == y * side + side) by (nonlinear_arith);
            assert forall|u: int, v: int, c: int|
                0 <= u < side && 0 <= v < y + 1 && 0 <= c < 3 implies #[trigger] data@[(v * side
                + u) * 3 + c] == img.sample(t.x0 + u, t.y0 + v, c) by {
                if v < y {
                    lemma_place(side, y as int, u, v);
                    assert(side * y == y * side) by (nonlinear_arith);
                    assert(rows[(v * side + u) * 3 + c] == img.sample(t.x0 + u, t.y0 + v, c));
                }
            }
        }
        y += 1;
    }
    let out = Rgb8 { width: t.side, height: t.side, data };
    assert forall|x: int, y: int, c: int|
        0 <= x < t.side && 0 <= y < t.side && 0 <= c < 3 implies #[trigger] out.sample(x, y, c)
        == img.sample(t.x0 + x, t.y0 + y, c) by {
        assert(out.data@[(y * side + x) * 3 + c] == img.sample(t.x0 + x, t.y0 + y, c));
    }
    out
}

/// Cut a window out of a mask.
pub fn crop_gray(img: &Gray8, t: &Tile) -> (out: Gray8)
    requires
        img.wf(),
        t.within(img.width as int, img.height as int),
    ensures
        crop_gray_of(*img, *t, out),
{
    let ghost side = t.side as int;
    let ghost width = img.width as int;
    let ghost height = img.height as int;
    let ghost from = |x: int, y: int| at(img.data@, width, t.x0 + x, t.y0 + y);
    let mut data: Vec<u8> = Vec::new();
    let mut y: usize = 0;
    while y < t.side
        invariant
            img.wf(),
            t.within(img.width as int, img.height as int),
            side == t.side,
            width == img.width,
            height == img.height,
            from == (|x: int, y: int| at(img.data@, width, t.x0 + x, t.y0 + y)),
            y <= t.side,
            data@.len() == y * side,
            forall|k: int| 0 <= k < data@.len() ==> #[trigger] data@[k] == from(k % side, k / side),
        decreases t.side - y,
    {
        let mut x: usize = 0;
        while x < t.side
            invariant
                img.wf(),
                t.within(img.width as int, img.height as int),
                side == t.side,
                width == img.width,
                height == img.height,
                from == (|x: int, y: int| at(img.data@, width, t.x0 + x, t.y0 + y)),
                y < t.side,
                x <= t.side,
                data@.len() == y * side + x,
                forall|k: int|
                    0 <= k < data@.len() ==> #[trigger] data@[k] == from(k % side, k / side),
            decreases t.side - x,
        {
            proof {
                lemma_place(width, height, t.x0 + x, t.y0 + y);
                lemma_position(side, x as int, y as int);
            }
            data.push(img.data[(t.y0 + y) * img.width + t.x0 + x]);
            x += 1;
        }
        proof {
            assert((y + 1) * side == y * side + side) by (nonlinear_arith);
        }
        y += 1;
    }
    proof {
        lemma_filled(data@, side, side, from);
    }
    Gray8 { width: t.side, height: t.side, data }
}

/// A window no longer than the extent ends inside it.
pub proof fn law_origin_stays_inside(c: int, side: int, extent: int)
    requires
        0 <= side <= extent,
    ensures
        0 <= origin(c, side, extent),
        origin(c, side, extent) + side <= extent,
{
}

/// The window around a hole lies inside the image, and its side is a multiple of the
/// network's stride wherever the image is large enough to supply one.
pub proof fn law_window_inside(m: Gray8, b: Bounds, t: Tile)
    requires
        bounds_of(m, b),
        tile_of(m, b, t),
    ensures
        1 <= t.side,
        t.within(m.width as int, m.height as int),
        m.width >= PAD_MOD && m.height >= PAD_MOD ==> t.side % PAD_MOD == 0,
{
    lemma_bounds_inside(m, b);
}

/// The window around a hole holds all of it whenever the hole is no larger than the
/// largest window that the image can supply.
pub proof fn law_window_contains_hole(m: Gray8, b: Bounds, t: Tile, x: int, y: int)
    requires
        bounds_of(m, b),
        tile_of(m, b, t),
        b.wide() <= t.side,
        b.tall() <= t.side,
        m.hole(x, y),
    ensures
        t.covers(x, y),
{
    lemma_bounds_inside(m, b);
}

/// Unless the image is too small for it, the window is at least the minimum and at
/// least twice as long as the hole.
pub proof fn law_window_size(m: Gray8, b: Bounds, t: Tile)
    requires
        bounds_of(m, b),
        tile_of(m, b, t),
    ensures
        t.side <= m.width && t.side <= m.height,
        t.side < rounded_down(m.width as int) && t.side < rounded_down(m.height as int) ==> {
            &&& t.side >= TILE_MIN
            &&& t.side >= 2 * b.wide()
            &&& t.side >= 2 * b.tall()
        },
{
    lemma_bounds_inside(m, b);
}

/// The window around a hole is the least that will do: its side is a multiple of 8, at least
/// 512 and at least twice what the hole spans either way, and any other such side is no
/// shorter.  In an image that is too small for all of them it is the longest multiple of 8
/// that fits.
pub proof fn law_window_is_the_least(m: Gray8, b: Bounds, t: Tile)
    requires
        bounds_of(m, b),
        tile_of(m, b, t),
    ensures
        least(m, b, t.side as int),
        t.side < 520 || t.side < 2 * b.wide() + 8 || t.side < 2 * b.tall() + 8,
{
    lemma_bounds_inside(m, b);
    let side = t.side as int;
    let want = if 512 < 2 * b.wide() || 512 < 2 * b.tall() {
        if b.wide() < b.tall() {
            2 * b.tall()
        } else {
            2 * b.wide()
        }
    } else {
        512
    };
    assert forall|k: int| #[trigger] will_do(b, k) && k <= m.width && k <= m.height implies side
        <= k by {
        assert(want <= k);
        assert(rounded_up(want) <= k);
    }
    if !will_do(b, side) {
        assert forall|k: int|
            #![trigger k % 8]
            k % 8 == 0 && k <= m.width && k <= m.height implies k <= side by {}
    }
}

/// The window around a hole shows as much on one side of it as on the other, to a pixel,
/// unless the image ends before.
pub proof fn law_window_is_in_the_middle(m: Gray8, b: Bounds, t: Tile)
    requires
        bounds_of(m, b),
        tile_of(m, b, t),
    ensures
        in_the_middle(m, b, t),
{
    lemma_bounds_inside(m, b);
}

/// A bounding box lies inside its image and its corners are in order.
pub proof fn lemma_bounds_inside(m: Gray8, b: Bounds)
    requires
        bounds_of(m, b),
    ensures
        b.min_x <= b.max_x < m.width,
        b.min_y <= b.max_y < m.height,
{
    let y = choose|y: int| m.hole(b.max_x as int, y);
    assert(m.hole(b.max_x as int, y));
    let x = choose|x: int| m.hole(x, b.max_y as int);
    assert(m.hole(x, b.max_y as int));
}

/// A mask has only one bounding box.
pub proof fn lemma_bounds_unique(m: Gray8, a: Bounds, b: Bounds)
    requires
        bounds_of(m, a),
        bounds_of(m, b),
    ensures
        a == b,
{
    let ya = choose|y: int| m.hole(a.min_x as int, y);
    let yb = choose|y: int| m.hole(b.min_x as int, y);
    let ya2 = choose|y: int| m.hole(a.max_x as int, y);
    let yb2 = choose|y: int| m.hole(b.max_x as int, y);
    let xa = choose|x: int| m.hole(x, a.min_y as int);
    let xb = choose|x: int| m.hole(x, b.min_y as int);
    let xa2 = choose|x: int| m.hole(x, a.max_y as int);
    let xb2 = choose|x: int| m.hole(x, b.max_y as int);
    assert(m.hole(a.min_x as int, ya) && m.hole(b.min_x as int, yb));
    assert(m.hole(a.max_x as int, ya2) && m.hole(b.max_x as int, yb2));
    assert(m.hole(xa, a.min_y as int) && m.hole(xb, b.min_y as int));
    assert(m.hole(xa2, a.max_y as int) && m.hole(xb2, b.max_y as int));
}

} // verus!
