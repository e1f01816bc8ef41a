//! How deep inside a hole every pixel lies.

use vstd::prelude::*;
use std::collections::VecDeque;

use crate::grid::{at, lemma_place, lemma_place_of, lemma_position};
use crate::image::Gray8;

verus! {

/// Whether two positions share a side.
pub open spec fn adjacent(x: int, y: int, u: int, v: int) -> bool {
    ||| u == x - 1 && v == y
    ||| u == x + 1 && v == y
    ||| u == x && v == y - 1
    ||| u == x && v == y + 1
}

/// A pixel of the hole that touches something outside it: a pixel that is not part of
/// the hole, or the edge of the image.
pub open spec fn rim(m: Gray8, x: int, y: int) -> bool {
    m.hole(x, y) && !(m.hole(x - 1, y) && m.hole(x + 1, y) && m.hole(x, y - 1) && m.hole(
        x,
        y + 1,
    ))
}

/// The rim can be reached from here in at most `d` steps from pixel to adjacent pixel
/// without leaving the hole.
pub open spec fn reaches_rim(m: Gray8, x: int, y: int, d: nat) -> bool
    decreases d,
{
    m.hole(x, y) && (rim(m, x, y) || d > 0 && (reaches_rim(m, x - 1, y, (d - 1) as nat)
        || reaches_rim(m, x + 1, y, (d - 1) as nat) || reaches_rim(m, x, y - 1, (d - 1) as nat)
        || reaches_rim(m, x, y + 1, (d - 1) as nat)))
}

/// The distance from a pixel of the hole to the rim is `d`.
pub open spec fn depth_is(m: Gray8, x: int, y: int, d: nat) -> bool {
    reaches_rim(m, x, y, d) && forall|e: nat| e < d ==> !#[trigger] reaches_rim(m, x, y, e)
}

/// `depth` gives the distance to the rim of every pixel of the hole, and `u32::MAX`
/// everywhere else.
pub open spec fn depths_of(m: Gray8, depth: Seq<u32>) -> bool {
    &&& depth.len() == m.width * m.height
    &&& forall|x: int, y: int|
        m.inside(x, y) ==> {
            let d = #[trigger] at(depth, m.width as int, x, y);
            if m.hole(x, y) {
                d < u32::MAX && depth_is(m, x, y, d as nat)
            } else {
                d == u32::MAX
            }
        }
}

/// Allowing more steps reaches no less.
pub proof fn lemma_reaches_mono(m: Gray8, x: int, y: int, d: nat, e: nat)
    requires
        reaches_rim(m, x, y, d),
        d <= e,
    ensures
        reaches_rim(m, x, y, e),
    decreases d,
{
    if !rim(m, x, y) {
        let p = (d - 1) as nat;
        let q = (e - 1) as nat;
        if reaches_rim(m, x - 1, y, p) {
            lemma_reaches_mono(m, x - 1, y, p, q);
        } else if reaches_rim(m, x + 1, y, p) {
            lemma_reaches_mono(m, x + 1, y, p, q);
        } else if reaches_rim(m, x, y - 1, p) {
            lemma_reaches_mono(m, x, y - 1, p, q);
        } else {
            lemma_reaches_mono(m, x, y + 1, p, q);
        }
    }
}

/// Walking left from any pixel of the hole meets the rim at the edge of the image at
/// the latest.
pub proof fn lemma_rim_on_the_left(m: Gray8, x: int, y: int)
    requires
        m.hole(x, y),
    ensures
        reaches_rim(m, x, y, x as nat),
    decreases x,
{
    if !rim(m, x, y) {
        lemma_rim_on_the_left(m, x - 1, y);
    }
}

/// Walking up from any pixel of the hole meets the rim at the edge of the image at the
/// latest.
pub proof fn lemma_rim_above(m: Gray8, x: int, y: int)
    requires
        m.hole(x, y),
    ensures
        reaches_rim(m, x, y, y as nat),
    decreases y,
{
    if !rim(m, x, y) {
        lemma_rim_above(m, x, y - 1);
    }
}

/// The distance to the rim is a single number.
pub proof fn lemma_depth_unique(m: Gray8, x: int, y: int, d: nat, e: nat)
    requires
        depth_is(m, x, y, d),
        depth_is(m, x, y, e),
    ensures
        d == e,
{
}

/// A pixel is on the rim exactly when its depth is zero.
pub proof fn law_rim_has_depth_zero(m: Gray8, x: int, y: int)
    ensures
        rim(m, x, y) <==> depth_is(m, x, y, 0),
{
}

/// Depth changes by at most one from a pixel of the hole to an adjacent one.
pub proof fn law_depth_grows_by_steps(m: Gray8, x: int, y: int, u: int, v: int, d: nat, e: nat)
    requires
        depth_is(m, x, y, d),
        depth_is(m, u, v, e),
        adjacent(x, y, u, v),
    ensures
        e <= d + 1,
        d <= e + 1,
{
    assert(reaches_rim(m, u, v, (d + 1) as nat));
    assert(reaches_rim(m, x, y, (e + 1) as nat));
}

/// The smallest depth of any hole is zero: a mask that marks a hole has a rim.
pub proof fn law_every_hole_has_a_rim(m: Gray8, x: int, y: int) -> (r: (int, int))
    requires
        m.hole(x, y),
    ensures
        rim(m, r.0, r.1),
    decreases x,
{
    if rim(m, x, y) {
        (x, y)
    } else {
        law_every_hole_has_a_rim(m, x - 1, y)
    }
}

/// The pixel at place `k` of the buffer is part of the hole.
spec fn hole_at(m: Gray8, k: int) -> bool {
    m.hole(k % m.width as int, k / m.width as int)
}

spec fn rim_at(m: Gray8, k: int) -> bool {
    rim(m, k % m.width as int, k / m.width as int)
}

spec fn reaches_at(m: Gray8, k: int, d: nat) -> bool {
    reaches_rim(m, k % m.width as int, k / m.width as int, d)
}

spec fn next_to(m: Gray8, k: int, j: int) -> bool {
    adjacent(
        k % m.width as int,
        k / m.width as int,
        j % m.width as int,
        j / m.width as int,
    )
}

/// Every pixel of the hole next to place `k` has a depth, at most one more.
spec fn settled(m: Gray8, depth: Seq<u32>, k: int) -> bool {
    forall|j: int|
        0 <= j < depth.len() && #[trigger] next_to(m, k, j) && hole_at(m, j) ==> depth[j]
            != u32::MAX && depth[j] <= depth[k] + 1
}

/// The number of places without a depth.
spec fn unassigned(depth: Seq<u32>) -> nat
    decreases depth.len(),
{
    if depth.len() == 0 {
        0
    } else {
        unassigned(depth.drop_last()) + if depth.last() == u32::MAX {
            1nat
        } else {
            0nat
        }
    }
}

proof fn lemma_unassigned_update(depth: Seq<u32>, j: int, d: u32)
    requires
        0 <= j < depth.len(),
        depth[j] == u32::MAX,
        d != u32::MAX,
    ensures
        unassigned(depth.update(j, d)) + 1 == unassigned(depth),
    decreases depth.len(),
{
    let next = depth.update(j, d);
    if j == depth.len() - 1 {
        assert(next.drop_last() =~= depth.drop_last());
    } else {
        lemma_unassigned_update(depth.drop_last(), j, d);
        assert(next.drop_last() =~= depth.drop_last().update(j, d));
    }
}

/// What holds of the search while places wait in `queue`.  `low` is the depth of the
/// shallowest one, and `busy` a place whose neighbours are being visited, if any.
spec fn searching(
    m: Gray8,
    depth: Seq<u32>,
    queue: Seq<usize>,
    low: int,
    busy: int,
) -> bool {
    &&& m.wf()
    &&& depth.len() == m.width * m.height
    &&& forall|k: int|
        0 <= k < depth.len() && #[trigger] depth[k] != u32::MAX ==> reaches_at(
            m,
            k,
            depth[k] as nat,
        ) && depth[k] <= low + 1
    &&& forall|k: int| 0 <= k < depth.len() && #[trigger] rim_at(m, k) ==> depth[k] == 0
    &&& forall|q: int|
        0 <= q < queue.len() ==> #[trigger] queue[q] < depth.len() && low <= depth[queue[q] as int]
            < u32::MAX
    &&& forall|p: int, q: int|
        0 <= p <= q < queue.len() ==> depth[#[trigger] queue[p] as int]
            <= depth[#[trigger] queue[q] as int]
    &&& forall|k: int|
        0 <= k < depth.len() && #[trigger] depth[k] != u32::MAX ==> queue.contains(k as usize)
            || settled(m, depth, k) || k == busy
}

/// Every pixel that reaches the rim in `e` steps has a depth of at most `e`, as long as
/// no shallower place still waits.
proof fn lemma_complete(
    m: Gray8,
    depth: Seq<u32>,
    queue: Seq<usize>,
    low: int,
    e: nat,
    k: int,
)
    requires
        searching(m, depth, queue, low, -1),
        forall|q: int| 0 <= q < queue.len() ==> e <= depth[#[trigger] queue[q] as int],
        0 <= k < depth.len(),
        reaches_at(m, k, e),
    ensures
        depth[k] <= e,
        depth[k] != u32::MAX,
    decreases e,
{
    if rim_at(m, k) {
    } else {
        let w = m.width as int;
        let h = m.height as int;
        let x = k % w;
        let y = k / w;
        let p = (e - 1) as nat;
        let (u, v) = if reaches_rim(m, x - 1, y, p) {
            (x - 1, y)
        } else if reaches_rim(m, x + 1, y, p) {
            (x + 1, y)
        } else if reaches_rim(m, x, y - 1, p) {
            (x, y - 1)
        } else {
            (x, y + 1)
        };
        assert(reaches_rim(m, u, v, p));
        assert(m.hole(u, v));
        let j = v * w + u;
        lemma_place(w, h, u, v);
        lemma_position(w, u, v);
        assert(reaches_at(m, j, p));
        lemma_complete(m, depth, queue, low, p, j);
        assert(depth[j] < e);
        assert(!queue.contains(j as usize)) by {
            if queue.contains(j as usize) {
                let q = choose|q: int| 0 <= q < queue.len() && queue[q] == j as usize;
                assert(e <= depth[queue[q] as int]);
            }
        }
        assert(settled(m, depth, j));
        assert(next_to(m, j, k));
        assert(hole_at(m, k));
    }
}

/// A pixel of the hole lies fewer than `u32::MAX` steps from the rim.
proof fn lemma_shallow(m: Gray8, k: int, d: int)
    requires
        m.wf(),
        0 <= k < m.width * m.height,
        hole_at(m, k),
        0 <= d,
        !reaches_at(m, k, d as nat),
    ensures
        d + 1 < u32::MAX,
{
    let w = m.width as int;
    let h = m.height as int;
    let x = k % w;
    let y = k / w;
    lemma_rim_on_the_left(m, x, y);
    lemma_rim_above(m, x, y);
    if d >= x {
        lemma_reaches_mono(m, x, y, x as nat, d as nat);
    }
    if d >= y {
        lemma_reaches_mono(m, x, y, y as nat, d as nat);
    }
    assert(d < w - 1 && d < h - 1);
    if d + 1 >= u32::MAX {
        assert(w * h >= 0x1_0000_0000 * 0x1_0000_0000) by (nonlinear_arith)
            requires
                w >= 0x1_0000_0000,
                h >= 0x1_0000_0000,
        ;
    }
}

/// Whether a pixel of the hole lies on its rim.
fn on_rim(mask: &Gray8, x: usize, y: usize) -> (r: bool)
    requires
        mask.wf(),
        mask.hole(x as int, y as int),
    ensures
        r == rim(*mask, x as int, y as int),
{
    let w: usize = mask.width;
    let h: usize = mask.height;
    if x == 0 || y == 0 || x + 1 == w || y + 1 == h {
        return true;
    }
    proof {
        lemma_place(w as int, h as int, x as int, y as int);
        lemma_place(w as int, h as int, x - 1, y as int);
        lemma_place(w as int, h as int, x + 1, y as int);
        lemma_place(w as int, h as int, x as int, y - 1);
        lemma_place(w as int, h as int, x as int, y + 1);
        assert((y - 1) * w == y * w - w) by (nonlinear_arith);
        assert((y + 1) * w == y * w + w) by (nonlinear_arith);
    }
    let i: usize = y * w + x;
    mask.data[i - 1] == 0 || mask.data[i + 1] == 0 || mask.data[i - w] == 0 || mask.data[i + w]
        == 0
}

/// Give place `j` the depth after `d` if it is part of the hole and has none yet.
fn visit(mask: &Gray8, depth: &mut Vec<u32>, queue: &mut VecDeque<usize>, j: usize, d: u32, busy: usize)
    requires
        searching(*mask, old(depth)@, old(queue)@, d as int, busy as int),
        forall|k: int|
            0 <= k < old(depth)@.len() && #[trigger] reaches_at(*mask, k, d as nat) ==> old(depth)@[k] != u32::MAX,
        j < old(depth)@.len(),
        busy < old(depth)@.len(),
        old(depth)@[busy as int] == d,
        d != u32::MAX,
        next_to(*mask, busy as int, j as int),
    ensures
        searching(*mask, final(depth)@, final(queue)@, d as int, busy as int),
        forall|k: int|
            0 <= k < old(depth)@.len() && #[trigger] old(depth)@[k] != u32::MAX ==> final(depth)@[k] == old(depth)@[k],
        hole_at(*mask, j as int) ==> final(depth)@[j as int] != u32::MAX && final(depth)@[j as int] <= d + 1,
        2 * unassigned(final(depth)@) + final(queue)@.len() <= 2 * unassigned(old(depth)@) + old(queue)@.len(),
{
    let ghost depth0 = depth@;
    let ghost queue0 = queue@;
    proof {
        let w = mask.width as int;
        if w > 0 {
            lemma_place_of(w, mask.height as int, j as int);
        } else {
            assert(mask.width * mask.height == 0) by (nonlinear_arith)
                requires
                    mask.width == 0,
            ;
        }
        assert(hole_at(*mask, j as int) == (mask.data@[j as int] > 0));
    }
    if mask.data[j] > 0 && depth[j] == u32::MAX {
        proof {
            lemma_shallow(*mask, j as int, d as int);
            lemma_unassigned_update(depth0, j as int, (d + 1) as u32);
        }
        depth.set(j, d + 1);
        queue.push_back(j);
        proof {
            let m = *mask;
            let len = depth0.len() as int;
            assert(depth@ =~= depth0.update(j as int, (d + 1) as u32));
            assert(queue@ =~= queue0.push(j));
            assert(reaches_at(m, busy as int, d as nat));
            assert(reaches_at(m, j as int, (d + 1) as nat));
            assert(queue@[queue0.len() as int] == j);
            assert forall|q: int| 0 <= q < queue@.len() implies #[trigger] queue@[q] < len && d
                <= depth@[queue@[q] as int] < u32::MAX by {
                if q < queue0.len() {
                    assert(queue@[q] == queue0[q]);
                }
            }
            assert forall|p: int, q: int| 0 <= p <= q < queue@.len() implies depth@[
                #[trigger] queue@[p] as int] <= depth@[#[trigger] queue@[q] as int] by {
                if p < queue0.len() {
                    assert(queue@[p] == queue0[p]);
                }
                if q < queue0.len() {
                    assert(queue@[q] == queue0[q]);
                }
            }
            assert forall|k: int|
                0 <= k < len && #[trigger] depth@[k] != u32::MAX implies queue@.contains(
                k as usize,
            ) || settled(m, depth@, k) || k == busy by {
                if k == j {
                    assert(queue@[queue0.len() as int] == k as usize);
                } else {
                    assert(depth0[k] != u32::MAX);
                    if queue0.contains(k as usize) {
                        let q = choose|q: int| 0 <= q < queue0.len() && queue0[q] == k as usize;
                        assert(queue@[q] == k as usize);
                    } else if settled(m, depth0, k) {
                        assert forall|i: int|
                            0 <= i < len && #[trigger] next_to(m, k, i) && hole_at(m, i) implies depth@[i]
                            != u32::MAX && depth@[i] <= depth@[k] + 1 by {
                            assert(depth0[i] != u32::MAX);
                        }
                    }
                }
            }
        }
    }
}

/// What `visit` leaves of place `j`.
spec fn visited(m: Gray8, depth: Seq<u32>, j: int, d: int) -> bool {
    hole_at(m, j) ==> depth[j] != u32::MAX && depth[j] <= d + 1
}

/// Visit the pixels on all four sides of place `i`.
#[verifier::spinoff_prover]
fn expand(mask: &Gray8, depth: &mut Vec<u32>, queue: &mut VecDeque<usize>, i: usize)
    requires
        i < old(depth)@.len(),
        old(depth)@[i as int] != u32::MAX,
        searching(*mask, old(depth)@, old(queue)@, old(depth)@[i as int] as int, i as int),
        forall|k: int|
            0 <= k < old(depth)@.len() && #[trigger] reaches_at(
                *mask,
                k,
                old(depth)@[i as int] as nat,
            ) ==> old(depth)@[k] != u32::MAX,
    ensures
        searching(*mask, final(depth)@, final(queue)@, old(depth)@[i as int] as int, -1),
        2 * unassigned(final(depth)@) + final(queue)@.len() <= 2 * unassigned(old(depth)@)
            + old(queue)@.len(),
{
    let w: usize = mask.width;
    let h: usize = mask.height;
    let ghost m = *mask;
    proof {
        if w == 0 {
            assert(w * h == 0) by (nonlinear_arith)
                requires
                    w == 0,
            ;
        }
        lemma_place_of(w as int, h as int, i as int);
        assert(reaches_at(m, i as int, depth@[i as int] as nat));
    }
    let d: u32 = depth[i];
    let x: usize = i % w;
    let y: usize = i / w;
    proof {
        lemma_sides(w as int, h as int, x as int, y as int);
    }
    if x > 0 {
        visit(mask, depth, queue, i - 1, d, i);
    }
    assert(x > 0 ==> visited(m, depth@, i - 1, d as int));
    if x + 1 < w {
        visit(mask, depth, queue, i + 1, d, i);
    }
    assert(x > 0 ==> visited(m, depth@, i - 1, d as int));
    assert(x + 1 < w ==> visited(m, depth@, i + 1, d as int));
    if y > 0 {
        visit(mask, depth, queue, i - w, d, i);
    }
    assert(x > 0 ==> visited(m, depth@, i - 1, d as int));
    assert(x + 1 < w ==> visited(m, depth@, i + 1, d as int));
    assert(y > 0 ==> visited(m, depth@, i - w, d as int));
    if y + 1 < h {
        visit(mask, depth, queue, i + w, d, i);
    }
    assert(x > 0 ==> visited(m, depth@, i - 1, d as int));
    assert(x + 1 < w ==> visited(m, depth@, i + 1, d as int));
    assert(y > 0 ==> visited(m, depth@, i - w, d as int));
    assert(y + 1 < h ==> visited(m, depth@, i + w, d as int));
    assert forall|j: int|
        0 <= j < depth@.len() && #[trigger] next_to(m, i as int, j) && hole_at(
            m,
            j,
        ) implies depth@[j] != u32::MAX && depth@[j] <= depth@[i as int] + 1 by {
        lemma_place_of(w as int, h as int, j);
        assert(j == i - 1 || j == i + 1 || j == i - w || j == i + w);
    }
    assert(settled(m, depth@, i as int));
}

/// The places on the four sides of a position.
proof fn lemma_sides(w: int, h: int, x: int, y: int)
    requires
        0 <= x < w,
        0 <= y < h,
    ensures
        (y - 1) * w == y * w - w,
        (y + 1) * w == y * w + w,
        x > 0 ==> (y * w + x - 1) % w == x - 1 && (y * w + x - 1) / w == y && 0 <= y * w + x - 1,
        x + 1 < w ==> (y * w + x + 1) % w == x + 1 && (y * w + x + 1) / w == y && y * w + x + 1 < w
            * h,
        y > 0 ==> (y * w + x - w) % w == x && (y * w + x - w) / w == y - 1 && 0 <= y * w + x - w,
        y + 1 < h ==> (y * w + x + w) % w == x && (y * w + x + w) / w == y + 1 && y * w + x + w < w
            * h,
{
    assert((y - 1) * w == y * w - w) by (nonlinear_arith);
    assert((y + 1) * w == y * w + w) by (nonlinear_arith);
    lemma_place(w, h, x, y);
    if x > 0 {
        lemma_position(w, x - 1, y);
    }
    if x + 1 < w {
        lemma_place(w, h, x + 1, y);
        lemma_position(w, x + 1, y);
    }
    if y > 0 {
        lemma_place(w, h, x, y - 1);
        lemma_position(w, x, y - 1);
    }
    if y + 1 < h {
        lemma_place(w, h, x, y + 1);
        lemma_position(w, x, y + 1);
    }
}

/// Distance from every pixel of the hole to its rim, breadth first over the hole.
/// Pixels on the rim (touching a pixel outside the hole or the image edge) are 0; pixels
/// outside the hole stay `u32::MAX`.
pub fn mask_depth(mask: &Gray8) -> (depth: Vec<u32>)
    requires
        mask.wf(),
    ensures
        depths_of(*mask, depth@),
{
    let w: usize = mask.width;
    let h: usize = mask.height;
    let n: usize = mask.data.len();
    let mut depth: Vec<u32> = vec![u32::MAX; n];
    let mut queue: VecDeque<usize> = VecDeque::new();
    let ghost m = *mask;
    let mut y: usize = 0;
    while y < h
        invariant
            mask.wf(),
            m == *mask,
            w == mask.width,
            h == mask.height,
            n == w * h,
            y <= h,
            seeded(m, depth@, queue@, y * w),
        decreases h - y,
    {
        let mut x: usize = 0;
        while x < w
            invariant
                mask.wf(),
                m == *mask,
                w == mask.width,
                h == mask.height,
                n == w * h,
                y < h,
                x <= w,
                seeded(m, depth@, queue@, y * w + x),
            decreases w - x,
        {
            proof {
                lemma_place(w as int, h as int, x as int, y as int);
                lemma_position(w as int, x as int, y as int);
            }
            let i: usize = y * w + x;
            let ghost depth0 = depth@;
            let ghost queue0 = queue@;
            assert(mask.hole(x as int, y as int) == (mask.data@[i as int] > 0));
            if mask.data[i] > 0 && on_rim(mask, x, y) {
                depth.set(i, 0);
                queue.push_back(i);
                proof {
                    assert(queue@[queue0.len() as int] == i);
                    assert forall|k: int| 0 <= k < n && #[trigger] depth@[k] == 0 implies queue@.contains(
                        k as usize,
                    ) by {
                        if k != i {
                            assert(depth0[k] == 0);
                            let q = choose|q: int| 0 <= q < queue0.len() && queue0[q] == k as usize;
                            assert(queue@[q] == k as usize);
                        }
                    }
                    assert forall|q: int| 0 <= q < queue@.len() implies #[trigger] queue@[q] < n
                        && depth@[queue@[q] as int] == 0 by {
                        if q < queue0.len() {
                            assert(queue@[q] == queue0[q]);
                        }
                    }
                }
            }
            x += 1;
        }
        assert((y + 1) * w == y * w + w) by (nonlinear_arith);
        y += 1;
    }
    assert(w * h == h * w) by (nonlinear_arith);
    let ghost mut low: int = 0;
    proof {
        assert forall|k: int| 0 <= k < n && #[trigger] depth@[k] != u32::MAX implies reaches_at(
            m,
            k,
            depth@[k] as nat,
        ) && depth@[k] <= low + 1 by {
            assert(rim_at(m, k));
        }
        assert(searching(m, depth@, queue@, 0, -1));
    }
    loop
        invariant
            mask.wf(),
            m == *mask,
            w == mask.width,
            h == mask.height,
            n == w * h,
            searching(m, depth@, queue@, low, -1),
        ensures
            queue@.len() == 0,
        decreases 2 * unassigned(depth@) + queue@.len(),
    {
        let ghost depth0 = depth@;
        let ghost queue0 = queue@;
        match queue.pop_front() {
            None => {
                break ;
            },
            Some(i) => {
                proof {
                    assert(queue0[0] == i);
                    lemma_pop(m, depth0, queue0, low, queue@);
                    low = depth0[i as int] as int;
                }
                expand(mask, &mut depth, &mut queue, i);
            },
        }
    }
    proof {
        assert forall|x: int, y: int| m.inside(x, y) implies ({
            let d = #[trigger] at(depth@, w as int, x, y);
            if m.hole(x, y) {
                d < u32::MAX && depth_is(m, x, y, d as nat)
            } else {
                d == u32::MAX
            }
        }) by {
            let k = y * w + x;
            lemma_place(w as int, h as int, x, y);
            lemma_position(w as int, x, y);
            if m.hole(x, y) {
                lemma_rim_on_the_left(m, x, y);
                assert(reaches_at(m, k, x as nat));
                lemma_complete(m, depth@, queue@, low, x as nat, k);
                assert forall|e: nat| e < depth@[k] implies !#[trigger] reaches_rim(m, x, y, e) by {
                    if reaches_rim(m, x, y, e) {
                        assert(reaches_at(m, k, e));
                        lemma_complete(m, depth@, queue@, low, e, k);
                    }
                }
            } else if depth@[k] != u32::MAX {
                assert(reaches_at(m, k, depth@[k] as nat));
            }
        }
    }
    depth
}

/// The search before it starts, once the first `n` places have been looked at: the rim
/// found so far has depth 0 and waits in the queue.
spec fn seeded(m: Gray8, depth: Seq<u32>, queue: Seq<usize>, n: int) -> bool {
    &&& depth.len() == m.width * m.height
    &&& forall|k: int|
        0 <= k < depth.len() ==> #[trigger] depth[k] == if k < n && rim_at(m, k) {
            0u32
        } else {
            u32::MAX
        }
    &&& forall|q: int|
        0 <= q < queue.len() ==> #[trigger] queue[q] < depth.len() && depth[queue[q] as int] == 0
    &&& forall|k: int|
        0 <= k < depth.len() && #[trigger] depth[k] == 0 ==> queue.contains(k as usize)
}

/// Taking the first place out of the queue makes it the busy one, and by then every
/// pixel within its depth of the rim has been found.
proof fn lemma_pop(m: Gray8, depth: Seq<u32>, queue: Seq<usize>, low: int, rest: Seq<usize>)
    requires
        searching(m, depth, queue, low, -1),
        queue.len() > 0,
        rest =~= queue.subrange(1, queue.len() as int),
    ensures
        searching(m, depth, rest, depth[queue[0] as int] as int, queue[0] as int),
        forall|k: int|
            0 <= k < depth.len() && #[trigger] reaches_at(
                m,
                k,
                depth[queue[0] as int] as nat,
            ) ==> depth[k] != u32::MAX,
{
    let d = depth[queue[0] as int];
    let front = queue[0];
    assert forall|k: int|
        0 <= k < depth.len() && #[trigger] reaches_at(m, k, d as nat) implies depth[k]
        != u32::MAX by {
        lemma_complete(m, depth, queue, low, d as nat, k);
    }
    assert(low <= d);
    assert forall|q: int| 0 <= q < rest.len() implies #[trigger] rest[q] < depth.len() && d
        <= depth[rest[q] as int] < u32::MAX by {
        assert(rest[q] == queue[q + 1]);
    }
    assert forall|p: int, q: int| 0 <= p <= q < rest.len() implies depth[#[trigger] rest[p] as int]
        <= depth[#[trigger] rest[q] as int] by {
        assert(rest[p] == queue[p + 1]);
        assert(rest[q] == queue[q + 1]);
    }
    assert forall|k: int| 0 <= k < depth.len() && #[trigger] depth[k] != u32::MAX implies rest.contains(
        k as usize,
    ) || settled(m, depth, k) || k == front by {
        if queue.contains(k as usize) && k != front {
            let q = choose|q: int| 0 <= q < queue.len() && queue[q] == k as usize;
            assert(rest[q - 1] == k as usize);
        }
    }
}

/// The depth of a pixel, or more than any where there is none.
spec fn depth_at(m: Gray8, depth: Seq<u32>, x: int, y: int) -> int {
    if m.inside(x, y) {
        depth[y * m.width + x] as int
    } else {
        u32::MAX as int
    }
}

/// One pixel that is part of the hole, next to another.
proof fn lemma_neighbour(m: Gray8, depth: Seq<u32>, x: int, y: int, u: int, v: int)
    requires
        depths_of(m, depth),
        m.hole(x, y),
        m.hole(u, v),
        adjacent(x, y, u, v),
    ensures
        depth_at(m, depth, u, v) <= depth_at(m, depth, x, y) + 1,
        forall|k: nat| #[trigger] reaches_rim(m, u, v, k) ==> depth_at(m, depth, u, v) <= k,
{
    let a = at(depth, m.width as int, x, y);
    let b = at(depth, m.width as int, u, v);
    assert(reaches_rim(m, x, y, a as nat));
    assert(reaches_rim(m, u, v, (a + 1) as nat));
    assert forall|k: nat| #[trigger] reaches_rim(m, u, v, k) implies b <= k by {}
}

/// The depth of a pixel by those around it.  It is 0 exactly at the edge of the image and
/// beside a pixel whose byte is 0, one more than the least of its four neighbours' elsewhere
/// in the hole, and the largest number outside it.
pub proof fn law_depth_by_neighbours(m: Gray8, depth: Seq<u32>, x: int, y: int)
    requires
        m.wf(),
        depths_of(m, depth),
        0 <= x < m.width,
        0 <= y < m.height,
    ensures
        ({
            let w = m.width as int;
            let i = y * w + x;
            let rim = x == 0 || y == 0 || x + 1 == w || y + 1 == m.height || m.data@[i - 1] == 0
                || m.data@[i + 1] == 0 || m.data@[i - w] == 0 || m.data@[i + w] == 0;
            if m.data@[i] == 0 {
                depth[i] == 0xffff_ffff
            } else if rim {
                depth[i] == 0
            } else {
                &&& depth[i] <= depth[i - 1] + 1 && depth[i] <= depth[i + 1] + 1
                &&& depth[i] <= depth[i - w] + 1 && depth[i] <= depth[i + w] + 1
                &&& depth[i] == depth[i - 1] + 1 || depth[i] == depth[i + 1] + 1 || depth[i] == depth[i
                    - w] + 1 || depth[i] == depth[i + w] + 1
            }
        }),
{
    let w = m.width as int;
    let i = y * w + x;
    assert((y - 1) * w == y * w - w && (y + 1) * w == y * w + w) by (nonlinear_arith);
    let d = at(depth, w, x, y);
    if m.data@[i] != 0 {
        assert(m.hole(x, y));
        if rim(m, x, y) {
            assert(reaches_rim(m, x, y, 0));
        } else {
            assert(m.hole(x - 1, y) && m.hole(x + 1, y) && m.hole(x, y - 1) && m.hole(x, y + 1));
            assert(!reaches_rim(m, x, y, 0));
            assert(d > 0);
            lemma_neighbour(m, depth, x, y, x - 1, y);
            lemma_neighbour(m, depth, x, y, x + 1, y);
            lemma_neighbour(m, depth, x, y, x, y - 1);
            lemma_neighbour(m, depth, x, y, x, y + 1);
            lemma_neighbour(m, depth, x - 1, y, x, y);
            lemma_neighbour(m, depth, x + 1, y, x, y);
            lemma_neighbour(m, depth, x, y - 1, x, y);
            lemma_neighbour(m, depth, x, y + 1, x, y);
            assert(reaches_rim(m, x, y, d as nat));
            let e = (d - 1) as nat;
            assert(reaches_rim(m, x - 1, y, e) || reaches_rim(m, x + 1, y, e) || reaches_rim(m, x, y - 1, e)
                || reaches_rim(m, x, y + 1, e));
        }
    }
}

} // verus!
