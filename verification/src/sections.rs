//! Splitting a large hole into blocks that are filled from its rim inward.

use vstd::prelude::*;

use crate::depth::{depth_is, depths_of, mask_depth, reaches_rim, rim, law_every_hole_has_a_rim};
use crate::grid::{at, lemma_place};
use crate::image::Gray8;
use crate::window::{bounds_of, has_hole, lemma_bounds_inside, lemma_bounds_unique, mask_bounds, origin, Bounds, TILE_MIN};

verus! {

/// The side of the blocks: no pass sees a hole larger than the crop the weights were
/// trained on.
pub const SECTION_BLOCK: usize = 256;

/// One rectangular piece of a hole that is filled in a single pass: columns `x0..x1` of
/// rows `y0..y1`.
#[derive(Debug, Clone, Copy, PartialEq, Eq, Structural)]
pub struct Section {
    pub x0: usize,
    pub y0: usize,
    pub x1: usize,
    pub y1: usize,
}

impl Section {
    /// Whether the section holds a position.
    pub open spec fn holds(&self, x: int, y: int) -> bool {
        self.x0 <= x < self.x1 && self.y0 <= y < self.y1
    }
}

/// Whether the blocks that tile a bounding box have one in column `c` of row `r`.
pub open spec fn has_cell(b: Bounds, c: int, r: int) -> bool {
    &&& 0 <= c
    &&& 0 <= r
    &&& b.min_x + SECTION_BLOCK * c <= b.max_x
    &&& b.min_y + SECTION_BLOCK * r <= b.max_y
}

/// The block in column `c` of row `r`: whole blocks from the corner of the bounding
/// box, the last of each row and column cut off where the box ends.
pub open spec fn cell(b: Bounds, c: int, r: int) -> Section {
    let x0 = b.min_x + SECTION_BLOCK * c;
    let y0 = b.min_y + SECTION_BLOCK * r;
    let x1 = if x0 + SECTION_BLOCK <= b.max_x {
        x0 + SECTION_BLOCK
    } else {
        b.max_x + 1
    };
    let y1 = if y0 + SECTION_BLOCK <= b.max_y {
        y0 + SECTION_BLOCK
    } else {
        b.max_y + 1
    };
    Section { x0: x0 as usize, y0: y0 as usize, x1: x1 as usize, y1: y1 as usize }
}

/// Whether a section holds any part of the hole.
pub open spec fn touches_hole(m: Gray8, s: Section) -> bool {
    exists|x: int, y: int| #[trigger] m.hole(x, y) && s.holds(x, y)
}

/// The pixel of the hole closest to its rim that the section holds has depth `d`.
pub open spec fn shallowest(m: Gray8, s: Section, d: nat) -> bool {
    &&& exists|x: int, y: int| s.holds(x, y) && #[trigger] depth_is(m, x, y, d)
    &&& forall|x: int, y: int, e: nat|
        s.holds(x, y) && #[trigger] depth_is(m, x, y, e) ==> d <= e
}

/// Order by depth, then top to bottom, then left to right.
pub open spec fn keys_in_order(d: nat, s: Section, e: nat, t: Section) -> bool {
    d < e || d == e && (s.y0 < t.y0 || s.y0 == t.y0 && s.x0 < t.x0)
}

/// Whether one section is filled before another.
pub open spec fn precedes(m: Gray8, s: Section, t: Section) -> bool {
    exists|d: nat, e: nat| #[trigger]
        shallowest(m, s, d) && #[trigger] shallowest(m, t, e) && keys_in_order(d, s, e, t)
}

/// A section is one of the blocks of the bounding box and holds part of the hole.
pub open spec fn is_block(m: Gray8, b: Bounds, s: Section) -> bool {
    touches_hole(m, s) && exists|c: int, r: int| #[trigger] cell(b, c, r) == s && has_cell(b, c, r)
}

/// `list` holds the blocks with part of the hole, each of them, in order.
pub open spec fn blocks_in_order(m: Gray8, b: Bounds, list: Seq<Section>) -> bool {
    &&& forall|i: int| 0 <= i < list.len() ==> is_block(m, b, #[trigger] list[i])
    &&& forall|c: int, r: int|
        has_cell(b, c, r) && touches_hole(m, #[trigger] cell(b, c, r)) ==> list.contains(
            cell(b, c, r),
        )
    &&& forall|i: int, j: int|
        0 <= i < j < list.len() ==> precedes(m, #[trigger] list[i], #[trigger] list[j])
}

/// `list` is the order in which the sections of a mask are filled.
pub open spec fn sections_of(m: Gray8, list: Seq<Section>) -> bool {
    if has_hole(m) {
        exists|b: Bounds| #[trigger] bounds_of(m, b) && blocks_in_order(m, b, list)
    } else {
        list.len() == 0
    }
}

/// Whether a block comes before the one in column `c` of row `r`, row by row.
spec fn earlier(i: int, j: int, c: int, r: int) -> bool {
    j < r || j == r && i < c
}

/// A section is a block that comes before the one in column `c` of row `r`.
spec fn is_earlier_cell(b: Bounds, s: Section, c: int, r: int) -> bool {
    exists|i: int, j: int| #[trigger] cell(b, i, j) == s && has_cell(b, i, j) && earlier(i, j, c, r)
}

/// Whether a section is among those found, whatever its depth.
spec fn lists(cells: Seq<(u32, Section)>, s: Section) -> bool {
    exists|k: int| 0 <= k < cells.len() && (#[trigger] cells[k]).1 == s
}

/// Blocks sorted by depth, then top to bottom, then left to right.
spec fn sorted(cells: Seq<(u32, Section)>) -> bool {
    forall|k: int, l: int|
        0 <= k < l < cells.len() ==> keys_in_order(
            (#[trigger] cells[k]).0 as nat,
            cells[k].1,
            (#[trigger] cells[l]).0 as nat,
            cells[l].1,
        )
}

/// What is recorded of one block is right.
spec fn recorded(m: Gray8, b: Bounds, item: (u32, Section), c: int, r: int) -> bool {
    &&& shallowest(m, item.1, item.0 as nat)
    &&& touches_hole(m, item.1)
    &&& is_earlier_cell(b, item.1, c, r)
}

/// `cells` holds the blocks found before the one in column `c` of row `r`, each with
/// the depth it is ordered by.
spec fn found(m: Gray8, b: Bounds, cells: Seq<(u32, Section)>, c: int, r: int) -> bool {
    &&& forall|k: int| 0 <= k < cells.len() ==> recorded(m, b, #[trigger] cells[k], c, r)
    &&& forall|i: int, j: int|
        has_cell(b, i, j) && earlier(i, j, c, r) && touches_hole(m, #[trigger] cell(b, i, j))
            ==> lists(cells, cell(b, i, j))
    &&& sorted(cells)
}

/// A block that comes before a place comes before any later place.
proof fn lemma_earlier(b: Bounds, s: Section, c: int, r: int, c2: int, r2: int)
    requires
        is_earlier_cell(b, s, c, r),
        forall|i: int, j: int|
            has_cell(b, i, j) && earlier(i, j, c, r) ==> #[trigger] earlier(i, j, c2, r2),
    ensures
        is_earlier_cell(b, s, c2, r2),
{
    let (i, j) = choose|i: int, j: int| #[trigger]
        cell(b, i, j) == s && has_cell(b, i, j) && earlier(i, j, c, r);
    assert(cell(b, i, j) == s && has_cell(b, i, j) && earlier(i, j, c2, r2));
}

/// The depth of the shallowest pixel of the hole in a section, or `u32::MAX` if it
/// holds none.
fn shallowest_in(mask: &Gray8, depth: &Vec<u32>, s: &Section) -> (d: u32)
    requires
        mask.wf(),
        depths_of(*mask, depth@),
        s.x0 <= s.x1 <= mask.width,
        s.y0 <= s.y1 <= mask.height,
    ensures
        d == u32::MAX <==> !touches_hole(*mask, *s),
        d != u32::MAX ==> shallowest(*mask, *s, d as nat),
{
    let w: usize = mask.width;
    let ghost m = *mask;
    let ghost mut ax: int = 0;
    let ghost mut ay: int = 0;
    let mut least: u32 = u32::MAX;
    let mut y: usize = s.y0;
    while y < s.y1
        invariant
            mask.wf(),
            m == *mask,
            w == mask.width,
            depths_of(m, depth@),
            s.x0 <= s.x1 <= mask.width,
            s.y0 <= y <= s.y1 <= mask.height,
            least != u32::MAX ==> s.holds(ax, ay) && depth_is(m, ax, ay, least as nat),
            forall|u: int, v: int|
                s.holds(u, v) && v < y && #[trigger] m.hole(u, v) ==> least <= at(
                    depth@,
                    w as int,
                    u,
                    v,
                ) < u32::MAX,
        decreases s.y1 - y,
    {
        let mut x: usize = s.x0;
        while x < s.x1
            invariant
                mask.wf(),
                m == *mask,
                w == mask.width,
                depths_of(m, depth@),
                s.x0 <= x <= s.x1 <= mask.width,
                s.y0 <= y < s.y1 <= mask.height,
                least != u32::MAX ==> s.holds(ax, ay) && depth_is(m, ax, ay, least as nat),
                forall|u: int, v: int|
                    s.holds(u, v) && (v < y || v == y && u < x) && #[trigger] m.hole(u, v)
                        ==> least <= at(depth@, w as int, u, v) < u32::MAX,
            decreases s.x1 - x,
        {
            proof {
                lemma_place(w as int, mask.height as int, x as int, y as int);
                assert(m.inside(x as int, y as int));
                let d = at(depth@, w as int, x as int, y as int);
                assert(m.hole(x as int, y as int) == (mask.data@[y * w + x] > 0));
            }
            if mask.data[y * w + x] > 0 {
                let d: u32 = depth[y * w + x];
                assert(d == at(depth@, w as int, x as int, y as int));
                if d < least {
                    least = d;
                    proof {
                        ax = x as int;
                        ay = y as int;
                    }
                }
            }
            x += 1;
        }
        y += 1;
    }
    proof {
        if least == u32::MAX {
            assert forall|u: int, v: int| #[trigger] m.hole(u, v) implies !s.holds(u, v) by {
                if s.holds(u, v) {
                    assert(least <= at(depth@, w as int, u, v) < u32::MAX);
                }
            }
        } else {
            assert(m.hole(ax, ay));
            assert forall|u: int, v: int, e: nat|
                s.holds(u, v) && #[trigger] depth_is(m, u, v, e) implies least <= e by {
                assert(m.hole(u, v));
                assert(m.inside(u, v));
                let d = at(depth@, w as int, u, v);
                crate::depth::lemma_depth_unique(m, u, v, d as nat, e);
            }
        }
    }
    least
}

/// Put a block in its place among those found before it.
fn insert_in_order(cells: &mut Vec<(u32, Section)>, d: u32, s: Section)
    requires
        sorted(old(cells)@),
        forall|k: int|
            0 <= k < old(cells)@.len() ==> (#[trigger] old(cells)@[k]).1.y0 < s.y0
                || old(cells)@[k].1.y0 == s.y0 && old(cells)@[k].1.x0 < s.x0,
    ensures
        exists|p: int|
            0 <= p <= old(cells)@.len() && final(cells)@ == #[trigger] old(cells)@.insert(p, (d, s)),
        sorted(final(cells)@),
{
    let ghost before = cells@;
    let mut p: usize = cells.len();
    while p > 0 && cells[p - 1].0 > d
        invariant
            p <= cells@.len(),
            cells@ == before,
            forall|k: int| p <= k < before.len() ==> (#[trigger] before[k]).0 > d,
        decreases p,
    {
        p -= 1;
    }
    cells.insert(p, (d, s));
    proof {
        let after = cells@;
        assert(after == before.insert(p as int, (d, s)));
        assert forall|k: int, l: int| 0 <= k < l < after.len() implies keys_in_order(
            (#[trigger] after[k]).0 as nat,
            after[k].1,
            (#[trigger] after[l]).0 as nat,
            after[l].1,
        ) by {
            let a = if k < p {
                k
            } else {
                k - 1
            };
            let c = if l < p {
                l
            } else {
                l - 1
            };
            if k != p && l != p {
                assert(after[k] == before[a] && after[l] == before[c]);
                assert(keys_in_order(before[a].0 as nat, before[a].1, before[c].0 as nat, before[c].1));
            } else if k == p {
                assert(after[l] == before[c]);
                assert(before[c].0 > d);
            } else {
                assert(after[k] == before[k]);
                if k < p - 1 {
                    assert(keys_in_order(before[k].0 as nat, before[k].1, before[p - 1].0 as nat, before[p - 1].1));
                }
                assert(before[p - 1].0 <= d);
            }
        }
    }
}

/// Record the block in column `c` of row `r`.
proof fn lemma_found_grows(
    m: Gray8,
    b: Bounds,
    before: Seq<(u32, Section)>,
    after: Seq<(u32, Section)>,
    p: int,
    d: u32,
    c: int,
    r: int,
)
    requires
        found(m, b, before, c, r),
        has_cell(b, c, r),
        shallowest(m, cell(b, c, r), d as nat),
        touches_hole(m, cell(b, c, r)),
        0 <= p <= before.len(),
        after == before.insert(p, (d, cell(b, c, r))),
        sorted(after),
    ensures
        found(m, b, after, c + 1, r),
{
    assert forall|k: int| 0 <= k < after.len() implies recorded(
        m,
        b,
        #[trigger] after[k],
        c + 1,
        r,
    ) by {
        if k == p {
            assert(cell(b, c, r) == after[k].1 && has_cell(b, c, r) && earlier(c, r, c + 1, r));
        } else {
            let q = if k < p {
                k
            } else {
                k - 1
            };
            assert(after[k] == before[q]);
            assert(recorded(m, b, before[q], c, r));
            lemma_earlier(b, before[q].1, c, r, c + 1, r);
        }
    }
    assert forall|i: int, j: int|
        has_cell(b, i, j) && earlier(i, j, c + 1, r) && touches_hole(
            m,
            #[trigger] cell(b, i, j),
        ) implies lists(after, cell(b, i, j)) by {
        if i == c && j == r {
            assert(after[p].1 == cell(b, i, j));
        } else {
            assert(earlier(i, j, c, r));
            assert(lists(before, cell(b, i, j)));
            let q = choose|k: int| 0 <= k < before.len() && (#[trigger] before[k]).1 == cell(b, i, j);
            let k = if q < p {
                q
            } else {
                q + 1
            };
            assert(after[k] == before[q]);
        }
    }
}

/// Split the hole into blocks of `SECTION_BLOCK`, ordered from its rim inward.
///
/// The blocks tile the hole's bounding box, so every pixel of the hole belongs to
/// exactly one.  The order is that of the shallowest pixel of the hole in each block,
/// ties broken top to bottom and then left to right.
pub fn section_rects(mask: &Gray8) -> (list: Vec<Section>)
    requires
        mask.wf(),
    ensures
        sections_of(*mask, list@),
{
    let b: Bounds = match mask_bounds(mask) {
        None => {
            return Vec::new();
        },
        Some(b) => b,
    };
    let ghost m = *mask;
    proof {
        lemma_bounds_inside(m, b);
        let y = choose|y: int| m.hole(b.min_x as int, y);
        assert(m.hole(b.min_x as int, y));
        assert(has_hole(m));
    }
    if b.max_x - b.min_x < SECTION_BLOCK && b.max_y - b.min_y < SECTION_BLOCK {
        let only = Section { x0: b.min_x, y0: b.min_y, x1: b.max_x + 1, y1: b.max_y + 1 };
        let mut list: Vec<Section> = Vec::new();
        list.push(only);
        proof {
            assert(cell(b, 0, 0) == only && has_cell(b, 0, 0));
            let y = choose|y: int| m.hole(b.min_x as int, y);
            assert(m.hole(b.min_x as int, y) && only.holds(b.min_x as int, y));
            assert(list@[0] == only);
            assert forall|c: int, r: int|
                has_cell(b, c, r) && touches_hole(m, #[trigger] cell(b, c, r)) implies list@.contains(
                cell(b, c, r),
            ) by {
                assert(c == 0 && r == 0);
            }
            assert(bounds_of(m, b) && blocks_in_order(m, b, list@));
        }
        return list;
    }
    let depth: Vec<u32> = mask_depth(mask);
    let mut cells: Vec<(u32, Section)> = Vec::new();
    let mut y0: usize = b.min_y;
    let mut more_rows: bool = true;
    let ghost mut r: int = 0;
    while more_rows
        invariant
            mask.wf(),
            m == *mask,
            bounds_of(m, b),
            b.min_x <= b.max_x < m.width,
            b.min_y <= b.max_y < m.height,
            depths_of(m, depth@),
            0 <= r,
            more_rows ==> y0 == b.min_y + SECTION_BLOCK * r && y0 <= b.max_y,
            !more_rows ==> b.min_y + SECTION_BLOCK * r > b.max_y,
            found(m, b, cells@, 0, r),
        decreases b.max_y + 1 - y0, more_rows as int,
    {
        let y1: usize = if b.max_y - y0 < SECTION_BLOCK {
            b.max_y + 1
        } else {
            y0 + SECTION_BLOCK
        };
        let mut x0: usize = b.min_x;
        let mut more: bool = true;
        let ghost mut c: int = 0;
        while more
            invariant
                mask.wf(),
                m == *mask,
                bounds_of(m, b),
                b.min_x <= b.max_x < m.width,
                b.min_y <= b.max_y < m.height,
                depths_of(m, depth@),
                0 <= r,
                0 <= c,
                y0 == b.min_y + SECTION_BLOCK * r,
                y0 <= b.max_y,
                y1 == cell(b, 0, r).y1,
                y0 < y1 <= b.max_y + 1,
                more ==> x0 == b.min_x + SECTION_BLOCK * c && x0 <= b.max_x,
                !more ==> b.min_x + SECTION_BLOCK * c > b.max_x,
                found(m, b, cells@, c, r),
            decreases b.max_x + 1 - x0, more as int,
        {
            let x1: usize = if b.max_x - x0 < SECTION_BLOCK {
                b.max_x + 1
            } else {
                x0 + SECTION_BLOCK
            };
            let s = Section { x0, y0, x1, y1 };
            assert(s == cell(b, c, r) && has_cell(b, c, r));
            let d: u32 = shallowest_in(mask, &depth, &s);
            let ghost before = cells@;
            if d != u32::MAX {
                proof {
                    assert forall|k: int| 0 <= k < before.len() implies (#[trigger] before[k]).1.y0
                        < s.y0 || before[k].1.y0 == s.y0 && before[k].1.x0 < s.x0 by {
                        assert(recorded(m, b, before[k], c, r));
                        let (i, j) = choose|i: int, j: int| #[trigger]
                            cell(b, i, j) == before[k].1 && has_cell(b, i, j) && earlier(i, j, c, r);
                    }
                }
                insert_in_order(&mut cells, d, s);
                proof {
                    let p = choose|p: int|
                        0 <= p <= before.len() && cells@ == #[trigger] before.insert(p, (d, s));
                    lemma_found_grows(m, b, before, cells@, p, d, c, r);
                }
            } else {
                proof {
                    lemma_found_skip(m, b, cells@, c, r, c + 1, r);
                }
            }
            if x1 > b.max_x {
                more = false;
            } else {
                x0 = x0 + SECTION_BLOCK;
            }
            proof {
                c = c + 1;
            }
        }
        if y1 > b.max_y {
            more_rows = false;
        } else {
            y0 = y0 + SECTION_BLOCK;
        }
        proof {
            lemma_found_skip(m, b, cells@, c, r, 0, r + 1);
            r = r + 1;
        }
    }
    let mut list: Vec<Section> = Vec::new();
    let mut k: usize = 0;
    while k < cells.len()
        invariant
            k <= cells@.len(),
            list@.len() == k,
            forall|i: int| 0 <= i < k ==> #[trigger] list@[i] == cells@[i].1,
        decreases cells@.len() - k,
    {
        list.push(cells[k].1);
        k += 1;
    }
    proof {
        lemma_blocks(m, b, cells@, list@, r);
    }
    list
}

/// Moving on past what holds no block with part of the hole changes nothing.
proof fn lemma_found_skip(
    m: Gray8,
    b: Bounds,
    cells: Seq<(u32, Section)>,
    c: int,
    r: int,
    c2: int,
    r2: int,
)
    requires
        found(m, b, cells, c, r),
        forall|i: int, j: int|
            has_cell(b, i, j) && earlier(i, j, c, r) ==> #[trigger] earlier(i, j, c2, r2),
        forall|i: int, j: int|
            has_cell(b, i, j) && #[trigger] earlier(i, j, c2, r2) && touches_hole(m, cell(b, i, j))
                ==> earlier(i, j, c, r),
    ensures
        found(m, b, cells, c2, r2),
{
    assert forall|k: int| 0 <= k < cells.len() implies recorded(
        m,
        b,
        #[trigger] cells[k],
        c2,
        r2,
    ) by {
        assert(recorded(m, b, cells[k], c, r));
        lemma_earlier(b, cells[k].1, c, r, c2, r2);
    }
}

/// Once every row has been walked the list is complete.
proof fn lemma_blocks(
    m: Gray8,
    b: Bounds,
    cells: Seq<(u32, Section)>,
    list: Seq<Section>,
    r: int,
)
    requires
        bounds_of(m, b),
        found(m, b, cells, 0, r),
        b.min_y + SECTION_BLOCK * r > b.max_y,
        list.len() == cells.len(),
        forall|i: int| 0 <= i < list.len() ==> #[trigger] list[i] == cells[i].1,
    ensures
        blocks_in_order(m, b, list),
{
    assert forall|i: int| 0 <= i < list.len() implies is_block(m, b, #[trigger] list[i]) by {
        assert(recorded(m, b, cells[i], 0, r));
        let (c, q) = choose|c: int, q: int| #[trigger]
            cell(b, c, q) == cells[i].1 && has_cell(b, c, q) && earlier(c, q, 0, r);
        assert(cell(b, c, q) == list[i]);
    }
    assert forall|c: int, q: int|
        has_cell(b, c, q) && touches_hole(m, #[trigger] cell(b, c, q)) implies list.contains(
        cell(b, c, q),
    ) by {
        assert(earlier(c, q, 0, r));
        assert(lists(cells, cell(b, c, q)));
        let k = choose|k: int| 0 <= k < cells.len() && (#[trigger] cells[k]).1 == cell(b, c, q);
        assert(list[k] == cells[k].1);
    }
    assert forall|i: int, j: int| 0 <= i < j < list.len() implies precedes(
        m,
        #[trigger] list[i],
        #[trigger] list[j],
    ) by {
        assert(list[i] == cells[i].1 && list[j] == cells[j].1);
        assert(recorded(m, b, cells[i], 0, r) && recorded(m, b, cells[j], 0, r));
        assert(shallowest(m, list[i], cells[i].0 as nat));
        assert(shallowest(m, list[j], cells[j].0 as nat));
    }
}

/// The block that holds a position of the bounding box.
proof fn lemma_cell_of(b: Bounds, x: int, y: int) -> (p: (int, int))
    requires
        b.min_x <= x <= b.max_x < usize::MAX,
        b.min_y <= y <= b.max_y < usize::MAX,
    ensures
        has_cell(b, p.0, p.1),
        cell(b, p.0, p.1).holds(x, y),
{
    let c = (x - b.min_x) / 256;
    let r = (y - b.min_y) / 256;
    (c, r)
}

/// Two blocks that share a position are the same.
proof fn lemma_cells_disjoint(b: Bounds, c: int, r: int, i: int, j: int, x: int, y: int)
    requires
        has_cell(b, c, r),
        has_cell(b, i, j),
        cell(b, c, r).holds(x, y),
        cell(b, i, j).holds(x, y),
    ensures
        c == i,
        r == j,
{
}

/// A section never precedes itself, and only one of two sections precedes the other.
proof fn lemma_precedes_strict(m: Gray8, s: Section, t: Section)
    requires
        precedes(m, s, t),
    ensures
        s != t,
        !precedes(m, t, s),
{
    let (d, e) = choose|d: nat, e: nat| #[trigger]
        shallowest(m, s, d) && #[trigger] shallowest(m, t, e) && keys_in_order(d, s, e, t);
    lemma_shallowest_unique(m, s);
    lemma_shallowest_unique(m, t);
}

/// A section has only one smallest depth.
proof fn lemma_shallowest_unique(m: Gray8, s: Section)
    ensures
        forall|d: nat, e: nat| #[trigger]
            shallowest(m, s, d) && #[trigger] shallowest(m, s, e) ==> d == e,
{
    assert forall|d: nat, e: nat| #[trigger]
        shallowest(m, s, d) && #[trigger] shallowest(m, s, e) implies d == e by {
        let (x, y) = choose|x: int, y: int| s.holds(x, y) && #[trigger] depth_is(m, x, y, d);
        let (u, v) = choose|x: int, y: int| s.holds(x, y) && #[trigger] depth_is(m, x, y, e);
    }
}

/// The bounding box that a list of sections was cut from.
proof fn lemma_sections_bounds(m: Gray8, list: Seq<Section>) -> (b: Bounds)
    requires
        sections_of(m, list),
        has_hole(m),
    ensures
        bounds_of(m, b),
        blocks_in_order(m, b, list),
{
    choose|b: Bounds| #[trigger] bounds_of(m, b) && blocks_in_order(m, b, list)
}

/// Every pixel of the hole lies in exactly one section.
pub proof fn law_sections_partition(m: Gray8, list: Seq<Section>, x: int, y: int) -> (i: int)
    requires
        sections_of(m, list),
        m.hole(x, y),
    ensures
        0 <= i < list.len(),
        list[i].holds(x, y),
        forall|j: int| 0 <= j < list.len() && #[trigger] list[j].holds(x, y) ==> j == i,
{
    let b = lemma_sections_bounds(m, list);
    lemma_bounds_inside(m, b);
    let (c, r) = lemma_cell_of(b, x, y);
    assert(touches_hole(m, cell(b, c, r)));
    assert(list.contains(cell(b, c, r)));
    let i = choose|i: int| 0 <= i < list.len() && list[i] == cell(b, c, r);
    assert forall|j: int| 0 <= j < list.len() && #[trigger] list[j].holds(x, y) implies j == i by {
        assert(is_block(m, b, list[j]));
        let (p, q) = choose|p: int, q: int| #[trigger]
            cell(b, p, q) == list[j] && has_cell(b, p, q);
        lemma_cells_disjoint(b, c, r, p, q, x, y);
        if i < j {
            assert(precedes(m, list[i], list[j]));
            lemma_precedes_strict(m, list[i], list[j]);
        }
        if j < i {
            assert(precedes(m, list[j], list[i]));
            lemma_precedes_strict(m, list[j], list[i]);
        }
    }
    i
}

/// No two sections share a position.
pub proof fn law_sections_disjoint(m: Gray8, list: Seq<Section>, i: int, j: int, x: int, y: int)
    requires
        sections_of(m, list),
        0 <= i < list.len(),
        0 <= j < list.len(),
        list[i].holds(x, y),
        list[j].holds(x, y),
    ensures
        i == j,
{
    let b = lemma_sections_bounds(m, list);
    assert(is_block(m, b, list[i]) && is_block(m, b, list[j]));
    let (c, r) = choose|p: int, q: int| #[trigger] cell(b, p, q) == list[i] && has_cell(b, p, q);
    let (p, q) = choose|p: int, q: int| #[trigger] cell(b, p, q) == list[j] && has_cell(b, p, q);
    lemma_cells_disjoint(b, c, r, p, q, x, y);
    if i < j {
        lemma_precedes_strict(m, list[i], list[j]);
    }
    if j < i {
        lemma_precedes_strict(m, list[j], list[i]);
    }
}

/// Every section holds part of the hole, lies inside the image and is no larger than a
/// block.
pub proof fn law_section_size(m: Gray8, list: Seq<Section>, i: int)
    requires
        sections_of(m, list),
        0 <= i < list.len(),
    ensures
        touches_hole(m, list[i]),
        list[i].x0 < list[i].x1 <= m.width,
        list[i].y0 < list[i].y1 <= m.height,
        list[i].x1 - list[i].x0 <= SECTION_BLOCK,
        list[i].y1 - list[i].y0 <= SECTION_BLOCK,
{
    let b = lemma_sections_bounds(m, list);
    assert(is_block(m, b, list[i]));
    lemma_bounds_inside(m, b);
    let (c, r) = choose|p: int, q: int| #[trigger] cell(b, p, q) == list[i] && has_cell(b, p, q);
}

/// The passes go from the rim inward: no section is shallower than an earlier one.
pub proof fn law_sections_go_inward(
    m: Gray8,
    list: Seq<Section>,
    i: int,
    j: int,
    d: nat,
    e: nat,
)
    requires
        sections_of(m, list),
        0 <= i <= j < list.len(),
        shallowest(m, list[i], d),
        shallowest(m, list[j], e),
    ensures
        d <= e,
{
    lemma_shallowest_unique(m, list[i]);
    lemma_shallowest_unique(m, list[j]);
    if i < j {
        let b = lemma_sections_bounds(m, list);
        assert(precedes(m, list[i], list[j]));
    }
}

/// The first pass touches the rim of the hole.
pub proof fn law_first_section_touches_rim(m: Gray8, list: Seq<Section>)
    requires
        m.wf(),
        sections_of(m, list),
        list.len() > 0,
    ensures
        shallowest(m, list[0], 0),
        exists|x: int, y: int| #[trigger] rim(m, x, y) && list[0].holds(x, y),
{
    let b = lemma_sections_bounds(m, list);
    let (u, v) = choose|x: int, y: int| m.hole(x, y);
    let (x, y) = law_every_hole_has_a_rim(m, u, v);
    assert(depth_is(m, x, y, 0));
    let i = law_sections_partition(m, list, x, y);
    assert(shallowest(m, list[i], 0));
    if i > 0 {
        assert(precedes(m, list[0], list[i]));
        lemma_shallowest_unique(m, list[i]);
    }
    assert(shallowest(m, list[0], 0));
    let (p, q) = choose|x: int, y: int| list[0].holds(x, y) && #[trigger] depth_is(m, x, y, 0);
    assert(rim(m, p, q) && list[0].holds(p, q));
}

/// Two lists in strict order with the same sections start alike.
proof fn lemma_same_first(m: Gray8, a: Seq<Section>, b: Seq<Section>)
    requires
        forall|i: int, j: int|
            0 <= i < j < a.len() ==> precedes(m, #[trigger] a[i], #[trigger] a[j]),
        forall|i: int, j: int|
            0 <= i < j < b.len() ==> precedes(m, #[trigger] b[i], #[trigger] b[j]),
        forall|s: Section| a.contains(s) <==> b.contains(s),
    ensures
        a == b,
    decreases a.len(),
{
    if a.len() == 0 {
        if b.len() > 0 {
            assert(b.contains(b[0]));
        }
        assert(a =~= b);
    } else {
        assert(a.contains(a[0]));
        let k = choose|k: int| 0 <= k < b.len() && b[k] == a[0];
        assert(b.contains(b[0]));
        let l = choose|l: int| 0 <= l < a.len() && a[l] == b[0];
        if k > 0 && l > 0 {
            assert(precedes(m, b[0], b[k]));
            assert(precedes(m, a[0], a[l]));
            lemma_precedes_strict(m, a[0], a[l]);
        }
        assert(a[0] == b[0]);
        let ta = a.subrange(1, a.len() as int);
        let tb = b.subrange(1, b.len() as int);
        assert forall|s: Section| ta.contains(s) <==> tb.contains(s) by {
            if ta.contains(s) {
                let i = choose|i: int| 0 <= i < ta.len() && ta[i] == s;
                assert(a[i + 1] == s);
                assert(a.contains(s));
                let j = choose|j: int| 0 <= j < b.len() && b[j] == s;
                if j == 0 {
                    assert(precedes(m, a[0], a[i + 1]));
                    lemma_precedes_strict(m, a[0], a[i + 1]);
                }
                assert(tb[j - 1] == s);
            }
            if tb.contains(s) {
                let i = choose|i: int| 0 <= i < tb.len() && tb[i] == s;
                assert(b[i + 1] == s);
                assert(b.contains(s));
                let j = choose|j: int| 0 <= j < a.len() && a[j] == s;
                if j == 0 {
                    assert(precedes(m, b[0], b[i + 1]));
                    lemma_precedes_strict(m, b[0], b[i + 1]);
                }
                assert(ta[j - 1] == s);
            }
        }
        assert forall|i: int, j: int| 0 <= i < j < ta.len() implies precedes(
            m,
            #[trigger] ta[i],
            #[trigger] ta[j],
        ) by {
            assert(precedes(m, a[i + 1], a[j + 1]));
        }
        assert forall|i: int, j: int| 0 <= i < j < tb.len() implies precedes(
            m,
            #[trigger] tb[i],
            #[trigger] tb[j],
        ) by {
            assert(precedes(m, b[i + 1], b[j + 1]));
        }
        lemma_same_first(m, ta, tb);
        assert forall|i: int| 0 <= i < a.len() implies a[i] == b[i] by {
            if i > 0 {
                assert(a[i] == ta[i - 1]);
                assert(b[i] == tb[i - 1]);
            }
        }
        assert(a.len() == ta.len() + 1);
        assert(b.len() == tb.len() + 1);
        assert(a =~= b);
    }
}

/// The sections of a mask and their order are determined by the mask.
pub proof fn law_section_order_is_deterministic(m: Gray8, a: Seq<Section>, b: Seq<Section>)
    requires
        sections_of(m, a),
        sections_of(m, b),
    ensures
        a == b,
{
    if has_hole(m) {
        let p = lemma_sections_bounds(m, a);
        let q = lemma_sections_bounds(m, b);
        lemma_bounds_unique(m, p, q);
        assert forall|s: Section| a.contains(s) <==> b.contains(s) by {
            if a.contains(s) {
                let i = choose|i: int| 0 <= i < a.len() && a[i] == s;
                assert(is_block(m, p, a[i]));
            }
            if b.contains(s) {
                let i = choose|i: int| 0 <= i < b.len() && b[i] == s;
                assert(is_block(m, p, b[i]));
            }
        }
        lemma_same_first(m, a, b);
    } else {
        assert(a =~= b);
    }
}

/// Two masks have the same hole.
pub open spec fn same_hole(m: Gray8, n: Gray8) -> bool {
    forall|x: int, y: int| #[trigger] m.hole(x, y) == n.hole(x, y)
}

proof fn lemma_same_reach(m: Gray8, n: Gray8, x: int, y: int, d: nat)
    requires
        same_hole(m, n),
    ensures
        reaches_rim(m, x, y, d) == reaches_rim(n, x, y, d),
    decreases d,
{
    assert(m.hole(x, y) == n.hole(x, y));
    assert(m.hole(x - 1, y) == n.hole(x - 1, y));
    assert(m.hole(x + 1, y) == n.hole(x + 1, y));
    assert(m.hole(x, y - 1) == n.hole(x, y - 1));
    assert(m.hole(x, y + 1) == n.hole(x, y + 1));
    if d > 0 {
        lemma_same_reach(m, n, x - 1, y, (d - 1) as nat);
        lemma_same_reach(m, n, x + 1, y, (d - 1) as nat);
        lemma_same_reach(m, n, x, y - 1, (d - 1) as nat);
        lemma_same_reach(m, n, x, y + 1, (d - 1) as nat);
    }
}

proof fn lemma_same_depth(m: Gray8, n: Gray8, x: int, y: int, d: nat)
    requires
        same_hole(m, n),
    ensures
        depth_is(m, x, y, d) == depth_is(n, x, y, d),
{
    assert forall|e: nat|
        #![trigger reaches_rim(m, x, y, e)]
        #![trigger reaches_rim(n, x, y, e)]
        reaches_rim(m, x, y, e) == reaches_rim(n, x, y, e) by {
        lemma_same_reach(m, n, x, y, e);
    }
}

proof fn lemma_same_shallowest(m: Gray8, n: Gray8, s: Section, d: nat)
    requires
        same_hole(m, n),
        shallowest(m, s, d),
    ensures
        shallowest(n, s, d),
{
    let (x, y) = choose|x: int, y: int| s.holds(x, y) && #[trigger] depth_is(m, x, y, d);
    lemma_same_depth(m, n, x, y, d);
    assert forall|x: int, y: int, e: nat|
        s.holds(x, y) && #[trigger] depth_is(n, x, y, e) implies d <= e by {
        lemma_same_depth(m, n, x, y, e);
    }
}

/// What the sections of a mask are, those of another with the same hole are.
proof fn lemma_same_sections(m: Gray8, n: Gray8, list: Seq<Section>)
    requires
        same_hole(m, n),
        sections_of(m, list),
    ensures
        sections_of(n, list),
{
    if has_hole(m) {
        let b = lemma_sections_bounds(m, list);
        let (x, y) = choose|x: int, y: int| #[trigger] m.hole(x, y);
        assert(n.hole(x, y));
        assert(bounds_of(n, b)) by {
            let v = choose|v: int| m.hole(b.min_x as int, v);
            assert(n.hole(b.min_x as int, v));
            let v = choose|v: int| m.hole(b.max_x as int, v);
            assert(n.hole(b.max_x as int, v));
            let u = choose|u: int| m.hole(u, b.min_y as int);
            assert(n.hole(u, b.min_y as int));
            let u = choose|u: int| m.hole(u, b.max_y as int);
            assert(n.hole(u, b.max_y as int));
            assert forall|x: int, y: int| #[trigger] n.hole(x, y) implies b.min_x <= x <= b.max_x
                && b.min_y <= y <= b.max_y by {
                assert(m.hole(x, y));
            }
        }
        assert forall|s: Section| #[trigger] touches_hole(m, s) == touches_hole(n, s) by {
            if touches_hole(m, s) {
                let (x, y) = choose|x: int, y: int| #[trigger] m.hole(x, y) && s.holds(x, y);
                assert(n.hole(x, y));
            }
            if touches_hole(n, s) {
                let (x, y) = choose|x: int, y: int| #[trigger] n.hole(x, y) && s.holds(x, y);
                assert(m.hole(x, y));
            }
        }
        assert(blocks_in_order(n, b, list)) by {
            assert forall|i: int| 0 <= i < list.len() implies is_block(n, b, #[trigger] list[i]) by {
                assert(is_block(m, b, list[i]));
                assert(touches_hole(m, list[i]) == touches_hole(n, list[i]));
            }
            assert forall|c: int, r: int|
                has_cell(b, c, r) && touches_hole(n, #[trigger] cell(b, c, r)) implies list.contains(
                cell(b, c, r),
            ) by {
                assert(touches_hole(m, cell(b, c, r)) == touches_hole(n, cell(b, c, r)));
            }
            assert forall|i: int, j: int| 0 <= i < j < list.len() implies precedes(
                n,
                #[trigger] list[i],
                #[trigger] list[j],
            ) by {
                assert(precedes(m, list[i], list[j]));
                let (d, e) = choose|d: nat, e: nat| #[trigger]
                    shallowest(m, list[i], d) && #[trigger] shallowest(m, list[j], e)
                        && keys_in_order(d, list[i], e, list[j]);
                lemma_same_shallowest(m, n, list[i], d);
                lemma_same_shallowest(m, n, list[j], e);
            }
        }
    } else if has_hole(n) {
        let (x, y) = choose|x: int, y: int| #[trigger] n.hole(x, y);
        assert(m.hole(x, y));
    }
}

/// The sections and their order follow from the hole alone: two masks with the same hole,
/// one rebuilt from the other, have the same list.
pub proof fn law_sections_follow_from_the_hole(m: Gray8, n: Gray8, a: Seq<Section>, b: Seq<Section>)
    requires
        same_hole(m, n),
        sections_of(m, a),
        sections_of(n, b),
    ensures
        a == b,
{
    assert(same_hole(n, m)) by {
        assert forall|x: int, y: int| #[trigger] n.hole(x, y) == m.hole(x, y) by {
            assert(m.hole(x, y) == n.hole(x, y));
        }
    }
    lemma_same_sections(n, m, b);
    law_section_order_is_deterministic(m, a, b);
}

/// In an image whose sides are at least the window's, the window centred on a section
/// holds all of it.
pub proof fn law_section_fits_window(m: Gray8, list: Seq<Section>, i: int)
    requires
        sections_of(m, list),
        0 <= i < list.len(),
        TILE_MIN <= m.width,
        TILE_MIN <= m.height,
    ensures
        ({
            let s = list[i];
            let x = origin((s.x0 + s.x1) / 2, TILE_MIN as int, m.width as int);
            let y = origin((s.y0 + s.y1) / 2, TILE_MIN as int, m.height as int);
            &&& x <= s.x0 && s.x1 <= x + TILE_MIN <= m.width
            &&& y <= s.y0 && s.y1 <= y + TILE_MIN <= m.height
        }),
{
    law_section_size(m, list, i);
}

/// Sections that are equally deep are filled row by row from the top, and every row from the
/// left.
pub proof fn law_equal_depths_go_row_by_row(
    m: Gray8,
    list: Seq<Section>,
    i: int,
    j: int,
    d: nat,
)
    requires
        sections_of(m, list),
        0 <= i < j < list.len(),
        shallowest(m, list[i], d),
        shallowest(m, list[j], d),
    ensures
        list[i].y0 <= list[j].y0,
        list[i].y0 == list[j].y0 ==> list[i].x0 < list[j].x0,
{
    let b = lemma_sections_bounds(m, list);
    assert(precedes(m, list[i], list[j]));
    lemma_shallowest_unique(m, list[i]);
    lemma_shallowest_unique(m, list[j]);
}

/// Every section lies a multiple of 256 pixels from the corner of the hole's bounding box,
/// and is 256 pixels wide and tall unless the box ends before.
pub proof fn law_sections_are_blocks_of_the_box(m: Gray8, list: Seq<Section>, b: Bounds, i: int)
    requires
        sections_of(m, list),
        bounds_of(m, b),
        0 <= i < list.len(),
        b.max_x <= usize::MAX - 256,
        b.max_y <= usize::MAX - 256,
    ensures
        ({
            let s = list[i];
            &&& (s.x0 - b.min_x) % 256 == 0 && s.x0 >= b.min_x
            &&& (s.y0 - b.min_y) % 256 == 0 && s.y0 >= b.min_y
            &&& s.x1 - s.x0 == 256 && s.x1 <= b.max_x + 1 || 0 < s.x1 - s.x0 < 256 && s.x1 == b.max_x + 1
            &&& s.y1 - s.y0 == 256 && s.y1 <= b.max_y + 1 || 0 < s.y1 - s.y0 < 256 && s.y1 == b.max_y + 1
        }),
{
    let a = lemma_sections_bounds(m, list);
    lemma_bounds_unique(m, a, b);
    assert(is_block(m, b, list[i]));
    let (c, r) = choose|p: int, q: int| #[trigger] cell(b, p, q) == list[i] && has_cell(b, p, q);
    assert(256 * c <= b.max_x && 256 * r <= b.max_y);
}

} // verus!
