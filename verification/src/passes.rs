//! Filling a large hole one section at a time.
//!
//! Every pass runs the network on a window around one section.  It masks only that
//! section, so the rest of the hole is context, and only that section is written back.

use vstd::prelude::*;

use crate::compose::{build_input, copy_of, fill_hole, pass_mask};
use crate::grid::{at, at3};
use crate::image::{reflect, lemma_reflect, Gray8, Rgb8};
use crate::sections::{cell, has_cell, is_block, law_section_size, law_sections_disjoint, law_sections_partition, section_rects, sections_of, Section, SECTION_BLOCK};
use crate::window::{balanced, bounds_of, crop_rgb, origin, pad_to_stride, padding, window_origin, Bounds, Tile, TILE_MIN};

verus! {

/// The side of the window of every pass: the usual one, or as much as the image has.
pub open spec fn pass_side(width: int, height: int) -> int {
    let short = if width < height {
        width
    } else {
        height
    };
    if short < 1 {
        1
    } else if short < TILE_MIN {
        short
    } else {
        TILE_MIN as int
    }
}

/// The window of the pass over a section, centred on it as far as the image allows.
pub open spec fn window_of(s: Section, side: int, width: int, height: int) -> Tile {
    Tile {
        x0: origin((s.x0 + s.x1) / 2, side, width) as usize,
        y0: origin((s.y0 + s.y1) / 2, side, height) as usize,
        side: side as usize,
        bbox_w: (s.x1 - s.x0) as usize,
        bbox_h: (s.y1 - s.y0) as usize,
    }
}

/// Whether the sections of a mask fit into the windows of their passes.
pub open spec fn sections_fit(m: Gray8) -> bool {
    let side = pass_side(m.width as int, m.height as int);
    forall|b: Bounds| #[trigger]
        bounds_of(m, b) ==> (b.wide() <= side || SECTION_BLOCK <= side) && (b.tall() <= side
            || SECTION_BLOCK <= side)
}

/// One value of the network's input for the pass over section `s`: the image so far,
/// with the part of the hole inside the section blacked out and marked.
pub open spec fn pass_value(
    working: Rgb8,
    mask: Gray8,
    win: Tile,
    s: Section,
    c: int,
    y: int,
    x: int,
) -> u8 {
    let gx = win.x0 + reflect(x, win.side as int);
    let gy = win.y0 + reflect(y, win.side as int);
    let hole = s.holds(gx, gy) && mask.hole(gx, gy);
    if c < 3 {
        if hole {
            0
        } else {
            working.sample(gx, gy, c)
        }
    } else {
        if hole {
            255
        } else {
            0
        }
    }
}

/// What the network is asked in one pass.
pub struct Pass {
    pub win: Tile,
    /// The four input planes, a byte `b` standing for `b / 255`.
    pub input: Vec<u8>,
}

/// A hole in the course of being filled: the sections `0..done` have been.
pub struct SectionRun<'a> {
    pub mask: &'a Gray8,
    pub sections: Vec<Section>,
    pub done: usize,
    pub side: usize,
    pub pad: usize,
    /// The image as the passes read and write it.
    pub working: Rgb8,
    /// The image before the first pass.
    pub source: Ghost<Rgb8>,
    /// The planes the network answered in the passes so far.
    pub answers: Ghost<Seq<Seq<u8>>>,
}

impl<'a> SectionRun<'a> {
    /// The window of pass `i`.
    pub open spec fn window(&self, i: int) -> Tile {
        window_of(
            self.sections@[i],
            self.side as int,
            self.mask.width as int,
            self.mask.height as int,
        )
    }

    /// The edge of the planes the network is given and answers with.
    pub open spec fn edge(&self) -> int {
        self.side + self.pad
    }

    /// What the network answered in pass `i` for a pixel of the image.
    pub open spec fn answered(&self, i: int, x: int, y: int, c: int) -> u8 {
        at3(
            self.answers@[i],
            self.edge(),
            self.edge(),
            c,
            y - self.window(i).y0,
            x - self.window(i).x0,
        )
    }

    /// Whether a pixel has been decided by one of the passes so far.
    pub open spec fn decided(&self, x: int, y: int) -> bool {
        self.mask.hole(x, y) && exists|i: int|
            0 <= i < self.done && (#[trigger] self.sections@[i]).holds(x, y)
    }

    /// The shapes agree, and every window holds its section.
    pub open spec fn shaped(&self) -> bool {
        &&& self.mask.wf()
        &&& self.working.wf()
        &&& self.source@.wf()
        &&& self.working.width == self.mask.width
        &&& self.working.height == self.mask.height
        &&& self.source@.width == self.mask.width
        &&& self.source@.height == self.mask.height
        &&& sections_of(*self.mask, self.sections@)
        &&& self.done <= self.sections@.len()
        &&& self.side == pass_side(self.mask.width as int, self.mask.height as int)
        &&& self.pad == padding(self.side as int)
        &&& self.pad < 8
        &&& self.answers@.len() == self.done
        &&& forall|i: int|
            0 <= i < self.sections@.len() ==> {
                let s = #[trigger] self.sections@[i];
                let w = self.window(i);
                &&& w.within(self.mask.width as int, self.mask.height as int)
                &&& w.x0 <= s.x0 < s.x1 <= w.x0 + w.side
                &&& w.y0 <= s.y0 < s.y1 <= w.y0 + w.side
            }
    }

    /// The image holds, in the part of the hole that has been filled, the answer of the
    /// pass that owns each pixel, and everywhere else what it held before.
    pub open spec fn filled(&self) -> bool {
        &&& forall|i: int, x: int, y: int, c: int|
            0 <= i < self.done && self.sections@[i].holds(x, y) && self.mask.hole(x, y) && 0 <= c < 3
                ==> self.working.sample(x, y, c) == #[trigger] self.answered(i, x, y, c)
        &&& forall|x: int, y: int, c: int|
            self.mask.inside(x, y) && 0 <= c < 3 && !self.decided(x, y)
                ==> #[trigger] self.working.sample(x, y, c) == self.source@.sample(x, y, c)
    }

    pub open spec fn wf(&self) -> bool {
        self.shaped() && self.filled()
    }

    /// Split the hole into sections and get ready to fill the first.
    pub fn begin(src: &Rgb8, mask: &'a Gray8) -> (run: SectionRun<'a>)
        requires
            src.wf(),
            mask.wf(),
            src.width == mask.width,
            src.height == mask.height,
            sections_fit(*mask),
        ensures
            run.wf(),
            *run.mask == *mask,
            run.done == 0,
            run.source@ == *src,
            run.working.data@ == src.data@,
    {
        let sections: Vec<Section> = section_rects(mask);
        let short: usize = if mask.width < mask.height {
            mask.width
        } else {
            mask.height
        };
        let side: usize = if short < 1 {
            1
        } else if short < TILE_MIN {
            short
        } else {
            TILE_MIN
        };
        let pad: usize = pad_to_stride(side);
        let run = SectionRun {
            mask,
            sections,
            done: 0,
            side,
            pad,
            working: copy_of(src),
            source: Ghost(*src),
            answers: Ghost(Seq::empty()),
        };
        proof {
            assert forall|i: int| 0 <= i < run.sections@.len() implies ({
                let s = #[trigger] run.sections@[i];
                let w = run.window(i);
                &&& w.within(run.mask.width as int, run.mask.height as int)
                &&& w.x0 <= s.x0 < s.x1 <= w.x0 + w.side
                &&& w.y0 <= s.y0 < s.y1 <= w.y0 + w.side
            }) by {
                lemma_section_in_window(*mask, run.sections@, i);
            }
            assert(run.shaped());
            assert(run.filled());
        }
        run
    }

    /// What to ask the network next, until every section has been filled.
    pub fn next_pass(&self) -> (res: Option<Pass>)
        requires
            self.wf(),
        ensures
            res is None <==> self.done == self.sections@.len(),
            res matches Some(p) ==> {
                &&& p.win == self.window(self.done as int)
                &&& is_around(*self.mask, self.sections@[self.done as int], p.win)
                &&& p.input@.len() == 4 * self.edge() * self.edge()
                &&& forall|c: int, y: int, x: int|
                    0 <= c < 4 && 0 <= y < self.edge() && 0 <= x < self.edge() ==> #[trigger] at3(
                        p.input@,
                        self.edge(),
                        self.edge(),
                        c,
                        y,
                        x,
                    ) == pass_value(
                        self.working,
                        *self.mask,
                        p.win,
                        self.sections@[self.done as int],
                        c,
                        y,
                        x,
                    )
            },
    {
        if self.done == self.sections.len() {
            return None;
        }
        let s: Section = self.sections[self.done];
        let win = self.window_at(self.done);
        proof {
            law_pass_window_is_in_the_middle(*self, self.done as int);
        }
        let sub_src: Rgb8 = crop_rgb(&self.working, &win);
        let sub_mask: Gray8 = pass_mask(self.mask, &win, &s);
        let ghost edge = self.edge();
        proof {
            assert(edge <= 520);
            assert(4 * edge * edge <= 4 * 520 * 520) by (nonlinear_arith)
                requires
                    0 <= edge <= 520,
            ;
        }
        let input: Vec<u8> = build_input(&sub_src, &sub_mask, self.pad, self.pad);
        proof {
            assert forall|c: int, y: int, x: int|
                0 <= c < 4 && 0 <= y < edge && 0 <= x < edge implies #[trigger] at3(
                input@,
                edge,
                edge,
                c,
                y,
                x,
            ) == pass_value(self.working, *self.mask, win, s, c, y, x) by {
                let n = win.side as int;
                let u = reflect(x, n);
                let v = reflect(y, n);
                lemma_reflect(x, n);
                lemma_reflect(y, n);
                assert(at3(input@, edge, edge, c, y, x) == crate::compose::input_value(
                    sub_src,
                    sub_mask,
                    c,
                    y,
                    x,
                ));
                assert(at(sub_mask.data@, n, u, v) == if s.holds(win.x0 + u, win.y0 + v) {
                    at(self.mask.data@, self.mask.width as int, win.x0 + u, win.y0 + v)
                } else {
                    0
                });
                if c < 3 {
                    assert(sub_src.sample(u, v, c) == self.working.sample(win.x0 + u, win.y0 + v, c));
                }
            }
        }
        Some(Pass { win, input })
    }

    /// The window of one of the passes.
    fn window_at(&self, i: usize) -> (win: Tile)
        requires
            self.shaped(),
            i < self.sections@.len(),
        ensures
            win == self.window(i as int),
            win.within(self.mask.width as int, self.mask.height as int),
    {
        let s: Section = self.sections[i];
        let cx: usize = s.x0 + (s.x1 - s.x0) / 2;
        let cy: usize = s.y0 + (s.y1 - s.y0) / 2;
        assert(cx == (s.x0 + s.x1) / 2 && cy == (s.y0 + s.y1) / 2);
        Tile {
            x0: window_origin(cx, self.side, self.mask.width),
            y0: window_origin(cy, self.side, self.mask.height),
            side: self.side,
            bbox_w: s.x1 - s.x0,
            bbox_h: s.y1 - s.y0,
        }
    }

    /// Take the network's answer to the current pass and move on to the next.
    pub fn absorb(&mut self, planes: &Vec<u8>)
        requires
            old(self).wf(),
            old(self).done < old(self).sections@.len(),
            planes@.len() == 3 * old(self).edge() * old(self).edge(),
        ensures
            final(self).wf(),
            final(self).mask == old(self).mask,
            final(self).sections == old(self).sections,
            final(self).source == old(self).source,
            final(self).done == old(self).done + 1,
            final(self).answers@ == old(self).answers@.push(planes@),
    {
        let i: usize = self.done;
        let ghost before = *self;
        let s: Section = self.sections[i];
        let win = self.window_at(i);
        fill_hole(
            &mut self.working,
            self.mask,
            &s,
            win.x0,
            win.y0,
            planes,
            self.side + self.pad,
            self.side + self.pad,
        );
        assert(i < self.sections.len());
        self.done = i + 1;
        self.answers = Ghost(self.answers@.push(planes@));
        proof {
            assert(self.shaped()) by {
                assert forall|k: int| 0 <= k < self.sections@.len() implies ({
                    let s = #[trigger] self.sections@[k];
                    let w = self.window(k);
                    &&& w.within(self.mask.width as int, self.mask.height as int)
                    &&& w.x0 <= s.x0 < s.x1 <= w.x0 + w.side
                    &&& w.y0 <= s.y0 < s.y1 <= w.y0 + w.side
                }) by {
                    assert(self.window(k) == before.window(k));
                }
            }
            assert forall|k: int, x: int, y: int, c: int|
                0 <= k < self.done && self.sections@[k].holds(x, y) && self.mask.hole(x, y) && 0 <= c
                    < 3 implies self.working.sample(x, y, c) == #[trigger] self.answered(
                k,
                x,
                y,
                c,
            ) by {
                assert(self.window(k) == before.window(k));
                if k < i {
                    if s.holds(x, y) {
                        law_sections_disjoint(*self.mask, self.sections@, k, i as int, x, y);
                    }
                    assert(before.working.sample(x, y, c) == before.answered(k, x, y, c));
                }
            }
            assert forall|x: int, y: int, c: int|
                self.mask.inside(x, y) && 0 <= c < 3 && !self.decided(x, y) implies #[trigger] self.working.sample(
                x,
                y,
                c,
            ) == self.source@.sample(x, y, c) by {
                if self.mask.hole(x, y) {
                    assert(!s.holds(x, y)) by {
                        if s.holds(x, y) {
                            assert(self.sections@[i as int].holds(x, y));
                        }
                    }
                    assert(!before.decided(x, y)) by {
                        if before.decided(x, y) {
                            let k = choose|k: int|
                                0 <= k < before.done && (#[trigger] before.sections@[k]).holds(x, y);
                            assert(self.sections@[k].holds(x, y));
                        }
                    }
                }
            }
        }
    }

    /// The image once every section has been filled.
    pub fn finish(self) -> (img: Rgb8)
        requires
            self.wf(),
            self.done == self.sections@.len(),
        ensures
            img == self.working,
    {
        self.working
    }
}

/// The window of a pass lies inside the image and holds its section.
proof fn lemma_section_in_window(m: Gray8, list: Seq<Section>, i: int)
    requires
        sections_of(m, list),
        sections_fit(m),
        0 <= i < list.len(),
    ensures
        ({
            let s = list[i];
            let w = window_of(s, pass_side(m.width as int, m.height as int), m.width as int, m.height as int);
            &&& w.within(m.width as int, m.height as int)
            &&& w.x0 <= s.x0 < s.x1 <= w.x0 + w.side
            &&& w.y0 <= s.y0 < s.y1 <= w.y0 + w.side
        }),
{
    law_section_size(m, list, i);
    let b = choose|b: Bounds| #[trigger]
        bounds_of(m, b) && crate::sections::blocks_in_order(m, b, list);
    assert(is_block(m, b, list[i]));
    let (c, r) = choose|c: int, r: int| #[trigger] cell(b, c, r) == list[i] && has_cell(b, c, r);
    crate::window::lemma_bounds_inside(m, b);
}

/// A window is 512 long, or as long as the shorter side of the image where that is less,
/// lies inside the image, holds a section, and shows as much on one side of it as on the
/// other, to a pixel, unless the image ends before.
pub open spec fn is_around(m: Gray8, s: Section, t: Tile) -> bool {
    &&& t.side <= 512
    &&& t.side < 512 ==> t.side == m.width || t.side == m.height
    &&& t.x0 <= s.x0 && s.x1 <= t.x0 + t.side <= m.width
    &&& t.y0 <= s.y0 && s.y1 <= t.y0 + t.side <= m.height
    &&& balanced(s.x0 as int, s.x1 as int, t.x0 as int, t.side as int, m.width as int)
    &&& balanced(s.y0 as int, s.y1 as int, t.y0 as int, t.side as int, m.height as int)
}

/// The window of every pass is placed around its section.
pub proof fn law_pass_window_is_in_the_middle(run: SectionRun, i: int)
    requires
        run.shaped(),
        0 <= i < run.sections@.len(),
    ensures
        is_around(*run.mask, run.sections@[i], run.window(i)),
{
    let s = run.sections@[i];
    let w = run.window(i);
    assert(w.x0 <= s.x0 < s.x1 <= w.x0 + w.side);
    assert(w.y0 <= s.y0 < s.y1 <= w.y0 + w.side);
}

/// An image at least as large as a block on both sides has room for every section.
pub proof fn law_large_images_fit(m: Gray8)
    requires
        m.width >= SECTION_BLOCK,
        m.height >= SECTION_BLOCK,
    ensures
        sections_fit(m),
{
}

/// Once every section has been filled, every pixel of the hole holds the answer of the
/// one pass that owns it, and every other pixel is as it was.
pub proof fn law_every_pixel_is_decided_once(run: SectionRun, x: int, y: int, c: int) -> (i: int)
    requires
        run.wf(),
        run.done == run.sections@.len(),
        run.mask.inside(x, y),
        0 <= c < 3,
    ensures
        run.mask.hole(x, y) ==> {
            &&& 0 <= i < run.sections@.len()
            &&& run.sections@[i].holds(x, y)
            &&& forall|j: int|
                0 <= j < run.sections@.len() && (#[trigger] run.sections@[j]).holds(x, y) ==> j == i
            &&& run.working.sample(x, y, c) == run.answered(i, x, y, c)
        },
        !run.mask.hole(x, y) ==> run.working.sample(x, y, c) == run.source@.sample(x, y, c),
{
    if run.mask.hole(x, y) {
        let i = law_sections_partition(*run.mask, run.sections@, x, y);
        assert(run.working.sample(x, y, c) == run.answered(i, x, y, c));
        i
    } else {
        assert(!run.decided(x, y));
        0
    }
}

/// The unfilled part of the hole only shrinks: what a pass has decided stays decided, and
/// keeps its value in every later pass.
pub proof fn law_fill_is_monotone(before: SectionRun, after: SectionRun, x: int, y: int, c: int)
    requires
        before.wf(),
        after.wf(),
        before.mask == after.mask,
        before.sections == after.sections,
        before.done <= after.done,
        forall|k: int| 0 <= k < before.done ==> before.answers@[k] == #[trigger] after.answers@[k],
        before.decided(x, y),
        0 <= c < 3,
    ensures
        after.decided(x, y),
        after.working.sample(x, y, c) == before.working.sample(x, y, c),
{
    let i = choose|i: int| 0 <= i < before.done && (#[trigger] before.sections@[i]).holds(x, y);
    assert(after.sections@[i].holds(x, y));
    assert(before.window(i) == after.window(i));
    assert(before.working.sample(x, y, c) == before.answered(i, x, y, c));
    assert(after.working.sample(x, y, c) == after.answered(i, x, y, c));
}

/// Every pass makes progress: it decides at least one pixel that no pass before it did.
pub proof fn law_every_pass_makes_progress(run: SectionRun) -> (p: (int, int))
    requires
        run.wf(),
        run.done < run.sections@.len(),
    ensures
        run.mask.hole(p.0, p.1),
        run.sections@[run.done as int].holds(p.0, p.1),
        !run.decided(p.0, p.1),
{
    let m = *run.mask;
    let i = run.done as int;
    law_section_size(m, run.sections@, i);
    let s = run.sections@[i];
    let (x, y) = choose|x: int, y: int| #[trigger] m.hole(x, y) && s.holds(x, y);
    assert(!run.decided(x, y)) by {
        if run.decided(x, y) {
            let k = choose|k: int| 0 <= k < run.done && (#[trigger] run.sections@[k]).holds(x, y);
            law_sections_disjoint(m, run.sections@, k, i, x, y);
        }
    }
    (x, y)
}

/// The part of the window that a pass shows is the part of the image that it covers: where
/// the last plane holds 0, the other three hold the image, which the pass leaves as it is;
/// where it holds 255, they are black, the mask is set, and the image takes over the answer
/// at the same place.
pub proof fn law_a_pass_writes_where_it_asked(
    before: SectionRun,
    after: SectionRun,
    input: Seq<u8>,
    planes: Seq<u8>,
    u: int,
    v: int,
    c: int,
)
    requires
        before.wf(),
        after.wf(),
        before.mask == after.mask,
        before.sections == after.sections,
        before.source == after.source,
        before.done < before.sections@.len(),
        after.done == before.done + 1,
        after.answers@ == before.answers@.push(planes),
        forall|c: int, y: int, x: int|
            0 <= c < 4 && 0 <= y < before.edge() && 0 <= x < before.edge() ==> #[trigger] at3(
                input,
                before.edge(),
                before.edge(),
                c,
                y,
                x,
            ) == pass_value(
                before.working,
                *before.mask,
                before.window(before.done as int),
                before.sections@[before.done as int],
                c,
                y,
                x,
            ),
        0 <= u < before.side,
        0 <= v < before.side,
        0 <= c < 3,
    ensures
        ({
            let win = before.window(before.done as int);
            let s = before.sections@[before.done as int];
            let e = before.side + before.pad;
            let x = win.x0 + u;
            let y = win.y0 + v;
            let byte = before.mask.data@[y * before.mask.width + x];
            let old_value = before.working.data@[(y * before.mask.width + x) * 3 + c];
            let new_value = after.working.data@[(y * before.mask.width + x) * 3 + c];
            let shown = input[(c * e + v) * e + u];
            let marked = input[(3 * e + v) * e + u];
            if byte != 0 && s.x0 <= x < s.x1 && s.y0 <= y < s.y1 {
                marked == 255 && shown == 0 && new_value == planes[(c * e + v) * e + u]
            } else {
                marked == 0 && shown == old_value && new_value == old_value
            }
        }),
{
    let i = before.done as int;
    let win = before.window(i);
    let s = before.sections@[i];
    let x = win.x0 + u;
    let y = win.y0 + v;
    let m = *before.mask;
    lemma_reflect(u, before.side as int);
    lemma_reflect(v, before.side as int);
    assert(at3(input, before.edge(), before.edge(), c, v, u) == pass_value(before.working, m, win, s, c, v, u));
    assert(at3(input, before.edge(), before.edge(), 3, v, u) == pass_value(before.working, m, win, s, 3, v, u));
    assert(after.window(i) == win);
    assert(after.sections@[i] == s);
    if m.hole(x, y) && s.holds(x, y) {
        assert(after.working.sample(x, y, c) == after.answered(i, x, y, c));
    } else if before.decided(x, y) {
        law_fill_is_monotone(before, after, x, y, c);
    } else {
        assert(!after.decided(x, y)) by {
            if after.decided(x, y) {
                let k = choose|k: int| 0 <= k < after.done && (#[trigger] after.sections@[k]).holds(x, y);
                assert(before.sections@[k].holds(x, y));
            }
        }
        assert(before.working.sample(x, y, c) == before.source@.sample(x, y, c));
        assert(after.working.sample(x, y, c) == after.source@.sample(x, y, c));
    }
}

} // verus!
