//! What the network is given, and what is taken from its answer.

use vstd::prelude::*;

use crate::grid::{at, at3, lemma_filled3, lemma_place, lemma_place3, lemma_position};
use crate::image::{law_a_line_is_mirrored_at_both_ends, reflect, reflect_index, lemma_reflect, Gray8, Rgb8};
use crate::sections::Section;
use crate::window::{crop_gray, crop_gray_of, crop_rgb_of, Tile};

verus! {

/// One value of the network's input, as the byte that stands for it: the colour where
/// the image is known and 0 in the hole, and in the last plane 255 for the hole and 0
/// elsewhere.  Past the image its rows and columns are mirrored.
pub open spec fn input_value(img: Rgb8, mask: Gray8, c: int, y: int, x: int) -> u8 {
    let u = reflect(x, img.width as int);
    let v = reflect(y, img.height as int);
    if c < 3 {
        if mask.hole(u, v) {
            0
        } else {
            img.sample(u, v, c)
        }
    } else {
        if mask.hole(u, v) {
            255
        } else {
            0
        }
    }
}

/// Build the four planes of the network's input: colour with the hole blacked out, then
/// the hole itself.  A byte `b` stands for the value `b / 255`.
pub fn build_input(img: &Rgb8, mask: &Gray8, pad_h: usize, pad_w: usize) -> (data: Vec<u8>)
    requires
        img.wf(),
        mask.wf(),
        mask.width == img.width,
        mask.height == img.height,
        img.width == 0 ==> pad_w == 0,
        img.height == 0 ==> pad_h == 0,
        4 * (img.height + pad_h) * (img.width + pad_w) <= usize::MAX,
        img.height + pad_h <= isize::MAX,
        img.width + pad_w <= isize::MAX,
    ensures
        data@.len() == 4 * (img.height + pad_h) * (img.width + pad_w),
        forall|c: int, y: int, x: int|
            0 <= c < 4 && 0 <= y < img.height + pad_h && 0 <= x < img.width + pad_w
                ==> #[trigger] at3(
                data@,
                img.height + pad_h,
                img.width + pad_w,
                c,
                y,
                x,
            ) == input_value(*img, *mask, c, y, x),
{
    let oh: usize = img.height + pad_h;
    let ow: usize = img.width + pad_w;
    let ghost rows = oh as int;
    let ghost cols = ow as int;
    let ghost value = |c: int, y: int, x: int| input_value(*img, *mask, c, y, x);
    let mut data: Vec<u8> = Vec::new();
    let mut c: usize = 0;
    assert(0 * rows * cols == 0) by (nonlinear_arith);
    while c < 4
        invariant
            img.wf(),
            mask.wf(),
            mask.width == img.width,
            mask.height == img.height,
            img.width == 0 ==> ow == 0,
            img.height == 0 ==> oh == 0,
            oh <= isize::MAX,
            ow <= isize::MAX,
            rows == oh,
            cols == ow,
            value == (|c: int, y: int, x: int| input_value(*img, *mask, c, y, x)),
            c <= 4,
            data@.len() == c * rows * cols,
            forall|k: int|
                0 <= k < data@.len() ==> #[trigger] data@[k] == value(
                    k / cols / rows,
                    k / cols % rows,
                    k % cols,
                ),
        decreases 4 - c,
    {
        let mut y: usize = 0;
        while y < oh
            invariant
                img.wf(),
                mask.wf(),
                mask.width == img.width,
                mask.height == img.height,
                img.width == 0 ==> ow == 0,
                img.height == 0 ==> oh == 0,
                oh <= isize::MAX,
                ow <= isize::MAX,
                rows == oh,
                cols == ow,
                value == (|c: int, y: int, x: int| input_value(*img, *mask, c, y, x)),
                c < 4,
                y <= oh,
                data@.len() == (c * rows + y) * cols,
                forall|k: int|
                    0 <= k < data@.len() ==> #[trigger] data@[k] == value(
                        k / cols / rows,
                        k / cols % rows,
                        k % cols,
                    ),
            decreases oh - y,
        {
            let v: usize = reflect_index(y as isize, img.height);
            let mut x: usize = 0;
            while x < ow
                invariant
                    img.wf(),
                    mask.wf(),
                    mask.width == img.width,
                    mask.height == img.height,
                    img.width == 0 ==> ow == 0,
                    img.height == 0 ==> oh == 0,
                    ow <= isize::MAX,
                    rows == oh,
                    cols == ow,
                    value == (|c: int, y: int, x: int| input_value(*img, *mask, c, y, x)),
                    c < 4,
                    y < oh,
                    x <= ow,
                    v == reflect(y as int, img.height as int),
                    v < img.height,
                    data@.len() == (c * rows + y) * cols + x,
                    forall|k: int|
                        0 <= k < data@.len() ==> #[trigger] data@[k] == value(
                            k / cols / rows,
                            k / cols % rows,
                            k % cols,
                        ),
                decreases ow - x,
            {
                let u: usize = reflect_index(x as isize, img.width);
                proof {
                    lemma_place(img.width as int, img.height as int, u as int, v as int);
                    lemma_place3(4, rows, cols, c as int, y as int, x as int);
                }
                let o: usize = v * img.width + u;
                let hole: bool = mask.data[o] > 0;
                assert(hole == mask.hole(u as int, v as int));
                let b: u8 = if c < 3 {
                    if hole {
                        0
                    } else {
                        img.data[o * 3 + c]
                    }
                } else {
                    if hole {
                        255
                    } else {
                        0
                    }
                };
                data.push(b);
                x += 1;
            }
            assert((c * rows + (y + 1)) * cols == (c * rows + y) * cols + cols) by (nonlinear_arith);
            y += 1;
        }
        assert((c * rows + rows) * cols == (c + 1) * rows * cols) by (nonlinear_arith);
        c += 1;
    }
    proof {
        lemma_filled3(data@, 4, rows, cols, value);
    }
    data
}

/// Replace the pixels of the hole inside `part` by the network's answer, and nothing
/// else.
pub fn fill_hole(
    img: &mut Rgb8,
    mask: &Gray8,
    part: &Section,
    x0: usize,
    y0: usize,
    planes: &Vec<u8>,
    rows: usize,
    stride: usize,
)
    requires
        old(img).wf(),
        mask.wf(),
        mask.width == old(img).width,
        mask.height == old(img).height,
        x0 <= part.x0 <= part.x1 <= mask.width,
        y0 <= part.y0 <= part.y1 <= mask.height,
        part.x1 - x0 <= stride,
        part.y1 - y0 <= rows,
        planes@.len() == 3 * rows * stride,
    ensures
        final(img).wf(),
        final(img).width == old(img).width,
        final(img).height == old(img).height,
        forall|x: int, y: int, c: int|
            mask.inside(x, y) && 0 <= c < 3 ==> #[trigger] final(img).sample(x, y, c)
                == if part.holds(x, y) && mask.hole(x, y) {
                at3(planes@, rows as int, stride as int, c, y - y0, x - x0)
            } else {
                old(img).sample(x, y, c)
            },
{
    let width: usize = img.width;
    let ghost before = *img;
    let ghost w = width as int;
    let ghost h = img.height as int;
    assert(planes.len() == 3 * rows * stride);
    let mut y: usize = part.y0;
    while y < part.y1
        invariant
            img.wf(),
            mask.wf(),
            img.width == width,
            img.height == before.height,
            before.width == width,
            mask.width == width,
            mask.height == before.height,
            w == width,
            h == before.height,
            x0 <= part.x0 <= part.x1 <= mask.width,
            y0 <= part.y0 <= part.y1 <= mask.height,
            part.x1 - x0 <= stride,
            part.y1 - y0 <= rows,
            planes.len() == 3 * rows * stride,
            part.y0 <= y <= part.y1,
            forall|u: int, v: int, c: int|
                mask.inside(u, v) && 0 <= c < 3 ==> #[trigger] img.sample(u, v, c)
                    == if part.holds(u, v) && mask.hole(u, v) && v < y {
                    at3(planes@, rows as int, stride as int, c, v - y0, u - x0)
                } else {
                    before.sample(u, v, c)
                },
        decreases part.y1 - y,
    {
        let mut x: usize = part.x0;
        while x < part.x1
            invariant
                img.wf(),
                mask.wf(),
                img.width == width,
                img.height == before.height,
                before.width == width,
                mask.width == width,
                mask.height == before.height,
                w == width,
                h == before.height,
                x0 <= part.x0 <= part.x1 <= mask.width,
                y0 <= part.y0 <= part.y1 <= mask.height,
                part.x1 - x0 <= stride,
                part.y1 - y0 <= rows,
                planes.len() == 3 * rows * stride,
                part.y0 <= y < part.y1,
                part.x0 <= x <= part.x1,
                forall|u: int, v: int, c: int|
                    mask.inside(u, v) && 0 <= c < 3 ==> #[trigger] img.sample(u, v, c)
                        == if part.holds(u, v) && mask.hole(u, v) && (v < y || v == y && u < x) {
                        at3(planes@, rows as int, stride as int, c, v - y0, u - x0)
                    } else {
                        before.sample(u, v, c)
                    },
            decreases part.x1 - x,
        {
            proof {
                lemma_place(w, h, x as int, y as int);
                lemma_place3(3, rows as int, stride as int, 0, y - y0, x - x0);
                lemma_place3(3, rows as int, stride as int, 1, y - y0, x - x0);
                lemma_place3(3, rows as int, stride as int, 2, y - y0, x - x0);
            }
            let i: usize = y * width + x;
            if mask.data[i] > 0 {
                let ghost data0 = img.data@;
                let ghost img0 = *img;
                let pi: usize = (y - y0) * stride + (x - x0);
                let plane: usize = rows * stride;
                let o: usize = i * 3;
                img.data.set(o, planes[pi]);
                img.data.set(o + 1, planes[plane + pi]);
                img.data.set(o + 2, planes[2 * plane + pi]);
                proof {
                    assert forall|u: int, v: int, c: int|
                        mask.inside(u, v) && 0 <= c < 3 && !(u == x && v == y) implies #[trigger] img.sample(
                        u,
                        v,
                        c,
                    ) == img0.sample(u, v, c) by {
                        lemma_place(w, h, u, v);
                        lemma_position(w, u, v);
                        lemma_position(w, x as int, y as int);
                    }
                }
            }
            x += 1;
        }
        y += 1;
    }
}

/// `out` is `src` with its hole filled from the planes of a pass over the whole image.
pub open spec fn composite_of(
    src: Rgb8,
    mask: Gray8,
    planes: Seq<u8>,
    pad_h: int,
    pad_w: int,
    out: Rgb8,
) -> bool {
    &&& out.wf()
    &&& out.width == src.width
    &&& out.height == src.height
    &&& forall|x: int, y: int, c: int|
        src.inside(x, y) && 0 <= c < 3 ==> #[trigger] out.sample(x, y, c) == if mask.hole(x, y) {
            at3(planes, src.height + pad_h, src.width + pad_w, c, y, x)
        } else {
            src.sample(x, y, c)
        }
}

/// `out` is `src` with the part of its hole inside a window filled from the planes of a
/// pass over that window.
pub open spec fn composite_tile_of(
    src: Rgb8,
    mask: Gray8,
    t: Tile,
    planes: Seq<u8>,
    pad: int,
    out: Rgb8,
) -> bool {
    &&& out.wf()
    &&& out.width == src.width
    &&& out.height == src.height
    &&& forall|x: int, y: int, c: int|
        src.inside(x, y) && 0 <= c < 3 ==> #[trigger] out.sample(x, y, c) == if t.covers(x, y)
            && mask.hole(x, y) {
            at3(planes, t.side + pad, t.side + pad, c, y - t.y0, x - t.x0)
        } else {
            src.sample(x, y, c)
        }
}

/// The image after a pass over all of it: the network's answer in the hole, every other
/// pixel as it was.
pub fn composite(src: &Rgb8, mask: &Gray8, planes: &Vec<u8>, pad_h: usize, pad_w: usize) -> (out:
    Rgb8)
    requires
        src.wf(),
        mask.wf(),
        mask.width == src.width,
        mask.height == src.height,
        src.height + pad_h <= usize::MAX,
        src.width + pad_w <= usize::MAX,
        planes@.len() == 3 * (src.height + pad_h) * (src.width + pad_w),
    ensures
        composite_of(*src, *mask, planes@, pad_h as int, pad_w as int, out),
{
    let mut out = copy_of(src);
    let all = Section { x0: 0, y0: 0, x1: src.width, y1: src.height };
    fill_hole(&mut out, mask, &all, 0, 0, planes, src.height + pad_h, src.width + pad_w);
    out
}

/// The image after a pass over one window of it: the network's answer where the window
/// covers the hole, every other pixel as it was.
pub fn composite_tile(src: &Rgb8, mask: &Gray8, t: &Tile, planes: &Vec<u8>, pad: usize) -> (out:
    Rgb8)
    requires
        src.wf(),
        mask.wf(),
        mask.width == src.width,
        mask.height == src.height,
        t.within(src.width as int, src.height as int),
        t.side + pad <= usize::MAX,
        planes@.len() == 3 * (t.side + pad) * (t.side + pad),
    ensures
        composite_tile_of(*src, *mask, *t, planes@, pad as int, out),
{
    let mut out = copy_of(src);
    let part = Section { x0: t.x0, y0: t.y0, x1: t.x0 + t.side, y1: t.y0 + t.side };
    fill_hole(&mut out, mask, &part, t.x0, t.y0, planes, t.side + pad, t.side + pad);
    out
}

/// The same image in a buffer of its own.
pub fn copy_of(src: &Rgb8) -> (out: Rgb8)
    requires
        src.wf(),
    ensures
        out.wf(),
        out.width == src.width,
        out.height == src.height,
        out.data@ == src.data@,
{
    let mut data: Vec<u8> = Vec::new();
    let mut i: usize = 0;
    while i < src.data.len()
        invariant
            i <= src.data@.len(),
            data@.len() == i,
            forall|k: int| 0 <= k < i ==> #[trigger] data@[k] == src.data@[k],
        decreases src.data@.len() - i,
    {
        data.push(src.data[i]);
        i += 1;
    }
    assert(data@ =~= src.data@);
    Rgb8 { width: src.width, height: src.height, data }
}

/// The hole of a single pass: the part of the mask inside `s`, in the coordinates of the
/// window.  The rest of the hole is left unmasked, so the network sees what is there.
pub fn pass_mask(mask: &Gray8, win: &Tile, s: &Section) -> (out: Gray8)
    requires
        mask.wf(),
        win.within(mask.width as int, mask.height as int),
    ensures
        out.wf(),
        out.width == win.side,
        out.height == win.side,
        forall|x: int, y: int|
            0 <= x < win.side && 0 <= y < win.side ==> #[trigger] at(out.data@, win.side as int, x, y)
                == if s.holds(win.x0 + x, win.y0 + y) {
                at(mask.data@, mask.width as int, win.x0 + x, win.y0 + y)
            } else {
                0
            },
{
    let mut out: Gray8 = crop_gray(mask, win);
    let side: usize = win.side;
    let ghost crop = out.data@;
    let ghost n = side as int;
    let mut y: usize = 0;
    while y < side
        invariant
            out.wf(),
            out.width == side,
            out.height == side,
            crop.len() == n * n,
            n == side,
            side == win.side,
            win.x0 + side <= usize::MAX,
            win.y0 + side <= usize::MAX,
            y <= side,
            forall|u: int, v: int|
                0 <= u < n && 0 <= v < n ==> #[trigger] at(out.data@, n, u, v) == if v >= y
                    || s.holds(win.x0 + u, win.y0 + v) {
                    at(crop, n, u, v)
                } else {
                    0
                },
        decreases side - y,
    {
        let mut x: usize = 0;
        while x < side
            invariant
                out.wf(),
                out.width == side,
                out.height == side,
                crop.len() == n * n,
                n == side,
                side == win.side,
                win.x0 + side <= usize::MAX,
                win.y0 + side <= usize::MAX,
                y < side,
                x <= side,
                forall|u: int, v: int|
                    0 <= u < n && 0 <= v < n ==> #[trigger] at(out.data@, n, u, v) == if v > y || (v
                        == y && u >= x) || s.holds(win.x0 + u, win.y0 + v) {
                        at(crop, n, u, v)
                    } else {
                        0
                    },
            decreases side - x,
        {
            let gx: usize = win.x0 + x;
            let gy: usize = win.y0 + y;
            if !(gx >= s.x0 && gx < s.x1 && gy >= s.y0 && gy < s.y1) {
                proof {
                    lemma_place(n, n, x as int, y as int);
                }
                let ghost before = out.data@;
                out.data.set(y * side + x, 0);
                proof {
                    assert forall|u: int, v: int|
                        0 <= u < n && 0 <= v < n && !(u == x && v == y) implies #[trigger] at(
                        out.data@,
                        n,
                        u,
                        v,
                    ) == at(before, n, u, v) by {
                        lemma_place(n, n, u, v);
                        lemma_position(n, u, v);
                        lemma_position(n, x as int, y as int);
                    }
                }
            }
            x += 1;
        }
        y += 1;
    }
    out
}

/// Cropping a window out, running the network on it and pasting the hole back is what a
/// pass over the window does.
pub proof fn law_window_pass_is_crop_and_paste(
    src: Rgb8,
    mask: Gray8,
    t: Tile,
    planes: Seq<u8>,
    pad: int,
    sub_src: Rgb8,
    sub_mask: Gray8,
    sub_out: Rgb8,
    out: Rgb8,
    x: int,
    y: int,
    c: int,
)
    requires
        t.within(src.width as int, src.height as int),
        mask.width == src.width,
        mask.height == src.height,
        crop_rgb_of(src, t, sub_src),
        crop_gray_of(mask, t, sub_mask),
        composite_of(sub_src, sub_mask, planes, pad, pad, sub_out),
        composite_tile_of(src, mask, t, planes, pad, out),
        src.inside(x, y),
        0 <= c < 3,
    ensures
        out.sample(x, y, c) == if t.covers(x, y) && mask.hole(x, y) {
            sub_out.sample(x - t.x0, y - t.y0, c)
        } else {
            src.sample(x, y, c)
        },
{
    if t.covers(x, y) && mask.hole(x, y) {
        let u = x - t.x0;
        let v = y - t.y0;
        assert(at(sub_mask.data@, t.side as int, u, v) == at(mask.data@, mask.width as int, x, y));
        assert(sub_mask.hole(u, v));
        assert(sub_out.sample(u, v, c) == at3(planes, t.side + pad, t.side + pad, c, v, u));
    }
}

/// A pass leaves every pixel outside the hole as it was.
pub proof fn law_pass_keeps_known_pixels(
    src: Rgb8,
    mask: Gray8,
    planes: Seq<u8>,
    pad_h: int,
    pad_w: int,
    out: Rgb8,
    x: int,
    y: int,
    c: int,
)
    requires
        composite_of(src, mask, planes, pad_h, pad_w, out),
        src.inside(x, y),
        !mask.hole(x, y),
        0 <= c < 3,
    ensures
        out.sample(x, y, c) == src.sample(x, y, c),
{
}

/// Inside the image the network is given the pixel itself: its own colour, or black where
/// it is part of the hole.
pub proof fn law_input_inside_the_image(img: Rgb8, mask: Gray8, c: int, y: int, x: int)
    requires
        img.inside(x, y),
    ensures
        input_value(img, mask, c, y, x) == if c < 3 {
            if mask.hole(x, y) {
                0
            } else {
                img.sample(x, y, c)
            }
        } else {
            if mask.hole(x, y) {
                255
            } else {
                0
            }
        },
{
    lemma_reflect(x, img.width as int);
    lemma_reflect(y, img.height as int);
}

/// Past its last row and column, the network is given the image as it goes back from there.
pub proof fn law_input_past_the_image(img: Rgb8, mask: Gray8, c: int, y: int, x: int, k: int)
    requires
        2 <= img.width,
        2 <= img.height,
    ensures
        input_value(img, mask, c, y, img.width - 1 + k) == input_value(img, mask, c, y, img.width - 1 - k),
        input_value(img, mask, c, img.height - 1 + k, x) == input_value(
            img,
            mask,
            c,
            img.height - 1 - k,
            x,
        ),
{
    law_a_line_is_mirrored_at_both_ends(k, img.width as int);
    law_a_line_is_mirrored_at_both_ends(k, img.height as int);
}

/// Byte by byte, a pass over the whole image replaces exactly what the mask marks, by the
/// answer at the same row and column of planes that are as much larger than the image as was
/// added to it.
pub proof fn law_the_answer_goes_where_the_mask_is_set(
    src: Rgb8,
    mask: Gray8,
    planes: Seq<u8>,
    pad_h: int,
    pad_w: int,
    out: Rgb8,
    x: int,
    y: int,
    c: int,
)
    requires
        mask.width == src.width,
        mask.height == src.height,
        composite_of(src, mask, planes, pad_h, pad_w, out),
        0 <= x < src.width,
        0 <= y < src.height,
        0 <= c < 3,
    ensures
        ({
            let i = y * src.width + x;
            out.data@[i * 3 + c] == if mask.data@[i] != 0 {
                planes[(c * (src.height + pad_h) + y) * (src.width + pad_w) + x]
            } else {
                src.data@[i * 3 + c]
            }
        }),
{
    assert(out.sample(x, y, c) == out.data@[(y * src.width + x) * 3 + c]);
}

/// The same of a pass over a window: what the window covers of the mask is replaced by the
/// answer at the row and column counted from the window's corner, and nothing else.
pub proof fn law_the_answer_of_a_window_goes_where_the_mask_is_set(
    src: Rgb8,
    mask: Gray8,
    t: Tile,
    planes: Seq<u8>,
    pad: int,
    out: Rgb8,
    x: int,
    y: int,
    c: int,
)
    requires
        mask.width == src.width,
        mask.height == src.height,
        composite_tile_of(src, mask, t, planes, pad, out),
        0 <= x < src.width,
        0 <= y < src.height,
        0 <= c < 3,
    ensures
        ({
            let i = y * src.width + x;
            let (u, v) = (x - t.x0, y - t.y0);
            let e = t.side + pad;
            out.data@[i * 3 + c] == if mask.data@[i] != 0 && 0 <= u < t.side && 0 <= v < t.side {
                planes[(c * e + v) * e + u]
            } else {
                src.data@[i * 3 + c]
            }
        }),
{
    assert(out.sample(x, y, c) == out.data@[(y * src.width + x) * 3 + c]);
}

} // verus!
