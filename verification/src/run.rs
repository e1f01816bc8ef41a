//! The course of a run: what the network is run on, which engine runs it, and where its
//! weights are looked for.

use vstd::prelude::*;
use vstd::string::StringExecFns;

use crate::grid::{lemma_place, lemma_place_of};
use crate::image::{law_every_byte_but_zero_marks, Gray8, Rgb8};
use crate::mem::{check_capacity, estimate, too_large, DeviceMemory};
use crate::text::{decimal, push_number};
use crate::window::{bounds_of, has_hole, law_window_inside, pad_to_stride, padding, tile_of, tile_rect, Bounds, Tile, PAD_MOD, TILE_MIN};

verus! {

/// What the network is run on.
#[derive(Debug, Clone, Copy, PartialEq, Eq, Structural)]
pub enum Route {
    /// There is no hole: the output is the input.
    Copy,
    /// The whole image, with this many rows and columns added.
    Whole { pad_h: usize, pad_w: usize },
    /// A window around the hole, with this many rows and columns added.
    Window { tile: Tile, pad: usize },
    /// One window for every section of the hole.
    Sections,
}

/// The complaint about a mask that is not the size of its image.
pub open spec fn size_mismatch(mask: Gray8, img: Rgb8) -> Seq<char> {
    "mask is "@ + decimal(mask.width as nat) + "x"@ + decimal(mask.height as nat)
        + " but image is "@ + decimal(img.width as nat) + "x"@ + decimal(img.height as nat)
}

/// Whether an image is so small on one side that it is run whole, whatever was asked.
pub open spec fn is_small(width: int, height: int) -> bool {
    width <= TILE_MIN || height <= TILE_MIN
}

/// `r` is the route for a mask and the two ways of cutting the work down.
pub open spec fn route_of(mask: Gray8, tile: bool, sections: bool, r: Route) -> bool {
    let w = mask.width as int;
    let h = mask.height as int;
    if !is_small(w, h) && sections {
        r == if has_hole(mask) {
            Route::Sections
        } else {
            Route::Copy
        }
    } else if !is_small(w, h) && tile {
        if has_hole(mask) {
            r matches Route::Window { tile: t, pad } && pad == padding(t.side as int) && exists|
                b: Bounds,
            | #[trigger]
                bounds_of(mask, b) && tile_of(mask, b, t)
        } else {
            r == Route::Copy
        }
    } else {
        r == (Route::Whole { pad_h: padding(h) as usize, pad_w: padding(w) as usize })
    }
}

/// Decide what the network is run on.
///
/// The generator has three stride-2 stages, so it can only process multiples of 8: pad,
/// run, crop.  An image at or below 512 pixels on its short side is run whole.
pub fn plan_run(img: &Rgb8, mask: &Gray8, tile: bool, sections: bool) -> (res: Result<
    Route,
    String,
>)
    requires
        mask.wf(),
    ensures
        if mask.width == img.width && mask.height == img.height {
            res matches Ok(r) && route_of(*mask, tile, sections, r)
        } else {
            res matches Err(e) && e@ == size_mismatch(*mask, *img)
        },
{
    if mask.width != img.width || mask.height != img.height {
        let mut e: String = "mask is ".to_owned();
        push_number(&mut e, mask.width as u64);
        e.append("x");
        push_number(&mut e, mask.height as u64);
        e.append(" but image is ");
        push_number(&mut e, img.width as u64);
        e.append("x");
        push_number(&mut e, img.height as u64);
        return Err(e);
    }
    let small: bool = mask.width <= TILE_MIN || mask.height <= TILE_MIN;
    if !small && (sections || tile) {
        return match tile_rect(mask) {
            None => Ok(Route::Copy),
            Some(t) => if sections {
                Ok(Route::Sections)
            } else {
                Ok(Route::Window { tile: t, pad: pad_to_stride(t.side) })
            },
        };
    }
    Ok(Route::Whole { pad_h: pad_to_stride(mask.height), pad_w: pad_to_stride(mask.width) })
}

/// The planes that a route has the network work on in a single pass over the image, as
/// rows and columns.  The passes of sections are small enough for any device.
pub open spec fn pass_extent(r: Route, height: int, width: int) -> Option<(int, int)> {
    match r {
        Route::Copy => None,
        Route::Whole { pad_h, pad_w } => Some((height + pad_h, width + pad_w)),
        Route::Window { tile, pad } => Some((tile.side + pad, tile.side + pad)),
        Route::Sections => None,
    }
}

/// What to do instead of a pass that does not fit.
pub open spec fn hint_of(r: Route) -> Seq<char> {
    if r is Whole {
        "Use --tile to run on a window around the mask, or --sections for a large mask."@
    } else {
        "Use --sections, which fills the mask in 512x512 passes, or run without --tile."@
    }
}

/// The complaint about a route that the device cannot hold, if any.
pub open spec fn refusal(r: Route, height: int, width: int, memory: Option<DeviceMemory>) -> Option<
    Seq<char>,
> {
    match (pass_extent(r, height, width), memory) {
        (Some((h, w)), Some(m)) => {
            let need = if estimate((h * w) as nat) <= u64::MAX {
                estimate((h * w) as nat)
            } else {
                u64::MAX as nat
            };
            if need <= m.free - m.free / 10 {
                None
            } else {
                Some(too_large(h as nat, w as nat, need, m, hint_of(r)))
            }
        },
        _ => None,
    }
}

/// Refuse a forced GPU run that the device cannot hold.  Without `force_gpu` nothing is
/// refused: such a run falls back to the CPU.
pub fn check_route(
    r: &Route,
    height: usize,
    width: usize,
    force_gpu: bool,
    memory: &Option<DeviceMemory>,
) -> (res: Result<(), String>)
    requires
        pass_extent(*r, height as int, width as int) matches Some((h, w)) ==> {
            &&& h <= usize::MAX
            &&& w <= usize::MAX
            &&& h * w <= u64::MAX
        },
    ensures
        match refusal(*r, height as int, width as int, *memory) {
            Some(text) => if force_gpu {
                res matches Err(e) && e@ == text
            } else {
                res is Ok
            },
            None => res is Ok,
        },
{
    if !force_gpu {
        return Ok(());
    }
    match r {
        Route::Whole { pad_h, pad_w } => check_capacity(
            height + *pad_h,
            width + *pad_w,
            "Use --tile to run on a window around the mask, or --sections for a large mask.",
            memory,
        ),
        Route::Window { tile, pad } => check_capacity(
            tile.side + *pad,
            tile.side + *pad,
            "Use --sections, which fills the mask in 512x512 passes, or run without --tile.",
            memory,
        ),
        _ => Ok(()),
    }
}

/// A window route stays inside the image, so its crop and its paste do too.
pub proof fn law_window_route_is_inside(mask: Gray8, tile: bool, sections: bool, t: Tile, pad: usize)
    requires
        route_of(mask, tile, sections, Route::Window { tile: t, pad }),
    ensures
        t.within(mask.width as int, mask.height as int),
        t.side % PAD_MOD == 0,
        pad == 0,
{
    let b = choose|b: Bounds| #[trigger] bounds_of(mask, b) && tile_of(mask, b, t);
    law_window_inside(mask, b, t);
}

/// The extents of a route's pass are multiples of the network's stride.
#[verifier::spinoff_prover]
pub proof fn law_pass_extent_is_a_multiple(mask: Gray8, tile: bool, sections: bool, r: Route)
    requires
        route_of(mask, tile, sections, r),
    ensures
        pass_extent(r, mask.height as int, mask.width as int) matches Some((h, w)) ==> h
            % PAD_MOD as int == 0 && w % PAD_MOD as int == 0,
{
    let (w, h) = (mask.width as int, mask.height as int);
    match r {
        Route::Whole { pad_h, pad_w } => {
            assert(pad_h == padding(h) && pad_w == padding(w));
            assert((h + padding(h)) % 8 == 0 && (w + padding(w)) % 8 == 0);
        },
        Route::Window { tile: t, pad } => {
            law_window_route_is_inside(mask, tile, sections, t, pad);
        },
        _ => {},
    }
}

/// What an engine has come to so far.
#[derive(Debug, Clone)]
pub enum Event {
    /// Nothing has been tried.
    Start,
    /// The GPU engine gave up, for this reason.
    GpuFailed(String),
    /// The CPU engine gave up, for this reason.
    CpuFailed(String),
}

/// What to do about it.
#[derive(Debug, Clone)]
pub enum Action {
    RunCpu,
    RunGpu,
    Fail(String),
}

/// The complaint of a build without a GPU engine that is asked for one.
pub open spec fn no_gpu_engine() -> Seq<char> {
    "--gpu was requested, but this is the CPU-only build (no CUDA backend was compiled in).\nUse the CUDA build for GPU inference, or run without --gpu."@
}

/// `a` is what follows `e`.
pub open spec fn follows(force_cpu: bool, force_gpu: bool, gpu_built: bool, e: Event, a: Action) -> bool {
    match e {
        Event::Start => if force_cpu {
            a is RunCpu
        } else if gpu_built {
            a is RunGpu
        } else if force_gpu {
            a matches Action::Fail(s) && s@ == no_gpu_engine()
        } else {
            a is RunCpu
        },
        Event::GpuFailed(why) => if force_gpu {
            a matches Action::Fail(s) && s@ == "gpu inference failed: "@ + why@
                + "\n(--cpu runs the CPU engine instead)"@
        } else {
            a is RunCpu
        },
        Event::CpuFailed(why) => a matches Action::Fail(s) && s@ == "cpu inference failed: "@
            + why@,
    }
}

/// Choose an engine.  The GPU engine is tried first where there is one; without `--gpu`
/// its failure falls back to the CPU engine, and with it nothing is run silently on
/// another engine than the one that was asked for.
pub fn next_action(force_cpu: bool, force_gpu: bool, gpu_built: bool, e: &Event) -> (a: Action)
    ensures
        follows(force_cpu, force_gpu, gpu_built, *e, a),
{
    match e {
        Event::Start => if force_cpu {
            Action::RunCpu
        } else if gpu_built {
            Action::RunGpu
        } else if force_gpu {
            Action::Fail(
                "--gpu was requested, but this is the CPU-only build (no CUDA backend was compiled in).\nUse the CUDA build for GPU inference, or run without --gpu.".to_owned(),
            )
        } else {
            Action::RunCpu
        },
        Event::GpuFailed(why) => if force_gpu {
            let mut s: String = "gpu inference failed: ".to_owned();
            s.append(why.as_str());
            s.append("\n(--cpu runs the CPU engine instead)");
            Action::Fail(s)
        } else {
            Action::RunCpu
        },
        Event::CpuFailed(why) => {
            let mut s: String = "cpu inference failed: ".to_owned();
            s.append(why.as_str());
            Action::Fail(s)
        },
    }
}

/// A run that was forced onto the GPU, and not also onto the CPU, never runs the CPU
/// engine.
pub proof fn law_forced_gpu_never_runs_on_the_cpu(gpu_built: bool, e: Event, a: Action)
    requires
        follows(false, true, gpu_built, e, a),
    ensures
        !(a is RunCpu),
{
}

/// A run that was forced onto the CPU starts there and is never sent to the GPU.
pub proof fn law_forced_cpu_never_runs_on_the_gpu(force_gpu: bool, gpu_built: bool, e: Event, a: Action)
    requires
        follows(true, force_gpu, gpu_built, e, a),
    ensures
        !(a is RunGpu),
        e is Start ==> a is RunCpu,
{
}

/// A place to look for the weight file.
#[derive(Debug, Clone, Copy, PartialEq, Eq, Structural)]
pub enum Place {
    /// In the directory `up` levels above that of the executable, or in its `models`.
    Near { up: usize, models: bool },
    /// In the current directory.
    Here,
}

/// How far up the tree the weight file is looked for.
pub const SEARCH_LEVELS: usize = 6;

/// The places to look for the weight file, the nearest first: beside the executable,
/// then in `models` beside it, then up the tree, and at last the current directory.
/// `levels` is the number of directories from that of the executable up to the root.
pub open spec fn places(levels: nat) -> Seq<Place> {
    let near = if levels < SEARCH_LEVELS {
        levels
    } else {
        SEARCH_LEVELS as nat
    };
    Seq::new(2 * near, |i: int| Place::Near { up: (i / 2) as usize, models: i % 2 == 1 }).push(
        Place::Here,
    )
}

/// The places to look for the weight file, in order.
pub fn default_weights(levels: usize) -> (p: Vec<Place>)
    ensures
        p@ == places(levels as nat),
{
    let near: usize = if levels < SEARCH_LEVELS {
        levels
    } else {
        SEARCH_LEVELS
    };
    let mut p: Vec<Place> = Vec::new();
    let mut up: usize = 0;
    while up < near
        invariant
            near <= SEARCH_LEVELS,
            up <= near,
            p@.len() == 2 * up,
            forall|i: int|
                0 <= i < 2 * up ==> #[trigger] p@[i] == (Place::Near {
                    up: (i / 2) as usize,
                    models: i % 2 == 1,
                }),
        decreases near - up,
    {
        p.push(Place::Near { up, models: false });
        p.push(Place::Near { up, models: true });
        up += 1;
    }
    p.push(Place::Here);
    assert(p@ =~= places(levels as nat));
    p
}

/// The search goes outward: a place is tried before every other that is further up, and
/// the current directory last.
pub proof fn law_search_goes_outward(levels: nat, i: int, j: int)
    requires
        0 <= i < j < places(levels).len(),
    ensures
        places(levels)[i] matches Place::Near { up: a, .. } && match places(levels)[j] {
            Place::Near { up: b, .. } => a <= b,
            Place::Here => j == places(levels).len() - 1,
        },
        places(levels).last() == Place::Here,
{
}

/// What becomes of an image: it is run whole, with as few rows and columns added as make
/// both extents multiples of 8, where one of its sides has at most 512 pixels or neither
/// cut was asked for.  Otherwise it is copied if no byte of the mask is set, filled section
/// by section if that was asked for, and through one window if not.
pub proof fn law_route_of_an_image(mask: Gray8, tile: bool, sections: bool, r: Route)
    requires
        mask.wf(),
        mask.width <= usize::MAX - 8,
        mask.height <= usize::MAX - 8,
        route_of(mask, tile, sections, r),
    ensures
        mask.width <= 512 || mask.height <= 512 || !(tile || sections) <==> r is Whole,
        r matches Route::Whole { pad_h, pad_w } ==> {
            &&& pad_h < 8 && (mask.height + pad_h) % 8 == 0
            &&& pad_w < 8 && (mask.width + pad_w) % 8 == 0
        },
        !(r is Whole) ==> (r is Copy <==> forall|i: int|
            0 <= i < mask.data@.len() ==> #[trigger] mask.data@[i] == 0),
        r is Sections ==> sections,
        r is Window ==> !sections,
{
    let (w, h) = (mask.width as int, mask.height as int);
    if !(r is Whole) {
        if r is Copy {
            assert forall|i: int| 0 <= i < mask.data@.len() implies #[trigger] mask.data@[i] == 0 by {
                lemma_place_of(w, h, i);
                law_every_byte_but_zero_marks(mask, i % w, i / w);
                assert(!mask.hole(i % w, i / w));
            }
        } else {
            let (x, y) = choose|x: int, y: int| #[trigger] mask.hole(x, y);
            lemma_place(w, h, x, y);
            law_every_byte_but_zero_marks(mask, x, y);
            assert(mask.data@[y * w + x] != 0);
        }
    }
}

/// A window is refused exactly where an image of its extents would be, with a hint that
/// does not send the caller back to the window.
pub proof fn law_window_is_refused_like_an_image(tile: Tile, pad: usize, h: int, w: int, memory: Option<DeviceMemory>)
    ensures
        refusal(Route::Window { tile, pad }, h, w, memory) is Some <==> refusal(
            Route::Whole { pad_h: pad, pad_w: pad },
            tile.side as int,
            tile.side as int,
            memory,
        ) is Some,
        refusal(Route::Window { tile, pad }, h, w, memory) is Some <==> (memory matches Some(m)
            && 359661568 + 1170 * ((tile.side + pad) * (tile.side + pad)) > m.free - m.free
            / 10),
        hint_of(Route::Window { tile, pad })
            == "Use --sections, which fills the mask in 512x512 passes, or run without --tile."@,
        hint_of(Route::Whole { pad_h: pad, pad_w: pad })
            == "Use --tile to run on a window around the mask, or --sections for a large mask."@,
{
    let e = tile.side + pad;
    assert(0 <= e * e) by (nonlinear_arith);
}

} // verus!
