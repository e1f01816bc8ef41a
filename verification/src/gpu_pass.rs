//! A whole forward pass as commands for a device.

use vstd::prelude::*;
use vstd::string::StringExecFns;

use crate::device::{reachable, Addr, Base, Command, Program, Tape};
use crate::gpu::{convt_placed, spectral_placed, spectral_tape, upsample_tape, DConvT, DSpectral};
use crate::kernels::{add_tape, bn_placed, bn_relu_add_tape, bn_relu_tape, conv_placed, conv_tape, is_small, made, mirror_tape, sigmoid_tape, spare, stack_tape, unfit, unfit_text, DBn, DConv, Planned, Tensor};

verus! {

/// An FFC block with its parameters on the device.
#[derive(Debug, Clone, Copy, PartialEq, Eq, Structural)]
pub struct DFfc {
    pub kernel: usize,
    pub stride: usize,
    pub pad: usize,
    pub reflect: bool,
    pub in_local: usize,
    pub in_global: usize,
    pub out_local: usize,
    pub out_global: usize,
    pub l2l: Option<DConv>,
    pub l2g: Option<DConv>,
    pub g2l: Option<DConv>,
    pub bn_l: Option<DBn>,
    pub bn_g: Option<DBn>,
    pub spectral: Option<DSpectral>,
}

/// One step with its parameters on the device.
#[derive(Debug, Clone)]
pub enum DStep {
    ReflectPad(usize),
    Ffc(DFfc),
    Res(DFfc, DFfc),
    Concat,
    Upsample(DConvT, DBn),
    OutConv(DConv),
}

/// Which of two equivalent ways a pass takes, for cross-checking.
#[derive(Debug, Clone, Copy, PartialEq, Eq, Structural)]
pub struct Ways {
    /// Run every Fourier transform on the host, also those that the device can do.
    pub host_fft: bool,
    /// Upsample with the gathering kernel.
    pub gather: bool,
}

pub open spec fn conv_placed_opt(cv: Option<DConv>) -> bool {
    cv matches Some(c) ==> conv_placed(c)
}

pub open spec fn bn_placed_opt(bn: Option<DBn>) -> bool {
    bn matches Some(b) ==> bn_placed(b)
}

/// Whether the addresses of a block lie in the weights.
pub open spec fn ffc_placed(w: DFfc) -> bool {
    &&& conv_placed_opt(w.l2l)
    &&& conv_placed_opt(w.l2g)
    &&& conv_placed_opt(w.g2l)
    &&& bn_placed_opt(w.bn_l)
    &&& bn_placed_opt(w.bn_g)
    &&& w.spectral matches Some(sp) ==> spectral_placed(sp)
}

/// Whether the addresses of a step lie in the weights.
pub open spec fn step_placed(s: DStep) -> bool {
    match s {
        DStep::Ffc(w) => ffc_placed(w),
        DStep::Res(a, b) => ffc_placed(a) && ffc_placed(b),
        DStep::Upsample(cv, bn) => convt_placed(cv) && bn_placed(bn),
        DStep::OutConv(cv) => conv_placed(cv),
        _ => true,
    }
}

/// `channels` planes from `first` on.
pub open spec fn window(x: Tensor, first: int, channels: usize) -> Tensor {
    Tensor {
        at: Addr {
            base: x.at.base,
            offset: (x.at.offset + 4 * (first * x.area())) as usize,
        },
        c: channels,
        h: x.h,
        w: x.w,
    }
}

/// The planes that the convolutions from the local side read: all of the input, or its
/// first channels where the block has a global side too.
pub open spec fn local_side(w: DFfc, x: Tensor) -> Tensor {
    if w.in_global == 0 {
        x
    } else {
        Tensor { c: w.in_local, ..x }
    }
}

/// What reaches a branch from the local side: a convolution, or planes without channels.
pub open spec fn first_tape(t: Tape, w: DFfc, cv: Option<DConv>, x: Tensor) -> Planned {
    match cv {
        Some(c) => conv_tape(
            t,
            c,
            local_side(w, x),
            w.pad as int,
            w.stride as int,
            w.reflect,
        ),
        None => if !spare(t) {
            Err(unfit())
        } else {
            Ok((t.with_block(0), Tensor { at: t.fresh(), c: 0, h: x.h, w: x.w }))
        },
    }
}

/// Two parts of a branch joined: added, or the second in place of a first one without
/// channels.
pub open spec fn join_tape(t: Tape, a: Tensor, b: Tensor) -> Planned {
    if a.c == 0 {
        Ok((t.without(a.at), b))
    } else {
        match add_tape(t, a, b) {
            Err(e) => Err(e),
            Ok(t1) => Ok((t1.without(b.at), a)),
        }
    }
}

/// BatchNorm, ReLU and skip connection, if there is a BatchNorm.
pub open spec fn close_tape(t: Tape, x: Tensor, bn: Option<DBn>, skip: Option<Tensor>) -> Planned {
    match bn {
        Some(b) => match bn_relu_add_tape(t, x, b, skip) {
            Err(e) => Err(e),
            Ok(t1) => Ok((t1, x)),
        },
        None => Ok((t, x)),
    }
}

/// The local output of a block.
pub open spec fn local_tape(
    t: Tape,
    w: DFfc,
    x: Tensor,
    g: Option<Tensor>,
    skip: Option<Tensor>,
) -> Planned {
    match first_tape(t, w, w.l2l, x) {
        Err(e) => Err(e),
        Ok((t1, a)) => match w.g2l {
            None => close_tape(t1, a, w.bn_l, skip),
            Some(c) => match g {
                None => Err("convg2l present without a global branch"@),
                Some(gt) => match conv_tape(
                    t1,
                    c,
                    gt,
                    w.pad as int,
                    w.stride as int,
                    w.reflect,
                ) {
                    Err(e) => Err(e),
                    Ok((t2, b)) => match join_tape(t2, a, b) {
                        Err(e) => Err(e),
                        Ok((t3, s)) => close_tape(t3, s, w.bn_l, skip),
                    },
                },
            },
        },
    }
}

/// Whether the last `channels` planes can be addressed.
pub open spec fn has_tail(x: Tensor, channels: usize) -> bool {
    x.small() && channels <= x.c && x.at.offset + 4 * x.count() <= usize::MAX
}

/// The global output of a block.
pub open spec fn global_tape(
    t: Tape,
    w: DFfc,
    x: Tensor,
    g: Option<Tensor>,
    skip: Option<Tensor>,
    ways: Ways,
) -> Planned {
    match first_tape(t, w, w.l2g, x) {
        Err(e) => Err(e),
        Ok((t1, a)) => match w.spectral {
            None => close_tape(t1, a, w.bn_g, skip),
            Some(sp) => match g {
                None => Err("convg2g present without a global branch"@),
                Some(gt) => if !has_tail(gt, w.in_global) {
                    Err(unfit())
                } else {
                    match spectral_tape(
                        t1,
                        sp,
                        window(gt, gt.c - w.in_global, w.in_global),
                        ways.host_fft,
                    ) {
                        Err(e) => Err(e),
                        Ok((t2, b)) => match join_tape(t2, a, b) {
                            Err(e) => Err(e),
                            Ok((t3, s)) => close_tape(t3, s, w.bn_g, skip),
                        },
                    }
                },
            },
        },
    }
}

/// What planning a block comes to.
pub type PlannedPair = Result<(Tape, Tensor, Option<Tensor>), Seq<char>>;

/// The local output, or planes without channels that still carry the geometry.
pub open spec fn local_or_hollow(
    t: Tape,
    w: DFfc,
    x: Tensor,
    g: Option<Tensor>,
    skip: Option<Tensor>,
) -> Planned {
    if w.out_local > 0 {
        local_tape(t, w, x, g, skip)
    } else if !spare(t) {
        Err(unfit())
    } else {
        Ok((t.with_block(0), Tensor { at: t.fresh(), c: 0, h: x.h, w: x.w }))
    }
}

/// One block: its local and its global output.  The skip connections are added in the
/// closing BatchNorm.
#[verifier::opaque]
pub open spec fn ffc_tape(
    t: Tape,
    w: DFfc,
    x: Tensor,
    g: Option<Tensor>,
    skip: (Option<Tensor>, Option<Tensor>),
    ways: Ways,
) -> PlannedPair {
    match local_or_hollow(t, w, x, g, skip.0) {
        Err(e) => Err(e),
        Ok((t1, l)) => if w.out_global > 0 {
            match global_tape(t1, w, x, g, skip.1, ways) {
                Err(e) => Err(e),
                Ok((t2, o)) => Ok((t2, l, Some(o))),
            }
        } else {
            Ok((t1, l, None))
        },
    }
}

pub open spec fn reach_opt(live: Set<int>, x: Option<Tensor>) -> bool {
    x matches Some(t) ==> reachable(live, t.at)
}

impl Program {
    /// Planes without channels.
    fn hollow(&mut self, x: &Tensor) -> (res: Result<Tensor, String>)
        requires
            old(self).wf(),
        ensures
            if spare(old(self)@) {
                let out = Tensor { at: old(self)@.fresh(), c: 0, h: x.h, w: x.w };
                res == Ok::<Tensor, String>(out) && final(self)@ == old(self)@.with_block(0) && made(
                    old(self)@,
                    *final(self),
                    out,
                )
            } else {
                res matches Err(e) && e@ == unfit()
            },
    {
        if self.next > usize::MAX - 16 {
            return Err(unfit_text());
        }
        let at: Addr = self.reserve(0);
        Ok(Tensor { at, c: 0, h: x.h, w: x.w })
    }

    fn first(&mut self, w: &DFfc, cv: &Option<DConv>, x: &Tensor) -> (res: Result<Tensor, String>)
        requires
            old(self).wf(),
            conv_placed_opt(*cv),
            reachable(old(self)@.live(), x.at),
        ensures
            match first_tape(old(self)@, *w, *cv, *x) {
                Ok((t, out)) => res == Ok::<Tensor, String>(out) && final(self)@ == t && made(
                    old(self)@,
                    *final(self),
                    out,
                ),
                Err(text) => res matches Err(e) && e@ == text,
            },
    {
        match cv {
            Some(c) => {
                let side: Tensor = if w.in_global == 0 {
                    *x
                } else {
                    Tensor { at: x.at, c: w.in_local, h: x.h, w: x.w }
                };
                self.conv(c, &side, w.pad, w.stride, w.reflect)
            },
            None => self.hollow(x),
        }
    }

    /// Join two parts of a branch: one of their blocks stays.
    fn join(&mut self, a: &Tensor, b: &Tensor, Ghost(rest): Ghost<Set<int>>) -> (res: Result<Tensor, String>)
        requires
            old(self).wf(),
            old(self)@.live() == rest.insert(a.block()).insert(b.block()),
            a.at.base is Block,
            b.at.base is Block,
            a.block() != b.block(),
            !rest.contains(a.block()),
            !rest.contains(b.block()),
        ensures
            match join_tape(old(self)@, *a, *b) {
                Ok((t, out)) => {
                    &&& res == Ok::<Tensor, String>(out)
                    &&& final(self)@ == t
                    &&& final(self).wf()
                    &&& final(self)@.live() == rest.insert(out.block())
                    &&& !rest.contains(out.block())
                    &&& out.at.base is Block
                },
                Err(text) => res matches Err(e) && e@ == text,
            },
    {
        if a.c == 0 {
            self.free(a.at);
            assert(self@.live() =~= rest.insert(b.block()));
            return Ok(*b);
        }
        match self.add_inplace(a, b) {
            Ok(_) => {},
            Err(e) => {
                return Err(e);
            },
        }
        self.free(b.at);
        assert(self@.live() =~= rest.insert(a.block()));
        Ok(*a)
    }

    fn close(&mut self, x: &Tensor, bn: &Option<DBn>, skip: Option<Tensor>) -> (res: Result<Tensor, String>)
        requires
            old(self).wf(),
            reachable(old(self)@.live(), x.at),
            bn_placed_opt(*bn),
            reach_opt(old(self)@.live(), skip),
        ensures
            match close_tape(old(self)@, *x, *bn, skip) {
                Ok((t, out)) => {
                    &&& res == Ok::<Tensor, String>(out)
                    &&& out == *x
                    &&& final(self)@ == t
                    &&& final(self).wf()
                    &&& final(self)@.live() == old(self)@.live()
                },
                Err(text) => res matches Err(e) && e@ == text,
            },
    {
        match bn {
            Some(b) => match self.bn_relu_add(x, b, skip) {
                Ok(_) => Ok(*x),
                Err(e) => Err(e),
            },
            None => Ok(*x),
        }
    }

    fn local_branch(&mut self, w: &DFfc, x: &Tensor, g: Option<Tensor>, skip: Option<Tensor>) -> (res: Result<
        Tensor,
        String,
    >)
        requires
            old(self).wf(),
            ffc_placed(*w),
            reachable(old(self)@.live(), x.at),
            reach_opt(old(self)@.live(), g),
            reach_opt(old(self)@.live(), skip),
        ensures
            match local_tape(old(self)@, *w, *x, g, skip) {
                Ok((t, out)) => res == Ok::<Tensor, String>(out) && final(self)@ == t && made(
                    old(self)@,
                    *final(self),
                    out,
                ),
                Err(text) => res matches Err(e) && e@ == text,
            },
    {
        let ghost rest = self@.live();
        let a: Tensor = match self.first(w, &w.l2l, x) {
            Ok(t) => t,
            Err(e) => {
                return Err(e);
            },
        };
        let s: Tensor = match &w.g2l {
            None => a,
            Some(c) => {
                let gt: Tensor = match g {
                    Some(t) => t,
                    None => {
                        return Err("convg2l present without a global branch".to_owned());
                    },
                };
                let b: Tensor = match self.conv(c, &gt, w.pad, w.stride, w.reflect) {
                    Ok(t) => t,
                    Err(e) => {
                        return Err(e);
                    },
                };
                match self.join(&a, &b, Ghost(rest)) {
                    Ok(t) => t,
                    Err(e) => {
                        return Err(e);
                    },
                }
            },
        };
        self.close(&s, &w.bn_l, skip)
    }

    fn global_branch(
        &mut self,
        w: &DFfc,
        x: &Tensor,
        g: Option<Tensor>,
        skip: Option<Tensor>,
        ways: Ways,
    ) -> (res: Result<Tensor, String>)
        requires
            old(self).wf(),
            ffc_placed(*w),
            reachable(old(self)@.live(), x.at),
            reach_opt(old(self)@.live(), g),
            reach_opt(old(self)@.live(), skip),
        ensures
            match global_tape(old(self)@, *w, *x, g, skip, ways) {
                Ok((t, out)) => res == Ok::<Tensor, String>(out) && final(self)@ == t && made(
                    old(self)@,
                    *final(self),
                    out,
                ),
                Err(text) => res matches Err(e) && e@ == text,
            },
    {
        let ghost rest = self@.live();
        let a: Tensor = match self.first(w, &w.l2g, x) {
            Ok(t) => t,
            Err(e) => {
                return Err(e);
            },
        };
        let s: Tensor = match &w.spectral {
            None => a,
            Some(sp) => {
                let gt: Tensor = match g {
                    Some(t) => t,
                    None => {
                        return Err("convg2g present without a global branch".to_owned());
                    },
                };
                let tail: Tensor = match tail_of(&gt, w.in_global) {
                    Some(t) => t,
                    None => {
                        return Err(unfit_text());
                    },
                };
                let b: Tensor = match self.spectral(sp, &tail, ways.host_fft) {
                    Ok(t) => t,
                    Err(e) => {
                        return Err(e);
                    },
                };
                match self.join(&a, &b, Ghost(rest)) {
                    Ok(t) => t,
                    Err(e) => {
                        return Err(e);
                    },
                }
            },
        };
        self.close(&s, &w.bn_g, skip)
    }

    /// Plan one block.
    pub fn ffc(
        &mut self,
        w: &DFfc,
        x: &Tensor,
        g: Option<Tensor>,
        skip: (Option<Tensor>, Option<Tensor>),
        ways: Ways,
    ) -> (res: Result<(Tensor, Option<Tensor>), String>)
        requires
            old(self).wf(),
            ffc_placed(*w),
            reachable(old(self)@.live(), x.at),
            reach_opt(old(self)@.live(), g),
            reach_opt(old(self)@.live(), skip.0),
            reach_opt(old(self)@.live(), skip.1),
        ensures
            match ffc_tape(old(self)@, *w, *x, g, skip, ways) {
                Ok((t, l, o)) => {
                    &&& res == Ok::<(Tensor, Option<Tensor>), String>((l, o))
                    &&& final(self)@ == t
                    &&& pair_made(old(self)@, *final(self), l, o)
                },
                Err(text) => res matches Err(e) && e@ == text,
            },
    {
        proof {
            reveal(ffc_tape);
        }
        let local: Result<Tensor, String> = if w.out_local > 0 {
            self.local_branch(w, x, g, skip.0)
        } else {
            self.hollow(x)
        };
        let l: Tensor = match local {
            Ok(t) => t,
            Err(e) => {
                return Err(e);
            },
        };
        if w.out_global > 0 {
            match self.global_branch(w, x, g, skip.1, ways) {
                Ok(o) => Ok((l, Some(o))),
                Err(e) => Err(e),
            }
        } else {
            Ok((l, None))
        }
    }
}

/// A pass was extended by an operation that leaves one more block for each of its results.
pub open spec fn pair_made(before: Tape, after: Program, l: Tensor, g: Option<Tensor>) -> bool {
    &&& after.wf()
    &&& l.at.base is Block
    &&& !before.live().contains(l.block())
    &&& match g {
        Some(o) => {
            &&& o.at.base is Block
            &&& o.block() != l.block()
            &&& !before.live().contains(o.block())
            &&& after@.live() == before.live().insert(l.block()).insert(o.block())
        },
        None => after@.live() == before.live().insert(l.block()),
    }
}

/// The last `channels` planes, if they can be addressed.
fn tail_of(x: &Tensor, channels: usize) -> (r: Option<Tensor>)
    ensures
        match r {
            Some(t) => has_tail(*x, channels) && t == window(*x, x.c - channels, channels),
            None => !has_tail(*x, channels),
        },
{
    if !is_small(x) || channels > x.c {
        return None;
    }
    let area: usize = x.h * x.w;
    let total: usize = x.c * area;
    if x.at.offset > usize::MAX - 4 * total {
        return None;
    }
    let first: usize = x.c - channels;
    proof {
        crate::grid::lemma_area_le(first as int, area as int, x.c as int, area as int);
    }
    Some(
        Tensor {
            at: Addr { base: x.at.base, offset: x.at.offset + 4 * (first * area) },
            c: channels,
            h: x.h,
            w: x.w,
        },
    )
}

/// The planes that a pass holds between two steps.
#[derive(Debug, Clone, Copy, PartialEq, Eq, Structural)]
pub struct Held {
    pub local: Tensor,
    pub global: Option<Tensor>,
}

/// Optional planes given back.
pub open spec fn free_opt(t: Tape, x: Option<Tensor>) -> Tape {
    match x {
        Some(x) => t.without(x.at),
        None => t,
    }
}

/// What planning a step comes to.
pub type PlannedStep = Result<(Tape, Held), Seq<char>>;

/// Both branches mirrored at their borders.
pub open spec fn pad_step(t: Tape, now: Held, pad: int) -> PlannedStep {
    match mirror_tape(t, now.local, pad) {
        Err(e) => Err(e),
        Ok((t1, l)) => {
            let t2 = t1.without(now.local.at);
            match now.global {
                None => Ok((t2, Held { local: l, global: None })),
                Some(g) => match mirror_tape(t2, g, pad) {
                    Err(e) => Err(e),
                    Ok((t3, o)) => Ok((t3.without(g.at), Held { local: l, global: Some(o) })),
                },
            }
        },
    }
}

/// One block.
pub open spec fn block_step(t: Tape, now: Held, w: DFfc, ways: Ways) -> PlannedStep {
    match ffc_tape(t, w, now.local, now.global, (None, None), ways) {
        Err(e) => Err(e),
        Ok((t1, l, g)) => Ok(
            (free_opt(t1.without(now.local.at), now.global), Held { local: l, global: g }),
        ),
    }
}

/// Two blocks and the skip connection.  Neither writes through its input, so that the
/// planes before the first serve as the skip directly.
pub open spec fn residual_step(t: Tape, now: Held, a: DFfc, b: DFfc, ways: Ways) -> PlannedStep {
    match ffc_tape(t, a, now.local, now.global, (None, None), ways) {
        Err(e) => Err(e),
        Ok((t1, l1, g1)) => match ffc_tape(t1, b, l1, g1, (Some(now.local), now.global), ways) {
            Err(e) => Err(e),
            Ok((t2, l2, g2)) => Ok(
                (
                    free_opt(free_opt(t2.without(now.local.at), now.global), g1).without(l1.at),
                    Held { local: l2, global: g2 },
                ),
            ),
        },
    }
}

/// The two branches stacked.
pub open spec fn stack_step(t: Tape, now: Held) -> PlannedStep {
    match now.global {
        None => Err("Concat without a global branch"@),
        Some(g) => match stack_tape(t, now.local, g) {
            Err(e) => Err(e),
            Ok((t1, l)) => Ok(
                (t1.without(now.local.at).without(g.at), Held { local: l, global: None }),
            ),
        },
    }
}

/// The upsampling with its BatchNorm; it collapses the two branches into one.
pub open spec fn upsample_step(t: Tape, now: Held, cv: DConvT, bn: DBn, ways: Ways) -> PlannedStep {
    match upsample_tape(t, cv, now.local, ways.gather) {
        Err(e) => Err(e),
        Ok((t1, up)) => match bn_relu_tape(t1, up, bn) {
            Err(e) => Err(e),
            Ok(t2) => Ok(
                (
                    free_opt(t2.without(now.local.at), now.global),
                    Held { local: up, global: None },
                ),
            ),
        },
    }
}

/// The closing convolution; the planes before it have been padded already.
pub open spec fn output_step(t: Tape, now: Held, cv: DConv) -> PlannedStep {
    match conv_tape(t, cv, now.local, 0, 1, false) {
        Err(e) => Err(e),
        Ok((t1, out)) => match sigmoid_tape(t1, out) {
            Err(e) => Err(e),
            Ok(t2) => Ok(
                (
                    free_opt(t2.without(now.local.at), now.global),
                    Held { local: out, global: None },
                ),
            ),
        },
    }
}

/// One step.
pub open spec fn step_tape(t: Tape, now: Held, s: DStep, ways: Ways) -> PlannedStep {
    match s {
        DStep::ReflectPad(p) => pad_step(t, now, p as int),
        DStep::Ffc(w) => block_step(t, now, w, ways),
        DStep::Res(a, b) => residual_step(t, now, a, b, ways),
        DStep::Concat => stack_step(t, now),
        DStep::Upsample(cv, bn) => upsample_step(t, now, cv, bn, ways),
        DStep::OutConv(cv) => output_step(t, now, cv),
    }
}

/// The steps from `i` on; the closing convolution ends the pass.
pub open spec fn pass_from(t: Tape, now: Held, steps: Seq<DStep>, i: nat, ways: Ways) -> Planned
    decreases steps.len() - i,
{
    if i >= steps.len() {
        Ok((free_opt(t, now.global), now.local))
    } else {
        match step_tape(t, now, steps[i as int], ways) {
            Err(e) => Err(e),
            Ok((t1, next)) => if steps[i as int] is OutConv {
                Ok((t1, next.local))
            } else {
                pass_from(t1, next, steps, i + 1, ways)
            },
        }
    }
}

/// A whole pass over four planes of `h` rows and `w` columns, which the first block is
/// filled with.
pub open spec fn pass_tape(steps: Seq<DStep>, h: usize, w: usize, ways: Ways) -> Planned {
    let empty = Tape { acts: Seq::empty(), next: 0 };
    let input = Tensor { at: empty.fresh(), c: 4, h, w };
    if !input.small() {
        Err(unfit())
    } else {
        pass_from(
            empty.with_block(input.count()),
            Held { local: input, global: None },
            steps,
            0,
            ways,
        )
    }
}

/// The live blocks are exactly those of the planes that are held.
pub open spec fn holds_only(live: Set<int>, now: Held) -> bool {
    &&& now.local.at.base is Block
    &&& match now.global {
        Some(g) => {
            &&& g.at.base is Block
            &&& g.block() != now.local.block()
            &&& live == Set::<int>::empty().insert(now.local.block()).insert(g.block())
        },
        None => live == Set::<int>::empty().insert(now.local.block()),
    }
}

impl Program {
    fn free_if(&mut self, x: Option<Tensor>)
        requires
            old(self).wf(),
            x matches Some(t) ==> t.at.base is Block && old(self)@.live().contains(t.block()),
        ensures
            final(self).wf(),
            final(self)@ == free_opt(old(self)@, x),
            final(self)@.live() == match x {
                Some(t) => old(self)@.live().remove(t.block()),
                None => old(self)@.live(),
            },
    {
        match x {
            Some(t) => self.free(t.at),
            None => {},
        }
    }

    fn pad_both(&mut self, now: Held, pad: usize) -> (res: Result<Held, String>)
        requires
            old(self).wf(),
            holds_only(old(self)@.live(), now),
        ensures
            match pad_step(old(self)@, now, pad as int) {
                Ok((t, next)) => res == Ok::<Held, String>(next) && final(self).wf() && final(self)@
                    == t && holds_only(final(self)@.live(), next),
                Err(text) => res matches Err(e) && e@ == text,
            },
    {
        let local: Tensor = match self.reflect_pad(&now.local, pad) {
            Ok(t) => t,
            Err(e) => {
                return Err(e);
            },
        };
        self.free(now.local.at);
        match now.global {
            None => {
                let next = Held { local, global: None };
                assert(self@.live() =~= Set::<int>::empty().insert(local.block()));
                Ok(next)
            },
            Some(g) => {
                let global: Tensor = match self.reflect_pad(&g, pad) {
                    Ok(t) => t,
                    Err(e) => {
                        return Err(e);
                    },
                };
                self.free(g.at);
                let next = Held { local, global: Some(global) };
                assert(self@.live() =~= Set::<int>::empty().insert(local.block()).insert(
                    global.block(),
                ));
                Ok(next)
            },
        }
    }

    fn one_block(&mut self, now: Held, w: &DFfc, ways: Ways) -> (res: Result<Held, String>)
        requires
            old(self).wf(),
            holds_only(old(self)@.live(), now),
            ffc_placed(*w),
        ensures
            match block_step(old(self)@, now, *w, ways) {
                Ok((t, next)) => res == Ok::<Held, String>(next) && final(self).wf() && final(self)@
                    == t && holds_only(final(self)@.live(), next),
                Err(text) => res matches Err(e) && e@ == text,
            },
    {
        let (local, global): (Tensor, Option<Tensor>) = match self.ffc(
            w,
            &now.local,
            now.global,
            (None, None),
            ways,
        ) {
            Ok(p) => p,
            Err(e) => {
                return Err(e);
            },
        };
        self.free(now.local.at);
        self.free_if(now.global);
        let next = Held { local, global };
        proof {
            lemma_only(self@.live(), next);
        }
        Ok(next)
    }

    fn two_blocks(&mut self, now: Held, a: &DFfc, b: &DFfc, ways: Ways) -> (res: Result<Held, String>)
        requires
            old(self).wf(),
            holds_only(old(self)@.live(), now),
            ffc_placed(*a),
            ffc_placed(*b),
        ensures
            match residual_step(old(self)@, now, *a, *b, ways) {
                Ok((t, next)) => res == Ok::<Held, String>(next) && final(self).wf() && final(self)@
                    == t && holds_only(final(self)@.live(), next),
                Err(text) => res matches Err(e) && e@ == text,
            },
    {
        let (l1, g1): (Tensor, Option<Tensor>) = match self.ffc(
            a,
            &now.local,
            now.global,
            (None, None),
            ways,
        ) {
            Ok(p) => p,
            Err(e) => {
                return Err(e);
            },
        };
        let (local, global): (Tensor, Option<Tensor>) = match self.ffc(
            b,
            &l1,
            g1,
            (Some(now.local), now.global),
            ways,
        ) {
            Ok(p) => p,
            Err(e) => {
                return Err(e);
            },
        };
        self.free(now.local.at);
        self.free_if(now.global);
        self.free_if(g1);
        self.free(l1.at);
        let next = Held { local, global };
        proof {
            lemma_only(self@.live(), next);
        }
        Ok(next)
    }

    fn stack(&mut self, now: Held) -> (res: Result<Held, String>)
        requires
            old(self).wf(),
            holds_only(old(self)@.live(), now),
        ensures
            match stack_step(old(self)@, now) {
                Ok((t, next)) => res == Ok::<Held, String>(next) && final(self).wf() && final(self)@
                    == t && holds_only(final(self)@.live(), next),
                Err(text) => res matches Err(e) && e@ == text,
            },
    {
        let g: Tensor = match now.global {
            Some(g) => g,
            None => {
                return Err("Concat without a global branch".to_owned());
            },
        };
        let local: Tensor = match self.concat(&now.local, &g) {
            Ok(t) => t,
            Err(e) => {
                return Err(e);
            },
        };
        self.free(now.local.at);
        self.free(g.at);
        let next = Held { local, global: None };
        proof {
            lemma_only(self@.live(), next);
        }
        Ok(next)
    }

    fn upsample_both(&mut self, now: Held, cv: &DConvT, bn: &DBn, ways: Ways) -> (res: Result<Held, String>)
        requires
            old(self).wf(),
            holds_only(old(self)@.live(), now),
            convt_placed(*cv),
            bn_placed(*bn),
        ensures
            match upsample_step(old(self)@, now, *cv, *bn, ways) {
                Ok((t, next)) => res == Ok::<Held, String>(next) && final(self).wf() && final(self)@
                    == t && holds_only(final(self)@.live(), next),
                Err(text) => res matches Err(e) && e@ == text,
            },
    {
        let local: Tensor = match self.upsample(cv, &now.local, ways.gather) {
            Ok(t) => t,
            Err(e) => {
                return Err(e);
            },
        };
        match self.bn_relu(&local, bn) {
            Ok(_) => {},
            Err(e) => {
                return Err(e);
            },
        }
        self.free(now.local.at);
        self.free_if(now.global);
        let next = Held { local, global: None };
        proof {
            lemma_only(self@.live(), next);
        }
        Ok(next)
    }

    fn output(&mut self, now: Held, cv: &DConv) -> (res: Result<Held, String>)
        requires
            old(self).wf(),
            holds_only(old(self)@.live(), now),
            conv_placed(*cv),
        ensures
            match output_step(old(self)@, now, *cv) {
                Ok((t, next)) => res == Ok::<Held, String>(next) && final(self).wf() && final(self)@
                    == t && holds_only(final(self)@.live(), next),
                Err(text) => res matches Err(e) && e@ == text,
            },
    {
        let local: Tensor = match self.conv(cv, &now.local, 0, 1, false) {
            Ok(t) => t,
            Err(e) => {
                return Err(e);
            },
        };
        match self.sigmoid(&local) {
            Ok(_) => {},
            Err(e) => {
                return Err(e);
            },
        }
        self.free(now.local.at);
        self.free_if(now.global);
        let next = Held { local, global: None };
        proof {
            lemma_only(self@.live(), next);
        }
        Ok(next)
    }

    fn step(&mut self, now: Held, s: &DStep, ways: Ways) -> (res: Result<Held, String>)
        requires
            old(self).wf(),
            holds_only(old(self)@.live(), now),
            step_placed(*s),
        ensures
            match step_tape(old(self)@, now, *s, ways) {
                Ok((t, next)) => res == Ok::<Held, String>(next) && final(self).wf() && final(self)@
                    == t && holds_only(final(self)@.live(), next),
                Err(text) => res matches Err(e) && e@ == text,
            },
    {
        match s {
            DStep::ReflectPad(p) => self.pad_both(now, *p),
            DStep::Ffc(w) => self.one_block(now, w, ways),
            DStep::Res(a, b) => self.two_blocks(now, a, b, ways),
            DStep::Concat => self.stack(now),
            DStep::Upsample(cv, bn) => self.upsample_both(now, cv, bn, ways),
            DStep::OutConv(cv) => self.output(now, cv),
        }
    }
}

/// A planned pass: its commands and the planes that hold the result in the end.
#[derive(Debug, Clone)]
pub struct PlannedPass {
    pub commands: Vec<Command>,
    pub result: Tensor,
}

/// Plan a whole pass.  It touches no block that has been given back, gives none back
/// twice, and leaves only the block of its result.
pub fn plan_pass(steps: &Vec<DStep>, h: usize, w: usize, ways: Ways) -> (res: Result<PlannedPass, String>)
    requires
        forall|i: int| 0 <= i < steps@.len() ==> step_placed(#[trigger] steps@[i]),
    ensures
        match pass_tape(steps@, h, w, ways) {
            Ok((t, out)) => res matches Ok(p) && p.result == out && t.acts
                == p.commands@.map_values(|c: Command| crate::device::act_of(c)) && t.sound()
                && t.live() == Set::<int>::empty().insert(out.block()),
            Err(text) => res matches Err(e) && e@ == text,
        },
{
    let mut program: Program = Program::new();
    let shape = Tensor { at: Addr { base: Base::Block(0), offset: 0 }, c: 4, h, w };
    if !is_small(&shape) {
        return Err(unfit_text());
    }
    let at: Addr = program.reserve(4 * (h * w));
    let mut now = Held { local: shape, global: None };
    assert(program@.live() =~= Set::<int>::empty().insert(0));
    let mut i: usize = 0;
    while i < steps.len()
        invariant
            forall|i: int| 0 <= i < steps@.len() ==> step_placed(#[trigger] steps@[i]),
            i <= steps@.len(),
            program.wf(),
            holds_only(program@.live(), now),
            pass_tape(steps@, h, w, ways) == pass_from(program@, now, steps@, i as nat, ways),
        decreases steps@.len() - i,
    {
        match program.step(now, &steps[i], ways) {
            Ok(next) => {
                now = next;
            },
            Err(e) => {
                return Err(e);
            },
        }
        let last: bool = match &steps[i] {
            DStep::OutConv(_) => true,
            _ => false,
        };
        if last {
            assert(now.global is None);
            return Ok(PlannedPass { commands: program.commands, result: now.local });
        }
        i += 1;
    }
    program.free_if(now.global);
    assert(program@.live() =~= Set::<int>::empty().insert(now.local.block()));
    Ok(PlannedPass { commands: program.commands, result: now.local })
}

/// A set that holds exactly the blocks of the planes.
proof fn lemma_only(live: Set<int>, now: Held)
    requires
        now.local.at.base is Block,
        live.contains(now.local.block()),
        now.global matches Some(g) ==> g.at.base is Block && g.block() != now.local.block()
            && live.contains(g.block()),
        forall|b: int| #[trigger]
            live.contains(b) ==> b == now.local.block() || (now.global matches Some(g) && b
                == g.block()),
    ensures
        holds_only(live, now),
{
    match now.global {
        Some(g) => {
            assert(live =~= Set::<int>::empty().insert(now.local.block()).insert(g.block()));
        },
        None => {
            assert(live =~= Set::<int>::empty().insert(now.local.block()));
        },
    }
}

} // verus!
