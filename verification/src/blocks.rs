//! That a planned block, and a planned residual block of two, agree with the host's.
//!
//! A block of the network is planned from convolutions, sums, norms and a spectral branch.
//! Where the kernels of these compute what the host's do, for every padding, stride and
//! mirroring that they are launched with, a planned block computes what the host's block
//! makes of the same planes, and so do two of them with their skip connections.

use vstd::prelude::*;

use crate::acts::{rectified, summed, Planes};
use crate::agree::{fitted, holds, host_parts, keeps, keeps_below, keeps_but, law_device_branch_agrees_with_the_hosts, law_planned_branch_computes, lemma_stays, Machine, Memory};
use crate::conv::{convolved, Conv2dW};
use crate::device::Tape;
use crate::ffc::{can_ffc, conv_part, conv_part_shape, ffc_of, finished, global_branch, global_shape, local_branch, local_shape, shape_of, shape_of_opt, spectral_part, spectral_part_shape, united, FfcWeights};
use crate::fold::is_trace;
use crate::gpu::{fourier_tape, reduce_tape, spectral_tape, DSpectral};
use crate::gpu_pass::{close_tape, ffc_tape, first_tape, free_opt, global_tape, join_tape, local_or_hollow, local_side, local_tape, residual_step, window, DFfc, Held, Ways};
use crate::kernels::{add_tape, bn_relu_add_tape, bn_relu_tape, conv_tape, DBn, DConv, Planned, Tensor};
use crate::meaning::{goes_on, lemma_goes_on};
use crate::net::{can_residual, residual_of, skipped, Shapes, State};
use crate::norm::{normed, Bn};
use crate::scalar::Scalar;
use crate::spectral::{activated, can_spectral, fourier_of, reduced, reduced_extent, spectral_of, Spectral};

verus! {

/// `r` is `a` with a skip connection added, if there is one.
pub open spec fn with_skip<S: Scalar>(skip: Option<Planes<S>>, a: Planes<S>, r: Planes<S>) -> bool {
    match skip {
        Some(s) => summed(s, a, r),
        None => r == a,
    }
}

/// The planes of a tensor, if there is one, are `p`.
pub open spec fn holds_opt<S>(m: Memory<S>, t: Option<Tensor>, p: Option<Planes<S>>) -> bool {
    match (t, p) {
        (Some(t), Some(p)) => holds(m, t, p),
        (None, None) => true,
        _ => false,
    }
}

impl<S: Scalar> Machine<S> {
    /// A convolution on the device computes what one on the host does, whatever it is
    /// launched with.
    pub open spec fn convolves(self, d: DConv, cv: Conv2dW<S>) -> bool {
        forall|
            pad: int,
            stride: int,
            mirror: bool,
            t: Tape,
            x: Tensor,
            m: Memory<S>,
            n: Memory<S>,
            p: Planes<S>,
        | #[trigger] self.convolves_at(d, cv, pad, stride, mirror, t, x, m, n, p)
    }

    /// One convolution on the device.
    pub open spec fn convolves_at(
        self,
        d: DConv,
        cv: Conv2dW<S>,
        pad: int,
        stride: int,
        mirror: bool,
        t: Tape,
        x: Tensor,
        m: Memory<S>,
        n: Memory<S>,
        p: Planes<S>,
    ) -> bool {
        match conv_tape(t, d, x, pad, stride, mirror) {
            Ok((u, out)) => d.cin <= x.c && x.block() < t.next && (d.kh == 1 && d.kw == 1 && stride == 1
                ==> pad == 0) && self.leads(t, u, m, n) && holds(m, x, p) ==> keeps_below(m, n, t.next)
                && exists|q: Planes<S>| #[trigger]
                holds(n, out, q) && convolved(cv, p, pad, stride, mirror, q),
            Err(_) => true,
        }
    }

    /// A BatchNorm on the device computes what one on the host does, with the rectifier and
    /// the skip connection.
    pub open spec fn closes(self, d: DBn, bn: Bn<S>) -> bool {
        forall|
            t: Tape,
            x: Tensor,
            skip: Option<Tensor>,
            m: Memory<S>,
            n: Memory<S>,
            p: Planes<S>,
            k: Option<Planes<S>>,
        | #[trigger] self.closes_at(d, bn, t, x, skip, m, n, p, k)
    }

    /// One BatchNorm on the device.
    pub open spec fn closes_at(
        self,
        d: DBn,
        bn: Bn<S>,
        t: Tape,
        x: Tensor,
        skip: Option<Tensor>,
        m: Memory<S>,
        n: Memory<S>,
        p: Planes<S>,
        k: Option<Planes<S>>,
    ) -> bool {
        bn_relu_add_tape(t, x, d, skip) matches Ok(u) && x.c == d.channels && self.leads(t, u, m, n)
            && holds(m, x, p) && holds_opt(m, skip, k) && (skip matches Some(s) ==> s.block() != x.block()
            && s.c == x.c && s.h == x.h && s.w == x.w) ==> keeps_but(m, n, x.block()) && exists|
            a: Planes<S>,
            b: Planes<S>,
            q: Planes<S>,
        |
            #![trigger normed(bn, p, a), rectified(a, b), holds(n, x, q)]
            normed(bn, p, a) && rectified(a, b) && with_skip(k, b, q) && holds(n, x, q)
    }

    /// An optional convolution of a block.
    pub open spec fn has_conv(self, d: Option<DConv>, cv: Option<Conv2dW<S>>) -> bool {
        match (d, cv) {
            (Some(d), Some(cv)) => d.cin == cv.cin && d.cout == cv.cout && d.kh == cv.kh && d.kw == cv.kw
                && self.convolves(d, cv),
            (None, None) => true,
            _ => false,
        }
    }

    /// An optional BatchNorm of a block.
    pub open spec fn has_norm(self, d: Option<DBn>, bn: Option<Bn<S>>, channels: int) -> bool {
        match (d, bn) {
            (Some(d), Some(bn)) => d.channels == channels && self.closes(d, bn),
            (None, None) => true,
            _ => false,
        }
    }

    /// The optional spectral branch of a block.
    pub open spec fn has_spectral(self, d: Option<DSpectral>, sp: Option<Spectral<S>>, channels: int) -> bool {
        match (d, sp) {
            (Some(d), Some(sp)) => {
                &&& self.works(d, host_parts(sp))
                &&& self.transforms(d.half as int)
                &&& d.half == sp.fu.half
                &&& d.conv2.cout == sp.conv2.cout
                &&& fitted(d, channels)
            },
            (None, None) => true,
            _ => false,
        }
    }

    /// The parameters of a block on the device are those of one on the host, and their
    /// kernels do what they are launched for.
    pub open spec fn has_block(self, d: DFfc, w: FfcWeights<S>) -> bool {
        &&& d.pad == w.pad
        &&& d.stride == w.stride
        &&& d.reflect == w.reflect
        &&& d.out_local == w.out_local
        &&& d.out_global == w.out_global
        &&& w.kernel != 1
        &&& self.has_conv(d.l2l, w.l2l)
        &&& self.has_conv(d.l2g, w.l2g)
        &&& self.has_conv(d.g2l, w.g2l)
        &&& self.has_norm(d.bn_l, w.bn_l, w.out_local as int)
        &&& self.has_norm(d.bn_g, w.bn_g, w.out_global as int)
        &&& self.has_spectral(d.spectral, w.spectral, d.in_global as int)
        &&& self.adds(|y: Planes<S>, x: Planes<S>, r: Planes<S>| summed(x, y, r))
        &&& w.out_local > 0 ==> d.l2l is Some && (d.l2l matches Some(c) && c.cout == w.out_local)
        &&& w.out_global > 0 ==> d.l2g is Some && (d.l2g matches Some(c) && c.cout == w.out_global)
        &&& forall|c: DConv|
            (d.l2l == Some(c) || d.l2g == Some(c) || d.g2l == Some(c)) ==> #[trigger] is_wide(c)
    }
}

/// A kernel larger than 1x1.
pub open spec fn is_wide(c: DConv) -> bool {
    c.kh != 1
}

/// A tensor lies at the beginning of a block from a number on.
pub open spec fn is_new(x: Tensor, from: int, to: int) -> bool {
    x.at.offset == 0 && x.at.base is Block && from <= x.block() < to
}

proof fn lemma_conv_goes_on(t: Tape, cv: DConv, src: Tensor, pad: int, stride: int, mirror: bool)
    requires
        0 <= t.next,
    ensures
        conv_tape(t, cv, src, pad, stride, mirror) matches Ok((u, out)) ==> goes_on(t, u) && is_new(
            out,
            t.next,
            u.next,
        ) && out.c == cv.cout,
{
}

proof fn lemma_fourier_goes_on(t: Tape, sp: DSpectral, feat: Tensor, host: bool)
    requires
        0 <= t.next,
    ensures
        fourier_tape(t, sp, feat, host) matches Ok((u, out)) ==> goes_on(t, u) && t.next <= u.next,
{
}

proof fn lemma_spectral_goes_on(t: Tape, sp: DSpectral, x: Tensor, host: bool)
    requires
        0 <= t.next,
    ensures
        spectral_tape(t, sp, x, host) matches Ok((u, out)) ==> goes_on(t, u) && is_new(out, t.next, u.next)
            && out.c == sp.conv2.cout,
{
    if let Ok((u, out)) = spectral_tape(t, sp, x, host) {
        let (t1, small) = reduce_tape(t, sp.stride as int, x)->Ok_0;
        assert(goes_on(t, t1) && t.next <= t1.next);
        let (t2, feat) = conv_tape(t1, sp.conv1, small, 0, 1, false)->Ok_0;
        lemma_conv_goes_on(t1, sp.conv1, small, 0, 1, false);
        let t3 = bn_relu_tape(t2, feat, sp.bn1)->Ok_0;
        assert(goes_on(t2, t3) && t3.next == t2.next);
        let (t4, inv) = fourier_tape(t3, sp, feat, host)->Ok_0;
        lemma_fourier_goes_on(t3, sp, feat, host);
        let t5 = add_tape(t4, inv, feat)->Ok_0;
        assert(goes_on(t4, t5) && t5.next == t4.next);
        let (t6, _) = conv_tape(t5, sp.conv2, inv, 0, 1, false)->Ok_0;
        lemma_conv_goes_on(t5, sp.conv2, inv, 0, 1, false);
        let t7 = t6.without(inv.at);
        let t8 = t7.without(feat.at);
        assert(goes_on(t6, t7) && goes_on(t7, t8) && goes_on(t8, u));
        lemma_goes_on(t7, t8, u);
        lemma_goes_on(t6, t7, u);
        lemma_goes_on(t5, t6, u);
        lemma_goes_on(t4, t5, u);
        lemma_goes_on(t3, t4, u);
        lemma_goes_on(t2, t3, u);
        lemma_goes_on(t1, t2, u);
        lemma_goes_on(t, t1, u);
    }
}

/// The plan of a spectral branch, taken as a whole.
#[verifier::opaque]
spec fn branch_plan(t: Tape, sp: DSpectral, x: Tensor, host: bool) -> Planned {
    spectral_tape(t, sp, x, host)
}

/// The parts of the plan of a global output: the convolution, the spectral branch, and what
/// comes after them.
proof fn lemma_global_parts(
    t: Tape,
    d: DFfc,
    x: Tensor,
    gt: Tensor,
    skip: Option<Tensor>,
    ways: Ways,
) -> (r: ((Tape, Tensor), (Tape, Tensor)))
    requires
        0 <= t.next,
        d.l2g is Some,
        d.spectral is Some,
        d.in_global == 0 || x.c == d.in_local,
        gt.c == d.in_global,
        global_tape(t, d, x, Some(gt), skip, ways) is Ok,
    ensures
        conv_tape(t, d.l2g->Some_0, x, d.pad as int, d.stride as int, d.reflect) == Ok::<(Tape, Tensor), Seq<char>>(
            r.0,
        ),
        branch_plan(r.0.0, d.spectral->Some_0, gt, ways.host_fft) == Ok::<(Tape, Tensor), Seq<char>>(r.1),
        join_tape(r.1.0, r.0.1, r.1.1) is Ok,
        close_tape(
            join_tape(r.1.0, r.0.1, r.1.1)->Ok_0.0,
            join_tape(r.1.0, r.0.1, r.1.1)->Ok_0.1,
            d.bn_g,
            skip,
        ) == global_tape(t, d, x, Some(gt), skip, ways),
        goes_on(t, r.0.0),
        is_new(r.0.1, t.next, r.0.0.next),
        r.0.1.c == d.l2g->Some_0.cout,
        goes_on(r.0.0, r.1.0),
        is_new(r.1.1, r.0.0.next, r.1.0.next),
        goes_on(r.1.0, global_tape(t, d, x, Some(gt), skip, ways)->Ok_0.0),
{
    reveal(branch_plan);
    let c1 = d.l2g->Some_0;
    let sp = d.spectral->Some_0;
    let (pad, stride) = (d.pad as int, d.stride as int);
    assert(local_side(d, x) == x);
    assert(0 * gt.area() == 0);
    assert(window(gt, gt.c - d.in_global, d.in_global) == gt);
    let (t1, a) = conv_tape(t, c1, x, pad, stride, d.reflect)->Ok_0;
    let (t2, b) = spectral_tape(t1, sp, gt, ways.host_fft)->Ok_0;
    lemma_conv_goes_on(t, c1, x, pad, stride, d.reflect);
    lemma_spectral_goes_on(t1, sp, gt, ways.host_fft);
    let t3 = join_tape(t2, a, b)->Ok_0.0;
    let u = global_tape(t, d, x, Some(gt), skip, ways)->Ok_0.0;
    assert(goes_on(t2, t3) && goes_on(t3, u));
    lemma_goes_on(t2, t3, u);
    ((t1, a), (t2, b))
}

/// The extents of what a spectral branch makes.
proof fn lemma_spectral_shape<S: Scalar>(sp: Spectral<S>, x: Planes<S>, out: Planes<S>)
    requires
        spectral_of(sp, x, out),
        sp.conv1.kh == 1,
        sp.conv1.kw == 1,
        sp.conv2.kh == 1,
        sp.conv2.kw == 1,
    ensures
        out.shaped(
            sp.conv2.cout as int,
            reduced_extent(sp.stride as int, x.h),
            reduced_extent(sp.stride as int, x.w),
        ),
{
    let (a, feat, f, t) = choose|a: Planes<S>, feat: Planes<S>, f: Planes<S>, t: Planes<S>|
        #![trigger reduced(sp.stride as int, x, a), activated(sp.conv1, sp.bn1, a, feat), fourier_of(sp.fu, feat, f), summed(feat, f, t)]
        {
            &&& reduced(sp.stride as int, x, a)
            &&& activated(sp.conv1, sp.bn1, a, feat)
            &&& fourier_of(sp.fu, feat, f)
            &&& summed(feat, f, t)
            &&& convolved(sp.conv2, t, 0, 1, false, out)
        };
    let (b, c) = choose|b: Planes<S>, c: Planes<S>|
        #![trigger convolved(sp.conv1, a, 0, 1, false, b), normed(sp.bn1, b, c)]
        convolved(sp.conv1, a, 0, 1, false, b) && normed(sp.bn1, b, c) && rectified(c, feat);
    assert(convolved(sp.conv1, a, 0, 1, false, b));
}

impl<S: Scalar> Machine<S> {
    /// One of the block's convolutions.
    proof fn lemma_conv(
        self,
        d: DConv,
        cv: Conv2dW<S>,
        pad: int,
        stride: int,
        mirror: bool,
        t: Tape,
        x: Tensor,
        m: Memory<S>,
        n: Memory<S>,
        p: Planes<S>,
    ) -> (q: Planes<S>)
        requires
            0 <= t.next,
            self.convolves(d, cv),
            d.cin <= x.c,
            d.kh != 1,
            x.block() < t.next,
            conv_tape(t, d, x, pad, stride, mirror) is Ok,
            self.leads(t, conv_tape(t, d, x, pad, stride, mirror)->Ok_0.0, m, n),
            holds(m, x, p),
        ensures
            keeps_below(m, n, t.next),
            holds(n, conv_tape(t, d, x, pad, stride, mirror)->Ok_0.1, q),
            convolved(cv, p, pad, stride, mirror, q),
    {
        assert(self.convolves_at(d, cv, pad, stride, mirror, t, x, m, n, p));
        let out = conv_tape(t, d, x, pad, stride, mirror)->Ok_0.1;
        choose|q: Planes<S>| #[trigger] holds(n, out, q) && convolved(cv, p, pad, stride, mirror, q)
    }

    /// The sum of two parts of a branch.
    proof fn lemma_join(
        self,
        t: Tape,
        a: Tensor,
        b: Tensor,
        m: Memory<S>,
        n: Memory<S>,
        p: Planes<S>,
        q: Planes<S>,
        next: int,
    ) -> (r: Planes<S>)
        requires
            self.adds(|y: Planes<S>, x: Planes<S>, r: Planes<S>| summed(x, y, r)),
            0 < a.c,
            a.c == b.c,
            a.h == b.h,
            a.w == b.w,
            a.at.base is Block,
            b.at.base is Block,
            a.block() != b.block(),
            next <= a.block(),
            next <= b.block(),
            join_tape(t, a, b) is Ok,
            self.leads(t, join_tape(t, a, b)->Ok_0.0, m, n),
            holds(m, a, p),
            holds(m, b, q),
        ensures
            goes_on(t, join_tape(t, a, b)->Ok_0.0),
            join_tape(t, a, b)->Ok_0.0.next == t.next,
            join_tape(t, a, b)->Ok_0.1 == a,
            keeps_below(m, n, next),
            holds(n, a, r),
            summed(p, q, r),
    {
        let t1 = add_tape(t, a, b)->Ok_0;
        let t2 = t1.without(b.at);
        assert(join_tape(t, a, b)->Ok_0.0 == t2);
        let mid = self.lemma_via(t, t1, t2, m, n);
        let rel = |y: Planes<S>, x: Planes<S>, r: Planes<S>| summed(x, y, r);
        assert(self.adds_at(rel, t, a, b, m, mid, p, q));
        let r = choose|r: Planes<S>| #[trigger] holds(mid, a, r) && rel(q, p, r);
        self.lemma_freed(t1, b.at, mid, n);
        assert(keeps(mid, n, a.block()));
        lemma_stays(mid, n, a, r);
        assert forall|k: int| k < next implies #[trigger] keeps(m, n, k) by {
            assert(keeps(m, mid, k) && keeps(mid, n, k));
        }
        r
    }

    /// The end of a branch: what is left without and with the skip connection.
    proof fn lemma_close(
        self,
        d: Option<DBn>,
        bn: Option<Bn<S>>,
        t: Tape,
        x: Tensor,
        skip: Option<Tensor>,
        m: Memory<S>,
        n: Memory<S>,
        p: Planes<S>,
        k: Option<Planes<S>>,
        next: int,
    ) -> (r: (Planes<S>, Planes<S>))
        requires
            self.has_norm(d, bn, x.c as int),
            d is None ==> skip is None,
            next <= x.block(),
            skip matches Some(s) ==> s.block() < next && s.c == x.c && s.h == x.h && s.w == x.w,
            close_tape(t, x, d, skip) is Ok,
            self.leads(t, close_tape(t, x, d, skip)->Ok_0.0, m, n),
            holds(m, x, p),
            holds_opt(m, skip, k),
        ensures
            goes_on(t, close_tape(t, x, d, skip)->Ok_0.0),
            close_tape(t, x, d, skip)->Ok_0.0.next == t.next,
            close_tape(t, x, d, skip)->Ok_0.1 == x,
            keeps_below(m, n, next),
            finished(bn, p, r.0),
            shape_of(r.0) == shape_of(p),
            with_skip(k, r.0, r.1),
            holds(n, x, r.1),
    {
        match (d, bn) {
            (Some(b), Some(h)) => {
                assert(self.closes_at(b, h, t, x, skip, m, n, p, k));
                let (a, b, q) = choose|a: Planes<S>, b: Planes<S>, q: Planes<S>|
                    #![trigger normed(h, p, a), rectified(a, b), holds(n, x, q)]
                    normed(h, p, a) && rectified(a, b) && with_skip(k, b, q) && holds(n, x, q);
                assert(normed(h, p, a) && rectified(a, b));
                assert forall|i: int| i < next implies #[trigger] keeps(m, n, i) by {
                    assert(keeps(m, n, i));
                }
                (b, q)
            },
            _ => {
                self.lemma_no_commands(t, m, n);
                (p, p)
            },
        }
    }

    proof fn lemma_no_commands(self, t: Tape, m: Memory<S>, n: Memory<S>)
        requires
            self.leads(t, t, m, n),
        ensures
            n == m,
    {
        let acts = t.acts.skip(t.acts.len() as int);
        let trace = choose|trace: Seq<Memory<S>>| #[trigger]
            is_trace(trace, m, self.steps(acts), acts.len(), n);
        assert(acts.len() == 0);
    }

    /// The sum of two parts of a branch, and its end.
    proof fn lemma_join_and_close(
        self,
        d: Option<DBn>,
        bn: Option<Bn<S>>,
        t: Tape,
        a: Tensor,
        b: Tensor,
        skip: Option<Tensor>,
        m: Memory<S>,
        n: Memory<S>,
        p: Planes<S>,
        q: Planes<S>,
        k: Option<Planes<S>>,
        next: int,
    ) -> (r: (Planes<S>, Planes<S>, Planes<S>))
        requires
            self.adds(|y: Planes<S>, x: Planes<S>, r: Planes<S>| summed(x, y, r)),
            self.has_norm(d, bn, a.c as int),
            d is None ==> skip is None,
            0 < a.c,
            shape_of(p) == shape_of(q),
            a.at.base is Block,
            b.at.base is Block,
            a.block() != b.block(),
            next <= a.block(),
            next <= b.block(),
            skip matches Some(s) ==> s.block() < next,
            k matches Some(k) ==> shape_of(k) == shape_of(p),
            join_tape(t, a, b) is Ok,
            close_tape(join_tape(t, a, b)->Ok_0.0, a, d, skip) is Ok,
            self.leads(t, close_tape(join_tape(t, a, b)->Ok_0.0, a, d, skip)->Ok_0.0, m, n),
            holds(m, a, p),
            holds(m, b, q),
            holds_opt(m, skip, k),
        ensures
            close_tape(join_tape(t, a, b)->Ok_0.0, a, d, skip)->Ok_0.0.next == t.next,
            close_tape(join_tape(t, a, b)->Ok_0.0, a, d, skip)->Ok_0.1 == a,
            keeps_below(m, n, next),
            summed(p, q, r.0),
            finished(bn, r.0, r.1),
            shape_of(r.1) == shape_of(p),
            with_skip(k, r.1, r.2),
            holds(n, a, r.2),
    {
        let t1 = join_tape(t, a, b)->Ok_0.0;
        let u = close_tape(t1, a, d, skip)->Ok_0.0;
        assert(goes_on(t, t1) && goes_on(t1, u));
        let mid = self.lemma_via(t, t1, u, m, n);
        let sum = self.lemma_join(t, a, b, m, mid, p, q, next);
        if let Some(s) = skip {
            assert(keeps(m, mid, s.block()));
            lemma_stays(m, mid, s, k->Some_0);
        }
        let r = self.lemma_close(d, bn, t1, a, skip, mid, n, sum, k, next);
        assert forall|i: int| i < next implies #[trigger] keeps(m, n, i) by {
            assert(keeps(m, mid, i) && keeps(mid, n, i));
        }
        (sum, r.0, r.1)
    }

    /// The spectral branch of a block.
    proof fn lemma_branch(
        self,
        sp: DSpectral,
        hs: Spectral<S>,
        t: Tape,
        x: Tensor,
        host: bool,
        m: Memory<S>,
        n: Memory<S>,
        p: Planes<S>,
    ) -> (q: Planes<S>)
        requires
            0 <= t.next,
            self.has_spectral(Some(sp), Some(hs), x.c as int),
            can_spectral(hs, p.c, p.h, p.w),
            x.block() < t.next,
            branch_plan(t, sp, x, host) is Ok,
            self.leads(t, branch_plan(t, sp, x, host)->Ok_0.0, m, n),
            holds(m, x, p),
        ensures
            keeps_below(m, n, t.next),
            holds(n, branch_plan(t, sp, x, host)->Ok_0.1, q),
            spectral_of(hs, p, q),
            q.shaped(
                hs.conv2.cout as int,
                reduced_extent(hs.stride as int, p.h),
                reduced_extent(hs.stride as int, p.w),
            ),
    {
        reveal(branch_plan);
        law_planned_branch_computes(self, host_parts(hs), t, sp, x, host, m, n, p);
        law_device_branch_agrees_with_the_hosts(self, hs, t, sp, x, host, m, n, p);
        let b = spectral_tape(t, sp, x, host)->Ok_0.1;
        let q = choose|q: Planes<S>| #[trigger] holds(n, b, q) && spectral_of(hs, p, q);
        lemma_spectral_shape(hs, p, q);
        q
    }

    /// The local output.
    proof fn lemma_local(
        self,
        d: DFfc,
        w: FfcWeights<S>,
        t: Tape,
        x: Tensor,
        g: Option<Tensor>,
        skip: Option<Tensor>,
        m: Memory<S>,
        n: Memory<S>,
        p: Planes<S>,
        pg: Option<Planes<S>>,
        k: Option<Planes<S>>,
    ) -> (r: (Planes<S>, Planes<S>))
        requires
            0 <= t.next,
            self.has_block(d, w),
            w.out_local > 0,
            can_ffc(w, shape_of(p), shape_of_opt(pg)),
            d.in_global == 0 || x.c == d.in_local,
            x.block() < t.next,
            g matches Some(g) ==> g.block() < t.next,
            d.bn_l is None ==> skip is None,
            skip matches Some(s) ==> s.block() < t.next,
            k matches Some(k) ==> shape_of(k) == local_shape(w, shape_of(p), shape_of_opt(pg)),
            local_tape(t, d, x, g, skip) is Ok,
            self.leads(t, local_tape(t, d, x, g, skip)->Ok_0.0, m, n),
            holds(m, x, p),
            holds_opt(m, g, pg),
            holds_opt(m, skip, k),
        ensures
            goes_on(t, local_tape(t, d, x, g, skip)->Ok_0.0),
            is_new(
                local_tape(t, d, x, g, skip)->Ok_0.1,
                t.next,
                local_tape(t, d, x, g, skip)->Ok_0.0.next,
            ),
            keeps_below(m, n, t.next),
            local_branch(w, p, pg, r.0),
            shape_of(r.0) == local_shape(w, shape_of(p), shape_of_opt(pg)),
            with_skip(k, r.0, r.1),
            holds(n, local_tape(t, d, x, g, skip)->Ok_0.1, r.1),
    {
        let (u, l) = local_tape(t, d, x, g, skip)->Ok_0;
        let c1 = d.l2l->Some_0;
        let h1 = w.l2l->Some_0;
        assert(is_wide(c1));
        let (pad, stride) = (d.pad as int, d.stride as int);
        assert(local_side(d, x) == x);
        let (t1, a) = conv_tape(t, c1, x, pad, stride, d.reflect)->Ok_0;
        assert(first_tape(t, d, d.l2l, x) == Ok::<(Tape, Tensor), Seq<char>>((t1, a)));
        lemma_conv_goes_on(t, c1, x, pad, stride, d.reflect);
        match d.g2l {
            None => {
                assert(goes_on(t1, u));
                let m1 = self.lemma_via(t, t1, u, m, n);
                let qa = self.lemma_conv(c1, h1, pad, stride, d.reflect, t, x, m, m1, p);
                if let Some(s) = skip {
                    assert(keeps(m, m1, s.block()));
                    lemma_stays(m, m1, s, k->Some_0);
                }
                let r = self.lemma_close(d.bn_l, w.bn_l, t1, a, skip, m1, n, qa, k, t.next);
                lemma_goes_on(t, t1, u);
                assert(conv_part(w, w.l2l, Some(p), Some(qa)));
                assert(conv_part(w, w.g2l, pg, None));
                assert(united(Some(qa), None, p, qa));
                assert forall|i: int| i < t.next implies #[trigger] keeps(m, n, i) by {
                    assert(keeps(m, m1, i) && keeps(m1, n, i));
                }
                r
            },
            Some(c2) => {
                let h2 = w.g2l->Some_0;
                assert(is_wide(c2));
                let gt = g->Some_0;
                let gp = pg->Some_0;
                let (t2, b) = conv_tape(t1, c2, gt, pad, stride, d.reflect)->Ok_0;
                lemma_conv_goes_on(t1, c2, gt, pad, stride, d.reflect);
                let t3 = join_tape(t2, a, b)->Ok_0.0;
                assert(goes_on(t2, t3) && goes_on(t3, u));
                lemma_goes_on(t2, t3, u);
                lemma_goes_on(t1, t2, u);
                lemma_goes_on(t, t1, u);
                let m1 = self.lemma_via(t, t1, u, m, n);
                let m2 = self.lemma_via(t1, t2, u, m1, n);
                let qa = self.lemma_conv(c1, h1, pad, stride, d.reflect, t, x, m, m1, p);
                assert(keeps(m, m1, gt.block()));
                lemma_stays(m, m1, gt, gp);
                let qb = self.lemma_conv(c2, h2, pad, stride, d.reflect, t1, gt, m1, m2, gp);
                assert(keeps(m1, m2, a.block()));
                lemma_stays(m1, m2, a, qa);
                assert(shape_of(qa) == conv_part_shape(w, w.l2l, Some(shape_of(p)))->Some_0);
                assert(shape_of(qb) == conv_part_shape(w, w.g2l, shape_of_opt(pg))->Some_0);
                if let Some(s) = skip {
                    assert(keeps(m, m1, s.block()) && keeps(m1, m2, s.block()));
                    lemma_stays(m, m1, s, k->Some_0);
                    lemma_stays(m1, m2, s, k->Some_0);
                }
                let r = self.lemma_join_and_close(d.bn_l, w.bn_l, t2, a, b, skip, m2, n, qa, qb, k, t.next);
                assert(conv_part(w, w.l2l, Some(p), Some(qa)));
                assert(conv_part(w, w.g2l, pg, Some(qb)));
                assert(united(Some(qa), Some(qb), p, r.0));
                assert forall|i: int| i < t.next implies #[trigger] keeps(m, n, i) by {
                    assert(keeps(m, m1, i) && keeps(m1, m2, i) && keeps(m2, n, i));
                }
                (r.1, r.2)
            },
        }
    }

    /// The global output.
    #[verifier::spinoff_prover]
    #[verifier::rlimit(60)]
    proof fn lemma_global(
        self,
        d: DFfc,
        w: FfcWeights<S>,
        t: Tape,
        x: Tensor,
        g: Option<Tensor>,
        skip: Option<Tensor>,
        ways: Ways,
        m: Memory<S>,
        n: Memory<S>,
        p: Planes<S>,
        pg: Option<Planes<S>>,
        k: Option<Planes<S>>,
    ) -> (r: (Planes<S>, Planes<S>))
        requires
            0 <= t.next,
            self.has_block(d, w),
            w.out_global > 0,
            can_ffc(w, shape_of(p), shape_of_opt(pg)),
            d.in_global == 0 || x.c == d.in_local,
            g matches Some(g) ==> g.c == d.in_global,
            x.block() < t.next,
            g matches Some(g) ==> g.block() < t.next,
            d.bn_g is None ==> skip is None,
            skip matches Some(s) ==> s.block() < t.next,
            k matches Some(k) ==> shape_of(k) == global_shape(w, shape_of(p), shape_of_opt(pg)),
            global_tape(t, d, x, g, skip, ways) is Ok,
            self.leads(t, global_tape(t, d, x, g, skip, ways)->Ok_0.0, m, n),
            holds(m, x, p),
            holds_opt(m, g, pg),
            holds_opt(m, skip, k),
        ensures
            is_new(
                global_tape(t, d, x, g, skip, ways)->Ok_0.1,
                t.next,
                global_tape(t, d, x, g, skip, ways)->Ok_0.0.next,
            ),
            keeps_below(m, n, t.next),
            global_branch(w, p, pg, r.0),
            shape_of(r.0) == global_shape(w, shape_of(p), shape_of_opt(pg)),
            with_skip(k, r.0, r.1),
            holds(n, global_tape(t, d, x, g, skip, ways)->Ok_0.1, r.1),
    {
        let (u, l) = global_tape(t, d, x, g, skip, ways)->Ok_0;
        let c1 = d.l2g->Some_0;
        let h1 = w.l2g->Some_0;
        assert(is_wide(c1));
        let (pad, stride) = (d.pad as int, d.stride as int);
        assert(local_side(d, x) == x);
        let (t1, a) = conv_tape(t, c1, x, pad, stride, d.reflect)->Ok_0;
        assert(first_tape(t, d, d.l2g, x) == Ok::<(Tape, Tensor), Seq<char>>((t1, a)));
        lemma_conv_goes_on(t, c1, x, pad, stride, d.reflect);
        match d.spectral {
            None => {
                assert(goes_on(t1, u));
                let m1 = self.lemma_via(t, t1, u, m, n);
                let qa = self.lemma_conv(c1, h1, pad, stride, d.reflect, t, x, m, m1, p);
                if let Some(s) = skip {
                    assert(keeps(m, m1, s.block()));
                    lemma_stays(m, m1, s, k->Some_0);
                }
                let r = self.lemma_close(d.bn_g, w.bn_g, t1, a, skip, m1, n, qa, k, t.next);
                assert(conv_part(w, w.l2g, Some(p), Some(qa)));
                assert(spectral_part(w.spectral, pg, None));
                assert(united(Some(qa), None, p, qa));
                assert forall|i: int| i < t.next implies #[trigger] keeps(m, n, i) by {
                    assert(keeps(m, m1, i) && keeps(m1, n, i));
                }
                r
            },
            Some(sp) => {
                let gt = g->Some_0;
                let parts = lemma_global_parts(t, d, x, gt, skip, ways);
                self.lemma_global_by_parts(d, w, t, x, gt, skip, ways.host_fft, parts.0, parts.1, u, m, n, p, pg->Some_0, k)
            },
        }
    }

    #[verifier::spinoff_prover]
    proof fn lemma_global_by_parts(
        self,
        d: DFfc,
        w: FfcWeights<S>,
        t: Tape,
        x: Tensor,
        gt: Tensor,
        skip: Option<Tensor>,
        host: bool,
        first: (Tape, Tensor),
        second: (Tape, Tensor),
        u: Tape,
        m: Memory<S>,
        n: Memory<S>,
        p: Planes<S>,
        gp: Planes<S>,
        k: Option<Planes<S>>,
    ) -> (r: (Planes<S>, Planes<S>))
        requires
            0 <= t.next,
            self.has_block(d, w),
            w.out_global > 0,
            d.spectral is Some,
            can_ffc(w, shape_of(p), Some(shape_of(gp))),
            gt.c == d.in_global,
            x.block() < t.next,
            gt.block() < t.next,
            d.bn_g is None ==> skip is None,
            skip matches Some(s) ==> s.block() < t.next,
            k matches Some(k) ==> shape_of(k) == global_shape(w, shape_of(p), Some(shape_of(gp))),
            conv_tape(t, d.l2g->Some_0, x, d.pad as int, d.stride as int, d.reflect) == Ok::<(Tape, Tensor), Seq<char>>(
                first,
            ),
            branch_plan(first.0, d.spectral->Some_0, gt, host) == Ok::<(Tape, Tensor), Seq<char>>(second),
            join_tape(second.0, first.1, second.1) is Ok,
            close_tape(join_tape(second.0, first.1, second.1)->Ok_0.0, first.1, d.bn_g, skip) == Ok::<(Tape, Tensor), Seq<char>>(
                (u, first.1),
            ),
            goes_on(t, first.0),
            is_new(first.1, t.next, first.0.next),
            first.1.c == d.l2g->Some_0.cout,
            goes_on(first.0, second.0),
            is_new(second.1, first.0.next, second.0.next),
            goes_on(second.0, u),
            self.leads(t, u, m, n),
            holds(m, x, p),
            holds(m, gt, gp),
            holds_opt(m, skip, k),
        ensures
            u.next == second.0.next,
            keeps_below(m, n, t.next),
            global_branch(w, p, Some(gp), r.0),
            shape_of(r.0) == global_shape(w, shape_of(p), Some(shape_of(gp))),
            with_skip(k, r.0, r.1),
            holds(n, first.1, r.1),
    {
        let c1 = d.l2g->Some_0;
        let h1 = w.l2g->Some_0;
        assert(is_wide(c1));
        let sp = d.spectral->Some_0;
        let hs = w.spectral->Some_0;
        let (pad, stride) = (d.pad as int, d.stride as int);
        let (t1, a) = first;
        let (t2, b) = second;
        let pg = Some(gp);
        lemma_goes_on(t1, t2, u);
        let m1 = self.lemma_via(t, t1, u, m, n);
        let m2 = self.lemma_via(t1, t2, u, m1, n);
        let qa = self.lemma_conv(c1, h1, pad, stride, d.reflect, t, x, m, m1, p);
        assert(keeps(m, m1, gt.block()));
        lemma_stays(m, m1, gt, gp);
        let qb = self.lemma_branch(sp, hs, t1, gt, host, m1, m2, gp);
        assert(keeps(m1, m2, a.block()));
        lemma_stays(m1, m2, a, qa);
        assert(shape_of(qa) == conv_part_shape(w, w.l2g, Some(shape_of(p)))->Some_0);
        assert(shape_of(qb) == spectral_part_shape(w.spectral, shape_of_opt(pg))->Some_0);
        if let Some(s) = skip {
            assert(keeps(m, m1, s.block()) && keeps(m1, m2, s.block()));
            lemma_stays(m, m1, s, k->Some_0);
            lemma_stays(m1, m2, s, k->Some_0);
        }
        let r = self.lemma_join_and_close(d.bn_g, w.bn_g, t2, a, b, skip, m2, n, qa, qb, k, t.next);
        assert(conv_part(w, w.l2g, Some(p), Some(qa)));
        assert(spectral_part(w.spectral, pg, Some(qb)));
        assert(united(Some(qa), Some(qb), p, r.0));
        assert forall|i: int| i < t.next implies #[trigger] keeps(m, n, i) by {
            assert(keeps(m, m1, i) && keeps(m1, m2, i) && keeps(m2, n, i));
        }
        (r.1, r.2)
    }
}

/// What planning a block comes to on the device is what the host's block makes of the same
/// planes: its local and its global output, with the skip connections added if there are
/// any.  The planes that were there before stay as they were.
#[verifier::spinoff_prover]
#[verifier::rlimit(100)]
pub proof fn law_planned_block_agrees_with_the_hosts<S: Scalar>(
    machine: Machine<S>,
    d: DFfc,
    w: FfcWeights<S>,
    t: Tape,
    x: Tensor,
    g: Option<Tensor>,
    skip: (Option<Tensor>, Option<Tensor>),
    ways: Ways,
    m: Memory<S>,
    n: Memory<S>,
    p: Planes<S>,
    pg: Option<Planes<S>>,
    kl: Option<Planes<S>>,
    kg: Option<Planes<S>>,
) -> (r: ((Planes<S>, Option<Planes<S>>), (Planes<S>, Option<Planes<S>>)))
    requires
        0 <= t.next,
        machine.has_block(d, w),
        w.out_local > 0,
        can_ffc(w, shape_of(p), shape_of_opt(pg)),
        d.in_global == 0 || x.c == d.in_local,
        g matches Some(g) ==> g.c == d.in_global && g.block() < t.next,
        x.block() < t.next,
        d.bn_l is None ==> skip.0 is None,
        d.bn_g is None ==> skip.1 is None,
        skip.0 matches Some(s) ==> s.block() < t.next,
        skip.1 matches Some(s) ==> s.block() < t.next,
        kl matches Some(k) ==> shape_of(k) == local_shape(w, shape_of(p), shape_of_opt(pg)),
        kg matches Some(k) ==> shape_of(k) == global_shape(w, shape_of(p), shape_of_opt(pg)),
        ffc_tape(t, d, x, g, skip, ways) is Ok,
        machine.leads(t, ffc_tape(t, d, x, g, skip, ways)->Ok_0.0, m, n),
        holds(m, x, p),
        holds_opt(m, g, pg),
        holds_opt(m, skip.0, kl),
        holds_opt(m, skip.1, kg),
    ensures
        keeps_below(m, n, t.next),
        ffc_of(w, p, pg, r.0.0, r.0.1),
        with_skip(kl, r.0.0, r.1.0),
        holds(n, ffc_tape(t, d, x, g, skip, ways)->Ok_0.1, r.1.0),
        holds_opt(n, ffc_tape(t, d, x, g, skip, ways)->Ok_0.2, r.1.1),
        r.0.1 is Some <==> w.out_global > 0,
        r.1.1 is Some <==> w.out_global > 0,
        w.out_global > 0 ==> with_skip(kg, r.0.1->Some_0, r.1.1->Some_0),
        shape_of(r.0.0) == local_shape(w, shape_of(p), shape_of_opt(pg)),
        w.out_global > 0 ==> shape_of(r.0.1->Some_0) == global_shape(w, shape_of(p), shape_of_opt(pg)),
        ({
            let (u, l, o) = ffc_tape(t, d, x, g, skip, ways)->Ok_0;
            &&& goes_on(t, u)
            &&& is_new(l, t.next, u.next)
            &&& o matches Some(o) ==> is_new(o, l.block() + 1, u.next)
        }),
{
    reveal(ffc_tape);
    let (u, l, o) = ffc_tape(t, d, x, g, skip, ways)->Ok_0;
    let t1 = local_tape(t, d, x, g, skip.0)->Ok_0.0;
    assert(local_or_hollow(t, d, x, g, skip.0) == Ok::<(Tape, Tensor), Seq<char>>((t1, l)));
    if w.out_global > 0 {
        lemma_global_goes_on(t1, d, x, g, skip.1, ways);
        lemma_local_goes_on(t, d, x, g, skip.0);
        let m1 = machine.lemma_via(t, t1, u, m, n);
        let a = machine.lemma_local(d, w, t, x, g, skip.0, m, m1, p, pg, kl);
        assert(keeps(m, m1, x.block()));
        lemma_stays(m, m1, x, p);
        if let Some(gt) = g {
            assert(keeps(m, m1, gt.block()));
            lemma_stays(m, m1, gt, pg->Some_0);
        }
        if let Some(s) = skip.1 {
            assert(keeps(m, m1, s.block()));
            lemma_stays(m, m1, s, kg->Some_0);
        }
        let b = machine.lemma_global(d, w, t1, x, g, skip.1, ways, m1, n, p, pg, kg);
        assert(keeps(m1, n, l.block()));
        lemma_stays(m1, n, l, a.1);
        assert forall|i: int| i < t.next implies #[trigger] keeps(m, n, i) by {
            assert(keeps(m, m1, i) && keeps(m1, n, i));
        }
        ((a.0, Some(b.0)), (a.1, Some(b.1)))
    } else {
        let a = machine.lemma_local(d, w, t, x, g, skip.0, m, n, p, pg, kl);
        ((a.0, None), (a.1, None))
    }
}

proof fn lemma_local_goes_on(t: Tape, d: DFfc, x: Tensor, g: Option<Tensor>, skip: Option<Tensor>)
    requires
        0 <= t.next,
    ensures
        local_tape(t, d, x, g, skip) matches Ok((u, _)) ==> goes_on(t, u) && t.next <= u.next,
{
    if let Ok((u, _)) = local_tape(t, d, x, g, skip) {
        let (t1, a) = first_tape(t, d, d.l2l, x)->Ok_0;
        let (pad, stride) = (d.pad as int, d.stride as int);
        if let Some(c) = d.l2l {
            lemma_conv_goes_on(t, c, local_side(d, x), pad, stride, d.reflect);
        }
        assert(goes_on(t, t1) && t.next <= t1.next);
        if let Some(c) = d.g2l {
            let (t2, b) = conv_tape(t1, c, g->Some_0, pad, stride, d.reflect)->Ok_0;
            lemma_conv_goes_on(t1, c, g->Some_0, pad, stride, d.reflect);
            let t3 = join_tape(t2, a, b)->Ok_0.0;
            assert(goes_on(t2, t3) && goes_on(t3, u));
            lemma_goes_on(t2, t3, u);
            lemma_goes_on(t1, t2, u);
        } else {
            assert(goes_on(t1, u));
        }
        lemma_goes_on(t, t1, u);
    }
}

proof fn lemma_global_goes_on(t: Tape, d: DFfc, x: Tensor, g: Option<Tensor>, skip: Option<Tensor>, ways: Ways)
    requires
        0 <= t.next,
    ensures
        global_tape(t, d, x, g, skip, ways) matches Ok((u, _)) ==> goes_on(t, u) && t.next <= u.next,
{
    if let Ok((u, _)) = global_tape(t, d, x, g, skip, ways) {
        let (t1, a) = first_tape(t, d, d.l2g, x)->Ok_0;
        let (pad, stride) = (d.pad as int, d.stride as int);
        if let Some(c) = d.l2g {
            lemma_conv_goes_on(t, c, local_side(d, x), pad, stride, d.reflect);
        }
        assert(goes_on(t, t1) && t.next <= t1.next);
        if let Some(sp) = d.spectral {
            let gt = window(g->Some_0, g->Some_0.c - d.in_global, d.in_global);
            let (t2, b) = spectral_tape(t1, sp, gt, ways.host_fft)->Ok_0;
            lemma_spectral_goes_on(t1, sp, gt, ways.host_fft);
            let t3 = join_tape(t2, a, b)->Ok_0.0;
            assert(goes_on(t2, t3) && goes_on(t3, u));
            lemma_goes_on(t2, t3, u);
            lemma_goes_on(t1, t2, u);
        } else {
            assert(goes_on(t1, u));
        }
        lemma_goes_on(t, t1, u);
    }
}

impl<S: Scalar> Machine<S> {
    /// Optional planes given back: what lies in other blocks stays.
    proof fn lemma_freed_opt(self, t: Tape, x: Option<Tensor>, m: Memory<S>, n: Memory<S>)
        requires
            x matches Some(x) ==> x.at.base is Block,
            self.leads(t, free_opt(t, x), m, n),
        ensures
            goes_on(t, free_opt(t, x)),
            forall|b: int| !(x matches Some(x) && x.block() == b) ==> #[trigger] keeps(m, n, b),
    {
        match x {
            Some(x) => {
                self.lemma_freed(t, x.at, m, n);
            },
            None => {
                self.lemma_no_commands(t, m, n);
            },
        }
    }

    /// The planes that a residual block is done with given back: the rest stays.
    proof fn lemma_cleared(
        self,
        t: Tape,
        now: Held,
        l1: Tensor,
        g1: Option<Tensor>,
        m: Memory<S>,
        n: Memory<S>,
        from: int,
    )
        requires
            now.local.at.base is Block && now.local.block() < from,
            now.global matches Some(g) ==> g.at.base is Block && g.block() < from,
            l1.at.base is Block && l1.block() < from,
            g1 matches Some(g) ==> g.at.base is Block && g.block() < from,
            self.leads(t, free_opt(free_opt(t.without(now.local.at), now.global), g1).without(l1.at), m, n),
        ensures
            forall|b: int| from <= b ==> #[trigger] keeps(m, n, b),
    {
        let t1 = t.without(now.local.at);
        let t2 = free_opt(t1, now.global);
        let t3 = free_opt(t2, g1);
        let u = t3.without(l1.at);
        assert(goes_on(t, t1) && goes_on(t1, t2) && goes_on(t2, t3) && goes_on(t3, u));
        lemma_goes_on(t2, t3, u);
        lemma_goes_on(t1, t2, u);
        let m1 = self.lemma_via(t, t1, u, m, n);
        let m2 = self.lemma_via(t1, t2, u, m1, n);
        let m3 = self.lemma_via(t2, t3, u, m2, n);
        self.lemma_freed(t, now.local.at, m, m1);
        self.lemma_freed_opt(t1, now.global, m1, m2);
        self.lemma_freed_opt(t2, g1, m2, m3);
        self.lemma_freed(t3, l1.at, m3, n);
        assert forall|b: int| from <= b implies #[trigger] keeps(m, n, b) by {
            assert(keeps(m, m1, b) && keeps(m1, m2, b) && keeps(m2, m3, b) && keeps(m3, n, b));
        }
    }
}

/// A planned residual block leaves what the host's makes of the same planes: both branches
/// go through its two blocks, and what they were before is added to what comes out.
#[verifier::spinoff_prover]
#[verifier::rlimit(100)]
pub proof fn law_planned_residual_agrees_with_the_hosts<S: Scalar>(
    machine: Machine<S>,
    d1: DFfc,
    d2: DFfc,
    w1: FfcWeights<S>,
    w2: FfcWeights<S>,
    t: Tape,
    now: Held,
    ways: Ways,
    m: Memory<S>,
    n: Memory<S>,
    p: Planes<S>,
    pg: Planes<S>,
) -> (r: State<S>)
    requires
        0 <= t.next,
        machine.has_block(d1, w1),
        machine.has_block(d2, w2),
        w1.out_local > 0,
        w1.out_global > 0,
        w2.out_local > 0,
        w2.out_global > 0,
        d1.in_local == now.local.c,
        d2.in_local == w1.out_local,
        d2.in_global == w1.out_global,
        d2.bn_l is Some,
        d2.bn_g is Some,
        now.local.at.base is Block,
        now.local.block() < t.next,
        now.global matches Some(g) && g.at.base is Block && g.block() < t.next && g.c == d1.in_global,
        can_residual(w1, w2, (Shapes { local: shape_of(p), global: Some(shape_of(pg)) })),
        residual_step(t, now, d1, d2, ways) is Ok,
        machine.leads(t, residual_step(t, now, d1, d2, ways)->Ok_0.0, m, n),
        holds(m, now.local, p),
        holds(m, now.global->Some_0, pg),
    ensures
        residual_of(w1, w2, (State { local: p, global: Some(pg) }), r),
        holds(n, residual_step(t, now, d1, d2, ways)->Ok_0.1.local, r.local),
        holds_opt(n, residual_step(t, now, d1, d2, ways)->Ok_0.1.global, r.global),
{
    let g = now.global;
    let none = (None::<Tensor>, None::<Tensor>);
    let skip = (Some(now.local), g);
    let (t1, l1, g1) = ffc_tape(t, d1, now.local, g, none, ways)->Ok_0;
    let (t2, l2, g2) = ffc_tape(t1, d2, l1, g1, skip, ways)->Ok_0;
    let u = free_opt(free_opt(t2.without(now.local.at), g), g1).without(l1.at);
    assert(residual_step(t, now, d1, d2, ways) == Ok::<(Tape, Held), Seq<char>>(
        (u, Held { local: l2, global: g2 }),
    ));
    lemma_ffc_goes_on(t, d1, now.local, g, none, ways);
    lemma_ffc_goes_on(t1, d2, l1, g1, skip, ways);
    lemma_clearing_goes_on(t2, now, l1, g1);
    lemma_goes_on(t1, t2, u);
    let m1 = machine.lemma_via(t, t1, u, m, n);
    let m2 = machine.lemma_via(t1, t2, u, m1, n);
    let a = law_planned_block_agrees_with_the_hosts(
        machine,
        d1,
        w1,
        t,
        now.local,
        g,
        none,
        ways,
        m,
        m1,
        p,
        Some(pg),
        None,
        None,
    );
    let (q, qg) = (a.0.0, a.0.1->Some_0);
    assert(a.1.0 == q && a.1.1->Some_0 == qg);
    let gt = g->Some_0;
    assert(keeps(m, m1, now.local.block()) && keeps(m, m1, gt.block()));
    lemma_stays(m, m1, now.local, p);
    lemma_stays(m, m1, gt, pg);
    let b = law_planned_block_agrees_with_the_hosts(
        machine,
        d2,
        w2,
        t1,
        l1,
        g1,
        skip,
        ways,
        m1,
        m2,
        q,
        Some(qg),
        Some(p),
        Some(pg),
    );
    machine.lemma_cleared(t2, now, l1, g1, m2, n, t1.next);
    let og = b.1.1->Some_0;
    assert(keeps(m2, n, l2.block()) && keeps(m2, n, g2->Some_0.block()));
    lemma_stays(m2, n, l2, b.1.0);
    lemma_stays(m2, n, g2->Some_0, og);
    let start = State { local: p, global: Some(pg) };
    let between = State { local: q, global: Some(qg) };
    let made = State { local: b.0.0, global: b.0.1 };
    let r = State { local: b.1.0, global: Some(og) };
    assert(ffc_of(w1, start.local, start.global, between.local, between.global));
    assert(ffc_of(w2, between.local, between.global, made.local, made.global));
    assert(summed(start.local, made.local, r.local));
    assert(skipped(start.global, made.global, r.global));
    r
}

/// A planned block goes on from the tape that it was planned on.
proof fn lemma_ffc_goes_on(
    t: Tape,
    d: DFfc,
    x: Tensor,
    g: Option<Tensor>,
    skip: (Option<Tensor>, Option<Tensor>),
    ways: Ways,
)
    requires
        0 <= t.next,
    ensures
        ffc_tape(t, d, x, g, skip, ways) matches Ok((u, _, _)) ==> goes_on(t, u) && t.next <= u.next,
{
    reveal(ffc_tape);
    if let Ok((u, _, _)) = ffc_tape(t, d, x, g, skip, ways) {
        let t1 = local_or_hollow(t, d, x, g, skip.0)->Ok_0.0;
        lemma_local_goes_on(t, d, x, g, skip.0);
        assert(goes_on(t, t1) && t.next <= t1.next);
        if d.out_global > 0 {
            lemma_global_goes_on(t1, d, x, g, skip.1, ways);
            lemma_goes_on(t, t1, u);
        }
    }
}

proof fn lemma_clearing_goes_on(t: Tape, now: Held, l1: Tensor, g1: Option<Tensor>)
    ensures
        goes_on(t, free_opt(free_opt(t.without(now.local.at), now.global), g1).without(l1.at)),
{
    let t1 = t.without(now.local.at);
    let t2 = free_opt(t1, now.global);
    let t3 = free_opt(t2, g1);
    let u = t3.without(l1.at);
    assert(goes_on(t, t1) && goes_on(t1, t2) && goes_on(t2, t3) && goes_on(t3, u));
    lemma_goes_on(t2, t3, u);
    lemma_goes_on(t1, t2, u);
    lemma_goes_on(t, t1, u);
}

} // verus!
