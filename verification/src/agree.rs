//! What a planned spectral branch computes.
//!
//! A plan says which kernels are launched and with which arguments; what a kernel does to
//! the memory is known to the device alone.  Here that is left to a machine of which
//! nothing is known but that its convolutions, norms and sums are what they are launched
//! for.  The Fourier transforms of the host are this library's own.  A planned branch then
//! computes what the branch of the host does.

use vstd::prelude::*;

use crate::acts::{rectified, summed, Planes};
use crate::conv::convolved;
use crate::device::{Act, Addr, Base, Tape};
use crate::fold::{folds, goes, is_trace};
use crate::gpu::{device_plane, feature, follows, forward_tape, fourier_tape, inverse_tape, lemma_follows_both, lemma_follows_conv, lemma_follows_free, lemma_follows_transforms, lemma_follows_unit, reduce_tape, spectral_tape, DSpectral};
use crate::kernels::{add_tape, bn_relu_tape, conv_tape, DConv, Extended, Planned, Tensor};
use crate::norm::normed;
use crate::scalar::Scalar;
use crate::spectral::{activated, chunk, each_transformed, each_untransformed, fourier_of, reduced, spectral_of, transformed, untransformed, Spectral};
use crate::spectrum::{irfft2_of, kept, rfft2_of};

verus! {

/// The numbers that the blocks of a device hold.
pub type Memory<S> = Map<int, Seq<S>>;

/// Numbers lie in a block from an address on.
pub open spec fn lies<S>(m: Memory<S>, a: Addr, data: Seq<S>) -> bool {
    a.base matches Base::Block(b) && {
        let i = a.offset as int / 4;
        &&& m.contains_key(b as int)
        &&& a.offset % 4 == 0
        &&& i + data.len() <= m[b as int].len()
        &&& m[b as int].subrange(i, i + data.len()) == data
    }
}

/// The planes of a tensor are `p`.
pub open spec fn holds<S>(m: Memory<S>, t: Tensor, p: Planes<S>) -> bool {
    p.shaped(t.c as int, t.h as int, t.w as int) && lies(m, t.at, p.data)
}

/// The block of a number holds what it did.
pub open spec fn keeps<S>(m: Memory<S>, n: Memory<S>, b: int) -> bool {
    n.contains_key(b) == m.contains_key(b) && n[b] == m[b]
}

/// The blocks up to a number hold what they did.
pub open spec fn keeps_below<S>(m: Memory<S>, n: Memory<S>, next: int) -> bool {
    forall|b: int| b < next ==> #[trigger] keeps(m, n, b)
}

/// The blocks of all numbers but one hold what they did.
pub open spec fn keeps_but<S>(m: Memory<S>, n: Memory<S>, one: int) -> bool {
    forall|b: int| b != one ==> #[trigger] keeps(m, n, b)
}

/// A device, by what launching a kernel may do to its memory.
#[verifier::reject_recursive_types(S)]
pub struct Machine<S> {
    pub run: spec_fn(Act, Memory<S>, Memory<S>) -> bool,
}

/// What the parts of a spectral branch make of planes.
#[verifier::reject_recursive_types(S)]
pub struct Parts<S> {
    pub reduce: spec_fn(Planes<S>, Planes<S>) -> bool,
    pub conv1: spec_fn(Planes<S>, Planes<S>) -> bool,
    pub norm1: spec_fn(Planes<S>, Planes<S>) -> bool,
    pub fu_conv: spec_fn(Planes<S>, Planes<S>) -> bool,
    pub fu_norm: spec_fn(Planes<S>, Planes<S>) -> bool,
    pub sum: spec_fn(Planes<S>, Planes<S>, Planes<S>) -> bool,
    pub conv2: spec_fn(Planes<S>, Planes<S>) -> bool,
}

/// The planes that a spectral branch goes through.
pub struct Course<S> {
    pub small: Planes<S>,
    pub mixed: Planes<S>,
    pub feat: Planes<S>,
    pub spectra: Planes<S>,
    pub turned: Planes<S>,
    pub normed: Planes<S>,
    pub back: Planes<S>,
    pub total: Planes<S>,
}

/// The planes on the way from `x` to `out`: reduced, convolved and normed, transformed,
/// convolved and normed again, transformed back, added, and convolved.
pub open spec fn is_course<S: Scalar>(
    parts: Parts<S>,
    half: int,
    x: Planes<S>,
    k: Course<S>,
    out: Planes<S>,
) -> bool {
    &&& (parts.reduce)(x, k.small)
    &&& (parts.conv1)(k.small, k.mixed)
    &&& (parts.norm1)(k.mixed, k.feat)
    &&& transformed(k.feat, half, k.spectra)
    &&& (parts.fu_conv)(k.spectra, k.turned)
    &&& (parts.fu_norm)(k.turned, k.normed)
    &&& untransformed(k.normed, half, k.feat.w, k.back)
    &&& (parts.sum)(k.feat, k.back, k.total)
    &&& (parts.conv2)(k.total, out)
}

/// `out` is what a spectral branch with these parts makes of `x`.
pub open spec fn branch_of<S: Scalar>(parts: Parts<S>, half: int, x: Planes<S>, out: Planes<S>) -> bool {
    exists|k: Course<S>| #[trigger] is_course(parts, half, x, k, out)
}

/// The parts of the host's branch.
pub open spec fn host_parts<S: Scalar>(sp: Spectral<S>) -> Parts<S> {
    Parts {
        reduce: |a: Planes<S>, b: Planes<S>| reduced(sp.stride as int, a, b),
        conv1: |a: Planes<S>, b: Planes<S>| convolved(sp.conv1, a, 0, 1, false, b),
        norm1: |a: Planes<S>, b: Planes<S>|
            exists|c: Planes<S>| #[trigger] normed(sp.bn1, a, c) && rectified(c, b),
        fu_conv: |a: Planes<S>, b: Planes<S>| convolved(sp.fu.conv, a, 0, 1, false, b),
        fu_norm: |a: Planes<S>, b: Planes<S>|
            exists|c: Planes<S>| #[trigger] normed(sp.fu.bn, a, c) && rectified(c, b),
        sum: |a: Planes<S>, b: Planes<S>, c: Planes<S>| summed(a, b, c),
        conv2: |a: Planes<S>, b: Planes<S>| convolved(sp.conv2, a, 0, 1, false, b),
    }
}

impl<S: Scalar> Machine<S> {
    /// A command leads from one state of the memory to another.
    pub open spec fn does(self, act: Act, m: Memory<S>, n: Memory<S>) -> bool {
        match act {
            Act::Alloc { block, len } => n.contains_key(block) && n[block].len() == len && keeps_but(
                m,
                n,
                block,
            ),
            Act::Free { block } => !n.contains_key(block) && keeps_but(m, n, block),
            Act::Run { .. } => (self.run)(act, m, n),
            Act::HostForward { from, to, channels, h, w } => forall|src: Seq<S>| #[trigger]
                lies(m, from, src) && src.len() == channels * (h * w) ==> exists|dst: Seq<S>|
                    each_transformed(src, channels, h, w, dst) && #[trigger] written(m, n, to, dst),
            Act::HostInverse { from, to, channels, h, w } => forall|src: Seq<S>| #[trigger]
                lies(m, from, src) && src.len() == channels * (2 * h * kept(w)) ==> exists|dst: Seq<S>|
                    each_untransformed(src, channels, h, w, dst) && #[trigger] written(m, n, to, dst),
        }
    }

    /// Commands lead from one state of the memory to another.
    pub open spec fn does_all(self, acts: Seq<Act>, m: Memory<S>, n: Memory<S>) -> bool {
        folds(m, self.steps(acts), acts.len(), n)
    }

    /// The commands one by one.
    pub open spec fn steps(self, acts: Seq<Act>) -> spec_fn(int, Memory<S>, Memory<S>) -> bool {
        |i: int, a: Memory<S>, b: Memory<S>| self.does(acts[i], a, b)
    }

    /// The commands that `u` has more than `t` lead from one state of the memory to another.
    pub open spec fn leads(self, t: Tape, u: Tape, m: Memory<S>, n: Memory<S>) -> bool {
        self.does_all(u.acts.skip(t.acts.len() as int), m, n)
    }

    /// A plan that makes new planes of old ones with at least `c` channels does it by
    /// `rel`.
    pub open spec fn makes(
        self,
        c: int,
        plan: spec_fn(Tape, Tensor) -> Planned,
        rel: spec_fn(Planes<S>, Planes<S>) -> bool,
    ) -> bool {
        forall|t: Tape, x: Tensor, m: Memory<S>, n: Memory<S>, p: Planes<S>| #[trigger]
            self.makes_at(c, plan, rel, t, x, m, n, p)
    }

    pub open spec fn makes_at(
        self,
        c: int,
        plan: spec_fn(Tape, Tensor) -> Planned,
        rel: spec_fn(Planes<S>, Planes<S>) -> bool,
        t: Tape,
        x: Tensor,
        m: Memory<S>,
        n: Memory<S>,
        p: Planes<S>,
    ) -> bool {
        match plan(t, x) {
            Ok((u, out)) => c <= x.c && x.block() < t.next && self.leads(t, u, m, n) && holds(m, x, p)
                ==> keeps_below(m, n, t.next) && exists|q: Planes<S>| #[trigger] holds(n, out, q) && rel(p, q),
            Err(_) => true,
        }
    }

    /// A plan that changes `c` planes where they are does it by `rel`.
    pub open spec fn changes(
        self,
        c: int,
        plan: spec_fn(Tape, Tensor) -> Extended,
        rel: spec_fn(Planes<S>, Planes<S>) -> bool,
    ) -> bool {
        forall|t: Tape, x: Tensor, m: Memory<S>, n: Memory<S>, p: Planes<S>| #[trigger]
            self.changes_at(c, plan, rel, t, x, m, n, p)
    }

    pub open spec fn changes_at(
        self,
        c: int,
        plan: spec_fn(Tape, Tensor) -> Extended,
        rel: spec_fn(Planes<S>, Planes<S>) -> bool,
        t: Tape,
        x: Tensor,
        m: Memory<S>,
        n: Memory<S>,
        p: Planes<S>,
    ) -> bool {
        plan(t, x) matches Ok(u) && x.c == c && self.leads(t, u, m, n) && holds(m, x, p) ==> keeps_but(
            m,
            n,
            x.block(),
        ) && exists|q: Planes<S>| #[trigger] holds(n, x, q) && rel(p, q)
    }

    /// Planes added to as many others give their sum.
    pub open spec fn adds(self, rel: spec_fn(Planes<S>, Planes<S>, Planes<S>) -> bool) -> bool {
        forall|
            t: Tape,
            a: Tensor,
            b: Tensor,
            m: Memory<S>,
            n: Memory<S>,
            p: Planes<S>,
            q: Planes<S>,
        | #[trigger] self.adds_at(rel, t, a, b, m, n, p, q)
    }

    pub open spec fn adds_at(
        self,
        rel: spec_fn(Planes<S>, Planes<S>, Planes<S>) -> bool,
        t: Tape,
        a: Tensor,
        b: Tensor,
        m: Memory<S>,
        n: Memory<S>,
        p: Planes<S>,
        q: Planes<S>,
    ) -> bool {
        add_tape(t, a, b) matches Ok(u) && self.leads(t, u, m, n) && a.block() != b.block() && a.c
            == b.c && a.h == b.h && a.w == b.w && holds(m, a, p) && holds(m, b, q) ==> keeps_but(m, n, a.block()) && exists|r: Planes<S>| #[trigger]
            holds(n, a, r) && rel(q, p, r)
    }

    /// The device's transforms, on the planes that they take, are those of the host.
    pub open spec fn transforms(self, half: int) -> bool {
        &&& forall|t: Tape, x: Tensor, m: Memory<S>, n: Memory<S>, p: Planes<S>| #[trigger]
            self.forward_at(half, t, x, false, m, n, p) || !device_plane(x)
        &&& forall|
            t: Tape,
            spectra: Tensor,
            x: Tensor,
            m: Memory<S>,
            n: Memory<S>,
            p: Planes<S>,
        | #[trigger] self.inverse_at(half, t, spectra, x, false, m, n, p) || !device_plane(x)
    }

    /// A planned transform makes the spectra of planes.
    pub open spec fn forward_at(
        self,
        half: int,
        t: Tape,
        x: Tensor,
        host: bool,
        m: Memory<S>,
        n: Memory<S>,
        p: Planes<S>,
    ) -> bool {
        match forward_tape(t, half, x, host) {
            Ok((u, out)) => 0 <= half <= x.c && x.block() < t.next && self.leads(t, u, m, n) && holds(m, x, p)
                ==> keeps_below(m, n, t.next) && exists|q: Planes<S>| #[trigger]
                holds(n, out, q) && transformed(p, half, q),
            Err(_) => true,
        }
    }

    /// A planned inverse makes the planes of spectra.
    pub open spec fn inverse_at(
        self,
        half: int,
        t: Tape,
        spectra: Tensor,
        x: Tensor,
        host: bool,
        m: Memory<S>,
        n: Memory<S>,
        p: Planes<S>,
    ) -> bool {
        match inverse_tape(t, half, spectra, x, host) {
            Ok((u, out)) => spectra.c == 2 * half && spectra.h == x.h && spectra.w == kept(x.w as int)
                && spectra.block() < t.next && self.leads(t, u, m, n) && holds(m, spectra, p) ==> keeps_below(m, n, t.next)
                && exists|q: Planes<S>| #[trigger]
                holds(n, out, q) && untransformed(p, half, x.w as int, q),
            Err(_) => true,
        }
    }

    /// The kernels of a branch do what they are launched for.
    pub open spec fn works(self, sp: DSpectral, parts: Parts<S>) -> bool {
        &&& self.makes(0, |t: Tape, x: Tensor| reduce_tape(t, sp.stride as int, x), parts.reduce)
        &&& self.makes(
            sp.conv1.cin as int,
            |t: Tape, x: Tensor| conv_tape(t, sp.conv1, x, 0, 1, false),
            parts.conv1,
        )
        &&& self.changes(
            sp.bn1.channels as int,
            |t: Tape, x: Tensor| bn_relu_tape(t, x, sp.bn1),
            parts.norm1,
        )
        &&& self.makes(
            sp.fu_conv.cin as int,
            |t: Tape, x: Tensor| conv_tape(t, sp.fu_conv, x, 0, 1, false),
            parts.fu_conv,
        )
        &&& self.changes(
            sp.fu_bn.channels as int,
            |t: Tape, x: Tensor| bn_relu_tape(t, x, sp.fu_bn),
            parts.fu_norm,
        )
        &&& self.adds(parts.sum)
        &&& self.makes(
            sp.conv2.cin as int,
            |t: Tape, x: Tensor| conv_tape(t, sp.conv2, x, 0, 1, false),
            parts.conv2,
        )
    }
}

/// The parts of a branch on the device fit each other and the channels that it is given.
pub open spec fn fitted(sp: DSpectral, channels: int) -> bool {
    &&& sp.conv1.cin <= channels
    &&& sp.conv1.cout == sp.half
    &&& sp.bn1.channels == sp.half
    &&& sp.fu_conv.cin <= 2 * sp.half
    &&& sp.fu_conv.cout == 2 * sp.half
    &&& sp.fu_conv.kh == 1
    &&& sp.fu_conv.kw == 1
    &&& sp.fu_bn.channels == 2 * sp.half
    &&& sp.conv2.cin <= sp.half
}

/// Numbers were written to a block, and the other blocks hold what they did.
pub open spec fn written<S>(m: Memory<S>, n: Memory<S>, a: Addr, data: Seq<S>) -> bool {
    &&& lies(n, a, data)
    &&& a.base matches Base::Block(b) && keeps_but(m, n, b as int)
}

/// What lies in a block that is kept stays.
pub proof fn lemma_stays<S>(m: Memory<S>, n: Memory<S>, t: Tensor, p: Planes<S>)
    requires
        holds(m, t, p),
        keeps(m, n, t.block()),
    ensures
        holds(n, t, p),
{
}

impl<S: Scalar> Machine<S> {
    /// What leads over two lists of commands passes a state between them.
    proof fn lemma_between(self, a: Seq<Act>, b: Seq<Act>, m: Memory<S>, n: Memory<S>) -> (mid: Memory<S>)
        requires
            self.does_all(a + b, m, n),
        ensures
            self.does_all(a, m, mid),
            self.does_all(b, mid, n),
    {
        let steps = self.steps(a + b);
        let all = choose|trace: Seq<Memory<S>>| #[trigger] is_trace(trace, m, steps, (a + b).len(), n);
        let k = a.len() as int;
        let mid = all[k];
        let first = all.take(k + 1);
        let second = all.skip(k);
        assert forall|i: int| 0 <= i < a.len() implies #[trigger] goes(self.steps(a), first, i) by {
            assert(goes(steps, all, i));
        }
        assert(is_trace(first, m, self.steps(a), a.len(), mid));
        assert forall|i: int| 0 <= i < b.len() implies #[trigger] goes(self.steps(b), second, i) by {
            assert(goes(steps, all, k + i));
            assert((a + b)[k + i] == b[i]);
        }
        assert(is_trace(second, mid, self.steps(b), b.len(), n));
        mid
    }

    /// What leads from `t` to `v` passes a state at `u`.
    pub proof fn lemma_via(self, t: Tape, u: Tape, v: Tape, m: Memory<S>, n: Memory<S>) -> (mid: Memory<S>)
        requires
            t.acts.len() <= u.acts.len() <= v.acts.len(),
            forall|i: int| 0 <= i < u.acts.len() ==> #[trigger] v.acts[i] == u.acts[i],
            self.leads(t, v, m, n),
        ensures
            self.leads(t, u, m, mid),
            self.leads(u, v, mid, n),
    {
        let a = u.acts.skip(t.acts.len() as int);
        let b = v.acts.skip(u.acts.len() as int);
        assert(v.acts.skip(t.acts.len() as int) =~= a + b);
        self.lemma_between(a, b, m, n)
    }

    /// One command.
    pub proof fn lemma_one(self, t: Tape, u: Tape, act: Act, m: Memory<S>, n: Memory<S>)
        requires
            u.acts == t.acts.push(act),
            self.leads(t, u, m, n),
        ensures
            self.does(act, m, n),
    {
        let acts = u.acts.skip(t.acts.len() as int);
        let trace = choose|trace: Seq<Memory<S>>| #[trigger]
            is_trace(trace, m, self.steps(acts), acts.len(), n);
        assert(goes(self.steps(acts), trace, 0));
    }

    /// Giving a block back leaves the others.
    pub proof fn lemma_freed(self, t: Tape, a: Addr, m: Memory<S>, n: Memory<S>)
        requires
            a.base is Block,
            self.leads(t, t.without(a), m, n),
        ensures
            a.base matches Base::Block(b) && keeps_but(m, n, b as int),
    {
        if let Base::Block(b) = a.base {
            self.lemma_one(t, t.without(a), Act::Free { block: b as int }, m, n);
        }
    }

    /// The transform of the host.
    proof fn lemma_host_forward(
        self,
        half: int,
        t: Tape,
        x: Tensor,
        host: bool,
        m: Memory<S>,
        n: Memory<S>,
        p: Planes<S>,
    )
        requires
            0 <= t.next,
            host || !device_plane(x),
            x.block() < t.next,
        ensures
            self.forward_at(half, t, x, host, m, n, p),
    {
        if let Ok((u, out)) = forward_tape(t, half, x, host) {
            if 0 <= half <= x.c && self.leads(t, u, m, n) && holds(m, x, p) {
                let hw = kept(x.w as int);
                let size = (2 * half) * (x.h * hw);
                let act = Act::HostForward {
                    from: x.at,
                    to: out.at,
                    channels: half,
                    h: x.h as int,
                    w: x.w as int,
                };
                let mid = self.lemma_via(t, t.with_block(size), u, m, n);
                self.lemma_one(t, t.with_block(size), Act::Alloc { block: t.next, len: size }, m, mid);
                self.lemma_one(t.with_block(size), u, act, mid, n);
                assert(keeps(m, mid, x.block()));
                lemma_stays(m, mid, x, p);
                let area = x.h * x.w;
                let src = p.data.take(half * area);
                assert(half * area <= p.c * area && 0 <= half * area && p.c * area == p.c * p.h * p.w)
                    by (nonlinear_arith)
                    requires
                        0 <= half <= p.c,
                        0 <= area,
                        area == p.h * p.w,
                ;
                assert(lies(mid, x.at, src)) by {
                    if let Base::Block(b) = x.at.base {
                        let i = x.at.offset as int / 4;
                        assert(mid[b as int].subrange(i, i + src.len()) =~= mid[b as int].subrange(
                            i,
                            i + p.data.len(),
                        ).take(half * area));
                    }
                }
                let dst = choose|dst: Seq<S>|
                    each_transformed(src, half, x.h as int, x.w as int, dst) && #[trigger] written(
                        mid,
                        n,
                        out.at,
                        dst,
                    );
                let q = Planes { c: 2 * half, h: x.h as int, w: hw, data: dst };
                assert(half * (2 * x.h * hw) == 2 * half * x.h * hw) by (nonlinear_arith);
                assert forall|c: int| 0 <= c < half implies rfft2_of_chunk(p, q, half, c) by {
                    assert((c + 1) * area <= half * area && 0 <= c * area <= (c + 1) * area) by (nonlinear_arith)
                        requires
                            0 <= c < half,
                            0 <= area,
                    ;
                    assert(chunk(src, area, c) =~= chunk(p.data, area, c));
                    assert(chunk(dst, 2 * x.h * hw, c) == chunk(q.data, 2 * p.h * kept(p.w), c));
                }
                assert(transformed(p, half, q)) by {
                    assert forall|c: int| 0 <= c < half implies rfft2_of(
                        chunk(p.data, p.h * p.w, c),
                        p.h,
                        p.w,
                        #[trigger] chunk(q.data, 2 * p.h * kept(p.w), c),
                    ) by {
                        assert(rfft2_of_chunk(p, q, half, c));
                    }
                }
                assert(holds(n, out, q));
                assert forall|b: int| b < t.next implies #[trigger] keeps(m, n, b) by {
                    assert(keeps(m, mid, b));
                    assert(keeps(mid, n, b));
                }
            }
        }
    }

    /// The inverse of the host.
    proof fn lemma_host_inverse(
        self,
        half: int,
        t: Tape,
        spectra: Tensor,
        x: Tensor,
        host: bool,
        m: Memory<S>,
        n: Memory<S>,
        p: Planes<S>,
    )
        requires
            0 <= t.next,
            host || !device_plane(x),
            spectra.block() < t.next,
        ensures
            self.inverse_at(half, t, spectra, x, host, m, n, p),
    {
        if let Ok((u, out)) = inverse_tape(t, half, spectra, x, host) {
            if spectra.c == 2 * half && spectra.h == x.h && spectra.w == kept(x.w as int)
                && self.leads(t, u, m, n) && holds(m, spectra, p) {
                let hw = kept(x.w as int);
                let area = x.h * x.w;
                let size = half * area;
                let act = Act::HostInverse {
                    from: spectra.at,
                    to: out.at,
                    channels: half,
                    h: x.h as int,
                    w: x.w as int,
                };
                let mid = self.lemma_via(t, t.with_block(size), u, m, n);
                self.lemma_one(t, t.with_block(size), Act::Alloc { block: t.next, len: size }, m, mid);
                self.lemma_one(t.with_block(size), u, act, mid, n);
                assert(keeps(m, mid, spectra.block()));
                lemma_stays(m, mid, spectra, p);
                assert(half * (2 * x.h * hw) == 2 * half * x.h * hw) by (nonlinear_arith);
                assert(half * (x.h * x.w) == half * x.h * x.w) by (nonlinear_arith);
                assert(lies(mid, spectra.at, p.data));
                let dst = choose|dst: Seq<S>|
                    each_untransformed(p.data, half, x.h as int, x.w as int, dst)
                        && #[trigger] written(mid, n, out.at, dst);
                let q = Planes { c: half, h: x.h as int, w: x.w as int, data: dst };
                assert(untransformed(p, half, x.w as int, q)) by {
                    assert forall|c: int| 0 <= c < half implies irfft2_of(
                        chunk(p.data, 2 * p.h * kept(x.w as int), c),
                        p.h,
                        x.w as int,
                        #[trigger] chunk(q.data, p.h * x.w, c),
                    ) by {
                        assert(chunk(dst, x.h * x.w, c) == chunk(q.data, p.h * x.w, c));
                    }
                }
                assert(holds(n, out, q));
                assert forall|b: int| b < t.next implies #[trigger] keeps(m, n, b) by {
                    assert(keeps(m, mid, b));
                    assert(keeps(mid, n, b));
                }
            }
        }
    }
}

/// One plane and its transform.
spec fn rfft2_of_chunk<S: Scalar>(p: Planes<S>, q: Planes<S>, half: int, c: int) -> bool {
    rfft2_of(
        chunk(p.data, p.h * p.w, c),
        p.h,
        p.w,
        chunk(q.data, 2 * p.h * kept(p.w), c),
    )
}

/// A tensor lies at the beginning of a block that was made between two numbers.
spec fn is_new(x: Tensor, from: int, to: int) -> bool {
    x.at.offset == 0 && x.at.base is Block && from <= x.block() < to
}

/// A convolution makes a new tensor.
proof fn lemma_new_conv(t: Tape, cv: DConv, src: Tensor)
    requires
        0 <= t.next,
    ensures
        conv_tape(t, cv, src, 0, 1, false) matches Ok((u, out)) ==> is_new(out, t.next, u.next)
            && out.c == cv.cout,
{
}

/// A reduction makes a new tensor.
proof fn lemma_new_reduced(t: Tape, stride: int, x: Tensor)
    requires
        0 <= t.next,
    ensures
        reduce_tape(t, stride, x) matches Ok((u, out)) ==> is_new(out, t.next, u.next) && out.c == x.c
            && follows(t, u, false),
{
}

/// A transform makes a new tensor.
proof fn lemma_new_transforms(t: Tape, half: int, spectra: Tensor, x: Tensor, host: bool)
    requires
        0 <= t.next,
    ensures
        forward_tape(t, half, x, host) matches Ok((u, out)) ==> is_new(out, t.next, u.next) && out.c
            == 2 * half && out.h == x.h && out.w == kept(x.w as int),
        inverse_tape(t, half, spectra, x, host) matches Ok((u, out)) ==> is_new(out, t.next, u.next)
            && out.c == half && out.h == x.h && out.w == x.w,
{
}

/// The planes of the Fourier unit, from those that it is given.
spec fn is_unit<S: Scalar>(
    parts: Parts<S>,
    half: int,
    feat: Planes<S>,
    spectra: Planes<S>,
    turned: Planes<S>,
    normed: Planes<S>,
    back: Planes<S>,
) -> bool {
    &&& transformed(feat, half, spectra)
    &&& (parts.fu_conv)(spectra, turned)
    &&& (parts.fu_norm)(turned, normed)
    &&& untransformed(normed, half, feat.w, back)
}

impl<S: Scalar> Machine<S> {
    /// A planned Fourier unit.
    proof fn lemma_unit(
        self,
        parts: Parts<S>,
        t: Tape,
        sp: DSpectral,
        feat: Tensor,
        host: bool,
        m: Memory<S>,
        n: Memory<S>,
        p: Planes<S>,
    )
        requires
            0 <= t.next,
            feat.block() < t.next,
            self.works(sp, parts),
            !host && device_plane(feat) ==> self.transforms(sp.half as int),
            feat.c == sp.half,
            exists|channels: int| fitted(sp, channels),
            fourier_tape(t, sp, feat, host) is Ok,
            self.leads(t, fourier_tape(t, sp, feat, host)->Ok_0.0, m, n),
            holds(m, feat, p),
        ensures
            keeps_below(m, n, t.next),
            ({
                let (u, out) = fourier_tape(t, sp, feat, host)->Ok_0;
                &&& is_new(out, t.next, u.next)
                &&& out.c == feat.c
                &&& out.h == feat.h
                &&& out.w == feat.w
            }),
            exists|a: Planes<S>, b: Planes<S>, c: Planes<S>, d: Planes<S>|
                #[trigger] is_unit(parts, sp.half as int, p, a, b, c, d) && holds(
                    n,
                    fourier_tape(t, sp, feat, host)->Ok_0.1,
                    d,
                ),
    {
        let half = sp.half as int;
        let (f1, spectra) = forward_tape(t, half, feat, host)->Ok_0;
        let (f2, fu) = conv_tape(f1, sp.fu_conv, spectra, 0, 1, false)->Ok_0;
        let f3 = bn_relu_tape(f2, fu, sp.fu_bn)->Ok_0;
        let (f4, inv) = inverse_tape(f3, half, fu, feat, host)->Ok_0;
        let f5 = f4.without(fu.at);
        let f6 = f5.without(spectra.at);
        let run = !host && device_plane(feat);
        lemma_follows_transforms(t, half, fu, feat, host);
        lemma_follows_conv(f1, sp.fu_conv, spectra);
        assert(follows(f2, f3, false));
        lemma_follows_transforms(f3, half, fu, feat, host);
        lemma_new_transforms(t, half, fu, feat, host);
        lemma_new_conv(f1, sp.fu_conv, spectra);
        lemma_new_transforms(f3, half, fu, feat, host);
        lemma_follows_free(f4, f4, false, fu.at);
        lemma_follows_free(f5, f5, false, spectra.at);
        // The states of the memory after each step.
        lemma_follows_both(f4, f5, f6, false, false);
        lemma_follows_both(f3, f4, f6, run, false);
        lemma_follows_both(f2, f3, f6, false, run);
        lemma_follows_both(f1, f2, f6, false, run);
        let m1 = self.lemma_via(t, f1, f6, m, n);
        let m2 = self.lemma_via(f1, f2, f6, m1, n);
        let m3 = self.lemma_via(f2, f3, f6, m2, n);
        let m4 = self.lemma_via(f3, f4, f6, m3, n);
        let m5 = self.lemma_via(f4, f5, f6, m4, n);
        if run {
            assert(self.forward_at(half, t, feat, false, m, m1, p));
        } else {
            self.lemma_host_forward(half, t, feat, host, m, m1, p);
        }
        let a = choose|q: Planes<S>| #[trigger] holds(m1, spectra, q) && transformed(p, half, q);
        let conv = |t: Tape, x: Tensor| conv_tape(t, sp.fu_conv, x, 0, 1, false);
        assert(self.makes_at(sp.fu_conv.cin as int, conv, parts.fu_conv, f1, spectra, m1, m2, a));
        assert(conv(f1, spectra) == Ok::<(Tape, Tensor), Seq<char>>((f2, fu)));
        let b = choose|q: Planes<S>| #[trigger] holds(m2, fu, q) && (parts.fu_conv)(a, q);
        let norm = |t: Tape, x: Tensor| bn_relu_tape(t, x, sp.fu_bn);
        assert(self.changes_at(sp.fu_bn.channels as int, norm, parts.fu_norm, f2, fu, m2, m3, b));
        assert(norm(f2, fu) == Ok::<Tape, Seq<char>>(f3));
        let c = choose|q: Planes<S>| #[trigger] holds(m3, fu, q) && (parts.fu_norm)(b, q);
        if run {
            assert(self.inverse_at(half, f3, fu, feat, false, m3, m4, c));
        } else {
            self.lemma_host_inverse(half, f3, fu, feat, host, m3, m4, c);
        }
        let d = choose|q: Planes<S>| #[trigger]
            holds(m4, inv, q) && untransformed(c, half, feat.w as int, q);
        self.lemma_freed(f4, fu.at, m4, m5);
        self.lemma_freed(f5, spectra.at, m5, n);
        assert(keeps(m4, m5, inv.block()) && keeps(m5, n, inv.block()));
        lemma_stays(m4, m5, inv, d);
        lemma_stays(m5, n, inv, d);
        assert(is_unit(parts, half, p, a, b, c, d));
        assert forall|k: int| k < t.next implies #[trigger] keeps(m, n, k) by {
            assert(keeps(m, m1, k));
            assert(keeps(m1, m2, k));
            assert(keeps(m2, m3, k));
            assert(keeps(m3, m4, k));
            assert(keeps(m4, m5, k));
            assert(keeps(m5, n, k));
        }
    }
}

/// A planned spectral branch computes what a branch with its parts does, on planes of any
/// extents: if the kernels of its convolutions, norms and sums do what they are launched
/// for, and the device's transforms do where they are launched, its result holds the
/// branch of its planes, and the blocks that were there before hold what they did.
pub proof fn law_planned_branch_computes<S: Scalar>(
    machine: Machine<S>,
    parts: Parts<S>,
    t: Tape,
    sp: DSpectral,
    x: Tensor,
    host: bool,
    m: Memory<S>,
    n: Memory<S>,
    p: Planes<S>,
)
    requires
        0 <= t.next,
        machine.works(sp, parts),
        !host && device_plane(feature(sp, x)) ==> machine.transforms(sp.half as int),
        fitted(sp, x.c as int),
        x.block() < t.next,
        spectral_tape(t, sp, x, host) is Ok,
        machine.leads(t, spectral_tape(t, sp, x, host)->Ok_0.0, m, n),
        holds(m, x, p),
    ensures
        keeps_below(m, n, t.next),
        exists|q: Planes<S>| #[trigger]
            holds(n, spectral_tape(t, sp, x, host)->Ok_0.1, q) && branch_of(
                parts,
                sp.half as int,
                p,
                q,
            ),
{
    let half = sp.half as int;
    let (t1, small) = reduce_tape(t, sp.stride as int, x)->Ok_0;
    let (t2, feat) = conv_tape(t1, sp.conv1, small, 0, 1, false)->Ok_0;
    let t3 = bn_relu_tape(t2, feat, sp.bn1)->Ok_0;
    let (t4, inv) = fourier_tape(t3, sp, feat, host)->Ok_0;
    let t5 = add_tape(t4, inv, feat)->Ok_0;
    let (t6, out) = conv_tape(t5, sp.conv2, inv, 0, 1, false)->Ok_0;
    let t7 = t6.without(inv.at);
    let t8 = t7.without(feat.at);
    let t9 = t8.without(small.at);
    let run = !host && device_plane(feat);
    lemma_new_reduced(t, sp.stride as int, x);
    lemma_new_conv(t1, sp.conv1, small);
    lemma_follows_conv(t1, sp.conv1, small);
    assert(follows(t2, t3, false));
    lemma_follows_unit(t3, sp, feat, host);
    assert(follows(t4, t5, false));
    lemma_new_conv(t5, sp.conv2, inv);
    lemma_follows_conv(t5, sp.conv2, inv);
    lemma_follows_free(t6, t6, false, inv.at);
    lemma_follows_free(t7, t7, false, feat.at);
    lemma_follows_free(t8, t8, false, small.at);
    lemma_follows_both(t7, t8, t9, false, false);
    lemma_follows_both(t6, t7, t9, false, false);
    lemma_follows_both(t5, t6, t9, false, false);
    lemma_follows_both(t4, t5, t9, false, false);
    lemma_follows_both(t3, t4, t9, run, false);
    lemma_follows_both(t2, t3, t9, false, run);
    lemma_follows_both(t1, t2, t9, false, run);
    let m1 = machine.lemma_via(t, t1, t9, m, n);
    let m2 = machine.lemma_via(t1, t2, t9, m1, n);
    let m3 = machine.lemma_via(t2, t3, t9, m2, n);
    let m4 = machine.lemma_via(t3, t4, t9, m3, n);
    let m5 = machine.lemma_via(t4, t5, t9, m4, n);
    let m6 = machine.lemma_via(t5, t6, t9, m5, n);
    let m7 = machine.lemma_via(t6, t7, t9, m6, n);
    let m8 = machine.lemma_via(t7, t8, t9, m7, n);
    let reduce = |t: Tape, x: Tensor| reduce_tape(t, sp.stride as int, x);
    assert(machine.makes_at(0, reduce, parts.reduce, t, x, m, m1, p));
    assert(reduce(t, x) == Ok::<(Tape, Tensor), Seq<char>>((t1, small)));
    let a = choose|q: Planes<S>| #[trigger] holds(m1, small, q) && (parts.reduce)(p, q);
    let conv1 = |t: Tape, x: Tensor| conv_tape(t, sp.conv1, x, 0, 1, false);
    assert(machine.makes_at(sp.conv1.cin as int, conv1, parts.conv1, t1, small, m1, m2, a));
    assert(conv1(t1, small) == Ok::<(Tape, Tensor), Seq<char>>((t2, feat)));
    let b = choose|q: Planes<S>| #[trigger] holds(m2, feat, q) && (parts.conv1)(a, q);
    let norm = |t: Tape, x: Tensor| bn_relu_tape(t, x, sp.bn1);
    assert(machine.changes_at(sp.bn1.channels as int, norm, parts.norm1, t2, feat, m2, m3, b));
    assert(norm(t2, feat) == Ok::<Tape, Seq<char>>(t3));
    let f = choose|q: Planes<S>| #[trigger] holds(m3, feat, q) && (parts.norm1)(b, q);
    machine.lemma_unit(parts, t3, sp, feat, host, m3, m4, f);
    let (s, c, d, g) = choose|a: Planes<S>, b: Planes<S>, c: Planes<S>, d: Planes<S>|
        #[trigger] is_unit(parts, half, f, a, b, c, d) && holds(m4, inv, d);
    assert(keeps(m3, m4, feat.block()));
    lemma_stays(m3, m4, feat, f);
    assert(machine.adds_at(parts.sum, t4, inv, feat, m4, m5, g, f));
    let sum = choose|q: Planes<S>| #[trigger] holds(m5, inv, q) && (parts.sum)(f, g, q);
    let conv2 = |t: Tape, x: Tensor| conv_tape(t, sp.conv2, x, 0, 1, false);
    assert(machine.makes_at(sp.conv2.cin as int, conv2, parts.conv2, t5, inv, m5, m6, sum));
    assert(conv2(t5, inv) == Ok::<(Tape, Tensor), Seq<char>>((t6, out)));
    let q = choose|q: Planes<S>| #[trigger] holds(m6, out, q) && (parts.conv2)(sum, q);
    machine.lemma_freed(t6, inv.at, m6, m7);
    machine.lemma_freed(t7, feat.at, m7, m8);
    machine.lemma_freed(t8, small.at, m8, n);
    assert(keeps(m6, m7, out.block()) && keeps(m7, m8, out.block()) && keeps(m8, n, out.block()));
    lemma_stays(m6, m7, out, q);
    lemma_stays(m7, m8, out, q);
    lemma_stays(m8, n, out, q);
    let k = Course {
        small: a,
        mixed: b,
        feat: f,
        spectra: s,
        turned: c,
        normed: d,
        back: g,
        total: sum,
    };
    assert(is_course(parts, half, p, k, q));
    assert(branch_of(parts, half, p, q));
    assert(spectral_tape(t, sp, x, host)->Ok_0.1 == out);
    assert(holds(n, spectral_tape(t, sp, x, host)->Ok_0.1, q));
    assert forall|i: int| i < t.next implies #[trigger] keeps(m, n, i) by {
        assert(keeps(m, m1, i));
        assert(keeps(m1, m2, i));
        assert(keeps(m2, m3, i));
        assert(keeps(m3, m4, i));
        assert(keeps(m4, m5, i));
        assert(keeps(m5, m6, i));
        assert(keeps(m6, m7, i));
        assert(keeps(m7, m8, i));
        assert(keeps(m8, n, i));
    }
}

/// The branch of the host is the one with its parts.
pub proof fn law_host_branch_has_its_parts<S: Scalar>(sp: Spectral<S>, x: Planes<S>, out: Planes<S>)
    ensures
        spectral_of(sp, x, out) == branch_of(host_parts(sp), sp.fu.half as int, x, out),
{
    let parts = host_parts(sp);
    let half = sp.fu.half as int;
    if branch_of(parts, half, x, out) {
        let k = choose|k: Course<S>| #[trigger] is_course(parts, half, x, k, out);
        let c = choose|c: Planes<S>| #[trigger] normed(sp.bn1, k.mixed, c) && rectified(c, k.feat);
        let d = choose|c: Planes<S>| #[trigger]
            normed(sp.fu.bn, k.turned, c) && rectified(c, k.normed);
        assert(convolved(sp.conv1, k.small, 0, 1, false, k.mixed) && normed(sp.bn1, k.mixed, c));
        assert(activated(sp.conv1, sp.bn1, k.small, k.feat));
        assert(convolved(sp.fu.conv, k.spectra, 0, 1, false, k.turned) && normed(
            sp.fu.bn,
            k.turned,
            d,
        ));
        assert(activated(sp.fu.conv, sp.fu.bn, k.spectra, k.normed));
        assert(transformed(k.feat, half, k.spectra));
        assert(fourier_of(sp.fu, k.feat, k.back));
        assert(reduced(sp.stride as int, x, k.small));
        assert(summed(k.feat, k.back, k.total));
    }
    if spectral_of(sp, x, out) {
        let (a, feat, f, t) = choose|a: Planes<S>, feat: Planes<S>, f: Planes<S>, t: Planes<S>|
            #![trigger reduced(sp.stride as int, x, a), activated(sp.conv1, sp.bn1, a, feat), fourier_of(sp.fu, feat, f), summed(feat, f, t)]
            {
                &&& reduced(sp.stride as int, x, a)
                &&& activated(sp.conv1, sp.bn1, a, feat)
                &&& fourier_of(sp.fu, feat, f)
                &&& summed(feat, f, t)
                &&& convolved(sp.conv2, t, 0, 1, false, out)
            };
        let (mixed, c) = choose|b: Planes<S>, c: Planes<S>|
            #![trigger convolved(sp.conv1, a, 0, 1, false, b), normed(sp.bn1, b, c)]
            convolved(sp.conv1, a, 0, 1, false, b) && normed(sp.bn1, b, c) && rectified(c, feat);
        let (spectra, last) = choose|b: Planes<S>, c: Planes<S>|
            #![trigger transformed(feat, half, b), activated(sp.fu.conv, sp.fu.bn, b, c)]
            {
                &&& transformed(feat, half, b)
                &&& activated(sp.fu.conv, sp.fu.bn, b, c)
                &&& untransformed(c, half, feat.w, f)
            };
        let (turned, d) = choose|b: Planes<S>, c: Planes<S>|
            #![trigger convolved(sp.fu.conv, spectra, 0, 1, false, b), normed(sp.fu.bn, b, c)]
            convolved(sp.fu.conv, spectra, 0, 1, false, b) && normed(sp.fu.bn, b, c) && rectified(
                c,
                last,
            );
        assert(normed(sp.bn1, mixed, c) && normed(sp.fu.bn, turned, d));
        let k = Course { small: a, mixed, feat, spectra, turned, normed: last, back: f, total: t };
        assert(is_course(parts, half, x, k, out));
    }
}

/// A planned spectral branch agrees with the host's: where the kernels of its
/// convolutions, norms and sums compute what the host's do, its result holds what the
/// host's branch makes of the same planes, of any extents.
pub proof fn law_device_branch_agrees_with_the_hosts<S: Scalar>(
    machine: Machine<S>,
    host_branch: Spectral<S>,
    t: Tape,
    sp: DSpectral,
    x: Tensor,
    host: bool,
    m: Memory<S>,
    n: Memory<S>,
    p: Planes<S>,
)
    requires
        0 <= t.next,
        machine.works(sp, host_parts(host_branch)),
        !host && device_plane(feature(sp, x)) ==> machine.transforms(sp.half as int),
        sp.half == host_branch.fu.half,
        fitted(sp, x.c as int),
        x.block() < t.next,
        spectral_tape(t, sp, x, host) is Ok,
        machine.leads(t, spectral_tape(t, sp, x, host)->Ok_0.0, m, n),
        holds(m, x, p),
    ensures
        exists|q: Planes<S>| #[trigger]
            holds(n, spectral_tape(t, sp, x, host)->Ok_0.1, q) && spectral_of(host_branch, p, q),
{
    let parts = host_parts(host_branch);
    law_planned_branch_computes(machine, parts, t, sp, x, host, m, n, p);
    let q = choose|q: Planes<S>| #[trigger]
        holds(n, spectral_tape(t, sp, x, host)->Ok_0.1, q) && branch_of(parts, sp.half as int, p, q);
    law_host_branch_has_its_parts(host_branch, p, q);
}

} // verus!
