//! Convolutions over stacks of planes.

use vstd::prelude::*;

use crate::acts::{lemma_index, lemma_some_place, mirrored, Acts, Planes};
use crate::fold::{folds, lemma_no_steps, lemma_same_steps, lemma_step};
use crate::grid::{lemma_place3, lemma_place3_of};
use crate::image::{reflect, reflect_index, lemma_reflect};
use crate::model::conv_extent;
use crate::needs::{decoded, first_unmet, joined, lemma_one_need, values, Need};
use crate::par::par_map;
use crate::scalar::Scalar;
use crate::weights::WeightStore;

verus! {

/// A convolution weight packed as `[cout][cin][kh][kw]`, as stored.
pub struct Conv2dW<S> {
    pub w: Vec<S>,
    pub bias: Option<Vec<S>>,
    pub cin: usize,
    pub cout: usize,
    pub kh: usize,
    pub kw: usize,
}

/// `v` is what a sum over the taps of an output channel starts from: its bias, or zero.
pub open spec fn starts<S: Scalar>(bias: Option<Vec<S>>, co: int, v: S) -> bool {
    match bias {
        Some(b) => v == b@[co],
        None => call_ensures(S::zero, (), v),
    }
}

impl<S: Scalar> Conv2dW<S> {
    /// There are enough weights, and a bias for every output channel if for any.
    pub open spec fn wf(&self) -> bool {
        &&& self.cout * self.cin * self.kh * self.kw <= self.w.len()
        &&& self.bias matches Some(b) ==> self.cout <= b.len()
    }

    /// One weight.
    pub open spec fn weight(&self, co: int, ci: int, ky: int, kx: int) -> S {
        self.w@[((co * self.cin + ci) * self.kh + ky) * self.kw + kx]
    }

    /// The number of taps of an output value.
    pub open spec fn taps(&self) -> int {
        self.cin * self.kh * self.kw
    }
}

/// The weight and the sample of tap `t` of an output value, the taps going over the input
/// channels, then the kernel's rows, then its columns.  Outside the planes there is no
/// sample, unless they are mirrored.
pub open spec fn tap<S: Scalar>(
    cv: Conv2dW<S>,
    src: Planes<S>,
    pad: int,
    stride: int,
    mirror: bool,
    co: int,
    oy: int,
    ox: int,
    t: int,
) -> Option<(S, S)> {
    let ci = t / cv.kw as int / cv.kh as int;
    let ky = t / cv.kw as int % cv.kh as int;
    let kx = t % cv.kw as int;
    let y = oy * stride + ky - pad;
    let x = ox * stride + kx - pad;
    if mirror || src.inside(ci, y, x) {
        Some((cv.weight(co, ci, ky, kx), src.value(ci, reflect(y, src.h), reflect(x, src.w))))
    } else {
        None
    }
}

/// One tap added to a sum.
pub open spec fn tap_added<S: Scalar>(tap: Option<(S, S)>, a: S, b: S) -> bool {
    match tap {
        Some((k, x)) => call_ensures(S::plus_product, (a, k, x), b),
        None => b == a,
    }
}

/// The steps of the sum over the taps of an output value.
pub open spec fn tap_steps<S: Scalar>(
    cv: Conv2dW<S>,
    src: Planes<S>,
    pad: int,
    stride: int,
    mirror: bool,
    co: int,
    oy: int,
    ox: int,
) -> spec_fn(int, S, S) -> bool {
    |t: int, a: S, b: S| tap_added(tap(cv, src, pad, stride, mirror, co, oy, ox, t), a, b)
}

/// `r` is the output value at a position: the bias plus every tap, in order.
pub open spec fn convolved_at<S: Scalar>(
    cv: Conv2dW<S>,
    src: Planes<S>,
    pad: int,
    stride: int,
    mirror: bool,
    co: int,
    oy: int,
    ox: int,
    r: S,
) -> bool {
    exists|start: S| #[trigger]
        starts(cv.bias, co, start) && folds(
            start,
            tap_steps(cv, src, pad, stride, mirror, co, oy, ox),
            cv.taps() as nat,
            r,
        )
}

/// `out` is the convolution of `src`.
pub open spec fn convolved<S: Scalar>(
    cv: Conv2dW<S>,
    src: Planes<S>,
    pad: int,
    stride: int,
    mirror: bool,
    out: Planes<S>,
) -> bool {
    &&& out.shaped(
        cv.cout as int,
        conv_extent(src.h, cv.kh as int, stride, pad),
        conv_extent(src.w, cv.kw as int, stride, pad),
    )
    &&& forall|co: int, oy: int, ox: int|
        out.inside(co, oy, ox) ==> convolved_at(
            cv,
            src,
            pad,
            stride,
            mirror,
            co,
            oy,
            ox,
            #[trigger] out.value(co, oy, ox),
        )
}

/// Whether a convolution can be applied to planes: they have the channels, the kernel fits
/// into them, there is something to mirror, and the result can be held.
pub open spec fn can_convolve<S: Scalar>(
    cv: Conv2dW<S>,
    c: int,
    h: int,
    w: int,
    pad: int,
    stride: int,
    mirror: bool,
) -> bool {
    let oh = conv_extent(h, cv.kh as int, stride, pad);
    let ow = conv_extent(w, cv.kw as int, stride, pad);
    &&& cv.cin <= c
    &&& 1 <= stride
    &&& cv.kh <= h + 2 * pad
    &&& cv.kw <= w + 2 * pad
    &&& mirror ==> 1 <= h && 1 <= w
    &&& h + 2 * pad <= isize::MAX
    &&& w + 2 * pad <= isize::MAX
    &&& cv.cout * oh <= usize::MAX
    &&& cv.cout * oh * ow <= usize::MAX
}

/// What a convolution needs of the checkpoint.
pub open spec fn conv_needs(prefix: Seq<char>) -> Seq<Need> {
    seq![Need::Tensor(prefix + ".weight"@)]
}

/// The weight of this name, if there is one, has the four extents of a convolution.
pub open spec fn conv_shaped(store: WeightStore, prefix: Seq<char>) -> bool {
    store.has(prefix + ".weight"@) ==> store.tensor(prefix + ".weight"@).shape@.len() >= 4
}

/// `bias` is the bias of this name, if there is one.
pub open spec fn bias_of<S: Scalar>(store: WeightStore, prefix: Seq<char>, bias: Option<Vec<S>>) -> bool {
    match bias {
        Some(b) => store.has(prefix + ".bias"@) && decoded(store.words(prefix + ".bias"@), b@),
        None => !store.has(prefix + ".bias"@),
    }
}

/// `cv` is the convolution of this name.
pub open spec fn conv_of<S: Scalar>(store: WeightStore, prefix: Seq<char>, cv: Conv2dW<S>) -> bool {
    let shape = store.tensor(prefix + ".weight"@).shape@;
    &&& cv.cout == shape[0]
    &&& cv.cin == shape[1]
    &&& cv.kh == shape[2]
    &&& cv.kw == shape[3]
    &&& decoded(store.words(prefix + ".weight"@), cv.w@)
    &&& bias_of(store, prefix, cv.bias)
}

/// The place of a weight.
proof fn lemma_weight<S: Scalar>(cv: Conv2dW<S>, co: int, ci: int, ky: int, kx: int)
    requires
        cv.wf(),
        0 <= co < cv.cout,
        0 <= ci < cv.cin,
        0 <= ky < cv.kh,
        0 <= kx < cv.kw,
    ensures
        0 <= co * cv.cin <= co * cv.cin + ci <= (co * cv.cin + ci) * cv.kh,
        0 <= (co * cv.cin + ci) * cv.kh + ky <= ((co * cv.cin + ci) * cv.kh + ky) * cv.kw,
        ((co * cv.cin + ci) * cv.kh + ky) * cv.kw + kx < cv.w@.len(),
{
    let n = cv.cout * cv.cin;
    let i = co * cv.cin + ci;
    crate::grid::lemma_place(cv.cin as int, cv.cout as int, ci, co);
    assert(cv.cin * cv.cout == n) by (nonlinear_arith)
        requires
            n == cv.cout * cv.cin,
    ;
    lemma_place3(n, cv.kh as int, cv.kw as int, i, ky, kx);
    assert(i <= i * cv.kh) by (nonlinear_arith)
        requires
            0 <= i,
            1 <= cv.kh,
    ;
    assert(i * cv.kh + ky <= (i * cv.kh + ky) * cv.kw) by (nonlinear_arith)
        requires
            0 <= i * cv.kh + ky,
            1 <= cv.kw,
    ;
}

/// The sample that a tap reads along one axis, if any.
fn sample_index(o: usize, stride: usize, k: usize, pad: usize, n: usize, mirror: bool) -> (r: Option<
    usize,
>)
    requires
        mirror ==> 1 <= n,
        o * stride + k <= isize::MAX,
        pad <= isize::MAX,
    ensures
        ({
            let i = o * stride + k - pad;
            match r {
                Some(s) => (mirror || 0 <= i < n) && s == reflect(i, n as int) && s < n,
                None => !mirror && !(0 <= i < n),
            }
        }),
{
    let i: usize = o * stride + k;
    proof {
        if n >= 1 {
            lemma_reflect(i - pad, n as int);
        }
    }
    if i < pad || i - pad >= n {
        if !mirror {
            return None;
        }
        return Some(reflect_index(i as isize - pad as isize, n));
    }
    Some(i - pad)
}

impl<S: Scalar> Conv2dW<S> {
    /// The convolution of this name.
    pub fn load(store: &WeightStore, prefix: &str) -> (res: Result<Self, String>)
        requires
            store.wf(),
            conv_shaped(*store, prefix@),
        ensures
            match first_unmet(*store, conv_needs(prefix@)) {
                Some(text) => res matches Err(e) && e@ == text,
                None => res matches Ok(cv) && conv_of(*store, prefix@, cv),
            },
    {
        proof {
            lemma_one_need(*store, Need::Tensor(prefix@ + ".weight"@));
        }
        let name: String = joined(prefix, ".weight");
        let (cout, cin, kh, kw): (usize, usize, usize, usize) = match store.info(name.as_str()) {
            Ok(t) => (t.shape[0], t.shape[1], t.shape[2], t.shape[3]),
            Err(e) => {
                return Err(e);
            },
        };
        let w: Vec<S> = match values::<S>(store, name.as_str()) {
            Ok(v) => v,
            Err(e) => {
                return Err(e);
            },
        };
        let bias: Option<Vec<S>> = match values::<S>(store, joined(prefix, ".bias").as_str()) {
            Ok(b) => Some(b),
            Err(_) => None,
        };
        Ok(Conv2dW { w, bias, cin, cout, kh, kw })
    }

    /// What the sum over the taps of an output channel starts from.
    fn start(&self, co: usize) -> (v: S)
        requires
            self.wf(),
            co < self.cout,
        ensures
            starts(self.bias, co as int, v),
    {
        match &self.bias {
            Some(b) => b[co],
            None => S::zero(),
        }
    }

    /// One output value.
    fn value_at(
        &self,
        src: &Acts<S>,
        pad: usize,
        stride: usize,
        mirror: bool,
        co: usize,
        oy: usize,
        ox: usize,
    ) -> (r: S)
        requires
            self.wf(),
            src.wf(),
            can_convolve(
                *self,
                src.c as int,
                src.h as int,
                src.w as int,
                pad as int,
                stride as int,
                mirror,
            ),
            co < self.cout,
            oy < conv_extent(src.h as int, self.kh as int, stride as int, pad as int),
            ox < conv_extent(src.w as int, self.kw as int, stride as int, pad as int),
        ensures
            convolved_at(
                *self,
                src@,
                pad as int,
                stride as int,
                mirror,
                co as int,
                oy as int,
                ox as int,
                r,
            ),
    {
        let start: S = self.start(co);
        let ghost step = tap_steps(
            *self,
            src@,
            pad as int,
            stride as int,
            mirror,
            co as int,
            oy as int,
            ox as int,
        );
        proof {
            lemma_reach(oy as int, src.h + 2 * pad, self.kh as int, stride as int);
            lemma_reach(ox as int, src.w + 2 * pad, self.kw as int, stride as int);
            lemma_no_steps(start, step);
            assert(0 * self.kh * self.kw == 0) by (nonlinear_arith);
        }
        let mut acc: S = start;
        let mut ci: usize = 0;
        while ci < self.cin
            invariant
                self.wf(),
                src.wf(),
                can_convolve(
                    *self,
                    src.c as int,
                    src.h as int,
                    src.w as int,
                    pad as int,
                    stride as int,
                    mirror,
                ),
                co < self.cout,
                oy * stride + self.kh <= src.h + 2 * pad,
                ox * stride + self.kw <= src.w + 2 * pad,
                step == tap_steps(
                    *self,
                    src@,
                    pad as int,
                    stride as int,
                    mirror,
                    co as int,
                    oy as int,
                    ox as int,
                ),
                0 <= ci <= self.cin,
                folds(start, step, (ci * self.kh * self.kw) as nat, acc),
            decreases self.cin - ci,
        {
            let mut ky: usize = 0;
            while ky < self.kh
                invariant
                    self.wf(),
                    src.wf(),
                    can_convolve(
                        *self,
                        src.c as int,
                        src.h as int,
                        src.w as int,
                        pad as int,
                        stride as int,
                        mirror,
                    ),
                    co < self.cout,
                    oy * stride + self.kh <= src.h + 2 * pad,
                    ox * stride + self.kw <= src.w + 2 * pad,
                    step == tap_steps(
                        *self,
                        src@,
                        pad as int,
                        stride as int,
                        mirror,
                        co as int,
                        oy as int,
                        ox as int,
                    ),
                    0 <= ci < self.cin,
                    0 <= ky <= self.kh,
                    folds(start, step, ((ci * self.kh + ky) * self.kw) as nat, acc),
                decreases self.kh - ky,
            {
                let sy: Option<usize> = sample_index(oy, stride, ky, pad, src.h, mirror);
                let mut kx: usize = 0;
                while kx < self.kw
                    invariant
                        self.wf(),
                        src.wf(),
                        can_convolve(
                            *self,
                            src.c as int,
                            src.h as int,
                            src.w as int,
                            pad as int,
                            stride as int,
                            mirror,
                        ),
                        co < self.cout,
                        oy * stride + self.kh <= src.h + 2 * pad,
                        ox * stride + self.kw <= src.w + 2 * pad,
                        step == tap_steps(
                            *self,
                            src@,
                            pad as int,
                            stride as int,
                            mirror,
                            co as int,
                            oy as int,
                            ox as int,
                        ),
                        0 <= ci < self.cin,
                        0 <= ky < self.kh,
                        0 <= kx <= self.kw,
                        match sy {
                            Some(s) => (mirror || 0 <= oy * stride + ky - pad < src.h) && s
                                == reflect(oy * stride + ky - pad, src.h as int) && s < src.h,
                            None => !mirror && !(0 <= oy * stride + ky - pad < src.h),
                        },
                        folds(start, step, ((ci * self.kh + ky) * self.kw + kx) as nat, acc),
                    decreases self.kw - kx,
                {
                    let sx: Option<usize> = sample_index(ox, stride, kx, pad, src.w, mirror);
                    let ghost t = (ci * self.kh + ky) * self.kw + kx;
                    let ghost before = acc;
                    proof {
                        lemma_place3(
                            self.cin as int,
                            self.kh as int,
                            self.kw as int,
                            ci as int,
                            ky as int,
                            kx as int,
                        );
                        lemma_weight(*self, co as int, ci as int, ky as int, kx as int);
                    }
                    match (sy, sx) {
                        (Some(y), Some(x)) => {
                            proof {
                                lemma_index(src@, ci as int, y as int, x as int);
                            }
                            let k: S = self.w[((co * self.cin + ci) * self.kh + ky) * self.kw + kx];
                            acc = acc.plus_product(k, src.data[(ci * src.h + y) * src.w + x]);
                        },
                        _ => {},
                    }
                    proof {
                        assert(step(t, before, acc));
                        lemma_step(start, step, t as nat, before, acc);
                    }
                    kx += 1;
                }
                proof {
                    assert((ci * self.kh + ky) * self.kw + self.kw == (ci * self.kh + (ky + 1))
                        * self.kw) by (nonlinear_arith);
                }
                ky += 1;
            }
            proof {
                assert(ci * self.kh + self.kh == (ci + 1) * self.kh) by (nonlinear_arith);
            }
            ci += 1;
        }
        assert(starts(self.bias, co as int, start));
        acc
    }

    /// kxk convolution, stride `stride`, padding either zeros or reflection.
    ///
    /// Reflection pre-pads `pad` pixels by mirroring and then runs a valid convolution, so
    /// it only affects out-of-range taps and never changes the output size.
    pub fn forward_pad(&self, src: &Acts<S>, pad: usize, stride: usize, mirror: bool) -> (out: Acts<S>)
        requires
            self.wf(),
            src.wf(),
            can_convolve(
                *self,
                src.c as int,
                src.h as int,
                src.w as int,
                pad as int,
                stride as int,
                mirror,
            ),
        ensures
            out.wf(),
            convolved(*self, src@, pad as int, stride as int, mirror, out@),
    {
        let oh: usize = (src.h + 2 * pad - self.kh) / stride + 1;
        let ow: usize = (src.w + 2 * pad - self.kw) / stride + 1;
        proof {
            lemma_extent(src.h + 2 * pad, self.kh as int, stride as int);
            lemma_extent(src.w + 2 * pad, self.kw as int, stride as int);
        }
        let n: usize = self.cout * oh * ow;
        let data: Vec<S> = par_map(
            n,
            (|k: usize| -> (r: S)
                requires
                    k < n,
                    self.wf(),
                    src.wf(),
                    can_convolve(
                        *self,
                        src.c as int,
                        src.h as int,
                        src.w as int,
                        pad as int,
                        stride as int,
                        mirror,
                    ),
                    oh == conv_extent(src.h as int, self.kh as int, stride as int, pad as int),
                    ow == conv_extent(src.w as int, self.kw as int, stride as int, pad as int),
                    n == self.cout * oh * ow,
                ensures
                    convolved_at(
                        *self,
                        src@,
                        pad as int,
                        stride as int,
                        mirror,
                        k as int / ow as int / oh as int,
                        k as int / ow as int % oh as int,
                        k as int % ow as int,
                        r,
                    ),
            {
                proof {
                    lemma_some_place(self.cout as int, oh as int, ow as int, k as int);
                    lemma_place3_of(self.cout as int, oh as int, ow as int, k as int);
                }
                self.value_at(src, pad, stride, mirror, k / ow / oh, k / ow % oh, k % ow)
            }),
        );
        let out = Acts { c: self.cout, h: oh, w: ow, data };
        assert forall|co: int, oy: int, ox: int| out@.inside(co, oy, ox) implies convolved_at(
            *self,
            src@,
            pad as int,
            stride as int,
            mirror,
            co,
            oy,
            ox,
            #[trigger] out@.value(co, oy, ox),
        ) by {
            lemma_place3(out@.c, out@.h, out@.w, co, oy, ox);
            let k = (co * oh + oy) * ow + ox;
            assert(out.data@[k] == out@.value(co, oy, ox));
        }
        out
    }

    /// 1x1 convolution expressed as a channel matmul over `[cin][h][w]` planes.
    pub fn forward_1x1(&self, src: &Acts<S>) -> (out: Acts<S>)
        requires
            self.wf(),
            src.wf(),
            self.kh == 1,
            self.kw == 1,
            can_convolve(*self, src.c as int, src.h as int, src.w as int, 0, 1, false),
        ensures
            out.wf(),
            convolved(*self, src@, 0, 1, false, out@),
    {
        self.forward_pad(src, 0, 1, false)
    }
}

/// The last output position still reads inside the padded line.
proof fn lemma_reach(o: int, n: int, k: int, stride: int)
    requires
        1 <= stride,
        k <= n,
        0 <= o < (n - k) / stride + 1,
    ensures
        0 <= o * stride,
        o * stride + k <= n,
{
    let q = (n - k) / stride;
    vstd::arithmetic::div_mod::lemma_fundamental_div_mod(n - k, stride);
    assert(o * stride <= q * stride) by (nonlinear_arith)
        requires
            o <= q,
            1 <= stride,
    ;
    assert(q * stride == stride * q) by (nonlinear_arith);
    assert(0 <= o * stride) by (nonlinear_arith)
        requires
            0 <= o,
            1 <= stride,
    ;
}

/// An output line is no longer than the padded input line.
proof fn lemma_extent(n: int, k: int, stride: int)
    requires
        1 <= stride,
        0 <= k <= n,
    ensures
        0 <= (n - k) / stride <= n - k,
{
    vstd::arithmetic::div_mod::lemma_div_is_ordered_by_denominator(n - k, 1, stride);
    vstd::arithmetic::div_mod::lemma_div_pos_is_pos(n - k, stride);
    vstd::arithmetic::div_mod::lemma_div_basics(n - k);
}

/// Whether every tap of an output value lies inside the planes.
pub open spec fn taps_inside<S: Scalar>(
    cv: Conv2dW<S>,
    src: Planes<S>,
    pad: int,
    stride: int,
    oy: int,
    ox: int,
) -> bool {
    &&& pad <= oy * stride
    &&& oy * stride + cv.kh - pad <= src.h
    &&& pad <= ox * stride
    &&& ox * stride + cv.kw - pad <= src.w
}

/// Sums over taps that are the same come out the same.
proof fn lemma_same_taps<S: Scalar>(
    cv: Conv2dW<S>,
    src: Planes<S>,
    pad: int,
    mirror: bool,
    other: Planes<S>,
    other_pad: int,
    other_mirror: bool,
    stride: int,
    co: int,
    oy: int,
    ox: int,
    r: S,
)
    requires
        forall|t: int|
            0 <= t < cv.taps() ==> #[trigger] tap(cv, src, pad, stride, mirror, co, oy, ox, t)
                == tap(cv, other, other_pad, stride, other_mirror, co, oy, ox, t),
    ensures
        convolved_at(cv, src, pad, stride, mirror, co, oy, ox, r) == convolved_at(
            cv,
            other,
            other_pad,
            stride,
            other_mirror,
            co,
            oy,
            ox,
            r,
        ),
{
    let a = tap_steps(cv, src, pad, stride, mirror, co, oy, ox);
    let b = tap_steps(cv, other, other_pad, stride, other_mirror, co, oy, ox);
    let n = cv.taps() as nat;
    assert(0 <= cv.taps()) by (nonlinear_arith)
        requires
            cv.taps() == cv.cin * cv.kh * cv.kw,
    ;
    assert forall|i: int, x: S, y: S| 0 <= i < n implies #[trigger] a(i, x, y) == b(i, x, y) by {
        assert(tap(cv, src, pad, stride, mirror, co, oy, ox, i) == tap(
            cv,
            other,
            other_pad,
            stride,
            other_mirror,
            co,
            oy,
            ox,
            i,
        ));
    }
    assert forall|i: int, x: S, y: S| 0 <= i < n implies #[trigger] b(i, x, y) == a(i, x, y) by {
        assert(a(i, x, y) == b(i, x, y));
    }
    if convolved_at(cv, src, pad, stride, mirror, co, oy, ox, r) {
        let start = choose|start: S| #[trigger] starts(cv.bias, co, start) && folds(start, a, n, r);
        lemma_same_steps(start, a, b, n, r);
        assert(starts(cv.bias, co, start));
    }
    if convolved_at(cv, other, other_pad, stride, other_mirror, co, oy, ox, r) {
        let start = choose|start: S| #[trigger] starts(cv.bias, co, start) && folds(start, b, n, r);
        lemma_same_steps(start, b, a, n, r);
        assert(starts(cv.bias, co, start));
    }
}

/// A convolution of planes that it mirrors is the valid convolution of planes that were
/// mirrored before: what one may give, the other may give, and nothing else.
pub proof fn law_mirroring_comes_first<S: Scalar>(
    cv: Conv2dW<S>,
    src: Planes<S>,
    pad: int,
    stride: int,
    m: Planes<S>,
    out: Planes<S>,
)
    requires
        cv.cin <= src.c,
        1 <= stride,
        0 <= pad,
        1 <= src.h,
        1 <= src.w,
        cv.kh <= src.h + 2 * pad,
        cv.kw <= src.w + 2 * pad,
        mirrored(src, pad, m),
    ensures
        convolved(cv, src, pad, stride, true, out) == convolved(cv, m, 0, stride, false, out),
{
    let oh = conv_extent(src.h, cv.kh as int, stride, pad);
    let ow = conv_extent(src.w, cv.kw as int, stride, pad);
    assert forall|co: int, oy: int, ox: int, r: S|
        0 <= oy < oh && 0 <= ox < ow implies #[trigger] convolved_at(
        cv,
        src,
        pad,
        stride,
        true,
        co,
        oy,
        ox,
        r,
    ) == convolved_at(cv, m, 0, stride, false, co, oy, ox, r) by {
        lemma_reach(oy, m.h, cv.kh as int, stride);
        lemma_reach(ox, m.w, cv.kw as int, stride);
        assert forall|t: int| 0 <= t < cv.taps() implies #[trigger] tap(
            cv,
            src,
            pad,
            stride,
            true,
            co,
            oy,
            ox,
            t,
        ) == tap(cv, m, 0, stride, false, co, oy, ox, t) by {
            lemma_some_place(cv.cin as int, cv.kh as int, cv.kw as int, t);
            lemma_place3_of(cv.cin as int, cv.kh as int, cv.kw as int, t);
            let ci = t / cv.kw as int / cv.kh as int;
            let y = oy * stride + t / cv.kw as int % cv.kh as int;
            let x = ox * stride + t % cv.kw as int;
            lemma_reflect(y, m.h);
            lemma_reflect(x, m.w);
            assert(m.inside(ci, y, x));
            assert(m.value(ci, y, x) == src.value(ci, reflect(y - pad, src.h), reflect(x - pad, src.w)));
        }
        lemma_same_taps(cv, src, pad, true, m, 0, false, stride, co, oy, ox, r);
    }
    if convolved(cv, src, pad, stride, true, out) {
        assert forall|co: int, oy: int, ox: int| out.inside(co, oy, ox) implies convolved_at(
            cv,
            m,
            0,
            stride,
            false,
            co,
            oy,
            ox,
            #[trigger] out.value(co, oy, ox),
        ) by {
            assert(convolved_at(cv, src, pad, stride, true, co, oy, ox, out.value(co, oy, ox)));
        }
    }
    if convolved(cv, m, 0, stride, false, out) {
        assert forall|co: int, oy: int, ox: int| out.inside(co, oy, ox) implies convolved_at(
            cv,
            src,
            pad,
            stride,
            true,
            co,
            oy,
            ox,
            #[trigger] out.value(co, oy, ox),
        ) by {
            assert(convolved_at(cv, m, 0, stride, false, co, oy, ox, out.value(co, oy, ox)));
            assert(convolved_at(cv, src, pad, stride, true, co, oy, ox, out.value(co, oy, ox))
                == convolved_at(cv, m, 0, stride, false, co, oy, ox, out.value(co, oy, ox)));
        }
    }
}

/// Mirroring affects out-of-range taps alone: with or without it the result has the same
/// shape, and where all taps lie inside the planes the same values.
pub proof fn law_mirroring_affects_the_border_alone<S: Scalar>(
    cv: Conv2dW<S>,
    src: Planes<S>,
    pad: int,
    stride: int,
    a: Planes<S>,
    b: Planes<S>,
)
    requires
        cv.cin <= src.c,
        1 <= stride,
        0 <= pad,
        1 <= src.h,
        1 <= src.w,
        cv.kh <= src.h + 2 * pad,
        cv.kw <= src.w + 2 * pad,
        convolved(cv, src, pad, stride, true, a),
        convolved(cv, src, pad, stride, false, b),
    ensures
        a.c == b.c == cv.cout,
        a.h == b.h == (src.h + 2 * pad - cv.kh) / stride + 1,
        a.w == b.w == (src.w + 2 * pad - cv.kw) / stride + 1,
        forall|co: int, oy: int, ox: int, r: S|
            a.inside(co, oy, ox) && taps_inside(cv, src, pad, stride, oy, ox) ==> convolved_at(
                cv,
                src,
                pad,
                stride,
                true,
                co,
                oy,
                ox,
                r,
            ) == #[trigger] convolved_at(cv, src, pad, stride, false, co, oy, ox, r),
{
    assert forall|co: int, oy: int, ox: int, r: S|
        a.inside(co, oy, ox) && taps_inside(cv, src, pad, stride, oy, ox) implies convolved_at(
        cv,
        src,
        pad,
        stride,
        true,
        co,
        oy,
        ox,
        r,
    ) == #[trigger] convolved_at(cv, src, pad, stride, false, co, oy, ox, r) by {
        assert forall|t: int| 0 <= t < cv.taps() implies #[trigger] tap(
            cv,
            src,
            pad,
            stride,
            true,
            co,
            oy,
            ox,
            t,
        ) == tap(cv, src, pad, stride, false, co, oy, ox, t) by {
            lemma_some_place(cv.cin as int, cv.kh as int, cv.kw as int, t);
            lemma_place3_of(cv.cin as int, cv.kh as int, cv.kw as int, t);
        }
        lemma_same_taps(cv, src, pad, true, src, pad, false, stride, co, oy, ox, r);
    }
}

} // verus!
