//! Convolutions as matrix products: patches, products, and the transposed convolution as a
//! scatter.

use vstd::prelude::*;

use crate::acts::{lemma_extents, lemma_some_place};
use crate::convt::contributed;
use crate::fold::{folds, lemma_no_steps, lemma_step};
use crate::grid::{at, at3, fill, lemma_place, lemma_place3, lemma_place3_of, lemma_place_of, lemma_position};
use crate::par::par_map;
use crate::scalar::Scalar;
use crate::spectral::{chunk, flattened};

verus! {

/// `r` is the sample that a tap of the kernel reads for an output position: zero outside
/// the plane.
pub open spec fn patch_at<S: Scalar>(
    src: Seq<S>,
    h: int,
    w: int,
    pad_h: int,
    pad_w: int,
    ci: int,
    ky: int,
    kx: int,
    oy: int,
    ox: int,
    r: S,
) -> bool {
    let y = oy + ky - pad_h;
    let x = ox + kx - pad_w;
    if 0 <= y < h && 0 <= x < w {
        r == at3(src, h, w, ci, y, x)
    } else {
        call_ensures(S::zero, (), r)
    }
}

/// Gather the patches of a convolution: the output is `[cin][kh][kw][oh][ow]`, so that a
/// product reads it as a `(cin * kh * kw) x (oh * ow)` matrix.
pub fn im2col<S: Scalar>(
    src: &[S],
    cin: usize,
    h: usize,
    w: usize,
    kh: usize,
    kw: usize,
    pad_h: usize,
    pad_w: usize,
    oh: usize,
    ow: usize,
) -> (out: Vec<S>)
    requires
        cin * h * w <= src.len(),
        cin * kh * kw <= usize::MAX,
        cin * kh <= usize::MAX,
        oh * ow <= usize::MAX,
        cin * kh * kw * (oh * ow) <= usize::MAX,
        oh + kh <= isize::MAX,
        ow + kw <= isize::MAX,
    ensures
        out@.len() == cin * kh * kw * oh * ow,
        forall|t: int, oy: int, ox: int|
            0 <= t < cin * kh * kw && 0 <= oy < oh && 0 <= ox < ow ==> patch_at(
                src@,
                h as int,
                w as int,
                pad_h as int,
                pad_w as int,
                t / kw as int / kh as int,
                t / kw as int % kh as int,
                t % kw as int,
                oy,
                ox,
                #[trigger] at3(out@, oh as int, ow as int, t, oy, ox),
            ),
{
    let taps: usize = cin * kh * kw;
    let n: usize = taps * (oh * ow);
    proof {
        assert(taps * (oh * ow) == cin * kh * kw * oh * ow) by (nonlinear_arith)
            requires
                taps == cin * kh * kw,
        ;
        assert(taps * (oh * ow) == taps * oh * ow) by (nonlinear_arith);
    }
    let out: Vec<S> = par_map(
        n,
        (|k: usize| -> (r: S)
            requires
                k < n,
                n == taps * oh * ow,
                taps == cin * kh * kw,
                cin * h * w <= src.len(),
                oh + kh <= isize::MAX,
                ow + kw <= isize::MAX,
            ensures
                patch_at(
                    src@,
                    h as int,
                    w as int,
                    pad_h as int,
                    pad_w as int,
                    k as int / ow as int / oh as int / kw as int / kh as int,
                    k as int / ow as int / oh as int / kw as int % kh as int,
                    k as int / ow as int / oh as int % kw as int,
                    k as int / ow as int % oh as int,
                    k as int % ow as int,
                    r,
                ),
        {
            proof {
                lemma_some_place(taps as int, oh as int, ow as int, k as int);
                lemma_place3_of(taps as int, oh as int, ow as int, k as int);
                lemma_some_place(cin as int, kh as int, kw as int, 0);
                lemma_place3_of(cin as int, kh as int, kw as int, k as int / ow as int / oh as int);
            }
            let t: usize = k / ow / oh;
            let ci: usize = t / kw / kh;
            let y: usize = k / ow % oh + t / kw % kh;
            let x: usize = k % ow + t % kw;
            if y >= pad_h && y - pad_h < h && x >= pad_w && x - pad_w < w {
                let sy: usize = y - pad_h;
                let sx: usize = x - pad_w;
                proof {
                    lemma_place3(cin as int, h as int, w as int, ci as int, sy as int, sx as int);
                    lemma_extents(ci as int, h as int, w as int);
                    assert(ci * h + sy <= (ci * h + sy) * w) by (nonlinear_arith)
                        requires
                            0 <= ci * h + sy,
                            1 <= w,
                    ;
                }
                src[(ci * h + sy) * w + sx]
            } else {
                S::zero()
            }
        }),
    );
    assert forall|t: int, oy: int, ox: int|
        0 <= t < cin * kh * kw && 0 <= oy < oh && 0 <= ox < ow implies patch_at(
        src@,
        h as int,
        w as int,
        pad_h as int,
        pad_w as int,
        t / kw as int / kh as int,
        t / kw as int % kh as int,
        t % kw as int,
        oy,
        ox,
        #[trigger] at3(out@, oh as int, ow as int, t, oy, ox),
    ) by {
        lemma_place3(taps as int, oh as int, ow as int, t, oy, ox);
        let k = (t * oh + oy) * ow + ox;
        assert(out@[k] == at3(out@, oh as int, ow as int, t, oy, ox));
    }
    out
}

/// The steps of the product of row `co` of the weights and column `o` of the patches.
pub open spec fn product_steps<S: Scalar>(
    weights: Seq<S>,
    patch: Seq<S>,
    k: int,
    n: int,
    co: int,
    o: int,
) -> spec_fn(int, S, S) -> bool {
    |i: int, a: S, b: S|
        call_ensures(S::plus_product, (a, at(weights, k, i, co), at(patch, n, o, i)), b)
}

/// `r` is the element of the product in row `co` and column `o`, the bias included.
pub open spec fn product_at<S: Scalar>(
    weights: Seq<S>,
    patch: Seq<S>,
    bias: Option<Seq<S>>,
    k: int,
    n: int,
    co: int,
    o: int,
    r: S,
) -> bool {
    exists|start: S| #[trigger]
        product_starts(bias, co, start) && folds(
            start,
            product_steps(weights, patch, k, n, co, o),
            k as nat,
            r,
        )
}

/// `v` is what a row of the product starts from.
pub open spec fn product_starts<S: Scalar>(bias: Option<Seq<S>>, co: int, v: S) -> bool {
    match bias {
        Some(b) => v == b[co],
        None => call_ensures(S::zero, (), v),
    }
}

/// An optional bias.
pub open spec fn bias_view<S>(bias: Option<&[S]>) -> Option<Seq<S>> {
    match bias {
        Some(b) => Some(b@),
        None => None,
    }
}

fn product_value<S: Scalar>(
    k: usize,
    n: usize,
    weights: &[S],
    patch: &[S],
    bias: Option<&[S]>,
    co: usize,
    o: usize,
    Ghost(cout): Ghost<int>,
) -> (r: S)
    requires
        co < cout,
        o < n,
        weights.len() == cout * k,
        patch.len() == k * n,
        bias matches Some(b) ==> b@.len() >= cout,
    ensures
        product_at(
            weights@,
            patch@,
            bias_view(bias),
            k as int,
            n as int,
            co as int,
            o as int,
            r,
        ),
{
    let start: S = match bias {
        Some(b) => b[co],
        None => S::zero(),
    };
    let ghost step = product_steps(weights@, patch@, k as int, n as int, co as int, o as int);
    proof {
        lemma_no_steps(start, step);
    }
    let mut acc: S = start;
    let mut i: usize = 0;
    while i < k
        invariant
            co < cout,
            o < n,
            weights.len() == cout * k,
            patch.len() == k * n,
            step == product_steps(weights@, patch@, k as int, n as int, co as int, o as int),
            i <= k,
            folds(start, step, i as nat, acc),
        decreases k - i,
    {
        let ghost before = acc;
        proof {
            lemma_place(k as int, cout, i as int, co as int);
            assert(k * cout == cout * k) by (nonlinear_arith);
            lemma_place(n as int, k as int, o as int, i as int);
            assert(n * k == k * n) by (nonlinear_arith);
        }
        acc = acc.plus_product(weights[co * k + i], patch[i * n + o]);
        proof {
            assert(step(i as int, before, acc));
            lemma_step(start, step, i as nat, before, acc);
        }
        i += 1;
    }
    assert(product_starts(bias_view(bias), co as int, start));
    acc
}

/// The product of the row-major `[cout][k]` weights and the row-major `[k][n]` patches,
/// with a bias for every row.
pub fn gemm_nt_cpu<S: Scalar>(
    cout: usize,
    k: usize,
    n: usize,
    weights: &[S],
    patch: &[S],
    bias: Option<&[S]>,
    out: &mut [S],
)
    requires
        weights.len() == cout * k,
        patch.len() == k * n,
        bias matches Some(b) ==> b@.len() >= cout,
        old(out).len() == cout * n,
    ensures
        final(out)@.len() == cout * n,
        forall|co: int, o: int|
            0 <= co < cout && 0 <= o < n ==> product_at(
                weights@,
                patch@,
                bias_view(bias),
                k as int,
                n as int,
                co,
                o,
                #[trigger] at(final(out)@, n as int, o, co),
            ),
{
    let total: usize = out.len();
    let data: Vec<S> = par_map(
        total,
        (|i: usize| -> (r: S)
            requires
                i < total,
                total == cout * n,
                weights.len() == cout * k,
                patch.len() == k * n,
                bias matches Some(b) ==> b@.len() >= cout,
            ensures
                product_at(
                    weights@,
                    patch@,
                    bias_view(bias),
                    k as int,
                    n as int,
                    i as int / n as int,
                    i as int % n as int,
                    r,
                ),
        {
            proof {
                assert(n == 0 ==> cout * n == 0) by (nonlinear_arith);
                assert(cout * n == n * cout) by (nonlinear_arith);
                lemma_place_of(n as int, cout as int, i as int);
            }
            product_value(k, n, weights, patch, bias, i / n, i % n, Ghost(cout as int))
        }),
    );
    fill(out, &data);
    assert(out@ =~= data@);
    assert forall|co: int, o: int| 0 <= co < cout && 0 <= o < n implies product_at(
        weights@,
        patch@,
        bias_view(bias),
        k as int,
        n as int,
        co,
        o,
        #[trigger] at(out@, n as int, o, co),
    ) by {
        lemma_place(n as int, cout as int, o, co);
        assert(n * cout == cout * n) by (nonlinear_arith);
        lemma_position(n as int, o, co);
        let i = co * n + o;
        assert(out@[i] == at(out@, n as int, o, co));
    }
}

/// The sizes of a transposed convolution.
#[derive(Debug, Clone, Copy)]
pub struct Spread {
    pub cin: usize,
    pub h: usize,
    pub w: usize,
    pub cout: usize,
    pub kh: usize,
    pub kw: usize,
    pub stride: usize,
    pub pad: usize,
    pub oh: usize,
    pub ow: usize,
}

/// The kernel line with which input line `i` reaches output line `o`, if it does.
pub open spec fn hit(o: int, i: int, stride: int, pad: int, k: int) -> Option<int> {
    let q = o + pad - i * stride;
    if 0 <= q < k {
        Some(q)
    } else {
        None
    }
}

impl Spread {
    /// One weight of `[cin][cout][kh][kw]`.
    pub open spec fn weight<S>(self, weights: Seq<S>, ci: int, co: int, ky: int, kx: int) -> S {
        weights[((ci * self.cout + co) * self.kh + ky) * self.kw + kx]
    }

    /// The sample and the weight with which an input pixel contributes to an output
    /// pixel, if it does.
    pub open spec fn part<S>(
        self,
        weights: Seq<S>,
        v: S,
        ci: int,
        co: int,
        iy: int,
        ix: int,
        oy: int,
        ox: int,
    ) -> Option<(S, S)> {
        match (
            hit(oy, iy, self.stride as int, self.pad as int, self.kh as int),
            hit(ox, ix, self.stride as int, self.pad as int, self.kw as int),
        ) {
            (Some(ky), Some(kx)) => Some((v, self.weight(weights, ci, co, ky, kx))),
            _ => None,
        }
    }

    /// The steps in which the pixels of an input channel contribute to an output pixel.
    pub open spec fn pixel_steps<S: Scalar>(
        self,
        input: Seq<S>,
        weights: Seq<S>,
        ci: int,
        co: int,
        oy: int,
        ox: int,
    ) -> spec_fn(int, S, S) -> bool {
        |t: int, a: S, b: S|
            contributed(
                self.part(
                    weights,
                    at3(input, self.h as int, self.w as int, ci, t / self.w as int, t % self.w as int),
                    ci,
                    co,
                    t / self.w as int,
                    t % self.w as int,
                    oy,
                    ox,
                ),
                a,
                b,
            )
    }

    /// `r` is what an input channel contributes to an output pixel.
    pub open spec fn channel_at<S: Scalar>(
        self,
        input: Seq<S>,
        weights: Seq<S>,
        ci: int,
        co: int,
        oy: int,
        ox: int,
        r: S,
    ) -> bool {
        exists|z: S| #[trigger]
            call_ensures(S::zero, (), z) && folds(
                z,
                self.pixel_steps(input, weights, ci, co, oy, ox),
                (self.h * self.w) as nat,
                r,
            )
    }

    /// `b` is `a` with the contribution of an input channel.
    pub open spec fn channel_added<S: Scalar>(
        self,
        input: Seq<S>,
        weights: Seq<S>,
        ci: int,
        co: int,
        oy: int,
        ox: int,
        a: S,
        b: S,
    ) -> bool {
        exists|l: S| #[trigger]
            self.channel_at(input, weights, ci, co, oy, ox, l) && call_ensures(S::plus, (a, l), b)
    }

    /// The steps in which the input channels contribute to an output pixel.
    pub open spec fn channel_steps<S: Scalar>(
        self,
        input: Seq<S>,
        weights: Seq<S>,
        co: int,
        oy: int,
        ox: int,
    ) -> spec_fn(int, S, S) -> bool {
        |ci: int, a: S, b: S| self.channel_added(input, weights, ci, co, oy, ox, a, b)
    }

    /// `r` is the sum of what all input channels contribute to an output pixel.
    pub open spec fn sum_at<S: Scalar>(
        self,
        input: Seq<S>,
        weights: Seq<S>,
        n: int,
        co: int,
        oy: int,
        ox: int,
        r: S,
    ) -> bool {
        exists|z: S| #[trigger]
            call_ensures(S::zero, (), z) && folds(
                z,
                self.channel_steps(input, weights, co, oy, ox),
                n as nat,
                r,
            )
    }

    /// `r` is the output value at a position, the bias included.
    pub open spec fn transposed_at<S: Scalar>(
        self,
        input: Seq<S>,
        weights: Seq<S>,
        bias: Option<Seq<S>>,
        co: int,
        oy: int,
        ox: int,
        r: S,
    ) -> bool {
        exists|s: S| #[trigger]
            self.sum_at(input, weights, self.cin as int, co, oy, ox, s) && match bias {
                Some(b) => call_ensures(S::plus, (s, b[co]), r),
                None => r == s,
            }
    }

    /// The buffers have the sizes that the extents promise, and positions can be computed.
    pub open spec fn fits(self, input: int, weights: int) -> bool {
        &&& input == self.cin * self.h * self.w
        &&& weights == self.cin * self.cout * self.kh * self.kw
        &&& self.cout * self.oh * self.ow <= usize::MAX
        &&& self.h * self.stride + self.kh <= usize::MAX
        &&& self.w * self.stride + self.kw <= usize::MAX
    }
}

/// Whether the taps before `(ky, kx)` have reached an output pixel.
spec fn reached(g: Spread, iy: int, ix: int, y: int, x: int, ky: int, kx: int) -> bool {
    match (
        hit(y, iy, g.stride as int, g.pad as int, g.kh as int),
        hit(x, ix, g.stride as int, g.pad as int, g.kw as int),
    ) {
        (Some(q), Some(r)) => q < ky || q == ky && r < kx,
        _ => false,
    }
}

/// An output pixel while the taps of one input pixel are being scattered.
spec fn scattered<S: Scalar>(
    g: Spread,
    weights: Seq<S>,
    v: S,
    ci: int,
    co: int,
    iy: int,
    ix: int,
    y: int,
    x: int,
    ky: int,
    kx: int,
    a: S,
    b: S,
) -> bool {
    if reached(g, iy, ix, y, x, ky, kx) {
        g.part(weights, v, ci, co, iy, ix, y, x) matches Some((u, k)) && call_ensures(
            S::plus_product,
            (a, u, k),
            b,
        )
    } else {
        b == a
    }
}

/// Scatter one input pixel over the output plane of one channel.
fn scatter<S: Scalar>(
    g: &Spread,
    weights: &[S],
    v: S,
    ci: usize,
    co: usize,
    iy: usize,
    ix: usize,
    dst: &mut Vec<S>,
)
    requires
        weights.len() == g.cin * g.cout * g.kh * g.kw,
        g.h * g.stride + g.kh <= usize::MAX,
        g.w * g.stride + g.kw <= usize::MAX,
        ci < g.cin,
        co < g.cout,
        iy < g.h,
        ix < g.w,
        old(dst).len() == g.oh * g.ow,
    ensures
        final(dst).len() == g.oh * g.ow,
        forall|y: int, x: int|
            0 <= y < g.oh && 0 <= x < g.ow ==> scattered(
                *g,
                weights@,
                v,
                ci as int,
                co as int,
                iy as int,
                ix as int,
                y,
                x,
                g.kh as int,
                0,
                at(old(dst)@, g.ow as int, x, y),
                #[trigger] at(final(dst)@, g.ow as int, x, y),
            ),
{
    let ghost before = dst@;
    proof {
        assert(iy * g.stride <= g.h * g.stride) by (nonlinear_arith)
            requires
                iy <= g.h,
                0 <= g.stride,
        ;
        assert(ix * g.stride <= g.w * g.stride) by (nonlinear_arith)
            requires
                ix <= g.w,
                0 <= g.stride,
        ;
    }
    let mut ky: usize = 0;
    while ky < g.kh
        invariant
            weights.len() == g.cin * g.cout * g.kh * g.kw,
            iy * g.stride + g.kh <= usize::MAX,
            ix * g.stride + g.kw <= usize::MAX,
            ci < g.cin,
            co < g.cout,
            before.len() == g.oh * g.ow,
            dst.len() == g.oh * g.ow,
            ky <= g.kh,
            forall|y: int, x: int|
                0 <= y < g.oh && 0 <= x < g.ow ==> scattered(
                    *g,
                    weights@,
                    v,
                    ci as int,
                    co as int,
                    iy as int,
                    ix as int,
                    y,
                    x,
                    ky as int,
                    0,
                    at(before, g.ow as int, x, y),
                    #[trigger] at(dst@, g.ow as int, x, y),
                ),
        decreases g.kh - ky,
    {
        let oy: usize = iy * g.stride + ky;
        let mut kx: usize = 0;
        while kx < g.kw
            invariant
                weights.len() == g.cin * g.cout * g.kh * g.kw,
                ix * g.stride + g.kw <= usize::MAX,
                oy == iy * g.stride + ky,
                ci < g.cin,
                co < g.cout,
                before.len() == g.oh * g.ow,
                dst.len() == g.oh * g.ow,
                ky < g.kh,
                kx <= g.kw,
                forall|y: int, x: int|
                    0 <= y < g.oh && 0 <= x < g.ow ==> scattered(
                        *g,
                        weights@,
                        v,
                        ci as int,
                        co as int,
                        iy as int,
                        ix as int,
                        y,
                        x,
                        ky as int,
                        kx as int,
                        at(before, g.ow as int, x, y),
                        #[trigger] at(dst@, g.ow as int, x, y),
                    ),
            decreases g.kw - kx,
        {
            let ox: usize = ix * g.stride + kx;
            let ghost now = dst@;
            if oy >= g.pad && oy - g.pad < g.oh && ox >= g.pad && ox - g.pad < g.ow {
                let ty: usize = oy - g.pad;
                let tx: usize = ox - g.pad;
                proof {
                    lemma_place(g.ow as int, g.oh as int, tx as int, ty as int);
                    assert(g.ow * g.oh == g.oh * g.ow) by (nonlinear_arith);
                    lemma_spread_weight(*g, ci as int, co as int, ky as int, kx as int);
                }
                let k: S = weights[((ci * g.cout + co) * g.kh + ky) * g.kw + kx];
                let i: usize = ty * g.ow + tx;
                let sum: S = dst[i].plus_product(v, k);
                dst.set(i, sum);
                proof {
                    assert(scattered(
                        *g,
                        weights@,
                        v,
                        ci as int,
                        co as int,
                        iy as int,
                        ix as int,
                        ty as int,
                        tx as int,
                        ky as int,
                        kx as int,
                        at(before, g.ow as int, tx as int, ty as int),
                        at(now, g.ow as int, tx as int, ty as int),
                    ));
                }
            }
            proof {
                assert forall|y: int, x: int| 0 <= y < g.oh && 0 <= x < g.ow implies scattered(
                    *g,
                    weights@,
                    v,
                    ci as int,
                    co as int,
                    iy as int,
                    ix as int,
                    y,
                    x,
                    ky as int,
                    kx + 1,
                    at(before, g.ow as int, x, y),
                    #[trigger] at(dst@, g.ow as int, x, y),
                ) by {
                    assert(scattered(
                        *g,
                        weights@,
                        v,
                        ci as int,
                        co as int,
                        iy as int,
                        ix as int,
                        y,
                        x,
                        ky as int,
                        kx as int,
                        at(before, g.ow as int, x, y),
                        at(now, g.ow as int, x, y),
                    ));
                    lemma_place(g.ow as int, g.oh as int, x, y);
                    assert(g.ow * g.oh == g.oh * g.ow) by (nonlinear_arith);
                    lemma_position(g.ow as int, x, y);
                    if oy >= g.pad && oy - g.pad < g.oh && ox >= g.pad && ox - g.pad < g.ow {
                        lemma_position(g.ow as int, ox - g.pad, oy - g.pad);
                    }
                }
            }
            kx += 1;
        }
        ky += 1;
    }
}

/// The place of a weight of a transposed convolution.
proof fn lemma_spread_weight(g: Spread, ci: int, co: int, ky: int, kx: int)
    requires
        g.cin * g.cout * g.kh * g.kw <= usize::MAX,
        0 <= ci < g.cin,
        0 <= co < g.cout,
        0 <= ky < g.kh,
        0 <= kx < g.kw,
    ensures
        0 <= ci * g.cout <= ci * g.cout + co <= (ci * g.cout + co) * g.kh,
        0 <= (ci * g.cout + co) * g.kh + ky <= ((ci * g.cout + co) * g.kh + ky) * g.kw,
        ((ci * g.cout + co) * g.kh + ky) * g.kw + kx < g.cin * g.cout * g.kh * g.kw,
{
    let n = g.cin * g.cout;
    let i = ci * g.cout + co;
    lemma_place(g.cout as int, g.cin as int, co, ci);
    assert(g.cout * g.cin == n) by (nonlinear_arith)
        requires
            n == g.cin * g.cout,
    ;
    lemma_place3(n, g.kh as int, g.kw as int, i, ky, kx);
    assert(i <= i * g.kh) by (nonlinear_arith)
        requires
            0 <= i,
            1 <= g.kh,
    ;
    assert(i * g.kh + ky <= (i * g.kh + ky) * g.kw) by (nonlinear_arith)
        requires
            0 <= i * g.kh + ky,
            1 <= g.kw,
    ;
}

/// What one input channel contributes to one output channel.
fn channel_plane<S: Scalar>(g: &Spread, input: &[S], weights: &[S], ci: usize, co: usize) -> (dst: Vec<S>)
    requires
        g.fits(input.len() as int, weights.len() as int),
        ci < g.cin,
        co < g.cout,
        g.oh * g.ow <= usize::MAX,
    ensures
        dst.len() == g.oh * g.ow,
        forall|y: int, x: int|
            0 <= y < g.oh && 0 <= x < g.ow ==> g.channel_at(
                input@,
                weights@,
                ci as int,
                co as int,
                y,
                x,
                #[trigger] at(dst@, g.ow as int, x, y),
            ),
{
    let plane: usize = g.oh * g.ow;
    let mut dst: Vec<S> = Vec::new();
    let mut i: usize = 0;
    while i < plane
        invariant
            i <= plane,
            dst@.len() == i,
            forall|k: int| 0 <= k < i ==> call_ensures(S::zero, (), #[trigger] dst@[k]),
        decreases plane - i,
    {
        dst.push(S::zero());
        i += 1;
    }
    let ghost zeros = dst@;
    proof {
        assert forall|y: int, x: int| 0 <= y < g.oh && 0 <= x < g.ow implies folds(
            at(zeros, g.ow as int, x, y),
            g.pixel_steps(input@, weights@, ci as int, co as int, y, x),
            0,
            #[trigger] at(dst@, g.ow as int, x, y),
        ) by {
            lemma_no_steps(
                at(zeros, g.ow as int, x, y),
                g.pixel_steps(input@, weights@, ci as int, co as int, y, x),
            );
        }
        lemma_one_channel(g.cin as int, g.h as int, g.w as int, ci as int);
        lemma_extents(g.cin as int, g.h as int, g.w as int);
    }
    let pixels: usize = g.h * g.w;
    let mut t: usize = 0;
    while t < pixels
        invariant
            g.fits(input.len() as int, weights.len() as int),
            ci < g.cin,
            co < g.cout,
            pixels == g.h * g.w,
            plane == g.oh * g.ow,
            zeros.len() == plane,
            dst.len() == plane,
            t <= pixels,
            forall|y: int, x: int|
                0 <= y < g.oh && 0 <= x < g.ow ==> folds(
                    at(zeros, g.ow as int, x, y),
                    g.pixel_steps(input@, weights@, ci as int, co as int, y, x),
                    t as nat,
                    #[trigger] at(dst@, g.ow as int, x, y),
                ),
        decreases pixels - t,
    {
        let ghost before = dst@;
        proof {
            assert(g.w == 0 ==> g.h * g.w == 0) by (nonlinear_arith);
            assert(g.h * g.w == g.w * g.h) by (nonlinear_arith);
            lemma_place_of(g.w as int, g.h as int, t as int);
        }
        let iy: usize = t / g.w;
        let ix: usize = t % g.w;
        proof {
            lemma_place3(g.cin as int, g.h as int, g.w as int, ci as int, iy as int, ix as int);
            lemma_extents(ci as int, g.h as int, g.w as int);
            assert(ci * g.h + iy <= (ci * g.h + iy) * g.w) by (nonlinear_arith)
                requires
                    0 <= ci * g.h + iy,
                    1 <= g.w,
            ;
        }
        let v: S = input[(ci * g.h + iy) * g.w + ix];
        let skip: bool = v.is_zero();
        if !skip {
            scatter(g, weights, v, ci, co, iy, ix, &mut dst);
        }
        proof {
            assert forall|y: int, x: int| 0 <= y < g.oh && 0 <= x < g.ow implies folds(
                at(zeros, g.ow as int, x, y),
                g.pixel_steps(input@, weights@, ci as int, co as int, y, x),
                (t + 1) as nat,
                #[trigger] at(dst@, g.ow as int, x, y),
            ) by {
                let step = g.pixel_steps(input@, weights@, ci as int, co as int, y, x);
                let a = at(before, g.ow as int, x, y);
                let b = at(dst@, g.ow as int, x, y);
                assert(folds(at(zeros, g.ow as int, x, y), step, t as nat, a));
                if !skip {
                    assert(scattered(
                        *g,
                        weights@,
                        v,
                        ci as int,
                        co as int,
                        iy as int,
                        ix as int,
                        y,
                        x,
                        g.kh as int,
                        0,
                        a,
                        b,
                    ));
                }
                assert(step(t as int, a, b));
                lemma_step(at(zeros, g.ow as int, x, y), step, t as nat, a, b);
            }
        }
        t += 1;
    }
    assert forall|y: int, x: int| 0 <= y < g.oh && 0 <= x < g.ow implies g.channel_at(
        input@,
        weights@,
        ci as int,
        co as int,
        y,
        x,
        #[trigger] at(dst@, g.ow as int, x, y),
    ) by {
        lemma_place(g.ow as int, g.oh as int, x, y);
        assert(g.ow * g.oh == g.oh * g.ow) by (nonlinear_arith);
        let z = at(zeros, g.ow as int, x, y);
        assert(call_ensures(S::zero, (), z));
    }
    dst
}

/// The pixels of one channel are among those of all.
proof fn lemma_one_channel(cin: int, h: int, w: int, ci: int)
    requires
        0 <= ci < cin,
        0 <= h,
        0 <= w,
        cin * h * w <= usize::MAX,
    ensures
        h * w <= usize::MAX,
{
    lemma_extents(cin, h, w);
}

/// The number of samples in a plane.
fn plane_of(h: usize, w: usize) -> (n: usize)
    requires
        h * w <= usize::MAX,
    ensures
        n == h * w,
{
    h * w
}

/// Add `cout` planes to the first ones of `out`.
fn add_in_place<S: Scalar>(out: &mut Vec<S>, local: &Vec<S>, cout: usize, plane: usize)
    requires
        cout * plane <= old(out).len(),
        cout * plane <= local.len(),
    ensures
        final(out).len() == old(out).len(),
        forall|k: int|
            0 <= k < cout * plane ==> call_ensures(
                S::plus,
                (old(out)@[k], local@[k]),
                #[trigger] final(out)@[k],
            ),
        forall|k: int| cout * plane <= k < old(out)@.len() ==> #[trigger] final(out)@[k] == old(out)@[k],
{
    let ghost before = out@;
    let n: usize = cout * plane;
    let mut i: usize = 0;
    while i < n
        invariant
            n <= out.len(),
            n <= local.len(),
            out@.len() == before.len(),
            i <= n,
            forall|k: int|
                0 <= k < i ==> call_ensures(
                    S::plus,
                    (before[k], local@[k]),
                    #[trigger] out@[k],
                ),
            forall|k: int| i <= k < before.len() ==> #[trigger] out@[k] == before[k],
        decreases n - i,
    {
        let v: S = out[i].plus(local[i]);
        out.set(i, v);
        i += 1;
    }
}

/// Transposed convolution (learned upsample): for each input pixel scatter its
/// contribution into the output.  `weights` are `[cin][cout][kh][kw]`; the result is
/// `[cout][oh][ow]`, where an extent of `n` leads to
/// `(n - 1) * stride - 2 * pad + k + output_padding`.
pub fn conv_transpose2d_cpu<S: Scalar>(
    input: &[S],
    cin: usize,
    h: usize,
    w: usize,
    weights: &[S],
    cout: usize,
    kh: usize,
    kw: usize,
    stride: usize,
    pad: usize,
    output_padding: usize,
    bias: Option<&[S]>,
    out: &mut [S],
)
    requires
        1 <= h,
        1 <= w,
        (h - 1) * stride >= 2 * pad,
        (w - 1) * stride >= 2 * pad,
        (h - 1) * stride - 2 * pad + kh + output_padding <= usize::MAX,
        (w - 1) * stride - 2 * pad + kw + output_padding <= usize::MAX,
        h * stride + kh <= usize::MAX,
        w * stride + kw <= usize::MAX,
        input.len() == cin * h * w,
        weights.len() == cin * cout * kh * kw,
        bias matches Some(b) ==> b@.len() >= cout,
        ((h - 1) * stride - 2 * pad + kh + output_padding) * ((w - 1) * stride - 2 * pad + kw
            + output_padding) <= usize::MAX,
        cout * ((h - 1) * stride - 2 * pad + kh + output_padding) * ((w - 1) * stride - 2 * pad + kw
            + output_padding) <= usize::MAX,
        old(out)@.len() == cout * ((h - 1) * stride - 2 * pad + kh + output_padding) * ((w - 1)
            * stride - 2 * pad + kw + output_padding),
    ensures
        ({
            let oh = (h - 1) * stride - 2 * pad + kh + output_padding;
            let ow = (w - 1) * stride - 2 * pad + kw + output_padding;
            let g = Spread {
                cin,
                h,
                w,
                cout,
                kh,
                kw,
                stride,
                pad,
                oh: oh as usize,
                ow: ow as usize,
            };
            &&& final(out)@.len() == cout * oh * ow
            &&& forall|co: int, oy: int, ox: int|
                0 <= co < cout && 0 <= oy < oh && 0 <= ox < ow ==> g.transposed_at(
                    input@,
                    weights@,
                    bias_view(bias),
                    co,
                    oy,
                    ox,
                    #[trigger] at3(final(out)@, oh, ow, co, oy, ox),
                )
        }),
{
    let data: Vec<S> = transposed_planes(
        input,
        cin,
        h,
        w,
        weights,
        cout,
        kh,
        kw,
        stride,
        pad,
        output_padding,
        bias,
    );
    fill(out, &data);
    assert(out@ =~= data@);
}

/// The planes of a transposed convolution.
fn transposed_planes<S: Scalar>(
    input: &[S],
    cin: usize,
    h: usize,
    w: usize,
    weights: &[S],
    cout: usize,
    kh: usize,
    kw: usize,
    stride: usize,
    pad: usize,
    output_padding: usize,
    bias: Option<&[S]>,
) -> (out: Vec<S>)
    requires
        1 <= h,
        1 <= w,
        (h - 1) * stride >= 2 * pad,
        (w - 1) * stride >= 2 * pad,
        (h - 1) * stride - 2 * pad + kh + output_padding <= usize::MAX,
        (w - 1) * stride - 2 * pad + kw + output_padding <= usize::MAX,
        h * stride + kh <= usize::MAX,
        w * stride + kw <= usize::MAX,
        input.len() == cin * h * w,
        weights.len() == cin * cout * kh * kw,
        bias matches Some(b) ==> b@.len() >= cout,
        ((h - 1) * stride - 2 * pad + kh + output_padding) * ((w - 1) * stride - 2 * pad + kw
            + output_padding) <= usize::MAX,
        cout * ((h - 1) * stride - 2 * pad + kh + output_padding) * ((w - 1) * stride - 2 * pad + kw
            + output_padding) <= usize::MAX,
    ensures
        ({
            let oh = (h - 1) * stride - 2 * pad + kh + output_padding;
            let ow = (w - 1) * stride - 2 * pad + kw + output_padding;
            let g = Spread {
                cin,
                h,
                w,
                cout,
                kh,
                kw,
                stride,
                pad,
                oh: oh as usize,
                ow: ow as usize,
            };
            &&& out@.len() == cout * oh * ow
            &&& forall|co: int, oy: int, ox: int|
                0 <= co < cout && 0 <= oy < oh && 0 <= ox < ow ==> g.transposed_at(
                    input@,
                    weights@,
                    bias_view(bias),
                    co,
                    oy,
                    ox,
                    #[trigger] at3(out@, oh, ow, co, oy, ox),
                )
        }),
{
    proof {
        assert((h - 1) * stride <= h * stride) by (nonlinear_arith)
            requires
                0 <= stride,
        ;
        assert((w - 1) * stride <= w * stride) by (nonlinear_arith)
            requires
                0 <= stride,
        ;
        assert(2 * pad <= usize::MAX);
    }
    let oh: usize = (h - 1) * stride - 2 * pad + kh + output_padding;
    let ow: usize = (w - 1) * stride - 2 * pad + kw + output_padding;
    let g = Spread { cin, h, w, cout, kh, kw, stride, pad, oh, ow };
    let plane: usize = plane_of(oh, ow);
    proof {
        lemma_extents(cout as int, oh as int, ow as int);
    }
    let total: usize = cout * plane;
    let mut out: Vec<S> = Vec::new();
    let mut i: usize = 0;
    while i < total
        invariant
            i <= total,
            out@.len() == i,
            forall|k: int| 0 <= k < i ==> call_ensures(S::zero, (), #[trigger] out@[k]),
        decreases total - i,
    {
        out.push(S::zero());
        i += 1;
    }
    let ghost zeros = out@;
    proof {
        assert forall|co: int, oy: int, ox: int|
            0 <= co < cout && 0 <= oy < oh && 0 <= ox < ow implies folds(
            at3(zeros, oh as int, ow as int, co, oy, ox),
            g.channel_steps(input@, weights@, co, oy, ox),
            0,
            #[trigger] at3(out@, oh as int, ow as int, co, oy, ox),
        ) by {
            lemma_no_steps(
                at3(zeros, oh as int, ow as int, co, oy, ox),
                g.channel_steps(input@, weights@, co, oy, ox),
            );
        }
    }
    let mut ci: usize = 0;
    while ci < cin
        invariant
            g.fits(input.len() as int, weights.len() as int),
            g == (Spread { cin, h, w, cout, kh, kw, stride, pad, oh, ow }),
            plane == oh * ow,
            total == cout * plane,
            total == cout * oh * ow,
            zeros.len() == total,
            out.len() == total,
            ci <= cin,
            forall|co: int, oy: int, ox: int|
                0 <= co < cout && 0 <= oy < oh && 0 <= ox < ow ==> folds(
                    at3(zeros, oh as int, ow as int, co, oy, ox),
                    g.channel_steps(input@, weights@, co, oy, ox),
                    ci as nat,
                    #[trigger] at3(out@, oh as int, ow as int, co, oy, ox),
                ),
        decreases cin - ci,
    {
        let parts: Vec<Vec<S>> = par_map(
            cout,
            (|co: usize| -> (r: Vec<S>)
                requires
                    co < cout,
                    ci < g.cin,
                    g.cout == cout,
                    g.fits(input.len() as int, weights.len() as int),
                    g.oh * g.ow <= usize::MAX,
                ensures
                    r.len() == g.oh * g.ow,
                    forall|y: int, x: int|
                        0 <= y < g.oh && 0 <= x < g.ow ==> g.channel_at(
                            input@,
                            weights@,
                            ci as int,
                            co as int,
                            y,
                            x,
                            #[trigger] at(r@, g.ow as int, x, y),
                        ),
            {
                channel_plane(&g, input, weights, ci, co)
            }),
        );
        let local: Vec<S> = flattened(&parts, plane);
        let ghost before = out@;
        add_in_place(&mut out, &local, cout, plane);
        proof {
            assert forall|co: int, oy: int, ox: int|
                0 <= co < cout && 0 <= oy < oh && 0 <= ox < ow implies folds(
                at3(zeros, oh as int, ow as int, co, oy, ox),
                g.channel_steps(input@, weights@, co, oy, ox),
                (ci + 1) as nat,
                #[trigger] at3(out@, oh as int, ow as int, co, oy, ox),
            ) by {
                lemma_place3(cout as int, oh as int, ow as int, co, oy, ox);
                let k = (co * oh + oy) * ow + ox;
                let p = oy * ow + ox;
                assert(chunk(local@, plane as int, co) == parts@[co]@);
                assert((co + 1) * plane == co * plane + plane) by (nonlinear_arith);
                assert((co + 1) * plane <= cout * plane) by (nonlinear_arith)
                    requires
                        co + 1 <= cout,
                        0 <= plane,
                ;
                assert(0 <= co * plane) by (nonlinear_arith)
                    requires
                        0 <= co,
                        0 <= plane,
                ;
                assert(chunk(local@, plane as int, co)[p] == local@[co * plane + p]);
                let l = local@[k];
                assert(l == at(parts@[co]@, ow as int, ox, oy));
                assert(g.channel_at(input@, weights@, ci as int, co, oy, ox, l));
                let a = at3(before, oh as int, ow as int, co, oy, ox);
                let b = at3(out@, oh as int, ow as int, co, oy, ox);
                assert(call_ensures(S::plus, (before[k], local@[k]), out@[k]));
                let step = g.channel_steps(input@, weights@, co, oy, ox);
                assert(step(ci as int, a, b));
                lemma_step(at3(zeros, oh as int, ow as int, co, oy, ox), step, ci as nat, a, b);
            }
        }
        ci += 1;
    }
    let ghost sums = out@;
    proof {
        assert forall|co: int, oy: int, ox: int|
            0 <= co < cout && 0 <= oy < oh && 0 <= ox < ow implies g.sum_at(
            input@,
            weights@,
            cin as int,
            co,
            oy,
            ox,
            #[trigger] at3(sums, oh as int, ow as int, co, oy, ox),
        ) by {
            lemma_place3(cout as int, oh as int, ow as int, co, oy, ox);
            let z = at3(zeros, oh as int, ow as int, co, oy, ox);
            assert(call_ensures(S::zero, (), z));
        }
    }
    match bias {
        Some(b) => {
            let mut i: usize = 0;
            while i < total
                invariant
                    plane == oh * ow,
                    total == cout * plane,
                    b@.len() >= cout,
                    sums.len() == total,
                    out.len() == total,
                    i <= total,
                    forall|k: int|
                        0 <= k < i ==> call_ensures(
                            S::plus,
                            (sums[k], b@[k / plane as int]),
                            #[trigger] out@[k],
                        ),
                    forall|k: int| i <= k < total ==> #[trigger] out@[k] == sums[k],
                decreases total - i,
            {
                proof {
                    assert(plane == 0 ==> cout * plane == 0) by (nonlinear_arith);
                    assert(plane * cout == cout * plane) by (nonlinear_arith);
                    lemma_place_of(plane as int, cout as int, i as int);
                }
                let v: S = out[i].plus(b[i / plane]);
                out.set(i, v);
                i += 1;
            }
        },
        None => {},
    }
    proof {
        assert forall|co: int, oy: int, ox: int|
            0 <= co < cout && 0 <= oy < oh && 0 <= ox < ow implies g.transposed_at(
            input@,
            weights@,
            bias_view(bias),
            co,
            oy,
            ox,
            #[trigger] at3(out@, oh as int, ow as int, co, oy, ox),
        ) by {
            lemma_place3(cout as int, oh as int, ow as int, co, oy, ox);
            let k = (co * oh + oy) * ow + ox;
            let p = oy * ow + ox;
            assert(k == co * plane + p);
            lemma_position(plane as int, p, co);
            let s = at3(sums, oh as int, ow as int, co, oy, ox);
            assert(g.sum_at(input@, weights@, cin as int, co, oy, ox, s));
            assert(out@[k] == at3(out@, oh as int, ow as int, co, oy, ox));
        }
    }
    out
}

} // verus!
