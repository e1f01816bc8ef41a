//! The learned upsampling by two: a transposed convolution with a 3x3 kernel, stride 2,
//! padding 1 and output padding 1.

use vstd::prelude::*;

use crate::acts::{lemma_index, lemma_some_place, Acts, Planes};
use crate::fold::{folds, lemma_no_steps, lemma_step};
use crate::grid::{lemma_place, lemma_place3, lemma_place3_of};
use crate::needs::{decoded, first_unmet, joined, lemma_needs_in_turn, lemma_one_need, values, Need};
use crate::par::par_map;
use crate::scalar::Scalar;
use crate::weights::WeightStore;

verus! {

/// Transposed convolution `[cin][h][w] -> [cout][2h][2w]`.
pub struct ConvT<S> {
    /// `[cin][cout][3][3]`
    pub w: Vec<S>,
    pub bias: Vec<S>,
    pub cin: usize,
    pub cout: usize,
}

/// The input line and the kernel line of the contribution `j` to output line `o`, in the
/// order of the input lines.  Input line `i` reaches the output lines `2 * i - 1`,
/// `2 * i` and `2 * i + 1` with the kernel lines 0, 1 and 2.
pub open spec fn source_line(o: int, n: int, j: int) -> Option<(int, int)> {
    if o % 2 == 0 {
        if j == 0 {
            Some((o / 2, 1))
        } else {
            None
        }
    } else if j == 0 {
        Some((o / 2, 2))
    } else if o / 2 + 1 < n {
        Some((o / 2 + 1, 0))
    } else {
        None
    }
}

/// The sample and the weight of contribution `t` to an output value: they go over the
/// input channels, then the input lines, then the input columns.
pub open spec fn contribution<S: Scalar>(
    ct: ConvT<S>,
    src: Planes<S>,
    co: int,
    oy: int,
    ox: int,
    t: int,
) -> Option<(S, S)> {
    let ci = t / 2 / 2;
    match (source_line(oy, src.h, t / 2 % 2), source_line(ox, src.w, t % 2)) {
        (Some((iy, ky)), Some((ix, kx))) => Some(
            (src.value(ci, iy, ix), ct.weight(ci, co, ky, kx)),
        ),
        _ => None,
    }
}

/// One contribution added to a sum; a sample of zero contributes nothing.
pub open spec fn contributed<S: Scalar>(part: Option<(S, S)>, a: S, b: S) -> bool {
    match part {
        Some((x, k)) => (call_ensures(S::is_zero, (x,), true) && b == a) || (call_ensures(
            S::is_zero,
            (x,),
            false,
        ) && call_ensures(S::plus_product, (a, x, k), b)),
        None => b == a,
    }
}

/// The steps of the sum over the contributions to an output value.
pub open spec fn contribution_steps<S: Scalar>(
    ct: ConvT<S>,
    src: Planes<S>,
    co: int,
    oy: int,
    ox: int,
) -> spec_fn(int, S, S) -> bool {
    |t: int, a: S, b: S| contributed(contribution(ct, src, co, oy, ox, t), a, b)
}

/// `r` is the output value at a position: the bias plus every contribution, in order.
pub open spec fn upsampled_at<S: Scalar>(
    ct: ConvT<S>,
    src: Planes<S>,
    co: int,
    oy: int,
    ox: int,
    r: S,
) -> bool {
    folds(
        ct.bias@[co],
        contribution_steps(ct, src, co, oy, ox),
        (src.c * 2 * 2) as nat,
        r,
    )
}

/// `out` is the upsampling of `src`.
pub open spec fn upsampled<S: Scalar>(ct: ConvT<S>, src: Planes<S>, out: Planes<S>) -> bool {
    &&& out.shaped(ct.cout as int, 2 * src.h, 2 * src.w)
    &&& forall|co: int, oy: int, ox: int|
        out.inside(co, oy, ox) ==> upsampled_at(
            ct,
            src,
            co,
            oy,
            ox,
            #[trigger] out.value(co, oy, ox),
        )
}

/// What an upsampling needs of the checkpoint.
pub open spec fn convt_needs(prefix: Seq<char>) -> Seq<Need> {
    seq![Need::Tensor(prefix + ".weight"@), Need::Tensor(prefix + ".bias"@)]
}

/// The weight of this name, if there is one, has at least two extents.
pub open spec fn convt_shaped(store: WeightStore, prefix: Seq<char>) -> bool {
    store.has(prefix + ".weight"@) ==> store.tensor(prefix + ".weight"@).shape@.len() >= 2
}

/// `ct` is the upsampling of this name.
pub open spec fn convt_of<S: Scalar>(store: WeightStore, prefix: Seq<char>, ct: ConvT<S>) -> bool {
    let shape = store.tensor(prefix + ".weight"@).shape@;
    &&& ct.cin == shape[0]
    &&& ct.cout == shape[1]
    &&& decoded(store.words(prefix + ".weight"@), ct.w@)
    &&& decoded(store.words(prefix + ".bias"@), ct.bias@)
}

/// Whether planes of this shape can be upsampled: there is a weight for each of them, and
/// the result can be held.
pub open spec fn can_upsample<S: Scalar>(ct: ConvT<S>, c: int, h: int, w: int) -> bool {
    &&& ct.cout <= ct.bias@.len()
    &&& c * ct.cout * 3 * 3 <= ct.w.len()
    &&& 2 * h <= usize::MAX
    &&& 2 * w <= usize::MAX
    &&& 4 * c <= usize::MAX
    &&& ct.cout * (2 * h) <= usize::MAX
    &&& ct.cout * (2 * h) * (2 * w) <= usize::MAX
}

/// The input line and the kernel line of a contribution.
fn line_at(o: usize, n: usize, j: usize) -> (r: Option<(usize, usize)>)
    requires
        o < 2 * n,
        j < 2,
    ensures
        match source_line(o as int, n as int, j as int) {
            Some((i, k)) => r == Some((i as usize, k as usize)) && 0 <= i < n && 0 <= k < 3,
            None => r is None,
        },
{
    if o % 2 == 0 {
        if j == 0 {
            Some((o / 2, 1))
        } else {
            None
        }
    } else if j == 0 {
        Some((o / 2, 2))
    } else if o / 2 + 1 < n {
        Some((o / 2 + 1, 0))
    } else {
        None
    }
}

impl<S: Scalar> ConvT<S> {
    /// One weight.
    pub open spec fn weight(&self, ci: int, co: int, ky: int, kx: int) -> S {
        self.w@[((ci * self.cout + co) * 3 + ky) * 3 + kx]
    }

    /// The upsampling of this name.
    pub fn load(store: &WeightStore, prefix: &str) -> (res: Result<Self, String>)
        requires
            store.wf(),
            convt_shaped(*store, prefix@),
        ensures
            match first_unmet(*store, convt_needs(prefix@)) {
                Some(text) => res matches Err(e) && e@ == text,
                None => res matches Ok(ct) && convt_of(*store, prefix@, ct),
            },
    {
        proof {
            let a = Need::Tensor(prefix@ + ".weight"@);
            let b = Need::Tensor(prefix@ + ".bias"@);
            lemma_one_need(*store, a);
            lemma_one_need(*store, b);
            lemma_needs_in_turn(*store, seq![a], seq![b]);
            assert(seq![a] + seq![b] =~= convt_needs(prefix@));
        }
        let name: String = joined(prefix, ".weight");
        let (cin, cout): (usize, usize) = match store.info(name.as_str()) {
            Ok(t) => (t.shape[0], t.shape[1]),
            Err(e) => {
                return Err(e);
            },
        };
        let w: Vec<S> = match values::<S>(store, name.as_str()) {
            Ok(v) => v,
            Err(e) => {
                return Err(e);
            },
        };
        let bias: Vec<S> = match values::<S>(store, joined(prefix, ".bias").as_str()) {
            Ok(v) => v,
            Err(e) => {
                return Err(e);
            },
        };
        Ok(ConvT { w, bias, cin, cout })
    }

    /// Add one contribution to a sum.
    fn contribute(&self, src: &Acts<S>, acc: S, ci: usize, co: usize, row: (usize, usize), col: (usize, usize)) -> (r:
        S)
        requires
            src.wf(),
            can_upsample(*self, src.c as int, src.h as int, src.w as int),
            ci < src.c,
            co < self.cout,
            row.0 < src.h,
            row.1 < 3,
            col.0 < src.w,
            col.1 < 3,
        ensures
            contributed(
                Some(
                    (
                        src@.value(ci as int, row.0 as int, col.0 as int),
                        self.weight(ci as int, co as int, row.1 as int, col.1 as int),
                    ),
                ),
                acc,
                r,
            ),
    {
        proof {
            lemma_index(src@, ci as int, row.0 as int, col.0 as int);
            lemma_place(self.cout as int, src.c as int, co as int, ci as int);
            assert(self.cout * src.c == src.c * self.cout) by (nonlinear_arith);
            lemma_place3(
                src.c * self.cout,
                3,
                3,
                ci * self.cout + co,
                row.1 as int,
                col.1 as int,
            );
        }
        let x: S = src.data[(ci * src.h + row.0) * src.w + col.0];
        if x.is_zero() {
            return acc;
        }
        acc.plus_product(x, self.w[((ci * self.cout + co) * 3 + row.1) * 3 + col.1])
    }

    /// One output value.
    fn value_at(&self, src: &Acts<S>, co: usize, oy: usize, ox: usize) -> (r: S)
        requires
            src.wf(),
            can_upsample(*self, src.c as int, src.h as int, src.w as int),
            co < self.cout,
            oy < 2 * src.h,
            ox < 2 * src.w,
        ensures
            upsampled_at(*self, src@, co as int, oy as int, ox as int, r),
    {
        let start: S = self.bias[co];
        let ghost step = contribution_steps(*self, src@, co as int, oy as int, ox as int);
        proof {
            lemma_no_steps(start, step);
        }
        let n: usize = 4 * src.c;
        let mut acc: S = start;
        let mut t: usize = 0;
        while t < n
            invariant
                src.wf(),
                can_upsample(*self, src.c as int, src.h as int, src.w as int),
                co < self.cout,
                oy < 2 * src.h,
                ox < 2 * src.w,
                n == 4 * src.c,
                t <= n,
                step == contribution_steps(*self, src@, co as int, oy as int, ox as int),
                folds(start, step, t as nat, acc),
            decreases n - t,
        {
            let ghost before = acc;
            let row: Option<(usize, usize)> = line_at(oy, src.h, t / 2 % 2);
            let col: Option<(usize, usize)> = line_at(ox, src.w, t % 2);
            match (row, col) {
                (Some(r), Some(c)) => {
                    acc = self.contribute(src, acc, t / 2 / 2, co, r, c);
                },
                _ => {},
            }
            proof {
                assert(step(t as int, before, acc));
                lemma_step(start, step, t as nat, before, acc);
            }
            t += 1;
        }
        assert(src@.c * 2 * 2 == n);
        acc
    }

    /// Upsample by two.
    pub fn forward(&self, src: &Acts<S>) -> (out: Acts<S>)
        requires
            src.wf(),
            can_upsample(*self, src.c as int, src.h as int, src.w as int),
        ensures
            out.wf(),
            upsampled(*self, src@, out@),
    {
        let oh: usize = src.h * 2;
        let ow: usize = src.w * 2;
        let n: usize = self.cout * oh * ow;
        let data: Vec<S> = par_map(
            n,
            (|k: usize| -> (r: S)
                requires
                    k < n,
                    src.wf(),
                    can_upsample(*self, src.c as int, src.h as int, src.w as int),
                    oh == 2 * src.h,
                    ow == 2 * src.w,
                    n == self.cout * oh * ow,
                ensures
                    upsampled_at(
                        *self,
                        src@,
                        k as int / ow as int / oh as int,
                        k as int / ow as int % oh as int,
                        k as int % ow as int,
                        r,
                    ),
            {
                proof {
                    lemma_some_place(self.cout as int, oh as int, ow as int, k as int);
                    lemma_place3_of(self.cout as int, oh as int, ow as int, k as int);
                }
                self.value_at(src, k / ow / oh, k / ow % oh, k % ow)
            }),
        );
        let out = Acts { c: self.cout, h: oh, w: ow, data };
        assert forall|co: int, oy: int, ox: int| out@.inside(co, oy, ox) implies upsampled_at(
            *self,
            src@,
            co,
            oy,
            ox,
            #[trigger] out@.value(co, oy, ox),
        ) by {
            lemma_place3(out@.c, out@.h, out@.w, co, oy, ox);
            let k = (co * oh + oy) * ow + ox;
            assert(out.data@[k] == out@.value(co, oy, ox));
        }
        out
    }
}

/// The contributions to an output line are exactly the pairs of an input line and a kernel
/// line that the stride and the padding send there.
pub proof fn law_upsampling_lines(o: int, n: int, i: int, k: int)
    requires
        0 <= o < 2 * n,
    ensures
        (0 <= i < n && 0 <= k < 3 && 2 * i + k - 1 == o) <==> (source_line(o, n, 0) == Some((i, k))
            || source_line(o, n, 1) == Some((i, k))),
{
}

} // verus!
