//! Feature planes and the operations that work on them place by place.

use vstd::prelude::*;
use vstd::slice::slice_subrange;

use crate::grid::{at3, lemma_filled3, lemma_place3, lemma_place3_of};
use crate::image::{reflect, reflect_index, lemma_reflect};
use crate::par::par_map;
use crate::formula::{logistic, mean, mean_of, rectify, squash, without_negative};
use crate::scalar::Scalar;

verus! {

/// A batch of feature planes: `[c][h][w]`.
#[derive(Debug, Clone)]
pub struct Acts<S> {
    pub c: usize,
    pub h: usize,
    pub w: usize,
    pub data: Vec<S>,
}

/// What a batch of feature planes holds.
#[verifier::ext_equal]
pub struct Planes<S> {
    pub c: int,
    pub h: int,
    pub w: int,
    pub data: Seq<S>,
}

impl<S> Planes<S> {
    /// One value.
    pub open spec fn value(self, c: int, y: int, x: int) -> S {
        at3(self.data, self.h, self.w, c, y, x)
    }

    /// Whether a position lies inside the planes.
    pub open spec fn inside(self, c: int, y: int, x: int) -> bool {
        0 <= c < self.c && 0 <= y < self.h && 0 <= x < self.w
    }

    /// The buffer holds exactly one value for every position.
    pub open spec fn wf(self) -> bool {
        self.data.len() == self.c * self.h * self.w
    }

    /// The planes have this shape.
    pub open spec fn shaped(self, c: int, h: int, w: int) -> bool {
        self.c == c && self.h == h && self.w == w && self.wf()
    }
}

impl<S> View for Acts<S> {
    type V = Planes<S>;

    open spec fn view(&self) -> Planes<S> {
        Planes { c: self.c as int, h: self.h as int, w: self.w as int, data: self.data@ }
    }
}

/// `b` is `a` with every negative value replaced by zero.
pub open spec fn rectified<S: Scalar>(a: Planes<S>, b: Planes<S>) -> bool {
    &&& b.shaped(a.c, a.h, a.w)
    &&& forall|k: int|
        0 <= k < a.data.len() ==> without_negative(a.data[k], #[trigger] b.data[k])
}

/// `b` is `a` with every value squashed into the range from 0 to 1.
pub open spec fn squashed<S: Scalar>(a: Planes<S>, b: Planes<S>) -> bool {
    &&& b.shaped(a.c, a.h, a.w)
    &&& forall|k: int|
        0 <= k < a.data.len() ==> logistic(a.data[k], #[trigger] b.data[k])
}

/// `r` is the sum of `a` and `b`.
pub open spec fn summed<S: Scalar>(a: Planes<S>, b: Planes<S>, r: Planes<S>) -> bool {
    &&& r.shaped(a.c, a.h, a.w)
    &&& forall|k: int|
        0 <= k < a.data.len() ==> call_ensures(
            S::plus,
            (a.data[k], b.data[k]),
            #[trigger] r.data[k],
        )
}

/// `r` is the planes of `a` followed by those of `b`.
pub open spec fn stacked<S>(a: Planes<S>, b: Planes<S>) -> Planes<S> {
    Planes { c: a.c + b.c, h: a.h, w: a.w, data: a.data + b.data }
}

/// `r` is `a` with `pad` rows and columns mirrored on every side.
pub open spec fn mirrored<S>(a: Planes<S>, pad: int, r: Planes<S>) -> bool {
    &&& r.shaped(a.c, a.h + 2 * pad, a.w + 2 * pad)
    &&& forall|c: int, y: int, x: int|
        r.inside(c, y, x) ==> #[trigger] r.value(c, y, x) == a.value(
            c,
            reflect(y - pad, a.h),
            reflect(x - pad, a.w),
        )
}

/// `r` is the average of two by two values.
pub open spec fn pool_at<S: Scalar>(a: Planes<S>, c: int, y: int, x: int, r: S) -> bool {
    mean(
        a.value(c, 2 * y, 2 * x),
        a.value(c, 2 * y, 2 * x + 1),
        a.value(c, 2 * y + 1, 2 * x),
        a.value(c, 2 * y + 1, 2 * x + 1),
        r,
    )
}

/// `r` is `a` with every two by two values averaged.
pub open spec fn pooled<S: Scalar>(a: Planes<S>, r: Planes<S>) -> bool {
    &&& r.shaped(a.c, a.h / 2, a.w / 2)
    &&& forall|c: int, y: int, x: int|
        r.inside(c, y, x) ==> pool_at(a, c, y, x, #[trigger] r.value(c, y, x))
}

/// The buffer of a stack of planes is as long as the product of its extents, and a part of
/// it is no longer than the whole.
pub proof fn lemma_extents(c: int, h: int, w: int)
    requires
        0 <= c,
        0 <= h,
        0 <= w,
    ensures
        0 <= c * h,
        0 <= h * w,
        0 <= c * h * w,
        c * h * w == c * (h * w),
        c >= 1 ==> h * w <= c * h * w,
        w >= 1 ==> c * h <= c * h * w,
{
    assert(0 <= c * h && 0 <= h * w) by (nonlinear_arith)
        requires
            0 <= c,
            0 <= h,
            0 <= w,
    ;
    assert(c * h * w == c * (h * w)) by (nonlinear_arith);
    assert(0 <= c * (h * w)) by (nonlinear_arith)
        requires
            0 <= c,
            0 <= h * w,
    ;
    if c >= 1 {
        assert(h * w <= c * (h * w)) by (nonlinear_arith)
            requires
                c >= 1,
                0 <= h * w,
        ;
    }
    if w >= 1 {
        assert(c * h <= (c * h) * w) by (nonlinear_arith)
            requires
                w >= 1,
                0 <= c * h,
        ;
    }
}

/// The place of a position inside planes can be computed.
pub proof fn lemma_index<S>(a: Planes<S>, c: int, y: int, x: int)
    requires
        a.wf(),
        a.inside(c, y, x),
    ensures
        0 <= c * a.h <= c * a.h + y,
        0 <= (c * a.h + y) * a.w <= (c * a.h + y) * a.w + x < a.data.len(),
        c * a.h + y <= (c * a.h + y) * a.w,
{
    lemma_place3(a.c, a.h, a.w, c, y, x);
    lemma_extents(c, a.h, a.w);
    assert(0 <= c * a.h + y <= (c * a.h + y) * a.w) by (nonlinear_arith)
        requires
            0 <= c * a.h + y,
            1 <= a.w,
    ;
}

impl<S: Scalar> Acts<S> {
    /// The buffer holds exactly one value for every position.
    pub open spec fn wf(&self) -> bool {
        self.data.len() == self.c * self.h * self.w
    }

    /// Planes of zeros.
    pub fn new(c: usize, h: usize, w: usize) -> (a: Self)
        requires
            c * h * w <= usize::MAX,
            c * h <= usize::MAX,
        ensures
            a.wf(),
            a@.shaped(c as int, h as int, w as int),
            forall|k: int| 0 <= k < a.data@.len() ==> call_ensures(S::zero, (), #[trigger] a.data@[k]),
    {
        let mut data: Vec<S> = Vec::new();
        let n: usize = c * h * w;
        let mut i: usize = 0;
        while i < n
            invariant
                i <= n,
                data@.len() == i,
                forall|k: int| 0 <= k < i ==> call_ensures(S::zero, (), #[trigger] data@[k]),
            decreases n - i,
        {
            data.push(S::zero());
            i += 1;
        }
        Acts { c, h, w, data }
    }

    /// One plane.
    pub fn plane(&self, c: usize) -> (p: &[S])
        requires
            self.wf(),
            c < self.c,
        ensures
            p@ == self.data@.subrange(c * (self.h * self.w), (c + 1) * (self.h * self.w)),
            p@.len() == self.h * self.w,
    {
        proof {
            lemma_extents(self.c as int, self.h as int, self.w as int);
            assert((c + 1) * (self.h * self.w) <= self.c * (self.h * self.w)) by (nonlinear_arith)
                requires
                    c < self.c,
                    0 <= self.h * self.w,
            ;
            assert((c + 1) * (self.h * self.w) == c * (self.h * self.w) + self.h * self.w)
                by (nonlinear_arith);
            assert(0 <= c * (self.h * self.w)) by (nonlinear_arith)
                requires
                    0 <= self.h * self.w,
            ;
        }
        let plane: usize = self.h * self.w;
        slice_subrange(self.data.as_slice(), c * plane, (c + 1) * plane)
    }

    /// Metadata-only copy: same shape, empty data.  For a branch that is absent, where
    /// only the plane geometry matters.
    pub fn clone_meta(&self) -> (a: Self)
        ensures
            a.c == self.c,
            a.h == self.h,
            a.w == self.w,
            a.data@.len() == 0,
    {
        Acts { c: self.c, h: self.h, w: self.w, data: Vec::new() }
    }

    /// A copy of the planes.
    pub fn copy(&self) -> (a: Self)
        ensures
            a@ == self@,
    {
        let mut data: Vec<S> = Vec::new();
        let mut i: usize = 0;
        while i < self.data.len()
            invariant
                i <= self.data@.len(),
                data@ == self.data@.take(i as int),
            decreases self.data@.len() - i,
        {
            data.push(self.data[i]);
            i += 1;
            assert(data@ =~= self.data@.take(i as int));
        }
        assert(data@ =~= self.data@);
        Acts { c: self.c, h: self.h, w: self.w, data }
    }
}

/// Replace every negative value by zero.
pub fn relu_inplace<S: Scalar>(a: &mut Acts<S>)
    requires
        old(a).wf(),
    ensures
        final(a).wf(),
        rectified(old(a)@, final(a)@),
{
    let src: &Vec<S> = &a.data;
    let data: Vec<S> = par_map(
        src.len(),
        (|i: usize| -> (r: S)
            requires
                i < src@.len(),
            ensures
                without_negative(src@[i as int], r),
        {
            rectify(src[i])
        }),
    );
    a.data = data;
}

/// Squash every value into the range from 0 to 1.
pub fn sigmoid_inplace<S: Scalar>(a: &mut Acts<S>)
    requires
        old(a).wf(),
    ensures
        final(a).wf(),
        squashed(old(a)@, final(a)@),
{
    let src: &Vec<S> = &a.data;
    let data: Vec<S> = par_map(
        src.len(),
        (|i: usize| -> (r: S)
            requires
                i < src@.len(),
            ensures
                logistic(src@[i as int], r),
        {
            squash(src[i])
        }),
    );
    a.data = data;
}

/// Add planes of the same shape.
pub fn add_inplace<S: Scalar>(dst: &mut Acts<S>, src: &Acts<S>)
    requires
        old(dst).wf(),
        src.wf(),
        old(dst).data@.len() == src.data@.len(),
    ensures
        final(dst).wf(),
        summed(old(dst)@, src@, final(dst)@),
{
    let a: &Vec<S> = &dst.data;
    let b: &Vec<S> = &src.data;
    let data: Vec<S> = par_map(
        a.len(),
        (|i: usize| -> (r: S)
            requires
                i < a@.len(),
                a@.len() == b@.len(),
            ensures
                call_ensures(S::plus, (a@[i as int], b@[i as int]), r),
        {
            a[i].plus(b[i])
        }),
    );
    dst.data = data;
}

/// Concatenate two batches along their channels.
pub fn concat<S: Scalar>(a: &Acts<S>, b: &Acts<S>) -> (out: Acts<S>)
    requires
        a.wf(),
        b.wf(),
        a.h == b.h,
        a.w == b.w,
        a.c + b.c <= usize::MAX,
        (a.c + b.c) * a.h * a.w <= usize::MAX,
    ensures
        out.wf(),
        out@ == stacked(a@, b@),
{
    proof {
        lemma_extents(a.c as int, a.h as int, a.w as int);
        lemma_extents(b.c as int, a.h as int, a.w as int);
        lemma_extents(a.c + b.c, a.h as int, a.w as int);
        assert((a.c + b.c) * (a.h * a.w) == a.c * (a.h * a.w) + b.c * (a.h * a.w))
            by (nonlinear_arith);
    }
    let mut out: Acts<S> = a.copy();
    let mut i: usize = 0;
    while i < b.data.len()
        invariant
            i <= b.data@.len(),
            out.data@ == a.data@ + b.data@.take(i as int),
        decreases b.data@.len() - i,
    {
        out.data.push(b.data[i]);
        i += 1;
        assert(out.data@ =~= a.data@ + b.data@.take(i as int));
    }
    assert(b.data@.take(i as int) =~= b.data@);
    Acts { c: a.c + b.c, h: a.h, w: a.w, data: out.data }
}

/// Mirror `pad` rows and columns on every side (`ReflectionPad2d`).
pub fn reflect_pad_acts<S: Scalar>(a: &Acts<S>, pad: usize) -> (out: Acts<S>)
    requires
        a.wf(),
        pad > 0 ==> a.h >= 1 && a.w >= 1,
        a.h + 2 * pad <= isize::MAX,
        a.w + 2 * pad <= isize::MAX,
        a.c * (a.h + 2 * pad) <= usize::MAX,
        a.c * (a.h + 2 * pad) * (a.w + 2 * pad) <= usize::MAX,
    ensures
        out.wf(),
        mirrored(a@, pad as int, out@),
{
    if pad == 0 {
        let out: Acts<S> = a.copy();
        assert forall|c: int, y: int, x: int| out@.inside(c, y, x) implies #[trigger] out@.value(
            c,
            y,
            x,
        ) == a@.value(c, reflect(y, a@.h), reflect(x, a@.w)) by {
            lemma_reflect(y, a@.h);
            lemma_reflect(x, a@.w);
        }
        return out;
    }
    let oh: usize = a.h + 2 * pad;
    let ow: usize = a.w + 2 * pad;
    let n: usize = a.c * oh * ow;
    let data: Vec<S> = par_map(
        n,
        (|k: usize| -> (r: S)
            requires
                k < n,
                a.wf(),
                a.h >= 1,
                a.w >= 1,
                oh == a.h + 2 * pad,
                ow == a.w + 2 * pad,
                oh <= isize::MAX,
                ow <= isize::MAX,
                n == a.c * oh * ow,
            ensures
                r == a@.value(
                    k as int / ow as int / oh as int,
                    reflect(k as int / ow as int % oh as int - pad, a.h as int),
                    reflect(k as int % ow as int - pad, a.w as int),
                ),
        {
            proof {
                lemma_place3_of(a.c as int, oh as int, ow as int, k as int);
            }
            let c: usize = k / ow / oh;
            let y: usize = k / ow % oh;
            let x: usize = k % ow;
            let sy: usize = reflect_index(y as isize - pad as isize, a.h);
            let sx: usize = reflect_index(x as isize - pad as isize, a.w);
            proof {
                lemma_index(a@, c as int, sy as int, sx as int);
            }
            a.data[(c * a.h + sy) * a.w + sx]
        }),
    );
    let out = Acts { c: a.c, h: oh, w: ow, data };
    proof {
        let f = |c: int, y: int, x: int|
            a@.value(c, reflect(y - pad, a.h as int), reflect(x - pad, a.w as int));
        lemma_filled3(out.data@, a.c as int, oh as int, ow as int, f);
        assert forall|c: int, y: int, x: int| out@.inside(c, y, x) implies #[trigger] out@.value(
            c,
            y,
            x,
        ) == a@.value(c, reflect(y - pad, a@.h), reflect(x - pad, a@.w)) by {
            assert(at3(out.data@, oh as int, ow as int, c, y, x) == f(c, y, x));
        }
    }
    out
}

/// Average every two by two values (`AvgPool2d(kernel=2, stride=2)`).
pub fn avg_pool2x2<S: Scalar>(a: &Acts<S>) -> (out: Acts<S>)
    requires
        a.wf(),
    ensures
        out.wf(),
        pooled(a@, out@),
{
    let oh: usize = a.h / 2;
    let ow: usize = a.w / 2;
    proof {
        lemma_halves(a.c as int, a.h as int, a.w as int);
    }
    let n: usize = if a.c == 0 || oh == 0 || ow == 0 {
        0
    } else {
        a.c * oh * ow
    };
    let data: Vec<S> = par_map(
        n,
        (|k: usize| -> (r: S)
            requires
                k < n,
                a.wf(),
                oh == a.h / 2,
                ow == a.w / 2,
                n == a.c * oh * ow,
            ensures
                pool_at(
                    a@,
                    k as int / ow as int / oh as int,
                    k as int / ow as int % oh as int,
                    k as int % ow as int,
                    r,
                ),
        {
            proof {
                lemma_some_place(a.c as int, oh as int, ow as int, k as int);
                lemma_place3_of(a.c as int, oh as int, ow as int, k as int);
            }
            let c: usize = k / ow / oh;
            let y: usize = k / ow % oh;
            let x: usize = k % ow;
            proof {
                lemma_index(a@, c as int, 2 * y, 2 * x);
                lemma_index(a@, c as int, 2 * y, 2 * x + 1);
                lemma_index(a@, c as int, 2 * y + 1, 2 * x);
                lemma_index(a@, c as int, 2 * y + 1, 2 * x + 1);
            }
            mean_of(
                a.data[(c * a.h + 2 * y) * a.w + 2 * x],
                a.data[(c * a.h + 2 * y) * a.w + (2 * x + 1)],
                a.data[(c * a.h + (2 * y + 1)) * a.w + 2 * x],
                a.data[(c * a.h + (2 * y + 1)) * a.w + (2 * x + 1)],
            )
        }),
    );
    let out = Acts { c: a.c, h: oh, w: ow, data };
    assert forall|c: int, y: int, x: int| out@.inside(c, y, x) implies pool_at(
        a@,
        c,
        y,
        x,
        #[trigger] out@.value(c, y, x),
    ) by {
        lemma_place3(a.c as int, oh as int, ow as int, c, y, x);
        let k = (c * oh + y) * ow + x;
        assert(out.data@[k] == out@.value(c, y, x));
    }
    out
}

/// A place in a buffer means that none of the extents is zero.
pub proof fn lemma_some_place(c: int, h: int, w: int, k: int)
    requires
        0 <= c,
        0 <= h,
        0 <= w,
        0 <= k < c * h * w,
    ensures
        1 <= c,
        1 <= h,
        1 <= w,
{
    assert(c == 0 || h == 0 || w == 0 ==> c * h * w == 0) by (nonlinear_arith);
}

proof fn lemma_halves(c: int, h: int, w: int)
    requires
        0 <= c,
        0 <= h,
        0 <= w,
    ensures
        c == 0 || h / 2 == 0 || w / 2 == 0 ==> c * (h / 2) * (w / 2) == 0,
        0 <= c * (h / 2) <= c * (h / 2) * (w / 2) || w / 2 == 0,
        c * (h / 2) * (w / 2) <= c * h * w,
{
    let a = h / 2;
    let b = w / 2;
    assert(c == 0 || a == 0 || b == 0 ==> c * a * b == 0) by (nonlinear_arith);
    lemma_extents(c, a, b);
    assert(c * a <= c * h) by (nonlinear_arith)
        requires
            0 <= a <= h,
            0 <= c,
    ;
    assert((c * a) * b <= (c * h) * w) by (nonlinear_arith)
        requires
            0 <= c * a <= c * h,
            0 <= b <= w,
    ;
}

} // verus!
