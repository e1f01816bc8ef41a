//! Whether a network can be loaded and run, told before it is tried.

use vstd::prelude::*;

use crate::conv::{can_convolve, conv_shaped, Conv2dW};
use crate::convt::{can_upsample, ConvT};
use crate::ffc::{can_conv_part, can_ffc, can_finish, can_global, can_local, can_unite, conv_part_shape, conv_ref_shaped, ffc_shaped, ffc_shapes, global_shape, local_shape, spectral_part_shape, united_shape, FfcWeights, Shape};
use crate::model::{conv_extent, ConvRef, FfcBlock, Model, Step};
use crate::names::{block, ffc_name, module};
use crate::needs::joined;
use crate::net::{can_mirror, can_residual, can_run, can_step, mirror_shape, plan_shaped, shapes_after, step_shaped, step_shapes, Net, NetStep, Shapes};
use crate::norm::Bn;
use crate::scalar::Scalar;
use crate::spectral::{can_fourier, can_mix, can_spectral, reduced_extent, spectral_shaped, FourierUnit, Spectral};
use crate::spectrum::can_transform;
use crate::weights::WeightStore;

verus! {

/// The shape of a batch of planes that the machine can hold.
#[derive(Debug, Clone, Copy, PartialEq, Eq, Structural)]
pub struct Dims {
    pub c: usize,
    pub h: usize,
    pub w: usize,
}

impl Dims {
    pub open spec fn shape(self) -> Shape {
        Shape { c: self.c as int, h: self.h as int, w: self.w as int }
    }
}

/// The shape of an optional batch of planes.
pub open spec fn shape_opt(d: Option<Dims>) -> Option<Shape> {
    match d {
        Some(d) => Some(d.shape()),
        None => None,
    }
}

/// Whether a product of three is at most `limit`.
fn product_fits(a: usize, b: usize, c: usize, limit: usize) -> (r: bool)
    ensures
        r == (a * b * c <= limit),
{
    if a == 0 || b == 0 || c == 0 {
        assert(a * b * c == 0) by (nonlinear_arith)
            requires
                a == 0 || b == 0 || c == 0,
        ;
        return true;
    }
    proof {
        assert(a * b <= a * b * c) by (nonlinear_arith)
            requires
                1 <= c,
                0 <= a * b,
        ;
        assert(0 <= a * b) by (nonlinear_arith);
    }
    match a.checked_mul(b) {
        None => false,
        Some(ab) => match ab.checked_mul(c) {
            None => false,
            Some(abc) => abc <= limit,
        },
    }
}

/// Whether a product of two can be held.
fn pair_fits(a: usize, b: usize) -> (r: bool)
    ensures
        r == (a * b <= usize::MAX),
{
    a.checked_mul(b).is_some()
}

/// An extent with padding on both sides, if lines of that length can be indexed.
fn padded(n: usize, pad: usize) -> (r: Option<usize>)
    ensures
        match r {
            Some(p) => p == n + 2 * pad && p <= isize::MAX,
            None => n + 2 * pad > isize::MAX,
        },
{
    if pad > isize::MAX as usize / 2 || n > isize::MAX as usize - 2 * pad {
        None
    } else {
        Some(n + 2 * pad)
    }
}

/// Whether a convolution has all its weights.
fn has_weights<S: Scalar>(cv: &Conv2dW<S>) -> (r: bool)
    ensures
        r == cv.wf(),
{
    let bias: bool = match &cv.bias {
        Some(b) => cv.cout <= b.len(),
        None => true,
    };
    if !bias {
        return false;
    }
    if cv.kw == 0 {
        assert(cv.cout * cv.cin * cv.kh * cv.kw == 0) by (nonlinear_arith)
            requires
                cv.kw == 0,
        ;
        return true;
    }
    let n: usize = cv.w.len();
    proof {
        let a = cv.cout * cv.cin * cv.kh;
        assert(0 <= a) by (nonlinear_arith)
            requires
                a == cv.cout * cv.cin * cv.kh,
        ;
        assert(a * cv.kw <= n <==> a <= n / cv.kw) by {
            vstd::arithmetic::div_mod::lemma_fundamental_div_mod(n as int, cv.kw as int);
            let q = n as int / cv.kw as int;
            assert(a <= q ==> a * cv.kw <= q * cv.kw) by (nonlinear_arith)
                requires
                    0 < cv.kw,
            ;
            assert(a > q ==> a * cv.kw >= q * cv.kw + cv.kw) by (nonlinear_arith)
                requires
                    0 < cv.kw,
            ;
            assert(q * cv.kw == cv.kw * q) by (nonlinear_arith);
        }
    }
    product_fits(cv.cout, cv.cin, cv.kh, n / cv.kw)
}

/// The shape that a convolution leads to, if it can be applied.
fn conv_dims<S: Scalar>(cv: &Conv2dW<S>, d: Dims, pad: usize, stride: usize, mirror: bool) -> (r: Option<
    Dims,
>)
    ensures
        match r {
            Some(o) => {
                &&& cv.wf()
                &&& can_convolve(
                    *cv,
                    d.c as int,
                    d.h as int,
                    d.w as int,
                    pad as int,
                    stride as int,
                    mirror,
                )
                &&& o.c == cv.cout
                &&& o.h == conv_extent(d.h as int, cv.kh as int, stride as int, pad as int)
                &&& o.w == conv_extent(d.w as int, cv.kw as int, stride as int, pad as int)
            },
            None => !(cv.wf() && can_convolve(
                *cv,
                d.c as int,
                d.h as int,
                d.w as int,
                pad as int,
                stride as int,
                mirror,
            )),
        },
{
    if !has_weights(cv) || cv.cin > d.c || stride < 1 {
        return None;
    }
    if mirror && (d.h < 1 || d.w < 1) {
        return None;
    }
    let ph: usize = match padded(d.h, pad) {
        Some(p) => p,
        None => {
            return None;
        },
    };
    let pw: usize = match padded(d.w, pad) {
        Some(p) => p,
        None => {
            return None;
        },
    };
    if cv.kh > ph || cv.kw > pw {
        return None;
    }
    proof {
        lemma_quotient(ph - cv.kh, stride as int);
        lemma_quotient(pw - cv.kw, stride as int);
    }
    let oh: usize = (ph - cv.kh) / stride + 1;
    let ow: usize = (pw - cv.kw) / stride + 1;
    if !pair_fits(cv.cout, oh) || !product_fits(cv.cout, oh, ow, usize::MAX) {
        return None;
    }
    Some(Dims { c: cv.cout, h: oh, w: ow })
}

proof fn lemma_quotient(n: int, d: int)
    requires
        0 <= n,
        1 <= d,
    ensures
        0 <= n / d <= n,
{
    vstd::arithmetic::div_mod::lemma_div_is_ordered_by_denominator(n, 1, d);
    vstd::arithmetic::div_mod::lemma_div_pos_is_pos(n, d);
    vstd::arithmetic::div_mod::lemma_div_basics(n);
}

/// Whether a convolution is 1x1 and can be applied.
fn mixes<S: Scalar>(cv: &Conv2dW<S>, d: Dims) -> (r: bool)
    ensures
        r == can_mix(*cv, d.c as int, d.h as int, d.w as int),
{
    cv.kh == 1 && cv.kw == 1 && conv_dims(cv, d, 0, 1, false).is_some()
}

/// Whether a BatchNorm covers a number of channels.
fn norm_covers<S: Scalar>(bn: &Bn<S>, channels: usize) -> (r: bool)
    ensures
        r == bn.covers(channels as int),
{
    bn.scale.len() >= channels && bn.shift.len() >= channels
}

/// Whether planes of this size can be transformed.
fn transforms(h: usize, w: usize) -> (r: bool)
    ensures
        r == can_transform(h as int, w as int),
{
    if w < 1 || h > usize::MAX / 8 || w > usize::MAX / 8 {
        return false;
    }
    pair_fits(h, w) && product_fits(2, h, w / 2 + 1, usize::MAX)
}

fn fourier_fits<S: Scalar>(fu: &FourierUnit<S>, d: Dims) -> (r: bool)
    ensures
        r == can_fourier(*fu, d.c as int, d.h as int, d.w as int),
{
    if fu.half > d.c || d.h < 1 || !transforms(d.h, d.w) || fu.half > usize::MAX / 2 {
        return false;
    }
    let hw: usize = d.w / 2 + 1;
    product_fits(2 * fu.half, d.h, hw, usize::MAX) && product_fits(fu.half, d.h, d.w, usize::MAX)
        && fu.conv.cout == 2 * fu.half && mixes(&fu.conv, Dims { c: 2 * fu.half, h: d.h, w: hw })
        && norm_covers(&fu.bn, fu.conv.cout)
}

/// The shape that a spectral transform leads to, if it can be applied.
fn spectral_dims<S: Scalar>(sp: &Spectral<S>, d: Dims) -> (r: Option<Dims>)
    ensures
        match r {
            Some(o) => {
                &&& can_spectral(*sp, d.c as int, d.h as int, d.w as int)
                &&& o.c == sp.conv2.cout
                &&& o.h == reduced_extent(sp.stride as int, d.h as int)
                &&& o.w == reduced_extent(sp.stride as int, d.w as int)
            },
            None => !can_spectral(*sp, d.c as int, d.h as int, d.w as int),
        },
{
    let (rh, rw): (usize, usize) = if sp.stride == 2 {
        (d.h / 2, d.w / 2)
    } else {
        (d.h, d.w)
    };
    let inner = Dims { c: sp.half, h: rh, w: rw };
    if mixes(&sp.conv1, Dims { c: d.c, h: rh, w: rw }) && norm_covers(&sp.bn1, sp.conv1.cout)
        && sp.conv1.cout == sp.half && sp.fu.half == sp.half && fourier_fits(&sp.fu, inner)
        && mixes(&sp.conv2, inner) {
        Some(Dims { c: sp.conv2.cout, h: rh, w: rw })
    } else {
        None
    }
}

/// What an optional part leads to: nothing, planes, or a refusal.
pub enum Part {
    Absent,
    Present(Dims),
    Refused,
}

impl Part {
    pub open spec fn shape(self) -> Option<Shape> {
        match self {
            Part::Present(d) => Some(d.shape()),
            _ => None,
        }
    }
}

fn conv_part_dims<S: Scalar>(w: &FfcWeights<S>, cv: &Option<Conv2dW<S>>, src: Option<Dims>) -> (r: Part)
    ensures
        r is Refused <==> !can_conv_part(*w, *cv, shape_opt(src)),
        !(r is Refused) ==> r.shape() == conv_part_shape(*w, *cv, shape_opt(src)),
{
    match cv {
        None => Part::Absent,
        Some(c) => match src {
            None => Part::Refused,
            Some(d) => {
                let o: Option<Dims> = if w.kernel == 1 {
                    if c.kh == 1 && c.kw == 1 {
                        conv_dims(c, d, 0, 1, false)
                    } else {
                        None
                    }
                } else {
                    conv_dims(c, d, w.pad, w.stride, w.reflect)
                };
                match o {
                    Some(o) => Part::Present(o),
                    None => Part::Refused,
                }
            },
        },
    }
}

fn spectral_part_dims<S: Scalar>(sp: &Option<Spectral<S>>, src: Option<Dims>) -> (r: Part)
    ensures
        r is Refused <==> (*sp matches Some(p) && !(shape_opt(src) matches Some(s) && can_spectral(
            p,
            s.c,
            s.h,
            s.w,
        ))),
        !(r is Refused) ==> r.shape() == spectral_part_shape(*sp, shape_opt(src)),
{
    match sp {
        None => Part::Absent,
        Some(p) => match src {
            None => Part::Refused,
            Some(d) => match spectral_dims(p, d) {
                Some(o) => Part::Present(o),
                None => Part::Refused,
            },
        },
    }
}

fn united_dims(a: &Part, b: &Part, like: Dims) -> (r: Option<Dims>)
    requires
        !(a is Refused),
        !(b is Refused),
    ensures
        match r {
            Some(o) => can_unite(a.shape(), b.shape()) && o.shape() == united_shape(
                a.shape(),
                b.shape(),
                like.shape(),
            ),
            None => !can_unite(a.shape(), b.shape()),
        },
{
    match (a, b) {
        (Part::Present(x), Part::Present(y)) => {
            if x.c == 0 {
                Some(*y)
            } else if x.c == y.c && x.h == y.h && x.w == y.w {
                Some(*x)
            } else {
                None
            }
        },
        (Part::Present(x), _) => Some(*x),
        (_, Part::Present(y)) => Some(*y),
        (_, _) => Some(Dims { c: 0, h: like.h, w: like.w }),
    }
}

fn finishes<S: Scalar>(bn: &Option<Bn<S>>, d: Dims) -> (r: bool)
    ensures
        r == can_finish(*bn, d.shape()),
{
    match bn {
        Some(n) => norm_covers(n, d.c),
        None => true,
    }
}

fn local_dims<S: Scalar>(w: &FfcWeights<S>, l: Dims, g: Option<Dims>) -> (r: Option<Dims>)
    ensures
        match r {
            Some(o) => can_local(*w, l.shape(), shape_opt(g)) && o.shape() == local_shape(
                *w,
                l.shape(),
                shape_opt(g),
            ),
            None => !can_local(*w, l.shape(), shape_opt(g)),
        },
{
    let a: Part = conv_part_dims(w, &w.l2l, Some(l));
    let b: Part = conv_part_dims(w, &w.g2l, g);
    match (&a, &b) {
        (Part::Refused, _) => None,
        (_, Part::Refused) => None,
        (_, _) => match united_dims(&a, &b, l) {
            Some(o) => if finishes(&w.bn_l, o) {
                Some(o)
            } else {
                None
            },
            None => None,
        },
    }
}

fn global_dims<S: Scalar>(w: &FfcWeights<S>, l: Dims, g: Option<Dims>) -> (r: Option<Dims>)
    ensures
        match r {
            Some(o) => can_global(*w, l.shape(), shape_opt(g)) && o.shape() == global_shape(
                *w,
                l.shape(),
                shape_opt(g),
            ),
            None => !can_global(*w, l.shape(), shape_opt(g)),
        },
{
    let a: Part = conv_part_dims(w, &w.l2g, Some(l));
    let b: Part = spectral_part_dims(&w.spectral, g);
    match (&a, &b) {
        (Part::Refused, _) => None,
        (_, Part::Refused) => None,
        (_, _) => match united_dims(&a, &b, l) {
            Some(o) => if finishes(&w.bn_g, o) {
                Some(o)
            } else {
                None
            },
            None => None,
        },
    }
}

/// The shapes of the two branches.
#[derive(Debug, Clone, Copy)]
pub struct BranchDims {
    pub local: Dims,
    pub global: Option<Dims>,
}

impl BranchDims {
    pub open spec fn shapes(self) -> Shapes {
        Shapes { local: self.local.shape(), global: shape_opt(self.global) }
    }
}

/// The shapes that a block leads to, if it can be applied.
pub fn ffc_dims<S: Scalar>(w: &FfcWeights<S>, a: BranchDims) -> (r: Option<BranchDims>)
    ensures
        match r {
            Some(o) => can_ffc(*w, a.shapes().local, a.shapes().global) && ffc_shapes(
                *w,
                a.shapes().local,
                a.shapes().global,
            ) == (o.shapes().local, o.shapes().global),
            None => !can_ffc(*w, a.shapes().local, a.shapes().global),
        },
{
    let global: Option<Dims> = if w.out_global > 0 {
        match global_dims(w, a.local, a.global) {
            Some(d) => Some(d),
            None => {
                return None;
            },
        }
    } else {
        None
    };
    let local: Dims = if w.out_local > 0 {
        match local_dims(w, a.local, a.global) {
            Some(d) => d,
            None => {
                return None;
            },
        }
    } else {
        match global {
            Some(g) => Dims { c: 0, h: g.h, w: g.w },
            None => Dims { c: 0, h: a.local.h, w: a.local.w },
        }
    };
    Some(BranchDims { local, global })
}

fn mirror_dims(d: Dims, pad: usize) -> (r: Option<Dims>)
    ensures
        match r {
            Some(o) => can_mirror(d.shape(), pad as int) && o.shape() == mirror_shape(
                d.shape(),
                pad as int,
            ),
            None => !can_mirror(d.shape(), pad as int),
        },
{
    if pad > 0 && (d.h < 1 || d.w < 1) {
        return None;
    }
    match (padded(d.h, pad), padded(d.w, pad)) {
        (Some(h), Some(w)) => if pair_fits(d.c, h) && product_fits(d.c, h, w, usize::MAX) {
            Some(Dims { c: d.c, h, w })
        } else {
            None
        },
        (_, _) => None,
    }
}

fn same_dims(a: Dims, b: Dims) -> (r: bool)
    ensures
        r == (a.shape() == b.shape()),
{
    a.c == b.c && a.h == b.h && a.w == b.w
}

fn residual_dims<S: Scalar>(c1: &FfcWeights<S>, c2: &FfcWeights<S>, a: BranchDims) -> (r: Option<
    BranchDims,
>)
    ensures
        match r {
            Some(o) => can_residual(*c1, *c2, a.shapes()) && o.shapes() == step_shapes(
                NetStep::Res(*c1, *c2),
                a.shapes(),
            ),
            None => !can_residual(*c1, *c2, a.shapes()),
        },
{
    proof {
        reveal(step_shapes);
    }
    let m: BranchDims = match ffc_dims(c1, a) {
        Some(m) => m,
        None => {
            return None;
        },
    };
    let n: BranchDims = match ffc_dims(c2, m) {
        Some(n) => n,
        None => {
            return None;
        },
    };
    if !same_dims(n.local, a.local) {
        return None;
    }
    match (a.global, n.global) {
        (Some(x), Some(y)) => if same_dims(x, y) {
            Some(a)
        } else {
            None
        },
        (Some(_), None) => Some(a),
        (None, y) => Some(BranchDims { local: a.local, global: y }),
    }
}

fn upsample_fits<S: Scalar>(ct: &ConvT<S>, d: Dims) -> (r: bool)
    ensures
        r == can_upsample(*ct, d.c as int, d.h as int, d.w as int),
{
    if ct.cout > ct.bias.len() || d.h > usize::MAX / 2 || d.w > usize::MAX / 2 || d.c > usize::MAX
        / 4 {
        return false;
    }
    proof {
        assert(d.c * ct.cout * 3 * 3 == d.c * ct.cout * 9) by (nonlinear_arith);
    }
    product_fits(d.c, ct.cout, 9, ct.w.len()) && pair_fits(ct.cout, 2 * d.h) && product_fits(
        ct.cout,
        2 * d.h,
        2 * d.w,
        usize::MAX,
    )
}

/// The shapes that a step leads to, if it can be applied.
fn step_dims<S: Scalar>(s: &NetStep<S>, a: BranchDims) -> (r: Option<BranchDims>)
    ensures
        match r {
            Some(o) => can_step(*s, a.shapes()) && o.shapes() == step_shapes(*s, a.shapes()),
            None => !can_step(*s, a.shapes()),
        },
{
    proof {
        reveal(can_step);
        reveal(step_shapes);
    }
    match s {
        NetStep::ReflectPad(p) => {
            let local: Dims = match mirror_dims(a.local, *p) {
                Some(d) => d,
                None => {
                    return None;
                },
            };
            match a.global {
                None => Some(BranchDims { local, global: None }),
                Some(g) => match mirror_dims(g, *p) {
                    Some(d) => Some(BranchDims { local, global: Some(d) }),
                    None => None,
                },
            }
        },
        NetStep::Ffc(w) => ffc_dims(w, a),
        NetStep::Res(c1, c2) => residual_dims(c1, c2, a),
        NetStep::Concat => match a.global {
            None => Some(a),
            Some(g) => {
                if g.h != a.local.h || g.w != a.local.w {
                    return None;
                }
                match a.local.c.checked_add(g.c) {
                    None => None,
                    Some(c) => if product_fits(c, a.local.h, a.local.w, usize::MAX) {
                        Some(
                            BranchDims {
                                local: Dims { c, h: a.local.h, w: a.local.w },
                                global: None,
                            },
                        )
                    } else {
                        None
                    },
                }
            },
        },
        NetStep::Upsample(ct, bn) => if upsample_fits(ct, a.local) && norm_covers(bn, ct.cout) {
            Some(
                BranchDims {
                    local: Dims { c: ct.cout, h: 2 * a.local.h, w: 2 * a.local.w },
                    global: None,
                },
            )
        } else {
            None
        },
        NetStep::OutConv(cv) => match conv_dims(cv, a.local, 0, 1, false) {
            Some(o) => Some(BranchDims { local: o, global: a.global }),
            None => None,
        },
    }
}

impl<S: Scalar> Net<S> {
    /// The shape of the network's output for an input of this shape, if it can be run on
    /// it.
    pub fn accepts(&self, input: Dims) -> (r: Option<Dims>)
        ensures
            match r {
                Some(o) => can_run(*self, input.shape()) && o.shape() == shapes_after(
                    *self,
                    Shapes { local: input.shape(), global: None },
                    self.steps@.len(),
                ).local,
                None => !can_run(*self, input.shape()),
            },
    {
        let ghost start = Shapes { local: input.shape(), global: None };
        let mut now = BranchDims { local: input, global: None };
        let mut i: usize = 0;
        while i < self.steps.len()
            invariant
                start == (Shapes { local: input.shape(), global: None }),
                i <= self.steps@.len(),
                now.shapes() == shapes_after(*self, start, i as nat),
                forall|j: int|
                    0 <= j < i ==> can_step(
                        #[trigger] self.steps@[j],
                        shapes_after(*self, start, j as nat),
                    ),
            decreases self.steps@.len() - i,
        {
            match step_dims(&self.steps[i], now) {
                Some(o) => {
                    now = o;
                },
                None => {
                    assert(!can_step(self.steps@[i as int], shapes_after(*self, start, i as nat)));
                    return None;
                },
            }
            i += 1;
        }
        Some(now.local)
    }
}

/// Whether the tensor of this name, if there is one, has at least `n` extents.
fn rank_at_least(store: &WeightStore, name: &str, n: usize) -> (r: bool)
    ensures
        r == (store.has(name@) ==> store.tensor(name@).shape@.len() >= n),
{
    match store.info(name) {
        Ok(t) => t.shape.len() >= n,
        Err(_) => true,
    }
}

fn conv_readable(store: &WeightStore, prefix: &str) -> (r: bool)
    ensures
        r == conv_shaped(*store, prefix@),
{
    rank_at_least(store, joined(prefix, ".weight").as_str(), 4)
}

fn conv_ref_readable(store: &WeightStore, prefix: &String, c: &ConvRef, Ghost(b): Ghost<FfcBlock>) -> (r: bool)
    requires
        prefix@ == ffc_name(b.index as nat, b.sub as nat) + "."@,
    ensures
        r == conv_ref_shaped(*store, b, *c),
{
    match c {
        ConvRef::Absent => true,
        ConvRef::Present { name, .. } => conv_readable(
            store,
            joined(prefix.as_str(), name).as_str(),
        ),
    }
}

fn spectral_readable(store: &WeightStore, prefix: &str) -> (r: bool)
    ensures
        r == spectral_shaped(*store, prefix@),
{
    conv_readable(store, joined(prefix, ".conv1.0").as_str()) && conv_readable(
        store,
        joined(prefix, ".conv2").as_str(),
    ) && conv_readable(store, joined(prefix, ".fu.conv_layer").as_str())
}

fn ffc_readable(store: &WeightStore, b: &FfcBlock) -> (r: bool)
    ensures
        r == ffc_shaped(*store, *b),
{
    let prefix: String = joined(block(b).as_str(), ".ffc.");
    proof {
        reveal_strlit(".ffc.");
        reveal_strlit(".ffc");
        reveal_strlit(".");
        assert(prefix@ =~= ffc_name(b.index as nat, b.sub as nat) + "."@);
    }
    conv_ref_readable(store, &prefix, &b.l2l, Ghost(*b)) && conv_ref_readable(
        store,
        &prefix,
        &b.l2g,
        Ghost(*b),
    ) && conv_ref_readable(store, &prefix, &b.g2l, Ghost(*b)) && (!b.g2g || spectral_readable(
        store,
        joined(prefix.as_str(), "convg2g").as_str(),
    ))
}

fn step_readable(store: &WeightStore, s: &Step) -> (r: bool)
    ensures
        r == step_shaped(*store, *s),
{
    match s {
        Step::ReflectPad(_) => true,
        Step::Ffc(b) => ffc_readable(store, b),
        Step::ResBlock(r) => ffc_readable(store, &r.conv1) && ffc_readable(store, &r.conv2),
        Step::Concat => true,
        Step::Upsample(u) => rank_at_least(
            store,
            joined(module(u.index).as_str(), ".weight").as_str(),
            2,
        ),
        Step::OutConv(o) => conv_readable(store, module(o.index).as_str()),
    }
}

/// Whether every weight of a plan that the checkpoint holds has the extents that the plan
/// reads.
pub fn readable(store: &WeightStore, model: &Model) -> (r: bool)
    ensures
        r == plan_shaped(*store, model.steps@),
{
    let mut i: usize = 0;
    while i < model.steps.len()
        invariant
            i <= model.steps@.len(),
            forall|j: int| 0 <= j < i ==> step_shaped(*store, #[trigger] model.steps@[j]),
        decreases model.steps@.len() - i,
    {
        if !step_readable(store, &model.steps[i]) {
            return false;
        }
        i += 1;
    }
    true
}

} // verus!
