//! Fast Fourier convolution blocks: a local and a global branch, each fed by both.

use vstd::prelude::*;

use crate::acts::{add_inplace, rectified, relu_inplace, summed, Acts, Planes};
use crate::conv::{can_convolve, conv_needs, conv_of, conv_shaped, convolved, Conv2dW};
use crate::model::{conv_extent, ConvRef, FfcBlock};
use crate::names::{block, block_name, ffc_name};
use crate::needs::{first_unmet, joined, lemma_needs_in_turn, Need};
use crate::norm::{norm_needs, norm_of, normed, Bn};
use crate::scalar::Scalar;
use crate::spectral::{can_spectral, reduced_extent, spectral_from, spectral_needs, spectral_of, spectral_shaped, Spectral};
use crate::weights::WeightStore;

verus! {

/// One FFC block with its parameters resolved.
pub struct FfcWeights<S> {
    pub kernel: usize,
    pub stride: usize,
    pub pad: usize,
    pub reflect: bool,
    pub in_local: usize,
    pub in_global: usize,
    pub out_local: usize,
    pub out_global: usize,
    pub l2l: Option<Conv2dW<S>>,
    pub l2g: Option<Conv2dW<S>>,
    pub g2l: Option<Conv2dW<S>>,
    pub spectral: Option<Spectral<S>>,
    pub bn_l: Option<Bn<S>>,
    pub bn_g: Option<Bn<S>>,
}

/// The name of one of a block's convolutions.
pub open spec fn conv_name(b: FfcBlock, name: Seq<char>) -> Seq<char> {
    ffc_name(b.index as nat, b.sub as nat) + "."@ + name
}

/// What an optional convolution needs of the checkpoint.
pub open spec fn conv_ref_needs(b: FfcBlock, r: ConvRef) -> Seq<Need> {
    match r {
        ConvRef::Absent => Seq::empty(),
        ConvRef::Present { name, .. } => conv_needs(conv_name(b, name@)),
    }
}

/// What a block's spectral transform needs of the checkpoint.
pub open spec fn g2g_needs(b: FfcBlock) -> Seq<Need> {
    if b.g2g {
        spectral_needs(conv_name(b, "convg2g"@), b.out_global as nat)
    } else {
        Seq::empty()
    }
}

/// What a block's local BatchNorm needs of the checkpoint.
pub open spec fn bn_local_needs(b: FfcBlock) -> Seq<Need> {
    if b.bn_local {
        norm_needs(block_name(b.index as nat, b.sub as nat) + ".bn_l"@, b.out_local as nat)
    } else {
        Seq::empty()
    }
}

/// What a block's global BatchNorm needs of the checkpoint.
pub open spec fn bn_global_needs(b: FfcBlock) -> Seq<Need> {
    if b.bn_global {
        norm_needs(block_name(b.index as nat, b.sub as nat) + ".bn_g"@, b.out_global as nat)
    } else {
        Seq::empty()
    }
}

/// What a block needs of the checkpoint, in the order in which it is asked for.
pub open spec fn ffc_needs(b: FfcBlock) -> Seq<Need> {
    conv_ref_needs(b, b.l2l) + conv_ref_needs(b, b.l2g) + conv_ref_needs(b, b.g2l) + g2g_needs(b)
        + bn_local_needs(b) + bn_global_needs(b)
}

/// The weight of an optional convolution has the extents of a convolution.
pub open spec fn conv_ref_shaped(store: WeightStore, b: FfcBlock, r: ConvRef) -> bool {
    r matches ConvRef::Present { name, .. } ==> conv_shaped(store, conv_name(b, name@))
}

/// The weights of a block have the extents of convolutions.
pub open spec fn ffc_shaped(store: WeightStore, b: FfcBlock) -> bool {
    &&& conv_ref_shaped(store, b, b.l2l)
    &&& conv_ref_shaped(store, b, b.l2g)
    &&& conv_ref_shaped(store, b, b.g2l)
    &&& b.g2g ==> spectral_shaped(store, conv_name(b, "convg2g"@))
}

/// `cv` is an optional convolution of a block.
pub open spec fn conv_ref_of<S: Scalar>(
    store: WeightStore,
    b: FfcBlock,
    r: ConvRef,
    cv: Option<Conv2dW<S>>,
) -> bool {
    match (r, cv) {
        (ConvRef::Absent, None) => true,
        (ConvRef::Present { name, .. }, Some(c)) => conv_of(store, conv_name(b, name@), c),
        _ => false,
    }
}

/// `bn` is a BatchNorm of a block, if it has one.
pub open spec fn bn_of<S: Scalar>(
    store: WeightStore,
    prefix: Seq<char>,
    present: bool,
    channels: int,
    bn: Option<Bn<S>>,
) -> bool {
    match bn {
        Some(n) => present && norm_of(store, prefix, n) && n.scale@.len() == channels
            && n.shift@.len() == channels,
        None => !present,
    }
}

/// `w` is a block with the parameters of the checkpoint.
pub open spec fn ffc_from<S: Scalar>(store: WeightStore, b: FfcBlock, w: FfcWeights<S>) -> bool {
    &&& w.kernel == b.kernel
    &&& w.stride == b.stride
    &&& w.pad == b.pad
    &&& w.reflect == b.reflection
    &&& w.in_local == b.in_local
    &&& w.in_global == b.in_global
    &&& w.out_local == b.out_local
    &&& w.out_global == b.out_global
    &&& conv_ref_of(store, b, b.l2l, w.l2l)
    &&& conv_ref_of(store, b, b.l2g, w.l2g)
    &&& conv_ref_of(store, b, b.g2l, w.g2l)
    &&& match w.spectral {
        Some(sp) => b.g2g && sp.stride == b.stride && spectral_from(
            store,
            conv_name(b, "convg2g"@),
            b.out_global as int,
            sp,
        ),
        None => !b.g2g,
    }
    &&& bn_of(
        store,
        block_name(b.index as nat, b.sub as nat) + ".bn_l"@,
        b.bn_local,
        b.out_local as int,
        w.bn_l,
    )
    &&& bn_of(
        store,
        block_name(b.index as nat, b.sub as nat) + ".bn_g"@,
        b.bn_global,
        b.out_global as int,
        w.bn_g,
    )
}

fn load_conv<S: Scalar>(store: &WeightStore, prefix: &String, r: &ConvRef, Ghost(b): Ghost<FfcBlock>) -> (res: Result<
    Option<Conv2dW<S>>,
    String,
>)
    requires
        store.wf(),
        prefix@ == ffc_name(b.index as nat, b.sub as nat) + "."@,
        conv_ref_shaped(*store, b, *r),
    ensures
        match first_unmet(*store, conv_ref_needs(b, *r)) {
            Some(text) => res matches Err(e) && e@ == text,
            None => res matches Ok(cv) && conv_ref_of(*store, b, *r, cv),
        },
{
    match r {
        ConvRef::Absent => Ok(None),
        ConvRef::Present { name, .. } => {
            match Conv2dW::load(store, joined(prefix.as_str(), name).as_str()) {
                Ok(c) => Ok(Some(c)),
                Err(e) => Err(e),
            }
        },
    }
}

fn load_bn<S: Scalar>(store: &WeightStore, name: &String, present: bool, channels: usize) -> (res: Result<
    Option<Bn<S>>,
    String,
>)
    requires
        store.wf(),
    ensures
        match first_unmet(
            *store,
            if present {
                norm_needs(name@, channels as nat)
            } else {
                Seq::empty()
            },
        ) {
            Some(text) => res matches Err(e) && e@ == text,
            None => res matches Ok(bn) && bn_of(*store, name@, present, channels as int, bn),
        },
{
    if present {
        match Bn::load(store, name.as_str(), channels) {
            Ok(b) => Ok(Some(b)),
            Err(e) => Err(e),
        }
    } else {
        Ok(None)
    }
}

/// Resolve the parameters of a block.
pub fn load_ffc<S: Scalar>(store: &WeightStore, b: &FfcBlock) -> (res: Result<FfcWeights<S>, String>)
    requires
        store.wf(),
        ffc_shaped(*store, *b),
    ensures
        match first_unmet(*store, ffc_needs(*b)) {
            Some(text) => res matches Err(e) && e@ == text,
            None => res matches Ok(w) && ffc_from(*store, *b, w),
        },
{
    proof {
        let n1 = conv_ref_needs(*b, b.l2l);
        let n2 = conv_ref_needs(*b, b.l2g);
        let n3 = conv_ref_needs(*b, b.g2l);
        let n4 = g2g_needs(*b);
        let n5 = bn_local_needs(*b);
        let n6 = bn_global_needs(*b);
        lemma_needs_in_turn(*store, n1, n2);
        lemma_needs_in_turn(*store, n1 + n2, n3);
        lemma_needs_in_turn(*store, n1 + n2 + n3, n4);
        lemma_needs_in_turn(*store, n1 + n2 + n3 + n4, n5);
        lemma_needs_in_turn(*store, n1 + n2 + n3 + n4 + n5, n6);
    }
    let partial: String = block(b);
    let prefix: String = joined(partial.as_str(), ".ffc.");
    proof {
        reveal_strlit(".ffc.");
        reveal_strlit(".ffc");
        reveal_strlit(".");
        assert(prefix@ =~= ffc_name(b.index as nat, b.sub as nat) + "."@);
    }
    let l2l: Option<Conv2dW<S>> = match load_conv(store, &prefix, &b.l2l, Ghost(*b)) {
        Ok(v) => v,
        Err(e) => {
            return Err(e);
        },
    };
    let l2g: Option<Conv2dW<S>> = match load_conv(store, &prefix, &b.l2g, Ghost(*b)) {
        Ok(v) => v,
        Err(e) => {
            return Err(e);
        },
    };
    let g2l: Option<Conv2dW<S>> = match load_conv(store, &prefix, &b.g2l, Ghost(*b)) {
        Ok(v) => v,
        Err(e) => {
            return Err(e);
        },
    };
    let spectral: Option<Spectral<S>> = if b.g2g {
        match Spectral::load(
            store,
            joined(prefix.as_str(), "convg2g").as_str(),
            b.out_global,
            b.stride,
            b.index,
            b.sub,
        ) {
            Ok(v) => Some(v),
            Err(e) => {
                return Err(e);
            },
        }
    } else {
        None
    };
    let bn_l: Option<Bn<S>> = match load_bn(
        store,
        &joined(partial.as_str(), ".bn_l"),
        b.bn_local,
        b.out_local,
    ) {
        Ok(v) => v,
        Err(e) => {
            return Err(e);
        },
    };
    let bn_g: Option<Bn<S>> = match load_bn(
        store,
        &joined(partial.as_str(), ".bn_g"),
        b.bn_global,
        b.out_global,
    ) {
        Ok(v) => v,
        Err(e) => {
            return Err(e);
        },
    };
    Ok(
        FfcWeights {
            kernel: b.kernel,
            stride: b.stride,
            pad: b.pad,
            reflect: b.reflection,
            in_local: b.in_local,
            in_global: b.in_global,
            out_local: b.out_local,
            out_global: b.out_global,
            l2l,
            l2g,
            g2l,
            spectral,
            bn_l,
            bn_g,
        },
    )
}

/// The shape of a batch of planes.
pub struct Shape {
    pub c: int,
    pub h: int,
    pub w: int,
}

/// The shape of planes.
pub open spec fn shape_of<S>(p: Planes<S>) -> Shape {
    Shape { c: p.c, h: p.h, w: p.w }
}

/// The shape of planes, if there are any.
pub open spec fn shape_of_opt<S>(p: Option<Planes<S>>) -> Option<Shape> {
    match p {
        Some(p) => Some(shape_of(p)),
        None => None,
    }
}

/// The planes hold what their shape promises, if there are any.
pub open spec fn wf_opt<S>(p: Option<Planes<S>>) -> bool {
    p matches Some(p) ==> p.wf()
}

impl<S: Scalar> FfcWeights<S> {
    /// The padding, stride and mirroring of the block's spatial convolutions.  A 1x1
    /// convolution has none of them.
    pub open spec fn manner(&self) -> (int, int, bool) {
        if self.kernel == 1 {
            (0, 1, false)
        } else {
            (self.pad as int, self.stride as int, self.reflect)
        }
    }

    /// `out` is the result of one of the block's convolutions.
    pub open spec fn conv_of(&self, cv: Conv2dW<S>, src: Planes<S>, out: Planes<S>) -> bool {
        let (pad, stride, mirror) = self.manner();
        convolved(cv, src, pad, stride, mirror, out)
    }

    /// Whether one of the block's convolutions can be applied to planes of this shape.
    pub open spec fn can_conv(&self, cv: Conv2dW<S>, s: Shape) -> bool {
        let (pad, stride, mirror) = self.manner();
        &&& cv.wf()
        &&& self.kernel == 1 ==> cv.kh == 1 && cv.kw == 1
        &&& can_convolve(cv, s.c, s.h, s.w, pad, stride, mirror)
    }

    /// The shape that one of the block's convolutions leads to.
    pub open spec fn conv_shape(&self, cv: Conv2dW<S>, s: Shape) -> Shape {
        let (pad, stride, _) = self.manner();
        Shape {
            c: cv.cout as int,
            h: conv_extent(s.h, cv.kh as int, stride, pad),
            w: conv_extent(s.w, cv.kw as int, stride, pad),
        }
    }

    /// Run one of the block's spatial convolutions.
    fn conv(&self, cv: &Conv2dW<S>, src: &Acts<S>) -> (out: Acts<S>)
        requires
            src.wf(),
            self.can_conv(*cv, shape_of(src@)),
        ensures
            out.wf(),
            self.conv_of(*cv, src@, out@),
            shape_of(out@) == self.conv_shape(*cv, shape_of(src@)),
    {
        if self.kernel == 1 {
            cv.forward_1x1(src)
        } else {
            cv.forward_pad(src, self.pad, self.stride, self.reflect)
        }
    }
}

/// `out` is the result of an optional convolution.
pub open spec fn conv_part<S: Scalar>(
    w: FfcWeights<S>,
    cv: Option<Conv2dW<S>>,
    src: Option<Planes<S>>,
    out: Option<Planes<S>>,
) -> bool {
    match (cv, out) {
        (None, None) => true,
        (Some(c), Some(o)) => src matches Some(s) && w.conv_of(c, s, o),
        _ => false,
    }
}

/// `out` is the result of an optional spectral transform.
pub open spec fn spectral_part<S: Scalar>(
    sp: Option<Spectral<S>>,
    src: Option<Planes<S>>,
    out: Option<Planes<S>>,
) -> bool {
    match (sp, out) {
        (None, None) => true,
        (Some(p), Some(o)) => src matches Some(s) && spectral_of(p, s, o),
        _ => false,
    }
}

/// `out` is the sum of what reaches a branch from the local and from the global side; with
/// nothing from either it has no channels and the extents of `like`.
pub open spec fn united<S: Scalar>(
    a: Option<Planes<S>>,
    b: Option<Planes<S>>,
    like: Planes<S>,
    out: Planes<S>,
) -> bool {
    match (a, b) {
        (None, None) => out == (Planes { c: 0, h: like.h, w: like.w, data: Seq::<S>::empty() }),
        (Some(a), None) => out == a,
        (None, Some(b)) => out == b,
        (Some(a), Some(b)) => if a.c == 0 {
            out == b
        } else {
            summed(a, b, out)
        },
    }
}

/// `out` is `a` normed and rectified, if there is a BatchNorm.
pub open spec fn finished<S: Scalar>(bn: Option<Bn<S>>, a: Planes<S>, out: Planes<S>) -> bool {
    match bn {
        Some(bn) => exists|n: Planes<S>| #[trigger] normed(bn, a, n) && rectified(n, out),
        None => out == a,
    }
}

/// `out` is the local output: `convl2l(local) + convg2l(global)`, normed and rectified.
pub open spec fn local_branch<S: Scalar>(
    w: FfcWeights<S>,
    local: Planes<S>,
    global: Option<Planes<S>>,
    out: Planes<S>,
) -> bool {
    exists|a: Option<Planes<S>>, b: Option<Planes<S>>, s: Planes<S>|
        #![trigger conv_part(w, w.l2l, Some(local), a), conv_part(w, w.g2l, global, b), united(a, b, local, s)]
        {
            &&& conv_part(w, w.l2l, Some(local), a)
            &&& conv_part(w, w.g2l, global, b)
            &&& united(a, b, local, s)
            &&& finished(w.bn_l, s, out)
        }
}

/// `out` is the global output: `convl2g(local) + convg2g(global)`, normed and rectified.
pub open spec fn global_branch<S: Scalar>(
    w: FfcWeights<S>,
    local: Planes<S>,
    global: Option<Planes<S>>,
    out: Planes<S>,
) -> bool {
    exists|a: Option<Planes<S>>, b: Option<Planes<S>>, s: Planes<S>|
        #![trigger conv_part(w, w.l2g, Some(local), a), spectral_part(w.spectral, global, b), united(a, b, local, s)]
        {
            &&& conv_part(w, w.l2g, Some(local), a)
            &&& spectral_part(w.spectral, global, b)
            &&& united(a, b, local, s)
            &&& finished(w.bn_g, s, out)
        }
}

/// Planes without channels that still carry the geometry.
pub open spec fn hollow<S>(h: int, w: int) -> Planes<S> {
    Planes { c: 0, h, w, data: Seq::empty() }
}

/// `out` is what a block makes of its two branches.
pub open spec fn ffc_of<S: Scalar>(
    w: FfcWeights<S>,
    local: Planes<S>,
    global: Option<Planes<S>>,
    out_local: Planes<S>,
    out_global: Option<Planes<S>>,
) -> bool {
    &&& match out_global {
        Some(g) => w.out_global > 0 && global_branch(w, local, global, g),
        None => w.out_global == 0,
    }
    &&& if w.out_local > 0 {
        local_branch(w, local, global, out_local)
    } else {
        out_local == match out_global {
            Some(g) => hollow::<S>(g.h, g.w),
            None => hollow::<S>(local.h, local.w),
        }
    }
}

/// Whether a convolution can be applied to what it would be given.
pub open spec fn can_conv_part<S: Scalar>(
    w: FfcWeights<S>,
    cv: Option<Conv2dW<S>>,
    src: Option<Shape>,
) -> bool {
    cv matches Some(c) ==> (src matches Some(s) && w.can_conv(c, s))
}

/// The shape of what an optional convolution leads to.
pub open spec fn conv_part_shape<S: Scalar>(
    w: FfcWeights<S>,
    cv: Option<Conv2dW<S>>,
    src: Option<Shape>,
) -> Option<Shape> {
    match (cv, src) {
        (Some(c), Some(s)) => Some(w.conv_shape(c, s)),
        _ => None,
    }
}

/// The shape of what an optional spectral transform leads to.
pub open spec fn spectral_part_shape<S: Scalar>(
    sp: Option<Spectral<S>>,
    src: Option<Shape>,
) -> Option<Shape> {
    match (sp, src) {
        (Some(p), Some(s)) => Some(
            Shape {
                c: p.conv2.cout as int,
                h: reduced_extent(p.stride as int, s.h),
                w: reduced_extent(p.stride as int, s.w),
            },
        ),
        _ => None,
    }
}

/// The shape of the sum of two optional parts.
pub open spec fn united_shape(a: Option<Shape>, b: Option<Shape>, like: Shape) -> Shape {
    match (a, b) {
        (None, None) => Shape { c: 0, ..like },
        (Some(a), None) => a,
        (None, Some(b)) => b,
        (Some(a), Some(b)) => if a.c == 0 {
            b
        } else {
            a
        },
    }
}

/// Whether two optional parts can be added.
pub open spec fn can_unite(a: Option<Shape>, b: Option<Shape>) -> bool {
    match (a, b) {
        (Some(a), Some(b)) => a.c == 0 || a == b,
        _ => true,
    }
}

/// Whether a BatchNorm, if there is one, covers the channels.
pub open spec fn can_finish<S: Scalar>(bn: Option<Bn<S>>, s: Shape) -> bool {
    bn matches Some(bn) ==> bn.covers(s.c)
}

/// The shape of the local output.
pub open spec fn local_shape<S: Scalar>(w: FfcWeights<S>, l: Shape, g: Option<Shape>) -> Shape {
    united_shape(conv_part_shape(w, w.l2l, Some(l)), conv_part_shape(w, w.g2l, g), l)
}

/// The shape of the global output.
pub open spec fn global_shape<S: Scalar>(w: FfcWeights<S>, l: Shape, g: Option<Shape>) -> Shape {
    united_shape(conv_part_shape(w, w.l2g, Some(l)), spectral_part_shape(w.spectral, g), l)
}

/// The shapes of a block's outputs.
pub open spec fn ffc_shapes<S: Scalar>(w: FfcWeights<S>, l: Shape, g: Option<Shape>) -> (
    Shape,
    Option<Shape>,
) {
    let og = if w.out_global > 0 {
        Some(global_shape(w, l, g))
    } else {
        None
    };
    let ol = if w.out_local > 0 {
        local_shape(w, l, g)
    } else {
        match og {
            Some(s) => Shape { c: 0, ..s },
            None => Shape { c: 0, ..l },
        }
    };
    (ol, og)
}

/// Whether the local output can be computed.
pub open spec fn can_local<S: Scalar>(w: FfcWeights<S>, l: Shape, g: Option<Shape>) -> bool {
    &&& can_conv_part(w, w.l2l, Some(l))
    &&& can_conv_part(w, w.g2l, g)
    &&& can_unite(conv_part_shape(w, w.l2l, Some(l)), conv_part_shape(w, w.g2l, g))
    &&& can_finish(w.bn_l, local_shape(w, l, g))
}

/// Whether the global output can be computed.
pub open spec fn can_global<S: Scalar>(w: FfcWeights<S>, l: Shape, g: Option<Shape>) -> bool {
    &&& can_conv_part(w, w.l2g, Some(l))
    &&& w.spectral matches Some(p) ==> (g matches Some(s) && can_spectral(p, s.c, s.h, s.w))
    &&& can_unite(conv_part_shape(w, w.l2g, Some(l)), spectral_part_shape(w.spectral, g))
    &&& can_finish(w.bn_g, global_shape(w, l, g))
}

/// Whether a block can be applied to branches of these shapes.
pub open spec fn can_ffc<S: Scalar>(w: FfcWeights<S>, l: Shape, g: Option<Shape>) -> bool {
    &&& w.out_local > 0 ==> can_local(w, l, g)
    &&& w.out_global > 0 ==> can_global(w, l, g)
}

/// What planes hold, if there are any.
pub open spec fn view_opt<S: Scalar>(a: Option<Acts<S>>) -> Option<Planes<S>> {
    match a {
        Some(a) => Some(a@),
        None => None,
    }
}

/// What planes hold, if there are any.
pub open spec fn view_ref<S: Scalar>(a: Option<&Acts<S>>) -> Option<Planes<S>> {
    match a {
        Some(a) => Some(a@),
        None => None,
    }
}

/// Add up what reaches a branch.
fn unite<S: Scalar>(a: Option<Acts<S>>, b: Option<Acts<S>>, like: &Acts<S>) -> (out: Acts<S>)
    requires
        wf_opt(view_opt(a)),
        wf_opt(view_opt(b)),
        can_unite(shape_of_opt(view_opt(a)), shape_of_opt(view_opt(b))),
    ensures
        out.wf(),
        united(view_opt(a), view_opt(b), like@, out@),
        shape_of(out@) == united_shape(
            shape_of_opt(view_opt(a)),
            shape_of_opt(view_opt(b)),
            shape_of(like@),
        ),
{
    match (a, b) {
        (None, None) => {
            let out = Acts { c: 0, h: like.h, w: like.w, data: Vec::new() };
            proof {
                assert(0 * like.h * like.w == 0) by (nonlinear_arith);
                assert(out@.data =~= Seq::<S>::empty());
            }
            out
        },
        (Some(x), None) => x,
        (None, Some(y)) => y,
        (Some(x), Some(y)) => {
            if x.c == 0 {
                y
            } else {
                let mut out: Acts<S> = x;
                add_inplace(&mut out, &y);
                out
            }
        },
    }
}

/// Norm and rectify, if there is a BatchNorm.
fn finish<S: Scalar>(bn: &Option<Bn<S>>, a: Acts<S>) -> (out: Acts<S>)
    requires
        a.wf(),
        can_finish(*bn, shape_of(a@)),
    ensures
        out.wf(),
        finished(*bn, a@, out@),
        shape_of(out@) == shape_of(a@),
{
    let mut out: Acts<S> = a;
    match bn {
        Some(n) => {
            n.apply(&mut out);
            let ghost mid = out@;
            relu_inplace(&mut out);
            assert(normed(*n, a@, mid) && rectified(mid, out@));
        },
        None => {},
    }
    out
}

impl<S: Scalar> FfcWeights<S> {
    fn conv_if(&self, cv: &Option<Conv2dW<S>>, src: Option<&Acts<S>>) -> (out: Option<Acts<S>>)
        requires
            wf_opt(view_ref(src)),
            can_conv_part(*self, *cv, shape_of_opt(view_ref(src))),
        ensures
            wf_opt(view_opt(out)),
            conv_part(*self, *cv, view_ref(src), view_opt(out)),
            shape_of_opt(view_opt(out)) == conv_part_shape(
                *self,
                *cv,
                shape_of_opt(view_ref(src)),
            ),
    {
        match cv {
            None => None,
            Some(c) => match src {
                Some(s) => Some(self.conv(c, s)),
                None => None,
            },
        }
    }

    fn run_local(&self, local: &Acts<S>, global: Option<&Acts<S>>) -> (out: Acts<S>)
        requires
            local.wf(),
            wf_opt(view_ref(global)),
            can_local(*self, shape_of(local@), shape_of_opt(view_ref(global))),
        ensures
            out.wf(),
            local_branch(*self, local@, view_ref(global), out@),
            shape_of(out@) == local_shape(
                *self,
                shape_of(local@),
                shape_of_opt(view_ref(global)),
            ),
    {
        let a: Option<Acts<S>> = self.conv_if(&self.l2l, Some(local));
        let b: Option<Acts<S>> = self.conv_if(&self.g2l, global);
        let ghost pa = view_opt(a);
        let ghost pb = view_opt(b);
        let s: Acts<S> = unite(a, b, local);
        let ghost ps = s@;
        let out: Acts<S> = finish(&self.bn_l, s);
        proof {
            assert(conv_part(*self, self.l2l, Some(local@), pa));
            assert(conv_part(*self, self.g2l, view_ref(global), pb));
            assert(united(pa, pb, local@, ps));
        }
        out
    }

    fn run_global(&self, local: &Acts<S>, global: Option<&Acts<S>>) -> (out: Acts<S>)
        requires
            local.wf(),
            wf_opt(view_ref(global)),
            can_global(*self, shape_of(local@), shape_of_opt(view_ref(global))),
        ensures
            out.wf(),
            global_branch(*self, local@, view_ref(global), out@),
            shape_of(out@) == global_shape(
                *self,
                shape_of(local@),
                shape_of_opt(view_ref(global)),
            ),
    {
        let a: Option<Acts<S>> = self.conv_if(&self.l2g, Some(local));
        let b: Option<Acts<S>> = match &self.spectral {
            None => None,
            Some(p) => match global {
                Some(g) => Some(p.forward(g)),
                None => None,
            },
        };
        let ghost pa = view_opt(a);
        let ghost pb = view_opt(b);
        let s: Acts<S> = unite(a, b, local);
        let ghost ps = s@;
        let out: Acts<S> = finish(&self.bn_g, s);
        proof {
            assert(conv_part(*self, self.l2g, Some(local@), pa));
            assert(spectral_part(self.spectral, view_ref(global), pb));
            assert(united(pa, pb, local@, ps));
        }
        out
    }
}

/// Run a block: the local output is `convl2l(x_l) + convg2l(x_g)`, the global output is
/// `convl2g(x_l) + convg2g(x_g)`, each followed by BatchNorm and ReLU.
pub fn run_ffc<S: Scalar>(w: &FfcWeights<S>, local: &Acts<S>, global: Option<&Acts<S>>) -> (out: (
    Acts<S>,
    Option<Acts<S>>,
))
    requires
        local.wf(),
        wf_opt(view_ref(global)),
        can_ffc(*w, shape_of(local@), shape_of_opt(view_ref(global))),
    ensures
        out.0.wf(),
        wf_opt(view_opt(out.1)),
        ffc_of(*w, local@, view_ref(global), out.0@, view_opt(out.1)),
        (shape_of(out.0@), shape_of_opt(view_opt(out.1))) == ffc_shapes(
            *w,
            shape_of(local@),
            shape_of_opt(view_ref(global)),
        ),
{
    let out_global: Option<Acts<S>> = if w.out_global > 0 {
        Some(w.run_global(local, global))
    } else {
        None
    };
    let out_local: Acts<S> = if w.out_local > 0 {
        w.run_local(local, global)
    } else {
        let (h, wd): (usize, usize) = match &out_global {
            Some(g) => (g.h, g.w),
            None => (local.h, local.w),
        };
        let hollow_out = Acts { c: 0, h, w: wd, data: Vec::new() };
        proof {
            assert(0 * h * wd == 0) by (nonlinear_arith);
            assert(hollow_out@.data =~= Seq::<S>::empty());
        }
        hollow_out
    };
    (out_local, out_global)
}

} // verus!
