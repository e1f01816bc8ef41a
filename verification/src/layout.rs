//! Where the parts of the big-lama network lie in its checkpoint, name by name.
//!
//! The names of the tensors are those of the generator's `state_dict`.  What is said here of
//! a loaded network speaks of them as they are written there.

use vstd::prelude::*;

use crate::acts::{mirrored, rectified, summed, Planes};
use crate::conv::{conv_needs, conv_of, convolved, law_mirroring_comes_first, Conv2dW};
use crate::convt::{convt_needs, convt_of};
use crate::ffc::{bn_global_needs, bn_local_needs, conv_name, conv_part, conv_ref_needs, ffc_from, ffc_needs, ffc_of, finished, g2g_needs, global_branch, local_branch, spectral_part, united, FfcWeights};
use crate::gpu_pass::{DFfc, DStep};
use crate::gpu_steps::{dbn_of, dconv_of, dconvt_of, dffc_of, dstep_of, Loader};
use crate::model::{ffc_block, is_big_lama, is_resblock, pads_by, FfcBlock, Step};
use crate::names::{block_name, law_block_names, lemma_modules_apart, module_name};
use crate::needs::Need;
use crate::net::{net_from, plan_needs, step_from, step_needs, Net, NetStep};
use crate::norm::{norm_needs, norm_of, normed, Bn};
use crate::scalar::Scalar;
use crate::spectral::{spectral_needs, spectral_of};
use crate::text::decimal;
use crate::weights::WeightStore;

verus! {

/// A name of the checkpoint: the number of a module, and what follows it.
pub open spec fn named(i: nat, rest: Seq<char>) -> Seq<char> {
    "model."@ + decimal(i) + rest
}

/// The parts that a block has come from the tensors under `prefix`.
pub open spec fn block_reads<S: Scalar>(store: WeightStore, prefix: Seq<char>, w: FfcWeights<S>) -> bool {
    &&& w.l2l matches Some(cv) ==> conv_of(store, prefix + ".ffc.convl2l"@, cv)
    &&& w.l2g matches Some(cv) ==> conv_of(store, prefix + ".ffc.convl2g"@, cv)
    &&& w.g2l matches Some(cv) ==> conv_of(store, prefix + ".ffc.convg2l"@, cv)
    &&& w.spectral matches Some(sp) ==> {
        &&& conv_of(store, prefix + ".ffc.convg2g.conv1.0"@, sp.conv1)
        &&& norm_of(store, prefix + ".ffc.convg2g.conv1.1"@, sp.bn1)
        &&& conv_of(store, prefix + ".ffc.convg2g.fu.conv_layer"@, sp.fu.conv)
        &&& norm_of(store, prefix + ".ffc.convg2g.fu.bn"@, sp.fu.bn)
        &&& conv_of(store, prefix + ".ffc.convg2g.conv2"@, sp.conv2)
    }
    &&& w.bn_l matches Some(bn) ==> norm_of(store, prefix + ".bn_l"@, bn)
    &&& w.bn_g matches Some(bn) ==> norm_of(store, prefix + ".bn_g"@, bn)
}

/// A block has all its parts.
pub open spec fn is_whole<S>(w: FfcWeights<S>) -> bool {
    w.l2l is Some && w.l2g is Some && w.g2l is Some && w.spectral is Some && w.bn_l is Some
        && w.bn_g is Some
}

/// A block has no part that reads or makes global planes.
pub open spec fn is_local<S>(w: FfcWeights<S>) -> bool {
    w.l2l is Some && w.l2g is None && w.g2l is None && w.spectral is None && w.bn_l is Some
        && w.bn_g is None
}

/// The channels of a block, local and global, and how its spatial convolutions go.
pub open spec fn is_made_for<S>(
    w: FfcWeights<S>,
    from: (int, int),
    to: (int, int),
    kernel: int,
    stride: int,
    pad: int,
) -> bool {
    &&& w.in_local == from.0 && w.in_global == from.1
    &&& w.out_local == to.0 && w.out_global == to.1
    &&& w.kernel == kernel && w.stride == stride && w.pad == pad && w.reflect
}

/// A step of the network has the parts of the big-lama generator, each from its own
/// tensors.
pub open spec fn step_reads<S: Scalar>(store: WeightStore, i: int, n: NetStep<S>) -> bool {
    let none = Seq::<char>::empty();
    match n {
        NetStep::ReflectPad(p) => (i == 0 || i == 27) && p == 3,
        NetStep::Ffc(w) => {
            &&& 1 <= i <= 4
            &&& block_reads(store, named(i as nat, none), w)
            &&& i == 1 ==> is_local(w) && is_made_for(w, (4, 0), (64, 0), 7, 1, 0)
            &&& i == 2 ==> is_local(w) && is_made_for(w, (64, 0), (128, 0), 3, 2, 1)
            &&& i == 3 ==> is_local(w) && is_made_for(w, (128, 0), (256, 0), 3, 2, 1)
            &&& i == 4 ==> {
                &&& is_made_for(w, (256, 0), (128, 384), 3, 2, 1)
                &&& w.l2l is Some && w.l2g is Some && w.bn_l is Some && w.bn_g is Some
                &&& w.g2l is None && w.spectral is None
            }
        },
        NetStep::Res(a, b) => {
            &&& 5 <= i <= 22
            &&& is_whole(a) && block_reads(store, named(i as nat, ".conv1"@), a)
            &&& is_whole(b) && block_reads(store, named(i as nat, ".conv2"@), b)
            &&& is_made_for(a, (128, 384), (128, 384), 3, 1, 1)
            &&& is_made_for(b, (128, 384), (128, 384), 3, 1, 1)
            &&& a.spectral->Some_0.stride == 1 && a.spectral->Some_0.half == 192
            &&& b.spectral->Some_0.stride == 1 && b.spectral->Some_0.half == 192
        },
        NetStep::Concat => i == 23,
        NetStep::Upsample(ct, bn) => {
            let k = (24 + 3 * (i - 24)) as nat;
            &&& 24 <= i <= 26
            &&& convt_of(store, named(k, none), ct)
            &&& norm_of(store, named(k + 1, none), bn)
        },
        NetStep::OutConv(cv) => i == 28 && conv_of(store, named(34, none), cv),
    }
}

proof fn lemma_prefix(i: nat)
    ensures
        named(i, Seq::<char>::empty()) == block_name(i, 0),
        named(i, Seq::<char>::empty()) == module_name(i),
        named(i, ".conv1"@) == block_name(i, 1),
        named(i, ".conv2"@) == block_name(i, 2),
{
    law_block_names(i, 0, i, 0);
    assert(named(i, Seq::<char>::empty()) =~= "model."@ + decimal(i));
}

/// The names of a block's parts, written out.
proof fn lemma_parts(b: FfcBlock, prefix: Seq<char>)
    requires
        prefix == block_name(b.index as nat, b.sub as nat),
    ensures
        conv_name(b, "convl2l"@) == prefix + ".ffc.convl2l"@,
        conv_name(b, "convl2g"@) == prefix + ".ffc.convl2g"@,
        conv_name(b, "convg2l"@) == prefix + ".ffc.convg2l"@,
        conv_name(b, "convg2g"@) + ".conv1.0"@ == prefix + ".ffc.convg2g.conv1.0"@,
        conv_name(b, "convg2g"@) + ".conv1.1"@ == prefix + ".ffc.convg2g.conv1.1"@,
        conv_name(b, "convg2g"@) + ".fu.conv_layer"@ == prefix + ".ffc.convg2g.fu.conv_layer"@,
        conv_name(b, "convg2g"@) + ".fu.bn"@ == prefix + ".ffc.convg2g.fu.bn"@,
        conv_name(b, "convg2g"@) + ".conv2"@ == prefix + ".ffc.convg2g.conv2"@,
{
    reveal_strlit(".ffc");
    reveal_strlit(".");
    assert(conv_name(b, "convl2l"@) =~= prefix + ".ffc.convl2l"@) by {
        reveal_strlit("convl2l");
        reveal_strlit(".ffc.convl2l");
    }
    assert(conv_name(b, "convl2g"@) =~= prefix + ".ffc.convl2g"@) by {
        reveal_strlit("convl2g");
        reveal_strlit(".ffc.convl2g");
    }
    assert(conv_name(b, "convg2l"@) =~= prefix + ".ffc.convg2l"@) by {
        reveal_strlit("convg2l");
        reveal_strlit(".ffc.convg2l");
    }
    assert(conv_name(b, "convg2g"@) + ".conv1.0"@ =~= prefix + ".ffc.convg2g.conv1.0"@) by {
        reveal_strlit("convg2g");
        reveal_strlit(".conv1.0");
        reveal_strlit(".ffc.convg2g.conv1.0");
    }
    assert(conv_name(b, "convg2g"@) + ".conv1.1"@ =~= prefix + ".ffc.convg2g.conv1.1"@) by {
        reveal_strlit("convg2g");
        reveal_strlit(".conv1.1");
        reveal_strlit(".ffc.convg2g.conv1.1");
    }
    assert(conv_name(b, "convg2g"@) + ".fu.conv_layer"@ =~= prefix + ".ffc.convg2g.fu.conv_layer"@) by {
        reveal_strlit("convg2g");
        reveal_strlit(".fu.conv_layer");
        reveal_strlit(".ffc.convg2g.fu.conv_layer");
    }
    assert(conv_name(b, "convg2g"@) + ".fu.bn"@ =~= prefix + ".ffc.convg2g.fu.bn"@) by {
        reveal_strlit("convg2g");
        reveal_strlit(".fu.bn");
        reveal_strlit(".ffc.convg2g.fu.bn");
    }
    assert(conv_name(b, "convg2g"@) + ".conv2"@ =~= prefix + ".ffc.convg2g.conv2"@) by {
        reveal_strlit("convg2g");
        reveal_strlit(".conv2");
        reveal_strlit(".ffc.convg2g.conv2");
    }
}

proof fn lemma_block_reads<S: Scalar>(
    store: WeightStore,
    b: FfcBlock,
    index: int,
    sub: int,
    cin: int,
    cout: int,
    kernel: int,
    stride: int,
    gin: int,
    gout: int,
    pad: int,
    w: FfcWeights<S>,
)
    requires
        ffc_block(b, index, sub, cin, cout, kernel, stride, gin, gout),
        pads_by(b, pad),
        ffc_from(store, b, w),
    ensures
        block_reads(store, block_name(b.index as nat, b.sub as nat), w),
        is_made_for(
            w,
            (b.in_local as int, b.in_global as int),
            (b.out_local as int, b.out_global as int),
            kernel,
            stride,
            pad,
        ),
        w.l2l is Some == (b.in_local != 0 && b.out_local != 0),
        w.l2g is Some == (b.in_local != 0 && b.out_global != 0),
        w.g2l is Some == (b.in_global != 0 && b.out_local != 0),
        w.spectral is Some == (b.in_global != 0 && b.out_global != 0),
        w.bn_l is Some == (b.out_local != 0),
        w.bn_g is Some == (b.out_global != 0),
        w.spectral matches Some(sp) ==> sp.stride == stride && sp.half == b.out_global / 2,
{
    lemma_parts(b, block_name(b.index as nat, b.sub as nat));
}

/// A network loaded from a big-lama checkpoint has the parts of the generator: every one of
/// them comes from the tensors of its own name, the two blocks of a residual block from
/// those of `conv1` and of `conv2`, and every spatial convolution mirrors what it pads, the
/// strided ones too.
pub proof fn law_network_reads_its_tensors<S: Scalar>(
    store: WeightStore,
    steps: Seq<Step>,
    net: Net<S>,
    i: int,
)
    requires
        is_big_lama(steps),
        net_from(store, steps, net),
        0 <= i < 29,
    ensures
        net.steps@.len() == 29,
        step_reads(store, i, net.steps@[i]),
{
    lemma_prefix(i as nat);
    assert(step_from(store, steps[i], net.steps@[i]));
    if 1 <= i <= 4 {
        if let (Step::Ffc(b), NetStep::Ffc(w)) = (steps[i], net.steps@[i]) {
            lemma_block_reads(
                store,
                b,
                i,
                0,
                b.cin as int,
                b.cout as int,
                b.kernel as int,
                b.stride as int,
                0,
                if i == 4 {
                    3
                } else {
                    0
                },
                b.pad as int,
                w,
            );
        }
    } else if 5 <= i <= 22 {
        assert(is_resblock(steps[i], i));
        if let (Step::ResBlock(r), NetStep::Res(x, y)) = (steps[i], net.steps@[i]) {
            lemma_block_reads(store, r.conv1, i, 1, 512, 512, 3, 1, 3, 3, 1, x);
            lemma_block_reads(store, r.conv2, i, 2, 512, 512, 3, 1, 3, 3, 1, y);
        }
    } else if 24 <= i <= 26 {
        let k = (24 + 3 * (i - 24)) as nat;
        lemma_prefix(k);
        lemma_prefix(k + 1);
    } else {
        lemma_prefix(34);
    }
}

/// A block is one of those of a step.
pub open spec fn is_block_of<S>(n: NetStep<S>, w: FfcWeights<S>) -> bool {
    match n {
        NetStep::Ffc(a) => w == a,
        NetStep::Res(a, b) => w == a || w == b,
        _ => false,
    }
}

/// In a network loaded from a big-lama checkpoint, every spatial convolution of a block is
/// the valid convolution, with its stride, of planes mirrored beforehand: by nothing in
/// `model.1`, by one pixel everywhere else, where it goes in steps of two in `model.2` to
/// `model.4` and in steps of one in the residual blocks.
pub proof fn law_network_mirrors_what_it_pads<S: Scalar>(
    store: WeightStore,
    steps: Seq<Step>,
    net: Net<S>,
    i: int,
    w: FfcWeights<S>,
    cv: Conv2dW<S>,
    src: Planes<S>,
    m: Planes<S>,
    out: Planes<S>,
)
    requires
        is_big_lama(steps),
        net_from(store, steps, net),
        1 <= i <= 22,
        is_block_of(net.steps@[i], w),
        mirrored(
            src,
            if i == 1 {
                0
            } else {
                1
            },
            m,
        ),
        cv.cin <= src.c,
        1 <= src.h,
        1 <= src.w,
        cv.kh <= m.h,
        cv.kw <= m.w,
    ensures
        w.conv_of(cv, src, out) == convolved(
            cv,
            m,
            0,
            if 2 <= i <= 4 {
                2
            } else {
                1
            },
            false,
            out,
        ),
{
    law_network_reads_its_tensors(store, steps, net, i);
    law_mirroring_comes_first(cv, src, w.pad as int, w.stride as int, m, out);
}

/// `out` is what a convolution, a BatchNorm and the rectifier make of planes, one after
/// another.
pub open spec fn in_turn<S: Scalar>(
    cv: Conv2dW<S>,
    bn: Bn<S>,
    m: Planes<S>,
    stride: int,
    out: Planes<S>,
) -> bool {
    exists|a: Planes<S>, b: Planes<S>|
        #![trigger convolved(cv, m, 0, stride, false, a), normed(bn, a, b)]
        convolved(cv, m, 0, stride, false, a) && normed(bn, a, b) && rectified(b, out)
}

/// `out` is the sum of two batches of planes, normed and rectified.
pub open spec fn added_up<S: Scalar>(a: Planes<S>, b: Planes<S>, bn: Bn<S>, out: Planes<S>) -> bool {
    exists|t: Planes<S>, n: Planes<S>|
        #![trigger summed(a, b, t), normed(bn, t, n)]
        summed(a, b, t) && normed(bn, t, n) && rectified(n, out)
}

/// The blocks of `model.1` to `model.4` take local planes alone: what they make, local and
/// global, is the convolution of the mirrored planes, in steps of two from `model.2` on,
/// normed and rectified.
pub proof fn law_downsampling_blocks<S: Scalar>(
    store: WeightStore,
    steps: Seq<Step>,
    net: Net<S>,
    i: int,
    w: FfcWeights<S>,
    local: Planes<S>,
    m: Planes<S>,
    out_local: Planes<S>,
    out_global: Option<Planes<S>>,
)
    requires
        is_big_lama(steps),
        net_from(store, steps, net),
        1 <= i <= 4,
        is_block_of(net.steps@[i], w),
        mirrored(
            local,
            if i == 1 {
                0
            } else {
                1
            },
            m,
        ),
        fits(w.l2l, m, local),
        fits(w.l2g, m, local),
        ffc_of(w, local, None, out_local, out_global),
    ensures
        in_turn(
            w.l2l->Some_0,
            w.bn_l->Some_0,
            m,
            if i == 1 {
                1
            } else {
                2
            },
            out_local,
        ),
        out_global is Some <==> i == 4,
        i == 4 ==> in_turn(w.l2g->Some_0, w.bn_g->Some_0, m, 2, out_global->Some_0),
{
    law_network_reads_its_tensors(store, steps, net, i);
    let stride: int = if i == 1 {
        1
    } else {
        2
    };
    assert(local_branch(w, local, None, out_local));
    let (a, b, s) = choose|a: Option<Planes<S>>, b: Option<Planes<S>>, s: Planes<S>|
        #![trigger conv_part(w, w.l2l, Some(local), a), conv_part(w, w.g2l, None, b), united(a, b, local, s)]
        {
            &&& conv_part(w, w.l2l, Some(local), a)
            &&& conv_part(w, w.g2l, None, b)
            &&& united(a, b, local, s)
            &&& finished(w.bn_l, s, out_local)
        };
    law_network_mirrors_what_it_pads(store, steps, net, i, w, w.l2l->Some_0, local, m, s);
    let n = choose|n: Planes<S>| #[trigger] normed(w.bn_l->Some_0, s, n) && rectified(n, out_local);
    assert(convolved(w.l2l->Some_0, m, 0, stride, false, s) && normed(w.bn_l->Some_0, s, n));
    if i == 4 {
        let g = out_global->Some_0;
        assert(global_branch(w, local, None, g));
        let (a, b, s) = choose|a: Option<Planes<S>>, b: Option<Planes<S>>, s: Planes<S>|
            #![trigger conv_part(w, w.l2g, Some(local), a), spectral_part(w.spectral, None, b), united(a, b, local, s)]
            {
                &&& conv_part(w, w.l2g, Some(local), a)
                &&& spectral_part(w.spectral, None, b)
                &&& united(a, b, local, s)
                &&& finished(w.bn_g, s, g)
            };
        law_network_mirrors_what_it_pads(store, steps, net, i, w, w.l2g->Some_0, local, m, s);
        let n = choose|n: Planes<S>| #[trigger] normed(w.bn_g->Some_0, s, n) && rectified(n, g);
        assert(convolved(w.l2g->Some_0, m, 0, stride, false, s) && normed(w.bn_g->Some_0, s, n));
    }
}

/// A convolution, if there is one, fits into the planes that it is given.
pub open spec fn fits<S: Scalar>(cv: Option<Conv2dW<S>>, m: Planes<S>, src: Planes<S>) -> bool {
    &&& 1 <= src.h && 1 <= src.w
    &&& cv matches Some(cv) ==> cv.cin <= src.c && cv.kh <= m.h && cv.kw <= m.w && cv.cout > 0
}

/// A block of a residual block: the local output is the convolution of the mirrored local
/// planes plus that of the mirrored global ones, the global output the convolution of the
/// mirrored local planes plus the spectral transform of the global ones, each normed and
/// rectified.
pub proof fn law_residual_halves<S: Scalar>(
    store: WeightStore,
    steps: Seq<Step>,
    net: Net<S>,
    i: int,
    w: FfcWeights<S>,
    local: Planes<S>,
    global: Planes<S>,
    ml: Planes<S>,
    mg: Planes<S>,
    out_local: Planes<S>,
    out_global: Option<Planes<S>>,
) -> (r: ((Planes<S>, Planes<S>), (Planes<S>, Planes<S>)))
    requires
        is_big_lama(steps),
        net_from(store, steps, net),
        5 <= i <= 22,
        is_block_of(net.steps@[i], w),
        mirrored(local, 1, ml),
        mirrored(global, 1, mg),
        fits(w.l2l, ml, local),
        fits(w.l2g, ml, local),
        fits(w.g2l, mg, global),
        ffc_of(w, local, Some(global), out_local, out_global),
    ensures
        convolved(w.l2l->Some_0, ml, 0, 1, false, r.0.0),
        convolved(w.g2l->Some_0, mg, 0, 1, false, r.0.1),
        added_up(r.0.0, r.0.1, w.bn_l->Some_0, out_local),
        out_global is Some,
        convolved(w.l2g->Some_0, ml, 0, 1, false, r.1.0),
        spectral_of(w.spectral->Some_0, global, r.1.1),
        added_up(r.1.0, r.1.1, w.bn_g->Some_0, out_global->Some_0),
{
    law_network_reads_its_tensors(store, steps, net, i);
    let src = Some(global);
    assert(local_branch(w, local, src, out_local));
    let (a, b, s) = choose|a: Option<Planes<S>>, b: Option<Planes<S>>, s: Planes<S>|
        #![trigger conv_part(w, w.l2l, Some(local), a), conv_part(w, w.g2l, src, b), united(a, b, local, s)]
        {
            &&& conv_part(w, w.l2l, Some(local), a)
            &&& conv_part(w, w.g2l, src, b)
            &&& united(a, b, local, s)
            &&& finished(w.bn_l, s, out_local)
        };
    law_network_mirrors_what_it_pads(store, steps, net, i, w, w.l2l->Some_0, local, ml, a->Some_0);
    law_network_mirrors_what_it_pads(store, steps, net, i, w, w.g2l->Some_0, global, mg, b->Some_0);
    let n = choose|n: Planes<S>| #[trigger] normed(w.bn_l->Some_0, s, n) && rectified(n, out_local);
    assert(summed(a->Some_0, b->Some_0, s) && normed(w.bn_l->Some_0, s, n));
    let g = out_global->Some_0;
    assert(global_branch(w, local, src, g));
    let (c, d, u) = choose|a: Option<Planes<S>>, b: Option<Planes<S>>, s: Planes<S>|
        #![trigger conv_part(w, w.l2g, Some(local), a), spectral_part(w.spectral, src, b), united(a, b, local, s)]
        {
            &&& conv_part(w, w.l2g, Some(local), a)
            &&& spectral_part(w.spectral, src, b)
            &&& united(a, b, local, s)
            &&& finished(w.bn_g, s, g)
        };
    law_network_mirrors_what_it_pads(store, steps, net, i, w, w.l2g->Some_0, local, ml, c->Some_0);
    let v = choose|n: Planes<S>| #[trigger] normed(w.bn_g->Some_0, u, n) && rectified(n, g);
    assert(summed(c->Some_0, d->Some_0, u) && normed(w.bn_g->Some_0, u, v));
    ((a->Some_0, b->Some_0), (c->Some_0, d->Some_0))
}

/// The parts that a block on the device has come from the tensors under `prefix`.
pub open spec fn device_block_reads<S: Scalar>(
    store: WeightStore,
    l: Loader<S>,
    prefix: Seq<char>,
    w: DFfc,
) -> bool {
    &&& w.l2l matches Some(cv) ==> dconv_of(store, l, prefix + ".ffc.convl2l"@, cv)
    &&& w.l2g matches Some(cv) ==> dconv_of(store, l, prefix + ".ffc.convl2g"@, cv)
    &&& w.g2l matches Some(cv) ==> dconv_of(store, l, prefix + ".ffc.convg2l"@, cv)
    &&& w.spectral matches Some(sp) ==> {
        &&& dconv_of(store, l, prefix + ".ffc.convg2g.conv1.0"@, sp.conv1)
        &&& dbn_of(l, prefix + ".ffc.convg2g.conv1.1"@, sp.half as int, sp.bn1)
        &&& dconv_of(store, l, prefix + ".ffc.convg2g.fu.conv_layer"@, sp.fu_conv)
        &&& dbn_of(l, prefix + ".ffc.convg2g.fu.bn"@, 2 * sp.half, sp.fu_bn)
        &&& dconv_of(store, l, prefix + ".ffc.convg2g.conv2"@, sp.conv2)
    }
    &&& w.bn_l matches Some(bn) ==> dbn_of(l, prefix + ".bn_l"@, w.out_local as int, bn)
    &&& w.bn_g matches Some(bn) ==> dbn_of(l, prefix + ".bn_g"@, w.out_global as int, bn)
}

/// A block on the device is that of the host: the same channels, kernel, stride, padding
/// and mirroring, and the same parts.
pub open spec fn is_like<S>(d: DFfc, w: FfcWeights<S>) -> bool {
    &&& d.kernel == w.kernel && d.stride == w.stride && d.pad == w.pad && d.reflect == w.reflect
    &&& d.in_local == w.in_local && d.in_global == w.in_global
    &&& d.out_local == w.out_local && d.out_global == w.out_global
    &&& d.l2l is Some == w.l2l is Some
    &&& d.l2g is Some == w.l2g is Some
    &&& d.g2l is Some == w.g2l is Some
    &&& d.bn_l is Some == w.bn_l is Some
    &&& d.bn_g is Some == w.bn_g is Some
    &&& match (d.spectral, w.spectral) {
        (Some(a), Some(b)) => a.stride == b.stride && a.half == b.half,
        (None, None) => true,
        _ => false,
    }
}

/// A step on the device is that of the host, with its parameters from the same tensors.
pub open spec fn step_is_like<S: Scalar>(
    store: WeightStore,
    l: Loader<S>,
    i: int,
    d: DStep,
    n: NetStep<S>,
) -> bool {
    let none = Seq::<char>::empty();
    match (d, n) {
        (DStep::ReflectPad(p), NetStep::ReflectPad(q)) => p == q,
        (DStep::Ffc(a), NetStep::Ffc(w)) => is_like(a, w) && device_block_reads(
            store,
            l,
            named(i as nat, none),
            a,
        ),
        (DStep::Res(a, b), NetStep::Res(v, w)) => {
            &&& is_like(a, v) && device_block_reads(store, l, named(i as nat, ".conv1"@), a)
            &&& is_like(b, w) && device_block_reads(store, l, named(i as nat, ".conv2"@), b)
        },
        (DStep::Concat, NetStep::Concat) => true,
        (DStep::Upsample(ct, bn), NetStep::Upsample(_, _)) => {
            let k = (24 + 3 * (i - 24)) as nat;
            &&& dconvt_of(store, l, named(k, none), ct)
            &&& i == 24 ==> dbn_of(l, named(k + 1, none), 256, bn)
            &&& i == 25 ==> dbn_of(l, named(k + 1, none), 128, bn)
            &&& i == 26 ==> dbn_of(l, named(k + 1, none), 64, bn)
        },
        (DStep::OutConv(cv), NetStep::OutConv(_)) => dconv_of(store, l, named(34, none), cv),
        _ => false,
    }
}

proof fn lemma_device_block<S: Scalar>(
    store: WeightStore,
    l: Loader<S>,
    b: FfcBlock,
    index: int,
    sub: int,
    cin: int,
    cout: int,
    kernel: int,
    stride: int,
    gin: int,
    gout: int,
    d: DFfc,
    w: FfcWeights<S>,
)
    requires
        ffc_block(b, index, sub, cin, cout, kernel, stride, gin, gout),
        ffc_from(store, b, w),
        dffc_of(store, l, b, d),
    ensures
        is_like(d, w),
        device_block_reads(store, l, block_name(b.index as nat, b.sub as nat), d),
{
    reveal(dffc_of);
    lemma_parts(b, block_name(b.index as nat, b.sub as nat));
}

/// The two engines load the same network: step by step the device has the blocks of the
/// host, with the same geometry, and takes their parameters from the tensors of the same
/// names.
pub proof fn law_engines_load_the_same_network<S: Scalar>(
    store: WeightStore,
    l: Loader<S>,
    steps: Seq<Step>,
    net: Net<S>,
    on_device: Seq<DStep>,
    i: int,
)
    requires
        is_big_lama(steps),
        net_from(store, steps, net),
        on_device.len() == steps.len(),
        forall|k: int| 0 <= k < steps.len() ==> dstep_of(store, l, steps[k], #[trigger] on_device[k]),
        0 <= i < 29,
    ensures
        step_reads(store, i, net.steps@[i]),
        step_is_like(store, l, i, on_device[i], net.steps@[i]),
{
    law_network_reads_its_tensors(store, steps, net, i);
    lemma_prefix(i as nat);
    assert(step_from(store, steps[i], net.steps@[i]));
    assert(dstep_of(store, l, steps[i], on_device[i]));
    if 1 <= i <= 4 {
        if let (Step::Ffc(b), NetStep::Ffc(w), DStep::Ffc(d)) = (steps[i], net.steps@[i], on_device[i]) {
            lemma_device_block(
                store,
                l,
                b,
                i,
                0,
                b.cin as int,
                b.cout as int,
                b.kernel as int,
                b.stride as int,
                0,
                if i == 4 {
                    3
                } else {
                    0
                },
                d,
                w,
            );
        }
    } else if 5 <= i <= 22 {
        assert(is_resblock(steps[i], i));
        if let (Step::ResBlock(r), NetStep::Res(x, y), DStep::Res(c, d)) = (
            steps[i],
            net.steps@[i],
            on_device[i],
        ) {
            lemma_device_block(store, l, r.conv1, i, 1, 512, 512, 3, 1, 3, 3, c, x);
            lemma_device_block(store, l, r.conv2, i, 2, 512, 512, 3, 1, 3, 3, d, y);
        }
    } else if 24 <= i <= 26 {
        let k = (24 + 3 * (i - 24)) as nat;
        lemma_prefix(k);
        lemma_prefix(k + 1);
    } else {
        lemma_prefix(34);
    }
}

/// The endings of the names of a block's tensors.
#[verifier::opaque]
spec fn endings() -> Seq<Seq<char>> {
    seq![
        ".ffc.convl2l.weight"@,
        ".ffc.convl2g.weight"@,
        ".ffc.convg2l.weight"@,
        ".ffc.convg2g.conv1.0.weight"@,
        ".ffc.convg2g.conv1.1.weight"@,
        ".ffc.convg2g.conv1.1.bias"@,
        ".ffc.convg2g.conv1.1.running_mean"@,
        ".ffc.convg2g.conv1.1.running_var"@,
        ".ffc.convg2g.conv2.weight"@,
        ".ffc.convg2g.fu.conv_layer.weight"@,
        ".ffc.convg2g.fu.bn.weight"@,
        ".ffc.convg2g.fu.bn.bias"@,
        ".ffc.convg2g.fu.bn.running_mean"@,
        ".ffc.convg2g.fu.bn.running_var"@,
        ".bn_l.weight"@,
        ".bn_l.bias"@,
        ".bn_l.running_mean"@,
        ".bn_l.running_var"@,
        ".bn_g.weight"@,
        ".bn_g.bias"@,
        ".bn_g.running_mean"@,
        ".bn_g.running_var"@,
    ]
}

/// A number that tells these endings apart.
spec fn mark(s: Seq<char>) -> int {
    if s.len() == 19 {
        if s[9] == 'g' {
            2
        } else if s[11] == 'g' {
            1
        } else {
            0
        }
    } else if s.len() == 27 {
        if s[19] == '0' {
            3
        } else {
            4
        }
    } else if s.len() == 25 {
        if s[13] == 'f' {
            10
        } else if s[17] == '1' {
            5
        } else {
            8
        }
    } else if s.len() == 33 {
        if s[13] == 'f' {
            9
        } else {
            6
        }
    } else if s.len() == 32 {
        7
    } else if s.len() == 23 {
        11
    } else if s.len() == 31 {
        12
    } else if s.len() == 30 {
        13
    } else if s.len() == 12 {
        if s[4] == 'l' {
            14
        } else {
            18
        }
    } else if s.len() == 10 {
        if s[4] == 'l' {
            15
        } else {
            19
        }
    } else if s.len() == 18 {
        if s[4] == 'l' {
            16
        } else {
            20
        }
    } else {
        if s[4] == 'l' {
            17
        } else {
            21
        }
    }
}

proof fn lemma_endings_differ(i: int)
    requires
        0 <= i < 22,
    ensures
        mark(endings()[i]) == i,
        endings()[i].len() > 0,
        endings()[i][0] == '.',
{
    reveal(endings);
    if i == 0 {
        reveal_strlit(".ffc.convl2l.weight");
    }
    if i == 1 {
        reveal_strlit(".ffc.convl2g.weight");
    }
    if i == 2 {
        reveal_strlit(".ffc.convg2l.weight");
    }
    if i == 3 {
        reveal_strlit(".ffc.convg2g.conv1.0.weight");
    }
    if i == 4 {
        reveal_strlit(".ffc.convg2g.conv1.1.weight");
    }
    if i == 5 {
        reveal_strlit(".ffc.convg2g.conv1.1.bias");
    }
    if i == 6 {
        reveal_strlit(".ffc.convg2g.conv1.1.running_mean");
    }
    if i == 7 {
        reveal_strlit(".ffc.convg2g.conv1.1.running_var");
    }
    if i == 8 {
        reveal_strlit(".ffc.convg2g.conv2.weight");
    }
    if i == 9 {
        reveal_strlit(".ffc.convg2g.fu.conv_layer.weight");
    }
    if i == 10 {
        reveal_strlit(".ffc.convg2g.fu.bn.weight");
    }
    if i == 11 {
        reveal_strlit(".ffc.convg2g.fu.bn.bias");
    }
    if i == 12 {
        reveal_strlit(".ffc.convg2g.fu.bn.running_mean");
    }
    if i == 13 {
        reveal_strlit(".ffc.convg2g.fu.bn.running_var");
    }
    if i == 14 {
        reveal_strlit(".bn_l.weight");
    }
    if i == 15 {
        reveal_strlit(".bn_l.bias");
    }
    if i == 16 {
        reveal_strlit(".bn_l.running_mean");
    }
    if i == 17 {
        reveal_strlit(".bn_l.running_var");
    }
    if i == 18 {
        reveal_strlit(".bn_g.weight");
    }
    if i == 19 {
        reveal_strlit(".bn_g.bias");
    }
    if i == 20 {
        reveal_strlit(".bn_g.running_mean");
    }
    if i == 21 {
        reveal_strlit(".bn_g.running_var");
    }
}

/// No tensor is asked for twice.
pub open spec fn asks_once(list: Seq<Need>) -> bool {
    forall|i: int, j: int|
        0 <= i < j < list.len() && #[trigger] list[i] is Tensor && #[trigger] list[j] is Tensor
            ==> list[i] != list[j]
}

/// A name is that of an ending with a number in a range, under a prefix.
spec fn ends_within(name: Seq<char>, prefix: Seq<char>, lo: int, hi: int) -> bool {
    exists|e: int| lo <= e < hi && name == prefix + #[trigger] endings()[e]
}

/// All tensors of a list are named by endings with numbers in a range, under a prefix.
spec fn within(list: Seq<Need>, prefix: Seq<char>, lo: int, hi: int) -> bool {
    forall|k: int|
        0 <= k < list.len() && #[trigger] list[k] is Tensor ==> ends_within(
            list[k]->Tensor_0,
            prefix,
            lo,
            hi,
        )
}

proof fn lemma_ends_apart(prefix: Seq<char>, a: int, b: int)
    requires
        0 <= a < 22,
        0 <= b < 22,
        prefix + endings()[a] == prefix + endings()[b],
    ensures
        a == b,
{
    let n = prefix.len() as int;
    assert((prefix + endings()[a]).skip(n) =~= endings()[a]);
    assert((prefix + endings()[b]).skip(n) =~= endings()[b]);
    lemma_endings_differ(a);
    lemma_endings_differ(b);
}

proof fn lemma_together(a: Seq<Need>, b: Seq<Need>, prefix: Seq<char>, lo: int, mid: int, hi: int)
    requires
        0 <= lo <= mid <= hi <= 22,
        asks_once(a),
        asks_once(b),
        within(a, prefix, lo, mid),
        within(b, prefix, mid, hi),
    ensures
        asks_once(a + b),
        within(a + b, prefix, lo, hi),
{
    let c = a + b;
    assert forall|k: int| 0 <= k < c.len() && #[trigger] c[k] is Tensor implies ends_within(
        c[k]->Tensor_0,
        prefix,
        lo,
        hi,
    ) by {
        if k < a.len() {
            assert(c[k] == a[k]);
            let e = choose|e: int|
                lo <= e < mid && a[k]->Tensor_0 == prefix + #[trigger] endings()[e];
            assert(lo <= e < hi && c[k]->Tensor_0 == prefix + endings()[e]);
        } else {
            assert(c[k] == b[k - a.len()]);
            let e = choose|e: int|
                mid <= e < hi && b[k - a.len()]->Tensor_0 == prefix + #[trigger] endings()[e];
            assert(lo <= e < hi && c[k]->Tensor_0 == prefix + endings()[e]);
        }
    }
    assert forall|i: int, j: int|
        0 <= i < j < c.len() && #[trigger] c[i] is Tensor && #[trigger] c[j] is Tensor implies c[i]
        != c[j] by {
        if j < a.len() {
            assert(c[i] == a[i] && c[j] == a[j]);
        } else if i >= a.len() {
            assert(c[i] == b[i - a.len()] && c[j] == b[j - a.len()]);
        } else {
            assert(c[i] == a[i] && c[j] == b[j - a.len()]);
            let e = choose|e: int|
                lo <= e < mid && a[i]->Tensor_0 == prefix + #[trigger] endings()[e];
            let f = choose|e: int|
                mid <= e < hi && b[j - a.len()]->Tensor_0 == prefix + #[trigger] endings()[e];
            if c[i] == c[j] {
                lemma_ends_apart(prefix, e, f);
            }
        }
    }
}

/// A convolution asks for one tensor.
proof fn lemma_conv_asks(name: Seq<char>, prefix: Seq<char>, e: int)
    requires
        0 <= e < 22,
        name + ".weight"@ == prefix + endings()[e],
    ensures
        asks_once(conv_needs(name)),
        within(conv_needs(name), prefix, e, e + 1),
{
    assert(ends_within(name + ".weight"@, prefix, e, e + 1));
}

/// A BatchNorm asks for four tensors.
proof fn lemma_norm_asks(name: Seq<char>, prefix: Seq<char>, channels: nat, e: int)
    requires
        0 <= e < 19,
        name + ".weight"@ == prefix + endings()[e],
        name + ".bias"@ == prefix + endings()[e + 1],
        name + ".running_mean"@ == prefix + endings()[e + 2],
        name + ".running_var"@ == prefix + endings()[e + 3],
    ensures
        asks_once(norm_needs(name, channels)),
        within(norm_needs(name, channels), prefix, e, e + 4),
{
    let list = norm_needs(name, channels);
    assert(ends_within(name + ".weight"@, prefix, e, e + 4));
    assert(ends_within(name + ".bias"@, prefix, e, e + 4));
    assert(ends_within(name + ".running_mean"@, prefix, e, e + 4));
    assert(ends_within(name + ".running_var"@, prefix, e, e + 4));
    assert forall|i: int, j: int|
        0 <= i < j < list.len() && #[trigger] list[i] is Tensor && #[trigger] list[j] is Tensor
            implies list[i] != list[j] by {
        if list[i] == list[j] {
            lemma_ends_apart(prefix, e + i, e + j);
        }
    }
}

proof fn lemma_spectral_texts(p: Seq<char>, prefix: Seq<char>)
    requires
        p + ".conv1.0"@ == prefix + ".ffc.convg2g.conv1.0"@,
        p + ".conv1.1"@ == prefix + ".ffc.convg2g.conv1.1"@,
        p + ".fu.conv_layer"@ == prefix + ".ffc.convg2g.fu.conv_layer"@,
        p + ".fu.bn"@ == prefix + ".ffc.convg2g.fu.bn"@,
        p + ".conv2"@ == prefix + ".ffc.convg2g.conv2"@,
    ensures
        p + ".conv1.0"@ + ".weight"@ == prefix + endings()[3],
        p + ".conv1.1"@ + ".weight"@ == prefix + endings()[4],
        p + ".conv1.1"@ + ".bias"@ == prefix + endings()[5],
        p + ".conv1.1"@ + ".running_mean"@ == prefix + endings()[6],
        p + ".conv1.1"@ + ".running_var"@ == prefix + endings()[7],
        p + ".conv2"@ + ".weight"@ == prefix + endings()[8],
        p + ".fu.conv_layer"@ + ".weight"@ == prefix + endings()[9],
        p + ".fu.bn"@ + ".weight"@ == prefix + endings()[10],
        p + ".fu.bn"@ + ".bias"@ == prefix + endings()[11],
        p + ".fu.bn"@ + ".running_mean"@ == prefix + endings()[12],
        p + ".fu.bn"@ + ".running_var"@ == prefix + endings()[13],
{
    reveal(endings);
    reveal_strlit(".weight");
    reveal_strlit(".bias");
    reveal_strlit(".running_mean");
    reveal_strlit(".running_var");
    assert(p + ".conv1.0"@ + ".weight"@ =~= prefix + endings()[3]) by {
        reveal_strlit(".ffc.convg2g.conv1.0");
        reveal_strlit(".ffc.convg2g.conv1.0.weight");
    }
    assert(p + ".conv1.1"@ + ".weight"@ =~= prefix + endings()[4]) by {
        reveal_strlit(".ffc.convg2g.conv1.1");
        reveal_strlit(".ffc.convg2g.conv1.1.weight");
    }
    assert(p + ".conv1.1"@ + ".bias"@ =~= prefix + endings()[5]) by {
        reveal_strlit(".ffc.convg2g.conv1.1");
        reveal_strlit(".ffc.convg2g.conv1.1.bias");
    }
    assert(p + ".conv1.1"@ + ".running_mean"@ =~= prefix + endings()[6]) by {
        reveal_strlit(".ffc.convg2g.conv1.1");
        reveal_strlit(".ffc.convg2g.conv1.1.running_mean");
    }
    assert(p + ".conv1.1"@ + ".running_var"@ =~= prefix + endings()[7]) by {
        reveal_strlit(".ffc.convg2g.conv1.1");
        reveal_strlit(".ffc.convg2g.conv1.1.running_var");
    }
    assert(p + ".conv2"@ + ".weight"@ =~= prefix + endings()[8]) by {
        reveal_strlit(".ffc.convg2g.conv2");
        reveal_strlit(".ffc.convg2g.conv2.weight");
    }
    assert(p + ".fu.conv_layer"@ + ".weight"@ =~= prefix + endings()[9]) by {
        reveal_strlit(".ffc.convg2g.fu.conv_layer");
        reveal_strlit(".ffc.convg2g.fu.conv_layer.weight");
    }
    assert(p + ".fu.bn"@ + ".weight"@ =~= prefix + endings()[10]) by {
        reveal_strlit(".ffc.convg2g.fu.bn");
        reveal_strlit(".ffc.convg2g.fu.bn.weight");
    }
    assert(p + ".fu.bn"@ + ".bias"@ =~= prefix + endings()[11]) by {
        reveal_strlit(".ffc.convg2g.fu.bn");
        reveal_strlit(".ffc.convg2g.fu.bn.bias");
    }
    assert(p + ".fu.bn"@ + ".running_mean"@ =~= prefix + endings()[12]) by {
        reveal_strlit(".ffc.convg2g.fu.bn");
        reveal_strlit(".ffc.convg2g.fu.bn.running_mean");
    }
    assert(p + ".fu.bn"@ + ".running_var"@ =~= prefix + endings()[13]) by {
        reveal_strlit(".ffc.convg2g.fu.bn");
        reveal_strlit(".ffc.convg2g.fu.bn.running_var");
    }
}

/// The names of a spectral transform's tensors.
proof fn lemma_spectral_asks(b: FfcBlock, prefix: Seq<char>, cout: nat)
    requires
        prefix == block_name(b.index as nat, b.sub as nat),
    ensures
        asks_once(spectral_needs(conv_name(b, "convg2g"@), cout)),
        within(spectral_needs(conv_name(b, "convg2g"@), cout), prefix, 3, 14),
        spectral_needs(conv_name(b, "convg2g"@), cout).len() == 13,
{
    lemma_parts(b, prefix);
    let p = conv_name(b, "convg2g"@);
    let n1 = conv_needs(p + ".conv1.0"@);
    let n2 = norm_needs(p + ".conv1.1"@, cout / 2);
    let n3 = conv_needs(p + ".conv2"@);
    let n4 = conv_needs(p + ".fu.conv_layer"@);
    let n5 = norm_needs(p + ".fu.bn"@, 2 * (cout / 2));
    lemma_spectral_texts(p, prefix);
    lemma_conv_asks(p + ".conv1.0"@, prefix, 3);
    lemma_norm_asks(p + ".conv1.1"@, prefix, cout / 2, 4);
    lemma_conv_asks(p + ".conv2"@, prefix, 8);
    lemma_conv_asks(p + ".fu.conv_layer"@, prefix, 9);
    lemma_norm_asks(p + ".fu.bn"@, prefix, 2 * (cout / 2), 10);
    lemma_together(n1, n2, prefix, 3, 4, 8);
    lemma_together(n1 + n2, n3, prefix, 3, 8, 9);
    lemma_together(n1 + n2 + n3, n4, prefix, 3, 9, 10);
    lemma_together(n1 + n2 + n3 + n4, n5, prefix, 3, 10, 14);
}

proof fn lemma_block_texts(prefix: Seq<char>)
    ensures
        prefix + ".ffc.convl2l"@ + ".weight"@ == prefix + endings()[0],
        prefix + ".ffc.convl2g"@ + ".weight"@ == prefix + endings()[1],
        prefix + ".ffc.convg2l"@ + ".weight"@ == prefix + endings()[2],
        prefix + ".bn_l"@ + ".weight"@ == prefix + endings()[14],
        prefix + ".bn_l"@ + ".bias"@ == prefix + endings()[15],
        prefix + ".bn_l"@ + ".running_mean"@ == prefix + endings()[16],
        prefix + ".bn_l"@ + ".running_var"@ == prefix + endings()[17],
        prefix + ".bn_g"@ + ".weight"@ == prefix + endings()[18],
        prefix + ".bn_g"@ + ".bias"@ == prefix + endings()[19],
        prefix + ".bn_g"@ + ".running_mean"@ == prefix + endings()[20],
        prefix + ".bn_g"@ + ".running_var"@ == prefix + endings()[21],
{
    reveal(endings);
    reveal_strlit(".weight");
    reveal_strlit(".bias");
    reveal_strlit(".running_mean");
    reveal_strlit(".running_var");
    assert(prefix + ".ffc.convl2l"@ + ".weight"@ =~= prefix + endings()[0]) by {
        reveal_strlit(".ffc.convl2l");
        reveal_strlit(".ffc.convl2l.weight");
    }
    assert(prefix + ".ffc.convl2g"@ + ".weight"@ =~= prefix + endings()[1]) by {
        reveal_strlit(".ffc.convl2g");
        reveal_strlit(".ffc.convl2g.weight");
    }
    assert(prefix + ".ffc.convg2l"@ + ".weight"@ =~= prefix + endings()[2]) by {
        reveal_strlit(".ffc.convg2l");
        reveal_strlit(".ffc.convg2l.weight");
    }
    assert(prefix + ".bn_l"@ + ".weight"@ =~= prefix + endings()[14]) by {
        reveal_strlit(".bn_l");
        reveal_strlit(".bn_l.weight");
    }
    assert(prefix + ".bn_l"@ + ".bias"@ =~= prefix + endings()[15]) by {
        reveal_strlit(".bn_l");
        reveal_strlit(".bn_l.bias");
    }
    assert(prefix + ".bn_l"@ + ".running_mean"@ =~= prefix + endings()[16]) by {
        reveal_strlit(".bn_l");
        reveal_strlit(".bn_l.running_mean");
    }
    assert(prefix + ".bn_l"@ + ".running_var"@ =~= prefix + endings()[17]) by {
        reveal_strlit(".bn_l");
        reveal_strlit(".bn_l.running_var");
    }
    assert(prefix + ".bn_g"@ + ".weight"@ =~= prefix + endings()[18]) by {
        reveal_strlit(".bn_g");
        reveal_strlit(".bn_g.weight");
    }
    assert(prefix + ".bn_g"@ + ".bias"@ =~= prefix + endings()[19]) by {
        reveal_strlit(".bn_g");
        reveal_strlit(".bn_g.bias");
    }
    assert(prefix + ".bn_g"@ + ".running_mean"@ =~= prefix + endings()[20]) by {
        reveal_strlit(".bn_g");
        reveal_strlit(".bn_g.running_mean");
    }
    assert(prefix + ".bn_g"@ + ".running_var"@ =~= prefix + endings()[21]) by {
        reveal_strlit(".bn_g");
        reveal_strlit(".bn_g.running_var");
    }
}

/// The names of a block's tensors.
proof fn lemma_block_asks(
    b: FfcBlock,
    index: int,
    sub: int,
    cin: int,
    cout: int,
    kernel: int,
    stride: int,
    gin: int,
    gout: int,
)
    requires
        ffc_block(b, index, sub, cin, cout, kernel, stride, gin, gout),
    ensures
        asks_once(ffc_needs(b)),
        within(ffc_needs(b), block_name(index as nat, sub as nat), 0, 22),
        ffc_needs(b).len() == (if b.l2l is Present {
            1int
        } else {
            0
        }) + (if b.l2g is Present {
            1int
        } else {
            0
        }) + (if b.g2l is Present {
            1int
        } else {
            0
        }) + (if b.g2g {
            13int
        } else {
            0
        }) + (if b.bn_local {
            5int
        } else {
            0
        }) + (if b.bn_global {
            5int
        } else {
            0
        }),
{
    let prefix = block_name(index as nat, sub as nat);
    lemma_parts(b, prefix);
    lemma_spectral_asks(b, prefix, b.out_global as nat);
    lemma_block_texts(prefix);
    let n1 = conv_ref_needs(b, b.l2l);
    let n2 = conv_ref_needs(b, b.l2g);
    let n3 = conv_ref_needs(b, b.g2l);
    let n4 = g2g_needs(b);
    let n5 = bn_local_needs(b);
    let n6 = bn_global_needs(b);
    assert(asks_once(n1) && within(n1, prefix, 0, 1)) by {
        lemma_conv_asks(conv_name(b, "convl2l"@), prefix, 0);
    }
    assert(asks_once(n2) && within(n2, prefix, 1, 2)) by {
        lemma_conv_asks(conv_name(b, "convl2g"@), prefix, 1);
    }
    assert(asks_once(n3) && within(n3, prefix, 2, 3)) by {
        lemma_conv_asks(conv_name(b, "convg2l"@), prefix, 2);
    }
    assert(asks_once(n5) && within(n5, prefix, 14, 18)) by {
        lemma_norm_asks(prefix + ".bn_l"@, prefix, b.out_local as nat, 14);
    }
    assert(asks_once(n6) && within(n6, prefix, 18, 22)) by {
        lemma_norm_asks(prefix + ".bn_g"@, prefix, b.out_global as nat, 18);
    }
    lemma_together(n1, n2, prefix, 0, 1, 2);
    lemma_together(n1 + n2, n3, prefix, 0, 2, 3);
    lemma_together(n1 + n2 + n3, n4, prefix, 0, 3, 14);
    lemma_together(n1 + n2 + n3 + n4, n5, prefix, 0, 14, 18);
    lemma_together(n1 + n2 + n3 + n4 + n5, n6, prefix, 0, 18, 22);
}

/// A name belongs to a module with a number in a range.
spec fn belongs(name: Seq<char>, lo: int, hi: int) -> bool {
    exists|m: nat, rest: Seq<char>|
        lo <= m <= hi && name == #[trigger] named(m, rest) && rest.len() > 0 && rest[0] == '.'
}

/// All tensors of a list belong to modules with numbers in a range.
spec fn belong(list: Seq<Need>, lo: int, hi: int) -> bool {
    forall|k: int|
        0 <= k < list.len() && #[trigger] list[k] is Tensor ==> belongs(list[k]->Tensor_0, lo, hi)
}

proof fn lemma_modules_together(a: Seq<Need>, b: Seq<Need>, lo: int, mid: int, hi: int)
    requires
        asks_once(a),
        asks_once(b),
        belong(a, lo, mid - 1),
        belong(b, mid, hi),
        lo <= mid <= hi + 1,
    ensures
        asks_once(a + b),
        belong(a + b, lo, hi),
{
    let c = a + b;
    assert forall|k: int| 0 <= k < c.len() && #[trigger] c[k] is Tensor implies belongs(
        c[k]->Tensor_0,
        lo,
        hi,
    ) by {
        if k < a.len() {
            assert(c[k] == a[k]);
            let (m, rest) = choose|m: nat, rest: Seq<char>|
                lo <= m <= mid - 1 && a[k]->Tensor_0 == #[trigger] named(m, rest) && rest.len() > 0
                    && rest[0] == '.';
            assert(c[k]->Tensor_0 == named(m, rest));
        } else {
            assert(c[k] == b[k - a.len()]);
            let (m, rest) = choose|m: nat, rest: Seq<char>|
                mid <= m <= hi && b[k - a.len()]->Tensor_0 == #[trigger] named(m, rest) && rest.len()
                    > 0 && rest[0] == '.';
            assert(c[k]->Tensor_0 == named(m, rest));
        }
    }
    assert forall|i: int, j: int|
        0 <= i < j < c.len() && #[trigger] c[i] is Tensor && #[trigger] c[j] is Tensor implies c[i]
        != c[j] by {
        if j < a.len() {
            assert(c[i] == a[i] && c[j] == a[j]);
        } else if i >= a.len() {
            assert(c[i] == b[i - a.len()] && c[j] == b[j - a.len()]);
        } else {
            assert(c[i] == a[i] && c[j] == b[j - a.len()]);
            let (m, x) = choose|m: nat, rest: Seq<char>|
                lo <= m <= mid - 1 && a[i]->Tensor_0 == #[trigger] named(m, rest) && rest.len() > 0
                    && rest[0] == '.';
            let (n, y) = choose|m: nat, rest: Seq<char>|
                mid <= m <= hi && b[j - a.len()]->Tensor_0 == #[trigger] named(m, rest) && rest.len()
                    > 0 && rest[0] == '.';
            if c[i] == c[j] {
                assert(named(m, x) =~= module_name(m) + x);
                assert(named(n, y) =~= module_name(n) + y);
                lemma_modules_apart(m, x, n, y);
            }
        }
    }
}

/// The tensors under a block's name belong to its module.
proof fn lemma_block_belongs(list: Seq<Need>, i: nat, sub: nat)
    requires
        sub <= 2,
        within(list, block_name(i, sub), 0, 22),
    ensures
        belong(list, i as int, i as int),
{
    law_block_names(i, sub, i, sub);
    reveal_strlit(".conv1");
    reveal_strlit(".conv2");
    let ending = if sub == 0 {
        Seq::<char>::empty()
    } else if sub == 1 {
        ".conv1"@
    } else {
        ".conv2"@
    };
    assert forall|k: int| 0 <= k < list.len() && #[trigger] list[k] is Tensor implies belongs(
        list[k]->Tensor_0,
        i as int,
        i as int,
    ) by {
        let e = choose|e: int|
            0 <= e < 22 && list[k]->Tensor_0 == block_name(i, sub) + #[trigger] endings()[e];
        lemma_endings_differ(e);
        let rest = ending + endings()[e];
        assert(block_name(i, sub) + endings()[e] =~= named(i, rest));
        assert(rest[0] == '.');
    }
}

/// The two blocks of a residual block share no tensor.
proof fn lemma_halves_apart(a: Seq<Need>, b: Seq<Need>, i: nat)
    requires
        asks_once(a),
        asks_once(b),
        within(a, block_name(i, 1), 0, 22),
        within(b, block_name(i, 2), 0, 22),
    ensures
        asks_once(a + b),
        belong(a + b, i as int, i as int),
{
    let c = a + b;
    lemma_block_belongs(a, i, 1);
    lemma_block_belongs(b, i, 2);
    law_block_names(i, 1, i, 2);
    reveal_strlit(".conv1");
    reveal_strlit(".conv2");
    let n = block_name(i, 1).len() as int;
    assert forall|k: int| 0 <= k < c.len() && #[trigger] c[k] is Tensor implies belongs(
        c[k]->Tensor_0,
        i as int,
        i as int,
    ) by {
        if k < a.len() {
            assert(c[k] == a[k]);
        } else {
            assert(c[k] == b[k - a.len()]);
        }
    }
    assert forall|x: int, y: int|
        0 <= x < y < c.len() && #[trigger] c[x] is Tensor && #[trigger] c[y] is Tensor implies c[x]
        != c[y] by {
        if y < a.len() {
            assert(c[x] == a[x] && c[y] == a[y]);
        } else if x >= a.len() {
            assert(c[x] == b[x - a.len()] && c[y] == b[y - a.len()]);
        } else {
            assert(c[x] == a[x] && c[y] == b[y - a.len()]);
            let e = choose|e: int|
                0 <= e < 22 && a[x]->Tensor_0 == block_name(i, 1) + #[trigger] endings()[e];
            let f = choose|e: int|
                0 <= e < 22 && b[y - a.len()]->Tensor_0 == block_name(i, 2) + #[trigger] endings()[e];
            if c[x] == c[y] {
                assert((block_name(i, 1) + endings()[e]).take(n) =~= block_name(i, 1));
                assert((block_name(i, 2) + endings()[f]).take(n) =~= block_name(i, 2));
            }
        }
    }
}

/// The first and the last module of a step.
spec fn modules_of(i: int) -> (int, int) {
    if i <= 23 {
        (i, i)
    } else if i <= 26 {
        (24 + 3 * (i - 24), 25 + 3 * (i - 24))
    } else if i == 27 {
        (33, 33)
    } else {
        (34, 34)
    }
}

/// The tensors that a step asks for, and how many requests it makes.
spec fn requests(i: int) -> int {
    if 1 <= i <= 3 {
        6
    } else if i == 4 {
        12
    } else if 5 <= i <= 22 {
        52
    } else if 24 <= i <= 26 {
        7
    } else if i == 28 {
        1
    } else {
        0
    }
}

proof fn lemma_step_asks(steps: Seq<Step>, i: int)
    requires
        is_big_lama(steps),
        0 <= i < 29,
    ensures
        asks_once(step_needs(steps[i])),
        belong(step_needs(steps[i]), modules_of(i).0, modules_of(i).1),
        step_needs(steps[i]).len() == requests(i),
{
    if 1 <= i <= 4 {
        if let Step::Ffc(b) = steps[i] {
            lemma_block_asks(
                b,
                i,
                0,
                b.cin as int,
                b.cout as int,
                b.kernel as int,
                b.stride as int,
                0,
                if i == 4 {
                    3
                } else {
                    0
                },
            );
            lemma_block_belongs(ffc_needs(b), i as nat, 0);
        }
    } else if 5 <= i <= 22 {
        assert(is_resblock(steps[i], i));
        if let Step::ResBlock(r) = steps[i] {
            lemma_block_asks(r.conv1, i, 1, 512, 512, 3, 1, 3, 3);
            lemma_block_asks(r.conv2, i, 2, 512, 512, 3, 1, 3, 3);
            lemma_halves_apart(ffc_needs(r.conv1), ffc_needs(r.conv2), i as nat);
        }
    } else if 24 <= i <= 26 {
        let k = (24 + 3 * (i - 24)) as nat;
        if let Step::Upsample(u) = steps[i] {
            assert(u.index == k);
            lemma_upsample_asks(k, u.cout as nat);
        }
    } else if i == 28 {
        reveal_strlit(".weight");
        let name = module_name(34) + ".weight"@;
        assert(name =~= named(34, ".weight"@));
        assert(belongs(name, 34, 34));
    }
}

/// An upsampling asks for the two tensors of its module, and its BatchNorm for the four of
/// the next.
proof fn lemma_upsample_asks(k: nat, cout: nat)
    ensures
        asks_once(convt_needs(module_name(k)) + norm_needs(module_name(k + 1), cout)),
        belong(
            convt_needs(module_name(k)) + norm_needs(module_name(k + 1), cout),
            k as int,
            k as int + 1,
        ),
{
    reveal_strlit(".weight");
    reveal_strlit(".bias");
    reveal_strlit(".running_mean");
    reveal_strlit(".running_var");
    let a = convt_needs(module_name(k));
    let b = norm_needs(module_name(k + 1), cout);
    assert(module_name(k) + ".weight"@ =~= named(k, ".weight"@));
    assert(module_name(k) + ".bias"@ =~= named(k, ".bias"@));
    assert(module_name(k + 1) + ".weight"@ =~= named(k + 1, ".weight"@));
    assert(module_name(k + 1) + ".bias"@ =~= named(k + 1, ".bias"@));
    assert(module_name(k + 1) + ".running_mean"@ =~= named(k + 1, ".running_mean"@));
    assert(module_name(k + 1) + ".running_var"@ =~= named(k + 1, ".running_var"@));
    assert(belong(a, k as int, k as int));
    assert(belong(b, k as int + 1, k as int + 1));
    let n = module_name(k + 1).len();
    assert((module_name(k) + ".weight"@).len() != (module_name(k) + ".bias"@).len());
    assert((module_name(k + 1) + ".weight"@).len() == n + 7);
    assert((module_name(k + 1) + ".bias"@).len() == n + 5);
    assert((module_name(k + 1) + ".running_mean"@).len() == n + 13);
    assert((module_name(k + 1) + ".running_var"@).len() == n + 12);
    assert(asks_once(a));
    assert(asks_once(b));
    lemma_modules_together(a, b, k as int, k as int + 1, k as int + 1);
}

/// The requests of the first steps.
spec fn requests_before(n: nat) -> int
    decreases n,
{
    if n == 0 {
        0
    } else {
        requests_before((n - 1) as nat) + requests(n - 1)
    }
}

proof fn lemma_steps_ask(steps: Seq<Step>, n: nat)
    requires
        is_big_lama(steps),
        n <= 29,
    ensures
        asks_once(plan_needs(steps.take(n as int))),
        belong(plan_needs(steps.take(n as int)), 0, modules_of(n - 1).1),
        plan_needs(steps.take(n as int)).len() == requests_before(n),
    decreases n,
{
    let list = steps.take(n as int);
    if n > 0 {
        assert(list.drop_last() =~= steps.take(n - 1));
        lemma_steps_ask(steps, (n - 1) as nat);
        lemma_step_asks(steps, n - 1);
        let (lo, hi) = modules_of(n - 1);
        let before = plan_needs(steps.take(n - 1));
        assert(belong(before, 0, lo - 1)) by {
            assert forall|k: int| 0 <= k < before.len() && #[trigger] before[k] is Tensor implies belongs(
                before[k]->Tensor_0,
                0,
                lo - 1,
            ) by {
                let (m, rest) = choose|m: nat, rest: Seq<char>|
                    0 <= m <= modules_of(n - 2).1 && before[k]->Tensor_0 == #[trigger] named(m, rest)
                        && rest.len() > 0 && rest[0] == '.';
                assert(before[k]->Tensor_0 == named(m, rest));
            }
        }
        lemma_modules_together(before, step_needs(steps[n - 1]), 0, lo, hi);
    }
}

/// Every tensor that the network reads is read by one part of it alone: the plan makes 988
/// requests of the checkpoint, one for every tensor and one for the size of every
/// BatchNorm, and no two of them ask for the same tensor.
pub proof fn law_every_tensor_is_read_once(steps: Seq<Step>)
    requires
        is_big_lama(steps),
    ensures
        asks_once(plan_needs(steps)),
        plan_needs(steps).len() == 988,
{
    lemma_steps_ask(steps, 29);
    assert(steps.take(29) =~= steps);
    reveal_with_fuel(requests_before, 30);
}

} // verus!
