//! A checkpoint that was made for a plan: the network loaded from it runs, and an image
//! comes out in the size in which it went in.

use vstd::prelude::*;

use crate::conv::{conv_of, Conv2dW};
use crate::ffc::{can_conv_part, can_ffc, can_global, can_local, conv_name, conv_part_shape, conv_ref_of, ffc_from, ffc_shapes, global_shape, local_shape, spectral_part_shape, FfcWeights, Shape};
use crate::model::{conv_extent, ffc_gives, ffc_takes, is_big_lama, is_resblock, step_gives, step_takes, ConvRef, FfcBlock, Flow, Step};
use crate::names::module_name;
use crate::net::{can_run, can_step, net_from, shapes_after, step_from, step_shapes, Net, NetStep, Shapes};
use crate::scalar::Scalar;
use crate::spectral::{can_fourier, can_mix, can_spectral};
use crate::spectrum::{can_transform, kept};
use crate::weights::{numel_of, WeightStore};

verus! {

/// The convolution of this name has these channels and a square kernel.
pub open spec fn conv_sized(store: WeightStore, prefix: Seq<char>, cin: int, cout: int, kernel: int) -> bool {
    let shape = store.tensor(prefix + ".weight"@).shape@;
    &&& shape.len() == 4
    &&& shape[0] == cout
    &&& shape[1] == cin
    &&& shape[2] == kernel
    &&& shape[3] == kernel
    &&& store.has(prefix + ".bias"@) ==> store.words(prefix + ".bias"@).len() >= cout
}

/// An optional convolution of a block has the channels that the plan gives it.
pub open spec fn ref_sized(store: WeightStore, b: FfcBlock, r: ConvRef) -> bool {
    r matches ConvRef::Present { name, cin, cout } ==> conv_sized(
        store,
        conv_name(b, name@),
        cin as int,
        cout as int,
        b.kernel as int,
    )
}

/// The spectral branch of this name has these channels.
pub open spec fn spectral_sized(store: WeightStore, p: Seq<char>, cin: int, cout: int) -> bool {
    let half = cout / 2;
    &&& conv_sized(store, p + ".conv1.0"@, cin, half, 1)
    &&& store.words(p + ".conv1.1"@ + ".weight"@).len() == half
    &&& conv_sized(store, p + ".fu.conv_layer"@, 2 * half, 2 * half, 1)
    &&& store.words(p + ".fu.bn"@ + ".weight"@).len() == 2 * half
    &&& conv_sized(store, p + ".conv2"@, half, cout, 1)
}

/// A block has the channels that the plan gives it.
pub open spec fn ffc_sized(store: WeightStore, b: FfcBlock) -> bool {
    &&& ref_sized(store, b, b.l2l)
    &&& ref_sized(store, b, b.l2g)
    &&& ref_sized(store, b, b.g2l)
    &&& b.g2g ==> spectral_sized(
        store,
        conv_name(b, "convg2g"@),
        b.in_global as int,
        b.out_global as int,
    )
}

/// The upsampling of this name has these channels.
pub open spec fn convt_sized(store: WeightStore, prefix: Seq<char>, cin: int, cout: int) -> bool {
    let shape = store.tensor(prefix + ".weight"@).shape@;
    &&& shape.len() == 4
    &&& shape[0] == cin
    &&& shape[1] == cout
    &&& shape[2] == 3
    &&& shape[3] == 3
    &&& store.words(prefix + ".bias"@).len() >= cout
}

/// A step has the channels that the plan gives it.
pub open spec fn step_sized(store: WeightStore, s: Step) -> bool {
    match s {
        Step::Ffc(b) => ffc_sized(store, b),
        Step::ResBlock(r) => ffc_sized(store, r.conv1) && ffc_sized(store, r.conv2),
        Step::Upsample(u) => convt_sized(
            store,
            module_name(u.index as nat),
            u.cin as int,
            u.cout as int,
        ) && store.words(module_name(u.bn_index as nat) + ".weight"@).len() == u.cout,
        Step::OutConv(o) => conv_sized(
            store,
            module_name(o.index as nat),
            o.cin as int,
            o.cout as int,
            o.kernel as int,
        ),
        _ => true,
    }
}

/// The checkpoint was made for the plan: its tensors have the plan's extents.
pub open spec fn made_for(store: WeightStore, steps: Seq<Step>) -> bool {
    forall|i: int| 0 <= i < steps.len() ==> step_sized(store, #[trigger] steps[i])
}

/// A convolution has these channels, a square kernel, and all its weights.
spec fn conv_fits<S: Scalar>(cv: Conv2dW<S>, cin: int, cout: int, kernel: int) -> bool {
    &&& cv.cin == cin
    &&& cv.cout == cout
    &&& cv.kh == kernel
    &&& cv.kw == kernel
    &&& cv.wf()
}

proof fn lemma_numel4(s: Seq<usize>)
    requires
        s.len() == 4,
    ensures
        numel_of(s) == s[0] * s[1] * s[2] * s[3],
{
    reveal_with_fuel(numel_of, 5);
    assert(s.drop_last().drop_last().drop_last().drop_last() =~= Seq::empty());
    assert(1 * s[0] == s[0]);
}

proof fn lemma_conv_fits<S: Scalar>(
    store: WeightStore,
    prefix: Seq<char>,
    cin: int,
    cout: int,
    kernel: int,
    cv: Conv2dW<S>,
)
    requires
        conv_sized(store, prefix, cin, cout, kernel),
        conv_of(store, prefix, cv),
    ensures
        conv_fits(cv, cin, cout, kernel),
{
    lemma_numel4(store.tensor(prefix + ".weight"@).shape@);
}

/// The planes can be held, and transformed.
spec fn holdable(f: Flow) -> bool {
    &&& 0 <= f.local
    &&& 0 <= f.global
    &&& 1 <= f.h
    &&& 1 <= f.w
    &&& 8 * f.h <= isize::MAX
    &&& 8 * f.w <= isize::MAX
    &&& (f.local + f.global) * f.h * f.w <= isize::MAX
}

/// The shapes of the branches.
spec fn shapes_at(f: Flow) -> Shapes {
    Shapes {
        local: Shape { c: f.local, h: f.h, w: f.w },
        global: if f.global > 0 {
            Some(Shape { c: f.global, h: f.h, w: f.w })
        } else {
            None
        },
    }
}

proof fn lemma_held(f: Flow, c: int)
    requires
        holdable(f),
        0 <= c <= f.local + f.global,
    ensures
        c * f.h <= isize::MAX,
        c * f.h * f.w <= isize::MAX,
{
    assert(c * f.h * f.w <= (f.local + f.global) * f.h * f.w) by (nonlinear_arith)
        requires
            0 <= c <= f.local + f.global,
            1 <= f.h,
            1 <= f.w,
    ;
    assert(c * f.h <= c * f.h * f.w) by (nonlinear_arith)
        requires
            0 <= c,
            1 <= f.h,
            1 <= f.w,
    ;
}

/// A block as the plan makes them: it has a local branch on both sides, its kernel is not
/// 1x1, and where it has a spectral branch it keeps the size.
spec fn regular(b: FfcBlock) -> bool {
    &&& b.in_local > 0
    &&& b.out_local > 0
    &&& b.kernel > 1
    &&& b.stride >= 1
    &&& b.reflection
    &&& 2 * b.pad <= 8
    &&& b.l2l matches ConvRef::Present { cin, cout, .. } && cin == b.in_local && cout == b.out_local
    &&& conv_ref_counts(b.l2g, b.in_local as int, b.out_global as int)
    &&& conv_ref_counts(b.g2l, b.in_global as int, b.out_local as int)
    &&& b.g2g == (b.in_global > 0 && b.out_global > 0)
    &&& b.g2g ==> b.stride == 1 && b.kernel == 2 * b.pad + 1
}

spec fn conv_ref_counts(r: ConvRef, a: int, b: int) -> bool {
    match r {
        ConvRef::Absent => a == 0 || b == 0,
        ConvRef::Present { cin, cout, .. } => a != 0 && b != 0 && cin == a && cout == b,
    }
}

proof fn lemma_part<S: Scalar>(
    store: WeightStore,
    b: FfcBlock,
    w: FfcWeights<S>,
    r: ConvRef,
    cv: Option<Conv2dW<S>>,
    f: Flow,
    cin: int,
    cout: int,
)
    requires
        regular(b),
        ffc_from(store, b, w),
        ref_sized(store, b, r),
        conv_ref_of(store, b, r, cv),
        conv_ref_counts(r, cin, cout),
        ffc_takes(b, f),
        holdable(f),
        holdable(ffc_gives(b, f)),
        0 <= cout <= b.out_local + b.out_global,
    ensures
        cv is Some <==> cin != 0 && cout != 0,
        can_conv_part(w, cv, Some(Shape { c: cin, h: f.h, w: f.w })),
        cv is Some ==> conv_part_shape(w, cv, Some(Shape { c: cin, h: f.h, w: f.w })) == Some(
            Shape { c: cout, h: ffc_gives(b, f).h, w: ffc_gives(b, f).w },
        ),
{
    if let ConvRef::Present { name, .. } = r {
        let c = cv.unwrap();
        lemma_conv_fits(store, conv_name(b, name@), cin, cout, b.kernel as int, c);
        lemma_held(ffc_gives(b, f), cout);
    }
}

proof fn lemma_spectral<S: Scalar>(store: WeightStore, b: FfcBlock, w: FfcWeights<S>, f: Flow)
    requires
        regular(b),
        b.g2g,
        ffc_from(store, b, w),
        ffc_sized(store, b),
        ffc_takes(b, f),
        holdable(f),
        holdable(ffc_gives(b, f)),
    ensures
        w.spectral is Some,
        can_spectral(w.spectral.unwrap(), b.in_global as int, f.h, f.w),
        spectral_part_shape(
            w.spectral,
            Some(Shape { c: b.in_global as int, h: f.h, w: f.w }),
        ) == Some(Shape { c: b.out_global as int, h: f.h, w: f.w }),
        ffc_gives(b, f).h == f.h,
        ffc_gives(b, f).w == f.w,
{
    let sp = w.spectral.unwrap();
    let p = conv_name(b, "convg2g"@);
    let half = (b.out_global / 2) as int;
    let g = ffc_gives(b, f);
    lemma_conv_fits(store, p + ".conv1.0"@, b.in_global as int, half, 1, sp.conv1);
    lemma_conv_fits(store, p + ".fu.conv_layer"@, 2 * half, 2 * half, 1, sp.fu.conv);
    lemma_conv_fits(store, p + ".conv2"@, half, b.out_global as int, 1, sp.conv2);
    assert(g.h == f.h && g.w == f.w);
    lemma_held(g, half);
    lemma_held(g, 2 * half);
    lemma_held(g, b.out_global as int);
    let k = kept(f.w);
    assert(1 <= k <= f.w);
    assert(2 * half * f.h * k <= 2 * half * f.h * f.w) by (nonlinear_arith)
        requires
            0 <= half,
            1 <= f.h,
            k <= f.w,
    ;
    assert(f.h * f.w <= b.in_local * f.h * f.w) by (nonlinear_arith)
        requires
            1 <= b.in_local,
            1 <= f.h,
            1 <= f.w,
    ;
    lemma_held(f, b.in_local as int);
    assert(2 * f.h * k <= 2 * (f.h * f.w)) by (nonlinear_arith)
        requires
            1 <= f.h,
            k <= f.w,
    ;
    assert(2 * isize::MAX <= usize::MAX);
    assert(can_transform(f.h, f.w));
    assert(conv_extent(f.h, 1, 1, 0) == f.h);
    assert(conv_extent(f.w, 1, 1, 0) == f.w);
    assert(conv_extent(k, 1, 1, 0) == k);
    assert(can_mix(sp.fu.conv, 2 * half, f.h, k));
    assert(can_fourier(sp.fu, half, f.h, f.w));
    assert(can_mix(sp.conv1, b.in_global as int, f.h, f.w));
    assert(can_mix(sp.conv2, half, f.h, f.w));
}

proof fn lemma_block<S: Scalar>(store: WeightStore, b: FfcBlock, w: FfcWeights<S>, f: Flow)
    requires
        regular(b),
        ffc_from(store, b, w),
        ffc_sized(store, b),
        ffc_takes(b, f),
        holdable(f),
        holdable(ffc_gives(b, f)),
    ensures
        can_ffc(w, shapes_at(f).local, shapes_at(f).global),
        ffc_shapes(w, shapes_at(f).local, shapes_at(f).global) == (
            shapes_at(ffc_gives(b, f)).local,
            shapes_at(ffc_gives(b, f)).global,
        ),
{
    let l = shapes_at(f).local;
    let g = shapes_at(f).global;
    let out = ffc_gives(b, f);
    lemma_part(store, b, w, b.l2l, w.l2l, f, b.in_local as int, b.out_local as int);
    lemma_part(store, b, w, b.l2g, w.l2g, f, b.in_local as int, b.out_global as int);
    lemma_part(store, b, w, b.g2l, w.g2l, f, b.in_global as int, b.out_local as int);
    if b.g2g {
        lemma_spectral(store, b, w, f);
    }
    assert(can_local(w, l, g));
    assert(local_shape(w, l, g) == Shape { c: b.out_local as int, h: out.h, w: out.w });
    if b.out_global > 0 {
        assert(global_shape(w, l, g) == Shape { c: b.out_global as int, h: out.h, w: out.w });
        assert(can_global(w, l, g));
    }
}

proof fn lemma_step<S: Scalar>(store: WeightStore, s: Step, n: NetStep<S>, f: Flow)
    requires
        step_from(store, s, n),
        step_sized(store, s),
        step_takes(s, f),
        holdable(f),
        holdable(step_gives(s, f)),
        match s {
            Step::ReflectPad(p) => p <= 4,
            Step::Ffc(b) => regular(b),
            Step::ResBlock(r) => regular(r.conv1) && regular(r.conv2) && holdable(
                ffc_gives(r.conv1, f),
            ),
            Step::Upsample(u) => u.cin <= 1024,
            Step::OutConv(o) => o.kernel >= 1,
            _ => true,
        },
    ensures
        can_step(n, shapes_at(f)),
        step_shapes(n, shapes_at(f)) == shapes_at(step_gives(s, f)),
{
    reveal(can_step);
    reveal(step_shapes);
    let g = step_gives(s, f);
    lemma_held(f, f.local);
    lemma_held(f, f.global);
    lemma_held(g, g.local);
    lemma_held(g, g.global);
    match (s, n) {
        (Step::ReflectPad(p), NetStep::ReflectPad(_)) => {},
        (Step::Ffc(b), NetStep::Ffc(w)) => {
            lemma_block(store, b, w, f);
        },
        (Step::ResBlock(r), NetStep::Res(c1, c2)) => {
            lemma_block(store, r.conv1, c1, f);
            lemma_block(store, r.conv2, c2, ffc_gives(r.conv1, f));
        },
        (Step::Concat, NetStep::Concat) => {
            let c = f.local + f.global;
            lemma_held(f, c);
            assert(c <= c * f.h) by (nonlinear_arith)
                requires
                    0 <= c,
                    1 <= f.h,
            ;
        },
        (Step::Upsample(u), NetStep::Upsample(ct, bn)) => {
            let prefix = module_name(u.index as nat);
            lemma_numel4(store.tensor(prefix + ".weight"@).shape@);
        },
        (Step::OutConv(o), NetStep::OutConv(cv)) => {
            lemma_conv_fits(
                store,
                module_name(o.index as nat),
                o.cin as int,
                o.cout as int,
                o.kernel as int,
                cv,
            );
        },
        _ => {},
    }
}

/// The planes between the steps of the plan, for an image of `h` rows and `w` columns.
spec fn plan_flow(n: int, h: int, w: int) -> Flow {
    if n == 0 {
        Flow { local: 4, global: 0, h, w }
    } else if n == 1 {
        Flow { local: 4, global: 0, h: h + 6, w: w + 6 }
    } else if n == 2 {
        Flow { local: 64, global: 0, h, w }
    } else if n == 3 {
        Flow { local: 128, global: 0, h: h / 2, w: w / 2 }
    } else if n == 4 {
        Flow { local: 256, global: 0, h: h / 4, w: w / 4 }
    } else if n <= 23 {
        Flow { local: 128, global: 384, h: h / 8, w: w / 8 }
    } else if n == 24 {
        Flow { local: 512, global: 0, h: h / 8, w: w / 8 }
    } else if n == 25 {
        Flow { local: 256, global: 0, h: h / 4, w: w / 4 }
    } else if n == 26 {
        Flow { local: 128, global: 0, h: h / 2, w: w / 2 }
    } else if n == 27 {
        Flow { local: 64, global: 0, h, w }
    } else if n == 28 {
        Flow { local: 64, global: 0, h: h + 6, w: w + 6 }
    } else {
        Flow { local: 3, global: 0, h, w }
    }
}

/// An image that the network can take: both sides are multiples of 8, and the widest
/// planes between its steps can be held.
pub open spec fn takes_image(h: int, w: int) -> bool {
    &&& 8 <= h
    &&& 8 <= w
    &&& h % 8 == 0
    &&& w % 8 == 0
    &&& 64 * (h + 6) * (w + 6) <= isize::MAX
}

proof fn lemma_flow_holdable(n: int, h: int, w: int)
    requires
        takes_image(h, w),
        0 <= n <= 29,
    ensures
        holdable(plan_flow(n, h, w)),
{
    let f = plan_flow(n, h, w);
    let c = f.local + f.global;
    let a = h / 8;
    let b = w / 8;
    assert(h == 8 * a && w == 8 * b);
    let p = a * b;
    assert(64 * (h + 6) * (w + 6) >= 64 * h * w) by (nonlinear_arith)
        requires
            8 <= h,
            8 <= w,
    ;
    assert(64 * (8 * a) * (8 * b) == 4096 * p) by (nonlinear_arith)
        requires
            p == a * b,
    ;
    assert(8 * f.h <= 64 * (h + 6) * (w + 6)) by (nonlinear_arith)
        requires
            8 <= h,
            8 <= w,
            0 <= f.h <= h + 6,
    ;
    assert(8 * f.w <= 64 * (h + 6) * (w + 6)) by (nonlinear_arith)
        requires
            8 <= h,
            8 <= w,
            0 <= f.w <= w + 6,
    ;
    if n == 1 || n == 28 {
        assert(c * f.h * f.w <= 64 * (h + 6) * (w + 6)) by (nonlinear_arith)
            requires
                0 <= c <= 64,
                8 <= h,
                8 <= w,
                f.h == h + 6,
                f.w == w + 6,
        ;
    } else if n == 0 || n == 2 || n == 27 || n == 29 {
        assert(c * f.h * f.w <= 64 * h * w) by (nonlinear_arith)
            requires
                0 <= c <= 64,
                8 <= h,
                8 <= w,
                f.h == h,
                f.w == w,
        ;
    } else if n == 3 || n == 26 {
        assert(128 * (4 * a) * (4 * b) == 2048 * p) by (nonlinear_arith)
            requires
                p == a * b,
        ;
        assert(f.h == 4 * a && f.w == 4 * b);
    } else if n == 4 || n == 25 {
        assert(256 * (2 * a) * (2 * b) == 1024 * p) by (nonlinear_arith)
            requires
                p == a * b,
        ;
        assert(f.h == 2 * a && f.w == 2 * b);
    } else {
        assert(512 * a * b == 512 * p) by (nonlinear_arith)
            requires
                p == a * b,
        ;
    }
    assert(p >= 1) by (nonlinear_arith)
        requires
            p == a * b,
            1 <= a,
            1 <= b,
    ;
}

/// The plan's steps are regular, and lead from one flow to the next.
#[verifier::spinoff_prover]
#[verifier::rlimit(60)]
proof fn lemma_plan_step(steps: Seq<Step>, n: int, h: int, w: int)
    requires
        is_big_lama(steps),
        takes_image(h, w),
        0 <= n < 29,
    ensures
        step_takes(steps[n], plan_flow(n, h, w)),
        step_gives(steps[n], plan_flow(n, h, w)) == plan_flow(n + 1, h, w),
        match steps[n] {
            Step::ReflectPad(p) => p <= 4,
            Step::Ffc(b) => regular(b),
            Step::ResBlock(r) => regular(r.conv1) && regular(r.conv2) && ffc_gives(
                r.conv1,
                plan_flow(n, h, w),
            ) == plan_flow(n, h, w),
            Step::Upsample(u) => u.cin <= 1024,
            Step::OutConv(o) => o.kernel >= 1,
            _ => true,
        },
{
    let f = plan_flow(n, h, w);
    if 5 <= n <= 22 {
        assert(is_resblock(steps[n], n));
        lemma_kept(f.h);
        lemma_kept(f.w);
    } else if 2 <= n <= 4 {
        lemma_halved(f.h);
        lemma_halved(f.w);
    } else if n == 1 {
        assert(conv_extent(f.h, 7, 1, 0) == h);
        assert(conv_extent(f.w, 7, 1, 0) == w);
    }
}

proof fn lemma_halved(n: int)
    requires
        n % 2 == 0,
    ensures
        conv_extent(n, 3, 2, 1) == n / 2,
{
}

proof fn lemma_kept(n: int)
    ensures
        conv_extent(n, 3, 1, 1) == n,
{
}

/// The network that is loaded from a checkpoint made for the plan can be run on every
/// image whose sides are multiples of 8, as far as its planes can be held, and gives three
/// planes of the image's own size.
pub proof fn law_network_keeps_the_size<S: Scalar>(
    store: WeightStore,
    steps: Seq<Step>,
    net: Net<S>,
    h: int,
    w: int,
)
    requires
        is_big_lama(steps),
        made_for(store, steps),
        net_from(store, steps, net),
        takes_image(h, w),
    ensures
        can_run(net, Shape { c: 4, h, w }),
        shapes_after(
            net,
            Shapes { local: Shape { c: 4, h, w }, global: None },
            net.steps@.len(),
        ) == (Shapes { local: Shape { c: 3, h, w }, global: None }),
{
    assert(at_work(store, steps, net, h, w)) by {
        reveal(at_work);
    }
    lemma_runs(store, steps, net, h, w);
}

/// A network that was loaded from a checkpoint made for the plan, and an image for it.
#[verifier::opaque]
spec fn at_work<S: Scalar>(store: WeightStore, steps: Seq<Step>, net: Net<S>, h: int, w: int) -> bool {
    &&& is_big_lama(steps)
    &&& made_for(store, steps)
    &&& net_from(store, steps, net)
    &&& takes_image(h, w)
}

spec fn image_shapes(h: int, w: int) -> Shapes {
    Shapes { local: Shape { c: 4, h, w }, global: None }
}

proof fn lemma_runs<S: Scalar>(store: WeightStore, steps: Seq<Step>, net: Net<S>, h: int, w: int)
    requires
        at_work(store, steps, net, h, w),
    ensures
        can_run(net, Shape { c: 4, h, w }),
        shapes_after(net, image_shapes(h, w), net.steps@.len()) == (Shapes {
            local: Shape { c: 3, h, w },
            global: None,
        }),
{
    lemma_run_up_to(store, steps, net, h, w, 29);
    assert(net.steps@.len() == 29) by {
        reveal(at_work);
    }
    assert forall|i: int| 0 <= i < net.steps@.len() implies can_step(
        #[trigger] net.steps@[i],
        shapes_after(net, image_shapes(h, w), i as nat),
    ) by {
        lemma_run_up_to(store, steps, net, h, w, (i + 1) as nat);
    }
}

proof fn lemma_run_up_to<S: Scalar>(
    store: WeightStore,
    steps: Seq<Step>,
    net: Net<S>,
    h: int,
    w: int,
    n: nat,
)
    requires
        at_work(store, steps, net, h, w),
        n <= 29,
    ensures
        shapes_after(net, image_shapes(h, w), n) == shapes_at(plan_flow(n as int, h, w)),
        n > 0 ==> can_step(net.steps@[n - 1], shapes_after(net, image_shapes(h, w), (n - 1) as nat)),
    decreases n,
{
    if n > 0 {
        lemma_run_up_to(store, steps, net, h, w, (n - 1) as nat);
        lemma_one_step(store, steps, net, h, w, n - 1);
    }
}

proof fn lemma_one_step<S: Scalar>(
    store: WeightStore,
    steps: Seq<Step>,
    net: Net<S>,
    h: int,
    w: int,
    m: int,
)
    requires
        at_work(store, steps, net, h, w),
        0 <= m < 29,
    ensures
        can_step(net.steps@[m], shapes_at(plan_flow(m, h, w))),
        step_shapes(net.steps@[m], shapes_at(plan_flow(m, h, w))) == shapes_at(
            plan_flow(m + 1, h, w),
        ),
{
    reveal(at_work);
    lemma_plan_step(steps, m, h, w);
    lemma_flow_holdable(m, h, w);
    lemma_flow_holdable(m + 1, h, w);
    assert(step_sized(store, steps[m]));
    assert(step_from(store, steps[m], net.steps@[m]));
    lemma_step(store, steps[m], net.steps@[m], plan_flow(m, h, w));
}

} // verus!
