//! The network with every weight resolved, and its forward pass.
//!
//! Loading is separated from execution, so the checkpoint is touched exactly once.

use vstd::prelude::*;

use crate::acts::{add_inplace, concat, mirrored, rectified, reflect_pad_acts, relu_inplace, sigmoid_inplace, squashed, stacked, summed, Acts, Planes};
use crate::conv::{can_convolve, conv_needs, conv_of, conv_shaped, convolved, Conv2dW};
use crate::convt::{can_upsample, convt_needs, convt_of, convt_shaped, upsampled, ConvT};
use crate::ffc::{can_ffc, ffc_from, ffc_needs, ffc_of, ffc_shaped, ffc_shapes, load_ffc, run_ffc, shape_of, shape_of_opt, view_opt, wf_opt, FfcWeights, Shape};
use crate::fold::{folds, lemma_no_steps, lemma_step};
use crate::model::{conv_extent, Model, Step};
use crate::names::{module, module_name};
use crate::needs::{first_unmet, lemma_needs_in_turn, Need};
use crate::norm::{norm_needs, norm_of, normed, Bn};
use crate::scalar::Scalar;
use crate::weights::WeightStore;

verus! {

/// One step with its parameters resolved.
pub enum NetStep<S> {
    ReflectPad(usize),
    Ffc(FfcWeights<S>),
    /// Two blocks and a skip connection.
    Res(FfcWeights<S>, FfcWeights<S>),
    Concat,
    Upsample(ConvT<S>, Bn<S>),
    OutConv(Conv2dW<S>),
}

/// The generator with every weight resolved.
pub struct Net<S> {
    pub steps: Vec<NetStep<S>>,
}

/// What a step needs of the checkpoint.
pub open spec fn step_needs(s: Step) -> Seq<Need> {
    match s {
        Step::ReflectPad(_) => Seq::empty(),
        Step::Ffc(b) => ffc_needs(b),
        Step::ResBlock(r) => ffc_needs(r.conv1) + ffc_needs(r.conv2),
        Step::Concat => Seq::empty(),
        Step::Upsample(u) => convt_needs(module_name(u.index as nat)) + norm_needs(
            module_name(u.bn_index as nat),
            u.cout as nat,
        ),
        Step::OutConv(o) => conv_needs(module_name(o.index as nat)),
    }
}

/// What a plan needs of the checkpoint, step by step.
pub open spec fn plan_needs(steps: Seq<Step>) -> Seq<Need>
    decreases steps.len(),
{
    if steps.len() == 0 {
        Seq::empty()
    } else {
        plan_needs(steps.drop_last()) + step_needs(steps.last())
    }
}

/// The weights of a step have the extents that it reads.
pub open spec fn step_shaped(store: WeightStore, s: Step) -> bool {
    match s {
        Step::ReflectPad(_) => true,
        Step::Ffc(b) => ffc_shaped(store, b),
        Step::ResBlock(r) => ffc_shaped(store, r.conv1) && ffc_shaped(store, r.conv2),
        Step::Concat => true,
        Step::Upsample(u) => convt_shaped(store, module_name(u.index as nat)),
        Step::OutConv(o) => conv_shaped(store, module_name(o.index as nat)),
    }
}

/// The weights of a plan have the extents that it reads.
pub open spec fn plan_shaped(store: WeightStore, steps: Seq<Step>) -> bool {
    forall|i: int| 0 <= i < steps.len() ==> step_shaped(store, #[trigger] steps[i])
}

/// `n` is a step with the parameters of the checkpoint.
pub open spec fn step_from<S: Scalar>(store: WeightStore, s: Step, n: NetStep<S>) -> bool {
    match (s, n) {
        (Step::ReflectPad(p), NetStep::ReflectPad(q)) => p == q,
        (Step::Ffc(b), NetStep::Ffc(w)) => ffc_from(store, b, w),
        (Step::ResBlock(r), NetStep::Res(a, b)) => ffc_from(store, r.conv1, a) && ffc_from(
            store,
            r.conv2,
            b,
        ),
        (Step::Concat, NetStep::Concat) => true,
        (Step::Upsample(u), NetStep::Upsample(ct, bn)) => convt_of(
            store,
            module_name(u.index as nat),
            ct,
        ) && norm_of(store, module_name(u.bn_index as nat), bn),
        (Step::OutConv(o), NetStep::OutConv(cv)) => conv_of(store, module_name(o.index as nat), cv),
        _ => false,
    }
}

/// `net` is a plan with the parameters of the checkpoint.
pub open spec fn net_from<S: Scalar>(store: WeightStore, steps: Seq<Step>, net: Net<S>) -> bool {
    &&& net.steps@.len() == steps.len()
    &&& forall|i: int|
        0 <= i < steps.len() ==> step_from(store, steps[i], #[trigger] net.steps@[i])
}

/// What the network holds between two steps.
pub struct State<S> {
    pub local: Planes<S>,
    pub global: Option<Planes<S>>,
}

/// `out` is the global branch after a residual block: the skip connection is added to it.
pub open spec fn skipped<S: Scalar>(
    global: Option<Planes<S>>,
    made: Option<Planes<S>>,
    out: Option<Planes<S>>,
) -> bool {
    match (global, made) {
        (Some(g), Some(m)) => out matches Some(o) && summed(g, m, o),
        (None, Some(m)) => out == Some(m),
        (_, None) => out == global,
    }
}

/// `b` is `a` after a residual block.
pub open spec fn residual_of<S: Scalar>(
    c1: FfcWeights<S>,
    c2: FfcWeights<S>,
    a: State<S>,
    b: State<S>,
) -> bool {
    exists|m: State<S>, n: State<S>|
        #![trigger ffc_of(c1, a.local, a.global, m.local, m.global), ffc_of(c2, m.local, m.global, n.local, n.global)]
        {
            &&& ffc_of(c1, a.local, a.global, m.local, m.global)
            &&& ffc_of(c2, m.local, m.global, n.local, n.global)
            &&& summed(a.local, n.local, b.local)
            &&& skipped(a.global, n.global, b.global)
        }
}

/// `b` is `a` upsampled, normed and rectified.
pub open spec fn upsampling_of<S: Scalar>(ct: ConvT<S>, bn: Bn<S>, a: Planes<S>, b: Planes<S>) -> bool {
    exists|u: Planes<S>, n: Planes<S>|
        #![trigger upsampled(ct, a, u), normed(bn, u, n)]
        upsampled(ct, a, u) && normed(bn, u, n) && rectified(n, b)
}

/// `b` is `a` convolved and squashed.
pub open spec fn output_of<S: Scalar>(cv: Conv2dW<S>, a: Planes<S>, b: Planes<S>) -> bool {
    exists|u: Planes<S>| #[trigger] convolved(cv, a, 0, 1, false, u) && squashed(u, b)
}

/// `b` is `a` mirrored at its borders, if there are any planes.
pub open spec fn mirrored_opt<S>(a: Option<Planes<S>>, pad: int, b: Option<Planes<S>>) -> bool {
    match (a, b) {
        (Some(a), Some(b)) => mirrored(a, pad, b),
        (None, None) => true,
        _ => false,
    }
}

/// `b` is what a step makes of `a`.
pub open spec fn step_of<S: Scalar>(s: NetStep<S>, a: State<S>, b: State<S>) -> bool {
    match s {
        NetStep::ReflectPad(p) => mirrored(a.local, p as int, b.local) && mirrored_opt(
            a.global,
            p as int,
            b.global,
        ),
        NetStep::Ffc(w) => ffc_of(w, a.local, a.global, b.local, b.global),
        NetStep::Res(c1, c2) => residual_of(c1, c2, a, b),
        NetStep::Concat => b.global is None && match a.global {
            Some(g) => b.local == stacked(a.local, g),
            None => b.local == a.local,
        },
        NetStep::Upsample(ct, bn) => b.global is None && upsampling_of(ct, bn, a.local, b.local),
        NetStep::OutConv(cv) => b.global == a.global && output_of(cv, a.local, b.local),
    }
}

/// The steps of a network.
pub open spec fn steps_of<S: Scalar>(net: Net<S>) -> spec_fn(int, State<S>, State<S>) -> bool {
    |i: int, a: State<S>, b: State<S>| step_of(net.steps@[i], a, b)
}

/// `out` is what the network makes of `input`.
pub open spec fn net_of<S: Scalar>(net: Net<S>, input: Planes<S>, out: Planes<S>) -> bool {
    exists|g: Option<Planes<S>>| #[trigger]
        folds(
            State { local: input, global: None },
            steps_of(net),
            net.steps@.len(),
            State { local: out, global: g },
        )
}

/// The shapes between two steps.
pub struct Shapes {
    pub local: Shape,
    pub global: Option<Shape>,
}

/// The shapes of a state.
pub open spec fn shapes_of<S>(a: State<S>) -> Shapes {
    Shapes { local: shape_of(a.local), global: shape_of_opt(a.global) }
}

/// Whether planes of this shape can be mirrored at their borders.
pub open spec fn can_mirror(s: Shape, pad: int) -> bool {
    &&& pad > 0 ==> s.h >= 1 && s.w >= 1
    &&& s.h + 2 * pad <= isize::MAX
    &&& s.w + 2 * pad <= isize::MAX
    &&& s.c * (s.h + 2 * pad) <= usize::MAX
    &&& s.c * (s.h + 2 * pad) * (s.w + 2 * pad) <= usize::MAX
}

/// The shape of planes mirrored at their borders.
pub open spec fn mirror_shape(s: Shape, pad: int) -> Shape {
    Shape { c: s.c, h: s.h + 2 * pad, w: s.w + 2 * pad }
}

/// The shapes that a step leads to.
#[verifier::opaque]
pub open spec fn step_shapes<S: Scalar>(s: NetStep<S>, a: Shapes) -> Shapes {
    match s {
        NetStep::ReflectPad(p) => Shapes {
            local: mirror_shape(a.local, p as int),
            global: match a.global {
                Some(g) => Some(mirror_shape(g, p as int)),
                None => None,
            },
        },
        NetStep::Ffc(w) => {
            let (l, g) = ffc_shapes(w, a.local, a.global);
            Shapes { local: l, global: g }
        },
        NetStep::Res(c1, c2) => {
            let (l1, g1) = ffc_shapes(c1, a.local, a.global);
            let (l2, g2) = ffc_shapes(c2, l1, g1);
            Shapes {
                local: a.local,
                global: if a.global is None {
                    g2
                } else {
                    a.global
                },
            }
        },
        NetStep::Concat => Shapes {
            local: match a.global {
                Some(g) => Shape { c: a.local.c + g.c, ..a.local },
                None => a.local,
            },
            global: None,
        },
        NetStep::Upsample(ct, _) => Shapes {
            local: Shape { c: ct.cout as int, h: 2 * a.local.h, w: 2 * a.local.w },
            global: None,
        },
        NetStep::OutConv(cv) => Shapes {
            local: Shape {
                c: cv.cout as int,
                h: conv_extent(a.local.h, cv.kh as int, 1, 0),
                w: conv_extent(a.local.w, cv.kw as int, 1, 0),
            },
            global: a.global,
        },
    }
}

/// Whether a residual block can be applied to branches of these shapes.
pub open spec fn can_residual<S: Scalar>(c1: FfcWeights<S>, c2: FfcWeights<S>, a: Shapes) -> bool {
    let (l1, g1) = ffc_shapes(c1, a.local, a.global);
    let (l2, g2) = ffc_shapes(c2, l1, g1);
    &&& can_ffc(c1, a.local, a.global)
    &&& can_ffc(c2, l1, g1)
    &&& l2 == a.local
    &&& a.global is Some && g2 is Some ==> g2 == a.global
}

/// Whether a step can be applied to branches of these shapes.
#[verifier::opaque]
pub open spec fn can_step<S: Scalar>(s: NetStep<S>, a: Shapes) -> bool {
    match s {
        NetStep::ReflectPad(p) => can_mirror(a.local, p as int) && (a.global matches Some(g)
            ==> can_mirror(g, p as int)),
        NetStep::Ffc(w) => can_ffc(w, a.local, a.global),
        NetStep::Res(c1, c2) => can_residual(c1, c2, a),
        NetStep::Concat => a.global matches Some(g) ==> {
            &&& g.h == a.local.h
            &&& g.w == a.local.w
            &&& a.local.c + g.c <= usize::MAX
            &&& (a.local.c + g.c) * a.local.h * a.local.w <= usize::MAX
        },
        NetStep::Upsample(ct, bn) => can_upsample(ct, a.local.c, a.local.h, a.local.w) && bn.covers(
            ct.cout as int,
        ),
        NetStep::OutConv(cv) => cv.wf() && can_convolve(
            cv,
            a.local.c,
            a.local.h,
            a.local.w,
            0,
            1,
            false,
        ),
    }
}

/// The shapes after the first `n` steps.
pub open spec fn shapes_after<S: Scalar>(net: Net<S>, a: Shapes, n: nat) -> Shapes
    decreases n,
{
    if n == 0 {
        a
    } else {
        step_shapes(net.steps@[n - 1], shapes_after(net, a, (n - 1) as nat))
    }
}

/// Whether the network can be run on planes of this shape.
pub open spec fn can_run<S: Scalar>(net: Net<S>, input: Shape) -> bool {
    let a = Shapes { local: input, global: None };
    forall|i: int|
        0 <= i < net.steps@.len() ==> can_step(#[trigger] net.steps@[i], shapes_after(net, a, i as nat))
}

/// Resolve the parameters of a step.
fn load_step<S: Scalar>(store: &WeightStore, s: &Step) -> (res: Result<NetStep<S>, String>)
    requires
        store.wf(),
        step_shaped(*store, *s),
    ensures
        match first_unmet(*store, step_needs(*s)) {
            Some(text) => res matches Err(e) && e@ == text,
            None => res matches Ok(n) && step_from(*store, *s, n),
        },
{
    match s {
        Step::ReflectPad(p) => Ok(NetStep::ReflectPad(*p)),
        Step::Ffc(b) => match load_ffc(store, b) {
            Ok(w) => Ok(NetStep::Ffc(w)),
            Err(e) => Err(e),
        },
        Step::ResBlock(r) => {
            proof {
                lemma_needs_in_turn(*store, ffc_needs(r.conv1), ffc_needs(r.conv2));
            }
            let conv1: FfcWeights<S> = match load_ffc(store, &r.conv1) {
                Ok(w) => w,
                Err(e) => {
                    return Err(e);
                },
            };
            match load_ffc(store, &r.conv2) {
                Ok(conv2) => Ok(NetStep::Res(conv1, conv2)),
                Err(e) => Err(e),
            }
        },
        Step::Concat => Ok(NetStep::Concat),
        Step::Upsample(u) => {
            proof {
                lemma_needs_in_turn(
                    *store,
                    convt_needs(module_name(u.index as nat)),
                    norm_needs(module_name(u.bn_index as nat), u.cout as nat),
                );
            }
            let convt: ConvT<S> = match ConvT::load(store, module(u.index).as_str()) {
                Ok(c) => c,
                Err(e) => {
                    return Err(e);
                },
            };
            match Bn::load(store, module(u.bn_index).as_str(), u.cout) {
                Ok(bn) => Ok(NetStep::Upsample(convt, bn)),
                Err(e) => Err(e),
            }
        },
        Step::OutConv(o) => match Conv2dW::load(store, module(o.index).as_str()) {
            Ok(cv) => Ok(NetStep::OutConv(cv)),
            Err(e) => Err(e),
        },
    }
}

proof fn lemma_unmet_stays(store: WeightStore, steps: Seq<Step>, n: int)
    requires
        0 <= n <= steps.len(),
        first_unmet(store, plan_needs(steps.take(n))) is Some,
    ensures
        first_unmet(store, plan_needs(steps)) == first_unmet(store, plan_needs(steps.take(n))),
    decreases steps.len() - n,
{
    if n == steps.len() {
        assert(steps.take(n) =~= steps);
    } else {
        assert(steps.take(n + 1).drop_last() =~= steps.take(n));
        lemma_needs_in_turn(store, plan_needs(steps.take(n)), step_needs(steps[n]));
        lemma_unmet_stays(store, steps, n + 1);
    }
}

/// What the network holds while it runs.
pub struct Branches<S> {
    pub local: Acts<S>,
    pub global: Option<Acts<S>>,
}

impl<S: Scalar> Branches<S> {
    pub open spec fn wf(&self) -> bool {
        self.local.wf() && wf_opt(view_opt(self.global))
    }

    /// What the branches hold.
    pub open spec fn state(&self) -> State<S> {
        State { local: self.local@, global: view_opt(self.global) }
    }
}

fn run_residual<S: Scalar>(c1: &FfcWeights<S>, c2: &FfcWeights<S>, a: Branches<S>) -> (b: Branches<S>)
    requires
        a.wf(),
        can_residual(*c1, *c2, shapes_of(a.state())),
    ensures
        b.wf(),
        residual_of(*c1, *c2, a.state(), b.state()),
        shapes_of(b.state()) == step_shapes(NetStep::Res(*c1, *c2), shapes_of(a.state())),
{
    proof {
        reveal(step_shapes);
    }
    let ghost before = a.state();
    let (l1, g1): (Acts<S>, Option<Acts<S>>) = run_ffc(c1, &a.local, a.global.as_ref());
    let ghost m = State { local: l1@, global: view_opt(g1) };
    let (l2, g2): (Acts<S>, Option<Acts<S>>) = run_ffc(c2, &l1, g1.as_ref());
    let ghost n = State { local: l2@, global: view_opt(g2) };
    let mut local: Acts<S> = a.local;
    add_inplace(&mut local, &l2);
    let global: Option<Acts<S>> = match (a.global, g2) {
        (Some(x), Some(y)) => {
            let mut z: Acts<S> = x;
            add_inplace(&mut z, &y);
            Some(z)
        },
        (None, Some(y)) => Some(y),
        (x, None) => x,
    };
    let b = Branches { local, global };
    proof {
        assert(ffc_of(*c1, before.local, before.global, m.local, m.global));
        assert(ffc_of(*c2, m.local, m.global, n.local, n.global));
        assert(summed(before.local, n.local, b.state().local));
        assert(skipped(before.global, n.global, b.state().global));
    }
    b
}

/// Run one step.
pub fn run_step<S: Scalar>(s: &NetStep<S>, a: Branches<S>) -> (b: Branches<S>)
    requires
        a.wf(),
        can_step(*s, shapes_of(a.state())),
    ensures
        b.wf(),
        step_of(*s, a.state(), b.state()),
        shapes_of(b.state()) == step_shapes(*s, shapes_of(a.state())),
{
    proof {
        reveal(can_step);
        reveal(step_shapes);
    }
    match s {
        NetStep::ReflectPad(p) => {
            let local: Acts<S> = reflect_pad_acts(&a.local, *p);
            let global: Option<Acts<S>> = match &a.global {
                Some(g) => Some(reflect_pad_acts(g, *p)),
                None => None,
            };
            Branches { local, global }
        },
        NetStep::Ffc(w) => {
            let (local, global): (Acts<S>, Option<Acts<S>>) = run_ffc(
                w,
                &a.local,
                a.global.as_ref(),
            );
            Branches { local, global }
        },
        NetStep::Res(c1, c2) => run_residual(c1, c2, a),
        NetStep::Concat => match a.global {
            Some(g) => Branches { local: concat(&a.local, &g), global: None },
            None => Branches { local: a.local, global: None },
        },
        NetStep::Upsample(ct, bn) => {
            let mut local: Acts<S> = ct.forward(&a.local);
            let ghost u = local@;
            bn.apply(&mut local);
            let ghost n = local@;
            relu_inplace(&mut local);
            assert(upsampled(*ct, a.local@, u) && normed(*bn, u, n));
            Branches { local, global: None }
        },
        NetStep::OutConv(cv) => {
            let mut local: Acts<S> = cv.forward_pad(&a.local, 0, 1, false);
            let ghost u = local@;
            sigmoid_inplace(&mut local);
            assert(convolved(*cv, a.local@, 0, 1, false, u) && squashed(u, local@));
            Branches { local, global: a.global }
        },
    }
}

impl<S: Scalar> Net<S> {
    /// Resolve every parameter of a plan.
    pub fn load(store: &WeightStore, model: &Model) -> (res: Result<Self, String>)
        requires
            store.wf(),
            plan_shaped(*store, model.steps@),
        ensures
            match first_unmet(*store, plan_needs(model.steps@)) {
                Some(text) => res matches Err(e) && e@ == text,
                None => res matches Ok(net) && net_from(*store, model.steps@, net),
            },
    {
        let ghost plan = model.steps@;
        let mut steps: Vec<NetStep<S>> = Vec::new();
        let mut i: usize = 0;
        assert(plan.take(0) =~= Seq::empty());
        while i < model.steps.len()
            invariant
                store.wf(),
                plan == model.steps@,
                plan_shaped(*store, plan),
                i <= plan.len(),
                steps@.len() == i,
                first_unmet(*store, plan_needs(plan.take(i as int))) is None,
                forall|j: int| 0 <= j < i ==> step_from(*store, plan[j], #[trigger] steps@[j]),
            decreases plan.len() - i,
        {
            proof {
                assert(plan.take(i + 1).drop_last() =~= plan.take(i as int));
                lemma_needs_in_turn(
                    *store,
                    plan_needs(plan.take(i as int)),
                    step_needs(plan[i as int]),
                );
            }
            match load_step(store, &model.steps[i]) {
                Ok(s) => steps.push(s),
                Err(e) => {
                    proof {
                        lemma_unmet_stays(*store, plan, i + 1);
                    }
                    return Err(e);
                },
            }
            i += 1;
        }
        assert(plan.take(i as int) =~= plan);
        Ok(Net { steps })
    }

    /// Run the network.  `input` is `[4][h][w]`; the result is `[3][h][w]`.
    pub fn forward(&self, input: Acts<S>) -> (out: Acts<S>)
        requires
            input.wf(),
            can_run(*self, shape_of(input@)),
        ensures
            out.wf(),
            net_of(*self, input@, out@),
            shape_of(out@) == shapes_after(
                *self,
                Shapes { local: shape_of(input@), global: None },
                self.steps@.len(),
            ).local,
    {
        let ghost start = State { local: input@, global: None };
        let ghost shapes = Shapes { local: shape_of(input@), global: None };
        let ghost step = steps_of(*self);
        let mut now = Branches { local: input, global: None };
        proof {
            lemma_no_steps(start, step);
        }
        let mut i: usize = 0;
        while i < self.steps.len()
            invariant
                can_run(*self, shapes.local),
                shapes.global is None,
                step == steps_of(*self),
                0 <= i <= self.steps@.len(),
                now.wf(),
                shapes_of(now.state()) == shapes_after(*self, shapes, i as nat),
                folds(start, step, i as nat, now.state()),
            decreases self.steps@.len() - i,
        {
            let ghost before = now.state();
            proof {
                assert(shapes == Shapes { local: shapes.local, global: None });
                assert(can_step(self.steps@[i as int], shapes_after(*self, shapes, i as nat)));
            }
            now = run_step(&self.steps[i], now);
            proof {
                assert(step(i as int, before, now.state()));
                lemma_step(start, step, i as nat, before, now.state());
            }
            i += 1;
        }
        assert(now.state() == State { local: now.local@, global: view_opt(now.global) });
        now.local
    }
}

/// Run a loaded network on one image: `input` holds `[4][h][w]`, the result `[3][h][w]`.
pub fn infer<S: Scalar>(net: &Net<S>, input: Vec<S>, h: usize, w: usize) -> (out: Vec<S>)
    requires
        input.len() == 4 * h * w,
        can_run(*net, Shape { c: 4, h: h as int, w: w as int }),
    ensures
        inferred(*net, input@, h as int, w as int, out@),
{
    let acts = Acts { c: 4, h, w, data: input };
    assert(acts@ == Planes { c: 4, h: h as int, w: w as int, data: input@ });
    let out: Acts<S> = net.forward(acts);
    assert(out@.data == out.data@);
    out.data
}

/// `out` is what a network makes of `[4][h][w]` numbers.
pub open spec fn inferred<S: Scalar>(net: Net<S>, input: Seq<S>, h: int, w: int, out: Seq<S>) -> bool {
    exists|p: Planes<S>| #[trigger]
        net_of(net, Planes { c: 4, h, w, data: input }, p) && p.data == out && p.wf() && shape_of(p)
            == shapes_after(
            net,
            Shapes { local: Shape { c: 4, h, w }, global: None },
            net.steps@.len(),
        ).local
}

/// `out` is what the network of a plan and a checkpoint makes of `[4][h][w]` numbers.
pub open spec fn leads_to<S: Scalar>(
    store: WeightStore,
    steps: Seq<Step>,
    input: Seq<S>,
    h: int,
    w: int,
    out: Seq<S>,
) -> bool {
    exists|net: Net<S>| #[trigger] net_from(store, steps, net) && inferred(net, input, h, w, out)
}

/// Load a network and run it on one image.
pub fn run<S: Scalar>(store: &WeightStore, model: &Model, input: Vec<S>, h: usize, w: usize) -> (res:
    Result<Vec<S>, String>)
    requires
        store.wf(),
        plan_shaped(*store, model.steps@),
        input.len() == 4 * h * w,
        forall|net: Net<S>|
            net_from(*store, model.steps@, net) ==> #[trigger] can_run(
                net,
                Shape { c: 4, h: h as int, w: w as int },
            ),
    ensures
        match first_unmet(*store, plan_needs(model.steps@)) {
            Some(text) => res matches Err(e) && e@ == text,
            None => res matches Ok(out) && leads_to(
                *store,
                model.steps@,
                input@,
                h as int,
                w as int,
                out@,
            ),
        },
{
    let ghost data = input@;
    match Net::load(store, model) {
        Ok(net) => {
            let out: Vec<S> = infer(&net, input, h, w);
            assert(leads_to(*store, model.steps@, data, h as int, w as int, out@)) by {
                assert(net_from(*store, model.steps@, net));
            }
            Ok(out)
        },
        Err(e) => Err(e),
    }
}

} // verus!
