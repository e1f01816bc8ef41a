//! The big-lama generator as a plan: the network description that both engines walk.
//!
//! The steps follow the module tree of the generator, so that parameter names line up
//! with the checkpoint:
//!
//! ```text
//!   model.0  ReflectionPad2d(3)
//!   model.1  FFC_BN_ACT(4 -> 64,     k7, pad 0)         local only
//!   model.2  FFC_BN_ACT(64 -> 128,   k3, s2, pad 1)     local only
//!   model.3  FFC_BN_ACT(128 -> 256,  k3, s2, pad 1)     local only
//!   model.4  FFC_BN_ACT(256 -> 512,  k3, s2, pad 1)     three quarters global
//!   model.5..22  FFCResnetBlock(512) x18                three quarters global
//!   model.23 ConcatTupleLayer
//!   model.24 ConvTranspose2d(a->b,k3,s2,p1,op1) + BN + ReLU
//!   model.27 .. model.30
//!   model.33 ReflectionPad2d(3)
//!   model.34 Conv2d(64 -> 3, k7)
//!   model.35 Sigmoid
//! ```
//!
//! Every spatial convolution in an FFC block reflect-pads, the strided ones included.

use vstd::prelude::*;
use vstd::string::StringExecFns;

use crate::text::{decimal, push_number};

verus! {

/// One optional convolution inside an FFC block.
#[derive(Debug, Clone, PartialEq, Eq)]
pub enum ConvRef {
    /// Not present (Identity).
    Absent,
    /// Present; the weight lives under `model.{i}.ffc.{name}`.
    Present { name: &'static str, cin: usize, cout: usize },
}

/// An `FFC_BN_ACT`: local and global input halves, each optionally convolved.
#[derive(Debug, Clone)]
pub struct FfcBlock {
    /// `model.{index}` for the parameter names.
    pub index: usize,
    /// Sub-module index within the layer (resnet blocks have two).
    pub sub: usize,
    pub cin: usize,
    pub cout: usize,
    pub kernel: usize,
    pub stride: usize,
    /// True when the spatial convolutions pad with zeros; false when they reflect-pad.
    pub zero_pad: bool,
    /// Padding of the spatial convolutions: half the kernel, except that `model.1` has
    /// none and leans on the reflection pad that precedes it.
    pub pad: usize,
    pub reflection: bool,
    pub in_local: usize,
    pub in_global: usize,
    pub out_local: usize,
    pub out_global: usize,
    pub l2l: ConvRef,
    pub l2g: ConvRef,
    pub g2l: ConvRef,
    /// Whether the block has a spectral transform from global to global.
    pub g2g: bool,
    /// BatchNorm + ReLU on the local output.
    pub bn_local: bool,
    /// BatchNorm + ReLU on the global output.
    pub bn_global: bool,
}

/// A residual FFC block: two `FFC_BN_ACT`s plus a skip connection.
#[derive(Debug, Clone)]
pub struct ResBlock {
    pub index: usize,
    pub conv1: FfcBlock,
    pub conv2: FfcBlock,
    /// Global channel count entering the block (for the inline split).
    pub in_global: usize,
}

/// A learned upsampling by two, with its BatchNorm.
#[derive(Debug, Clone)]
pub struct Upsample {
    pub index: usize,
    pub cin: usize,
    pub cout: usize,
    pub kernel: usize,
    pub stride: usize,
    pub pad: usize,
    pub output_padding: usize,
    pub bn_index: usize,
}

/// The closing convolution.
#[derive(Debug, Clone)]
pub struct OutConv {
    pub index: usize,
    pub cin: usize,
    pub cout: usize,
    pub kernel: usize,
}

/// One step of the plan.
#[derive(Debug, Clone)]
pub enum Step {
    ReflectPad(usize),
    Ffc(FfcBlock),
    ResBlock(ResBlock),
    Concat,
    Upsample(Upsample),
    OutConv(OutConv),
}

/// Ordered execution plan.
#[derive(Debug, Clone)]
pub struct Model {
    pub steps: Vec<Step>,
}

/// The share of channels that the resnet blocks keep global, in quarters.
pub const FFC_RESNET_QUARTERS: usize = 3;

/// A convolution from `cin` to `cout` channels, or none where either side has none.
pub open spec fn conv_ref(r: ConvRef, cin: int, cout: int, name: Seq<char>) -> bool {
    match r {
        ConvRef::Absent => cin == 0 || cout == 0,
        ConvRef::Present { name: n, cin: a, cout: b } => cin != 0 && cout != 0 && n@ == name && a
            == cin && b == cout,
    }
}

/// `b` is a block of the given shape whose inputs and outputs are global for `gin` and
/// `gout` quarters of their channels.
pub open spec fn ffc_block(
    b: FfcBlock,
    index: int,
    sub: int,
    cin: int,
    cout: int,
    kernel: int,
    stride: int,
    gin: int,
    gout: int,
) -> bool {
    &&& b.index == index
    &&& b.sub == sub
    &&& b.cin == cin
    &&& b.cout == cout
    &&& b.kernel == kernel
    &&& b.stride == stride
    &&& b.in_global == cin * gin / 4
    &&& b.out_global == cout * gout / 4
    &&& b.in_local == cin - b.in_global
    &&& b.out_local == cout - b.out_global
    &&& conv_ref(b.l2l, b.in_local as int, b.out_local as int, "convl2l"@)
    &&& conv_ref(b.l2g, b.in_local as int, b.out_global as int, "convl2g"@)
    &&& conv_ref(b.g2l, b.in_global as int, b.out_local as int, "convg2l"@)
    &&& b.g2g == (b.in_global > 0 && b.out_global > 0)
    &&& b.bn_local == (b.out_local > 0)
    &&& b.bn_global == (b.out_global > 0)
}

/// How a block pads: by `pad`, mirrored.
pub open spec fn pads_by(b: FfcBlock, pad: int) -> bool {
    b.pad == pad && b.reflection && !b.zero_pad
}

/// A step is a standalone block.
pub open spec fn is_ffc(s: Step, index: int, cin: int, cout: int, kernel: int, stride: int, gout: int, pad: int) -> bool {
    s matches Step::Ffc(b) && ffc_block(b, index, 0, cin, cout, kernel, stride, 0, gout) && pads_by(
        b,
        pad,
    )
}

/// A step is one of the resnet blocks.
pub open spec fn is_resblock(s: Step, index: int) -> bool {
    s matches Step::ResBlock(r) && {
        &&& r.index == index
        &&& ffc_block(r.conv1, index, 1, 512, 512, 3, 1, 3, 3)
        &&& ffc_block(r.conv2, index, 2, 512, 512, 3, 1, 3, 3)
        &&& pads_by(r.conv1, 1)
        &&& pads_by(r.conv2, 1)
        &&& r.in_global == 384
    }
}

/// A step is one of the upsamplings by two.
pub open spec fn is_upsample(s: Step, index: int, cin: int, cout: int) -> bool {
    s matches Step::Upsample(u) && {
        &&& u.index == index
        &&& u.cin == cin
        &&& u.cout == cout
        &&& u.kernel == 3
        &&& u.stride == 2
        &&& u.pad == 1
        &&& u.output_padding == 1
        &&& u.bn_index == index + 1
    }
}

/// The plan of the big-lama generator, step by step.
pub open spec fn is_big_lama(steps: Seq<Step>) -> bool {
    &&& steps.len() == 29
    &&& steps[0] == Step::ReflectPad(3)
    &&& is_ffc(steps[1], 1, 4, 64, 7, 1, 0, 0)
    &&& is_ffc(steps[2], 2, 64, 128, 3, 2, 0, 1)
    &&& is_ffc(steps[3], 3, 128, 256, 3, 2, 0, 1)
    &&& is_ffc(steps[4], 4, 256, 512, 3, 2, 3, 1)
    &&& forall|i: int| 5 <= i <= 22 ==> is_resblock(#[trigger] steps[i], i)
    &&& steps[23] == Step::Concat
    &&& is_upsample(steps[24], 24, 512, 256)
    &&& is_upsample(steps[25], 27, 256, 128)
    &&& is_upsample(steps[26], 30, 128, 64)
    &&& steps[27] == Step::ReflectPad(3)
    &&& steps[28] == Step::OutConv(OutConv { index: 34, cin: 64, cout: 3, kernel: 7 })
}

fn present(a: usize, b: usize, name: &'static str) -> (r: ConvRef)
    ensures
        conv_ref(r, a as int, b as int, name@),
{
    if a == 0 || b == 0 {
        ConvRef::Absent
    } else {
        ConvRef::Present { name, cin: a, cout: b }
    }
}

/// Derive one FFC block's branch configuration: `gin` and `gout` are the shares of the
/// input and output channels that are global, in quarters.
fn ffc(
    index: usize,
    sub: usize,
    cin: usize,
    cout: usize,
    kernel: usize,
    stride: usize,
    zero_pad: bool,
    reflection: bool,
    gin: usize,
    gout: usize,
) -> (b: FfcBlock)
    requires
        gin <= 4,
        gout <= 4,
        4 * cin <= usize::MAX,
        4 * cout <= usize::MAX,
    ensures
        ffc_block(
            b,
            index as int,
            sub as int,
            cin as int,
            cout as int,
            kernel as int,
            stride as int,
            gin as int,
            gout as int,
        ),
        b.pad == kernel / 2,
        b.zero_pad == zero_pad,
        b.reflection == reflection,
{
    assert(cin * gin <= 4 * cin) by (nonlinear_arith)
        requires
            gin <= 4,
            0 <= cin,
    ;
    assert(cout * gout <= 4 * cout) by (nonlinear_arith)
        requires
            gout <= 4,
            0 <= cout,
    ;
    let in_global: usize = cin * gin / 4;
    let out_global: usize = cout * gout / 4;
    let in_local: usize = cin - in_global;
    let out_local: usize = cout - out_global;
    FfcBlock {
        index,
        sub,
        cin,
        cout,
        kernel,
        stride,
        zero_pad,
        pad: kernel / 2,
        reflection,
        in_local,
        in_global,
        out_local,
        out_global,
        l2l: present(in_local, out_local, "convl2l"),
        l2g: present(in_local, out_global, "convl2g"),
        g2l: present(in_global, out_local, "convg2l"),
        g2g: in_global > 0 && out_global > 0,
        bn_local: out_local > 0,
        bn_global: out_global > 0,
    }
}

fn upsample(index: usize, cin: usize, cout: usize) -> (s: Step)
    requires
        index < 1000,
    ensures
        is_upsample(s, index as int, cin as int, cout as int),
{
    Step::Upsample(
        Upsample {
            index,
            cin,
            cout,
            kernel: 3,
            stride: 2,
            pad: 1,
            output_padding: 1,
            bn_index: index + 1,
        },
    )
}

/// Build the plan.
pub fn build() -> (m: Model)
    ensures
        is_big_lama(m.steps@),
{
    let mut steps: Vec<Step> = Vec::new();
    steps.push(Step::ReflectPad(3));

    // model.1: the preceding reflection pad supplies the border, so the 7x7 convolution
    // is "valid" and the plane stays the same size.
    let mut init: FfcBlock = ffc(1, 0, 4, 64, 7, 1, false, true, 0, 0);
    init.pad = 0;
    steps.push(Step::Ffc(init));

    // model.2 and model.3 are local only; model.4 splits 512 into 128 local and 384 global.
    steps.push(Step::Ffc(ffc(2, 0, 64, 128, 3, 2, false, true, 0, 0)));
    steps.push(Step::Ffc(ffc(3, 0, 128, 256, 3, 2, false, true, 0, 0)));
    steps.push(Step::Ffc(ffc(4, 0, 256, 512, 3, 2, false, true, 0, FFC_RESNET_QUARTERS)));

    // model.5..model.22: sub 1 and 2 select `model.{i}.conv1` and `model.{i}.conv2` in the
    // parameter names.
    let mut index: usize = 5;
    while index <= 22
        invariant
            5 <= index <= 23,
            steps@.len() == index,
            steps@[0] == Step::ReflectPad(3),
            is_ffc(steps@[1], 1, 4, 64, 7, 1, 0, 0),
            is_ffc(steps@[2], 2, 64, 128, 3, 2, 0, 1),
            is_ffc(steps@[3], 3, 128, 256, 3, 2, 0, 1),
            is_ffc(steps@[4], 4, 256, 512, 3, 2, 3, 1),
            forall|i: int| 5 <= i < index ==> is_resblock(#[trigger] steps@[i], i),
        decreases 23 - index,
    {
        let conv1: FfcBlock = ffc(
            index,
            1,
            512,
            512,
            3,
            1,
            false,
            true,
            FFC_RESNET_QUARTERS,
            FFC_RESNET_QUARTERS,
        );
        let conv2: FfcBlock = ffc(
            index,
            2,
            512,
            512,
            3,
            1,
            false,
            true,
            FFC_RESNET_QUARTERS,
            FFC_RESNET_QUARTERS,
        );
        let in_global: usize = conv1.in_global;
        steps.push(Step::ResBlock(ResBlock { index, conv1, conv2, in_global }));
        index += 1;
    }

    steps.push(Step::Concat);

    // After the concatenation the bottleneck carries 128 + 384 = 512 channels.
    steps.push(upsample(24, 512, 256));
    steps.push(upsample(27, 256, 128));
    steps.push(upsample(30, 128, 64));

    steps.push(Step::ReflectPad(3));
    steps.push(Step::OutConv(OutConv { index: 34, cin: 64, cout: 3, kernel: 7 }));

    Model { steps }
}

/// The number of `FFC_BN_ACT`s that a step evaluates.
pub open spec fn ffc_calls(s: Step) -> nat {
    match s {
        Step::Ffc(_) => 1,
        Step::ResBlock(_) => 2,
        _ => 0,
    }
}

/// The number of `FFC_BN_ACT`s that a plan evaluates.
pub open spec fn total_ffc_calls(steps: Seq<Step>) -> nat
    decreases steps.len(),
{
    if steps.len() == 0 {
        0
    } else {
        total_ffc_calls(steps.drop_last()) + ffc_calls(steps.last())
    }
}

/// The number of residual blocks in a plan.
pub open spec fn total_resblocks(steps: Seq<Step>) -> nat
    decreases steps.len(),
{
    if steps.len() == 0 {
        0
    } else {
        total_resblocks(steps.drop_last()) + if steps.last() is ResBlock {
            1nat
        } else {
            0nat
        }
    }
}

/// A plan in one line.
pub open spec fn described(steps: Seq<Step>) -> Seq<char> {
    decimal(steps.len()) + " steps, "@ + decimal(total_ffc_calls(steps)) + " FFC_BN_ACT calls, "@
        + decimal(total_resblocks(steps)) + " resblocks"@
}

proof fn lemma_calls_middle(steps: Seq<Step>, n: nat)
    requires
        is_big_lama(steps),
        5 <= n <= 23,
    ensures
        total_ffc_calls(steps.take(n as int)) == 4 + 2 * (n - 5),
        total_resblocks(steps.take(n as int)) == n - 5,
    decreases n,
{
    let now = steps.take(n as int);
    assert(now.drop_last() =~= steps.take(n - 1));
    if n == 5 {
        assert(steps.take(4).drop_last() =~= steps.take(3));
        assert(steps.take(3).drop_last() =~= steps.take(2));
        assert(steps.take(2).drop_last() =~= steps.take(1));
        assert(steps.take(1).drop_last() =~= steps.take(0));
        assert(total_ffc_calls(steps.take(0)) == 0 && total_resblocks(steps.take(0)) == 0);
        assert(steps.take(1).last() == Step::ReflectPad(3));
        assert(total_ffc_calls(steps.take(1)) == 0 && total_resblocks(steps.take(1)) == 0);
        assert(total_ffc_calls(steps.take(2)) == 1 && total_resblocks(steps.take(2)) == 0);
        assert(total_ffc_calls(steps.take(3)) == 2 && total_resblocks(steps.take(3)) == 0);
        assert(total_ffc_calls(steps.take(4)) == 3 && total_resblocks(steps.take(4)) == 0);
    } else {
        lemma_calls_middle(steps, (n - 1) as nat);
        assert(is_resblock(steps[n - 1], n - 1));
    }
}

/// The generator in one line: 29 steps, of which 4 are single blocks and 18 are residual
/// blocks of two.
pub proof fn law_description_of_the_plan(steps: Seq<Step>)
    requires
        is_big_lama(steps),
    ensures
        total_ffc_calls(steps) == 40,
        total_resblocks(steps) == 18,
        described(steps) == "29 steps, 40 FFC_BN_ACT calls, 18 resblocks"@,
{
    lemma_calls_middle(steps, 23);
    assert(steps.take(24).drop_last() =~= steps.take(23));
    assert(steps.take(25).drop_last() =~= steps.take(24));
    assert(steps.take(26).drop_last() =~= steps.take(25));
    assert(steps.take(27).drop_last() =~= steps.take(26));
    assert(steps.take(28).drop_last() =~= steps.take(27));
    assert(steps.drop_last() =~= steps.take(28));
    assert(total_ffc_calls(steps.take(24)) == 40 && total_resblocks(steps.take(24)) == 18);
    assert(total_ffc_calls(steps.take(25)) == 40 && total_resblocks(steps.take(25)) == 18);
    assert(total_ffc_calls(steps.take(26)) == 40 && total_resblocks(steps.take(26)) == 18);
    assert(total_ffc_calls(steps.take(27)) == 40 && total_resblocks(steps.take(27)) == 18);
    assert(total_ffc_calls(steps.take(28)) == 40 && total_resblocks(steps.take(28)) == 18);
    reveal_with_fuel(decimal, 3);
    reveal_strlit(" steps, ");
    reveal_strlit(" FFC_BN_ACT calls, ");
    reveal_strlit(" resblocks");
    reveal_strlit("29 steps, 40 FFC_BN_ACT calls, 18 resblocks");
    assert(decimal(29) =~= seq!['2', '9']);
    assert(decimal(40) =~= seq!['4', '0']);
    assert(decimal(18) =~= seq!['1', '8']);
    assert(described(steps) =~= "29 steps, 40 FFC_BN_ACT calls, 18 resblocks"@);
}

/// A plan in one line, for logging: how many steps, blocks and residual blocks it has.
pub fn describe(model: &Model) -> (s: String)
    requires
        2 * model.steps.len() <= usize::MAX,
    ensures
        s@ == decimal(model.steps@.len()) + " steps, "@ + decimal(total_ffc_calls(model.steps@))
            + " FFC_BN_ACT calls, "@ + decimal(total_resblocks(model.steps@)) + " resblocks"@,
        s@ == described(model.steps@),
{
    let mut ffc_count: usize = 0;
    let mut res_blocks: usize = 0;
    let mut i: usize = 0;
    assert(model.steps@.take(0) =~= Seq::empty());
    while i < model.steps.len()
        invariant
            i <= model.steps@.len(),
            2 * model.steps.len() <= usize::MAX,
            ffc_count == total_ffc_calls(model.steps@.take(i as int)),
            res_blocks == total_resblocks(model.steps@.take(i as int)),
            ffc_count <= 2 * i,
            res_blocks <= i,
        decreases model.steps@.len() - i,
    {
        assert(model.steps@.take(i + 1).drop_last() =~= model.steps@.take(i as int));
        match &model.steps[i] {
            Step::Ffc(_) => {
                ffc_count += 1;
            },
            Step::ResBlock(_) => {
                res_blocks += 1;
                ffc_count += 2;
            },
            _ => {},
        }
        i += 1;
    }
    assert(model.steps@.take(i as int) =~= model.steps@);
    let mut s = String::new();
    push_number(&mut s, model.steps.len() as u64);
    s.append(" steps, ");
    push_number(&mut s, ffc_count as u64);
    s.append(" FFC_BN_ACT calls, ");
    push_number(&mut s, res_blocks as u64);
    s.append(" resblocks");
    assert(s@ =~= decimal(model.steps@.len()) + " steps, "@ + decimal(
        total_ffc_calls(model.steps@),
    ) + " FFC_BN_ACT calls, "@ + decimal(total_resblocks(model.steps@)) + " resblocks"@);
    s
}

/// The planes between two steps: how many are local and how many global, and their size.
pub struct Flow {
    pub local: int,
    pub global: int,
    pub h: int,
    pub w: int,
}

/// The extent of a convolution's output.
pub open spec fn conv_extent(n: int, kernel: int, stride: int, pad: int) -> int {
    (n + 2 * pad - kernel) / stride + 1
}

/// Whether a block is given the planes that it was made for.
pub open spec fn ffc_takes(b: FfcBlock, f: Flow) -> bool {
    &&& f.local == b.in_local
    &&& f.global == b.in_global
    &&& f.h + 2 * b.pad >= b.kernel
    &&& f.w + 2 * b.pad >= b.kernel
}

/// What a block makes of the planes that it is given.
pub open spec fn ffc_gives(b: FfcBlock, f: Flow) -> Flow {
    Flow {
        local: b.out_local as int,
        global: b.out_global as int,
        h: conv_extent(f.h, b.kernel as int, b.stride as int, b.pad as int),
        w: conv_extent(f.w, b.kernel as int, b.stride as int, b.pad as int),
    }
}

/// Whether a step is given the planes that it was made for.
pub open spec fn step_takes(s: Step, f: Flow) -> bool {
    match s {
        Step::ReflectPad(p) => f.h > p && f.w > p,
        Step::Ffc(b) => ffc_takes(b, f),
        Step::ResBlock(r) => {
            let m = ffc_gives(r.conv1, f);
            &&& ffc_takes(r.conv1, f)
            &&& ffc_takes(r.conv2, m)
            &&& ffc_gives(r.conv2, m) == f
        },
        Step::Concat => f.global > 0,
        Step::Upsample(u) => f.local == u.cin && f.global == 0,
        Step::OutConv(o) => f.local == o.cin && f.global == 0 && f.h >= o.kernel && f.w >= o.kernel,
    }
}

/// What a step makes of the planes that it is given.
pub open spec fn step_gives(s: Step, f: Flow) -> Flow {
    match s {
        Step::ReflectPad(p) => Flow { h: f.h + 2 * p, w: f.w + 2 * p, ..f },
        Step::Ffc(b) => ffc_gives(b, f),
        Step::ResBlock(r) => ffc_gives(r.conv2, ffc_gives(r.conv1, f)),
        Step::Concat => Flow { local: f.local + f.global, global: 0, ..f },
        Step::Upsample(u) => Flow { local: u.cout as int, global: 0, h: 2 * f.h, w: 2 * f.w },
        Step::OutConv(o) => Flow {
            local: o.cout as int,
            global: 0,
            h: f.h - o.kernel + 1,
            w: f.w - o.kernel + 1,
        },
    }
}

/// The planes after the first `n` steps.
pub open spec fn flow_after(steps: Seq<Step>, f: Flow, n: nat) -> Flow
    decreases n,
{
    if n == 0 {
        f
    } else {
        step_gives(steps[n - 1], flow_after(steps, f, (n - 1) as nat))
    }
}

/// Whether every step is given the planes that it was made for.
pub open spec fn flows(steps: Seq<Step>, f: Flow) -> bool {
    forall|i: int|
        0 <= i < steps.len() ==> step_takes(#[trigger] steps[i], flow_after(steps, f, i as nat))
}

/// The four planes of an input of `h` rows and `w` columns.
pub open spec fn input_flow(h: int, w: int) -> Flow {
    Flow { local: 4, global: 0, h, w }
}

/// The eight-fold smaller planes in the middle of the network.
spec fn bottleneck(h: int, w: int) -> Flow {
    Flow { local: 128, global: 384, h: h / 8, w: w / 8 }
}

#[verifier::spinoff_prover]
#[verifier::rlimit(50)]
proof fn lemma_down(steps: Seq<Step>, h: int, w: int)
    requires
        is_big_lama(steps),
        8 <= h,
        8 <= w,
        h % 8 == 0,
        w % 8 == 0,
    ensures
        forall|i: int|
            0 <= i < 5 ==> step_takes(
                #[trigger] steps[i],
                flow_after(steps, input_flow(h, w), i as nat),
            ),
        flow_after(steps, input_flow(h, w), 5) == bottleneck(h, w),
{
    let f = input_flow(h, w);
    assert(flow_after(steps, f, 0) == f);
    assert(flow_after(steps, f, 1) == Flow { local: 4, global: 0, h: h + 6, w: w + 6 });
    assert(flow_after(steps, f, 2) == Flow { local: 64, global: 0, h, w });
    assert(flow_after(steps, f, 3) == Flow { local: 128, global: 0, h: h / 2, w: w / 2 });
    assert(flow_after(steps, f, 4) == Flow { local: 256, global: 0, h: h / 4, w: w / 4 });
    assert(flow_after(steps, f, 5) == bottleneck(h, w));
}

proof fn lemma_resblock(s: Step, index: int, f: Flow)
    requires
        is_resblock(s, index),
        f.local == 128,
        f.global == 384,
        f.h >= 1,
        f.w >= 1,
    ensures
        step_takes(s, f),
        step_gives(s, f) == f,
{
}

proof fn lemma_middle(steps: Seq<Step>, h: int, w: int, n: nat)
    requires
        is_big_lama(steps),
        8 <= h,
        8 <= w,
        h % 8 == 0,
        w % 8 == 0,
        5 <= n <= 23,
    ensures
        forall|i: int|
            0 <= i < n ==> step_takes(
                #[trigger] steps[i],
                flow_after(steps, input_flow(h, w), i as nat),
            ),
        flow_after(steps, input_flow(h, w), n) == bottleneck(h, w),
    decreases n,
{
    if n == 5 {
        lemma_down(steps, h, w);
    } else {
        lemma_middle(steps, h, w, (n - 1) as nat);
        lemma_resblock(steps[n - 1], n - 1, bottleneck(h, w));
        let f = input_flow(h, w);
        assert forall|i: int| 0 <= i < n implies step_takes(
            #[trigger] steps[i],
            flow_after(steps, f, i as nat),
        ) by {
            if i == n - 1 {
                assert(flow_after(steps, f, i as nat) == bottleneck(h, w));
            }
        }
        assert(flow_after(steps, f, n) == step_gives(steps[n - 1], bottleneck(h, w)));
    }
}

/// The plan chains: every step is given the channels that it was made for, and an image
/// whose sides are multiples of 8 comes out as three planes of its own size.
#[verifier::spinoff_prover]
#[verifier::rlimit(50)]
pub proof fn law_plan_keeps_the_size(steps: Seq<Step>, h: int, w: int)
    requires
        is_big_lama(steps),
        8 <= h,
        8 <= w,
        h % 8 == 0,
        w % 8 == 0,
    ensures
        flows(steps, input_flow(h, w)),
        flow_after(steps, input_flow(h, w), steps.len()) == (Flow { local: 3, global: 0, h, w }),
{
    let f = input_flow(h, w);
    lemma_middle(steps, h, w, 23);
    assert(flow_after(steps, f, 24) == Flow { local: 512, global: 0, h: h / 8, w: w / 8 });
    assert(flow_after(steps, f, 25) == Flow { local: 256, global: 0, h: h / 4, w: w / 4 });
    assert(flow_after(steps, f, 26) == Flow { local: 128, global: 0, h: h / 2, w: w / 2 });
    assert(flow_after(steps, f, 27) == Flow { local: 64, global: 0, h, w });
    assert(flow_after(steps, f, 28) == Flow { local: 64, global: 0, h: h + 6, w: w + 6 });
    assert(flow_after(steps, f, 29) == Flow { local: 3, global: 0, h, w });
    assert forall|i: int| 0 <= i < steps.len() implies step_takes(
        #[trigger] steps[i],
        flow_after(steps, f, i as nat),
    ) by {
        if i == 23 {
        } else if i == 24 {
        } else if i == 25 {
        } else if i == 26 {
        } else if i == 27 {
        } else if i == 28 {
        }
    }
}

/// What a part of the network has in the checkpoint.
pub struct Stock {
    /// BatchNorm modules.
    pub norms: int,
    /// Their channels in all.
    pub norm_channels: int,
    /// Tensors.
    pub tensors: int,
}

/// Two parts together.
pub open spec fn both(a: Stock, b: Stock) -> Stock {
    Stock {
        norms: a.norms + b.norms,
        norm_channels: a.norm_channels + b.norm_channels,
        tensors: a.tensors + b.tensors,
    }
}

/// A BatchNorm has its weight, bias, running mean, running variance and batch counter.
pub open spec fn norm_stock(channels: int) -> Stock {
    Stock { norms: 1, norm_channels: channels, tensors: 5 }
}

/// Nothing.
pub open spec fn no_stock() -> Stock {
    Stock { norms: 0, norm_channels: 0, tensors: 0 }
}

/// A convolution without a bias.
pub open spec fn conv_stock(r: ConvRef) -> Stock {
    Stock {
        tensors: if r is Present {
            1
        } else {
            0
        },
        ..no_stock()
    }
}

/// A spectral transform: three convolutions and the BatchNorms of the first two.
pub open spec fn spectral_stock(channels: int) -> Stock {
    both(
        both(norm_stock(channels / 2), norm_stock(2 * (channels / 2))),
        Stock { tensors: 3, ..no_stock() },
    )
}

/// A block's convolutions, spectral transform and BatchNorms.
pub open spec fn ffc_stock(b: FfcBlock) -> Stock {
    let convs = both(both(conv_stock(b.l2l), conv_stock(b.l2g)), conv_stock(b.g2l));
    let spectral = if b.g2g {
        spectral_stock(b.out_global as int)
    } else {
        no_stock()
    };
    let local = if b.bn_local {
        norm_stock(b.out_local as int)
    } else {
        no_stock()
    };
    let global = if b.bn_global {
        norm_stock(b.out_global as int)
    } else {
        no_stock()
    };
    both(both(convs, spectral), both(local, global))
}

/// What a step has in the checkpoint.
pub open spec fn step_stock(s: Step) -> Stock {
    match s {
        Step::Ffc(b) => ffc_stock(b),
        Step::ResBlock(r) => both(ffc_stock(r.conv1), ffc_stock(r.conv2)),
        Step::Upsample(u) => both(norm_stock(u.cout as int), Stock { tensors: 2, ..no_stock() }),
        Step::OutConv(_) => Stock { tensors: 2, ..no_stock() },
        _ => no_stock(),
    }
}

/// What the first `n` steps have in the checkpoint.
pub open spec fn stock(steps: Seq<Step>, n: nat) -> Stock
    decreases n,
{
    if n == 0 {
        no_stock()
    } else {
        both(stock(steps, (n - 1) as nat), step_stock(steps[n - 1]))
    }
}

proof fn lemma_stock_middle(steps: Seq<Step>, n: nat)
    requires
        is_big_lama(steps),
        5 <= n <= 23,
    ensures
        stock(steps, n) == (Stock {
            norms: 5 + 8 * (n - 5),
            norm_channels: 960 + 2176 * (n - 5),
            tensors: 30 + 52 * (n - 5),
        }),
    decreases n,
{
    if n == 5 {
        assert(stock(steps, 0) == no_stock());
        assert(stock(steps, 1) == no_stock());
        assert(stock(steps, 2).norm_channels == 64);
        assert(stock(steps, 3).norm_channels == 192);
        assert(stock(steps, 4).norm_channels == 448);
    } else {
        lemma_stock_middle(steps, (n - 1) as nat);
        assert(is_resblock(steps[n - 1], n - 1));
    }
}

/// The size of the plan: 152 BatchNorms with 40,576 channels between them, and 989
/// tensors in the checkpoint.
pub proof fn law_plan_stock(steps: Seq<Step>)
    requires
        is_big_lama(steps),
    ensures
        stock(steps, steps.len()) == (Stock { norms: 152, norm_channels: 40576, tensors: 989 }),
{
    lemma_stock_middle(steps, 23);
    let a = stock(steps, 23);
    assert(stock(steps, 24) == a);
    assert(stock(steps, 25) == both(a, step_stock(steps[24])));
    assert(stock(steps, 26) == both(stock(steps, 25), step_stock(steps[25])));
    assert(stock(steps, 27) == both(stock(steps, 26), step_stock(steps[26])));
    assert(stock(steps, 28) == stock(steps, 27));
}

/// A convolution has an output for every position at which its kernel fits into the padded
/// planes: the last one does, and one stride further it does not.
pub proof fn law_extent_counts_the_positions(n: int, kernel: int, stride: int, pad: int)
    requires
        1 <= stride,
        kernel <= n + 2 * pad,
    ensures
        ({
            let e = conv_extent(n, kernel, stride, pad);
            &&& 1 <= e
            &&& (e - 1) * stride + kernel <= n + 2 * pad
            &&& e * stride + kernel > n + 2 * pad
        }),
{
    let room = n + 2 * pad - kernel;
    let q = room / stride;
    vstd::arithmetic::div_mod::lemma_fundamental_div_mod(room, stride);
    assert(0 <= room % stride < stride) by (nonlinear_arith)
        requires
            1 <= stride,
    ;
    assert((q + 1) * stride == stride * q + stride && q * stride == stride * q) by (nonlinear_arith);
    assert(0 <= q) by (nonlinear_arith)
        requires
            stride * q + stride > room,
            0 <= room,
            1 <= stride,
    ;
}

} // verus!
