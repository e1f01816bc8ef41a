//! The steps of the network with their parameters on a device.

use vstd::prelude::*;
use vstd::string::StringExecFns;

use crate::device::{Addr, Base};
use crate::ffc::conv_name;
use crate::gpu::{convt_placed, spectral_placed, DConvT, DSpectral};
use crate::gpu_load::{any_broken, first_broken, lemma_recorded, norm_at, norm_list, norms_even, stage_bns, stageable, Norms};
use crate::gpu_pass::{bn_placed_opt, conv_placed_opt, ffc_placed, step_placed, DFfc, DStep};
use crate::kernels::{bn_placed, conv_placed, DBn, DConv};
use crate::model::{ConvRef, FfcBlock, Model, Step};
use crate::names::{block, block_name, ffc_name, module, module_name};
use crate::needs::joined;
use crate::reorder::{input_major, phase_matrix, phase_of, swapped};
use crate::scalar::Scalar;
use crate::text::{decimal, push_number};
use crate::weights::{countable, missing, numel_of, WeightStore};

verus! {

/// Something that a step wants of the checkpoint.
pub enum Want {
    /// A tensor of this name.
    Tensor(Seq<char>),
    /// A staged BatchNorm of this name, with this many channels.
    Norm(Seq<char>, nat),
}

/// Whether the checkpoint marks a BatchNorm of this name.
pub open spec fn is_marked(store: WeightStore, p: Seq<char>) -> bool {
    exists|i: int| 0 <= i < store.index.order@.len() && #[trigger] norm_at(store, i) == Some(p)
}

/// The number of channels of a BatchNorm.
pub open spec fn channels_of(store: WeightStore, p: Seq<char>) -> nat {
    store.words(p + ".weight"@).len()
}

/// Whether a want is met.
pub open spec fn met(store: WeightStore, want: Want) -> bool {
    match want {
        Want::Tensor(name) => store.has(name),
        Want::Norm(p, n) => !any_broken(store) && is_marked(store, p) && channels_of(store, p) == n,
    }
}

/// `text` is the complaint about a want that is not met.
pub open spec fn complains_of(store: WeightStore, want: Want, text: Seq<char>) -> bool {
    match want {
        Want::Tensor(name) => !store.has(name) && text == missing(name),
        Want::Norm(p, n) => if any_broken(store) {
            first_broken(store, text)
        } else if !is_marked(store, p) {
            text == "BatchNorm "@ + p + " was not staged"@
        } else {
            channels_of(store, p) != n && text == "BatchNorm "@ + p + ": staged "@ + decimal(
                channels_of(store, p),
            ) + " scale / "@ + decimal(channels_of(store, p)) + " shift values, expected "@
                + decimal(n)
        },
    }
}

/// Whether all wants are met.
pub open spec fn all_met(store: WeightStore, wants: Seq<Want>) -> bool {
    forall|i: int| 0 <= i < wants.len() ==> met(store, #[trigger] wants[i])
}

/// `text` is the complaint about the first want that is not met.
pub open spec fn complains(store: WeightStore, wants: Seq<Want>, text: Seq<char>) -> bool {
    exists|k: int|
        {
            &&& 0 <= k < wants.len()
            &&& all_met(store, wants.take(k))
            &&& complains_of(store, #[trigger] wants[k], text)
        }
}

/// `text` is the outcome of asking for all wants in order.
#[verifier::opaque]
pub open spec fn outcome(store: WeightStore, wants: Seq<Want>, text: Option<Seq<char>>) -> bool {
    match text {
        Some(t) => complains(store, wants, t),
        None => all_met(store, wants),
    }
}

proof fn lemma_one_want(store: WeightStore, want: Want, text: Option<Seq<char>>)
    requires
        match text {
            Some(t) => complains_of(store, want, t),
            None => met(store, want),
        },
    ensures
        outcome(store, seq![want], text),
{
    reveal(outcome);
    let s = seq![want];
    if let Some(t) = text {
        assert(s.take(0) =~= Seq::empty());
        assert(complains_of(store, s[0], t));
    }
}

proof fn lemma_no_wants(store: WeightStore)
    ensures
        outcome(store, Seq::<Want>::empty(), None),
{
    reveal(outcome);
}

proof fn lemma_first_fails(store: WeightStore, a: Seq<Want>, b: Seq<Want>, t: Seq<char>)
    requires
        outcome(store, a, Some(t)),
    ensures
        outcome(store, a + b, Some(t)),
{
    reveal(outcome);
    let k = choose|k: int|
        {
            &&& 0 <= k < a.len()
            &&& all_met(store, a.take(k))
            &&& complains_of(store, #[trigger] a[k], t)
        };
    assert((a + b)[k] == a[k]);
    assert((a + b).take(k) =~= a.take(k));
}

proof fn lemma_then(store: WeightStore, a: Seq<Want>, b: Seq<Want>, text: Option<Seq<char>>)
    requires
        outcome(store, a, None),
        outcome(store, b, text),
    ensures
        outcome(store, a + b, text),
{
    reveal(outcome);
    let s = a + b;
    match text {
        None => {
            assert forall|i: int| 0 <= i < s.len() implies met(store, #[trigger] s[i]) by {
                if i < a.len() {
                    assert(s[i] == a[i]);
                } else {
                    assert(s[i] == b[i - a.len()]);
                }
            }
        },
        Some(t) => {
            let k = choose|k: int|
                {
                    &&& 0 <= k < b.len()
                    &&& all_met(store, b.take(k))
                    &&& complains_of(store, #[trigger] b[k], t)
                };
            let m = a.len() + k;
            assert(s[m] == b[k]);
            assert forall|i: int| 0 <= i < m implies met(store, #[trigger] s.take(m)[i]) by {
                if i < a.len() {
                    assert(s.take(m)[i] == a[i]);
                } else {
                    assert(s.take(m)[i] == b.take(k)[i - a.len()]);
                }
            }
            assert(all_met(store, s.take(m)));
        },
    }
}

/// The parameters loaded so far: the staged BatchNorms, once there are any, and the weights
/// that were uploaded in another order.
pub struct Loader<S> {
    pub norms: Option<Norms<S>>,
    pub uploads: Vec<Vec<u32>>,
}

impl<S: Scalar> Loader<S> {
    pub open spec fn wf(&self, store: WeightStore) -> bool {
        self.norms matches Some(n) ==> !any_broken(store) && n.covers(
            store,
            norm_list(store),
        )
    }

    /// The upload of a number.
    pub open spec fn upload(&self, i: int) -> Seq<u32> {
        self.uploads@[i]@
    }
}

/// `b` holds everything that `a` holds, in the same places.
pub open spec fn extends<S: Scalar>(a: Loader<S>, b: Loader<S>) -> bool {
    &&& a.norms is Some ==> b.norms == a.norms
    &&& a.uploads@.len() <= b.uploads@.len()
    &&& forall|i: int| 0 <= i < a.uploads@.len() ==> #[trigger] b.upload(i) == a.upload(i)
}

/// The weight of a convolution, if it is there, has four extents, and where it is to be
/// reordered also all its elements.
pub open spec fn conv_full(store: WeightStore, prefix: Seq<char>) -> bool {
    store.has(prefix + ".weight"@) ==> {
        let s = store.tensor(prefix + ".weight"@).shape@;
        s.len() >= 4 && (is_direct(s[2], s[3], s[0]) ==> s[0] * s[1] * s[2] * s[3] <= numel_of(s))
    }
}

/// The weight of an upsampling, if it is there, has all the elements of a 3x3 kernel.
pub open spec fn convt_full(store: WeightStore, prefix: Seq<char>) -> bool {
    store.has(prefix + ".weight"@) ==> {
        let s = store.tensor(prefix + ".weight"@).shape@;
        s.len() >= 2 && s[0] * s[1] * 3 * 3 <= numel_of(s)
    }
}

/// A tensor in the device copy of the checkpoint.
pub open spec fn stored_at(store: WeightStore, name: Seq<char>) -> Addr {
    Addr { base: Base::Weights, offset: store.tensor(name).offset }
}

/// Whether the direct 7x7 kernel takes a convolution.
pub open spec fn is_direct(kh: usize, kw: usize, cout: usize) -> bool {
    kh == 7 && kw == 7 && cout <= 8
}

/// `cv` is the convolution of this name on the device.
#[verifier::opaque]
pub open spec fn dconv_of<S: Scalar>(store: WeightStore, l: Loader<S>, prefix: Seq<char>, cv: DConv) -> bool {
    let name = prefix + ".weight"@;
    let bias = prefix + ".bias"@;
    let s = store.tensor(name).shape@;
    &&& cv.cout == s[0]
    &&& cv.cin == s[1]
    &&& cv.kh == s[2]
    &&& cv.kw == s[3]
    &&& cv.w == stored_at(store, name)
    &&& cv.bias == if store.has(bias) && store.words(bias).len() == cv.cout {
        Some(stored_at(store, bias))
    } else {
        None
    }
    &&& match cv.w_t {
        Some(a) => is_direct(cv.kh, cv.kw, cv.cout) && (a matches Addr {
            base: Base::Loaded(i),
            offset: 0,
        } && i < l.uploads@.len() && swapped(
            store.words(name),
            cv.cout as int,
            cv.cin as int,
            cv.kh as int,
            cv.kw as int,
            l.upload(i as int),
        )),
        None => !is_direct(cv.kh, cv.kw, cv.cout),
    }
}

/// `bn` is the staged BatchNorm of this name.
pub open spec fn dbn_of<S: Scalar>(l: Loader<S>, p: Seq<char>, channels: int, bn: DBn) -> bool {
    &&& l.norms matches Some(n) && {
        let (a, b) = n.records@[p];
        &&& n.records@.contains_key(p)
        &&& bn.scale == (Addr { base: Base::Staged, offset: n.staging.records@[a as int].0 })
        &&& bn.shift == (Addr { base: Base::Staged, offset: n.staging.records@[b as int].0 })
    }
    &&& bn.channels == channels
}

/// `cv` is the upsampling of this name on the device.
#[verifier::opaque]
pub open spec fn dconvt_of<S: Scalar>(store: WeightStore, l: Loader<S>, prefix: Seq<char>, cv: DConvT) -> bool {
    let name = prefix + ".weight"@;
    let s = store.tensor(name).shape@;
    &&& cv.cin == s[0]
    &&& cv.cout == s[1]
    &&& cv.w == stored_at(store, name)
    &&& cv.bias == stored_at(store, prefix + ".bias"@)
    &&& cv.phases matches Some(p) && p@.len() == 4 && forall|k: int|
        0 <= k < 4 ==> phase_loaded(store.words(name), l, cv, k, #[trigger] p@[k])
}

/// `a` is the uploaded matrix of one parity.
pub open spec fn phase_loaded<S: Scalar>(w: Seq<u32>, l: Loader<S>, cv: DConvT, k: int, a: Addr) -> bool {
    a matches Addr { base: Base::Loaded(i), offset: 0 } && i < l.uploads@.len() && phase_of(
        w,
        cv.cin as int,
        cv.cout as int,
        k,
        l.upload(i as int),
    )
}

impl<S: Scalar> Loader<S> {
    pub fn new() -> (l: Self)
        ensures
            l.norms is None,
            l.uploads@.len() == 0,
            forall|store: WeightStore| l.wf(store),
    {
        Loader { norms: None, uploads: Vec::new() }
    }

    fn add_upload(&mut self, data: Vec<u32>) -> (a: Addr)
        ensures
            extends(*old(self), *final(self)),
            final(self).norms == old(self).norms,
            a == (Addr { base: Base::Loaded(old(self).uploads.len()), offset: 0 }),
            final(self).uploads@.len() == old(self).uploads@.len() + 1,
            final(self).upload(old(self).uploads@.len() as int) == data@,
    {
        let i: usize = self.uploads.len();
        self.uploads.push(data);
        Addr { base: Base::Loaded(i), offset: 0 }
    }

    /// The convolution of this name.
    pub fn load_conv(&mut self, store: &WeightStore, prefix: &str) -> (res: Result<DConv, String>)
        requires
            store.wf(),
            old(self).wf(*store),
            conv_full(*store, prefix@),
        ensures
            final(self).wf(*store),
            extends(*old(self), *final(self)),
            match res {
                Ok(cv) => {
                    &&& outcome(*store, seq![Want::Tensor(prefix@ + ".weight"@)], None)
                    &&& dconv_of(*store, *final(self), prefix@, cv)
                    &&& conv_placed(cv)
                },
                Err(e) => outcome(*store, seq![Want::Tensor(prefix@ + ".weight"@)], Some(e@)),
            },
    {
        let name: String = joined(prefix, ".weight");
        let (cout, cin, kh, kw, offset): (usize, usize, usize, usize, usize) = match store.info(
            name.as_str(),
        ) {
            Ok(t) => (t.shape[0], t.shape[1], t.shape[2], t.shape[3], t.offset),
            Err(e) => {
                proof {
                    lemma_one_want(*store, Want::Tensor(name@), Some(e@));
                }
                return Err(e);
            },
        };
        proof {
            lemma_one_want(*store, Want::Tensor(name@), None);
        }
        let bias_name: String = joined(prefix, ".bias");
        let bias: Option<Addr> = match store.info(bias_name.as_str()) {
            Ok(t) => {
                assert(store.holds(bias_name@, *t));
                if t.numel() == cout {
                    Some(Addr { base: Base::Weights, offset: t.offset })
                } else {
                    None
                }
            },
            Err(_) => None,
        };
        let w_t: Option<Addr> = if kh == 7 && kw == 7 && cout <= 8 {
            match store.bits(name.as_str()) {
                Ok(w) => Some(self.add_upload(input_major(&w, cout, cin, kh, kw))),
                Err(e) => {
                    return Err(e);
                },
            }
        } else {
            None
        };
        let w = Addr { base: Base::Weights, offset };
        proof {
            reveal(dconv_of);
        }
        Ok(DConv { w, bias, cin, cout, kh, kw, w_t })
    }

    /// Stage the BatchNorms, the first time one is asked for.
    fn stage(&mut self, store: &WeightStore) -> (res: Result<(), String>)
        requires
            store.wf(),
            norms_even(*store),
            !any_broken(*store) ==> stageable(*store),
            old(self).wf(*store),
        ensures
            final(self).wf(*store),
            extends(*old(self), *final(self)),
            match res {
                Ok(_) => final(self).norms is Some,
                Err(e) => any_broken(*store) && first_broken(*store, e@),
            },
    {
        if self.norms.is_none() {
            match stage_bns::<S>(store) {
                Ok(n) => {
                    self.norms = Some(n);
                },
                Err(e) => {
                    return Err(e);
                },
            }
        }
        Ok(())
    }

    /// The BatchNorm of this name.
    pub fn load_bn(&mut self, store: &WeightStore, prefix: &str, channels: usize) -> (res: Result<
        DBn,
        String,
    >)
        requires
            store.wf(),
            norms_even(*store),
            !any_broken(*store) ==> stageable(*store),
            old(self).wf(*store),
        ensures
            final(self).wf(*store),
            extends(*old(self), *final(self)),
            match res {
                Ok(bn) => {
                    &&& outcome(*store, seq![Want::Norm(prefix@, channels as nat)], None)
                    &&& dbn_of(*final(self), prefix@, channels as int, bn)
                    &&& bn_placed(bn)
                },
                Err(e) => outcome(*store, seq![Want::Norm(prefix@, channels as nat)], Some(e@)),
            },
    {
        let ghost want = Want::Norm(prefix@, channels as nat);
        match self.stage(store) {
            Ok(_) => {},
            Err(e) => {
                proof {
                    lemma_one_want(*store, want, Some(e@));
                }
                return Err(e);
            },
        }
        let norms: &Norms<S> = match &self.norms {
            Some(n) => n,
            None => {
                return Err(String::new());
            },
        };
        proof {
            lemma_recorded(*norms, *store, prefix@);
        }
        let (a, b): (usize, usize) = match norms.records.get(prefix) {
            Some(r) => *r,
            None => {
                let mut e: String = "BatchNorm ".to_owned();
                e.append(prefix);
                e.append(" was not staged");
                proof {
                    assert(!is_marked(*store, prefix@));
                    lemma_one_want(*store, want, Some(e@));
                }
                return Err(e);
            },
        };
        proof {
            assert(norms.records@.contains_key(prefix@));
            assert(norms.holds(*store, prefix@));
            assert(is_marked(*store, prefix@));
        }
        let (scale_at, scale_len): (usize, usize) = norms.staging.records[a];
        let (shift_at, shift_len): (usize, usize) = norms.staging.records[b];
        if scale_len != channels || shift_len != channels {
            let mut e: String = "BatchNorm ".to_owned();
            e.append(prefix);
            e.append(": staged ");
            push_number(&mut e, scale_len as u64);
            e.append(" scale / ");
            push_number(&mut e, shift_len as u64);
            e.append(" shift values, expected ");
            push_number(&mut e, channels as u64);
            proof {
                lemma_one_want(*store, want, Some(e@));
            }
            return Err(e);
        }
        proof {
            lemma_one_want(*store, want, None);
        }
        Ok(
            DBn {
                scale: Addr { base: Base::Staged, offset: scale_at },
                shift: Addr { base: Base::Staged, offset: shift_at },
                channels,
            },
        )
    }

    /// The upsampling of this name.
    pub fn load_convt(&mut self, store: &WeightStore, prefix: &str) -> (res: Result<DConvT, String>)
        requires
            store.wf(),
            old(self).wf(*store),
            convt_full(*store, prefix@),
        ensures
            final(self).wf(*store),
            extends(*old(self), *final(self)),
            match res {
                Ok(cv) => {
                    &&& outcome(*store, convt_wants(prefix@), None)
                    &&& dconvt_of(*store, *final(self), prefix@, cv)
                    &&& convt_placed(cv)
                },
                Err(e) => outcome(*store, convt_wants(prefix@), Some(e@)),
            },
    {
        let name: String = joined(prefix, ".weight");
        let bias_name: String = joined(prefix, ".bias");
        let ghost first = Want::Tensor(name@);
        let ghost second = Want::Tensor(bias_name@);
        proof {
            assert(seq![first] + seq![second] =~= convt_wants(prefix@));
        }
        let (cin, cout, offset): (usize, usize, usize) = match store.info(name.as_str()) {
            Ok(t) => (t.shape[0], t.shape[1], t.offset),
            Err(e) => {
                proof {
                    lemma_one_want(*store, first, Some(e@));
                    lemma_first_fails(*store, seq![first], seq![second], e@);
                }
                return Err(e);
            },
        };
        proof {
            lemma_one_want(*store, first, None);
        }
        let w: Vec<u32> = match store.bits(name.as_str()) {
            Ok(w) => w,
            Err(e) => {
                return Err(e);
            },
        };
        let bias: Addr = match store.info(bias_name.as_str()) {
            Ok(t) => Addr { base: Base::Weights, offset: t.offset },
            Err(e) => {
                proof {
                    lemma_one_want(*store, second, Some(e@));
                    lemma_then(*store, seq![first], seq![second], Some(e@));
                }
                return Err(e);
            },
        };
        proof {
            lemma_one_want(*store, second, None);
            lemma_then(*store, seq![first], seq![second], None);
        }
        let ghost start = *self;
        let ghost words = w@;
        let mut phases: Vec<Addr> = Vec::new();
        let mut k: usize = 0;
        while k < 4
            invariant
                cin * cout * 3 * 3 <= w.len(),
                w@ == words,
                k <= 4,
                self.wf(*store),
                extends(start, *self),
                phases@.len() == k,
                forall|j: int|
                    0 <= j < k ==> (#[trigger] phases@[j] matches Addr {
                        base: Base::Loaded(i),
                        offset: 0,
                    } && i < self.uploads@.len() && phase_of(
                        words,
                        cin as int,
                        cout as int,
                        j,
                        self.upload(i as int),
                    )),
            decreases 4 - k,
        {
            let ghost before = *self;
            let a: Addr = self.add_upload(phase_matrix(&w, cin, cout, k));
            phases.push(a);
            proof {
                assert forall|j: int| 0 <= j < k + 1 implies (#[trigger] phases@[j] matches Addr {
                    base: Base::Loaded(i),
                    offset: 0,
                } && i < self.uploads@.len() && phase_of(
                    words,
                    cin as int,
                    cout as int,
                    j,
                    self.upload(i as int),
                )) by {
                    if j < k {
                        if let Base::Loaded(i) = phases@[j].base {
                            assert(self.upload(i as int) == before.upload(i as int));
                        }
                    }
                }
                lemma_extends(start, before, *self);
            }
            k += 1;
        }
        let cv = DConvT {
            w: Addr { base: Base::Weights, offset },
            bias,
            cin,
            cout,
            phases: Some(phases),
        };
        proof {
            reveal(dconvt_of);
        }
        Ok(cv)
    }
}

/// What an upsampling wants of the checkpoint.
pub open spec fn convt_wants(prefix: Seq<char>) -> Seq<Want> {
    seq![Want::Tensor(prefix + ".weight"@), Want::Tensor(prefix + ".bias"@)]
}

proof fn lemma_extends<S: Scalar>(a: Loader<S>, b: Loader<S>, c: Loader<S>)
    requires
        extends(a, b),
        extends(b, c),
    ensures
        extends(a, c),
{
    assert forall|i: int| 0 <= i < a.uploads@.len() implies #[trigger] c.upload(i) == a.upload(i) by {
        assert(c.upload(i) == b.upload(i));
        assert(b.upload(i) == a.upload(i));
    }
}

/// What a convolution wants of the checkpoint.
pub open spec fn conv_wants(prefix: Seq<char>) -> Seq<Want> {
    seq![Want::Tensor(prefix + ".weight"@)]
}

/// What a BatchNorm wants of the checkpoint.
pub open spec fn bn_wants(prefix: Seq<char>, channels: nat) -> Seq<Want> {
    seq![Want::Norm(prefix, channels)]
}

/// What an optional convolution wants of the checkpoint.
pub open spec fn ref_wants(b: FfcBlock, r: ConvRef) -> Seq<Want> {
    match r {
        ConvRef::Absent => Seq::empty(),
        ConvRef::Present { name, .. } => conv_wants(conv_name(b, name@)),
    }
}

/// What an optional BatchNorm wants of the checkpoint.
pub open spec fn bn_opt_wants(present: bool, prefix: Seq<char>, channels: nat) -> Seq<Want> {
    if present {
        bn_wants(prefix, channels)
    } else {
        Seq::empty()
    }
}

/// What a spectral branch wants of the checkpoint.
pub open spec fn spectral_wants(p: Seq<char>, half: nat) -> Seq<Want> {
    conv_wants(p + ".conv1.0"@) + bn_wants(p + ".conv1.1"@, half) + conv_wants(p + ".fu.conv_layer"@)
        + bn_wants(p + ".fu.bn"@, 2 * half) + conv_wants(p + ".conv2"@)
}

/// What a block's spectral branch wants of the checkpoint.
pub open spec fn g2g_wants(b: FfcBlock) -> Seq<Want> {
    if b.g2g {
        spectral_wants(conv_name(b, "convg2g"@), (b.out_global / 2) as nat)
    } else {
        Seq::empty()
    }
}

/// What a block wants of the checkpoint, in the order in which it is asked for.
#[verifier::opaque]
pub open spec fn ffc_wants(b: FfcBlock) -> Seq<Want> {
    let name = block_name(b.index as nat, b.sub as nat);
    g2g_wants(b) + ref_wants(b, b.l2l) + ref_wants(b, b.l2g) + ref_wants(b, b.g2l) + bn_opt_wants(
        b.bn_local,
        name + ".bn_l"@,
        b.out_local as nat,
    ) + bn_opt_wants(b.bn_global, name + ".bn_g"@, b.out_global as nat)
}

/// What a step wants of the checkpoint.
pub open spec fn step_wants(s: Step) -> Seq<Want> {
    match s {
        Step::ReflectPad(_) => Seq::empty(),
        Step::Ffc(b) => ffc_wants(b),
        Step::ResBlock(rb) => ffc_wants(rb.conv1) + ffc_wants(rb.conv2),
        Step::Concat => Seq::empty(),
        Step::Upsample(u) => convt_wants(module_name(u.index as nat)) + bn_wants(
            module_name(u.bn_index as nat),
            u.cout as nat,
        ),
        Step::OutConv(o) => conv_wants(module_name(o.index as nat)),
    }
}

/// What the first `n` steps want of the checkpoint.
pub open spec fn plan_wants(steps: Seq<Step>, n: nat) -> Seq<Want>
    decreases n,
{
    if n == 0 {
        Seq::empty()
    } else {
        plan_wants(steps, (n - 1) as nat) + step_wants(steps[n - 1])
    }
}

/// The weight of an optional convolution has all its elements.
pub open spec fn ref_full(store: WeightStore, b: FfcBlock, r: ConvRef) -> bool {
    r matches ConvRef::Present { name, .. } ==> conv_full(store, conv_name(b, name@))
}

/// The weights of a spectral branch have all their elements.
pub open spec fn spectral_full(store: WeightStore, p: Seq<char>) -> bool {
    &&& conv_full(store, p + ".conv1.0"@)
    &&& conv_full(store, p + ".fu.conv_layer"@)
    &&& conv_full(store, p + ".conv2"@)
}

/// The weights of a block have all their elements.
pub open spec fn ffc_full(store: WeightStore, b: FfcBlock) -> bool {
    &&& ref_full(store, b, b.l2l)
    &&& ref_full(store, b, b.l2g)
    &&& ref_full(store, b, b.g2l)
    &&& b.g2g ==> spectral_full(store, conv_name(b, "convg2g"@))
}

/// The weights of a step have all their elements.
pub open spec fn step_full(store: WeightStore, s: Step) -> bool {
    match s {
        Step::Ffc(b) => ffc_full(store, b),
        Step::ResBlock(rb) => ffc_full(store, rb.conv1) && ffc_full(store, rb.conv2),
        Step::Upsample(u) => convt_full(store, module_name(u.index as nat)),
        Step::OutConv(o) => conv_full(store, module_name(o.index as nat)),
        _ => true,
    }
}

/// The weights of a plan have all their elements.
pub open spec fn plan_full(store: WeightStore, steps: Seq<Step>) -> bool {
    forall|i: int| 0 <= i < steps.len() ==> step_full(store, #[trigger] steps[i])
}

/// `cv` is an optional convolution of a block.
pub open spec fn ref_loaded<S: Scalar>(
    store: WeightStore,
    l: Loader<S>,
    b: FfcBlock,
    r: ConvRef,
    cv: Option<DConv>,
) -> bool {
    match (r, cv) {
        (ConvRef::Absent, None) => true,
        (ConvRef::Present { name, .. }, Some(c)) => dconv_of(store, l, conv_name(b, name@), c),
        _ => false,
    }
}

/// `bn` is an optional BatchNorm of a block.
pub open spec fn bn_loaded<S: Scalar>(
    l: Loader<S>,
    present: bool,
    p: Seq<char>,
    channels: int,
    bn: Option<DBn>,
) -> bool {
    match bn {
        Some(n) => present && dbn_of(l, p, channels, n),
        None => !present,
    }
}

/// `sp` is the spectral branch of this name.
pub open spec fn dspectral_of<S: Scalar>(
    store: WeightStore,
    l: Loader<S>,
    p: Seq<char>,
    sp: DSpectral,
) -> bool {
    &&& dconv_of(store, l, p + ".conv1.0"@, sp.conv1)
    &&& dbn_of(l, p + ".conv1.1"@, sp.half as int, sp.bn1)
    &&& dconv_of(store, l, p + ".fu.conv_layer"@, sp.fu_conv)
    &&& dbn_of(l, p + ".fu.bn"@, 2 * sp.half, sp.fu_bn)
    &&& dconv_of(store, l, p + ".conv2"@, sp.conv2)
}

/// `w` is a block with the parameters of the checkpoint on the device.
#[verifier::opaque]
pub open spec fn dffc_of<S: Scalar>(store: WeightStore, l: Loader<S>, b: FfcBlock, w: DFfc) -> bool {
    let name = block_name(b.index as nat, b.sub as nat);
    &&& w.kernel == b.kernel
    &&& w.stride == b.stride
    &&& w.pad == b.pad
    &&& w.reflect == b.reflection
    &&& w.in_local == b.in_local
    &&& w.in_global == b.in_global
    &&& w.out_local == b.out_local
    &&& w.out_global == b.out_global
    &&& ref_loaded(store, l, b, b.l2l, w.l2l)
    &&& ref_loaded(store, l, b, b.l2g, w.l2g)
    &&& ref_loaded(store, l, b, b.g2l, w.g2l)
    &&& bn_loaded(l, b.bn_local, name + ".bn_l"@, b.out_local as int, w.bn_l)
    &&& bn_loaded(l, b.bn_global, name + ".bn_g"@, b.out_global as int, w.bn_g)
    &&& match w.spectral {
        Some(sp) => b.g2g && sp.half == b.out_global / 2 && sp.stride == b.stride && dspectral_of(
            store,
            l,
            conv_name(b, "convg2g"@),
            sp,
        ),
        None => !b.g2g,
    }
}

/// `d` is a step with the parameters of the checkpoint on the device.
pub open spec fn dstep_of<S: Scalar>(store: WeightStore, l: Loader<S>, s: Step, d: DStep) -> bool {
    match (s, d) {
        (Step::ReflectPad(p), DStep::ReflectPad(q)) => p == q,
        (Step::Ffc(b), DStep::Ffc(w)) => dffc_of(store, l, b, w),
        (Step::ResBlock(rb), DStep::Res(x, y)) => dffc_of(store, l, rb.conv1, x) && dffc_of(
            store,
            l,
            rb.conv2,
            y,
        ),
        (Step::Concat, DStep::Concat) => true,
        (Step::Upsample(u), DStep::Upsample(cv, bn)) => dconvt_of(
            store,
            l,
            module_name(u.index as nat),
            cv,
        ) && dbn_of(l, module_name(u.bn_index as nat), u.cout as int, bn),
        (Step::OutConv(o), DStep::OutConv(cv)) => dconv_of(
            store,
            l,
            module_name(o.index as nat),
            cv,
        ),
        _ => false,
    }
}

proof fn lemma_conv_stays<S: Scalar>(store: WeightStore, a: Loader<S>, b: Loader<S>, p: Seq<char>, cv: DConv)
    requires
        extends(a, b),
        dconv_of(store, a, p, cv),
    ensures
        dconv_of(store, b, p, cv),
{
    reveal(dconv_of);
    if let Some(w) = cv.w_t {
        if let Base::Loaded(i) = w.base {
            assert(b.upload(i as int) == a.upload(i as int));
        }
    }
}

proof fn lemma_ffc_stays<S: Scalar>(store: WeightStore, a: Loader<S>, b: Loader<S>, f: FfcBlock, w: DFfc)
    requires
        extends(a, b),
        dffc_of(store, a, f, w),
    ensures
        dffc_of(store, b, f, w),
{
    reveal(dffc_of);
    if let ConvRef::Present { name, .. } = f.l2l {
        lemma_conv_stays(store, a, b, conv_name(f, name@), w.l2l.unwrap());
    }
    if let ConvRef::Present { name, .. } = f.l2g {
        lemma_conv_stays(store, a, b, conv_name(f, name@), w.l2g.unwrap());
    }
    if let ConvRef::Present { name, .. } = f.g2l {
        lemma_conv_stays(store, a, b, conv_name(f, name@), w.g2l.unwrap());
    }
    if let Some(sp) = w.spectral {
        lemma_spectral_stays(store, a, b, conv_name(f, "convg2g"@), sp);
    }
}

proof fn lemma_spectral_stays<S: Scalar>(
    store: WeightStore,
    a: Loader<S>,
    b: Loader<S>,
    p: Seq<char>,
    sp: DSpectral,
)
    requires
        extends(a, b),
        dspectral_of(store, a, p, sp),
    ensures
        dspectral_of(store, b, p, sp),
{
    lemma_conv_stays(store, a, b, p + ".conv1.0"@, sp.conv1);
    lemma_conv_stays(store, a, b, p + ".fu.conv_layer"@, sp.fu_conv);
    lemma_conv_stays(store, a, b, p + ".conv2"@, sp.conv2);
}

proof fn lemma_convt_stays<S: Scalar>(store: WeightStore, a: Loader<S>, b: Loader<S>, p: Seq<char>, cv: DConvT)
    requires
        extends(a, b),
        dconvt_of(store, a, p, cv),
    ensures
        dconvt_of(store, b, p, cv),
{
    reveal(dconvt_of);
    let ph = cv.phases.unwrap();
    let words = store.words(p + ".weight"@);
    assert forall|k: int| 0 <= k < 4 implies phase_loaded(words, b, cv, k, #[trigger] ph@[k]) by {
        assert(phase_loaded(words, a, cv, k, ph@[k]));
        if let Base::Loaded(i) = ph@[k].base {
            assert(b.upload(i as int) == a.upload(i as int));
        }
    }
}

proof fn lemma_step_stays<S: Scalar>(store: WeightStore, a: Loader<S>, b: Loader<S>, s: Step, d: DStep)
    requires
        extends(a, b),
        dstep_of(store, a, s, d),
    ensures
        dstep_of(store, b, s, d),
{
    match (s, d) {
        (Step::Ffc(f), DStep::Ffc(w)) => {
            lemma_ffc_stays(store, a, b, f, w);
        },
        (Step::ResBlock(rb), DStep::Res(x, y)) => {
            lemma_ffc_stays(store, a, b, rb.conv1, x);
            lemma_ffc_stays(store, a, b, rb.conv2, y);
        },
        (Step::Upsample(u), DStep::Upsample(cv, _)) => {
            lemma_convt_stays(store, a, b, module_name(u.index as nat), cv);
        },
        (Step::OutConv(o), DStep::OutConv(cv)) => {
            lemma_conv_stays(store, a, b, module_name(o.index as nat), cv);
        },
        _ => {},
    }
}

proof fn lemma_fails(
    store: WeightStore,
    done: Seq<Want>,
    now: Seq<Want>,
    all: Seq<Want>,
    t: Seq<char>,
)
    requires
        outcome(store, done, None),
        outcome(store, now, Some(t)),
        done + now =~= all.take((done.len() + now.len()) as int),
        done.len() + now.len() <= all.len(),
    ensures
        outcome(store, all, Some(t)),
{
    lemma_then(store, done, now, Some(t));
    let n = (done.len() + now.len()) as int;
    lemma_first_fails(store, done + now, all.skip(n), t);
    assert(done + now + all.skip(n) =~= all);
}

impl<S: Scalar> Loader<S> {
    fn load_ref(&mut self, store: &WeightStore, prefix: &String, r: &ConvRef, Ghost(b): Ghost<FfcBlock>) -> (res: Result<
        Option<DConv>,
        String,
    >)
        requires
            store.wf(),
            old(self).wf(*store),
            prefix@ == ffc_name(b.index as nat, b.sub as nat) + "."@,
            ref_full(*store, b, *r),
        ensures
            final(self).wf(*store),
            extends(*old(self), *final(self)),
            match res {
                Ok(cv) => {
                    &&& outcome(*store, ref_wants(b, *r), None)
                    &&& ref_loaded(*store, *final(self), b, *r, cv)
                    &&& conv_placed_opt(cv)
                },
                Err(e) => outcome(*store, ref_wants(b, *r), Some(e@)),
            },
    {
        match r {
            ConvRef::Absent => {
                proof {
                    lemma_no_wants(*store);
                }
                Ok(None)
            },
            ConvRef::Present { name, .. } => {
                match self.load_conv(store, joined(prefix.as_str(), name).as_str()) {
                    Ok(c) => Ok(Some(c)),
                    Err(e) => Err(e),
                }
            },
        }
    }

    fn load_bn_opt(&mut self, store: &WeightStore, present: bool, name: &String, channels: usize) -> (res: Result<
        Option<DBn>,
        String,
    >)
        requires
            store.wf(),
            norms_even(*store),
            !any_broken(*store) ==> stageable(*store),
            old(self).wf(*store),
        ensures
            final(self).wf(*store),
            extends(*old(self), *final(self)),
            match res {
                Ok(bn) => {
                    &&& outcome(*store, bn_opt_wants(present, name@, channels as nat), None)
                    &&& bn_loaded(*final(self), present, name@, channels as int, bn)
                    &&& bn_placed_opt(bn)
                },
                Err(e) => outcome(*store, bn_opt_wants(present, name@, channels as nat), Some(e@)),
            },
    {
        if present {
            match self.load_bn(store, name.as_str(), channels) {
                Ok(b) => Ok(Some(b)),
                Err(e) => Err(e),
            }
        } else {
            proof {
                lemma_no_wants(*store);
            }
            Ok(None)
        }
    }

    /// The spectral branch of this name.
    #[verifier::spinoff_prover]
    #[verifier::rlimit(60)]
    fn load_spectral(&mut self, store: &WeightStore, p: &String, half: usize, stride: usize) -> (res: Result<
        DSpectral,
        String,
    >)
        requires
            store.wf(),
            norms_even(*store),
            !any_broken(*store) ==> stageable(*store),
            old(self).wf(*store),
            2 * half <= usize::MAX,
            spectral_full(*store, p@),
        ensures
            final(self).wf(*store),
            extends(*old(self), *final(self)),
            match res {
                Ok(sp) => {
                    &&& outcome(*store, spectral_wants(p@, half as nat), None)
                    &&& dspectral_of(*store, *final(self), p@, sp)
                    &&& sp.half == half
                    &&& sp.stride == stride
                    &&& spectral_placed(sp)
                },
                Err(e) => outcome(*store, spectral_wants(p@, half as nat), Some(e@)),
            },
    {
        let ghost all = spectral_wants(p@, half as nat);
        let ghost w1 = conv_wants(p@ + ".conv1.0"@);
        let ghost w2 = bn_wants(p@ + ".conv1.1"@, half as nat);
        let ghost w3 = conv_wants(p@ + ".fu.conv_layer"@);
        let ghost w4 = bn_wants(p@ + ".fu.bn"@, (2 * half) as nat);
        let ghost w5 = conv_wants(p@ + ".conv2"@);
        let ghost l0 = *self;
        let conv1: DConv = match self.load_conv(store, joined(p.as_str(), ".conv1.0").as_str()) {
            Ok(v) => v,
            Err(e) => {
                proof {
                    lemma_no_wants(*store);
                    lemma_fails(*store, Seq::empty(), w1, all, e@);
                }
                return Err(e);
            },
        };
        let ghost l1 = *self;
        let bn1: DBn = match self.load_bn(store, joined(p.as_str(), ".conv1.1").as_str(), half) {
            Ok(v) => v,
            Err(e) => {
                proof {
                    lemma_extends(l0, l1, *self);
                    lemma_fails(*store, w1, w2, all, e@);
                }
                return Err(e);
            },
        };
        let ghost l2 = *self;
        proof {
            lemma_extends(l0, l1, l2);
            lemma_then(*store, w1, w2, None);
        }
        let fu_conv: DConv = match self.load_conv(
            store,
            joined(p.as_str(), ".fu.conv_layer").as_str(),
        ) {
            Ok(v) => v,
            Err(e) => {
                proof {
                    lemma_extends(l0, l2, *self);
                    lemma_fails(*store, w1 + w2, w3, all, e@);
                }
                return Err(e);
            },
        };
        let ghost l3 = *self;
        proof {
            lemma_extends(l0, l2, l3);
            lemma_then(*store, w1 + w2, w3, None);
        }
        let fu_bn: DBn = match self.load_bn(store, joined(p.as_str(), ".fu.bn").as_str(), 2 * half) {
            Ok(v) => v,
            Err(e) => {
                proof {
                    lemma_extends(l0, l3, *self);
                    lemma_fails(*store, w1 + w2 + w3, w4, all, e@);
                }
                return Err(e);
            },
        };
        let ghost l4 = *self;
        proof {
            lemma_extends(l0, l3, l4);
            lemma_then(*store, w1 + w2 + w3, w4, None);
        }
        let conv2: DConv = match self.load_conv(store, joined(p.as_str(), ".conv2").as_str()) {
            Ok(v) => v,
            Err(e) => {
                proof {
                    lemma_extends(l0, l4, *self);
                    lemma_fails(*store, w1 + w2 + w3 + w4, w5, all, e@);
                }
                return Err(e);
            },
        };
        proof {
            lemma_extends(l0, l4, *self);
            lemma_then(*store, w1 + w2 + w3 + w4, w5, None);
            lemma_extends(l3, l4, *self);
            lemma_extends(l2, l3, *self);
            lemma_extends(l1, l2, *self);
            lemma_conv_stays(*store, l1, *self, p@ + ".conv1.0"@, conv1);
            lemma_conv_stays(*store, l3, *self, p@ + ".fu.conv_layer"@, fu_conv);
        }
        Ok(DSpectral { conv1, bn1, fu_conv, fu_bn, conv2, half, stride })
    }

    fn load_spectral_opt(&mut self, store: &WeightStore, prefix: &String, b: &FfcBlock) -> (res: Result<
        Option<DSpectral>,
        String,
    >)
        requires
            store.wf(),
            norms_even(*store),
            !any_broken(*store) ==> stageable(*store),
            old(self).wf(*store),
            prefix@ == ffc_name(b.index as nat, b.sub as nat) + "."@,
            ffc_full(*store, *b),
        ensures
            final(self).wf(*store),
            extends(*old(self), *final(self)),
            match res {
                Ok(sp) => {
                    &&& outcome(*store, g2g_wants(*b), None)
                    &&& match sp {
                        Some(s) => {
                            &&& b.g2g
                            &&& s.half == b.out_global / 2
                            &&& s.stride == b.stride
                            &&& dspectral_of(*store, *final(self), conv_name(*b, "convg2g"@), s)
                            &&& spectral_placed(s)
                        },
                        None => !b.g2g,
                    }
                },
                Err(e) => outcome(*store, g2g_wants(*b), Some(e@)),
            },
    {
        if b.g2g {
            match self.load_spectral(
                store,
                &joined(prefix.as_str(), "convg2g"),
                b.out_global / 2,
                b.stride,
            ) {
                Ok(s) => Ok(Some(s)),
                Err(e) => Err(e),
            }
        } else {
            proof {
                lemma_no_wants(*store);
            }
            Ok(None)
        }
    }

    /// The parameters of a block.
    #[verifier::spinoff_prover]
    #[verifier::rlimit(60)]
    pub fn load_dffc(&mut self, store: &WeightStore, b: &FfcBlock) -> (res: Result<DFfc, String>)
        requires
            store.wf(),
            norms_even(*store),
            !any_broken(*store) ==> stageable(*store),
            old(self).wf(*store),
            ffc_full(*store, *b),
        ensures
            final(self).wf(*store),
            extends(*old(self), *final(self)),
            match res {
                Ok(w) => {
                    &&& outcome(*store, ffc_wants(*b), None)
                    &&& dffc_of(*store, *final(self), *b, w)
                    &&& ffc_placed(w)
                },
                Err(e) => outcome(*store, ffc_wants(*b), Some(e@)),
            },
    {
        let partial: String = block(b);
        let prefix: String = joined(partial.as_str(), ".ffc.");
        let ghost name = block_name(b.index as nat, b.sub as nat);
        let ghost all = ffc_wants(*b);
        let ghost w1 = g2g_wants(*b);
        let ghost w2 = ref_wants(*b, b.l2l);
        let ghost w3 = ref_wants(*b, b.l2g);
        let ghost w4 = ref_wants(*b, b.g2l);
        let ghost w5 = bn_opt_wants(b.bn_local, name + ".bn_l"@, b.out_local as nat);
        let ghost w6 = bn_opt_wants(b.bn_global, name + ".bn_g"@, b.out_global as nat);
        proof {
            reveal_strlit(".ffc.");
            reveal_strlit(".ffc");
            reveal_strlit(".");
            assert(prefix@ =~= ffc_name(b.index as nat, b.sub as nat) + "."@);
        }
        proof {
            reveal(ffc_wants);
            reveal(dffc_of);
        }
        let ghost l0 = *self;
        let spectral: Option<DSpectral> = match self.load_spectral_opt(store, &prefix, b) {
            Ok(v) => v,
            Err(e) => {
                proof {
                    lemma_no_wants(*store);
                    lemma_fails(*store, Seq::empty(), w1, all, e@);
                }
                return Err(e);
            },
        };
        let ghost l1 = *self;
        let l2l: Option<DConv> = match self.load_ref(store, &prefix, &b.l2l, Ghost(*b)) {
            Ok(v) => v,
            Err(e) => {
                proof {
                    lemma_extends(l0, l1, *self);
                    lemma_fails(*store, w1, w2, all, e@);
                }
                return Err(e);
            },
        };
        let ghost l2 = *self;
        proof {
            lemma_extends(l0, l1, l2);
            lemma_then(*store, w1, w2, None);
        }
        let l2g: Option<DConv> = match self.load_ref(store, &prefix, &b.l2g, Ghost(*b)) {
            Ok(v) => v,
            Err(e) => {
                proof {
                    lemma_extends(l0, l2, *self);
                    lemma_fails(*store, w1 + w2, w3, all, e@);
                }
                return Err(e);
            },
        };
        let ghost l3 = *self;
        proof {
            lemma_extends(l0, l2, l3);
            lemma_then(*store, w1 + w2, w3, None);
        }
        let g2l: Option<DConv> = match self.load_ref(store, &prefix, &b.g2l, Ghost(*b)) {
            Ok(v) => v,
            Err(e) => {
                proof {
                    lemma_extends(l0, l3, *self);
                    lemma_fails(*store, w1 + w2 + w3, w4, all, e@);
                }
                return Err(e);
            },
        };
        let ghost l4 = *self;
        proof {
            lemma_extends(l0, l3, l4);
            lemma_then(*store, w1 + w2 + w3, w4, None);
        }
        let bn_l: Option<DBn> = match self.load_bn_opt(
            store,
            b.bn_local,
            &joined(partial.as_str(), ".bn_l"),
            b.out_local,
        ) {
            Ok(v) => v,
            Err(e) => {
                proof {
                    lemma_extends(l0, l4, *self);
                    lemma_fails(*store, w1 + w2 + w3 + w4, w5, all, e@);
                }
                return Err(e);
            },
        };
        let ghost l5 = *self;
        proof {
            lemma_extends(l0, l4, l5);
            lemma_then(*store, w1 + w2 + w3 + w4, w5, None);
        }
        let bn_g: Option<DBn> = match self.load_bn_opt(
            store,
            b.bn_global,
            &joined(partial.as_str(), ".bn_g"),
            b.out_global,
        ) {
            Ok(v) => v,
            Err(e) => {
                proof {
                    lemma_extends(l0, l5, *self);
                    lemma_fails(*store, w1 + w2 + w3 + w4 + w5, w6, all, e@);
                }
                return Err(e);
            },
        };
        proof {
            lemma_extends(l0, l5, *self);
            lemma_then(*store, w1 + w2 + w3 + w4 + w5, w6, None);
            lemma_extends(l4, l5, *self);
            lemma_extends(l3, l4, *self);
            lemma_extends(l2, l3, *self);
            lemma_extends(l1, l2, *self);
            if let Some(sp) = spectral {
                lemma_spectral_stays(*store, l1, *self, conv_name(*b, "convg2g"@), sp);
            }
            if let ConvRef::Present { name, .. } = b.l2l {
                lemma_conv_stays(*store, l2, *self, conv_name(*b, name@), l2l.unwrap());
            }
            if let ConvRef::Present { name, .. } = b.l2g {
                lemma_conv_stays(*store, l3, *self, conv_name(*b, name@), l2g.unwrap());
            }
            if let ConvRef::Present { name, .. } = b.g2l {
                lemma_conv_stays(*store, l4, *self, conv_name(*b, name@), g2l.unwrap());
            }
        }
        Ok(
            DFfc {
                kernel: b.kernel,
                stride: b.stride,
                pad: b.pad,
                reflect: b.reflection,
                in_local: b.in_local,
                in_global: b.in_global,
                out_local: b.out_local,
                out_global: b.out_global,
                l2l,
                l2g,
                g2l,
                bn_l,
                bn_g,
                spectral,
            },
        )
    }

    /// The parameters of one step.
    #[verifier::spinoff_prover]
    #[verifier::rlimit(60)]
    fn load_step(&mut self, store: &WeightStore, step: &Step) -> (res: Result<DStep, String>)
        requires
            store.wf(),
            norms_even(*store),
            !any_broken(*store) ==> stageable(*store),
            old(self).wf(*store),
            step_full(*store, *step),
        ensures
            final(self).wf(*store),
            extends(*old(self), *final(self)),
            match res {
                Ok(d) => {
                    &&& outcome(*store, step_wants(*step), None)
                    &&& dstep_of(*store, *final(self), *step, d)
                    &&& step_placed(d)
                },
                Err(e) => outcome(*store, step_wants(*step), Some(e@)),
            },
    {
        let ghost l0 = *self;
        proof {
            lemma_no_wants(*store);
        }
        match step {
            Step::ReflectPad(p) => Ok(DStep::ReflectPad(*p)),
            Step::Ffc(b) => {
                match self.load_dffc(store, b) {
                    Ok(w) => Ok(DStep::Ffc(w)),
                    Err(e) => Err(e),
                }
            },
            Step::ResBlock(rb) => {
                let ghost w1 = ffc_wants(rb.conv1);
                let ghost w2 = ffc_wants(rb.conv2);
                let first: DFfc = match self.load_dffc(store, &rb.conv1) {
                    Ok(w) => w,
                    Err(e) => {
                        proof {
                            lemma_no_wants(*store);
                    lemma_fails(*store, Seq::empty(), w1, w1 + w2, e@);
                        }
                        return Err(e);
                    },
                };
                let ghost l1 = *self;
                match self.load_dffc(store, &rb.conv2) {
                    Ok(second) => {
                        proof {
                            lemma_extends(l0, l1, *self);
                            lemma_then(*store, w1, w2, None);
                            lemma_ffc_stays(*store, l1, *self, rb.conv1, first);
                        }
                        Ok(DStep::Res(first, second))
                    },
                    Err(e) => {
                        proof {
                            lemma_extends(l0, l1, *self);
                            lemma_fails(*store, w1, w2, w1 + w2, e@);
                        }
                        Err(e)
                    },
                }
            },
            Step::Concat => Ok(DStep::Concat),
            Step::Upsample(u) => {
                let name: String = module(u.index);
                let bn_name: String = module(u.bn_index);
                let ghost w1 = convt_wants(name@);
                let ghost w2 = bn_wants(bn_name@, u.cout as nat);
                let cv: DConvT = match self.load_convt(store, name.as_str()) {
                    Ok(v) => v,
                    Err(e) => {
                        proof {
                            lemma_no_wants(*store);
                    lemma_fails(*store, Seq::empty(), w1, w1 + w2, e@);
                        }
                        return Err(e);
                    },
                };
                let ghost l1 = *self;
                match self.load_bn(store, bn_name.as_str(), u.cout) {
                    Ok(bn) => {
                        proof {
                            lemma_extends(l0, l1, *self);
                            lemma_then(*store, w1, w2, None);
                            lemma_convt_stays(*store, l1, *self, name@, cv);
                        }
                        Ok(DStep::Upsample(cv, bn))
                    },
                    Err(e) => {
                        proof {
                            lemma_extends(l0, l1, *self);
                            lemma_fails(*store, w1, w2, w1 + w2, e@);
                        }
                        Err(e)
                    },
                }
            },
            Step::OutConv(o) => {
                match self.load_conv(store, module(o.index).as_str()) {
                    Ok(cv) => Ok(DStep::OutConv(cv)),
                    Err(e) => Err(e),
                }
            },
        }
    }
}

/// The network with its parameters on the device.
pub struct Loaded<S> {
    pub steps: Vec<DStep>,
    pub parts: Loader<S>,
}

/// Resolve every parameter of a plan.
pub fn load_steps<S: Scalar>(store: &WeightStore, model: &Model) -> (res: Result<Loaded<S>, String>)
    requires
        store.wf(),
        norms_even(*store),
        !any_broken(*store) ==> stageable(*store),
        plan_full(*store, model.steps@),
    ensures
        match res {
            Ok(d) => {
                &&& outcome(*store, plan_wants(model.steps@, model.steps@.len()), None)
                &&& d.parts.wf(*store)
                &&& d.steps@.len() == model.steps@.len()
                &&& forall|i: int|
                    0 <= i < d.steps@.len() ==> dstep_of(
                        *store,
                        d.parts,
                        model.steps@[i],
                        #[trigger] d.steps@[i],
                    ) && step_placed(d.steps@[i])
            },
            Err(e) => outcome(*store, plan_wants(model.steps@, model.steps@.len()), Some(e@)),
        },
{
    let mut parts: Loader<S> = Loader::new();
    let mut steps: Vec<DStep> = Vec::new();
    let mut i: usize = 0;
    let ghost n = model.steps@.len();
    proof {
        lemma_no_wants(*store);
    }
    while i < model.steps.len()
        invariant
            n == model.steps@.len(),
            i <= n,
            store.wf(),
            norms_even(*store),
            !any_broken(*store) ==> stageable(*store),
            plan_full(*store, model.steps@),
            parts.wf(*store),
            steps@.len() == i,
            outcome(*store, plan_wants(model.steps@, i as nat), None),
            forall|j: int|
                0 <= j < i ==> dstep_of(*store, parts, model.steps@[j], #[trigger] steps@[j])
                    && step_placed(steps@[j]),
        decreases n - i,
    {
        let ghost before = parts;
        let ghost held = steps@;
        let ghost done = plan_wants(model.steps@, i as nat);
        let ghost now = step_wants(model.steps@[i as int]);
        match parts.load_step(store, &model.steps[i]) {
            Ok(d) => {
                proof {
                    lemma_then(*store, done, now, None);
                    assert forall|j: int| 0 <= j < i implies dstep_of(
                        *store,
                        parts,
                        model.steps@[j],
                        #[trigger] held[j],
                    ) by {
                        lemma_step_stays(*store, before, parts, model.steps@[j], held[j]);
                    }
                }
                steps.push(d);
                assert(steps@ == held.push(d));
            },
            Err(e) => {
                proof {
                    lemma_wants_prefix(model.steps@, (i + 1) as nat, n);
                    let all = plan_wants(model.steps@, n);
                    let through = plan_wants(model.steps@, (i + 1) as nat);
                    assert(through == done + now);
                    lemma_fails(*store, done, now, all, e@);
                }
                return Err(e);
            },
        }
        i += 1;
    }
    Ok(Loaded { steps, parts })
}

proof fn lemma_wants_prefix(steps: Seq<Step>, n: nat, m: nat)
    requires
        n <= m,
    ensures
        plan_wants(steps, n).len() <= plan_wants(steps, m).len(),
        plan_wants(steps, n) =~= plan_wants(steps, m).take(plan_wants(steps, n).len() as int),
    decreases m,
{
    if n < m {
        lemma_wants_prefix(steps, n, (m - 1) as nat);
    }
}

proof fn lemma_first_extents(s: Seq<usize>)
    requires
        countable(s),
    ensures
        s.len() >= 2 ==> s[0] * s[1] <= usize::MAX,
        s.len() >= 4 ==> s[0] * s[1] * s[2] <= usize::MAX && s[0] * s[1] * s[2] * s[3] <= usize::MAX,
{
    reveal_with_fuel(numel_of, 5);
    if s.len() >= 2 {
        let two = s.take(2);
        assert(two.drop_last().drop_last() =~= Seq::empty());
        assert(numel_of(two) == s[0] * s[1]);
    }
    if s.len() >= 4 {
        let three = s.take(3);
        let four = s.take(4);
        assert(three.drop_last() =~= s.take(2));
        assert(four.drop_last() =~= three);
        assert(numel_of(three) == s[0] * s[1] * s[2]);
        assert(numel_of(four) == s[0] * s[1] * s[2] * s[3]);
    }
}

fn conv_complete(store: &WeightStore, prefix: &str) -> (r: bool)
    requires
        store.wf(),
    ensures
        r == conv_full(*store, prefix@),
{
    let name: String = joined(prefix, ".weight");
    match store.info(name.as_str()) {
        Ok(t) => {
            assert(store.holds(name@, *t));
            if t.shape.len() < 4 {
                return false;
            }
            proof {
                lemma_first_extents(t.shape@);
            }
            let direct: bool = t.shape[2] == 7 && t.shape[3] == 7 && t.shape[0] <= 8;
            !direct || t.shape[0] * t.shape[1] * t.shape[2] * t.shape[3] <= t.numel()
        },
        Err(_) => true,
    }
}

fn convt_complete(store: &WeightStore, prefix: &str) -> (r: bool)
    requires
        store.wf(),
    ensures
        r == convt_full(*store, prefix@),
{
    let name: String = joined(prefix, ".weight");
    match store.info(name.as_str()) {
        Ok(t) => {
            assert(store.holds(name@, *t));
            if t.shape.len() < 2 {
                return false;
            }
            proof {
                lemma_first_extents(t.shape@);
            }
            let pairs: usize = t.shape[0] * t.shape[1];
            pairs as u128 * 3 * 3 <= t.numel() as u128
        },
        Err(_) => true,
    }
}

fn ref_complete(store: &WeightStore, prefix: &String, c: &ConvRef, Ghost(b): Ghost<FfcBlock>) -> (r: bool)
    requires
        store.wf(),
        prefix@ == ffc_name(b.index as nat, b.sub as nat) + "."@,
    ensures
        r == ref_full(*store, b, *c),
{
    match c {
        ConvRef::Absent => true,
        ConvRef::Present { name, .. } => conv_complete(store, joined(prefix.as_str(), name).as_str()),
    }
}

fn ffc_complete(store: &WeightStore, b: &FfcBlock) -> (r: bool)
    requires
        store.wf(),
    ensures
        r == ffc_full(*store, *b),
{
    let prefix: String = joined(block(b).as_str(), ".ffc.");
    proof {
        reveal_strlit(".ffc.");
        reveal_strlit(".ffc");
        reveal_strlit(".");
        assert(prefix@ =~= ffc_name(b.index as nat, b.sub as nat) + "."@);
    }
    let p: String = joined(prefix.as_str(), "convg2g");
    ref_complete(store, &prefix, &b.l2l, Ghost(*b)) && ref_complete(store, &prefix, &b.l2g, Ghost(*b))
        && ref_complete(store, &prefix, &b.g2l, Ghost(*b)) && (!b.g2g || (conv_complete(
        store,
        joined(p.as_str(), ".conv1.0").as_str(),
    ) && conv_complete(store, joined(p.as_str(), ".fu.conv_layer").as_str()) && conv_complete(
        store,
        joined(p.as_str(), ".conv2").as_str(),
    )))
}

fn step_complete(store: &WeightStore, s: &Step) -> (r: bool)
    requires
        store.wf(),
    ensures
        r == step_full(*store, *s),
{
    match s {
        Step::ReflectPad(_) => true,
        Step::Ffc(b) => ffc_complete(store, b),
        Step::ResBlock(rb) => ffc_complete(store, &rb.conv1) && ffc_complete(store, &rb.conv2),
        Step::Concat => true,
        Step::Upsample(u) => convt_complete(store, module(u.index).as_str()),
        Step::OutConv(o) => conv_complete(store, module(o.index).as_str()),
    }
}

/// Whether the weights of a plan have all the elements that the device wants of them.
pub fn complete(store: &WeightStore, model: &Model) -> (r: bool)
    requires
        store.wf(),
    ensures
        r == plan_full(*store, model.steps@),
{
    let mut i: usize = 0;
    while i < model.steps.len()
        invariant
            store.wf(),
            i <= model.steps@.len(),
            forall|j: int| 0 <= j < i ==> step_full(*store, #[trigger] model.steps@[j]),
        decreases model.steps@.len() - i,
    {
        if !step_complete(store, &model.steps[i]) {
            return false;
        }
        i += 1;
    }
    true
}

} // verus!
