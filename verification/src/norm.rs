//! BatchNorm in evaluation mode, folded into a scale and a shift for every channel.

use vstd::prelude::*;
use vstd::string::StringExecFns;

use crate::acts::{lemma_some_place, Acts, Planes};
use crate::grid::{lemma_place3, lemma_place3_of};
use crate::needs::{decoded, first_unmet, joined, unmet, values, Need};
use crate::par::par_map;
use crate::formula::{norm_scale, norm_shift, scale_of, shift_of};
use crate::scalar::Scalar;
use crate::text::push_number;
use crate::weights::WeightStore;

verus! {

/// `(x - mean) / sqrt(var + eps) * weight + bias` as `x * scale + shift`.
pub struct Bn<S> {
    pub scale: Vec<S>,
    pub shift: Vec<S>,
}

/// What a BatchNorm needs of the checkpoint.
pub open spec fn norm_needs(prefix: Seq<char>, channels: nat) -> Seq<Need> {
    seq![
        Need::Tensor(prefix + ".weight"@),
        Need::Tensor(prefix + ".bias"@),
        Need::Tensor(prefix + ".running_mean"@),
        Need::Tensor(prefix + ".running_var"@),
        Need::Channels(prefix, channels),
    ]
}

/// `scale` and `shift` are the fold of the numbers that four words encode.
pub open spec fn folded<S: Scalar>(wb: u32, bb: u32, mb: u32, vb: u32, scale: S, shift: S) -> bool {
    exists|w: S, b: S, m: S, v: S|
        {
            &&& #[trigger] call_ensures(S::from_bits, (wb,), w)
            &&& #[trigger] call_ensures(S::from_bits, (bb,), b)
            &&& #[trigger] call_ensures(S::from_bits, (mb,), m)
            &&& #[trigger] call_ensures(S::from_bits, (vb,), v)
            &&& norm_scale(w, v, scale)
            &&& norm_shift(b, m, scale, shift)
        }
}

/// `bn` is the fold of the BatchNorm of this name.
pub open spec fn norm_of<S: Scalar>(store: WeightStore, prefix: Seq<char>, bn: Bn<S>) -> bool {
    let w = store.words(prefix + ".weight"@);
    let b = store.words(prefix + ".bias"@);
    let m = store.words(prefix + ".running_mean"@);
    let v = store.words(prefix + ".running_var"@);
    &&& bn.scale@.len() == w.len()
    &&& bn.shift@.len() == w.len()
    &&& forall|i: int|
        0 <= i < w.len() ==> folded(
            w[i],
            b[i],
            m[i],
            v[i],
            #[trigger] bn.scale@[i],
            #[trigger] bn.shift@[i],
        )
}

/// `b` is `a` with every channel scaled and shifted.
pub open spec fn normed<S: Scalar>(bn: Bn<S>, a: Planes<S>, b: Planes<S>) -> bool {
    &&& b.shaped(a.c, a.h, a.w)
    &&& forall|c: int, y: int, x: int|
        a.inside(c, y, x) ==> call_ensures(
            S::scaled,
            (a.value(c, y, x), bn.scale@[c], bn.shift@[c]),
            #[trigger] b.value(c, y, x),
        )
}

impl<S: Scalar> Bn<S> {
    /// There is a scale and a shift for every channel.
    pub open spec fn covers(&self, channels: int) -> bool {
        self.scale@.len() >= channels && self.shift@.len() >= channels
    }

    /// Fold the BatchNorm of this name.
    pub fn load(store: &WeightStore, prefix: &str, channels: usize) -> (res: Result<Self, String>)
        requires
            store.wf(),
        ensures
            match first_unmet(*store, norm_needs(prefix@, channels as nat)) {
                Some(text) => res matches Err(e) && e@ == text,
                None => res matches Ok(bn) && norm_of(*store, prefix@, bn) && bn.scale@.len()
                    == channels && bn.shift@.len() == channels,
            },
    {
        proof {
            lemma_norm_needs(*store, prefix@, channels as nat);
        }
        let w: Vec<S> = match values::<S>(store, joined(prefix, ".weight").as_str()) {
            Ok(v) => v,
            Err(e) => {
                return Err(e);
            },
        };
        let b: Vec<S> = match values::<S>(store, joined(prefix, ".bias").as_str()) {
            Ok(v) => v,
            Err(e) => {
                return Err(e);
            },
        };
        let mean: Vec<S> = match values::<S>(store, joined(prefix, ".running_mean").as_str()) {
            Ok(v) => v,
            Err(e) => {
                return Err(e);
            },
        };
        let var: Vec<S> = match values::<S>(store, joined(prefix, ".running_var").as_str()) {
            Ok(v) => v,
            Err(e) => {
                return Err(e);
            },
        };
        if w.len() != channels || b.len() != channels || mean.len() != channels || var.len()
            != channels {
            let mut e: String = "BatchNorm ".to_owned();
            e.append(prefix);
            e.append(": expected ");
            push_number(&mut e, channels as u64);
            e.append(" channels, got w=");
            push_number(&mut e, w.len() as u64);
            e.append(" b=");
            push_number(&mut e, b.len() as u64);
            e.append(" mean=");
            push_number(&mut e, mean.len() as u64);
            e.append(" var=");
            push_number(&mut e, var.len() as u64);
            return Err(e);
        }
        let mut scale: Vec<S> = Vec::new();
        let mut shift: Vec<S> = Vec::new();
        let ghost ws = store.words(prefix@ + ".weight"@);
        let ghost bs = store.words(prefix@ + ".bias"@);
        let ghost ms = store.words(prefix@ + ".running_mean"@);
        let ghost vs = store.words(prefix@ + ".running_var"@);
        let mut i: usize = 0;
        while i < channels
            invariant
                i <= channels,
                channels == w@.len(),
                channels == b@.len(),
                channels == mean@.len(),
                channels == var@.len(),
                decoded(ws, w@),
                decoded(bs, b@),
                decoded(ms, mean@),
                decoded(vs, var@),
                scale@.len() == i,
                shift@.len() == i,
                forall|j: int|
                    0 <= j < i ==> folded(
                        ws[j],
                        bs[j],
                        ms[j],
                        vs[j],
                        #[trigger] scale@[j],
                        #[trigger] shift@[j],
                    ),
            decreases channels - i,
        {
            let s: S = scale_of(w[i], var[i]);
            let t: S = shift_of(b[i], mean[i], s);
            proof {
                assert(call_ensures(S::from_bits, (ws[i as int],), w@[i as int]));
                assert(call_ensures(S::from_bits, (bs[i as int],), b@[i as int]));
                assert(call_ensures(S::from_bits, (ms[i as int],), mean@[i as int]));
                assert(call_ensures(S::from_bits, (vs[i as int],), var@[i as int]));
                assert(folded(ws[i as int], bs[i as int], ms[i as int], vs[i as int], s, t));
            }
            scale.push(s);
            shift.push(t);
            i += 1;
        }
        Ok(Bn { scale, shift })
    }

    /// Scale and shift every channel.
    pub fn apply(&self, acts: &mut Acts<S>)
        requires
            old(acts).wf(),
            self.covers(old(acts).c as int),
        ensures
            final(acts).wf(),
            normed(*self, old(acts)@, final(acts)@),
    {
        let a: &Acts<S> = &*acts;
        let ghost before = a@;
        let data: Vec<S> = par_map(
            a.data.len(),
            (|k: usize| -> (r: S)
                requires
                    k < a.data@.len(),
                    a.wf(),
                    self.covers(a.c as int),
                ensures
                    call_ensures(
                        S::scaled,
                        (
                            a.data@[k as int],
                            self.scale@[k as int / a.w as int / a.h as int],
                            self.shift@[k as int / a.w as int / a.h as int],
                        ),
                        r,
                    ),
            {
                proof {
                    lemma_some_place(a.c as int, a.h as int, a.w as int, k as int);
                    lemma_place3_of(a.c as int, a.h as int, a.w as int, k as int);
                }
                let c: usize = k / a.w / a.h;
                a.data[k].scaled(self.scale[c], self.shift[c])
            }),
        );
        acts.data = data;
        assert forall|c: int, y: int, x: int| before.inside(c, y, x) implies call_ensures(
            S::scaled,
            (before.value(c, y, x), self.scale@[c], self.shift@[c]),
            #[trigger] acts@.value(c, y, x),
        ) by {
            lemma_place3(before.c, before.h, before.w, c, y, x);
            let k = (c * before.h + y) * before.w + x;
            assert(acts.data@[k] == acts@.value(c, y, x));
        }
    }
}

/// The needs of a BatchNorm one by one.
pub proof fn lemma_norm_needs(store: WeightStore, prefix: Seq<char>, channels: nat)
    ensures
        first_unmet(store, norm_needs(prefix, channels)) == if unmet(
            store,
            Need::Tensor(prefix + ".weight"@),
        ) is Some {
            unmet(store, Need::Tensor(prefix + ".weight"@))
        } else if unmet(store, Need::Tensor(prefix + ".bias"@)) is Some {
            unmet(store, Need::Tensor(prefix + ".bias"@))
        } else if unmet(store, Need::Tensor(prefix + ".running_mean"@)) is Some {
            unmet(store, Need::Tensor(prefix + ".running_mean"@))
        } else if unmet(store, Need::Tensor(prefix + ".running_var"@)) is Some {
            unmet(store, Need::Tensor(prefix + ".running_var"@))
        } else {
            unmet(store, Need::Channels(prefix, channels))
        },
{
    let all = norm_needs(prefix, channels);
    reveal_with_fuel(first_unmet, 6);
    assert(all.drop_last().drop_last().drop_last().drop_last().drop_last() =~= Seq::empty());
}

} // verus!
