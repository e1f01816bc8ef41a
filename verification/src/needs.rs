//! What a part of the network needs of a checkpoint, and what is said when it is not
//! there.

use vstd::prelude::*;
use vstd::string::StringExecFns;

use crate::scalar::Scalar;
use crate::text::decimal;
use crate::weights::{missing, WeightStore};

verus! {

/// Something that has to be in the checkpoint.
pub enum Need {
    /// A tensor of this name.
    Tensor(Seq<char>),
    /// The four tensors of this BatchNorm have this many elements each.
    Channels(Seq<char>, nat),
}

/// The complaint about a BatchNorm of the wrong size.
pub open spec fn wrong_channels(store: WeightStore, prefix: Seq<char>, channels: nat) -> Seq<char> {
    "BatchNorm "@ + prefix + ": expected "@ + decimal(channels) + " channels, got w="@ + decimal(
        store.words(prefix + ".weight"@).len(),
    ) + " b="@ + decimal(store.words(prefix + ".bias"@).len()) + " mean="@ + decimal(
        store.words(prefix + ".running_mean"@).len(),
    ) + " var="@ + decimal(store.words(prefix + ".running_var"@).len())
}

/// The complaint about a need that is not met, if it is not.
pub open spec fn unmet(store: WeightStore, need: Need) -> Option<Seq<char>> {
    match need {
        Need::Tensor(name) => if store.has(name) {
            None
        } else {
            Some(missing(name))
        },
        Need::Channels(prefix, n) => if store.words(prefix + ".weight"@).len() == n && store.words(
            prefix + ".bias"@,
        ).len() == n && store.words(prefix + ".running_mean"@).len() == n && store.words(
            prefix + ".running_var"@,
        ).len() == n {
            None
        } else {
            Some(wrong_channels(store, prefix, n))
        },
    }
}

/// The complaint about the first need that is not met.
pub open spec fn first_unmet(store: WeightStore, needs: Seq<Need>) -> Option<Seq<char>>
    decreases needs.len(),
{
    if needs.len() == 0 {
        None
    } else if first_unmet(store, needs.drop_last()) is Some {
        first_unmet(store, needs.drop_last())
    } else {
        unmet(store, needs.last())
    }
}

/// The needs of one part come before those of the next.
pub proof fn lemma_needs_in_turn(store: WeightStore, a: Seq<Need>, b: Seq<Need>)
    ensures
        first_unmet(store, a + b) == if first_unmet(store, a) is Some {
            first_unmet(store, a)
        } else {
            first_unmet(store, b)
        },
    decreases b.len(),
{
    if b.len() == 0 {
        assert(a + b =~= a);
    } else {
        lemma_needs_in_turn(store, a, b.drop_last());
        assert((a + b).drop_last() =~= a + b.drop_last());
    }
}

/// A single need.
pub proof fn lemma_one_need(store: WeightStore, need: Need)
    ensures
        first_unmet(store, seq![need]) == unmet(store, need),
{
    let s = seq![need];
    assert(s.drop_last() =~= Seq::empty());
    assert(first_unmet(store, s.drop_last()) is None);
}

/// Two texts after one another.
pub fn joined(a: &str, b: &str) -> (s: String)
    ensures
        s@ == a@ + b@,
{
    let mut s: String = a.to_owned();
    s.append(b);
    s
}

/// `v` holds the numbers that the words encode.
pub open spec fn decoded<S: Scalar>(words: Seq<u32>, v: Seq<S>) -> bool {
    &&& v.len() == words.len()
    &&& forall|i: int|
        0 <= i < words.len() ==> call_ensures(S::from_bits, (words[i],), #[trigger] v[i])
}

/// Copy a tensor out of the checkpoint.
pub fn values<S: Scalar>(store: &WeightStore, name: &str) -> (res: Result<Vec<S>, String>)
    requires
        store.wf(),
    ensures
        match res {
            Ok(v) => store.has(name@) && decoded(store.words(name@), v@),
            Err(e) => !store.has(name@) && e@ == missing(name@),
        },
{
    let words: Vec<u32> = match store.bits(name) {
        Ok(w) => w,
        Err(e) => {
            return Err(e);
        },
    };
    let mut v: Vec<S> = Vec::new();
    let mut i: usize = 0;
    while i < words.len()
        invariant
            i <= words@.len(),
            v@.len() == i,
            forall|j: int| 0 <= j < i ==> call_ensures(S::from_bits, (words@[j],), #[trigger] v@[j]),
        decreases words@.len() - i,
    {
        v.push(S::from_bits(words[i]));
        i += 1;
    }
    Ok(v)
}

} // verus!
