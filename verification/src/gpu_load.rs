//! The network's parameters on a device.
//!
//! The checkpoint goes to the device in one copy, and every tensor that is used as it is
//! stored is addressed inside that copy.  The BatchNorms are folded and staged together;
//! the weights that a kernel wants in another order are uploaded by themselves.

use vstd::prelude::*;
use vstd::hash_map::StringHashMap;

use crate::formula::{scale_of, shift_of};
use crate::listing::{alphabetical, comes_before, ends_with, has_ending, in_order, is_before, lemma_alphabetical, lemma_irreflexive, lemma_order, lemma_order_is_one, texts, trimmed, without_ending};
use crate::needs::{decoded, first_unmet, joined, values, Need};
use crate::norm::folded;
use crate::scalar::Scalar;
use crate::staging::{lemma_kept, lemma_newest, lemma_zeros_kept, pushed, up4, zeros, Staging};
use crate::weights::{missing, WeightStore};

verus! {

/// The ending by which a BatchNorm is recognised among the tensors.
pub open spec fn mark() -> Seq<char> {
    ".running_var"@
}

/// The BatchNorm that a tensor belongs to, if it marks one.
pub open spec fn norm_of_tensor(name: Seq<char>) -> Option<Seq<char>> {
    if ends_with(name, mark()) {
        Some(trimmed(name, mark()))
    } else {
        None
    }
}

/// The four tensors of a BatchNorm.
pub open spec fn norm_tensors(prefix: Seq<char>) -> Seq<Need> {
    seq![
        Need::Tensor(prefix + ".weight"@),
        Need::Tensor(prefix + ".bias"@),
        Need::Tensor(prefix + ".running_mean"@),
        Need::Tensor(prefix + ".running_var"@),
    ]
}

/// The complaint about a BatchNorm whose tensors are not all there, if they are not.
pub open spec fn norm_complaint(store: WeightStore, prefix: Seq<char>) -> Option<Seq<char>> {
    first_unmet(store, norm_tensors(prefix))
}

/// The BatchNorm that the tensor `i` of the container marks.
pub open spec fn norm_at(store: WeightStore, i: int) -> Option<Seq<char>> {
    norm_of_tensor(store.index.order@[i]@)
}

/// Whether the tensor `i` of the container marks an incomplete BatchNorm.
pub open spec fn broken_at(store: WeightStore, i: int) -> bool {
    norm_at(store, i) matches Some(p) && norm_complaint(store, p) is Some
}

/// Every complete BatchNorm has a bias, a mean and a variance for each of its weights.
pub open spec fn norms_even(store: WeightStore) -> bool {
    forall|i: int|
        0 <= i < store.index.order@.len() ==> (#[trigger] norm_at(store, i) matches Some(p)
            ==> norm_even(store, p))
}

/// A BatchNorm, if it is complete, has a bias, a mean and a variance for each weight.
pub open spec fn norm_even(store: WeightStore, p: Seq<char>) -> bool {
    norm_complaint(store, p) is None ==> {
        let n = store.words(p + ".weight"@).len();
        &&& store.words(p + ".bias"@).len() >= n
        &&& store.words(p + ".running_mean"@).len() >= n
        &&& store.words(p + ".running_var"@).len() >= n
    }
}

/// `scale` and `shift` are the fold of the BatchNorm of this name.
pub open spec fn fold_of<S: Scalar>(
    store: WeightStore,
    p: Seq<char>,
    scale: Seq<S>,
    shift: Seq<S>,
) -> bool {
    let w = store.words(p + ".weight"@);
    &&& scale.len() == w.len()
    &&& shift.len() == w.len()
    &&& forall|i: int|
        0 <= i < w.len() ==> folded(
            w[i],
            store.words(p + ".bias"@)[i],
            store.words(p + ".running_mean"@)[i],
            store.words(p + ".running_var"@)[i],
            #[trigger] scale[i],
            #[trigger] shift[i],
        )
}

/// The staged BatchNorms: the records of the scale and the shift of each.
pub struct Norms<S> {
    pub staging: Staging<S>,
    pub records: StringHashMap<(usize, usize)>,
}

impl<S: Scalar> Norms<S> {
    /// The records of a name hold the fold of the BatchNorm of that name.
    pub open spec fn holds(&self, store: WeightStore, p: Seq<char>) -> bool {
        let (a, b) = self.records@[p];
        &&& a < self.staging.records@.len()
        &&& b < self.staging.records@.len()
        &&& fold_of(store, p, self.staging.tensor(a as int), self.staging.tensor(b as int))
        &&& self.staging.records@[a as int].1 == store.words(p + ".weight"@).len()
        &&& self.staging.records@[b as int].1 == store.words(p + ".weight"@).len()
    }

    /// The BatchNorm `k` of a list has the records `2 * k` and `2 * k + 1`, for its scale
    /// and its shift.  They follow those of the BatchNorms before it, each filled up with
    /// zeros to a multiple of four numbers.
    pub open spec fn staged_at(&self, store: WeightStore, names: Seq<Seq<char>>, k: int) -> bool {
        let n = store.words(names[k] + ".weight"@).len();
        let first = staged_len(store, names.take(k));
        let second = up4(first + n);
        &&& self.staging.records@[2 * k].0 == 4 * first
        &&& self.staging.records@[2 * k].1 == n
        &&& self.staging.records@[2 * k + 1].0 == 4 * second
        &&& self.staging.records@[2 * k + 1].1 == n
        &&& fold_of(
            store,
            names[k],
            self.staging.tensor(2 * k),
            self.staging.tensor(2 * k + 1),
        )
        &&& zeros(self.staging.host@, first + n, second)
        &&& zeros(self.staging.host@, second + n, up4(second + n))
    }

    /// The records of a name are those of the last BatchNorm of that name in a list.
    pub open spec fn found_at(&self, names: Seq<Seq<char>>, p: Seq<char>, k: int) -> bool {
        &&& 0 <= k < names.len()
        &&& names[k] == p
        &&& self.records@[p].0 == 2 * k
        &&& self.records@[p].1 == 2 * k + 1
        &&& forall|j: int| k < j < names.len() ==> #[trigger] names[j] != p
    }

    /// The buffer holds the BatchNorms of a list, in that order, and the records of every
    /// name are known.
    pub open spec fn covers(&self, store: WeightStore, names: Seq<Seq<char>>) -> bool {
        &&& self.staging.wf()
        &&& self.staging.host@.len() == staged_len(store, names)
        &&& self.staging.records@.len() == 2 * names.len()
        &&& forall|k: int| 0 <= k < names.len() ==> #[trigger] self.staged_at(store, names, k)
        &&& forall|p: Seq<char>| #[trigger] self.records@.contains_key(p) <==> names.contains(p)
        &&& forall|p: Seq<char>| #[trigger]
            self.records@.contains_key(p) ==> exists|k: int| #[trigger] self.found_at(names, p, k)
    }
}

/// The BatchNorms that the first `n` tensors of the container mark.
pub open spec fn names_upto(store: WeightStore, n: nat) -> Seq<Seq<char>>
    decreases n,
{
    if n == 0 {
        Seq::empty()
    } else {
        let before = names_upto(store, (n - 1) as nat);
        match norm_at(store, n - 1) {
            Some(p) => before.push(p),
            None => before,
        }
    }
}

/// The BatchNorms of a checkpoint in alphabetical order.
pub open spec fn norm_list(store: WeightStore) -> Seq<Seq<char>> {
    alphabetical(names_upto(store, store.index.order@.len()))
}

/// `text` is the complaint about the first BatchNorm, in alphabetical order, that is not
/// complete.
pub open spec fn first_broken(store: WeightStore, text: Seq<char>) -> bool {
    exists|i: int| #[trigger] is_first_broken(store, i, text)
}

/// The tensor `i` marks an incomplete BatchNorm, none before it in alphabetical order is
/// incomplete, and `text` says so.
pub open spec fn is_first_broken(store: WeightStore, i: int, text: Seq<char>) -> bool {
    &&& 0 <= i < store.index.order@.len()
    &&& broken_at(store, i)
    &&& norm_complaint(store, norm_at(store, i).unwrap()) == Some(text)
    &&& forall|j: int|
        0 <= j < store.index.order@.len() && #[trigger] broken_at(store, j) ==> !comes_before(
            norm_at(store, j).unwrap(),
            norm_at(store, i).unwrap(),
        )
}

/// Whether any BatchNorm is incomplete.
pub open spec fn any_broken(store: WeightStore) -> bool {
    exists|i: int| 0 <= i < store.index.order@.len() && #[trigger] broken_at(store, i)
}

/// Fold a BatchNorm, whose tensors are all there.
fn fold_bn<S: Scalar>(store: &WeightStore, p: &String) -> (res: Result<(Vec<S>, Vec<S>), String>)
    requires
        store.wf(),
        norm_even(*store, p@),
    ensures
        match norm_complaint(*store, p@) {
            Some(text) => res matches Err(e) && e@ == text,
            None => res matches Ok((scale, shift)) && fold_of(*store, p@, scale@, shift@),
        },
{
    proof {
        lemma_norm_tensors(*store, p@);
    }
    let w: Vec<S> = match values::<S>(store, joined(p.as_str(), ".weight").as_str()) {
        Ok(v) => v,
        Err(e) => {
            return Err(e);
        },
    };
    let b: Vec<S> = match values::<S>(store, joined(p.as_str(), ".bias").as_str()) {
        Ok(v) => v,
        Err(e) => {
            return Err(e);
        },
    };
    let mean: Vec<S> = match values::<S>(store, joined(p.as_str(), ".running_mean").as_str()) {
        Ok(v) => v,
        Err(e) => {
            return Err(e);
        },
    };
    let var: Vec<S> = match values::<S>(store, joined(p.as_str(), ".running_var").as_str()) {
        Ok(v) => v,
        Err(e) => {
            return Err(e);
        },
    };
    let ghost ws = store.words(p@ + ".weight"@);
    let ghost bs = store.words(p@ + ".bias"@);
    let ghost ms = store.words(p@ + ".running_mean"@);
    let ghost vs = store.words(p@ + ".running_var"@);
    let mut scale: Vec<S> = Vec::new();
    let mut shift: Vec<S> = Vec::new();
    let mut i: usize = 0;
    while i < w.len()
        invariant
            i <= w@.len(),
            w@.len() <= b@.len(),
            w@.len() <= mean@.len(),
            w@.len() <= var@.len(),
            decoded(ws, w@),
            decoded(bs, b@),
            decoded(ms, mean@),
            decoded(vs, var@),
            scale@.len() == i,
            shift@.len() == i,
            forall|j: int|
                0 <= j < i ==> folded(
                    ws[j],
                    bs[j],
                    ms[j],
                    vs[j],
                    #[trigger] scale@[j],
                    #[trigger] shift@[j],
                ),
        decreases w@.len() - i,
    {
        let s: S = scale_of(w[i], var[i]);
        let t: S = shift_of(b[i], mean[i], s);
        proof {
            assert(call_ensures(S::from_bits, (ws[i as int],), w@[i as int]));
            assert(call_ensures(S::from_bits, (bs[i as int],), b@[i as int]));
            assert(call_ensures(S::from_bits, (ms[i as int],), mean@[i as int]));
            assert(call_ensures(S::from_bits, (vs[i as int],), var@[i as int]));
            assert(folded(ws[i as int], bs[i as int], ms[i as int], vs[i as int], s, t));
        }
        scale.push(s);
        shift.push(t);
        i += 1;
    }
    Ok((scale, shift))
}

/// The tensors of a BatchNorm one by one.
proof fn lemma_norm_tensors(store: WeightStore, p: Seq<char>)
    ensures
        norm_complaint(store, p) == if !store.has(p + ".weight"@) {
            Some(missing(p + ".weight"@))
        } else if !store.has(p + ".bias"@) {
            Some(missing(p + ".bias"@))
        } else if !store.has(p + ".running_mean"@) {
            Some(missing(p + ".running_mean"@))
        } else if !store.has(p + ".running_var"@) {
            Some(missing(p + ".running_var"@))
        } else {
            None
        },
{
    let all = norm_tensors(p);
    reveal_with_fuel(first_unmet, 5);
    assert(all.drop_last().drop_last().drop_last().drop_last() =~= Seq::empty());
}

/// The BatchNorm that a tensor belongs to, if it marks one.
fn marked(name: &String) -> (r: Option<String>)
    ensures
        match norm_of_tensor(name@) {
            Some(p) => r matches Some(s) && s@ == p,
            None => r is None,
        },
{
    if has_ending(name.as_str(), ".running_var") {
        Some(without_ending(name.as_str(), ".running_var"))
    } else {
        None
    }
}

/// Whether the BatchNorms of a checkpoint can be folded.
pub fn foldable(store: &WeightStore) -> (r: bool)
    requires
        store.wf(),
    ensures
        r == norms_even(*store),
{
    let mut i: usize = 0;
    while i < store.index.order.len()
        invariant
            store.wf(),
            i <= store.index.order@.len(),
            forall|j: int|
                0 <= j < i ==> (#[trigger] norm_at(*store, j) matches Some(p) ==> norm_even(
                    *store,
                    p,
                )),
        decreases store.index.order@.len() - i,
    {
        match marked(&store.index.order[i]) {
            Some(p) => {
                let even: bool = even_norm(store, &p);
                assert(norm_at(*store, i as int) == Some(p@));
                if !even {
                    return false;
                }
            },
            None => {},
        }
        i += 1;
    }
    true
}

/// The number of elements of a tensor.
fn words_len(store: &WeightStore, name: &str) -> (n: Option<usize>)
    requires
        store.wf(),
    ensures
        match n {
            Some(n) => store.has(name@) && n == store.words(name@).len(),
            None => !store.has(name@),
        },
{
    match store.info(name) {
        Ok(t) => {
            assert(store.holds(name@, *t));
            Some(t.numel())
        },
        Err(_) => None,
    }
}

fn even_norm(store: &WeightStore, p: &String) -> (r: bool)
    requires
        store.wf(),
    ensures
        r == norm_even(*store, p@),
{
    proof {
        lemma_norm_tensors(*store, p@);
    }
    match (
        words_len(store, joined(p.as_str(), ".weight").as_str()),
        words_len(store, joined(p.as_str(), ".bias").as_str()),
        words_len(store, joined(p.as_str(), ".running_mean").as_str()),
        words_len(store, joined(p.as_str(), ".running_var").as_str()),
    ) {
        (Some(w), Some(b), Some(m), Some(v)) => b >= w && m >= w && v >= w,
        (_, _, _, _) => true,
    }
}

/// The numbers that the BatchNorms of a list take when they are staged.
pub open spec fn staged_len(store: WeightStore, names: Seq<Seq<char>>) -> int
    decreases names.len(),
{
    if names.len() == 0 {
        0
    } else {
        let n = store.words(names.last() + ".weight"@).len();
        up4(up4(staged_len(store, names.drop_last()) + n) + n)
    }
}

/// The BatchNorms of a checkpoint can be staged in one buffer that the machine can
/// address.
pub open spec fn stageable(store: WeightStore) -> bool {
    4 * (staged_len(store, norm_list(store)) + 3) <= usize::MAX
}

proof fn lemma_staged_step(store: WeightStore, names: Seq<Seq<char>>, k: int)
    requires
        0 <= k < names.len(),
    ensures
        ({
            let n = store.words(names[k] + ".weight"@).len();
            staged_len(store, names.take(k + 1)) == up4(up4(staged_len(store, names.take(k)) + n) + n)
        }),
{
    assert(names.take(k + 1).drop_last() =~= names.take(k));
}

proof fn lemma_staged_grows(store: WeightStore, names: Seq<Seq<char>>, n: int, m: int)
    requires
        0 <= n <= m <= names.len(),
    ensures
        0 <= staged_len(store, names.take(n)) <= staged_len(store, names.take(m)),
    decreases m,
{
    if m > 0 {
        lemma_staged_step(store, names, m - 1);
        if n < m {
            lemma_staged_grows(store, names, n, m - 1);
        } else {
            lemma_staged_grows(store, names, n - 1, m - 1);
        }
    }
}

/// The list names what the tensors of the container mark.
proof fn lemma_upto(store: WeightStore, n: nat, p: Seq<char>)
    ensures
        names_upto(store, n).contains(p) <==> exists|i: int|
            0 <= i < n && #[trigger] norm_at(store, i) == Some(p),
    decreases n,
{
    if n > 0 {
        let before = names_upto(store, (n - 1) as nat);
        let all = names_upto(store, n);
        lemma_upto(store, (n - 1) as nat, p);
        if all.contains(p) {
            let k = choose|k: int| 0 <= k < all.len() && all[k] == p;
            if k == before.len() {
                assert(norm_at(store, n - 1) == Some(p));
            } else {
                assert(before[k] == p);
                assert(before.contains(p));
            }
        }
        if exists|i: int| 0 <= i < n && #[trigger] norm_at(store, i) == Some(p) {
            let i = choose|i: int| 0 <= i < n && #[trigger] norm_at(store, i) == Some(p);
            if i == n - 1 {
                assert(all[before.len() as int] == p);
            } else {
                assert(norm_at(store, i) == Some(p));
                assert(before.contains(p));
                let k = choose|k: int| 0 <= k < before.len() && before[k] == p;
                assert(all[k] == p);
            }
        }
    }
}

/// The alphabetical list names what the tensors of the container mark.
pub proof fn lemma_listed(store: WeightStore, p: Seq<char>)
    ensures
        norm_list(store).contains(p) <==> exists|i: int|
            0 <= i < store.index.order@.len() && #[trigger] norm_at(store, i) == Some(p),
{
    lemma_upto(store, store.index.order@.len(), p);
    lemma_alphabetical(names_upto(store, store.index.order@.len()));
}

/// The records of a name hold the fold of the BatchNorm of that name.
pub proof fn lemma_recorded<S: Scalar>(norms: Norms<S>, store: WeightStore, p: Seq<char>)
    requires
        store.wf(),
        norms.covers(store, norm_list(store)),
    ensures
        norms.records@.contains_key(p) <==> exists|i: int|
            0 <= i < store.index.order@.len() && #[trigger] norm_at(store, i) == Some(p),
        norms.records@.contains_key(p) ==> norms.holds(store, p),
{
    let names = norm_list(store);
    lemma_listed(store, p);
    if norms.records@.contains_key(p) {
        let k = choose|k: int| #[trigger] norms.found_at(names, p, k);
        assert(norms.staged_at(store, names, k));
    }
}

/// List the BatchNorms of a checkpoint in alphabetical order.
fn list_norms(store: &WeightStore) -> (names: Vec<String>)
    ensures
        texts(names@) == norm_list(*store),
{
    let mut found: Vec<String> = Vec::new();
    let mut i: usize = 0;
    assert(texts(found@) =~= names_upto(*store, 0));
    while i < store.index.order.len()
        invariant
            i <= store.index.order@.len(),
            texts(found@) == names_upto(*store, i as nat),
        decreases store.index.order@.len() - i,
    {
        let ghost before = texts(found@);
        match marked(&store.index.order[i]) {
            Some(p) => {
                let ghost name = p@;
                found.push(p);
                assert(texts(found@) =~= before.push(name));
            },
            None => {},
        }
        i += 1;
    }
    in_order(&found)
}

/// Whether the BatchNorms of a checkpoint can be staged, if they are all complete.
pub fn can_stage(store: &WeightStore) -> (r: bool)
    requires
        store.wf(),
    ensures
        r == (!any_broken(*store) ==> stageable(*store)),
{
    if find_broken(store).is_some() {
        return true;
    }
    let names: Vec<String> = list_norms(store);
    let ghost list = norm_list(*store);
    let most: usize = usize::MAX / 4 - 3;
    let mut len: usize = 0;
    let mut i: usize = 0;
    assert(list.take(0) =~= Seq::empty());
    while i < names.len()
        invariant
            store.wf(),
            !any_broken(*store),
            most == usize::MAX / 4 - 3,
            list == norm_list(*store),
            texts(names@) == list,
            i <= names@.len(),
            len == staged_len(*store, list.take(i as int)),
            len <= most,
        decreases names@.len() - i,
    {
        proof {
            assert(list[i as int] == names@[i as int]@);
            lemma_whole(*store, i as int);
            lemma_norm_tensors(*store, list[i as int]);
            lemma_staged_step(*store, list, i as int);
            lemma_staged_grows(*store, list, i + 1, list.len() as int);
            assert(list.take(list.len() as int) =~= list);
        }
        let n: usize = match words_len(store, joined(names[i].as_str(), ".weight").as_str()) {
            Some(n) => n,
            None => 0,
        };
        let first: u128 = (len as u128 + n as u128 + 3) / 4 * 4;
        let second: u128 = (first + n as u128 + 3) / 4 * 4;
        if second > most as u128 {
            return false;
        }
        len = second as usize;
        i += 1;
    }
    assert(list.take(i as int) =~= list);
    true
}

/// No listed BatchNorm is incomplete, if none of the container is.
proof fn lemma_whole(store: WeightStore, k: int)
    requires
        !any_broken(store),
        0 <= k < norm_list(store).len(),
    ensures
        norm_complaint(store, norm_list(store)[k]) is None,
        norms_even(store) ==> norm_even(store, norm_list(store)[k]),
{
    let p = norm_list(store)[k];
    assert(norm_list(store).contains(p));
    lemma_listed(store, p);
    let i = choose|i: int|
        0 <= i < store.index.order@.len() && #[trigger] norm_at(store, i) == Some(p);
    assert(!broken_at(store, i));
}

/// The first incomplete BatchNorm in alphabetical order, if there is one, among the first
/// tensors.
fn find_broken(store: &WeightStore) -> (r: Option<String>)
    requires
        store.wf(),
    ensures
        match r {
            Some(text) => first_broken(*store, text@) && any_broken(*store),
            None => !any_broken(*store),
        },
{
    let mut best: Option<(usize, String)> = None;
    let mut i: usize = 0;
    while i < store.index.order.len()
        invariant
            store.wf(),
            i <= store.index.order@.len(),
            match best {
                Some((b, p)) => {
                    &&& b < i
                    &&& broken_at(*store, b as int)
                    &&& norm_at(*store, b as int) == Some(p@)
                    &&& forall|j: int|
                        0 <= j < i && #[trigger] broken_at(*store, j) ==> !comes_before(
                            norm_at(*store, j).unwrap(),
                            p@,
                        )
                },
                None => forall|j: int| 0 <= j < i ==> !#[trigger] broken_at(*store, j),
            },
        decreases store.index.order@.len() - i,
    {
        match marked(&store.index.order[i]) {
            Some(p) => {
                assert(norm_at(*store, i as int) == Some(p@));
                if !complete(store, &p) {
                    assert(broken_at(*store, i as int));
                    let better: bool = match &best {
                        None => true,
                        Some((_, q)) => is_before(p.as_str(), q.as_str()),
                    };
                    if better {
                        proof {
                            if let Some((_, q)) = best {
                                assert forall|j: int|
                                    0 <= j < i + 1 && #[trigger] broken_at(*store, j) implies !comes_before(
                                    norm_at(*store, j).unwrap(),
                                    p@,
                                ) by {
                                    let other = norm_at(*store, j).unwrap();
                                    if comes_before(other, p@) {
                                        if j < i {
                                            lemma_order(other, p@, q@);
                                        } else {
                                            lemma_irreflexive(p@);
                                        }
                                    }
                                }
                            } else {
                                lemma_irreflexive(p@);
                            }
                        }
                        best = Some((i, p));
                    }
                }
            },
            None => {},
        }
        i += 1;
    }
    match best {
        None => None,
        Some((b, p)) => {
            let text: String = complaint_text(store, &p);
            proof {
                assert(is_first_broken(*store, b as int, text@));
            }
            Some(text)
        },
    }
}

/// Whether the tensors of a BatchNorm are all there.
fn complete(store: &WeightStore, p: &String) -> (r: bool)
    ensures
        r == (norm_complaint(*store, p@) is None),
{
    proof {
        lemma_norm_tensors(*store, p@);
    }
    store.info(joined(p.as_str(), ".weight").as_str()).is_ok() && store.info(
        joined(p.as_str(), ".bias").as_str(),
    ).is_ok() && store.info(joined(p.as_str(), ".running_mean").as_str()).is_ok() && store.info(
        joined(p.as_str(), ".running_var").as_str(),
    ).is_ok()
}

/// The complaint about an incomplete BatchNorm.
fn complaint_text(store: &WeightStore, p: &String) -> (s: String)
    requires
        norm_complaint(*store, p@) is Some,
    ensures
        norm_complaint(*store, p@) == Some(s@),
{
    proof {
        lemma_norm_tensors(*store, p@);
    }
    match store.info(joined(p.as_str(), ".weight").as_str()) {
        Ok(_) => {},
        Err(e) => {
            return e;
        },
    }
    match store.info(joined(p.as_str(), ".bias").as_str()) {
        Ok(_) => {},
        Err(e) => {
            return e;
        },
    }
    match store.info(joined(p.as_str(), ".running_mean").as_str()) {
        Ok(_) => {},
        Err(e) => {
            return e;
        },
    }
    match store.info(joined(p.as_str(), ".running_var").as_str()) {
        Ok(_) => String::new(),
        Err(e) => e,
    }
}

/// Fold every BatchNorm of the checkpoint and stage the results, in alphabetical order.
#[verifier::spinoff_prover]
#[verifier::rlimit(60)]
pub fn stage_bns<S: Scalar>(store: &WeightStore) -> (res: Result<Norms<S>, String>)
    requires
        store.wf(),
        norms_even(*store),
        !any_broken(*store) ==> stageable(*store),
    ensures
        match res {
            Ok(n) => !any_broken(*store) && n.covers(*store, norm_list(*store)),
            Err(e) => any_broken(*store) && first_broken(*store, e@),
        },
{
    match find_broken(store) {
        Some(text) => {
            return Err(text);
        },
        None => {},
    }
    let names: Vec<String> = list_norms(store);
    let ghost list = norm_list(*store);
    let mut norms: Norms<S> = Norms { staging: Staging::new(), records: StringHashMap::new() };
    let mut i: usize = 0;
    assert(list.take(0) =~= Seq::empty());
    while i < names.len()
        invariant
            store.wf(),
            norms_even(*store),
            !any_broken(*store),
            stageable(*store),
            list == norm_list(*store),
            texts(names@) == list,
            i <= names@.len(),
            norms.covers(*store, list.take(i as int)),
        decreases names@.len() - i,
    {
        let ghost before = norms;
        let ghost p = list[i as int];
        proof {
            assert(p == names@[i as int]@);
            lemma_whole(*store, i as int);
            lemma_staged_step(*store, list, i as int);
            lemma_staged_grows(*store, list, i + 1, list.len() as int);
            assert(list.take(list.len() as int) =~= list);
        }
        match fold_bn::<S>(store, &names[i]) {
            Ok((scale, shift)) => {
                let a: usize = norms.staging.push(&scale);
                let ghost mid = norms.staging;
                let b: usize = norms.staging.push(&shift);
                norms.records.insert(names[i].clone(), (a, b));
                proof {
                    lemma_covered(*store, before, mid, norms, list, i as int, scale@, shift@, a, b);
                }
            },
            Err(e) => {
                return Err(e);
            },
        }
        i += 1;
    }
    assert(list.take(i as int) =~= list);
    Ok(norms)
}

proof fn lemma_covered<S: Scalar>(
    store: WeightStore,
    before: Norms<S>,
    mid: Staging<S>,
    after: Norms<S>,
    list: Seq<Seq<char>>,
    i: int,
    scale: Seq<S>,
    shift: Seq<S>,
    a: usize,
    b: usize,
)
    requires
        0 <= i < list.len(),
        a == 2 * i,
        b == 2 * i + 1,
        before.covers(store, list.take(i)),
        fold_of(store, list[i], scale, shift),
        mid.wf(),
        after.staging.wf(),
        after.records@ == before.records@.insert(list[i], (a, b)),
        pushed(before.staging, mid, scale),
        pushed(mid, after.staging, shift),
    ensures
        after.covers(store, list.take(i + 1)),
{
    let names = list.take(i);
    let more = list.take(i + 1);
    let p = list[i];
    lemma_staged_step(store, list, i);
    assert forall|k: int| 0 <= k < more.len() implies #[trigger] after.staged_at(store, more, k) by {
        assert(more.take(k) =~= list.take(k));
        assert(names.take(k) =~= list.take(k));
        let n = store.words(more[k] + ".weight"@).len();
        let first = staged_len(store, more.take(k));
        let second = up4(first + n);
        if k < i {
            assert(before.staged_at(store, names, k));
            lemma_staged_step(store, list, k);
            lemma_staged_grows(store, list, k, i);
            lemma_staged_grows(store, list, k + 1, i);
            lemma_kept(before.staging, mid, scale, 2 * k);
            lemma_kept(before.staging, mid, scale, 2 * k + 1);
            lemma_kept(mid, after.staging, shift, 2 * k);
            lemma_kept(mid, after.staging, shift, 2 * k + 1);
            lemma_zeros_kept(before.staging, mid, scale, first + n, second);
            lemma_zeros_kept(before.staging, mid, scale, second + n, up4(second + n));
            lemma_zeros_kept(mid, after.staging, shift, first + n, second);
            lemma_zeros_kept(mid, after.staging, shift, second + n, up4(second + n));
        } else {
            lemma_newest(before.staging, mid, scale);
            lemma_newest(mid, after.staging, shift);
            lemma_kept(mid, after.staging, shift, 2 * k);
            lemma_zeros_kept(mid, after.staging, shift, first + n, second);
        }
    }
    assert forall|q: Seq<char>| #[trigger] after.records@.contains_key(q) <==> more.contains(q) by {
        if names.contains(q) {
            let k = choose|k: int| 0 <= k < names.len() && names[k] == q;
            assert(more[k] == q);
        }
        if more.contains(q) && q != p {
            let k = choose|k: int| 0 <= k < more.len() && more[k] == q;
            assert(names[k] == q);
        }
        assert(more[i] == p);
    }
    assert forall|q: Seq<char>| #[trigger] after.records@.contains_key(q) implies exists|k: int|
        #[trigger] after.found_at(more, q, k) by {
        if q == p {
            assert(after.found_at(more, q, i));
        } else {
            assert(before.records@.contains_key(q));
            let k = choose|k: int| #[trigger] before.found_at(names, q, k);
            assert forall|j: int| k < j < more.len() implies #[trigger] more[j] != q by {
                if j < i {
                    assert(names[j] != q);
                }
            }
            assert(after.found_at(more, q, k));
        }
    }
}

/// The order of the records is reproducible: containers that mark the same BatchNorms, in
/// whatever order, list them alike.
pub proof fn law_record_order_is_reproducible(a: WeightStore, b: WeightStore)
    requires
        names_upto(a, a.index.order@.len()).to_multiset() == names_upto(
            b,
            b.index.order@.len(),
        ).to_multiset(),
    ensures
        norm_list(a) == norm_list(b),
{
    lemma_order_is_one(names_upto(a, a.index.order@.len()), names_upto(b, b.index.order@.len()));
}

} // verus!
