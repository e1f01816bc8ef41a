//! Derived tensors packed into one buffer, so that a device takes them in one copy.
//!
//! Most of the network is verbatim in the checkpoint.  What is left are tensors that the
//! loader computes, above all the scale and the shift of every BatchNorm: a few hundred
//! bytes each, and every copy of its own would pay the full latency.

use vstd::prelude::*;

use crate::scalar::Scalar;

verus! {

/// The packed tensors: `records` holds the byte offset and the length of each.
pub struct Staging<S> {
    pub host: Vec<S>,
    pub records: Vec<(usize, usize)>,
}

/// Every record starts on a 16-byte boundary, and ends before the next one starts.
pub open spec fn packed(records: Seq<(usize, usize)>, len: int) -> bool {
    &&& forall|i: int|
        0 <= i < records.len() ==> (#[trigger] records[i]).0 % 16 == 0 && records[i].0 + 4
            * records[i].1 <= 4 * len
    &&& forall|i: int, j: int|
        0 <= i < j < records.len() ==> (#[trigger] records[i]).0 + 4 * records[i].1 <= (
        #[trigger] records[j]).0
}

/// A length rounded up to a multiple of four.
pub open spec fn up4(n: int) -> int {
    (n + 3) / 4 * 4
}

/// The numbers of a buffer from one place up to another are zero.
pub open spec fn zeros<S: Scalar>(data: Seq<S>, from: int, to: int) -> bool {
    forall|i: int| from <= i < to ==> call_ensures(S::zero, (), #[trigger] data[i])
}

/// `b` is `a` with one tensor more at its end, filled up with zeros to a multiple of four
/// numbers.
pub open spec fn pushed<S: Scalar>(a: Staging<S>, b: Staging<S>, data: Seq<S>) -> bool {
    let end = a.host@.len() + data.len();
    &&& b.records@ == a.records@.push(b.records@.last())
    &&& b.records@.last().0 == 4 * a.host@.len()
    &&& b.records@.last().1 == data.len()
    &&& b.host@.len() == up4(end as int)
    &&& b.host@.take(end as int) == a.host@ + data
    &&& zeros(b.host@, end as int, b.host@.len() as int)
}

impl<S: Scalar> Staging<S> {
    pub open spec fn wf(&self) -> bool {
        &&& self.host.len() % 4 == 0
        &&& packed(self.records@, self.host@.len() as int)
    }

    /// The tensor of a record.
    pub open spec fn tensor(&self, i: int) -> Seq<S> {
        let (offset, len) = self.records@[i];
        self.host@.subrange(offset as int / 4, offset as int / 4 + len)
    }

    /// Nothing packed yet.
    pub fn new() -> (s: Self)
        ensures
            s.wf(),
            s.host@.len() == 0,
            s.records@.len() == 0,
    {
        Staging { host: Vec::new(), records: Vec::new() }
    }

    /// Copy a tensor into the buffer and return the number of its record.
    pub fn push(&mut self, data: &Vec<S>) -> (r: usize)
        requires
            old(self).wf(),
            4 * (old(self).host.len() + data.len() + 3) <= usize::MAX,
        ensures
            final(self).wf(),
            r == old(self).records@.len(),
            pushed(*old(self), *final(self), data@),
            final(self).tensor(r as int) == data@,
            forall|i: int|
                0 <= i < old(self).records@.len() ==> #[trigger] final(self).tensor(i)
                    == old(self).tensor(i),
    {
        let ghost before = self.host@;
        let ghost was = *self;
        let offset: usize = self.host.len() * 4;
        let mut i: usize = 0;
        while i < data.len()
            invariant
                i <= data@.len(),
                self.host@ == before + data@.take(i as int),
                self.records@ == was.records@,
            decreases data@.len() - i,
        {
            self.host.push(data[i]);
            i += 1;
            assert(self.host@ =~= before + data@.take(i as int));
        }
        assert(data@.take(i as int) =~= data@);
        let ghost end = before.len() + data@.len();
        while self.host.len() % 4 != 0
            invariant
                end == before.len() + data@.len(),
                end <= self.host.len() <= (end + 3) / 4 * 4,
                self.host@.take(end as int) == before + data@,
                forall|i: int|
                    end <= i < self.host@.len() ==> call_ensures(S::zero, (), #[trigger] self.host@[i]),
                self.records@ == was.records@,
                4 * (end + 3) <= usize::MAX,
            decreases (end + 3) / 4 * 4 - self.host.len(),
        {
            let ghost now = self.host@;
            self.host.push(S::zero());
            assert(self.host@.take(end as int) =~= now.take(end as int));
        }
        self.records.push((offset, data.len()));
        proof {
            let r = was.records@.len() as int;
            assert(self.records@[r] == (offset, data.len()));
            assert(pushed(was, *self, data@));
            lemma_newest(was, *self, data@);
            assert forall|j: int| 0 <= j < r implies #[trigger] self.tensor(j) == was.tensor(j) by {
                lemma_kept(was, *self, data@, j);
            }
            assert forall|j: int| 0 <= j < self.records@.len() implies (#[trigger] self.records@[j]).0
                % 16 == 0 && self.records@[j].0 + 4 * self.records@[j].1 <= 4 * self.host@.len() by {
                if j < r {
                    assert(self.records@[j] == was.records@[j]);
                }
            }
            assert forall|a: int, b: int| 0 <= a < b < self.records@.len() implies (
            #[trigger] self.records@[a]).0 + 4 * self.records@[a].1 <= (#[trigger] self.records@[b]).0 by {
                assert(self.records@[a] == was.records@[a]);
                if b < r {
                    assert(self.records@[b] == was.records@[b]);
                }
            }
        }
        self.records.len() - 1
    }
}

/// What was packed stays as it is.
pub proof fn lemma_kept<S: Scalar>(a: Staging<S>, b: Staging<S>, data: Seq<S>, k: int)
    requires
        a.wf(),
        pushed(a, b, data),
        0 <= k < a.records@.len(),
    ensures
        b.records@[k] == a.records@[k],
        b.tensor(k) == a.tensor(k),
{
    let (o, n) = a.records@[k];
    let end = a.host@.len() + data.len();
    assert forall|i: int| 0 <= i < n implies #[trigger] b.tensor(k)[i] == a.tensor(k)[i] by {
        assert(b.host@.take(end as int)[o / 4 + i] == (a.host@ + data)[o / 4 + i]);
    }
    assert(b.tensor(k) =~= a.tensor(k));
}

pub proof fn lemma_zeros_kept<S: Scalar>(a: Staging<S>, b: Staging<S>, data: Seq<S>, from: int, to: int)
    requires
        pushed(a, b, data),
        zeros(a.host@, from, to),
        0 <= from,
        to <= a.host@.len(),
    ensures
        zeros(b.host@, from, to),
{
    let end = a.host@.len() + data.len();
    assert forall|i: int| from <= i < to implies call_ensures(S::zero, (), #[trigger] b.host@[i]) by {
        assert(b.host@.take(end as int)[i] == (a.host@ + data)[i]);
        assert(call_ensures(S::zero, (), a.host@[i]));
    }
}

/// The tensor that was packed last.
pub proof fn lemma_newest<S: Scalar>(a: Staging<S>, b: Staging<S>, data: Seq<S>)
    requires
        a.wf(),
        pushed(a, b, data),
    ensures
        b.tensor(a.records@.len() as int) == data,
{
    let k = a.records@.len() as int;
    let end = a.host@.len() + data.len();
    assert(b.records@[k] == b.records@.last());
    assert forall|i: int| 0 <= i < data.len() implies #[trigger] b.tensor(k)[i] == data[i] by {
        assert(b.host@.take(end as int)[a.host@.len() + i] == (a.host@ + data)[a.host@.len() + i]);
    }
    assert(b.tensor(k) =~= data);
}

/// Windows into the buffer are aligned for vectorised access and do not overlap.
pub proof fn law_windows_are_apart<S: Scalar>(s: Staging<S>, i: int, j: int)
    requires
        s.wf(),
        0 <= i < s.records@.len(),
        0 <= j < s.records@.len(),
        i != j,
    ensures
        s.records@[i].0 % 16 == 0,
        s.records@[i].0 + 4 * s.records@[i].1 <= s.records@[j].0 || s.records@[j].0 + 4
            * s.records@[j].1 <= s.records@[i].0,
{
}

} // verus!
