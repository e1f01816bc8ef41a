//! Weights: the big-lama reading of a checkpoint container.
//!
//! Every tensor must be FP32 and is checked against its place in the container before
//! anything is handed out, so a truncated or mis-converted file fails at load.  The order
//! in which tensors appear in the container is the layer order the network walks.

use vstd::prelude::*;
use vstd::hash_map::StringHashMap;
use vstd::string::StringExecFns;

verus! {

/// One tensor as the header of the container announces it.
#[derive(Debug, Clone)]
pub struct Entry {
    pub name: String,
    /// The name of the element type.
    pub dtype: String,
    pub shape: Vec<usize>,
    /// Absolute byte offset in the container.
    pub offset: usize,
    pub nbytes: usize,
}

/// One tensor in the container.
#[derive(Debug, Clone)]
pub struct TensorInfo {
    pub name: String,
    pub shape: Vec<usize>,
    /// Absolute byte offset in the container, so that a copy of the whole container can
    /// address the tensor at its base plus `offset`.
    pub offset: usize,
    pub nbytes: usize,
}

/// The product of the extents of a shape.
pub open spec fn numel_of(shape: Seq<usize>) -> nat
    decreases shape.len(),
{
    if shape.len() == 0 {
        1
    } else {
        numel_of(shape.drop_last()) * shape.last() as nat
    }
}

/// The number of elements can be computed from left to right.
pub open spec fn countable(shape: Seq<usize>) -> bool {
    forall|i: int| 0 <= i <= shape.len() ==> numel_of(#[trigger] shape.take(i)) <= usize::MAX
}

impl TensorInfo {
    pub fn numel(&self) -> (n: usize)
        requires
            countable(self.shape@),
        ensures
            n == numel_of(self.shape@),
    {
        let mut n: usize = 1;
        let mut i: usize = 0;
        assert(self.shape@.take(0) =~= Seq::empty());
        while i < self.shape.len()
            invariant
                i <= self.shape@.len(),
                countable(self.shape@),
                n == numel_of(self.shape@.take(i as int)),
            decreases self.shape@.len() - i,
        {
            assert(self.shape@.take(i + 1).drop_last() =~= self.shape@.take(i as int));
            assert(numel_of(self.shape@.take(i + 1)) == n * self.shape@[i as int]);
            n = n * self.shape[i];
            i += 1;
        }
        assert(self.shape@.take(i as int) =~= self.shape@);
        n
    }
}

/// The tensors of a container by name, and the order in which they appear in it.
pub struct WeightIndex {
    pub tensors: StringHashMap<TensorInfo>,
    pub order: Vec<String>,
}

/// The checkpoint: the container and the index of it.
pub struct WeightStore<'a> {
    pub file: &'a [u8],
    pub index: WeightIndex,
}

/// `t` is the tensor that an entry announces.
pub open spec fn tensor_of(e: Entry, t: TensorInfo) -> bool {
    &&& t.name@ == e.name@
    &&& t.shape@ == e.shape@
    &&& t.offset == e.offset
    &&& t.nbytes == e.nbytes
}

/// The entry that a name stands for: the last one of that name.
pub open spec fn entry_named(entries: Seq<Entry>, name: Seq<char>) -> Option<Entry>
    decreases entries.len(),
{
    if entries.len() == 0 {
        None
    } else if entries.last().name@ == name {
        Some(entries.last())
    } else {
        entry_named(entries.drop_last(), name)
    }
}

/// Whether an entry's elements fill exactly the bytes it claims, inside the container.
pub open spec fn entry_fits(e: Entry, len: nat) -> bool {
    &&& countable(e.shape@)
    &&& e.nbytes == 4 * numel_of(e.shape@)
    &&& e.offset + e.nbytes <= len
}

/// The complaint about an entry, if any.
pub open spec fn entry_complaint(e: Entry, len: nat) -> Option<Seq<char>> {
    if e.dtype@ != "F32"@ {
        Some(
            "tensor "@ + e.name@ + " is "@ + e.dtype@
                + ", not F32 - is this a big-lama checkpoint?"@,
        )
    } else if !entry_fits(e, len) {
        Some("tensor "@ + e.name@ + " does not match its data offsets"@)
    } else {
        None
    }
}

/// The complaint about the first entry that deserves one.
pub open spec fn first_complaint(entries: Seq<Entry>, len: nat) -> Option<Seq<char>>
    decreases entries.len(),
{
    if entries.len() == 0 {
        None
    } else if first_complaint(entries.drop_last(), len) is Some {
        first_complaint(entries.drop_last(), len)
    } else {
        entry_complaint(entries.last(), len)
    }
}

/// The complaint about a container, if any.
pub open spec fn container_complaint(entries: Seq<Entry>, len: nat, path: Seq<char>) -> Option<
    Seq<char>,
> {
    if first_complaint(entries, len) is Some {
        first_complaint(entries, len)
    } else if entries.len() == 0 {
        Some("no tensors found in "@ + path)
    } else {
        None
    }
}

/// `order` lists the names of the entries.
pub open spec fn order_of(entries: Seq<Entry>, order: Seq<String>) -> bool {
    &&& order.len() == entries.len()
    &&& forall|i: int| 0 <= i < entries.len() ==> (#[trigger] order[i])@ == entries[i].name@
}

/// `tensors` holds, under every name, what the entry of that name announces.
pub open spec fn tensors_of(entries: Seq<Entry>, tensors: Map<Seq<char>, TensorInfo>) -> bool {
    forall|name: Seq<char>|
        match #[trigger] entry_named(entries, name) {
            Some(e) => tensors.contains_key(name) && tensor_of(e, tensors[name]),
            None => !tensors.contains_key(name),
        }
}

/// The little-endian word at a byte offset.
pub open spec fn word(bytes: Seq<u8>, at: int) -> u32 {
    (bytes[at] + 0x100 * bytes[at + 1] + 0x1_0000 * bytes[at + 2] + 0x100_0000 * bytes[at + 3]) as u32
}

/// The complaint about a name that the container does not hold.
pub open spec fn missing(name: Seq<char>) -> Seq<char> {
    "missing tensor in weight blob: "@ + name
}

/// The number of elements of an entry, where it can be counted.
fn count(shape: &Vec<usize>) -> (n: Option<usize>)
    ensures
        n is Some <==> countable(shape@),
        n matches Some(n) ==> n == numel_of(shape@),
{
    let mut n: usize = 1;
    let mut i: usize = 0;
    assert(shape@.take(0) =~= Seq::empty());
    while i < shape.len()
        invariant
            i <= shape@.len(),
            n == numel_of(shape@.take(i as int)),
            forall|j: int| 0 <= j <= i ==> numel_of(#[trigger] shape@.take(j)) <= usize::MAX,
        decreases shape@.len() - i,
    {
        assert(shape@.take(i + 1).drop_last() =~= shape@.take(i as int));
        assert(numel_of(shape@.take(i + 1)) == n * shape@[i as int]);
        match n.checked_mul(shape[i]) {
            Some(m) => {
                n = m;
            },
            None => {
                assert(numel_of(shape@.take(i + 1)) > usize::MAX);
                return None;
            },
        }
        i += 1;
    }
    assert(shape@.take(i as int) =~= shape@);
    Some(n)
}

fn check_entry(e: &Entry, len: usize) -> (res: Result<(), String>)
    ensures
        match entry_complaint(*e, len as nat) {
            Some(text) => res matches Err(s) && s@ == text,
            None => res is Ok,
        },
{
    if e.dtype != "F32".to_owned() {
        let mut s: String = "tensor ".to_owned();
        s.append(e.name.as_str());
        s.append(" is ");
        s.append(e.dtype.as_str());
        s.append(", not F32 - is this a big-lama checkpoint?");
        return Err(s);
    }
    let fits: bool = match count(&e.shape) {
        None => false,
        Some(n) => n <= usize::MAX / 4 && e.nbytes == 4 * n && e.offset <= len && e.nbytes <= len
            - e.offset,
    };
    if !fits {
        let mut s: String = "tensor ".to_owned();
        s.append(e.name.as_str());
        s.append(" does not match its data offsets");
        return Err(s);
    }
    Ok(())
}

fn copy_shape(shape: &Vec<usize>) -> (out: Vec<usize>)
    ensures
        out@ == shape@,
{
    let mut out: Vec<usize> = Vec::new();
    let mut i: usize = 0;
    while i < shape.len()
        invariant
            i <= shape@.len(),
            out@ == shape@.take(i as int),
        decreases shape@.len() - i,
    {
        out.push(shape[i]);
        i += 1;
        assert(out@ =~= shape@.take(i as int));
    }
    assert(out@ =~= shape@);
    out
}

/// The sum of the sizes of the tensors that the names stand for.
pub open spec fn size_of_all(tensors: Map<Seq<char>, TensorInfo>, names: Seq<String>) -> nat
    decreases names.len(),
{
    if names.len() == 0 {
        0
    } else {
        size_of_all(tensors, names.drop_last()) + tensors[names.last()@].nbytes as nat
    }
}

impl<'a> WeightStore<'a> {
    /// The index speaks only of whole FP32 tensors inside the container, each under its
    /// own name, and its order lists exactly them.
    pub open spec fn wf(&self) -> bool {
        &&& forall|name: Seq<char>| #[trigger]
            self.index.tensors@.contains_key(name) ==> self.holds(name, self.index.tensors@[name])
        &&& forall|i: int|
            0 <= i < self.index.order@.len() ==> self.index.tensors@.contains_key(
                (#[trigger] self.index.order@[i])@,
            )
        &&& forall|name: Seq<char>| #[trigger]
            self.index.tensors@.contains_key(name) ==> exists|i: int|
                0 <= i < self.index.order@.len() && (#[trigger] self.index.order@[i])@ == name
    }

    /// Whether `t` is a whole FP32 tensor of this name inside the container.
    pub open spec fn holds(&self, name: Seq<char>, t: TensorInfo) -> bool {
        &&& t.name@ == name
        &&& countable(t.shape@)
        &&& t.nbytes == 4 * numel_of(t.shape@)
        &&& t.offset + t.nbytes <= self.file.len()
    }

    /// Whether there is a tensor of this name.
    pub open spec fn has(&self, name: Seq<char>) -> bool {
        self.index.tensors@.contains_key(name)
    }

    /// The tensor of this name.
    pub open spec fn tensor(&self, name: Seq<char>) -> TensorInfo {
        self.index.tensors@[name]
    }

    /// The elements of the tensor of this name, as the words that encode them.
    pub open spec fn words(&self, name: Seq<char>) -> Seq<u32> {
        let t = self.tensor(name);
        Seq::new(numel_of(t.shape@), |i: int| word(self.file@, t.offset + 4 * i))
    }

    /// Index a container.  `entries` is what its header announces, in order; `path` is
    /// where it came from.
    pub fn open(file: &'a [u8], entries: &Vec<Entry>, path: &str) -> (res: Result<
        WeightStore<'a>,
        String,
    >)
        ensures
            match container_complaint(entries@, file@.len(), path@) {
                Some(text) => res matches Err(e) && e@ == text,
                None => res matches Ok(store) && {
                    &&& store.wf()
                    &&& store.file@ == file@
                    &&& order_of(entries@, store.index.order@)
                    &&& tensors_of(entries@, store.index.tensors@)
                },
            },
    {
        let mut tensors: StringHashMap<TensorInfo> = StringHashMap::new();
        let mut order: Vec<String> = Vec::new();
        let mut i: usize = 0;
        let len: usize = file.len();
        assert(entries@.take(0) =~= Seq::empty());
        while i < entries.len()
            invariant
                len == file@.len(),
                i <= entries@.len(),
                first_complaint(entries@.take(i as int), len as nat) is None,
                order_of(entries@.take(i as int), order@),
                tensors_of(entries@.take(i as int), tensors@),
                forall|j: int| 0 <= j < i ==> entry_fits(#[trigger] entries@[j], len as nat),
                forall|name: Seq<char>| #[trigger]
                    tensors@.contains_key(name) ==> exists|j: int|
                        0 <= j < i && tensor_of(#[trigger] entries@[j], tensors@[name])
                            && entries@[j].name@ == name,
            decreases entries@.len() - i,
        {
            let e: &Entry = &entries[i];
            let ghost before = entries@.take(i as int);
            let ghost now = entries@.take(i + 1);
            proof {
                assert(now.drop_last() =~= before);
                assert(now.last() == *e);
            }
            match check_entry(e, len) {
                Err(s) => {
                    proof {
                        lemma_complaint_stays(entries@, len as nat, i + 1);
                    }
                    return Err(s);
                },
                Ok(_) => {},
            }
            let ghost tensors0 = tensors@;
            let ghost order0 = order@;
            order.push(e.name.clone());
            let t = TensorInfo {
                name: e.name.clone(),
                shape: copy_shape(&e.shape),
                offset: e.offset,
                nbytes: e.nbytes,
            };
            let ghost added = t;
            tensors.insert(e.name.clone(), t);
            proof {
                assert(tensors@ == tensors0.insert(e.name@, added));
                assert forall|name: Seq<char>|
                    match #[trigger] entry_named(now, name) {
                        Some(f) => tensors@.contains_key(name) && tensor_of(f, tensors@[name]),
                        None => !tensors@.contains_key(name),
                    } by {
                    if name != e.name@ {
                        assert(entry_named(now, name) == entry_named(before, name));
                    }
                }
                assert forall|name: Seq<char>| #[trigger]
                    tensors@.contains_key(name) implies exists|j: int|
                    0 <= j < i + 1 && tensor_of(#[trigger] entries@[j], tensors@[name])
                        && entries@[j].name@ == name by {
                    if name == e.name@ {
                        assert(tensor_of(entries@[i as int], tensors@[name]));
                    } else {
                        assert(tensors0.contains_key(name));
                        let j = choose|j: int|
                            0 <= j < i && tensor_of(#[trigger] entries@[j], tensors0[name])
                                && entries@[j].name@ == name;
                        assert(tensor_of(entries@[j], tensors@[name]));
                    }
                }
                assert forall|j: int| 0 <= j < now.len() implies (#[trigger] order@[j])@
                    == now[j].name@ by {
                    if j < i {
                        assert(order@[j] == order0[j]);
                        assert(before[j] == now[j]);
                    }
                }
            }
            i += 1;
        }
        assert(entries@.take(i as int) =~= entries@);
        if order.len() == 0 {
            let mut s: String = "no tensors found in ".to_owned();
            s.append(path);
            return Err(s);
        }
        let store = WeightStore { file, index: WeightIndex { tensors, order } };
        proof {
            assert forall|name: Seq<char>| #[trigger]
                store.index.tensors@.contains_key(name) implies store.holds(
                name,
                store.index.tensors@[name],
            ) by {
                let j = choose|j: int|
                    0 <= j < i && tensor_of(#[trigger] entries@[j], tensors@[name])
                        && entries@[j].name@ == name;
                assert(entry_fits(entries@[j], len as nat));
            }
            assert forall|name: Seq<char>| #[trigger]
                store.index.tensors@.contains_key(name) implies exists|k: int|
                0 <= k < store.index.order@.len() && (#[trigger] store.index.order@[k])@ == name by {
                let j = choose|j: int|
                    0 <= j < i && tensor_of(#[trigger] entries@[j], tensors@[name])
                        && entries@[j].name@ == name;
                assert(store.index.order@[j]@ == name);
            }
            assert forall|k: int|
                0 <= k < store.index.order@.len() implies store.index.tensors@.contains_key(
                (#[trigger] store.index.order@[k])@,
            ) by {
                lemma_named(entries@, k);
            }
        }
        Ok(store)
    }

    /// The tensor of this name.
    pub fn get(&self, name: &str) -> (res: Result<&TensorInfo, String>)
        ensures
            match res {
                Ok(t) => self.has(name@) && *t == self.tensor(name@),
                Err(e) => !self.has(name@) && e@ == missing(name@),
            },
    {
        match self.index.tensors.get(name) {
            Some(t) => Ok(t),
            None => {
                let mut s: String = "missing tensor in weight blob: ".to_owned();
                s.append(name);
                Err(s)
            },
        }
    }

    /// Look up a tensor's shape and place without copying its data.
    pub fn info(&self, name: &str) -> (res: Result<&TensorInfo, String>)
        ensures
            match res {
                Ok(t) => self.has(name@) && *t == self.tensor(name@),
                Err(e) => !self.has(name@) && e@ == missing(name@),
            },
    {
        self.get(name)
    }

    /// The whole container, so that it can be handed to a device in one copy.
    pub fn bytes(&self) -> (b: &'a [u8])
        ensures
            b@ == self.file@,
    {
        self.file
    }

    /// The size of all tensors.
    pub fn total_bytes(&self) -> (n: usize)
        requires
            self.wf(),
            size_of_all(self.index.tensors@, self.index.order@) <= usize::MAX,
        ensures
            n == size_of_all(self.index.tensors@, self.index.order@),
    {
        let ghost tensors = self.index.tensors@;
        let ghost names = self.index.order@;
        let mut n: usize = 0;
        let mut i: usize = 0;
        assert(names.take(0) =~= Seq::empty());
        while i < self.index.order.len()
            invariant
                self.wf(),
                tensors == self.index.tensors@,
                names == self.index.order@,
                i <= names.len(),
                n == size_of_all(tensors, names.take(i as int)),
                size_of_all(tensors, names) <= usize::MAX,
            decreases names.len() - i,
        {
            proof {
                assert(names.take(i + 1).drop_last() =~= names.take(i as int));
                lemma_size_grows(tensors, names, i + 1);
                assert(tensors.contains_key(names[i as int]@));
            }
            match self.get(self.index.order[i].as_str()) {
                Ok(t) => {
                    n = n + t.nbytes;
                },
                Err(_) => {},
            }
            i += 1;
        }
        assert(names.take(i as int) =~= names);
        n
    }

    /// Copy a tensor out of the container, every element as the word that encodes it.
    pub fn bits(&self, name: &str) -> (res: Result<Vec<u32>, String>)
        requires
            self.wf(),
        ensures
            match res {
                Ok(v) => self.has(name@) && v@ == self.words(name@),
                Err(e) => !self.has(name@) && e@ == missing(name@),
            },
    {
        let t: &TensorInfo = match self.get(name) {
            Ok(t) => t,
            Err(e) => {
                return Err(e);
            },
        };
        let ghost n = numel_of(t.shape@);
        let mut v: Vec<u32> = Vec::new();
        let count: usize = t.nbytes / 4;
        assert(self.holds(name@, *t));
        assert(count == n);
        let mut i: usize = 0;
        while i < count
            invariant
                self.holds(name@, *t),
                *t == self.tensor(name@),
                count == numel_of(t.shape@),
                i <= count,
                v@.len() == i,
                forall|j: int| 0 <= j < i ==> #[trigger] v@[j] == word(self.file@, t.offset + 4 * j),
            decreases count - i,
        {
            let at: usize = t.offset + 4 * i;
            let w: u32 = self.file[at] as u32 + 0x100 * self.file[at + 1] as u32 + 0x1_0000
                * self.file[at + 2] as u32 + 0x100_0000 * self.file[at + 3] as u32;
            v.push(w);
            i += 1;
        }
        assert(v@ =~= self.words(name@));
        Ok(v)
    }
}

proof fn lemma_complaint_stays(entries: Seq<Entry>, len: nat, n: int)
    requires
        0 <= n <= entries.len(),
        first_complaint(entries.take(n), len) is Some,
    ensures
        first_complaint(entries, len) == first_complaint(entries.take(n), len),
    decreases entries.len() - n,
{
    if n == entries.len() {
        assert(entries.take(n) =~= entries);
    } else {
        assert(entries.take(n + 1).drop_last() =~= entries.take(n));
        lemma_complaint_stays(entries, len, n + 1);
    }
}

proof fn lemma_named(entries: Seq<Entry>, k: int)
    requires
        0 <= k < entries.len(),
    ensures
        entry_named(entries, entries[k].name@) is Some,
    decreases entries.len(),
{
    if k < entries.len() - 1 && entries.last().name@ != entries[k].name@ {
        lemma_named(entries.drop_last(), k);
    }
}

proof fn lemma_size_grows(tensors: Map<Seq<char>, TensorInfo>, names: Seq<String>, n: int)
    requires
        0 <= n <= names.len(),
    ensures
        size_of_all(tensors, names.take(n)) <= size_of_all(tensors, names),
    decreases names.len() - n,
{
    if n == names.len() {
        assert(names.take(n) =~= names);
    } else {
        assert(names.take(n + 1).drop_last() =~= names.take(n));
        lemma_size_grows(tensors, names, n + 1);
    }
}

/// Every tensor that is handed out lies inside the container: a copy of the container
/// holds it at the same offset.
pub proof fn law_tensors_lie_inside(store: WeightStore, name: Seq<char>, i: int)
    requires
        store.wf(),
        store.has(name),
        0 <= i < store.words(name).len(),
    ensures
        store.tensor(name).offset + 4 * i + 4 <= store.file@.len(),
{
    assert(store.holds(name, store.tensor(name)));
}

} // verus!
