//! Freed blocks of device memory, kept for reuse.
//!
//! Allocating and freeing device memory costs about as much as a kernel, so a pass that
//! makes a thousand short-lived allocations would lose a large part of its time to the
//! allocator.  Blocks are kept in lists by their exact size: activations and patch
//! matrices come in a handful of sizes and are recycled in a tight loop.

use std::collections::HashMap;

use vstd::prelude::*;

verus! {

/// Keep at most this many bytes of freed device memory around (768 MiB).
pub const POOL_CAP: usize = 805306368;

/// Free blocks by size, with counts of how often there was one to hand out.
pub struct Pool {
    /// The addresses of the free blocks of every size, the one freed last at the end.
    pub free: HashMap<usize, Vec<u64>>,
    pub bytes: usize,
    pub hits: usize,
    pub misses: usize,
}

/// The free blocks of a size, the one freed last at the end.
pub open spec fn listed(free: Map<usize, Vec<u64>>, size: int) -> Seq<u64> {
    if 0 <= size <= usize::MAX && free.contains_key(size as usize) {
        free[size as usize]@
    } else {
        Seq::empty()
    }
}

/// The bytes in the free blocks that are smaller than `n`.
pub open spec fn stored(free: Map<usize, Vec<u64>>, n: nat) -> nat
    decreases n,
{
    if n == 0 {
        0
    } else {
        let size = (n - 1) as nat;
        stored(free, size) + size * listed(free, size as int).len()
    }
}

impl Pool {
    /// The free blocks of a size.
    pub open spec fn blocks(&self, size: int) -> Seq<u64> {
        listed(self.free@, size)
    }

    /// No list is empty, and the bytes add up to no more than the cap.
    pub open spec fn wf(&self) -> bool {
        &&& self.bytes == stored(self.free@, (POOL_CAP + 1) as nat)
        &&& self.bytes <= POOL_CAP
        &&& forall|size: usize| #[trigger]
            self.free@.contains_key(size) ==> size <= POOL_CAP && self.free@[size]@.len() > 0
    }

    /// An empty pool.
    pub fn new() -> (p: Pool)
        ensures
            p.wf(),
            p.bytes == 0,
            p.hits == 0,
            p.misses == 0,
            forall|size: int| #[trigger] p.blocks(size).len() == 0,
    {
        broadcast use vstd::std_specs::hash::group_hash_axioms;

        let p = Pool { free: HashMap::new(), bytes: 0, hits: 0, misses: 0 };
        proof {
            lemma_nothing_stored(p.free@, (POOL_CAP + 1) as nat);
        }
        p
    }

    /// Take a block of exactly `size` bytes, if one is free: the one that was freed last.
    pub fn acquire(&mut self, size: usize) -> (r: Option<u64>)
        requires
            old(self).wf(),
            old(self).hits < usize::MAX,
        ensures
            final(self).wf(),
            final(self).misses == old(self).misses,
            match r {
                Some(p) => {
                    &&& old(self).blocks(size as int).len() > 0
                    &&& p == old(self).blocks(size as int).last()
                    &&& final(self).blocks(size as int) == old(self).blocks(size as int).drop_last()
                    &&& forall|other: int|
                        other != size ==> #[trigger] final(self).blocks(other) == old(self).blocks(
                            other,
                        )
                    &&& final(self).bytes == old(self).bytes - size
                    &&& final(self).hits == old(self).hits + 1
                },
                None => {
                    &&& old(self).blocks(size as int).len() == 0
                    &&& *final(self) == *old(self)
                },
            },
    {
        broadcast use vstd::std_specs::hash::group_hash_axioms;

        let ghost before = self.free@;
        if !self.free.contains_key(&size) {
            return None;
        }
        let mut list: Vec<u64> = match self.free.remove(&size) {
            Some(list) => list,
            None => Vec::new(),
        };
        let ghost was = list@;
        let r: Option<u64> = list.pop();
        if list.len() > 0 {
            self.free.insert(size, list);
        }
        proof {
            let n = was.len();
            assert(listed(before, size as int) == was);
            assert(listed(self.free@, size as int) =~= was.drop_last());
            lemma_stored_changed(before, self.free@, size as int, (POOL_CAP + 1) as nat);
            assert(size * (n - 1 - n) == -size) by (nonlinear_arith);
            assert forall|other: int| other != size implies #[trigger] listed(self.free@, other)
                == listed(before, other) by {}
        }
        self.bytes = self.bytes - size;
        self.hits = self.hits + 1;
        r
    }

    /// Give a block back.  Returns false if the caller must free it, because the pool is
    /// full.
    pub fn release(&mut self, block: u64, size: usize) -> (kept: bool)
        requires
            old(self).wf(),
        ensures
            final(self).wf(),
            final(self).hits == old(self).hits,
            final(self).misses == old(self).misses,
            kept == (old(self).bytes + size <= POOL_CAP),
            kept == (old(self).bytes + size <= 768 * 1024 * 1024),
            if kept {
                &&& final(self).blocks(size as int) == old(self).blocks(size as int).push(block)
                &&& forall|other: int|
                    other != size ==> #[trigger] final(self).blocks(other) == old(self).blocks(other)
                &&& final(self).bytes == old(self).bytes + size
            } else {
                *final(self) == *old(self)
            },
    {
        broadcast use vstd::std_specs::hash::group_hash_axioms;

        if size > POOL_CAP || self.bytes > POOL_CAP - size {
            return false;
        }
        let ghost before = self.free@;
        let mut list: Vec<u64> = match self.free.remove(&size) {
            Some(list) => list,
            None => Vec::new(),
        };
        let ghost was = list@;
        list.push(block);
        self.free.insert(size, list);
        proof {
            let n = was.len();
            assert(listed(before, size as int) =~= was);
            assert(listed(self.free@, size as int) == was.push(block));
            lemma_stored_changed(before, self.free@, size as int, (POOL_CAP + 1) as nat);
            assert(size * (n + 1 - n) == size) by (nonlinear_arith);
        }
        self.bytes = self.bytes + size;
        true
    }

    /// Count an allocation that the pool could not serve.
    pub fn missed(&mut self)
        requires
            old(self).misses < usize::MAX,
        ensures
            *final(self) == (Pool { misses: (old(self).misses + 1) as usize, ..*old(self) }),
    {
        self.misses = self.misses + 1;
    }
}

/// The bytes of the block that holds `len` numbers; nothing is allocated empty.
pub open spec fn block_size(len: int) -> int {
    4 * if len < 1 {
        1
    } else {
        len
    }
}

/// The bytes of the block that holds `len` numbers.
pub fn block_bytes(len: usize) -> (n: usize)
    requires
        4 * len <= usize::MAX,
    ensures
        n == block_size(len as int),
{
    if len < 1 {
        4
    } else {
        4 * len
    }
}

proof fn lemma_nothing_stored(free: Map<usize, Vec<u64>>, n: nat)
    requires
        free == Map::<usize, Vec<u64>>::empty(),
    ensures
        stored(free, n) == 0,
    decreases n,
{
    if n > 0 {
        lemma_nothing_stored(free, (n - 1) as nat);
        assert((n - 1) * 0 == 0) by (nonlinear_arith);
    }
}

/// What a change of one list does to the bytes.
proof fn lemma_stored_changed(a: Map<usize, Vec<u64>>, b: Map<usize, Vec<u64>>, size: int, n: nat)
    requires
        0 <= size,
        forall|other: int| other != size ==> #[trigger] listed(b, other) == listed(a, other),
    ensures
        stored(b, n) == stored(a, n) + if size < n {
            size * (listed(b, size).len() - listed(a, size).len())
        } else {
            0
        },
    decreases n,
{
    if n > 0 {
        lemma_stored_changed(a, b, size, (n - 1) as nat);
        let last = n - 1;
        if last == size {
            let x = listed(a, size).len() as int;
            let y = listed(b, size).len() as int;
            assert(size * y == size * x + size * (y - x)) by (nonlinear_arith);
        } else {
            assert(listed(b, last) == listed(a, last));
        }
    }
}

/// What is freed last is handed out first, and only to a request for exactly its size.
pub proof fn law_a_freed_block_comes_back(a: Pool, b: Pool, c: Pool, block: u64, size: usize, r: Option<u64>)
    requires
        b.blocks(size as int) == a.blocks(size as int).push(block),
        match r {
            Some(p) => b.blocks(size as int).len() > 0 && p == b.blocks(size as int).last() && c.blocks(
                size as int,
            ) == b.blocks(size as int).drop_last(),
            None => b.blocks(size as int).len() == 0,
        },
    ensures
        r == Some(block),
        c.blocks(size as int) == a.blocks(size as int),
{
    assert(b.blocks(size as int).drop_last() =~= a.blocks(size as int));
}

} // verus!
