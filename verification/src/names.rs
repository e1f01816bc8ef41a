//! The names of the network's parts in the checkpoint.

use vstd::prelude::*;
use vstd::string::StringExecFns;

use crate::model::FfcBlock;
use crate::text::{decimal, lemma_number_ends, push_number};

verus! {

/// The module at a place in the network.
pub open spec fn module_name(index: nat) -> Seq<char> {
    "model."@ + decimal(index)
}

/// A block: the module itself, or one of the two blocks of a residual block.
pub open spec fn block_name(index: nat, sub: nat) -> Seq<char> {
    if sub == 0 {
        module_name(index)
    } else if sub == 1 {
        module_name(index) + ".conv1"@
    } else {
        module_name(index) + ".conv2"@
    }
}

/// The convolutions of a block.
pub open spec fn ffc_name(index: nat, sub: nat) -> Seq<char> {
    block_name(index, sub) + ".ffc"@
}

/// The name of a module.
pub fn module(index: usize) -> (s: String)
    ensures
        s@ == module_name(index as nat),
{
    let mut s: String = "model.".to_owned();
    push_number(&mut s, index as u64);
    s
}

/// The name of a block.
pub fn block(b: &FfcBlock) -> (s: String)
    ensures
        s@ == block_name(b.index as nat, b.sub as nat),
{
    let mut s: String = module(b.index);
    if b.sub == 1 {
        s.append(".conv1");
    } else if b.sub != 0 {
        s.append(".conv2");
    }
    s
}

/// A name begins with the module that it belongs to: two names of this form are the same
/// only if their modules are, and what follows is.
pub proof fn lemma_modules_apart(i: nat, s: Seq<char>, j: nat, t: Seq<char>)
    requires
        module_name(i) + s == module_name(j) + t,
        s.len() > 0 ==> s[0] == '.',
        t.len() > 0 ==> t[0] == '.',
    ensures
        i == j,
        s == t,
{
    reveal_strlit("model.");
    let x = module_name(i) + s;
    let y = module_name(j) + t;
    let k = "model."@.len() as int;
    assert(x.skip(k) =~= decimal(i) + s);
    assert(y.skip(k) =~= decimal(j) + t);
    lemma_number_ends(i, s, j, t);
}

/// Every block has a name of its own, and of the two blocks of a residual block the first
/// is called `conv1` and the second `conv2`.
pub proof fn law_block_names(i: nat, a: nat, j: nat, b: nat)
    requires
        a <= 2,
        b <= 2,
    ensures
        block_name(i, a) == block_name(j, b) ==> i == j && a == b,
        block_name(i, 0) == "model."@ + decimal(i),
        block_name(i, 1) == "model."@ + decimal(i) + ".conv1"@,
        block_name(i, 2) == "model."@ + decimal(i) + ".conv2"@,
{
    reveal_strlit(".conv1");
    reveal_strlit(".conv2");
    let ending = |n: nat|
        if n == 0 {
            Seq::<char>::empty()
        } else if n == 1 {
            ".conv1"@
        } else {
            ".conv2"@
        };
    assert(block_name(i, a) =~= module_name(i) + ending(a));
    assert(block_name(j, b) =~= module_name(j) + ending(b));
    if block_name(i, a) == block_name(j, b) {
        lemma_modules_apart(i, ending(a), j, ending(b));
        assert(".conv1"@[5] != ".conv2"@[5]);
    }
}

} // verus!
