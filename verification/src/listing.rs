//! Names as text: endings and alphabetical order.

use vstd::prelude::*;
use vstd::relations::{sorted_by, total_ordering};
use vstd::seq_lib::lemma_sorted_unique;
use vstd::string::StrSliceExecFns;

verus! {

/// Whether a text ends with another.
pub open spec fn ends_with(s: Seq<char>, end: Seq<char>) -> bool {
    s.len() >= end.len() && s.subrange(s.len() - end.len(), s.len() as int) == end
}

/// A text without an ending, as often as it is there.
pub open spec fn trimmed(s: Seq<char>, end: Seq<char>) -> Seq<char>
    decreases s.len(),
{
    if end.len() > 0 && ends_with(s, end) {
        trimmed(s.subrange(0, s.len() - end.len()), end)
    } else {
        s
    }
}

/// Whether a text comes before another in alphabetical order.
pub open spec fn comes_before(a: Seq<char>, b: Seq<char>) -> bool
    decreases a.len(),
{
    if b.len() == 0 {
        false
    } else if a.len() == 0 {
        true
    } else if a[0] != b[0] {
        a[0] < b[0]
    } else {
        comes_before(a.skip(1), b.skip(1))
    }
}

/// The order is transitive.
pub proof fn lemma_order(a: Seq<char>, b: Seq<char>, c: Seq<char>)
    requires
        comes_before(a, b),
        comes_before(b, c),
    ensures
        comes_before(a, c),
    decreases a.len(),
{
    if a.len() > 0 && a[0] == b[0] && b[0] == c[0] {
        lemma_order(a.skip(1), b.skip(1), c.skip(1));
    }
}

/// No text comes before itself.
pub proof fn lemma_irreflexive(a: Seq<char>)
    ensures
        !comes_before(a, a),
    decreases a.len(),
{
    if a.len() > 0 {
        lemma_irreflexive(a.skip(1));
    }
}

/// Of two texts that are not the same, one comes before the other.
proof fn lemma_connected(a: Seq<char>, b: Seq<char>)
    ensures
        comes_before(a, b) || comes_before(b, a) || a == b,
    decreases a.len(),
{
    if a.len() > 0 && b.len() > 0 && a[0] == b[0] {
        lemma_connected(a.skip(1), b.skip(1));
        if a.skip(1) == b.skip(1) {
            assert(a =~= seq![a[0]] + a.skip(1));
            assert(b =~= seq![b[0]] + b.skip(1));
        }
    } else if a.len() == 0 && b.len() == 0 {
        assert(a =~= b);
    }
}

/// The alphabetical order as a relation that a text has to itself.
pub open spec fn not_after() -> spec_fn(Seq<char>, Seq<char>) -> bool {
    |a: Seq<char>, b: Seq<char>| !comes_before(b, a)
}

proof fn lemma_total_order()
    ensures
        total_ordering(not_after()),
{
    let leq = not_after();
    assert forall|a: Seq<char>| #[trigger] leq(a, a) by {
        lemma_irreflexive(a);
    }
    assert forall|a: Seq<char>, b: Seq<char>| #[trigger] leq(a, b) && #[trigger] leq(b, a) implies a
        == b by {
        lemma_connected(a, b);
    }
    assert forall|a: Seq<char>, b: Seq<char>, c: Seq<char>|
        #[trigger] leq(a, b) && #[trigger] leq(b, c) implies leq(a, c) by {
        if comes_before(c, a) {
            lemma_connected(a, b);
            if comes_before(a, b) {
                lemma_order(c, a, b);
            }
        }
    }
    assert forall|a: Seq<char>, b: Seq<char>| #[trigger] leq(a, b) || #[trigger] leq(b, a) by {
        if comes_before(b, a) && comes_before(a, b) {
            lemma_order(a, b, a);
            lemma_irreflexive(a);
        }
    }
}

/// The texts of a list.
pub open spec fn texts(list: Seq<String>) -> Seq<Seq<char>> {
    list.map_values(|s: String| s@)
}

/// A list in alphabetical order.
pub open spec fn alphabetical(list: Seq<Seq<char>>) -> Seq<Seq<char>> {
    list.sort_by(not_after())
}

/// A list in alphabetical order holds what it held, as often, and nothing comes before
/// what stands before it.
pub proof fn lemma_alphabetical(list: Seq<Seq<char>>)
    ensures
        alphabetical(list).to_multiset() == list.to_multiset(),
        alphabetical(list).len() == list.len(),
        forall|a: Seq<char>| #[trigger] alphabetical(list).contains(a) <==> list.contains(a),
        forall|i: int, j: int|
            0 <= i < j < alphabetical(list).len() ==> !comes_before(
                #[trigger] alphabetical(list)[j],
                #[trigger] alphabetical(list)[i],
            ),
{
    lemma_total_order();
    list.lemma_sort_by_ensures(not_after());
    list.to_multiset_ensures();
    alphabetical(list).to_multiset_ensures();
    assert forall|a: Seq<char>| #[trigger] alphabetical(list).contains(a) <==> list.contains(a) by {
        assert(list.to_multiset().count(a) == alphabetical(list).to_multiset().count(a));
    }
    assert forall|i: int, j: int| 0 <= i < j < alphabetical(list).len() implies !comes_before(
        #[trigger] alphabetical(list)[j],
        #[trigger] alphabetical(list)[i],
    ) by {
        assert(not_after()(alphabetical(list)[i], alphabetical(list)[j]));
    }
}

/// The alphabetical order of a list does not depend on the order it had.
pub proof fn lemma_order_is_one(a: Seq<Seq<char>>, b: Seq<Seq<char>>)
    requires
        a.to_multiset() == b.to_multiset(),
    ensures
        alphabetical(a) == alphabetical(b),
{
    lemma_total_order();
    a.lemma_sort_by_ensures(not_after());
    b.lemma_sort_by_ensures(not_after());
    lemma_sorted_unique(alphabetical(a), alphabetical(b), not_after());
}

/// Put a list into alphabetical order.
pub fn in_order(list: &Vec<String>) -> (out: Vec<String>)
    ensures
        texts(out@) == alphabetical(texts(list@)),
{
    let ghost leq = not_after();
    let mut out: Vec<String> = Vec::new();
    let mut i: usize = 0;
    proof {
        lemma_total_order();
        assert(texts(out@) =~= texts(list@).take(0));
    }
    while i < list.len()
        invariant
            leq == not_after(),
            total_ordering(leq),
            i <= list@.len(),
            out@.len() == i,
            sorted_by(texts(out@), leq),
            texts(out@).to_multiset() == texts(list@).take(i as int).to_multiset(),
        decreases list@.len() - i,
    {
        let mut j: usize = out.len();
        while j > 0 && is_before(list[i].as_str(), out[j - 1].as_str())
            invariant
                i < list@.len(),
                j <= out@.len(),
                forall|k: int| j <= k < out@.len() ==> comes_before(list@[i as int]@, (#[trigger] out@[k])@),
            decreases j,
        {
            j -= 1;
        }
        let ghost before = texts(out@);
        let ghost x = list@[i as int]@;
        out.insert(j, list[i].clone());
        proof {
            assert(texts(out@) =~= before.insert(j as int, x));
            assert(texts(list@).take(i + 1) =~= texts(list@).take(i as int).push(x));
            vstd::seq_lib::to_multiset_insert(before, j as int, x);
            vstd::seq_lib::to_multiset_build(texts(list@).take(i as int), x);
            assert forall|a: int, b: int| 0 <= a < b < texts(out@).len() implies #[trigger] leq(
                texts(out@)[a],
                texts(out@)[b],
            ) by {
                let low = if a < j { a } else { a - 1 };
                let high = if b < j { b } else { b - 1 };
                if a == j {
                    assert(leq(x, before[high]) || leq(before[high], x));
                    assert(comes_before(x, before[high]));
                    if comes_before(before[high], x) {
                        lemma_order(x, before[high], x);
                        lemma_irreflexive(x);
                    }
                } else if b == j {
                    assert(leq(before[j - 1], x));
                    if a < j - 1 {
                        assert(leq(before[a], before[j - 1]));
                    }
                } else {
                    assert(leq(before[low], before[high]));
                }
            }
        }
        i += 1;
    }
    proof {
        assert(texts(list@).take(i as int) =~= texts(list@));
        texts(list@).lemma_sort_by_ensures(leq);
        lemma_sorted_unique(texts(out@), alphabetical(texts(list@)), leq);
    }
    out
}

/// Whether a text ends with another.
pub fn has_ending(s: &str, end: &str) -> (r: bool)
    ensures
        r == ends_with(s@, end@),
{
    let n: usize = s.unicode_len();
    let m: usize = end.unicode_len();
    if m > n {
        return false;
    }
    let tail: &str = s.substring_char(n - m, n);
    tail.to_owned() == end.to_owned()
}

/// A text without an ending, as often as it is there.
pub fn without_ending(s: &str, end: &str) -> (r: String)
    ensures
        r@ == trimmed(s@, end@),
    decreases s@.len(),
{
    let m: usize = end.unicode_len();
    if m > 0 && has_ending(s, end) {
        let n: usize = s.unicode_len();
        without_ending(s.substring_char(0, n - m), end)
    } else {
        s.to_owned()
    }
}

/// Whether a text comes before another in alphabetical order.
pub fn is_before(a: &str, b: &str) -> (r: bool)
    ensures
        r == comes_before(a@, b@),
{
    let n: usize = a.unicode_len();
    let m: usize = b.unicode_len();
    let mut i: usize = 0;
    assert(a@.skip(0) =~= a@);
    assert(b@.skip(0) =~= b@);
    while i < n && i < m
        invariant
            n == a@.len(),
            m == b@.len(),
            i <= n,
            i <= m,
            comes_before(a@, b@) == comes_before(a@.skip(i as int), b@.skip(i as int)),
        decreases n - i,
    {
        let x: char = a.get_char(i);
        let y: char = b.get_char(i);
        proof {
            assert(a@.skip(i as int).skip(1) =~= a@.skip(i + 1));
            assert(b@.skip(i as int).skip(1) =~= b@.skip(i + 1));
        }
        if x != y {
            return x < y;
        }
        i += 1;
    }
    i < m
}

} // verus!
