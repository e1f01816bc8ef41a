//! Bit reversal: the order in which a radix-2 transform takes its samples.

use vstd::prelude::*;
use vstd::arithmetic::div_mod::lemma_fundamental_div_mod_converse;
use vstd::arithmetic::power2::{lemma_pow2_pos, lemma_pow2_unfold, pow2};

verus! {

/// The lowest `k` bits of `i` in reverse order.
pub open spec fn reversed(i: int, k: nat) -> int
    decreases k,
{
    if k == 0 {
        0
    } else {
        (i % 2) * pow2((k - 1) as nat) + reversed(i / 2, (k - 1) as nat)
    }
}

/// A reversed number has no more bits.
pub proof fn lemma_reversed_bound(i: int, k: nat)
    ensures
        0 <= reversed(i, k) < pow2(k),
    decreases k,
{
    lemma_pow2_pos(k);
    if k > 0 {
        let p = pow2((k - 1) as nat) as int;
        lemma_reversed_bound(i / 2, (k - 1) as nat);
        lemma_pow2_unfold(k);
        assert((i % 2) * p == 0 || (i % 2) * p == p) by (nonlinear_arith)
            requires
                i % 2 == 0 || i % 2 == 1,
        ;
    }
}

/// Reversal takes the highest bit to the lowest place.
proof fn lemma_top_bit(i: int, k: nat)
    requires
        k > 0,
        0 <= i < pow2(k),
    ensures
        reversed(i, k) == 2 * reversed(i % pow2((k - 1) as nat) as int, (k - 1) as nat) + i / pow2(
            (k - 1) as nat,
        ) as int,
    decreases k,
{
    let p = pow2((k - 1) as nat) as int;
    lemma_pow2_pos((k - 1) as nat);
    lemma_pow2_unfold(k);
    let b = i % 2;
    let q = i / 2;
    if k == 1 {
        assert(pow2(0) == 1) by {
            vstd::arithmetic::power2::lemma2_to64();
        }
        reveal_with_fuel(reversed, 2);
        assert(i % 1 == 0);
        assert(i / 1 == i);
    } else {
        let m = pow2((k - 2) as nat) as int;
        lemma_pow2_pos((k - 2) as nat);
        lemma_pow2_unfold((k - 1) as nat);
        assert(p == 2 * m);
        lemma_top_bit(q, (k - 1) as nat);
        // i = 2 * q + b, and q = m * (q / m) + q % m.
        let d = q / m;
        let r = q % m;
        vstd::arithmetic::div_mod::lemma_fundamental_div_mod(q, m);
        assert(0 <= r < m) by (nonlinear_arith)
            requires
                r == q % m,
                0 < m,
        ;
        assert(i == d * p + (2 * r + b)) by (nonlinear_arith)
            requires
                i == 2 * q + b,
                q == m * d + r,
                p == 2 * m,
        ;
        lemma_fundamental_div_mod_converse(i, p, d, 2 * r + b);
        let lo = 2 * r + b;
        assert(lo % 2 == b && lo / 2 == r);
        assert(reversed(lo, (k - 1) as nat) == b * m + reversed(r, (k - 2) as nat));
        assert(reversed(i, k) == b * p + reversed(q, (k - 1) as nat));
        assert(b * p == 2 * (b * m)) by (nonlinear_arith)
            requires
                p == 2 * m,
        ;
    }
}

/// Reversing twice changes nothing.
pub proof fn lemma_reversed_twice(i: int, k: nat)
    requires
        0 <= i < pow2(k),
    ensures
        reversed(reversed(i, k), k) == i,
    decreases k,
{
    if k == 0 {
        assert(pow2(0) == 1) by {
            vstd::arithmetic::power2::lemma2_to64();
        }
    } else {
        let p = pow2((k - 1) as nat) as int;
        lemma_pow2_pos((k - 1) as nat);
        lemma_pow2_unfold(k);
        let b = i % 2;
        let q = i / 2;
        lemma_reversed_twice(q, (k - 1) as nat);
        lemma_reversed_bound(q, (k - 1) as nat);
        let j = reversed(i, k);
        lemma_reversed_bound(i, k);
        let rest = reversed(q, (k - 1) as nat);
        assert(j == b * p + rest);
        lemma_fundamental_div_mod_converse(j, p, b, rest);
        lemma_top_bit(j, k);
    }
}

/// Counting on the highest bit: the number after `j`, carrying downward from `bit`.
spec fn counted(j: int, k: nat) -> int
    decreases k,
{
    if k == 0 {
        j
    } else {
        let bit = pow2((k - 1) as nat) as int;
        if j < bit {
            j + bit
        } else {
            counted(j - bit, (k - 1) as nat)
        }
    }
}

/// Whether counting on `j` finds a place for the carry.
spec fn carries(j: int, k: nat) -> bool
    decreases k,
{
    if k == 0 {
        false
    } else {
        let bit = pow2((k - 1) as nat) as int;
        j < bit || carries(j - bit, (k - 1) as nat)
    }
}

/// Reversed numbers in turn are counted on the highest bit.
proof fn lemma_counted(i: int, k: nat)
    requires
        0 <= i,
        i + 1 < pow2(k),
    ensures
        reversed(i + 1, k) == counted(reversed(i, k), k),
        carries(reversed(i, k), k),
    decreases k,
{
    if k == 0 {
        assert(pow2(0) == 1) by {
            vstd::arithmetic::power2::lemma2_to64();
        }
    } else {
        let bit = pow2((k - 1) as nat) as int;
        lemma_pow2_unfold(k);
        lemma_reversed_bound(i / 2, (k - 1) as nat);
        let rest = reversed(i / 2, (k - 1) as nat);
        if i % 2 == 0 {
            assert((i + 1) / 2 == i / 2 && (i + 1) % 2 == 1);
            assert(reversed(i, k) == 0 * bit + rest);
            assert(reversed(i + 1, k) == 1 * bit + rest);
        } else {
            assert((i + 1) / 2 == i / 2 + 1 && (i + 1) % 2 == 0);
            assert(reversed(i, k) == 1 * bit + rest);
            assert(reversed(i + 1, k) == 0 * bit + reversed(i / 2 + 1, (k - 1) as nat));
            lemma_counted(i / 2, (k - 1) as nat);
        }
    }
}

/// The reversed number that follows `j`, which is the reversal of `i`.
fn next_reversed(j: usize, n: usize, Ghost(i): Ghost<int>, Ghost(k): Ghost<nat>) -> (r: usize)
    requires
        n == pow2(k),
        0 <= i,
        i + 1 < n,
        j == reversed(i, k),
    ensures
        r == reversed(i + 1, k),
        r < n,
{
    proof {
        lemma_counted(i, k);
        lemma_reversed_bound(i, k);
        lemma_reversed_bound(i + 1, k);
        lemma_pow2_unfold(k);
    }
    let mut left: usize = j;
    let mut bit: usize = n / 2;
    let ghost mut m = k;
    while left >= bit
        invariant
            1 <= m <= k,
            bit == pow2((m - 1) as nat),
            counted(left as int, m) == counted(j as int, k),
            carries(left as int, m),
        decreases m,
    {
        proof {
            lemma_carries_down(left as int, m);
            lemma_pow2_unfold((m - 1) as nat);
        }
        left = left - bit;
        bit = bit / 2;
        proof {
            m = (m - 1) as nat;
        }
    }
    proof {
        lemma_pow2_pos((m - 1) as nat);
    }
    assert(left + bit == counted(left as int, m));
    left + bit
}

proof fn lemma_carries_down(j: int, k: nat)
    requires
        k > 0,
        carries(j, k),
        j >= pow2((k - 1) as nat),
    ensures
        k > 1,
        carries(j - pow2((k - 1) as nat), (k - 1) as nat),
{
    reveal_with_fuel(carries, 2);
    assert(carries(j - pow2((k - 1) as nat), (k - 1) as nat));
}

/// `out` holds the elements of `a` in bit-reversed order.
pub open spec fn permuted<T>(a: Seq<T>, k: nat, out: Seq<T>) -> bool {
    &&& out.len() == a.len()
    &&& forall|i: int| 0 <= i < a.len() ==> #[trigger] out[i] == a[reversed(i, k)]
}

/// The element at `x` once the pairs that begin before `i` have been swapped.
spec fn partly<T>(a: Seq<T>, k: nat, i: int, x: int) -> T {
    if x < i || reversed(x, k) < i {
        a[reversed(x, k)]
    } else {
        a[x]
    }
}

/// Put elements into bit-reversed order.
pub(crate) fn bit_reverse<T: Copy>(d: &mut Vec<T>, Ghost(k): Ghost<nat>)
    requires
        old(d).len() == pow2(k),
    ensures
        permuted(old(d)@, k, final(d)@),
{
    let n: usize = d.len();
    let ghost a = d@;
    let mut j: usize = 0;
    let mut i: usize = 1;
    proof {
        lemma_pow2_pos(k);
        lemma_reversed_zero(k);
        assert forall|x: int| 0 <= x < n implies #[trigger] d@[x] == partly(a, k, 1, x) by {
            lemma_reversed_bound(x, k);
            lemma_reversed_twice(x, k);
        }
    }
    while i < n
        invariant
            n == pow2(k),
            a.len() == n,
            d@.len() == n,
            1 <= i <= n,
            j == reversed(i - 1, k),
            forall|x: int| 0 <= x < n ==> #[trigger] d@[x] == partly(a, k, i as int, x),
        decreases n - i,
    {
        j = next_reversed(j, n, Ghost(i - 1), Ghost(k));
        let ghost before = d@;
        if i < j {
            let x: T = d[i];
            let y: T = d[j];
            d.set(i, y);
            d.set(j, x);
        }
        proof {
            lemma_reversed_twice(i as int, k);
            assert forall|x: int| 0 <= x < n implies #[trigger] d@[x] == partly(a, k, i + 1, x) by {
                lemma_reversed_bound(x, k);
                lemma_reversed_twice(x, k);
                assert(before[x] == partly(a, k, i as int, x));
                assert(before[i as int] == partly(a, k, i as int, i as int));
                assert(before[j as int] == partly(a, k, i as int, j as int));
            }
        }
        i += 1;
    }
    assert forall|x: int| 0 <= x < a.len() implies #[trigger] d@[x] == a[reversed(x, k)] by {
        assert(d@[x] == partly(a, k, i as int, x));
    }
}

proof fn lemma_reversed_zero(k: nat)
    ensures
        reversed(0, k) == 0,
    decreases k,
{
    if k > 0 {
        lemma_reversed_zero((k - 1) as nat);
        assert(0 * pow2((k - 1) as nat) == 0);
    }
}

} // verus!
