//! Exact arithmetic: what the transforms compute if nothing is rounded.
//!
//! The operations of the number types are not known here.  To say what a transform means,
//! they are interpreted in a commutative ring that has a point for every fraction of a
//! full turn; the laws then hold of every such interpretation.

use vstd::prelude::*;

use crate::fft::{conjugate_product, difference, multiple, nothing, product, sum, turned, unit, Complex};
use crate::scalar::Wide;

verus! {

/// A ring, and the element of it that every number stands for.
#[verifier::reject_recursive_types(W)]
#[verifier::reject_recursive_types(V)]
pub struct Exact<W, V> {
    pub zero: V,
    pub one: V,
    pub plus: spec_fn(V, V) -> V,
    pub times: spec_fn(V, V) -> V,
    pub minus: spec_fn(V) -> V,
    /// The point at the turn `a / b`.
    pub turn: spec_fn(int, int) -> V,
    pub value: spec_fn(Complex<W>) -> V,
    /// The element that a real number stands for.
    pub amount: spec_fn(W) -> V,
}

impl<W: Wide, V> Exact<W, V> {
    pub open spec fn add(self, a: V, b: V) -> V {
        (self.plus)(a, b)
    }

    pub open spec fn mul(self, a: V, b: V) -> V {
        (self.times)(a, b)
    }

    pub open spec fn neg(self, a: V) -> V {
        (self.minus)(a)
    }

    pub open spec fn at(self, a: int, b: int) -> V {
        (self.turn)(a, b)
    }

    pub open spec fn val(self, x: Complex<W>) -> V {
        (self.value)(x)
    }

    /// The sum of `f(0)`, `f(1)`, ... `f(n - 1)`.
    pub open spec fn total(self, f: spec_fn(int) -> V, n: nat) -> V
        decreases n,
    {
        if n == 0 {
            self.zero
        } else {
            self.add(self.total(f, (n - 1) as nat), f(n - 1))
        }
    }

    /// The number `n`.
    pub open spec fn count(self, n: nat) -> V {
        self.total(|i: int| self.one, n)
    }

    /// The laws of a commutative ring, for three elements.
    pub open spec fn obeys_laws(self, a: V, b: V, c: V) -> bool {
        &&& self.add(a, b) == self.add(b, a)
        &&& self.add(self.add(a, b), c) == self.add(a, self.add(b, c))
        &&& self.add(a, self.zero) == a
        &&& self.add(a, self.neg(a)) == self.zero
        &&& self.mul(a, b) == self.mul(b, a)
        &&& self.mul(self.mul(a, b), c) == self.mul(a, self.mul(b, c))
        &&& self.mul(a, self.one) == a
        &&& self.mul(a, self.add(b, c)) == self.add(self.mul(a, b), self.mul(a, c))
    }

    /// The operations form a commutative ring.
    #[verifier::opaque]
    pub open spec fn is_ring(self) -> bool {
        forall|a: V, b: V, c: V| #[trigger] self.obeys_laws(a, b, c)
    }

    /// A fraction of a turn may be expanded.
    pub open spec fn expands(self, k: int, a: int, b: int) -> bool {
        self.at(k * a, k * b) == self.at(a, b)
    }

    /// The points at equal turns all around balance.
    pub open spec fn balances(self, d: int, n: int) -> bool {
        self.total(|q: int| self.at(q * d, n), n as nat) == self.zero
    }

    /// Turns add up, depend on nothing but the fraction, half of one leads to the opposite
    /// point, and those of a full circle balance.
    #[verifier::opaque]
    pub open spec fn has_turns(self) -> bool {
        &&& forall|b: int| b > 0 ==> #[trigger] self.at(0, b) == self.one
        &&& forall|a: int, c: int, b: int|
            b > 0 ==> #[trigger] self.mul(self.at(a, b), self.at(c, b)) == self.at(a + c, b)
        &&& forall|k: int, a: int, b: int| b > 0 && k > 0 ==> #[trigger] self.expands(k, a, b)
        &&& self.at(1, 2) == self.neg(self.one)
        &&& forall|d: int, n: int| n > 0 && d % n != 0 ==> #[trigger] self.balances(d, n)
    }

    /// The operations of the number type compute in the ring.
    #[verifier::opaque]
    pub open spec fn computes(self) -> bool {
        &&& forall|a: Complex<W>, b: Complex<W>, r: Complex<W>| #[trigger]
            product(a, b, r) ==> self.val(r) == self.mul(self.val(a), self.val(b))
        &&& forall|a: Complex<W>, b: Complex<W>, r: Complex<W>| #[trigger]
            sum(a, b, r) ==> self.val(r) == self.add(self.val(a), self.val(b))
        &&& forall|a: Complex<W>, b: Complex<W>, r: Complex<W>| #[trigger]
            difference(a, b, r) ==> self.val(r) == self.add(
                self.val(a),
                self.neg(self.val(b)),
            )
        &&& forall|r: Complex<W>| #[trigger] nothing(r) ==> self.val(r) == self.zero
        &&& forall|r: Complex<W>| #[trigger] unit(r) ==> self.val(r) == self.one
        &&& forall|a: usize, b: usize, inverse: bool, r: Complex<W>| #[trigger]
            turned(a, b, inverse, r) && b > 0 ==> self.val(r) == self.at(
                sign(inverse) * a,
                b as int,
            )
        &&& forall|a: Complex<W>, b: Complex<W>, r: Complex<W>, c: int, d: int|
            #[trigger] conjugate_product(a, b, r) && d > 0 && self.val(b) == #[trigger] self.at(c, d)
                ==> self.val(r) == self.mul(self.val(a), self.at(-c, d))
        &&& forall|a: Complex<W>, s: W, r: Complex<W>| #[trigger]
            multiple(a, s, r) ==> self.val(r) == self.mul(self.val(a), (self.amount)(s))
        &&& forall|n: usize, s: W| #[trigger]
            call_ensures(W::reciprocal, (n,), s) && n > 0 ==> self.mul(
                self.count(n as nat),
                (self.amount)(s),
            ) == self.one
    }

    /// The arithmetic is exact.
    pub open spec fn is_exact(self) -> bool {
        self.is_ring() && self.has_turns() && self.computes()
    }
}

/// The direction of a transform.
pub open spec fn sign(inverse: bool) -> int {
    if inverse {
        1
    } else {
        -1
    }
}

impl<W: Wide, V> Exact<W, V> {
    pub(crate) proof fn lemma_ring(self, a: V, b: V, c: V)
        requires
            self.is_ring(),
        ensures
            self.add(a, b) == self.add(b, a),
            self.add(self.add(a, b), c) == self.add(a, self.add(b, c)),
            self.add(a, self.zero) == a,
            self.add(a, self.neg(a)) == self.zero,
            self.mul(a, b) == self.mul(b, a),
            self.mul(self.mul(a, b), c) == self.mul(a, self.mul(b, c)),
            self.mul(a, self.one) == a,
            self.mul(a, self.add(b, c)) == self.add(self.mul(a, b), self.mul(a, c)),
    {
        reveal(Exact::is_ring);
        assert(self.obeys_laws(a, b, c));
    }

    /// `(a + b) + (c + d)` is `(a + c) + (b + d)`.
    pub(crate) proof fn lemma_exchange(self, a: V, b: V, c: V, d: V)
        requires
            self.is_ring(),
        ensures
            self.add(self.add(a, b), self.add(c, d)) == self.add(self.add(a, c), self.add(b, d)),
    {
        self.lemma_ring(a, b, self.add(c, d));
        self.lemma_ring(b, c, d);
        self.lemma_ring(b, self.add(c, d), d);
        self.lemma_ring(c, b, d);
        self.lemma_ring(c, d, b);
        self.lemma_ring(b, d, d);
        self.lemma_ring(a, c, self.add(b, d));
        assert(self.add(b, self.add(c, d)) == self.add(self.add(b, c), d));
        assert(self.add(self.add(b, c), d) == self.add(self.add(c, b), d));
        assert(self.add(self.add(c, b), d) == self.add(c, self.add(b, d)));
    }

    pub(crate) proof fn lemma_zero(self, a: V)
        requires
            self.is_ring(),
        ensures
            self.mul(a, self.zero) == self.zero,
            self.mul(self.zero, a) == self.zero,
            self.add(self.zero, a) == a,
    {
        let z = self.mul(a, self.zero);
        self.lemma_ring(self.zero, a, a);
        self.lemma_ring(a, self.zero, self.zero);
        self.lemma_ring(self.zero, self.zero, self.zero);
        // z = z + z, so z = z + (z - z) = (z + z) - z = z - z = 0.
        assert(self.add(z, z) == z);
        self.lemma_ring(z, z, self.neg(z));
        assert(self.add(z, self.add(z, self.neg(z))) == self.add(z, self.neg(z)));
        self.lemma_ring(z, self.zero, self.zero);
    }

    /// What cancels `a` is its opposite.
    pub(crate) proof fn lemma_opposite(self, a: V, b: V)
        requires
            self.is_ring(),
            self.add(a, b) == self.zero,
        ensures
            b == self.neg(a),
    {
        // b = b + (a - a) = (b + a) - a = 0 - a.
        self.lemma_ring(b, a, self.neg(a));
        self.lemma_ring(a, b, b);
        self.lemma_ring(a, a, a);
        self.lemma_ring(b, self.zero, self.zero);
        self.lemma_zero(self.neg(a));
        assert(self.add(self.add(b, a), self.neg(a)) == self.add(b, self.zero));
    }

    /// `a * (-b)` is `-(a * b)`.
    pub(crate) proof fn lemma_neg(self, a: V, b: V)
        requires
            self.is_ring(),
        ensures
            self.mul(a, self.neg(b)) == self.neg(self.mul(a, b)),
    {
        self.lemma_ring(a, b, self.neg(b));
        self.lemma_ring(b, b, b);
        self.lemma_zero(a);
        self.lemma_opposite(self.mul(a, b), self.mul(a, self.neg(b)));
    }

    pub(crate) proof fn lemma_minus_one_squared(self)
        requires
            self.is_ring(),
        ensures
            self.mul(self.neg(self.one), self.neg(self.one)) == self.one,
    {
        let m = self.neg(self.one);
        self.lemma_neg(m, self.one);
        self.lemma_ring(m, self.one, self.one);
        // m * m = -(m * 1) = -m, and 1 + m = 0 makes 1 the opposite of m.
        self.lemma_ring(self.one, m, m);
        self.lemma_ring(m, self.one, self.one);
        self.lemma_opposite(m, self.one);
    }

    /// Sums of equal terms are equal.
    pub(crate) proof fn lemma_total_same(self, f: spec_fn(int) -> V, g: spec_fn(int) -> V, n: nat)
        requires
            forall|i: int| 0 <= i < n ==> #[trigger] f(i) == g(i),
        ensures
            self.total(f, n) == self.total(g, n),
        decreases n,
    {
        if n > 0 {
            self.lemma_total_same(f, g, (n - 1) as nat);
            assert(f(n - 1) == g(n - 1));
        }
    }

    pub(crate) proof fn lemma_total_plus(self, f: spec_fn(int) -> V, g: spec_fn(int) -> V, n: nat)
        requires
            self.is_ring(),
        ensures
            self.total(|i: int| self.add(f(i), g(i)), n) == self.add(
                self.total(f, n),
                self.total(g, n),
            ),
        decreases n,
    {
        if n == 0 {
            self.lemma_zero(self.zero);
        } else {
            let m = (n - 1) as nat;
            self.lemma_total_plus(f, g, m);
            self.lemma_exchange(self.total(f, m), self.total(g, m), f(n - 1), g(n - 1));
        }
    }

    /// A common factor.
    pub(crate) proof fn lemma_total_times(self, f: spec_fn(int) -> V, c: V, n: nat)
        requires
            self.is_ring(),
        ensures
            self.total(|i: int| self.mul(f(i), c), n) == self.mul(self.total(f, n), c),
        decreases n,
    {
        if n == 0 {
            self.lemma_zero(c);
        } else {
            let m = (n - 1) as nat;
            self.lemma_total_times(f, c, m);
            let s = self.total(f, m);
            let x = f(n - 1);
            self.lemma_ring(c, s, x);
            self.lemma_ring(s, c, c);
            self.lemma_ring(x, c, c);
            self.lemma_ring(self.add(s, x), c, c);
        }
    }

    /// The terms of even and of odd number.
    pub(crate) proof fn lemma_total_parities(self, f: spec_fn(int) -> V, n: nat)
        requires
            self.is_ring(),
        ensures
            self.total(f, 2 * n) == self.add(
                self.total(|i: int| f(2 * i), n),
                self.total(|i: int| f(2 * i + 1), n),
            ),
        decreases n,
    {
        if n == 0 {
            self.lemma_zero(self.zero);
        } else {
            let m = (n - 1) as nat;
            self.lemma_total_parities(f, m);
            let e = self.total(|i: int| f(2 * i), m);
            let o = self.total(|i: int| f(2 * i + 1), m);
            let a = f((2 * m) as int);
            let b = f((2 * m + 1) as int);
            assert(self.total(f, 2 * n) == self.add(self.total(f, (2 * n - 1) as nat), b));
            assert(self.total(f, (2 * n - 1) as nat) == self.add(self.total(f, 2 * m), a));
            self.lemma_ring(self.add(e, o), a, b);
            self.lemma_exchange(e, o, a, b);
        }
    }

    /// The terms of the two halves.
    pub(crate) proof fn lemma_total_halves(self, f: spec_fn(int) -> V, n: nat, m: nat)
        requires
            self.is_ring(),
        ensures
            self.total(f, n + m) == self.add(self.total(f, n), self.total(|i: int| f(n + i), m)),
        decreases m,
    {
        if m == 0 {
            self.lemma_ring(self.total(f, n), self.zero, self.zero);
        } else {
            let k = (m - 1) as nat;
            self.lemma_total_halves(f, n, k);
            let t = self.total(|i: int| f(n + i), k);
            self.lemma_ring(self.total(f, n), t, f(n + m - 1));
            assert(self.total(f, n + m) == self.add(self.total(f, n + k), f(n + m - 1)));
        }
    }

    /// A sum of zeros.
    pub(crate) proof fn lemma_total_zero(self, f: spec_fn(int) -> V, n: nat)
        requires
            self.is_ring(),
            forall|i: int| 0 <= i < n ==> #[trigger] f(i) == self.zero,
        ensures
            self.total(f, n) == self.zero,
        decreases n,
    {
        if n > 0 {
            self.lemma_total_zero(f, (n - 1) as nat);
            assert(f(n - 1) == self.zero);
            self.lemma_ring(self.zero, self.zero, self.zero);
        }
    }

    /// A sum with a single term that counts.
    pub(crate) proof fn lemma_total_single(self, f: spec_fn(int) -> V, n: nat, at: int)
        requires
            self.is_ring(),
            0 <= at < n,
            forall|i: int| 0 <= i < n && i != at ==> #[trigger] f(i) == self.zero,
        ensures
            self.total(f, n) == f(at),
        decreases n,
    {
        let m = (n - 1) as nat;
        if at == n - 1 {
            self.lemma_total_zero(f, m);
            self.lemma_zero(f(at));
        } else {
            self.lemma_total_single(f, m, at);
            assert(f(n - 1) == self.zero);
            self.lemma_ring(f(at), self.zero, self.zero);
        }
    }

    /// The order of two sums does not matter.
    pub(crate) proof fn lemma_total_swap(self, f: spec_fn(int, int) -> V, n: nat, m: nat)
        requires
            self.is_ring(),
        ensures
            self.total(|i: int| self.total(|j: int| f(i, j), m), n) == self.total(
                |j: int| self.total(|i: int| f(i, j), n),
                m,
            ),
        decreases n,
    {
        let rows = |i: int| self.total(|j: int| f(i, j), m);
        let columns = |j: int| self.total(|i: int| f(i, j), n);
        if n == 0 {
            self.lemma_total_zero(columns, m);
        } else {
            let k = (n - 1) as nat;
            self.lemma_total_swap(f, k, m);
            let before = |j: int| self.total(|i: int| f(i, j), k);
            let last = |j: int| f(n - 1, j);
            self.lemma_total_plus(before, last, m);
            self.lemma_total_same(columns, |j: int| self.add(before(j), last(j)), m);
            assert(rows(n - 1) == self.total(last, m)) by {
                self.lemma_total_same(|j: int| f(n - 1, j), last, m);
            }
        }
    }
}

impl<W: Wide, V> Exact<W, V> {
    /// Turns add up.
    pub(crate) proof fn lemma_turns(self, a: int, c: int, b: int)
        requires
            self.has_turns(),
            b > 0,
        ensures
            self.mul(self.at(a, b), self.at(c, b)) == self.at(a + c, b),
            self.at(0, b) == self.one,
    {
        reveal(Exact::has_turns);
    }

    pub(crate) proof fn lemma_expand(self, k: int, a: int, b: int)
        requires
            self.has_turns(),
            b > 0,
            k > 0,
        ensures
            self.at(k * a, k * b) == self.at(a, b),
    {
        reveal(Exact::has_turns);
        assert(self.expands(k, a, b));
    }

    /// The sum of equal turns all around: nothing, unless each is a whole turn.
    pub(crate) proof fn lemma_circle(self, d: int, n: int)
        requires
            self.is_ring(),
            self.has_turns(),
            n > 0,
        ensures
            self.total(|q: int| self.at(q * d, n), n as nat) == if d % n == 0 {
                self.count(n as nat)
            } else {
                self.zero
            },
    {
        if d % n == 0 {
            let f = |q: int| self.at(q * d, n);
            let g = |q: int| self.one;
            assert forall|q: int| 0 <= q < n implies #[trigger] f(q) == g(q) by {
                let k = d / n;
                vstd::arithmetic::div_mod::lemma_fundamental_div_mod(d, n);
                assert(q * d == (q * k) * n) by (nonlinear_arith)
                    requires
                        d == n * k,
                ;
                self.lemma_whole_turns(q * k, n);
            }
            self.lemma_total_same(f, g, n as nat);
        } else {
            reveal(Exact::has_turns);
            assert(self.balances(d, n));
        }
    }

    /// Half a turn either way leads to the opposite point.
    pub(crate) proof fn lemma_half_turn(self, s: int, b: int)
        requires
            self.is_ring(),
            self.has_turns(),
            b > 0,
            s == 1 || s == -1,
        ensures
            self.at(s * b, 2 * b) == self.neg(self.one),
    {
        let n = self.neg(self.one);
        assert(self.at(1, 2) == n) by {
            reveal(Exact::has_turns);
        }
        self.lemma_expand(b, s, 2);
        assert(b * s == s * b) by (nonlinear_arith);
        if s == -1 {
            let x = self.at(-1, 2);
            self.lemma_turns(-1, 1, 2);
            self.lemma_minus_one_squared();
            self.lemma_ring(x, n, n);
            self.lemma_ring(self.one, n, n);
            self.lemma_ring(n, self.one, n);
            self.lemma_ring(x, self.one, n);
            assert(self.mul(self.mul(x, n), n) == self.mul(x, self.mul(n, n)));
            assert(self.mul(self.one, n) == n);
        }
    }

    proof fn lemma_full_turns(self, k: int)
        requires
            self.is_ring(),
            self.has_turns(),
        ensures
            self.at(k, 1) == self.one,
        decreases if k < 0 {
            -k
        } else {
            k
        },
    {
        self.lemma_turns(0, 0, 1);
        self.lemma_ring(self.one, self.one, self.one);
        assert(self.at(1, 1) == self.one) by {
            self.lemma_half_turn(1, 1);
            self.lemma_turns(1, 1, 2);
            self.lemma_expand(2, 1, 1);
            self.lemma_minus_one_squared();
        }
        if k > 0 {
            self.lemma_full_turns(k - 1);
            self.lemma_turns(k - 1, 1, 1);
        } else if k < 0 {
            self.lemma_full_turns(k + 1);
            self.lemma_turns(k, 1, 1);
            self.lemma_ring(self.at(k, 1), self.one, self.one);
        }
    }

    /// Whole turns lead back.
    pub(crate) proof fn lemma_whole_turns(self, k: int, b: int)
        requires
            self.is_ring(),
            self.has_turns(),
            b > 0,
        ensures
            self.at(k * b, b) == self.one,
    {
        self.lemma_full_turns(k);
        self.lemma_expand(b, k, 1);
        assert(b * k == k * b) by (nonlinear_arith);
    }

    /// Whole turns change nothing.
    pub(crate) proof fn lemma_reduced_turn(self, a: int, k: int, b: int)
        requires
            self.is_ring(),
            self.has_turns(),
            b > 0,
        ensures
            self.at(a + k * b, b) == self.at(a, b),
    {
        self.lemma_whole_turns(k, b);
        self.lemma_turns(a, k * b, b);
        self.lemma_ring(self.at(a, b), self.one, self.one);
    }
}

} // verus!
