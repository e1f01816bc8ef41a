//! The transforms of planes, in exact arithmetic: what they mean, and that the real ones
//! undo each other.

use vstd::prelude::*;
use vstd::arithmetic::div_mod::{lemma_fundamental_div_mod, lemma_fundamental_div_mod_converse};

use crate::chirp::{law_transform_is_the_dft, lemma_inversion};
use crate::dft::{dft, term};
use crate::exact::{sign, Exact};
use crate::fft::{fft_of, Complex};
use crate::grid::{at3, lemma_place_of};
use crate::scalar::{Scalar, Wide};
use crate::spectrum::{can_transform, column, columns_of, completed, completed_at, fft2_of, halved, irfft2_of, kept, law_only_the_spectrum_has_influence, lifted, lifted_at, part, real_parts, rfft2_of, row, rows_of};

verus! {

/// The discrete Fourier transform of a plane at the frequencies `v` and `u`: the sum of
/// its samples, each turned by `u * x / w` and by `v * y / h`.
pub open spec fn dft2<W: Wide, V>(
    e: Exact<W, V>,
    a: Seq<Complex<W>>,
    h: int,
    w: int,
    inverse: bool,
    v: int,
    u: int,
) -> V {
    e.total(|y: int| row_sum(e, a, h, w, inverse, v, u, y), h as nat)
}

/// The share of row `y`.
pub open spec fn row_sum<W: Wide, V>(
    e: Exact<W, V>,
    a: Seq<Complex<W>>,
    h: int,
    w: int,
    inverse: bool,
    v: int,
    u: int,
    y: int,
) -> V {
    e.total(
        |x: int|
            e.mul(
                term(e, a[y * w + x], sign(inverse), u, x, w),
                e.at(sign(inverse) * v * y, h),
            ),
        w as nat,
    )
}

/// In exact arithmetic the transform of a plane is the two-dimensional discrete Fourier
/// transform.
pub proof fn law_plane_transform_is_the_dft<W: Wide, V>(
    e: Exact<W, V>,
    a: Seq<Complex<W>>,
    h: int,
    w: int,
    inverse: bool,
    out: Seq<Complex<W>>,
    v: int,
    u: int,
)
    requires
        e.is_exact(),
        fft2_of(a, h, w, inverse, out),
        8 * h <= usize::MAX,
        8 * w <= usize::MAX,
        0 <= v < h,
        0 <= u < w,
    ensures
        e.val(out[v * w + u]) == dft2(e, a, h, w, inverse, v, u),
{
    let mid = choose|mid: Seq<Complex<W>>| #[trigger]
        rows_of(a, h, w, inverse, mid) && columns_of(mid, h, w, inverse, out);
    let s = sign(inverse);
    lemma_column_of(e, mid, h, w, inverse, out, v, u);
    let f = |y: int| term(e, mid[y * w + u], s, v, y, h);
    let g = |y: int| row_sum(e, a, h, w, inverse, v, u, y);
    assert forall|y: int| 0 <= y < h implies #[trigger] f(y) == g(y) by {
        lemma_row_of(e, a, h, w, inverse, mid, y, u);
        let t = |x: int| term(e, a[y * w + x], s, u, x, w);
        let z = e.at(s * v * y, h);
        e.lemma_total_times(t, z, w as nat);
        e.lemma_total_same(
            |x: int| e.mul(t(x), z),
            |x: int| e.mul(term(e, a[y * w + x], s, u, x, w), e.at(s * v * y, h)),
            w as nat,
        );
    }
    e.lemma_total_same(f, g, h as nat);
}

/// One element of a transformed row.
proof fn lemma_row_of<W: Wide, V>(
    e: Exact<W, V>,
    a: Seq<Complex<W>>,
    h: int,
    w: int,
    inverse: bool,
    mid: Seq<Complex<W>>,
    y: int,
    u: int,
)
    requires
        e.is_exact(),
        rows_of(a, h, w, inverse, mid),
        8 * w <= usize::MAX,
        0 <= y < h,
        0 <= u < w,
    ensures
        e.val(mid[y * w + u]) == dft(e, row(a, w, y), inverse, u),
        dft(e, row(a, w, y), inverse, u) == e.total(
            |x: int| term(e, a[y * w + x], sign(inverse), u, x, w),
            w as nat,
        ),
{
    assert(fft_of(row(a, w, y), inverse, row(mid, w, y)));
    law_transform_is_the_dft(e, row(a, w, y), inverse, row(mid, w, y), u);
    assert(row(mid, w, y)[u] == mid[y * w + u]);
    e.lemma_total_same(
        |x: int| term(e, row(a, w, y)[x], sign(inverse), u, x, row(a, w, y).len() as int),
        |x: int| term(e, a[y * w + x], sign(inverse), u, x, w),
        w as nat,
    );
}

/// One element of a transformed column.
proof fn lemma_column_of<W: Wide, V>(
    e: Exact<W, V>,
    mid: Seq<Complex<W>>,
    h: int,
    w: int,
    inverse: bool,
    out: Seq<Complex<W>>,
    v: int,
    u: int,
)
    requires
        e.is_exact(),
        columns_of(mid, h, w, inverse, out),
        8 * h <= usize::MAX,
        0 <= v < h,
        0 <= u < w,
    ensures
        e.val(out[v * w + u]) == dft(e, column(mid, h, w, u), inverse, v),
        dft(e, column(mid, h, w, u), inverse, v) == e.total(
            |y: int| term(e, mid[y * w + u], sign(inverse), v, y, h),
            h as nat,
        ),
{
    assert(fft_of(column(mid, h, w, u), inverse, column(out, h, w, u)));
    law_transform_is_the_dft(e, column(mid, h, w, u), inverse, column(out, h, w, u), v);
    assert(column(out, h, w, u)[v] == out[v * w + u]);
    e.lemma_total_same(
        |y: int|
            term(
                e,
                column(mid, h, w, u)[y],
                sign(inverse),
                v,
                y,
                column(mid, h, w, u).len() as int,
            ),
        |y: int| term(e, mid[y * w + u], sign(inverse), v, y, h),
        h as nat,
    );
}

/// `((f c) z) y` is `(f y) (c z)`.
proof fn lemma_regroup<W: Wide, V>(e: Exact<W, V>, f: V, c: V, z: V, y: V)
    requires
        e.is_exact(),
    ensures
        e.mul(e.mul(e.mul(f, c), z), y) == e.mul(e.mul(f, y), e.mul(c, z)),
{
    let cz = e.mul(c, z);
    e.lemma_ring(f, c, z);
    e.lemma_ring(f, cz, y);
    e.lemma_ring(cz, y, y);
    e.lemma_ring(f, y, cz);
}

/// `(a b) (c d)` is `(b d) (a c)`.
proof fn lemma_regroup_pairs<W: Wide, V>(e: Exact<W, V>, a: V, b: V, c: V, d: V)
    requires
        e.is_exact(),
    ensures
        e.mul(e.mul(a, b), e.mul(c, d)) == e.mul(e.mul(b, d), e.mul(a, c)),
{
    e.lemma_ring(a, b, b);
    e.lemma_ring(b, a, c);
    e.lemma_ring(e.mul(b, a), c, d);
    lemma_regroup(e, b, a, c, d);
}

/// The sum over the frequencies of column `u`, turned back by `y`.
proof fn lemma_column_back<W: Wide, V>(
    e: Exact<W, V>,
    mid: Seq<Complex<W>>,
    f: Seq<Complex<W>>,
    h: int,
    w: int,
    inverse: bool,
    y: int,
    u: int,
    k: V,
)
    requires
        e.is_exact(),
        columns_of(mid, h, w, inverse, f),
        8 * h <= usize::MAX,
        0 <= y < h,
        0 <= u < w,
    ensures
        e.total(
            |v: int| e.mul(e.mul(e.val(f[v * w + u]), e.at(-sign(inverse) * v * y, h)), k),
            h as nat,
        ) == e.mul(e.mul(e.count(h as nat), e.val(mid[y * w + u])), k),
{
    let c = column(mid, h, w, u);
    let fs = |v: int| e.val(f[v * w + u]);
    assert forall|v: int| 0 <= v < h implies #[trigger] fs(v) == dft(e, c, inverse, v) by {
        lemma_column_of(e, mid, h, w, inverse, f, v, u);
    }
    lemma_inversion(e, c, inverse, fs, y);
    lemma_fundamental_div_mod_converse(y, h, 0, y);
    let t = |v: int| e.mul(fs(v), e.at(-sign(inverse) * v * y, h));
    e.lemma_total_same(
        |v: int| e.mul(fs(v), e.at(-sign(inverse) * v * y, c.len() as int)),
        t,
        h as nat,
    );
    e.lemma_total_times(t, k, h as nat);
    e.lemma_total_same(
        |v: int| e.mul(t(v), k),
        |v: int| e.mul(e.mul(e.val(f[v * w + u]), e.at(-sign(inverse) * v * y, h)), k),
        h as nat,
    );
}

/// The sum over the frequencies of row `y`, turned back by `x`.
proof fn lemma_row_back<W: Wide, V>(
    e: Exact<W, V>,
    a: Seq<Complex<W>>,
    mid: Seq<Complex<W>>,
    h: int,
    w: int,
    inverse: bool,
    y: int,
    x: int,
    k: V,
)
    requires
        e.is_exact(),
        rows_of(a, h, w, inverse, mid),
        8 * w <= usize::MAX,
        0 <= y < h,
        0 <= x < w,
    ensures
        e.total(
            |u: int| e.mul(e.mul(e.val(mid[y * w + u]), e.at(-sign(inverse) * u * x, w)), k),
            w as nat,
        ) == e.mul(e.mul(e.count(w as nat), e.val(a[y * w + x])), k),
{
    let c = row(a, w, y);
    let ms = |u: int| e.val(mid[y * w + u]);
    assert forall|u: int| 0 <= u < w implies #[trigger] ms(u) == dft(e, c, inverse, u) by {
        lemma_row_of(e, a, h, w, inverse, mid, y, u);
    }
    lemma_inversion(e, c, inverse, ms, x);
    lemma_fundamental_div_mod_converse(x, w, 0, x);
    let t = |u: int| e.mul(ms(u), e.at(-sign(inverse) * u * x, w));
    e.lemma_total_same(
        |u: int| e.mul(ms(u), e.at(-sign(inverse) * u * x, c.len() as int)),
        t,
        w as nat,
    );
    e.lemma_total_times(t, k, w as nat);
    e.lemma_total_same(
        |u: int| e.mul(t(u), k),
        |u: int| e.mul(e.mul(e.val(mid[y * w + u]), e.at(-sign(inverse) * u * x, w)), k),
        w as nat,
    );
}

/// A plane whose spectrum, times a factor, is transformed the other way comes back, times
/// the number of its samples and the factor.
proof fn lemma_plane_back<W: Wide, V>(
    e: Exact<W, V>,
    a: Seq<Complex<W>>,
    f: Seq<Complex<W>>,
    g: Seq<Complex<W>>,
    z: Seq<Complex<W>>,
    h: int,
    w: int,
    inverse: bool,
    c: V,
    y: int,
    x: int,
)
    requires
        e.is_exact(),
        fft2_of(a, h, w, inverse, f),
        fft2_of(g, h, w, !inverse, z),
        8 * h <= usize::MAX,
        8 * w <= usize::MAX,
        0 <= y < h,
        0 <= x < w,
        forall|v: int, u: int|
            0 <= v < h && 0 <= u < w ==> e.val(#[trigger] g[v * w + u]) == e.mul(
                e.val(f[v * w + u]),
                c,
            ),
    ensures
        e.val(z[y * w + x]) == e.mul(
            e.mul(e.count(w as nat), e.val(a[y * w + x])),
            e.mul(e.count(h as nat), c),
        ),
{
    let mid = choose|mid: Seq<Complex<W>>| #[trigger]
        rows_of(a, h, w, inverse, mid) && columns_of(mid, h, w, inverse, f);
    let other = !inverse;
    let mid2 = choose|mid2: Seq<Complex<W>>| #[trigger]
        rows_of(g, h, w, other, mid2) && columns_of(mid2, h, w, other, z);
    let s = sign(inverse);
    let t = sign(!inverse);
    let back = |v: int| e.at(t * y * v, h);
    let side = |u: int| e.at(t * x * u, w);
    let q = |v: int, u: int|
        e.mul(e.mul(e.mul(e.val(f[v * w + u]), c), side(u)), back(v));
    let rows = |v: int| e.total(|u: int| q(v, u), w as nat);
    let left = |v: int| term(e, mid2[v * w + x], t, y, v, h);
    lemma_column_of(e, mid2, h, w, !inverse, z, y, x);
    assert forall|v: int| 0 <= v < h implies #[trigger] left(v) == rows(v) by {
        lemma_row_of(e, g, h, w, !inverse, mid2, v, x);
        let r = |u: int| term(e, g[v * w + u], t, x, u, w);
        let r2 = |u: int| e.mul(e.mul(e.val(f[v * w + u]), c), side(u));
        assert forall|u: int| 0 <= u < w implies #[trigger] r(u) == r2(u) by {
            assert(e.val(g[v * w + u]) == e.mul(e.val(f[v * w + u]), c));
        }
        e.lemma_total_same(r, r2, w as nat);
        e.lemma_total_times(r2, back(v), w as nat);
        e.lemma_total_same(|u: int| e.mul(r2(u), back(v)), |u: int| q(v, u), w as nat);
    }
    e.lemma_total_same(left, rows, h as nat);
    e.lemma_total_swap(q, h as nat, w as nat);
    let columns = |u: int| e.total(|v: int| q(v, u), h as nat);
    let hc = e.mul(e.count(h as nat), c);
    let right = |u: int|
        e.mul(e.mul(e.val(mid[y * w + u]), e.at(-s * u * x, w)), hc);
    assert forall|u: int| 0 <= u < w implies #[trigger] columns(u) == right(u) by {
        let k = e.mul(c, side(u));
        let col = |v: int|
            e.mul(e.mul(e.val(f[v * w + u]), e.at(-s * v * y, h)), k);
        let qu = |v: int| q(v, u);
        assert forall|v: int| 0 <= v < h implies #[trigger] qu(v) == col(v) by {
            lemma_regroup(e, e.val(f[v * w + u]), c, side(u), back(v));
            assert(t * y * v == -s * v * y) by (nonlinear_arith)
                requires
                    t == -s,
            ;
        }
        e.lemma_total_same(qu, col, h as nat);
        lemma_column_back(e, mid, f, h, w, inverse, y, u, k);
        e.lemma_total_same(
            |v: int|
                e.mul(e.mul(e.val(f[v * w + u]), e.at(-sign(inverse) * v * y, h)), k),
            col,
            h as nat,
        );
        lemma_regroup_pairs(e, e.count(h as nat), e.val(mid[y * w + u]), c, side(u));
        assert(t * x * u == -s * u * x) by (nonlinear_arith)
            requires
                t == -s,
        ;
        e.lemma_total_same(|v: int| q(v, u), qu, h as nat);
    }
    e.lemma_total_same(columns, right, w as nat);
    lemma_row_back(e, a, mid, h, w, inverse, y, x, hc);
    e.lemma_total_same(
        |u: int|
            e.mul(e.mul(e.val(mid[y * w + u]), e.at(-sign(inverse) * u * x, w)), hc),
        right,
        w as nat,
    );
}

/// Exact arithmetic with real numbers, their conjugation, and the real part.
#[verifier::reject_recursive_types(S)]
#[verifier::reject_recursive_types(V)]
pub struct ExactReal<S: Scalar, V> {
    pub exact: Exact<S::Wide, V>,
    /// The element that a real number of a plane stands for.
    pub number: spec_fn(S) -> V,
    /// The imaginary unit.
    pub unit: V,
    /// One over the square root of a number.
    pub root: spec_fn(int) -> V,
    pub conjugate: spec_fn(V) -> V,
    pub real_part: spec_fn(V) -> V,
}

impl<S: Scalar, V> ExactReal<S, V> {
    pub open spec fn num(self, s: S) -> V {
        (self.number)(s)
    }

    pub open spec fn amount(self, w: S::Wide) -> V {
        (self.exact.amount)(w)
    }

    pub open spec fn root_of(self, n: int) -> V {
        (self.root)(n)
    }

    pub open spec fn conj(self, v: V) -> V {
        (self.conjugate)(v)
    }

    /// Conjugation respects the operations.
    pub open spec fn conjugates(self, a: V, b: V) -> bool {
        &&& self.conj(self.exact.add(a, b)) == self.exact.add(self.conj(a), self.conj(b))
        &&& self.conj(self.exact.mul(a, b)) == self.exact.mul(self.conj(a), self.conj(b))
    }

    /// A complex number is made of its parts, conjugation reverses turns and the imaginary
    /// unit and leaves real numbers as they are, and the real part of what conjugation
    /// leaves is all of it.
    #[verifier::opaque]
    pub open spec fn has_parts(self) -> bool {
        let e = self.exact;
        &&& forall|z: Complex<S::Wide>| #[trigger]
            e.val(z) == e.add(self.amount(z.re), e.mul(self.unit, self.amount(z.im)))
        &&& forall|z: Complex<S::Wide>| (self.real_part)(#[trigger] e.val(z)) == self.amount(z.re)
        &&& forall|v: V|
            #[trigger] self.conj(v) == v ==> (self.real_part)(v) == v
        &&& forall|a: V, b: V| #[trigger] self.conjugates(a, b)
        &&& forall|w: S::Wide| self.conj(#[trigger] self.amount(w)) == self.amount(w)
        &&& self.conj(self.unit) == e.neg(self.unit)
        &&& forall|a: int, b: int| b > 0 ==> self.conj(#[trigger] e.at(a, b)) == e.at(-a, b)
    }

    /// The operations on real numbers compute in the ring.
    #[verifier::opaque]
    pub open spec fn converts(self) -> bool {
        let e = self.exact;
        &&& forall|r: S::Wide| #[trigger]
            call_ensures(<S::Wide as Wide>::zero, (), r) ==> self.amount(r) == e.zero
        &&& forall|a: S::Wide, r: S::Wide| #[trigger]
            call_ensures(<S::Wide as Wide>::negated, (a,), r) ==> self.amount(r) == e.neg(
                self.amount(a),
            )
        &&& forall|a: S, r: S::Wide| #[trigger]
            call_ensures(S::widened, (a,), r) ==> self.amount(r) == self.num(a)
        &&& forall|a: S::Wide, k: S::Wide, r: S| #[trigger]
            call_ensures(S::narrowed, (a, k), r) ==> self.num(r) == e.mul(
                self.amount(a),
                self.amount(k),
            )
        &&& forall|n: usize, r: S::Wide| #[trigger]
            call_ensures(<S::Wide as Wide>::reciprocal_root, (n,), r) && n > 0 ==> self.amount(r)
                == self.root_of(n as int)
        &&& forall|n: int|
            n > 0 ==> e.mul(
                e.mul(#[trigger] self.root_of(n), self.root_of(n)),
                e.count(n as nat),
            ) == e.one
    }

    /// The arithmetic is exact.
    pub open spec fn is_exact(self) -> bool {
        self.exact.is_exact() && self.has_parts() && self.converts()
    }

    proof fn lemma_conjugates(self, a: V, b: V)
        requires
            self.is_exact(),
        ensures
            self.conjugates(a, b),
    {
        reveal(ExactReal::has_parts);
    }

    proof fn lemma_conj_zero(self)
        requires
            self.is_exact(),
        ensures
            self.conj(self.exact.zero) == self.exact.zero,
    {
        let e = self.exact;
        let c = self.conj(e.zero);
        self.lemma_conjugates(e.zero, e.zero);
        e.lemma_ring(e.zero, e.zero, e.zero);
        e.lemma_ring(c, c, e.neg(c));
        e.lemma_ring(c, e.zero, e.zero);
        assert(e.add(c, c) == c);
        assert(e.add(c, e.add(c, e.neg(c))) == e.add(c, e.neg(c)));
    }

    /// The conjugate of a sum.
    proof fn lemma_conj_total(self, f: spec_fn(int) -> V, n: nat)
        requires
            self.is_exact(),
        ensures
            self.conj(self.exact.total(f, n)) == self.exact.total(|i: int| self.conj(f(i)), n),
        decreases n,
    {
        if n == 0 {
            self.lemma_conj_zero();
        } else {
            self.lemma_conj_total(f, (n - 1) as nat);
            self.lemma_conjugates(self.exact.total(f, (n - 1) as nat), f(n - 1));
        }
    }

    /// The conjugate of a complex number.
    proof fn lemma_conj_value(self, z: Complex<S::Wide>, r: Complex<S::Wide>)
        requires
            self.is_exact(),
            r.re == z.re,
            call_ensures(<S::Wide as Wide>::negated, (z.im,), r.im),
        ensures
            self.exact.val(r) == self.conj(self.exact.val(z)),
    {
        let e = self.exact;
        let a = self.amount(z.re);
        let b = self.amount(z.im);
        assert(self.amount(r.im) == e.neg(b)) by {
            reveal(ExactReal::converts);
        }
        assert(e.val(z) == e.add(a, e.mul(self.unit, b)) && e.val(r) == e.add(
            a,
            e.mul(self.unit, e.neg(b)),
        ) && self.conj(a) == a && self.conj(b) == b && self.conj(self.unit) == e.neg(self.unit)) by {
            reveal(ExactReal::has_parts);
        }
        self.lemma_conjugates(a, e.mul(self.unit, b));
        self.lemma_conjugates(self.unit, b);
        e.lemma_neg(self.unit, b);
        e.lemma_neg(b, self.unit);
        e.lemma_ring(self.unit, b, b);
        e.lemma_ring(e.neg(self.unit), b, b);
    }

    /// A scaled complex number.
    proof fn lemma_scaled_value(self, z: Complex<S::Wide>, r: Complex<S::Wide>, k: V)
        requires
            self.is_exact(),
            self.amount(r.re) == self.exact.mul(self.amount(z.re), k),
            self.amount(r.im) == self.exact.mul(self.amount(z.im), k),
        ensures
            self.exact.val(r) == self.exact.mul(self.exact.val(z), k),
    {
        let e = self.exact;
        let a = self.amount(z.re);
        let b = self.amount(z.im);
        let ub = e.mul(self.unit, b);
        assert(e.val(z) == e.add(a, ub) && e.val(r) == e.add(
            e.mul(a, k),
            e.mul(self.unit, e.mul(b, k)),
        )) by {
            reveal(ExactReal::has_parts);
        }
        e.lemma_ring(self.unit, b, k);
        e.lemma_ring(k, a, ub);
        e.lemma_ring(e.add(a, ub), k, k);
        e.lemma_ring(a, k, k);
        e.lemma_ring(ub, k, k);
    }
}

/// The number of all samples is the product of those of the rows and the columns.
proof fn lemma_count_product<W: Wide, V>(e: Exact<W, V>, h: nat, w: nat)
    requires
        e.is_exact(),
    ensures
        e.count(h * w) == e.mul(e.count(h), e.count(w)),
    decreases h,
{
    let one = |i: int| e.one;
    if h == 0 {
        assert(0 * w == 0);
        e.lemma_zero(e.count(w));
    } else {
        let k = (h - 1) as nat;
        lemma_count_product(e, k, w);
        assert(h * w == k * w + w) by (nonlinear_arith)
            requires
                h == k + 1,
        ;
        e.lemma_total_halves(one, k * w, w);
        e.lemma_total_same(|i: int| one(k * w + i), one, w);
        e.lemma_total_same(|i: int| e.one, one, h * w);
        e.lemma_total_same(|i: int| e.one, one, k * w);
        e.lemma_total_same(|i: int| e.one, one, w);
        e.lemma_total_same(|i: int| e.one, one, h);
        e.lemma_total_same(|i: int| e.one, one, k);
        let cw = e.count(w);
        let ck = e.count(k);
        assert(e.count(h) == e.add(ck, e.one));
        e.lemma_ring(cw, ck, e.one);
        e.lemma_ring(e.add(ck, e.one), cw, cw);
        e.lemma_ring(ck, cw, cw);
    }
}

impl<S: Scalar, V> ExactReal<S, V> {
    proof fn lemma_conj_count(self, n: nat)
        requires
            self.is_exact(),
        ensures
            self.conj(self.exact.count(n)) == self.exact.count(n),
    {
        let e = self.exact;
        assert(self.conj(e.one) == e.one) by {
            e.lemma_turns(0, 0, 1);
            reveal(ExactReal::has_parts);
            assert(self.conj(e.at(0, 1)) == e.at(-0, 1));
        }
        let one = |i: int| e.one;
        self.lemma_conj_total(one, n);
        e.lemma_total_same(|i: int| self.conj(one(i)), one, n);
        e.lemma_total_same(|i: int| e.one, one, n);
    }

    /// A lifted sample is the number itself, and real.
    proof fn lemma_lifted(self, src: Seq<S>, i: int, z: Complex<S::Wide>)
        requires
            self.is_exact(),
            lifted_at(src, i, z),
            i < src.len(),
        ensures
            self.exact.val(z) == self.num(src[i]),
            self.conj(self.exact.val(z)) == self.exact.val(z),
    {
        let e = self.exact;
        assert(self.amount(z.re) == self.num(src[i]) && self.amount(z.im) == e.zero) by {
            reveal(ExactReal::converts);
        }
        e.lemma_zero(self.unit);
        assert(e.val(z) == e.add(self.amount(z.re), e.mul(self.unit, self.amount(z.im)))
            && self.conj(self.amount(z.re)) == self.amount(z.re)) by {
            reveal(ExactReal::has_parts);
        }
        e.lemma_ring(self.amount(z.re), e.zero, e.zero);
    }

    /// The spectrum of a real plane is its own conjugate, reflected through the origin.
    proof fn lemma_reflected(
        self,
        a: Seq<Complex<S::Wide>>,
        h: int,
        w: int,
        v: int,
        u: int,
        rv: int,
    )
        requires
            self.is_exact(),
            0 <= v < h,
            0 <= u < w,
            rv == (h - v) % h,
            forall|y: int, x: int|
                0 <= y < h && 0 <= x < w ==> self.conj(self.exact.val(#[trigger] a[y * w + x]))
                    == self.exact.val(a[y * w + x]),
        ensures
            self.conj(dft2(self.exact, a, h, w, false, rv, w - u)) == dft2(
                self.exact,
                a,
                h,
                w,
                false,
                v,
                u,
            ),
    {
        let e = self.exact;
        let f = |y: int| row_sum(e, a, h, w, false, rv, w - u, y);
        let g = |y: int| row_sum(e, a, h, w, false, v, u, y);
        let cf = |y: int| self.conj(f(y));
        assert forall|y: int| 0 <= y < h implies #[trigger] cf(y) == g(y) by {
            self.lemma_reflected_row(a, h, w, v, u, rv, y);
        }
        self.lemma_conj_total(f, h as nat);
        e.lemma_total_same(|y: int| self.conj(f(y)), cf, h as nat);
        e.lemma_total_same(cf, g, h as nat);
        e.lemma_total_same(|y: int| row_sum(e, a, h, w, false, rv, w - u, y), f, h as nat);
        e.lemma_total_same(|y: int| row_sum(e, a, h, w, false, v, u, y), g, h as nat);
    }

    proof fn lemma_reflected_row(
        self,
        a: Seq<Complex<S::Wide>>,
        h: int,
        w: int,
        v: int,
        u: int,
        rv: int,
        y: int,
    )
        requires
            self.is_exact(),
            0 <= v < h,
            0 <= u < w,
            0 <= y < h,
            rv == (h - v) % h,
            forall|y: int, x: int|
                0 <= y < h && 0 <= x < w ==> self.conj(self.exact.val(#[trigger] a[y * w + x]))
                    == self.exact.val(a[y * w + x]),
        ensures
            self.conj(row_sum(self.exact, a, h, w, false, rv, w - u, y)) == row_sum(
                self.exact,
                a,
                h,
                w,
                false,
                v,
                u,
                y,
            ),
    {
        let e = self.exact;
        let s = sign(false);
        let f = |x: int| e.mul(term(e, a[y * w + x], s, w - u, x, w), e.at(s * rv * y, h));
        let g = |x: int| e.mul(term(e, a[y * w + x], s, u, x, w), e.at(s * v * y, h));
        let cf = |x: int| self.conj(f(x));
        assert forall|x: int| 0 <= x < w implies #[trigger] cf(x) == g(x) by {
            let z = e.val(a[y * w + x]);
            let p = e.at(s * (w - u) * x, w);
            let q = e.at(s * rv * y, h);
            self.lemma_conjugates(e.mul(z, p), q);
            self.lemma_conjugates(z, p);
            assert(self.conj(p) == e.at(-(s * (w - u) * x), w) && self.conj(q) == e.at(
                -(s * rv * y),
                h,
            )) by {
                reveal(ExactReal::has_parts);
            }
            assert(-(s * (w - u) * x) == s * u * x + (x) * w) by (nonlinear_arith)
                requires
                    s == -1,
            ;
            e.lemma_reduced_turn(s * u * x, x, w);
            let k = (h - v) / h;
            lemma_fundamental_div_mod(h - v, h);
            assert(-(s * rv * y) == s * v * y + ((1 - k) * y) * h) by (nonlinear_arith)
                requires
                    s == -1,
                    h - v == h * k + rv,
            ;
            e.lemma_reduced_turn(s * v * y, (1 - k) * y, h);
        }
        self.lemma_conj_total(f, w as nat);
        e.lemma_total_same(|x: int| self.conj(f(x)), cf, w as nat);
        e.lemma_total_same(cf, g, w as nat);
        e.lemma_total_same(
            |x: int|
                e.mul(
                    term(e, a[y * w + x], sign(false), w - u, x, w),
                    e.at(sign(false) * rv * y, h),
                ),
            f,
            w as nat,
        );
        e.lemma_total_same(
            |x: int|
                e.mul(
                    term(e, a[y * w + x], sign(false), u, x, w),
                    e.at(sign(false) * v * y, h),
                ),
            g,
            w as nat,
        );
    }
}

impl<S: Scalar, V> ExactReal<S, V> {
    /// A kept element of the spectrum comes back scaled.
    proof fn lemma_kept_element(
        self,
        f: Seq<Complex<S::Wide>>,
        g: Seq<Complex<S::Wide>>,
        spectrum: Seq<S>,
        h: int,
        w: int,
        scale: S::Wide,
        y: int,
        x: int,
    )
        requires
            self.is_exact(),
            halved(f, h, w, scale, spectrum),
            completed(spectrum, h, w, g),
            0 <= y < h,
            0 <= x < w,
            x < kept(w),
        ensures
            self.exact.val(g[y * w + x]) == self.exact.mul(
                self.exact.val(f[y * w + x]),
                self.amount(scale),
            ),
    {
        let z = f[y * w + x];
        let r = g[y * w + x];
        assert(completed_at(spectrum, h, w, g, y, x, r));
        let re = at3(spectrum, h, kept(w), 0, y, x);
        let im = at3(spectrum, h, kept(w), 1, y, x);
        assert(call_ensures(S::narrowed, (part(z, 0), scale), re));
        assert(call_ensures(S::narrowed, (part(z, 1), scale), im));
        assert(self.amount(r.re) == self.exact.mul(self.amount(z.re), self.amount(scale))
            && self.amount(r.im) == self.exact.mul(self.amount(z.im), self.amount(scale))) by {
            reveal(ExactReal::converts);
        }
        self.lemma_scaled_value(z, r, self.amount(scale));
    }

    /// Every element of the spectrum comes back scaled.
    proof fn lemma_element(
        self,
        a: Seq<Complex<S::Wide>>,
        f: Seq<Complex<S::Wide>>,
        g: Seq<Complex<S::Wide>>,
        spectrum: Seq<S>,
        h: int,
        w: int,
        scale: S::Wide,
        y: int,
        x: int,
    )
        requires
            self.is_exact(),
            fft2_of(a, h, w, false, f),
            halved(f, h, w, scale, spectrum),
            completed(spectrum, h, w, g),
            8 * h <= usize::MAX,
            8 * w <= usize::MAX,
            0 <= y < h,
            0 <= x < w,
            forall|y: int, x: int|
                0 <= y < h && 0 <= x < w ==> self.conj(self.exact.val(#[trigger] a[y * w + x]))
                    == self.exact.val(a[y * w + x]),
        ensures
            self.exact.val(g[y * w + x]) == self.exact.mul(
                self.exact.val(f[y * w + x]),
                self.amount(scale),
            ),
    {
        let e = self.exact;
        let k = self.amount(scale);
        if x < kept(w) {
            self.lemma_kept_element(f, g, spectrum, h, w, scale, y, x);
        } else {
            let ry = (h - y) % h;
            let rx = w - x;
            assert(0 <= ry < h) by (nonlinear_arith)
                requires
                    ry == (h - y) % h,
                    h > 0,
            ;
            assert(completed_at(spectrum, h, w, g, y, x, g[y * w + x]));
            let from = g[ry * w + rx];
            self.lemma_kept_element(f, g, spectrum, h, w, scale, ry, rx);
            self.lemma_conj_value(from, g[y * w + x]);
            law_plane_transform_is_the_dft(e, a, h, w, false, f, y, x);
            law_plane_transform_is_the_dft(e, a, h, w, false, f, ry, rx);
            self.lemma_reflected(a, h, w, y, x, ry);
            self.lemma_conjugates(e.val(f[ry * w + rx]), k);
            assert(self.conj(k) == k) by {
                reveal(ExactReal::has_parts);
            }
        }
    }

    /// `((m x) (n k)) k` is `x`, where `k k` times `n m` is one.
    proof fn lemma_normalised(self, m: V, x: V, n: V, k: V)
        requires
            self.is_exact(),
            self.exact.mul(self.exact.mul(k, k), self.exact.mul(n, m)) == self.exact.one,
        ensures
            self.exact.mul(self.exact.mul(self.exact.mul(m, x), self.exact.mul(n, k)), k) == x,
    {
        let e = self.exact;
        let mx = e.mul(m, x);
        let nk = e.mul(n, k);
        let kk = e.mul(k, k);
        // ((m x) (n k)) k = (m x) (n (k k)) = (x m) ((k k) n) = x ((k k) (n m))
        e.lemma_ring(mx, nk, k);
        e.lemma_ring(n, k, k);
        e.lemma_ring(n, kk, kk);
        e.lemma_ring(m, x, x);
        e.lemma_ring(x, m, e.mul(kk, n));
        e.lemma_ring(m, e.mul(kk, n), n);
        e.lemma_ring(kk, n, m);
        e.lemma_ring(x, e.one, e.one);
        assert(e.mul(nk, k) == e.mul(kk, n));
        assert(e.mul(m, e.mul(kk, n)) == e.mul(kk, e.mul(n, m)));
    }
}

/// In exact arithmetic the inverse of the real transform gives back the plane that was
/// transformed.
pub proof fn law_real_transforms_undo_each_other<S: Scalar, V>(
    r: ExactReal<S, V>,
    src: Seq<S>,
    h: int,
    w: int,
    spectrum: Seq<S>,
    out: Seq<S>,
    y: int,
    x: int,
)
    requires
        r.is_exact(),
        rfft2_of(src, h, w, spectrum),
        irfft2_of(spectrum, h, w, out),
        src.len() == h * w,
        8 * h <= usize::MAX,
        8 * w <= usize::MAX,
        h * w <= usize::MAX,
        0 <= y < h,
        0 <= x < w,
    ensures
        out.len() == src.len(),
        r.num(out[y * w + x]) == r.num(src[y * w + x]),
{
    let e = r.exact;
    let (a, f, scale) = choose|
        a: Seq<Complex<S::Wide>>,
        f: Seq<Complex<S::Wide>>,
        scale: S::Wide,
    |
        {
            &&& #[trigger] lifted(src, h * w, a)
            &&& fft2_of(a, h, w, false, f)
            &&& call_ensures(<S::Wide as Wide>::reciprocal_root, ((h * w) as usize,), scale)
            &&& #[trigger] halved(f, h, w, scale, spectrum)
        };
    let (g, z, scale2) = choose|
        a: Seq<Complex<S::Wide>>,
        f: Seq<Complex<S::Wide>>,
        scale: S::Wide,
    |
        {
            &&& #[trigger] completed(spectrum, h, w, a)
            &&& fft2_of(a, h, w, true, f)
            &&& f.len() == a.len()
            &&& call_ensures(<S::Wide as Wide>::reciprocal_root, ((h * w) as usize,), scale)
            &&& #[trigger] real_parts(f, scale, out)
        };
    assert(h * w > 0) by (nonlinear_arith)
        requires
            h > 0,
            w > 0,
    ;
    let k = r.root_of(h * w);
    assert(r.amount(scale) == k && r.amount(scale2) == k && e.mul(
        e.mul(k, k),
        e.count((h * w) as nat),
    ) == e.one) by {
        reveal(ExactReal::converts);
    }
    assert forall|v: int, u: int| 0 <= v < h && 0 <= u < w implies r.conj(
        e.val(#[trigger] a[v * w + u]),
    ) == e.val(a[v * w + u]) by {
        lemma_inside(h, w, v, u);
        r.lemma_lifted(src, v * w + u, a[v * w + u]);
    }
    assert forall|v: int, u: int| 0 <= v < h && 0 <= u < w implies e.val(#[trigger] g[v * w + u])
        == e.mul(e.val(f[v * w + u]), k) by {
        r.lemma_element(a, f, g, spectrum, h, w, scale, v, u);
    }
    lemma_plane_back(e, a, f, g, z, h, w, false, k, y, x);
    lemma_inside(h, w, y, x);
    let at = y * w + x;
    r.lemma_lifted(src, at, a[at]);
    let xs = r.num(src[at]);
    let ch = e.count(h as nat);
    let cw = e.count(w as nat);
    // The plane that comes back is real.
    let back = e.mul(e.mul(cw, xs), e.mul(ch, k));
    r.lemma_conj_count(h as nat);
    r.lemma_conj_count(w as nat);
    r.lemma_conjugates(cw, xs);
    r.lemma_conjugates(ch, k);
    r.lemma_conjugates(e.mul(cw, xs), e.mul(ch, k));
    assert(r.conj(k) == k && r.amount(z[at].re) == back) by {
        reveal(ExactReal::has_parts);
        assert(r.conj(r.amount(scale)) == r.amount(scale));
        assert(r.conj(back) == back);
        assert((r.real_part)(e.val(z[at])) == r.amount(z[at].re));
    }
    assert(call_ensures(S::narrowed, (z[at].re, scale2), out[at]));
    assert(r.num(out[at]) == e.mul(back, k)) by {
        reveal(ExactReal::converts);
    }
    lemma_count_product(e, h as nat, w as nat);
    r.lemma_normalised(cw, xs, ch, k);
}

/// In exact arithmetic a plane comes back when its transform is written to the beginning of
/// one buffer and the inverse of that to the beginning of another, whatever else the two
/// hold.
pub proof fn law_a_plane_comes_back<S: Scalar, V>(
    r: ExactReal<S, V>,
    src: Seq<S>,
    h: int,
    w: int,
    spectrum: Seq<S>,
    dst: Seq<S>,
)
    requires
        r.is_exact(),
        1 <= h,
        can_transform(h, w),
        src.len() == h * w,
        spectrum.len() >= 2 * h * kept(w),
        dst.len() >= h * w,
        rfft2_of(src, h, w, spectrum.take(2 * h * kept(w))),
        irfft2_of(spectrum, h, w, dst.take(h * w)),
    ensures
        forall|i: int| 0 <= i < h * w ==> r.num(#[trigger] dst[i]) == r.num(src[i]),
{
    let n = 2 * h * kept(w);
    assert(0 <= n) by (nonlinear_arith)
        requires
            n == 2 * h * kept(w),
            0 <= h,
            0 <= kept(w),
    ;
    assert(spectrum.take(n).take(n) =~= spectrum.take(n));
    assert(h * w == w * h) by (nonlinear_arith);
    law_only_the_spectrum_has_influence(spectrum, spectrum.take(n), h, w, dst.take(h * w));
    assert forall|i: int| 0 <= i < h * w implies r.num(#[trigger] dst[i]) == r.num(src[i]) by {
        lemma_place_of(w, h, i);
        law_real_transforms_undo_each_other(
            r,
            src,
            h,
            w,
            spectrum.take(n),
            dst.take(h * w),
            i / w,
            i % w,
        );
        assert(dst.take(h * w)[i] == dst[i]);
    }
}

proof fn lemma_inside(h: int, w: int, y: int, x: int)
    requires
        0 <= y < h,
        0 <= x < w,
    ensures
        0 <= y * w + x < h * w,
{
    assert(0 <= y * w && (y + 1) * w <= h * w && (y + 1) * w == y * w + w) by (nonlinear_arith)
        requires
            0 <= y < h,
            0 < w,
    ;
}

} // verus!
