//! What the transforms of lines of any length mean, in exact arithmetic.

use vstd::prelude::*;
use vstd::arithmetic::div_mod::{lemma_fundamental_div_mod, lemma_fundamental_div_mod_converse};
use vstd::arithmetic::power2::{lemma_pow2_pos, pow2};

use crate::dft::{dft, lemma_radix2, term};
use crate::exact::{sign, Exact};
use crate::fft::{chirp_of, conjugate_product, fft_of, is_course, multiple, radix2_of, spread, tables_of, turned, unchirped, wrapped, wrapped_at, Complex, Course, Tables};
use crate::scalar::Wide;

verus! {

/// Turning every frequency back by `d` and adding up leads back to the sample at `d`.
pub(crate) proof fn lemma_inversion<W: Wide, V>(
    e: Exact<W, V>,
    b: Seq<Complex<W>>,
    inverse: bool,
    f: spec_fn(int) -> V,
    d: int,
)
    requires
        e.is_exact(),
        b.len() > 0,
        forall|q: int| 0 <= q < b.len() ==> #[trigger] f(q) == dft(e, b, inverse, q),
    ensures
        e.total(|q: int| e.mul(f(q), e.at(-sign(inverse) * q * d, b.len() as int)), b.len())
            == e.mul(e.count(b.len()), e.val(b[d % b.len() as int])),
{
    let n = b.len();
    let m = n as int;
    let s = sign(inverse);
    let z = |q: int| e.at(-s * q * d, m);
    let left = |q: int| e.mul(f(q), z(q));
    let g = |q: int, l: int| e.mul(term(e, b[l], s, q, l, m), z(q));
    let rows = |q: int| e.total(|l: int| g(q, l), n);
    assert forall|q: int| 0 <= q < n implies #[trigger] left(q) == rows(q) by {
        let t = |l: int| term(e, b[l], s, q, l, m);
        assert(f(q) == e.total(t, n));
        e.lemma_total_times(t, z(q), n);
        e.lemma_total_same(|l: int| e.mul(t(l), z(q)), |l: int| g(q, l), n);
    }
    e.lemma_total_same(left, rows, n);
    e.lemma_total_swap(g, n, n);
    let columns = |l: int| e.total(|q: int| g(q, l), n);
    let at = d % m;
    assert forall|l: int| 0 <= l < n implies #[trigger] columns(l) == if l == at {
        e.mul(e.count(n), e.val(b[l]))
    } else {
        e.zero
    } by {
        lemma_column(e, b, s, d, l);
        e.lemma_total_same(
            |q: int| g(q, l),
            |q: int| e.mul(term(e, b[l], s, q, l, m), e.at(-s * q * d, m)),
            n,
        );
    }
    e.lemma_total_single(columns, n, at);
    e.lemma_total_same(|q: int| e.mul(f(q), e.at(-s * q * d, m)), left, n);
}

/// What sample `l` contributes to the sum over all frequencies.
proof fn lemma_column<W: Wide, V>(e: Exact<W, V>, b: Seq<Complex<W>>, s: int, d: int, l: int)
    requires
        e.is_exact(),
        s == 1 || s == -1,
        0 <= l < b.len(),
    ensures
        e.total(
            |q: int|
                e.mul(term(e, b[l], s, q, l, b.len() as int), e.at(-s * q * d, b.len() as int)),
            b.len(),
        ) == if l == d % b.len() as int {
            e.mul(e.count(b.len()), e.val(b[l]))
        } else {
            e.zero
        },
{
    let n = b.len();
    let m = n as int;
    let x = e.val(b[l]);
    let r = s * (l - d);
    let f = |q: int| e.mul(term(e, b[l], s, q, l, m), e.at(-s * q * d, m));
    let h = |q: int| e.at(q * r, m);
    let hx = |q: int| e.mul(h(q), x);
    assert forall|q: int| 0 <= q < n implies #[trigger] f(q) == hx(q) by {
        let a = e.at(s * q * l, m);
        let c = e.at(-s * q * d, m);
        e.lemma_ring(x, a, c);
        e.lemma_turns(s * q * l, -s * q * d, m);
        assert(s * q * l + -s * q * d == q * r) by (nonlinear_arith)
            requires
                r == s * (l - d),
        ;
        e.lemma_ring(x, h(q), h(q));
    }
    e.lemma_total_same(f, hx, n);
    e.lemma_total_times(h, x, n);
    e.lemma_circle(r, m);
    e.lemma_total_same(|q: int| e.at(q * r, m), h, n);
    e.lemma_total_same(|q: int| e.mul(h(q), x), hx, n);
    e.lemma_zero(x);
    assert((r % m == 0) == (l == d % m)) by {
        lemma_same_place(s, l, d, m);
    }
}

proof fn lemma_same_place(s: int, l: int, d: int, m: int)
    requires
        s == 1 || s == -1,
        0 <= l < m,
    ensures
        ((s * (l - d)) % m == 0) == (l == d % m),
{
    let r = s * (l - d);
    let k = d / m;
    lemma_fundamental_div_mod(d, m);
    if l == d % m {
        assert(r == (-s * k) * m + 0) by (nonlinear_arith)
            requires
                r == s * (l - d),
                d == m * k + l,
        ;
        lemma_fundamental_div_mod_converse(r, m, -s * k, 0);
    } else if r % m == 0 {
        let c = r / m;
        lemma_fundamental_div_mod(r, m);
        assert(d == (-s * c) * m + l) by (nonlinear_arith)
            requires
                r == m * c,
                r == s * (l - d),
                s == 1 || s == -1,
        ;
        lemma_fundamental_div_mod_converse(d, m, -s * c, l);
    }
}

/// What sample `j` contributes to the product of two spectra, turned back by `i`.
proof fn lemma_convolved_term<W: Wide, V>(
    e: Exact<W, V>,
    b: Seq<Complex<W>>,
    fb: spec_fn(int) -> V,
    a: Complex<W>,
    i: int,
    j: int,
)
    requires
        e.is_exact(),
        b.len() > 0,
        forall|q: int| 0 <= q < b.len() ==> #[trigger] fb(q) == dft(e, b, false, q),
    ensures
        e.total(
            |q: int|
                e.mul(
                    term(e, a, -1, q, j, b.len() as int),
                    e.mul(fb(q), e.at(1 * i * q, b.len() as int)),
                ),
            b.len(),
        ) == e.mul(e.mul(e.count(b.len()), e.val(b[(i - j) % b.len() as int])), e.val(a)),
{
    let n = b.len();
    let m = n as int;
    let x = e.val(a);
    let d = i - j;
    let f = |q: int| e.mul(term(e, a, -1, q, j, m), e.mul(fb(q), e.at(1 * i * q, m)));
    let h = |q: int| e.mul(fb(q), e.at(-sign(false) * q * d, m));
    let hx = |q: int| e.mul(h(q), x);
    assert forall|q: int| 0 <= q < n implies #[trigger] f(q) == hx(q) by {
        let u = e.at(-1 * q * j, m);
        let v = e.at(1 * i * q, m);
        let y = fb(q);
        // (x u) (y v) = x (u (y v)) = x (y (u v))
        e.lemma_ring(x, u, e.mul(y, v));
        e.lemma_ring(u, y, v);
        e.lemma_ring(y, u, v);
        e.lemma_turns(-1 * q * j, 1 * i * q, m);
        assert(-1 * q * j + 1 * i * q == 1 * q * d) by (nonlinear_arith)
            requires
                d == i - j,
        ;
        e.lemma_ring(x, h(q), h(q));
        assert(e.mul(u, e.mul(y, v)) == e.mul(y, e.mul(u, v)));
    }
    e.lemma_total_same(f, hx, n);
    e.lemma_total_times(h, x, n);
    e.lemma_total_same(|q: int| e.mul(h(q), x), hx, n);
    lemma_inversion(e, b, false, fb, d);
    e.lemma_total_same(|q: int| e.mul(fb(q), e.at(-sign(false) * q * d, m)), h, n);
}

/// The product of two spectra is the spectrum of the convolution.
proof fn lemma_convolution<W: Wide, V>(
    e: Exact<W, V>,
    a: Seq<Complex<W>>,
    b: Seq<Complex<W>>,
    p: Seq<Complex<W>>,
    fb: spec_fn(int) -> V,
    i: int,
)
    requires
        e.is_exact(),
        b.len() > 0,
        a.len() == b.len(),
        p.len() == b.len(),
        forall|q: int| 0 <= q < b.len() ==> #[trigger] fb(q) == dft(e, b, false, q),
        forall|q: int|
            0 <= q < b.len() ==> e.val(#[trigger] p[q]) == e.mul(dft(e, a, false, q), fb(q)),
    ensures
        dft(e, p, true, i) == e.total(
            |j: int|
                e.mul(e.mul(e.count(b.len()), e.val(b[(i - j) % b.len() as int])), e.val(a[j])),
            b.len(),
        ),
{
    let n = b.len();
    let m = n as int;
    let z = |q: int| e.mul(fb(q), e.at(1 * i * q, m));
    let g = |q: int, j: int| e.mul(term(e, a[j], -1, q, j, m), z(q));
    let rows = |q: int| e.total(|j: int| g(q, j), n);
    let left = |q: int| term(e, p[q], 1, i, q, m);
    assert forall|q: int| 0 <= q < n implies #[trigger] left(q) == rows(q) by {
        let t = |j: int| term(e, a[j], -1, q, j, m);
        assert(dft(e, a, false, q) == e.total(t, n)) by {
            e.lemma_total_same(|j: int| term(e, a[j], sign(false), q, j, a.len() as int), t, n);
        }
        assert(e.val(p[q]) == e.mul(e.total(t, n), fb(q)));
        e.lemma_ring(e.total(t, n), fb(q), e.at(1 * i * q, m));
        e.lemma_total_times(t, z(q), n);
        e.lemma_total_same(|j: int| e.mul(t(j), z(q)), |j: int| g(q, j), n);
    }
    e.lemma_total_same(left, rows, n);
    e.lemma_total_swap(g, n, n);
    let columns = |j: int| e.total(|q: int| g(q, j), n);
    let right = |j: int|
        e.mul(e.mul(e.count(n), e.val(b[(i - j) % m])), e.val(a[j]));
    assert forall|j: int| 0 <= j < n implies #[trigger] columns(j) == right(j) by {
        lemma_convolved_term(e, b, fb, a[j], i, j);
        e.lemma_total_same(
            |q: int| g(q, j),
            |q: int| e.mul(term(e, a[j], -1, q, j, m), e.mul(fb(q), e.at(1 * i * q, m))),
            n,
        );
    }
    e.lemma_total_same(columns, right, n);
    assert(dft(e, p, true, i) == e.total(left, n)) by {
        e.lemma_total_same(|q: int| term(e, p[q], sign(true), i, q, p.len() as int), left, n);
    }
    e.lemma_total_same(
        |j: int| e.mul(e.mul(e.count(n), e.val(b[(i - j) % m])), e.val(a[j])),
        right,
        n,
    );
}

/// `((c b) a) (r k)` is `a (b k)` where `c r` is one.
proof fn lemma_cancel<W: Wide, V>(e: Exact<W, V>, c: V, b: V, a: V, r: V, k: V)
    requires
        e.is_exact(),
        e.mul(c, r) == e.one,
    ensures
        e.mul(e.mul(e.mul(c, b), a), e.mul(r, k)) == e.mul(a, e.mul(b, k)),
{
    let ba = e.mul(b, a);
    e.lemma_ring(c, b, a);
    e.lemma_ring(c, ba, e.mul(r, k));
    e.lemma_ring(ba, r, k);
    e.lemma_ring(ba, r, r);
    e.lemma_ring(r, ba, k);
    e.lemma_ring(c, r, e.mul(ba, k));
    e.lemma_ring(e.one, e.mul(ba, k), k);
    e.lemma_ring(e.mul(ba, k), e.one, e.one);
    e.lemma_ring(b, a, k);
    e.lemma_ring(a, b, k);
    assert(e.mul(ba, e.mul(r, k)) == e.mul(r, e.mul(ba, k)));
    assert(e.mul(c, e.mul(r, e.mul(ba, k))) == e.mul(ba, k));
    assert(ba == e.mul(a, b));
}

/// The chirp at `j` is the turn `j^2 / 2n`.
proof fn lemma_chirp<W: Wide, V>(e: Exact<W, V>, n: int, inverse: bool, w: Seq<Complex<W>>, j: int)
    requires
        e.is_exact(),
        chirp_of(n, inverse, w),
        0 <= j < n,
        8 * n <= usize::MAX,
    ensures
        e.val(w[j]) == e.at(sign(!inverse) * (j * j), 2 * n),
{
    let s = sign(!inverse);
    let r = j * j % (2 * n);
    let k = j * j / (2 * n);
    lemma_fundamental_div_mod(j * j, 2 * n);
    assert(0 <= r < 2 * n);
    assert(turned(r as usize, (2 * n) as usize, !inverse, w[j]));
    assert(e.val(w[j]) == e.at(s * r, 2 * n)) by {
        reveal(Exact::computes);
    }
    assert(s * r + (s * k) * (2 * n) == s * (j * j)) by (nonlinear_arith)
        requires
            j * j == (2 * n) * k + r,
    ;
    e.lemma_reduced_turn(s * r, s * k, 2 * n);
}

/// A conjugate turns back.
proof fn lemma_conjugate<W: Wide, V>(
    e: Exact<W, V>,
    a: Complex<W>,
    w: Complex<W>,
    r: Complex<W>,
    c: int,
    d: int,
)
    requires
        e.is_exact(),
        conjugate_product(a, w, r),
        d > 0,
        e.val(w) == e.at(c, d),
    ensures
        e.val(r) == e.mul(e.val(a), e.at(-c, d)),
{
    reveal(Exact::computes);
}

/// The turns of the three chirps add up to that of the transform.
proof fn lemma_three_chirps<W: Wide, V>(e: Exact<W, V>, x: V, inverse: bool, i: int, j: int, n: int)
    requires
        e.is_exact(),
        n > 0,
    ensures
        ({
            let s = sign(!inverse);
            e.mul(
                e.mul(x, e.at(-(s * (j * j)), 2 * n)),
                e.mul(
                    e.at(s * ((i - j) * (i - j)), 2 * n),
                    e.at(-(s * (i * i)), 2 * n),
                ),
            ) == e.mul(x, e.at(sign(inverse) * i * j, n))
        }),
{
    let s = sign(!inverse);
    let m = 2 * n;
    let a = -(s * (j * j));
    let b = s * ((i - j) * (i - j));
    let c = -(s * (i * i));
    e.lemma_turns(b, c, m);
    e.lemma_turns(a, b + c, m);
    e.lemma_ring(x, e.at(a, m), e.at(b + c, m));
    e.lemma_expand(2, sign(inverse) * i * j, n);
    let t = sign(inverse);
    assert(t == -s);
    assert(a + (b + c) == 2 * (t * i * j)) by (nonlinear_arith)
        requires
            a == -(s * (j * j)),
            b == s * ((i - j) * (i - j)),
            c == -(s * (i * i)),
            t == -s,
    ;
}

/// What sample `j` contributes to the transform at `i` by way of the chirps.
proof fn lemma_contribution<W: Wide, V>(
    e: Exact<W, V>,
    x: Seq<Complex<W>>,
    inverse: bool,
    w: Seq<Complex<W>>,
    m: int,
    a: Seq<Complex<W>>,
    b: Seq<Complex<W>>,
    i: int,
    j: int,
)
    requires
        e.is_exact(),
        chirp_of(x.len() as int, inverse, w),
        8 * x.len() <= usize::MAX,
        wrapped(w, m, b),
        spread(x, w, m, a),
        m >= 2 * x.len() - 1,
        0 <= i < x.len(),
        0 <= j < m,
    ensures
        e.mul(
            e.val(a[j]),
            e.mul(
                e.val(b[(i - j) % m]),
                e.at(-(sign(!inverse) * (i * i)), 2 * x.len() as int),
            ),
        ) == if j < x.len() {
            term(e, x[j], sign(inverse), i, j, x.len() as int)
        } else {
            e.zero
        },
{
    let n = x.len() as int;
    let s = sign(!inverse);
    let k = e.at(-(s * (i * i)), 2 * n);
    let d = (i - j) % m;
    assert(a[j] == a[j]);
    if j < n {
        lemma_chirp(e, n, inverse, w, j);
        assert(conjugate_product(x[j], w[j], a[j]));
        lemma_conjugate(e, x[j], w[j], a[j], s * (j * j), 2 * n);
        if i >= j {
            lemma_fundamental_div_mod_converse(i - j, m, 0, i - j);
            lemma_chirp(e, n, inverse, w, i - j);
            assert(wrapped_at(w, m, d, b[d]));
        } else {
            lemma_fundamental_div_mod_converse(i - j, m, -1, m + i - j);
            lemma_chirp(e, n, inverse, w, j - i);
            assert(wrapped_at(w, m, d, b[d]));
            assert((j - i) * (j - i) == (i - j) * (i - j)) by (nonlinear_arith);
        }
        assert(e.val(b[d]) == e.at(s * ((i - j) * (i - j)), 2 * n));
        lemma_three_chirps(e, e.val(x[j]), inverse, i, j, n);
    } else {
        assert(e.val(a[j]) == e.zero) by {
            reveal(Exact::computes);
        }
        e.lemma_zero(e.mul(e.val(b[d]), k));
    }
}

/// A transform by convolution is the discrete Fourier transform.
proof fn lemma_course<W: Wide, V>(
    e: Exact<W, V>,
    x: Seq<Complex<W>>,
    inverse: bool,
    k: nat,
    t: Tables<W>,
    c: Course<W>,
    out: Seq<Complex<W>>,
    i: int,
)
    requires
        e.is_exact(),
        tables_of(x.len() as int, inverse, k, t),
        is_course(x, k, t, c, out),
        8 * x.len() <= usize::MAX,
        0 <= i < x.len(),
    ensures
        e.val(out[i]) == dft(e, x, inverse, i),
{
    let n = x.len() as int;
    let size = pow2(k);
    let m = size as int;
    lemma_pow2_pos(k);
    assert(m < 4 * n) by {
        if k > 0 {
            vstd::arithmetic::power2::lemma_pow2_unfold(k);
        } else {
            vstd::arithmetic::power2::lemma2_to64();
        }
    }
    let w = t.chirp@;
    let b = choose|b: Seq<Complex<W>>| #[trigger]
        wrapped(t.chirp@, pow2(k) as int, b) && radix2_of(b, k, false, t.spectrum@);
    let fb = |q: int| e.val(t.spectrum@[q]);
    assert forall|q: int| 0 <= q < m implies #[trigger] fb(q) == dft(e, b, false, q) by {
        lemma_radix2(e, b, k, false, t.spectrum@, q);
    }
    lemma_radix2(e, c.a, k, false, c.fa, 0);
    assert forall|q: int| 0 <= q < m implies e.val(#[trigger] c.p[q]) == e.mul(
        dft(e, c.a, false, q),
        fb(q),
    ) by {
        lemma_radix2(e, c.a, k, false, c.fa, q);
        reveal(Exact::computes);
    }
    lemma_radix2(e, c.p, k, true, c.fp, i);
    lemma_convolution(e, c.a, b, c.p, fb, i);
    // Scaled down and turned back.
    let cn = e.count(size);
    let r = (e.amount)(c.s);
    let turn = e.at(-(sign(!inverse) * (i * i)), 2 * n);
    let rk = e.mul(r, turn);
    assert(e.mul(cn, r) == e.one) by {
        reveal(Exact::computes);
    }
    assert(unchirped(c.fp[i], c.s, w[i], out[i]));
    let v = choose|v: Complex<W>| #[trigger] multiple(c.fp[i], c.s, v) && conjugate_product(
        v,
        w[i],
        out[i],
    );
    lemma_chirp(e, n, inverse, w, i);
    lemma_conjugate(e, v, w[i], out[i], sign(!inverse) * (i * i), 2 * n);
    assert(e.val(v) == e.mul(e.val(c.fp[i]), r)) by {
        reveal(Exact::computes);
    }
    e.lemma_ring(e.val(c.fp[i]), r, turn);
    let f = |j: int| e.mul(e.mul(cn, e.val(b[(i - j) % m])), e.val(c.a[j]));
    assert(e.val(c.fp[i]) == e.total(f, size)) by {
        e.lemma_total_same(
            |j: int|
                e.mul(
                    e.mul(e.count(b.len()), e.val(b[(i - j) % b.len() as int])),
                    e.val(c.a[j]),
                ),
            f,
            size,
        );
    }
    e.lemma_total_times(f, rk, size);
    let g = |j: int|
        if j < n {
            term(e, x[j], sign(inverse), i, j, n)
        } else {
            e.zero
        };
    let frk = |j: int| e.mul(f(j), rk);
    assert forall|j: int| 0 <= j < m implies #[trigger] frk(j) == g(j) by {
        lemma_cancel(e, cn, e.val(b[(i - j) % m]), e.val(c.a[j]), r, turn);
        lemma_contribution(e, x, inverse, w, m, c.a, b, i, j);
    }
    e.lemma_total_same(|j: int| e.mul(f(j), rk), frk, size);
    e.lemma_total_same(frk, g, size);
    // Nothing is added beyond the samples.
    let rest = (m - n) as nat;
    e.lemma_total_halves(g, n as nat, rest);
    let tail = |j: int| g(n + j);
    e.lemma_total_zero(tail, rest);
    e.lemma_total_same(|j: int| g(n as nat + j), tail, rest);
    e.lemma_ring(e.total(g, n as nat), e.zero, e.zero);
    e.lemma_total_same(
        |j: int| term(e, x[j], sign(inverse), i, j, x.len() as int),
        g,
        n as nat,
    );
}

/// In exact arithmetic the transform of a line of any length is the discrete Fourier
/// transform: at the frequency `i` the sum of the samples, the sample at `j` turned by
/// `i * j / n`, backward unless the transform is the inverse one.
pub proof fn law_transform_is_the_dft<W: Wide, V>(
    e: Exact<W, V>,
    x: Seq<Complex<W>>,
    inverse: bool,
    out: Seq<Complex<W>>,
    i: int,
)
    requires
        e.is_exact(),
        fft_of(x, inverse, out),
        8 * x.len() <= usize::MAX,
        0 <= i < x.len(),
    ensures
        out.len() == x.len(),
        e.val(out[i]) == dft(e, x, inverse, i),
{
    if x.len() <= 1 {
        let f = |j: int| term(e, x[j], sign(inverse), i, j, 1);
        assert(dft(e, x, inverse, i) == e.total(f, 1)) by {
            e.lemma_total_same(
                |j: int| term(e, x[j], sign(inverse), i, j, x.len() as int),
                f,
                1,
            );
        }
        assert(e.total(f, 1) == e.add(e.total(f, 0), f(0)));
        e.lemma_zero(f(0));
        assert(sign(inverse) * 0 * 0 == 0) by (nonlinear_arith);
        e.lemma_turns(0, 0, 1);
        e.lemma_ring(e.val(x[0]), e.one, e.one);
    } else if vstd::arithmetic::power2::is_pow2(x.len() as int) {
        let k = choose|k: nat| #[trigger] pow2(k) == x.len() && radix2_of(x, k, inverse, out);
        lemma_radix2(e, x, k, inverse, out, i);
    } else {
        let (k, t, c) = choose|k: nat, t: Tables<W>, c: Course<W>| #[trigger]
            tables_of(x.len() as int, inverse, k, t) && #[trigger] is_course(x, k, t, c, out);
        lemma_course(e, x, inverse, k, t, c, out, i);
    }
}

/// In exact arithmetic a transform and one in the other direction lead back to the
/// samples, times their number.
pub proof fn law_transforms_undo_each_other<W: Wide, V>(
    e: Exact<W, V>,
    x: Seq<Complex<W>>,
    inverse: bool,
    y: Seq<Complex<W>>,
    z: Seq<Complex<W>>,
    i: int,
)
    requires
        e.is_exact(),
        fft_of(x, inverse, y),
        fft_of(y, !inverse, z),
        8 * x.len() <= usize::MAX,
        0 <= i < x.len(),
    ensures
        z.len() == x.len(),
        e.val(z[i]) == e.mul(e.count(x.len()), e.val(x[i])),
{
    let n = x.len();
    let m = n as int;
    law_transform_is_the_dft(e, x, inverse, y, 0);
    law_transform_is_the_dft(e, y, !inverse, z, i);
    let f = |q: int| e.val(y[q]);
    assert forall|q: int| 0 <= q < n implies #[trigger] f(q) == dft(e, x, inverse, q) by {
        law_transform_is_the_dft(e, x, inverse, y, q);
    }
    lemma_inversion(e, x, inverse, f, i);
    lemma_fundamental_div_mod_converse(i, m, 0, i);
    let s = sign(!inverse);
    let g = |q: int| term(e, y[q], s, i, q, m);
    let h = |q: int| e.mul(f(q), e.at(-sign(inverse) * q * i, m));
    assert forall|q: int| 0 <= q < n implies #[trigger] g(q) == h(q) by {
        assert(s * i * q == -sign(inverse) * q * i) by (nonlinear_arith)
            requires
                s == -sign(inverse),
        ;
    }
    e.lemma_total_same(g, h, n);
    e.lemma_total_same(|q: int| term(e, y[q], s, i, q, y.len() as int), g, n);
    e.lemma_total_same(|q: int| e.mul(f(q), e.at(-sign(inverse) * q * i, m)), h, n);
}

} // verus!
