//! Complex Fourier transforms of lines of any length.
//!
//! A line whose length is a power of two is transformed by radix-2 stages, any other one
//! as a convolution with a chirp, which again is a matter of powers of two.  Nothing is
//! normalised here.

use vstd::prelude::*;
use vstd::arithmetic::power2::{is_pow2, lemma_pow2_pos, lemma_pow2_strictly_increases, lemma_pow2_unfold, pow2};

use crate::bitrev::{bit_reverse, permuted};
use crate::fold::{folds, lemma_no_steps, lemma_step};
use crate::scalar::Wide;

verus! {

/// A complex number.
#[derive(Debug, Clone, Copy)]
pub struct Complex<W> {
    pub re: W,
    pub im: W,
}

/// `r` is `a * b - c * d`.
pub open spec fn cross_minus<W: Wide>(a: W, b: W, c: W, d: W, r: W) -> bool {
    exists|p: W, q: W|
        {
            &&& #[trigger] call_ensures(W::times, (a, b), p)
            &&& #[trigger] call_ensures(W::times, (c, d), q)
            &&& call_ensures(W::minus, (p, q), r)
        }
}

/// `r` is `a * b + c * d`.
pub open spec fn cross_plus<W: Wide>(a: W, b: W, c: W, d: W, r: W) -> bool {
    exists|p: W, q: W|
        {
            &&& #[trigger] call_ensures(W::times, (a, b), p)
            &&& #[trigger] call_ensures(W::times, (c, d), q)
            &&& call_ensures(W::plus, (p, q), r)
        }
}

/// `r` is the product of `a` and `b`.
pub open spec fn product<W: Wide>(a: Complex<W>, b: Complex<W>, r: Complex<W>) -> bool {
    &&& cross_minus(a.re, b.re, a.im, b.im, r.re)
    &&& cross_plus(a.re, b.im, a.im, b.re, r.im)
}

/// `r` is the product of `a` and the conjugate of `b`.
pub open spec fn conjugate_product<W: Wide>(a: Complex<W>, b: Complex<W>, r: Complex<W>) -> bool {
    &&& cross_plus(a.re, b.re, a.im, b.im, r.re)
    &&& cross_minus(a.im, b.re, a.re, b.im, r.im)
}

/// `r` is the sum of `a` and `b`.
pub open spec fn sum<W: Wide>(a: Complex<W>, b: Complex<W>, r: Complex<W>) -> bool {
    &&& call_ensures(W::plus, (a.re, b.re), r.re)
    &&& call_ensures(W::plus, (a.im, b.im), r.im)
}

/// `r` is the difference of `a` and `b`.
pub open spec fn difference<W: Wide>(a: Complex<W>, b: Complex<W>, r: Complex<W>) -> bool {
    &&& call_ensures(W::minus, (a.re, b.re), r.re)
    &&& call_ensures(W::minus, (a.im, b.im), r.im)
}

/// `r` is `a` times a real number.
pub open spec fn multiple<W: Wide>(a: Complex<W>, s: W, r: Complex<W>) -> bool {
    &&& call_ensures(W::times, (a.re, s), r.re)
    &&& call_ensures(W::times, (a.im, s), r.im)
}

/// `r` is zero.
pub open spec fn nothing<W: Wide>(r: Complex<W>) -> bool {
    call_ensures(W::zero, (), r.re) && call_ensures(W::zero, (), r.im)
}

/// `r` is one.
pub open spec fn unit<W: Wide>(r: Complex<W>) -> bool {
    call_ensures(W::one, (), r.re) && call_ensures(W::zero, (), r.im)
}

/// `r` is the point on the unit circle at the turn `a / b`, backward unless `inverse`.
pub open spec fn turned<W: Wide>(a: usize, b: usize, inverse: bool, r: Complex<W>) -> bool {
    &&& call_ensures(W::turn_cos, (a, b, inverse), r.re)
    &&& call_ensures(W::turn_sin, (a, b, inverse), r.im)
}

fn times<W: Wide>(a: Complex<W>, b: Complex<W>) -> (r: Complex<W>)
    ensures
        product(a, b, r),
{
    Complex {
        re: a.re.times(b.re).minus(a.im.times(b.im)),
        im: a.re.times(b.im).plus(a.im.times(b.re)),
    }
}

fn times_conjugate<W: Wide>(a: Complex<W>, b: Complex<W>) -> (r: Complex<W>)
    ensures
        conjugate_product(a, b, r),
{
    Complex {
        re: a.re.times(b.re).plus(a.im.times(b.im)),
        im: a.im.times(b.re).minus(a.re.times(b.im)),
    }
}

fn zero<W: Wide>() -> (r: Complex<W>)
    ensures
        nothing(r),
{
    Complex { re: W::zero(), im: W::zero() }
}

/// The powers of `w`, one after another.
pub open spec fn powers<W: Wide>(w: Complex<W>, c: Seq<Complex<W>>) -> bool {
    &&& c.len() > 0 ==> unit(c[0])
    &&& forall|k: int| 0 <= k < c.len() - 1 ==> #[trigger] power_step(w, c, k)
}

/// One power follows from the one before.
pub open spec fn power_step<W: Wide>(w: Complex<W>, c: Seq<Complex<W>>, k: int) -> bool {
    product(c[k], w, c[k + 1])
}

/// `a` and `b` are `u + x * c` and `u - x * c`.
pub open spec fn butterfly<W: Wide>(
    u: Complex<W>,
    x: Complex<W>,
    c: Complex<W>,
    a: Complex<W>,
    b: Complex<W>,
) -> bool {
    exists|v: Complex<W>| #[trigger] product(x, c, v) && sum(u, v, a) && difference(u, v, b)
}

/// The butterfly `k` of the block at `base`, with half of its length `half`.
pub open spec fn butterfly_at<W: Wide>(
    from: Seq<Complex<W>>,
    to: Seq<Complex<W>>,
    base: int,
    half: int,
    c: Seq<Complex<W>>,
    k: int,
) -> bool {
    butterfly(from[base + k], from[base + k + half], c[k], to[base + k], to[base + k + half])
}

/// `to` holds in the block at `base` the butterflies of `from`.
pub open spec fn block_of<W: Wide>(
    from: Seq<Complex<W>>,
    to: Seq<Complex<W>>,
    base: int,
    half: int,
    w: Complex<W>,
) -> bool {
    exists|c: Seq<Complex<W>>|
        {
            &&& c.len() == half
            &&& #[trigger] powers(w, c)
            &&& forall|k: int| 0 <= k < half ==> #[trigger] butterfly_at(from, to, base, half, c, k)
        }
}

/// `to` is `from` after the stage whose blocks have twice the length `half`.
pub open spec fn stage_of<W: Wide>(
    from: Seq<Complex<W>>,
    to: Seq<Complex<W>>,
    half: int,
    inverse: bool,
) -> bool {
    &&& to.len() == from.len()
    &&& exists|w: Complex<W>| #[trigger]
        turned(1, (2 * half) as usize, inverse, w) && blocks_of(from, to, half, w)
}

/// Every block of `to` holds the butterflies of `from`.
pub open spec fn blocks_of<W: Wide>(
    from: Seq<Complex<W>>,
    to: Seq<Complex<W>>,
    half: int,
    w: Complex<W>,
) -> bool {
    forall|b: int|
        0 <= b && (b + 1) * (2 * half) <= from.len() ==> #[trigger] block_of(
            from,
            to,
            b * (2 * half),
            half,
            w,
        )
}

/// The stages of a radix-2 transform: stage `t` joins blocks of `2^t` elements.
pub open spec fn stages<W: Wide>(inverse: bool) -> spec_fn(
    int,
    Seq<Complex<W>>,
    Seq<Complex<W>>,
) -> bool {
    |t: int, a: Seq<Complex<W>>, b: Seq<Complex<W>>| stage_of(a, b, pow2(t as nat) as int, inverse)
}

/// `out` is the transform of `2^k` samples: bit-reversed and then taken through `k`
/// stages.
pub open spec fn radix2_of<W: Wide>(
    a: Seq<Complex<W>>,
    k: nat,
    inverse: bool,
    out: Seq<Complex<W>>,
) -> bool {
    exists|first: Seq<Complex<W>>| #[trigger]
        permuted(a, k, first) && folds(first, stages::<W>(inverse), k, out)
}

/// One block of a stage.
fn block<W: Wide>(d: &mut Vec<Complex<W>>, base: usize, half: usize, w: Complex<W>)
    requires
        1 <= half,
        base + 2 * half <= old(d).len(),
    ensures
        final(d).len() == old(d).len(),
        block_of(old(d)@, final(d)@, base as int, half as int, w),
        forall|x: int|
            0 <= x < old(d)@.len() && !(base <= x < base + 2 * half) ==> #[trigger] final(d)@[x]
                == old(d)@[x],
{
    let ghost from = d@;
    let ghost mut c: Seq<Complex<W>> = Seq::empty();
    let mut cur: Complex<W> = Complex { re: W::one(), im: W::zero() };
    let mut k: usize = 0;
    proof {
        c = c.push(cur);
    }
    while k < half
        invariant
            1 <= half,
            base + 2 * half <= d.len(),
            d@.len() == from.len(),
            0 <= k <= half,
            c.len() == k + 1,
            c[k as int] == cur,
            powers(w, c),
            forall|i: int| 0 <= i < k ==> #[trigger] butterfly_at(
                from,
                d@,
                base as int,
                half as int,
                c,
                i,
            ),
            forall|x: int|
                0 <= x < from.len() && !(base <= x < base + k) && !(base + half <= x < base + half
                    + k) ==> #[trigger] d@[x] == from[x],
        decreases half - k,
    {
        let ghost mid = d@;
        let ghost c0 = c;
        let u: Complex<W> = d[base + k];
        let v: Complex<W> = times(d[base + k + half], cur);
        let a = Complex { re: u.re.plus(v.re), im: u.im.plus(v.im) };
        let b = Complex { re: u.re.minus(v.re), im: u.im.minus(v.im) };
        assert(butterfly(u, from[base + k + half], cur, a, b)) by {
            assert(product(from[base + k + half], cur, v));
        }
        d.set(base + k, a);
        d.set(base + k + half, b);
        cur = times(cur, w);
        proof {
            c = c.push(cur);
            assert forall|i: int| 0 <= i < c.len() - 1 implies #[trigger] power_step(w, c, i) by {
                if i < k {
                    assert(power_step(w, c0, i));
                }
            }
            assert forall|i: int| 0 <= i < k + 1 implies #[trigger] butterfly_at(
                from,
                d@,
                base as int,
                half as int,
                c,
                i,
            ) by {
                if i < k {
                    assert(butterfly_at(from, mid, base as int, half as int, c0, i));
                }
            }
        }
        k += 1;
    }
    proof {
        let used = c.drop_last();
        assert forall|i: int| 0 <= i < used.len() - 1 implies #[trigger] power_step(w, used, i) by {
            assert(power_step(w, c, i));
        }
        assert(powers(w, used));
        assert forall|i: int| 0 <= i < half implies #[trigger] butterfly_at(
            from,
            d@,
            base as int,
            half as int,
            used,
            i,
        ) by {
            assert(butterfly_at(from, d@, base as int, half as int, c, i));
        }
    }
}

/// One stage.
fn stage<W: Wide>(d: &mut Vec<Complex<W>>, half: usize, inverse: bool)
    requires
        1 <= half,
        2 * half <= usize::MAX,
    ensures
        stage_of(old(d)@, final(d)@, half as int, inverse),
{
    let len: usize = 2 * half;
    let w = Complex { re: W::turn_cos(1, len, inverse), im: W::turn_sin(1, len, inverse) };
    let ghost from = d@;
    let ghost mut b: int = 0;
    let mut base: usize = 0;
    while d.len() - base >= len
        invariant
            1 <= half,
            len == 2 * half,
            d@.len() == from.len(),
            0 <= b,
            base == b * len,
            base <= d.len(),
            forall|e: int| 0 <= e < b ==> #[trigger] block_of(
                from,
                d@,
                e * (2 * half),
                half as int,
                w,
            ),
            forall|x: int| base <= x < from.len() ==> #[trigger] d@[x] == from[x],
        decreases d.len() - base,
    {
        let ghost before = d@;
        block(d, base, half, w);
        proof {
            assert((b + 1) * len == b * len + len) by (nonlinear_arith);
            assert forall|e: int| 0 <= e < b + 1 implies #[trigger] block_of(
                from,
                d@,
                e * (2 * half),
                half as int,
                w,
            ) by {
                if e < b {
                    assert((e + 1) * len <= b * len) by (nonlinear_arith)
                        requires
                            e + 1 <= b,
                            0 <= len,
                    ;
                    assert((e + 1) * len == e * len + len) by (nonlinear_arith);
                    assert(0 <= e * len) by (nonlinear_arith)
                        requires
                            0 <= e,
                            0 <= len,
                    ;
                    lemma_block_elsewhere(from, from, before, d@, e * (2 * half), half as int, w);
                } else {
                    lemma_block_elsewhere(before, from, d@, d@, base as int, half as int, w);
                }
            }
            b = b + 1;
        }
        base = base + len;
    }
    proof {
        assert forall|e: int| 0 <= e && (e + 1) * (2 * half) <= from.len() implies #[trigger] block_of(
            from,
            d@,
            e * (2 * half),
            half as int,
            w,
        ) by {
            if e >= b {
                assert((e + 1) * len >= (b + 1) * len) by (nonlinear_arith)
                    requires
                        e >= b,
                        0 <= len,
                ;
                assert((b + 1) * len == b * len + len) by (nonlinear_arith);
            }
        }
        assert(turned(1, len, inverse, w));
        assert(blocks_of(from, d@, half as int, w));
    }
}

/// A block depends only on its own elements.
proof fn lemma_block_elsewhere<W: Wide>(
    from: Seq<Complex<W>>,
    from2: Seq<Complex<W>>,
    to: Seq<Complex<W>>,
    to2: Seq<Complex<W>>,
    base: int,
    half: int,
    w: Complex<W>,
)
    requires
        0 <= base,
        0 <= half,
        block_of(from, to, base, half, w),
        forall|x: int| base <= x < base + 2 * half ==> #[trigger] from2[x] == from[x],
        forall|x: int| base <= x < base + 2 * half ==> #[trigger] to2[x] == to[x],
    ensures
        block_of(from2, to2, base, half, w),
{
    let c = choose|c: Seq<Complex<W>>|
        {
            &&& c.len() == half
            &&& #[trigger] powers(w, c)
            &&& forall|k: int| 0 <= k < half ==> #[trigger] butterfly_at(from, to, base, half, c, k)
        };
    assert(powers(w, c));
    assert forall|k: int| 0 <= k < half implies #[trigger] butterfly_at(from2, to2, base, half, c, k) by {
        assert(butterfly_at(from, to, base, half, c, k));
        assert(from2[base + k] == from[base + k]);
        assert(from2[base + k + half] == from[base + k + half]);
        assert(to2[base + k] == to[base + k]);
        assert(to2[base + k + half] == to[base + k + half]);
    }
}

/// Iterative radix-2 transform of `2^k` samples.
fn fft_radix2<W: Wide>(d: &mut Vec<Complex<W>>, inverse: bool, Ghost(k): Ghost<nat>)
    requires
        old(d).len() == pow2(k),
        2 * old(d).len() <= usize::MAX,
    ensures
        final(d).len() == old(d).len(),
        radix2_of(old(d)@, k, inverse, final(d)@),
{
    let ghost a = d@;
    let n: usize = d.len();
    bit_reverse(d, Ghost(k));
    let ghost first = d@;
    let ghost step = stages::<W>(inverse);
    let ghost mut t: nat = 0;
    let mut half: usize = 1;
    proof {
        lemma_no_steps(first, step);
        vstd::arithmetic::power2::lemma2_to64();
        lemma_pow2_pos(k);
        if k > 0 {
            lemma_pow2_unfold(k);
        }
    }
    while half < n
        invariant
            n == pow2(k),
            2 * n <= usize::MAX,
            d@.len() == n,
            t <= k,
            half == pow2(t),
            1 <= half <= n,
            step == stages::<W>(inverse),
            folds(first, step, t, d@),
        decreases n - half,
    {
        let ghost before = d@;
        proof {
            if t == k {
                assert(false);
            }
            lemma_pow2_unfold(t + 1);
            if t + 1 < k {
                lemma_pow2_strictly_increases(t + 1, k);
            }
        }
        stage(d, half, inverse);
        proof {
            assert(step(t as int, before, d@));
            lemma_step(first, step, t, before, d@);
            t = t + 1;
        }
        half = 2 * half;
    }
    proof {
        if t < k {
            lemma_pow2_strictly_increases(t, k);
        }
    }
    assert(permuted(a, k, first) && folds(first, step, k, d@));
}

/// `2^k` is the least power of two that leaves room for a convolution of `n` samples.
pub open spec fn is_room(n: int, k: nat) -> bool {
    pow2(k) >= 2 * n - 1 && (k > 0 ==> pow2((k - 1) as nat) < 2 * n - 1)
}

/// The chirp for lines of `n` samples: at `j` the turn `j^2 / 2n`, where `j^2` is reduced
/// first so that large `j` lose no precision.
pub open spec fn chirp_of<W: Wide>(n: int, inverse: bool, w: Seq<Complex<W>>) -> bool {
    &&& w.len() == n
    &&& forall|j: int|
        0 <= j < n ==> turned((j * j % (2 * n)) as usize, (2 * n) as usize, !inverse, #[trigger] w[j])
}

/// The chirp wrapped around both ends of a longer line.
pub open spec fn wrapped<W: Wide>(w: Seq<Complex<W>>, m: int, b: Seq<Complex<W>>) -> bool {
    &&& b.len() == m
    &&& forall|j: int| 0 <= j < m ==> wrapped_at(w, m, j, #[trigger] b[j])
}

/// One element of the wrapped chirp.
pub open spec fn wrapped_at<W: Wide>(w: Seq<Complex<W>>, m: int, j: int, r: Complex<W>) -> bool {
    if j < w.len() {
        r == w[j]
    } else if m - j < w.len() {
        r == w[m - j]
    } else {
        nothing(r)
    }
}

/// The samples multiplied by the conjugate chirp, on a longer line.
pub open spec fn spread<W: Wide>(
    x: Seq<Complex<W>>,
    w: Seq<Complex<W>>,
    m: int,
    a: Seq<Complex<W>>,
) -> bool {
    &&& a.len() == m
    &&& forall|j: int|
        0 <= j < m ==> if j < x.len() {
            conjugate_product(x[j], w[j], #[trigger] a[j])
        } else {
            nothing(a[j])
        }
}

/// The products of two lines.
pub open spec fn products<W: Wide>(
    a: Seq<Complex<W>>,
    b: Seq<Complex<W>>,
    p: Seq<Complex<W>>,
) -> bool {
    &&& p.len() == a.len()
    &&& forall|j: int| 0 <= j < a.len() ==> product(a[j], b[j], #[trigger] p[j])
}

/// `r` is `a * s` times the conjugate of `w`.
pub open spec fn unchirped<W: Wide>(a: Complex<W>, s: W, w: Complex<W>, r: Complex<W>) -> bool {
    exists|v: Complex<W>| #[trigger] multiple(a, s, v) && conjugate_product(v, w, r)
}

/// The chirp for one length of line, and the spectrum of its wrapping.
pub struct Tables<W> {
    pub chirp: Vec<Complex<W>>,
    pub spectrum: Vec<Complex<W>>,
}

/// `t` holds the tables for lines of `n` samples.
pub open spec fn tables_of<W: Wide>(n: int, inverse: bool, k: nat, t: Tables<W>) -> bool {
    &&& is_room(n, k)
    &&& chirp_of(n, inverse, t.chirp@)
    &&& exists|b: Seq<Complex<W>>| #[trigger]
        wrapped(t.chirp@, pow2(k) as int, b) && radix2_of(b, k, false, t.spectrum@)
}

/// `t` is ready for lines of `n` samples.
pub open spec fn ready<W: Wide>(n: int, inverse: bool, t: Tables<W>) -> bool {
    &&& t.spectrum.len() < 4 * n
    &&& exists|k: nat| #[trigger] tables_of(n, inverse, k, t) && t.spectrum@.len() == pow2(k)
}

/// The lines that a transform by convolution goes through.
pub struct Course<W> {
    /// The samples times the conjugate chirp, and their spectrum.
    pub a: Seq<Complex<W>>,
    pub fa: Seq<Complex<W>>,
    /// The spectrum times that of the chirp, and what it is the spectrum of.
    pub p: Seq<Complex<W>>,
    pub fp: Seq<Complex<W>>,
    /// One over the length of the lines.
    pub s: W,
}

/// `c` leads from `x` to `out`.
pub open spec fn is_course<W: Wide>(
    x: Seq<Complex<W>>,
    k: nat,
    t: Tables<W>,
    c: Course<W>,
    out: Seq<Complex<W>>,
) -> bool {
    let m = pow2(k);
    &&& spread(x, t.chirp@, m as int, c.a)
    &&& radix2_of(c.a, k, false, c.fa)
    &&& products(c.fa, t.spectrum@, c.p)
    &&& radix2_of(c.p, k, true, c.fp)
    &&& call_ensures(W::reciprocal, (m as usize,), c.s)
    &&& out.len() == x.len()
    &&& forall|j: int|
        0 <= j < x.len() ==> unchirped(c.fp[j], c.s, t.chirp@[j], #[trigger] out[j])
}

/// `out` is the transform of `x` by Bluestein's algorithm: the convolution of the samples
/// and a chirp, done by powers of two.
pub open spec fn bluestein_of<W: Wide>(
    x: Seq<Complex<W>>,
    inverse: bool,
    out: Seq<Complex<W>>,
) -> bool {
    exists|k: nat, t: Tables<W>, c: Course<W>| #[trigger]
        tables_of(x.len() as int, inverse, k, t) && #[trigger] is_course(x, k, t, c, out)
}

/// `out` is the transform of `x`.
pub open spec fn fft_of<W: Wide>(x: Seq<Complex<W>>, inverse: bool, out: Seq<Complex<W>>) -> bool {
    if x.len() <= 1 {
        out == x
    } else if is_pow2(x.len() as int) {
        exists|k: nat| #[trigger] pow2(k) == x.len() && radix2_of(x, k, inverse, out)
    } else {
        bluestein_of(x, inverse, out)
    }
}

/// Whether a length is a power of two.
pub(crate) fn power_of_two(n: usize) -> (r: bool)
    ensures
        r == is_pow2(n as int),
{
    proof {
        reveal(is_pow2);
    }
    if n == 0 {
        return false;
    }
    let mut left: usize = n;
    while left % 2 == 0
        invariant
            left >= 1,
            is_pow2(left as int) == is_pow2(n as int),
        decreases left,
    {
        proof {
            reveal(is_pow2);
        }
        left = left / 2;
    }
    left == 1
}

/// The least power of two that leaves room for a convolution.
fn room(n: usize) -> (m: usize)
    requires
        1 <= n,
        8 * n <= usize::MAX,
    ensures
        exists|k: nat| m == pow2(k) && #[trigger] is_room(n as int, k),
        m < 4 * n,
{
    let mut m: usize = 1;
    let ghost mut k: nat = 0;
    proof {
        vstd::arithmetic::power2::lemma2_to64();
    }
    while m < 2 * n - 1
        invariant
            1 <= n,
            8 * n <= usize::MAX,
            m == pow2(k),
            k > 0 ==> pow2((k - 1) as nat) < 2 * n - 1,
            m < 4 * n,
        decreases 4 * n - m,
    {
        proof {
            lemma_pow2_unfold(k + 1);
            lemma_pow2_pos(k);
            k = k + 1;
        }
        m = 2 * m;
    }
    assert(is_room(n as int, k));
    m
}

/// The tables for lines of `n` samples.
fn bluestein_tables<W: Wide>(n: usize, inverse: bool) -> (t: Tables<W>)
    requires
        1 <= n,
        8 * n <= usize::MAX,
    ensures
        ready(n as int, inverse, t),
{
    let mut chirp: Vec<Complex<W>> = Vec::new();
    let mut j: usize = 0;
    while j < n
        invariant
            1 <= n,
            8 * n <= usize::MAX,
            j <= n,
            chirp@.len() == j,
            forall|i: int|
                0 <= i < j ==> turned(
                    (i * i % (2 * n)) as usize,
                    (2 * n) as usize,
                    !inverse,
                    #[trigger] chirp@[i],
                ),
        decreases n - j,
    {
        assert(j * j <= u64::MAX * u64::MAX) by (nonlinear_arith)
            requires
                0 <= j <= u64::MAX,
        ;
        let turn: usize = ((j as u128 * j as u128) % (2 * n as u128)) as usize;
        chirp.push(
            Complex {
                re: W::turn_cos(turn, 2 * n, !inverse),
                im: W::turn_sin(turn, 2 * n, !inverse),
            },
        );
        j += 1;
    }
    assert(chirp_of(n as int, inverse, chirp@));
    let m: usize = room(n);
    let ghost k = choose|k: nat| m == pow2(k) && #[trigger] is_room(n as int, k);
    let mut spectrum: Vec<Complex<W>> = Vec::new();
    let mut j: usize = 0;
    while j < m
        invariant
            chirp@.len() == n,
            n >= 1,
            j <= m,
            spectrum@.len() == j,
            forall|i: int| 0 <= i < j ==> wrapped_at(chirp@, m as int, i, #[trigger] spectrum@[i]),
        decreases m - j,
    {
        if j < n {
            spectrum.push(chirp[j]);
        } else if m - j < n {
            spectrum.push(chirp[m - j]);
        } else {
            spectrum.push(zero());
        }
        j += 1;
    }
    let ghost b = spectrum@;
    assert(wrapped(chirp@, m as int, b));
    fft_radix2(&mut spectrum, false, Ghost(k));
    let t = Tables { chirp, spectrum };
    assert(wrapped(t.chirp@, pow2(k) as int, b) && radix2_of(b, k, false, t.spectrum@));
    assert(tables_of(n as int, inverse, k, t));
    t
}

/// Transform a line by Bluestein's algorithm.
fn fft_bluestein<W: Wide>(d: &mut Vec<Complex<W>>, t: &Tables<W>, inverse: bool)
    requires
        ready(old(d)@.len() as int, inverse, *t),
        1 <= old(d).len(),
        8 * old(d).len() <= usize::MAX,
    ensures
        final(d).len() == old(d).len(),
        bluestein_of(old(d)@, inverse, final(d)@),
{
    let ghost x = d@;
    let ghost k = choose|k: nat| #[trigger]
        tables_of(x.len() as int, inverse, k, *t) && t.spectrum@.len() == pow2(k);
    let n: usize = d.len();
    let m: usize = t.spectrum.len();
    let mut a: Vec<Complex<W>> = Vec::new();
    let mut j: usize = 0;
    while j < m
        invariant
            n == x.len(),
            d@ == x,
            t.chirp@.len() == n,
            j <= m,
            a@.len() == j,
            forall|i: int|
                0 <= i < j ==> if i < n {
                    conjugate_product(x[i], t.chirp@[i], #[trigger] a@[i])
                } else {
                    nothing(a@[i])
                },
        decreases m - j,
    {
        if j < n {
            a.push(times_conjugate(d[j], t.chirp[j]));
        } else {
            a.push(zero());
        }
        j += 1;
    }
    let ghost a0 = a@;
    fft_radix2(&mut a, false, Ghost(k));
    let ghost fa = a@;
    let mut j: usize = 0;
    while j < m
        invariant
            m == t.spectrum@.len(),
            fa.len() == m,
            j <= m,
            a@.len() == m,
            forall|i: int| 0 <= i < j ==> product(fa[i], t.spectrum@[i], #[trigger] a@[i]),
            forall|i: int| j <= i < m ==> #[trigger] a@[i] == fa[i],
        decreases m - j,
    {
        let v: Complex<W> = times(a[j], t.spectrum[j]);
        a.set(j, v);
        j += 1;
    }
    let ghost p = a@;
    fft_radix2(&mut a, true, Ghost(k));
    let s: W = W::reciprocal(m);
    let mut j: usize = 0;
    while j < n
        invariant
            n <= m,
            m == a@.len(),
            t.chirp@.len() == n,
            j <= n,
            d@.len() == n,
            forall|i: int| 0 <= i < j ==> unchirped(a@[i], s, t.chirp@[i], #[trigger] d@[i]),
        decreases n - j,
    {
        let v = Complex { re: a[j].re.times(s), im: a[j].im.times(s) };
        let r: Complex<W> = times_conjugate(v, t.chirp[j]);
        assert(multiple(a@[j as int], s, v));
        d.set(j, r);
        j += 1;
    }
    proof {
        let c = Course { a: a0, fa, p, fp: a@, s };
        assert(is_course(x, k, *t, c, d@));
    }
}

/// How lines of one length are transformed.
pub struct Lines<W> {
    pub n: usize,
    pub inverse: bool,
    /// The tables for a length that is not a power of two.
    pub tables: Option<Tables<W>>,
}

impl<W: Wide> Lines<W> {
    /// The tables are there where they are needed.
    pub open spec fn wf(&self) -> bool {
        &&& 8 * self.n <= usize::MAX
        &&& self.n > 1 && !is_pow2(self.n as int) ==> {
            &&& self.tables is Some
            &&& ready(self.n as int, self.inverse, self.tables.unwrap())
        }
    }

    /// Prepare for lines of `n` samples.
    pub fn new(n: usize, inverse: bool) -> (l: Self)
        requires
            8 * n <= usize::MAX,
        ensures
            l.wf(),
            l.n == n,
            l.inverse == inverse,
    {
        let tables: Option<Tables<W>> = if n > 1 && !power_of_two(n) {
            Some(bluestein_tables(n, inverse))
        } else {
            None
        };
        Lines { n, inverse, tables }
    }

    /// Complex transform of a line of any length: radix-2 where the length is a power of
    /// two, Bluestein's chirp otherwise.
    pub fn fft(&self, d: &mut Vec<Complex<W>>)
        requires
            self.wf(),
            old(d).len() == self.n,
        ensures
            final(d).len() == old(d).len(),
            fft_of(old(d)@, self.inverse, final(d)@),
    {
        if self.n <= 1 {
            return;
        }
        if power_of_two(self.n) {
            proof {
                vstd::arithmetic::power2::is_pow2_equiv(self.n as int);
            }
            let ghost i = choose|i: nat| vstd::arithmetic::power::pow(2, i) == self.n;
            assert(pow2(i) == self.n);
            fft_radix2(d, self.inverse, Ghost(i));
        } else {
            match &self.tables {
                Some(t) => fft_bluestein(d, t, self.inverse),
                None => {},
            }
        }
    }
}

} // verus!
