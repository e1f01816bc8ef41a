//! What the transforms mean: in exact arithmetic they are the discrete Fourier transform,
//! for lines of every length.

use vstd::prelude::*;
use vstd::arithmetic::power2::{lemma_pow2_pos, lemma_pow2_unfold, pow2};

use crate::bitrev::{lemma_reversed_bound, lemma_reversed_twice, permuted, reversed};
use crate::exact::{sign, Exact};
use crate::fft::{block_of, blocks_of, butterfly, butterfly_at, power_step, powers, product, radix2_of, stage_of, stages, sum, turned, Complex};
use crate::fold::{folds, goes, is_trace};
use crate::scalar::Wide;

verus! {

/// The term of sample `j` in the transform at the frequency `i` of a line of `n` samples.
pub open spec fn term<W: Wide, V>(
    e: Exact<W, V>,
    x: Complex<W>,
    direction: int,
    i: int,
    j: int,
    n: int,
) -> V {
    e.mul(e.val(x), e.at(direction * i * j, n))
}

/// The discrete Fourier transform of a line at the frequency `i`: the sum of its samples,
/// each turned by `i * j / n`.
pub open spec fn dft<W: Wide, V>(e: Exact<W, V>, x: Seq<Complex<W>>, inverse: bool, i: int) -> V {
    e.total(|j: int| term(e, x[j], sign(inverse), i, j, x.len() as int), x.len())
}

/// The transform of the samples that block `base` of `2^t` elements is made of.
spec fn part<W: Wide, V>(
    e: Exact<W, V>,
    first: Seq<Complex<W>>,
    base: int,
    t: nat,
    direction: int,
    p: int,
) -> V {
    e.total(
        |j: int| term(e, first[base + reversed(j, t)], direction, p, j, pow2(t) as int),
        pow2(t),
    )
}

/// The powers of the first turn are the turns.
proof fn lemma_powers<W: Wide, V>(
    e: Exact<W, V>,
    w: Complex<W>,
    c: Seq<Complex<W>>,
    direction: int,
    n: int,
    k: int,
)
    requires
        e.is_exact(),
        n > 0,
        e.val(w) == e.at(direction, n),
        powers(w, c),
        0 <= k < c.len(),
    ensures
        e.val(c[k]) == e.at(direction * k, n),
    decreases k,
{
    if k == 0 {
        assert(e.val(c[0]) == e.one) by {
            reveal(Exact::computes);
        }
        e.lemma_turns(0, 0, n);
        assert(direction * 0 == 0);
    } else {
        lemma_powers(e, w, c, direction, n, k - 1);
        assert(power_step(w, c, k - 1));
        assert(e.val(c[k]) == e.mul(e.val(c[k - 1]), e.val(w))) by {
            reveal(Exact::computes);
            assert(product(c[k - 1], w, c[k]));
        }
        e.lemma_turns(direction * (k - 1), direction, n);
        assert(direction * (k - 1) + direction == direction * k) by (nonlinear_arith);
    }
}

/// The transform of a block from those of its halves.
proof fn lemma_split<W: Wide, V>(
    e: Exact<W, V>,
    first: Seq<Complex<W>>,
    base: int,
    t: nat,
    direction: int,
    q: int,
    p: int,
    k: int,
)
    requires
        e.is_exact(),
        p == q + k * pow2(t),
    ensures
        part(e, first, base, t + 1, direction, p) == e.add(
            part(e, first, base, t, direction, q),
            e.mul(
                part(e, first, base + pow2(t), t, direction, q),
                e.at(direction * p, pow2(t + 1) as int),
            ),
        ),
{
    let h = pow2(t);
    let l = h as int;
    lemma_pow2_pos(t);
    lemma_pow2_unfold(t + 1);
    assert(pow2(t + 1) == 2 * h);
    let f = |j: int| term(e, first[base + reversed(j, t + 1)], direction, p, j, 2 * l);
    let even = |j: int| term(e, first[base + reversed(j, t)], direction, q, j, l);
    let odd = |j: int| term(e, first[base + l + reversed(j, t)], direction, q, j, l);
    let z = e.at(direction * p, 2 * l);
    let fe = |i: int| f(2 * i);
    let fo = |i: int| f(2 * i + 1);
    let oz = |i: int| e.mul(odd(i), z);
    e.lemma_total_parities(f, h);
    assert forall|i: int| 0 <= i < h implies #[trigger] fe(i) == even(i) by {
        lemma_even_term(e, first, base, t, direction, q, p, k, i);
    }
    e.lemma_total_same(fe, even, h);
    assert forall|i: int| 0 <= i < h implies #[trigger] fo(i) == oz(i) by {
        lemma_odd_term(e, first, base, t, direction, q, p, k, i);
    }
    e.lemma_total_same(fo, oz, h);
    e.lemma_total_times(odd, z, h);
    assert(part(e, first, base, t + 1, direction, p) == e.total(f, 2 * h)) by {
        e.lemma_total_same(
            |j: int|
                term(e, first[base + reversed(j, t + 1)], direction, p, j, pow2(t + 1) as int),
            f,
            2 * h,
        );
    }
    assert(part(e, first, base, t, direction, q) == e.total(even, h)) by {
        e.lemma_total_same(
            |j: int| term(e, first[base + reversed(j, t)], direction, q, j, pow2(t) as int),
            even,
            h,
        );
    }
    assert(part(e, first, base + l, t, direction, q) == e.total(odd, h)) by {
        e.lemma_total_same(
            |j: int| term(e, first[base + l + reversed(j, t)], direction, q, j, pow2(t) as int),
            odd,
            h,
        );
    }
}

/// The turn of a term of a half.
proof fn lemma_inner_turn<W: Wide, V>(e: Exact<W, V>, direction: int, q: int, p: int, k: int, i: int, l: int)
    requires
        e.is_exact(),
        l > 0,
        p == q + k * l,
    ensures
        e.at(direction * p * (2 * i), 2 * l) == e.at(direction * q * i, l),
{
    let d = direction;
    e.lemma_expand(2, d * p * i, l);
    assert(2 * (d * p * i) == d * p * (2 * i)) by (nonlinear_arith);
    assert(d * p * i == d * q * i + (d * k * i) * l) by (nonlinear_arith)
        requires
            p == q + k * l,
    ;
    e.lemma_reduced_turn(d * q * i, d * k * i, l);
}

proof fn lemma_even_term<W: Wide, V>(
    e: Exact<W, V>,
    first: Seq<Complex<W>>,
    base: int,
    t: nat,
    direction: int,
    q: int,
    p: int,
    k: int,
    i: int,
)
    requires
        e.is_exact(),
        p == q + k * pow2(t),
        0 <= i,
    ensures
        term(e, first[base + reversed(2 * i, t + 1)], direction, p, 2 * i, (2 * pow2(t)) as int) == term(
            e,
            first[base + reversed(i, t)],
            direction,
            q,
            i,
            pow2(t) as int,
        ),
{
    lemma_pow2_pos(t);
    assert((2 * i) % 2 == 0 && (2 * i) / 2 == i);
    assert(reversed(2 * i, t + 1) == reversed(i, t)) by {
        assert(0 * pow2(t) == 0);
    }
    lemma_inner_turn(e, direction, q, p, k, i, pow2(t) as int);
}

proof fn lemma_odd_term<W: Wide, V>(
    e: Exact<W, V>,
    first: Seq<Complex<W>>,
    base: int,
    t: nat,
    direction: int,
    q: int,
    p: int,
    k: int,
    i: int,
)
    requires
        e.is_exact(),
        p == q + k * pow2(t),
        0 <= i,
    ensures
        term(e, first[base + reversed(2 * i + 1, t + 1)], direction, p, 2 * i + 1, (2 * pow2(t)) as int)
            == e.mul(
            term(e, first[base + pow2(t) + reversed(i, t)], direction, q, i, pow2(t) as int),
            e.at(direction * p, (2 * pow2(t)) as int),
        ),
{
    let l = pow2(t) as int;
    lemma_pow2_pos(t);
    assert((2 * i + 1) % 2 == 1 && (2 * i + 1) / 2 == i);
    assert(reversed(2 * i + 1, t + 1) == l + reversed(i, t)) by {
        assert(1 * pow2(t) == pow2(t));
    }
    let x = e.val(first[base + l + reversed(i, t)]);
    let a = e.at(direction * p * (2 * i), 2 * l);
    let b = e.at(direction * p, 2 * l);
    lemma_inner_turn(e, direction, q, p, k, i, l);
    e.lemma_turns(direction * p * (2 * i), direction * p, 2 * l);
    assert(direction * p * (2 * i) + direction * p == direction * p * (2 * i + 1))
        by (nonlinear_arith);
    e.lemma_ring(x, a, b);
    assert(base + (l + reversed(i, t)) == base + l + reversed(i, t));
}

/// Element `p` of block `b` of `2^t` elements is the transform of the block's samples.
spec fn element_transformed<W: Wide, V>(
    e: Exact<W, V>,
    first: Seq<Complex<W>>,
    d: Seq<Complex<W>>,
    t: nat,
    direction: int,
    b: int,
    p: int,
) -> bool {
    e.val(d[b * pow2(t) + p]) == part(e, first, b * pow2(t), t, direction, p)
}

/// After `t` stages every block of `2^t` elements holds the transform of its samples.
spec fn blocks_transformed<W: Wide, V>(
    e: Exact<W, V>,
    first: Seq<Complex<W>>,
    d: Seq<Complex<W>>,
    t: nat,
    direction: int,
) -> bool {
    &&& d.len() == first.len()
    &&& forall|b: int, p: int|
        0 <= b && (b + 1) * pow2(t) <= d.len() && 0 <= p < pow2(t) ==> #[trigger] element_transformed(
            e,
            first,
            d,
            t,
            direction,
            b,
            p,
        )
}

/// Before the first stage every element is the transform of itself.
proof fn lemma_no_stage<W: Wide, V>(e: Exact<W, V>, first: Seq<Complex<W>>, direction: int)
    requires
        e.is_exact(),
    ensures
        blocks_transformed(e, first, first, 0, direction),
{
    vstd::arithmetic::power2::lemma2_to64();
    assert forall|b: int, p: int|
        0 <= b && (b + 1) * pow2(0) <= first.len() && 0 <= p < pow2(0) implies #[trigger] element_transformed(
        e,
        first,
        first,
        0,
        direction,
        b,
        p,
    ) by {
        let f = |j: int| term(e, first[b * 1 + reversed(j, 0)], direction, 0, j, 1);
        assert(part(e, first, b * 1, 0, direction, 0) == e.total(f, 1)) by {
            e.lemma_total_same(
                |j: int| term(e, first[b * 1 + reversed(j, 0)], direction, 0, j, pow2(0) as int),
                f,
                1,
            );
        }
        assert(e.total(f, 1) == e.add(e.total(f, 0), f(0)));
        e.lemma_zero(f(0));
        e.lemma_turns(0, 0, 1);
        assert(direction * 0 * 0 == 0) by (nonlinear_arith);
        e.lemma_ring(e.val(first[b]), e.one, e.one);
    }
}

/// One butterfly joins the transforms of two halves.
proof fn lemma_butterfly<W: Wide, V>(
    e: Exact<W, V>,
    first: Seq<Complex<W>>,
    from: Seq<Complex<W>>,
    to: Seq<Complex<W>>,
    t: nat,
    inverse: bool,
    b: int,
    q: int,
    c: Complex<W>,
)
    requires
        e.is_exact(),
        blocks_transformed(e, first, from, t, sign(inverse)),
        0 <= b,
        (b + 1) * pow2(t + 1) <= from.len(),
        0 <= q < pow2(t),
        e.val(c) == e.at(sign(inverse) * q, pow2(t + 1) as int),
        butterfly(
            from[b * pow2(t + 1) + q],
            from[b * pow2(t + 1) + q + pow2(t)],
            c,
            to[b * pow2(t + 1) + q],
            to[b * pow2(t + 1) + q + pow2(t)],
        ),
    ensures
        element_transformed(e, first, to, t + 1, sign(inverse), b, q),
        element_transformed(e, first, to, t + 1, sign(inverse), b, q + pow2(t)),
{
    let s = sign(inverse);
    let l = pow2(t) as int;
    lemma_pow2_pos(t);
    lemma_pow2_unfold(t + 1);
    let base = b * pow2(t + 1);
    let u = from[base + q];
    let x = from[base + q + l];
    let y = to[base + q];
    let z = to[base + q + l];
    let v = choose|v: Complex<W>| #[trigger] product(x, c, v) && sum(u, v, y)
        && crate::fft::difference(u, v, z);
    // The halves.
    assert(base == (2 * b) * l && base + l == (2 * b + 1) * l && (2 * b + 2) * l == (b + 1) * (2 * l))
        by (nonlinear_arith)
        requires
            base == b * (2 * l),
    ;
    assert(0 <= (2 * b + 1) * l <= (2 * b + 2) * l) by (nonlinear_arith)
        requires
            0 <= b,
            0 < l,
    ;
    assert(element_transformed(e, first, from, t, s, 2 * b, q));
    assert(element_transformed(e, first, from, t, s, 2 * b + 1, q));
    let p0 = part(e, first, base, t, s, q);
    let p1 = part(e, first, base + l, t, s, q);
    assert(e.val(u) == p0);
    assert(e.val(x) == p1);
    let w = e.at(s * q, 2 * l);
    assert(e.val(v) == e.mul(p1, w) && e.val(y) == e.add(p0, e.val(v)) && e.val(z) == e.add(
        p0,
        e.neg(e.val(v)),
    )) by {
        reveal(Exact::computes);
    }
    lemma_split(e, first, base, t, s, q, q, 0);
    lemma_split(e, first, base, t, s, q, q + l, 1);
    // The turn of the second half is opposite.
    let n = e.neg(e.one);
    e.lemma_half_turn(s, l);
    e.lemma_turns(s * q, s * l, 2 * l);
    assert(s * q + s * l == s * (q + l)) by (nonlinear_arith);
    e.lemma_neg(w, e.one);
    e.lemma_ring(w, e.one, e.one);
    e.lemma_neg(p1, w);
    assert(e.at(s * (q + l), 2 * l) == e.neg(w));
    assert(base + (q + l) == base + q + l);
}

/// One stage.
proof fn lemma_stage<W: Wide, V>(
    e: Exact<W, V>,
    first: Seq<Complex<W>>,
    from: Seq<Complex<W>>,
    to: Seq<Complex<W>>,
    t: nat,
    inverse: bool,
)
    requires
        e.is_exact(),
        blocks_transformed(e, first, from, t, sign(inverse)),
        stage_of(from, to, pow2(t) as int, inverse),
        pow2(t + 1) <= usize::MAX,
    ensures
        blocks_transformed(e, first, to, t + 1, sign(inverse)),
{
    let s = sign(inverse);
    let l = pow2(t) as int;
    lemma_pow2_pos(t);
    lemma_pow2_unfold(t + 1);
    let w = choose|w: Complex<W>| #[trigger]
        turned(1, (2 * l) as usize, inverse, w) && blocks_of(from, to, l, w);
    assert(e.val(w) == e.at(s, 2 * l)) by {
        reveal(Exact::computes);
        assert(s * 1 == s);
    }
    assert forall|b: int, p: int|
        0 <= b && (b + 1) * pow2(t + 1) <= to.len() && 0 <= p < pow2(t + 1) implies #[trigger] element_transformed(
        e,
        first,
        to,
        t + 1,
        s,
        b,
        p,
    ) by {
        let base = b * (2 * l);
        assert(block_of(from, to, b * (2 * l), l, w));
        let c = choose|c: Seq<Complex<W>>|
            {
                &&& c.len() == l
                &&& #[trigger] powers(w, c)
                &&& forall|k: int| 0 <= k < l ==> #[trigger] butterfly_at(from, to, base, l, c, k)
            };
        let q = if p < l {
            p
        } else {
            p - l
        };
        assert(butterfly_at(from, to, base, l, c, q));
        lemma_powers(e, w, c, s, 2 * l, q);
        lemma_butterfly(e, first, from, to, t, inverse, b, q, c[q]);
    }
}

/// All stages.
proof fn lemma_stages<W: Wide, V>(
    e: Exact<W, V>,
    first: Seq<Complex<W>>,
    trace: Seq<Seq<Complex<W>>>,
    k: nat,
    out: Seq<Complex<W>>,
    inverse: bool,
    t: nat,
)
    requires
        e.is_exact(),
        is_trace(trace, first, stages::<W>(inverse), k, out),
        t <= k,
        pow2(k) <= usize::MAX,
    ensures
        blocks_transformed(e, first, trace[t as int], t, sign(inverse)),
    decreases t,
{
    if t == 0 {
        lemma_no_stage(e, first, sign(inverse));
    } else {
        let m = (t - 1) as nat;
        lemma_stages(e, first, trace, k, out, inverse, m);
        assert(goes(stages::<W>(inverse), trace, m as int));
        if t < k {
            vstd::arithmetic::power2::lemma_pow2_strictly_increases(t, k);
        }
        lemma_stage(e, first, trace[m as int], trace[t as int], m, inverse);
    }
}

/// A radix-2 transform is the discrete Fourier transform.
pub(crate) proof fn lemma_radix2<W: Wide, V>(
    e: Exact<W, V>,
    a: Seq<Complex<W>>,
    k: nat,
    inverse: bool,
    out: Seq<Complex<W>>,
    i: int,
)
    requires
        e.is_exact(),
        a.len() == pow2(k),
        pow2(k) <= usize::MAX,
        radix2_of(a, k, inverse, out),
        0 <= i < a.len(),
    ensures
        out.len() == a.len(),
        e.val(out[i]) == dft(e, a, inverse, i),
{
    let first = choose|first: Seq<Complex<W>>| #[trigger]
        permuted(a, k, first) && folds(first, stages::<W>(inverse), k, out);
    let trace = choose|trace: Seq<Seq<Complex<W>>>| #[trigger]
        is_trace(trace, first, stages::<W>(inverse), k, out);
    lemma_stages(e, first, trace, k, out, inverse, k);
    assert(trace[k as int] == out);
    assert((0 + 1) * pow2(k) == pow2(k)) by (nonlinear_arith);
    assert(element_transformed(e, first, out, k, sign(inverse), 0, i));
    assert(0 * pow2(k) == 0);
    let n = pow2(k) as int;
    let f = |j: int| term(e, first[0 + reversed(j, k)], sign(inverse), i, j, n);
    let g = |j: int| term(e, a[j], sign(inverse), i, j, n);
    assert forall|j: int| 0 <= j < n implies #[trigger] f(j) == g(j) by {
        lemma_reversed_bound(j, k);
        lemma_reversed_twice(j, k);
        assert(first[reversed(j, k)] == a[reversed(reversed(j, k), k)]);
    }
    e.lemma_total_same(f, g, n as nat);
    assert(part(e, first, 0, k, sign(inverse), i) == e.total(f, n as nat)) by {
        e.lemma_total_same(
            |j: int| term(e, first[0 + reversed(j, k)], sign(inverse), i, j, pow2(k) as int),
            f,
            n as nat,
        );
    }
    assert(dft(e, a, inverse, i) == e.total(g, n as nat)) by {
        e.lemma_total_same(
            |j: int| term(e, a[j], sign(inverse), i, j, a.len() as int),
            g,
            n as nat,
        );
    }
}

} // verus!
