//! Real two-dimensional Fourier transforms with the `ortho` normalisation: both directions
//! scale by `1 / sqrt(h * w)`.

use vstd::prelude::*;

use crate::acts::lemma_some_place;
use crate::fft::{fft_of, Complex, Lines};
use crate::grid::{at3, fill, lemma_place, lemma_place3, lemma_place3_of, lemma_place_of, lemma_position};
use crate::scalar::{Scalar, Wide};

verus! {

/// One row of a plane.
pub open spec fn row<T>(d: Seq<T>, w: int, y: int) -> Seq<T> {
    Seq::new(w as nat, |x: int| d[y * w + x])
}

/// One column of a plane.
pub open spec fn column<T>(d: Seq<T>, h: int, w: int, x: int) -> Seq<T> {
    Seq::new(h as nat, |y: int| d[y * w + x])
}

/// Every row of `out` is the transform of the row of `a`.
pub open spec fn rows_of<W: Wide>(
    a: Seq<Complex<W>>,
    h: int,
    w: int,
    inverse: bool,
    out: Seq<Complex<W>>,
) -> bool {
    &&& out.len() == a.len()
    &&& forall|y: int| 0 <= y < h ==> fft_of(row(a, w, y), inverse, #[trigger] row(out, w, y))
}

/// Every column of `out` is the transform of the column of `a`.
pub open spec fn columns_of<W: Wide>(
    a: Seq<Complex<W>>,
    h: int,
    w: int,
    inverse: bool,
    out: Seq<Complex<W>>,
) -> bool {
    &&& out.len() == a.len()
    &&& forall|x: int|
        0 <= x < w ==> fft_of(column(a, h, w, x), inverse, #[trigger] column(out, h, w, x))
}

/// `out` is the two-dimensional transform of `a`: rows first, then columns.
pub open spec fn fft2_of<W: Wide>(
    a: Seq<Complex<W>>,
    h: int,
    w: int,
    inverse: bool,
    out: Seq<Complex<W>>,
) -> bool {
    exists|mid: Seq<Complex<W>>| #[trigger]
        rows_of(a, h, w, inverse, mid) && columns_of(mid, h, w, inverse, out)
}

/// How the rows and the columns of planes of one size are transformed.
pub struct Lattice<W> {
    pub rows: Lines<W>,
    pub columns: Lines<W>,
}

impl<W: Wide> Lattice<W> {
    /// Made for planes of this size.
    pub open spec fn fits(&self, h: int, w: int, inverse: bool) -> bool {
        &&& self.rows.wf()
        &&& self.columns.wf()
        &&& self.rows.n == w
        &&& self.columns.n == h
        &&& self.rows.inverse == inverse
        &&& self.columns.inverse == inverse
    }

    /// Prepare for planes of `h` rows and `w` columns.
    pub fn new(h: usize, w: usize, inverse: bool) -> (l: Self)
        requires
            8 * h <= usize::MAX,
            8 * w <= usize::MAX,
        ensures
            l.fits(h as int, w as int, inverse),
    {
        Lattice { rows: Lines::new(w, inverse), columns: Lines::new(h, inverse) }
    }

    fn transform_rows(&self, a: &Vec<Complex<W>>, h: usize, w: usize, Ghost(inverse): Ghost<bool>) -> (out:
        Vec<Complex<W>>)
        requires
            self.fits(h as int, w as int, inverse),
            a.len() == h * w,
        ensures
            rows_of(a@, h as int, w as int, inverse, out@),
    {
        let mut out: Vec<Complex<W>> = Vec::new();
        let mut y: usize = 0;
        while y < h
            invariant
                self.fits(h as int, w as int, inverse),
                a.len() == h * w,
                y <= h,
                out@.len() == y * w,
                forall|v: int|
                    0 <= v < y ==> fft_of(
                        row(a@, w as int, v),
                        inverse,
                        #[trigger] row(out@, w as int, v),
                    ),
            decreases h - y,
        {
            proof {
                assert((y + 1) * w == y * w + w) by (nonlinear_arith);
                assert((y + 1) * w <= h * w) by (nonlinear_arith)
                    requires
                        y + 1 <= h,
                        0 <= w,
                ;
            }
            let mut line: Vec<Complex<W>> = Vec::new();
            let mut x: usize = 0;
            while x < w
                invariant
                    a.len() == h * w,
                    y < h,
                    y * w + w <= h * w,
                    x <= w,
                    line@.len() == x,
                    forall|u: int| 0 <= u < x ==> #[trigger] line@[u] == a@[y * w + u],
                decreases w - x,
            {
                line.push(a[y * w + x]);
                x += 1;
            }
            assert(line@ =~= row(a@, w as int, y as int));
            self.rows.fft(&mut line);
            let ghost before = out@;
            let mut x: usize = 0;
            while x < w
                invariant
                    line@.len() == w,
                    before.len() == y * w,
                    x <= w,
                    out@ == before + line@.take(x as int),
                decreases w - x,
            {
                out.push(line[x]);
                x += 1;
                assert(out@ =~= before + line@.take(x as int));
            }
            proof {
                assert forall|v: int| 0 <= v < y + 1 implies fft_of(
                    row(a@, w as int, v),
                    inverse,
                    #[trigger] row(out@, w as int, v),
                ) by {
                    if v < y {
                        assert forall|u: int| 0 <= u < w implies #[trigger] out@[v * w + u] == before[v * w
                            + u] by {
                            lemma_place(w as int, y as int, u, v);
                            assert(w * y == y * w) by (nonlinear_arith);
                        }
                        assert(row(out@, w as int, v) =~= row(before, w as int, v));
                    } else {
                        assert(row(out@, w as int, v) =~= line@);
                    }
                }
            }
            y += 1;
        }
        out
    }

    fn transform_columns(&self, d: &mut Vec<Complex<W>>, h: usize, w: usize, Ghost(inverse): Ghost<bool>)
        requires
            self.fits(h as int, w as int, inverse),
            old(d).len() == h * w,
        ensures
            columns_of(old(d)@, h as int, w as int, inverse, final(d)@),
    {
        let ghost a = d@;
        let mut x: usize = 0;
        while x < w
            invariant
                self.fits(h as int, w as int, inverse),
                a.len() == h * w,
                d.len() == h * w,
                x <= w,
                forall|u: int|
                    0 <= u < x ==> fft_of(
                        column(a, h as int, w as int, u),
                        inverse,
                        #[trigger] column(d@, h as int, w as int, u),
                    ),
                forall|u: int, v: int|
                    x <= u < w && 0 <= v < h ==> #[trigger] d@[v * w + u] == a[v * w + u],
            decreases w - x,
        {
            let mut line: Vec<Complex<W>> = Vec::new();
            let mut y: usize = 0;
            while y < h
                invariant
                    a.len() == h * w,
                    d.len() == h * w,
                    x < w,
                    y <= h,
                    line@.len() == y,
                    forall|v: int| 0 <= v < y ==> #[trigger] line@[v] == d@[v * w + x],
                decreases h - y,
            {
                proof {
                    lemma_place(w as int, h as int, x as int, y as int);
                    assert(w * h == h * w) by (nonlinear_arith);
                }
                line.push(d[y * w + x]);
                y += 1;
            }
            assert(line@ =~= column(a, h as int, w as int, x as int));
            self.columns.fft(&mut line);
            let ghost before = d@;
            let mut y: usize = 0;
            while y < h
                invariant
                    before.len() == h * w,
                    d.len() == h * w,
                    line@.len() == h,
                    x < w,
                    y <= h,
                    forall|v: int| 0 <= v < y ==> #[trigger] d@[v * w + x] == line@[v],
                    forall|u: int, v: int|
                        0 <= u < w && 0 <= v < h && u != x ==> #[trigger] d@[v * w + u]
                            == before[v * w + u],
                decreases h - y,
            {
                proof {
                    lemma_place(w as int, h as int, x as int, y as int);
                    assert(w * h == h * w) by (nonlinear_arith);
                }
                let ghost now = d@;
                let at: usize = y * w + x;
                d.set(at, line[y]);
                proof {
                    assert forall|u: int, v: int| 0 <= u < w && 0 <= v < h && u != x implies #[trigger] d@[v
                        * w + u] == before[v * w + u] by {
                        lemma_place(w as int, h as int, u, v);
                        lemma_position(w as int, u, v);
                        lemma_position(w as int, x as int, y as int);
                        assert(now[v * w + u] == before[v * w + u]);
                    }
                    assert forall|v: int| 0 <= v < y + 1 implies #[trigger] d@[v * w + x] == line@[v] by {
                        if v < y {
                            lemma_place(w as int, h as int, x as int, v);
                            lemma_position(w as int, x as int, v);
                            lemma_position(w as int, x as int, y as int);
                            assert(now[v * w + x] == line@[v]);
                        }
                    }
                }
                y += 1;
            }
            proof {
                assert forall|u: int| 0 <= u < x + 1 implies fft_of(
                    column(a, h as int, w as int, u),
                    inverse,
                    #[trigger] column(d@, h as int, w as int, u),
                ) by {
                    if u < x {
                        assert(column(d@, h as int, w as int, u) =~= column(
                            before,
                            h as int,
                            w as int,
                            u,
                        ));
                    } else {
                        assert(column(d@, h as int, w as int, u) =~= line@);
                    }
                }
            }
            x += 1;
        }
    }

    /// Two-dimensional complex transform of a plane: rows first, then columns.
    fn fft2(&self, a: &Vec<Complex<W>>, h: usize, w: usize, Ghost(inverse): Ghost<bool>) -> (out: Vec<
        Complex<W>,
    >)
        requires
            self.fits(h as int, w as int, inverse),
            a.len() == h * w,
        ensures
            out@.len() == a@.len(),
            fft2_of(a@, h as int, w as int, inverse, out@),
    {
        let mut out: Vec<Complex<W>> = self.transform_rows(a, h, w, Ghost(inverse));
        self.transform_columns(&mut out, h, w, Ghost(inverse));
        out
    }
}

/// The columns of a real transform that are kept: the others are their mirror images.
pub open spec fn kept(w: int) -> int {
    w / 2 + 1
}

/// The real samples as complex numbers; what is missing is zero.
pub open spec fn lifted<S: Scalar>(src: Seq<S>, n: int, a: Seq<Complex<S::Wide>>) -> bool {
    &&& a.len() == n
    &&& forall|i: int| 0 <= i < n ==> lifted_at(src, i, #[trigger] a[i])
}

/// One real sample as a complex number.
pub open spec fn lifted_at<S: Scalar>(src: Seq<S>, i: int, r: Complex<S::Wide>) -> bool {
    &&& if i < src.len() {
        call_ensures(S::widened, (src[i],), r.re)
    } else {
        call_ensures(<S::Wide as Wide>::zero, (), r.re)
    }
    &&& call_ensures(<S::Wide as Wide>::zero, (), r.im)
}

/// The real or the imaginary part.
pub open spec fn part<W>(z: Complex<W>, p: int) -> W {
    if p == 0 {
        z.re
    } else {
        z.im
    }
}

/// `out` holds the kept columns of a spectrum, scaled: first the real parts, then the
/// imaginary parts.
pub open spec fn halved<S: Scalar>(
    f: Seq<Complex<S::Wide>>,
    h: int,
    w: int,
    scale: S::Wide,
    out: Seq<S>,
) -> bool {
    &&& out.len() == 2 * h * kept(w)
    &&& forall|p: int, y: int, x: int|
        0 <= p < 2 && 0 <= y < h && 0 <= x < kept(w) ==> call_ensures(
            S::narrowed,
            (part(f[y * w + x], p), scale),
            #[trigger] at3(out, h, kept(w), p, y, x),
        )
}

/// `out` is the real transform of a plane.
pub open spec fn rfft2_of<S: Scalar>(src: Seq<S>, h: int, w: int, out: Seq<S>) -> bool {
    exists|a: Seq<Complex<S::Wide>>, f: Seq<Complex<S::Wide>>, scale: S::Wide|
        {
            &&& #[trigger] lifted(src, h * w, a)
            &&& fft2_of(a, h, w, false, f)
            &&& call_ensures(<S::Wide as Wide>::reciprocal_root, ((h * w) as usize,), scale)
            &&& #[trigger] halved(f, h, w, scale, out)
        }
}

/// `a` is the whole spectrum whose kept columns are `src`: a column that was not kept is
/// the conjugate of the one it mirrors, reflected through the origin in both axes.
pub open spec fn completed<S: Scalar>(src: Seq<S>, h: int, w: int, a: Seq<Complex<S::Wide>>) -> bool {
    &&& a.len() == h * w
    &&& forall|y: int, x: int|
        0 <= y < h && 0 <= x < w ==> completed_at(src, h, w, a, y, x, #[trigger] a[y * w + x])
}

/// One element of the whole spectrum.
pub open spec fn completed_at<S: Scalar>(
    src: Seq<S>,
    h: int,
    w: int,
    a: Seq<Complex<S::Wide>>,
    y: int,
    x: int,
    r: Complex<S::Wide>,
) -> bool {
    if x < kept(w) {
        &&& call_ensures(S::widened, (at3(src, h, kept(w), 0, y, x),), r.re)
        &&& call_ensures(S::widened, (at3(src, h, kept(w), 1, y, x),), r.im)
    } else {
        let from = a[(h - y) % h * w + (w - x)];
        r.re == from.re && call_ensures(<S::Wide as Wide>::negated, (from.im,), r.im)
    }
}

/// `out` holds the real parts of a plane, scaled.
pub open spec fn real_parts<S: Scalar>(f: Seq<Complex<S::Wide>>, scale: S::Wide, out: Seq<S>) -> bool {
    &&& out.len() == f.len()
    &&& forall|i: int|
        0 <= i < f.len() ==> call_ensures(S::narrowed, (f[i].re, scale), #[trigger] out[i])
}

/// `out` is the plane whose real transform is `src`.
pub open spec fn irfft2_of<S: Scalar>(src: Seq<S>, h: int, w: int, out: Seq<S>) -> bool {
    exists|a: Seq<Complex<S::Wide>>, f: Seq<Complex<S::Wide>>, scale: S::Wide|
        {
            &&& #[trigger] completed(src, h, w, a)
            &&& fft2_of(a, h, w, true, f)
            &&& f.len() == a.len()
            &&& call_ensures(<S::Wide as Wide>::reciprocal_root, ((h * w) as usize,), scale)
            &&& #[trigger] real_parts(f, scale, out)
        }
}

/// Whether planes of this size can be transformed.
pub open spec fn can_transform(h: int, w: int) -> bool {
    &&& 1 <= w
    &&& 8 * h <= usize::MAX
    &&& 8 * w <= usize::MAX
    &&& h * w <= usize::MAX
    &&& 2 * h * kept(w) <= usize::MAX
}

/// Real transform of a plane: writes `[2][h][w / 2 + 1]`, real parts first, to the
/// beginning of `dst`.
pub fn rfft2_ortho<S: Scalar>(src: &[S], h: usize, w: usize, dst: &mut [S])
    requires
        can_transform(h as int, w as int),
        src@.len() <= h * w,
        old(dst)@.len() >= 2 * h * kept(w as int),
    ensures
        final(dst)@.len() == old(dst)@.len(),
        rfft2_of(src@, h as int, w as int, final(dst)@.take(2 * h * kept(w as int))),
        final(dst)@.skip(2 * h * kept(w as int)) == old(dst)@.skip(2 * h * kept(w as int)),
{
    let lattice: Lattice<S::Wide> = Lattice::new(h, w, false);
    let out: Vec<S> = rfft2_on(&lattice, src, h, w);
    fill(dst, &out);
    assert(dst@.take(out@.len() as int) =~= out@);
}

/// Real transform of a plane of the size that a lattice was made for.
pub fn rfft2_on<S: Scalar>(lattice: &Lattice<S::Wide>, src: &[S], h: usize, w: usize) -> (out: Vec<S>)
    requires
        can_transform(h as int, w as int),
        lattice.fits(h as int, w as int, false),
        src@.len() <= h * w,
    ensures
        rfft2_of(src@, h as int, w as int, out@),
        out@.len() == 2 * h * kept(w as int),
{
    let n: usize = h * w;
    let mut a: Vec<Complex<S::Wide>> = Vec::new();
    let mut i: usize = 0;
    while i < n
        invariant
            i <= n,
            a@.len() == i,
            forall|j: int| 0 <= j < i ==> lifted_at(src@, j, #[trigger] a@[j]),
        decreases n - i,
    {
        let re: S::Wide = if i < src.len() {
            src[i].widened()
        } else {
            <S::Wide as Wide>::zero()
        };
        a.push(Complex { re, im: <S::Wide as Wide>::zero() });
        i += 1;
    }
    let f: Vec<Complex<S::Wide>> = lattice.fft2(&a, h, w, Ghost(false));
    let scale: S::Wide = <S::Wide as Wide>::reciprocal_root(n);
    let hw: usize = w / 2 + 1;
    proof {
        assert(0 <= 2 * h <= 2 * h * hw) by (nonlinear_arith)
            requires
                0 <= h,
                1 <= hw,
        ;
    }
    let size: usize = 2 * h * hw;
    let mut out: Vec<S> = Vec::new();
    let mut k: usize = 0;
    while k < size
        invariant
            n == h * w,
            f@.len() == n,
            1 <= w,
            hw == w / 2 + 1,
            size == 2 * h * hw,
            k <= size,
            out@.len() == k,
            forall|j: int|
                0 <= j < k ==> call_ensures(
                    S::narrowed,
                    (part(f@[j / hw as int % h as int * w + j % hw as int], j / hw as int / h as int), scale),
                    #[trigger] out@[j],
                ),
        decreases size - k,
    {
        proof {
            lemma_some_place(2, h as int, hw as int, k as int);
            lemma_place3_of(2, h as int, hw as int, k as int);
            lemma_place(w as int, h as int, k as int % hw as int, k as int / hw as int % h as int);
            assert(w * h == h * w) by (nonlinear_arith);
        }
        let p: usize = k / hw / h;
        let y: usize = k / hw % h;
        let x: usize = k % hw;
        let z: Complex<S::Wide> = f[y * w + x];
        let v: S::Wide = if p == 0 {
            z.re
        } else {
            z.im
        };
        out.push(S::narrowed(v, scale));
        k += 1;
    }
    proof {
        assert forall|p: int, y: int, x: int|
            0 <= p < 2 && 0 <= y < h && 0 <= x < kept(w as int) implies call_ensures(
            S::narrowed,
            (part(f@[y * w + x], p), scale),
            #[trigger] at3(out@, h as int, kept(w as int), p, y, x),
        ) by {
            lemma_place3(2, h as int, hw as int, p, y, x);
            let j = (p * h + y) * hw + x;
            assert(out@[j] == at3(out@, h as int, kept(w as int), p, y, x));
        }
        assert(lifted(src@, h * w, a@));
        assert(halved(f@, h as int, w as int, scale, out@));
    }
    out
}

/// The element of the whole spectrum at a position, from the kept columns.
spec fn whole_at<W: Wide>(half: Seq<Complex<W>>, h: int, w: int, y: int, x: int, r: Complex<W>) -> bool {
    if x < kept(w) {
        r == half[y * kept(w) + x]
    } else {
        let from = half[(h - y) % h * kept(w) + (w - x)];
        r.re == from.re && call_ensures(W::negated, (from.im,), r.im)
    }
}

/// Rebuild the whole spectrum from its kept columns.
fn complete<S: Scalar>(src: &[S], h: usize, w: usize) -> (a: Vec<Complex<S::Wide>>)
    requires
        can_transform(h as int, w as int),
        src@.len() >= 2 * h * kept(w as int),
    ensures
        a.len() == h * w,
        completed(src@, h as int, w as int, a@),
{
    let hw: usize = w / 2 + 1;
    let n: usize = h * w;
    proof {
        assert(0 <= h * hw <= 2 * h * hw) by (nonlinear_arith)
            requires
                0 <= h,
                1 <= hw,
        ;
        assert(2 * h * hw == 2 * (h * hw)) by (nonlinear_arith);
    }
    let area: usize = h * hw;
    let mut half: Vec<Complex<S::Wide>> = Vec::new();
    let mut i: usize = 0;
    while i < area
        invariant
            2 * area <= src@.len(),
            i <= area,
            half@.len() == i,
            forall|j: int|
                0 <= j < i ==> call_ensures(S::widened, (src@[j],), (#[trigger] half@[j]).re)
                    && call_ensures(S::widened, (src@[area + j],), half@[j].im),
        decreases area - i,
    {
        half.push(Complex { re: src[i].widened(), im: src[area + i].widened() });
        i += 1;
    }
    let mut a: Vec<Complex<S::Wide>> = Vec::new();
    let mut k: usize = 0;
    while k < n
        invariant
            1 <= w,
            hw == w / 2 + 1,
            area == h * hw,
            n == h * w,
            half@.len() == area,
            k <= n,
            a@.len() == k,
            forall|j: int|
                0 <= j < k ==> whole_at(
                    half@,
                    h as int,
                    w as int,
                    j / w as int,
                    j % w as int,
                    #[trigger] a@[j],
                ),
        decreases n - k,
    {
        proof {
            assert(h * w == w * h) by (nonlinear_arith);
            lemma_place_of(w as int, h as int, k as int);
        }
        let y: usize = k / w;
        let x: usize = k % w;
        if x < hw {
            proof {
                lemma_place(hw as int, h as int, x as int, y as int);
                assert(hw * h == h * hw) by (nonlinear_arith);
            }
            a.push(half[y * hw + x]);
        } else {
            let xm: usize = w - x;
            let ym: usize = (h - y) % h;
            proof {
                lemma_place(hw as int, h as int, xm as int, ym as int);
                assert(hw * h == h * hw) by (nonlinear_arith);
            }
            let from: Complex<S::Wide> = half[ym * hw + xm];
            a.push(Complex { re: from.re, im: from.im.negated() });
        }
        k += 1;
    }
    assert forall|y: int, x: int| 0 <= y < h && 0 <= x < w implies completed_at(
        src@,
        h as int,
        w as int,
        a@,
        y,
        x,
        #[trigger] a@[y * w + x],
    ) by {
        lemma_place(w as int, h as int, x, y);
        assert(w * h == h * w) by (nonlinear_arith);
        lemma_position(w as int, x, y);
        assert(whole_at(half@, h as int, w as int, y, x, a@[y * w + x]));
        if x < hw {
            lemma_place(hw as int, h as int, x, y);
            assert(hw * h == h * hw) by (nonlinear_arith);
            let j = y * hw + x;
            assert(call_ensures(S::widened, (src@[j],), half@[j].re));
            assert((0 * h + y) * hw + x == j);
            assert((1 * h + y) * hw + x == area + j) by (nonlinear_arith)
                requires
                    j == y * hw + x,
                    area == h * hw,
            ;
        } else {
            let ym = (h - y) % h as int;
            let xm = w - x;
            assert(0 <= ym < h) by (nonlinear_arith)
                requires
                    ym == (h - y) % h as int,
                    0 < h,
            ;
            lemma_place(w as int, h as int, xm, ym);
            lemma_position(w as int, xm, ym);
            assert(whole_at(half@, h as int, w as int, ym, xm, a@[ym * w + xm]));
        }
    }
    a
}

/// Inverse of `rfft2_ortho`.
///
/// The input is taken as the kept columns of a spectrum, and the whole of it is rebuilt by
/// reflection through the origin in both axes.  Filling only the columns, row by row,
/// would come to the same for what `rfft2_ortho` produces, but not after a convolution.
pub fn irfft2_ortho<S: Scalar>(src: &[S], h: usize, w: usize, dst: &mut [S])
    requires
        can_transform(h as int, w as int),
        src@.len() >= 2 * h * kept(w as int),
        old(dst)@.len() >= h * w,
    ensures
        final(dst)@.len() == old(dst)@.len(),
        irfft2_of(src@, h as int, w as int, final(dst)@.take(h * w)),
        final(dst)@.skip(h * w) == old(dst)@.skip(h * w),
{
    let lattice: Lattice<S::Wide> = Lattice::new(h, w, true);
    let out: Vec<S> = irfft2_on(&lattice, src, h, w);
    fill(dst, &out);
    assert(dst@.take(out@.len() as int) =~= out@);
}

/// Inverse of `rfft2_on`.
pub fn irfft2_on<S: Scalar>(lattice: &Lattice<S::Wide>, src: &[S], h: usize, w: usize) -> (out: Vec<S>)
    requires
        can_transform(h as int, w as int),
        lattice.fits(h as int, w as int, true),
        src@.len() >= 2 * h * kept(w as int),
    ensures
        irfft2_of(src@, h as int, w as int, out@),
        out@.len() == h * w,
{
    let a: Vec<Complex<S::Wide>> = complete(src, h, w);
    let f: Vec<Complex<S::Wide>> = lattice.fft2(&a, h, w, Ghost(true));
    let scale: S::Wide = <S::Wide as Wide>::reciprocal_root(h * w);
    let mut out: Vec<S> = Vec::new();
    let mut i: usize = 0;
    while i < f.len()
        invariant
            i <= f@.len(),
            out@.len() == i,
            forall|j: int|
                0 <= j < i ==> call_ensures(S::narrowed, (f@[j].re, scale), #[trigger] out@[j]),
        decreases f@.len() - i,
    {
        out.push(S::narrowed(f[i].re, scale));
        i += 1;
    }
    assert(real_parts(f@, scale, out@));
    out
}

/// A number of a spectrum lies among the first ones.
proof fn lemma_same_number<S>(a: Seq<S>, b: Seq<S>, h: int, w: int, part: int, y: int, x: int)
    requires
        0 <= part < 2,
        0 <= y < h,
        0 <= x < kept(w),
        a.len() >= 2 * h * kept(w),
        b.len() >= 2 * h * kept(w),
        a.take(2 * h * kept(w)) == b.take(2 * h * kept(w)),
    ensures
        at3(a, h, kept(w), part, y, x) == at3(b, h, kept(w), part, y, x),
{
    lemma_place3(2, h, kept(w), part, y, x);
    let i = (part * h + y) * kept(w) + x;
    let n = 2 * h * kept(w);
    assert(a[i] == a.take(n)[i]);
    assert(b[i] == b.take(n)[i]);
}

/// The inverse transform depends on the first `2 * h * (w / 2 + 1)` numbers that it is
/// given, and on no others.
pub proof fn law_only_the_spectrum_has_influence<S: Scalar>(
    a: Seq<S>,
    b: Seq<S>,
    h: int,
    w: int,
    out: Seq<S>,
)
    requires
        1 <= w,
        a.len() >= 2 * h * kept(w),
        b.len() >= 2 * h * kept(w),
        a.take(2 * h * kept(w)) == b.take(2 * h * kept(w)),
    ensures
        irfft2_of(a, h, w, out) == irfft2_of(b, h, w, out),
{
    assert forall|f: Seq<Complex<S::Wide>>| #[trigger] completed(a, h, w, f) == completed(
        b,
        h,
        w,
        f,
    ) by {
        assert forall|y: int, x: int| 0 <= y < h && 0 <= x < w implies completed_at(
            a,
            h,
            w,
            f,
            y,
            x,
            #[trigger] f[y * w + x],
        ) == completed_at(b, h, w, f, y, x, f[y * w + x]) by {
            if x < kept(w) {
                lemma_same_number(a, b, h, w, 0, y, x);
                lemma_same_number(a, b, h, w, 1, y, x);
            }
        }
    }
    if irfft2_of(b, h, w, out) {
        let (f, z, scale) = choose|
            f: Seq<Complex<S::Wide>>,
            z: Seq<Complex<S::Wide>>,
            scale: S::Wide,
        |
            {
                &&& #[trigger] completed(b, h, w, f)
                &&& fft2_of(f, h, w, true, z)
                &&& z.len() == f.len()
                &&& call_ensures(<S::Wide as Wide>::reciprocal_root, ((h * w) as usize,), scale)
                &&& #[trigger] real_parts(z, scale, out)
            };
        assert(completed(a, h, w, f));
    }
}

} // verus!
