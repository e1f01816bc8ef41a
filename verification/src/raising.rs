//! What a planned upsampling computes.
//!
//! The device upsamples in one of two ways: with a kernel that gathers what reaches every
//! output, or as four matrix products, one for every parity of the output position.  Both
//! leave the same sums, those of the transposed convolution with a 3x3 kernel, stride 2
//! and padding 1.

use vstd::prelude::*;

use crate::agree::{keeps, keeps_below, Memory};
use crate::device::{narrow, Act, Addr, Arg, Kernel, Tape};
use crate::gpu::{convt_placed, phase_tape, phases_tape, taps_of, upsample_tape, DConvT};
use crate::grid::{lemma_place, lemma_place3, lemma_position};
use crate::kernels::{sgemm_tape, Tensor};
use crate::meaning::{address, count, goes_on, lemma_goes_on, Chip, Sums};
use crate::reorder::{at4, phase_of, swapped};

verus! {

/// The extents of an upsampling.
pub struct Raise {
    pub cin: int,
    pub cout: int,
    pub h: int,
    pub w: int,
    pub kh: int,
    pub kw: int,
    pub stride: int,
    pub pad: int,
}

impl<V> Sums<V> {
    /// The products that reach an output of a transposed convolution: the sample at row `y`
    /// reaches row `oy` through the kernel's row `ky` where `oy == y * stride + ky - pad`,
    /// and the columns likewise.
    pub open spec fn raised_terms(
        self,
        weight: spec_fn(int) -> V,
        sample: spec_fn(int) -> V,
        g: Raise,
        co: int,
        oy: int,
        ox: int,
    ) -> spec_fn(int) -> V {
        |t: int|
            {
                let (ci, ky, kx) = (t / g.kw / g.kh, t / g.kw % g.kh, t % g.kw);
                let a = oy + g.pad - ky;
                let b = ox + g.pad - kx;
                if a % g.stride == 0 && b % g.stride == 0 && 0 <= a / g.stride < g.h && 0 <= b / g.stride
                    < g.w {
                    (self.times)(
                        weight(((ci * g.cout + co) * g.kh + ky) * g.kw + kx),
                        sample((ci * g.h + a / g.stride) * g.w + b / g.stride),
                    )
                } else {
                    self.zero
                }
            }
    }

    /// An output of a transposed convolution.
    pub open spec fn raised(
        self,
        weight: spec_fn(int) -> V,
        sample: spec_fn(int) -> V,
        bias: V,
        g: Raise,
        co: int,
        oy: int,
        ox: int,
    ) -> V {
        (self.plus)(
            bias,
            self.total(
                self.raised_terms(weight, sample, g, co, oy, ox),
                (g.cin * g.kh * g.kw) as nat,
            ),
        )
    }

    /// A product that does not count.
    proof fn lemma_skip(self, f: spec_fn(int) -> V, c: int, j: int)
        requires
            self.lawful(),
            0 <= c,
            0 <= j,
            at_tap(f, c, j) == self.zero,
        ensures
            self.total(f, (9 * c + j + 1) as nat) == self.total(f, (9 * c + j) as nat),
    {
        self.lemma_nothing(self.total(f, (9 * c + j) as nat));
    }

    /// A product that counts.
    proof fn lemma_next(
        self,
        f: spec_fn(int) -> V,
        g: spec_fn(int) -> V,
        py: int,
        px: int,
        c: int,
        j: int,
        i: int,
    )
        requires
            0 <= c,
            0 <= j,
            0 <= i,
            0 <= c * taps_of(2 * py + px),
            g(c * taps_of(2 * py + px) + i) == at_tap(f, c, j),
            self.total(f, (9 * c + j) as nat) == self.total(g, (c * taps_of(2 * py + px) + i) as nat),
        ensures
            self.total(f, (9 * c + j + 1) as nat) == self.total(
                g,
                (c * taps_of(2 * py + px) + i + 1) as nat,
            ),
    {
    }

    /// A sum in which of nine products at a time only those count that one parity of the
    /// output takes.
    proof fn lemma_one_parity(
        self,
        f: spec_fn(int) -> V,
        g: spec_fn(int) -> V,
        py: int,
        px: int,
        n: nat,
    )
        requires
            self.lawful(),
            0 <= py <= 1,
            0 <= px <= 1,
            forall|ci: int, j: int|
                0 <= ci < n && 0 <= j < 9 && !reaches(py, px, j) ==> #[trigger] at_tap(f, ci, j)
                    == self.zero,
            forall|ci: int, i: int|
                0 <= ci < n && 0 <= i < taps_of(2 * py + px) ==> #[trigger] g(
                    ci * taps_of(2 * py + px) + i,
                ) == at_tap(f, ci, tap_at(py, px, i)),
        ensures
            self.total(f, 9 * n) == self.total(g, n * taps_of(2 * py + px) as nat),
        decreases n,
    {
        if n > 0 {
            let c = n - 1;
            let taps = taps_of(2 * py + px);
            self.lemma_one_parity(f, g, py, px, c as nat);
            let q = c * taps;
            assert(n * taps == q + taps) by (nonlinear_arith)
                requires
                    q == c * taps,
                    n == c + 1,
            ;
            assert(0 <= q) by (nonlinear_arith)
                requires
                    q == c * taps,
                    0 <= c,
                    1 <= taps,
            ;
            if py == 0 && px == 0 {
                self.lemma_skip(f, c, 0);
                self.lemma_skip(f, c, 1);
                self.lemma_skip(f, c, 2);
                self.lemma_skip(f, c, 3);
                self.lemma_next(f, g, py, px, c, 4, 0);
                self.lemma_skip(f, c, 5);
                self.lemma_skip(f, c, 6);
                self.lemma_skip(f, c, 7);
                self.lemma_skip(f, c, 8);
            } else if py == 0 && px == 1 {
                self.lemma_skip(f, c, 0);
                self.lemma_skip(f, c, 1);
                self.lemma_skip(f, c, 2);
                self.lemma_next(f, g, py, px, c, 3, 0);
                self.lemma_skip(f, c, 4);
                self.lemma_next(f, g, py, px, c, 5, 1);
                self.lemma_skip(f, c, 6);
                self.lemma_skip(f, c, 7);
                self.lemma_skip(f, c, 8);
            } else if py == 1 && px == 0 {
                self.lemma_skip(f, c, 0);
                self.lemma_next(f, g, py, px, c, 1, 0);
                self.lemma_skip(f, c, 2);
                self.lemma_skip(f, c, 3);
                self.lemma_skip(f, c, 4);
                self.lemma_skip(f, c, 5);
                self.lemma_skip(f, c, 6);
                self.lemma_next(f, g, py, px, c, 7, 1);
                self.lemma_skip(f, c, 8);
            } else if py == 1 && px == 1 {
                self.lemma_next(f, g, py, px, c, 0, 0);
                self.lemma_skip(f, c, 1);
                self.lemma_next(f, g, py, px, c, 2, 1);
                self.lemma_skip(f, c, 3);
                self.lemma_skip(f, c, 4);
                self.lemma_skip(f, c, 5);
                self.lemma_next(f, g, py, px, c, 6, 2);
                self.lemma_skip(f, c, 7);
                self.lemma_next(f, g, py, px, c, 8, 3);
            }
        }
    }
}

/// The product of tap `j` of an input channel.
pub open spec fn at_tap<V>(f: spec_fn(int) -> V, ci: int, j: int) -> V {
    f(9 * ci + j)
}

/// Whether a tap of the 3x3 kernel reaches the outputs of a parity: the middle one the even
/// rows, the outer ones the odd rows, and the columns likewise.
pub open spec fn reaches(py: int, px: int, j: int) -> bool {
    (py == 0 <==> j / 3 == 1) && (px == 0 <==> j % 3 == 1)
}

/// The taps that reach the outputs of a parity, row by row.
pub open spec fn tap_at(py: int, px: int, i: int) -> int {
    let across: int = if px == 0 {
        1
    } else {
        2
    };
    let ky = if py == 0 {
        1
    } else {
        2 * (i / across)
    };
    let kx = if px == 0 {
        1
    } else {
        2 * (i % across)
    };
    3 * ky + kx
}

impl<V> Chip<V> {
    /// `k_conv_transpose`: source, weights `[cin][cout][kh][kw]`, bias, result, channels in
    /// and out, rows, columns, output rows, output columns, kernel rows, kernel columns,
    /// stride, padding.
    pub open spec fn gathers_all(self, s: Sums<V>, threads: int, args: Seq<Arg>, m: Memory<V>, n: Memory<V>) -> bool {
        let oh = count(args, 8);
        let ow = count(args, 9);
        let g = Raise {
            cin: count(args, 4),
            cout: count(args, 5),
            h: count(args, 6),
            w: count(args, 7),
            kh: count(args, 10),
            kw: count(args, 11),
            stride: count(args, 12),
            pad: count(args, 13),
        };
        &&& self.writes_only(m, n, address(args, 3))
        &&& forall|i: int|
            0 <= i < count(args, 5) * oh * ow && i < threads ==> #[trigger] self.read(
                n,
                address(args, 3),
                i,
            ) == s.raised(
                self.from(m, address(args, 1)),
                self.from(m, address(args, 0)),
                self.read(m, address(args, 2), i / ow / oh),
                g,
                i / ow / oh,
                i / ow % oh,
                i % ow,
            )
    }

    /// What a patch of an output of a parity holds for tap `i`.
    pub open spec fn reached(
        self,
        s: Sums<V>,
        m: Memory<V>,
        src: Addr,
        h: int,
        w: int,
        py: int,
        px: int,
        ci: int,
        i: int,
        a: int,
        b: int,
    ) -> V {
        let tap = tap_at(py, px, i);
        let y = (2 * a + py + 1 - tap / 3) / 2;
        let x = (2 * b + px + 1 - tap % 3) / 2;
        if 0 <= y < h && 0 <= x < w {
            self.read(m, src, (ci * h + y) * w + x)
        } else {
            s.zero
        }
    }

    /// `k_convt_col`: source, patches, channels, rows, columns, parity of the row and of
    /// the column, taps, outputs of that parity, output rows, output columns.
    pub open spec fn gathers_parity(self, s: Sums<V>, threads: int, args: Seq<Arg>, m: Memory<V>, n: Memory<V>) -> bool {
        let taps = count(args, 7);
        let long = count(args, 8);
        let across = (count(args, 10) + 1) / 2;
        let down = (count(args, 9) + 1) / 2;
        &&& self.writes_only(m, n, address(args, 1))
        &&& forall|i: int, o: int|
            0 <= i < count(args, 2) * taps && 0 <= o < long && o < across * down && i * long + o < threads
                ==> #[trigger] self.cell(n, address(args, 1), i, long, o) == self.reached(
                s,
                m,
                address(args, 0),
                count(args, 3),
                count(args, 4),
                count(args, 5),
                count(args, 6),
                i / taps,
                i % taps,
                o / across,
                o % across,
            )
    }

    /// `k_convt_put`: product, result, bias, channels, outputs of a parity, parity of the
    /// row and of the column, output rows, output columns, whether the bias is added.  It
    /// writes the outputs of its parity alone.
    pub open spec fn puts(self, s: Sums<V>, threads: int, args: Seq<Arg>, m: Memory<V>, n: Memory<V>) -> bool {
        let long = count(args, 4);
        let py = count(args, 5);
        let px = count(args, 6);
        let oh = count(args, 7);
        let ow = count(args, 8);
        let across = (ow + 1) / 2;
        &&& self.writes_only(m, n, address(args, 1))
        &&& forall|co: int, y: int, x: int|
            0 <= co < count(args, 3) && 0 <= y < oh && 0 <= x < ow ==> #[trigger] self.placed(
                n,
                address(args, 1),
                oh,
                ow,
                co,
                y,
                x,
            ) == {
                let place = y / 2 * across + x / 2;
                if !(y % 2 == py && x % 2 == px && place < long && co * long + place < threads) {
                    self.placed(m, address(args, 1), oh, ow, co, y, x)
                } else if count(args, 9) == 1 {
                    (s.plus)(
                        self.cell(m, address(args, 0), co, long, place),
                        self.read(m, address(args, 2), co),
                    )
                } else {
                    self.cell(m, address(args, 0), co, long, place)
                }
            }
    }

    /// The value at a position of planes.
    pub open spec fn placed(self, m: Memory<V>, a: Addr, h: int, w: int, c: int, y: int, x: int) -> V {
        self.read(m, a, (c * h + y) * w + x)
    }

    /// The kernels of an upsampling do what they are for.
    pub open spec fn raises_exactly(self, s: Sums<V>) -> bool {
        forall|act: Act, m: Memory<V>, n: Memory<V>| #[trigger]
            (self.run)(act, m, n) ==> self.raises_by(s, act, m, n)
    }

    /// One command does what its kernel is for.
    pub open spec fn raises_by(self, s: Sums<V>, act: Act, m: Memory<V>, n: Memory<V>) -> bool {
        match act {
            Act::Run { kernel, grid, threads, args } => match kernel {
                Kernel::ConvTranspose => self.gathers_all(s, grid * threads, args, m, n),
                Kernel::ConvtCol => self.gathers_parity(s, grid * threads, args, m, n),
                Kernel::ConvtPut => self.puts(s, grid * threads, args, m, n),
                _ => true,
            },
            _ => true,
        }
    }

    /// The matrix of a parity holds the weights of the taps that reach it.
    pub open spec fn has_phases(self, cv: DConvT) -> bool {
        cv.phases matches Some(p) ==> p@.len() == 4 && forall|py: int, px: int, co: int, ci: int, i: int|
            0 <= py <= 1 && 0 <= px <= 1 && 0 <= co < cv.cout && 0 <= ci < cv.cin && 0 <= i < taps_of(
                2 * py + px,
            ) ==> #[trigger] self.phase_weight(cv, p@[2 * py + px], py, px, co, ci, i)
    }

    /// One weight of a parity's matrix.
    pub open spec fn phase_weight(self, cv: DConvT, a: Addr, py: int, px: int, co: int, ci: int, i: int) -> bool {
        let taps = taps_of(2 * py + px);
        (self.weight)(a, co * (cv.cin * taps) + (ci * taps + i)) == (self.weight)(
            cv.w,
            (ci * cv.cout + co) * 9 + tap_at(py, px, i),
        )
    }
}

/// The upsampling of the network: 3x3, stride 2, padding 1.
pub open spec fn doubling(cv: DConvT, src: Tensor) -> Raise {
    Raise {
        cin: cv.cin as int,
        cout: cv.cout as int,
        h: src.h as int,
        w: src.w as int,
        kh: 3,
        kw: 3,
        stride: 2,
        pad: 1,
    }
}

impl<V> Chip<V> {
    /// An output of the upsampling, from the planes and the weights on the device.
    pub open spec fn doubled(
        self,
        s: Sums<V>,
        m: Memory<V>,
        cv: DConvT,
        src: Tensor,
        co: int,
        oy: int,
        ox: int,
    ) -> V {
        s.raised(
            self.from(m, cv.w),
            self.from(m, src.at),
            self.read(m, cv.bias, co),
            doubling(cv, src),
            co,
            oy,
            ox,
        )
    }

    /// The sum of a parity's matrix product is that of the transposed convolution.
    proof fn lemma_parity_sum(
        self,
        s: Sums<V>,
        cv: DConvT,
        src: Tensor,
        py: int,
        px: int,
        col: Addr,
        before: Memory<V>,
        m: Memory<V>,
        co: int,
        a: int,
        b: int,
    )
        requires
            s.lawful(),
            convt_placed(cv),
            cv.phases is Some,
            self.has_phases(cv),
            0 <= py <= 1,
            0 <= px <= 1,
            0 <= co < cv.cout,
            0 <= a < src.h,
            0 <= b < src.w,
            forall|i: int|
                0 <= i < cv.cin * taps_of(2 * py + px) ==> #[trigger] self.cell(
                    m,
                    col,
                    i,
                    src.h * src.w,
                    a * src.w + b,
                ) == self.reached(
                    s,
                    before,
                    src.at,
                    src.h as int,
                    src.w as int,
                    py,
                    px,
                    i / taps_of(2 * py + px),
                    i % taps_of(2 * py + px),
                    a,
                    b,
                ),
        ensures
            s.total(
                self.products(
                    s,
                    m,
                    cv.phases.unwrap()@[2 * py + px],
                    cv.cin * taps_of(2 * py + px),
                    col,
                    src.h * src.w,
                    co,
                    a * src.w + b,
                ),
                (cv.cin * taps_of(2 * py + px)) as nat,
            ) == s.total(
                s.raised_terms(
                    self.from(before, cv.w),
                    self.from(before, src.at),
                    doubling(cv, src),
                    co,
                    2 * a + py,
                    2 * b + px,
                ),
                (cv.cin * 3 * 3) as nat,
            ),
    {
        let taps = taps_of(2 * py + px);
        let k = cv.cin * taps;
        let matrix = cv.phases.unwrap()@[2 * py + px];
        let o = a * src.w + b;
        let g = self.products(s, m, matrix, k, col, src.h * src.w, co, o);
        let f = s.raised_terms(
            self.from(before, cv.w),
            self.from(before, src.at),
            doubling(cv, src),
            co,
            2 * a + py,
            2 * b + px,
        );
        assert forall|ci: int, j: int| 0 <= ci < cv.cin && 0 <= j < 9 && !reaches(py, px, j) implies #[trigger] at_tap(
            f,
            ci,
            j,
        ) == s.zero by {
            let t = 9 * ci + j;
            assert(t / 3 / 3 == ci && t / 3 % 3 == j / 3 && t % 3 == j % 3);
        }
        assert forall|ci: int, i: int| 0 <= ci < cv.cin && 0 <= i < taps implies #[trigger] g(ci * taps + i)
            == at_tap(f, ci, tap_at(py, px, i)) by {
            lemma_place(taps, cv.cin as int, i, ci);
            lemma_position(taps, i, ci);
            assert(taps * cv.cin == cv.cin * taps) by (nonlinear_arith);
            let j = tap_at(py, px, i);
            assert(0 <= j < 9 && reaches(py, px, j));
            let t = 9 * ci + j;
            assert(t / 3 / 3 == ci && t / 3 % 3 == j / 3 && t % 3 == j % 3);
            assert(self.phase_weight(cv, matrix, py, px, co, ci, i));
            assert(self.cell(m, col, ci * taps + i, src.h * src.w, o) == self.reached(
                s,
                before,
                src.at,
                src.h as int,
                src.w as int,
                py,
                px,
                ci,
                i,
                a,
                b,
            ));
            s.lemma_nothing(self.cell(m, matrix, co, k, ci * taps + i));
            let e = ci * cv.cout + co;
            assert((e * 3 + j / 3) * 3 + j % 3 == e * 9 + j);
            assert((2 * a + py + 1 - j / 3) % 2 == 0);
            assert((2 * b + px + 1 - j % 3) % 2 == 0);
        }
        s.lemma_one_parity(f, g, py, px, cv.cin as nat);
    }

    /// The outputs of one parity.
    #[verifier::spinoff_prover]
    proof fn lemma_parity(
        self,
        s: Sums<V>,
        t: Tape,
        u: Tape,
        v: Tape,
        cv: DConvT,
        src: Tensor,
        out: Tensor,
        py: int,
        px: int,
        m: Memory<V>,
        n: Memory<V>,
    ) -> (end: Memory<V>)
        requires
            s.lawful(),
            self.convolves_exactly(s),
            self.raises_exactly(s),
            convt_placed(cv),
            cv.phases is Some,
            self.has_phases(cv),
            src.small(),
            narrow(4 * cv.cin),
            narrow(cv.cout as int),
            narrow(2 * src.h),
            narrow(2 * src.w),
            0 <= py <= 1,
            0 <= px <= 1,
            0 <= t.next,
            src.at.base is Block,
            src.block() < t.next,
            out.at.base is Block,
            out.block() < t.next,
            out.block() != src.block(),
            out.h == 2 * src.h,
            out.w == 2 * src.w,
            phase_tape(t, cv, src, out.at, 2 * py + px) == Ok::<Tape, Seq<char>>(u),
            goes_on(u, v),
            self.leads(t, v, m, n),
        ensures
            u.next == t.next + 2,
            goes_on(t, u),
            self.leads(u, v, end, n),
            forall|b: int| b < t.next && b != out.block() ==> #[trigger] keeps(m, end, b),
            end.contains_key(out.block()) == m.contains_key(out.block()),
            end[out.block()].len() == m[out.block()].len(),
            forall|co: int, oy: int, ox: int|
                0 <= co < cv.cout && 0 <= oy < out.h && 0 <= ox < out.w ==> #[trigger] self.placed(
                    end,
                    out.at,
                    out.h as int,
                    out.w as int,
                    co,
                    oy,
                    ox,
                ) == if oy % 2 == py && ox % 2 == px {
                    self.doubled(s, m, cv, src, co, oy, ox)
                } else {
                    self.placed(m, out.at, out.h as int, out.w as int, co, oy, ox)
                },
    {
        let phase = 2 * py + px;
        let taps = taps_of(phase);
        let len = src.area();
        let k = cv.cin * taps;
        assert(0 <= k <= 4 * cv.cin) by (nonlinear_arith)
            requires
                k == cv.cin * taps,
                1 <= taps <= 4,
                0 <= cv.cin,
        ;
        assert(phase / 2 == py && phase % 2 == px);
        let col = t.fresh();
        let t1 = t.with_block(k * len);
        let part = t1.fresh();
        let t2 = t1.with_block(cv.cout * len);
        let gather = u.acts[t2.acts.len() as int];
        let t3 = t2.then_do(gather);
        let matrix = cv.phases.unwrap()@[phase];
        let t4 = sgemm_tape(t3, col, matrix, part, k, cv.cout as int, len)->Ok_0;
        let put = u.acts[t4.acts.len() as int];
        let t5 = t4.then_do(put);
        let t6 = t5.without(part);
        assert(u == t6.without(col));
        let m1 = self.lemma_first(t, t1, v, t1.acts.last(), m, n);
        let m2 = self.lemma_first(t1, t2, v, t2.acts.last(), m1, n);
        let m3 = self.lemma_first(t2, t3, v, gather, m2, n);
        let m4 = self.lemma_product(s, t3, t4, v, col, matrix, part, k, cv.cout as int, len, m3, n);
        let m5 = self.lemma_first(t4, t5, v, put, m4, n);
        let m6 = self.lemma_first(t5, t6, v, t6.acts.last(), m5, n);
        let end = self.lemma_first(t6, u, v, u.acts.last(), m6, n);
        assert((self.run)(gather, m2, m3) && (self.run)(put, m4, m5));
        let args = gather->args;
        let last = put->args;
        assert(self.gathers_parity(s, gather->grid * gather->threads, args, m2, m3));
        assert(self.puts(s, put->grid * put->threads, last, m4, m5));
        assert forall|b: int| b < t.next && b != out.block() implies #[trigger] keeps(m, end, b) by {
            assert(keeps(m, m1, b) && keeps(m1, m2, b) && keeps(m2, m3, b) && keeps(m3, m4, b)
                && keeps(m4, m5, b) && keeps(m5, m6, b) && keeps(m6, end, b));
        }
        let o = out.block();
        assert(keeps(m, m1, o) && keeps(m1, m2, o) && keeps(m2, m3, o) && keeps(m3, m4, o) && keeps(
            m5,
            m6,
            o,
        ) && keeps(m6, end, o));
        self.lemma_kept(m, m4, out.at);
        self.lemma_kept(m5, end, out.at);
        assert(keeps(m, m1, src.block()) && keeps(m1, m2, src.block()));
        self.lemma_kept(m, m2, src.at);
        let (oh, ow) = (out.h as int, out.w as int);
        assert((ow + 1) / 2 == src.w && (oh + 1) / 2 == src.h);
        assert forall|co: int, oy: int, ox: int|
            0 <= co < cv.cout && 0 <= oy < out.h && 0 <= ox < out.w implies #[trigger] self.placed(
            end,
            out.at,
            oh,
            ow,
            co,
            oy,
            ox,
        ) == if oy % 2 == py && ox % 2 == px {
            self.doubled(s, m, cv, src, co, oy, ox)
        } else {
            self.placed(m, out.at, oh, ow, co, oy, ox)
        } by {
            assert(self.placed(end, out.at, oh, ow, co, oy, ox) == self.placed(m5, address(last, 1), count(last, 7), count(last, 8), co, oy, ox));
            if oy % 2 == py && ox % 2 == px {
                let (a, b) = (oy / 2, ox / 2);
                lemma_place(src.w as int, src.h as int, b, a);
                assert(src.w * src.h == len) by (nonlinear_arith)
                    requires
                        len == src.h * src.w,
                ;
                let place = a * src.w + b;
                lemma_place(len, cv.cout as int, place, co);
                assert(len * cv.cout == cv.cout * len) by (nonlinear_arith);
                assert(oy == 2 * a + py && ox == 2 * b + px);
                assert(self.placed(m5, address(last, 1), count(last, 7), count(last, 8), co, oy, ox) == (s.plus)(
                    self.cell(m4, part, co, len, place),
                    self.read(m4, cv.bias, co),
                ));
                assert forall|i: int| 0 <= i < k implies #[trigger] self.cell(m3, col, i, len, place)
                    == self.reached(
                    s,
                    m,
                    src.at,
                    src.h as int,
                    src.w as int,
                    py,
                    px,
                    i / taps,
                    i % taps,
                    a,
                    b,
                ) by {
                    lemma_place(len, k, place, i);
                    assert(len * k == k * len) by (nonlinear_arith);
                    lemma_position(src.w as int, b, a);
                    assert(self.cell(m3, address(args, 1), i, count(args, 8), place) == self.cell(m3, col, i, len, place));
                }
                self.lemma_parity_sum(s, cv, src, py, px, col, m, m3, co, a, b);
                s.lemma_turn(self.cell(m4, part, co, len, place), self.read(m4, cv.bias, co));
            }
        }
        end
    }
}

/// A planned upsampling leaves the transposed convolution of its planes, by the gathering
/// kernel as by the four matrix products: every output is the bias and all the products
/// that reach it.  It keeps every block that was there.
pub proof fn law_planned_upsampling<V>(
    chip: Chip<V>,
    s: Sums<V>,
    t: Tape,
    u: Tape,
    cv: DConvT,
    src: Tensor,
    gather: bool,
    out: Tensor,
    m: Memory<V>,
    n: Memory<V>,
)
    requires
        s.lawful(),
        chip.convolves_exactly(s),
        chip.raises_exactly(s),
        convt_placed(cv),
        chip.has_phases(cv),
        0 <= t.next,
        src.at.base is Block,
        src.block() < t.next,
        upsample_tape(t, cv, src, gather) == Ok::<(Tape, Tensor), Seq<char>>((u, out)),
        chip.leads(t, u, m, n),
    ensures
        out.c == cv.cout,
        out.h == 2 * src.h,
        out.w == 2 * src.w,
        n[out.block()].len() == cv.cout * (4 * (src.h * src.w)),
        forall|co: int, oy: int, ox: int|
            0 <= co < cv.cout && 0 <= oy < 2 * src.h && 0 <= ox < 2 * src.w ==> #[trigger] chip.placed(
                n,
                out.at,
                2 * src.h,
                2 * src.w,
                co,
                oy,
                ox,
            ) == s.raised(
                chip.from(m, cv.w),
                chip.from(m, src.at),
                chip.read(m, cv.bias, co),
                doubling(cv, src),
                co,
                oy,
                ox,
            ),
        keeps_below(m, n, t.next),
{
    let total = cv.cout * (4 * src.area());
    let t1 = t.with_block(total);
    let (h, w) = (2 * src.h, 2 * src.w);
    if cv.phases is Some && !gather {
        reveal_with_fuel(phases_tape, 5);
        let p1 = phase_tape(t1, cv, src, out.at, 0)->Ok_0;
        let p2 = phase_tape(p1, cv, src, out.at, 1)->Ok_0;
        let p3 = phase_tape(p2, cv, src, out.at, 2)->Ok_0;
        assert(u == phase_tape(p3, cv, src, out.at, 3)->Ok_0);
        lemma_phase_goes_on(t1, cv, src, out.at, 0);
        lemma_phase_goes_on(p1, cv, src, out.at, 1);
        lemma_phase_goes_on(p2, cv, src, out.at, 2);
        lemma_phase_goes_on(p3, cv, src, out.at, 3);
        lemma_goes_on(p2, p3, u);
        lemma_goes_on(p1, p2, u);
        lemma_goes_on(t1, p1, u);
        let m1 = chip.lemma_first(t, t1, u, t1.acts.last(), m, n);
        let a = chip.lemma_parity(s, t1, p1, u, cv, src, out, 0, 0, m1, n);
        let b = chip.lemma_parity(s, p1, p2, u, cv, src, out, 0, 1, a, n);
        let c = chip.lemma_parity(s, p2, p3, u, cv, src, out, 1, 0, b, n);
        let d = chip.lemma_parity(s, p3, u, u, cv, src, out, 1, 1, c, n);
        chip.lemma_none(u, d, n);
        let q = src.block();
        assert(keeps(m, m1, q) && keeps(m1, a, q) && keeps(a, b, q) && keeps(b, c, q));
        chip.lemma_kept(m, m1, src.at);
        chip.lemma_kept(m, a, src.at);
        chip.lemma_kept(m, b, src.at);
        chip.lemma_kept(m, c, src.at);
        assert(chip.from(m1, cv.w) =~= chip.from(m, cv.w));
        assert(chip.from(a, cv.w) =~= chip.from(m, cv.w));
        assert(chip.from(b, cv.w) =~= chip.from(m, cv.w));
        assert(chip.from(c, cv.w) =~= chip.from(m, cv.w));
        assert forall|co: int, oy: int, ox: int|
            0 <= co < cv.cout && 0 <= oy < h && 0 <= ox < w implies #[trigger] chip.placed(
            n,
            out.at,
            h,
            w,
            co,
            oy,
            ox,
        ) == chip.doubled(s, m, cv, src, co, oy, ox) by {
            assert(chip.placed(n, out.at, out.h as int, out.w as int, co, oy, ox) == chip.placed(n, out.at, h, w, co, oy, ox));
            let v = chip.placed(c, out.at, out.h as int, out.w as int, co, oy, ox);
            let x = chip.placed(b, out.at, out.h as int, out.w as int, co, oy, ox);
            let y = chip.placed(a, out.at, out.h as int, out.w as int, co, oy, ox);
            assert(oy % 2 == 0 || oy % 2 == 1);
            assert(ox % 2 == 0 || ox % 2 == 1);
        }
        assert forall|k: int| k < t.next implies #[trigger] keeps(m, n, k) by {
            assert(keeps(m, m1, k) && keeps(m1, a, k) && keeps(a, b, k) && keeps(b, c, k) && keeps(c, n, k));
        }
    } else {
        let m1 = chip.lemma_first(t, t1, u, t1.acts.last(), m, n);
        let act = u.acts.last();
        let m2 = chip.lemma_first(t1, u, u, act, m1, n);
        chip.lemma_none(u, m2, n);
        assert((chip.run)(act, m1, n));
        let args = act->args;
        assert(chip.gathers_all(s, act->grid * act->threads, args, m1, n));
        assert(keeps(m, m1, src.block()));
        chip.lemma_kept(m, m1, src.at);
        assert(chip.from(m1, cv.w) =~= chip.from(m, cv.w));
        assert forall|co: int, oy: int, ox: int|
            0 <= co < cv.cout && 0 <= oy < h && 0 <= ox < w implies #[trigger] chip.placed(
            n,
            out.at,
            h,
            w,
            co,
            oy,
            ox,
        ) == chip.doubled(s, m, cv, src, co, oy, ox) by {
            lemma_place3(cv.cout as int, h, w, co, oy, ox);
            let i = (co * h + oy) * w + ox;
            assert(cv.cout * h * w == total) by (nonlinear_arith)
                requires
                    total == cv.cout * (4 * (src.h * src.w)),
                    h == 2 * src.h,
                    w == 2 * src.w,
            ;
            assert(chip.read(n, address(args, 3), i) == chip.placed(n, out.at, h, w, co, oy, ox));
        }
        assert forall|k: int| k < t.next implies #[trigger] keeps(m, n, k) by {
            assert(keeps(m, m1, k) && keeps(m1, n, k));
        }
    }
}

proof fn lemma_phase_goes_on(t: Tape, cv: DConvT, src: Tensor, out: Addr, phase: int)
    ensures
        phase_tape(t, cv, src, out, phase) matches Ok(u) ==> goes_on(t, u) && u.next == t.next + 2,
{
}

/// The weights that are uploaded for the direct kernel and for the four parities are those
/// that the kernels ask for: the same weights with their channels the other way round, and
/// for every parity the taps that reach it, row by row.
pub proof fn law_uploads_are_what_the_kernels_ask_for(
    w: Seq<u32>,
    cin: int,
    cout: int,
    py: int,
    px: int,
    turned: Seq<u32>,
    matrix: Seq<u32>,
    co: int,
    ci: int,
    i: int,
)
    requires
        0 <= py <= 1,
        0 <= px <= 1,
        0 <= co < cout,
        0 <= ci < cin,
    ensures
        swapped(w, cout, cin, 7, 7, turned) && 0 <= i < 49 ==> turned[(ci * cout + co) * 49 + i] == w[(co
            * cin + ci) * 49 + i],
        phase_of(w, cin, cout, 2 * py + px, matrix) && 0 <= i < taps_of(2 * py + px) ==> matrix[co * (cin
            * taps_of(2 * py + px)) + (ci * taps_of(2 * py + px) + i)] == w[(ci * cout + co) * 9 + tap_at(
            py,
            px,
            i,
        )],
{
    let (ky, kx) = (i / 7, i % 7);
    if 0 <= i < 49 && swapped(w, cout, cin, 7, 7, turned) {
        assert(at4(turned, cout, 7, 7, ci, co, ky, kx) == at4(w, cin, 7, 7, co, ci, ky, kx));
        let a = ci * cout + co;
        let b = co * cin + ci;
        assert((a * 7 + ky) * 7 + kx == a * 49 + i);
        assert((b * 7 + ky) * 7 + kx == b * 49 + i);
    }
    let taps = taps_of(2 * py + px);
    if 0 <= i < taps && phase_of(w, cin, cout, 2 * py + px, matrix) {
        assert((co * cin + ci) * taps + i == co * (cin * taps) + (ci * taps + i)) by (nonlinear_arith);
        let e = ci * cout + co;
        let (y, x) = crate::reorder::tap_at(2 * py + px, i);
        assert((e * 3 + y) * 3 + x == e * 9 + tap_at(py, px, i));
        assert(matrix[(co * cin + ci) * taps + i] == at4(w, cout, 3, 3, ci, co, y, x));
    }
}

} // verus!
