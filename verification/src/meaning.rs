//! What a planned convolution computes.
//!
//! Here every kernel of a convolution has a meaning: which numbers it reads and writes,
//! given its arguments and its grid.  The numbers are those of exact arithmetic, so that
//! the order in which they are added up does not matter.  A planned convolution then leaves
//! in the memory of the device what the host's convolution computes, for every kernel,
//! padding and stride, mirrored or not.

use vstd::prelude::*;
use vstd::arithmetic::mul::{lemma_mul_basics, lemma_mul_is_associative, lemma_mul_is_commutative, lemma_mul_is_distributive_add_other_way};

use crate::acts::Planes;
use crate::agree::{keeps, keeps_below, keeps_but, Memory};
use crate::conv::{convolved, convolved_at, starts, tap, tap_added, tap_steps, Conv2dW};
use crate::device::{blocks_for, narrow, Act, Addr, Arg, Base, Kernel, Tape};
use crate::fold::{folds, goes, is_trace};
use crate::grid::{lemma_area_le, lemma_place, lemma_place3, lemma_place3_of, lemma_position};
use crate::image::{lemma_reflect, reflect};
use crate::kernels::{bias_tape, conv_1x1_tape, conv_7x7_tape, conv_patches_tape, conv_placed, conv_tape, sgemm_tape, DConv, Tensor};
use crate::model::conv_extent;
use crate::scalar::Scalar;

verus! {

/// Numbers that are added and multiplied exactly.
#[verifier::reject_recursive_types(V)]
pub struct Sums<V> {
    pub zero: V,
    pub plus: spec_fn(V, V) -> V,
    pub times: spec_fn(V, V) -> V,
}

impl<V> Sums<V> {
    /// The sum of `f(0)`, `f(1)`, ... `f(n - 1)`.
    pub open spec fn total(self, f: spec_fn(int) -> V, n: nat) -> V
        decreases n,
    {
        if n == 0 {
            self.zero
        } else {
            (self.plus)(self.total(f, (n - 1) as nat), f(n - 1))
        }
    }

    /// The order of a sum does not matter, and zero adds nothing.
    #[verifier::opaque]
    pub open spec fn lawful(self) -> bool {
        &&& forall|a: V, b: V| #[trigger] (self.plus)(a, b) == (self.plus)(b, a)
        &&& forall|a: V, b: V, c: V| #[trigger]
            (self.plus)((self.plus)(a, b), c) == (self.plus)(a, (self.plus)(b, c))
        &&& forall|a: V| #[trigger] (self.plus)(a, self.zero) == a
        &&& forall|a: V| #[trigger] (self.times)(a, self.zero) == self.zero
    }

    /// Two summands can change places.
    pub proof fn lemma_turn(self, a: V, b: V)
        requires
            self.lawful(),
        ensures
            (self.plus)(a, b) == (self.plus)(b, a),
    {
        reveal(Sums::lawful);
    }

    /// Three summands can be added in either order.
    proof fn lemma_regroup(self, a: V, b: V, c: V)
        requires
            self.lawful(),
        ensures
            (self.plus)((self.plus)(a, b), c) == (self.plus)(a, (self.plus)(b, c)),
    {
        reveal(Sums::lawful);
    }

    /// Zero adds nothing, and nothing comes of multiplying by it.
    pub proof fn lemma_nothing(self, a: V)
        requires
            self.lawful(),
        ensures
            (self.plus)(a, self.zero) == a,
            (self.times)(a, self.zero) == self.zero,
    {
        reveal(Sums::lawful);
    }

    /// What the patch of an output position holds for tap `t`: the sample at its place in
    /// the plane, the mirrored one where the plane has ended and is mirrored, or zero.
    pub open spec fn patch(
        self,
        sample: spec_fn(int) -> V,
        h: int,
        w: int,
        kh: int,
        kw: int,
        pad: (int, int),
        stride: int,
        mirror: bool,
        t: int,
        oy: int,
        ox: int,
    ) -> V {
        let ci = t / kw / kh;
        let y = oy * stride + t / kw % kh - pad.0;
        let x = ox * stride + t % kw - pad.1;
        if 0 <= y < h && 0 <= x < w {
            sample((ci * h + y) * w + x)
        } else if mirror {
            sample((ci * h + reflect(y, h)) * w + reflect(x, w))
        } else {
            self.zero
        }
    }

    /// The products of the weights of an output channel and the samples of a patch.
    pub open spec fn terms(
        self,
        weight: spec_fn(int) -> V,
        sample: spec_fn(int) -> V,
        g: Geometry,
        co: int,
        oy: int,
        ox: int,
    ) -> spec_fn(int) -> V {
        |t: int|
            (self.times)(
                weight(co * g.taps() + t),
                self.patch(
                    sample,
                    g.h,
                    g.w,
                    g.kh,
                    g.kw,
                    (g.pad, g.pad),
                    g.stride,
                    g.mirror,
                    t,
                    oy,
                    ox,
                ),
            )
    }

    /// The output of a convolution at a position: the bias and all the products.
    pub open spec fn convolution(
        self,
        weight: spec_fn(int) -> V,
        sample: spec_fn(int) -> V,
        bias: V,
        g: Geometry,
        co: int,
        oy: int,
        ox: int,
    ) -> V {
        (self.plus)(
            bias,
            self.total(self.terms(weight, sample, g, co, oy, ox), g.taps() as nat),
        )
    }

    /// Equal summands have equal sums.
    pub proof fn lemma_same_total(self, f: spec_fn(int) -> V, g: spec_fn(int) -> V, n: nat)
        requires
            forall|i: int| 0 <= i < n ==> #[trigger] f(i) == g(i),
        ensures
            self.total(f, n) == self.total(g, n),
        decreases n,
    {
        if n > 0 {
            self.lemma_same_total(f, g, (n - 1) as nat);
            assert(f(n - 1) == g(n - 1));
        }
    }
}

/// The extents of a convolution: those of its kernel and of the planes, and how it goes
/// over them.
pub struct Geometry {
    pub cin: int,
    pub kh: int,
    pub kw: int,
    pub h: int,
    pub w: int,
    pub pad: int,
    pub stride: int,
    pub mirror: bool,
}

impl Geometry {
    /// The number of products in an output.
    pub open spec fn taps(self) -> int {
        self.cin * self.kh * self.kw
    }
}

/// A tape goes on from another.
pub open spec fn goes_on(t: Tape, v: Tape) -> bool {
    t.acts.len() <= v.acts.len() && forall|i: int|
        0 <= i < t.acts.len() ==> #[trigger] v.acts[i] == t.acts[i]
}

/// What goes on from a tape goes on from what that one went on from.
pub proof fn lemma_goes_on(t: Tape, u: Tape, v: Tape)
    requires
        goes_on(t, u),
        goes_on(u, v),
    ensures
        goes_on(t, v),
{
    assert forall|i: int| 0 <= i < t.acts.len() implies #[trigger] v.acts[i] == t.acts[i] by {
        assert(v.acts[i] == u.acts[i]);
    }
}

/// The address that an argument of a kernel is.
pub open spec fn address(args: Seq<Arg>, i: int) -> Addr {
    args[i]->Ptr_0
}

/// The number that an argument of a kernel is.
pub open spec fn count(args: Seq<Arg>, i: int) -> int {
    match args[i] {
        Arg::Int(n) => n as int,
        Arg::Long(n) => n as int,
        _ => 0,
    }
}

/// The block of an address.
pub open spec fn block_of(a: Addr) -> int {
    match a.base {
        Base::Block(b) => b as int,
        _ => -1,
    }
}

/// A device by what launching a kernel may do to its memory, and by the parameters that it
/// holds.
#[verifier::reject_recursive_types(V)]
pub struct Chip<V> {
    pub run: spec_fn(Act, Memory<V>, Memory<V>) -> bool,
    /// The number at a place of the parameters.
    pub weight: spec_fn(Addr, int) -> V,
}

impl<V> Chip<V> {
    /// The number at a place from an address on.
    pub open spec fn read(self, m: Memory<V>, a: Addr, i: int) -> V {
        match a.base {
            Base::Block(b) => m[b as int][a.offset as int / 4 + i],
            _ => (self.weight)(a, i),
        }
    }

    /// The numbers from an address on.
    pub open spec fn from(self, m: Memory<V>, a: Addr) -> spec_fn(int) -> V {
        |i: int| self.read(m, a, i)
    }

    /// The number in a row and a column from an address on.
    pub open spec fn cell(self, m: Memory<V>, a: Addr, row: int, long: int, column: int) -> V {
        self.read(m, a, row * long + column)
    }

    /// Nothing but the numbers of one block changed.
    pub open spec fn writes_only(self, m: Memory<V>, n: Memory<V>, a: Addr) -> bool {
        &&& keeps_but(m, n, block_of(a))
        &&& n.contains_key(block_of(a)) == m.contains_key(block_of(a))
        &&& n[block_of(a)].len() == m[block_of(a)].len()
    }

    /// `k_im2col`: source, patches, channels, rows, columns, kernel rows, kernel columns,
    /// padding of rows and of columns, stride, output rows, output columns, mirroring.
    pub open spec fn gathers(
        self,
        s: Sums<V>,
        threads: int,
        args: Seq<Arg>,
        m: Memory<V>,
        n: Memory<V>,
    ) -> bool {
        let kh = count(args, 5);
        let kw = count(args, 6);
        let ow = count(args, 11);
        let long = count(args, 10) * ow;
        &&& self.writes_only(m, n, address(args, 1))
        &&& forall|t: int, o: int|
            0 <= t < count(args, 2) * kh * kw && 0 <= o < long && t * long + o < threads
                ==> #[trigger] self.cell(n, address(args, 1), t, long, o) == s.patch(
                self.from(m, address(args, 0)),
                count(args, 3),
                count(args, 4),
                kh,
                kw,
                (count(args, 7), count(args, 8)),
                count(args, 9),
                count(args, 12) == 1,
                t,
                o / ow,
                o % ow,
            )
    }

    /// `k_sgemm_slab`: samples, weights, result, the lengths of their rows, depth, result
    /// rows, result columns, and blocks to a row of tiles of 64 by 64.
    pub open spec fn multiplies(
        self,
        s: Sums<V>,
        grid: int,
        args: Seq<Arg>,
        m: Memory<V>,
        n: Memory<V>,
    ) -> bool {
        let tiles = count(args, 9);
        &&& self.writes_only(m, n, address(args, 2))
        &&& forall|co: int, o: int|
            0 <= co < count(args, 7) && 0 <= o < count(args, 8) && o / 64 < tiles && co / 64 * tiles
                + o / 64 < grid ==> #[trigger] self.cell(n, address(args, 2), co, count(args, 5), o)
                == s.total(
                self.products(
                    s,
                    m,
                    address(args, 1),
                    count(args, 4),
                    address(args, 0),
                    count(args, 3),
                    co,
                    o,
                ),
                count(args, 6) as nat,
            )
    }

    /// The products of a row of weights and a column of samples.
    pub open spec fn products(
        self,
        s: Sums<V>,
        m: Memory<V>,
        w: Addr,
        w_long: int,
        a: Addr,
        a_long: int,
        co: int,
        o: int,
    ) -> spec_fn(int) -> V {
        |t: int| (s.times)(self.cell(m, w, co, w_long, t), self.cell(m, a, t, a_long, o))
    }

    /// `k_bias_plane`: planes, bias, channels, length of a plane.
    pub open spec fn biases(
        self,
        s: Sums<V>,
        threads: int,
        args: Seq<Arg>,
        m: Memory<V>,
        n: Memory<V>,
    ) -> bool {
        let long = count(args, 3);
        &&& self.writes_only(m, n, address(args, 0))
        &&& forall|co: int, o: int|
            0 <= co < count(args, 2) && 0 <= o < long && co * long + o < threads
                ==> #[trigger] self.cell(n, address(args, 0), co, long, o) == (s.plus)(
                self.cell(m, address(args, 0), co, long, o),
                self.read(m, address(args, 1), co),
            )
    }

    /// The products of the direct 7x7 kernel, whose weights are `[cin][cout][7][7]`.
    pub open spec fn direct_products(
        self,
        s: Sums<V>,
        m: Memory<V>,
        weights: Addr,
        src: Addr,
        cout: int,
        h: int,
        w: int,
        co: int,
        oy: int,
        ox: int,
    ) -> spec_fn(int) -> V {
        |t: int|
            {
                let (ci, ky, kx) = (t / 7 / 7, t / 7 % 7, t % 7);
                (s.times)(
                    self.read(m, weights, ((ci * cout + co) * 7 + ky) * 7 + kx),
                    self.read(m, src, (ci * h + (oy + ky)) * w + (ox + kx)),
                )
            }
    }

    /// `k_conv7x7`: source, weights, bias or nothing, result, channels in and out, rows,
    /// columns, output rows, output columns; one thread for every output position.
    pub open spec fn convolves(
        self,
        s: Sums<V>,
        threads: int,
        args: Seq<Arg>,
        m: Memory<V>,
        n: Memory<V>,
    ) -> bool {
        let ow = count(args, 9);
        let long = count(args, 8) * ow;
        &&& self.writes_only(m, n, address(args, 3))
        &&& forall|co: int, o: int|
            0 <= co < count(args, 5) && 0 <= o < long && o < threads ==> #[trigger] self.cell(
                n,
                address(args, 3),
                co,
                long,
                o,
            ) == (s.plus)(
                if args[2] is Null {
                    s.zero
                } else {
                    self.read(m, address(args, 2), co)
                },
                s.total(
                    self.direct_products(
                        s,
                        m,
                        address(args, 1),
                        address(args, 0),
                        count(args, 5),
                        count(args, 6),
                        count(args, 7),
                        co,
                        o / ow,
                        o % ow,
                    ),
                    (count(args, 4) * 7 * 7) as nat,
                ),
            )
    }

    /// The kernels of a convolution do what they are for.
    pub open spec fn convolves_exactly(self, s: Sums<V>) -> bool {
        forall|act: Act, m: Memory<V>, n: Memory<V>| #[trigger]
            (self.run)(act, m, n) ==> self.keeps_its_word(s, act, m, n)
    }

    /// One command does what its kernel is for.
    pub open spec fn keeps_its_word(self, s: Sums<V>, act: Act, m: Memory<V>, n: Memory<V>) -> bool {
        match act {
            Act::Run { kernel, grid, threads, args } => match kernel {
                Kernel::Im2col => self.gathers(s, grid * threads, args, m, n),
                Kernel::SgemmSlab => self.multiplies(s, grid, args, m, n),
                Kernel::BiasPlane => self.biases(s, grid * threads, args, m, n),
                Kernel::Conv7x7 => self.convolves(s, grid * threads, args, m, n),
                _ => true,
            },
            _ => true,
        }
    }

    /// A command leads from one state of the memory to another.
    pub open spec fn does(self, act: Act, m: Memory<V>, n: Memory<V>) -> bool {
        match act {
            Act::Alloc { block, len } => n.contains_key(block) && n[block].len() == len && keeps_but(
                m,
                n,
                block,
            ),
            Act::Free { block } => !n.contains_key(block) && keeps_but(m, n, block),
            _ => (self.run)(act, m, n),
        }
    }

    /// The commands one by one.
    pub open spec fn steps(self, acts: Seq<Act>) -> spec_fn(int, Memory<V>, Memory<V>) -> bool {
        |i: int, a: Memory<V>, b: Memory<V>| self.does(acts[i], a, b)
    }

    /// The commands that `u` has more than `t` lead from one state of the memory to another.
    pub open spec fn leads(self, t: Tape, u: Tape, m: Memory<V>, n: Memory<V>) -> bool {
        let acts = u.acts.skip(t.acts.len() as int);
        folds(m, self.steps(acts), acts.len(), n)
    }

    /// The state after the first of the commands.
    pub proof fn lemma_first(self, t: Tape, u: Tape, v: Tape, act: Act, m: Memory<V>, n: Memory<V>) -> (mid:
        Memory<V>)
        requires
            u.acts == t.acts.push(act),
            goes_on(u, v),
            self.leads(t, v, m, n),
        ensures
            self.does(act, m, mid),
            self.leads(u, v, mid, n),
    {
        let all = v.acts.skip(t.acts.len() as int);
        let rest = v.acts.skip(u.acts.len() as int);
        let trace = choose|trace: Seq<Memory<V>>| #[trigger]
            is_trace(trace, m, self.steps(all), all.len(), n);
        assert(goes(self.steps(all), trace, 0));
        assert(all[0] == u.acts[t.acts.len() as int]);
        let tail = trace.skip(1);
        assert forall|i: int| 0 <= i < rest.len() implies #[trigger] goes(self.steps(rest), tail, i) by {
            assert(goes(self.steps(all), trace, i + 1));
            assert(all[i + 1] == rest[i]);
        }
        assert(is_trace(tail, trace[1], self.steps(rest), rest.len(), n));
        trace[1]
    }

    /// No commands.
    pub proof fn lemma_none(self, t: Tape, m: Memory<V>, n: Memory<V>)
        requires
            self.leads(t, t, m, n),
        ensures
            n == m,
    {
        let acts = t.acts.skip(t.acts.len() as int);
        let trace = choose|trace: Seq<Memory<V>>| #[trigger]
            is_trace(trace, m, self.steps(acts), acts.len(), n);
        assert(acts.len() == 0);
    }

    /// What a bias adds to an output channel.
    pub open spec fn bias(self, s: Sums<V>, m: Memory<V>, bias: Option<Addr>, co: int) -> V {
        match bias {
            Some(b) => self.read(m, b, co),
            None => s.zero,
        }
    }

    /// A planned matrix product leaves its sums of products.
    pub proof fn lemma_product(
        self,
        s: Sums<V>,
        t: Tape,
        u: Tape,
        v: Tape,
        a: Addr,
        b: Addr,
        out: Addr,
        k: int,
        cout: int,
        len: int,
        m: Memory<V>,
        n: Memory<V>,
    ) -> (mid: Memory<V>)
        requires
            self.convolves_exactly(s),
            sgemm_tape(t, a, b, out, k, cout, len) == Ok::<Tape, Seq<char>>(u),
            goes_on(u, v),
            narrow(k),
            narrow(cout),
            narrow(len),
            self.leads(t, v, m, n),
        ensures
            self.leads(u, v, mid, n),
            self.writes_only(m, mid, out),
            forall|co: int, o: int|
                0 <= co < cout && 0 <= o < len ==> #[trigger] self.cell(mid, out, co, len, o)
                    == s.total(self.products(s, m, b, k, a, len, co, o), k as nat),
    {
        let act = u.acts.last();
        let mid = self.lemma_first(t, u, v, act, m, n);
        assert((self.run)(act, m, mid));
        let args = act->args;
        assert(self.multiplies(s, act->grid, args, m, mid));
        assert forall|co: int, o: int| 0 <= co < cout && 0 <= o < len implies #[trigger] self.cell(
            mid,
            out,
            co,
            len,
            o,
        ) == s.total(self.products(s, m, b, k, a, len, co, o), k as nat) by {
            let across = blocks_for(len, 64);
            let down = blocks_for(cout, 64);
            assert(0 <= o / 64 < across);
            assert(0 <= co / 64 < down);
            lemma_place(across, down, o / 64, co / 64);
            assert(self.cell(mid, address(args, 2), co, count(args, 5), o) == self.cell(mid, out, co, len, o));
        }
        mid
    }

    /// A planned bias is added to every output of its channel.
    proof fn lemma_bias(
        self,
        s: Sums<V>,
        t: Tape,
        v: Tape,
        out: Addr,
        bias: Option<Addr>,
        cout: int,
        len: int,
        m: Memory<V>,
        n: Memory<V>,
    ) -> (mid: Memory<V>)
        requires
            s.lawful(),
            self.convolves_exactly(s),
            goes_on(bias_tape(t, out, bias, cout, len), v),
            narrow(cout),
            narrow(len),
            self.leads(t, v, m, n),
        ensures
            self.leads(bias_tape(t, out, bias, cout, len), v, mid, n),
            self.writes_only(m, mid, out),
            forall|co: int, o: int|
                0 <= co < cout && 0 <= o < len ==> #[trigger] self.cell(mid, out, co, len, o) == (s.plus)(
                    self.cell(m, out, co, len, o),
                    self.bias(s, m, bias, co),
                ),
    {
        match bias {
            None => {
                assert forall|co: int, o: int| 0 <= co < cout && 0 <= o < len implies #[trigger] self.cell(
                    m,
                    out,
                    co,
                    len,
                    o,
                ) == (s.plus)(self.cell(m, out, co, len, o), self.bias(s, m, bias, co)) by {
                    s.lemma_nothing(self.cell(m, out, co, len, o));
                }
                m
            },
            Some(b) => {
                let u = bias_tape(t, out, bias, cout, len);
                let act = u.acts.last();
                let mid = self.lemma_first(t, u, v, act, m, n);
                assert((self.run)(act, m, mid));
                let args = act->args;
                assert(self.biases(s, act->grid * act->threads, args, m, mid));
                assert forall|co: int, o: int| 0 <= co < cout && 0 <= o < len implies #[trigger] self.cell(
                    mid,
                    out,
                    co,
                    len,
                    o,
                ) == (s.plus)(self.cell(m, out, co, len, o), self.bias(s, m, bias, co)) by {
                    lemma_place(len, cout, o, co);
                    assert(len * cout == cout * len) by (nonlinear_arith);
                    assert(self.cell(mid, address(args, 0), co, count(args, 3), o) == self.cell(mid, out, co, len, o));
                }
                mid
            },
        }
    }

    /// The planes of a tensor are the convolution of those of another with the weights on
    /// the device.
    pub open spec fn convolved_into(
        self,
        s: Sums<V>,
        cv: DConv,
        src: Tensor,
        pad: int,
        stride: int,
        mirror: bool,
        m: Memory<V>,
        n: Memory<V>,
        out: Tensor,
    ) -> bool {
        let g = geometry(cv, src, pad, stride, mirror);
        &&& out.c == cv.cout
        &&& out.h == conv_extent(src.h as int, cv.kh as int, stride, pad)
        &&& out.w == conv_extent(src.w as int, cv.kw as int, stride, pad)
        &&& n.contains_key(out.block())
        &&& n[out.block()].len() == out.count()
        &&& forall|co: int, oy: int, ox: int|
            0 <= co < out.c && 0 <= oy < out.h && 0 <= ox < out.w ==> #[trigger] self.value(
                n,
                out,
                co,
                oy,
                ox,
            ) == s.convolution(
                self.from(m, cv.w),
                self.from(m, src.at),
                self.bias(s, m, cv.bias, co),
                g,
                co,
                oy,
                ox,
            )
    }

    /// One value of a tensor.
    pub open spec fn value(self, m: Memory<V>, t: Tensor, c: int, y: int, x: int) -> V {
        self.read(m, t.at, (c * t.h + y) * t.w + x)
    }

    /// The numbers of a block that was kept are what they were.
    pub proof fn lemma_kept(self, m: Memory<V>, n: Memory<V>, a: Addr)
        requires
            a.base matches Base::Block(b) ==> keeps(m, n, b as int),
        ensures
            forall|i: int| #[trigger] self.read(n, a, i) == self.read(m, a, i),
            self.from(n, a) == self.from(m, a),
    {
        assert(self.from(n, a) =~= self.from(m, a));
    }

    /// The value of a plane by its place in the plane.
    pub proof fn lemma_value(self, m: Memory<V>, t: Tensor, c: int, y: int, x: int)
        requires
            0 <= y < t.h,
            0 <= x < t.w,
            0 <= c < t.c,
        ensures
            self.value(m, t, c, y, x) == self.cell(m, t.at, c, t.h * t.w, y * t.w + x),
            0 <= y * t.w + x < t.h * t.w,
            (y * t.w + x) / t.w as int == y,
            (y * t.w + x) % t.w as int == x,
    {
        lemma_place3(t.c as int, t.h as int, t.w as int, c, y, x);
        lemma_position(t.w as int, x, y);
    }

    proof fn lemma_gathered(
        self,
        s: Sums<V>,
        threads: int,
        args: Seq<Arg>,
        m: Memory<V>,
        n: Memory<V>,
        t: int,
        o: int,
    )
        requires
            self.gathers(s, threads, args, m, n),
            0 <= t < count(args, 2) * count(args, 5) * count(args, 6),
            0 <= o < count(args, 10) * count(args, 11),
            t * (count(args, 10) * count(args, 11)) + o < threads,
        ensures
            self.cell(n, address(args, 1), t, count(args, 10) * count(args, 11), o) == s.patch(
                self.from(m, address(args, 0)),
                count(args, 3),
                count(args, 4),
                count(args, 5),
                count(args, 6),
                (count(args, 7), count(args, 8)),
                count(args, 9),
                count(args, 12) == 1,
                t,
                o / count(args, 11),
                o % count(args, 11),
            ),
    {
    }

    #[verifier::spinoff_prover]
    proof fn lemma_by_patches(
        self,
        s: Sums<V>,
        t: Tape,
        u: Tape,
        cv: DConv,
        src: Tensor,
        pad: int,
        stride: int,
        mirror: bool,
        m: Memory<V>,
        n: Memory<V>,
        out: Tensor,
    )
        requires
            s.lawful(),
            self.convolves_exactly(s),
            conv_placed(cv),
            src.at.base is Block,
            src.block() < t.next,
            conv_patches_tape(t, cv, src, pad, stride, mirror) == Ok::<(Tape, Tensor), Seq<char>>((u, out)),
            self.leads(t, u, m, n),
        ensures
            self.convolved_into(s, cv, src, pad, stride, mirror, m, n, out),
            keeps_below(m, n, t.next),
    {
        let g = geometry(cv, src, pad, stride, mirror);
        let (oh, ow) = (out.h as int, out.w as int);
        let k = cv.cin * cv.kh * cv.kw;
        let len = oh * ow;
        let col = t.fresh();
        let t1 = t.with_block(k * len);
        let t2 = t1.with_block(cv.cout * len);
        let t3 = Tape { acts: t2.acts.push(u.acts[t2.acts.len() as int]), next: t2.next };
        let t4 = sgemm_tape(t3, col, cv.w, out.at, k, cv.cout as int, len)->Ok_0;
        let t5 = bias_tape(t4, out.at, cv.bias, cv.cout as int, len);
        assert(u == t5.without(col));
        let m1 = self.lemma_first(t, t1, u, t1.acts.last(), m, n);
        let m2 = self.lemma_first(t1, t2, u, t2.acts.last(), m1, n);
        let gather = t3.acts.last();
        let m3 = self.lemma_first(t2, t3, u, gather, m2, n);
        assert((self.run)(gather, m2, m3));
        let args = gather->args;
        assert(self.gathers(s, gather->grid * gather->threads, args, m2, m3));
        let m4 = self.lemma_product(
            s,
            t3,
            t4,
            u,
            col,
            cv.w,
            out.at,
            k,
            cv.cout as int,
            len,
            m3,
            n,
        );
        let m5 = self.lemma_bias(s, t4, u, out.at, cv.bias, cv.cout as int, len, m4, n);
        let m6 = self.lemma_first(t5, u, u, u.acts.last(), m5, n);
        self.lemma_none(u, m6, n);
        let source = src.block();
        assert(keeps(m, m1, source) && keeps(m1, m2, source));
        self.lemma_kept(m, m2, src.at);
        assert(keeps(m5, n, out.block()));
        self.lemma_kept(m5, n, out.at);
        assert(self.from(m3, cv.w) =~= self.from(m, cv.w));
        assert forall|co: int, oy: int, ox: int|
            0 <= co < out.c && 0 <= oy < out.h && 0 <= ox < out.w implies #[trigger] self.value(
            n,
            out,
            co,
            oy,
            ox,
        ) == s.convolution(
            self.from(m, cv.w),
            self.from(m, src.at),
            self.bias(s, m, cv.bias, co),
            g,
            co,
            oy,
            ox,
        ) by {
            self.lemma_value(n, out, co, oy, ox);
            let o = oy * ow + ox;
            assert(self.cell(n, out.at, co, len, o) == self.cell(m5, out.at, co, len, o));
            let f = self.products(s, m3, cv.w, k, col, len, co, o);
            let h = s.terms(self.from(m, cv.w), self.from(m, src.at), g, co, oy, ox);
            assert forall|i: int| 0 <= i < k implies #[trigger] f(i) == h(i) by {
                lemma_place(len, k, o, i);
                assert(len * k == k * len) by (nonlinear_arith);
                assert(i * len + o < gather->grid * gather->threads);
                assert(count(args, 10) * count(args, 11) == len);
                assert(count(args, 2) * count(args, 5) * count(args, 6) == k);
                self.lemma_gathered(s, gather->grid * gather->threads, args, m2, m3, i, o);
                assert(self.cell(m3, col, i, len, o) == s.patch(
                    self.from(m, src.at),
                    g.h,
                    g.w,
                    g.kh,
                    g.kw,
                    (pad, pad),
                    stride,
                    mirror,
                    i,
                    oy,
                    ox,
                ));
                assert(self.cell(m3, cv.w, co, k, i) == self.from(m, cv.w)(co * k + i));
            }
            s.lemma_same_total(f, h, k as nat);
            s.lemma_turn(s.total(f, k as nat), self.bias(s, m, cv.bias, co));
            assert(self.bias(s, m4, cv.bias, co) == self.bias(s, m, cv.bias, co));
        }
        assert forall|b: int| b < t.next implies #[trigger] keeps(m, n, b) by {
            assert(keeps(m, m1, b) && keeps(m1, m2, b) && keeps(m2, m3, b) && keeps(m3, m4, b)
                && keeps(m4, m5, b) && keeps(m5, n, b));
        }
        assert(keeps(m2, m3, out.block()));
    }

    #[verifier::spinoff_prover]
    proof fn lemma_by_product(
        self,
        s: Sums<V>,
        t: Tape,
        u: Tape,
        cv: DConv,
        src: Tensor,
        mirror: bool,
        m: Memory<V>,
        n: Memory<V>,
        out: Tensor,
    )
        requires
            s.lawful(),
            self.convolves_exactly(s),
            conv_placed(cv),
            cv.kh == 1,
            cv.kw == 1,
            src.at.base is Block,
            src.block() < t.next,
            conv_1x1_tape(t, cv, src) == Ok::<(Tape, Tensor), Seq<char>>((u, out)),
            self.leads(t, u, m, n),
        ensures
            self.convolved_into(s, cv, src, 0, 1, mirror, m, n, out),
            keeps_below(m, n, t.next),
    {
        let g = geometry(cv, src, 0, 1, mirror);
        let len = src.area();
        let k = cv.cin as int;
        let t1 = t.with_block(cv.cout * len);
        let t2 = sgemm_tape(t1, src.at, cv.w, out.at, k, cv.cout as int, len)->Ok_0;
        assert(u == bias_tape(t2, out.at, cv.bias, cv.cout as int, len));
        let m1 = self.lemma_first(t, t1, u, t1.acts.last(), m, n);
        let m2 = self.lemma_product(s, t1, t2, u, src.at, cv.w, out.at, k, cv.cout as int, len, m1, n);
        let m3 = self.lemma_bias(s, t2, u, out.at, cv.bias, cv.cout as int, len, m2, n);
        self.lemma_none(u, m3, n);
        assert(keeps(m, m1, src.block()));
        self.lemma_kept(m, m1, src.at);
        assert(self.from(m1, cv.w) =~= self.from(m, cv.w));
        assert(g.taps() == k) by (nonlinear_arith)
            requires
                g.taps() == k * 1 * 1,
        ;
        assert forall|co: int, oy: int, ox: int|
            0 <= co < out.c && 0 <= oy < out.h && 0 <= ox < out.w implies #[trigger] self.value(
            n,
            out,
            co,
            oy,
            ox,
        ) == s.convolution(
            self.from(m, cv.w),
            self.from(m, src.at),
            self.bias(s, m, cv.bias, co),
            g,
            co,
            oy,
            ox,
        ) by {
            self.lemma_value(n, out, co, oy, ox);
            let o = oy * out.w + ox;
            let f = self.products(s, m1, cv.w, k, src.at, len, co, o);
            let h = s.terms(self.from(m, cv.w), self.from(m, src.at), g, co, oy, ox);
            assert forall|i: int| 0 <= i < k implies #[trigger] f(i) == h(i) by {
                assert(i / 1int / 1int == i && i / 1int % 1int == 0 && i % 1int == 0);
                lemma_place3(k, src.h as int, src.w as int, i, oy, ox);
                assert(oy * 1 == oy && ox * 1 == ox);
                assert(self.cell(m1, cv.w, co, k, i) == self.from(m, cv.w)(co * k + i));
            }
            s.lemma_same_total(f, h, k as nat);
            s.lemma_turn(s.total(f, k as nat), self.bias(s, m, cv.bias, co));
            assert(self.bias(s, m2, cv.bias, co) == self.bias(s, m, cv.bias, co));
        }
        assert forall|b: int| b < t.next implies #[trigger] keeps(m, n, b) by {
            assert(keeps(m, m1, b) && keeps(m1, m2, b) && keeps(m2, n, b));
        }
    }

    /// The weights that the direct kernel reads are those of the convolution, with their
    /// channels the other way round.
    pub open spec fn turned(self, cv: DConv) -> bool {
        cv.w_t matches Some(w_t) ==> forall|co: int, ci: int, i: int|
            0 <= co < cv.cout && 0 <= ci < cv.cin && 0 <= i < 49 ==> #[trigger] self.turned_at(
                cv,
                w_t,
                co,
                ci,
                i,
            )
    }

    /// One weight is found at its place in both orders.
    pub open spec fn turned_at(self, cv: DConv, w_t: Addr, co: int, ci: int, i: int) -> bool {
        (self.weight)(w_t, (ci * cv.cout + co) * 49 + i) == (self.weight)(cv.w, (co * cv.cin + ci) * 49 + i)
    }

    #[verifier::spinoff_prover]
    proof fn lemma_directly(
        self,
        s: Sums<V>,
        t: Tape,
        u: Tape,
        cv: DConv,
        src: Tensor,
        mirror: bool,
        m: Memory<V>,
        n: Memory<V>,
        out: Tensor,
    )
        requires
            s.lawful(),
            self.convolves_exactly(s),
            conv_placed(cv),
            self.turned(cv),
            cv.kh == 7,
            cv.kw == 7,
            src.at.base is Block,
            src.block() < t.next,
            conv_7x7_tape(t, cv, src) == Ok::<(Tape, Tensor), Seq<char>>((u, out)),
            self.leads(t, u, m, n),
        ensures
            self.convolved_into(s, cv, src, 0, 1, mirror, m, n, out),
            keeps_below(m, n, t.next),
    {
        let g = geometry(cv, src, 0, 1, mirror);
        let (oh, ow) = (out.h as int, out.w as int);
        let len = oh * ow;
        let w_t = cv.w_t.unwrap();
        let t1 = t.with_block(cv.cout * len);
        let m1 = self.lemma_first(t, t1, u, t1.acts.last(), m, n);
        let act = u.acts.last();
        let m2 = self.lemma_first(t1, u, u, act, m1, n);
        self.lemma_none(u, m2, n);
        assert((self.run)(act, m1, n));
        let args = act->args;
        assert(self.convolves(s, act->grid * act->threads, args, m1, n));
        assert(keeps(m, m1, src.block()));
        self.lemma_kept(m, m1, src.at);
        assert forall|co: int, oy: int, ox: int|
            0 <= co < out.c && 0 <= oy < out.h && 0 <= ox < out.w implies #[trigger] self.value(
            n,
            out,
            co,
            oy,
            ox,
        ) == s.convolution(
            self.from(m, cv.w),
            self.from(m, src.at),
            self.bias(s, m, cv.bias, co),
            g,
            co,
            oy,
            ox,
        ) by {
            self.lemma_value(n, out, co, oy, ox);
            let o = oy * ow + ox;
            assert(self.cell(n, address(args, 3), co, count(args, 8) * count(args, 9), o) == self.cell(
                n,
                out.at,
                co,
                len,
                o,
            ));
            let f = self.direct_products(
                s,
                m1,
                w_t,
                src.at,
                cv.cout as int,
                src.h as int,
                src.w as int,
                co,
                oy,
                ox,
            );
            let h = s.terms(self.from(m, cv.w), self.from(m, src.at), g, co, oy, ox);
            let taps = g.taps();
            assert(taps == cv.cin * 7 * 7);
            assert forall|i: int| 0 <= i < taps implies #[trigger] f(i) == h(i) by {
                lemma_place3_of(cv.cin as int, 7, 7, i);
                let (ci, ky, kx) = (i / 7 / 7, i / 7 % 7, i % 7);
                assert(self.turned_at(cv, w_t, co, ci, ky * 7 + kx));
                let a = ci * cv.cout + co;
                assert((a * 7 + ky) * 7 + kx == a * 49 + (ky * 7 + kx));
                let b = co * cv.cin + ci;
                assert((co * cv.cin + ci) * 49 == co * taps + ci * 49) by (nonlinear_arith)
                    requires
                        taps == cv.cin * 7 * 7,
                ;
                assert(co * taps + i == b * 49 + (ky * 7 + kx));
                assert(oy * 1 == oy && ox * 1 == ox);
            }
            s.lemma_same_total(f, h, taps as nat);
        }
        assert forall|b: int| b < t.next implies #[trigger] keeps(m, n, b) by {
            assert(keeps(m, m1, b) && keeps(m1, n, b));
        }
    }
}

/// The extents of a convolution on the device.
pub open spec fn geometry(cv: DConv, src: Tensor, pad: int, stride: int, mirror: bool) -> Geometry {
    Geometry {
        cin: cv.cin as int,
        kh: cv.kh as int,
        kw: cv.kw as int,
        h: src.h as int,
        w: src.w as int,
        pad,
        stride,
        mirror,
    }
}

/// Where its kernels do what they are for, a planned convolution leaves in the block of its
/// result, for every stride and padding, the sums over the padded planes: the output at row
/// `oy` and column `ox` has its first sample at row `oy * stride - pad` and column
/// `ox * stride - pad`, mirrored or zero outside.  It keeps every block that was there.  A
/// 1x1 convolution of stride 1 pads nothing.
pub proof fn law_planned_convolution<V>(
    chip: Chip<V>,
    s: Sums<V>,
    t: Tape,
    u: Tape,
    cv: DConv,
    src: Tensor,
    pad: int,
    stride: int,
    mirror: bool,
    m: Memory<V>,
    n: Memory<V>,
    out: Tensor,
)
    requires
        s.lawful(),
        chip.convolves_exactly(s),
        conv_placed(cv),
        chip.turned(cv),
        src.at.base is Block,
        src.block() < t.next,
        cv.kh == 1 && cv.kw == 1 && stride == 1 ==> pad == 0,
        conv_tape(t, cv, src, pad, stride, mirror) == Ok::<(Tape, Tensor), Seq<char>>((u, out)),
        chip.leads(t, u, m, n),
    ensures
        chip.convolved_into(s, cv, src, pad, stride, mirror, m, n, out),
        keeps_below(m, n, t.next),
{
    if cv.kh == 1 && cv.kw == 1 && stride == 1 {
        chip.lemma_by_product(s, t, u, cv, src, mirror, m, n, out);
    } else if cv.kh == 7 && cv.kw == 7 && stride == 1 && pad == 0 && cv.w_t is Some {
        chip.lemma_directly(s, t, u, cv, src, mirror, m, n, out);
    } else {
        chip.lemma_by_patches(s, t, u, cv, src, pad, stride, mirror, m, n, out);
    }
}

/// `num` says which exact number a number of the host stands for: a product added to a sum
/// stands for the product added to the sum, and zero for zero.
pub open spec fn stands<S: Scalar, V>(s: Sums<V>, num: spec_fn(S) -> V) -> bool {
    &&& forall|z: S| #[trigger] call_ensures(S::zero, (), z) ==> num(z) == s.zero
    &&& forall|a: S, k: S, x: S, r: S| #[trigger]
        call_ensures(S::plus_product, (a, k, x), r) ==> num(r) == (s.plus)(
            num(a),
            (s.times)(num(k), num(x)),
        )
}

/// The exact numbers that a buffer of the host stands for.
pub open spec fn exactly<S, V>(num: spec_fn(S) -> V, data: Seq<S>) -> spec_fn(int) -> V {
    |i: int| num(data[i])
}

/// What the bias of the host adds to an output channel.
pub open spec fn host_bias<S: Scalar, V>(s: Sums<V>, num: spec_fn(S) -> V, cv: Conv2dW<S>, co: int) -> V {
    match cv.bias {
        Some(b) => num(b@[co]),
        None => s.zero,
    }
}

/// The extents of a convolution on the host.
pub open spec fn host_geometry<S: Scalar>(
    cv: Conv2dW<S>,
    src: Planes<S>,
    pad: int,
    stride: int,
    mirror: bool,
) -> Geometry {
    Geometry {
        cin: cv.cin as int,
        kh: cv.kh as int,
        kw: cv.kw as int,
        h: src.h,
        w: src.w,
        pad,
        stride,
        mirror,
    }
}

proof fn lemma_product_of_three(a: int, b: int, c: int)
    requires
        0 <= a,
        0 <= b,
        0 <= c,
    ensures
        0 <= a * b * c,
{
    lemma_area_le(0, 0, a, b);
    lemma_area_le(0, 0, a * b, c);
}

/// What is not empty has no side of length zero.
proof fn lemma_no_empty_side(a: int, b: int, c: int)
    requires
        0 < a * b * c,
        0 <= b,
        0 <= c,
    ensures
        0 < b,
        0 < c,
{
    lemma_mul_basics(a * b);
    lemma_mul_basics(a);
    lemma_mul_basics(c);
}

/// The place of a weight is that of its output channel and that of its tap.
proof fn lemma_weight_place(cin: int, kh: int, kw: int, co: int, ci: int, ky: int, kx: int)
    ensures
        ((co * cin + ci) * kh + ky) * kw + kx == co * (cin * kh * kw) + ((ci * kh + ky) * kw + kx),
{
    lemma_mul_is_distributive_add_other_way(kh, co * cin, ci);
    lemma_mul_is_distributive_add_other_way(kw, co * cin * kh, ci * kh + ky);
    lemma_mul_is_associative(co, cin, kh);
    lemma_mul_is_associative(co, cin * kh, kw);
}

/// A sum over taps stands for where it starts from and the exact products.
proof fn lemma_taps<S: Scalar, V>(
    s: Sums<V>,
    num: spec_fn(S) -> V,
    cv: Conv2dW<S>,
    src: Planes<S>,
    pad: int,
    stride: int,
    mirror: bool,
    co: int,
    oy: int,
    ox: int,
    trace: Seq<S>,
    n: nat,
    end: S,
    i: nat,
)
    requires
        s.lawful(),
        stands(s, num),
        cv.cin <= src.c,
        1 <= src.h,
        1 <= src.w,
        0 <= co < cv.cout,
        n == cv.taps(),
        is_trace(trace, trace[0], tap_steps(cv, src, pad, stride, mirror, co, oy, ox), n, end),
        i <= n,
    ensures
        num(trace[i as int]) == (s.plus)(
            num(trace[0]),
            s.total(
                s.terms(
                    exactly(num, cv.w@),
                    exactly(num, src.data),
                    host_geometry(cv, src, pad, stride, mirror),
                    co,
                    oy,
                    ox,
                ),
                i,
            ),
        ),
    decreases i,
{
    let g = host_geometry(cv, src, pad, stride, mirror);
    let f = s.terms(exactly(num, cv.w@), exactly(num, src.data), g, co, oy, ox);
    if i > 0 {
        let t = i - 1;
        lemma_taps(
            s,
            num,
            cv,
            src,
            pad,
            stride,
            mirror,
            co,
            oy,
            ox,
            trace,
            n,
            end,
            t as nat,
        );
        let step = tap_steps(cv, src, pad, stride, mirror, co, oy, ox);
        assert(goes(step, trace, t));
        let (kh, kw) = (cv.kh as int, cv.kw as int);
        lemma_no_empty_side(cv.cin as int, kh, kw);
        lemma_place3_of(cv.cin as int, kh, kw, t);
        let ci = t / kw / kh;
        let (ky, kx) = (t / kw % kh, t % kw);
        lemma_weight_place(cv.cin as int, kh, kw, co, ci, ky, kx);
        let y = oy * stride + ky - pad;
        let x = ox * stride + kx - pad;
        lemma_reflect(y, src.h);
        lemma_reflect(x, src.w);
        let before = trace[t];
        let after = trace[t + 1];
        assert(tap_added(tap(cv, src, pad, stride, mirror, co, oy, ox, t), before, after));
        s.lemma_nothing(num(before));
        s.lemma_nothing(num(cv.w@[co * g.taps() + t]));
        assert(num(after) == (s.plus)(num(before), f(t)));
        s.lemma_regroup(num(trace[0]), s.total(f, t as nat), f(t));
    } else {
        s.lemma_nothing(num(trace[0]));
    }
}

/// Every output of the host's convolution stands for the bias and the sum of the products
/// of the weights `[cout][cin][kh][kw]` and the samples of the padded planes, the output at
/// row `oy` and column `ox` having its first sample at row `oy * stride - pad` and column
/// `ox * stride - pad`.
pub proof fn law_convolution_is_a_sum<S: Scalar, V>(
    s: Sums<V>,
    num: spec_fn(S) -> V,
    cv: Conv2dW<S>,
    src: Planes<S>,
    pad: int,
    stride: int,
    mirror: bool,
    out: Planes<S>,
    co: int,
    oy: int,
    ox: int,
)
    requires
        s.lawful(),
        stands(s, num),
        cv.cin <= src.c,
        1 <= src.h,
        1 <= src.w,
        convolved(cv, src, pad, stride, mirror, out),
        0 <= co < out.c,
        0 <= oy < out.h,
        0 <= ox < out.w,
    ensures
        num(out.data[(co * out.h + oy) * out.w + ox]) == s.convolution(
            exactly(num, cv.w@),
            exactly(num, src.data),
            host_bias(s, num, cv, co),
            host_geometry(cv, src, pad, stride, mirror),
            co,
            oy,
            ox,
        ),
{
    assert(out.inside(co, oy, ox));
    let r = out.value(co, oy, ox);
    let step = tap_steps(cv, src, pad, stride, mirror, co, oy, ox);
    let n = cv.taps() as nat;
    lemma_product_of_three(cv.cin as int, cv.kh as int, cv.kw as int);
    assert(convolved_at(cv, src, pad, stride, mirror, co, oy, ox, r));
    let start = choose|start: S| #[trigger]
        starts(cv.bias, co, start) && folds(start, step, n, r);
    let trace = choose|trace: Seq<S>| #[trigger] is_trace(trace, start, step, n, r);
    lemma_taps(s, num, cv, src, pad, stride, mirror, co, oy, ox, trace, n, r, n);
}

/// The weights of a convolution on the device are those of one on the host.
pub open spec fn same_weights<S: Scalar, V>(chip: Chip<V>, num: spec_fn(S) -> V, cv: Conv2dW<S>, d: DConv) -> bool {
    &&& d.cin == cv.cin
    &&& d.cout == cv.cout
    &&& d.kh == cv.kh
    &&& d.kw == cv.kw
    &&& forall|i: int|
        0 <= i < cv.cout * cv.cin * cv.kh * cv.kw ==> #[trigger] (chip.weight)(d.w, i) == num(cv.w@[i])
    &&& d.bias is Some <==> cv.bias is Some
    &&& d.bias matches Some(a) ==> forall|co: int|
        0 <= co < cv.cout ==> #[trigger] (chip.weight)(a, co) == num(cv.bias.unwrap()@[co])
}

/// The planes of a tensor stand for planes of the host.
pub open spec fn same_planes<S, V>(chip: Chip<V>, num: spec_fn(S) -> V, m: Memory<V>, t: Tensor, p: Planes<S>) -> bool {
    &&& p.shaped(t.c as int, t.h as int, t.w as int)
    &&& forall|i: int| 0 <= i < p.data.len() ==> #[trigger] chip.read(m, t.at, i) == num(p.data[i])
}

/// Two sums over the same products are the same.
proof fn lemma_same_convolution<V>(
    s: Sums<V>,
    w0: spec_fn(int) -> V,
    w1: spec_fn(int) -> V,
    x0: spec_fn(int) -> V,
    x1: spec_fn(int) -> V,
    bias: V,
    g: Geometry,
    channels: int,
    cout: int,
    co: int,
    oy: int,
    ox: int,
)
    requires
        0 <= g.cin <= channels,
        0 <= g.kh,
        0 <= g.kw,
        1 <= g.h,
        1 <= g.w,
        0 <= co < cout,
        forall|i: int| 0 <= i < cout * g.cin * g.kh * g.kw ==> #[trigger] w0(i) == w1(i),
        forall|i: int| 0 <= i < channels * g.h * g.w ==> #[trigger] x0(i) == x1(i),
    ensures
        s.convolution(w0, x0, bias, g, co, oy, ox) == s.convolution(w1, x1, bias, g, co, oy, ox),
{
    let n = g.taps();
    let f0 = s.terms(w0, x0, g, co, oy, ox);
    let f1 = s.terms(w1, x1, g, co, oy, ox);
    lemma_product_of_three(g.cin, g.kh, g.kw);
    assert forall|t: int| 0 <= t < n implies #[trigger] f0(t) == f1(t) by {
        lemma_no_empty_side(g.cin, g.kh, g.kw);
        lemma_place3_of(g.cin, g.kh, g.kw, t);
        lemma_place(n, cout, t, co);
        lemma_mul_is_commutative(n, cout);
        lemma_mul_is_associative(cout, g.cin * g.kh, g.kw);
        lemma_mul_is_associative(cout, g.cin, g.kh);
        assert(w0(co * n + t) == w1(co * n + t));
        let ci = t / g.kw / g.kh;
        let y = oy * g.stride + t / g.kw % g.kh - g.pad;
        let x = ox * g.stride + t % g.kw - g.pad;
        lemma_reflect(y, g.h);
        lemma_reflect(x, g.w);
        lemma_place3(channels, g.h, g.w, ci, reflect(y, g.h), reflect(x, g.w));
        let i = (ci * g.h + reflect(y, g.h)) * g.w + reflect(x, g.w);
        assert(x0(i) == x1(i));
    }
    s.lemma_same_total(f0, f1, n as nat);
}

/// A planned convolution leaves in the memory of the device the planes that the host's
/// convolution computes with the same padding, stride and mirroring from the same weights
/// and planes.
pub proof fn law_planned_convolution_is_the_hosts<S: Scalar, V>(
    chip: Chip<V>,
    s: Sums<V>,
    num: spec_fn(S) -> V,
    t: Tape,
    u: Tape,
    cv: Conv2dW<S>,
    d: DConv,
    src: Tensor,
    p: Planes<S>,
    pad: int,
    stride: int,
    mirror: bool,
    m: Memory<V>,
    n: Memory<V>,
    out: Tensor,
    q: Planes<S>,
)
    requires
        s.lawful(),
        stands(s, num),
        chip.convolves_exactly(s),
        conv_placed(d),
        chip.turned(d),
        same_weights(chip, num, cv, d),
        src.at.base is Block,
        src.block() < t.next,
        same_planes(chip, num, m, src, p),
        1 <= src.h,
        1 <= src.w,
        cv.cin <= src.c,
        cv.kh == 1 && cv.kw == 1 && stride == 1 ==> pad == 0,
        conv_tape(t, d, src, pad, stride, mirror) == Ok::<(Tape, Tensor), Seq<char>>((u, out)),
        chip.leads(t, u, m, n),
        convolved(cv, p, pad, stride, mirror, q),
    ensures
        same_planes(chip, num, n, out, q),
        keeps_below(m, n, t.next),
{
    law_planned_convolution(chip, s, t, u, d, src, pad, stride, mirror, m, n, out);
    assert forall|i: int| 0 <= i < q.data.len() implies #[trigger] chip.read(n, out.at, i) == num(
        q.data[i],
    ) by {
        lemma_no_empty_side(q.c, q.h, q.w);
        lemma_place3_of(q.c, q.h, q.w, i);
        let (co, oy, ox) = (i / q.w / q.h, i / q.w % q.h, i % q.w);
        assert(chip.value(n, out, co, oy, ox) == chip.read(n, out.at, i));
        law_convolution_is_a_sum(s, num, cv, p, pad, stride, mirror, q, co, oy, ox);
        lemma_same_convolution(
            s,
            chip.from(m, d.w),
            exactly(num, cv.w@),
            chip.from(m, src.at),
            exactly(num, p.data),
            host_bias(s, num, cv, co),
            host_geometry(cv, p, pad, stride, mirror),
            p.c,
            cv.cout as int,
            co,
            oy,
            ox,
        );
        assert(chip.bias(s, m, d.bias, co) == host_bias(s, num, cv, co));
    }
}

} // verus!
