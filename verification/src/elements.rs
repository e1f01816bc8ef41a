//! What the planned operations compute that work value by value.
//!
//! Here the kernels of these operations have a meaning, given their arguments and the
//! number of their threads.  Every operation then treats each value of its planes, once,
//! as the host's operation does.

use vstd::prelude::*;

use crate::agree::{keeps, keeps_below, keeps_but, Memory};
use crate::device::{Act, Addr, Arg, Kernel, Tape};
use crate::grid::{lemma_area_le, lemma_place, lemma_place3, lemma_position};
use crate::image::reflect;
use crate::kernels::{add_tape, bn_relu_add_tape, bn_relu_tape, copy_tape, mirror_tape, pool_tape, sigmoid_tape, stack_tape, DBn, Tensor};
use crate::meaning::{address, block_of, count, goes_on, Chip};

verus! {

/// What is computed of single values.
#[verifier::reject_recursive_types(V)]
pub struct Formulas<V> {
    pub plus: spec_fn(V, V) -> V,
    /// A value times a scale plus a shift.
    pub scaled: spec_fn(V, V, V) -> V,
    pub rectified: spec_fn(V) -> V,
    pub squashed: spec_fn(V) -> V,
    /// The mean of four values, row by row.
    pub mean: spec_fn(V, V, V, V) -> V,
}

impl<V> Chip<V> {
    /// Nothing but `n` numbers from an address on changed, at most.
    pub open spec fn writes_up_to(self, m: Memory<V>, k: Memory<V>, a: Addr, n: int) -> bool {
        &&& self.writes_only(m, k, a)
        &&& forall|j: int|
            !(a.offset as int / 4 <= j < a.offset as int / 4 + n) ==> #[trigger] k[block_of(a)][j]
                == m[block_of(a)][j]
    }

    /// `k_bn_relu`: planes, scales, shifts, length of a plane, channels.
    pub open spec fn norms(self, f: Formulas<V>, threads: int, args: Seq<Arg>, m: Memory<V>, n: Memory<V>) -> bool {
        let long = count(args, 3);
        let all = long * count(args, 4);
        &&& self.writes_up_to(m, n, address(args, 0), all)
        &&& forall|i: int|
            0 <= i < all && i < threads ==> #[trigger] self.read(n, address(args, 0), i) == (f.rectified)(
                (f.scaled)(
                    self.read(m, address(args, 0), i),
                    self.read(m, address(args, 1), i / long),
                    self.read(m, address(args, 2), i / long),
                ),
            )
    }

    /// `k_bn_relu_add`: planes, planes to add or nothing, scales, shifts, length of a
    /// plane, channels.
    pub open spec fn norms_and_adds(
        self,
        f: Formulas<V>,
        threads: int,
        args: Seq<Arg>,
        m: Memory<V>,
        n: Memory<V>,
    ) -> bool {
        let long = count(args, 4);
        let all = long * count(args, 5);
        &&& self.writes_up_to(m, n, address(args, 0), all)
        &&& forall|i: int|
            0 <= i < all && i < threads ==> #[trigger] self.read(n, address(args, 0), i) == {
                let v = (f.rectified)(
                    (f.scaled)(
                        self.read(m, address(args, 0), i),
                        self.read(m, address(args, 2), i / long),
                        self.read(m, address(args, 3), i / long),
                    ),
                );
                if args[1] is Null {
                    v
                } else {
                    (f.plus)(v, self.read(m, address(args, 1), i))
                }
            }
    }

    /// `k_sigmoid`: from, to, how many.
    pub open spec fn squashes(self, f: Formulas<V>, threads: int, args: Seq<Arg>, m: Memory<V>, n: Memory<V>) -> bool {
        &&& self.writes_up_to(m, n, address(args, 1), count(args, 2))
        &&& forall|i: int|
            0 <= i < count(args, 2) && i < threads ==> #[trigger] self.read(n, address(args, 1), i)
                == (f.squashed)(self.read(m, address(args, 0), i))
    }

    /// `k_add_inplace`: planes, planes to add, how many.
    pub open spec fn sums_up(self, f: Formulas<V>, threads: int, args: Seq<Arg>, m: Memory<V>, n: Memory<V>) -> bool {
        &&& self.writes_up_to(m, n, address(args, 0), count(args, 2))
        &&& forall|i: int|
            0 <= i < count(args, 2) && i < threads ==> #[trigger] self.read(n, address(args, 0), i)
                == (f.plus)(self.read(m, address(args, 0), i), self.read(m, address(args, 1), i))
    }

    /// `k_copy`: from, to, how many.
    pub open spec fn copies(self, threads: int, args: Seq<Arg>, m: Memory<V>, n: Memory<V>) -> bool {
        &&& self.writes_up_to(m, n, address(args, 1), count(args, 2))
        &&& forall|i: int|
            0 <= i < count(args, 2) && i < threads ==> #[trigger] self.read(n, address(args, 1), i)
                == self.read(m, address(args, 0), i)
    }

    /// `k_reflect_pad`: from, to, channels, rows, columns, padding.
    pub open spec fn mirrors(self, threads: int, args: Seq<Arg>, m: Memory<V>, n: Memory<V>) -> bool {
        let h = count(args, 3);
        let w = count(args, 4);
        let pad = count(args, 5);
        let oh = h + 2 * pad;
        let ow = w + 2 * pad;
        &&& self.writes_up_to(m, n, address(args, 1), count(args, 2) * oh * ow)
        &&& forall|i: int|
            0 <= i < count(args, 2) * oh * ow && i < threads ==> #[trigger] self.read(
                n,
                address(args, 1),
                i,
            ) == self.read(
                m,
                address(args, 0),
                (i / ow / oh * h + reflect(i / ow % oh - pad, h)) * w + reflect(i % ow - pad, w),
            )
    }

    /// `k_avgpool2x2`: from, to, channels, rows, columns.
    pub open spec fn averages(self, f: Formulas<V>, threads: int, args: Seq<Arg>, m: Memory<V>, n: Memory<V>) -> bool {
        let h = count(args, 3);
        let w = count(args, 4);
        let oh = h / 2;
        let ow = w / 2;
        &&& self.writes_up_to(m, n, address(args, 1), count(args, 2) * oh * ow)
        &&& forall|i: int|
            0 <= i < count(args, 2) * oh * ow && i < threads ==> #[trigger] self.read(
                n,
                address(args, 1),
                i,
            ) == self.mean_at(f, m, address(args, 0), h, w, i / ow / oh, i / ow % oh, i % ow)
    }

    /// The mean of two by two values of a plane.
    pub open spec fn mean_at(
        self,
        f: Formulas<V>,
        m: Memory<V>,
        a: Addr,
        h: int,
        w: int,
        c: int,
        y: int,
        x: int,
    ) -> V {
        (f.mean)(
            self.read(m, a, (c * h + 2 * y) * w + 2 * x),
            self.read(m, a, (c * h + 2 * y) * w + (2 * x + 1)),
            self.read(m, a, (c * h + (2 * y + 1)) * w + 2 * x),
            self.read(m, a, (c * h + (2 * y + 1)) * w + (2 * x + 1)),
        )
    }

    /// The kernels that work value by value do what they are for.
    pub open spec fn works_exactly(self, f: Formulas<V>) -> bool {
        forall|act: Act, m: Memory<V>, n: Memory<V>| #[trigger]
            (self.run)(act, m, n) ==> self.works_by(f, act, m, n)
    }

    /// One command does what its kernel is for.
    pub open spec fn works_by(self, f: Formulas<V>, act: Act, m: Memory<V>, n: Memory<V>) -> bool {
        match act {
            Act::Run { kernel, grid, threads, args } => match kernel {
                Kernel::BnRelu => self.norms(f, grid * threads, args, m, n),
                Kernel::BnReluAdd => self.norms_and_adds(f, grid * threads, args, m, n),
                Kernel::Sigmoid => self.squashes(f, grid * threads, args, m, n),
                Kernel::AddInplace => self.sums_up(f, grid * threads, args, m, n),
                Kernel::Copy => self.copies(grid * threads, args, m, n),
                Kernel::ReflectPad => self.mirrors(grid * threads, args, m, n),
                Kernel::AvgPool2x2 => self.averages(f, grid * threads, args, m, n),
                _ => true,
            },
            _ => true,
        }
    }

    /// The only command.
    proof fn lemma_only(self, t: Tape, u: Tape, m: Memory<V>, n: Memory<V>)
        requires
            u.acts.len() == t.acts.len() + 1,
            goes_on(t, u),
            self.leads(t, u, m, n),
        ensures
            self.does(u.acts.last(), m, n),
    {
        assert(u.acts =~= t.acts.push(u.acts.last()));
        let mid = self.lemma_first(t, u, u, u.acts.last(), m, n);
        self.lemma_none(u, mid, n);
    }

    /// A block and then one kernel.
    proof fn lemma_block_and_kernel(self, t: Tape, u: Tape, len: int, m: Memory<V>, n: Memory<V>) -> (mid: Memory<V>)
        requires
            u.acts.len() == t.acts.len() + 2,
            goes_on(t.with_block(len), u),
            self.leads(t, u, m, n),
        ensures
            self.does(Act::Alloc { block: t.next, len }, m, mid),
            self.does(u.acts.last(), mid, n),
    {
        let t1 = t.with_block(len);
        let mid = self.lemma_first(t, t1, u, t1.acts.last(), m, n);
        self.lemma_only(t1, u, mid, n);
        mid
    }
}

/// BatchNorm and ReLU on the device: every value of every channel of the norm is scaled and
/// shifted by the numbers of its channel, and rectified.  Nothing else changes.
pub proof fn law_planned_norm<V>(
    chip: Chip<V>,
    f: Formulas<V>,
    t: Tape,
    u: Tape,
    x: Tensor,
    bn: DBn,
    m: Memory<V>,
    n: Memory<V>,
    c: int,
    i: int,
)
    requires
        chip.works_exactly(f),
        bn_relu_tape(t, x, bn) == Ok::<Tape, Seq<char>>(u),
        chip.leads(t, u, m, n),
        0 <= c < bn.channels,
        0 <= i < x.h * x.w,
    ensures
        chip.read(n, x.at, c * (x.h * x.w) + i) == (f.rectified)(
            (f.scaled)(
                chip.read(m, x.at, c * (x.h * x.w) + i),
                chip.read(m, bn.scale, c),
                chip.read(m, bn.shift, c),
            ),
        ),
        keeps_but(m, n, block_of(x.at)),
{
    chip.lemma_only(t, u, m, n);
    let act = u.acts.last();
    assert((chip.run)(act, m, n));
    assert(chip.norms(f, act->grid * act->threads, act->args, m, n));
    let long = x.area();
    lemma_place(long, bn.channels as int, i, c);
    lemma_position(long, i, c);
    assert(chip.read(n, address(act->args, 0), c * long + i) == chip.read(n, x.at, c * long + i));
}

/// BatchNorm, ReLU and the skip connection on the device: the same, with the value of the
/// skip connection at the same place added.
pub proof fn law_planned_norm_with_skip<V>(
    chip: Chip<V>,
    f: Formulas<V>,
    t: Tape,
    u: Tape,
    x: Tensor,
    bn: DBn,
    skip: Option<Tensor>,
    m: Memory<V>,
    n: Memory<V>,
    c: int,
    i: int,
)
    requires
        chip.works_exactly(f),
        bn_relu_add_tape(t, x, bn, skip) == Ok::<Tape, Seq<char>>(u),
        chip.leads(t, u, m, n),
        0 <= c < bn.channels,
        0 <= i < x.h * x.w,
    ensures
        ({
            let place = c * (x.h * x.w) + i;
            let v = (f.rectified)(
                (f.scaled)(
                    chip.read(m, x.at, place),
                    chip.read(m, bn.scale, c),
                    chip.read(m, bn.shift, c),
                ),
            );
            chip.read(n, x.at, place) == match skip {
                Some(s) => (f.plus)(v, chip.read(m, s.at, place)),
                None => v,
            }
        }),
        keeps_but(m, n, block_of(x.at)),
{
    chip.lemma_only(t, u, m, n);
    let act = u.acts.last();
    assert((chip.run)(act, m, n));
    assert(chip.norms_and_adds(f, act->grid * act->threads, act->args, m, n));
    let long = x.area();
    lemma_place(long, bn.channels as int, i, c);
    lemma_position(long, i, c);
    assert(chip.read(n, address(act->args, 0), c * long + i) == chip.read(n, x.at, c * long + i));
}

/// The logistic function on the device takes every value.
pub proof fn law_planned_sigmoid<V>(
    chip: Chip<V>,
    f: Formulas<V>,
    t: Tape,
    u: Tape,
    x: Tensor,
    m: Memory<V>,
    n: Memory<V>,
    i: int,
)
    requires
        chip.works_exactly(f),
        sigmoid_tape(t, x) == Ok::<Tape, Seq<char>>(u),
        chip.leads(t, u, m, n),
        0 <= i < x.c * (x.h * x.w),
    ensures
        chip.read(n, x.at, i) == (f.squashed)(chip.read(m, x.at, i)),
        keeps_but(m, n, block_of(x.at)),
{
    chip.lemma_only(t, u, m, n);
    let act = u.acts.last();
    assert((chip.run)(act, m, n));
    assert(chip.squashes(f, act->grid * act->threads, act->args, m, n));
    assert(chip.read(n, address(act->args, 1), i) == chip.read(n, x.at, i));
}

/// A sum on the device takes every value.
pub proof fn law_planned_sum<V>(
    chip: Chip<V>,
    f: Formulas<V>,
    t: Tape,
    u: Tape,
    a: Tensor,
    b: Tensor,
    m: Memory<V>,
    n: Memory<V>,
    i: int,
)
    requires
        chip.works_exactly(f),
        add_tape(t, a, b) == Ok::<Tape, Seq<char>>(u),
        chip.leads(t, u, m, n),
        0 <= i < a.c * (a.h * a.w),
    ensures
        chip.read(n, a.at, i) == (f.plus)(chip.read(m, a.at, i), chip.read(m, b.at, i)),
        keeps_but(m, n, block_of(a.at)),
{
    chip.lemma_only(t, u, m, n);
    let act = u.acts.last();
    assert((chip.run)(act, m, n));
    assert(chip.sums_up(f, act->grid * act->threads, act->args, m, n));
    assert(chip.read(n, address(act->args, 0), i) == chip.read(n, a.at, i));
}

/// A copy on the device holds every value.
pub proof fn law_planned_copy<V>(
    chip: Chip<V>,
    f: Formulas<V>,
    t: Tape,
    u: Tape,
    src: Tensor,
    out: Tensor,
    m: Memory<V>,
    n: Memory<V>,
    i: int,
)
    requires
        chip.works_exactly(f),
        src.at.base is Block,
        src.block() < t.next,
        copy_tape(t, src) == Ok::<(Tape, Tensor), Seq<char>>((u, out)),
        chip.leads(t, u, m, n),
        0 <= i < src.c * (src.h * src.w),
    ensures
        out == (Tensor { at: out.at, ..src }),
        chip.read(n, out.at, i) == chip.read(m, src.at, i),
        keeps_below(m, n, t.next),
{
    let mid = chip.lemma_block_and_kernel(t, u, src.count(), m, n);
    let act = u.acts.last();
    assert((chip.run)(act, mid, n));
    assert(chip.copies(act->grid * act->threads, act->args, mid, n));
    assert(keeps(m, mid, src.block()));
    chip.lemma_kept(m, mid, src.at);
    assert(chip.read(n, address(act->args, 1), i) == chip.read(n, out.at, i));
    assert forall|b: int| b < t.next implies #[trigger] keeps(m, n, b) by {
        assert(keeps(m, mid, b) && keeps(mid, n, b));
    }
}

/// Stacked planes on the device are those of the first followed by those of the second.
pub proof fn law_planned_stack<V>(
    chip: Chip<V>,
    f: Formulas<V>,
    t: Tape,
    u: Tape,
    a: Tensor,
    b: Tensor,
    out: Tensor,
    m: Memory<V>,
    n: Memory<V>,
    i: int,
)
    requires
        chip.works_exactly(f),
        a.at.base is Block,
        a.block() < t.next,
        b.at.base is Block,
        b.block() < t.next,
        stack_tape(t, a, b) == Ok::<(Tape, Tensor), Seq<char>>((u, out)),
        chip.leads(t, u, m, n),
        0 <= i < a.count() + b.count(),
    ensures
        out.c == a.c + b.c,
        out.h == a.h,
        out.w == a.w,
        chip.read(n, out.at, i) == if i < a.count() {
            chip.read(m, a.at, i)
        } else {
            chip.read(m, b.at, i - a.count())
        },
        keeps_below(m, n, t.next),
{
    let t1 = t.with_block(a.count() + b.count());
    let m1 = chip.lemma_first(t, t1, u, t1.acts.last(), m, n);
    let first = u.acts[t1.acts.len() as int];
    let t2 = t1.then_do(first);
    let m2 = chip.lemma_first(t1, t2, u, first, m1, n);
    assert(u.acts =~= t2.acts.push(u.acts.last()));
    chip.lemma_only(t2, u, m2, n);
    let second = u.acts.last();
    assert((chip.run)(first, m1, m2) && (chip.run)(second, m2, n));
    assert(chip.copies(first->grid * first->threads, first->args, m1, m2));
    assert(chip.copies(second->grid * second->threads, second->args, m2, n));
    let tail = address(second->args, 1);
    lemma_area_le(0, 0, a.c as int, a.area());
    lemma_area_le(0, 0, a.h as int, a.w as int);
    assert(tail.offset == 4 * a.count());
    assert(keeps(m, m1, a.block()) && keeps(m, m1, b.block()) && keeps(m1, m2, b.block()));
    chip.lemma_kept(m, m1, a.at);
    chip.lemma_kept(m, m2, b.at);
    if i < a.count() {
        assert(chip.read(m2, address(first->args, 1), i) == chip.read(m2, out.at, i));
        assert(n[block_of(tail)][i] == m2[block_of(tail)][i]);
    } else {
        let j = i - a.count();
        assert(chip.read(n, tail, j) == chip.read(m2, b.at, j));
        assert(chip.read(n, tail, j) == chip.read(n, out.at, i));
    }
    assert forall|k: int| k < t.next implies #[trigger] keeps(m, n, k) by {
        assert(keeps(m, m1, k) && keeps(m1, m2, k) && keeps(m2, n, k));
    }
}

/// Mirrored planes on the device: the value at a row and a column is the one that the
/// reflected row and column, `pad` further in, have.
pub proof fn law_planned_mirror<V>(
    chip: Chip<V>,
    f: Formulas<V>,
    t: Tape,
    u: Tape,
    src: Tensor,
    pad: int,
    out: Tensor,
    m: Memory<V>,
    n: Memory<V>,
    c: int,
    y: int,
    x: int,
)
    requires
        chip.works_exactly(f),
        src.at.base is Block,
        src.block() < t.next,
        mirror_tape(t, src, pad) == Ok::<(Tape, Tensor), Seq<char>>((u, out)),
        chip.leads(t, u, m, n),
        0 <= c < src.c,
        0 <= y < src.h + 2 * pad,
        0 <= x < src.w + 2 * pad,
    ensures
        out.c == src.c,
        out.h == src.h + 2 * pad,
        out.w == src.w + 2 * pad,
        chip.value(n, out, c, y, x) == chip.value(
            m,
            src,
            c,
            reflect(y - pad, src.h as int),
            reflect(x - pad, src.w as int),
        ),
        keeps_below(m, n, t.next),
{
    let (h, w) = (src.h + 2 * pad, src.w + 2 * pad);
    let mid = chip.lemma_block_and_kernel(t, u, src.c * (h * w), m, n);
    let act = u.acts.last();
    assert((chip.run)(act, mid, n));
    assert(chip.mirrors(act->grid * act->threads, act->args, mid, n));
    assert(keeps(m, mid, src.block()));
    chip.lemma_kept(m, mid, src.at);
    lemma_place3(src.c as int, h, w, c, y, x);
    let i = (c * h + y) * w + x;
    vstd::arithmetic::mul::lemma_mul_is_associative(src.c as int, h, w);
    assert(chip.read(n, address(act->args, 1), i) == chip.read(n, out.at, i));
    assert forall|b: int| b < t.next implies #[trigger] keeps(m, n, b) by {
        assert(keeps(m, mid, b) && keeps(mid, n, b));
    }
}

/// Pooled planes on the device: every value is the mean of the two by two values that it
/// stands for, the odd row and column at the end left out.
pub proof fn law_planned_pool<V>(
    chip: Chip<V>,
    f: Formulas<V>,
    t: Tape,
    u: Tape,
    src: Tensor,
    out: Tensor,
    m: Memory<V>,
    n: Memory<V>,
    c: int,
    y: int,
    x: int,
)
    requires
        chip.works_exactly(f),
        src.at.base is Block,
        src.block() < t.next,
        pool_tape(t, src) == Ok::<(Tape, Tensor), Seq<char>>((u, out)),
        chip.leads(t, u, m, n),
        0 <= c < src.c,
        0 <= y < src.h / 2,
        0 <= x < src.w / 2,
    ensures
        out.c == src.c,
        2 * out.h <= src.h < 2 * out.h + 2,
        2 * out.w <= src.w < 2 * out.w + 2,
        chip.value(n, out, c, y, x) == (f.mean)(
            chip.value(m, src, c, 2 * y, 2 * x),
            chip.value(m, src, c, 2 * y, 2 * x + 1),
            chip.value(m, src, c, 2 * y + 1, 2 * x),
            chip.value(m, src, c, 2 * y + 1, 2 * x + 1),
        ),
        keeps_below(m, n, t.next),
{
    let (h, w) = (src.h as int / 2, src.w as int / 2);
    let mid = chip.lemma_block_and_kernel(t, u, src.c * (h * w), m, n);
    let act = u.acts.last();
    assert((chip.run)(act, mid, n));
    assert(chip.averages(f, act->grid * act->threads, act->args, mid, n));
    assert(keeps(m, mid, src.block()));
    chip.lemma_kept(m, mid, src.at);
    lemma_place3(src.c as int, h, w, c, y, x);
    let i = (c * h + y) * w + x;
    vstd::arithmetic::mul::lemma_mul_is_associative(src.c as int, h, w);
    assert(chip.read(n, address(act->args, 1), i) == chip.read(n, out.at, i));
    assert forall|b: int| b < t.next implies #[trigger] keeps(m, n, b) by {
        assert(keeps(m, mid, b) && keeps(mid, n, b));
    }
}

} // verus!
