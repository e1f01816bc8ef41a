//! What the device's planned Fourier transforms compute.
//!
//! The device transforms without a factor; every direction is then scaled once, by one over
//! the square root of the values in a plane.  Real and imaginary parts become planes of
//! their own, side by side for every channel.

use vstd::arithmetic::logarithm::{lemma_log0, lemma_log_pow, lemma_log_s, log};
use vstd::arithmetic::power::{lemma_pow_positive, pow};
use vstd::arithmetic::power2::{is_pow2, is_pow2_equiv};
use vstd::prelude::*;

use crate::agree::{keeps, keeps_below, Memory};
use crate::device::{Act, Addr, Arg, Kernel, Tape};
use crate::gpu::{device_plane, forward_tape, inverse_tape};
use crate::grid::lemma_place;
use crate::kernels::Tensor;
use crate::meaning::{address, block_of, count, Chip};

verus! {

/// The transforms without a factor, and the scaling.
#[verifier::reject_recursive_types(V)]
pub struct Waves<V> {
    /// The real (0) or imaginary (1) part of a place in the spectrum of a square plane of a
    /// side.
    pub spectrum: spec_fn(Seq<V>, int, int, int) -> V,
    /// The value at a place of the plane of a side with a spectrum, its parts interleaved.
    pub plane: spec_fn(Seq<V>, int, int) -> V,
    /// A value over the square root of a number.
    pub over_root: spec_fn(V, int) -> V,
}

impl<V> Waves<V> {
    /// A value scaled as an argument says.
    pub open spec fn scaled(self, a: Arg, v: V) -> V {
        match a {
            Arg::InverseRoot(n) => (self.over_root)(v, n as int),
            _ => v,
        }
    }
}

impl<V> Chip<V> {
    /// The numbers from a place on.
    pub open spec fn stretch(self, m: Memory<V>, a: Addr, from: int, len: int) -> Seq<V> {
        Seq::new(len as nat, |k: int| self.read(m, a, from + k))
    }

    /// `lg_fft2_r2c`: planes, spectra with their parts interleaved, channels, side, its
    /// logarithm, scale; one block for every channel.
    pub open spec fn transforms_forward(self, f: Waves<V>, grid: int, args: Seq<Arg>, m: Memory<V>, n: Memory<V>) -> bool {
        let side = count(args, 3);
        let size = side * (side / 2 + 1);
        &&& self.writes_only(m, n, address(args, 1))
        &&& pow(2, count(args, 4) as nat) == side ==> forall|c: int, k: int, part: int|
            0 <= c < count(args, 2) && c < grid && 0 <= k < size && 0 <= part <= 1 ==> #[trigger] self.mixed(
                n,
                address(args, 1),
                size,
                c,
                k,
                part,
            ) == f.scaled(
                args[5],
                (f.spectrum)(
                    self.stretch(m, address(args, 0), c * (side * side), side * side),
                    side,
                    k,
                    part,
                ),
            )
    }

    /// A part of an interleaved number.
    pub open spec fn mixed(self, m: Memory<V>, a: Addr, size: int, c: int, k: int, part: int) -> V {
        self.read(m, a, 2 * (c * size + k) + part)
    }

    /// A part of a number whose parts are in planes of their own.
    pub open spec fn apart(self, m: Memory<V>, a: Addr, size: int, c: int, k: int, part: int) -> V {
        self.read(m, a, (2 * c + part) * size + k)
    }

    /// `k_spec_pack`: interleaved numbers, planes, channels, numbers to a channel, scale.
    pub open spec fn packs(self, f: Waves<V>, threads: int, args: Seq<Arg>, m: Memory<V>, n: Memory<V>) -> bool {
        let size = count(args, 3);
        &&& self.writes_only(m, n, address(args, 1))
        &&& forall|c: int, k: int, part: int|
            0 <= c < count(args, 2) && 0 <= k < size && 0 <= part <= 1 && c * size + k < threads
                ==> #[trigger] self.apart(n, address(args, 1), size, c, k, part) == f.scaled(
                args[4],
                self.mixed(m, address(args, 0), size, c, k, part),
            )
    }

    /// `k_spec_unpack`: planes, interleaved numbers, channels, numbers to a channel.
    pub open spec fn unpacks(self, threads: int, args: Seq<Arg>, m: Memory<V>, n: Memory<V>) -> bool {
        let size = count(args, 3);
        &&& self.writes_only(m, n, address(args, 1))
        &&& forall|c: int, k: int, part: int|
            0 <= c < count(args, 2) && 0 <= k < size && 0 <= part <= 1 && c * size + k < threads
                ==> #[trigger] self.mixed(n, address(args, 1), size, c, k, part) == self.apart(
                m,
                address(args, 0),
                size,
                c,
                k,
                part,
            )
    }

    /// `lg_fft2_c2r`: spectra with their parts interleaved, planes, channels, side, its
    /// logarithm, scale; one block for every channel.
    pub open spec fn transforms_back(self, f: Waves<V>, grid: int, args: Seq<Arg>, m: Memory<V>, n: Memory<V>) -> bool {
        let side = count(args, 3);
        let size = side * (side / 2 + 1);
        &&& self.writes_only(m, n, address(args, 1))
        &&& pow(2, count(args, 4) as nat) == side ==> forall|c: int, k: int|
            0 <= c < count(args, 2) && c < grid && 0 <= k < side * side ==> #[trigger] self.cell(
                n,
                address(args, 1),
                c,
                side * side,
                k,
            ) == f.scaled(
                args[5],
                (f.plane)(
                    self.stretch(m, address(args, 0), c * (2 * size), 2 * size),
                    side,
                    k,
                ),
            )
    }

    /// The kernels of a transform do what they are for.
    pub open spec fn transforms_exactly(self, f: Waves<V>) -> bool {
        forall|act: Act, m: Memory<V>, n: Memory<V>| #[trigger]
            (self.run)(act, m, n) ==> self.transforms_by(f, act, m, n)
    }

    /// One command does what its kernel is for.
    pub open spec fn transforms_by(self, f: Waves<V>, act: Act, m: Memory<V>, n: Memory<V>) -> bool {
        match act {
            Act::Run { kernel, grid, threads, args } => match kernel {
                Kernel::Fft2R2c => self.transforms_forward(f, grid, args, m, n),
                Kernel::SpecPack => self.packs(f, grid * threads, args, m, n),
                Kernel::SpecUnpack => self.unpacks(grid * threads, args, m, n),
                Kernel::Fft2C2r => self.transforms_back(f, grid, args, m, n),
                _ => true,
            },
            _ => true,
        }
    }
}

/// The logarithm that a kernel is told is that of the side.
proof fn lemma_side(side: int)
    requires
        is_pow2(side),
    ensures
        pow(2, log(2, side) as nat) == side,
        0 <= log(2, side),
{
    is_pow2_equiv(side);
    let k = choose|k: nat| pow(2, k) == side;
    lemma_log_pow(2, k);
}

/// A spectrum on the device: planes `2 * c` and `2 * c + 1` of the result hold the real and
/// the imaginary parts of the transform of plane `c`, over the square root of the values in
/// a plane.
pub proof fn law_planned_transform<V>(
    chip: Chip<V>,
    f: Waves<V>,
    t: Tape,
    u: Tape,
    half: int,
    x: Tensor,
    out: Tensor,
    m: Memory<V>,
    n: Memory<V>,
    c: int,
    k: int,
    part: int,
)
    requires
        chip.transforms_exactly(f),
        0 <= t.next,
        device_plane(x),
        x.at.base is Block,
        x.block() < t.next,
        forward_tape(t, half, x, false) == Ok::<(Tape, Tensor), Seq<char>>((u, out)),
        chip.leads(t, u, m, n),
        0 <= c < half,
        0 <= k < x.h * (x.w as int / 2 + 1),
        0 <= part <= 1,
    ensures
        out.c == 2 * half,
        out.h == x.h,
        out.w == x.w as int / 2 + 1,
        chip.read(n, out.at, (2 * c + part) * (x.h * (x.w as int / 2 + 1)) + k) == (f.over_root)(
            (f.spectrum)(
                chip.stretch(m, x.at, c * (x.h * x.w), x.h * x.w),
                x.h as int,
                k,
                part,
            ),
            x.h * x.w,
        ),
        keeps_below(m, n, t.next),
{
    let size = x.h * (x.w as int / 2 + 1);
    let t1 = t.with_block((2 * half) * size);
    let first = u.acts[t1.acts.len() as int];
    let t2 = t1.then_do(first);
    let t3 = t2.with_block((2 * half) * size);
    let second = u.acts[t3.acts.len() as int];
    let t4 = t3.then_do(second);
    let mixed = t.fresh();
    assert(u == t4.without(mixed));
    let m1 = chip.lemma_first(t, t1, u, t1.acts.last(), m, n);
    let m2 = chip.lemma_first(t1, t2, u, first, m1, n);
    let m3 = chip.lemma_first(t2, t3, u, t3.acts.last(), m2, n);
    let m4 = chip.lemma_first(t3, t4, u, second, m3, n);
    let m5 = chip.lemma_first(t4, u, u, u.acts.last(), m4, n);
    chip.lemma_none(u, m5, n);
    assert((chip.run)(first, m1, m2) && (chip.run)(second, m3, m4));
    assert(chip.transforms_forward(f, first->grid, first->args, m1, m2));
    assert(chip.packs(f, second->grid * second->threads, second->args, m3, m4));
    lemma_side(x.h as int);
    lemma_log(x.h as int);
    assert(keeps(m, m1, x.block()));
    chip.lemma_kept(m, m1, x.at);
    assert(keeps(m2, m3, block_of(mixed)));
    chip.lemma_kept(m2, m3, mixed);
    assert(keeps(m4, n, out.block()));
    chip.lemma_kept(m4, n, out.at);
    assert(chip.stretch(m1, x.at, c * (x.h * x.h), x.h * x.h) =~= chip.stretch(m, x.at, c * (x.h * x.w), x.h * x.w));
    let side = x.h as int;
    assert(count(first->args, 2) == half && count(first->args, 3) == side);
    assert(count(first->args, 4) == log(2, side));
    assert(count(second->args, 2) == half && count(second->args, 3) == size);
    assert(x.area() as usize == x.h * x.w);
    assert(chip.mixed(m2, address(first->args, 1), side * (side / 2 + 1), c, k, part) == chip.mixed(m2, mixed, size, c, k, part));
    assert(chip.mixed(m2, mixed, size, c, k, part) == (f.spectrum)(
        chip.stretch(m, x.at, c * (x.h * x.w), x.h * x.w),
        side,
        k,
        part,
    ));
    lemma_place(size, half, k, c);
    assert(size * half == half * size) by (nonlinear_arith);
    assert(chip.apart(m4, address(second->args, 1), count(second->args, 3), c, k, part) == chip.apart(
        m4,
        out.at,
        size,
        c,
        k,
        part,
    ));
    assert forall|b: int| b < t.next implies #[trigger] keeps(m, n, b) by {
        assert(keeps(m, m1, b) && keeps(m1, m2, b) && keeps(m2, m3, b) && keeps(m3, m4, b) && keeps(m4, n, b));
    }
}

proof fn lemma_log(side: int)
    requires
        is_pow2(side),
        0 <= side <= 0x7fff_ffff,
    ensures
        0 <= log(2, side) <= side,
{
    lemma_side(side);
    lemma_pow_positive(2, log(2, side) as nat);
    lemma_log_small(side);
}

proof fn lemma_log_small(n: int)
    requires
        0 < n,
    ensures
        0 <= log(2, n) <= n,
    decreases n,
{
    if n < 2 {
        lemma_log0(2, n);
    } else {
        lemma_log_s(2, n);
        lemma_log_small(n / 2);
    }
}

/// The numbers of a channel of a spectrum, their parts interleaved.
pub open spec fn interleaved<V>(chip: Chip<V>, m: Memory<V>, a: Addr, size: int, c: int) -> Seq<V> {
    Seq::new((2 * size) as nat, |i: int| chip.apart(m, a, size, c, i / 2, i % 2))
}

/// Planes on the device from their spectra: plane `c` is the inverse of the spectrum whose
/// real and imaginary parts planes `2 * c` and `2 * c + 1` hold, over the square root of the
/// values in a plane.
pub proof fn law_planned_inverse<V>(
    chip: Chip<V>,
    f: Waves<V>,
    t: Tape,
    u: Tape,
    half: int,
    spectra: Tensor,
    x: Tensor,
    out: Tensor,
    m: Memory<V>,
    n: Memory<V>,
    c: int,
    k: int,
)
    requires
        chip.transforms_exactly(f),
        0 <= t.next,
        device_plane(x),
        spectra.at.base is Block,
        spectra.block() < t.next,
        inverse_tape(t, half, spectra, x, false) == Ok::<(Tape, Tensor), Seq<char>>((u, out)),
        chip.leads(t, u, m, n),
        0 <= c < half,
        0 <= k < x.h * x.w,
    ensures
        out.c == half,
        out.h == x.h,
        out.w == x.w,
        chip.read(n, out.at, c * (x.h * x.w) + k) == (f.over_root)(
            (f.plane)(
                interleaved(chip, m, spectra.at, x.h * (x.w as int / 2 + 1), c),
                x.h as int,
                k,
            ),
            x.h * x.w,
        ),
        keeps_below(m, n, t.next),
{
    let size = x.h * (x.w as int / 2 + 1);
    let t1 = t.with_block((2 * half) * size);
    let first = u.acts[t1.acts.len() as int];
    let t2 = t1.then_do(first);
    let t3 = t2.with_block(half * x.area());
    let second = u.acts[t3.acts.len() as int];
    let t4 = t3.then_do(second);
    let mixed = t.fresh();
    assert(u == t4.without(mixed));
    let m1 = chip.lemma_first(t, t1, u, t1.acts.last(), m, n);
    let m2 = chip.lemma_first(t1, t2, u, first, m1, n);
    let m3 = chip.lemma_first(t2, t3, u, t3.acts.last(), m2, n);
    let m4 = chip.lemma_first(t3, t4, u, second, m3, n);
    let m5 = chip.lemma_first(t4, u, u, u.acts.last(), m4, n);
    chip.lemma_none(u, m5, n);
    assert((chip.run)(first, m1, m2) && (chip.run)(second, m3, m4));
    assert(chip.unpacks(first->grid * first->threads, first->args, m1, m2));
    assert(chip.transforms_back(f, second->grid, second->args, m3, m4));
    lemma_side(x.h as int);
    lemma_log(x.h as int);
    assert(keeps(m, m1, spectra.block()));
    chip.lemma_kept(m, m1, spectra.at);
    assert(keeps(m2, m3, block_of(mixed)));
    chip.lemma_kept(m2, m3, mixed);
    assert(keeps(m4, n, out.block()));
    chip.lemma_kept(m4, n, out.at);
    let side = x.h as int;
    assert(count(first->args, 2) == half && count(first->args, 3) == size);
    assert(count(second->args, 2) == half && count(second->args, 3) == side);
    assert(count(second->args, 4) == log(2, side));
    assert(x.area() as usize == x.h * x.w);
    let got = chip.stretch(m3, mixed, c * (2 * size), 2 * size);
    let want = interleaved(chip, m, spectra.at, size, c);
    assert forall|i: int| 0 <= i < 2 * size implies #[trigger] got[i] == want[i] by {
        let (j, part) = (i / 2, i % 2);
        lemma_place(size, half, j, c);
        assert(size * half == half * size) by (nonlinear_arith);
        assert(chip.mixed(m2, address(first->args, 1), count(first->args, 3), c, j, part) == chip.apart(
            m1,
            spectra.at,
            size,
            c,
            j,
            part,
        ));
        assert(c * (2 * size) + i == 2 * (c * size + j) + part) by (nonlinear_arith)
            requires
                i == 2 * j + part,
        ;
    }
    assert(got =~= want);
    assert(chip.cell(m4, address(second->args, 1), c, side * side, k) == chip.cell(m4, out.at, c, x.h * x.w, k));
    assert forall|b: int| b < t.next implies #[trigger] keeps(m, n, b) by {
        assert(keeps(m, m1, b) && keeps(m1, m2, b) && keeps(m2, m3, b) && keeps(m3, m4, b) && keeps(m4, n, b));
    }
}

} // verus!
