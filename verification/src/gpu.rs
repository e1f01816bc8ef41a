//! The forward pass as commands for a device.

use vstd::arithmetic::logarithm::{lemma_log0, lemma_log_s, log};
use vstd::arithmetic::power2::is_pow2;
use vstd::prelude::*;

use crate::device::{narrow, reachable, roomy, Act, Addr, Arg, Base, Kernel, Program, Tape, BLOCK};
use crate::fft::power_of_two;
use crate::kernels::{add_tape, bn_placed, bn_relu_tape, conv_placed, conv_tape, copy_tape, made, pool_tape, sgemm_tape, spare, unfit, unfit_text, covered, is_narrow, is_small, narrow_product, DBn, DConv, Extended, Planned, Tensor};
use crate::model::conv_extent;

verus! {

/// The learned upsampling on the device.
#[derive(Debug, Clone)]
pub struct DConvT {
    pub w: Addr,
    pub bias: Addr,
    pub cin: usize,
    pub cout: usize,
    /// One weight matrix `[cout][cin * taps]` for every parity of the output position, in
    /// the order `2 * (y % 2) + x % 2`.  Without them the gathering kernel is used.
    pub phases: Option<Vec<Addr>>,
}

/// The number of taps that reach an output position of each parity.
pub open spec fn taps_of(phase: int) -> int {
    if phase == 0 {
        1
    } else if phase == 3 {
        4
    } else {
        2
    }
}

pub fn tap_count(phase: usize) -> (n: usize)
    ensures
        n == taps_of(phase as int),
{
    if phase == 0 {
        1
    } else if phase == 3 {
        4
    } else {
        2
    }
}

/// Whether the addresses of an upsampling lie in the weights, with a matrix for each
/// parity.
pub open spec fn convt_placed(cv: DConvT) -> bool {
    &&& !(cv.w.base is Block)
    &&& !(cv.bias.base is Block)
    &&& cv.phases matches Some(p) ==> p@.len() == 4 && forall|i: int|
        0 <= i < 4 ==> !((#[trigger] p@[i]).base is Block)
}

/// Whether an upsampling fits the kernels.
pub open spec fn upsample_fits(t: Tape, cv: DConvT, src: Tensor) -> bool {
    &&& spare(t)
    &&& src.small()
    &&& narrow(4 * cv.cin)
    &&& narrow(cv.cout as int)
    &&& narrow(2 * src.h)
    &&& narrow(2 * src.w)
    &&& roomy((4 * cv.cin) * src.area())
    &&& roomy(cv.cout * (4 * src.area()))
}

/// One parity of the output: gather its patches, multiply, and put the result in place.
/// Every parity owns its own output positions, so nothing has to be cleared first.
pub open spec fn phase_tape(t: Tape, cv: DConvT, src: Tensor, out: Addr, phase: int) -> Extended {
    let taps = taps_of(phase);
    let k = cv.cin * taps;
    let n = src.area();
    let py = phase / 2;
    let px = phase % 2;
    if !spare(t) {
        Err(unfit())
    } else {
        let col = t.fresh();
        let t1 = t.with_block(k * n);
        let part = t1.fresh();
        let t2 = t1.with_block(cv.cout * n).with_run(
            Kernel::ConvtCol,
            k * n,
            seq![
                Arg::Ptr(src.at),
                Arg::Ptr(col),
                Arg::Int(cv.cin),
                Arg::Int(src.h),
                Arg::Int(src.w),
                Arg::Int(py as usize),
                Arg::Int(px as usize),
                Arg::Int(taps as usize),
                Arg::Int(n as usize),
                Arg::Int((2 * src.h) as usize),
                Arg::Int((2 * src.w) as usize),
            ],
        );
        match sgemm_tape(t2, col, cv.phases.unwrap()@[phase], part, k, cv.cout as int, n) {
            Err(e) => Err(e),
            Ok(t3) => Ok(
                t3.with_run(
                    Kernel::ConvtPut,
                    cv.cout * n,
                    seq![
                        Arg::Ptr(part),
                        Arg::Ptr(out),
                        Arg::Ptr(cv.bias),
                        Arg::Int(cv.cout),
                        Arg::Int(n as usize),
                        Arg::Int(py as usize),
                        Arg::Int(px as usize),
                        Arg::Int((2 * src.h) as usize),
                        Arg::Int((2 * src.w) as usize),
                        Arg::Int(1),
                    ],
                ).without(part).without(col),
            ),
        }
    }
}

/// The first `phase` parities.
pub open spec fn phases_tape(t: Tape, cv: DConvT, src: Tensor, out: Addr, phase: nat) -> Extended
    decreases phase,
{
    if phase == 0 {
        Ok(t)
    } else {
        match phases_tape(t, cv, src, out, (phase - 1) as nat) {
            Err(e) => Err(e),
            Ok(t1) => phase_tape(t1, cv, src, out, phase - 1),
        }
    }
}

/// The upsampling: the four parities as matrix products, or the gathering kernel.
pub open spec fn upsample_tape(t: Tape, cv: DConvT, src: Tensor, gather: bool) -> Planned {
    if !upsample_fits(t, cv, src) {
        Err(unfit())
    } else {
        let total = cv.cout * (4 * src.area());
        let out = t.fresh();
        let t1 = t.with_block(total);
        let made = Tensor {
            at: out,
            c: cv.cout,
            h: (2 * src.h) as usize,
            w: (2 * src.w) as usize,
        };
        if cv.phases is Some && !gather {
            match phases_tape(t1, cv, src, out, 4) {
                Err(e) => Err(e),
                Ok(t2) => Ok((t2, made)),
            }
        } else {
            Ok(
                (
                    t1.with_run(
                        Kernel::ConvTranspose,
                        total,
                        seq![
                            Arg::Ptr(src.at),
                            Arg::Ptr(cv.w),
                            Arg::Ptr(cv.bias),
                            Arg::Ptr(out),
                            Arg::Int(cv.cin),
                            Arg::Int(cv.cout),
                            Arg::Int(src.h),
                            Arg::Int(src.w),
                            Arg::Int((2 * src.h) as usize),
                            Arg::Int((2 * src.w) as usize),
                            Arg::Int(3),
                            Arg::Int(3),
                            Arg::Int(2),
                            Arg::Int(1),
                        ],
                    ),
                    made,
                ),
            )
        }
    }
}

proof fn lemma_phase_sizes(cin: int, cout: int, area: int, taps: int)
    requires
        0 <= cin,
        0 <= cout,
        0 <= area,
        1 <= taps <= 4,
        narrow(4 * cin),
        roomy((4 * cin) * area),
        roomy(cout * (4 * area)),
    ensures
        narrow(cin * taps),
        roomy((cin * taps) * area),
        roomy(cout * area),
{
    assert(0 <= cin * taps <= 4 * cin) by (nonlinear_arith)
        requires
            0 <= cin,
            1 <= taps <= 4,
    ;
    assert(0 <= (cin * taps) * area <= (4 * cin) * area) by (nonlinear_arith)
        requires
            0 <= cin * taps <= 4 * cin,
            0 <= area,
    ;
    assert(0 <= cout * area <= cout * (4 * area)) by (nonlinear_arith)
        requires
            0 <= cout,
            0 <= area,
    ;
}

impl Program {
    fn phase(&mut self, cv: &DConvT, src: &Tensor, out: Addr, phase: usize) -> (res: Result<(), String>)
        requires
            old(self).wf(),
            reachable(old(self)@.live(), src.at),
            reachable(old(self)@.live(), out),
            convt_placed(*cv),
            cv.phases is Some,
            phase < 4,
            src.small(),
            narrow(4 * cv.cin),
            narrow(cv.cout as int),
            narrow(2 * src.h),
            narrow(2 * src.w),
            roomy((4 * cv.cin) * src.area()),
            roomy(cv.cout * (4 * src.area())),
        ensures
            match phase_tape(old(self)@, *cv, *src, out, phase as int) {
                Ok(t) => res is Ok && final(self).wf() && final(self)@ == t && final(self)@.live()
                    == old(self)@.live(),
                Err(text) => res matches Err(e) && e@ == text,
            },
    {
        if self.next > usize::MAX - 16 {
            return Err(unfit_text());
        }
        let weight: Addr = match &cv.phases {
            Some(p) => p[phase],
            None => cv.w,
        };
        let taps: usize = tap_count(phase);
        proof {
            lemma_phase_sizes(cv.cin as int, cv.cout as int, src.area(), taps as int);
        }
        let ghost before = self@.live();
        let k: usize = cv.cin * taps;
        let n: usize = src.h * src.w;
        let py: usize = phase / 2;
        let px: usize = phase % 2;
        let col: Addr = self.reserve(k * n);
        let part: Addr = self.reserve(cv.cout * n);
        let args: Vec<Arg> = vec![
            Arg::Ptr(src.at),
            Arg::Ptr(col),
            Arg::Int(cv.cin),
            Arg::Int(src.h),
            Arg::Int(src.w),
            Arg::Int(py),
            Arg::Int(px),
            Arg::Int(taps),
            Arg::Int(n),
            Arg::Int(2 * src.h),
            Arg::Int(2 * src.w),
        ];
        self.run(Kernel::ConvtCol, k * n, args);
        match self.sgemm(col, weight, part, k, cv.cout, n) {
            Ok(_) => {},
            Err(e) => {
                return Err(e);
            },
        }
        let args: Vec<Arg> = vec![
            Arg::Ptr(part),
            Arg::Ptr(out),
            Arg::Ptr(cv.bias),
            Arg::Int(cv.cout),
            Arg::Int(n),
            Arg::Int(py),
            Arg::Int(px),
            Arg::Int(2 * src.h),
            Arg::Int(2 * src.w),
            Arg::Int(1),
        ];
        self.run(Kernel::ConvtPut, cv.cout * n, args);
        self.free(part);
        self.free(col);
        assert(self@.live() =~= before);
        Ok(())
    }

    fn can_upsample(&self, cv: &DConvT, src: &Tensor) -> (r: bool)
        ensures
            r == upsample_fits(self@, *cv, *src),
    {
        if self.next > usize::MAX - 16 || !is_small(src) || cv.cin > 0x7fff_ffff / 4 || !is_narrow(
            cv.cout,
        ) || src.h > 0x7fff_ffff / 2 || src.w > 0x7fff_ffff / 2 {
            return false;
        }
        let n: usize = src.h * src.w;
        proof {
            assert(cv.cout * (4 * n) == 4 * (cv.cout * n)) by (nonlinear_arith);
        }
        let patches: bool = covered(4 * cv.cin, n).is_some();
        let result: bool = match covered(cv.cout, n) {
            Some(p) => p <= usize::MAX / 16 && 4 * p as u64 <= crate::device::MOST_ELEMENTS,
            None => false,
        };
        patches && result
    }

    /// Plan an upsampling.
    pub fn upsample(&mut self, cv: &DConvT, src: &Tensor, gather: bool) -> (res: Result<Tensor, String>)
        requires
            old(self).wf(),
            reachable(old(self)@.live(), src.at),
            convt_placed(*cv),
        ensures
            match upsample_tape(old(self)@, *cv, *src, gather) {
                Ok((t, out)) => res == Ok::<Tensor, String>(out) && final(self)@ == t && made(
                    old(self)@,
                    *final(self),
                    out,
                ),
                Err(text) => res matches Err(e) && e@ == text,
            },
    {
        if !self.can_upsample(cv, src) {
            return Err(unfit_text());
        }
        let n: usize = src.h * src.w;
        proof {
            assert(cv.cout * (4 * n) == 4 * (cv.cout * n)) by (nonlinear_arith);
        }
        let total: usize = 4 * (cv.cout * n);
        let out: Addr = self.reserve(total);
        let r = Tensor { at: out, c: cv.cout, h: 2 * src.h, w: 2 * src.w };
        if cv.phases.is_some() && !gather {
            let ghost start = self@;
            let mut p: usize = 0;
            while p < 4
                invariant
                    upsample_fits(old(self)@, *cv, *src),
                    start == old(self)@.with_block(cv.cout * (4 * src.area())),
                    out == old(self)@.fresh(),
                    !gather,
                    self.wf(),
                    reachable(self@.live(), src.at),
                    reachable(self@.live(), out),
                    self@.live() == start.live(),
                    convt_placed(*cv),
                    cv.phases is Some,
                    src.small(),
                    narrow(4 * cv.cin),
                    narrow(cv.cout as int),
                    narrow(2 * src.h),
                    narrow(2 * src.w),
                    roomy((4 * cv.cin) * src.area()),
                    roomy(cv.cout * (4 * src.area())),
                    p <= 4,
                    phases_tape(start, *cv, *src, out, p as nat) == Ok::<Tape, Seq<char>>(self@),
                decreases 4 - p,
            {
                match self.phase(cv, src, out, p) {
                    Ok(_) => {},
                    Err(e) => {
                        proof {
                            lemma_phases_stop(start, *cv, *src, out, (p + 1) as nat);
                        }
                        return Err(e);
                    },
                }
                p += 1;
            }
        } else {
            let args: Vec<Arg> = vec![
                Arg::Ptr(src.at),
                Arg::Ptr(cv.w),
                Arg::Ptr(cv.bias),
                Arg::Ptr(out),
                Arg::Int(cv.cin),
                Arg::Int(cv.cout),
                Arg::Int(src.h),
                Arg::Int(src.w),
                Arg::Int(2 * src.h),
                Arg::Int(2 * src.w),
                Arg::Int(3),
                Arg::Int(3),
                Arg::Int(2),
                Arg::Int(1),
            ];
            self.run(Kernel::ConvTranspose, total, args);
        }
        Ok(r)
    }
}

proof fn lemma_phases_stop(t: Tape, cv: DConvT, src: Tensor, out: Addr, phase: nat)
    requires
        phase <= 4,
        phases_tape(t, cv, src, out, phase) is Err,
    ensures
        phases_tape(t, cv, src, out, 4) == phases_tape(t, cv, src, out, phase),
    decreases 4 - phase,
{
    if phase < 4 {
        lemma_phases_stop(t, cv, src, out, phase + 1);
    }
}

/// The spectral branch on the device:
///
/// ```text
///   pooled = avg_pool2x2(x) when stride == 2 else x
///   feat   = ReLU(bn1(conv1(pooled)))
///   fu     = irfft(bn_fu(fu_conv(stack(rfft(feat)))))
///   out    = conv2(feat + fu)
/// ```
#[derive(Debug, Clone, Copy, PartialEq, Eq, Structural)]
pub struct DSpectral {
    pub conv1: DConv,
    pub bn1: DBn,
    pub fu_conv: DConv,
    pub fu_bn: DBn,
    pub conv2: DConv,
    pub half: usize,
    pub stride: usize,
}

/// Whether the addresses of a spectral branch lie in the weights.
pub open spec fn spectral_placed(sp: DSpectral) -> bool {
    &&& conv_placed(sp.conv1)
    &&& bn_placed(sp.bn1)
    &&& conv_placed(sp.fu_conv)
    &&& bn_placed(sp.fu_bn)
    &&& conv_placed(sp.conv2)
}

/// Whether the spectra of `half` planes fit the kernels.
pub open spec fn spectra_fit(t: Tape, half: int, x: Tensor) -> bool {
    let hw = x.w as int / 2 + 1;
    &&& spare(t)
    &&& x.small()
    &&& narrow(2 * half)
    &&& narrow(hw)
    &&& narrow(x.h * hw)
    &&& roomy((2 * half) * (x.h * hw))
    &&& roomy(half * (x.h * hw))
    &&& roomy(half * x.area())
}

/// The planes that the device's transform takes: square, with a power of two as their side.
/// Its kernels are told the side and its logarithm, and nothing else of the extents.
pub open spec fn device_plane(x: Tensor) -> bool {
    x.h == x.w && is_pow2(x.h as int)
}

/// The real transform of `half` planes, real and imaginary parts as planes of their own.
/// On the device the transform leaves interleaved numbers, which are then packed and
/// scaled.  Planes that it does not take are transformed on the host.
pub open spec fn forward_tape(t: Tape, half: int, x: Tensor, host: bool) -> Planned {
    let hw = x.w as int / 2 + 1;
    let size = (2 * half) * (x.h * hw);
    if !spectra_fit(t, half, x) {
        Err(unfit())
    } else if host || !device_plane(x) {
        let out = t.fresh();
        Ok(
            (
                t.with_block(size).then_do(
                    Act::HostForward {
                        from: x.at,
                        to: out,
                        channels: half,
                        h: x.h as int,
                        w: x.w as int,
                    },
                ),
                Tensor { at: out, c: (2 * half) as usize, h: x.h, w: hw as usize },
            ),
        )
    } else {
        let mixed = t.fresh();
        let t1 = t.with_block(size).then_do(
            Act::Run {
                kernel: Kernel::Fft2R2c,
                grid: half,
                threads: BLOCK as int,
                args: seq![
                    Arg::Ptr(x.at),
                    Arg::Ptr(mixed),
                    Arg::Int(half as usize),
                    Arg::Int(x.h),
                    Arg::Int(log(2, x.h as int) as usize),
                    Arg::One,
                ],
            },
        );
        let out = t1.fresh();
        Ok(
            (
                t1.with_block(size).with_run(
                    Kernel::SpecPack,
                    half * (x.h * hw),
                    seq![
                        Arg::Ptr(mixed),
                        Arg::Ptr(out),
                        Arg::Int(half as usize),
                        Arg::Int((x.h * hw) as usize),
                        Arg::InverseRoot(x.area() as usize),
                    ],
                ).without(mixed),
                Tensor { at: out, c: (2 * half) as usize, h: x.h, w: hw as usize },
            ),
        )
    }
}

/// The inverse transform of stacked spectra into planes like `x`, where those were
/// transformed.
pub open spec fn inverse_tape(t: Tape, half: int, spectra: Tensor, x: Tensor, host: bool) -> Planned {
    let hw = x.w as int / 2 + 1;
    let size = (2 * half) * (x.h * hw);
    if !spectra_fit(t, half, x) {
        Err(unfit())
    } else if host || !device_plane(x) {
        let out = t.fresh();
        Ok(
            (
                t.with_block(half * x.area()).then_do(
                    Act::HostInverse {
                        from: spectra.at,
                        to: out,
                        channels: half,
                        h: x.h as int,
                        w: x.w as int,
                    },
                ),
                Tensor { at: out, c: half as usize, h: x.h, w: x.w },
            ),
        )
    } else {
        let mixed = t.fresh();
        let t1 = t.with_block(size).with_run(
            Kernel::SpecUnpack,
            half * (x.h * hw),
            seq![
                Arg::Ptr(spectra.at),
                Arg::Ptr(mixed),
                Arg::Int(half as usize),
                Arg::Int((x.h * hw) as usize),
            ],
        );
        let out = t1.fresh();
        Ok(
            (
                t1.with_block(half * x.area()).then_do(
                    Act::Run {
                        kernel: Kernel::Fft2C2r,
                        grid: half,
                        threads: BLOCK as int,
                        args: seq![
                            Arg::Ptr(mixed),
                            Arg::Ptr(out),
                            Arg::Int(half as usize),
                            Arg::Int(x.h),
                            Arg::Int(log(2, x.h as int) as usize),
                            Arg::InverseRoot(x.area() as usize),
                        ],
                    },
                ).without(mixed),
                Tensor { at: out, c: half as usize, h: x.h, w: x.w },
            ),
        )
    }
}

/// What the Fourier unit adds to `feat`: transform, convolve, norm, transform back.  The
/// blocks in between are given back in the end, the last one first.
pub open spec fn fourier_tape(t: Tape, sp: DSpectral, feat: Tensor, host: bool) -> Planned {
    match forward_tape(t, sp.half as int, feat, host) {
        Err(e) => Err(e),
        Ok((t1, spectra)) => match conv_tape(t1, sp.fu_conv, spectra, 0, 1, false) {
            Err(e) => Err(e),
            Ok((t2, fu)) => match bn_relu_tape(t2, fu, sp.fu_bn) {
                Err(e) => Err(e),
                Ok(t3) => match inverse_tape(t3, sp.half as int, fu, feat, host) {
                    Err(e) => Err(e),
                    Ok((t4, inv)) => Ok((t4.without(fu.at).without(spectra.at), inv)),
                },
            },
        },
    }
}

/// The planes that the spectral branch works on.
pub open spec fn reduce_tape(t: Tape, stride: int, x: Tensor) -> Planned {
    if stride == 2 {
        pool_tape(t, x)
    } else {
        copy_tape(t, x)
    }
}

/// The spectral branch.
pub open spec fn spectral_tape(t: Tape, sp: DSpectral, x: Tensor, host: bool) -> Planned {
    match reduce_tape(t, sp.stride as int, x) {
        Err(e) => Err(e),
        Ok((t1, pooled)) => match conv_tape(t1, sp.conv1, pooled, 0, 1, false) {
            Err(e) => Err(e),
            Ok((t2, feat)) => match bn_relu_tape(t2, feat, sp.bn1) {
                Err(e) => Err(e),
                Ok(t3) => match fourier_tape(t3, sp, feat, host) {
                    Err(e) => Err(e),
                    Ok((t4, inv)) => match add_tape(t4, inv, feat) {
                        Err(e) => Err(e),
                        Ok(t5) => match conv_tape(t5, sp.conv2, inv, 0, 1, false) {
                            Err(e) => Err(e),
                            Ok((t6, out)) => Ok(
                                (t6.without(inv.at).without(feat.at).without(pooled.at), out),
                            ),
                        },
                    },
                },
            },
        },
    }
}

/// Whether the device's transform takes planes.
fn on_device(x: &Tensor) -> (r: bool)
    ensures
        r == device_plane(*x),
{
    x.h == x.w && power_of_two(x.h)
}

/// The base-2 logarithm of a number, rounded down.
fn exponent(n: usize) -> (k: usize)
    ensures
        k == log(2, n as int),
{
    let mut k: usize = 0;
    let mut left: usize = n;
    while left >= 2
        invariant
            k + log(2, left as int) == log(2, n as int),
            k + left <= n,
        decreases left,
    {
        proof {
            lemma_log_s(2, left as int);
        }
        left = left / 2;
        k += 1;
    }
    proof {
        lemma_log0(2, left as int);
    }
    k
}

impl Program {
    /// The size of a kept line, the values of a spectrum, and those of all of them, if they
    /// fit the kernels.
    fn spectra_sizes(&self, half: usize, x: &Tensor) -> (r: Option<(usize, usize, usize)>)
        ensures
            match r {
                Some((hw, area, size)) => {
                    &&& spectra_fit(self@, half as int, *x)
                    &&& hw == x.w as int / 2 + 1
                    &&& area == x.h * hw
                    &&& size == (2 * half) * (x.h * hw)
                },
                None => !spectra_fit(self@, half as int, *x),
            },
    {
        if self.next > usize::MAX - 16 || !is_small(x) || half > 0x7fff_ffff / 2 {
            return None;
        }
        let hw: usize = x.w / 2 + 1;
        if !is_narrow(hw) {
            return None;
        }
        let area: usize = match narrow_product(x.h, hw) {
            Some(a) => a,
            None => {
                return None;
            },
        };
        let size: usize = match covered(2 * half, area) {
            Some(s) => s,
            None => {
                return None;
            },
        };
        if covered(half, area).is_none() || covered(half, x.h * x.w).is_none() {
            return None;
        }
        Some((hw, area, size))
    }

    fn forward_transform(&mut self, half: usize, x: &Tensor, host: bool) -> (res: Result<Tensor, String>)
        requires
            old(self).wf(),
            reachable(old(self)@.live(), x.at),
        ensures
            match forward_tape(old(self)@, half as int, *x, host) {
                Ok((t, out)) => res == Ok::<Tensor, String>(out) && final(self)@ == t && made(
                    old(self)@,
                    *final(self),
                    out,
                ),
                Err(text) => res matches Err(e) && e@ == text,
            },
    {
        let (hw, area, size): (usize, usize, usize) = match self.spectra_sizes(half, x) {
            Some(s) => s,
            None => {
                return Err(unfit_text());
            },
        };
        let ghost before = self@.live();
        if host || !on_device(x) {
            let out: Addr = self.reserve(size);
            self.host_forward(x.at, out, half, x.h, x.w);
            return Ok(Tensor { at: out, c: 2 * half, h: x.h, w: hw });
        }
        let mixed: Addr = self.reserve(size);
        let args: Vec<Arg> = vec![
            Arg::Ptr(x.at),
            Arg::Ptr(mixed),
            Arg::Int(half),
            Arg::Int(x.h),
            Arg::Int(exponent(x.h)),
            Arg::One,
        ];
        self.run_grid(Kernel::Fft2R2c, half as u32, args);
        let out: Addr = self.reserve(size);
        let args: Vec<Arg> = vec![
            Arg::Ptr(mixed),
            Arg::Ptr(out),
            Arg::Int(half),
            Arg::Int(area),
            Arg::InverseRoot(x.h * x.w),
        ];
        self.run(Kernel::SpecPack, half * area, args);
        self.free(mixed);
        let r = Tensor { at: out, c: 2 * half, h: x.h, w: hw };
        assert(self@.live() =~= before.insert(r.block()));
        Ok(r)
    }

    fn inverse_transform(&mut self, half: usize, spectra: &Tensor, x: &Tensor, host: bool) -> (res: Result<
        Tensor,
        String,
    >)
        requires
            old(self).wf(),
            reachable(old(self)@.live(), spectra.at),
        ensures
            match inverse_tape(old(self)@, half as int, *spectra, *x, host) {
                Ok((t, out)) => res == Ok::<Tensor, String>(out) && final(self)@ == t && made(
                    old(self)@,
                    *final(self),
                    out,
                ),
                Err(text) => res matches Err(e) && e@ == text,
            },
    {
        let (hw, area, size): (usize, usize, usize) = match self.spectra_sizes(half, x) {
            Some(s) => s,
            None => {
                return Err(unfit_text());
            },
        };
        let ghost before = self@.live();
        let n: usize = half * (x.h * x.w);
        if host || !on_device(x) {
            let out: Addr = self.reserve(n);
            self.host_inverse(spectra.at, out, half, x.h, x.w);
            return Ok(Tensor { at: out, c: half, h: x.h, w: x.w });
        }
        let mixed: Addr = self.reserve(size);
        let args: Vec<Arg> = vec![
            Arg::Ptr(spectra.at),
            Arg::Ptr(mixed),
            Arg::Int(half),
            Arg::Int(area),
        ];
        self.run(Kernel::SpecUnpack, half * area, args);
        let out: Addr = self.reserve(n);
        let args: Vec<Arg> = vec![
            Arg::Ptr(mixed),
            Arg::Ptr(out),
            Arg::Int(half),
            Arg::Int(x.h),
            Arg::Int(exponent(x.h)),
            Arg::InverseRoot(x.h * x.w),
        ];
        self.run_grid(Kernel::Fft2C2r, half as u32, args);
        self.free(mixed);
        let r = Tensor { at: out, c: half, h: x.h, w: x.w };
        assert(self@.live() =~= before.insert(r.block()));
        Ok(r)
    }

    fn fourier(&mut self, sp: &DSpectral, feat: &Tensor, host: bool) -> (res: Result<Tensor, String>)
        requires
            old(self).wf(),
            reachable(old(self)@.live(), feat.at),
            spectral_placed(*sp),
        ensures
            match fourier_tape(old(self)@, *sp, *feat, host) {
                Ok((t, out)) => res == Ok::<Tensor, String>(out) && final(self)@ == t && made(
                    old(self)@,
                    *final(self),
                    out,
                ),
                Err(text) => res matches Err(e) && e@ == text,
            },
    {
        let ghost before = self@.live();
        let spectra: Tensor = match self.forward_transform(sp.half, feat, host) {
            Ok(t) => t,
            Err(e) => {
                return Err(e);
            },
        };
        let fu: Tensor = match self.conv(&sp.fu_conv, &spectra, 0, 1, false) {
            Ok(t) => t,
            Err(e) => {
                return Err(e);
            },
        };
        match self.bn_relu(&fu, &sp.fu_bn) {
            Ok(_) => {},
            Err(e) => {
                return Err(e);
            },
        }
        let inv: Tensor = match self.inverse_transform(sp.half, &fu, feat, host) {
            Ok(t) => t,
            Err(e) => {
                return Err(e);
            },
        };
        self.free(fu.at);
        self.free(spectra.at);
        assert(self@.live() =~= before.insert(inv.block()));
        Ok(inv)
    }

    /// Plan the spectral branch.
    pub fn spectral(&mut self, sp: &DSpectral, x: &Tensor, host: bool) -> (res: Result<Tensor, String>)
        requires
            old(self).wf(),
            reachable(old(self)@.live(), x.at),
            spectral_placed(*sp),
        ensures
            match spectral_tape(old(self)@, *sp, *x, host) {
                Ok((t, out)) => res == Ok::<Tensor, String>(out) && final(self)@ == t && made(
                    old(self)@,
                    *final(self),
                    out,
                ),
                Err(text) => res matches Err(e) && e@ == text,
            },
    {
        let ghost before = self@.live();
        let reduced: Result<Tensor, String> = if sp.stride == 2 {
            self.avgpool2x2(x)
        } else {
            self.copy(x)
        };
        let pooled: Tensor = match reduced {
            Ok(t) => t,
            Err(e) => {
                return Err(e);
            },
        };
        let feat: Tensor = match self.conv(&sp.conv1, &pooled, 0, 1, false) {
            Ok(t) => t,
            Err(e) => {
                return Err(e);
            },
        };
        match self.bn_relu(&feat, &sp.bn1) {
            Ok(_) => {},
            Err(e) => {
                return Err(e);
            },
        }
        let inv: Tensor = match self.fourier(sp, &feat, host) {
            Ok(t) => t,
            Err(e) => {
                return Err(e);
            },
        };
        match self.add_inplace(&inv, &feat) {
            Ok(_) => {},
            Err(e) => {
                return Err(e);
            },
        }
        let out: Tensor = match self.conv(&sp.conv2, &inv, 0, 1, false) {
            Ok(t) => t,
            Err(e) => {
                return Err(e);
            },
        };
        self.free(inv.at);
        self.free(feat.at);
        self.free(pooled.at);
        assert(self@.live() =~= before.insert(out.block()));
        Ok(out)
    }
}

/// A launch of one of the device's transforms.
pub open spec fn transforms(act: Act) -> bool {
    act matches Act::Run { kernel, .. } && (kernel == Kernel::Fft2R2c || kernel == Kernel::Fft2C2r)
}

/// Whether one of the device's transforms is launched on the way from `t` to `u`.
pub open spec fn launched(t: Tape, u: Tape) -> bool {
    exists|i: int| t.acts.len() <= i < u.acts.len() && transforms(#[trigger] u.acts[i])
}

/// The planes that a spectral branch transforms: halved if it says so, and convolved.
pub open spec fn feature(sp: DSpectral, x: Tensor) -> Tensor {
    let (h, w) = if sp.stride == 2 {
        (x.h as int / 2, x.w as int / 2)
    } else {
        (x.h as int, x.w as int)
    };
    Tensor {
        at: x.at,
        c: sp.conv1.cout,
        h: conv_extent(h, sp.conv1.kh as int, 1, 0) as usize,
        w: conv_extent(w, sp.conv1.kw as int, 1, 0) as usize,
    }
}

/// `u` begins with what `t` does, and `run` says whether it goes on with a transform of
/// the device.
pub open spec fn follows(t: Tape, u: Tape, run: bool) -> bool {
    &&& t.acts.len() <= u.acts.len()
    &&& forall|i: int| 0 <= i < t.acts.len() ==> #[trigger] u.acts[i] == t.acts[i]
    &&& launched(t, u) == run
}

proof fn lemma_follows_one(t: Tape, u: Tape, act: Act)
    requires
        u.acts == t.acts.push(act),
    ensures
        follows(t, u, transforms(act)),
{
    assert(u.acts[t.acts.len() as int] == act);
}

pub(crate) proof fn lemma_follows_both(t: Tape, u: Tape, v: Tape, first: bool, second: bool)
    requires
        follows(t, u, first),
        follows(u, v, second),
    ensures
        follows(t, v, first || second),
{
    if first {
        let i = choose|i: int| t.acts.len() <= i < u.acts.len() && transforms(#[trigger] u.acts[i]);
        assert(v.acts[i] == u.acts[i]);
    }
    if second {
        let i = choose|i: int| u.acts.len() <= i < v.acts.len() && transforms(#[trigger] v.acts[i]);
        assert(transforms(v.acts[i]));
    }
    if launched(t, v) {
        let i = choose|i: int| t.acts.len() <= i < v.acts.len() && transforms(#[trigger] v.acts[i]);
        if i < u.acts.len() {
            assert(transforms(u.acts[i]));
        }
    }
}

/// Giving a block back.
pub(crate) proof fn lemma_follows_free(t: Tape, u: Tape, run: bool, a: Addr)
    requires
        follows(t, u, run),
    ensures
        follows(t, u.without(a), run),
{
    match a.base {
        Base::Block(b) => {
            lemma_follows_one(u, u.without(a), Act::Free { block: b as int });
            lemma_follows_both(t, u, u.without(a), run, false);
        },
        _ => {},
    }
}

/// A convolution launches no transform.
pub(crate) proof fn lemma_follows_conv(t: Tape, cv: DConv, src: Tensor)
    ensures
        conv_tape(t, cv, src, 0, 1, false) matches Ok((u, out)) ==> {
            &&& follows(t, u, false)
            &&& out.h == conv_extent(src.h as int, cv.kh as int, 1, 0) as usize
            &&& out.w == conv_extent(src.w as int, cv.kw as int, 1, 0) as usize
        },
{
}

/// The transforms launch one of the device's for the planes that it takes.
pub(crate) proof fn lemma_follows_transforms(t: Tape, half: int, spectra: Tensor, x: Tensor, host: bool)
    ensures
        forward_tape(t, half, x, host) matches Ok((u, _)) ==> follows(
            t,
            u,
            !host && device_plane(x),
        ),
        inverse_tape(t, half, spectra, x, host) matches Ok((u, _)) ==> follows(
            t,
            u,
            !host && device_plane(x),
        ),
{
    if let Ok((u, _)) = forward_tape(t, half, x, host) {
        if !host && device_plane(x) {
            assert(transforms(u.acts[t.acts.len() as int + 1]));
        }
    }
    if let Ok((u, _)) = inverse_tape(t, half, spectra, x, host) {
        if !host && device_plane(x) {
            assert(transforms(u.acts[t.acts.len() as int + 3]));
        }
    }
}

/// The device's transforms are launched for planes that they take, in both directions, and
/// for those always unless the host is asked for.
pub proof fn law_device_transforms_take_their_planes(
    t: Tape,
    half: int,
    spectra: Tensor,
    x: Tensor,
    host: bool,
)
    ensures
        forward_tape(t, half, x, host) matches Ok((u, _)) ==> launched(t, u) == (!host
            && device_plane(x)),
        inverse_tape(t, half, spectra, x, host) matches Ok((u, _)) ==> launched(t, u) == (!host
            && device_plane(x)),
{
    lemma_follows_transforms(t, half, spectra, x, host);
}

/// A Fourier unit launches transforms for the planes that the device's take.
pub(crate) proof fn lemma_follows_unit(t: Tape, sp: DSpectral, feat: Tensor, host: bool)
    ensures
        fourier_tape(t, sp, feat, host) matches Ok((u, _)) ==> follows(
            t,
            u,
            !host && device_plane(feat),
        ),
{
    if let Ok((u, _)) = fourier_tape(t, sp, feat, host) {
        let (f1, planes) = forward_tape(t, sp.half as int, feat, host)->Ok_0;
        let (f2, fu) = conv_tape(f1, sp.fu_conv, planes, 0, 1, false)->Ok_0;
        let f3 = bn_relu_tape(f2, fu, sp.fu_bn)->Ok_0;
        let (f4, inv) = inverse_tape(f3, sp.half as int, fu, feat, host)->Ok_0;
        let run = !host && device_plane(feat);
        lemma_follows_transforms(t, sp.half as int, fu, feat, host);
        lemma_follows_conv(f1, sp.fu_conv, planes);
        assert(follows(f2, f3, false));
        lemma_follows_transforms(f3, sp.half as int, fu, feat, host);
        lemma_follows_both(t, f1, f2, run, false);
        lemma_follows_both(t, f2, f3, run, false);
        lemma_follows_both(t, f3, f4, run, run);
        lemma_follows_free(t, f4, run, fu.at);
        lemma_follows_free(t, f4.without(fu.at), run, planes.at);
    }
}

/// A spectral branch launches the device's transforms only where the planes that it
/// transforms are square with a power of two as their side, and there always unless the
/// host is asked for.
pub proof fn law_spectral_branch_launches_for_device_planes(
    t: Tape,
    sp: DSpectral,
    x: Tensor,
    host: bool,
)
    ensures
        spectral_tape(t, sp, x, host) matches Ok((u, _)) ==> launched(t, u) == (!host
            && device_plane(feature(sp, x))),
{
    if let Ok((u, _)) = spectral_tape(t, sp, x, host) {
        let (t1, pooled) = reduce_tape(t, sp.stride as int, x)->Ok_0;
        let (t2, feat) = conv_tape(t1, sp.conv1, pooled, 0, 1, false)->Ok_0;
        let t3 = bn_relu_tape(t2, feat, sp.bn1)->Ok_0;
        let (t4, inv) = fourier_tape(t3, sp, feat, host)->Ok_0;
        let t5 = add_tape(t4, inv, feat)->Ok_0;
        let (t6, out) = conv_tape(t5, sp.conv2, inv, 0, 1, false)->Ok_0;
        let run = !host && device_plane(feat);
        assert(follows(t, t1, false));
        lemma_follows_conv(t1, sp.conv1, pooled);
        assert(follows(t2, t3, false));
        lemma_follows_unit(t3, sp, feat, host);
        assert(follows(t4, t5, false));
        lemma_follows_conv(t5, sp.conv2, inv);
        lemma_follows_both(t, t1, t2, false, false);
        lemma_follows_both(t, t2, t3, false, false);
        lemma_follows_both(t, t3, t4, false, run);
        lemma_follows_both(t, t4, t5, run, false);
        lemma_follows_both(t, t5, t6, run, false);
        lemma_follows_free(t, t6, run, inv.at);
        lemma_follows_free(t, t6.without(inv.at), run, feat.at);
        lemma_follows_free(t, t6.without(inv.at).without(feat.at), run, pooled.at);
    }
}

/// Upsamplings and transforms are planned wherever their planes, and those that they make,
/// are not too large, and the matrix kernel takes the depth.
pub proof fn law_upsamplings_and_transforms_are_planned(
    t: Tape,
    cv: DConvT,
    src: Tensor,
    gather: bool,
    half: int,
    spectra: Tensor,
    host: bool,
)
    requires
        t.next <= 0xffff_0000,
        usize::MAX == 0xffff_ffff_ffff_ffff,
        src.h <= 0x4000,
        src.w <= 0x4000,
        src.c <= 0x400,
        4 <= cv.cin <= 0x400,
        cv.cin % 4 == 0,
        cv.cout <= 0x400,
        0 <= half <= 0x400,
        src.c * (src.h * src.w) <= 0xff_ffff_ff00,
        (4 * cv.cin) * (src.h * src.w) <= 0xff_ffff_ff00,
        cv.cout * (4 * (src.h * src.w)) <= 0xff_ffff_ff00,
        (2 * half) * (src.h * (src.w + 1)) <= 0xff_ffff_ff00,
    ensures
        upsample_tape(t, cv, src, gather) is Ok,
        forward_tape(t, half, src, host) is Ok,
        inverse_tape(t, half, spectra, src, host) is Ok,
{
    let (h, w) = (src.h as int, src.w as int);
    let area = src.area();
    crate::grid::lemma_area_le(h, w, 0x4000, 0x4000);
    crate::grid::lemma_area_le(0, 0, src.c as int, area);
    crate::grid::lemma_area_le(0, 0, 4 * cv.cin, area);
    crate::grid::lemma_area_le(0, 0, cv.cout as int, 4 * area);
    crate::grid::lemma_area_le(h, w / 2 + 1, h, w + 1);
    crate::grid::lemma_area_le(h, w / 2 + 1, 0x4000, 0x4001);
    crate::grid::lemma_area_le(h, w, h, w + 1);
    crate::grid::lemma_area_le(2 * half, h * (w / 2 + 1), 2 * half, h * (w + 1));
    crate::grid::lemma_area_le(half, h * (w / 2 + 1), 2 * half, h * (w + 1));
    crate::grid::lemma_area_le(half, area, 2 * half, h * (w + 1));
    assert(upsample_fits(t, cv, src));
    reveal_with_fuel(phases_tape, 5);
    let t1 = t.with_block(cv.cout * (4 * area));
    let out = t.fresh();
    assert(phase_tape(t1, cv, src, out, 0) is Ok);
    let p1 = phase_tape(t1, cv, src, out, 0)->Ok_0;
    assert(phase_tape(p1, cv, src, out, 1) is Ok);
    let p2 = phase_tape(p1, cv, src, out, 1)->Ok_0;
    assert(phase_tape(p2, cv, src, out, 2) is Ok);
    let p3 = phase_tape(p2, cv, src, out, 2)->Ok_0;
    assert(phase_tape(p3, cv, src, out, 3) is Ok);
}

} // verus!
