//! The operations of the network as commands for a device.

use vstd::prelude::*;

use crate::device::{blocks_for, grid_for, narrow, reachable, roomy, Act, Addr, Arg, Base, Kernel, Program, Tape, BLOCK, MOST_ELEMENTS};
use crate::model::conv_extent;
use crate::text::{decimal, push_number};

verus! {

/// A batch of planes `[c][h][w]` on the device.
#[derive(Debug, Clone, Copy, PartialEq, Eq, Structural)]
pub struct Tensor {
    pub at: Addr,
    pub c: usize,
    pub h: usize,
    pub w: usize,
}

/// A convolution weight `[cout][cin][kh][kw]` with its bias, on the device.
#[derive(Debug, Clone, Copy, PartialEq, Eq, Structural)]
pub struct DConv {
    pub w: Addr,
    pub bias: Option<Addr>,
    pub cin: usize,
    pub cout: usize,
    pub kh: usize,
    pub kw: usize,
    /// The same weights as `[cin][cout][kh][kw]`, for the direct 7x7 kernel, which walks
    /// one input channel at a time.
    pub w_t: Option<Addr>,
}

/// A folded BatchNorm on the device.
#[derive(Debug, Clone, Copy, PartialEq, Eq, Structural)]
pub struct DBn {
    pub scale: Addr,
    pub shift: Addr,
    pub channels: usize,
}

/// The complaint about sizes that the device kernels cannot take.
pub open spec fn unfit() -> Seq<char> {
    "the planes are too large for the device kernels"@
}

/// The complaint of the matrix kernel.
pub open spec fn bad_depth(k: int) -> Seq<char> {
    "sgemm: k must be a positive multiple of 4, got "@ + decimal(k as nat)
}

/// Whether there are numbers left for new blocks.
pub open spec fn spare(t: Tape) -> bool {
    t.next + 16 <= usize::MAX
}

impl Tensor {
    /// The values in a plane.
    pub open spec fn area(self) -> int {
        self.h * self.w
    }

    /// The values in all planes.
    pub open spec fn count(self) -> int {
        self.c * (self.h * self.w)
    }

    /// Whether the extents can be arguments of a kernel and all values be covered by one.
    pub open spec fn small(self) -> bool {
        &&& narrow(self.c as int)
        &&& narrow(self.h as int)
        &&& narrow(self.w as int)
        &&& narrow(self.area())
        &&& roomy(self.count())
    }

    /// The number of the block that holds the planes.
    pub open spec fn block(self) -> int {
        match self.at.base {
            Base::Block(b) => b as int,
            _ => -1,
        }
    }
}

/// What planning an operation comes to: the commands so far and the planes it makes.
pub type Planned = Result<(Tape, Tensor), Seq<char>>;

/// A pass was extended by an operation that leaves one more block, the one of its result.
pub open spec fn made(before: Tape, after: Program, t: Tensor) -> bool {
    &&& after.wf()
    &&& after@.live() == before.live().insert(t.block())
    &&& !before.live().contains(t.block())
    &&& t.at.base is Block
    &&& reachable(after@.live(), t.at)
}

pub(crate) fn unfit_text() -> (s: String)
    ensures
        s@ == unfit(),
{
    "the planes are too large for the device kernels".to_owned()
}

pub(crate) fn is_narrow(n: usize) -> (r: bool)
    ensures
        r == narrow(n as int),
{
    n <= 0x7fff_ffff
}

/// The product of two narrow numbers, if a grid can cover it.
pub(crate) fn covered(a: usize, b: usize) -> (r: Option<usize>)
    requires
        narrow(a as int),
        narrow(b as int),
    ensures
        match r {
            Some(p) => p == a * b && roomy(p as int),
            None => !roomy(a * b),
        },
{
    assert(0 <= a * b <= 0x7fff_ffff * 0x7fff_ffff) by (nonlinear_arith)
        requires
            0 <= a <= 0x7fff_ffff,
            0 <= b <= 0x7fff_ffff,
    ;
    let p: u128 = a as u128 * b as u128;
    if p <= MOST_ELEMENTS as u128 && p <= (usize::MAX / 4) as u128 {
        Some(p as usize)
    } else {
        None
    }
}

/// The product of two narrow numbers, if it is one too.
pub(crate) fn narrow_product(a: usize, b: usize) -> (r: Option<usize>)
    requires
        narrow(a as int),
        narrow(b as int),
    ensures
        match r {
            Some(p) => p == a * b && narrow(p as int),
            None => !narrow(a * b),
        },
{
    assert(0 <= a * b <= 0x7fff_ffff * 0x7fff_ffff) by (nonlinear_arith)
        requires
            0 <= a <= 0x7fff_ffff,
            0 <= b <= 0x7fff_ffff,
    ;
    let p: u128 = a as u128 * b as u128;
    if p <= 0x7fff_ffff {
        Some(p as usize)
    } else {
        None
    }
}

/// Whether the extents of planes can be arguments of a kernel.
pub(crate) fn is_small(t: &Tensor) -> (r: bool)
    ensures
        r == t.small(),
{
    if !is_narrow(t.c) || !is_narrow(t.h) || !is_narrow(t.w) {
        return false;
    }
    match narrow_product(t.h, t.w) {
        Some(a) => covered(t.c, a).is_some(),
        None => false,
    }
}

/// `c[cout][n] = b[cout][k] * a[k][n]` in tiles of 64 by 64.
pub open spec fn sgemm_tape(t: Tape, a: Addr, b: Addr, out: Addr, k: int, cout: int, n: int) -> Result<
    Tape,
    Seq<char>,
> {
    if k < 4 || k % 4 != 0 {
        Err(bad_depth(k))
    } else {
        Ok(
            t.then_do(
                Act::Run {
                    kernel: Kernel::SgemmSlab,
                    grid: blocks_for(n, 64) * blocks_for(cout, 64),
                    threads: BLOCK as int,
                    args: seq![
                        Arg::Ptr(a),
                        Arg::Ptr(b),
                        Arg::Ptr(out),
                        Arg::Int(n as usize),
                        Arg::Int(k as usize),
                        Arg::Int(n as usize),
                        Arg::Int(k as usize),
                        Arg::Int(cout as usize),
                        Arg::Int(n as usize),
                        Arg::Int(blocks_for(n, 64) as usize),
                        Arg::Width(b),
                    ],
                },
            ),
        )
    }
}

/// A bias added to every channel of `[cout][n]`, if there is one.
pub open spec fn bias_tape(t: Tape, out: Addr, bias: Option<Addr>, cout: int, n: int) -> Tape {
    match bias {
        Some(b) => t.with_run(
            Kernel::BiasPlane,
            cout * n,
            seq![Arg::Ptr(out), Arg::Ptr(b), Arg::Int(cout as usize), Arg::Long(n as usize)],
        ),
        None => t,
    }
}

/// Whether the addresses of a convolution lie in the weights.
pub open spec fn conv_placed(cv: DConv) -> bool {
    &&& !(cv.w.base is Block)
    &&& cv.bias matches Some(b) ==> !(b.base is Block)
    &&& cv.w_t matches Some(b) ==> !(b.base is Block)
}

/// The 1x1 case is a channel product over `[cin][n]` planes: one matrix product.
pub open spec fn conv_1x1_tape(t: Tape, cv: DConv, src: Tensor) -> Planned {
    let n = src.area();
    if !(spare(t) && src.small() && narrow(cv.cin as int) && narrow(cv.cout as int) && roomy(
        cv.cout * n,
    )) {
        Err(unfit())
    } else {
        let out = t.fresh();
        match sgemm_tape(
            t.with_block(cv.cout * n),
            src.at,
            cv.w,
            out,
            cv.cin as int,
            cv.cout as int,
            n,
        ) {
            Err(e) => Err(e),
            Ok(t1) => Ok(
                (
                    bias_tape(t1, out, cv.bias, cv.cout as int, n),
                    Tensor { at: out, c: cv.cout, h: src.h, w: src.w },
                ),
            ),
        }
    }
}

/// An optional bias as an argument.
pub open spec fn bias_arg(bias: Option<Addr>) -> Arg {
    match bias {
        Some(b) => Arg::Ptr(b),
        None => Arg::Null,
    }
}

/// Direct 7x7 convolution, one thread for every output pixel.
pub open spec fn conv_7x7_tape(t: Tape, cv: DConv, src: Tensor) -> Planned {
    let oh = src.h - 6;
    let ow = src.w - 6;
    if !(spare(t) && src.small() && narrow(cv.cin as int) && narrow(cv.cout as int) && oh >= 0 && ow
        >= 0 && roomy(oh * ow) && roomy(cv.cout * (oh * ow)) && cv.w_t is Some) {
        Err(unfit())
    } else {
        let out = t.fresh();
        Ok(
            (
                t.with_block(cv.cout * (oh * ow)).with_run(
                    Kernel::Conv7x7,
                    oh * ow,
                    seq![
                        Arg::Ptr(src.at),
                        Arg::Ptr(cv.w_t.unwrap()),
                        bias_arg(cv.bias),
                        Arg::Ptr(out),
                        Arg::Int(cv.cin),
                        Arg::Int(cv.cout),
                        Arg::Int(src.h),
                        Arg::Int(src.w),
                        Arg::Int(oh as usize),
                        Arg::Int(ow as usize),
                    ],
                ),
                Tensor { at: out, c: cv.cout, h: oh as usize, w: ow as usize },
            ),
        )
    }
}

/// Whether a convolution by patches fits the kernels.
pub open spec fn patches_fit(t: Tape, cv: DConv, src: Tensor, pad: int, stride: int) -> bool {
    let oh = conv_extent(src.h as int, cv.kh as int, stride, pad);
    let ow = conv_extent(src.w as int, cv.kw as int, stride, pad);
    let k = cv.cin * cv.kh * cv.kw;
    &&& spare(t)
    &&& src.small()
    &&& narrow(pad)
    &&& narrow(stride)
    &&& 1 <= stride
    &&& narrow(cv.cin as int)
    &&& narrow(cv.cout as int)
    &&& narrow(cv.kh as int)
    &&& narrow(cv.kw as int)
    &&& cv.kh <= src.h + 2 * pad
    &&& cv.kw <= src.w + 2 * pad
    &&& narrow(cv.cin * cv.kh)
    &&& narrow(k)
    &&& narrow(oh)
    &&& narrow(ow)
    &&& narrow(oh * ow)
    &&& roomy(k * (oh * ow))
    &&& roomy(cv.cout * (oh * ow))
}

/// A convolution as patches and a matrix product: the patches are `[cin*kh*kw][oh*ow]` and
/// the weights `[cout][cin*kh*kw]`, so that neither has to be transposed.
pub open spec fn conv_patches_tape(
    t: Tape,
    cv: DConv,
    src: Tensor,
    pad: int,
    stride: int,
    mirror: bool,
) -> Planned {
    let oh = conv_extent(src.h as int, cv.kh as int, stride, pad);
    let ow = conv_extent(src.w as int, cv.kw as int, stride, pad);
    let k = cv.cin * cv.kh * cv.kw;
    let n = oh * ow;
    if !patches_fit(t, cv, src, pad, stride) {
        Err(unfit())
    } else {
        let col = t.fresh();
        let t1 = t.with_block(k * n);
        let out = t1.fresh();
        let t2 = t1.with_block(cv.cout * n).with_run(
            Kernel::Im2col,
            k * n,
            seq![
                Arg::Ptr(src.at),
                Arg::Ptr(col),
                Arg::Int(cv.cin),
                Arg::Int(src.h),
                Arg::Int(src.w),
                Arg::Int(cv.kh),
                Arg::Int(cv.kw),
                Arg::Int(pad as usize),
                Arg::Int(pad as usize),
                Arg::Int(stride as usize),
                Arg::Int(oh as usize),
                Arg::Int(ow as usize),
                Arg::Int(
                    if mirror {
                        1
                    } else {
                        0
                    },
                ),
            ],
        );
        match sgemm_tape(t2, col, cv.w, out, k, cv.cout as int, n) {
            Err(e) => Err(e),
            Ok(t3) => Ok(
                (
                    bias_tape(t3, out, cv.bias, cv.cout as int, n).without(col),
                    Tensor { at: out, c: cv.cout, h: oh as usize, w: ow as usize },
                ),
            ),
        }
    }
}

/// A convolution on the device: a plain product for 1x1, the direct kernel for the 7x7
/// shapes that it accepts, and patches otherwise.
pub open spec fn conv_tape(t: Tape, cv: DConv, src: Tensor, pad: int, stride: int, mirror: bool) -> Planned {
    if cv.kh == 1 && cv.kw == 1 && stride == 1 {
        conv_1x1_tape(t, cv, src)
    } else if cv.kh == 7 && cv.kw == 7 && stride == 1 && pad == 0 && cv.w_t is Some {
        conv_7x7_tape(t, cv, src)
    } else {
        conv_patches_tape(t, cv, src, pad, stride, mirror)
    }
}

/// The tiles of a matrix product can be counted.
proof fn lemma_tiles(n: int, cout: int)
    requires
        narrow(n),
        narrow(cout),
        roomy(cout * n),
    ensures
        0 <= blocks_for(n, 64) * blocks_for(cout, 64) <= u32::MAX,
        0 <= blocks_for(n, 64) <= u32::MAX,
        0 <= blocks_for(cout, 64) <= u32::MAX,
{
    let a = blocks_for(n, 64);
    let b = blocks_for(cout, 64);
    assert(64 * a <= n + 63);
    assert(64 * b <= cout + 63);
    assert(a * b <= u32::MAX && 0 <= a * b) by (nonlinear_arith)
        requires
            0 <= a,
            0 <= b,
            64 * a <= n + 63,
            64 * b <= cout + 63,
            0 <= n <= 0x7fff_ffff,
            0 <= cout <= 0x7fff_ffff,
            cout * n <= 0xff_ffff_ff00,
    {
        assert((64 * a) * (64 * b) <= (n + 63) * (cout + 63));
        assert((n + 63) * (cout + 63) == cout * n + 63 * n + 63 * cout + 3969);
    }
}

impl Program {
    /// Plan a matrix product.
    pub fn sgemm(&mut self, a: Addr, b: Addr, out: Addr, k: usize, cout: usize, n: usize) -> (res: Result<
        (),
        String,
    >)
        requires
            old(self).wf(),
            reachable(old(self)@.live(), a),
            reachable(old(self)@.live(), b),
            reachable(old(self)@.live(), out),
            narrow(n as int),
            narrow(cout as int),
            roomy(cout * n),
        ensures
            match sgemm_tape(old(self)@, a, b, out, k as int, cout as int, n as int) {
                Ok(t) => res is Ok && final(self).wf() && final(self)@ == t && final(self)@.live()
                    == old(self)@.live(),
                Err(text) => res matches Err(e) && e@ == text,
            },
    {
        if k < 4 || k % 4 != 0 {
            let mut e: String = "sgemm: k must be a positive multiple of 4, got ".to_owned();
            push_number(&mut e, k as u64);
            return Err(e);
        }
        proof {
            lemma_tiles(n as int, cout as int);
        }
        let columns: u32 = grid_for(n, 64);
        let rows: u32 = grid_for(cout, 64);
        let grid: u32 = columns * rows;
        let args: Vec<Arg> = vec![
            Arg::Ptr(a),
            Arg::Ptr(b),
            Arg::Ptr(out),
            Arg::Int(n),
            Arg::Int(k),
            Arg::Int(n),
            Arg::Int(k),
            Arg::Int(cout),
            Arg::Int(n),
            Arg::Int(columns as usize),
            Arg::Width(b),
        ];
        self.run_grid(Kernel::SgemmSlab, grid, args);
        Ok(())
    }

    /// Plan adding a bias.
    fn bias_plane(&mut self, out: Addr, bias: &Option<Addr>, cout: usize, n: usize)
        requires
            old(self).wf(),
            reachable(old(self)@.live(), out),
            *bias matches Some(b) ==> reachable(old(self)@.live(), b),
            narrow(cout as int),
            narrow(n as int),
            roomy(cout * n),
        ensures
            final(self).wf(),
            final(self)@ == bias_tape(old(self)@, out, *bias, cout as int, n as int),
            final(self)@.live() == old(self)@.live(),
    {
        match bias {
            Some(b) => {
                let args: Vec<Arg> = vec![
                    Arg::Ptr(out),
                    Arg::Ptr(*b),
                    Arg::Int(cout),
                    Arg::Long(n),
                ];
                self.run(Kernel::BiasPlane, cout * n, args);
            },
            None => {},
        }
    }

    fn conv_1x1(&mut self, cv: &DConv, src: &Tensor) -> (res: Result<Tensor, String>)
        requires
            old(self).wf(),
            reachable(old(self)@.live(), src.at),
            conv_placed(*cv),
        ensures
            match conv_1x1_tape(old(self)@, *cv, *src) {
                Ok((t, out)) => res == Ok::<Tensor, String>(out) && final(self)@ == t && made(
                    old(self)@,
                    *final(self),
                    out,
                ),
                Err(text) => res matches Err(e) && e@ == text,
            },
    {
        if self.next > usize::MAX - 16 || !is_small(src) || !is_narrow(cv.cin) || !is_narrow(
            cv.cout,
        ) {
            return Err(unfit_text());
        }
        let n: usize = src.h * src.w;
        let total: usize = match covered(cv.cout, n) {
            Some(p) => p,
            None => {
                return Err(unfit_text());
            },
        };
        let out: Addr = self.reserve(total);
        match self.sgemm(src.at, cv.w, out, cv.cin, cv.cout, n) {
            Ok(_) => {},
            Err(e) => {
                return Err(e);
            },
        }
        self.bias_plane(out, &cv.bias, cv.cout, n);
        Ok(Tensor { at: out, c: cv.cout, h: src.h, w: src.w })
    }
}

impl Program {
    fn conv_7x7_direct(&mut self, cv: &DConv, src: &Tensor) -> (res: Result<Tensor, String>)
        requires
            old(self).wf(),
            reachable(old(self)@.live(), src.at),
            conv_placed(*cv),
        ensures
            match conv_7x7_tape(old(self)@, *cv, *src) {
                Ok((t, out)) => res == Ok::<Tensor, String>(out) && final(self)@ == t && made(
                    old(self)@,
                    *final(self),
                    out,
                ),
                Err(text) => res matches Err(e) && e@ == text,
            },
    {
        if self.next > usize::MAX - 16 || !is_small(src) || !is_narrow(cv.cin) || !is_narrow(
            cv.cout,
        ) || src.h < 6 || src.w < 6 {
            return Err(unfit_text());
        }
        let w_t: Addr = match cv.w_t {
            Some(a) => a,
            None => {
                return Err(unfit_text());
            },
        };
        let oh: usize = src.h - 6;
        let ow: usize = src.w - 6;
        proof {
            crate::grid::lemma_area_le(ow as int, oh as int, src.w as int, src.h as int);
            assert(ow * oh == oh * ow) by (nonlinear_arith);
            assert(src.w * src.h == src.h * src.w) by (nonlinear_arith);
        }
        let n: usize = oh * ow;
        if n > usize::MAX / 4 {
            return Err(unfit_text());
        }
        let total: usize = match covered(cv.cout, n) {
            Some(p) => p,
            None => {
                return Err(unfit_text());
            },
        };
        let out: Addr = self.reserve(total);
        let bias: Arg = match cv.bias {
            Some(b) => Arg::Ptr(b),
            None => Arg::Null,
        };
        assert(bias == bias_arg(cv.bias));
        let args: Vec<Arg> = vec![
            Arg::Ptr(src.at),
            Arg::Ptr(w_t),
            bias,
            Arg::Ptr(out),
            Arg::Int(cv.cin),
            Arg::Int(cv.cout),
            Arg::Int(src.h),
            Arg::Int(src.w),
            Arg::Int(oh),
            Arg::Int(ow),
        ];
        self.run(Kernel::Conv7x7, n, args);
        Ok(Tensor { at: out, c: cv.cout, h: oh, w: ow })
    }

    /// The extents of a convolution by patches, if it fits the kernels: the output's rows
    /// and columns, the depth of the product, and the number of patches.
    fn patch_sizes(&self, cv: &DConv, src: &Tensor, pad: usize, stride: usize) -> (r: Option<
        (usize, usize, usize, usize),
    >)
        ensures
            match r {
                Some((oh, ow, k, n)) => {
                    &&& patches_fit(self@, *cv, *src, pad as int, stride as int)
                    &&& oh == conv_extent(src.h as int, cv.kh as int, stride as int, pad as int)
                    &&& ow == conv_extent(src.w as int, cv.kw as int, stride as int, pad as int)
                    &&& k == cv.cin * cv.kh * cv.kw
                    &&& n == oh * ow
                },
                None => !patches_fit(self@, *cv, *src, pad as int, stride as int),
            },
    {
        if self.next > usize::MAX - 16 || !is_small(src) || !is_narrow(pad) || !is_narrow(stride)
            || stride < 1 || !is_narrow(cv.cin) || !is_narrow(cv.cout) || !is_narrow(cv.kh)
            || !is_narrow(cv.kw) {
            return None;
        }
        let ph: u64 = src.h as u64 + 2 * pad as u64;
        let pw: u64 = src.w as u64 + 2 * pad as u64;
        if cv.kh as u64 > ph || cv.kw as u64 > pw {
            return None;
        }
        proof {
            lemma_extent_bound(ph - cv.kh, stride as int);
            lemma_extent_bound(pw - cv.kw, stride as int);
        }
        let oh: u64 = (ph - cv.kh as u64) / stride as u64 + 1;
        let ow: u64 = (pw - cv.kw as u64) / stride as u64 + 1;
        if oh > 0x7fff_ffff || ow > 0x7fff_ffff {
            return None;
        }
        let n: usize = match narrow_product(oh as usize, ow as usize) {
            Some(n) => n,
            None => {
                return None;
            },
        };
        let rows: usize = match narrow_product(cv.cin, cv.kh) {
            Some(r) => r,
            None => {
                return None;
            },
        };
        let k: usize = match narrow_product(rows, cv.kw) {
            Some(k) => k,
            None => {
                return None;
            },
        };
        if covered(k, n).is_none() || covered(cv.cout, n).is_none() {
            return None;
        }
        Some((oh as usize, ow as usize, k, n))
    }

    fn conv_patches(&mut self, cv: &DConv, src: &Tensor, pad: usize, stride: usize, mirror: bool) -> (res:
        Result<Tensor, String>)
        requires
            old(self).wf(),
            reachable(old(self)@.live(), src.at),
            conv_placed(*cv),
        ensures
            match conv_patches_tape(old(self)@, *cv, *src, pad as int, stride as int, mirror) {
                Ok((t, out)) => res == Ok::<Tensor, String>(out) && final(self)@ == t && made(
                    old(self)@,
                    *final(self),
                    out,
                ),
                Err(text) => res matches Err(e) && e@ == text,
            },
    {
        let (oh, ow, k, n): (usize, usize, usize, usize) = match self.patch_sizes(
            cv,
            src,
            pad,
            stride,
        ) {
            Some(s) => s,
            None => {
                return Err(unfit_text());
            },
        };
        let ghost before = self@.live();
        let col: Addr = self.reserve(k * n);
        let out: Addr = self.reserve(cv.cout * n);
        let args: Vec<Arg> = vec![
            Arg::Ptr(src.at),
            Arg::Ptr(col),
            Arg::Int(cv.cin),
            Arg::Int(src.h),
            Arg::Int(src.w),
            Arg::Int(cv.kh),
            Arg::Int(cv.kw),
            Arg::Int(pad),
            Arg::Int(pad),
            Arg::Int(stride),
            Arg::Int(oh),
            Arg::Int(ow),
            Arg::Int(
                if mirror {
                    1
                } else {
                    0
                },
            ),
        ];
        self.run(Kernel::Im2col, k * n, args);
        match self.sgemm(col, cv.w, out, k, cv.cout, n) {
            Ok(_) => {},
            Err(e) => {
                return Err(e);
            },
        }
        self.bias_plane(out, &cv.bias, cv.cout, n);
        self.free(col);
        let r = Tensor { at: out, c: cv.cout, h: oh, w: ow };
        assert(self@.live() =~= before.insert(r.block()));
        Ok(r)
    }

    /// Plan a convolution.
    pub fn conv(&mut self, cv: &DConv, src: &Tensor, pad: usize, stride: usize, mirror: bool) -> (res: Result<
        Tensor,
        String,
    >)
        requires
            old(self).wf(),
            reachable(old(self)@.live(), src.at),
            conv_placed(*cv),
        ensures
            match conv_tape(old(self)@, *cv, *src, pad as int, stride as int, mirror) {
                Ok((t, out)) => res == Ok::<Tensor, String>(out) && final(self)@ == t && made(
                    old(self)@,
                    *final(self),
                    out,
                ),
                Err(text) => res matches Err(e) && e@ == text,
            },
    {
        if cv.kh == 1 && cv.kw == 1 && stride == 1 {
            return self.conv_1x1(cv, src);
        }
        if cv.kh == 7 && cv.kw == 7 && stride == 1 && pad == 0 && cv.w_t.is_some() {
            return self.conv_7x7_direct(cv, src);
        }
        self.conv_patches(cv, src, pad, stride, mirror)
    }
}

proof fn lemma_extent_bound(n: int, stride: int)
    requires
        0 <= n,
        1 <= stride,
    ensures
        0 <= n / stride <= n,
{
    vstd::arithmetic::div_mod::lemma_div_is_ordered_by_denominator(n, 1, stride);
    vstd::arithmetic::div_mod::lemma_div_pos_is_pos(n, stride);
    vstd::arithmetic::div_mod::lemma_div_basics(n);
}

/// An operation in place, or one without a result: the commands so far.
pub type Extended = Result<Tape, Seq<char>>;

/// BatchNorm and ReLU in place.
pub open spec fn bn_relu_tape(t: Tape, x: Tensor, bn: DBn) -> Extended {
    if !(x.small() && narrow(bn.channels as int) && roomy(x.area() * bn.channels)) {
        Err(unfit())
    } else {
        Ok(
            t.with_run(
                Kernel::BnRelu,
                x.area() * bn.channels,
                seq![
                    Arg::Ptr(x.at),
                    Arg::Ptr(bn.scale),
                    Arg::Ptr(bn.shift),
                    Arg::Long(x.area() as usize),
                    Arg::Int(bn.channels),
                ],
            ),
        )
    }
}

/// An optional skip connection as an argument.
pub open spec fn skip_arg(skip: Option<Tensor>) -> Arg {
    match skip {
        Some(s) => Arg::Ptr(s.at),
        None => Arg::Null,
    }
}

/// BatchNorm, ReLU and the addition of a skip connection in one pass:
/// `x = relu(scale * x + shift) + skip`.
pub open spec fn bn_relu_add_tape(t: Tape, x: Tensor, bn: DBn, skip: Option<Tensor>) -> Extended {
    if !(x.small() && narrow(bn.channels as int) && roomy(x.area() * bn.channels)) {
        Err(unfit())
    } else {
        Ok(
            t.with_run(
                Kernel::BnReluAdd,
                x.area() * bn.channels,
                seq![
                    Arg::Ptr(x.at),
                    skip_arg(skip),
                    Arg::Ptr(bn.scale),
                    Arg::Ptr(bn.shift),
                    Arg::Long(x.area() as usize),
                    Arg::Int(bn.channels),
                ],
            ),
        )
    }
}

/// The logistic function in place: the kernel takes its input and output, here the same.
pub open spec fn sigmoid_tape(t: Tape, x: Tensor) -> Extended {
    if !x.small() {
        Err(unfit())
    } else {
        Ok(
            t.with_run(
                Kernel::Sigmoid,
                x.count(),
                seq![Arg::Ptr(x.at), Arg::Ptr(x.at), Arg::Long(x.count() as usize)],
            ),
        )
    }
}

/// `a += b`.
pub open spec fn add_tape(t: Tape, a: Tensor, b: Tensor) -> Extended {
    if !a.small() {
        Err(unfit())
    } else {
        Ok(
            t.with_run(
                Kernel::AddInplace,
                a.count(),
                seq![Arg::Ptr(a.at), Arg::Ptr(b.at), Arg::Long(a.count() as usize)],
            ),
        )
    }
}

/// Planes mirrored at their borders.
pub open spec fn mirror_tape(t: Tape, src: Tensor, pad: int) -> Planned {
    let h = src.h + 2 * pad;
    let w = src.w + 2 * pad;
    if !(spare(t) && src.small() && narrow(pad) && narrow(h) && narrow(w) && narrow(h * w) && roomy(
        src.c * (h * w),
    )) {
        Err(unfit())
    } else {
        let out = t.fresh();
        Ok(
            (
                t.with_block(src.c * (h * w)).with_run(
                    Kernel::ReflectPad,
                    src.c * (h * w),
                    seq![
                        Arg::Ptr(src.at),
                        Arg::Ptr(out),
                        Arg::Int(src.c),
                        Arg::Int(src.h),
                        Arg::Int(src.w),
                        Arg::Int(pad as usize),
                    ],
                ),
                Tensor { at: out, c: src.c, h: h as usize, w: w as usize },
            ),
        )
    }
}

/// Planes averaged over two by two values.
pub open spec fn pool_tape(t: Tape, src: Tensor) -> Planned {
    let h = src.h as int / 2;
    let w = src.w as int / 2;
    if !(spare(t) && src.small()) {
        Err(unfit())
    } else {
        let out = t.fresh();
        Ok(
            (
                t.with_block(src.c * (h * w)).with_run(
                    Kernel::AvgPool2x2,
                    src.c * (h * w),
                    seq![
                        Arg::Ptr(src.at),
                        Arg::Ptr(out),
                        Arg::Int(src.c),
                        Arg::Int(src.h),
                        Arg::Int(src.w),
                    ],
                ),
                Tensor { at: out, c: src.c, h: h as usize, w: w as usize },
            ),
        )
    }
}

/// A copy of planes.
pub open spec fn copy_tape(t: Tape, src: Tensor) -> Planned {
    if !(spare(t) && src.small()) {
        Err(unfit())
    } else {
        let out = t.fresh();
        Ok(
            (
                t.with_block(src.count()).with_run(
                    Kernel::Copy,
                    src.count(),
                    seq![Arg::Ptr(src.at), Arg::Ptr(out), Arg::Long(src.count() as usize)],
                ),
                Tensor { at: out, c: src.c, h: src.h, w: src.w },
            ),
        )
    }
}

/// The planes of `a` followed by those of `b`, copied by kernels so that the stream is
/// never blocked.
pub open spec fn stack_tape(t: Tape, a: Tensor, b: Tensor) -> Planned {
    if !(spare(t) && a.small() && b.small() && narrow(a.c + b.c) && roomy(a.count() + b.count())) {
        Err(unfit())
    } else {
        let out = t.fresh();
        let tail = Addr { base: out.base, offset: (4 * a.count()) as usize };
        Ok(
            (
                t.with_block(a.count() + b.count()).with_run(
                    Kernel::Copy,
                    a.count(),
                    seq![Arg::Ptr(a.at), Arg::Ptr(out), Arg::Long(a.count() as usize)],
                ).with_run(
                    Kernel::Copy,
                    b.count(),
                    seq![Arg::Ptr(b.at), Arg::Ptr(tail), Arg::Long(b.count() as usize)],
                ),
                Tensor { at: out, c: (a.c + b.c) as usize, h: a.h, w: a.w },
            ),
        )
    }
}

/// Whether the addresses of a BatchNorm lie in the weights.
pub open spec fn bn_placed(bn: DBn) -> bool {
    !(bn.scale.base is Block) && !(bn.shift.base is Block)
}

/// The numbers that small planes hold.
fn counted(t: &Tensor) -> (n: usize)
    requires
        t.small(),
    ensures
        n == t.count(),
        roomy(n as int),
{
    t.c * (t.h * t.w)
}

impl Program {
    pub fn bn_relu(&mut self, x: &Tensor, bn: &DBn) -> (res: Result<(), String>)
        requires
            old(self).wf(),
            reachable(old(self)@.live(), x.at),
            bn_placed(*bn),
        ensures
            match bn_relu_tape(old(self)@, *x, *bn) {
                Ok(t) => res is Ok && final(self).wf() && final(self)@ == t && final(self)@.live()
                    == old(self)@.live(),
                Err(text) => res matches Err(e) && e@ == text,
            },
    {
        if !is_small(x) || !is_narrow(bn.channels) {
            return Err(unfit_text());
        }
        let area: usize = x.h * x.w;
        let n: usize = match covered(area, bn.channels) {
            Some(n) => n,
            None => {
                return Err(unfit_text());
            },
        };
        let args: Vec<Arg> = vec![
            Arg::Ptr(x.at),
            Arg::Ptr(bn.scale),
            Arg::Ptr(bn.shift),
            Arg::Long(area),
            Arg::Int(bn.channels),
        ];
        self.run(Kernel::BnRelu, n, args);
        Ok(())
    }

    pub fn bn_relu_add(&mut self, x: &Tensor, bn: &DBn, skip: Option<Tensor>) -> (res: Result<(), String>)
        requires
            old(self).wf(),
            reachable(old(self)@.live(), x.at),
            bn_placed(*bn),
            skip matches Some(s) ==> reachable(old(self)@.live(), s.at),
        ensures
            match bn_relu_add_tape(old(self)@, *x, *bn, skip) {
                Ok(t) => res is Ok && final(self).wf() && final(self)@ == t && final(self)@.live()
                    == old(self)@.live(),
                Err(text) => res matches Err(e) && e@ == text,
            },
    {
        if !is_small(x) || !is_narrow(bn.channels) {
            return Err(unfit_text());
        }
        let area: usize = x.h * x.w;
        let n: usize = match covered(area, bn.channels) {
            Some(n) => n,
            None => {
                return Err(unfit_text());
            },
        };
        let kept: Arg = match skip {
            Some(s) => Arg::Ptr(s.at),
            None => Arg::Null,
        };
        assert(kept == skip_arg(skip));
        let args: Vec<Arg> = vec![
            Arg::Ptr(x.at),
            kept,
            Arg::Ptr(bn.scale),
            Arg::Ptr(bn.shift),
            Arg::Long(area),
            Arg::Int(bn.channels),
        ];
        self.run(Kernel::BnReluAdd, n, args);
        Ok(())
    }

    pub fn sigmoid(&mut self, x: &Tensor) -> (res: Result<(), String>)
        requires
            old(self).wf(),
            reachable(old(self)@.live(), x.at),
        ensures
            match sigmoid_tape(old(self)@, *x) {
                Ok(t) => res is Ok && final(self).wf() && final(self)@ == t && final(self)@.live()
                    == old(self)@.live(),
                Err(text) => res matches Err(e) && e@ == text,
            },
    {
        if !is_small(x) {
            return Err(unfit_text());
        }
        let n: usize = counted(x);
        let args: Vec<Arg> = vec![Arg::Ptr(x.at), Arg::Ptr(x.at), Arg::Long(n)];
        self.run(Kernel::Sigmoid, n, args);
        Ok(())
    }

    pub fn add_inplace(&mut self, a: &Tensor, b: &Tensor) -> (res: Result<(), String>)
        requires
            old(self).wf(),
            reachable(old(self)@.live(), a.at),
            reachable(old(self)@.live(), b.at),
        ensures
            match add_tape(old(self)@, *a, *b) {
                Ok(t) => res is Ok && final(self).wf() && final(self)@ == t && final(self)@.live()
                    == old(self)@.live(),
                Err(text) => res matches Err(e) && e@ == text,
            },
    {
        if !is_small(a) {
            return Err(unfit_text());
        }
        let n: usize = counted(a);
        let args: Vec<Arg> = vec![Arg::Ptr(a.at), Arg::Ptr(b.at), Arg::Long(n)];
        self.run(Kernel::AddInplace, n, args);
        Ok(())
    }

    pub fn reflect_pad(&mut self, src: &Tensor, pad: usize) -> (res: Result<Tensor, String>)
        requires
            old(self).wf(),
            reachable(old(self)@.live(), src.at),
        ensures
            match mirror_tape(old(self)@, *src, pad as int) {
                Ok((t, out)) => res == Ok::<Tensor, String>(out) && final(self)@ == t && made(
                    old(self)@,
                    *final(self),
                    out,
                ),
                Err(text) => res matches Err(e) && e@ == text,
            },
    {
        if self.next > usize::MAX - 16 || !is_small(src) || !is_narrow(pad) {
            return Err(unfit_text());
        }
        let h: u64 = src.h as u64 + 2 * pad as u64;
        let w: u64 = src.w as u64 + 2 * pad as u64;
        if h > 0x7fff_ffff || w > 0x7fff_ffff {
            return Err(unfit_text());
        }
        let area: usize = match narrow_product(h as usize, w as usize) {
            Some(a) => a,
            None => {
                return Err(unfit_text());
            },
        };
        let n: usize = match covered(src.c, area) {
            Some(n) => n,
            None => {
                return Err(unfit_text());
            },
        };
        let out: Addr = self.reserve(n);
        let args: Vec<Arg> = vec![
            Arg::Ptr(src.at),
            Arg::Ptr(out),
            Arg::Int(src.c),
            Arg::Int(src.h),
            Arg::Int(src.w),
            Arg::Int(pad),
        ];
        self.run(Kernel::ReflectPad, n, args);
        Ok(Tensor { at: out, c: src.c, h: h as usize, w: w as usize })
    }

    pub fn avgpool2x2(&mut self, src: &Tensor) -> (res: Result<Tensor, String>)
        requires
            old(self).wf(),
            reachable(old(self)@.live(), src.at),
        ensures
            match pool_tape(old(self)@, *src) {
                Ok((t, out)) => res == Ok::<Tensor, String>(out) && final(self)@ == t && made(
                    old(self)@,
                    *final(self),
                    out,
                ),
                Err(text) => res matches Err(e) && e@ == text,
            },
    {
        if self.next > usize::MAX - 16 || !is_small(src) {
            return Err(unfit_text());
        }
        let h: usize = src.h / 2;
        let w: usize = src.w / 2;
        proof {
            crate::grid::lemma_area_le(h as int, w as int, src.h as int, src.w as int);
            crate::grid::lemma_area_le(src.c as int, h * w, src.c as int, src.h * src.w);
        }
        let n: usize = src.c * (h * w);
        let out: Addr = self.reserve(n);
        let args: Vec<Arg> = vec![
            Arg::Ptr(src.at),
            Arg::Ptr(out),
            Arg::Int(src.c),
            Arg::Int(src.h),
            Arg::Int(src.w),
        ];
        self.run(Kernel::AvgPool2x2, n, args);
        Ok(Tensor { at: out, c: src.c, h, w })
    }

    pub fn copy(&mut self, src: &Tensor) -> (res: Result<Tensor, String>)
        requires
            old(self).wf(),
            reachable(old(self)@.live(), src.at),
        ensures
            match copy_tape(old(self)@, *src) {
                Ok((t, out)) => res == Ok::<Tensor, String>(out) && final(self)@ == t && made(
                    old(self)@,
                    *final(self),
                    out,
                ),
                Err(text) => res matches Err(e) && e@ == text,
            },
    {
        if self.next > usize::MAX - 16 || !is_small(src) {
            return Err(unfit_text());
        }
        let n: usize = counted(src);
        let out: Addr = self.reserve(n);
        let args: Vec<Arg> = vec![Arg::Ptr(src.at), Arg::Ptr(out), Arg::Long(n)];
        self.run(Kernel::Copy, n, args);
        Ok(Tensor { at: out, c: src.c, h: src.h, w: src.w })
    }

    pub fn concat(&mut self, a: &Tensor, b: &Tensor) -> (res: Result<Tensor, String>)
        requires
            old(self).wf(),
            reachable(old(self)@.live(), a.at),
            reachable(old(self)@.live(), b.at),
        ensures
            match stack_tape(old(self)@, *a, *b) {
                Ok((t, out)) => res == Ok::<Tensor, String>(out) && final(self)@ == t && made(
                    old(self)@,
                    *final(self),
                    out,
                ),
                Err(text) => res matches Err(e) && e@ == text,
            },
    {
        if self.next > usize::MAX - 16 || !is_small(a) || !is_small(b) {
            return Err(unfit_text());
        }
        let na: usize = counted(a);
        let nb: usize = counted(b);
        let channels: u64 = a.c as u64 + b.c as u64;
        let total: u128 = na as u128 + nb as u128;
        if channels > 0x7fff_ffff || total > MOST_ELEMENTS as u128 || total > (usize::MAX / 4) as u128 {
            return Err(unfit_text());
        }
        let out: Addr = self.reserve(total as usize);
        let head: Vec<Arg> = vec![Arg::Ptr(a.at), Arg::Ptr(out), Arg::Long(na)];
        self.run(Kernel::Copy, na, head);
        let tail = Addr { base: out.base, offset: 4 * na };
        let args: Vec<Arg> = vec![Arg::Ptr(b.at), Arg::Ptr(tail), Arg::Long(nb)];
        self.run(Kernel::Copy, nb, args);
        Ok(Tensor { at: out, c: channels as usize, h: a.h, w: a.w })
    }
}

/// A convolution is planned wherever its kernel fits into the padded planes, the matrix
/// kernel takes its depth, and its planes and patches are not too large.
pub proof fn law_convolution_is_planned(t: Tape, cv: DConv, src: Tensor, pad: int, stride: int, mirror: bool)
    requires
        t.next <= 0xffff_0000,
        src.h <= 0x4000,
        src.w <= 0x4000,
        src.c <= 0x400,
        cv.cout <= 0x400,
        1 <= cv.cin <= 0x400,
        1 <= cv.kh <= 7,
        1 <= cv.kw <= 7,
        (cv.cin * cv.kh * cv.kw) % 4 == 0,
        1 <= stride <= 2,
        0 <= pad <= 3,
        cv.kh <= src.h + 2 * pad,
        cv.kw <= src.w + 2 * pad,
        usize::MAX == 0xffff_ffff_ffff_ffff,
        (cv.cin * cv.kh * cv.kw) * ((src.h + 6) * (src.w + 6)) <= 0xff_ffff_ff00,
        cv.cout * ((src.h + 6) * (src.w + 6)) <= 0xff_ffff_ff00,
        src.c * (src.h * src.w) <= 0xff_ffff_ff00,
    ensures
        conv_tape(t, cv, src, pad, stride, mirror) is Ok,
{
    let (h, w) = (src.h as int, src.w as int);
    let k = cv.cin * cv.kh * cv.kw;
    let oh = conv_extent(h, cv.kh as int, stride, pad);
    let ow = conv_extent(w, cv.kw as int, stride, pad);
    assert(0 < cv.cin * cv.kh <= 0x400 * 7) by (nonlinear_arith)
        requires
            1 <= cv.cin <= 0x400,
            1 <= cv.kh <= 7,
    ;
    assert(0 < k <= 0x400 * 49) by (nonlinear_arith)
        requires
            0 < cv.cin * cv.kh <= 0x400 * 7,
            1 <= cv.kw <= 7,
            k == cv.cin * cv.kh * cv.kw,
    ;
    assert(1 <= oh <= h + 6 && 1 <= ow <= w + 6);
    crate::grid::lemma_area_le(oh, ow, h + 6, w + 6);
    crate::grid::lemma_area_le(h, w, 0x4000, 0x4000);
    crate::grid::lemma_area_le(h, w, h + 6, w + 6);
    crate::grid::lemma_area_le(h + 6, w + 6, 0x4006, 0x4006);
    crate::grid::lemma_area_le(k, oh * ow, k, (h + 6) * (w + 6));
    crate::grid::lemma_area_le(cv.cout as int, oh * ow, cv.cout as int, (h + 6) * (w + 6));
    crate::grid::lemma_area_le(cv.cout as int, h * w, cv.cout as int, (h + 6) * (w + 6));
    crate::grid::lemma_area_le(0, 0, src.c as int, h * w);
    if cv.kh == 1 && cv.kw == 1 {
        assert(k == cv.cin) by (nonlinear_arith)
            requires
                k == cv.cin * 1 * 1,
        ;
    }
}

/// The operations that work value by value are planned wherever their planes, and those that
/// they make, are not too large.
pub proof fn law_operations_are_planned(t: Tape, x: Tensor, y: Tensor, bn: DBn, skip: Option<Tensor>, pad: int)
    requires
        t.next <= 0xffff_0000,
        usize::MAX == 0xffff_ffff_ffff_ffff,
        x.h <= 0x4000,
        x.w <= 0x4000,
        x.c <= 0x400,
        y.h <= 0x4000,
        y.w <= 0x4000,
        y.c <= 0x400,
        bn.channels <= 0x400,
        0 <= pad <= 3,
        x.c * ((x.h + 6) * (x.w + 6)) <= 0xff_ffff_ff00,
        x.c * (x.h * x.w) + y.c * (y.h * y.w) <= 0xff_ffff_ff00,
        (x.h * x.w) * bn.channels <= 0xff_ffff_ff00,
    ensures
        bn_relu_tape(t, x, bn) is Ok,
        bn_relu_add_tape(t, x, bn, skip) is Ok,
        sigmoid_tape(t, x) is Ok,
        add_tape(t, x, y) is Ok,
        mirror_tape(t, x, pad) is Ok,
        pool_tape(t, x) is Ok,
        copy_tape(t, x) is Ok,
        stack_tape(t, x, y) is Ok,
{
    let (h, w) = (x.h as int, x.w as int);
    crate::grid::lemma_area_le(h, w, 0x4000, 0x4000);
    crate::grid::lemma_area_le(y.h as int, y.w as int, 0x4000, 0x4000);
    crate::grid::lemma_area_le(h + 2 * pad, w + 2 * pad, h + 6, w + 6);
    crate::grid::lemma_area_le(h + 6, w + 6, 0x4006, 0x4006);
    crate::grid::lemma_area_le(x.c as int, (h + 2 * pad) * (w + 2 * pad), x.c as int, (h + 6) * (w + 6));
    crate::grid::lemma_area_le(0, 0, x.c as int, h * w);
    crate::grid::lemma_area_le(0, 0, y.c as int, y.h * y.w);
    crate::grid::lemma_area_le(0, 0, h * w, bn.channels as int);
}

} // verus!
