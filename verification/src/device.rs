//! What a device is told to do: allocations, kernel launches and their arguments.
//!
//! A forward pass on a device is planned here as a list of commands.  Addresses are
//! symbolic, so that the plan says which blocks of memory a launch may touch, and the
//! order of the commands says that it touches none that has been given back.

use vstd::prelude::*;

verus! {

/// Threads of a block, for every kernel that is not launched one block per channel.
pub const BLOCK: u32 = 256;

/// The device kernels.
#[derive(Debug, Clone, Copy, PartialEq, Eq, Structural)]
pub enum Kernel {
    Im2col,
    ConvTranspose,
    BnRelu,
    ReflectPad,
    AvgPool2x2,
    SpecPack,
    SpecUnpack,
    ConvtCol,
    ConvtPut,
    BiasPlane,
    Conv7x7,
    BnReluAdd,
    SgemmSlab,
    Fft2R2c,
    Fft2C2r,
    Sigmoid,
    AddInplace,
    Copy,
}

/// The name of a kernel in its image.
pub open spec fn kernel_name(k: Kernel) -> Seq<char> {
    match k {
        Kernel::Im2col => "k_im2col"@,
        Kernel::ConvTranspose => "k_conv_transpose"@,
        Kernel::BnRelu => "k_bn_relu"@,
        Kernel::ReflectPad => "k_reflect_pad"@,
        Kernel::AvgPool2x2 => "k_avgpool2x2"@,
        Kernel::SpecPack => "k_spec_pack"@,
        Kernel::SpecUnpack => "k_spec_unpack"@,
        Kernel::ConvtCol => "k_convt_col"@,
        Kernel::ConvtPut => "k_convt_put"@,
        Kernel::BiasPlane => "k_bias_plane"@,
        Kernel::Conv7x7 => "k_conv7x7"@,
        Kernel::BnReluAdd => "k_bn_relu_add"@,
        Kernel::SgemmSlab => "k_sgemm_slab"@,
        Kernel::Fft2R2c => "lg_fft2_r2c"@,
        Kernel::Fft2C2r => "lg_fft2_c2r"@,
        Kernel::Sigmoid => "lg_sigmoid"@,
        Kernel::AddInplace => "lg_add_inplace"@,
        Kernel::Copy => "lg_copy"@,
    }
}

/// Whether a kernel belongs to the shared toolkit's image, and not to the engine's own.
pub open spec fn in_toolkit(k: Kernel) -> bool {
    match k {
        Kernel::Fft2R2c => true,
        Kernel::Fft2C2r => true,
        Kernel::Sigmoid => true,
        Kernel::AddInplace => true,
        Kernel::Copy => true,
        _ => false,
    }
}

impl Kernel {
    /// The name of the kernel in its image.
    pub fn name(self) -> (s: &'static str)
        ensures
            s@ == kernel_name(self),
    {
        match self {
            Kernel::Im2col => "k_im2col",
            Kernel::ConvTranspose => "k_conv_transpose",
            Kernel::BnRelu => "k_bn_relu",
            Kernel::ReflectPad => "k_reflect_pad",
            Kernel::AvgPool2x2 => "k_avgpool2x2",
            Kernel::SpecPack => "k_spec_pack",
            Kernel::SpecUnpack => "k_spec_unpack",
            Kernel::ConvtCol => "k_convt_col",
            Kernel::ConvtPut => "k_convt_put",
            Kernel::BiasPlane => "k_bias_plane",
            Kernel::Conv7x7 => "k_conv7x7",
            Kernel::BnReluAdd => "k_bn_relu_add",
            Kernel::SgemmSlab => "k_sgemm_slab",
            Kernel::Fft2R2c => "lg_fft2_r2c",
            Kernel::Fft2C2r => "lg_fft2_c2r",
            Kernel::Sigmoid => "lg_sigmoid",
            Kernel::AddInplace => "lg_add_inplace",
            Kernel::Copy => "lg_copy",
        }
    }

    /// Whether the kernel belongs to the shared toolkit's image.  A function handle is
    /// only valid for the image it came from, so a launch has to name the right one.
    pub fn is_toolkit(self) -> (r: bool)
        ensures
            r == in_toolkit(self),
    {
        match self {
            Kernel::Fft2R2c => true,
            Kernel::Fft2C2r => true,
            Kernel::Sigmoid => true,
            Kernel::AddInplace => true,
            Kernel::Copy => true,
            _ => false,
        }
    }
}

/// Whether a name begins with `lg_`, as the toolkit's do.
pub open spec fn has_toolkit_prefix(name: Seq<char>) -> bool {
    name.len() >= 3 && name[0] == 'l' && name[1] == 'g' && name[2] == '_'
}

/// The image of a kernel can be told from its name: the toolkit's kernels are those that
/// begin with `lg_`.
pub proof fn law_image_follows_from_the_name(k: Kernel)
    ensures
        in_toolkit(k) == has_toolkit_prefix(kernel_name(k)),
{
    reveal_strlit("k_im2col");
    reveal_strlit("k_conv_transpose");
    reveal_strlit("k_bn_relu");
    reveal_strlit("k_reflect_pad");
    reveal_strlit("k_avgpool2x2");
    reveal_strlit("k_spec_pack");
    reveal_strlit("k_spec_unpack");
    reveal_strlit("k_convt_col");
    reveal_strlit("k_convt_put");
    reveal_strlit("k_bias_plane");
    reveal_strlit("k_conv7x7");
    reveal_strlit("k_bn_relu_add");
    reveal_strlit("k_sgemm_slab");
    reveal_strlit("lg_fft2_r2c");
    reveal_strlit("lg_fft2_c2r");
    reveal_strlit("lg_sigmoid");
    reveal_strlit("lg_add_inplace");
    reveal_strlit("lg_copy");
}

/// Every kernel has a name of its own, the one that its image exports it by: no launch
/// finds another kernel than the one that it is for.
pub proof fn law_kernels_are_told_apart(j: Kernel, k: Kernel)
    ensures
        kernel_name(j) == kernel_name(k) ==> j == k,
        kernel_name(Kernel::Im2col) == "k_im2col"@,
        kernel_name(Kernel::ConvTranspose) == "k_conv_transpose"@,
        kernel_name(Kernel::BnRelu) == "k_bn_relu"@,
        kernel_name(Kernel::ReflectPad) == "k_reflect_pad"@,
        kernel_name(Kernel::AvgPool2x2) == "k_avgpool2x2"@,
        kernel_name(Kernel::SpecPack) == "k_spec_pack"@,
        kernel_name(Kernel::SpecUnpack) == "k_spec_unpack"@,
        kernel_name(Kernel::ConvtCol) == "k_convt_col"@,
        kernel_name(Kernel::ConvtPut) == "k_convt_put"@,
        kernel_name(Kernel::BiasPlane) == "k_bias_plane"@,
        kernel_name(Kernel::Conv7x7) == "k_conv7x7"@,
        kernel_name(Kernel::BnReluAdd) == "k_bn_relu_add"@,
        kernel_name(Kernel::SgemmSlab) == "k_sgemm_slab"@,
        kernel_name(Kernel::Fft2R2c) == "lg_fft2_r2c"@,
        kernel_name(Kernel::Fft2C2r) == "lg_fft2_c2r"@,
        kernel_name(Kernel::Sigmoid) == "lg_sigmoid"@,
        kernel_name(Kernel::AddInplace) == "lg_add_inplace"@,
        kernel_name(Kernel::Copy) == "lg_copy"@,
{
    reveal_strlit("k_im2col");
    reveal_strlit("k_conv_transpose");
    reveal_strlit("k_bn_relu");
    reveal_strlit("k_reflect_pad");
    reveal_strlit("k_avgpool2x2");
    reveal_strlit("k_spec_pack");
    reveal_strlit("k_spec_unpack");
    reveal_strlit("k_convt_col");
    reveal_strlit("k_convt_put");
    reveal_strlit("k_bias_plane");
    reveal_strlit("k_conv7x7");
    reveal_strlit("k_bn_relu_add");
    reveal_strlit("k_sgemm_slab");
    reveal_strlit("lg_fft2_r2c");
    reveal_strlit("lg_fft2_c2r");
    reveal_strlit("lg_sigmoid");
    reveal_strlit("lg_add_inplace");
    reveal_strlit("lg_copy");
    assert("k_im2col"@.len() == 8);
    assert("k_conv_transpose"@.len() == 16);
    assert("k_bn_relu"@.len() == 9);
    assert("k_reflect_pad"@.len() == 13);
    assert("k_avgpool2x2"@.len() == 12);
    assert("k_spec_pack"@.len() == 11);
    assert("k_spec_unpack"@.len() == 13);
    assert("k_convt_col"@.len() == 11);
    assert("k_convt_put"@.len() == 11);
    assert("k_bias_plane"@.len() == 12);
    assert("k_conv7x7"@.len() == 9);
    assert("k_bn_relu_add"@.len() == 13);
    assert("k_sgemm_slab"@.len() == 12);
    assert("lg_fft2_r2c"@.len() == 11);
    assert("lg_fft2_c2r"@.len() == 11);
    assert("lg_sigmoid"@.len() == 10);
    assert("lg_add_inplace"@.len() == 14);
    assert("lg_copy"@.len() == 7);
    assert("k_bn_relu"@[2] != "k_conv7x7"@[2]);
    assert("k_reflect_pad"@[2] != "k_spec_unpack"@[2]);
    assert("k_reflect_pad"@[2] != "k_bn_relu_add"@[2]);
    assert("k_avgpool2x2"@[2] != "k_bias_plane"@[2]);
    assert("k_avgpool2x2"@[2] != "k_sgemm_slab"@[2]);
    assert("k_spec_pack"@[2] != "k_convt_col"@[2]);
    assert("k_spec_pack"@[2] != "k_convt_put"@[2]);
    assert("k_spec_pack"@[0] != "lg_fft2_r2c"@[0]);
    assert("k_spec_pack"@[0] != "lg_fft2_c2r"@[0]);
    assert("k_spec_unpack"@[2] != "k_bn_relu_add"@[2]);
    assert("k_convt_col"@[8] != "k_convt_put"@[8]);
    assert("k_convt_col"@[0] != "lg_fft2_r2c"@[0]);
    assert("k_convt_col"@[0] != "lg_fft2_c2r"@[0]);
    assert("k_convt_put"@[0] != "lg_fft2_r2c"@[0]);
    assert("k_convt_put"@[0] != "lg_fft2_c2r"@[0]);
    assert("k_bias_plane"@[2] != "k_sgemm_slab"@[2]);
    assert("lg_fft2_r2c"@[8] != "lg_fft2_c2r"@[8]);
}

/// What an address is relative to.
#[derive(Debug, Clone, Copy, PartialEq, Eq, Hash, Structural)]
pub enum Base {
    /// The device copy of the checkpoint.
    Weights,
    /// The device copy of the staged tensors.
    Staged,
    /// A tensor that was uploaded by itself when the weights were loaded.
    Loaded(usize),
    /// A block that the pass allocates.
    Block(usize),
}

/// A device address: `offset` bytes from its base.
#[derive(Debug, Clone, Copy, PartialEq, Eq, Structural)]
pub struct Addr {
    pub base: Base,
    pub offset: usize,
}

/// An argument of a kernel.
#[derive(Debug, Clone, Copy, PartialEq, Eq, Structural)]
pub enum Arg {
    Ptr(Addr),
    Null,
    /// A 32-bit integer.
    Int(usize),
    /// A 64-bit integer.
    Long(usize),
    /// The load width that the alignment of an address allows.
    Width(Addr),
    /// The single-precision number 1.
    One,
    /// The single-precision number `1 / sqrt(n)`.
    InverseRoot(usize),
}

/// One command of a pass.
#[derive(Debug, Clone)]
pub enum Command {
    /// Allocate the block of this number, for this many numbers.
    Alloc { block: usize, len: usize },
    /// Give a block back.
    Free { block: usize },
    /// Run a kernel.
    Run { kernel: Kernel, grid: u32, threads: u32, args: Vec<Arg> },
    /// Transform `channels` planes at `from` on the host, into `to`.
    HostForward { from: Addr, to: Addr, channels: usize, h: usize, w: usize },
    /// Transform `channels` spectra at `from` back on the host, into `to`.
    HostInverse { from: Addr, to: Addr, channels: usize, h: usize, w: usize },
}

/// What a command does.
pub enum Act {
    Alloc { block: int, len: int },
    Free { block: int },
    Run { kernel: Kernel, grid: int, threads: int, args: Seq<Arg> },
    HostForward { from: Addr, to: Addr, channels: int, h: int, w: int },
    HostInverse { from: Addr, to: Addr, channels: int, h: int, w: int },
}

/// What a command does.
pub open spec fn act_of(c: Command) -> Act {
    match c {
        Command::Alloc { block, len } => Act::Alloc { block: block as int, len: len as int },
        Command::Free { block } => Act::Free { block: block as int },
        Command::Run { kernel, grid, threads, args } => Act::Run {
            kernel,
            grid: grid as int,
            threads: threads as int,
            args: args@,
        },
        Command::HostForward { from, to, channels, h, w } => Act::HostForward {
            from,
            to,
            channels: channels as int,
            h: h as int,
            w: w as int,
        },
        Command::HostInverse { from, to, channels, h, w } => Act::HostInverse {
            from,
            to,
            channels: channels as int,
            h: h as int,
            w: w as int,
        },
    }
}

/// Whether an address lies in a block that is live, or in the weights.
pub open spec fn reachable(live: Set<int>, a: Addr) -> bool {
    a.base matches Base::Block(b) ==> live.contains(b as int)
}

/// Whether an argument of a kernel points nowhere but at live blocks and weights.
pub open spec fn arg_reachable(live: Set<int>, a: Arg) -> bool {
    match a {
        Arg::Ptr(p) => reachable(live, p),
        Arg::Width(p) => reachable(live, p),
        _ => true,
    }
}

/// The live blocks after a command, if it is in order: it allocates a new block, gives
/// back a live one, or touches only live ones.
pub open spec fn live_after(live: Set<int>, next: int, act: Act) -> Option<(Set<int>, int)> {
    match act {
        Act::Alloc { block, .. } => if block == next {
            Some((live.insert(block), next + 1))
        } else {
            None
        },
        Act::Free { block } => if live.contains(block) {
            Some((live.remove(block), next))
        } else {
            None
        },
        Act::Run { args, .. } => if forall|i: int|
            0 <= i < args.len() ==> arg_reachable(live, #[trigger] args[i]) {
            Some((live, next))
        } else {
            None
        },
        Act::HostForward { from, to, .. } => if reachable(live, from) && reachable(live, to) {
            Some((live, next))
        } else {
            None
        },
        Act::HostInverse { from, to, .. } => if reachable(live, from) && reachable(live, to) {
            Some((live, next))
        } else {
            None
        },
    }
}

/// The live blocks after a list of commands, if all of them are in order.
pub open spec fn live_of(acts: Seq<Act>) -> Option<(Set<int>, int)>
    decreases acts.len(),
{
    if acts.len() == 0 {
        Some((Set::empty(), 0))
    } else {
        match live_of(acts.drop_last()) {
            Some((live, next)) => live_after(live, next, acts.last()),
            None => None,
        }
    }
}

/// A pass as it is being planned.
pub struct Program {
    pub commands: Vec<Command>,
    /// The number of the next block.
    pub next: usize,
}

/// What a pass does so far.
#[verifier::ext_equal]
pub struct Tape {
    pub acts: Seq<Act>,
    pub next: int,
}

impl View for Program {
    type V = Tape;

    open spec fn view(&self) -> Tape {
        Tape { acts: self.commands@.map_values(|c: Command| act_of(c)), next: self.next as int }
    }
}

impl Tape {
    /// The blocks that are live.
    pub open spec fn live(self) -> Set<int> {
        live_of(self.acts).unwrap().0
    }

    /// Every command is in order.
    pub open spec fn sound(self) -> bool {
        live_of(self.acts) matches Some((_, n)) && n == self.next && forall|b: int| #[trigger]
            self.live().contains(b) ==> 0 <= b < self.next
    }

    /// One more command.
    pub open spec fn then_do(self, act: Act) -> Tape {
        Tape { acts: self.acts.push(act), next: self.next }
    }

    /// One more block.
    pub open spec fn with_block(self, len: int) -> Tape {
        Tape {
            acts: self.acts.push(Act::Alloc { block: self.next, len }),
            next: self.next + 1,
        }
    }

    /// The address of the block that is allocated next.
    pub open spec fn fresh(self) -> Addr {
        Addr { base: Base::Block(self.next as usize), offset: 0 }
    }

    /// One block less.
    pub open spec fn without(self, a: Addr) -> Tape {
        match a.base {
            Base::Block(b) => self.then_do(Act::Free { block: b as int }),
            _ => self,
        }
    }

    /// One kernel more, with a thread for each of `n` elements.
    pub open spec fn with_run(self, kernel: Kernel, n: int, args: Seq<Arg>) -> Tape {
        self.then_do(
            Act::Run { kernel, grid: blocks_for(n, BLOCK as int), threads: BLOCK as int, args },
        )
    }
}

/// The number of blocks of `block` threads that cover `n` elements.
pub open spec fn blocks_for(n: int, block: int) -> int {
    (n + block - 1) / block
}

/// The largest number of elements that a grid can cover.
pub const MOST_ELEMENTS: u64 = 0xff_ffff_ff00;

/// Whether a block of this many numbers can be addressed and covered by a grid.
pub open spec fn roomy(n: int) -> bool {
    0 <= n && n <= MOST_ELEMENTS && 4 * n <= usize::MAX
}

/// Whether a number can be a 32-bit argument of a kernel.
pub open spec fn narrow(n: int) -> bool {
    0 <= n <= 0x7fff_ffff
}

/// The number of blocks that cover `n` elements.
pub fn grid_for(n: usize, block: u32) -> (g: u32)
    requires
        1 <= block,
        blocks_for(n as int, block as int) <= u32::MAX,
    ensures
        g == blocks_for(n as int, block as int),
{
    ((n as u128 + block as u128 - 1) / block as u128) as u32
}

/// The load width of the matrix kernel: 2 where the address is a multiple of 16 bytes, 1
/// where it is one of 8, and 0 elsewhere.
pub open spec fn width_code(address: u64) -> i32 {
    if address % 16 == 0 {
        2
    } else if address % 8 == 0 {
        1
    } else {
        0
    }
}

/// The load width that the alignment of an address allows.
pub fn load_width(address: u64) -> (w: i32)
    ensures
        w == width_code(address),
{
    if address % 16 == 0 {
        2
    } else if address % 8 == 0 {
        1
    } else {
        0
    }
}

impl Program {
    pub open spec fn wf(&self) -> bool {
        self@.sound()
    }

    /// An empty pass.
    pub fn new() -> (p: Program)
        ensures
            p.wf(),
            p@ == (Tape { acts: Seq::empty(), next: 0 }),
            p@.live() == Set::<int>::empty(),
    {
        let p = Program { commands: Vec::new(), next: 0 };
        assert(p@.acts =~= Seq::empty());
        p
    }

    fn emit(&mut self, c: Command, Ghost(live): Ghost<Set<int>>)
        requires
            old(self).wf(),
            !(c is Alloc),
            live_after(old(self)@.live(), old(self)@.next, act_of(c)) matches Some((l, _)) && l == live,
            forall|b: int| live.contains(b) ==> old(self)@.live().contains(b),
        ensures
            final(self).wf(),
            final(self)@ == old(self)@.then_do(act_of(c)),
            final(self)@.live() == live,
    {
        let ghost before = self@;
        self.commands.push(c);
        proof {
            assert(self@.acts =~= before.acts.push(act_of(c)));
            assert(self@.acts.drop_last() =~= before.acts);
        }
    }

    /// Allocate a block for `len` numbers.
    pub fn reserve(&mut self, len: usize) -> (a: Addr)
        requires
            old(self).wf(),
            old(self).next < usize::MAX,
        ensures
            final(self).wf(),
            a == old(self)@.fresh(),
            final(self)@ == old(self)@.with_block(len as int),
            final(self)@.live() == old(self)@.live().insert(old(self)@.next),
            !old(self)@.live().contains(old(self)@.next),
    {
        let ghost before = self@;
        let block: usize = self.next;
        let c = Command::Alloc { block, len };
        self.commands.push(c);
        self.next = self.next + 1;
        proof {
            assert(self@.acts =~= before.acts.push(act_of(c)));
            assert(self@.acts.drop_last() =~= before.acts);
            assert(self@.live() == before.live().insert(before.next));
            assert forall|b: int| #[trigger] self@.live().contains(b) implies 0 <= b < self@.next by {
                if b != before.next {
                    assert(before.live().contains(b));
                }
            }
        }
        Addr { base: Base::Block(block), offset: 0 }
    }

    /// Give a block back.  What lies in the weights stays.
    pub fn free(&mut self, a: Addr)
        requires
            old(self).wf(),
            reachable(old(self)@.live(), a),
        ensures
            final(self).wf(),
            final(self)@ == old(self)@.without(a),
            final(self)@.live() == match a.base {
                Base::Block(b) => old(self)@.live().remove(b as int),
                _ => old(self)@.live(),
            },
    {
        match a.base {
            Base::Block(b) => {
                let ghost live = self@.live().remove(b as int);
                self.emit(Command::Free { block: b }, Ghost(live));
            },
            _ => {},
        }
    }

    /// Run a kernel with a thread for each of `n` elements.
    pub fn run(&mut self, kernel: Kernel, n: usize, args: Vec<Arg>)
        requires
            old(self).wf(),
            roomy(n as int),
            forall|i: int|
                0 <= i < args@.len() ==> arg_reachable(old(self)@.live(), #[trigger] args@[i]),
        ensures
            final(self).wf(),
            final(self)@ == old(self)@.with_run(kernel, n as int, args@),
            final(self)@.live() == old(self)@.live(),
    {
        assert(blocks_for(n as int, 256) <= u32::MAX);
        let grid: u32 = grid_for(n, BLOCK);
        let ghost live = self@.live();
        self.emit(Command::Run { kernel, grid, threads: BLOCK, args }, Ghost(live));
    }

    /// Run a kernel with `grid` blocks.
    pub fn run_grid(&mut self, kernel: Kernel, grid: u32, args: Vec<Arg>)
        requires
            old(self).wf(),
            forall|i: int|
                0 <= i < args@.len() ==> arg_reachable(old(self)@.live(), #[trigger] args@[i]),
        ensures
            final(self).wf(),
            final(self)@ == old(self)@.then_do(
                Act::Run { kernel, grid: grid as int, threads: BLOCK as int, args: args@ },
            ),
            final(self)@.live() == old(self)@.live(),
    {
        let ghost live = self@.live();
        self.emit(Command::Run { kernel, grid, threads: BLOCK, args }, Ghost(live));
    }

    /// Transform planes on the host.
    pub fn host_forward(&mut self, from: Addr, to: Addr, channels: usize, h: usize, w: usize)
        requires
            old(self).wf(),
            reachable(old(self)@.live(), from),
            reachable(old(self)@.live(), to),
        ensures
            final(self).wf(),
            final(self)@ == old(self)@.then_do(
                Act::HostForward { from, to, channels: channels as int, h: h as int, w: w as int },
            ),
            final(self)@.live() == old(self)@.live(),
    {
        let ghost live = self@.live();
        self.emit(Command::HostForward { from, to, channels, h, w }, Ghost(live));
    }

    /// Transform spectra back on the host.
    pub fn host_inverse(&mut self, from: Addr, to: Addr, channels: usize, h: usize, w: usize)
        requires
            old(self).wf(),
            reachable(old(self)@.live(), from),
            reachable(old(self)@.live(), to),
        ensures
            final(self).wf(),
            final(self)@ == old(self)@.then_do(
                Act::HostInverse { from, to, channels: channels as int, h: h as int, w: w as int },
            ),
            final(self)@.live() == old(self)@.live(),
    {
        let ghost live = self@.live();
        self.emit(Command::HostInverse { from, to, channels, h, w }, Ghost(live));
    }
}

/// Numbers can be launched for where a 32-bit grid of blocks of 256 threads reaches them all
/// and their bytes can be counted, and a 32-bit argument is any number that a signed one can
/// be.
pub proof fn law_limits_of_a_launch(n: int)
    ensures
        roomy(n) <==> 0 <= n && (n + 255) / 256 <= 0xffff_ffff && 4 * n <= usize::MAX,
        narrow(n) <==> 0 <= n < 0x8000_0000,
        0 <= n ==> 256 * blocks_for(n, 256) >= n && 256 * (blocks_for(n, 256) - 1) < n,
{
}

} // verus!
