use std::collections::HashMap;

use lama_inpaint::accept::{readable, Dims};
use lama_inpaint::convt::ConvT;
use lama_inpaint::device::{load_width, Addr, Arg, Base, Command, Kernel};
use lama_inpaint::gpu_load::{can_stage, foldable, stage_bns};
use lama_inpaint::gpu_pass::{plan_pass, Ways};
use lama_inpaint::gpu_steps::{complete, load_steps, Loaded, Loader};
use lama_inpaint::model::{build, describe, ConvRef, FfcBlock, Model, OutConv, ResBlock, Step, Upsample};
use lama_inpaint::net::{infer, run, Net};
use lama_inpaint::norm::Bn;
use lama_inpaint::scalar::{Scalar, Wide};
use lama_inpaint::spectrum::{irfft2_ortho, rfft2_ortho};
use lama_inpaint::weights::{Entry, WeightStore};

#[derive(Debug, Clone, Copy, PartialEq)]
struct F(f32);

#[derive(Debug, Clone, Copy, PartialEq)]
struct D(f64);

impl Scalar for F {
    type Wide = D;

    fn from_bits(bits: u32) -> Self {
        F(f32::from_bits(bits))
    }

    fn ratio(p: u32, q: u32) -> Self {
        F(p as f32 / q as f32)
    }

    fn zero() -> Self {
        F(0.0)
    }

    fn is_zero(self) -> bool {
        self.0 == 0.0
    }

    fn is_below(self, other: Self) -> bool {
        self.0 < other.0
    }

    fn negated(self) -> Self {
        F(-self.0)
    }

    fn plus(self, other: Self) -> Self {
        F(self.0 + other.0)
    }

    fn minus(self, other: Self) -> Self {
        F(self.0 - other.0)
    }

    fn times(self, other: Self) -> Self {
        F(self.0 * other.0)
    }

    fn over(self, other: Self) -> Self {
        F(self.0 / other.0)
    }

    fn root(self) -> Self {
        F(self.0.sqrt())
    }

    fn exponential(self) -> Self {
        F(self.0.exp())
    }

    fn plus_product(self, k: Self, x: Self) -> Self {
        F(self.0 + k.0 * x.0)
    }

    fn scaled(self, scale: Self, shift: Self) -> Self {
        F(self.0 * scale.0 + shift.0)
    }

    fn widened(self) -> D {
        D(self.0 as f64)
    }

    fn narrowed(wide: D, scale: D) -> Self {
        F((wide.0 * scale.0) as f32)
    }

    fn truncated(self) -> u8 {
        self.0 as u8
    }
}

impl Wide for D {
    fn zero() -> Self {
        D(0.0)
    }

    fn one() -> Self {
        D(1.0)
    }

    fn negated(self) -> Self {
        D(-self.0)
    }

    fn plus(self, other: Self) -> Self {
        D(self.0 + other.0)
    }

    fn minus(self, other: Self) -> Self {
        D(self.0 - other.0)
    }

    fn times(self, other: Self) -> Self {
        D(self.0 * other.0)
    }

    fn reciprocal(n: usize) -> Self {
        D(1.0 / n as f64)
    }

    fn reciprocal_root(n: usize) -> Self {
        D(1.0 / (n as f64).sqrt())
    }

    fn turn_cos(a: usize, b: usize, inverse: bool) -> Self {
        let sign = if inverse { 1.0 } else { -1.0 };
        D((sign * 2.0 * std::f64::consts::PI * a as f64 / b as f64).cos())
    }

    fn turn_sin(a: usize, b: usize, inverse: bool) -> Self {
        let sign = if inverse { 1.0 } else { -1.0 };
        D((sign * 2.0 * std::f64::consts::PI * a as f64 / b as f64).sin())
    }
}

/// A reproducible sequence of small numbers.
fn noise(i: usize) -> f32 {
    ((i * 7919 + 104729) % 1009) as f32 / 1009.0 - 0.5
}

/// A container in the making.
struct Container {
    file: Vec<u8>,
    entries: Vec<Entry>,
}

impl Container {
    fn new() -> Self {
        Container { file: Vec::new(), entries: Vec::new() }
    }

    fn put(&mut self, name: &str, shape: &[usize], data: &[f32]) {
        let offset = self.file.len();
        for v in data {
            self.file.extend_from_slice(&v.to_le_bytes());
        }
        self.entries.push(Entry {
            name: name.to_string(),
            dtype: "F32".to_string(),
            shape: shape.to_vec(),
            offset,
            nbytes: self.file.len() - offset,
        });
    }

    fn fill(&mut self, name: &str, shape: &[usize]) {
        let n = shape.iter().product();
        let seed = self.entries.len() * 31;
        let data: Vec<f32> = (0..n).map(|i| noise(i + seed)).collect();
        self.put(name, shape, &data);
    }

    fn conv(&mut self, prefix: &str, cout: usize, cin: usize, k: usize, bias: bool) {
        self.fill(&format!("{prefix}.weight"), &[cout, cin, k, k]);
        if bias {
            self.fill(&format!("{prefix}.bias"), &[cout]);
        }
    }

    fn norm(&mut self, prefix: &str, n: usize) {
        self.fill(&format!("{prefix}.weight"), &[n]);
        self.fill(&format!("{prefix}.bias"), &[n]);
        self.fill(&format!("{prefix}.running_mean"), &[n]);
        let var: Vec<f32> = (0..n).map(|i| 0.5 + i as f32 / 8.0).collect();
        self.put(&format!("{prefix}.running_var"), &[n], &var);
    }

    fn open(&self) -> WeightStore<'_> {
        WeightStore::open(&self.file, &self.entries, "test.safetensors").unwrap()
    }
}

fn present(name: &'static str, cin: usize, cout: usize) -> ConvRef {
    if cin == 0 || cout == 0 {
        ConvRef::Absent
    } else {
        ConvRef::Present { name, cin, cout }
    }
}

fn block(index: usize, sub: usize, from: (usize, usize), to: (usize, usize), pad: usize) -> FfcBlock {
    FfcBlock {
        index,
        sub,
        cin: from.0 + from.1,
        cout: to.0 + to.1,
        kernel: 3,
        stride: 1,
        zero_pad: false,
        pad,
        reflection: true,
        in_local: from.0,
        in_global: from.1,
        out_local: to.0,
        out_global: to.1,
        l2l: present("convl2l", from.0, to.0),
        l2g: present("convl2g", from.0, to.1),
        g2l: present("convg2l", from.1, to.0),
        g2g: from.1 > 0 && to.1 > 0,
        bn_local: to.0 > 0,
        bn_global: to.1 > 0,
    }
}

/// A generator in small: every kind of step once.
fn small_plan() -> Model {
    Model {
        steps: vec![
            Step::ReflectPad(1),
            Step::Ffc(block(1, 0, (4, 0), (4, 8), 0)),
            Step::ResBlock(ResBlock {
                index: 5,
                conv1: block(5, 1, (4, 8), (4, 8), 1),
                conv2: block(5, 2, (4, 8), (4, 8), 1),
                in_global: 8,
            }),
            Step::Concat,
            Step::Upsample(Upsample {
                index: 24,
                cin: 12,
                cout: 4,
                kernel: 3,
                stride: 2,
                pad: 1,
                output_padding: 1,
                bn_index: 25,
            }),
            Step::ReflectPad(3),
            Step::OutConv(OutConv { index: 34, cin: 4, cout: 3, kernel: 7 }),
        ],
    }
}

fn small_checkpoint() -> Container {
    let mut c = Container::new();
    c.conv("model.1.ffc.convl2l", 4, 4, 3, false);
    c.conv("model.1.ffc.convl2g", 8, 4, 3, true);
    c.norm("model.1.bn_l", 4);
    c.norm("model.1.bn_g", 8);
    for part in ["conv1", "conv2"] {
        let p = format!("model.5.{part}");
        c.conv(&format!("{p}.ffc.convl2l"), 4, 4, 3, false);
        c.conv(&format!("{p}.ffc.convl2g"), 8, 4, 3, false);
        c.conv(&format!("{p}.ffc.convg2l"), 4, 8, 3, false);
        c.conv(&format!("{p}.ffc.convg2g.conv1.0"), 4, 8, 1, false);
        c.norm(&format!("{p}.ffc.convg2g.conv1.1"), 4);
        c.conv(&format!("{p}.ffc.convg2g.fu.conv_layer"), 8, 8, 1, false);
        c.norm(&format!("{p}.ffc.convg2g.fu.bn"), 8);
        c.conv(&format!("{p}.ffc.convg2g.conv2"), 8, 4, 1, false);
        c.norm(&format!("{p}.bn_l"), 4);
        c.norm(&format!("{p}.bn_g"), 8);
    }
    c.fill("model.24.weight", &[12, 4, 3, 3]);
    c.fill("model.24.bias", &[4]);
    c.norm("model.25", 4);
    c.conv("model.34", 3, 4, 7, true);
    c
}

/// A device in software: what the kernels compute, one after the other.
struct Machine {
    memory: HashMap<Base, Vec<f32>>,
    launches: Vec<Kernel>,
}

impl Machine {
    fn new(store: &WeightStore, loaded: &Loaded<F>, input: &[F]) -> Self {
        let mut memory = HashMap::new();
        let weights = store.bytes().chunks(4).map(|b| f32::from_le_bytes([b[0], b[1], b[2], b[3]])).collect();
        memory.insert(Base::Weights, weights);
        if let Some(n) = &loaded.parts.norms {
            memory.insert(Base::Staged, n.staging.host.iter().map(|v| v.0).collect());
        }
        for (i, u) in loaded.parts.uploads.iter().enumerate() {
            memory.insert(Base::Loaded(i), u.iter().map(|b| f32::from_bits(*b)).collect());
        }
        memory.insert(Base::Block(0), input.iter().map(|v| v.0).collect());
        Machine { memory, launches: Vec::new() }
    }

    fn get(&self, a: Addr, i: usize) -> f32 {
        self.memory[&a.base][a.offset / 4 + i]
    }

    fn set(&mut self, a: Addr, i: usize, v: f32) {
        self.memory.get_mut(&a.base).unwrap()[a.offset / 4 + i] = v;
    }

    fn follow(&mut self, commands: &[Command]) {
        for c in commands {
            match c {
                Command::Alloc { block, len } => {
                    self.memory.entry(Base::Block(*block)).or_insert_with(|| vec![f32::NAN; *len]);
                }
                Command::Free { block } => {
                    self.memory.remove(&Base::Block(*block)).unwrap();
                }
                Command::Run { kernel, args, .. } => {
                    self.launches.push(*kernel);
                    self.launch(*kernel, args);
                }
                Command::HostForward { from, to, channels, h, w } => {
                    let size = 2 * h * (w / 2 + 1);
                    for c in 0..*channels {
                        let src: Vec<F> = (0..h * w).map(|i| F(self.get(*from, c * h * w + i))).collect();
                        let mut out = vec![F(0.0); size];
                        rfft2_ortho(&src, *h, *w, &mut out);
                        for (i, v) in out.iter().enumerate() {
                            self.set(*to, c * size + i, v.0);
                        }
                    }
                }
                Command::HostInverse { from, to, channels, h, w } => {
                    let size = 2 * h * (w / 2 + 1);
                    for c in 0..*channels {
                        let src: Vec<F> = (0..size).map(|i| F(self.get(*from, c * size + i))).collect();
                        let mut out = vec![F(0.0); h * w];
                        irfft2_ortho(&src, *h, *w, &mut out);
                        for (i, v) in out.iter().enumerate() {
                            self.set(*to, c * h * w + i, v.0);
                        }
                    }
                }
            }
        }
    }

    fn launch(&mut self, kernel: Kernel, args: &[Arg]) {
        let p = |i: usize| match args[i] {
            Arg::Ptr(a) => a,
            other => panic!("{other:?} is no pointer"),
        };
        let n = |i: usize| match args[i] {
            Arg::Int(v) | Arg::Long(v) => v,
            other => panic!("{other:?} is no number"),
        };
        let mirror = |i: isize, n: isize| -> isize {
            let period = 2 * (n - 1).max(1);
            let m = i.rem_euclid(period);
            if m < n { m } else { period - m }
        };
        match kernel {
            Kernel::Im2col => {
                let (cin, h, w, kh, kw) = (n(2), n(3), n(4), n(5), n(6));
                let (pad, stride, oh, ow, mirrored) = (n(7) as isize, n(9), n(10), n(11), n(12) == 1);
                for t in 0..cin * kh * kw {
                    let (ci, ky, kx) = (t / kw / kh, t / kw % kh, t % kw);
                    for o in 0..oh * ow {
                        let y = (o / ow * stride + ky) as isize - pad;
                        let x = (o % ow * stride + kx) as isize - pad;
                        let inside = (0..h as isize).contains(&y) && (0..w as isize).contains(&x);
                        let v = if inside || mirrored {
                            let (y, x) = (mirror(y, h as isize) as usize, mirror(x, w as isize) as usize);
                            self.get(p(0), (ci * h + y) * w + x)
                        } else {
                            0.0
                        };
                        self.set(p(1), t * oh * ow + o, v);
                    }
                }
            }
            Kernel::SgemmSlab => {
                let (lda, ldb, ldc, k, cout, cols) = (n(3), n(4), n(5), n(6), n(7), n(8));
                assert_eq!(args[10], Arg::Width(p(1)));
                for co in 0..cout {
                    for o in 0..cols {
                        let sum = (0..k).map(|t| self.get(p(1), co * ldb + t) * self.get(p(0), t * lda + o)).sum();
                        self.set(p(2), co * ldc + o, sum);
                    }
                }
            }
            Kernel::BiasPlane => {
                for i in 0..n(2) * n(3) {
                    let v = self.get(p(0), i) + self.get(p(1), i / n(3));
                    self.set(p(0), i, v);
                }
            }
            Kernel::Conv7x7 => {
                let (cin, cout, h, w, oh, ow) = (n(4), n(5), n(6), n(7), n(8), n(9));
                for co in 0..cout {
                    for o in 0..oh * ow {
                        let mut sum = match args[2] {
                            Arg::Ptr(b) => self.get(b, co),
                            _ => 0.0,
                        };
                        for ci in 0..cin {
                            for t in 0..49 {
                                let at = (ci * h + o / ow + t / 7) * w + o % ow + t % 7;
                                sum += self.get(p(1), (ci * cout + co) * 49 + t) * self.get(p(0), at);
                            }
                        }
                        self.set(p(3), co * oh * ow + o, sum);
                    }
                }
            }
            Kernel::BnRelu => {
                for i in 0..n(3) * n(4) {
                    let c = i / n(3);
                    let v = self.get(p(0), i) * self.get(p(1), c) + self.get(p(2), c);
                    self.set(p(0), i, v.max(0.0));
                }
            }
            Kernel::BnReluAdd => {
                for i in 0..n(4) * n(5) {
                    let c = i / n(4);
                    let skip = match args[1] {
                        Arg::Ptr(s) => self.get(s, i),
                        _ => 0.0,
                    };
                    let v = self.get(p(0), i) * self.get(p(2), c) + self.get(p(3), c);
                    self.set(p(0), i, v.max(0.0) + skip);
                }
            }
            Kernel::Sigmoid => {
                for i in 0..n(2) {
                    let v = 1.0 / (1.0 + (-self.get(p(0), i)).exp());
                    self.set(p(1), i, v);
                }
            }
            Kernel::AddInplace => {
                for i in 0..n(2) {
                    let v = self.get(p(0), i) + self.get(p(1), i);
                    self.set(p(0), i, v);
                }
            }
            Kernel::Copy => {
                for i in 0..n(2) {
                    let v = self.get(p(0), i);
                    self.set(p(1), i, v);
                }
            }
            Kernel::ReflectPad => {
                let (c, h, w, pad) = (n(2), n(3), n(4), n(5));
                let (oh, ow) = (h + 2 * pad, w + 2 * pad);
                for i in 0..c * oh * ow {
                    let y = mirror((i / ow % oh) as isize - pad as isize, h as isize) as usize;
                    let x = mirror((i % ow) as isize - pad as isize, w as isize) as usize;
                    let v = self.get(p(0), (i / ow / oh * h + y) * w + x);
                    self.set(p(1), i, v);
                }
            }
            Kernel::ConvTranspose => {
                let (cin, cout, h, w, oh, ow) = (n(4), n(5), n(6), n(7), n(8), n(9));
                for i in 0..cout * oh * ow {
                    let (co, oy, ox) = (i / ow / oh, i / ow % oh, i % ow);
                    let mut sum = self.get(p(2), co);
                    for ci in 0..cin {
                        for y in 0..h {
                            for x in 0..w {
                                let (ky, kx) = (oy + 1 - (2 * y).min(oy + 1), ox + 1 - (2 * x).min(ox + 1));
                                if 2 * y <= oy + 1 && 2 * x <= ox + 1 && ky < 3 && kx < 3 {
                                    let k = self.get(p(1), ((ci * cout + co) * 3 + ky) * 3 + kx);
                                    sum += k * self.get(p(0), (ci * h + y) * w + x);
                                }
                            }
                        }
                    }
                    self.set(p(3), i, sum);
                }
            }
            Kernel::ConvtCol => {
                let (cin, h, w, py, px, taps, cols) = (n(2), n(3), n(4), n(5), n(6), n(7), n(8));
                let list: &[(usize, usize)] = match (py, px) {
                    (0, 0) => &[(1, 1)],
                    (0, 1) => &[(1, 0), (1, 2)],
                    (1, 0) => &[(0, 1), (2, 1)],
                    _ => &[(0, 0), (0, 2), (2, 0), (2, 2)],
                };
                for ci in 0..cin {
                    for (t, (ky, kx)) in list.iter().enumerate() {
                        for j in 0..cols {
                            let y = (2 * (j / w) + py + 1 - ky) / 2;
                            let x = (2 * (j % w) + px + 1 - kx) / 2;
                            let v = if y < h && x < w { self.get(p(0), (ci * h + y) * w + x) } else { 0.0 };
                            self.set(p(1), (ci * taps + t) * cols + j, v);
                        }
                    }
                }
            }
            Kernel::ConvtPut => {
                let (cout, cols, py, px, oh, ow) = (n(3), n(4), n(5), n(6), n(7), n(8));
                let w = ow / 2;
                for co in 0..cout {
                    for j in 0..cols {
                        let (y, x) = (2 * (j / w) + py, 2 * (j % w) + px);
                        let v = self.get(p(0), co * cols + j) + self.get(p(2), co);
                        self.set(p(1), (co * oh + y) * ow + x, v);
                    }
                }
            }
            other => panic!("{other:?} is not emulated"),
        }
    }
}

#[test]
fn a_container_is_indexed_and_read() {
    let mut c = Container::new();
    c.put("a", &[2, 2], &[1.0, -2.0, 0.5, 4.0]);
    c.put("b", &[3], &[7.0, 8.0, 9.0]);
    let store = c.open();
    assert_eq!(store.index.order, vec!["a", "b"]);
    assert_eq!(store.info("b").unwrap().shape, vec![3]);
    assert_eq!((store.get("b").unwrap().offset, store.get("b").unwrap().nbytes), (16, 12));
    assert_eq!(store.get("a").unwrap().numel(), 4);
    assert_eq!(store.total_bytes(), 28);
    assert_eq!(store.bytes().len(), 28);
    assert_eq!(store.bits("a").unwrap(), [1.0f32, -2.0, 0.5, 4.0].map(f32::to_bits));
    assert_eq!(store.bits("c").unwrap_err(), "missing tensor in weight blob: c");
    assert_eq!(store.info("c").unwrap_err(), "missing tensor in weight blob: c");
}

#[test]
fn a_container_that_cannot_be_one_is_refused() {
    let refused = |e: Entry| WeightStore::open(&[0u8; 16], &vec![e], "x").err().unwrap();
    let entry = |dtype: &str, shape: &[usize], offset: usize, nbytes: usize| Entry {
        name: "t".to_string(),
        dtype: dtype.to_string(),
        shape: shape.to_vec(),
        offset,
        nbytes,
    };
    assert_eq!(refused(entry("F16", &[2], 0, 4)), "tensor t is F16, not F32 - is this a big-lama checkpoint?");
    assert_eq!(refused(entry("F32", &[2], 0, 4)), "tensor t does not match its data offsets");
    assert_eq!(refused(entry("F32", &[2], 12, 8)), "tensor t does not match its data offsets");
    assert_eq!(refused(entry("F32", &[usize::MAX, 2], 0, 8)), "tensor t does not match its data offsets");
    assert_eq!(WeightStore::open(&[], &Vec::new(), "x").err().unwrap(), "no tensors found in x");
}

#[test]
fn a_norm_is_folded_from_its_four_tensors() {
    let mut c = Container::new();
    c.put("n.weight", &[2], &[2.0, 3.0]);
    c.put("n.bias", &[2], &[1.0, -1.0]);
    c.put("n.running_mean", &[2], &[0.5, 0.0]);
    c.put("n.running_var", &[2], &[4.0, 1.0]);
    let store = c.open();
    let bn: Bn<F> = Bn::load(&store, "n", 2).unwrap();
    let s = 2.0 / (4.0f32 + 1e-5).sqrt();
    assert_eq!(bn.scale[0], F(s));
    assert_eq!(bn.shift[0], F(1.0 - 0.5 * s));
    let e = Bn::<F>::load(&store, "n", 3).err().unwrap();
    assert!(e.contains('n') && e.contains('3') && e.contains('2'), "{e}");
    assert_eq!(Bn::<F>::load(&store, "m", 2).err().unwrap(), "missing tensor in weight blob: m.weight");
    let staged = stage_bns::<F>(&store).unwrap();
    let (a, b) = *staged.records.get("n").unwrap();
    let (at, len) = staged.staging.records[a];
    assert_eq!((at % 16, len), (0, 2));
    assert_eq!(staged.staging.host[at / 4..at / 4 + 2], bn.scale[..]);
    let (at, _) = staged.staging.records[b];
    assert_eq!(staged.staging.host[at / 4..at / 4 + 2], bn.shift[..]);
}

#[test]
fn the_first_incomplete_norm_in_the_alphabet_is_named() {
    let mut c = Container::new();
    c.put("z.running_var", &[1], &[1.0]);
    c.put("b.running_var", &[1], &[1.0]);
    c.put("b.weight", &[1], &[1.0]);
    let store = c.open();
    assert!(foldable(&store) && can_stage(&store));
    assert_eq!(stage_bns::<F>(&store).err().unwrap(), "missing tensor in weight blob: b.bias");
}

#[test]
fn norms_are_staged_in_alphabetical_order() {
    let norm = |c: &mut Container, name: &str, weights: &[f32]| {
        let n = weights.len();
        c.put(&format!("{name}.weight"), &[n], weights);
        c.put(&format!("{name}.bias"), &[n], &vec![0.5; n]);
        c.put(&format!("{name}.running_mean"), &[n], &vec![0.0; n]);
        c.put(&format!("{name}.running_var"), &[n], &vec![1.0; n]);
    };
    let (z, a, b): (&[f32], &[f32], &[f32]) = (&[7.0; 3], &[1.0; 5], &[3.0; 4]);
    for order in [[("z", z), ("a.10", a), ("a.2", b)], [("a.2", b), ("z", z), ("a.10", a)]] {
        let mut c = Container::new();
        for (name, weights) in order {
            norm(&mut c, name, weights);
        }
        let staged = stage_bns::<F>(&c.open()).unwrap();
        assert_eq!(staged.staging.records, vec![(0, 5), (32, 5), (64, 4), (80, 4), (96, 3), (112, 3)]);
        assert_eq!(staged.staging.host.len(), 32);
        for (name, records) in [("a.10", (0, 1)), ("a.2", (2, 3)), ("z", (4, 5))] {
            assert_eq!(staged.records.get(name), Some(&records));
        }
        assert_eq!(staged.staging.host[5..8], [F(0.0); 3]);
        assert_eq!(staged.staging.host[8..13], [F(0.5); 5]);
        assert!((staged.staging.host[24].0 - 7.0).abs() < 1e-3);
    }
}

#[test]
fn the_plan_is_that_of_big_lama() {
    let m = build();
    assert_eq!(m.steps.len(), 29);
    assert!(matches!(m.steps[0], Step::ReflectPad(3)));
    let residual = m.steps.iter().filter(|s| matches!(s, Step::ResBlock(_))).count();
    assert_eq!(residual, 18);
    match &m.steps[4] {
        Step::Ffc(b) => {
            assert_eq!((b.in_local, b.in_global, b.out_local, b.out_global), (256, 0, 128, 384));
            assert!(matches!(b.g2l, ConvRef::Absent) && !b.g2g);
        }
        other => panic!("{other:?}"),
    }
    match &m.steps[28] {
        Step::OutConv(o) => assert_eq!((o.index, o.cin, o.cout, o.kernel), (34, 64, 3, 7)),
        other => panic!("{other:?}"),
    }
    assert!(!describe(&m).is_empty());
}

#[test]
fn a_network_runs_and_keeps_its_shapes() {
    let c = small_checkpoint();
    let store = c.open();
    let model = small_plan();
    assert!(readable(&store, &model));
    let net: Net<F> = Net::load(&store, &model).unwrap();
    let out = net.accepts(Dims { c: 4, h: 6, w: 8 }).unwrap();
    assert_eq!((out.c, out.h, out.w), (3, 12, 16));
    assert!(net.accepts(Dims { c: 3, h: 6, w: 8 }).is_none());
    assert!(net.accepts(Dims { c: 4, h: 0, w: 8 }).is_none());
    let input: Vec<F> = (0..4 * 48).map(|i| F(noise(i) + 0.5)).collect();
    let result = infer(&net, input.clone(), 6, 8);
    assert_eq!(run(&store, &model, input, 6, 8).unwrap(), result);
    assert_eq!(result.len(), 3 * 12 * 16);
    assert!(result.iter().all(|v| v.0 > 0.0 && v.0 < 1.0));
}

#[test]
fn what_a_network_misses_is_named_in_the_order_of_the_plan() {
    let mut c = small_checkpoint();
    c.entries.retain(|e| e.name != "model.5.conv1.bn_l.bias" && e.name != "model.24.bias");
    let store = c.open();
    let e = Net::<F>::load(&store, &small_plan()).err().unwrap();
    assert_eq!(e, "missing tensor in weight blob: model.5.conv1.bn_l.bias");
    let e = load_steps::<F>(&store, &small_plan()).err().unwrap();
    assert_eq!(e, "missing tensor in weight blob: model.5.conv1.bn_l.bias");
    let mut c = small_checkpoint();
    c.entries.retain(|e| e.name != "model.24.bias");
    let e = load_steps::<F>(&c.open(), &small_plan()).err().unwrap();
    assert_eq!(e, "missing tensor in weight blob: model.24.bias");
}

#[test]
fn a_device_norm_must_be_staged_with_its_channels() {
    let c = small_checkpoint();
    let store = c.open();
    let mut loader: Loader<F> = Loader::new();
    assert!(loader.load_bn(&store, "model.25", 4).is_ok());
    assert_eq!(loader.load_bn(&store, "model.26", 4).err().unwrap(), "BatchNorm model.26 was not staged");
    assert_eq!(
        loader.load_bn(&store, "model.25", 5).err().unwrap(),
        "BatchNorm model.25: staged 4 scale / 4 shift values, expected 5"
    );
}

#[test]
fn the_device_is_told_to_compute_what_the_host_computes() {
    let c = small_checkpoint();
    let store = c.open();
    let model = small_plan();
    let net: Net<F> = Net::load(&store, &model).unwrap();
    let input: Vec<F> = (0..4 * 48).map(|i| F(noise(i) + 0.5)).collect();
    let expected = infer(&net, input.clone(), 6, 8);
    assert!(complete(&store, &model) && foldable(&store) && can_stage(&store));
    let loaded: Loaded<F> = load_steps(&store, &model).unwrap();
    for (host_fft, gather) in [(true, false), (true, true), (false, false), (false, true)] {
        let pass = plan_pass(&loaded.steps, 6, 8, Ways { host_fft, gather }).unwrap();
        let mut machine = Machine::new(&store, &loaded, &input);
        machine.follow(&pass.commands);
        let r = pass.result;
        assert_eq!((r.c, r.h, r.w), (3, 12, 16));
        for (i, v) in expected.iter().enumerate() {
            let got = machine.get(r.at, i);
            assert!((got - v.0).abs() < 1e-3, "element {i}: {got} and {}", v.0);
        }
        let blocks = machine.memory.keys().filter(|b| matches!(b, Base::Block(_))).count();
        assert_eq!(blocks, 1);
        assert_eq!(machine.launches.contains(&Kernel::ConvTranspose), gather);
        assert_eq!(machine.launches.contains(&Kernel::ConvtPut), !gather);
    }
}

#[test]
fn the_device_transforms_planes_itself_unless_told_otherwise() {
    let c = small_checkpoint();
    let store = c.open();
    let loaded: Loaded<F> = load_steps(&store, &small_plan()).unwrap();
    let pass = plan_pass(&loaded.steps, 8, 8, Ways { host_fft: false, gather: false }).unwrap();
    let count = |k: Kernel| {
        pass.commands.iter().filter(|c| matches!(c, Command::Run { kernel, .. } if *kernel == k)).count()
    };
    assert_eq!([Kernel::Fft2R2c, Kernel::SpecPack, Kernel::SpecUnpack, Kernel::Fft2C2r].map(count), [2, 2, 2, 2]);
    let forward = pass.commands.iter().find_map(|c| match c {
        Command::Run { kernel: Kernel::Fft2R2c, grid, threads, args } => Some((*grid, *threads, args.clone())),
        _ => None,
    });
    let (grid, threads, args) = forward.unwrap();
    assert_eq!((grid, threads), (4, 256));
    assert_eq!(args[2..], [Arg::Int(4), Arg::Int(8), Arg::Int(3), Arg::One]);
}

#[test]
fn planes_that_the_device_does_not_take_are_transformed_on_the_host() {
    let c = small_checkpoint();
    let store = c.open();
    let loaded: Loaded<F> = load_steps(&store, &small_plan()).unwrap();
    for (h, w, device) in [(8, 8, true), (4, 4, true), (4, 8, false), (8, 4, false), (6, 6, false), (6, 8, false)] {
        for host_fft in [false, true] {
            let pass = plan_pass(&loaded.steps, h, w, Ways { host_fft, gather: false }).unwrap();
            let launches = pass
                .commands
                .iter()
                .filter(|c| matches!(c, Command::Run { kernel: Kernel::Fft2R2c | Kernel::Fft2C2r, .. }))
                .count();
            let forward: Vec<(usize, usize, usize)> = pass
                .commands
                .iter()
                .filter_map(|c| match c {
                    Command::HostForward { channels, h, w, .. } => Some((*channels, *h, *w)),
                    _ => None,
                })
                .collect();
            let inverse = pass.commands.iter().filter(|c| matches!(c, Command::HostInverse { .. })).count();
            if device && !host_fft {
                assert_eq!((launches, forward.len(), inverse), (4, 0, 0), "{h}x{w}");
            } else {
                assert_eq!((launches, inverse), (0, 2), "{h}x{w}");
                assert_eq!(forward, vec![(4, h, w), (4, h, w)]);
            }
        }
    }
}

#[test]
fn a_pass_that_the_matrix_kernel_cannot_take_is_refused() {
    let mut c = small_checkpoint();
    c.conv("model.35", 8, 6, 1, false);
    let store = c.open();
    let model = Model { steps: vec![Step::OutConv(OutConv { index: 35, cin: 6, cout: 8, kernel: 1 })] };
    let loaded: Loaded<F> = load_steps(&store, &model).unwrap();
    let e = plan_pass(&loaded.steps, 8, 8, Ways { host_fft: true, gather: false }).err().unwrap();
    assert!(e.contains('6'), "{e}");
    let model = Model { steps: vec![Step::Concat] };
    let loaded: Loaded<F> = load_steps(&store, &model).unwrap();
    let e = plan_pass(&loaded.steps, 8, 8, Ways { host_fft: true, gather: false }).err().unwrap();
    assert_eq!(e, "Concat without a global branch");
    let e = plan_pass(&loaded.steps, usize::MAX, 8, Ways { host_fft: true, gather: false }).err().unwrap();
    assert_eq!(e, "the planes are too large for the device kernels");
}

#[test]
fn an_upsampling_is_loaded_with_its_extents() {
    let c = small_checkpoint();
    let store = c.open();
    let ct: ConvT<F> = ConvT::load(&store, "model.24").unwrap();
    assert_eq!((ct.cin, ct.cout, ct.w.len(), ct.bias.len()), (12, 4, 432, 4));
}

#[test]
fn the_load_width_follows_the_alignment() {
    assert_eq!([0, 8, 16, 24, 4, 20].map(load_width), [2, 1, 2, 1, 0, 0]);
}

#[test]
fn the_plan_has_the_parts_of_the_checkpoint() {
    let (mut norms, mut channels, mut tensors) = (0usize, 0usize, 0usize);
    let mut norm = |n: usize| {
        norms += 1;
        channels += n;
        5
    };
    let mut block = |b: &FfcBlock| {
        let convs = [&b.l2l, &b.l2g, &b.g2l].iter().filter(|c| matches!(c, ConvRef::Present { .. })).count();
        let mut n = convs;
        if b.bn_local {
            n += norm(b.out_local);
        }
        if b.bn_global {
            n += norm(b.out_global);
        }
        if b.g2g {
            n += 3 + norm(b.out_global / 2) + norm(b.out_global / 2 * 2);
        }
        n
    };
    let mut upsamples = Vec::new();
    for s in &build().steps {
        tensors += match s {
            Step::Ffc(b) => block(b),
            Step::ResBlock(r) => block(&r.conv1) + block(&r.conv2),
            Step::Upsample(u) => {
                upsamples.push(u.cout);
                2
            }
            Step::OutConv(_) => 2,
            _ => 0,
        };
    }
    for n in upsamples {
        tensors += norm(n);
    }
    assert_eq!((norms, channels, tensors), (152, 40576, 989));
}

#[test]
fn staged_tensors_lie_apart_and_aligned() {
    let store_file = small_checkpoint();
    let store = store_file.open();
    let norms = stage_bns::<F>(&store).unwrap();
    let mut windows = norms.staging.records.clone();
    windows.sort();
    for pair in windows.windows(2) {
        assert_eq!(pair[0].0 % 16, 0);
        assert!(pair[0].0 + 4 * pair[0].1 <= pair[1].0);
    }
    let (at, len) = windows[windows.len() - 1];
    assert!(at + 4 * len <= 4 * norms.staging.host.len());
    assert_eq!(windows.len(), 22);
}

#[test]
fn tensors_lie_inside_the_container() {
    let c = small_checkpoint();
    let store = c.open();
    for name in &store.index.order {
        let t = store.info(name).unwrap();
        assert!(t.offset + t.nbytes <= store.bytes().len());
        let first = &store.bytes()[t.offset..t.offset + 4];
        assert_eq!(store.bits(name).unwrap()[0].to_le_bytes(), first);
    }
}
