//! The spectral transform: a convolution in the frequency domain, which sees the whole
//! plane at once.

use vstd::prelude::*;
use vstd::slice::slice_subrange;

use crate::acts::{avg_pool2x2, add_inplace, lemma_extents, pooled, rectified, relu_inplace, summed, Acts, Planes};
use crate::conv::{can_convolve, conv_needs, conv_of, conv_shaped, convolved, Conv2dW};
use crate::needs::{first_unmet, joined, lemma_needs_in_turn, Need};
use crate::norm::{norm_needs, norm_of, normed, Bn};
use crate::par::par_map;
use crate::scalar::Scalar;
use crate::spectrum::{can_transform, irfft2_of, irfft2_on, kept, rfft2_of, rfft2_on, Lattice};
use crate::weights::WeightStore;

verus! {

/// `conv2(conv1(x) + fourier_unit(conv1(x)))`, preceded by a strided average pool and
/// followed by a 1x1 convolution.
pub struct Spectral<S> {
    pub stride: usize,
    /// 1x1, `cin -> half`.
    pub conv1: Conv2dW<S>,
    /// 1x1, `half -> cout`.
    pub conv2: Conv2dW<S>,
    pub bn1: Bn<S>,
    pub fu: FourierUnit<S>,
    pub half: usize,
    /// `model.{block}` and the sub-index of the owning block.
    pub block: usize,
    pub sub: usize,
}

/// A 1x1 convolution between a transform and its inverse.
pub struct FourierUnit<S> {
    /// Over the stacked real and imaginary channels: `2 * half -> 2 * half`.
    pub conv: Conv2dW<S>,
    pub bn: Bn<S>,
    pub half: usize,
}

/// The part `c` of a buffer made of parts of one size.
pub open spec fn chunk<S>(data: Seq<S>, size: int, c: int) -> Seq<S> {
    data.subrange(c * size, (c + 1) * size)
}

/// `out` holds the transforms of the first planes of a buffer, one after another, real and
/// imaginary parts as two planes each.
pub open spec fn each_transformed<S: Scalar>(
    planes: Seq<S>,
    channels: int,
    h: int,
    w: int,
    out: Seq<S>,
) -> bool {
    &&& out.len() == channels * (2 * h * kept(w))
    &&& forall|c: int|
        0 <= c < channels ==> rfft2_of(
            chunk(planes, h * w, c),
            h,
            w,
            #[trigger] chunk(out, 2 * h * kept(w), c),
        )
}

/// `out` holds the planes whose transforms are the first spectra of a buffer, one after
/// another.
pub open spec fn each_untransformed<S: Scalar>(
    spectra: Seq<S>,
    channels: int,
    h: int,
    w: int,
    out: Seq<S>,
) -> bool {
    &&& out.len() == channels * (h * w)
    &&& forall|c: int|
        0 <= c < channels ==> irfft2_of(
            chunk(spectra, 2 * h * kept(w), c),
            h,
            w,
            #[trigger] chunk(out, h * w, c),
        )
}

/// `spec` holds the transforms of the first `half` planes of `x`, real and imaginary parts
/// as two planes each.
pub open spec fn transformed<S: Scalar>(x: Planes<S>, half: int, spec_planes: Planes<S>) -> bool {
    &&& spec_planes.shaped(2 * half, x.h, kept(x.w))
    &&& forall|c: int|
        0 <= c < half ==> rfft2_of(
            chunk(x.data, x.h * x.w, c),
            x.h,
            x.w,
            #[trigger] chunk(spec_planes.data, 2 * x.h * kept(x.w), c),
        )
}

/// `out` holds the planes of `w` columns whose transforms are `spec_planes`.
pub open spec fn untransformed<S: Scalar>(
    spec_planes: Planes<S>,
    half: int,
    w: int,
    out: Planes<S>,
) -> bool {
    &&& out.shaped(half, spec_planes.h, w)
    &&& forall|c: int|
        0 <= c < half ==> irfft2_of(
            chunk(spec_planes.data, 2 * spec_planes.h * kept(w), c),
            spec_planes.h,
            w,
            #[trigger] chunk(out.data, spec_planes.h * w, c),
        )
}

/// `out` is `x` convolved, normed and rectified.
pub open spec fn activated<S: Scalar>(
    cv: Conv2dW<S>,
    bn: Bn<S>,
    x: Planes<S>,
    out: Planes<S>,
) -> bool {
    exists|a: Planes<S>, b: Planes<S>|
        #![trigger convolved(cv, x, 0, 1, false, a), normed(bn, a, b)]
        convolved(cv, x, 0, 1, false, a) && normed(bn, a, b) && rectified(b, out)
}

/// `out` is what a Fourier unit makes of `x`.
pub open spec fn fourier_of<S: Scalar>(fu: FourierUnit<S>, x: Planes<S>, out: Planes<S>) -> bool {
    exists|a: Planes<S>, b: Planes<S>|
        #![trigger transformed(x, fu.half as int, a), activated(fu.conv, fu.bn, a, b)]
        {
            &&& transformed(x, fu.half as int, a)
            &&& activated(fu.conv, fu.bn, a, b)
            &&& untransformed(b, fu.half as int, x.w, out)
        }
}

/// What a spectral transform works on: the planes, or their average over two by two.
pub open spec fn reduced<S: Scalar>(stride: int, x: Planes<S>, a: Planes<S>) -> bool {
    if stride == 2 {
        pooled(x, a)
    } else {
        a == x
    }
}

/// `out` is what a spectral transform makes of `x`.
pub open spec fn spectral_of<S: Scalar>(sp: Spectral<S>, x: Planes<S>, out: Planes<S>) -> bool {
    exists|a: Planes<S>, feat: Planes<S>, f: Planes<S>, t: Planes<S>|
        #![trigger reduced(sp.stride as int, x, a), activated(sp.conv1, sp.bn1, a, feat), fourier_of(sp.fu, feat, f), summed(feat, f, t)]
        {
            &&& reduced(sp.stride as int, x, a)
            &&& activated(sp.conv1, sp.bn1, a, feat)
            &&& fourier_of(sp.fu, feat, f)
            &&& summed(feat, f, t)
            &&& convolved(sp.conv2, t, 0, 1, false, out)
        }
}

/// Whether a convolution is 1x1 and can be applied to planes of this shape.
pub open spec fn can_mix<S: Scalar>(cv: Conv2dW<S>, c: int, h: int, w: int) -> bool {
    &&& cv.wf()
    &&& cv.kh == 1
    &&& cv.kw == 1
    &&& can_convolve(cv, c, h, w, 0, 1, false)
}

/// Whether a Fourier unit can be applied to planes of this shape.
pub open spec fn can_fourier<S: Scalar>(fu: FourierUnit<S>, c: int, h: int, w: int) -> bool {
    &&& fu.half <= c
    &&& 1 <= h
    &&& can_transform(h, w)
    &&& 2 * fu.half <= usize::MAX
    &&& 2 * fu.half * h * kept(w) <= usize::MAX
    &&& fu.half * h * w <= usize::MAX
    &&& fu.conv.cout == 2 * fu.half
    &&& can_mix(fu.conv, 2 * fu.half, h, kept(w))
    &&& fu.bn.covers(fu.conv.cout as int)
}

/// The extent that a spectral transform reduces an extent to.
pub open spec fn reduced_extent(stride: int, n: int) -> int {
    if stride == 2 {
        n / 2
    } else {
        n
    }
}

/// Whether a spectral transform can be applied to planes of this shape.
pub open spec fn can_spectral<S: Scalar>(sp: Spectral<S>, c: int, h: int, w: int) -> bool {
    let rh = reduced_extent(sp.stride as int, h);
    let rw = reduced_extent(sp.stride as int, w);
    &&& can_mix(sp.conv1, c, rh, rw)
    &&& sp.bn1.covers(sp.conv1.cout as int)
    &&& sp.conv1.cout == sp.half
    &&& sp.fu.half == sp.half
    &&& can_fourier(sp.fu, sp.half as int, rh, rw)
    &&& can_mix(sp.conv2, sp.half as int, rh, rw)
}

/// What a spectral transform needs of the checkpoint.
pub open spec fn spectral_needs(prefix: Seq<char>, cout: nat) -> Seq<Need> {
    conv_needs(prefix + ".conv1.0"@) + norm_needs(prefix + ".conv1.1"@, cout / 2) + conv_needs(
        prefix + ".conv2"@,
    ) + conv_needs(prefix + ".fu.conv_layer"@) + norm_needs(prefix + ".fu.bn"@, 2 * (cout / 2))
}

/// The weights of a spectral transform have the four extents of a convolution.
pub open spec fn spectral_shaped(store: WeightStore, prefix: Seq<char>) -> bool {
    &&& conv_shaped(store, prefix + ".conv1.0"@)
    &&& conv_shaped(store, prefix + ".conv2"@)
    &&& conv_shaped(store, prefix + ".fu.conv_layer"@)
}

/// `sp` is the spectral transform of this name.
pub open spec fn spectral_from<S: Scalar>(
    store: WeightStore,
    prefix: Seq<char>,
    cout: int,
    sp: Spectral<S>,
) -> bool {
    &&& sp.half == cout / 2
    &&& sp.fu.half == cout / 2
    &&& conv_of(store, prefix + ".conv1.0"@, sp.conv1)
    &&& norm_of(store, prefix + ".conv1.1"@, sp.bn1)
    &&& conv_of(store, prefix + ".conv2"@, sp.conv2)
    &&& conv_of(store, prefix + ".fu.conv_layer"@, sp.fu.conv)
    &&& norm_of(store, prefix + ".fu.bn"@, sp.fu.bn)
}

/// Put parts of one size into one buffer.
pub fn flattened<S: Scalar>(parts: &Vec<Vec<S>>, size: usize) -> (out: Vec<S>)
    requires
        forall|c: int| 0 <= c < parts@.len() ==> (#[trigger] parts@[c])@.len() == size,
        parts@.len() * size <= usize::MAX,
    ensures
        out@.len() == parts@.len() * size,
        forall|c: int|
            0 <= c < parts@.len() ==> #[trigger] chunk(out@, size as int, c) == parts@[c]@,
{
    let mut out: Vec<S> = Vec::new();
    let mut i: usize = 0;
    while i < parts.len()
        invariant
            i <= parts@.len(),
            forall|c: int| 0 <= c < parts@.len() ==> (#[trigger] parts@[c])@.len() == size,
            out@.len() == i * size,
            forall|c: int| 0 <= c < i ==> #[trigger] chunk(out@, size as int, c) == parts@[c]@,
        decreases parts@.len() - i,
    {
        let part: &Vec<S> = &parts[i];
        let ghost before = out@;
        let mut j: usize = 0;
        while j < part.len()
            invariant
                j <= part@.len(),
                out@ == before + part@.take(j as int),
            decreases part@.len() - j,
        {
            out.push(part[j]);
            j += 1;
            assert(out@ =~= before + part@.take(j as int));
        }
        proof {
            assert((i + 1) * size == i * size + size) by (nonlinear_arith);
            assert(part@.take(j as int) =~= part@);
            assert forall|c: int| 0 <= c < i + 1 implies #[trigger] chunk(out@, size as int, c)
                == parts@[c]@ by {
                if c < i {
                    assert((c + 1) * size <= i * size) by (nonlinear_arith)
                        requires
                            c + 1 <= i,
                            0 <= size,
                    ;
                    assert(0 <= c * size <= (c + 1) * size) by (nonlinear_arith)
                        requires
                            0 <= c,
                            0 <= size,
                    ;
                    assert(chunk(out@, size as int, c) =~= chunk(before, size as int, c));
                } else {
                    assert(chunk(out@, size as int, c) =~= part@);
                }
            }
        }
        i += 1;
    }
    out
}

/// A part of a buffer made of parts of one size.
fn part_of<S: Scalar>(data: &Vec<S>, size: usize, c: usize) -> (p: &[S])
    requires
        (c + 1) * size <= data.len(),
    ensures
        p@ == chunk(data@, size as int, c as int),
        p@.len() == size,
{
    proof {
        assert((c + 1) * size == c * size + size) by (nonlinear_arith);
        assert(0 <= c * size) by (nonlinear_arith);
    }
    let from: usize = c * size;
    slice_subrange(data.as_slice(), from, from + size)
}

/// Convolve, norm and rectify.
fn activate<S: Scalar>(cv: &Conv2dW<S>, bn: &Bn<S>, x: &Acts<S>) -> (out: Acts<S>)
    requires
        x.wf(),
        can_mix(*cv, x.c as int, x.h as int, x.w as int),
        bn.covers(cv.cout as int),
    ensures
        out.wf(),
        activated(*cv, *bn, x@, out@),
        out@.shaped(cv.cout as int, x.h as int, x.w as int),
{
    let mut out: Acts<S> = cv.forward_1x1(x);
    let ghost a = out@;
    bn.apply(&mut out);
    let ghost b = out@;
    relu_inplace(&mut out);
    proof {
        assert(convolved(*cv, x@, 0, 1, false, a) && normed(*bn, a, b));
        lemma_mix_extent(x.h as int);
        lemma_mix_extent(x.w as int);
    }
    out
}

proof fn lemma_mix_extent(n: int)
    ensures
        crate::model::conv_extent(n, 1, 1, 0) == n,
{
}

/// Transform planes on the host.
pub fn host_forward<S: Scalar>(planes: &Vec<S>, channels: usize, h: usize, w: usize) -> (out: Vec<S>)
    requires
        can_transform(h as int, w as int),
        channels * (h * w) <= planes@.len(),
        channels * (2 * h * kept(w as int)) <= usize::MAX,
    ensures
        each_transformed(planes@, channels as int, h as int, w as int, out@),
{
    let lattice: Lattice<S::Wide> = Lattice::new(h, w, false);
    let area: usize = h * w;
    let size: usize = 2 * h * (w / 2 + 1);
    let parts: Vec<Vec<S>> = par_map(
        channels,
        (|c: usize| -> (r: Vec<S>)
            requires
                c < channels,
                area == h * w,
                channels * area <= planes@.len(),
                can_transform(h as int, w as int),
                lattice.fits(h as int, w as int, false),
            ensures
                rfft2_of(chunk(planes@, area as int, c as int), h as int, w as int, r@),
                r@.len() == 2 * h * kept(w as int),
        {
            proof {
                lemma_parts_fit(channels as int, area as int, c as int);
            }
            rfft2_on(&lattice, part_of(planes, area, c), h, w)
        }),
    );
    let out: Vec<S> = flattened(&parts, size);
    assert forall|c: int| 0 <= c < channels implies rfft2_of(
        chunk(planes@, h * w, c),
        h as int,
        w as int,
        #[trigger] chunk(out@, 2 * h * kept(w as int), c),
    ) by {
        assert(chunk(out@, size as int, c) == parts@[c]@);
    }
    out
}

/// Transform spectra back on the host.
pub fn host_inverse<S: Scalar>(spectra: &Vec<S>, channels: usize, h: usize, w: usize) -> (out: Vec<S>)
    requires
        can_transform(h as int, w as int),
        channels * (2 * h * kept(w as int)) <= spectra@.len(),
        channels * (h * w) <= usize::MAX,
    ensures
        each_untransformed(spectra@, channels as int, h as int, w as int, out@),
{
    let lattice: Lattice<S::Wide> = Lattice::new(h, w, true);
    let area: usize = h * w;
    let size: usize = 2 * h * (w / 2 + 1);
    let parts: Vec<Vec<S>> = par_map(
        channels,
        (|c: usize| -> (r: Vec<S>)
            requires
                c < channels,
                size == 2 * h * kept(w as int),
                channels * size <= spectra@.len(),
                can_transform(h as int, w as int),
                lattice.fits(h as int, w as int, true),
            ensures
                irfft2_of(chunk(spectra@, size as int, c as int), h as int, w as int, r@),
                r@.len() == h * w,
        {
            proof {
                lemma_parts_fit(channels as int, size as int, c as int);
            }
            irfft2_on(&lattice, part_of(spectra, size, c), h, w)
        }),
    );
    let out: Vec<S> = flattened(&parts, area);
    assert forall|c: int| 0 <= c < channels implies irfft2_of(
        chunk(spectra@, 2 * h * kept(w as int), c),
        h as int,
        w as int,
        #[trigger] chunk(out@, h * w, c),
    ) by {
        assert(chunk(out@, area as int, c) == parts@[c]@);
    }
    out
}

proof fn lemma_parts_fit(n: int, size: int, c: int)
    requires
        0 <= c < n,
        0 <= size,
    ensures
        (c + 1) * size <= n * size,
{
    assert((c + 1) * size <= n * size) by (nonlinear_arith)
        requires
            c + 1 <= n,
            0 <= size,
    ;
}

impl<S: Scalar> FourierUnit<S> {
    fn transform(&self, x: &Acts<S>) -> (out: Acts<S>)
        requires
            x.wf(),
            can_fourier(*self, x.c as int, x.h as int, x.w as int),
        ensures
            out.wf(),
            transformed(x@, self.half as int, out@),
    {
        let half: usize = self.half;
        let (h, w): (usize, usize) = (x.h, x.w);
        let hw: usize = w / 2 + 1;
        proof {
            lemma_extents(x.c as int, h as int, w as int);
            assert(half * (h * w) <= x.c * (h * w)) by (nonlinear_arith)
                requires
                    half <= x.c,
                    0 <= h * w,
            ;
            assert(half * (2 * h * hw) == 2 * half * h * hw) by (nonlinear_arith);
        }
        Acts { c: 2 * half, h, w: hw, data: host_forward(&x.data, half, h, w) }
    }

    fn untransform(&self, x: &Acts<S>, w: usize) -> (out: Acts<S>)
        requires
            x.wf(),
            x.c == 2 * self.half,
            x.w == kept(w as int),
            can_transform(x.h as int, w as int),
            self.half * x.h * w <= usize::MAX,
        ensures
            out.wf(),
            untransformed(x@, self.half as int, w as int, out@),
    {
        let half: usize = self.half;
        let h: usize = x.h;
        proof {
            assert(half * (2 * h * x.w) == 2 * half * h * x.w) by (nonlinear_arith);
            assert(half * (h * w) == half * h * w) by (nonlinear_arith);
        }
        Acts { c: half, h, w, data: host_inverse(&x.data, half, h, w) }
    }

    /// `x`: `[half][h][w]`; returns the inverse-transformed `[half][h][w]`.
    pub fn forward(&self, x: &Acts<S>) -> (out: Acts<S>)
        requires
            x.wf(),
            can_fourier(*self, x.c as int, x.h as int, x.w as int),
        ensures
            out.wf(),
            fourier_of(*self, x@, out@),
            out@.shaped(self.half as int, x.h as int, x.w as int),
    {
        let a: Acts<S> = self.transform(x);
        let b: Acts<S> = activate(&self.conv, &self.bn, &a);
        let out: Acts<S> = self.untransform(&b, x.w);
        assert(transformed(x@, self.half as int, a@) && activated(self.conv, self.bn, a@, b@));
        out
    }
}

impl<S: Scalar> Spectral<S> {
    /// The spectral transform of this name.
    pub fn load(
        store: &WeightStore,
        prefix: &str,
        cout: usize,
        stride: usize,
        block: usize,
        sub: usize,
    ) -> (res: Result<Self, String>)
        requires
            store.wf(),
            spectral_shaped(*store, prefix@),
        ensures
            match first_unmet(*store, spectral_needs(prefix@, cout as nat)) {
                Some(text) => res matches Err(e) && e@ == text,
                None => res matches Ok(sp) && spectral_from(*store, prefix@, cout as int, sp)
                    && sp.stride == stride && sp.block == block && sp.sub == sub,
            },
    {
        let half: usize = cout / 2;
        proof {
            let n1 = conv_needs(prefix@ + ".conv1.0"@);
            let n2 = norm_needs(prefix@ + ".conv1.1"@, half as nat);
            let n3 = conv_needs(prefix@ + ".conv2"@);
            let n4 = conv_needs(prefix@ + ".fu.conv_layer"@);
            let n5 = norm_needs(prefix@ + ".fu.bn"@, (2 * half) as nat);
            lemma_needs_in_turn(*store, n1, n2);
            lemma_needs_in_turn(*store, n1 + n2, n3);
            lemma_needs_in_turn(*store, n1 + n2 + n3, n4);
            lemma_needs_in_turn(*store, n1 + n2 + n3 + n4, n5);
        }
        let conv1: Conv2dW<S> = match Conv2dW::load(store, joined(prefix, ".conv1.0").as_str()) {
            Ok(v) => v,
            Err(e) => {
                return Err(e);
            },
        };
        let bn1: Bn<S> = match Bn::load(store, joined(prefix, ".conv1.1").as_str(), half) {
            Ok(v) => v,
            Err(e) => {
                return Err(e);
            },
        };
        let conv2: Conv2dW<S> = match Conv2dW::load(store, joined(prefix, ".conv2").as_str()) {
            Ok(v) => v,
            Err(e) => {
                return Err(e);
            },
        };
        let conv: Conv2dW<S> = match Conv2dW::load(
            store,
            joined(prefix, ".fu.conv_layer").as_str(),
        ) {
            Ok(v) => v,
            Err(e) => {
                return Err(e);
            },
        };
        let bn: Bn<S> = match Bn::load(store, joined(prefix, ".fu.bn").as_str(), 2 * half) {
            Ok(v) => v,
            Err(e) => {
                return Err(e);
            },
        };
        let fu = FourierUnit { conv, bn, half };
        Ok(Spectral { stride, conv1, conv2, bn1, fu, half, block, sub })
    }

    /// `x`: `[cin][h][w]`; returns `[cout][h/stride][w/stride]`.
    pub fn forward(&self, x: &Acts<S>) -> (out: Acts<S>)
        requires
            x.wf(),
            can_spectral(*self, x.c as int, x.h as int, x.w as int),
        ensures
            out.wf(),
            spectral_of(*self, x@, out@),
            out@.shaped(
                self.conv2.cout as int,
                reduced_extent(self.stride as int, x.h as int),
                reduced_extent(self.stride as int, x.w as int),
            ),
    {
        let a: Acts<S> = if self.stride == 2 {
            avg_pool2x2(x)
        } else {
            x.copy()
        };
        let feat: Acts<S> = activate(&self.conv1, &self.bn1, &a);
        let f: Acts<S> = self.fu.forward(&feat);
        let mut t: Acts<S> = feat.copy();
        add_inplace(&mut t, &f);
        let out: Acts<S> = self.conv2.forward_1x1(&t);
        proof {
            assert(reduced(self.stride as int, x@, a@));
            assert(activated(self.conv1, self.bn1, a@, feat@));
            assert(fourier_of(self.fu, feat@, f@));
            assert(summed(feat@, f@, t@));
            lemma_mix_extent(t.h as int);
            lemma_mix_extent(t.w as int);
        }
        out
    }
}

} // verus!
