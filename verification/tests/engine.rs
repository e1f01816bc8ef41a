use lama_inpaint::acts::{add_inplace, avg_pool2x2, reflect_pad_acts, relu_inplace, sigmoid_inplace, Acts};
use lama_inpaint::conv::Conv2dW;
use lama_inpaint::convert::{to_bytes, to_numbers};
use lama_inpaint::convt::ConvT;
use lama_inpaint::fft::{Complex, Lines};
use lama_inpaint::formula::{clamp, mean_of, rectify, scale_of, shift_of, squash};
use lama_inpaint::norm::Bn;
use lama_inpaint::ops::{conv_transpose2d_cpu, gemm_nt_cpu, im2col};
use lama_inpaint::scalar::{Scalar, Wide};
use lama_inpaint::spectral::{host_forward, host_inverse, FourierUnit, Spectral};
use lama_inpaint::spectrum::{irfft2_ortho, rfft2_ortho};

#[derive(Debug, Clone, Copy, PartialEq)]
struct F(f32);

#[derive(Debug, Clone, Copy, PartialEq)]
struct D(f64);

impl Scalar for F {
    type Wide = D;

    fn from_bits(bits: u32) -> Self {
        F(f32::from_bits(bits))
    }

    fn ratio(p: u32, q: u32) -> Self {
        F(p as f32 / q as f32)
    }

    fn zero() -> Self {
        F(0.0)
    }

    fn is_zero(self) -> bool {
        self.0 == 0.0
    }

    fn is_below(self, other: Self) -> bool {
        self.0 < other.0
    }

    fn negated(self) -> Self {
        F(-self.0)
    }

    fn plus(self, other: Self) -> Self {
        F(self.0 + other.0)
    }

    fn minus(self, other: Self) -> Self {
        F(self.0 - other.0)
    }

    fn times(self, other: Self) -> Self {
        F(self.0 * other.0)
    }

    fn over(self, other: Self) -> Self {
        F(self.0 / other.0)
    }

    fn root(self) -> Self {
        F(self.0.sqrt())
    }

    fn exponential(self) -> Self {
        F(self.0.exp())
    }

    fn plus_product(self, k: Self, x: Self) -> Self {
        F(self.0 + k.0 * x.0)
    }

    fn scaled(self, scale: Self, shift: Self) -> Self {
        F(self.0 * scale.0 + shift.0)
    }

    fn widened(self) -> D {
        D(self.0 as f64)
    }

    fn narrowed(wide: D, scale: D) -> Self {
        F((wide.0 * scale.0) as f32)
    }

    fn truncated(self) -> u8 {
        self.0 as u8
    }
}

impl Wide for D {
    fn zero() -> Self {
        D(0.0)
    }

    fn one() -> Self {
        D(1.0)
    }

    fn negated(self) -> Self {
        D(-self.0)
    }

    fn plus(self, other: Self) -> Self {
        D(self.0 + other.0)
    }

    fn minus(self, other: Self) -> Self {
        D(self.0 - other.0)
    }

    fn times(self, other: Self) -> Self {
        D(self.0 * other.0)
    }

    fn reciprocal(n: usize) -> Self {
        D(1.0 / n as f64)
    }

    fn reciprocal_root(n: usize) -> Self {
        D(1.0 / (n as f64).sqrt())
    }

    fn turn_cos(a: usize, b: usize, inverse: bool) -> Self {
        let sign = if inverse { 1.0 } else { -1.0 };
        D((sign * 2.0 * std::f64::consts::PI * a as f64 / b as f64).cos())
    }

    fn turn_sin(a: usize, b: usize, inverse: bool) -> Self {
        let sign = if inverse { 1.0 } else { -1.0 };
        D((sign * 2.0 * std::f64::consts::PI * a as f64 / b as f64).sin())
    }
}

fn planes(c: usize, h: usize, w: usize, f: impl Fn(usize) -> f32) -> Acts<F> {
    Acts { c, h, w, data: (0..c * h * w).map(|i| F(f(i))).collect() }
}

fn values(a: &[F]) -> Vec<f32> {
    a.iter().map(|v| v.0).collect()
}

/// A reproducible sequence of small numbers.
fn noise(i: usize) -> f32 {
    ((i * 7919 + 104729) % 1009) as f32 / 1009.0 - 0.5
}

fn close(a: &[F], b: &[f32], within: f32) {
    assert_eq!(a.len(), b.len());
    for (i, (x, y)) in a.iter().zip(b).enumerate() {
        assert!((x.0 - y).abs() <= within, "element {i}: {} and {y}", x.0);
    }
}

#[test]
fn planes_start_as_zeros_and_are_cut_apart() {
    let a: Acts<F> = Acts::new(2, 2, 3);
    assert_eq!(values(&a.data), vec![0.0; 12]);
    let b = planes(2, 2, 3, |i| i as f32);
    assert_eq!(values(b.plane(1)), vec![6.0, 7.0, 8.0, 9.0, 10.0, 11.0]);
    let meta = b.clone_meta();
    assert_eq!((meta.c, meta.h, meta.w, meta.data.len()), (2, 2, 3, 0));
    assert_eq!(values(&b.copy().data), values(&b.data));
}

#[test]
fn bytes_and_numbers_go_both_ways() {
    let bytes: Vec<u8> = (0..=255).collect();
    let numbers: Vec<F> = to_numbers(&bytes);
    assert_eq!(numbers[51], F(0.2));
    assert_eq!(to_bytes(&numbers), bytes);
    assert_eq!(to_bytes(&vec![F(-3.0), F(7.0), F(0.5), F(f32::NAN)]), vec![0, 255, 128, 0]);
}

#[test]
fn elementwise_operations() {
    let mut a = planes(1, 1, 4, |i| i as f32 - 2.0);
    let b = a.copy();
    add_inplace(&mut a, &b);
    assert_eq!(values(&a.data), vec![-4.0, -2.0, 0.0, 2.0]);
    relu_inplace(&mut a);
    assert_eq!(values(&a.data), vec![0.0, 0.0, 0.0, 2.0]);
    sigmoid_inplace(&mut a);
    assert_eq!(a.data[0], F(0.5));
    assert!((a.data[3].0 - 0.880797).abs() < 1e-6);
}

#[test]
fn stacking_puts_the_second_behind_the_first() {
    let a = planes(1, 1, 2, |i| i as f32);
    let b = planes(2, 1, 2, |i| 10.0 + i as f32);
    let c = lama_inpaint::acts::concat(&a, &b);
    assert_eq!((c.c, c.h, c.w), (3, 1, 2));
    assert_eq!(values(&c.data), vec![0.0, 1.0, 10.0, 11.0, 12.0, 13.0]);
}

#[test]
fn padding_mirrors_without_repeating_the_border() {
    let a = planes(1, 1, 3, |i| 1.0 + i as f32);
    let b = reflect_pad_acts(&a, 2);
    assert_eq!((b.h, b.w), (5, 7));
    for y in 0..5 {
        assert_eq!(values(&b.data[y * 7..y * 7 + 7]), vec![3.0, 2.0, 1.0, 2.0, 3.0, 2.0, 1.0]);
    }
}

#[test]
fn pooling_averages_two_by_two_and_drops_the_odd_rest() {
    let a = planes(1, 3, 5, |i| i as f32);
    let b = avg_pool2x2(&a);
    assert_eq!((b.h, b.w), (1, 2));
    assert_eq!(values(&b.data), vec![3.0, 5.0]);
}

#[test]
fn a_norm_scales_and_shifts_each_channel() {
    let bn = Bn { scale: vec![F(2.0), F(-1.0)], shift: vec![F(1.0), F(0.5)] };
    let mut a = planes(2, 1, 2, |i| i as f32);
    bn.apply(&mut a);
    assert_eq!(values(&a.data), vec![1.0, 3.0, -1.5, -2.5]);
}

/// A convolution, straight from its definition.
fn direct(cv: &Conv2dW<F>, src: &Acts<F>, pad: isize, stride: isize, mirror: bool) -> (usize, usize, Vec<f32>) {
    let (h, w) = (src.h as isize, src.w as isize);
    let oh = (h + 2 * pad - cv.kh as isize) / stride + 1;
    let ow = (w + 2 * pad - cv.kw as isize) / stride + 1;
    let fold = |i: isize, n: isize| -> Option<isize> {
        if (0..n).contains(&i) {
            Some(i)
        } else if mirror {
            let p = 2 * (n - 1).max(1);
            let m = i.rem_euclid(p);
            Some(if m < n { m } else { p - m })
        } else {
            None
        }
    };
    let mut out = Vec::new();
    for co in 0..cv.cout {
        for oy in 0..oh {
            for ox in 0..ow {
                let mut sum = cv.bias.as_ref().map_or(0.0, |b| b[co].0);
                for ci in 0..cv.cin {
                    for ky in 0..cv.kh {
                        for kx in 0..cv.kw {
                            let y = fold(oy * stride + ky as isize - pad, h);
                            let x = fold(ox * stride + kx as isize - pad, w);
                            if let (Some(y), Some(x)) = (y, x) {
                                let k = cv.w[((co * cv.cin + ci) * cv.kh + ky) * cv.kw + kx].0;
                                sum += k * src.data[(ci * src.h + y as usize) * src.w + x as usize].0;
                            }
                        }
                    }
                }
                out.push(sum);
            }
        }
    }
    (oh as usize, ow as usize, out)
}

fn filter(cout: usize, cin: usize, kh: usize, kw: usize, bias: bool) -> Conv2dW<F> {
    Conv2dW {
        w: (0..cout * cin * kh * kw).map(|i| F(noise(i + 17))).collect(),
        bias: if bias { Some((0..cout).map(|i| F(noise(i + 5))).collect()) } else { None },
        cin,
        cout,
        kh,
        kw,
    }
}

#[test]
fn a_convolution_with_an_exact_result() {
    let cv = Conv2dW {
        w: (1..=9).map(|i| F(i as f32)).collect(),
        bias: Some(vec![F(100.0)]),
        cin: 1,
        cout: 1,
        kh: 3,
        kw: 3,
    };
    let src = planes(1, 2, 2, |i| 1.0 + i as f32);
    let zero = cv.forward_pad(&src, 1, 1, false);
    assert_eq!(values(&zero.data), vec![177.0, 167.0, 147.0, 137.0]);
    let none = cv.forward_pad(&reflect_pad_acts(&src, 1), 0, 1, false);
    let mirrored = cv.forward_pad(&src, 1, 1, true);
    assert_eq!(values(&none.data), values(&mirrored.data));
    assert_eq!(mirrored.data[0], F(100.0 + 4.0 * 20.0 + 3.0 * 10.0 + 2.0 * 10.0 + 5.0));
}

#[test]
fn a_kernel_without_taps_leaves_the_bias() {
    let src = planes(1, 2, 3, noise);
    for (kh, kw, shape) in [(0, 0, (3, 4)), (0, 1, (3, 3)), (2, 0, (1, 4))] {
        let cv = Conv2dW { w: Vec::new(), bias: Some(vec![F(3.0), F(-1.0)]), cin: 1, cout: 2, kh, kw };
        let out = cv.forward_pad(&src, 0, 1, false);
        assert_eq!((out.c, out.h, out.w), (2, shape.0, shape.1));
        let n = shape.0 * shape.1;
        assert!(out.data[..n].iter().all(|v| *v == F(3.0)) && out.data[n..].iter().all(|v| *v == F(-1.0)));
    }
}

#[test]
fn planes_are_transformed_one_after_another() {
    for (channels, h, w) in [(3usize, 4usize, 6usize), (2, 5, 3), (1, 8, 8), (0, 2, 2)] {
        let size = 2 * h * (w / 2 + 1);
        let src: Vec<F> = (0..(channels + 1) * h * w).map(|i| F(noise(i))).collect();
        let spectra = host_forward(&src, channels, h, w);
        assert_eq!(spectra.len(), channels * size);
        for c in 0..channels {
            let mut one = vec![F(0.0); size];
            rfft2_ortho(&src[c * h * w..(c + 1) * h * w], h, w, &mut one);
            assert_eq!(spectra[c * size..(c + 1) * size], one[..]);
        }
        let back = host_inverse(&spectra, channels, h, w);
        close(&back, &values(&src[..channels * h * w]), 1e-5);
    }
}

#[test]
fn formulas_of_single_numbers() {
    assert_eq!(rectify(F(-2.0)), F(0.0));
    assert_eq!(rectify(F(2.0)), F(2.0));
    assert!(rectify(F(f32::NAN)).0.is_nan());
    assert_eq!(squash(F(0.0)), F(0.5));
    assert_eq!(mean_of(F(1.0), F(2.0), F(3.0), F(6.0)), F(3.0));
    let scale = scale_of(F(3.0), F(0.25));
    assert_eq!(scale, F(3.0 / (0.25f32 + 1e-5).sqrt()));
    assert_eq!(shift_of(F(1.0), F(0.5), scale), F(1.0 - 0.5 * scale.0));
    assert_eq!([F(-1.0), F(0.25), F(2.0)].map(clamp), [F(0.0), F(0.25), F(1.0)]);
}

#[test]
fn mirroring_affects_the_border_alone() {
    for (h, w, pad, stride) in [(5, 7, 1, 1), (6, 5, 1, 2), (6, 8, 2, 1)] {
        let cv = filter(3, 2, 3, 3, true);
        let src = planes(2, h, w, noise);
        let mirrored = cv.forward_pad(&src, pad, stride, true);
        let first = cv.forward_pad(&reflect_pad_acts(&src, pad), 0, stride, false);
        assert_eq!(values(&mirrored.data), values(&first.data));
        let zero = cv.forward_pad(&src, pad, stride, false);
        assert_eq!((mirrored.c, mirrored.h, mirrored.w), (zero.c, zero.h, zero.w));
        let within = |o: usize, n: usize| pad <= o * stride && o * stride + 3 <= n + pad;
        let mut apart = 0;
        for (i, (a, b)) in mirrored.data.iter().zip(&zero.data).enumerate() {
            let (y, x) = (i / zero.w % zero.h, i % zero.w);
            if within(y, h) && within(x, w) {
                assert_eq!(a, b);
            } else if a != b {
                apart += 1;
            }
        }
        assert!(apart > 0);
    }
}

#[test]
fn convolutions_agree_with_the_definition() {
    for (h, w, k, pad, stride, mirror) in
        [(7, 5, 3, 1, 1, true), (6, 6, 3, 1, 2, true), (7, 9, 7, 0, 1, false), (4, 5, 3, 1, 2, false)]
    {
        for bias in [false, true] {
            let cv = filter(3, 2, k, k, bias);
            let src = planes(2, h, w, noise);
            let out = cv.forward_pad(&src, pad, stride, mirror);
            let (oh, ow, expected) = direct(&cv, &src, pad as isize, stride as isize, mirror);
            assert_eq!((out.c, out.h, out.w), (3, oh, ow));
            close(&out.data, &expected, 1e-5);
        }
    }
}

#[test]
fn a_pointwise_convolution_mixes_channels() {
    let cv = filter(3, 4, 1, 1, true);
    let src = planes(4, 3, 5, noise);
    let out = cv.forward_1x1(&src);
    let (_, _, expected) = direct(&cv, &src, 0, 1, false);
    close(&out.data, &expected, 1e-5);
    assert_eq!(values(&out.data), values(&cv.forward_pad(&src, 0, 1, false).data));
}

#[test]
fn patches_and_a_product_make_a_convolution() {
    let cv = filter(3, 2, 3, 3, true);
    let src = planes(2, 4, 5, noise);
    let patch = im2col(&src.data, 2, 4, 5, 3, 3, 1, 1, 4, 5);
    let mut out = vec![F(0.0); 3 * 20];
    gemm_nt_cpu(3, 18, 20, &cv.w, &patch, Some(cv.bias.as_ref().unwrap().as_slice()), &mut out);
    close(&out, &values(&cv.forward_pad(&src, 1, 1, false).data), 1e-5);
}

#[test]
fn a_product_has_rows_times_columns() {
    let weights = [1.0, 2.0, 3.0, 4.0].map(F);
    let patch = [5.0, 6.0, 7.0, 8.0].map(F);
    let mut out = vec![F(9.0); 4];
    gemm_nt_cpu(2, 2, 2, &weights, &patch, None, &mut out);
    assert_eq!(values(&out), vec![19.0, 22.0, 43.0, 50.0]);
}

#[test]
fn upsampling_is_a_transposed_convolution() {
    let (cin, cout, h, w) = (3, 2, 4, 5);
    let ct = ConvT {
        w: (0..cin * cout * 9).map(|i| F(noise(i + 3))).collect(),
        bias: (0..cout).map(|i| F(noise(i))).collect(),
        cin,
        cout,
    };
    let src = planes(cin, h, w, noise);
    let out = ct.forward(&src);
    assert_eq!((out.c, out.h, out.w), (cout, 2 * h, 2 * w));
    let mut plain = vec![F(7.0); cout * 4 * h * w];
    conv_transpose2d_cpu(&src.data, cin, h, w, &ct.w, cout, 3, 3, 2, 1, 1, Some(ct.bias.as_slice()), &mut plain);
    close(&out.data, &values(&plain), 1e-5);
}

#[test]
fn a_single_pixel_spreads_by_its_kernel() {
    let mut input = vec![F(0.0); 9];
    input[4] = F(1.0);
    let weights: Vec<F> = (1..=9).map(|i| F(i as f32)).collect();
    let mut out = vec![F(5.0); 36];
    conv_transpose2d_cpu(&input, 1, 3, 3, &weights, 1, 3, 3, 2, 1, 1, None, &mut out);
    let at = |y: usize, x: usize| out[y * 6 + x].0;
    assert_eq!([at(1, 1), at(1, 2), at(1, 3)], [1.0, 2.0, 3.0]);
    assert_eq!([at(2, 1), at(2, 2), at(2, 3)], [4.0, 5.0, 6.0]);
    assert_eq!([at(3, 1), at(3, 2), at(3, 3)], [7.0, 8.0, 9.0]);
    assert_eq!(out.iter().filter(|v| v.0 != 0.0).count(), 9);
}

/// The transform of a line, straight from its definition.
fn dft(d: &[(f64, f64)], inverse: bool) -> Vec<(f64, f64)> {
    let n = d.len();
    let sign = if inverse { 1.0 } else { -1.0 };
    (0..n)
        .map(|k| {
            let mut sum = (0.0, 0.0);
            for (j, (re, im)) in d.iter().enumerate() {
                let a = sign * 2.0 * std::f64::consts::PI * ((k * j) % n) as f64 / n as f64;
                sum.0 += re * a.cos() - im * a.sin();
                sum.1 += re * a.sin() + im * a.cos();
            }
            sum
        })
        .collect()
}

#[test]
fn lines_of_every_length_are_transformed() {
    for n in [1usize, 2, 3, 4, 5, 6, 7, 8, 12, 16, 17, 30, 64, 75] {
        for inverse in [false, true] {
            let samples: Vec<(f64, f64)> =
                (0..n).map(|i| (noise(i) as f64, noise(i + 500) as f64)).collect();
            let mut d: Vec<Complex<D>> =
                samples.iter().map(|(re, im)| Complex { re: D(*re), im: D(*im) }).collect();
            Lines::new(n, inverse).fft(&mut d);
            for (k, (re, im)) in dft(&samples, inverse).iter().enumerate() {
                let (gre, gim) = (d[k].re.0, d[k].im.0);
                assert!((gre - re).abs() < 1e-9 && (gim - im).abs() < 1e-9, "{n} {inverse} {k}: {gre} {re}");
            }
        }
    }
}

#[test]
fn a_plane_keeps_half_of_its_spectrum() {
    for (h, w) in [(1usize, 1usize), (4, 4), (2, 3), (3, 5), (5, 6), (8, 7)] {
        let src: Vec<F> = (0..h * w).map(|i| F(noise(i))).collect();
        let hw = w / 2 + 1;
        let mut spec = vec![F(0.0); 2 * h * hw + 1];
        spec[2 * h * hw] = F(9.0);
        rfft2_ortho(&src, h, w, &mut spec);
        assert_eq!(spec[2 * h * hw], F(9.0));
        let norm = 1.0 / ((h * w) as f64).sqrt();
        for u in 0..h {
            for v in 0..hw {
                let (mut re, mut im) = (0.0f64, 0.0f64);
                for y in 0..h {
                    for x in 0..w {
                        let a = -2.0 * std::f64::consts::PI
                            * (u as f64 * y as f64 / h as f64 + v as f64 * x as f64 / w as f64);
                        re += src[y * w + x].0 as f64 * a.cos();
                        im += src[y * w + x].0 as f64 * a.sin();
                    }
                }
                assert!((spec[u * hw + v].0 as f64 - re * norm).abs() < 1e-5, "{h}x{w} at {u},{v}");
                assert!((spec[h * hw + u * hw + v].0 as f64 - im * norm).abs() < 1e-5, "{h}x{w} at {u},{v}");
            }
        }
        let mut back = vec![F(7.0); h * w + 2];
        irfft2_ortho(&spec, h, w, &mut back);
        close(&back[..h * w], &values(&src), 1e-5);
        assert_eq!(back[h * w..], [F(7.0), F(7.0)]);
        spec[2 * h * hw] = F(-5.0);
        let mut again = back.clone();
        irfft2_ortho(&spec, h, w, &mut again);
        assert_eq!(again, back);
    }
}

#[test]
fn a_fourier_unit_that_changes_nothing_gives_back_what_is_positive() {
    // The identity on the stacked planes followed by ReLU drops the negative parts of the
    // spectrum; a constant plane has only one positive part and so comes back whole.
    let half = 1;
    let fu = FourierUnit {
        conv: Conv2dW { w: vec![F(1.0), F(0.0), F(0.0), F(1.0)], bias: None, cin: 2, cout: 2, kh: 1, kw: 1 },
        bn: Bn { scale: vec![F(1.0); 2], shift: vec![F(0.0); 2] },
        half,
    };
    let x = planes(1, 6, 4, |_| 0.75);
    close(&fu.forward(&x).data, &values(&x.data), 1e-6);
    let sp = Spectral {
        stride: 2,
        conv1: Conv2dW { w: vec![F(1.0)], bias: None, cin: 1, cout: 1, kh: 1, kw: 1 },
        conv2: Conv2dW { w: vec![F(3.0)], bias: None, cin: 1, cout: 1, kh: 1, kw: 1 },
        bn1: Bn { scale: vec![F(1.0)], shift: vec![F(0.0)] },
        fu,
        half,
        block: 5,
        sub: 1,
    };
    let out = sp.forward(&x);
    assert_eq!((out.c, out.h, out.w), (1, 3, 2));
    close(&out.data, &[4.5; 6], 1e-5);
}
