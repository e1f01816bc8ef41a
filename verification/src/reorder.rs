//! Weights in the order in which the device kernels read them.

use vstd::prelude::*;

use crate::gpu::{tap_count, taps_of};
use crate::grid::{lemma_place, lemma_place3, lemma_place3_of, lemma_position};
use crate::acts::lemma_some_place;

verus! {

/// The weight `[i][j][y][x]` of four extents, of which the last three are `n`, `h` and
/// `w`.
pub open spec fn at4<T>(s: Seq<T>, n: int, h: int, w: int, i: int, j: int, y: int, x: int) -> T {
    s[((i * n + j) * h + y) * w + x]
}

/// `out` is the `[cout][cin][kh][kw]` weight `w` as `[cin][cout][kh][kw]`.
pub open spec fn swapped(
    w: Seq<u32>,
    cout: int,
    cin: int,
    kh: int,
    kw: int,
    out: Seq<u32>,
) -> bool {
    &&& out.len() == cin * cout * kh * kw
    &&& forall|co: int, ci: int, ky: int, kx: int|
        0 <= co < cout && 0 <= ci < cin && 0 <= ky < kh && 0 <= kx < kw ==> #[trigger] at4(
            out,
            cout,
            kh,
            kw,
            ci,
            co,
            ky,
            kx,
        ) == at4(w, cin, kh, kw, co, ci, ky, kx)
}

/// The place of a weight among four extents, and the way back.
proof fn lemma_place4(m: int, n: int, h: int, w: int, i: int, j: int, y: int, x: int)
    requires
        0 <= i < m,
        0 <= j < n,
        0 <= y < h,
        0 <= x < w,
    ensures
        0 <= i * n <= i * n + j,
        0 <= (i * n + j) * h <= (i * n + j) * h + y,
        0 <= ((i * n + j) * h + y) * w <= ((i * n + j) * h + y) * w + x < m * n * h * w,
        i * n + j <= (i * n + j) * h,
        (i * n + j) * h + y <= ((i * n + j) * h + y) * w,
        (((i * n + j) * h + y) * w + x) % w == x,
        (((i * n + j) * h + y) * w + x) / w % h == y,
        (((i * n + j) * h + y) * w + x) / w / h % n == j,
        (((i * n + j) * h + y) * w + x) / w / h / n == i,
{
    lemma_place(n, m, j, i);
    assert(n * m == m * n) by (nonlinear_arith);
    let p = i * n + j;
    lemma_place3(m * n, h, w, p, y, x);
    lemma_position(n, j, i);
    assert(p <= p * h) by (nonlinear_arith)
        requires
            0 <= p,
            1 <= h,
    ;
    assert(0 <= p * h) by (nonlinear_arith)
        requires
            0 <= p,
            1 <= h,
    ;
    assert(p * h + y <= (p * h + y) * w) by (nonlinear_arith)
        requires
            0 <= p * h + y,
            1 <= w,
    ;
}

/// Reorder a convolution weight for a kernel that walks one input channel at a time.
pub fn input_major(w: &Vec<u32>, cout: usize, cin: usize, kh: usize, kw: usize) -> (out: Vec<u32>)
    requires
        cout * cin * kh * kw <= w.len(),
    ensures
        swapped(w@, cout as int, cin as int, kh as int, kw as int, out@),
{
    let mut out: Vec<u32> = Vec::new();
    let ghost total = cin * cout * kh * kw;
    proof {
        assert(cin * cout == cout * cin) by (nonlinear_arith);
    }
    let mut ci: usize = 0;
    assert(0 * cout * kh * kw == 0) by (nonlinear_arith);
    while ci < cin
        invariant
            cout * cin * kh * kw <= w.len(),
            ci <= cin,
            out@.len() == ci * cout * kh * kw,
            forall|k: int|
                0 <= k < out@.len() ==> #[trigger] out@[k] == at4(
                    w@,
                    cin as int,
                    kh as int,
                    kw as int,
                    k / kw as int / kh as int % cout as int,
                    k / kw as int / kh as int / cout as int,
                    k / kw as int % kh as int,
                    k % kw as int,
                ),
        decreases cin - ci,
    {
        let mut co: usize = 0;
        while co < cout
            invariant
                cout * cin * kh * kw <= w.len(),
                ci < cin,
                co <= cout,
                out@.len() == (ci * cout + co) * kh * kw,
                forall|k: int|
                    0 <= k < out@.len() ==> #[trigger] out@[k] == at4(
                        w@,
                        cin as int,
                        kh as int,
                        kw as int,
                        k / kw as int / kh as int % cout as int,
                        k / kw as int / kh as int / cout as int,
                        k / kw as int % kh as int,
                        k % kw as int,
                    ),
            decreases cout - co,
        {
            let mut ky: usize = 0;
            while ky < kh
                invariant
                    cout * cin * kh * kw <= w.len(),
                    ci < cin,
                    co < cout,
                    ky <= kh,
                    out@.len() == ((ci * cout + co) * kh + ky) * kw,
                    forall|k: int|
                        0 <= k < out@.len() ==> #[trigger] out@[k] == at4(
                            w@,
                            cin as int,
                            kh as int,
                            kw as int,
                            k / kw as int / kh as int % cout as int,
                            k / kw as int / kh as int / cout as int,
                            k / kw as int % kh as int,
                            k % kw as int,
                        ),
                decreases kh - ky,
            {
                let mut kx: usize = 0;
                while kx < kw
                    invariant
                        cout * cin * kh * kw <= w.len(),
                        ci < cin,
                        co < cout,
                        ky < kh,
                        kx <= kw,
                        out@.len() == ((ci * cout + co) * kh + ky) * kw + kx,
                        forall|k: int|
                            0 <= k < out@.len() ==> #[trigger] out@[k] == at4(
                                w@,
                                cin as int,
                                kh as int,
                                kw as int,
                                k / kw as int / kh as int % cout as int,
                                k / kw as int / kh as int / cout as int,
                                k / kw as int % kh as int,
                                k % kw as int,
                            ),
                    decreases kw - kx,
                {
                    proof {
                        lemma_place4(
                            cin as int,
                            cout as int,
                            kh as int,
                            kw as int,
                            ci as int,
                            co as int,
                            ky as int,
                            kx as int,
                        );
                        lemma_place4(
                            cout as int,
                            cin as int,
                            kh as int,
                            kw as int,
                            co as int,
                            ci as int,
                            ky as int,
                            kx as int,
                        );
                    }
                    out.push(w[((co * cin + ci) * kh + ky) * kw + kx]);
                    kx += 1;
                }
                proof {
                    assert(((ci * cout + co) * kh + ky) * kw + kw == ((ci * cout + co) * kh + (ky
                        + 1)) * kw) by (nonlinear_arith);
                }
                ky += 1;
            }
            proof {
                assert((ci * cout + co) * kh + kh == (ci * cout + (co + 1)) * kh)
                    by (nonlinear_arith);
            }
            co += 1;
        }
        proof {
            assert(ci * cout + cout == (ci + 1) * cout) by (nonlinear_arith);
        }
        ci += 1;
    }
    assert forall|co: int, ci: int, ky: int, kx: int|
        0 <= co < cout && 0 <= ci < cin && 0 <= ky < kh && 0 <= kx < kw implies #[trigger] at4(
        out@,
        cout as int,
        kh as int,
        kw as int,
        ci,
        co,
        ky,
        kx,
    ) == at4(w@, cin as int, kh as int, kw as int, co, ci, ky, kx) by {
        lemma_place4(cin as int, cout as int, kh as int, kw as int, ci, co, ky, kx);
        let k = ((ci * cout + co) * kh + ky) * kw + kx;
        assert(out@[k] == at4(
            w@,
            cin as int,
            kh as int,
            kw as int,
            k / kw as int / kh as int % cout as int,
            k / kw as int / kh as int / cout as int,
            k / kw as int % kh as int,
            k % kw as int,
        ));
    }
    out
}

/// The kernel row and column of tap `i` of a parity.
pub open spec fn tap_at(phase: int, i: int) -> (int, int) {
    if phase == 0 {
        (1, 1)
    } else if phase == 1 {
        (1, 2 * i)
    } else if phase == 2 {
        (2 * i, 1)
    } else {
        (2 * (i / 2), 2 * (i % 2))
    }
}

fn tap(phase: usize, i: usize) -> (r: (usize, usize))
    requires
        phase < 4,
        i < taps_of(phase as int),
    ensures
        (r.0 as int, r.1 as int) == tap_at(phase as int, i as int),
        r.0 < 3,
        r.1 < 3,
{
    if phase == 0 {
        (1, 1)
    } else if phase == 1 {
        (1, 2 * i)
    } else if phase == 2 {
        (2 * i, 1)
    } else {
        (2 * (i / 2), 2 * (i % 2))
    }
}

/// `out` is the part of an upsampling weight `[cin][cout][3][3]` that reaches the output
/// positions of one parity, as a matrix `[cout][cin * taps]`.
pub open spec fn phase_of(w: Seq<u32>, cin: int, cout: int, phase: int, out: Seq<u32>) -> bool {
    let taps = taps_of(phase);
    &&& out.len() == cout * cin * taps
    &&& forall|co: int, ci: int, i: int|
        0 <= co < cout && 0 <= ci < cin && 0 <= i < taps ==> #[trigger] out[(co * cin + ci) * taps
            + i] == at4(w, cout, 3, 3, ci, co, tap_at(phase, i).0, tap_at(phase, i).1)
}

/// The weight matrix of one parity.
pub fn phase_matrix(w: &Vec<u32>, cin: usize, cout: usize, phase: usize) -> (out: Vec<u32>)
    requires
        phase < 4,
        cin * cout * 3 * 3 <= w.len(),
    ensures
        phase_of(w@, cin as int, cout as int, phase as int, out@),
{
    let taps: usize = tap_count(phase);
    proof {
        assert(cout * cin * taps <= cin * cout * 3 * 3) by (nonlinear_arith)
            requires
                1 <= taps <= 4,
                0 <= cin,
                0 <= cout,
        ;
        assert(0 <= cout * cin <= cout * cin * taps) by (nonlinear_arith)
            requires
                1 <= taps <= 4,
                0 <= cin,
                0 <= cout,
        ;
    }
    let total: usize = cout * cin * taps;
    let mut out: Vec<u32> = Vec::new();
    let mut k: usize = 0;
    while k < total
        invariant
            phase < 4,
            taps == taps_of(phase as int),
            cin * cout * 3 * 3 <= w.len(),
            total == cout * cin * taps,
            k <= total,
            out@.len() == k,
            forall|j: int|
                0 <= j < k ==> #[trigger] out@[j] == at4(
                    w@,
                    cout as int,
                    3,
                    3,
                    j / taps as int % cin as int,
                    j / taps as int / cin as int,
                    tap_at(phase as int, j % taps as int).0,
                    tap_at(phase as int, j % taps as int).1,
                ),
        decreases total - k,
    {
        proof {
            lemma_some_place(cout as int, cin as int, taps as int, k as int);
            lemma_place3_of(cout as int, cin as int, taps as int, k as int);
        }
        let co: usize = k / taps / cin;
        let ci: usize = k / taps % cin;
        let (ky, kx): (usize, usize) = tap(phase, k % taps);
        proof {
            lemma_place4(
                cin as int,
                cout as int,
                3,
                3,
                ci as int,
                co as int,
                ky as int,
                kx as int,
            );
        }
        out.push(w[((ci * cout + co) * 3 + ky) * 3 + kx]);
        k += 1;
    }
    assert forall|co: int, ci: int, i: int|
        0 <= co < cout && 0 <= ci < cin && 0 <= i < taps implies #[trigger] out@[(co * cin + ci)
        * taps + i] == at4(
        w@,
        cout as int,
        3,
        3,
        ci,
        co,
        tap_at(phase as int, i).0,
        tap_at(phase as int, i).1,
    ) by {
        lemma_place3(cout as int, cin as int, taps as int, co, ci, i);
    }
    out
}

/// The taps of a parity are exactly those of the kernel that reach the output positions
/// of that parity, each of them once.
pub proof fn law_phase_taps(phase: int, y: int, x: int, h: int, w: int, ky: int, kx: int)
    requires
        0 <= y < 2 * h,
        0 <= x < 2 * w,
        phase == 2 * (y % 2) + x % 2,
        0 <= ky < 3,
        0 <= kx < 3,
    ensures
        ((y + 1 - ky) % 2 == 0 && (x + 1 - kx) % 2 == 0) <==> exists|i: int|
            0 <= i < taps_of(phase) && #[trigger] tap_at(phase, i) == (ky, kx),
        forall|i: int, j: int|
            0 <= i < taps_of(phase) && 0 <= j < taps_of(phase) && #[trigger] tap_at(phase, i)
                == #[trigger] tap_at(phase, j) ==> i == j,
{
    if (y + 1 - ky) % 2 == 0 && (x + 1 - kx) % 2 == 0 {
        let i = if phase == 0 {
            0
        } else if phase == 1 {
            kx / 2
        } else if phase == 2 {
            ky / 2
        } else {
            2 * (ky / 2) + kx / 2
        };
        assert(0 <= i < taps_of(phase) && tap_at(phase, i) == (ky, kx));
    }
}

} // verus!
