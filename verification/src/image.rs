//! Eight-bit images and the reflection rule at their borders.

use vstd::prelude::*;

use crate::grid::at;

verus! {

/// A single-channel image, row by row.
#[derive(Debug, Clone)]
pub struct Gray8 {
    pub width: usize,
    pub height: usize,
    pub data: Vec<u8>,
}

/// A three-channel image, row by row with the channels of a pixel side by side.
#[derive(Debug, Clone)]
pub struct Rgb8 {
    pub width: usize,
    pub height: usize,
    pub data: Vec<u8>,
}

impl Gray8 {
    /// The buffer holds exactly one byte for every pixel.
    pub open spec fn wf(&self) -> bool {
        self.data.len() == self.width * self.height
    }

    /// Whether a position lies inside the image.
    pub open spec fn inside(&self, x: int, y: int) -> bool {
        0 <= x < self.width && 0 <= y < self.height
    }

    /// Read as a mask: whether the image marks a hole here.  Nothing outside it does.
    pub open spec fn hole(&self, x: int, y: int) -> bool {
        self.inside(x, y) && at(self.data@, self.width as int, x, y) > 0
    }
}

impl Rgb8 {
    /// The buffer holds exactly three bytes for every pixel.
    pub open spec fn wf(&self) -> bool {
        self.data.len() == self.width * self.height * 3
    }

    /// Whether a position lies inside the image.
    pub open spec fn inside(&self, x: int, y: int) -> bool {
        0 <= x < self.width && 0 <= y < self.height
    }

    /// One channel of one pixel.
    pub open spec fn sample(&self, x: int, y: int, c: int) -> u8 {
        self.data@[(y * self.width + x) * 3 + c]
    }

    /// A black image.
    pub fn new(width: usize, height: usize) -> (img: Rgb8)
        requires
            width * height * 3 <= usize::MAX,
        ensures
            img.wf(),
            img.width == width,
            img.height == height,
            forall|k: int| 0 <= k < img.data@.len() ==> img.data@[k] == 0,
    {
        assert(0 <= width * height <= width * height * 3) by (nonlinear_arith)
            requires
                0 <= width,
                0 <= height,
        ;
        Rgb8 { width, height, data: vec![0u8; width * height * 3] }
    }
}

/// Where a line of `n` samples continues at `i` when it is mirrored at both ends
/// without repeating the end samples.
pub open spec fn reflect(i: int, n: int) -> int {
    if n <= 1 {
        0
    } else {
        let period = 2 * (n - 1);
        let r = i % period;
        if r < n {
            r
        } else {
            period - r
        }
    }
}

/// A reflected index is always a sample of the line, and a sample reflects to itself.
pub proof fn lemma_reflect(i: int, n: int)
    requires
        1 <= n,
    ensures
        0 <= reflect(i, n) < n,
        0 <= i < n ==> reflect(i, n) == i,
{
    if n > 1 {
        let period = 2 * (n - 1);
        assert(0 <= i % period < period) by (nonlinear_arith)
            requires
                0 < period,
        ;
        if 0 <= i < n {
            vstd::arithmetic::div_mod::lemma_small_mod(i as nat, period as nat);
        }
    }
}

/// Mirroring reaches the same sample on either side of the first one.
pub proof fn lemma_reflect_even(i: int, n: int)
    requires
        1 <= n,
    ensures
        reflect(-i, n) == reflect(i, n),
{
    if n > 1 {
        let p = 2 * (n - 1);
        let q = i / p;
        let r = i % p;
        vstd::arithmetic::div_mod::lemma_fundamental_div_mod(i, p);
        assert(0 <= r < p) by (nonlinear_arith)
            requires
                0 < p,
                r == i % p,
        ;
        if r == 0 {
            assert(-i == (-q) * p + 0) by (nonlinear_arith)
                requires
                    i == p * q + r,
                    r == 0,
            ;
            vstd::arithmetic::div_mod::lemma_fundamental_div_mod_converse(-i, p, -q, 0);
        } else {
            assert(-i == (-q - 1) * p + (p - r)) by (nonlinear_arith)
                requires
                    i == p * q + r,
            ;
            vstd::arithmetic::div_mod::lemma_fundamental_div_mod_converse(-i, p, -q - 1, p - r);
        }
    }
}

/// The sample that stands at `i` when a line of `n` samples is reflect-padded.
pub fn reflect_index(i: isize, n: usize) -> (r: usize)
    requires
        1 <= n,
    ensures
        r == reflect(i as int, n as int),
        r < n,
{
    proof {
        lemma_reflect(i as int, n as int);
        lemma_reflect_even(i as int, n as int);
    }
    if n == 1 {
        return 0;
    }
    let distance: u128 = if i < 0 {
        (-(i as i128)) as u128
    } else {
        i as u128
    };
    let period: u128 = 2 * (n as u128 - 1);
    let r: u128 = distance % period;
    if r < n as u128 {
        r as usize
    } else {
        (period - r) as usize
    }
}

/// A mask marks every pixel whose byte is not zero, however small the byte is.
pub proof fn law_every_byte_but_zero_marks(m: Gray8, x: int, y: int)
    requires
        0 <= x < m.width,
        0 <= y < m.height,
    ensures
        m.hole(x, y) <==> m.data@[y * m.width + x] != 0,
{
}

/// A line of at least two samples continues beyond either end as it goes back from there, the
/// end itself not repeated, and a sample stands for itself.
pub proof fn law_a_line_is_mirrored_at_both_ends(i: int, n: int)
    requires
        2 <= n,
    ensures
        reflect(-i, n) == reflect(i, n),
        reflect(n - 1 + i, n) == reflect(n - 1 - i, n),
        0 <= i < n ==> reflect(i, n) == i,
{
    lemma_reflect_even(i, n);
    lemma_reflect(i, n);
    let period = 2 * (n - 1);
    let x = n - 1 + i;
    lemma_reflect_even(n - 1 - i, n);
    assert(x == (i - (n - 1)) + period * 1);
    vstd::arithmetic::div_mod::lemma_mod_multiples_vanish(1, i - (n - 1), period);
}

} // verus!
