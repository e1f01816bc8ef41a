//! The arithmetic of the network.
//!
//! The engine is written over a number type that its user supplies.  Nothing is presumed
//! of the operations: a contract that speaks of a computed value says which operations
//! were applied to which operands, in which order, and so holds of any rounding.

use vstd::prelude::*;

verus! {

/// The numbers the planes and the weights are made of.
pub trait Scalar: Copy + Send + Sync {
    /// The wider numbers the Fourier transforms compute with.
    type Wide: Wide;

    /// The number that an element of the checkpoint encodes.
    fn from_bits(bits: u32) -> Self;

    /// `p / q`
    fn ratio(p: u32, q: u32) -> Self;

    fn zero() -> Self;

    /// Whether a number is zero.
    fn is_zero(self) -> bool;

    /// `self < other`
    fn is_below(self, other: Self) -> bool;

    /// `-self`
    fn negated(self) -> Self;

    /// `self + other`
    fn plus(self, other: Self) -> Self;

    /// `self - other`
    fn minus(self, other: Self) -> Self;

    /// `self * other`
    fn times(self, other: Self) -> Self;

    /// `self / other`
    fn over(self, other: Self) -> Self;

    /// `sqrt(self)`
    fn root(self) -> Self;

    /// `exp(self)`
    fn exponential(self) -> Self;

    /// `self + k * x`
    fn plus_product(self, k: Self, x: Self) -> Self;

    /// `self * scale + shift`
    fn scaled(self, scale: Self, shift: Self) -> Self;

    fn widened(self) -> Self::Wide;

    /// The nearest narrow number to `wide * scale`.
    fn narrowed(wide: Self::Wide, scale: Self::Wide) -> Self;

    /// The whole part as a byte, 0 or 255 where there is none.
    fn truncated(self) -> u8;
}

/// The numbers of the Fourier transforms.
pub trait Wide: Copy + Send + Sync {
    fn zero() -> Self;

    fn one() -> Self;

    /// `-self`
    fn negated(self) -> Self;

    /// `self + other`
    fn plus(self, other: Self) -> Self;

    /// `self - other`
    fn minus(self, other: Self) -> Self;

    /// `self * other`
    fn times(self, other: Self) -> Self;

    /// `1 / n`
    fn reciprocal(n: usize) -> Self;

    /// `1 / sqrt(n)`
    fn reciprocal_root(n: usize) -> Self;

    /// The cosine of `2 * pi * a / b`, with the opposite angle unless `inverse`.
    fn turn_cos(a: usize, b: usize, inverse: bool) -> Self;

    /// The sine of `2 * pi * a / b`, with the opposite angle unless `inverse`.
    fn turn_sin(a: usize, b: usize, inverse: bool) -> Self;
}

} // verus!
