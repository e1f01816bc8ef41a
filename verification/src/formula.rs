//! The formulas of single numbers, operation by operation.

use vstd::prelude::*;

use crate::scalar::Scalar;

verus! {

/// `r` is the number that a byte of an image stands for: `byte / 255`.
pub open spec fn byte_value<S: Scalar>(byte: u8, r: S) -> bool {
    call_ensures(S::ratio, (byte as u32, 255u32), r)
}

/// `r` is `x`, or zero where `x` is below it.
pub open spec fn without_negative<S: Scalar>(x: S, r: S) -> bool {
    exists|zero: S, below: bool|
        {
            &&& #[trigger] call_ensures(S::zero, (), zero)
            &&& #[trigger] call_ensures(S::is_below, (x, zero), below)
            &&& r == if below {
                zero
            } else {
                x
            }
        }
}

/// `r` is `1 / (1 + exp(-x))`.
pub open spec fn logistic<S: Scalar>(x: S, r: S) -> bool {
    exists|minus: S, power: S, one: S, sum: S|
        {
            &&& #[trigger] call_ensures(S::negated, (x,), minus)
            &&& #[trigger] call_ensures(S::exponential, (minus,), power)
            &&& #[trigger] call_ensures(S::ratio, (1u32, 1u32), one)
            &&& #[trigger] call_ensures(S::plus, (one, power), sum)
            &&& call_ensures(S::over, (one, sum), r)
        }
}

/// `r` is `(a + b + c + d) * 0.25`, added from the left.
pub open spec fn mean<S: Scalar>(a: S, b: S, c: S, d: S, r: S) -> bool {
    exists|two: S, three: S, four: S, quarter: S|
        {
            &&& #[trigger] call_ensures(S::plus, (a, b), two)
            &&& #[trigger] call_ensures(S::plus, (two, c), three)
            &&& #[trigger] call_ensures(S::plus, (three, d), four)
            &&& #[trigger] call_ensures(S::ratio, (1u32, 4u32), quarter)
            &&& call_ensures(S::times, (four, quarter), r)
        }
}

/// `r` is the scale of a BatchNorm: `weight / sqrt(variance + 0.00001)`.
pub open spec fn norm_scale<S: Scalar>(weight: S, variance: S, r: S) -> bool {
    exists|epsilon: S, sum: S, root: S|
        {
            &&& #[trigger] call_ensures(S::ratio, (1u32, 100_000u32), epsilon)
            &&& #[trigger] call_ensures(S::plus, (variance, epsilon), sum)
            &&& #[trigger] call_ensures(S::root, (sum,), root)
            &&& call_ensures(S::over, (weight, root), r)
        }
}

/// `r` is the shift of a BatchNorm: `bias - mean * scale`.
pub open spec fn norm_shift<S: Scalar>(bias: S, mean: S, scale: S, r: S) -> bool {
    exists|product: S| #[trigger]
        call_ensures(S::times, (mean, scale), product) && call_ensures(S::minus, (bias, product), r)
}

/// `r` is `x`, or the nearer end where `x` lies outside the range from 0 to 1.
pub open spec fn clamped<S: Scalar>(x: S, r: S) -> bool {
    exists|zero: S, one: S, below: bool, above: bool|
        {
            &&& #[trigger] call_ensures(S::zero, (), zero)
            &&& #[trigger] call_ensures(S::ratio, (1u32, 1u32), one)
            &&& #[trigger] call_ensures(S::is_below, (x, zero), below)
            &&& #[trigger] call_ensures(S::is_below, (one, x), above)
            &&& r == if below {
                zero
            } else if above {
                one
            } else {
                x
            }
        }
}

/// `r` is the byte that a number stands for: `clamp(x, 0, 1) * 255`, rounded.
pub open spec fn byte_of<S: Scalar>(x: S, r: u8) -> bool {
    exists|inside: S, most: S, scaled: S, half: S, sum: S|
        {
            &&& #[trigger] clamped(x, inside)
            &&& #[trigger] call_ensures(S::ratio, (255u32, 1u32), most)
            &&& #[trigger] call_ensures(S::times, (inside, most), scaled)
            &&& #[trigger] call_ensures(S::ratio, (1u32, 2u32), half)
            &&& #[trigger] call_ensures(S::plus, (scaled, half), sum)
            &&& call_ensures(S::truncated, (sum,), r)
        }
}

/// The number that a byte of an image stands for.
pub fn from_byte<S: Scalar>(byte: u8) -> (r: S)
    ensures
        byte_value(byte, r),
{
    S::ratio(byte as u32, 255)
}

/// Zero in place of what is below it.
pub fn rectify<S: Scalar>(x: S) -> (r: S)
    ensures
        without_negative(x, r),
{
    let zero: S = S::zero();
    let below: bool = x.is_below(zero);
    assert(call_ensures(S::zero, (), zero) && call_ensures(S::is_below, (x, zero), below));
    if below {
        zero
    } else {
        x
    }
}

/// The logistic function.
pub fn squash<S: Scalar>(x: S) -> (r: S)
    ensures
        logistic(x, r),
{
    let minus: S = x.negated();
    let power: S = minus.exponential();
    let one: S = S::ratio(1, 1);
    let sum: S = one.plus(power);
    let r: S = one.over(sum);
    assert(call_ensures(S::negated, (x,), minus) && call_ensures(S::exponential, (minus,), power));
    assert(call_ensures(S::ratio, (1u32, 1u32), one) && call_ensures(S::plus, (one, power), sum));
    r
}

/// The mean of four numbers.
pub fn mean_of<S: Scalar>(a: S, b: S, c: S, d: S) -> (r: S)
    ensures
        mean(a, b, c, d, r),
{
    let two: S = a.plus(b);
    let three: S = two.plus(c);
    let four: S = three.plus(d);
    let quarter: S = S::ratio(1, 4);
    let r: S = four.times(quarter);
    assert(call_ensures(S::plus, (a, b), two) && call_ensures(S::plus, (two, c), three));
    assert(call_ensures(S::plus, (three, d), four) && call_ensures(S::ratio, (1u32, 4u32), quarter));
    r
}

/// The scale of a BatchNorm.
pub fn scale_of<S: Scalar>(weight: S, variance: S) -> (r: S)
    ensures
        norm_scale(weight, variance, r),
{
    let epsilon: S = S::ratio(1, 100_000);
    let sum: S = variance.plus(epsilon);
    let root: S = sum.root();
    let r: S = weight.over(root);
    assert(call_ensures(S::ratio, (1u32, 100_000u32), epsilon));
    assert(call_ensures(S::plus, (variance, epsilon), sum) && call_ensures(S::root, (sum,), root));
    r
}

/// The shift of a BatchNorm.
pub fn shift_of<S: Scalar>(bias: S, mean: S, scale: S) -> (r: S)
    ensures
        norm_shift(bias, mean, scale, r),
{
    let product: S = mean.times(scale);
    let r: S = bias.minus(product);
    assert(call_ensures(S::times, (mean, scale), product));
    r
}

/// The number itself, or the nearer end of the range from 0 to 1.
pub fn clamp<S: Scalar>(x: S) -> (r: S)
    ensures
        clamped(x, r),
{
    let zero: S = S::zero();
    let one: S = S::ratio(1, 1);
    let below: bool = x.is_below(zero);
    let above: bool = one.is_below(x);
    assert(call_ensures(S::zero, (), zero) && call_ensures(S::ratio, (1u32, 1u32), one));
    assert(call_ensures(S::is_below, (x, zero), below) && call_ensures(S::is_below, (one, x), above));
    if below {
        zero
    } else if above {
        one
    } else {
        x
    }
}

/// The byte of an image that a number stands for.
pub fn to_byte<S: Scalar>(x: S) -> (r: u8)
    ensures
        byte_of(x, r),
{
    let inside: S = clamp(x);
    let most: S = S::ratio(255, 1);
    let scaled: S = inside.times(most);
    let half: S = S::ratio(1, 2);
    let sum: S = scaled.plus(half);
    let r: u8 = sum.truncated();
    assert(clamped(x, inside) && call_ensures(S::ratio, (255u32, 1u32), most));
    assert(call_ensures(S::times, (inside, most), scaled) && call_ensures(S::ratio, (1u32, 2u32), half));
    assert(call_ensures(S::plus, (scaled, half), sum));
    r
}

} // verus!
