//! Between the bytes of images and the numbers of the network.

use vstd::prelude::*;

use crate::formula::{byte_of, byte_value, from_byte, to_byte};
use crate::scalar::Scalar;

verus! {

/// `out` holds the numbers that the bytes stand for.
pub open spec fn numbers_of<S: Scalar>(bytes: Seq<u8>, out: Seq<S>) -> bool {
    &&& out.len() == bytes.len()
    &&& forall|i: int|
        0 <= i < bytes.len() ==> byte_value(bytes[i], #[trigger] out[i])
}

/// `out` holds the bytes that the numbers stand for.
pub open spec fn bytes_of<S: Scalar>(numbers: Seq<S>, out: Seq<u8>) -> bool {
    &&& out.len() == numbers.len()
    &&& forall|i: int|
        0 <= i < numbers.len() ==> byte_of(numbers[i], #[trigger] out[i])
}

/// The numbers that bytes stand for.
pub fn to_numbers<S: Scalar>(bytes: &Vec<u8>) -> (out: Vec<S>)
    ensures
        numbers_of(bytes@, out@),
{
    let mut out: Vec<S> = Vec::with_capacity(bytes.len());
    let mut i: usize = 0;
    while i < bytes.len()
        invariant
            i <= bytes@.len(),
            numbers_of(bytes@.take(i as int), out@),
        decreases bytes@.len() - i,
    {
        out.push(from_byte::<S>(bytes[i]));
        i += 1;
    }
    assert(bytes@.take(i as int) =~= bytes@);
    out
}

/// The bytes that numbers stand for.
pub fn to_bytes<S: Scalar>(numbers: &Vec<S>) -> (out: Vec<u8>)
    ensures
        bytes_of(numbers@, out@),
{
    let mut out: Vec<u8> = Vec::with_capacity(numbers.len());
    let mut i: usize = 0;
    while i < numbers.len()
        invariant
            i <= numbers@.len(),
            bytes_of(numbers@.take(i as int), out@),
        decreases numbers@.len() - i,
    {
        out.push(to_byte(numbers[i]));
        i += 1;
    }
    assert(numbers@.take(i as int) =~= numbers@);
    out
}

} // verus!
