//! Matrix elements that widen to an `i32` accumulator.

use vstd::prelude::*;
use crate::gemm::bytes::byte_value;

verus! {

/// A matrix element that is widened inside the inner product.
pub trait AsAcc: Copy {
    /// The integer that the element stands for.
    spec fn acc(self) -> int;

    fn as_acc(self) -> (r: i32)
        ensures
            r == self.acc(),
    ;

    /// For an 8-bit element, whether it is signed.
    spec fn byte_form() -> Option<bool>;

    /// For an 8-bit element, whether it is signed.
    fn signedness() -> (r: Option<bool>)
        ensures
            r == Self::byte_form(),
    ;

    /// The raw bytes of 8-bit elements.
    fn as_bytes(s: &[Self]) -> (r: Option<&[u8]>)
        ensures
            r is Some == Self::byte_form() is Some,
            r matches Some(b) ==> b@.len() == s@.len() && forall|i: int|
                0 <= i < s@.len() ==> byte_value(b@[i], Self::byte_form()->0) == (
                #[trigger] s@[i]).acc(),
    ;
}

/// `bytemuck::cast_slice` from `i8` to `u8`: each byte of the slice read as
/// unsigned, in place.
#[verifier::external_body]
fn cast_i8(s: &[i8]) -> (r: &[u8])
    ensures
        r@.len() == s@.len(),
        forall|i: int|
            0 <= i < s@.len() ==> (#[trigger] r@[i]) as int == (if s@[i] < 0 {
                s@[i] + 256
            } else {
                s@[i] as int
            }),
{
    bytemuck::cast_slice(s)
}

impl AsAcc for u8 {
    open spec fn acc(self) -> int {
        self as int
    }

    fn as_acc(self) -> (r: i32) {
        self as i32
    }

    open spec fn byte_form() -> Option<bool> {
        Some(false)
    }

    fn signedness() -> (r: Option<bool>) {
        Some(false)
    }

    fn as_bytes(s: &[Self]) -> (r: Option<&[u8]>) {
        Some(s)
    }
}

impl AsAcc for i8 {
    open spec fn acc(self) -> int {
        self as int
    }

    fn as_acc(self) -> (r: i32) {
        self as i32
    }

    open spec fn byte_form() -> Option<bool> {
        Some(true)
    }

    fn signedness() -> (r: Option<bool>) {
        Some(true)
    }

    fn as_bytes(s: &[Self]) -> (r: Option<&[u8]>) {
        Some(cast_i8(s))
    }
}

impl AsAcc for i32 {
    open spec fn acc(self) -> int {
        self as int
    }

    fn as_acc(self) -> (r: i32) {
        self
    }

    open spec fn byte_form() -> Option<bool> {
        None
    }

    fn signedness() -> (r: Option<bool>) {
        None
    }

    fn as_bytes(s: &[Self]) -> (r: Option<&[u8]>) {
        None
    }
}

/// The integers that the elements of a matrix stand for.
pub open spec fn values<A: AsAcc>(a: Seq<A>) -> Seq<int> {
    a.map_values(|x: A| x.acc())
}

} // verus!
