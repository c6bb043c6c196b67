//! Pointer metadata: what a pointer to a value without a fixed size
//! holds beside the position of the value.
//!
//! The metadata of a slice is the number of its elements, and that of
//! text the number of its bytes. It is archived as a 32-bit number next
//! to the relative pointer.

use vstd::prelude::*;
use vstd::string::StringSliceAdditionalSpecFns;

verus! {

/// Calls `ptr_meta::metadata`, which reads the metadata of a pointer,
/// on a slice. The contract claims that the metadata of a slice is the
/// number of its elements.
#[verifier::external_body]
fn slice_metadata<T>(slice: &[T]) -> (n: usize)
    ensures
        n == slice@.len(),
{
    ptr_meta::metadata(slice)
}

/// The metadata of a slice, as it is archived: the number of elements,
/// or `None` where it does not fit the archived width.
pub fn archived_slice_metadata<T>(slice: &[T]) -> (r: Option<u32>)
    ensures
        r is Some <==> slice@.len() <= u32::MAX,
        r matches Some(n) ==> n == slice@.len(),
{
    let n = slice_metadata(slice);
    if n > u32::MAX as usize {
        None
    } else {
        Some(n as u32)
    }
}

/// The metadata of text, as it is archived: the number of bytes, or
/// `None` where it does not fit the archived width.
pub fn archived_str_metadata(text: &str) -> (r: Option<u32>)
    ensures
        r is Some <==> text.spec_bytes().len() <= u32::MAX,
        r matches Some(n) ==> n == text.spec_bytes().len(),
{
    let n = slice_metadata(text.as_bytes());
    if n > u32::MAX as usize {
        None
    } else {
        Some(n as u32)
    }
}

/// The live metadata that archived metadata stands for.
pub fn pointer_metadata(archived: u32) -> (n: usize)
    ensures
        n == archived,
{
    archived as usize
}

} // verus!
