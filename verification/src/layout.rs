//! Memory layouts: the size and alignment of what a deserialized value
//! is allocated with.

use vstd::prelude::*;
use vstd::layout::{align_of, layout_for_type_is_valid, size_of};

verus! {

/// The layout of a block of memory: its size in bytes and its
/// alignment.
#[derive(Clone, Copy, Debug, PartialEq, Eq, Structural)]
pub struct Layout {
    /// The size in bytes.
    pub size: usize,
    /// The alignment.
    pub align: usize,
}

/// The layout of a value could not be computed: its size, rounded up to
/// its alignment, is more than the largest size of an allocation.
#[derive(Clone, Copy, Debug, PartialEq, Eq, Structural)]
pub struct LayoutError;

/// Whether `n` values of type `T` in a row can be allocated: their size,
/// rounded up to the alignment of `T`, is at most the largest size of an
/// allocation.
pub open spec fn spec_array_fits<T>(n: int) -> bool {
    n * size_of::<T>() + align_of::<T>() - 1 <= isize::MAX
}

/// The layout of one value of type `T`.
pub fn layout_of<T>() -> (layout: Layout)
    ensures
        layout.size == size_of::<T>(),
        layout.align == align_of::<T>(),
{
    layout_for_type_is_valid::<T>();
    Layout { size: core::mem::size_of::<T>(), align: core::mem::align_of::<T>() }
}

/// The layout of `n` values of type `T` in a row, or an error where
/// they cannot be allocated.
pub fn layout_array<T>(n: usize) -> (r: Result<Layout, LayoutError>)
    ensures
        r is Ok <==> spec_array_fits::<T>(n as int),
        r matches Ok(layout) ==> layout.size == n * size_of::<T>() && layout.align == align_of::<
            T,
        >(),
{
    let element = layout_of::<T>();
    layout_for_type_is_valid::<T>();
    if element.align - 1 > isize::MAX as usize {
        proof {
            assert(0 <= n * size_of::<T>()) by (nonlinear_arith);
        }
        return Err(LayoutError);
    }
    let limit = (isize::MAX as usize) - (element.align - 1);
    if element.size == 0 {
        assert(n * 0 == 0) by (nonlinear_arith);
        return Ok(Layout { size: 0, align: element.align });
    }
    if n > limit / element.size {
        proof {
            assert(n * element.size > limit) by (nonlinear_arith)
                requires
                    n > (limit as int) / (element.size as int),
                    element.size > 0,
                    limit >= 0,
            ;
        }
        return Err(LayoutError);
    }
    proof {
        assert(n * element.size <= limit) by (nonlinear_arith)
            requires
                n <= (limit as int) / (element.size as int),
                element.size > 0,
                limit >= 0,
        ;
    }
    Ok(Layout { size: n * element.size, align: element.align })
}

} // verus!
