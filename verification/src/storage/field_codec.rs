//! Sizes of Rust types as the machine lays them out.
use vstd::layout::{align_of, size_of};
use vstd::prelude::*;

verus! {

/// The size and alignment in bytes of `T`.
pub fn size_and_align_of<T>() -> (r: (usize, usize))
    ensures
        r.0 as nat == size_of::<T>(),
        r.1 as nat == align_of::<T>(),
{
    (core::mem::size_of::<T>(), core::mem::align_of::<T>())
}

} // verus!
