//! Sizes for an allocator that hands out memory in steps of eight bytes.

use vstd::prelude::*;

verus! {

/// The step in which memory is handed out.
pub const ALIGNMENT: usize = 8;

/// The least multiple of the step that is not below `size`.
pub fn align_size(size: usize) -> (aligned: usize)
    requires
        size + ALIGNMENT <= usize::MAX,
    ensures
        aligned % ALIGNMENT == 0,
        size <= aligned < size + ALIGNMENT,
{
    let padded = size + ALIGNMENT - 1;
    let aligned = padded & !(ALIGNMENT - 1);
    proof {
        assert(aligned % 8 == 0 && aligned <= padded && padded - aligned < 8) by (bit_vector)
            requires
                aligned == padded & !7usize,
        ;
    }
    aligned
}

} // verus!
