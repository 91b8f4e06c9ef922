//! What the library assumes of slice methods of the standard library.

use vstd::prelude::*;

verus! {

/// `<[V]>::swap` exchanges the two cells and leaves the others as they are.
/// It panics when an index is out of bounds.
pub assume_specification<V>[ <[V]>::swap ](slice: &mut [V], a: usize, b: usize)
    requires
        a < old(slice)@.len(),
        b < old(slice)@.len(),
    ensures
        final(slice)@ == old(slice)@.update(a as int, old(slice)@[b as int]).update(
            b as int,
            old(slice)@[a as int],
        ),
;

} // verus!
