//! Copying bytes from a slice into a vector.

use vstd::prelude::*;

verus! {

/// Appends the bytes of `source` from index `from` on to `target`.
pub(crate) fn append_from(target: &mut Vec<u8>, source: &[u8], from: usize)
    requires
        from <= source@.len(),
    ensures
        final(target)@ == old(target)@ + source@.skip(from as int),
{
    let total = source.len();
    let mut at: usize = from;
    while at < total
        invariant
            from <= at <= total,
            source@.len() == total,
            target@ == old(target)@ + source@.subrange(from as int, at as int),
        decreases total - at,
    {
        target.push(source[at]);
        at += 1;
    }
}

} // verus!
