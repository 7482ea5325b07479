//! Appending to the output buffer.

use vstd::prelude::*;
use crate::layout::zeros;

verus! {

/// Appends `bytes` to `out`.
pub fn append_bytes(out: &mut Vec<u8>, bytes: &[u8])
    ensures
        final(out)@ == old(out)@ + bytes@,
{
    out.extend_from_slice(bytes);
    assert(out@ =~= old(out)@ + bytes@);
}

/// Appends `count` zero bytes to `out`.
pub fn append_zeros(out: &mut Vec<u8>, count: usize)
    requires
        old(out)@.len() + count <= usize::MAX,
    ensures
        final(out)@ == old(out)@ + zeros(count as int),
{
    let len: usize = out.len() + count;
    out.resize(len, 0u8);
    assert(out@ =~= old(out)@ + zeros(count as int));
}

} // verus!
