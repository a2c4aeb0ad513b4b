//! Helpers on byte buffers.

use vstd::prelude::*;

verus! {

/// Appends `data` to `out`.
pub fn append_bytes(out: &mut Vec<u8>, data: &[u8])
    ensures
        final(out)@ == old(out)@ + data@,
{
    out.extend_from_slice(data);
    assert(out@ =~= old(out)@ + data@);
}

/// Makes `buf` hold `len` zero bytes.
pub fn fill_zeroed(buf: &mut Vec<u8>, len: usize)
    ensures
        final(buf)@.len() == len,
        forall|i: int| 0 <= i < len ==> final(buf)@[i] == 0,
{
    buf.clear();
    buf.resize(len, 0u8);
}

/// Copies `src` over the first bytes of `dst` and leaves the rest of `dst`
/// as it is.
pub fn copy_prefix(dst: &mut [u8], src: &[u8])
    requires
        src@.len() <= old(dst)@.len(),
    ensures
        final(dst)@.len() == old(dst)@.len(),
        final(dst)@.subrange(0, src@.len() as int) == src@,
        final(dst)@.subrange(src@.len() as int, old(dst)@.len() as int) == old(dst)@.subrange(
            src@.len() as int,
            old(dst)@.len() as int,
        ),
{
    let mut i: usize = 0;
    while i < src.len()
        invariant
            i <= src@.len() <= dst@.len(),
            dst@.len() == old(dst)@.len(),
            forall|j: int| 0 <= j < i ==> dst@[j] == src@[j],
            forall|j: int| i <= j < dst@.len() ==> dst@[j] == old(dst)@[j],
        decreases src@.len() - i,
    {
        dst[i] = src[i];
        i += 1;
    }
    assert(dst@.subrange(0, src@.len() as int) =~= src@);
    assert(dst@.subrange(src@.len() as int, old(dst)@.len() as int) =~= old(dst)@.subrange(
        src@.len() as int,
        old(dst)@.len() as int,
    ));
}

/// Concatenation is associative.
pub proof fn lemma_concat_assoc(a: Seq<u8>, b: Seq<u8>, c: Seq<u8>)
    ensures
        (a + b) + c == a + (b + c),
{
    assert((a + b) + c =~= a + (b + c));
}

} // verus!
