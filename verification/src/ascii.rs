//! Conversions between ASCII byte sequences and character strings.

use vstd::prelude::*;

verus! {

/// The characters corresponding to a sequence of ASCII bytes, one per byte.
pub open spec fn ascii_seq(bytes: Seq<u8>) -> Seq<char> {
    Seq::new(bytes.len(), |i: int| bytes[i] as char)
}

/// Relies on String::from_utf8: a buffer of bytes below 0x80 is valid UTF-8
/// and decodes to the characters with the same code points, one per byte.
#[verifier::external_body]
pub(crate) fn ascii_to_string(bytes: &Vec<u8>) -> (r: String)
    requires
        forall|i: int| 0 <= i < bytes@.len() ==> bytes@[i] < 128,
    ensures
        r@ == ascii_seq(bytes@),
{
    String::from_utf8(bytes.clone()).unwrap_or_default()
}

/// A copy of the bytes of `v` from `lo` (inclusive) to `hi` (exclusive).
pub(crate) fn byte_range(v: &Vec<u8>, lo: usize, hi: usize) -> (r: Vec<u8>)
    requires
        lo <= hi <= v@.len(),
    ensures
        r@ == v@.subrange(lo as int, hi as int),
{
    let mut r: Vec<u8> = Vec::new();
    let mut i: usize = lo;
    while i < hi
        invariant
            lo <= i <= hi <= v@.len(),
            r@ == v@.subrange(lo as int, i as int),
        decreases hi - i,
    {
        r.push(v[i]);
        i = i + 1;
        proof {
            assert(r@ =~= v@.subrange(lo as int, i as int));
        }
    }
    r
}

} // verus!
