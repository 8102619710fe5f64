//! Byte strings. Set elements are `bytes::Bytes` values; the contracts speak
//! of the bytes that such a value holds.

use bytes::Bytes;
use vstd::prelude::*;

verus! {

#[verifier::external_type_specification]
#[verifier::external_body]
pub struct ExBytes(bytes::Bytes);

/// The bytes that a `Bytes` value holds.
pub uninterp spec fn bytes_content(b: Bytes) -> Seq<u8>;

/// The bytes that each of several `Bytes` values holds.
pub open spec fn contents(s: Seq<Bytes>) -> Seq<Seq<u8>> {
    s.map_values(|b: Bytes| bytes_content(b))
}

/// `Bytes::clone`: the clone is a handle on the same memory, so it holds the
/// same bytes.
pub assume_specification[ <Bytes as Clone>::clone ](b: &Bytes) -> (r: Bytes)
    ensures
        bytes_content(r) == bytes_content(*b),
;

/// `Bytes::eq`: two values are equal when they hold the same bytes.
#[verifier::external_body]
pub(crate) fn bytes_eq(a: &Bytes, b: &Bytes) -> (r: bool)
    ensures
        r == (bytes_content(*a) == bytes_content(*b)),
{
    a == b
}

/// `Bytes::as_ref`: the slice of the bytes held.
#[verifier::external_body]
pub(crate) fn bytes_as_slice(b: &Bytes) -> (r: &[u8])
    ensures
        r@ == bytes_content(*b),
{
    b.as_ref()
}

/// `Bytes::copy_from_slice`: a value that holds a copy of the slice.
#[verifier::external_body]
pub(crate) fn bytes_from_slice(data: &[u8]) -> (r: Bytes)
    ensures
        bytes_content(r) == data@,
{
    Bytes::copy_from_slice(data)
}

/// Clones each of the values.
pub fn clone_all(items: &[Bytes]) -> (r: Vec<Bytes>)
    ensures
        contents(r@) == contents(items@),
{
    let mut out: Vec<Bytes> = Vec::new();
    let mut i: usize = 0;
    while i < items.len()
        invariant
            i <= items@.len(),
            out@.len() == i,
            contents(out@) == contents(items@.subrange(0, i as int)),
        decreases items@.len() - i,
    {
        let ghost before = out@;
        out.push(items[i].clone());
        proof {
            let a = contents(out@);
            let b = contents(items@.subrange(0, i + 1));
            assert forall|k: int| 0 <= k < a.len() implies a[k] == b[k] by {
                if k < i {
                    assert(contents(before)[k] == contents(items@.subrange(0, i as int))[k]);
                    assert(out@[k] == before[k]);
                }
            }
            assert(a =~= b);
        }
        i = i + 1;
    }
    proof {
        assert(items@.subrange(0, i as int) =~= items@);
    }
    out
}

} // verus!
