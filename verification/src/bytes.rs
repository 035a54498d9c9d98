//! Byte strings and optional byte strings as plain values.
use vstd::prelude::*;

verus! {

/// A stored value as a plain value: the bytes, or nothing for a tombstone.
pub open spec fn value_view(v: Option<Vec<u8>>) -> Option<Seq<u8>> {
    match v {
        Some(b) => Some(b@),
        None => None,
    }
}

/// A borrowed value as a plain value.
pub open spec fn value_ref_view(v: Option<&Vec<u8>>) -> Option<Seq<u8>> {
    match v {
        Some(b) => Some(b@),
        None => None,
    }
}

/// A column of stored values as plain values.
pub open spec fn values_view(vals: Seq<Option<Vec<u8>>>) -> Seq<Option<Seq<u8>>> {
    Seq::new(vals.len(), |i: int| value_view(vals[i]))
}

/// Copies a byte string.
pub fn clone_bytes(b: &Vec<u8>) -> (r: Vec<u8>)
    ensures
        r@ == b@,
{
    let r = b.clone();
    assert(r@ =~= b@);
    r
}

/// Copies a value or a tombstone.
pub fn clone_value(v: &Option<Vec<u8>>) -> (r: Option<Vec<u8>>)
    ensures
        value_view(r) == value_view(*v),
{
    match v {
        Some(b) => Some(clone_bytes(b)),
        None => None,
    }
}

} // verus!
