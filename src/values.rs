//! The byte form of the values the transaction layer stores: the version
//! counter and the optional payload of a versioned key. Both are bincode's
//! default encoding.

use vstd::prelude::*;
use crate::keycode::{u64_bytes, be_value};

verus! {

/// A `u64` as eight bytes, least significant first.
pub open spec fn u64_le(v: u64) -> Seq<u8> {
    u64_bytes(v).reverse()
}

/// An optional payload: a tag byte (0 for none, 1 for some), then for some
/// the payload's length as a little-endian `u64` and its bytes.
pub open spec fn stored_code(o: Option<Seq<u8>>) -> Seq<u8> {
    match o {
        None => seq![0u8],
        Some(v) => seq![1u8] + u64_le(v.len() as u64) + v,
    }
}

/// `b` is exactly the encoding of some optional payload.
pub open spec fn is_stored_code(b: Seq<u8>) -> bool {
    exists|o: Option<Seq<u8>>| stored_code(o) == b && (o is Some ==> o->Some_0.len() <= u64::MAX)
}

/// The optional payload that `b` encodes (meaningful where `is_stored_code(b)`).
pub open spec fn stored_of(b: Seq<u8>) -> Option<Seq<u8>> {
    choose|o: Option<Seq<u8>>| stored_code(o) == b && (o is Some ==> o->Some_0.len() <= u64::MAX)
}

pub open spec fn opt_view(o: Option<Vec<u8>>) -> Option<Seq<u8>> {
    match o {
        None => None,
        Some(v) => Some(v@),
    }
}

/// Relies on bincode::serialize with its default options: a `u64` is written
/// as its eight bytes, least significant first; with no size limit and a
/// vector to write to, it does not fail.
#[verifier::external_body]
pub(crate) fn serialize_counter(v: u64) -> (r: Option<Vec<u8>>)
    ensures
        r is Some && r->Some_0@ == u64_le(v),
{
    bincode::serialize(&v).ok()
}

/// Relies on bincode::deserialize with its default options: a `u64` is read
/// from the first eight bytes, least significant first; fewer bytes fail;
/// bytes after them are ignored.
#[verifier::external_body]
pub(crate) fn deserialize_counter(b: &Vec<u8>) -> (r: Option<u64>)
    ensures
        b@.len() < 8 ==> r is None,
        b@.len() >= 8 ==> r == Some(be_value(b@.subrange(0, 8).reverse()) as u64),
{
    bincode::deserialize::<u64>(b).ok()
}

/// Relies on bincode::serialize with its default options: `None` is the byte
/// 0; `Some(v)` is the byte 1, `v`'s length as a little-endian `u64`, then
/// `v`'s bytes; with no size limit and a vector to write to, it does not fail.
#[verifier::external_body]
pub(crate) fn serialize_stored(o: &Option<Vec<u8>>) -> (r: Option<Vec<u8>>)
    ensures
        r is Some && r->Some_0@ == stored_code(opt_view(*o)),
{
    bincode::serialize(o).ok()
}

/// Relies on bincode::deserialize with its default options: the exact
/// encoding of an optional payload reads back as that payload.
#[verifier::external_body]
fn deserialize_stored(b: &Vec<u8>) -> (r: Option<Option<Vec<u8>>>)
    ensures
        is_stored_code(b@) ==> r is Some && stored_code(opt_view(r->Some_0)) == b@,
{
    bincode::deserialize::<Option<Vec<u8>>>(b).ok()
}

pub proof fn lemma_stored_code_injective(a: Option<Seq<u8>>, b: Option<Seq<u8>>)
    requires
        stored_code(a) == stored_code(b),
    ensures
        a == b,
{
    let s = stored_code(a);
    assert(s[0] == stored_code(b)[0]);
    if a is Some && b is Some {
        let va = a->Some_0;
        let vb = b->Some_0;
        assert(u64_le(va.len() as u64).len() == 8) by {
            crate::keycode::lemma_u64_bytes(va.len() as u64);
        }
        assert(u64_le(vb.len() as u64).len() == 8) by {
            crate::keycode::lemma_u64_bytes(vb.len() as u64);
        }
        assert(va =~= s.subrange(9, s.len() as int));
        assert(vb =~= stored_code(b).subrange(9, s.len() as int));
    }
}

/// Reads an optional payload; the exact encoding of one always reads back.
pub fn decode_stored(b: &Vec<u8>) -> (r: Option<Option<Vec<u8>>>)
    ensures
        is_stored_code(b@) ==> r is Some && opt_view(r->Some_0) == stored_of(b@),
{
    let r = deserialize_stored(b);
    proof {
        if is_stored_code(b@) {
            let o = stored_of(b@);
            lemma_stored_code_injective(o, opt_view(r->Some_0));
        }
    }
    r
}

} // verus!
