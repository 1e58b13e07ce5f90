//! The four kinds of records the transaction layer keeps in an engine, and
//! their byte encodings.

use vstd::prelude::*;
use crate::error::Error;
use crate::bytes::{lex_lt, lemma_lex_irreflexive};
use crate::keycode::{
    Serializer, Deserializer, u64_bytes, bytes_code, escape, parse_u64, parse_bytes,
    lemma_u64_bytes, lemma_parse_bytes_code, lemma_lex_common_prefix, lemma_lex_equal_len_prefix,
    lemma_u64_order, lemma_bytes_code_order,
};

verus! {

/// A transaction's version number.
pub type Version = u64;

/// A logical key of the transaction layer. The variant's position is its tag byte.
#[derive(Debug, PartialEq, Eq)]
pub enum MvccKey {
    /// The counter holding the next version to hand out.
    NextVersion,
    /// Marks the transaction with this version as in flight.
    TxnActive(Version),
    /// Records that the transaction wrote the key, for rollback.
    TxnWrite(Version, Vec<u8>),
    /// The value of a key as written by the transaction with this version.
    Version(Vec<u8>, Version),
}

/// The mathematical value of an [`MvccKey`].
pub ghost enum KeyView {
    NextVersion,
    TxnActive(u64),
    TxnWrite(u64, Seq<u8>),
    Version(Seq<u8>, u64),
}

impl View for MvccKey {
    type V = KeyView;

    open spec fn view(&self) -> KeyView {
        match self {
            MvccKey::NextVersion => KeyView::NextVersion,
            MvccKey::TxnActive(v) => KeyView::TxnActive(*v),
            MvccKey::TxnWrite(v, k) => KeyView::TxnWrite(*v, k@),
            MvccKey::Version(k, v) => KeyView::Version(k@, *v),
        }
    }
}

/// The encoding of a logical key: its tag byte, then its fields in order.
pub open spec fn key_code(k: KeyView) -> Seq<u8> {
    match k {
        KeyView::NextVersion => seq![0u8],
        KeyView::TxnActive(v) => seq![1u8] + u64_bytes(v),
        KeyView::TxnWrite(v, key) => seq![2u8] + u64_bytes(v) + bytes_code(key),
        KeyView::Version(key, v) => seq![3u8] + bytes_code(key) + u64_bytes(v),
    }
}

/// Reads a logical key from the front of `s`; what follows it is ignored.
pub open spec fn parse_key(s: Seq<u8>) -> Option<KeyView> {
    if s.len() == 0 {
        None
    } else {
        let rest = s.drop_first();
        if s[0] == 0 {
            Some(KeyView::NextVersion)
        } else if s[0] == 1 {
            match parse_u64(rest) {
                Some(v) => Some(KeyView::TxnActive(v)),
                None => None,
            }
        } else if s[0] == 2 {
            match parse_u64(rest) {
                Some(v) => match parse_bytes(rest.subrange(8, rest.len() as int)) {
                    Some((key, _)) => Some(KeyView::TxnWrite(v, key)),
                    None => None,
                },
                None => None,
            }
        } else if s[0] == 3 {
            match parse_bytes(rest) {
                Some((key, n)) => match parse_u64(rest.subrange(n as int, rest.len() as int)) {
                    Some(v) => Some(KeyView::Version(key, v)),
                    None => None,
                },
                None => None,
            }
        } else {
            None
        }
    }
}

proof fn lemma_parse_u64_bytes(v: u64, rest: Seq<u8>)
    ensures
        parse_u64(u64_bytes(v) + rest) == Some(v),
        (u64_bytes(v) + rest).subrange(8, (u64_bytes(v) + rest).len() as int) == rest,
{
    lemma_u64_bytes(v);
    let s = u64_bytes(v) + rest;
    assert(s.subrange(0, 8) =~= u64_bytes(v));
    assert(s.subrange(8, s.len() as int) =~= rest);
}

/// Decoding an encoded key gives the key back, whatever follows it.
pub proof fn lemma_key_round_trip(k: KeyView, rest: Seq<u8>)
    ensures
        parse_key(key_code(k) + rest) == Some(k),
{
    let s = key_code(k) + rest;
    let tail = s.drop_first();
    match k {
        KeyView::NextVersion => {},
        KeyView::TxnActive(v) => {
            assert(tail =~= u64_bytes(v) + rest);
            lemma_parse_u64_bytes(v, rest);
        },
        KeyView::TxnWrite(v, key) => {
            assert(tail =~= u64_bytes(v) + (bytes_code(key) + rest));
            lemma_parse_u64_bytes(v, bytes_code(key) + rest);
            lemma_parse_bytes_code(key, rest);
        },
        KeyView::Version(key, v) => {
            assert(tail =~= bytes_code(key) + (u64_bytes(v) + rest));
            lemma_parse_bytes_code(key, u64_bytes(v) + rest);
            let n = escape(key).len() + 2;
            assert(tail.subrange(n as int, tail.len() as int) =~= u64_bytes(v) + rest);
            lemma_parse_u64_bytes(v, rest);
        },
    }
}

/// Decoding the encoding of a key gives that key back.
pub proof fn lemma_decode_encode(k: KeyView)
    ensures
        parse_key(key_code(k)) == Some(k),
{
    lemma_key_round_trip(k, seq![]);
    assert(key_code(k) + seq![] =~= key_code(k));
}

/// Both keys are of one variant.
pub open spec fn same_variant(a: KeyView, b: KeyView) -> bool {
    (a is NextVersion && b is NextVersion) || (a is TxnActive && b is TxnActive) || (a is TxnWrite
        && b is TxnWrite) || (a is Version && b is Version)
}

/// The order of two keys of one variant: their fields compared in order, byte
/// strings lexicographically.
pub open spec fn key_lt(a: KeyView, b: KeyView) -> bool {
    match (a, b) {
        (KeyView::TxnActive(x), KeyView::TxnActive(y)) => x < y,
        (KeyView::TxnWrite(v1, k1), KeyView::TxnWrite(v2, k2)) => v1 < v2 || (v1 == v2 && lex_lt(k1, k2)),
        (KeyView::Version(k1, v1), KeyView::Version(k2, v2)) => lex_lt(k1, k2) || (k1 == k2 && v1 < v2),
        _ => false,
    }
}

/// The encoding keeps order: of two keys of one variant, the encoding of one
/// sorts before the other's exactly when the key comes first in field order.
pub proof fn lemma_key_order(a: KeyView, b: KeyView)
    requires
        same_variant(a, b),
    ensures
        lex_lt(key_code(a), key_code(b)) == key_lt(a, b),
{
    match (a, b) {
        (KeyView::NextVersion, KeyView::NextVersion) => {
            lemma_lex_irreflexive(seq![0u8]);
        },
        (KeyView::TxnActive(x), KeyView::TxnActive(y)) => {
            lemma_lex_common_prefix(seq![1u8], u64_bytes(x), u64_bytes(y));
            lemma_u64_order(x, y);
        },
        (KeyView::TxnWrite(v1, k1), KeyView::TxnWrite(v2, k2)) => {
            assert(key_code(a) =~= seq![2u8] + (u64_bytes(v1) + bytes_code(k1)));
            assert(key_code(b) =~= seq![2u8] + (u64_bytes(v2) + bytes_code(k2)));
            lemma_lex_common_prefix(seq![2u8], u64_bytes(v1) + bytes_code(k1), u64_bytes(v2) + bytes_code(k2));
            lemma_u64_order(v1, v2);
            lemma_u64_bytes(v1);
            lemma_u64_bytes(v2);
            if v1 != v2 {
                lemma_lex_equal_len_prefix(u64_bytes(v1), u64_bytes(v2), bytes_code(k1), bytes_code(k2));
            } else {
                lemma_lex_common_prefix(u64_bytes(v1), bytes_code(k1), bytes_code(k2));
                if k1 != k2 {
                    lemma_bytes_code_order(k1, k2, seq![], seq![]);
                    assert(bytes_code(k1) + seq![] =~= bytes_code(k1));
                    assert(bytes_code(k2) + seq![] =~= bytes_code(k2));
                } else {
                    lemma_lex_irreflexive(bytes_code(k1));
                    lemma_lex_irreflexive(k1);
                }
            }
        },
        (KeyView::Version(k1, v1), KeyView::Version(k2, v2)) => {
            assert(key_code(a) =~= seq![3u8] + (bytes_code(k1) + u64_bytes(v1)));
            assert(key_code(b) =~= seq![3u8] + (bytes_code(k2) + u64_bytes(v2)));
            lemma_lex_common_prefix(seq![3u8], bytes_code(k1) + u64_bytes(v1), bytes_code(k2) + u64_bytes(v2));
            if k1 != k2 {
                lemma_bytes_code_order(k1, k2, u64_bytes(v1), u64_bytes(v2));
            } else {
                lemma_lex_common_prefix(bytes_code(k1), u64_bytes(v1), u64_bytes(v2));
                lemma_u64_order(v1, v2);
                lemma_lex_irreflexive(k1);
            }
        },
        _ => {},
    }
}

impl MvccKey {
    /// The key's bytes: its tag byte, then its fields in order.
    pub fn encode(&self) -> (r: Vec<u8>)
        ensures
            r@ == key_code(self@),
    {
        let mut ser = Serializer::new();
        match self {
            MvccKey::NextVersion => {
                ser.serialize_variant(0);
            },
            MvccKey::TxnActive(v) => {
                ser.serialize_variant(1);
                ser.serialize_u64(*v);
            },
            MvccKey::TxnWrite(v, key) => {
                ser.serialize_variant(2);
                ser.serialize_u64(*v);
                ser.serialize_bytes(key.as_slice());
            },
            MvccKey::Version(key, v) => {
                ser.serialize_variant(3);
                ser.serialize_bytes(key.as_slice());
                ser.serialize_u64(*v);
            },
        }
        let r = ser.into_bytes();
        proof {
            assert(r@ =~= key_code(self@));
        }
        r
    }

    /// Reads a key from the front of `data`; bytes after it are ignored.
    pub fn decode(data: Vec<u8>) -> (r: Result<MvccKey, Error>)
        ensures
            r is Ok <==> parse_key(data@) is Some,
            r is Ok ==> r->Ok_0@ == parse_key(data@)->Some_0,
            r is Err ==> r == Err::<MvccKey, Error>(Error::Parse),
    {
        let ghost s = data@;
        let mut de = Deserializer::new(data);
        let tag = match de.next_variant() {
            Ok(t) => t,
            Err(_) => return Err(Error::Parse),
        };
        proof {
            assert(de@ == s.drop_first());
        }
        if tag == 0 {
            Ok(MvccKey::NextVersion)
        } else if tag == 1 {
            match de.next_u64() {
                Ok(v) => Ok(MvccKey::TxnActive(v)),
                Err(_) => Err(Error::Parse),
            }
        } else if tag == 2 {
            let v = match de.next_u64() {
                Ok(v) => v,
                Err(_) => return Err(Error::Parse),
            };
            match de.next_bytes() {
                Ok(key) => Ok(MvccKey::TxnWrite(v, key)),
                Err(_) => Err(Error::Parse),
            }
        } else if tag == 3 {
            let key = match de.next_bytes() {
                Ok(key) => key,
                Err(_) => return Err(Error::Parse),
            };
            match de.next_u64() {
                Ok(v) => Ok(MvccKey::Version(key, v)),
                Err(_) => Err(Error::Parse),
            }
        } else {
            Err(Error::Parse)
        }
    }
}

/// A key prefix, to scan all the keys of one kind (and first field).
#[derive(Debug, PartialEq, Eq)]
pub enum MvccKeyPrefix {
    NextVersion,
    TxnActive,
    TxnWrite(Version),
    Version(Vec<u8>),
}

/// The encoding of a prefix: the tag byte, then the fields it gives.
pub open spec fn prefix_code(p: &MvccKeyPrefix) -> Seq<u8> {
    match p {
        MvccKeyPrefix::NextVersion => seq![0u8],
        MvccKeyPrefix::TxnActive => seq![1u8],
        MvccKeyPrefix::TxnWrite(v) => seq![2u8] + u64_bytes(*v),
        MvccKeyPrefix::Version(key) => seq![3u8] + bytes_code(key@),
    }
}

impl MvccKeyPrefix {
    pub fn encode(&self) -> (r: Vec<u8>)
        ensures
            r@ == prefix_code(self),
    {
        let mut ser = Serializer::new();
        match self {
            MvccKeyPrefix::NextVersion => {
                ser.serialize_variant(0);
            },
            MvccKeyPrefix::TxnActive => {
                ser.serialize_variant(1);
            },
            MvccKeyPrefix::TxnWrite(v) => {
                ser.serialize_variant(2);
                ser.serialize_u64(*v);
            },
            MvccKeyPrefix::Version(key) => {
                ser.serialize_variant(3);
                ser.serialize_bytes(key.as_slice());
            },
        }
        let r = ser.into_bytes();
        proof {
            assert(r@ =~= prefix_code(self));
        }
        r
    }
}

} // verus!
