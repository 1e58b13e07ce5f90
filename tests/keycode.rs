use sharkdb::error::Error;
use sharkdb::keycode::{Deserializer, Serializer};
use sharkdb::keys::{MvccKey, MvccKeyPrefix};

#[test]
fn test_encode() {
    let ser_cmp = |k: MvccKey, v: Vec<u8>| {
        let res = k.encode();
        assert_eq!(res, v);
    };

    ser_cmp(MvccKey::NextVersion, vec![0]);
    ser_cmp(MvccKey::TxnActive(1), vec![1, 0, 0, 0, 0, 0, 0, 0, 1]);
    ser_cmp(
        MvccKey::TxnWrite(1, vec![1, 2, 3]),
        vec![2, 0, 0, 0, 0, 0, 0, 0, 1, 1, 2, 3, 0, 0],
    );
    ser_cmp(
        MvccKey::Version(b"abc".to_vec(), 11),
        vec![3, 97, 98, 99, 0, 0, 0, 0, 0, 0, 0, 0, 0, 11],
    );
}

#[test]
fn test_encode_prefix() {
    let ser_cmp = |k: MvccKeyPrefix, v: Vec<u8>| {
        let res = k.encode();
        assert_eq!(res, v);
    };

    ser_cmp(MvccKeyPrefix::NextVersion, vec![0]);
    ser_cmp(MvccKeyPrefix::TxnActive, vec![1]);
    ser_cmp(MvccKeyPrefix::TxnWrite(1), vec![2, 0, 0, 0, 0, 0, 0, 0, 1]);
    ser_cmp(MvccKeyPrefix::Version(b"ab".to_vec()), vec![3, 97, 98, 0, 0]);
}

#[test]
fn test_decode() {
    let der_cmp = |k: MvccKey, v: Vec<u8>| {
        let res: MvccKey = MvccKey::decode(v).unwrap();
        assert_eq!(res, k);
    };

    der_cmp(MvccKey::NextVersion, vec![0]);
    der_cmp(MvccKey::TxnActive(1), vec![1, 0, 0, 0, 0, 0, 0, 0, 1]);
    der_cmp(
        MvccKey::TxnWrite(1, vec![1, 2, 3]),
        vec![2, 0, 0, 0, 0, 0, 0, 0, 1, 1, 2, 3, 0, 0],
    );
    der_cmp(
        MvccKey::Version(b"abc".to_vec(), 11),
        vec![3, 97, 98, 99, 0, 0, 0, 0, 0, 0, 0, 0, 0, 11],
    );
}

#[test]
fn test_u8_convert() {
    let v = [1 as u8, 2, 3];
    let vv = &v;
    let vvv: Vec<u8> = vv.try_into().unwrap();
    println!("{:?}", vvv);
}

#[test]
fn encode_bytes_escapes_zero() {
    let mut ser = Serializer::new();
    ser.serialize_bytes(b"a\x00b");
    assert_eq!(ser.into_bytes(), vec![97, 0, 255, 98, 0, 0]);
}

#[test]
fn decode_bytes_round_trip_and_errors() {
    let mut de = Deserializer::new(vec![97, 0, 255, 98, 0, 0, 7]);
    assert_eq!(de.next_bytes(), Ok(vec![97, 0, 98]));
    assert_eq!(de.take_bytes(1), Ok(vec![7]));
    let mut bad = Deserializer::new(vec![97, 0, 1]);
    assert_eq!(bad.next_bytes(), Err(Error::Internal));
    let mut open = Deserializer::new(vec![97, 98]);
    assert_eq!(open.next_bytes(), Err(Error::Internal));
}

#[test]
fn decode_rejects_short_and_unknown_input() {
    assert_eq!(MvccKey::decode(vec![]), Err(Error::Parse));
    assert_eq!(MvccKey::decode(vec![1, 0, 0]), Err(Error::Parse));
    assert_eq!(MvccKey::decode(vec![9]), Err(Error::Parse));
    assert_eq!(
        MvccKey::decode(vec![3, 0, 0, 255, 255, 255, 255, 255, 255, 255, 255]),
        Ok(MvccKey::Version(vec![], u64::MAX))
    );
}

#[test]
fn encoded_versions_sort_by_version() {
    let a = MvccKey::Version(b"k".to_vec(), 2).encode();
    let b = MvccKey::Version(b"k".to_vec(), 256).encode();
    let c = MvccKey::Version(b"k\x00".to_vec(), 1).encode();
    assert!(a < b);
    assert!(b < c);
}
