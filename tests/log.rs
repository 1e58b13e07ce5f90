use sharkdb::engine::Bound;
use sharkdb::error::Error;
use sharkdb::log::{build_keydir, compact_log, encode_record, KeyDir};

fn values(log: &[u8], kd: &KeyDir) -> Vec<(Vec<u8>, Vec<u8>)> {
    kd.scan(&Bound::Unbounded, &Bound::Unbounded)
        .into_iter()
        .map(|(k, (off, len))| (k, log[off as usize..off as usize + len as usize].to_vec()))
        .collect()
}

fn write(log: &mut Vec<u8>, key: &[u8], value: Option<&[u8]>) {
    log.extend(encode_record(key, value));
}

#[test]
fn record_bytes() {
    assert_eq!(
        encode_record(b"key1", Some(b"value")),
        vec![0, 0, 0, 4, 0, 0, 0, 5, b'k', b'e', b'y', b'1', b'v', b'a', b'l', b'u', b'e']
    );
    assert_eq!(
        encode_record(b"key1", None),
        vec![0, 0, 0, 4, 255, 255, 255, 255, b'k', b'e', b'y', b'1']
    );
}

#[test]
fn disk_log_compaction_keeps_live_pairs() -> Result<(), Error> {
    let mut log = Vec::new();
    write(&mut log, b"key1", Some(b"value"));
    write(&mut log, b"key2", Some(b"value"));
    write(&mut log, b"key3", Some(b"value"));
    write(&mut log, b"key1", None);
    write(&mut log, b"key2", None);
    write(&mut log, b"aa", Some(b"value1"));
    write(&mut log, b"aa", Some(b"value2"));
    write(&mut log, b"aa", Some(b"value3"));
    write(&mut log, b"bb", Some(b"value4"));
    write(&mut log, b"bb", Some(b"value5"));

    let kd = build_keydir(&log)?;
    let live = values(&log, &kd);
    assert_eq!(
        live,
        vec![
            (b"aa".to_vec(), b"value3".to_vec()),
            (b"bb".to_vec(), b"value5".to_vec()),
            (b"key3".to_vec(), b"value".to_vec()),
        ]
    );

    let (new_log, new_kd) = compact_log(&live);
    let mut expected = Vec::new();
    expected.extend([0, 0, 0, 2, 0, 0, 0, 6]);
    expected.extend(b"aavalue3");
    expected.extend([0, 0, 0, 2, 0, 0, 0, 6]);
    expected.extend(b"bbvalue5");
    expected.extend([0, 0, 0, 4, 0, 0, 0, 5]);
    expected.extend(b"key3value");
    assert_eq!(new_log, expected);
    assert_eq!(values(&new_log, &new_kd), live);

    let reopened = build_keydir(&new_log)?;
    assert_eq!(values(&new_log, &reopened), live);
    assert_eq!(reopened.get(b"bb"), new_kd.get(b"bb"));
    Ok(())
}

#[test]
fn truncated_log_is_an_error() {
    let mut log = encode_record(b"key1", Some(b"value"));
    log.pop();
    assert!(matches!(build_keydir(&log), Err(Error::Parse)));
    let header_only = vec![0, 0, 0, 4];
    assert!(matches!(build_keydir(&header_only), Err(Error::Parse)));
    let bad_length = vec![0, 0, 0, 0, 128, 0, 0, 0];
    assert!(matches!(build_keydir(&bad_length), Err(Error::Parse)));
}

#[test]
fn empty_log_gives_empty_index() -> Result<(), Error> {
    let kd = build_keydir(&[])?;
    assert_eq!(kd.get(b"a"), None);
    Ok(())
}

#[test]
fn keydir_insert_remove() {
    let mut kd = KeyDir::new();
    kd.insert(b"b".to_vec(), (10, 2));
    kd.insert(b"a".to_vec(), (3, 1));
    kd.insert(b"b".to_vec(), (20, 4));
    assert_eq!(kd.get(b"b"), Some((20, 4)));
    kd.remove(b"a");
    kd.remove(b"zz");
    assert_eq!(
        kd.scan(&Bound::Unbounded, &Bound::Unbounded),
        vec![(b"b".to_vec(), (20, 4))]
    );
}
