use sharkdb::engine::{scan_prefix, Bound, Engine};
use sharkdb::error::Error;
use sharkdb::memory::MemoryEngine;

fn point_opt(mut eng: MemoryEngine) -> Result<(), Error> {
    assert_eq!(eng.get(b"not exist".to_vec())?, None);

    eng.set(b"aa".to_vec(), vec![1, 2, 3, 4])?;
    assert_eq!(eng.get(b"aa".to_vec())?, Some(vec![1, 2, 3, 4]));

    eng.set(b"aa".to_vec(), vec![5, 6, 7, 8])?;
    assert_eq!(eng.get(b"aa".to_vec())?, Some(vec![5, 6, 7, 8]));

    eng.delete(b"aa".to_vec())?;
    assert_eq!(eng.get(b"aa".to_vec())?, None);

    assert_eq!(eng.get(b"".to_vec())?, None);
    eng.set(b"".to_vec(), vec![])?;
    assert_eq!(eng.get(b"".to_vec())?, Some(vec![]));

    eng.set(b"cc".to_vec(), vec![5, 6, 7, 8])?;
    assert_eq!(eng.get(b"cc".to_vec())?, Some(vec![5, 6, 7, 8]));
    Ok(())
}

fn scan(mut eng: MemoryEngine) -> Result<(), Error> {
    eng.set(b"nnaes".to_vec(), b"value1".to_vec())?;
    eng.set(b"amhue".to_vec(), b"value2".to_vec())?;
    eng.set(b"meeae".to_vec(), b"value3".to_vec())?;
    eng.set(b"uujeh".to_vec(), b"value4".to_vec())?;
    eng.set(b"anehe".to_vec(), b"value5".to_vec())?;

    let mut iter = eng.scan(Bound::Included(b"a".to_vec()), Bound::Excluded(b"e".to_vec()))?;
    let (key1, _) = iter.next().expect("no value founded");
    assert_eq!(key1, b"amhue".to_vec());
    let (key2, _) = iter.next().expect("no value founded");
    assert_eq!(key2, b"anehe".to_vec());

    let mut iter2 = eng.scan(Bound::Included(b"b".to_vec()), Bound::Excluded(b"z".to_vec()))?;
    let (key3, _) = iter2.next_back().expect("no value founded");
    assert_eq!(key3, b"uujeh".to_vec());
    let (key4, _) = iter2.next_back().expect("no value founded");
    assert_eq!(key4, b"nnaes".to_vec());
    let (key5, _) = iter2.next_back().expect("no value founded");
    assert_eq!(key5, b"meeae".to_vec());
    Ok(())
}

fn scan_prefix_case(mut eng: MemoryEngine) -> Result<(), Error> {
    eng.set(b"ccnaes".to_vec(), b"value1".to_vec())?;
    eng.set(b"camhue".to_vec(), b"value2".to_vec())?;
    eng.set(b"deeae".to_vec(), b"value3".to_vec())?;
    eng.set(b"eeujeh".to_vec(), b"value4".to_vec())?;
    eng.set(b"canehe".to_vec(), b"value5".to_vec())?;
    eng.set(b"aanehe".to_vec(), b"value6".to_vec())?;

    let mut iter = scan_prefix(&mut eng, b"ca".to_vec())?;
    let (key1, _) = iter.next().unwrap();
    assert_eq!(key1, b"camhue".to_vec());
    let (key2, _) = iter.next().unwrap();
    assert_eq!(key2, b"canehe".to_vec());
    assert!(iter.next().is_none());
    Ok(())
}

#[test]
fn test_memory() -> Result<(), Error> {
    point_opt(MemoryEngine::new())?;
    scan(MemoryEngine::new())?;
    scan_prefix_case(MemoryEngine::new())?;
    Ok(())
}

#[test]
fn scan_prefix_ending_in_ff_runs_to_the_end() -> Result<(), Error> {
    let mut eng = MemoryEngine::new();
    eng.set(vec![1, 255], b"x".to_vec())?;
    eng.set(vec![1, 255, 3], b"y".to_vec())?;
    eng.set(vec![2], b"z".to_vec())?;
    let mut iter = scan_prefix(&mut eng, vec![1, 255])?;
    assert_eq!(iter.remaining(), 3);
    assert_eq!(iter.next_back(), Some((vec![2], b"z".to_vec())));
    Ok(())
}

#[test]
fn delete_missing_key_is_no_error() -> Result<(), Error> {
    let mut eng = MemoryEngine::new();
    eng.delete(b"nothing".to_vec())?;
    assert_eq!(eng.get(b"nothing".to_vec())?, None);
    Ok(())
}
