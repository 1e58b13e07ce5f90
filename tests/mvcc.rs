use sharkdb::error::Error;
use sharkdb::memory::MemoryEngine;
use sharkdb::mvcc::{Mvcc, ScanResult};

fn sr(k: &[u8], v: &[u8]) -> ScanResult {
    ScanResult { key: k.to_vec(), value: v.to_vec() }
}

#[test]
fn test_get() -> Result<(), Error> {
    let mut mvcc = Mvcc::new(MemoryEngine::new());
    let tx = mvcc.begin()?;
    tx.set(&mut mvcc, b"key1".to_vec(), b"val1".to_vec())?;
    tx.set(&mut mvcc, b"key2".to_vec(), b"val2".to_vec())?;
    tx.set(&mut mvcc, b"key2".to_vec(), b"val3".to_vec())?;
    tx.set(&mut mvcc, b"key3".to_vec(), b"val4".to_vec())?;
    tx.delete(&mut mvcc, b"key3".to_vec())?;
    tx.commit(&mut mvcc)?;

    let tx1 = mvcc.begin()?;
    assert_eq!(tx1.get(&mut mvcc, b"key1".to_vec())?, Some(b"val1".to_vec()));
    assert_eq!(tx1.get(&mut mvcc, b"key2".to_vec())?, Some(b"val3".to_vec()));
    assert_eq!(tx1.get(&mut mvcc, b"key3".to_vec())?, None);
    Ok(())
}

#[test]
fn test_get_isolation() -> Result<(), Error> {
    let mut mvcc = Mvcc::new(MemoryEngine::new());
    let tx = mvcc.begin()?;
    tx.set(&mut mvcc, b"key1".to_vec(), b"val1".to_vec())?;
    tx.set(&mut mvcc, b"key2".to_vec(), b"val2".to_vec())?;
    tx.set(&mut mvcc, b"key2".to_vec(), b"val3".to_vec())?;
    tx.set(&mut mvcc, b"key3".to_vec(), b"val4".to_vec())?;
    tx.commit(&mut mvcc)?;

    let tx1 = mvcc.begin()?;
    tx1.set(&mut mvcc, b"key1".to_vec(), b"val2".to_vec())?;

    let tx2 = mvcc.begin()?;

    let tx3 = mvcc.begin()?;
    tx3.set(&mut mvcc, b"key2".to_vec(), b"val4".to_vec())?;
    tx3.delete(&mut mvcc, b"key3".to_vec())?;
    tx3.commit(&mut mvcc)?;

    assert_eq!(tx2.get(&mut mvcc, b"key1".to_vec())?, Some(b"val1".to_vec()));
    assert_eq!(tx2.get(&mut mvcc, b"key2".to_vec())?, Some(b"val3".to_vec()));
    assert_eq!(tx2.get(&mut mvcc, b"key3".to_vec())?, Some(b"val4".to_vec()));
    Ok(())
}

fn load_six(mvcc: &mut Mvcc<MemoryEngine>) -> Result<(), Error> {
    let tx = mvcc.begin()?;
    tx.set(mvcc, b"aabb".to_vec(), b"val1".to_vec())?;
    tx.set(mvcc, b"abcc".to_vec(), b"val2".to_vec())?;
    tx.set(mvcc, b"bbaa".to_vec(), b"val3".to_vec())?;
    tx.set(mvcc, b"acca".to_vec(), b"val4".to_vec())?;
    tx.set(mvcc, b"aaca".to_vec(), b"val5".to_vec())?;
    tx.set(mvcc, b"bcca".to_vec(), b"val6".to_vec())?;
    tx.commit(mvcc)
}

#[test]
fn test_scan_prefix() -> Result<(), Error> {
    let mut mvcc = Mvcc::new(MemoryEngine::new());
    load_six(&mut mvcc)?;

    let tx1 = mvcc.begin()?;
    let iter1 = tx1.scan_prefix(&mut mvcc, b"aa".to_vec())?;
    assert_eq!(iter1, vec![sr(b"aabb", b"val1"), sr(b"aaca", b"val5")]);

    let iter2 = tx1.scan_prefix(&mut mvcc, b"a".to_vec())?;
    assert_eq!(
        iter2,
        vec![
            sr(b"aabb", b"val1"),
            sr(b"aaca", b"val5"),
            sr(b"abcc", b"val2"),
            sr(b"acca", b"val4"),
        ]
    );

    let iter3 = tx1.scan_prefix(&mut mvcc, b"bcca".to_vec())?;
    assert_eq!(iter3, vec![sr(b"bcca", b"val6")]);
    Ok(())
}

#[test]
fn test_scan_isolation() -> Result<(), Error> {
    let mut mvcc = Mvcc::new(MemoryEngine::new());
    load_six(&mut mvcc)?;

    let tx1 = mvcc.begin()?;
    let tx2 = mvcc.begin()?;
    tx2.set(&mut mvcc, b"acca".to_vec(), b"val4-1".to_vec())?;
    tx2.set(&mut mvcc, b"aabb".to_vec(), b"val1-1".to_vec())?;

    let tx3 = mvcc.begin()?;
    tx3.set(&mut mvcc, b"bbaa".to_vec(), b"val3-1".to_vec())?;
    tx3.delete(&mut mvcc, b"bcca".to_vec())?;
    tx3.commit(&mut mvcc)?;

    let iter1 = tx1.scan_prefix(&mut mvcc, b"aa".to_vec())?;
    assert_eq!(iter1, vec![sr(b"aabb", b"val1"), sr(b"aaca", b"val5")]);

    let iter2 = tx1.scan_prefix(&mut mvcc, b"a".to_vec())?;
    assert_eq!(
        iter2,
        vec![
            sr(b"aabb", b"val1"),
            sr(b"aaca", b"val5"),
            sr(b"abcc", b"val2"),
            sr(b"acca", b"val4"),
        ]
    );

    let iter3 = tx1.scan_prefix(&mut mvcc, b"bcca".to_vec())?;
    assert_eq!(iter3, vec![sr(b"bcca", b"val6")]);
    Ok(())
}

#[test]
fn test_set() -> Result<(), Error> {
    let mut mvcc = Mvcc::new(MemoryEngine::new());
    let tx = mvcc.begin()?;
    tx.set(&mut mvcc, b"key1".to_vec(), b"val1".to_vec())?;
    tx.set(&mut mvcc, b"key2".to_vec(), b"val2".to_vec())?;
    tx.set(&mut mvcc, b"key2".to_vec(), b"val3".to_vec())?;
    tx.set(&mut mvcc, b"key3".to_vec(), b"val4".to_vec())?;
    tx.set(&mut mvcc, b"key4".to_vec(), b"val5".to_vec())?;
    tx.commit(&mut mvcc)?;

    let tx1 = mvcc.begin()?;
    let tx2 = mvcc.begin()?;

    tx1.set(&mut mvcc, b"key1".to_vec(), b"val1-1".to_vec())?;
    tx1.set(&mut mvcc, b"key2".to_vec(), b"val3-1".to_vec())?;
    tx1.set(&mut mvcc, b"key2".to_vec(), b"val3-2".to_vec())?;

    tx2.set(&mut mvcc, b"key3".to_vec(), b"val4-1".to_vec())?;
    tx2.set(&mut mvcc, b"key4".to_vec(), b"val5-1".to_vec())?;

    tx1.commit(&mut mvcc)?;
    tx2.commit(&mut mvcc)?;

    let tx = mvcc.begin()?;
    assert_eq!(tx.get(&mut mvcc, b"key1".to_vec())?, Some(b"val1-1".to_vec()));
    assert_eq!(tx.get(&mut mvcc, b"key2".to_vec())?, Some(b"val3-2".to_vec()));
    assert_eq!(tx.get(&mut mvcc, b"key3".to_vec())?, Some(b"val4-1".to_vec()));
    assert_eq!(tx.get(&mut mvcc, b"key4".to_vec())?, Some(b"val5-1".to_vec()));
    Ok(())
}

#[test]
fn test_set_conflict() -> Result<(), Error> {
    let mut mvcc = Mvcc::new(MemoryEngine::new());
    let tx = mvcc.begin()?;
    tx.set(&mut mvcc, b"key1".to_vec(), b"val1".to_vec())?;
    tx.set(&mut mvcc, b"key2".to_vec(), b"val2".to_vec())?;
    tx.set(&mut mvcc, b"key2".to_vec(), b"val3".to_vec())?;
    tx.set(&mut mvcc, b"key3".to_vec(), b"val4".to_vec())?;
    tx.set(&mut mvcc, b"key4".to_vec(), b"val5".to_vec())?;
    tx.commit(&mut mvcc)?;

    let tx1 = mvcc.begin()?;
    let tx2 = mvcc.begin()?;

    tx1.set(&mut mvcc, b"key1".to_vec(), b"val1-1".to_vec())?;
    tx1.set(&mut mvcc, b"key1".to_vec(), b"val1-2".to_vec())?;

    assert_eq!(
        tx2.set(&mut mvcc, b"key1".to_vec(), b"val1-3".to_vec()),
        Err(Error::WriteConflict)
    );

    let tx3 = mvcc.begin()?;
    tx3.set(&mut mvcc, b"key5".to_vec(), b"val6".to_vec())?;
    tx3.commit(&mut mvcc)?;

    assert_eq!(
        tx1.set(&mut mvcc, b"key5".to_vec(), b"val6-1".to_vec()),
        Err(Error::WriteConflict)
    );

    tx1.commit(&mut mvcc)?;
    Ok(())
}

#[test]
fn test_delete() -> Result<(), Error> {
    let mut mvcc = Mvcc::new(MemoryEngine::new());
    let tx = mvcc.begin()?;
    tx.set(&mut mvcc, b"key1".to_vec(), b"val1".to_vec())?;
    tx.set(&mut mvcc, b"key2".to_vec(), b"val2".to_vec())?;
    tx.set(&mut mvcc, b"key3".to_vec(), b"val3".to_vec())?;
    tx.delete(&mut mvcc, b"key2".to_vec())?;
    tx.delete(&mut mvcc, b"key3".to_vec())?;
    tx.set(&mut mvcc, b"key3".to_vec(), b"val3-1".to_vec())?;
    tx.commit(&mut mvcc)?;

    let tx1 = mvcc.begin()?;
    assert_eq!(tx1.get(&mut mvcc, b"key2".to_vec())?, None);

    let iter = tx1.scan_prefix(&mut mvcc, b"ke".to_vec())?;
    assert_eq!(iter, vec![sr(b"key1", b"val1"), sr(b"key3", b"val3-1")]);
    Ok(())
}

#[test]
fn test_delete_conflict() -> Result<(), Error> {
    let mut mvcc = Mvcc::new(MemoryEngine::new());
    let tx = mvcc.begin()?;
    tx.set(&mut mvcc, b"key1".to_vec(), b"val1".to_vec())?;
    tx.set(&mut mvcc, b"key2".to_vec(), b"val2".to_vec())?;
    tx.commit(&mut mvcc)?;

    let tx1 = mvcc.begin()?;
    let tx2 = mvcc.begin()?;
    tx1.delete(&mut mvcc, b"key1".to_vec())?;
    tx1.set(&mut mvcc, b"key2".to_vec(), b"val2-1".to_vec())?;

    assert_eq!(tx2.delete(&mut mvcc, b"key1".to_vec()), Err(Error::WriteConflict));
    assert_eq!(tx2.delete(&mut mvcc, b"key2".to_vec()), Err(Error::WriteConflict));
    Ok(())
}

fn load_three(mvcc: &mut Mvcc<MemoryEngine>) -> Result<(), Error> {
    let tx = mvcc.begin()?;
    tx.set(mvcc, b"key1".to_vec(), b"val1".to_vec())?;
    tx.set(mvcc, b"key2".to_vec(), b"val2".to_vec())?;
    tx.set(mvcc, b"key3".to_vec(), b"val3".to_vec())?;
    tx.commit(mvcc)
}

#[test]
fn test_dirty_read() -> Result<(), Error> {
    let mut mvcc = Mvcc::new(MemoryEngine::new());
    load_three(&mut mvcc)?;

    let tx1 = mvcc.begin()?;
    let tx2 = mvcc.begin()?;

    tx2.set(&mut mvcc, b"key1".to_vec(), b"val1-1".to_vec())?;
    assert_eq!(tx1.get(&mut mvcc, b"key1".to_vec())?, Some(b"val1".to_vec()));
    Ok(())
}

#[test]
fn test_unrepeatable_read() -> Result<(), Error> {
    let mut mvcc = Mvcc::new(MemoryEngine::new());
    load_three(&mut mvcc)?;

    let tx1 = mvcc.begin()?;
    let tx2 = mvcc.begin()?;

    tx2.set(&mut mvcc, b"key1".to_vec(), b"val1-1".to_vec())?;
    assert_eq!(tx1.get(&mut mvcc, b"key1".to_vec())?, Some(b"val1".to_vec()));
    tx2.commit(&mut mvcc)?;
    assert_eq!(tx1.get(&mut mvcc, b"key1".to_vec())?, Some(b"val1".to_vec()));
    Ok(())
}

#[test]
fn test_phantom_read() -> Result<(), Error> {
    let mut mvcc = Mvcc::new(MemoryEngine::new());
    load_three(&mut mvcc)?;

    let tx1 = mvcc.begin()?;
    let tx2 = mvcc.begin()?;

    let iter1 = tx1.scan_prefix(&mut mvcc, b"key".to_vec())?;
    assert_eq!(
        iter1,
        vec![sr(b"key1", b"val1"), sr(b"key2", b"val2"), sr(b"key3", b"val3")]
    );

    tx2.set(&mut mvcc, b"key2".to_vec(), b"val2-1".to_vec())?;
    tx2.set(&mut mvcc, b"key4".to_vec(), b"val4".to_vec())?;
    tx2.commit(&mut mvcc)?;

    let iter1 = tx1.scan_prefix(&mut mvcc, b"key".to_vec())?;
    assert_eq!(
        iter1,
        vec![sr(b"key1", b"val1"), sr(b"key2", b"val2"), sr(b"key3", b"val3")]
    );
    Ok(())
}

#[test]
fn test_rollback() -> Result<(), Error> {
    let mut mvcc = Mvcc::new(MemoryEngine::new());
    load_three(&mut mvcc)?;

    let tx1 = mvcc.begin()?;
    tx1.set(&mut mvcc, b"key1".to_vec(), b"val1-1".to_vec())?;
    tx1.set(&mut mvcc, b"key2".to_vec(), b"val2-1".to_vec())?;
    tx1.set(&mut mvcc, b"key3".to_vec(), b"val3-1".to_vec())?;
    tx1.rollback(&mut mvcc)?;

    let tx2 = mvcc.begin()?;
    assert_eq!(tx2.get(&mut mvcc, b"key1".to_vec())?, Some(b"val1".to_vec()));
    assert_eq!(tx2.get(&mut mvcc, b"key2".to_vec())?, Some(b"val2".to_vec()));
    assert_eq!(tx2.get(&mut mvcc, b"key3".to_vec())?, Some(b"val3".to_vec()));
    Ok(())
}

#[test]
fn rollback_scenario_keeps_committed_value() -> Result<(), Error> {
    let mut mvcc = Mvcc::new(MemoryEngine::new());
    let t = mvcc.begin()?;
    t.set(&mut mvcc, b"k".to_vec(), b"a".to_vec())?;
    t.commit(&mut mvcc)?;
    let t1 = mvcc.begin()?;
    t1.set(&mut mvcc, b"k".to_vec(), b"b".to_vec())?;
    t1.rollback(&mut mvcc)?;
    let t2 = mvcc.begin()?;
    assert_eq!(t2.get(&mut mvcc, b"k".to_vec())?, Some(b"a".to_vec()));
    Ok(())
}

#[test]
fn write_conflict_scenario() -> Result<(), Error> {
    let mut mvcc = Mvcc::new(MemoryEngine::new());
    load_three(&mut mvcc)?;
    let t1 = mvcc.begin()?;
    let t2 = mvcc.begin()?;
    t1.set(&mut mvcc, b"key1".to_vec(), b"v".to_vec())?;
    assert_eq!(t2.set(&mut mvcc, b"key1".to_vec(), b"w".to_vec()), Err(Error::WriteConflict));
    Ok(())
}

#[test]
fn own_writes_are_visible_and_versions_count_up() -> Result<(), Error> {
    let mut mvcc = Mvcc::new(MemoryEngine::new());
    let t1 = mvcc.begin()?;
    let t2 = mvcc.begin()?;
    assert_eq!(t1.version(), 1);
    assert_eq!(t2.version(), 2);
    assert_eq!(t2.active_versions(), vec![1]);
    t2.set(&mut mvcc, b"x".to_vec(), b"1".to_vec())?;
    assert_eq!(t2.get(&mut mvcc, b"x".to_vec())?, Some(b"1".to_vec()));
    assert_eq!(t1.get(&mut mvcc, b"x".to_vec())?, None);
    Ok(())
}

#[test]
fn commits_past_version_255_keep_other_versions() -> Result<(), Error> {
    let mut mvcc = Mvcc::new(MemoryEngine::new());
    let t = mvcc.begin()?;
    t.set(&mut mvcc, b"k".to_vec(), b"first".to_vec())?;
    t.commit(&mut mvcc)?;
    for i in 0..600u32 {
        let tx = mvcc.begin()?;
        if tx.version() % 256 == 255 {
            tx.set(&mut mvcc, b"other".to_vec(), i.to_be_bytes().to_vec())?;
            if (tx.version() / 256) % 2 == 0 {
                tx.commit(&mut mvcc)?;
            } else {
                tx.rollback(&mut mvcc)?;
            }
        } else {
            tx.commit(&mut mvcc)?;
        }
    }
    let r = mvcc.begin()?;
    assert!(r.version() > 600);
    assert_eq!(r.get(&mut mvcc, b"k".to_vec())?, Some(b"first".to_vec()));
    assert!(r.get(&mut mvcc, b"other".to_vec())?.is_some());
    Ok(())
}
