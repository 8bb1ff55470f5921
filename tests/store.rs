use kvs::codec::encode_command;
use kvs::enums::WriteCommand;
use kvs::errors::{KvsCommandError, KvsError};
use kvs::kvs::{DiskOp, KvStore, Segment};
use std::collections::BTreeMap;

fn apply(dir: &mut BTreeMap<u64, Vec<u8>>, ops: Vec<DiskOp>) {
    for op in ops {
        match op {
            DiskOp::Create(id) => {
                dir.insert(id, Vec::new());
            }
            DiskOp::Append(id, bytes) => {
                dir.get_mut(&id).expect("append to a created segment").extend(bytes);
            }
            DiskOp::Delete(id) => {
                dir.remove(&id);
            }
        }
    }
}

fn segments_of(dir: &BTreeMap<u64, Vec<u8>>) -> Vec<Segment> {
    dir.iter()
        .map(|(id, data)| Segment { id: *id, data: data.clone() })
        .collect()
}

fn put_len(k: &str, v: &str) -> u64 {
    encode_command(&WriteCommand::Put(k.to_string(), v.to_string())).len() as u64
}

#[test]
fn empty_store_scenario() {
    let mut st = KvStore::open(&Vec::new(), Vec::new(), 1000).unwrap();
    assert!(st.set("a".to_string(), "1".to_string()).is_ok());
    assert_eq!(st.get("a".to_string()).unwrap(), Some("1".to_string()));
    assert!(st.remove("a".to_string()).is_ok());
    assert_eq!(st.get("a".to_string()).unwrap(), None);
    assert!(matches!(
        st.remove("a".to_string()),
        Err(KvsError::Command(KvsCommandError::KeyNotFound))
    ));
}

#[test]
fn set_then_get_returns_value() {
    let mut st = KvStore::open(&Vec::new(), Vec::new(), 1).unwrap();
    let pairs = [("k", "v"), ("key with", "spaces ok"), ("ключ", "значение"), ("", "empty key"), ("e", "")];
    for (k, v) in pairs.iter() {
        st.set(k.to_string(), v.to_string()).unwrap();
        assert_eq!(st.get(k.to_string()).unwrap(), Some(v.to_string()));
    }
    assert_eq!(st.get("missing".to_string()).unwrap(), None);
}

#[test]
fn remove_leaves_tombstone() {
    let mut st = KvStore::open(&Vec::new(), Vec::new(), 7).unwrap();
    st.set("big".to_string(), "x".repeat(200)).unwrap();
    st.set("k".to_string(), "v".to_string()).unwrap();
    st.remove("k".to_string()).unwrap();
    assert_eq!(st.get("k".to_string()).unwrap(), None);
    assert_eq!(st.active_segment(), 7);
    assert_eq!(st.index_len(), 2);
    assert!(matches!(
        st.remove("k".to_string()),
        Err(KvsError::Command(KvsCommandError::KeyNotFound))
    ));
    assert!(matches!(
        st.remove("never".to_string()),
        Err(KvsError::Command(KvsCommandError::KeyNotFound))
    ));
}

#[test]
fn compaction_drops_tombstones() {
    let mut st = KvStore::open(&Vec::new(), Vec::new(), 7).unwrap();
    st.set("k".to_string(), "v".to_string()).unwrap();
    st.remove("k".to_string()).unwrap();
    assert_eq!(st.active_segment(), 8);
    assert_eq!(st.index_len(), 0);
    assert_eq!(st.total_bytes(), 0);
    assert_eq!(st.get("k".to_string()).unwrap(), None);
}

#[test]
fn overwrite_keeps_one_entry() {
    let mut st = KvStore::open(&Vec::new(), Vec::new(), 7).unwrap();
    st.set("k".to_string(), "v1".to_string()).unwrap();
    st.set("k".to_string(), "v2".to_string()).unwrap();
    assert_eq!(st.get("k".to_string()).unwrap(), Some("v2".to_string()));
    assert_eq!(st.index_len(), 1);
}

#[test]
fn waste_accounting_counts_superseded_records() {
    let mut st = KvStore::open(&Vec::new(), Vec::new(), 7).unwrap();
    st.set("key".to_string(), "first-value".to_string()).unwrap();
    assert_eq!(st.total_bytes(), put_len("key", "first-value"));
    assert_eq!(st.wasted_bytes(), 0);
    st.set("other".to_string(), "x".repeat(100)).unwrap();
    st.set("key".to_string(), "second".to_string()).unwrap();
    assert_eq!(st.wasted_bytes(), put_len("key", "first-value"));
    assert_eq!(
        st.total_bytes(),
        put_len("key", "first-value") + put_len("other", &"x".repeat(100)) + put_len("key", "second")
    );
}

#[test]
fn reopen_recovers_last_values() {
    let mut dir = BTreeMap::new();
    let mut st = KvStore::open(&Vec::new(), Vec::new(), 500).unwrap();
    apply(&mut dir, st.take_disk_ops());
    for i in 0..50 {
        st.set(format!("key{}", i), format!("value{}", i)).unwrap();
    }
    for i in 0..50 {
        st.set(format!("key{}", i), format!("newer{}", i)).unwrap();
    }
    st.remove("key3".to_string()).unwrap();
    apply(&mut dir, st.take_disk_ops());
    let mut again = KvStore::open(&Vec::new(), segments_of(&dir), 10).unwrap();
    assert!(again.active_segment() > *dir.keys().last().unwrap());
    for i in (0..50).rev() {
        let got = again.get(format!("key{}", i)).unwrap();
        if i == 3 {
            assert_eq!(got, None);
        } else {
            assert_eq!(got, Some(format!("newer{}", i)));
        }
    }
    apply(&mut dir, again.take_disk_ops());
    again.set("fresh".to_string(), "1".to_string()).unwrap();
    apply(&mut dir, again.take_disk_ops());
    let third = KvStore::open(&Vec::new(), segments_of(&dir), 10).unwrap();
    assert_eq!(third.get("fresh".to_string()).unwrap(), Some("1".to_string()));
    assert_eq!(third.get("key7".to_string()).unwrap(), Some("newer7".to_string()));
}

#[test]
fn compaction_keeps_values_and_shrinks_log() {
    let mut dir = BTreeMap::new();
    let mut st = KvStore::open(&Vec::new(), Vec::new(), 100).unwrap();
    apply(&mut dir, st.take_disk_ops());
    let first_segment = st.active_segment();
    for round in 0..20 {
        st.set("a".to_string(), format!("a{}", round)).unwrap();
        st.set("b".to_string(), format!("b{}", round)).unwrap();
        assert!(4 * st.wasted_bytes() <= st.total_bytes());
    }
    st.set("gone".to_string(), "x".to_string()).unwrap();
    st.remove("gone".to_string()).unwrap();
    assert!(st.active_segment() > first_segment);
    assert_eq!(st.get("a".to_string()).unwrap(), Some("a19".to_string()));
    assert_eq!(st.get("b".to_string()).unwrap(), Some("b19".to_string()));
    assert_eq!(st.get("gone".to_string()).unwrap(), None);
    apply(&mut dir, st.take_disk_ops());
    let on_disk: u64 = dir.values().map(|d| d.len() as u64).sum();
    assert_eq!(on_disk, st.total_bytes());
    let reopened = KvStore::open(&Vec::new(), segments_of(&dir), 1).unwrap();
    assert_eq!(reopened.get("a".to_string()).unwrap(), Some("a19".to_string()));
    assert_eq!(reopened.get("gone".to_string()).unwrap(), None);
}

#[test]
fn compaction_writes_only_live_records() {
    let mut dir = BTreeMap::new();
    let mut st = KvStore::open(&Vec::new(), Vec::new(), 100).unwrap();
    apply(&mut dir, st.take_disk_ops());
    st.set("a".to_string(), "1".to_string()).unwrap();
    st.set("b".to_string(), "2".to_string()).unwrap();
    st.set("a".to_string(), "3".to_string()).unwrap();
    assert_eq!(st.active_segment(), 101);
    assert_eq!(st.wasted_bytes(), 0);
    assert_eq!(st.total_bytes(), put_len("b", "2") + put_len("a", "3"));
    apply(&mut dir, st.take_disk_ops());
    assert_eq!(dir.len(), 1);
    assert_eq!(dir.values().next().unwrap().len() as u64, st.total_bytes());
}

#[test]
fn open_rejects_corrupt_segment() {
    let mut data = encode_command(&WriteCommand::Put("k".to_string(), "v".to_string()));
    data.push(0x53);
    let seg = Segment { id: 5, data };
    assert!(matches!(
        KvStore::open(&Vec::new(), vec![seg], 9),
        Err(KvsError::Corrupt { segment: 5, offset: 19 })
    ));
    let bad_tag = Segment { id: 6, data: vec![0x00] };
    assert!(matches!(KvStore::open(&Vec::new(), vec![bad_tag], 9), Err(KvsError::Corrupt { segment: 6, offset: 0 })));
}

#[test]
fn open_rejects_unordered_segments() {
    let a = Segment { id: 9, data: Vec::new() };
    let b = Segment { id: 3, data: Vec::new() };
    assert!(matches!(KvStore::open(&Vec::new(), vec![a, b], 1), Err(KvsError::SegmentOrder)));
    let c = Segment { id: 4, data: Vec::new() };
    let d = Segment { id: 4, data: Vec::new() };
    assert!(matches!(KvStore::open(&Vec::new(), vec![c, d], 1), Err(KvsError::SegmentOrder)));
}

#[test]
fn later_segment_wins_on_replay() {
    let s1 = Segment { id: 1, data: encode_command(&WriteCommand::Put("k".to_string(), "old".to_string())) };
    let s2 = Segment { id: 2, data: encode_command(&WriteCommand::Put("k".to_string(), "new".to_string())) };
    let mut s3_data = encode_command(&WriteCommand::Put("t".to_string(), "x".to_string()));
    s3_data.extend(encode_command(&WriteCommand::Remove("t".to_string())));
    let s3 = Segment { id: 3, data: s3_data };
    let st = KvStore::open(&Vec::new(), vec![s1, s2, s3], 2).unwrap();
    assert_eq!(st.get("k".to_string()).unwrap(), Some("new".to_string()));
    assert_eq!(st.get("t".to_string()).unwrap(), None);
    assert_eq!(st.active_segment(), 4);
    assert_eq!(st.wasted_bytes(), put_len("k", "old") + put_len("t", "x"));
}

#[test]
fn open_uses_clock_for_new_segment() {
    let st = KvStore::open(&Vec::new(), vec![Segment { id: 10, data: Vec::new() }], 1_700_000_000_000_000).unwrap();
    assert_eq!(st.active_segment(), 1_700_000_000_000_000);
}
