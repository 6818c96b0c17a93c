//! Scenario tests for the storage engine, driving it the way the file
//! shell does: every returned operation is mirrored onto an in-memory
//! "directory" of segment file contents, and reopening reads that mirror.

use kvs::{Error, KvStore, SegmentOp};

fn mirror(disk: &mut Vec<String>, ops: Vec<SegmentOp>) {
    for op in ops {
        match op {
            SegmentOp::Append { seg, data } => {
                let i = seg as usize;
                assert!(i < disk.len(), "append to a segment that was never created");
                disk[i].push_str(&data);
            },
            SegmentOp::Create { seg } => {
                assert_eq!(seg as usize, disk.len(), "segments must be created in order");
                disk.push(String::new());
            },
            SegmentOp::Rewrite { seg, data } => {
                let i = seg as usize;
                assert!(i < disk.len());
                disk[i] = data;
            },
            SegmentOp::Collapse { data } => {
                disk.clear();
                disk.push(data);
            },
        }
    }
}

fn open_mirrored(disk: &mut Vec<String>) -> KvStore {
    let (store, ops) = KvStore::open(disk.clone()).expect("directory should open");
    mirror(disk, ops);
    store
}

fn set(store: &mut KvStore, disk: &mut Vec<String>, k: &str, v: &str) {
    let ops = store.set(k.to_string(), v.to_string()).expect("set should succeed");
    mirror(disk, ops);
}

fn get(store: &KvStore, k: &str) -> Option<String> {
    store.get(k.to_string()).expect("get should succeed")
}

#[test]
fn fresh_store_lifecycle() {
    let mut disk: Vec<String> = Vec::new();
    let mut store = open_mirrored(&mut disk);
    assert_eq!(disk.len(), 1);
    assert_eq!(get(&store, "x"), None);
    set(&mut store, &mut disk, "x", "1");
    assert_eq!(get(&store, "x"), Some("1".to_string()));
    let ops = store.remove("x".to_string()).expect("remove of a present key succeeds");
    mirror(&mut disk, ops);
    assert_eq!(get(&store, "x"), None);
    assert!(matches!(store.remove("x".to_string()), Err(Error::KeyNotFound)));
}

#[test]
fn overwrite_keeps_last_value() {
    let mut disk: Vec<String> = Vec::new();
    let mut store = open_mirrored(&mut disk);
    set(&mut store, &mut disk, "k", "v1");
    set(&mut store, &mut disk, "k", "v2");
    assert_eq!(get(&store, "k"), Some("v2".to_string()));
}

#[test]
fn reopen_preserves_values() {
    let mut disk: Vec<String> = Vec::new();
    let mut store = open_mirrored(&mut disk);
    set(&mut store, &mut disk, "k", "v1");
    drop(store);

    let mut store = open_mirrored(&mut disk);
    assert_eq!(get(&store, "k"), Some("v1".to_string()));
    set(&mut store, &mut disk, "k", "v2");
    drop(store);

    let store = open_mirrored(&mut disk);
    assert_eq!(get(&store, "k"), Some("v2".to_string()));
}

#[test]
fn reopen_after_removals_matches() {
    let mut disk: Vec<String> = Vec::new();
    let mut store = open_mirrored(&mut disk);
    set(&mut store, &mut disk, "a", "1");
    set(&mut store, &mut disk, "b", "2");
    set(&mut store, &mut disk, "c", "3");
    let ops = store.remove("b".to_string()).expect("b is present");
    mirror(&mut disk, ops);
    set(&mut store, &mut disk, "a", "4");
    drop(store);

    let store = open_mirrored(&mut disk);
    assert_eq!(get(&store, "a"), Some("4".to_string()));
    assert_eq!(get(&store, "b"), None);
    assert_eq!(get(&store, "c"), Some("3".to_string()));
}

#[test]
fn many_distinct_keys_roll_over_segments() {
    let mut disk: Vec<String> = Vec::new();
    let mut store = open_mirrored(&mut disk);
    let value = "v".repeat(200);
    let count = 10_000;
    for i in 0..count {
        set(&mut store, &mut disk, &format!("key{:05}", i), &value);
    }
    assert!(disk.len() >= 2, "a multi-megabyte workload must span several segments");
    for i in 0..count {
        assert_eq!(get(&store, &format!("key{:05}", i)), Some(value.clone()));
    }
    drop(store);
    let store = open_mirrored(&mut disk);
    for i in (0..count).step_by(97) {
        assert_eq!(get(&store, &format!("key{:05}", i)), Some(value.clone()));
    }
}

#[test]
fn repeated_overwrites_stay_compact() {
    let mut disk: Vec<String> = Vec::new();
    let mut store = open_mirrored(&mut disk);
    let count = 100_000;
    for i in 0..count {
        set(&mut store, &mut disk, "a", &format!("{}", i));
    }
    assert_eq!(get(&store, "a"), Some(format!("{}", count - 1)));
    let mut ops = Vec::new();
    store.compact(&mut ops);
    mirror(&mut disk, ops);
    assert_eq!(disk.len(), 1, "compaction leaves a single segment");
    let live: usize = disk.iter().map(|f| f.len()).sum();
    assert!(live < 20 * 1024 * 1024, "live size stays bounded, was {}", live);
    assert!(live < 1024, "one live record is small, was {}", live);
    assert_eq!(get(&store, "a"), Some(format!("{}", count - 1)));
    drop(store);
    let store = open_mirrored(&mut disk);
    assert_eq!(get(&store, "a"), Some(format!("{}", count - 1)));
}

#[test]
fn compaction_preserves_every_answer() {
    let mut disk: Vec<String> = Vec::new();
    let mut store = open_mirrored(&mut disk);
    for i in 0..100 {
        set(&mut store, &mut disk, &format!("k{}", i), &format!("v{}", i));
    }
    let ops = store.remove("k7".to_string()).expect("k7 is present");
    mirror(&mut disk, ops);
    let mut ops = Vec::new();
    store.compact(&mut ops);
    mirror(&mut disk, ops);
    assert_eq!(disk.len(), 1);
    assert_eq!(get(&store, "k7"), None);
    for i in 0..100 {
        if i != 7 {
            assert_eq!(get(&store, &format!("k{}", i)), Some(format!("v{}", i)));
        }
    }
    drop(store);
    let store = open_mirrored(&mut disk);
    assert_eq!(get(&store, "k42"), Some("v42".to_string()));
}

#[test]
fn torn_tail_of_active_segment_is_dropped() {
    let mut disk: Vec<String> = Vec::new();
    let mut store = open_mirrored(&mut disk);
    set(&mut store, &mut disk, "a", "1");
    set(&mut store, &mut disk, "b", "2");
    drop(store);
    let whole = disk.last().unwrap().clone();
    disk.last_mut().unwrap().push_str("{\"Set\":{\"key\":\"c\",\"va");

    let store = open_mirrored(&mut disk);
    assert_eq!(disk.last().unwrap(), &whole, "the torn tail is trimmed away on disk too");
    assert_eq!(get(&store, "a"), Some("1".to_string()));
    assert_eq!(get(&store, "b"), Some("2".to_string()));
    assert_eq!(get(&store, "c"), None);
}

#[test]
fn corruption_in_a_sealed_segment_is_fatal() {
    let disk = vec!["{\"Set\":{\"key\":\"a\",\"va".to_string(), String::new()];
    match KvStore::open(disk) {
        Err(Error::SerdeError(_)) => {},
        other => panic!("expected a corruption error, got {:?}", other.map(|_| ())),
    }
}

#[test]
fn undecodable_complete_frame_is_fatal() {
    let disk = vec!["this is not a record#".to_string()];
    match KvStore::open(disk) {
        Err(Error::SerdeError(_)) => {},
        other => panic!("expected a corruption error, got {:?}", other.map(|_| ())),
    }
}

#[test]
fn stray_get_record_in_the_log_is_skipped() {
    let disk = vec![
        "{\"Set\":{\"key\":\"a\",\"value\":\"1\"}}#{\"Get\":{\"key\":\"a\"}}#{\"Set\":{\"key\":\"b\",\"value\":\"2\"}}#"
            .to_string(),
    ];
    let (store, ops) = KvStore::open(disk).expect("a log with a Get frame still opens");
    assert!(ops.is_empty());
    assert_eq!(get(&store, "a"), Some("1".to_string()));
    assert_eq!(get(&store, "b"), Some("2".to_string()));
}

#[test]
fn error_messages_are_stable() {
    assert_eq!(Error::KeyNotFound.message(), "Key not found");
    assert_eq!(
        Error::EngineMismatch.message(),
        "data was previously persisted with a different engine than selected"
    );
}
