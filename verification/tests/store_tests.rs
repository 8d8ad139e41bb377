use kvs::codec::Command;
use kvs::codec::Decoded;
use kvs::codec::decode_command;
use kvs::codec::encode_command;
use kvs::store::KvStore;
use kvs::store::Segment;
use kvs::ErrorKind;

fn fresh_store() -> KvStore {
    KvStore::open(Vec::new()).unwrap()
}

#[test]
fn simple_round_trip() {
    let mut kv = fresh_store();
    kv.set("key1".to_string(), "v1".to_string()).unwrap();
    assert_eq!(kv.get("key1".to_string()).unwrap(), Some("v1".to_string()));
}

#[test]
fn overwrite_keeps_both_records_until_compaction() {
    let mut kv = fresh_store();
    kv.set("k".to_string(), "a".to_string()).unwrap();
    kv.set("k".to_string(), "b".to_string()).unwrap();
    assert_eq!(kv.get("k".to_string()).unwrap(), Some("b".to_string()));

    // the log physically holds both writes before compaction
    let data = kv.segment_bytes(0);
    let mut pos = 0usize;
    let mut records = 0usize;
    loop {
        match decode_command(&data, pos) {
            Decoded::Record(cmd, end) => {
                match cmd {
                    Command::Put { key, .. } => assert_eq!(key, "k".to_string()),
                    Command::Remove { .. } => panic!("unexpected tombstone"),
                }
                records += 1;
                pos = end;
            }
            Decoded::End => break,
            _ => panic!("log should parse cleanly"),
        }
    }
    assert_eq!(records, 2);
}

#[test]
fn remove_then_query() {
    let mut kv = fresh_store();
    kv.set("k".to_string(), "v".to_string()).unwrap();
    kv.remove("k".to_string()).unwrap();
    assert_eq!(kv.get("k".to_string()).unwrap(), None);
    let second = kv.remove("k".to_string());
    assert_eq!(second.unwrap_err().kind(), ErrorKind::KeyNotFound);
}

#[test]
fn remove_absent_key_appends_nothing() {
    let mut kv = fresh_store();
    kv.set("a".to_string(), "1".to_string()).unwrap();
    let before = kv.segment_len(0);
    let r = kv.remove("missing".to_string());
    assert_eq!(r.unwrap_err().kind(), ErrorKind::KeyNotFound);
    assert_eq!(kv.segment_len(0), before);
}

#[test]
fn restart_persistence() {
    let mut kv = fresh_store();
    kv.set("k1".to_string(), "v1".to_string()).unwrap();
    kv.set("k2".to_string(), "v2".to_string()).unwrap();
    kv.remove("k1".to_string()).unwrap();
    let snapshot = kv.snapshot();

    let reopened = KvStore::open(snapshot).unwrap();
    assert_eq!(reopened.get("k1".to_string()).unwrap(), None);
    assert_eq!(reopened.get("k2".to_string()).unwrap(), Some("v2".to_string()));
}

#[test]
fn open_empty_directory() {
    let kv = fresh_store();
    assert_eq!(kv.get("anything".to_string()).unwrap(), None);
    assert_eq!(kv.current_gen(), 0);
}

#[test]
fn open_tolerates_truncated_trailing_record() {
    let whole = encode_command(&Command::Put { key: "k".to_string(), value: "v".to_string() });
    let partial = encode_command(&Command::Put {
        key: "half".to_string(),
        value: "gone".to_string(),
    });
    let mut data = whole.clone();
    data.extend_from_slice(&partial[..partial.len() / 2]);

    let mut kv = KvStore::open(vec![Segment { gen: 0, data }]).unwrap();
    assert_eq!(kv.get("k".to_string()).unwrap(), Some("v".to_string()));
    assert_eq!(kv.get("half".to_string()).unwrap(), None);

    // later writes extend a fresh segment and are readable
    kv.set("new".to_string(), "value".to_string()).unwrap();
    assert_eq!(kv.get("new".to_string()).unwrap(), Some("value".to_string()));
}

#[test]
fn open_rejects_corrupt_segment() {
    let data = vec![9u8, 1, 2, 3];
    let r = KvStore::open(vec![Segment { gen: 0, data }]);
    assert_eq!(r.err().unwrap().kind(), ErrorKind::CorruptedLog);
}

#[test]
fn crossing_threshold_compacts_during_set() {
    let mut kv = fresh_store();
    let big = "x".repeat(1 << 20);
    let gen_before = kv.current_gen();
    // each overwrite turns about a mebibyte into garbage
    for _ in 0..6 {
        kv.set("hot".to_string(), big.clone()).unwrap();
        assert!(kv.garbage() <= 4 * 1024 * 1024);
    }
    assert!(kv.current_gen() > gen_before);
    assert_eq!(kv.get("hot".to_string()).unwrap(), Some(big));
}

#[test]
fn compaction_shrinks_disk_and_keeps_answers() {
    let mut kv = fresh_store();
    let big = "y".repeat(512 * 1024);
    for round in 0..12 {
        for key in ["a", "b", "c"] {
            let value = format!("{}-{}", big, round);
            kv.set(key.to_string(), value).unwrap();
        }
    }
    let mut before = 0usize;
    for i in 0..kv.num_segments() {
        before += kv.segment_len(i);
    }
    let gen_before = kv.current_gen();
    kv.merge().unwrap();
    assert_eq!(kv.current_gen(), gen_before + 2);
    assert_eq!(kv.num_segments(), 2);
    assert_eq!(kv.garbage(), 0);
    let mut after = 0usize;
    for i in 0..kv.num_segments() {
        after += kv.segment_len(i);
    }
    assert!(after < before);
    for key in ["a", "b", "c"] {
        let expected = format!("{}-{}", big, 11);
        assert_eq!(kv.get(key.to_string()).unwrap(), Some(expected));
    }
    // every index entry now points at the merged generation
    assert_eq!(kv.segment_gen(0), gen_before + 1);
    assert_eq!(kv.segment_gen(1), gen_before + 2);
}

#[test]
fn replay_order_lets_newest_segment_win() {
    let older = encode_command(&Command::Put { key: "k".to_string(), value: "old".to_string() });
    let newer = encode_command(&Command::Put { key: "k".to_string(), value: "new".to_string() });
    let segments = vec![Segment { gen: 3, data: older }, Segment { gen: 7, data: newer }];
    let kv = KvStore::open(segments).unwrap();
    assert_eq!(kv.get("k".to_string()).unwrap(), Some("new".to_string()));
    assert_eq!(kv.current_gen(), 8);
}

#[test]
fn tombstone_survives_restart() {
    let put = encode_command(&Command::Put { key: "k".to_string(), value: "v".to_string() });
    let mut data = put;
    let rm = encode_command(&Command::Remove { key: "k".to_string() });
    data.extend_from_slice(&rm);
    let kv = KvStore::open(vec![Segment { gen: 0, data }]).unwrap();
    assert_eq!(kv.get("k".to_string()).unwrap(), None);
}

#[test]
fn gen_of_filename_accepts_segment_names() {
    assert_eq!(kvs::store::gen_of_filename("gen-0.log"), Some(0));
    assert_eq!(kvs::store::gen_of_filename("gen-12.log"), Some(12));
    assert_eq!(kvs::store::gen_of_filename("gen-18446744073709551615.log"), Some(u64::MAX));
}

#[test]
fn garbage_counts_exactly_the_superseded_record() {
    let mut kv = fresh_store();
    kv.set("k".to_string(), "a".to_string()).unwrap();
    let first_len = kv.segment_len(0);
    assert_eq!(kv.garbage(), 0);
    kv.set("k".to_string(), "bb".to_string()).unwrap();
    // the first record was superseded whole
    assert_eq!(kv.garbage(), first_len as u64);
    kv.remove("k".to_string()).unwrap();
    // the second record is tombstoned too
    let second_len = kv.segment_len(0) - first_len - 10;
    assert_eq!(kv.garbage(), (first_len + second_len) as u64);
}

#[test]
fn recovery_recounts_the_same_garbage() {
    let mut kv = fresh_store();
    kv.set("k".to_string(), "a".to_string()).unwrap();
    kv.set("k".to_string(), "b".to_string()).unwrap();
    kv.set("other".to_string(), "c".to_string()).unwrap();
    kv.remove("other".to_string()).unwrap();
    let reopened = KvStore::open(kv.snapshot()).unwrap();
    assert_eq!(reopened.garbage(), kv.garbage());
}

#[test]
fn filenames_give_a_sorted_deduplicated_generation_list() {
    let names = vec![
        "gen-7.log".to_string(),
        "notes.txt".to_string(),
        "gen-2.log".to_string(),
        "gen-7.log".to_string(),
        "gen-0.log".to_string(),
        "epoch-5.log".to_string(),
    ];
    let gens = kvs::store::gens_of_filenames(&names);
    assert_eq!(gens, vec![0, 2, 7]);
}

#[test]
fn gen_of_filename_rejects_other_names() {
    assert_eq!(kvs::store::gen_of_filename("epoch-1.log"), None);
    assert_eq!(kvs::store::gen_of_filename("gen-.log"), None);
    assert_eq!(kvs::store::gen_of_filename("gen-1.txt"), None);
    assert_eq!(kvs::store::gen_of_filename("gen-1x.log"), None);
    assert_eq!(kvs::store::gen_of_filename("gen-18446744073709551616.log"), None);
    assert_eq!(kvs::store::gen_of_filename(""), None);
}
