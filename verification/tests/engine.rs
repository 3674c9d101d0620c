use kvs::record::decode;
use kvs::record::encode;
use kvs::CommandBuffer;
use kvs::Index;
use kvs::KvError;
use kvs::KvStore;
use kvs::Record;

fn fresh_store() -> KvStore {
    KvStore::open(String::new()).expect("an empty log must open")
}

#[test]
fn record_round_trip_put() {
    let r = Record::Put {
        key: "a".to_string(),
        value: "1".to_string(),
    };
    let line = encode(&r);
    assert_eq!(decode(line.as_str()).unwrap(), r);
}

#[test]
fn record_round_trip_remove() {
    let r = Record::Remove {
        key: "some key".to_string(),
    };
    let line = encode(&r);
    assert_eq!(decode(line.as_str()).unwrap(), r);
}

#[test]
fn record_round_trip_escapes() {
    let r = Record::Put {
        key: "a\tb\\c".to_string(),
        value: "line one\nline two\t\\".to_string(),
    };
    let line = encode(&r);
    assert!(!line.contains('\n'));
    assert_eq!(decode(line.as_str()).unwrap(), r);
}

#[test]
fn record_wire_form_is_tagged_and_tab_separated() {
    let r = Record::Put {
        key: "a".to_string(),
        value: "1".to_string(),
    };
    assert_eq!(encode(&r), "S\ta\t1");
    let t = Record::Remove {
        key: "a".to_string(),
    };
    assert_eq!(encode(&t), "R\ta");
}

#[test]
fn decode_rejects_malformed_lines() {
    for bad in [
        "",
        "S",
        "X\ta\t1",
        "S\ta",
        "S\ta\t1\t2",
        "R\ta\tb",
        "S\ta\\q\t1",
        "S\ta\\",
        "R\ta\\",
        "S\ta\nb\t1",
    ] {
        assert_eq!(decode(bad), Err(KvError::InvalidLogCommand), "input: {:?}", bad);
    }
}

#[test]
fn write_then_read() {
    let mut s = fresh_store();
    s.set("k".to_string(), "v".to_string()).unwrap();
    assert_eq!(s.get("k".to_string()).unwrap(), Some("v".to_string()));
}

#[test]
fn get_missing_key_is_not_an_error() {
    let s = fresh_store();
    assert_eq!(s.get("nothing".to_string()).unwrap(), None);
}

#[test]
fn overwrite_returns_latest_value() {
    let mut s = fresh_store();
    s.set("k".to_string(), "v1".to_string()).unwrap();
    s.set("k".to_string(), "v2".to_string()).unwrap();
    assert_eq!(s.get("k".to_string()).unwrap(), Some("v2".to_string()));
}

#[test]
fn tombstone_hides_key_and_second_remove_fails() {
    let mut s = fresh_store();
    s.set("k".to_string(), "v".to_string()).unwrap();
    s.remove("k".to_string()).unwrap();
    assert_eq!(s.get("k".to_string()).unwrap(), None);
    assert_eq!(s.remove("k".to_string()), Err(KvError::RemoveError));
}

#[test]
fn remove_of_absent_key_fails() {
    let mut s = fresh_store();
    assert_eq!(s.remove("never".to_string()), Err(KvError::RemoveError));
}

#[test]
fn compaction_preserves_live_state() {
    let mut s = fresh_store();
    s.set("a".to_string(), "1".to_string()).unwrap();
    s.set("a".to_string(), "2".to_string()).unwrap();
    s.set("b".to_string(), "3".to_string()).unwrap();
    s.set("c".to_string(), "4".to_string()).unwrap();
    s.remove("b".to_string()).unwrap();
    let before = s.log_contents().len();
    s.compact_log();
    assert!(s.log_contents().len() < before);
    assert_eq!(s.get("a".to_string()).unwrap(), Some("2".to_string()));
    assert_eq!(s.get("b".to_string()).unwrap(), None);
    assert_eq!(s.get("c".to_string()).unwrap(), Some("4".to_string()));
}

#[test]
fn replay_into_fresh_indexes_is_deterministic() {
    let text = "S\ta\t1\nS\tb\t2\nR\ta\nS\tb\t9\n".to_string();
    let s1 = KvStore::open(text.clone()).unwrap();
    let s2 = KvStore::open(text).unwrap();
    for key in ["a", "b"] {
        assert_eq!(
            s1.get(key.to_string()).unwrap(),
            s2.get(key.to_string()).unwrap()
        );
    }
    assert_eq!(s1.get("b".to_string()).unwrap(), Some("9".to_string()));
    assert_eq!(s1.get("a".to_string()).unwrap(), None);
}

#[test]
fn replaying_twice_changes_nothing() {
    let mut s = fresh_store();
    s.set("a".to_string(), "1".to_string()).unwrap();
    s.set("b".to_string(), "2".to_string()).unwrap();
    s.remove("a".to_string()).unwrap();
    s.read_log_file().unwrap();
    let after_once = (
        s.get("a".to_string()).unwrap(),
        s.get("b".to_string()).unwrap(),
    );
    s.read_log_file().unwrap();
    let after_twice = (
        s.get("a".to_string()).unwrap(),
        s.get("b".to_string()).unwrap(),
    );
    assert_eq!(after_once, after_twice);
    assert_eq!(after_twice, (None, Some("2".to_string())));
}

#[test]
fn crash_replay_equivalence() {
    let mut s = fresh_store();
    s.set("x".to_string(), "10".to_string()).unwrap();
    s.set("y".to_string(), "20".to_string()).unwrap();
    s.remove("x".to_string()).unwrap();
    let log = s.log_contents().clone();
    let reopened = KvStore::open(log).unwrap();
    for key in ["x", "y", "z"] {
        assert_eq!(
            s.get(key.to_string()).unwrap(),
            reopened.get(key.to_string()).unwrap()
        );
    }
}

#[test]
fn three_keys_scenario() {
    let mut s = fresh_store();
    s.set("a".to_string(), "1".to_string()).unwrap();
    s.set("b".to_string(), "2".to_string()).unwrap();
    s.set("a".to_string(), "3".to_string()).unwrap();
    s.remove("b".to_string()).unwrap();
    assert_eq!(s.get("a".to_string()).unwrap(), Some("3".to_string()));
    assert_eq!(s.get("b".to_string()).unwrap(), None);
    let log = s.log_contents().clone();
    let reopened = KvStore::open(log).unwrap();
    assert_eq!(reopened.get("a".to_string()).unwrap(), Some("3".to_string()));
    assert_eq!(reopened.get("b".to_string()).unwrap(), None);
}

#[test]
fn open_rejects_text_that_is_no_log() {
    assert!(matches!(
        KvStore::open("this is not a record\n".to_string()),
        Err(KvError::InvalidLogCommand)
    ));
}

#[test]
fn open_accepts_log_without_final_newline() {
    let s = KvStore::open("S\ta\t1".to_string()).unwrap();
    assert_eq!(s.get("a".to_string()).unwrap(), Some("1".to_string()));
}

#[test]
fn read_line_into_store_applies_one_record() {
    let mut s = fresh_store();
    s.set("a".to_string(), "1".to_string()).unwrap();
    s.read_line_into_store("R\ta".to_string(), 0).unwrap();
    assert_eq!(s.get("a".to_string()).unwrap(), None);
    assert_eq!(
        s.read_line_into_store("garbage".to_string(), 0),
        Err(KvError::InvalidLogCommand)
    );
}

#[test]
fn index_insert_get_remove() {
    let mut idx = Index::new();
    assert_eq!(idx.len(), 0);
    idx.insert("a".to_string(), CommandBuffer { start: 0, size: 5 });
    idx.insert("b".to_string(), CommandBuffer { start: 6, size: 7 });
    idx.insert("a".to_string(), CommandBuffer { start: 14, size: 3 });
    assert_eq!(idx.len(), 2);
    let e = idx.get(&"a".to_string()).unwrap();
    assert_eq!((e.start, e.size), (14, 3));
    idx.remove(&"a".to_string());
    assert!(idx.get(&"a".to_string()).is_none());
    assert_eq!(idx.len(), 1);
    idx.remove(&"a".to_string());
    assert_eq!(idx.len(), 1);
}

#[test]
fn error_messages_name_the_failure() {
    assert_eq!(
        KvError::RemoveError.message(),
        "Error: Cannot remove key that does not exist"
    );
    assert_eq!(
        KvError::InvalidLogCommand.message(),
        "Error command in the log file"
    );
}

#[test]
fn empty_keys_and_values_round_trip() {
    let mut s = fresh_store();
    s.set(String::new(), String::new()).unwrap();
    assert_eq!(s.get(String::new()).unwrap(), Some(String::new()));
    let log = s.log_contents().clone();
    let reopened = KvStore::open(log).unwrap();
    assert_eq!(reopened.get(String::new()).unwrap(), Some(String::new()));
}

#[test]
fn keys_with_separators_survive_reopen() {
    let mut s = fresh_store();
    s.set("tab\there".to_string(), "new\nline".to_string()).unwrap();
    s.set("back\\slash".to_string(), "plain".to_string()).unwrap();
    let log = s.log_contents().clone();
    let reopened = KvStore::open(log).unwrap();
    assert_eq!(
        reopened.get("tab\there".to_string()).unwrap(),
        Some("new\nline".to_string())
    );
    assert_eq!(
        reopened.get("back\\slash".to_string()).unwrap(),
        Some("plain".to_string())
    );
}
