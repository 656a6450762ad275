use kvs::kv::{render_get, KvStore};
use kvs::log::{BufReaderWithPos, BufWriterWithPos};
use kvs::codec::{decode, Command};
use kvs::KvsError;

fn fresh() -> KvStore {
    KvStore::open(String::new()).unwrap()
}

#[test]
fn set_then_get() {
    let mut st = fresh();
    st.set("k".to_string(), "v".to_string()).unwrap();
    assert_eq!(st.get("k".to_string()).unwrap(), Some("v".to_string()));
}

#[test]
fn empty_key_and_value() {
    let mut st = fresh();
    st.set(String::new(), String::new()).unwrap();
    assert_eq!(st.get(String::new()).unwrap(), Some(String::new()));
    let text = st.take_unflushed();
    let st2 = KvStore::open(text).unwrap();
    assert_eq!(st2.get(String::new()).unwrap(), Some(String::new()));
}

#[test]
fn get_missing_is_none() {
    let st = fresh();
    assert_eq!(st.get("missing".to_string()).unwrap(), None);
}

#[test]
fn overwrite_keeps_both_records() {
    let mut st = fresh();
    st.set("k".to_string(), "v1".to_string()).unwrap();
    st.set("k".to_string(), "v2".to_string()).unwrap();
    assert_eq!(st.get("k".to_string()).unwrap(), Some("v2".to_string()));
    let text = st.take_unflushed();
    let lines: Vec<&str> = text.split('\n').filter(|l| !l.is_empty()).collect();
    assert_eq!(lines.len(), 2);
    assert_eq!(
        decode(lines[0]).unwrap(),
        Command::Put { key: "k".to_string(), value: "v1".to_string() }
    );
    assert_eq!(
        decode(lines[1]).unwrap(),
        Command::Put { key: "k".to_string(), value: "v2".to_string() }
    );
}

#[test]
fn remove_clears() {
    let mut st = fresh();
    st.set("k".to_string(), "v".to_string()).unwrap();
    st.remove("k".to_string()).unwrap();
    assert_eq!(st.get("k".to_string()).unwrap(), None);
}

#[test]
fn remove_missing_fails_and_leaves_log_alone() {
    let mut st = fresh();
    assert_eq!(st.remove("nope".to_string()), Err(KvsError::KeyNotFound));
    assert_eq!(st.take_unflushed(), "");
    st.set("a".to_string(), "1".to_string()).unwrap();
    st.remove("a".to_string()).unwrap();
    let before = st.take_unflushed();
    assert_eq!(st.remove("a".to_string()), Err(KvsError::KeyNotFound));
    assert_eq!(st.take_unflushed(), "");
    let lines: Vec<&str> = before.split('\n').filter(|l| !l.is_empty()).collect();
    assert_eq!(lines.len(), 2);
}

#[test]
fn interleaving() {
    let mut st = fresh();
    st.set("a".to_string(), "1".to_string()).unwrap();
    st.set("b".to_string(), "2".to_string()).unwrap();
    st.remove("a".to_string()).unwrap();
    st.set("a".to_string(), "3".to_string()).unwrap();
    assert_eq!(st.get("a".to_string()).unwrap(), Some("3".to_string()));
    assert_eq!(st.get("b".to_string()).unwrap(), Some("2".to_string()));
}

#[test]
fn recovery_rebuilds_same_state() {
    let mut st = fresh();
    st.set("a".to_string(), "1".to_string()).unwrap();
    st.set("b".to_string(), "2".to_string()).unwrap();
    st.remove("a".to_string()).unwrap();
    st.set("c".to_string(), "quote\" and \\ and \n".to_string()).unwrap();
    let text = st.take_unflushed();
    let reopened = KvStore::open(text).unwrap();
    for key in ["a", "b", "c", "never"] {
        assert_eq!(
            reopened.get(key.to_string()).unwrap(),
            st.get(key.to_string()).unwrap(),
            "key: {key}"
        );
    }
    assert_eq!(reopened.get("b".to_string()).unwrap(), Some("2".to_string()));
    assert_eq!(reopened.get("a".to_string()).unwrap(), None);
}

#[test]
fn open_replays_handwritten_log() {
    let text = "{\"Set\":{\"key\":\"a\",\"value\":\"b\"}}\n{\"Set\":{\"key\":\"a\",\"value\":\"c\"}}\n{\"Remove\":{\"key\":\"x\"}}\n";
    let st = KvStore::open(text.to_string()).unwrap();
    assert_eq!(st.get("a".to_string()).unwrap(), Some("c".to_string()));
    assert_eq!(st.get("x".to_string()).unwrap(), None);
}

#[test]
fn open_rejects_corrupt_log() {
    assert!(matches!(
        KvStore::open("junk\n".to_string()),
        Err(KvsError::CorruptRecord)
    ));
    assert!(matches!(
        KvStore::open("{\"Set\":{\"key\":\"a\",\"value\":\"b\"}}".to_string()),
        Err(KvsError::CorruptRecord)
    ));
}

#[test]
fn cli_scenario() {
    let mut st = fresh();
    st.set("foo".to_string(), "bar".to_string()).unwrap();
    let persisted = st.take_unflushed();
    let st2 = KvStore::open(persisted).unwrap();
    assert_eq!(render_get(st2.get("foo".to_string()).unwrap()), "bar");
    assert_eq!(render_get(st2.get("baz".to_string()).unwrap()), "Key not found");
    let mut st3 = KvStore::open(String::new()).unwrap();
    let err = st3.remove("baz".to_string()).unwrap_err();
    assert_eq!(err, KvsError::KeyNotFound);
    assert_eq!(err.message(), "Key not found");
}

#[test]
fn reader_reads_extents() {
    let mut reader = BufReaderWithPos::new();
    assert_eq!(reader.read_at("hello", 1, 3).unwrap(), "ell");
    assert_eq!(reader.read_at("abc", 1, 5), Err(KvsError::ShortRead));
    assert_eq!(reader.read_at("abc", 9, 1), Err(KvsError::ShortRead));
}

#[test]
fn writer_tracks_position() {
    let mut w = BufWriterWithPos::new("ab\n".to_string());
    let pos = w.append_line("cd");
    assert_eq!(pos, 3);
    assert_eq!(w.text(), "ab\ncd\n");
    let pos = w.append_line("e");
    assert_eq!(pos, 6);
}

#[test]
fn error_messages() {
    assert_eq!(KvsError::KeyNotFound.message(), "Key not found");
    assert_eq!(KvsError::CorruptRecord.message(), "corrupt log record");
    assert_eq!(KvsError::ShortRead.message(), "short read");
}
