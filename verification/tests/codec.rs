use kvs::codec::{decode, encode, Command};
use kvs::KvsError;

fn put(k: &str, v: &str) -> Command {
    Command::Put { key: k.to_string(), value: v.to_string() }
}

fn rm(k: &str) -> Command {
    Command::Remove { key: k.to_string() }
}

#[test]
fn encode_set_exact() {
    let line = encode(&put("a", "b"));
    assert_eq!(line, "{\"Set\":{\"key\":\"a\",\"value\":\"b\"}}");
}

#[test]
fn encode_remove_exact() {
    let line = encode(&rm("a"));
    assert_eq!(line, "{\"Remove\":{\"key\":\"a\"}}");
}

#[test]
fn encode_escapes_exact() {
    let line = encode(&put("a\"b", "x\ny"));
    assert_eq!(line, "{\"Set\":{\"key\":\"a\\\"b\",\"value\":\"x\\ny\"}}");
    let line = encode(&put("back\\slash", "tab\there"));
    assert_eq!(line, "{\"Set\":{\"key\":\"back\\\\slash\",\"value\":\"tab\\there\"}}");
    let line = encode(&put("ctl\u{1}", "cr\r"));
    assert_eq!(line, "{\"Set\":{\"key\":\"ctl\\u0001\",\"value\":\"cr\\r\"}}");
}

#[test]
fn round_trip_simple() {
    let c = put("key1", "value1");
    assert_eq!(decode(&encode(&c)).unwrap(), c);
    let c = rm("key1");
    assert_eq!(decode(&encode(&c)).unwrap(), c);
}

#[test]
fn round_trip_empty_fields() {
    let c = put("", "");
    assert_eq!(decode(&encode(&c)).unwrap(), c);
    let c = rm("");
    assert_eq!(decode(&encode(&c)).unwrap(), c);
}

#[test]
fn round_trip_escapes() {
    let cases = [
        ("quote\"inside", "back\\slash"),
        ("new\nline", "car\rreturn"),
        ("tab\there", "low\u{1}\u{2}\u{1f}ctl"),
        ("unicode \u{65e5}\u{672c}", "emoji \u{1f600}"),
        ("{\"Set\":", "looks}}like json"),
    ];
    for (k, v) in cases.iter() {
        let c = put(k, v);
        assert_eq!(decode(&encode(&c)).unwrap(), c);
    }
}

#[test]
fn decode_rejects_garbage() {
    for bad in [
        "",
        "garbage",
        "{\"Set\":{\"key\":\"a\",\"value\":\"b\"}",
        "{\"Set\":{\"key\":\"a\"}}",
        "{\"Set\":{\"key\":\"a\",\"value\":\"b\"}}x",
        "{\"set\":{\"key\":\"a\",\"value\":\"b\"}}",
        "{\"Remove\":{\"key\":\"a\"}}}",
        "{\"Remove\":{\"key\":\"a\"",
    ] {
        assert_eq!(decode(bad), Err(KvsError::CorruptRecord), "case: {bad}");
    }
}

#[test]
fn decode_rejects_bad_escapes() {
    for bad in [
        "{\"Remove\":{\"key\":\"a\\q\"}}",
        "{\"Remove\":{\"key\":\"a\\u0041\"}}",
        "{\"Remove\":{\"key\":\"a\\u00\"}}",
        "{\"Remove\":{\"key\":\"a\\\"}}",
        "{\"Remove\":{\"key\":\"raw\tcontrol\"}}",
    ] {
        assert_eq!(decode(bad), Err(KvsError::CorruptRecord), "case: {bad}");
    }
}

#[test]
fn decode_accepts_unescaped_solidus_free_text() {
    let c = decode("{\"Set\":{\"key\":\"path/to\",\"value\":\"ok ~!@#\"}}").unwrap();
    assert_eq!(c, put("path/to", "ok ~!@#"));
}
