use kvs::command::{decode_command, encode_command, Command};
use kvs::engines::{get_sorted_gen_files, log_path, names, MyWriter};
use kvs::KvsError;

fn text(s: &str) -> String {
    s.to_string()
}

fn set_record(key: &str, value: &str) -> Vec<u8> {
    encode_command(&Command::SetValue { key: text(key), value: text(value) }).unwrap()
}

fn remove_record(key: &str) -> Vec<u8> {
    encode_command(&Command::Remove { key: text(key) }).unwrap()
}

fn json_object(tag: &str, fields: &[(&str, &str)]) -> Vec<u8> {
    let mut inner = serde_json::Map::new();
    for (name, value) in fields {
        inner.insert(name.to_string(), serde_json::Value::String(value.to_string()));
    }
    let mut outer = serde_json::Map::new();
    outer.insert(tag.to_string(), serde_json::Value::Object(inner));
    serde_json::to_vec(&serde_json::Value::Object(outer)).unwrap()
}

#[test]
fn set_record_bytes() {
    assert_eq!(set_record("k", "v"), b"{\"Set\":{\"key\":\"k\",\"value\":\"v\"}}".to_vec());
    assert_eq!(set_record("", ""), b"{\"Set\":{\"key\":\"\",\"value\":\"\"}}".to_vec());
}

#[test]
fn remove_record_bytes() {
    assert_eq!(remove_record("k"), b"{\"Remove\":{\"key\":\"k\"}}".to_vec());
}

#[test]
fn record_escapes() {
    assert_eq!(
        set_record("a\"b", "c\\d"),
        b"{\"Set\":{\"key\":\"a\\\"b\",\"value\":\"c\\\\d\"}}".to_vec()
    );
    assert_eq!(
        remove_record("\u{8}\t\n\u{c}\r\u{1}\u{1f}\u{7f}"),
        b"{\"Remove\":{\"key\":\"\\b\\t\\n\\f\\r\\u0001\\u001f\x7f\"}}".to_vec()
    );
    assert_eq!(
        remove_record("\u{e9}"),
        vec![
            b'{', b'"', b'R', b'e', b'm', b'o', b'v', b'e', b'"', b':', b'{', b'"', b'k', b'e',
            b'y', b'"', b':', b'"', 0xc3, 0xa9, b'"', b'}', b'}',
        ]
    );
}

#[test]
fn records_are_what_the_json_encoder_writes() {
    let samples = ["", "plain", "with \"quotes\"", "back\\slash", "tab\tnew\nline", "\u{0}\u{1f}", "\u{4e16}\u{754c} \u{1f600}"];
    for key in samples {
        for value in samples {
            assert_eq!(set_record(key, value), json_object("Set", &[("key", key), ("value", value)]));
        }
        assert_eq!(remove_record(key), json_object("Remove", &[("key", key)]));
    }
}

#[test]
fn decode_reads_back_what_encode_wrote() {
    let samples = ["", "plain", "with \"quotes\"", "back\\slash\\", "tab\tnew\nline", "\u{0}\u{1f}", "\u{4e16}\u{754c} \u{1f600}", "}}", "\",\"value\":\""];
    for key in samples {
        for value in samples {
            let bytes = set_record(key, value);
            match decode_command(&bytes, 0) {
                Some((Command::SetValue { key: k, value: v }, end)) => {
                    assert_eq!(k, key);
                    assert_eq!(v, value);
                    assert_eq!(end, bytes.len());
                },
                other => panic!("unexpected {:?}", other),
            }
        }
        let bytes = remove_record(key);
        match decode_command(&bytes, 0) {
            Some((Command::Remove { key: k }, end)) => {
                assert_eq!(k, key);
                assert_eq!(end, bytes.len());
            },
            other => panic!("unexpected {:?}", other),
        }
    }
}

#[test]
fn decode_in_the_middle_of_data() {
    let mut data = remove_record("first");
    let at = data.len();
    data.extend_from_slice(&set_record("second", "value"));
    let end = data.len();
    data.extend_from_slice(&remove_record("third"));
    match decode_command(&data, at) {
        Some((Command::SetValue { key, value }, stop)) => {
            assert_eq!(key, "second");
            assert_eq!(value, "value");
            assert_eq!(stop, end);
        },
        other => panic!("unexpected {:?}", other),
    }
}

#[test]
fn decode_reads_escapes_that_encode_does_not_write() {
    let data = b"{\"Set\":{\"key\":\"\\u0041\\/\",\"value\":\"\\ud83d\\ude00\"}}";
    match decode_command(data, 0) {
        Some((Command::SetValue { key, value }, end)) => {
            assert_eq!(key, "A/");
            assert_eq!(value, "\u{1f600}");
            assert_eq!(end, data.len());
        },
        other => panic!("unexpected {:?}", other),
    }
}

#[test]
fn decode_refuses_what_is_no_record() {
    let refused: [&[u8]; 12] = [
        b"",
        b"{",
        b"{\"Set\":{\"key\":\"k\",\"value\":\"v\"}",
        b"{\"Set\":{\"key\":\"k\"}}",
        b"{\"Set\":{\"value\":\"v\",\"key\":\"k\"}}",
        b"{\"Set\": {\"key\":\"k\",\"value\":\"v\"}}",
        b" {\"Remove\":{\"key\":\"k\"}}",
        b"{\"Remove\":{\"key\":\"k\",\"value\":\"v\"}}",
        b"{\"Remove\":{\"key\":k}}",
        b"{\"Remove\":{\"key\":\"bad \\x escape\"}}",
        b"{\"Remove\":{\"key\":\"raw \n newline\"}}",
        b"{\"Get\":{\"key\":\"k\"}}",
    ];
    for data in refused {
        assert!(decode_command(data, 0).is_none(), "{:?}", String::from_utf8_lossy(data));
    }
    assert!(decode_command(b"{\"Remove\":{\"key\":\"\xff\"}}", 0).is_none());
    assert!(decode_command(&remove_record("k"), 1).is_none());
    assert!(decode_command(&remove_record("k"), 500).is_none());
}

#[test]
fn writer_tracks_offset() {
    let mut writer = MyWriter::new();
    assert_eq!(writer.offset(), 0);
    assert_eq!(writer.write(b"hello"), 5);
    assert_eq!(writer.offset(), 5);
    assert_eq!(writer.write(b""), 0);
    assert_eq!(writer.write(b", world"), 7);
    assert_eq!(writer.offset(), 12);
    assert_eq!(writer.as_slice(), b"hello, world");
    assert_eq!(writer.flush(), b"hello, world".to_vec());
    assert!(writer.flush().is_empty());
    writer.write(b"!");
    assert_eq!(writer.flush(), b"!".to_vec());
    assert_eq!(writer.offset(), 13);
    assert_eq!(writer.into_bytes(), b"hello, world!".to_vec());
}

#[test]
fn log_path_names() {
    assert_eq!(log_path(0), "0.log");
    assert_eq!(log_path(1), "1.log");
    assert_eq!(log_path(10), "10.log");
    assert_eq!(log_path(1234567890), "1234567890.log");
    assert_eq!(log_path(u64::MAX), "18446744073709551615.log");
}

#[test]
fn decimal_text_is_what_std_writes() {
    for n in [0u64, 7, 9, 10, 11, 99, 100, 101, 4096, 999_999, 1_000_000, u64::MAX - 1, u64::MAX] {
        assert_eq!(names::decimal_text(n), n.to_string());
    }
}

#[test]
fn parse_log_name_reads_what_log_path_writes() {
    for n in [0u64, 1, 9, 10, 19, 100, 65_535, 9_999_999_999, u64::MAX] {
        assert_eq!(names::parse_log_name(&log_path(n)), Some(n));
    }
}

#[test]
fn parse_log_name_refuses_other_names() {
    let refused = [
        "", ".log", "log", "1", "1.lo", "1.logs", "1.log.log", "01.log", "007.log", "00.log",
        "+5.log", "-5.log", " 5.log", "5 .log", "5.LOG", "a.log", "1a.log", "engine",
        "18446744073709551616.log", "99999999999999999999999.log", "\u{661}.log", "1.l\u{f6}g",
    ];
    for name in refused {
        assert_eq!(names::parse_log_name(name), None, "{:?}", name);
    }
}

#[test]
fn gen_files_are_sorted() {
    let names: Vec<String> = ["10.log", "engine", "2.log", "1.log", "x.log", "33.log", "2.log", "03.log"]
        .iter()
        .map(|s| s.to_string())
        .collect();
    assert_eq!(get_sorted_gen_files(&names), vec![1, 2, 10, 33]);
    assert_eq!(get_sorted_gen_files(&Vec::new()), Vec::<u64>::new());
}

#[test]
fn insert_gen_keeps_order() {
    let mut gens: Vec<u64> = Vec::new();
    for gen in [5u64, 1, 9, 5, 0, 7, 9, u64::MAX] {
        names::insert_gen(&mut gens, gen);
    }
    assert_eq!(gens, vec![0, 1, 5, 7, 9, u64::MAX]);
}

#[test]
fn error_messages() {
    assert_eq!(KvsError::KvPathNotFoundError.message(), "Path not found");
    assert_eq!(KvsError::KeyNotFoundError.message(), "Key not found");
    assert_eq!(KvsError::IoError.message(), "IO error");
    assert_eq!(KvsError::SerdeError.message(), "Serde json error");
    assert_eq!(KvsError::StringError(text("whatever")).message(), "whatever");
    assert_eq!(KvsError::Sled(text("broken")).message(), "sled error: broken");
    assert_eq!(KvsError::Utf8(text("bad byte")).message(), "UTF-8 error: bad byte");
}
