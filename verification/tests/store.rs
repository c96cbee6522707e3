use reclamation::manifest::Error;
use reclamation::manifest::Manifest;
use reclamation::manifest::encode_manifest;
use reclamation::manifest::parse_manifest;

fn p(s: &str) -> Vec<u8> {
    s.as_bytes().to_vec()
}

#[test]
fn encode_writes_compact_json() {
    let m = Manifest {
        id: p("1759"),
        entries: vec![(p("/home/u/build.log"), p("/q/build.log"))],
    };
    let record = encode_manifest(&m);
    assert_eq!(
        record,
        p(r#"{"id":"1759","entries":[["/home/u/build.log","/q/build.log"]]}"#)
    );
}

#[test]
fn encode_escapes_quotes_and_backslashes() {
    let m = Manifest {
        id: p("7"),
        entries: vec![(p(r#"/d/odd"name"#), p(r"/q/odd\name"))],
    };
    let record = encode_manifest(&m);
    assert_eq!(
        record,
        p(r#"{"id":"7","entries":[["/d/odd\"name","/q/odd\\name"]]}"#)
    );
}

#[test]
fn record_round_trip() {
    let m = Manifest {
        id: p("1759"),
        entries: vec![
            (p("/home/u/build.log"), p("/q/build.log")),
            (p("/home/u/junk.tmp"), p("/q/junk.tmp")),
        ],
    };
    let back = parse_manifest(&encode_manifest(&m)).unwrap();
    assert_eq!(back.id, m.id);
    assert_eq!(back.entries, m.entries);
}

#[test]
fn record_round_trip_with_escapes() {
    let m = Manifest {
        id: p(r#"we"ird\id"#),
        entries: vec![(p(r#"a"b\c"#), p(r#""\"#))],
    };
    let back = parse_manifest(&encode_manifest(&m)).unwrap();
    assert_eq!(back.id, m.id);
    assert_eq!(back.entries, m.entries);
}

#[test]
fn empty_manifest_round_trip() {
    let m = Manifest { id: p("42"), entries: Vec::new() };
    let record = encode_manifest(&m);
    assert_eq!(record, p(r#"{"id":"42","entries":[]}"#));
    let back = parse_manifest(&record).unwrap();
    assert_eq!(back.id, m.id);
    assert!(back.entries.is_empty());
}

#[test]
fn garbage_is_a_corrupt_record() {
    assert_eq!(parse_manifest(&p("nonsense")).unwrap_err(), Error::CorruptRecord);
    assert_eq!(parse_manifest(&Vec::new()).unwrap_err(), Error::CorruptRecord);
    assert_eq!(parse_manifest(&p("{}")).unwrap_err(), Error::CorruptRecord);
}

#[test]
fn truncated_record_is_corrupt() {
    let m = Manifest { id: p("1"), entries: vec![(p("/a"), p("/q/a"))] };
    let mut record = encode_manifest(&m);
    record.truncate(record.len() - 1);
    assert_eq!(parse_manifest(&record).unwrap_err(), Error::CorruptRecord);
}

#[test]
fn trailing_bytes_make_a_record_corrupt() {
    let m = Manifest { id: p("1"), entries: vec![(p("/a"), p("/q/a"))] };
    let mut record = encode_manifest(&m);
    record.push(b' ');
    assert_eq!(parse_manifest(&record).unwrap_err(), Error::CorruptRecord);
}

#[test]
fn stray_escape_is_corrupt() {
    // "\n" is not an escape the record format writes.
    assert_eq!(
        parse_manifest(&p(r#"{"id":"a\nb","entries":[]}"#)).unwrap_err(),
        Error::CorruptRecord
    );
}

#[test]
fn encoded_record_is_valid_json() {
    let m = Manifest {
        id: p("1759"),
        entries: vec![(p(r#"/d/odd"name"#), p("/q/b"))],
    };
    let record = encode_manifest(&m);
    let text = String::from_utf8(record).unwrap();
    let value: serde_json::Value = serde_json::from_str(&text).unwrap();
    assert_eq!(value["id"], serde_json::Value::String("1759".to_string()));
    assert_eq!(value["entries"][0][0].as_str().unwrap(), r#"/d/odd"name"#);
    assert_eq!(value["entries"][0][1].as_str().unwrap(), "/q/b");
}
