use deltaimage::manifest::{Algo, MetaData};
use deltaimage::manifest_json::{encode_manifest, parse_manifest};

fn b(s: &str) -> Vec<u8> {
    s.as_bytes().to_vec()
}

#[test]
fn manifest_encodes_as_canonical_json() {
    let md = MetaData {
        version: b("0.1.0"),
        keep_files: vec![vec![255, 254]],
        changes: vec![(Algo::XDelta3, b("a")), (Algo::AsIs, b("bc"))],
    };
    let enc = encode_manifest(&md);
    let expected = "{\"version\":\"0.1.0\",\"keep_files\":[[255,254]],\"changes\":[[\"XDelta3\",[97]],[\"AsIs\",[98,99]]]}";
    assert_eq!(enc, expected.as_bytes().to_vec());
}

#[test]
fn non_utf8_name_round_trips_through_the_manifest() {
    // a file name that is the byte sequence 0xff 0xfe survives the sidecar
    // file losslessly
    let md = MetaData {
        version: b("1.2.3"),
        keep_files: vec![],
        changes: vec![(Algo::XDelta3, vec![0xff, 0xfe])],
    };
    let enc = encode_manifest(&md);
    let back = parse_manifest(&enc).unwrap();
    assert_eq!(back.version, b("1.2.3"));
    assert!(back.keep_files.is_empty());
    assert_eq!(back.changes, vec![(Algo::XDelta3, vec![0xff, 0xfe])]);
}

#[test]
fn empty_manifest_round_trips() {
    let md = MetaData { version: b(""), keep_files: vec![], changes: vec![] };
    let enc = encode_manifest(&md);
    assert_eq!(enc, b("{\"version\":\"\",\"keep_files\":[],\"changes\":[]}"));
    let back = parse_manifest(&enc).unwrap();
    assert!(back.version.is_empty());
    assert!(back.keep_files.is_empty());
    assert!(back.changes.is_empty());
}

#[test]
fn version_escapes_round_trip() {
    let md = MetaData {
        version: vec![34, 92, 10, 65],  // quote, backslash, newline, 'A'
        keep_files: vec![b("k")],
        changes: vec![],
    };
    let enc = encode_manifest(&md);
    let expected = b("{\"version\":\"\\\"\\\\\\u000aA\",\"keep_files\":[[107]],\"changes\":[]}");
    assert_eq!(enc, expected);
    let back = parse_manifest(&enc).unwrap();
    assert_eq!(back.version, vec![34, 92, 10, 65]);
    assert_eq!(back.keep_files, vec![b("k")]);
}

#[test]
fn garbage_is_a_parse_error() {
    assert!(parse_manifest(&b("not json")).is_err());
    assert!(parse_manifest(&b("")).is_err());
    assert!(parse_manifest(&b("{\"version\":\"x\"}")).is_err());
}

#[test]
fn non_canonical_document_is_rejected() {
    // same manifest but with a stray space: not the canonical encoding
    let spaced = b("{\"version\":\"\", \"keep_files\":[],\"changes\":[]}");
    assert!(parse_manifest(&spaced).is_err());
    // a byte value over 255 is rejected
    let big = b("{\"version\":\"\",\"keep_files\":[[256]],\"changes\":[]}");
    assert!(parse_manifest(&big).is_err());
}

#[test]
fn trailing_bytes_are_rejected() {
    let md = MetaData { version: b("1"), keep_files: vec![], changes: vec![] };
    let mut enc = encode_manifest(&md);
    enc.push(10);
    assert!(parse_manifest(&enc).is_err());
}

#[test]
fn every_byte_value_round_trips_in_a_path() {
    let all: Vec<u8> = (0..=255).collect();
    let md = MetaData { version: b("v"), keep_files: vec![all.clone()], changes: vec![] };
    let enc = encode_manifest(&md);
    let back = parse_manifest(&enc).unwrap();
    assert_eq!(back.keep_files, vec![all]);
}
