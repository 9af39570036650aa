use thinkaroo::reading::{encode_artifact, parse_artifact, ReadingContents};

fn artifact(title: &str, story: &str, questions: &[&str]) -> ReadingContents {
    ReadingContents {
        title: title.to_string(),
        story: story.to_string(),
        questions: questions.iter().map(|q| q.to_string()).collect(),
    }
}

#[test]
fn encode_produces_exact_compact_json() {
    let a = artifact("T", "S", &["Q1"]);
    let bytes = encode_artifact(&a);
    assert_eq!(
        String::from_utf8(bytes).unwrap(),
        "{\"title\":\"T\",\"story\":\"S\",\"questions\":[\"Q1\"]}"
    );
}

#[test]
fn encode_empty_questions() {
    let a = artifact("T", "S", &[]);
    let bytes = encode_artifact(&a);
    assert_eq!(
        String::from_utf8(bytes).unwrap(),
        "{\"title\":\"T\",\"story\":\"S\",\"questions\":[]}"
    );
}

#[test]
fn encode_escapes_specials() {
    let a = artifact("a\"b", "c\\d\ne\tf", &["g\rh", "i\u{8}j\u{c}k"]);
    let bytes = encode_artifact(&a);
    assert_eq!(
        String::from_utf8(bytes).unwrap(),
        "{\"title\":\"a\\\"b\",\"story\":\"c\\\\d\\ne\\tf\",\"questions\":[\"g\\rh\",\"i\\bj\\fk\"]}"
    );
}

#[test]
fn encode_escapes_rare_control_bytes_as_lowercase_hex() {
    let a = artifact("x\u{1}y", "p\u{1f}q", &[]);
    let bytes = encode_artifact(&a);
    assert_eq!(
        String::from_utf8(bytes).unwrap(),
        "{\"title\":\"x\\u0001y\",\"story\":\"p\\u001fq\",\"questions\":[]}"
    );
}

#[test]
fn round_trip_plain() {
    let a = artifact("A morning walk", "Mia walked to the park.", &["Where did Mia walk?"]);
    let bytes = encode_artifact(&a);
    let back = parse_artifact(&bytes).expect("canonical encoding must parse");
    assert_eq!(back, a);
}

#[test]
fn round_trip_specials_and_unicode() {
    let a = artifact(
        "h\u{e9}llo \u{1f642}",
        "tabs\tand \"quotes\" and \\slashes\\ and\nnewlines\u{0}",
        &["", "\u{1}\u{2}\u{3}", "caf\u{e9}"],
    );
    let bytes = encode_artifact(&a);
    let back = parse_artifact(&bytes).expect("canonical encoding must parse");
    assert_eq!(back, a);
}

#[test]
fn round_trip_empty_fields() {
    let a = artifact("", "", &[]);
    let bytes = encode_artifact(&a);
    let back = parse_artifact(&bytes).expect("canonical encoding must parse");
    assert_eq!(back, a);
}

#[test]
fn encoded_artifact_is_valid_json_for_serde() {
    let a = artifact("a\"b\u{1}", "s\ntory \u{1f642}", &["q1", "q\t2"]);
    let bytes = encode_artifact(&a);
    let v: serde_json::Value = serde_json::from_slice(&bytes).expect("serde_json must accept it");
    assert_eq!(v["title"], serde_json::Value::String(a.title.clone()));
    assert_eq!(v["story"], serde_json::Value::String(a.story.clone()));
    let qs = v["questions"].as_array().expect("questions must be an array");
    assert_eq!(qs.len(), a.questions.len());
    for (got, want) in qs.iter().zip(a.questions.iter()) {
        assert_eq!(got, &serde_json::Value::String(want.clone()));
    }
}

#[test]
fn parse_rejects_malformed_input() {
    assert!(parse_artifact(&b"".to_vec()).is_none());
    assert!(parse_artifact(&b"{}".to_vec()).is_none());
    assert!(parse_artifact(&b"{\"title\":\"T\"}".to_vec()).is_none());
    assert!(parse_artifact(&b"{\"title\":\"T\",\"story\":\"S\",\"questions\":[\"Q1\"]".to_vec())
        .is_none());
    assert!(parse_artifact(
        &b"{\"title\":\"T\",\"story\":\"S\",\"questions\":[\"Q1\"]} ".to_vec()
    )
    .is_none());
    assert!(parse_artifact(&b"{\"title\":\"T\",\"story\":\"S\",\"questions\":[42]}".to_vec())
        .is_none());
    let mut bad_escape = b"{\"title\":\"\\x\",\"story\":\"S\",\"questions\":[]}".to_vec();
    assert!(parse_artifact(&bad_escape).is_none());
    bad_escape = b"{\"title\":\"\\u00zz\",\"story\":\"S\",\"questions\":[]}".to_vec();
    assert!(parse_artifact(&bad_escape).is_none());
}

#[test]
fn parse_rejects_invalid_utf8() {
    let mut bytes = encode_artifact(&artifact("TT", "S", &[]));
    // overwrite the title's two bytes with a lone continuation byte pair
    let pos = 10;
    bytes[pos] = 0xff;
    bytes[pos + 1] = 0xfe;
    assert!(parse_artifact(&bytes).is_none());
}

#[test]
fn parse_rejects_raw_control_bytes() {
    let bytes = b"{\"title\":\"a\nb\",\"story\":\"S\",\"questions\":[]}".to_vec();
    assert!(parse_artifact(&bytes).is_none());
}
