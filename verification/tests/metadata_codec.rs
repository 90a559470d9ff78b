use corpus_pipeline::metadata::Metadata;

fn sample() -> Metadata {
    Metadata {
        headers: vec![
            ("warc-type".to_string(), "conversion".to_string()),
            ("content-length".to_string(), "6231".to_string()),
            (
                "warc-identified-content-language".to_string(),
                "zho".to_string(),
            ),
        ],
        offset: 0,
        nb_sentences: 0,
    }
}

#[test]
fn serialize() {
    let metadata = sample();
    let stored = metadata.to_json();
    assert!(!stored.is_empty());
    assert_eq!(
        stored,
        "{\"headers\":{\"warc-type\":\"conversion\",\"content-length\":\"6231\",\"warc-identified-content-language\":\"zho\"},\"offset\":0,\"nb_sentences\":0}"
    );
}

#[test]
fn deserialize() {
    let meta_json = r#"{"headers":{"warc-type":"conversion","content-length":"6231","warc-identified-content-language":"zho"},"offset":0, "nb_sentences": 0}"#;
    let expected = sample();
    let result = Metadata::from_json(meta_json).unwrap();
    assert_eq!(result, expected);
}

#[test]
fn round_trip_plain() {
    let m = sample();
    let back = Metadata::from_json(&m.to_json()).unwrap();
    assert_eq!(back, m);
}

#[test]
fn round_trip_empty_headers() {
    let m = Metadata {
        headers: vec![],
        offset: 12,
        nb_sentences: 345,
    };
    assert_eq!(m.to_json(), "{\"headers\":{},\"offset\":12,\"nb_sentences\":345}");
    let back = Metadata::from_json(&m.to_json()).unwrap();
    assert_eq!(back, m);
}

#[test]
fn round_trip_escaped_and_unknown_keys() {
    let m = Metadata {
        headers: vec![
            ("x-\"quoted\"".to_string(), "back\\slash".to_string()),
            ("x-custom-key".to_string(), "line\nbreak".to_string()),
        ],
        offset: usize::MAX,
        nb_sentences: 7,
    };
    let back = Metadata::from_json(&m.to_json()).unwrap();
    assert_eq!(back, m);
}

#[test]
fn deserialize_rejects_garbage() {
    assert!(Metadata::from_json("").is_none());
    assert!(Metadata::from_json("{}").is_none());
    assert!(Metadata::from_json("{\"headers\":{},\"offset\":1}").is_none());
    assert!(Metadata::from_json("{\"headers\":{},\"offset\":x,\"nb_sentences\":0}").is_none());
    assert!(
        Metadata::from_json("{\"headers\":{},\"offset\":0,\"nb_sentences\":0} trailing").is_none()
    );
    assert!(Metadata::from_json("{\"headers\":{\"a\"},\"offset\":0,\"nb_sentences\":0}").is_none());
}

#[test]
fn deserialize_rejects_oversized_counts() {
    let stored = "{\"headers\":{},\"offset\":99999999999999999999999999,\"nb_sentences\":0}";
    assert!(Metadata::from_json(stored).is_none());
}

#[test]
fn deserialize_allows_whitespace_between_tokens() {
    let stored = "{ \"headers\" : { \"k\" : \"v\" } , \"offset\" : 3 , \"nb_sentences\" : 9 }";
    let m = Metadata::from_json(stored).unwrap();
    assert_eq!(m.headers, vec![("k".to_string(), "v".to_string())]);
    assert_eq!(m.offset, 3);
    assert_eq!(m.nb_sentences, 9);
}
