use corpus_pipeline::aggregate::ShardContent;
use corpus_pipeline::driver::{process_record, process_shard, run_shards};
use corpus_pipeline::lines::retained_lines;
use corpus_pipeline::oracle::Oracle;
use corpus_pipeline::output::OutputFiles;
use corpus_pipeline::registry::Registry;

/// Labels a sentence by its first character: 'F' lines are French,
/// 'U' lines get a label outside the registry, 'N' lines no prediction,
/// 'E' lines an empty prediction list, everything else English.
struct FirstCharOracle;

impl Oracle for FirstCharOracle {
    fn predict(&self, sentence: &String) -> Option<Vec<String>> {
        match sentence.chars().next() {
            Some('F') => Some(vec!["fr-label".to_string(), "en-label".to_string()]),
            Some('U') => Some(vec!["unregistered-label".to_string()]),
            Some('N') => None,
            Some('E') => Some(vec![]),
            Some(_) => Some(vec!["en-label".to_string()]),
            None => None,
        }
    }
}

/// Fails the test if a sentence at or below the length floor is ever
/// classified.
struct FloorCheckingOracle;

impl Oracle for FloorCheckingOracle {
    fn predict(&self, sentence: &String) -> Option<Vec<String>> {
        assert!(sentence.chars().count() > 100);
        Some(vec!["en-label".to_string()])
    }
}

fn registry() -> Registry {
    let mut r = Registry::new();
    r.add("en-label".to_string(), "en".to_string());
    r.add("fr-label".to_string(), "fr".to_string());
    r
}

fn content(out: &OutputFiles, lang: &str) -> Option<String> {
    out.get(&lang.to_string()).cloned()
}

#[test]
fn single_long_line_reaches_its_language_file() {
    let body = format!("{}\n{}", "A".repeat(101), "B".repeat(50)).into_bytes();
    let reg = registry();
    let mut out = OutputFiles::new();
    run_shards(&vec![Some(vec![body])], &FirstCharOracle, &reg, &mut out);
    assert_eq!(content(&out, "en"), Some(format!("{}\n", "A".repeat(101))));
    assert_eq!(content(&out, "fr"), None);
}

#[test]
fn undecodable_body_yields_nothing_and_no_error() {
    let body = vec![0xff, 0xfe, 0x41];
    let reg = registry();
    assert!(process_record(&body, &FirstCharOracle, &reg).is_none());
    let mut out = OutputFiles::new();
    run_shards(&vec![Some(vec![body])], &FirstCharOracle, &reg, &mut out);
    assert_eq!(content(&out, "en"), None);
    assert_eq!(content(&out, "fr"), None);
}

#[test]
fn two_shards_accumulate_in_the_same_language_file() {
    let l1 = format!("F{}", "x".repeat(100));
    let l2 = format!("F{}", "y".repeat(100));
    let s1 = vec![l1.clone().into_bytes()];
    let s2 = vec![l2.clone().into_bytes()];
    let reg = registry();
    let mut out = OutputFiles::new();
    run_shards(&vec![Some(s1), Some(s2)], &FirstCharOracle, &reg, &mut out);
    assert_eq!(content(&out, "fr"), Some(format!("{}\n{}\n", l1, l2)));
}

#[test]
fn invalid_directory_entry_is_skipped() {
    let l1 = format!("F{}", "x".repeat(100));
    let l2 = format!("F{}", "y".repeat(100));
    let s1 = vec![l1.clone().into_bytes()];
    let s2 = vec![l2.clone().into_bytes()];
    let reg = registry();
    let mut with_invalid = OutputFiles::new();
    run_shards(
        &vec![Some(s1.clone()), None, Some(s2.clone())],
        &FirstCharOracle,
        &reg,
        &mut with_invalid,
    );
    let mut only_valid = OutputFiles::new();
    run_shards(&vec![Some(s1), Some(s2)], &FirstCharOracle, &reg, &mut only_valid);
    assert_eq!(content(&with_invalid, "fr"), content(&only_valid, "fr"));
    assert_eq!(content(&with_invalid, "fr"), Some(format!("{}\n{}\n", l1, l2)));
}

#[test]
fn unknown_label_drops_the_sentence() {
    let body = format!("U{}", "x".repeat(100)).into_bytes();
    let reg = registry();
    let mut out = OutputFiles::new();
    run_shards(&vec![Some(vec![body])], &FirstCharOracle, &reg, &mut out);
    assert_eq!(content(&out, "en"), None);
    assert_eq!(content(&out, "fr"), None);
}

#[test]
fn missing_and_empty_predictions_drop_silently() {
    let body = format!("N{}\nE{}", "x".repeat(100), "y".repeat(100)).into_bytes();
    let reg = registry();
    let pairs = process_record(&body, &FirstCharOracle, &reg).unwrap();
    assert!(pairs.is_empty());
}

#[test]
fn short_lines_never_reach_the_oracle() {
    let body = format!(
        "{}\n{}\n{}",
        "a".repeat(100),
        "b".repeat(101),
        "c".repeat(3)
    )
    .into_bytes();
    let reg = registry();
    let pairs = process_record(&body, &FloorCheckingOracle, &reg).unwrap();
    assert_eq!(pairs.len(), 1);
    assert_eq!(pairs[0].0, "b".repeat(101));
    assert_eq!(pairs[0].1, "en");
}

#[test]
fn retained_lines_apply_the_length_floor() {
    let text = format!(
        "{}\r\n{}\n{}",
        "a".repeat(102),
        "b".repeat(100),
        "c".repeat(101)
    );
    let kept = retained_lines(&text);
    assert_eq!(kept, vec!["a".repeat(102), "c".repeat(101)]);
}

#[test]
fn carriage_return_is_stripped_before_the_floor() {
    // 101 characters plus a carriage return: the line still qualifies,
    // without the carriage return.
    let text = format!("{}\r\n", "a".repeat(101));
    let kept = retained_lines(&text);
    assert_eq!(kept, vec!["a".repeat(101)]);
}

#[test]
fn shard_content_keeps_insertion_order_per_language() {
    let mut c = ShardContent::new();
    c.insert("one".to_string(), "en".to_string());
    c.insert("deux".to_string(), "fr".to_string());
    c.insert("two".to_string(), "en".to_string());
    let buckets = c.into_buckets();
    assert_eq!(
        buckets,
        vec![
            (
                "en".to_string(),
                vec!["one".to_string(), "two".to_string()]
            ),
            ("fr".to_string(), vec!["deux".to_string()]),
        ]
    );
}

#[test]
fn output_appends_accumulate_per_language() {
    let mut out = OutputFiles::new();
    out.append(&"en".to_string(), &"abc\n".to_string());
    out.append(&"fr".to_string(), &"x\n".to_string());
    out.append(&"en".to_string(), &"def\n".to_string());
    assert_eq!(content(&out, "en"), Some("abc\ndef\n".to_string()));
    assert_eq!(content(&out, "fr"), Some("x\n".to_string()));
    assert_eq!(content(&out, "de"), None);
}

#[test]
fn process_shard_folds_records_in_order() {
    let r1 = format!("F{}", "x".repeat(100)).into_bytes();
    let r2 = format!("F{}", "y".repeat(100)).into_bytes();
    let reg = registry();
    let buckets = process_shard(&vec![r1, r2], &FirstCharOracle, &reg).into_buckets();
    assert_eq!(buckets.len(), 1);
    assert_eq!(buckets[0].0, "fr");
    assert_eq!(
        buckets[0].1,
        vec![format!("F{}", "x".repeat(100)), format!("F{}", "y".repeat(100))]
    );
}

#[test]
fn flush_plan_joins_and_terminates_each_bucket() {
    let mut c = ShardContent::new();
    c.insert("one".to_string(), "en".to_string());
    c.insert("two".to_string(), "en".to_string());
    c.insert("deux".to_string(), "fr".to_string());
    assert_eq!(
        c.flush_plan(),
        vec![
            ("en".to_string(), "one\ntwo\n".to_string()),
            ("fr".to_string(), "deux\n".to_string()),
        ]
    );
}

#[test]
fn registry_resolves_only_known_labels() {
    let reg = registry();
    assert_eq!(reg.get(&"fr-label".to_string()), Some(&"fr".to_string()));
    assert_eq!(reg.get(&"nope".to_string()), None);
}
