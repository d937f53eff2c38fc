use simcheck::fingerprint::lzjd_fingerprints;
use simcheck::aggregate::Submissions;
use simcheck::report::{classify_batch, is_high_suspicion, BatchOutcome};
use simcheck::stats::Similarities;

#[test]
fn threshold_is_inclusive() {
    assert!(is_high_suspicion(95));
    assert!(!is_high_suspicion(94));
    assert!(is_high_suspicion(100));
    assert!(!is_high_suspicion(0));
}

#[test]
fn empty_batch_is_nothing_similar() {
    let s = Similarities::new();
    assert_eq!(classify_batch(&s, false), BatchOutcome::NothingSimilar { suggest_filter: true });
    assert_eq!(classify_batch(&s, true), BatchOutcome::NothingSimilar { suggest_filter: false });
}

#[test]
fn all_zero_scores_are_nothing_similar() {
    let mut s = Similarities::new();
    s.add(0);
    s.add(0);
    assert_eq!(classify_batch(&s, true), BatchOutcome::NothingSimilar { suggest_filter: false });
    s.add(1);
    assert_eq!(classify_batch(&s, true), BatchOutcome::Report);
}

#[test]
fn lzjd_fingerprints_depend_on_content() {
    let mut subs = Submissions::new();
    let text = b"the quick brown fox jumps over the lazy dog, again and again".to_vec();
    subs.add_file("a".to_string(), text.clone());
    subs.add_file("b".to_string(), text.clone());
    subs.add_file("c".to_string(), b"0123456789 completely unrelated content here".to_vec());
    let fps = lzjd_fingerprints(&subs);
    assert_eq!(fps.len(), 3);
    assert_eq!(fps[0], fps[1]);
    assert_ne!(fps[0], fps[2]);
    assert!(!fps[0].is_empty());
    assert_ne!(fps[0].as_bytes(), &text[..]);
}
