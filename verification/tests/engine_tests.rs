//! Behaviour of the two entry points: degenerate inputs, ranking, the cap,
//! sharding transparency, stability, smart case, and cancellation.

use std::sync::atomic::AtomicBool;

use fuzzy::matches::StringMatchCandidate;
use fuzzy::strings::{match_strings, match_strings_synchronously};

fn candidates(texts: &[&str]) -> Vec<StringMatchCandidate> {
    texts.iter().enumerate().map(|(i, t)| StringMatchCandidate::new(i, t)).collect()
}

#[test]
fn empty_query_returns_all_in_order() {
    let cands = candidates(&["beta", "alpha", "gamma"]);
    let flag = AtomicBool::new(false);
    let results = match_strings_synchronously(&cands, "", false, 10, &flag);
    assert_eq!(results.len(), 3);
    for (i, m) in results.iter().enumerate() {
        assert_eq!(m.candidate_id, i);
        assert_eq!(m.score, 0);
        assert!(m.positions.is_empty());
    }
    assert_eq!(results[0].string, "beta");
    assert_eq!(results[1].string, "alpha");
    assert_eq!(results[2].string, "gamma");
}

#[test]
fn empty_query_ignores_cap() {
    let cands = candidates(&["one", "two", "three"]);
    let flag = AtomicBool::new(false);
    let results = match_strings_synchronously(&cands, "", false, 1, &flag);
    assert_eq!(results.len(), 3);
    let parallel = match_strings(&cands, "", false, 1, &flag, 4);
    assert_eq!(parallel.len(), 3);
}

#[test]
fn zero_cap_returns_empty() {
    let cands = candidates(&["one", "two"]);
    let flag = AtomicBool::new(false);
    assert!(match_strings_synchronously(&cands, "on", false, 0, &flag).is_empty());
    assert!(match_strings(&cands, "on", false, 0, &flag, 2).is_empty());
    assert!(match_strings_synchronously(&cands, "", false, 0, &flag).is_empty());
}

#[test]
fn empty_candidates_return_empty() {
    let cands: Vec<StringMatchCandidate> = Vec::new();
    let flag = AtomicBool::new(false);
    assert!(match_strings_synchronously(&cands, "q", false, 5, &flag).is_empty());
    assert!(match_strings(&cands, "q", false, 5, &flag, 3).is_empty());
}

#[test]
fn parallel_equals_synchronous() {
    let texts = [
        "src/main.rs",
        "README.md",
        "tests/engine.rs",
        "merge.rs",
        "scorer.rs",
        "match_strings.rs",
        "Cargo.lock",
        "strings.rs",
        "laws.rs",
        "char_bag.rs",
    ];
    let cands = candidates(&texts);
    let flag = AtomicBool::new(false);
    let sync = match_strings_synchronously(&cands, "rs", false, 5, &flag);
    for workers in [1, 2, 3, 7, 16] {
        let sharded = match_strings(&cands, "rs", false, 5, &flag, workers);
        assert_eq!(sharded.len(), sync.len());
        for (a, b) in sharded.iter().zip(sync.iter()) {
            assert_eq!(a.candidate_id, b.candidate_id);
            assert_eq!(a.score, b.score);
            assert_eq!(a.positions, b.positions);
        }
    }
}

#[test]
fn merge_is_stable_on_equal_scores() {
    // Identical texts give identical scores; ids arrive out of order and in
    // different shards, yet the smaller id must sort first.
    let cands = vec![
        StringMatchCandidate::new(7, "same"),
        StringMatchCandidate::new(2, "same"),
    ];
    let flag = AtomicBool::new(false);
    let results = match_strings(&cands, "same", false, 10, &flag, 2);
    assert_eq!(results.len(), 2);
    assert_eq!(results[0].candidate_id, 2);
    assert_eq!(results[1].candidate_id, 7);
}

#[test]
fn cap_is_enforced() {
    let cands = candidates(&["aa", "ab", "ac", "ad", "ae"]);
    let flag = AtomicBool::new(false);
    let sync = match_strings_synchronously(&cands, "a", false, 2, &flag);
    assert_eq!(sync.len(), 2);
    let sharded = match_strings(&cands, "a", false, 2, &flag, 3);
    assert_eq!(sharded.len(), 2);
}

#[test]
fn results_sorted_by_score_then_id() {
    let cands = candidates(&["a__b", "ab", "a_b"]);
    let flag = AtomicBool::new(false);
    let results = match_strings_synchronously(&cands, "ab", false, 10, &flag);
    assert_eq!(results.len(), 3);
    // Tighter spans score higher.
    assert_eq!(results[0].candidate_id, 1);
    assert_eq!(results[1].candidate_id, 2);
    assert_eq!(results[2].candidate_id, 0);
    assert!(results[0].score > results[1].score);
    assert!(results[1].score > results[2].score);
}

#[test]
fn score_formula_exact_values() {
    let cands = candidates(&["ab", "a_b"]);
    let flag = AtomicBool::new(false);
    let results = match_strings_synchronously(&cands, "ab", false, 10, &flag);
    // Span of "ab" in "ab" is 2 bytes: 1000000 - 2.
    assert_eq!(results[0].score, 999998);
    // Span of "a_b" match is 3 bytes: 1000000 - 3.
    assert_eq!(results[1].score, 999997);
}

#[test]
fn positions_are_byte_offsets_of_matches() {
    let cands = candidates(&["xaxb"]);
    let flag = AtomicBool::new(false);
    let results = match_strings_synchronously(&cands, "ab", false, 10, &flag);
    assert_eq!(results.len(), 1);
    assert_eq!(results[0].positions, vec![1, 3]);
}

#[test]
fn case_folded_matching() {
    let cands = candidates(&["README"]);
    let flag = AtomicBool::new(false);
    let results = match_strings_synchronously(&cands, "readme", false, 10, &flag);
    assert_eq!(results.len(), 1);
    let results = match_strings_synchronously(&cands, "ReAdMe", false, 10, &flag);
    assert_eq!(results.len(), 1);
}

#[test]
fn smart_case_requires_exact_uppercase() {
    let cands = candidates(&["ab", "Ab"]);
    let flag = AtomicBool::new(false);
    let smart = match_strings_synchronously(&cands, "Ab", true, 10, &flag);
    assert_eq!(smart.len(), 1);
    assert_eq!(smart[0].candidate_id, 1);
    let lax = match_strings_synchronously(&cands, "Ab", false, 10, &flag);
    assert_eq!(lax.len(), 2);
}

#[test]
fn fingerprint_rejects_missing_characters() {
    let cands = candidates(&["abc"]);
    let flag = AtomicBool::new(false);
    assert!(match_strings_synchronously(&cands, "xyz", false, 10, &flag).is_empty());
}

#[test]
fn multibyte_query_matches_multibyte_text() {
    let cands = candidates(&["h\u{e9}llo"]);
    let flag = AtomicBool::new(false);
    let results = match_strings_synchronously(&cands, "\u{e9}l", false, 10, &flag);
    assert_eq!(results.len(), 1);
    // The 2-byte character starts at offset 1, the following 'l' at 3.
    assert_eq!(results[0].positions, vec![1, 3]);
}

#[test]
fn cancellation_before_call_stops_scoring() {
    let texts: Vec<String> = (0..100000).map(|i| format!("candidate_number_{}", i)).collect();
    let cands: Vec<StringMatchCandidate> =
        texts.iter().enumerate().map(|(i, t)| StringMatchCandidate::new(i, t)).collect();
    let flag = AtomicBool::new(true);
    let sync = match_strings_synchronously(&cands, "candidate", false, 10, &flag);
    let sharded = match_strings(&cands, "candidate", false, 10, &flag, 8);
    // A pre-set flag is observed at the first poll of every shard: the
    // partial result is empty, which trivially satisfies every ordering
    // invariant, and the call returns promptly.
    assert!(sync.is_empty());
    assert!(sharded.is_empty());
}

#[test]
fn candidate_new_derives_fields() {
    let cand = StringMatchCandidate::new(5, "Hello");
    assert_eq!(cand.id, 5);
    assert_eq!(cand.string, "Hello");
    assert_eq!(cand.to_string(), "Hello");
    let other = StringMatchCandidate::new(6, "Hello");
    assert!(cand.has_chars(other.char_bag));
}

#[test]
fn extend_sorted_merges_and_caps() {
    let cands = candidates(&["ab", "a_b", "a__b", "a___b"]);
    let flag = AtomicBool::new(false);
    let mut left = match_strings_synchronously(&cands[..2], "ab", false, 10, &flag);
    let right = match_strings_synchronously(&cands[2..], "ab", false, 10, &flag);
    fuzzy::merge::extend_sorted(&mut left, right, 3);
    assert_eq!(left.len(), 3);
    assert_eq!(left[0].candidate_id, 0);
    assert_eq!(left[1].candidate_id, 1);
    assert_eq!(left[2].candidate_id, 2);
}
