//! Fuzzy matching, scoring and ranking.

use sshpick::fuzzy::{match_candidate, rank_candidates};

fn chars(s: &str) -> Vec<char> {
    s.chars().collect()
}

fn strings(xs: &[&str]) -> Vec<String> {
    xs.iter().map(|x| x.to_string()).collect()
}

#[test]
fn empty_query_keeps_original_order() {
    let cands = strings(&["bb", "a", "ccc"]);
    let ranked = rank_candidates(&cands, &chars(""));
    let idxs: Vec<usize> = ranked.iter().map(|r| r.idx).collect();
    assert_eq!(idxs, vec![0, 1, 2]);
    assert!(ranked.iter().all(|r| r.score == 0));
}

#[test]
fn db1_ranks_first() {
    let cands = strings(&["db1", "database-1", "webdb1"]);
    let ranked = rank_candidates(&cands, &chars("db1"));
    assert_eq!(ranked.len(), 3);
    assert_eq!(ranked[0].idx, 0);
}

#[test]
fn query_with_absent_character_excludes_candidate() {
    let cands = strings(&["abc"]);
    let ranked = rank_candidates(&cands, &chars("xyz"));
    assert_eq!(ranked.len(), 0);
}

#[test]
fn nonmatching_candidates_drop_out() {
    let cands = strings(&["alpha", "beta", "gamma"]);
    let ranked = rank_candidates(&cands, &chars("ta"));
    // Only "beta" carries a 't' followed by an 'a'.
    let idxs: Vec<usize> = ranked.iter().map(|r| r.idx).collect();
    assert_eq!(idxs, vec![1]);
}

#[test]
fn matching_ignores_ascii_case() {
    let m = match_candidate(&chars("DB"), "xdb", 0);
    assert!(m.is_some());
    let m2 = match_candidate(&chars("db"), "XDB", 0);
    assert!(m2.is_some());
}

#[test]
fn exact_match_score_and_positions() {
    let m = match_candidate(&chars("db1"), "db1", 7).expect("must match");
    assert_eq!(m.idx, 7);
    assert_eq!(m.clen, 3);
    assert_eq!(m.positions, vec![0, 1, 2]);
    // Position rewards 16 + 14 + 12, a word-start reward of 12, and
    // run rewards 6 and 12.
    assert_eq!(m.score, 72);
}

#[test]
fn greedy_positions_take_earliest_occurrences() {
    let m = match_candidate(&chars("db1"), "database-1", 0).expect("must match");
    assert_eq!(m.positions, vec![0, 4, 9]);
    // 16 + 12 at the start, 8 for the early 'b', and 12 for the '1'
    // after the separator.
    assert_eq!(m.score, 48);
}

#[test]
fn equal_scores_put_the_shorter_candidate_first() {
    let cands = strings(&["aa", "a"]);
    let ranked = rank_candidates(&cands, &chars("a"));
    let idxs: Vec<usize> = ranked.iter().map(|r| r.idx).collect();
    assert_eq!(idxs, vec![1, 0]);
}

#[test]
fn full_ties_keep_input_order() {
    let cands = strings(&["x", "x"]);
    let ranked = rank_candidates(&cands, &chars("x"));
    let idxs: Vec<usize> = ranked.iter().map(|r| r.idx).collect();
    assert_eq!(idxs, vec![0, 1]);
}

#[test]
fn empty_candidate_matches_only_the_empty_query() {
    assert!(match_candidate(&chars("a"), "", 0).is_none());
    assert!(match_candidate(&chars(""), "", 0).is_some());
}

#[test]
fn word_start_outranks_an_embedded_match() {
    let cands = strings(&["web-db1", "db-server"]);
    let ranked = rank_candidates(&cands, &chars("db"));
    assert_eq!(ranked[0].idx, 1);
}
