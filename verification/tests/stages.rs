use string_similarity::matcher::{isqrt, match_windows};
use string_similarity::normalize::{normalize, strip_token};
use string_similarity::score::{count_transpositions, score_millis};

fn chars(s: &str) -> Vec<char> {
    s.chars().collect()
}

#[test]
fn normalize_strips_and_folds() {
    let strip: Vec<&str> = vec![" "];
    assert_eq!(normalize("1313 A St", &strip, false), chars("1313AST"));
}

#[test]
fn normalize_keeps_case_on_request() {
    let strip: Vec<&str> = vec![];
    assert_eq!(normalize("AbC", &strip, true), chars("AbC"));
}

#[test]
fn normalize_strips_multichar_token() {
    let strip: Vec<&str> = vec!["ab"];
    assert_eq!(normalize("aabb", &strip, true), chars("ab"));
}

#[test]
fn strip_token_removes_left_to_right() {
    assert_eq!(strip_token(&chars("aaa"), &chars("aa")), chars("a"));
    assert_eq!(strip_token(&chars("xyx"), &chars("y")), chars("xx"));
    assert_eq!(strip_token(&chars("xyx"), &chars("")), chars("xyx"));
}

#[test]
fn isqrt_values() {
    assert_eq!(isqrt(0), 0);
    assert_eq!(isqrt(1), 1);
    assert_eq!(isqrt(6), 2);
    assert_eq!(isqrt(35), 5);
    assert_eq!(isqrt(36), 6);
    assert_eq!(isqrt(u64::MAX), 4294967295);
}

#[test]
fn matcher_worked_scenario() {
    let long = chars("MARTHA");
    let short = chars("MARHTA");
    let (m1, m2) = match_windows(&long, &short, 2);
    assert_eq!(m1, vec![0, 1, 2, 3, 4, 5]);
    assert_eq!(m2, vec![0, 1, 2, 4, 3, 5]);
    // No short-string position is consumed twice.
    for a in 0..m2.len() {
        for b in (a + 1)..m2.len() {
            assert_ne!(m2[a], m2[b]);
        }
    }
}

#[test]
fn matcher_consumes_each_position_once() {
    let long = chars("OOLONG");
    let short = chars("GOOSE");
    let (m1, m2) = match_windows(&long, &short, 2);
    assert_eq!(m1, vec![0, 1]);
    assert_eq!(m2, vec![1, 2]);
}

#[test]
fn transpositions_adjacent_inversions_only() {
    assert_eq!(count_transpositions(&vec![0, 1, 2, 4, 3, 5]), 1);
    assert_eq!(count_transpositions(&vec![0, 1, 2, 3]), 0);
    assert_eq!(count_transpositions(&vec![3, 2, 1, 0]), 3);
    assert_eq!(count_transpositions(&vec![5]), 0);
    assert_eq!(count_transpositions(&vec![]), 0);
}

#[test]
fn score_rounds_half_away_from_zero() {
    // All 2000 positions match with 3 transpositions: the raw score is
    // 5997/6000, or 999.5 thousandths, which rounds away from zero.
    assert_eq!(score_millis(2000, 2000, 2000, 3), 1000);
    // 9 transpositions give 998.5 thousandths: half-away-from-zero gives
    // 999 where banker's rounding would give 998.
    assert_eq!(score_millis(2000, 2000, 2000, 9), 999);
}

#[test]
fn score_worked_values() {
    // The MARTHA/MARHTA figures: 17/18 rounds down to 944 thousandths.
    assert_eq!(score_millis(6, 6, 6, 1), 944);
    // A single match between long strings scores near one third.
    assert_eq!(score_millis(5, 3, 1, 0), 511);
    assert_eq!(score_millis(1, 1, 1, 0), 1000);
}
