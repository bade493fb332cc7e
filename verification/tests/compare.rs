use string_similarity::string_compare;

#[test]
fn exact_match_same_string() {
    let strip: Vec<&str> = vec![" "];
    assert_eq!(string_compare("martha", "martha", &strip, false, 4), 1000);
}

#[test]
fn exact_match_same_string_any_config() {
    let strip: Vec<&str> = vec!["-", " "];
    assert_eq!(
        string_compare("1313-123 Westcourt Place", "1313-123 Westcourt Place", &strip, true, 0),
        1000
    );
}

#[test]
fn empty_inputs_exact_match() {
    let strip: Vec<&str> = vec![" "];
    assert_eq!(string_compare("", "", &strip, false, 4), 1000);
}

#[test]
fn empty_against_nonempty_is_zero() {
    let strip: Vec<&str> = vec![];
    assert_eq!(string_compare("", "xyz", &strip, false, 0), 0);
}

#[test]
fn short_string_guard() {
    // The longer string contains the shorter as a substring, but the
    // shorter's length 2 is at most the threshold 4.
    let strip: Vec<&str> = vec![];
    assert_eq!(string_compare("ab", "abcd", &strip, false, 4), 0);
}

#[test]
fn short_scenario_on_ont() {
    let strip: Vec<&str> = vec![];
    assert_eq!(string_compare("ON", "ONT", &strip, false, 4), 0);
}

#[test]
fn worked_scenario_martha() {
    // MARTHA / MARHTA: 6 matches, one adjacent inversion, score
    // ((6/6) + (6/6) + 5/6) / 3 = 0.9444... which rounds to 0.944.
    let strip: Vec<&str> = vec![];
    assert_eq!(string_compare("martha", "marhta", &strip, false, 0), 944);
}

#[test]
fn scenario_identical_after_stripping() {
    let strip: Vec<&str> = vec![" "];
    assert_eq!(string_compare("1313 A St", "1313A St", &strip, false, 4), 1000);
}

#[test]
fn scenario_goose_oolong() {
    // Two matches, no transposition: (2/6 + 2/5 + 2/2) / 3 = 26/45,
    // which rounds to 0.578.
    let strip: Vec<&str> = vec![];
    assert_eq!(string_compare("goose", "oolong", &strip, false, 4), 578);
}

#[test]
fn scenario_postal_addresses() {
    let strip: Vec<&str> = vec![" "];
    assert_eq!(
        string_compare(
            "1313-123 Westcourt Place N2L 1B3",
            "Unit 1313 123 Westcourt Pl. N2L1B3",
            &strip,
            false,
            4
        ),
        895
    );
}

#[test]
fn scenario_names() {
    let strip: Vec<&str> = vec![" "];
    assert_eq!(string_compare("Mr. John Smith", "John M Smith", &strip, false, 4), 883);
    assert_eq!(string_compare("Julie S Morin", "Julie T Morin", &strip, false, 4), 939);
    assert_eq!(string_compare("Katherine", "Kahterine", &strip, false, 4), 963);
}

#[test]
fn case_folding_by_default() {
    // With the default folding the strings become equal; if folding were
    // skipped (or returned its input unchanged), no character would match.
    let strip: Vec<&str> = vec![];
    assert_eq!(string_compare("HELLO", "hello", &strip, false, 0), 1000);
    assert_eq!(string_compare("HELLO", "hello", &strip, true, 0), 0);
}

#[test]
fn strip_tokens_apply_in_order() {
    // Removing "ab" first turns "abb" into "b", which the second token
    // then removes; both inputs normalize to the empty string.
    let strip: Vec<&str> = vec!["ab", "b"];
    assert_eq!(string_compare("abb", "b", &strip, true, 4), 1000);
}

#[test]
fn window_exclusion_stops_the_scan() {
    // Both long strings hold the shorter one whole, but with a length of
    // 36 the half-window is 6: positions past the point where the window
    // start exceeds the shorter length are never scanned, so the
    // embedded "ABCDE" only counts when it sits near the front.
    let strip: Vec<&str> = vec![];
    let far: String = format!("{}ABCDE{}", "X".repeat(12), "X".repeat(19));
    assert_eq!(string_compare(&far, "ABCDE", &strip, false, 0), 0);
    let near: String = format!("ABCDE{}", "X".repeat(31));
    assert_eq!(string_compare(&near, "ABCDE", &strip, false, 0), 713);
}

#[test]
fn absent_tokens_are_no_ops() {
    let strip: Vec<&str> = vec!["zzz", "@@"];
    assert_eq!(string_compare("martha", "marhta", &strip, false, 0), 944);
}
