//! Approximate-match scoring for human-entered strings.
//!
//! The score between two strings is a value in [0, 1], reported in
//! thousandths (an integer in 0..=1000), computed by four stages:
//! normalization (token stripping and optional case folding), a
//! longest-first ordering with short-circuits, a bounded-window greedy
//! character matcher, and a weighted formula rounded half-away-from-zero
//! to three decimal places. Strings are indexed by character (code
//! point), not by byte.
use vstd::prelude::*;

pub mod matcher;
pub mod normalize;
pub mod score;
mod wide;

use crate::matcher::{
    greedy_matches, isqrt, isqrt_spec, lemma_greedy_matches_wf, lemma_isqrt_bounds, match_windows,
};
use crate::normalize::{normalize, normalize_spec, token_views};
use crate::score::{
    count_transpositions, lemma_round_millis_range, lemma_transposition_count_bound, score_den,
    score_millis, score_millis_spec, score_num, transposition_count,
};

verus! {

/// Whether two character vectors hold the same characters.
fn chars_eq(a: &Vec<char>, b: &Vec<char>) -> (r: bool)
    ensures
        r == (a@ == b@),
{
    if a.len() != b.len() {
        return false;
    }
    let mut i: usize = 0;
    while i < a.len()
        invariant
            i <= a@.len(),
            a@.len() == b@.len(),
            forall|q: int| 0 <= q < i ==> a@[q] == b@[q],
        decreases a@.len() - i,
    {
        if a[i] != b[i] {
            return false;
        }
        i += 1;
    }
    proof {
        assert(a@ =~= b@);
    }
    true
}

/// The whole comparison, over the views of the inputs: normalize both
/// strings, order them longest first, short-circuit on an exact match or
/// a too-short shorter string, then run the greedy window matcher and
/// score its matches. The result is the similarity in thousandths.
pub open spec fn similarity_millis(
    s1: Seq<char>,
    s2: Seq<char>,
    toks: Seq<Seq<char>>,
    keep_case: bool,
    ignore_short: u64,
) -> int {
    let a = normalize_spec(s1, toks, keep_case);
    let b = normalize_spec(s2, toks, keep_case);
    let lng = if a.len() >= b.len() {
        a
    } else {
        b
    };
    let sht = if a.len() >= b.len() {
        b
    } else {
        a
    };
    if lng == sht {
        1000
    } else if sht.len() == 0 || sht.len() <= ignore_short {
        0
    } else {
        let taken = greedy_matches(lng, sht, isqrt_spec(lng.len()) as int);
        if taken.len() == 0 {
            0
        } else {
            score_millis_spec(
                lng.len(),
                sht.len(),
                taken.len(),
                transposition_count(taken.map_values(|p: (int, int)| p.1)),
            )
        }
    }
}

/// Exact match: comparing any string with itself yields the full score,
/// whatever the configuration.
pub proof fn lemma_exact_match_full_score(
    s: Seq<char>,
    toks: Seq<Seq<char>>,
    keep_case: bool,
    ignore_short: u64,
)
    ensures
        similarity_millis(s, s, toks, keep_case, ignore_short) == 1000,
{
}

/// The score always lies within [0, 1000]: from no similarity through an
/// exact match, whatever the inputs and configuration.
pub proof fn lemma_score_in_range(
    s1: Seq<char>,
    s2: Seq<char>,
    toks: Seq<Seq<char>>,
    keep_case: bool,
    ignore_short: u64,
)
    ensures
        0 <= similarity_millis(s1, s2, toks, keep_case, ignore_short) <= 1000,
{
    let a = normalize_spec(s1, toks, keep_case);
    let b = normalize_spec(s2, toks, keep_case);
    let lng = if a.len() >= b.len() {
        a
    } else {
        b
    };
    let sht = if a.len() >= b.len() {
        b
    } else {
        a
    };
    if lng != sht && sht.len() > 0 && sht.len() > ignore_short {
        let mdist = isqrt_spec(lng.len()) as int;
        let taken = greedy_matches(lng, sht, mdist);
        if taken.len() > 0 {
            lemma_greedy_matches_wf(lng, sht, mdist);
            let seconds = taken.map_values(|p: (int, int)| p.1);
            lemma_transposition_count_bound(seconds);
            let l1 = lng.len();
            let l2 = sht.len();
            let n = taken.len();
            let t = transposition_count(seconds);
            assert(0 <= score_num(l1, l2, n, t) <= score_den(l1, l2, n) && 0 < score_den(
                l1,
                l2,
                n,
            )) by (nonlinear_arith)
                requires
                    1 <= n <= l2 <= l1,
                    0 <= t < n,
            ;
            lemma_round_millis_range(score_num(l1, l2, n, t), score_den(l1, l2, n));
        }
    }
}

/// Compare two strings and return their similarity in thousandths: 0
/// for no similarity, 1000 for an exact match after normalization.
/// Every occurrence of each `strip` token is removed from both inputs
/// first, in the order given; unless `keep_case` is set, both are then
/// folded to upper case. If the normalized strings are equal the score
/// is 1000; otherwise, if the shorter one's length is no more than
/// `ignore_short`, the score is 0 — too-short strings are deemed
/// uninformative by design.
pub fn string_compare(
    s1: &str,
    s2: &str,
    strip: &Vec<&str>,
    keep_case: bool,
    ignore_short: u64,
) -> (score: u32)
    ensures
        score == similarity_millis(s1@, s2@, token_views(strip@), keep_case, ignore_short),
        score <= 1000,
{
    let a = normalize(s1, strip, keep_case);
    let b = normalize(s2, strip, keep_case);
    let ordered: bool = a.len() >= b.len();
    let (lng, sht) = if ordered {
        (a, b)
    } else {
        (b, a)
    };
    if chars_eq(&lng, &sht) {
        return 1000;
    }
    let l2: usize = sht.len();
    if l2 == 0 || (l2 as u64) <= ignore_short {
        return 0;
    }
    let l1: usize = lng.len();
    let mdist_wide: u64 = isqrt(l1 as u64);
    proof {
        lemma_isqrt_bounds(l1 as nat);
        let r = isqrt_spec(l1 as nat);
        if r >= 1 {
            assert(r <= r * r) by (nonlinear_arith)
                requires
                    r >= 1,
            ;
        }
    }
    let mdist: usize = mdist_wide as usize;
    let (_matched_long, m2) = match_windows(&lng, &sht, mdist);
    let n: usize = m2.len();
    if n == 0 {
        return 0;
    }
    let t: u64 = count_transpositions(&m2);
    proof {
        let taken = greedy_matches(lng@, sht@, mdist as int);
        assert(taken.map_values(|p: (int, int)| p.1) =~= m2@.map_values(|x: usize| x as int));
    }
    score_millis(l1 as u64, l2 as u64, n as u64, t)
}

} // verus!
