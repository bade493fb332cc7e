//! The window-matching stage: a bounded-window greedy scan that pairs
//! positions of the longer string with positions of the shorter one.
use vstd::prelude::*;

verus! {

/// Floor of the square root, used as the half-window size.
pub open spec fn isqrt_spec(x: nat) -> nat
    decreases x,
{
    if x == 0 {
        0
    } else {
        let r = isqrt_spec((x - 1) as nat);
        if (r + 1) * (r + 1) <= x {
            r + 1
        } else {
            r
        }
    }
}

pub proof fn lemma_isqrt_bounds(x: nat)
    ensures
        isqrt_spec(x) * isqrt_spec(x) <= x,
        x < (isqrt_spec(x) + 1) * (isqrt_spec(x) + 1),
    decreases x,
{
    let s = isqrt_spec(x);
    if x > 0 {
        lemma_isqrt_bounds((x - 1) as nat);
        let r = isqrt_spec((x - 1) as nat);
        assert(r * r <= x - 1);
        assert(x - 1 < (r + 1) * (r + 1));
        if (r + 1) * (r + 1) <= x {
            assert(s == r + 1);
            assert(s * s <= x && x < (s + 1) * (s + 1)) by (nonlinear_arith)
                requires
                    s == r + 1,
                    (r + 1) * (r + 1) <= x,
                    x <= (r + 1) * (r + 1),
                    r >= 0,
            ;
        } else {
            assert(s == r);
            assert(s * s <= x && x < (s + 1) * (s + 1)) by (nonlinear_arith)
                requires
                    s == r,
                    r * r <= x,
                    x < (r + 1) * (r + 1),
            ;
        }
    } else {
        assert(s == 0);
        assert(s * s <= x && x < (s + 1) * (s + 1)) by (nonlinear_arith)
            requires
                s == 0,
                x == 0,
        ;
    }
}

/// Floor of the square root, by binary search.
pub fn isqrt(x: u64) -> (r: u64)
    ensures
        r == isqrt_spec(x as nat),
{
    let mut lo: u64 = 0;
    let mut hi: u64 = 0x1_0000_0000;
    while hi - lo > 1
        invariant
            lo < hi <= 0x1_0000_0000,
            (lo as int) * (lo as int) <= x,
            (x as int) < (hi as int) * (hi as int),
        decreases hi - lo,
    {
        let mid: u64 = lo + (hi - lo) / 2;
        proof {
            assert((mid as int) * (mid as int) < 0x1_0000_0000_0000_0000_0000_0000_0000_0000)
                by (nonlinear_arith)
                requires
                    mid <= 0x1_0000_0000,
            ;
        }
        let sq: u128 = (mid as u128) * (mid as u128);
        if sq <= (x as u128) {
            lo = mid;
        } else {
            hi = mid;
        }
    }
    proof {
        lemma_isqrt_bounds(x as nat);
        let r = isqrt_spec(x as nat);
        assert(lo == r) by (nonlinear_arith)
            requires
                (lo as int) * (lo as int) <= x,
                x < ((lo + 1) as int) * ((lo + 1) as int),
                r * r <= x,
                x < (r + 1) * (r + 1),
                r >= 0,
                lo >= 0,
        ;
    }
    lo
}

/// Whether some already-made match consumes short-string position `j`.
pub open spec fn pair_consumes(taken: Seq<(int, int)>, j: int) -> bool {
    exists|k: int| 0 <= k < taken.len() && taken[k].1 == j
}

/// The first position in `[from, upto)` of `short` that holds character
/// `c` and is not yet consumed, or -1 if there is none.
pub open spec fn first_free_match(
    c: char,
    short: Seq<char>,
    taken: Seq<(int, int)>,
    from: int,
    upto: int,
) -> int
    decreases upto - from,
{
    if from < 0 || from >= upto {
        -1
    } else if from < short.len() && short[from] == c && !pair_consumes(taken, from) {
        from
    } else {
        first_free_match(c, short, taken, from + 1, upto)
    }
}

/// The greedy window scan from long-string position `i` on, given the
/// matches already made; yields all matched pairs at the end of the scan.
/// Each position of the long string takes the first unconsumed position
/// of the short string within `mdist` of it that holds the same
/// character, or none.
pub open spec fn greedy_from(
    long: Seq<char>,
    short: Seq<char>,
    mdist: int,
    i: int,
    taken: Seq<(int, int)>,
) -> Seq<(int, int)>
    decreases long.len() - i,
{
    if i < 0 || i >= long.len() {
        taken
    } else {
        let ws = if i - mdist > 0 {
            i - mdist
        } else {
            0
        };
        let we = if i + mdist < short.len() {
            i + mdist
        } else {
            short.len() as int
        };
        if ws > short.len() {
            taken
        } else if first_free_match(long[i], short, taken, ws, we) >= 0 {
            greedy_from(
                long,
                short,
                mdist,
                i + 1,
                taken.push((i, first_free_match(long[i], short, taken, ws, we))),
            )
        } else {
            greedy_from(long, short, mdist, i + 1, taken)
        }
    }
}

/// All matched pairs of the whole scan, in the order they are made.
pub open spec fn greedy_matches(long: Seq<char>, short: Seq<char>, mdist: int) -> Seq<(int, int)> {
    greedy_from(long, short, mdist, 0, Seq::empty())
}

/// Window-exclusion scan stop: once the window start lies beyond the end
/// of the short string, the scan records no further match, whatever
/// remains of the long string.
pub proof fn lemma_window_scan_stop(
    long: Seq<char>,
    short: Seq<char>,
    mdist: int,
    i: int,
    taken: Seq<(int, int)>,
)
    requires
        i - mdist > short.len(),
    ensures
        greedy_from(long, short, mdist, i, taken) == taken,
{
}

/// Whether no two matched pairs consume one short-string position.
pub open spec fn distinct_consumed(taken: Seq<(int, int)>) -> bool {
    forall|k1: int, k2: int| 0 <= k1 < k2 < taken.len() ==> taken[k1].1 != taken[k2].1
}

proof fn lemma_first_free_match_props(
    c: char,
    short: Seq<char>,
    taken: Seq<(int, int)>,
    from: int,
    upto: int,
)
    requires
        first_free_match(c, short, taken, from, upto) >= 0,
    ensures
        !pair_consumes(taken, first_free_match(c, short, taken, from, upto)),
        from <= first_free_match(c, short, taken, from, upto) < upto,
        first_free_match(c, short, taken, from, upto) < short.len(),
        short[first_free_match(c, short, taken, from, upto)] == c,
    decreases upto - from,
{
    if !(from < 0 || from >= upto) {
        if !(from < short.len() && short[from] == c && !pair_consumes(taken, from)) {
            lemma_first_free_match_props(c, short, taken, from + 1, upto);
        }
    }
}

proof fn lemma_greedy_from_distinct(
    long: Seq<char>,
    short: Seq<char>,
    mdist: int,
    i: int,
    taken: Seq<(int, int)>,
)
    requires
        distinct_consumed(taken),
    ensures
        distinct_consumed(greedy_from(long, short, mdist, i, taken)),
    decreases long.len() - i,
{
    if 0 <= i < long.len() {
        let ws = if i - mdist > 0 {
            i - mdist
        } else {
            0
        };
        let we = if i + mdist < short.len() {
            i + mdist
        } else {
            short.len() as int
        };
        if ws <= short.len() {
            let j = first_free_match(long[i], short, taken, ws, we);
            if j >= 0 {
                lemma_first_free_match_props(long[i], short, taken, ws, we);
                let pushed = taken.push((i, j));
                assert(distinct_consumed(pushed)) by {
                    assert forall|k1: int, k2: int|
                        0 <= k1 < k2 < pushed.len() implies pushed[k1].1 != pushed[k2].1 by {
                        if k2 == taken.len() as int {
                            if pushed[k1].1 == j {
                                assert(taken[k1].1 == j);
                                assert(pair_consumes(taken, j));
                            }
                        }
                    }
                }
                lemma_greedy_from_distinct(long, short, mdist, i + 1, pushed);
            } else {
                lemma_greedy_from_distinct(long, short, mdist, i + 1, taken);
            }
        }
    }
}

/// A sequence of pairwise-distinct integers drawn from `[0, bound)` is
/// no longer than `bound`.
proof fn lemma_bounded_distinct_len(vals: Seq<int>, bound: int)
    requires
        bound >= 0,
        forall|k: int| 0 <= k < vals.len() ==> 0 <= #[trigger] vals[k] < bound,
        forall|k1: int, k2: int| 0 <= k1 < k2 < vals.len() ==> vals[k1] != vals[k2],
    ensures
        vals.len() <= bound,
{
    broadcast use vstd::seq_lib::seq_to_set_is_finite;

    assert(vals.no_duplicates()) by {
        assert forall|k1: int, k2: int|
            0 <= k1 < vals.len() && 0 <= k2 < vals.len() && k1 != k2 implies vals[k1]
            != vals[k2] by {
            if k1 < k2 {
            } else {
                assert(vals[k2] != vals[k1]);
            }
        }
    }
    vals.unique_seq_to_set();
    vstd::set_lib::lemma_int_range(0, bound);
    assert(vals.to_set().subset_of(vstd::set_lib::set_int_range(0, bound)));
    vstd::set_lib::lemma_len_subset(vals.to_set(), vstd::set_lib::set_int_range(0, bound));
}

/// The pairs that the greedy scan yields are well-formed: short-string
/// positions lie within the shorter string and are pairwise distinct,
/// and long-string positions are strictly increasing and lie within the
/// longer string. Hence the scan makes no more matches than either
/// string has positions.
pub proof fn lemma_greedy_matches_wf(long: Seq<char>, short: Seq<char>, mdist: int)
    ensures
        pairs_within(greedy_matches(long, short, mdist), long.len() as int, short.len() as int),
        pairs_ordered(greedy_matches(long, short, mdist)),
        greedy_matches(long, short, mdist).len() <= long.len(),
        greedy_matches(long, short, mdist).len() <= short.len(),
{
    lemma_greedy_from_wf(long, short, mdist, 0, Seq::empty());
    let taken = greedy_matches(long, short, mdist);
    let firsts = taken.map_values(|p: (int, int)| p.0);
    let seconds = taken.map_values(|p: (int, int)| p.1);
    assert forall|k: int| 0 <= k < firsts.len() implies 0 <= #[trigger] firsts[k]
        < long.len() by {
        assert(0 <= taken[k].0 < long.len() && firsts[k] == taken[k].0);
    }
    assert forall|k1: int, k2: int| 0 <= k1 < k2 < firsts.len() implies firsts[k1]
        != firsts[k2] by {
        assert(taken[k1].0 < taken[k2].0);
    }
    assert forall|k: int| 0 <= k < seconds.len() implies 0 <= #[trigger] seconds[k]
        < short.len() by {
        assert(0 <= taken[k].1 < short.len() && seconds[k] == taken[k].1);
    }
    assert forall|k1: int, k2: int| 0 <= k1 < k2 < seconds.len() implies seconds[k1]
        != seconds[k2] by {
        assert(taken[k1].1 != taken[k2].1);
    }
    lemma_bounded_distinct_len(firsts, long.len() as int);
    lemma_bounded_distinct_len(seconds, short.len() as int);
}

/// Whether every pair points inside the two strings: long-string
/// positions below `l1`, short-string positions below `l2`.
pub open spec fn pairs_within(ps: Seq<(int, int)>, l1: int, l2: int) -> bool {
    forall|k: int| 0 <= k < ps.len() ==> 0 <= (#[trigger] ps[k]).0 < l1 && 0 <= ps[k].1 < l2
}

/// Whether the pairs are made at strictly increasing long-string
/// positions, no two consuming one short-string position.
pub open spec fn pairs_ordered(ps: Seq<(int, int)>) -> bool {
    forall|k1: int, k2: int|
        0 <= k1 < k2 < ps.len() ==> (#[trigger] ps[k1]).0 < (#[trigger] ps[k2]).0 && ps[k1].1
            != ps[k2].1
}

proof fn lemma_greedy_from_wf(
    long: Seq<char>,
    short: Seq<char>,
    mdist: int,
    i: int,
    taken: Seq<(int, int)>,
)
    requires
        0 <= i <= long.len(),
        pairs_within(taken, i, short.len() as int),
        pairs_ordered(taken),
    ensures
        pairs_within(greedy_from(long, short, mdist, i, taken), long.len() as int, short.len() as int),
        pairs_ordered(greedy_from(long, short, mdist, i, taken)),
    decreases long.len() - i,
{
    if i < long.len() {
        let ws = if i - mdist > 0 {
            i - mdist
        } else {
            0
        };
        let we = if i + mdist < short.len() {
            i + mdist
        } else {
            short.len() as int
        };
        if ws <= short.len() {
            let j = first_free_match(long[i], short, taken, ws, we);
            if j >= 0 {
                lemma_first_free_match_props(long[i], short, taken, ws, we);
                let pushed = taken.push((i, j));
                assert(pairs_within(pushed, i + 1, short.len() as int)) by {
                    assert forall|k: int|
                        0 <= k < pushed.len() implies 0 <= (#[trigger] pushed[k]).0 < i + 1 && 0
                        <= pushed[k].1 < short.len() by {
                        if k < taken.len() as int {
                            assert(0 <= taken[k].0 < i && 0 <= taken[k].1 < short.len());
                        }
                    }
                }
                assert(pairs_ordered(pushed)) by {
                    assert forall|k1: int, k2: int|
                        0 <= k1 < k2 < pushed.len() implies (#[trigger] pushed[k1]).0 < (
                        #[trigger] pushed[k2]).0 && pushed[k1].1 != pushed[k2].1 by {
                        if k2 == taken.len() as int {
                            assert(0 <= taken[k1].0 < i);
                            if pushed[k1].1 == j {
                                assert(taken[k1].1 == j);
                                assert(pair_consumes(taken, j));
                            }
                        }
                    }
                }
                lemma_greedy_from_wf(long, short, mdist, i + 1, pushed);
            } else {
                assert(pairs_within(taken, i + 1, short.len() as int));
                lemma_greedy_from_wf(long, short, mdist, i + 1, taken);
            }
        } else {
            assert(pairs_within(taken, long.len() as int, short.len() as int));
        }
    } else {
        assert(pairs_within(taken, long.len() as int, short.len() as int));
    }
}

/// No double consumption: over any pair of inputs and any window size,
/// no two matches of the greedy scan consume the same position of the
/// shorter string.
pub proof fn lemma_no_double_consumption(long: Seq<char>, short: Seq<char>, mdist: int)
    ensures
        distinct_consumed(greedy_matches(long, short, mdist)),
{
    lemma_greedy_from_distinct(long, short, mdist, 0, Seq::empty());
}

/// Pair up the two index vectors of a match, as the model's pair list.
pub open spec fn pairs_of(m1: Seq<usize>, m2: Seq<usize>) -> Seq<(int, int)> {
    Seq::new(m1.len(), |k: int| (m1[k] as int, m2[k] as int))
}

/// How many entries of a boolean sequence are set.
pub open spec fn count_trues(s: Seq<bool>) -> nat
    decreases s.len(),
{
    if s.len() == 0 {
        0
    } else {
        count_trues(s.drop_last()) + if s.last() {
            1nat
        } else {
            0nat
        }
    }
}

proof fn lemma_count_trues_le(s: Seq<bool>)
    ensures
        count_trues(s) <= s.len(),
    decreases s.len(),
{
    if s.len() > 0 {
        lemma_count_trues_le(s.drop_last());
    }
}

proof fn lemma_count_trues_set(s: Seq<bool>, j: int)
    requires
        0 <= j < s.len(),
        !s[j],
    ensures
        count_trues(s.update(j, true)) == count_trues(s) + 1,
    decreases s.len(),
{
    let u = s.update(j, true);
    if j == s.len() - 1 {
        assert(u.drop_last() =~= s.drop_last());
    } else {
        assert(u.drop_last() =~= s.drop_last().update(j, true));
        lemma_count_trues_set(s.drop_last(), j);
    }
}

/// The window-matching stage: scan the long string left to right and
/// pair each position greedily with the first unconsumed short-string
/// position in its window that holds the same character. Returns the
/// matched long-string positions (strictly increasing) and the
/// corresponding short-string positions (pairwise distinct).
pub fn match_windows(long: &Vec<char>, short: &Vec<char>, mdist: usize) -> (m: (
    Vec<usize>,
    Vec<usize>,
))
    ensures
        m.0@.len() == m.1@.len(),
        pairs_of(m.0@, m.1@) == greedy_matches(long@, short@, mdist as int),
        forall|k: int|
            0 <= k < m.1@.len() ==> m.1@[k] < short@.len() && m.0@[k] < long@.len() && long@[m.0@[k]
                as int] == short@[m.1@[k] as int],
        forall|k1: int, k2: int|
            0 <= k1 < k2 < m.1@.len() ==> m.0@[k1] < m.0@[k2] && m.1@[k1] != m.1@[k2],
        m.1@.len() <= short@.len(),
{
    let l1 = long.len();
    let l2 = short.len();
    let mut m1: Vec<usize> = Vec::new();
    let mut m2: Vec<usize> = Vec::new();
    let mut used: Vec<bool> = Vec::new();
    while used.len() < l2
        invariant
            used@.len() <= l2,
            forall|j: int| 0 <= j < used@.len() ==> !used@[j],
        decreases l2 - used@.len(),
    {
        used.push(false);
    }
    proof {
        assert(count_trues(used@) == 0) by {
            lemma_count_all_false(used@);
        }
        assert(pairs_of(m1@, m2@) =~= Seq::<(int, int)>::empty());
    }
    let mut i: usize = 0;
    let mut stopped: bool = false;
    while i < l1 && !stopped
        invariant
            i <= l1,
            stopped ==> greedy_from(
                long@,
                short@,
                mdist as int,
                i as int,
                pairs_of(m1@, m2@),
            ) == pairs_of(m1@, m2@),
            l1 == long@.len(),
            l2 == short@.len(),
            m1@.len() == m2@.len(),
            used@.len() == l2,
            count_trues(used@) == m2@.len(),
            forall|j: int|
                0 <= j < l2 ==> used@[j] == pair_consumes(pairs_of(m1@, m2@), j),
            forall|k: int|
                0 <= k < m2@.len() ==> m2@[k] < l2 && m1@[k] < i && long@[m1@[k] as int]
                    == short@[m2@[k] as int],
            forall|k1: int, k2: int|
                0 <= k1 < k2 < m2@.len() ==> m1@[k1] < m1@[k2] && m2@[k1] != m2@[k2],
            greedy_matches(long@, short@, mdist as int) == greedy_from(
                long@,
                short@,
                mdist as int,
                i as int,
                pairs_of(m1@, m2@),
            ),
        decreases
                (if stopped {
                    0int
                } else {
                    1int
                }),
                l1 - i,
    {
        let ws: usize = if i > mdist {
            i - mdist
        } else {
            0
        };
        let we: usize = if l2 > mdist && i < l2 - mdist {
            i + mdist
        } else {
            l2
        };
        if ws > l2 {
            proof {
                lemma_window_scan_stop(
                    long@,
                    short@,
                    mdist as int,
                    i as int,
                    pairs_of(m1@, m2@),
                );
            }
            stopped = true;
        } else {
            let ghost taken = pairs_of(m1@, m2@);
            let c: char = long[i];
            let mut j: usize = ws;
            let mut found: bool = false;
            while j < we && !found
                invariant
                    ws <= j <= we,
                    we <= l2,
                    l2 == short@.len(),
                    used@.len() == l2,
                    c == long@[i as int],
                    i < l1 == long@.len(),
                    forall|jj: int|
                        0 <= jj < l2 ==> used@[jj] == pair_consumes(taken, jj),
                    found ==> j < we && short@[j as int] == c && !pair_consumes(taken, j as int)
                        && first_free_match(c, short@, taken, ws as int, we as int) == j,
                    !found ==> first_free_match(c, short@, taken, ws as int, we as int)
                        == first_free_match(c, short@, taken, j as int, we as int),
                decreases
                        (if found {
                            0int
                        } else {
                            1int
                        }),
                        we - j,
            {
                if !used[j] && long[i] == short[j] {
                    found = true;
                } else {
                    j += 1;
                }
            }
            proof {
                if !found {
                    assert(first_free_match(c, short@, taken, we as int, we as int) == -1);
                    assert(greedy_from(long@, short@, mdist as int, i as int, taken) == greedy_from(
                        long@,
                        short@,
                        mdist as int,
                        i + 1,
                        taken,
                    ));
                }
            }
            if found {
                proof {
                    assert forall|k1: int| 0 <= k1 < m2@.len() implies m2@[k1] != j as int by {
                        if m2@[k1] == j as int {
                            assert(taken[k1].1 == j as int);
                            assert(pair_consumes(taken, j as int));
                        }
                    }
                }
                m1.push(i);
                m2.push(j);
                proof {
                    lemma_count_trues_set(used@, j as int);
                }
                used.set(j, true);
                proof {
                    assert(pairs_of(m1@, m2@) =~= taken.push((i as int, j as int)));
                    assert(greedy_from(long@, short@, mdist as int, i as int, taken) == greedy_from(
                        long@,
                        short@,
                        mdist as int,
                        i + 1,
                        taken.push((i as int, j as int)),
                    ));
                    assert forall|jj: int| 0 <= jj < l2 implies used@[jj] == pair_consumes(
                        pairs_of(m1@, m2@),
                        jj,
                    ) by {
                        let newtaken = taken.push((i as int, j as int));
                        if pair_consumes(newtaken, jj) {
                            let k = choose|k: int|
                                0 <= k < newtaken.len() && newtaken[k].1 == jj;
                            if k < taken.len() {
                                assert(pair_consumes(taken, jj));
                            }
                        }
                        if pair_consumes(taken, jj) {
                            let k = choose|k: int| 0 <= k < taken.len() && taken[k].1 == jj;
                            assert(newtaken[k].1 == jj);
                        }
                        if jj == j as int {
                            assert(newtaken[taken.len() as int].1 == jj);
                        }
                    }
                }
            }
            i += 1;
        }
    }
    proof {
        if !stopped {
            assert(greedy_from(
                long@,
                short@,
                mdist as int,
                i as int,
                pairs_of(m1@, m2@),
            ) == pairs_of(m1@, m2@));
        }
    }
    proof {
        lemma_count_trues_le(used@);
    }
    (m1, m2)
}

proof fn lemma_count_all_false(s: Seq<bool>)
    requires
        forall|j: int| 0 <= j < s.len() ==> !s[j],
    ensures
        count_trues(s) == 0,
    decreases s.len(),
{
    if s.len() > 0 {
        lemma_count_all_false(s.drop_last());
    }
}

} // verus!
