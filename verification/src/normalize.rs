//! The normalization stage: strip configured substrings from both
//! inputs, then optionally fold both to upper case.
use vstd::prelude::*;
use vstd::string::StrSliceExecFns;

verus! {

/// What the upper-case folding of a character sequence is. The mapping
/// depends on the characters alone, so it can be named without being
/// written out.
pub uninterp spec fn upper_of(s: Seq<char>) -> Seq<char>;

/// Relies on str::to_uppercase: the Unicode upper-case conversion of a
/// string is a function of its characters alone.
#[verifier::external_body]
fn to_upper_chars(s: &Vec<char>) -> (r: Vec<char>)
    ensures
        r@ == upper_of(s@),
{
    let owned: String = s.iter().collect();
    owned.to_uppercase().chars().collect()
}

/// The characters of a string, by code point.
pub fn chars_of(s: &str) -> (r: Vec<char>)
    ensures
        r@ == s@,
{
    let n = s.unicode_len();
    let mut r: Vec<char> = Vec::new();
    let mut i: usize = 0;
    while i < n
        invariant
            i <= n,
            n == s@.len(),
            r@ == s@.take(i as int),
        decreases n - i,
    {
        let c = s.get_char(i);
        r.push(c);
        proof {
            assert(r@ =~= s@.take(i + 1));
        }
        i += 1;
    }
    proof {
        assert(s@.take(n as int) =~= s@);
    }
    r
}

/// What removing every occurrence of `tok` from `s` leaves: scan left to
/// right; wherever `tok` is next, drop it and continue after it. An
/// empty token removes nothing.
pub open spec fn remove_all(s: Seq<char>, tok: Seq<char>) -> Seq<char>
    decreases s.len(),
{
    if tok.len() == 0 || s.len() == 0 {
        s
    } else if s.len() >= tok.len() && s.take(tok.len() as int) == tok {
        remove_all(s.skip(tok.len() as int), tok)
    } else {
        seq![s[0]] + remove_all(s.skip(1), tok)
    }
}

/// Whether `tok` occurs in `s` starting at position `i`.
fn token_at(s: &Vec<char>, i: usize, tok: &Vec<char>) -> (r: bool)
    requires
        i <= s@.len(),
    ensures
        r == (i + tok@.len() <= s@.len() && s@.subrange(i as int, i + tok@.len()) == tok@),
{
    if tok.len() > s.len() - i {
        return false;
    }
    let mut k: usize = 0;
    while k < tok.len()
        invariant
            k <= tok@.len(),
            i + tok@.len() <= s@.len(),
            s@.len() <= usize::MAX,
            forall|q: int| 0 <= q < k ==> s@[i + q] == tok@[q],
        decreases tok@.len() - k,
    {
        if s[i + k] != tok[k] {
            proof {
                assert(s@.subrange(i as int, i + tok@.len())[k as int] != tok@[k as int]);
            }
            return false;
        }
        k += 1;
    }
    proof {
        assert(s@.subrange(i as int, i + tok@.len()) =~= tok@);
    }
    true
}

/// Remove every occurrence of `tok` from `s`, scanning left to right.
pub fn strip_token(s: &Vec<char>, tok: &Vec<char>) -> (r: Vec<char>)
    ensures
        r@ == remove_all(s@, tok@),
{
    if tok.len() == 0 {
        let mut r: Vec<char> = Vec::new();
        let mut i: usize = 0;
        while i < s.len()
            invariant
                i <= s@.len(),
                r@ == s@.take(i as int),
            decreases s@.len() - i,
        {
            r.push(s[i]);
            proof {
                assert(r@ =~= s@.take(i + 1));
            }
            i += 1;
        }
        proof {
            assert(s@.take(s@.len() as int) =~= s@);
        }
        return r;
    }
    let mut r: Vec<char> = Vec::new();
    let mut i: usize = 0;
    proof {
        assert(s@.skip(0) =~= s@);
        assert(r@ + remove_all(s@, tok@) =~= remove_all(s@, tok@));
    }
    while i < s.len()
        invariant
            i <= s@.len(),
            tok@.len() >= 1,
            remove_all(s@, tok@) == r@ + remove_all(s@.skip(i as int), tok@),
        decreases s@.len() - i,
    {
        let ghost rest = s@.skip(i as int);
        if token_at(s, i, tok) {
            proof {
                assert(rest.take(tok@.len() as int) =~= s@.subrange(i as int, i + tok@.len()));
                assert(rest.skip(tok@.len() as int) =~= s@.skip(i + tok@.len()));
            }
            i += tok.len();
        } else {
            proof {
                if rest.len() >= tok@.len() {
                    assert(rest.take(tok@.len() as int) =~= s@.subrange(
                        i as int,
                        i + tok@.len(),
                    ));
                }
                assert(rest.skip(1) =~= s@.skip(i + 1));
                assert(rest[0] == s@[i as int]);
            }
            r.push(s[i]);
            proof {
                assert(r@ =~= (r@.drop_last() + seq![s@[i as int]]));
                assert(r@.drop_last() + (seq![s@[i as int]] + remove_all(
                    s@.skip(i + 1),
                    tok@,
                )) =~= r@ + remove_all(s@.skip(i + 1), tok@));
            }
            i += 1;
        }
    }
    proof {
        assert(s@.skip(s@.len() as int) =~= Seq::<char>::empty());
        assert(r@ + remove_all(s@.skip(s@.len() as int), tok@) =~= r@);
    }
    r
}

/// What stripping each token in order leaves: each token's removal sees
/// the result of the previous one's.
pub open spec fn strip_all(s: Seq<char>, toks: Seq<Seq<char>>) -> Seq<char>
    decreases toks.len(),
{
    if toks.len() == 0 {
        s
    } else {
        strip_all(remove_all(s, toks[0]), toks.skip(1))
    }
}

/// The views of a list of tokens.
pub open spec fn token_views(toks: Seq<&str>) -> Seq<Seq<char>> {
    toks.map_values(|t: &str| t@)
}

/// What the normalization stage produces: the strip tokens are removed
/// in order, then, unless the caller keeps case, the result is folded to
/// upper case.
pub open spec fn normalize_spec(s: Seq<char>, toks: Seq<Seq<char>>, keep_case: bool) -> Seq<char> {
    if keep_case {
        strip_all(s, toks)
    } else {
        upper_of(strip_all(s, toks))
    }
}

/// The normalization stage: strip every occurrence of each token, in the
/// order given, then fold to upper case unless `keep_case` is set.
pub fn normalize(s: &str, strip: &Vec<&str>, keep_case: bool) -> (r: Vec<char>)
    ensures
        r@ == normalize_spec(s@, token_views(strip@), keep_case),
{
    let mut cur: Vec<char> = chars_of(s);
    let mut t: usize = 0;
    proof {
        assert(token_views(strip@.skip(0)) =~= token_views(strip@));
    }
    while t < strip.len()
        invariant
            t <= strip@.len(),
            strip_all(s@, token_views(strip@)) == strip_all(
                cur@,
                token_views(strip@.skip(t as int)),
            ),
        decreases strip@.len() - t,
    {
        let tok: Vec<char> = chars_of(strip[t]);
        let next = strip_token(&cur, &tok);
        proof {
            let views = token_views(strip@.skip(t as int));
            assert(views[0] == strip@[t as int]@);
            assert(views.skip(1) =~= token_views(strip@.skip(t + 1)));
        }
        cur = next;
        t += 1;
    }
    proof {
        assert(token_views(strip@.skip(strip@.len() as int)) =~= Seq::<Seq<char>>::empty());
    }
    if keep_case {
        cur
    } else {
        to_upper_chars(&cur)
    }
}

} // verus!
