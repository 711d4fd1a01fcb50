//! Pattern matching done by the `wildmatch` and `regex` crates, with the
//! contracts that the library relies on.
use vstd::prelude::*;
use crate::text::{from_chars, to_chars, append_chars, append_str, views, push_line};

verus! {

/// Whether the wildcard pattern `p` (`*`: any run of characters, `?`: one character,
/// everything else literal, case-sensitive) matches the whole of `s`.
pub open spec fn glob(p: Seq<char>, s: Seq<char>) -> bool
    decreases p.len() + s.len(),
{
    if p.len() == 0 {
        s.len() == 0
    } else if p[0] == '*' {
        glob(p.drop_first(), s) || (s.len() > 0 && glob(p, s.drop_first()))
    } else {
        s.len() > 0 && (p[0] == '?' || p[0] == s[0]) && glob(p.drop_first(), s.drop_first())
    }
}

/// A pattern that starts with a plain piece (no `*`, no `?`) matches only a text that
/// starts with that piece, with the rest of the pattern matching the rest of the text.
pub proof fn lemma_glob_plain_front(lit: Seq<char>, q: Seq<char>, s: Seq<char>)
    requires
        glob(lit + q, s),
        forall|k: int| 0 <= k < lit.len() ==> #[trigger] lit[k] != '*' && lit[k] != '?',
    ensures
        lit.len() <= s.len(),
        s.take(lit.len() as int) == lit,
        glob(q, s.skip(lit.len() as int)),
    decreases lit.len(),
{
    if lit.len() == 0 {
        assert(lit + q =~= q);
        assert(s.skip(0) =~= s);
        assert(s.take(0) =~= lit);
    } else {
        assert(lit[0] != '*' && lit[0] != '?');
        assert((lit + q)[0] == lit[0]);
        assert((lit + q).drop_first() =~= lit.drop_first() + q);
        let t = s.drop_first();
        lemma_glob_plain_front(lit.drop_first(), q, t);
        assert(t.skip(lit.len() - 1) =~= s.skip(lit.len() as int));
        assert(s.take(lit.len() as int) =~= seq![s[0]] + t.take(lit.len() - 1));
        assert(lit =~= seq![lit[0]] + lit.drop_first());
    }
}

/// A pattern that starts with `*` matches a text only where the rest of the pattern
/// matches some end of it; the result is where that end begins.
pub proof fn lemma_glob_star_front(q: Seq<char>, s: Seq<char>) -> (i: int)
    requires
        glob(seq!['*'] + q, s),
    ensures
        0 <= i <= s.len(),
        glob(q, s.skip(i)),
    decreases s.len(),
{
    let p = seq!['*'] + q;
    assert(p[0] == '*');
    assert(p.drop_first() =~= q);
    if glob(q, s) {
        assert(s.skip(0) =~= s);
        0
    } else {
        let j = lemma_glob_star_front(q, s.drop_first());
        assert(s.drop_first().skip(j) =~= s.skip(j + 1));
        j + 1
    }
}

/// `wildmatch::WildMatch::new(pattern).matches(text)`: the crate documents `*` as any
/// run of characters, `?` as one character and all else as literal, matched against the
/// whole input, which is what `glob` states.
#[verifier::external_body]
pub(crate) fn wild_matches(pattern: &str, text: &str) -> (b: bool)
    ensures
        b == glob(pattern@, text@),
{
    wildmatch::WildMatch::new(pattern).matches(text)
}

/// Whether `pattern` matches `s` as a wildcard pattern.
pub fn glob_chars(pattern: &str, s: &[char]) -> (b: bool)
    ensures
        b == glob(pattern@, s@),
{
    let t = from_chars(s);
    wild_matches(pattern, t.as_str())
}

/// What `regex::Regex::new(pattern)` followed by `is_match(text)` answers: `None` when
/// the pattern does not compile.
pub uninterp spec fn regex_match(pattern: Seq<char>, text: Seq<char>) -> Option<bool>;

/// What `regex::Regex::new(pattern)` followed by `replace_all(text, rep)` gives, the
/// replacement string expanding `$name` groups: `None` when the pattern does not compile.
pub uninterp spec fn regex_replace(pattern: Seq<char>, text: Seq<char>, rep: Seq<char>) -> Option<
    Seq<char>,
>;

/// The groups of each successive match of `regex::Regex::new(pattern)` in `text`, as
/// `captures_iter` yields them (group 0 being the whole match, `None` for a group that
/// took no part): `None` when the pattern does not compile.
pub uninterp spec fn regex_captures(pattern: Seq<char>, text: Seq<char>) -> Option<
    Seq<Seq<Option<Seq<char>>>>,
>;

/// The pieces of `text` between the successive matches of `regex::Regex::new(pattern)`,
/// as `split` yields them: `None` when the pattern does not compile.
pub uninterp spec fn regex_split(pattern: Seq<char>, text: Seq<char>) -> Option<Seq<Seq<char>>>;

/// `Regex::new(pattern)` then `Regex::is_match(text)`. The contract names the answer
/// (with `None` for a pattern that does not compile) and says nothing more of it.
#[verifier::external_body]
pub(crate) fn regex_is_match(pattern: &str, text: &str) -> (r: Option<bool>)
    ensures
        r == regex_match(pattern@, text@),
{
    match regex::Regex::new(pattern) {
        Ok(re) => Some(re.is_match(text)),
        Err(_) => None,
    }
}

/// `Regex::new(pattern)` then `Regex::replace_all(text, rep)` with a `$name`-expanding
/// replacement string. The contract names the result and says nothing more of it.
#[verifier::external_body]
pub(crate) fn regex_replace_all(pattern: &str, text: &str, rep: &str) -> (r: Option<String>)
    ensures
        match r {
            Some(s) => regex_replace(pattern@, text@, rep@) == Some(s@),
            None => regex_replace(pattern@, text@, rep@) is None,
        },
{
    match regex::Regex::new(pattern) {
        Ok(re) => Some(re.replace_all(text, rep).to_string()),
        Err(_) => None,
    }
}

/// The character sequences of a list of capture groups.
pub open spec fn group_views(g: Seq<Option<String>>) -> Seq<Option<Seq<char>>> {
    g.map_values(|x: Option<String>| match x {
        Some(s) => Some(s@),
        None => None,
    })
}

/// The character sequences of the captures of several matches.
pub open spec fn captures_views(c: Seq<Vec<Option<String>>>) -> Seq<Seq<Option<Seq<char>>>> {
    c.map_values(|g: Vec<Option<String>>| group_views(g@))
}

/// `Regex::new(pattern)` then `Regex::captures_iter(text)`, each match given as the text
/// of its groups in order. The contract names the result and says nothing more of it.
#[verifier::external_body]
pub(crate) fn regex_captures_iter(pattern: &str, text: &str) -> (r: Option<Vec<Vec<Option<String>>>>)
    ensures
        match r {
            Some(c) => regex_captures(pattern@, text@) == Some(captures_views(c@)),
            None => regex_captures(pattern@, text@) is None,
        },
{
    match regex::Regex::new(pattern) {
        Ok(re) => Some(
            re.captures_iter(text).map(
                |caps| caps.iter().map(|m| m.map(|m| m.as_str().to_string())).collect(),
            ).collect(),
        ),
        Err(_) => None,
    }
}

/// The character sequences of a list of strings.
pub open spec fn string_views(v: Seq<String>) -> Seq<Seq<char>> {
    v.map_values(|s: String| s@)
}

/// `Regex::new(pattern)` then `Regex::split(text)`. The contract names the result and
/// says nothing more of it.
#[verifier::external_body]
pub(crate) fn regex_split_all(pattern: &str, text: &str) -> (r: Option<Vec<String>>)
    ensures
        match r {
            Some(v) => regex_split(pattern@, text@) == Some(string_views(v@)),
            None => regex_split(pattern@, text@) is None,
        },
{
    match regex::Regex::new(pattern) {
        Ok(re) => Some(re.split(text).map(|s| s.to_string()).collect()),
        Err(_) => None,
    }
}


/// The text of group `k` of a match, or the empty text when that group took no part.
pub open spec fn group_text(c: Seq<Option<Seq<char>>>, k: int) -> Seq<char> {
    if 0 <= k < c.len() && c[k] is Some {
        c[k]->0
    } else {
        seq![]
    }
}

/// The text of group `k` of a match.
pub fn group_string(c: &Vec<Option<String>>, k: usize) -> (s: String)
    ensures
        s@ == group_text(group_views(c@), k as int),
{
    if k < c.len() {
        match &c[k] {
            Some(s) => s.clone(),
            None => String::new(),
        }
    } else {
        String::new()
    }
}

/// The pieces of a text with the replacements put back between them: piece 0,
/// replacement 0, piece 1, and so on (a missing replacement counting as empty).
pub open spec fn spliced(ps: Seq<Seq<char>>, rs: Seq<Seq<char>>) -> Seq<char>
    decreases ps.len(),
{
    if ps.len() == 0 {
        seq![]
    } else {
        spliced(ps.drop_last(), rs) + (if ps.len() >= 2 && ps.len() - 2 < rs.len() {
            rs[ps.len() - 2]
        } else {
            seq![]
        }) + ps.last()
    }
}

/// The pieces with the replacements put back between them.
pub fn splice(ps: &Vec<String>, rs: &Vec<Vec<char>>) -> (r: Vec<char>)
    ensures
        r@ == spliced(string_views(ps@), views(rs@)),
{
    let ghost pv = string_views(ps@);
    let ghost rv = views(rs@);
    let mut r: Vec<char> = Vec::new();
    let mut k: usize = 0;
    while k < ps.len()
        invariant
            k <= ps@.len(),
            pv == string_views(ps@),
            rv == views(rs@),
            r@ == spliced(pv.take(k as int), rv),
        decreases ps@.len() - k,
    {
        assert(pv.take(k + 1).drop_last() == pv.take(k as int));
        if k > 0 && k - 1 < rs.len() {
            append_chars(&mut r, rs[k - 1].as_slice());
        }
        append_str(&mut r, ps[k].as_str());
        k += 1;
    }
    assert(pv.take(ps@.len() as int) == pv);
    r
}

/// Each match of `p` in `t` replaced by `f` of the text of its group 1, as
/// `regex::Regex::replace_all` with a closure does: the pieces between the matches kept,
/// and `t` itself when the pattern is refused. `Regex::split` and `Regex::captures_iter`
/// walk the same successive non-overlapping matches of one compiled pattern, so the
/// pieces that `regex_split` gives lie exactly between the matches that
/// `regex_captures` gives, one more piece than matches.
pub open spec fn replace_group1(
    p: Seq<char>,
    t: Seq<char>,
    f: spec_fn(Seq<char>) -> Seq<char>,
) -> Seq<char> {
    match (regex_split(p, t), regex_captures(p, t)) {
        (Some(ps), Some(cs)) => spliced(ps, cs.map_values(|c: Seq<Option<Seq<char>>>| f(group_text(c, 1)))),
        _ => t,
    }
}

/// The pieces of `t` between the matches of `p`, and the text of group 1 of each match.
pub fn split_with_group1(p: &str, t: &str) -> (r: Option<(Vec<String>, Vec<Vec<char>>)>)
    ensures
        match r {
            Some((ps, gs)) => {
                &&& regex_split(p@, t@) == Some(string_views(ps@))
                &&& regex_captures(p@, t@) is Some
                &&& views(gs@) == regex_captures(p@, t@)->0.map_values(
                    |c: Seq<Option<Seq<char>>>| group_text(c, 1),
                )
            },
            None => regex_split(p@, t@) is None || regex_captures(p@, t@) is None,
        },
{
    let ps = match regex_split_all(p, t) {
        Some(ps) => ps,
        None => return None,
    };
    let cs = match regex_captures_iter(p, t) {
        Some(cs) => cs,
        None => return None,
    };
    let ghost cv = captures_views(cs@);
    let ghost want = cv.map_values(|c: Seq<Option<Seq<char>>>| group_text(c, 1));
    let mut gs: Vec<Vec<char>> = Vec::new();
    let mut k: usize = 0;
    while k < cs.len()
        invariant
            k <= cs@.len(),
            cv == captures_views(cs@),
            want == cv.map_values(|c: Seq<Option<Seq<char>>>| group_text(c, 1)),
            views(gs@) == want.take(k as int),
        decreases cs@.len() - k,
    {
        let g = group_string(&cs[k], 1);
        assert(cv[k as int] == group_views(cs@[k as int]@));
        push_line(&mut gs, to_chars(g.as_str()));
        assert(want.take(k + 1) == want.take(k as int).push(want[k as int]));
        k += 1;
    }
    assert(want.take(cs@.len() as int) == want);
    Some((ps, gs))
}

/// Each match of `p` in `t` replaced by what `f` makes of the text of its group 1
/// (`sf` being what `f` computes), the text between the matches kept.
pub(crate) fn replace_each_group1<F: Fn(&[char]) -> Vec<char>>(
    p: &str,
    t: &str,
    f: F,
    Ghost(sf): Ghost<spec_fn(Seq<char>) -> Seq<char>>,
) -> (r: String)
    requires
        forall|h: &[char]| #[trigger] f.requires((h,)),
        forall|h: &[char], v: Vec<char>| f.ensures((h,), v) ==> v@ == sf(h@),
    ensures
        r@ == replace_group1(p@, t@, sf),
{
    match split_with_group1(p, t) {
        None => t.to_string(),
        Some((ps, gs)) => {
            let mut rs: Vec<Vec<char>> = Vec::new();
            let mut k: usize = 0;
            while k < gs.len()
                invariant
                    k <= gs@.len(),
                    forall|h: &[char]| #[trigger] f.requires((h,)),
                    forall|h: &[char], v: Vec<char>| f.ensures((h,), v) ==> v@ == sf(h@),
                    views(rs@) == views(gs@).take(k as int).map_values(sf),
                decreases gs@.len() - k,
            {
                let r = f(gs[k].as_slice());
                assert(views(gs@)[k as int] == gs@[k as int]@);
                push_line(&mut rs, r);
                assert(views(gs@).take(k + 1).map_values(sf) =~= views(gs@).take(k as int).map_values(
                    sf,
                ).push(sf(views(gs@)[k as int])));
                k += 1;
            }
            assert(views(gs@).take(gs@.len() as int) == views(gs@));
            let ghost cs = regex_captures(p@, t@)->0;
            assert(views(rs@) =~= cs.map_values(|c: Seq<Option<Seq<char>>>| sf(group_text(c, 1))));
            let v = splice(&ps, &rs);
            from_chars(v.as_slice())
        },
    }
}

} // verus!
