//! Character-sequence operations on text: the models (`spec` functions over
//! `Seq<char>`) and verified implementations on `Vec<char>` / `&str`.
use vstd::prelude::*;

verus! {

/// Appends one character to a `String` (std `String::push`).
#[verifier::external_body]
pub(crate) fn push_char(s: &mut String, c: char)
    ensures
        final(s)@ == old(s)@.push(c),
{
    s.push(c)
}

/// The characters of `s`, in order.
pub fn to_chars(s: &str) -> (v: Vec<char>)
    ensures
        v@ == s@,
{
    broadcast use vstd::string::group_string_axioms;
    let mut v: Vec<char> = Vec::new();
    for c in it: s.chars()
        invariant
            it.seq() == s@,
            v@ == s@.take(it.index() as int),
    {
        assert(s@.take(it.index() + 1) == v@.push(c));
        v.push(c);
    }
    v
}

/// The string made of the characters of `v`.
pub fn from_chars(v: &[char]) -> (s: String)
    ensures
        s@ == v@,
{
    let mut s = String::new();
    let mut i: usize = 0;
    while i < v.len()
        invariant
            i <= v@.len(),
            s@ == v@.take(i as int),
        decreases v@.len() - i,
    {
        push_char(&mut s, v[i]);
        assert(v@.take(i + 1) == v@.take(i as int).push(v@[i as int]));
        i += 1;
    }
    assert(v@.take(v@.len() as int) == v@);
    s
}

/// Appends all of `src` to `dst`.
pub fn append_chars(dst: &mut Vec<char>, src: &[char])
    ensures
        final(dst)@ == old(dst)@ + src@,
{
    let mut i: usize = 0;
    while i < src.len()
        invariant
            i <= src@.len(),
            dst@ == old(dst)@ + src@.take(i as int),
        decreases src@.len() - i,
    {
        dst.push(src[i]);
        assert(src@.take(i + 1) == src@.take(i as int).push(src@[i as int]));
        i += 1;
    }
    assert(src@.take(src@.len() as int) == src@);
}

/// Appends the characters of `src` to `dst`.
pub fn append_str(dst: &mut Vec<char>, src: &str)
    ensures
        final(dst)@ == old(dst)@ + src@,
{
    let c = to_chars(src);
    append_chars(dst, c.as_slice());
}

/// A copy of `s`.
pub fn copy_chars(s: &[char]) -> (r: Vec<char>)
    ensures
        r@ == s@,
{
    let mut r: Vec<char> = Vec::new();
    append_chars(&mut r, s);
    r
}

/// The characters of `s` from position `a` up to (not including) `b`.
pub fn sub_chars(s: &[char], a: usize, b: usize) -> (r: Vec<char>)
    requires
        a <= b <= s@.len(),
    ensures
        r@ == s@.subrange(a as int, b as int),
{
    let mut r: Vec<char> = Vec::new();
    let mut i = a;
    while i < b
        invariant
            a <= i <= b <= s@.len(),
            r@ == s@.subrange(a as int, i as int),
        decreases b - i,
    {
        r.push(s[i]);
        assert(s@.subrange(a as int, i + 1) == s@.subrange(a as int, i as int).push(s@[i as int]));
        i += 1;
    }
    r
}

/// `s` followed by `t`, both as characters.
pub fn cat(s: &[char], t: &[char]) -> (r: Vec<char>)
    ensures
        r@ == s@ + t@,
{
    let mut r = copy_chars(s);
    append_chars(&mut r, t);
    r
}

/// Whitespace as `char::is_whitespace` defines it (the Unicode `White_Space` property).
pub open spec fn is_ws(c: char) -> bool {
    ||| ('\u{9}' <= c && c <= '\u{d}')
    ||| c == ' '
    ||| c == '\u{85}'
    ||| c == '\u{a0}'
    ||| c == '\u{1680}'
    ||| ('\u{2000}' <= c && c <= '\u{200a}')
    ||| c == '\u{2028}'
    ||| c == '\u{2029}'
    ||| c == '\u{202f}'
    ||| c == '\u{205f}'
    ||| c == '\u{3000}'
}

pub fn is_whitespace(c: char) -> (b: bool)
    ensures
        b == is_ws(c),
{
    ('\u{9}' <= c && c <= '\u{d}') || c == ' ' || c == '\u{85}' || c == '\u{a0}' || c
        == '\u{1680}' || ('\u{2000}' <= c && c <= '\u{200a}') || c == '\u{2028}' || c
        == '\u{2029}' || c == '\u{202f}' || c == '\u{205f}' || c == '\u{3000}'
}

/// Number of leading whitespace characters of `s`.
pub open spec fn lead_ws(s: Seq<char>) -> nat
    decreases s.len(),
{
    if s.len() > 0 && is_ws(s[0]) {
        1 + lead_ws(s.drop_first())
    } else {
        0
    }
}

/// Number of trailing whitespace characters of `s`.
pub open spec fn trail_ws(s: Seq<char>) -> nat
    decreases s.len(),
{
    if s.len() > 0 && is_ws(s.last()) {
        1 + trail_ws(s.drop_last())
    } else {
        0
    }
}

/// `s` without its leading and trailing whitespace (`str::trim`).
pub open spec fn trim(s: Seq<char>) -> Seq<char> {
    let a = s.skip(lead_ws(s) as int);
    a.take(a.len() - trail_ws(a))
}

/// The leading white space lies within the text and is white space.
pub proof fn lemma_lead_ws(s: Seq<char>)
    ensures
        lead_ws(s) <= s.len(),
        forall|k: int| 0 <= k < lead_ws(s) ==> is_ws(#[trigger] s[k]),
        lead_ws(s) < s.len() ==> !is_ws(s[lead_ws(s) as int]),
    decreases s.len(),
{
    if s.len() > 0 && is_ws(s[0]) {
        lemma_lead_ws(s.drop_first());
        assert forall|k: int| 0 <= k < lead_ws(s) implies is_ws(#[trigger] s[k]) by {
            if k > 0 {
                assert(s[k] == s.drop_first()[k - 1]);
            }
        }
    }
}

/// The trailing white space lies within the text and is white space.
pub proof fn lemma_trail_ws(s: Seq<char>)
    ensures
        trail_ws(s) <= s.len(),
        forall|k: int| s.len() - trail_ws(s) <= k < s.len() ==> is_ws(#[trigger] s[k]),
        trail_ws(s) < s.len() ==> !is_ws(s[s.len() - trail_ws(s) - 1]),
    decreases s.len(),
{
    if s.len() > 0 && is_ws(s.last()) {
        lemma_trail_ws(s.drop_last());
        assert forall|k: int| s.len() - trail_ws(s) <= k < s.len() implies is_ws(
            #[trigger] s[k],
        ) by {
            if k < s.len() - 1 {
                assert(s[k] == s.drop_last()[k]);
            }
        }
    }
}

/// The leading white space is all the white space before the first other character.
pub proof fn lemma_lead_ws_exact(s: Seq<char>, n: int)
    requires
        0 <= n <= s.len(),
        forall|k: int| 0 <= k < n ==> is_ws(#[trigger] s[k]),
        n < s.len() ==> !is_ws(s[n]),
    ensures
        lead_ws(s) == n,
    decreases n,
{
    if n > 0 {
        assert(is_ws(s[0]));
        assert forall|k: int| 0 <= k < n - 1 implies is_ws(#[trigger] s.drop_first()[k]) by {
            assert(s.drop_first()[k] == s[k + 1]);
        }
        lemma_lead_ws_exact(s.drop_first(), n - 1);
    }
}

/// The trailing white space is all the white space after the last other character.
pub proof fn lemma_trail_ws_exact(s: Seq<char>, n: int)
    requires
        0 <= n <= s.len(),
        forall|k: int| s.len() - n <= k < s.len() ==> is_ws(#[trigger] s[k]),
        n < s.len() ==> !is_ws(s[s.len() - n - 1]),
    ensures
        trail_ws(s) == n,
    decreases n,
{
    if n > 0 {
        assert(is_ws(s.last()));
        assert forall|k: int| s.drop_last().len() - (n - 1) <= k < s.drop_last().len() implies is_ws(
            #[trigger] s.drop_last()[k],
        ) by {
            assert(s.drop_last()[k] == s[k]);
        }
        lemma_trail_ws_exact(s.drop_last(), n - 1);
    }
}

/// `s` without leading and trailing whitespace.
pub fn trim_chars(s: &[char]) -> (r: Vec<char>)
    ensures
        r@ == trim(s@),
{
    let mut a: usize = 0;
    while a < s.len() && is_whitespace(s[a])
        invariant
            a <= s@.len(),
            forall|k: int| 0 <= k < a ==> is_ws(#[trigger] s@[k]),
        decreases s@.len() - a,
    {
        a += 1;
    }
    proof {
        lemma_lead_ws_exact(s@, a as int);
    }
    let mut b: usize = s.len();
    while b > a && is_whitespace(s[b - 1])
        invariant
            a <= b <= s@.len(),
            forall|k: int| b <= k < s@.len() ==> is_ws(#[trigger] s@[k]),
        decreases b,
    {
        b -= 1;
    }
    let ghost t = s@.skip(a as int);
    proof {
        assert forall|k: int| t.len() - (s@.len() - b) <= k < t.len() implies is_ws(
            #[trigger] t[k],
        ) by {
            assert(t[k] == s@[k + a]);
        }
        if b > a {
            assert(t[t.len() - (s@.len() - b) - 1] == s@[b - 1]);
        }
        lemma_trail_ws_exact(t, s@.len() - b);
    }
    let mut r: Vec<char> = Vec::new();
    let mut i = a;
    while i < b
        invariant
            a <= i <= b <= s@.len(),
            r@ == s@.subrange(a as int, i as int),
        decreases b - i,
    {
        r.push(s[i]);
        assert(s@.subrange(a as int, i + 1) == s@.subrange(a as int, i as int).push(s@[i as int]));
        i += 1;
    }
    assert(r@ == t.take(t.len() - trail_ws(t)));
    r
}

/// `p` occurs in `s` at position `i`.
pub open spec fn is_at(s: Seq<char>, i: int, p: Seq<char>) -> bool {
    0 <= i && i + p.len() <= s.len() && s.subrange(i, i + p.len()) == p
}

/// `s` begins with `p` (`str::starts_with`).
pub open spec fn starts_with(s: Seq<char>, p: Seq<char>) -> bool {
    is_at(s, 0, p)
}

/// `s` ends with `p` (`str::ends_with`).
pub open spec fn ends_with(s: Seq<char>, p: Seq<char>) -> bool {
    p.len() <= s.len() && is_at(s, s.len() - p.len(), p)
}

/// The first position at or after `i` where `p` occurs in `s`.
pub open spec fn find_from(s: Seq<char>, p: Seq<char>, i: int) -> Option<int>
    decreases s.len() + 1 - i,
{
    if i < 0 || i + p.len() > s.len() {
        None
    } else if is_at(s, i, p) {
        Some(i)
    } else {
        find_from(s, p, i + 1)
    }
}

/// The first position where `p` occurs in `s` (`str::find`).
pub open spec fn find(s: Seq<char>, p: Seq<char>) -> Option<int> {
    find_from(s, p, 0)
}

/// `p` occurs in `s` (`str::contains`).
pub open spec fn contains(s: Seq<char>, p: Seq<char>) -> bool {
    find(s, p) is Some
}

/// A found position holds the pattern and is the first from `i` on that does.
pub proof fn lemma_find_from(s: Seq<char>, p: Seq<char>, i: int)
    requires
        0 <= i,
    ensures
        find_from(s, p, i) matches Some(j) ==> i <= j && is_at(s, j, p) && forall|k: int|
            i <= k < j ==> !is_at(s, k, p),
        find_from(s, p, i) is None ==> forall|k: int| i <= k ==> !is_at(s, k, p),
    decreases s.len() + 1 - i,
{
    if i + p.len() > s.len() {
    } else if is_at(s, i, p) {
    } else {
        lemma_find_from(s, p, i + 1);
    }
}

/// Whether `p` occurs in `s` at position `i`.
pub fn chars_at(s: &[char], i: usize, p: &[char]) -> (b: bool)
    ensures
        b == is_at(s@, i as int, p@),
{
    if i > s.len() || p.len() > s.len() - i {
        return false;
    }
    let mut j: usize = 0;
    while j < p.len()
        invariant
            i + p@.len() <= s@.len(),
            i + p@.len() <= s.len(),
            j <= p@.len(),
            s@.subrange(i as int, i + j) == p@.take(j as int),
        decreases p@.len() - j,
    {
        if s[i + j] != p[j] {
            assert(s@.subrange(i as int, i + p@.len())[j as int] != p@[j as int]);
            return false;
        }
        assert(s@.subrange(i as int, i + j + 1) == p@.take(j + 1));
        j += 1;
    }
    assert(p@.take(p@.len() as int) == p@);
    true
}

/// The first position at or after `from` where `p` occurs in `s`.
pub fn find_chars_from(s: &[char], p: &[char], from: usize) -> (r: Option<usize>)
    ensures
        r matches Some(j) ==> find_from(s@, p@, from as int) == Some(j as int),
        r is None ==> find_from(s@, p@, from as int) is None,
{
    if p.len() == 0 {
        if from <= s.len() {
            assert(s@.subrange(from as int, from as int) == p@);
        }
        return if from <= s.len() {
            Some(from)
        } else {
            None
        };
    }
    if p.len() > s.len() {
        return None;
    }
    let mut i = from;
    while i <= s.len() - p.len()
        invariant
            from <= i,
            1 <= p@.len() <= s@.len(),
            find_from(s@, p@, from as int) == find_from(s@, p@, i as int),
        decreases s@.len() + 1 - i,
    {
        if chars_at(s, i, p) {
            return Some(i);
        }
        i += 1;
    }
    None
}

/// The first position where `p` occurs in `s`.
pub fn find_chars(s: &[char], p: &[char]) -> (r: Option<usize>)
    ensures
        r matches Some(j) ==> find(s@, p@) == Some(j as int),
        r is None ==> find(s@, p@) is None,
{
    find_chars_from(s, p, 0)
}

/// Whether `p` occurs in `s`.
pub fn contains_str(s: &[char], p: &str) -> (b: bool)
    ensures
        b == contains(s@, p@),
{
    let pc = to_chars(p);
    find_chars(s, pc.as_slice()).is_some()
}

/// Whether `s` begins with `p`.
pub fn starts_with_str(s: &[char], p: &str) -> (b: bool)
    ensures
        b == starts_with(s@, p@),
{
    let pc = to_chars(p);
    chars_at(s, 0, pc.as_slice())
}

/// Whether `s` ends with `p`.
pub fn ends_with_str(s: &[char], p: &str) -> (b: bool)
    ensures
        b == ends_with(s@, p@),
{
    let pc = to_chars(p);
    if pc.len() > s.len() {
        false
    } else {
        chars_at(s, s.len() - pc.len(), pc.as_slice())
    }
}

/// Whether `s` consists of exactly the characters of `p`.
pub fn eq_str(s: &[char], p: &str) -> (b: bool)
    ensures
        b == (s@ == p@),
{
    let pc = to_chars(p);
    if pc.len() != s.len() {
        return false;
    }
    let b = chars_at(s, 0, pc.as_slice());
    assert(s@.subrange(0, s@.len() as int) == s@);
    b
}

/// Every non-overlapping occurrence of `p` in `s`, scanned from the left, replaced by `t`
/// (`str::replace`, for a non-empty `p`).
pub open spec fn replace(s: Seq<char>, p: Seq<char>, t: Seq<char>) -> Seq<char>
    decreases s.len(),
{
    if s.len() == 0 {
        s
    } else if p.len() > 0 && starts_with(s, p) {
        t + replace(s.skip(p.len() as int), p, t)
    } else {
        seq![s[0]] + replace(s.drop_first(), p, t)
    }
}

/// `s` with every occurrence of `p` replaced by `t`.
pub fn replace_chars(s: &[char], p: &[char], t: &[char]) -> (r: Vec<char>)
    requires
        p@.len() > 0,
    ensures
        r@ == replace(s@, p@, t@),
{
    let mut r: Vec<char> = Vec::new();
    let mut i: usize = 0;
    assert(s@.skip(0) == s@);
    while i < s.len()
        invariant
            i <= s@.len(),
            p@.len() > 0,
            replace(s@, p@, t@) == r@ + replace(s@.skip(i as int), p@, t@),
        decreases s@.len() - i,
    {
        let ghost rest = s@.skip(i as int);
        if chars_at(s, i, p) {
            assert(rest.subrange(0, p@.len() as int) == s@.subrange(i as int, i + p@.len()));
            assert(rest.skip(p@.len() as int) == s@.skip(i + p@.len()));
            append_chars(&mut r, t);
            i += p.len();
        } else {
            assert(rest.len() >= p@.len() ==> rest.subrange(0, p@.len() as int) == s@.subrange(
                i as int,
                i + p@.len(),
            ));
            assert(rest.drop_first() == s@.skip(i + 1));
            r.push(s[i]);
            i += 1;
        }
    }
    assert(s@.skip(s@.len() as int).len() == 0);
    r
}

/// `s` with every occurrence of `p` replaced by `t` (`s` itself for an empty `p`).
pub fn replace_str(s: &[char], p: &str, t: &str) -> (r: Vec<char>)
    ensures
        r@ == replace(s@, p@, t@),
{
    let pc = to_chars(p);
    let tc = to_chars(t);
    if pc.len() == 0 {
        proof {
            assert(p@ =~= Seq::<char>::empty());
            lemma_replace_empty(s@, t@);
        }
        return copy_chars(s);
    }
    replace_chars(s, pc.as_slice(), tc.as_slice())
}

/// Replacing the empty pattern leaves a text unchanged.
pub proof fn lemma_replace_empty(s: Seq<char>, t: Seq<char>)
    ensures
        replace(s, seq![], t) == s,
    decreases s.len(),
{
    if s.len() > 0 {
        lemma_replace_empty(s.drop_first(), t);
        assert(s == seq![s[0]] + s.drop_first());
    }
}

/// The last position of `c` in `s`.
pub open spec fn rfind_char(s: Seq<char>, c: char) -> Option<int>
    decreases s.len(),
{
    if s.len() == 0 {
        None
    } else if s.last() == c {
        Some(s.len() - 1)
    } else {
        rfind_char(s.drop_last(), c)
    }
}

/// The last position of `c` in `s`.
pub fn rfind_chars(s: &[char], c: char) -> (r: Option<usize>)
    ensures
        r matches Some(j) ==> rfind_char(s@, c) == Some(j as int),
        r is None ==> rfind_char(s@, c) is None,
{
    let mut i = s.len();
    assert(s@.take(s@.len() as int) == s@);
    while i > 0
        invariant
            i <= s@.len(),
            rfind_char(s@, c) == rfind_char(s@.take(i as int), c),
        decreases i,
    {
        assert(s@.take(i as int).drop_last() == s@.take(i - 1));
        if s[i - 1] == c {
            return Some(i - 1);
        }
        i -= 1;
    }
    None
}

/// `s` cut at the first occurrence of `p` (`str::split_once`).
pub open spec fn split_once(s: Seq<char>, p: Seq<char>) -> Option<(Seq<char>, Seq<char>)> {
    match find(s, p) {
        Some(i) => Some((s.take(i), s.skip(i + p.len()))),
        None => None,
    }
}

/// `s` cut at the first occurrence of `p`.
pub fn split_once_str(s: &[char], p: &str) -> (r: Option<(Vec<char>, Vec<char>)>)
    ensures
        match (r, split_once(s@, p@)) {
            (Some((a, b)), Some((x, y))) => a@ == x && b@ == y,
            (None, None) => true,
            _ => false,
        },
{
    let pc = to_chars(p);
    match find_chars(s, pc.as_slice()) {
        Some(i) => {
            proof {
                lemma_find_from(s@, pc@, 0);
                assert(is_at(s@, i as int, pc@));
            }
            let n = s.len();
            let a = sub_chars(s, 0, i);
            let b = sub_chars(s, i + pc.len(), s.len());
            assert(a@ == s@.take(i as int));
            Some((a, b))
        },
        None => None,
    }
}

/// Number of occurrences of `c` in `s`.
pub open spec fn count_char(s: Seq<char>, c: char) -> nat
    decreases s.len(),
{
    if s.len() == 0 {
        0
    } else {
        (if s[0] == c { 1nat } else { 0nat }) + count_char(s.drop_first(), c)
    }
}

/// Number of occurrences of `c` in `s`.
pub fn count_chars(s: &[char], c: char) -> (n: usize)
    ensures
        n == count_char(s@, c),
{
    let mut n: usize = 0;
    let mut i: usize = 0;
    assert(s@.skip(0) == s@);
    while i < s.len()
        invariant
            i <= s@.len(),
            n + count_char(s@.skip(i as int), c) == count_char(s@, c),
            n <= i,
        decreases s@.len() - i,
    {
        assert(s@.skip(i as int).drop_first() == s@.skip(i + 1));
        if s[i] == c {
            n += 1;
        }
        i += 1;
    }
    n
}

/// `s` repeated `n` times (`str::repeat`).
pub open spec fn repeat(s: Seq<char>, n: nat) -> Seq<char>
    decreases n,
{
    if n == 0 {
        seq![]
    } else {
        s + repeat(s, (n - 1) as nat)
    }
}

/// `s` repeated `n` times.
pub fn repeat_str(s: &str, n: usize) -> (r: Vec<char>)
    ensures
        r@ == repeat(s@, n as nat),
{
    let sc = to_chars(s);
    let mut r: Vec<char> = Vec::new();
    let mut k: usize = 0;
    while k < n
        invariant
            k <= n,
            sc@ == s@,
            repeat(s@, n as nat) == r@ + repeat(s@, (n - k) as nat),
        decreases n - k,
    {
        append_chars(&mut r, sc.as_slice());
        k += 1;
    }
    r
}

/// The lines of `s` (`str::lines`): pieces cut at each `\n`, a `\r` just before the
/// `\n` dropped, and no empty last line after a final `\n`.
pub open spec fn lines_of(s: Seq<char>) -> Seq<Seq<char>>
    decreases s.len(),
{
    if s.len() == 0 {
        seq![]
    } else {
        match find(s, seq!['\n']) {
            None => seq![s],
            Some(i) if i < 0 || i >= s.len() => seq![s],
            Some(i) => seq![strip_cr(s.take(i))] + lines_of(s.skip(i + 1)),
        }
    }
}

/// `l` without one trailing `\r`.
pub open spec fn strip_cr(l: Seq<char>) -> Seq<char> {
    if l.len() > 0 && l.last() == '\r' {
        l.drop_last()
    } else {
        l
    }
}

/// The lines joined with `\n` between them (`join("\n")`).
pub open spec fn join_lines(ls: Seq<Seq<char>>) -> Seq<char>
    decreases ls.len(),
{
    if ls.len() == 0 {
        seq![]
    } else if ls.len() == 1 {
        ls[0]
    } else {
        join_lines(ls.drop_last()) + seq!['\n'] + ls.last()
    }
}

/// The character sequences held by a vector of character vectors.
pub open spec fn views(v: Seq<Vec<char>>) -> Seq<Seq<char>> {
    v.map_values(|x: Vec<char>| x@)
}

/// The lines of `s`.
pub fn split_lines(s: &[char]) -> (r: Vec<Vec<char>>)
    ensures
        views(r@) == lines_of(s@),
{
    let mut r: Vec<Vec<char>> = Vec::new();
    let mut i: usize = 0;
    let nl = ['\n'];
    assert(nl@ == seq!['\n']);
    assert(s@.skip(0) == s@);
    assert(views(r@) == Seq::<Seq<char>>::empty());
    while i < s.len()
        invariant
            i <= s@.len(),
            nl@ == seq!['\n'],
            lines_of(s@) == views(r@) + lines_of(s@.skip(i as int)),
        decreases s@.len() - i,
    {
        let ghost rest = s@.skip(i as int);
        match find_chars_from(s, nl.as_slice(), i) {
            Some(j) => {
                proof {
                    lemma_find_shift(s@, nl@, i as int);
                    lemma_find_from(s@, nl@, i as int);
                    lemma_find_from(rest, nl@, 0);
                }
                let mut line = sub_chars(s, i, j);
                if line.len() > 0 && line[line.len() - 1] == '\r' {
                    line.pop();
                }
                assert(rest.take(j - i) == s@.subrange(i as int, j as int));
                assert(rest.skip(j - i + 1) == s@.skip(j + 1));
                let ghost old_r = r@;
                r.push(line);
                assert(views(r@) == views(old_r).push(line@));
                i = j + 1;
            },
            None => {
                proof {
                    lemma_find_shift(s@, nl@, i as int);
                }
                let line = sub_chars(s, i, s.len());
                let ghost old_r = r@;
                r.push(line);
                assert(views(r@) == views(old_r).push(line@));
                i = s.len();
                assert(s@.skip(i as int).len() == 0);
            },
        }
    }
    r
}

/// Searching from `i` is searching the text from `i` on, positions shifted by `i`.
pub proof fn lemma_find_shift(s: Seq<char>, p: Seq<char>, i: int)
    requires
        0 <= i <= s.len(),
    ensures
        find_from(s, p, i) matches Some(j) ==> find(s.skip(i), p) == Some(j - i),
        find_from(s, p, i) is None ==> find(s.skip(i), p) is None,
{
    lemma_find_from(s, p, i);
    let t = s.skip(i);
    lemma_find_from(t, p, 0);
    assert forall|k: int| 0 <= k implies (is_at(t, k, p) <==> is_at(s, k + i, p)) by {
        if k + p.len() <= t.len() {
            assert(t.subrange(k, k + p.len()) == s.subrange(k + i, k + i + p.len()));
        }
    }
    match find_from(s, p, i) {
        Some(j) => {
            match find(t, p) {
                Some(m) => {
                    if m < j - i {
                        assert(is_at(s, m + i, p));
                    } else if m > j - i {
                        assert(is_at(t, j - i, p));
                    }
                },
                None => {
                    assert(is_at(t, j - i, p));
                },
            }
        },
        None => {
            match find(t, p) {
                Some(m) => {
                    assert(is_at(s, m + i, p));
                },
                None => {},
            }
        },
    }
}

} // verus!

verus! {

/// Adds one line at the end of a list of lines.
pub fn push_line(out: &mut Vec<Vec<char>>, l: Vec<char>)
    ensures
        views(final(out)@) == views(old(out)@).push(l@),
{
    out.push(l);
    assert(views(out@) =~= views(old(out)@).push(l@));
}

/// Adds a line holding the characters of `l`.
pub fn push_str_line(out: &mut Vec<Vec<char>>, l: &str)
    ensures
        views(final(out)@) == views(old(out)@).push(l@),
{
    push_line(out, to_chars(l));
}

/// The lines joined with `\n`.
pub fn join_vec(ls: &Vec<Vec<char>>) -> (r: Vec<char>)
    ensures
        r@ == join_lines(views(ls@)),
{
    let mut r: Vec<char> = Vec::new();
    let mut i: usize = 0;
    while i < ls.len()
        invariant
            i <= ls@.len(),
            r@ == join_lines(views(ls@).take(i as int)),
        decreases ls@.len() - i,
    {
        let ghost pre = views(ls@).take(i as int);
        let ghost next = views(ls@).take(i + 1);
        assert(next.drop_last() == pre);
        assert(next.last() == ls@[i as int]@);
        if i > 0 {
            r.push('\n');
        }
        append_chars(&mut r, ls[i].as_slice());
        i += 1;
    }
    assert(views(ls@).take(ls@.len() as int) == views(ls@));
    r
}

/// The lines of `s` joined again with `\n`, as a `String`.
pub fn join_string(ls: &Vec<Vec<char>>) -> (r: String)
    ensures
        r@ == join_lines(views(ls@)),
{
    let j = join_vec(ls);
    from_chars(j.as_slice())
}

/// The lines of the text `s`.
pub fn lines_str(s: &str) -> (r: Vec<Vec<char>>)
    ensures
        views(r@) == lines_of(s@),
{
    let c = to_chars(s);
    split_lines(c.as_slice())
}

/// The decimal digits of `n` (`usize` formatted with `{}`).
pub open spec fn decimal(n: nat) -> Seq<char>
    decreases n,
{
    if n < 10 {
        seq![digit_char(n)]
    } else {
        decimal(n / 10) + seq![digit_char(n % 10)]
    }
}

/// The character of the digit `d`.
pub open spec fn digit_char(d: nat) -> char {
    if d == 0 {
        '0'
    } else if d == 1 {
        '1'
    } else if d == 2 {
        '2'
    } else if d == 3 {
        '3'
    } else if d == 4 {
        '4'
    } else if d == 5 {
        '5'
    } else if d == 6 {
        '6'
    } else if d == 7 {
        '7'
    } else if d == 8 {
        '8'
    } else {
        '9'
    }
}

/// The character of the digit `d`.
fn digit(d: usize) -> (c: char)
    requires
        d < 10,
    ensures
        c == digit_char(d as nat),
{
    if d == 0 {
        '0'
    } else if d == 1 {
        '1'
    } else if d == 2 {
        '2'
    } else if d == 3 {
        '3'
    } else if d == 4 {
        '4'
    } else if d == 5 {
        '5'
    } else if d == 6 {
        '6'
    } else if d == 7 {
        '7'
    } else if d == 8 {
        '8'
    } else {
        '9'
    }
}

/// The decimal digits of `n`.
pub fn usize_chars(n: usize) -> (r: Vec<char>)
    ensures
        r@ == decimal(n as nat),
    decreases n,
{
    if n < 10 {
        let mut r: Vec<char> = Vec::new();
        r.push(digit(n));
        assert(r@ == seq![digit_char(n as nat)]);
        r
    } else {
        let mut r = usize_chars(n / 10);
        r.push(digit(n % 10));
        r
    }
}

/// The total length of some lines.
pub open spec fn sum_lens(ls: Seq<Seq<char>>) -> nat
    decreases ls.len(),
{
    if ls.len() == 0 {
        0
    } else {
        sum_lens(ls.drop_last()) + ls.last().len()
    }
}

/// The total length with one more line in front.
pub proof fn lemma_sum_lens_cons(a: Seq<char>, rest: Seq<Seq<char>>)
    ensures
        sum_lens(seq![a] + rest) == a.len() + sum_lens(rest),
    decreases rest.len(),
{
    let x = seq![a] + rest;
    if rest.len() == 0 {
        assert(x.drop_last() =~= Seq::<Seq<char>>::empty());
        assert(x.last() == a);
        assert(sum_lens(x) == sum_lens(x.drop_last()) + x.last().len());
    } else {
        lemma_sum_lens_cons(a, rest.drop_last());
        assert(x.drop_last() =~= seq![a] + rest.drop_last());
        assert(x.last() == rest.last());
        assert(sum_lens(x) == sum_lens(x.drop_last()) + x.last().len());
    }
}

/// The first lines are no longer in total than all of them.
pub proof fn lemma_sum_lens_prefix(ls: Seq<Seq<char>>, i: int)
    requires
        0 <= i <= ls.len(),
    ensures
        sum_lens(ls.take(i)) <= sum_lens(ls),
    decreases ls.len() - i,
{
    if i < ls.len() {
        lemma_sum_lens_prefix(ls, i + 1);
        assert(ls.take(i + 1).drop_last() =~= ls.take(i));
    } else {
        assert(ls.take(i) =~= ls);
    }
}

/// The lines of a text are no longer in total than the text.
pub proof fn lemma_lines_len(s: Seq<char>)
    ensures
        sum_lens(lines_of(s)) <= s.len(),
    decreases s.len(),
{
    if s.len() > 0 {
        match find(s, seq!['\n']) {
            Some(i) if 0 <= i < s.len() => {
                assert(lines_of(s) == seq![strip_cr(s.take(i))] + lines_of(s.skip(i + 1)));
                lemma_lines_len(s.skip(i + 1));
                lemma_sum_lens_cons(strip_cr(s.take(i)), lines_of(s.skip(i + 1)));
                assert(strip_cr(s.take(i)).len() <= i);
                assert(s.skip(i + 1).len() == s.len() - i - 1);
            },
            _ => {
                assert(lines_of(s) == seq![s]);
                assert(seq![s].drop_last() =~= Seq::<Seq<char>>::empty());
                assert(sum_lens(seq![s]) == sum_lens(seq![s].drop_last()) + seq![s].last().len());
            },
        }
    }
}

/// A character occurs no more often than the text is long.
pub proof fn lemma_count_char_len(s: Seq<char>, c: char)
    ensures
        count_char(s, c) <= s.len(),
    decreases s.len(),
{
    if s.len() > 0 {
        lemma_count_char_len(s.drop_first(), c);
    }
}

/// The pieces of `s` between the occurrences of `c` (`str::split` with one character):
/// one more piece than `c` occurs, empty pieces included.
pub open spec fn split_char(s: Seq<char>, c: char) -> Seq<Seq<char>>
    decreases s.len(),
{
    match find(s, seq![c]) {
        Some(i) if 0 <= i < s.len() => seq![s.take(i)] + split_char(s.skip(i + 1), c),
        _ => seq![s],
    }
}

/// The pieces of `s` between the occurrences of `c`.
pub fn split_on(s: &[char], c: char) -> (r: Vec<Vec<char>>)
    ensures
        views(r@) == split_char(s@, c),
{
    let mut r: Vec<Vec<char>> = Vec::new();
    let mut i: usize = 0;
    let pat = [c];
    assert(pat@ == seq![c]);
    assert(s@.skip(0) == s@);
    let mut go = true;
    while go
        invariant
            i <= s@.len(),
            pat@ == seq![c],
            go ==> split_char(s@, c) == views(r@) + split_char(s@.skip(i as int), c),
            !go ==> split_char(s@, c) == views(r@),
        decreases s@.len() - i + if go { 1int } else { 0int },
    {
        let ghost rest = s@.skip(i as int);
        match find_chars_from(s, pat.as_slice(), i) {
            Some(j) => {
                proof {
                    lemma_find_shift(s@, pat@, i as int);
                    lemma_find_from(s@, pat@, i as int);
                }
                assert(is_at(s@, j as int, pat@));
                assert(j + 1 <= s@.len());
                assert(s@.len() == s.len());
                let piece = sub_chars(s, i, j);
                assert(rest.take(j - i) == s@.subrange(i as int, j as int));
                assert(rest.skip(j - i + 1) == s@.skip(j + 1));
                let ghost old_r = r@;
                r.push(piece);
                assert(views(r@) == views(old_r).push(piece@));
                i = j + 1;
            },
            None => {
                proof {
                    lemma_find_shift(s@, pat@, i as int);
                }
                let piece = sub_chars(s, i, s.len());
                assert(piece@ == rest);
                let ghost old_r = r@;
                r.push(piece);
                assert(views(r@) == views(old_r).push(piece@));
                go = false;
            },
        }
    }
    r
}

/// The last position of a character lies in the text and holds it.
pub proof fn lemma_rfind_in(s: Seq<char>, c: char)
    ensures
        rfind_char(s, c) matches Some(i) ==> 0 <= i < s.len() && s[i] == c,
    decreases s.len(),
{
    if s.len() > 0 && s.last() != c {
        lemma_rfind_in(s.drop_last(), c);
    }
}

/// Replacing a pattern of one or two characters in two texts joined is replacing it in
/// each, when no occurrence reaches across the join.
pub proof fn lemma_replace_concat(u: Seq<char>, v: Seq<char>, p: Seq<char>, t: Seq<char>)
    requires
        1 <= p.len() <= 2,
        p.len() == 2 && u.len() > 0 && v.len() > 0 ==> !(u.last() == p[0] && v[0] == p[1]),
    ensures
        replace(u + v, p, t) == replace(u, p, t) + replace(v, p, t),
    decreases u.len(),
{
    if u.len() == 0 {
        assert(u + v =~= v);
        assert(replace(u, p, t) == u);
        assert(u + replace(v, p, t) =~= replace(v, p, t));
    } else {
        let w = u + v;
        if starts_with(u, p) {
            assert(w.subrange(0, p.len() as int) =~= u.subrange(0, p.len() as int));
            assert(starts_with(w, p));
            let r = u.skip(p.len() as int);
            assert(w.skip(p.len() as int) =~= r + v);
            if r.len() > 0 {
                assert(r.last() == u.last());
            }
            lemma_replace_concat(r, v, p, t);
        } else {
            if u.len() >= p.len() {
                assert(w.subrange(0, p.len() as int) =~= u.subrange(0, p.len() as int));
            } else {
                assert(u.len() == 1 && p.len() == 2);
                if starts_with(w, p) {
                    assert(w[0] == p[0] && w[1] == p[1]);
                    assert(u.last() == w[0] && v[0] == w[1]);
                }
            }
            assert(!starts_with(w, p));
            let r = u.drop_first();
            assert(w.drop_first() =~= r + v);
            if r.len() > 0 {
                assert(r.last() == u.last());
            }
            lemma_replace_concat(r, v, p, t);
            assert(w[0] == u[0]);
        }
    }
}

/// A text without the last character of a pattern has nothing to replace.
pub proof fn lemma_replace_absent(s: Seq<char>, p: Seq<char>, t: Seq<char>)
    requires
        p.len() >= 1,
        forall|k: int| 0 <= k < s.len() ==> s[k] != p[p.len() - 1],
    ensures
        replace(s, p, t) == s,
    decreases s.len(),
{
    if s.len() > 0 {
        if starts_with(s, p) {
            assert(s.subrange(0, p.len() as int)[p.len() - 1] == s[p.len() - 1]);
        }
        lemma_replace_absent(s.drop_first(), p, t);
        assert(s =~= seq![s[0]] + s.drop_first());
    }
}

/// Replacing a one-character pattern in a one-character text.
pub proof fn lemma_replace_single(c: char, p: Seq<char>, t: Seq<char>)
    requires
        p.len() == 1,
    ensures
        replace(seq![c], p, t) == (if c == p[0] { t } else { seq![c] }),
{
    let s = seq![c];
    let e = Seq::<char>::empty();
    assert(replace(e, p, t) == e);
    if c == p[0] {
        assert(s.subrange(0, 1) =~= p);
        assert(starts_with(s, p));
        assert(s.skip(p.len() as int) =~= e);
        assert(replace(s, p, t) == t + replace(e, p, t));
        assert(t + e =~= t);
    } else {
        assert(s.subrange(0, 1)[0] != p[0]);
        assert(!starts_with(s, p));
        assert(s.drop_first() =~= e);
        assert(replace(s, p, t) == seq![s[0]] + replace(e, p, t));
        assert(seq![c] + e =~= s);
    }
}

/// Replacing a one-character pattern in a text that is either one character or does not
/// hold the pattern.
pub proof fn lemma_replace_step(s: Seq<char>, p: Seq<char>, t: Seq<char>)
    requires
        p.len() == 1,
        s.len() == 1 || forall|k: int| 0 <= k < s.len() ==> s[k] != p[0],
    ensures
        replace(s, p, t) == (if s.len() == 1 && s[0] == p[0] { t } else { s }),
{
    if s.len() == 1 {
        lemma_replace_single(s[0], p, t);
        assert(s =~= seq![s[0]]);
    } else {
        lemma_replace_absent(s, p, t);
    }
}

/// Replacing a pattern in a text that is exactly the pattern.
pub proof fn lemma_replace_whole(p: Seq<char>, t: Seq<char>)
    requires
        p.len() >= 1,
    ensures
        replace(p, p, t) == t,
{
    let e = Seq::<char>::empty();
    assert(p.subrange(0, p.len() as int) =~= p);
    assert(p.skip(p.len() as int) =~= e);
    assert(replace(e, p, t) == e);
    assert(t + e =~= t);
}

/// Whether a text holds no newline.
pub open spec fn no_newline(l: Seq<char>) -> bool {
    forall|k: int| 0 <= k < l.len() ==> #[trigger] l[k] != '\n'
}

/// No line of a text holds a newline.
pub proof fn lemma_lines_no_newline(s: Seq<char>)
    ensures
        forall|i: int| 0 <= i < lines_of(s).len() ==> no_newline(#[trigger] lines_of(s)[i]),
    decreases s.len(),
{
    if s.len() > 0 {
        let nl = seq!['\n'];
        lemma_find_from(s, nl, 0);
        match find(s, nl) {
            Some(i) if 0 <= i < s.len() => {
                lemma_lines_no_newline(s.skip(i + 1));
                let l0 = strip_cr(s.take(i));
                assert forall|k: int| 0 <= k < l0.len() implies #[trigger] l0[k] != '\n' by {
                    if l0[k] == '\n' {
                        assert(s.subrange(k, k + 1) =~= nl);
                        assert(is_at(s, k, nl));
                    }
                }
                assert(lines_of(s) == seq![l0] + lines_of(s.skip(i + 1)));
                assert forall|j: int| 0 <= j < lines_of(s).len() implies no_newline(#[trigger] lines_of(s)[j]) by {
                    if j > 0 {
                        assert(lines_of(s)[j] == lines_of(s.skip(i + 1))[j - 1]);
                    }
                }
            },
            _ => {
                assert(lines_of(s) == seq![s]);
                assert forall|k: int| 0 <= k < s.len() implies #[trigger] s[k] != '\n' by {
                    if s[k] == '\n' {
                        assert(s.subrange(k, k + 1) =~= nl);
                        assert(is_at(s, k, nl));
                    }
                }
            },
        }
    }
}

/// Joining lines puts the first line, a newline and the others joined.
pub proof fn lemma_join_front(ls: Seq<Seq<char>>)
    requires
        ls.len() >= 2,
    ensures
        join_lines(ls) == ls[0] + seq!['\n'] + join_lines(ls.drop_first()),
    decreases ls.len(),
{
    let nl = seq!['\n'];
    assert(join_lines(ls) == join_lines(ls.drop_last()) + nl + ls.last());
    if ls.len() == 2 {
        assert(ls.drop_last() =~= seq![ls[0]]);
        assert(ls.drop_first() =~= seq![ls[1]]);
        assert(join_lines(seq![ls[0]]) == ls[0]);
        assert(join_lines(seq![ls[1]]) == ls[1]);
    } else {
        let dl = ls.drop_last();
        let df = ls.drop_first();
        lemma_join_front(dl);
        assert(dl.drop_first() =~= df.drop_last());
        assert(df.last() == ls.last());
        assert(dl[0] == ls[0]);
        assert(join_lines(df) == join_lines(df.drop_last()) + nl + df.last());
        assert(join_lines(ls) =~= ls[0] + nl + join_lines(df));
    }
}

/// Cutting joined lines at their newlines gives the lines back, when none of them holds
/// a newline.
pub proof fn lemma_split_join(ls: Seq<Seq<char>>)
    requires
        ls.len() >= 1,
        forall|i: int| 0 <= i < ls.len() ==> no_newline(#[trigger] ls[i]),
    ensures
        split_char(join_lines(ls), '\n') == ls,
    decreases ls.len(),
{
    let nl = seq!['\n'];
    let s = join_lines(ls);
    lemma_find_from(s, nl, 0);
    if ls.len() == 1 {
        assert(no_newline(ls[0]));
        if find(s, nl) is Some {
            let j = find(s, nl)->0;
            assert(s.subrange(j, j + 1)[0] == s[j]);
        }
        assert(split_char(s, '\n') == seq![s]);
        assert(seq![s] =~= ls);
    } else {
        lemma_join_front(ls);
        let a = ls[0];
        let rest = ls.drop_first();
        assert(no_newline(a));
        let n = a.len() as int;
        assert(s.subrange(n, n + 1) =~= nl);
        assert(is_at(s, n, nl));
        let j = find(s, nl)->0;
        if j < n {
            assert(s.subrange(j, j + 1)[0] == s[j]);
            assert(s[j] == a[j]);
        }
        assert(j == n);
        assert(s.take(n) =~= a);
        assert(s.skip(n + 1) =~= join_lines(rest));
        assert forall|i: int| 0 <= i < rest.len() implies no_newline(#[trigger] rest[i]) by {
            assert(rest[i] == ls[i + 1]);
        }
        lemma_split_join(rest);
        assert(split_char(s, '\n') == seq![a] + rest);
        assert(seq![a] + rest =~= ls);
    }
}

/// A text that does not hold the pattern has nothing to replace.
pub proof fn lemma_replace_not_found(s: Seq<char>, p: Seq<char>, t: Seq<char>)
    requires
        !contains(s, p),
    ensures
        replace(s, p, t) == s,
    decreases s.len(),
{
    lemma_find_from(s, p, 0);
    if s.len() > 0 {
        assert(!is_at(s, 0, p));
        let r = s.drop_first();
        assert forall|k: int| 0 <= k implies !is_at(r, k, p) by {
            if is_at(r, k, p) {
                assert(s.subrange(k + 1, k + 1 + p.len()) =~= r.subrange(k, k + p.len()));
                assert(is_at(s, k + 1, p));
            }
        }
        lemma_find_from(r, p, 0);
        lemma_replace_not_found(r, p, t);
        assert(s =~= seq![s[0]] + r);
    }
}

/// A text that ends with the separator has an empty last piece.
pub proof fn lemma_split_char_ends_with(s: Seq<char>, c: char)
    requires
        s.len() > 0,
        s.last() == c,
    ensures
        split_char(s, c).last() == Seq::<char>::empty(),
    decreases s.len(),
{
    let p = seq![c];
    lemma_find_from(s, p, 0);
    assert(s.subrange(s.len() - 1, s.len() as int) =~= p);
    assert(is_at(s, s.len() - 1, p));
    let i = find(s, p)->0;
    assert(s.subrange(i, i + 1)[0] == s[i]);
    let r = s.skip(i + 1);
    assert(split_char(s, c) == seq![s.take(i)] + split_char(r, c));
    if i == s.len() - 1 {
        assert(r.len() == 0);
        lemma_find_from(r, p, 0);
        assert(split_char(r, c) == seq![r]);
        assert(r =~= Seq::<char>::empty());
    } else {
        assert(r.last() == c);
        lemma_split_char_ends_with(r, c);
    }
}

/// Each line is found in the lines joined by newlines.
pub proof fn lemma_line_in_join(ls: Seq<Seq<char>>, k: int)
    requires
        0 <= k < ls.len(),
    ensures
        contains(join_lines(ls), ls[k]),
    decreases ls.len(),
{
    let j = join_lines(ls);
    let l = ls[k];
    let at: int = if k == ls.len() - 1 {
        let a: int = if ls.len() == 1 { 0 } else { (join_lines(ls.drop_last()).len() + 1) as int };
        if ls.len() > 1 {
            assert(j == join_lines(ls.drop_last()) + seq!['\n'] + ls.last());
        }
        assert(j.subrange(a, a + l.len()) =~= l);
        a
    } else {
        let d = ls.drop_last();
        assert(d[k] == l);
        lemma_line_in_join(d, k);
        let jd = join_lines(d);
        lemma_find_from(jd, l, 0);
        let a: int = find(jd, l)->0;
        assert(j == jd + seq!['\n'] + ls.last());
        assert(j.subrange(a, a + l.len()) =~= jd.subrange(a, a + l.len()));
        a
    };
    assert(is_at(j, at, l));
    lemma_find_from(j, l, 0);
}

/// A path with each `\\` written `/`.
pub fn normalize_separators(v: &str) -> (r: String)
    ensures
        r@ == v@.map_values(|c: char| if c == '\\' { '/' } else { c }),
{
    let vc = to_chars(v);
    let ghost want = v@.map_values(|c: char| if c == '\\' { '/' } else { c });
    let mut out: Vec<char> = Vec::new();
    let mut i: usize = 0;
    while i < vc.len()
        invariant
            i <= vc@.len(),
            vc@ == v@,
            want == v@.map_values(|c: char| if c == '\\' { '/' } else { c }),
            out@ == want.take(i as int),
        decreases vc@.len() - i,
    {
        let c = vc[i];
        out.push(if c == '\\' { '/' } else { c });
        assert(want.take(i + 1) =~= want.take(i as int).push(want[i as int]));
        i += 1;
    }
    assert(want.take(vc@.len() as int) =~= want);
    from_chars(out.as_slice())
}

} // verus!
