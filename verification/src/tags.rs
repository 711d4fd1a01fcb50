//! Counting where a pattern occurs in a text, and how the counts of pieces add up when
//! the pieces are put together.
use vstd::prelude::*;
use crate::text::{is_at, repeat, join_lines};

verus! {

/// The number of places where `p` (not empty) occurs in `s`, counted by where each
/// occurrence ends.
pub open spec fn count_sub(s: Seq<char>, p: Seq<char>) -> nat
    decreases s.len(),
{
    if s.len() == 0 || p.len() == 0 {
        0
    } else {
        count_sub(s.drop_last(), p) + if is_at(s, s.len() - p.len(), p) {
            1nat
        } else {
            0nat
        }
    }
}

/// The occurrences of `p` in lines, line by line.
pub open spec fn count_sub_lines(ls: Seq<Seq<char>>, p: Seq<char>) -> nat
    decreases ls.len(),
{
    if ls.len() == 0 {
        0
    } else {
        count_sub_lines(ls.drop_last(), p) + count_sub(ls.last(), p)
    }
}

/// No occurrence of `p` can run across the point where `a` ends and `b` begins: the last
/// character of `a` is none of those of `p` but its last, or the first character of `b`
/// is none of those of `p` but its first.
pub open spec fn no_straddle(a: Seq<char>, b: Seq<char>, p: Seq<char>) -> bool {
    ||| a.len() == 0
    ||| b.len() == 0
    ||| forall|k: int| 0 <= k < p.len() - 1 ==> #[trigger] p[k] != a.last()
    ||| forall|k: int| 0 < k < p.len() ==> #[trigger] p[k] != b[0]
}

/// A pattern shaped like a tag: `<` first and nowhere else, `>` last and nowhere else,
/// and no newline in it.
pub open spec fn tag_like(p: Seq<char>) -> bool {
    &&& p.len() >= 2
    &&& p[0] == '<'
    &&& p.last() == '>'
    &&& forall|k: int| 0 <= k < p.len() ==> #[trigger] p[k] != '\n'
    &&& forall|k: int| 0 < k < p.len() ==> #[trigger] p[k] != '<'
    &&& forall|k: int| 0 <= k < p.len() - 1 ==> #[trigger] p[k] != '>'
}

/// A text shorter than the pattern holds no occurrence of it.
pub proof fn lemma_count_sub_short(s: Seq<char>, p: Seq<char>)
    requires
        s.len() < p.len(),
    ensures
        count_sub(s, p) == 0,
    decreases s.len(),
{
    if s.len() > 0 {
        lemma_count_sub_short(s.drop_last(), p);
    }
}

/// A text holds a pattern no more often than it has characters.
pub proof fn lemma_count_sub_le_len(s: Seq<char>, p: Seq<char>)
    ensures
        count_sub(s, p) <= s.len(),
    decreases s.len(),
{
    if s.len() > 0 {
        lemma_count_sub_le_len(s.drop_last(), p);
    }
}

/// A text without the first character of the pattern holds no occurrence of it.
pub proof fn lemma_count_sub_absent(s: Seq<char>, p: Seq<char>)
    requires
        p.len() > 0,
        forall|k: int| 0 <= k < s.len() ==> #[trigger] s[k] != p[0],
    ensures
        count_sub(s, p) == 0,
    decreases s.len(),
{
    if s.len() > 0 {
        let j = s.len() - p.len();
        if is_at(s, j, p) {
            assert(s.subrange(j, j + p.len())[0] == s[j]);
        }
        lemma_count_sub_absent(s.drop_last(), p);
    }
}

/// A pattern occurs once in itself.
pub proof fn lemma_count_sub_self(p: Seq<char>)
    requires
        p.len() > 0,
    ensures
        count_sub(p, p) == 1,
{
    lemma_count_sub_short(p.drop_last(), p);
    assert(p.subrange(0, p.len() as int) =~= p);
}

/// Where the text has the pattern's first character only at its start, the pattern
/// occurs in it once if the text starts with it, and not at all otherwise.
pub proof fn lemma_count_sub_one_start(s: Seq<char>, p: Seq<char>)
    requires
        p.len() > 0,
        s.len() > 0,
        s[0] == p[0],
        forall|k: int| 0 < k < s.len() ==> #[trigger] s[k] != p[0],
    ensures
        count_sub(s, p) == if is_at(s, 0, p) { 1nat } else { 0nat },
    decreases s.len(),
{
    let j = s.len() - p.len();
    let d = s.drop_last();
    assert(count_sub(s, p) == count_sub(d, p) + if is_at(s, j, p) { 1nat } else { 0nat });
    if j > 0 && is_at(s, j, p) {
        assert(s.subrange(j, j + p.len())[0] == s[j]);
    }
    if s.len() == 1 {
        assert(count_sub(d, p) == 0);
    } else {
        lemma_count_sub_one_start(d, p);
        if j > 0 {
            assert(!is_at(s, j, p));
            assert(d.subrange(0, p.len() as int) =~= s.subrange(0, p.len() as int));
            assert(is_at(d, 0, p) == is_at(s, 0, p));
        } else {
            assert(!is_at(d, 0, p));
        }
    }
}

/// The occurrences in two texts put together are those of each, where none can run
/// across the join.
pub proof fn lemma_count_sub_concat(a: Seq<char>, b: Seq<char>, p: Seq<char>)
    requires
        p.len() > 0,
        no_straddle(a, b, p),
    ensures
        count_sub(a + b, p) == count_sub(a, p) + count_sub(b, p),
    decreases b.len(),
{
    if b.len() == 0 {
        assert(a + b =~= a);
    } else {
        let d = b.drop_last();
        assert((a + b).drop_last() =~= a + d);
        if d.len() > 0 {
            assert(d[0] == b[0]);
        }
        lemma_count_sub_concat(a, d, p);
        let n = a.len() + b.len();
        let j = n - p.len();
        if p.len() <= b.len() {
            assert((a + b).subrange(j, j + p.len()) =~= b.subrange(b.len() - p.len(), b.len() as int));
        } else if is_at(a + b, j, p) {
            let s = (a + b).subrange(j, j + p.len());
            let ka = a.len() - 1 - j;
            let kb = a.len() - j;
            assert(s[ka] == (a + b)[a.len() - 1]);
            assert(s[kb] == (a + b)[a.len() as int]);
            assert(p[ka] == a.last());
            assert(p[kb] == b[0]);
            assert(false);
        }
    }
}

/// A repeated text holds its pattern as often as each copy does, where no occurrence
/// can run across two copies; repeated at least once, it ends as the text does.
pub proof fn lemma_count_sub_repeat(s: Seq<char>, n: nat, p: Seq<char>)
    requires
        p.len() > 0,
        s.len() > 0,
        forall|k: int| 0 <= k < p.len() - 1 ==> #[trigger] p[k] != s.last(),
    ensures
        count_sub(s, p) == 0 ==> count_sub(repeat(s, n), p) == 0,
        count_sub(s, p) == 1 ==> count_sub(repeat(s, n), p) == n,
        n > 0 ==> repeat(s, n).len() > 0 && repeat(s, n).last() == s.last(),
    decreases n,
{
    if n == 0 {
        assert(repeat(s, n).len() == 0);
    } else {
        let r = repeat(s, (n - 1) as nat);
        lemma_count_sub_repeat(s, (n - 1) as nat, p);
        assert(repeat(s, n) == s + r);
        lemma_count_sub_concat(s, r, p);
    }
}

/// The occurrences of a pattern without newlines in lines joined by newlines are those
/// of the lines.
pub proof fn lemma_count_sub_join(ls: Seq<Seq<char>>, p: Seq<char>)
    requires
        p.len() > 0,
        forall|k: int| 0 <= k < p.len() ==> #[trigger] p[k] != '\n',
    ensures
        count_sub(join_lines(ls), p) == count_sub_lines(ls, p),
    decreases ls.len(),
{
    if ls.len() == 1 {
        assert(count_sub_lines(ls.drop_last(), p) == 0);
        assert(count_sub_lines(ls, p) == count_sub(ls[0], p));
    } else if ls.len() >= 2 {
        let d = ls.drop_last();
        let nl = seq!['\n'];
        assert(join_lines(ls) == join_lines(d) + nl + ls.last());
        lemma_count_sub_join(d, p);
        lemma_count_sub_absent(nl, p);
        lemma_count_sub_concat(join_lines(d), nl, p);
        assert((join_lines(d) + nl).last() == '\n');
        lemma_count_sub_concat(join_lines(d) + nl, ls.last(), p);
    }
}

/// Counting line by line over two lists of lines put together.
pub proof fn lemma_count_sub_lines_concat(a: Seq<Seq<char>>, b: Seq<Seq<char>>, p: Seq<char>)
    ensures
        count_sub_lines(a + b, p) == count_sub_lines(a, p) + count_sub_lines(b, p),
    decreases b.len(),
{
    if b.len() == 0 {
        assert(a + b =~= a);
    } else {
        assert((a + b).drop_last() =~= a + b.drop_last());
        lemma_count_sub_lines_concat(a, b.drop_last(), p);
    }
}

/// Counting line by line with one more line at the end.
pub proof fn lemma_count_sub_lines_push(ls: Seq<Seq<char>>, l: Seq<char>, p: Seq<char>)
    ensures
        count_sub_lines(ls.push(l), p) == count_sub_lines(ls, p) + count_sub(l, p),
{
    assert(ls.push(l).drop_last() =~= ls);
}

/// Counting in one line.
pub proof fn lemma_count_sub_line(l: Seq<char>, p: Seq<char>)
    ensures
        count_sub_lines(seq![l], p) == count_sub(l, p),
{
    assert(seq![l].drop_last() =~= Seq::<Seq<char>>::empty());
    assert(count_sub_lines(Seq::<Seq<char>>::empty(), p) == 0);
    assert(seq![l].last() == l);
}

} // verus!
