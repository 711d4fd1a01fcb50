//! How the tags that the conversions write open and close in pairs.
use vstd::prelude::*;
use crate::text::{lines_of, join_lines, trim, replace, starts_with, count_char, repeat, is_at};
use crate::tags::{
    count_sub, count_sub_lines, tag_like, lemma_count_sub_short, lemma_count_sub_self,
    lemma_count_sub_one_start, lemma_count_sub_concat, lemma_count_sub_repeat,
    lemma_count_sub_join, lemma_count_sub_lines_concat, lemma_count_sub_line, lemma_count_sub_absent,
    lemma_count_sub_lines_push,
};
use crate::line::spec_line_exec;
use crate::html::{quote_from, quote_step, spec_convert_html_quote};
use crate::header::{
    spec_replace_header_name, close_line, close_lines, toc_entry, toc_drop, toc_opens, toc_depth,
    toc_lines_of, toc_lines_from, toc_lines, spec_get_toc_menu, toc_open_count, toc_close_count,
    law_toc_nesting,
};

verus! {

/// The tag that opens a quote.
pub open spec fn quote_open() -> Seq<char> {
    "<blockquote>"@
}

/// The tag that closes a quote.
pub open spec fn quote_close() -> Seq<char> {
    "</blockquote>"@
}

/// Whether a line is a quote line: trimmed, it starts with `>`.
pub open spec fn is_quote_line(l: Seq<char>) -> bool {
    starts_with(trim(l), ">"@)
}

/// The link conversion of a quote line, its `>` removed.
pub open spec fn quote_text(l: Seq<char>) -> Seq<char> {
    spec_line_exec(replace(l, ">"@, ""@))
}

/// No line holds a quote tag, and neither does the link conversion of a quote line.
pub open spec fn quote_tags_fresh(ls: Seq<Seq<char>>) -> bool {
    forall|i: int|
        0 <= i < ls.len() ==> {
            &&& count_sub(#[trigger] ls[i], quote_open()) == 0
            &&& count_sub(ls[i], quote_close()) == 0
            &&& is_quote_line(ls[i]) ==> count_sub(quote_text(ls[i]), quote_open()) == 0
                && count_sub(quote_text(ls[i]), quote_close()) == 0
        }
}

/// Every run of consecutive quote lines keeps one depth: two quote lines in a row hold
/// as many `>` each.
pub open spec fn quote_runs_level(ls: Seq<Seq<char>>) -> bool {
    forall|i: int|
        0 < i < ls.len() && is_quote_line(#[trigger] ls[i]) && is_quote_line(ls[i - 1]) ==> count_char(
            ls[i],
            '>',
        ) == count_char(ls[i - 1], '>')
}

/// The two quote tags are shaped like tags, each occurs once in itself and not in the
/// other, and the short pieces the conversion adds hold neither.
proof fn lemma_quote_tag_facts()
    ensures
        tag_like(quote_open()),
        tag_like(quote_close()),
        count_sub(quote_open(), quote_open()) == 1,
        count_sub(quote_close(), quote_close()) == 1,
        count_sub(quote_close(), quote_open()) == 0,
        count_sub(quote_open(), quote_close()) == 0,
        "<blockquote>\n"@ == quote_open() + seq!['\n'],
        count_sub("<br/>"@, quote_open()) == 0,
        count_sub("<br/>"@, quote_close()) == 0,
        count_sub(seq!['\n'], quote_open()) == 0,
        count_sub(seq!['\n'], quote_close()) == 0,
{
    reveal_strlit("<blockquote>");
    reveal_strlit("</blockquote>");
    reveal_strlit("<blockquote>\n");
    reveal_strlit("<br/>");
    let o = quote_open();
    let c = quote_close();
    assert(tag_like(o));
    assert(tag_like(c));
    lemma_count_sub_self(o);
    lemma_count_sub_self(c);
    lemma_count_sub_one_start(c, o);
    assert(c[1] != o[1]);
    assert(c.subrange(0, o.len() as int)[1] == c[1]);
    lemma_count_sub_short(o, c);
    assert("<blockquote>\n"@ =~= o + seq!['\n']);
    lemma_count_sub_short("<br/>"@, o);
    lemma_count_sub_short("<br/>"@, c);
    lemma_count_sub_short(seq!['\n'], o);
    lemma_count_sub_short(seq!['\n'], c);
}

/// The quote tags in each kind of line that the quote conversion writes.
proof fn lemma_quote_piece_counts(mz: Seq<char>, cnt: nat, q: nat, tail: Seq<char>)
    requires
        count_sub(mz, quote_open()) == 0,
        count_sub(mz, quote_close()) == 0,
        tail == Seq::<char>::empty() || tail == "<br/>"@,
    ensures
        count_sub(mz + "<br/>"@, quote_open()) == 0,
        count_sub(mz + "<br/>"@, quote_close()) == 0,
        count_sub(repeat(quote_close(), q), quote_open()) == 0,
        count_sub(repeat(quote_close(), q), quote_close()) == q,
        count_sub(repeat("<blockquote>\n"@, cnt) + mz + tail, quote_open()) == cnt,
        count_sub(repeat("<blockquote>\n"@, cnt) + mz + tail, quote_close()) == 0,
{
    reveal_strlit("<br/>");
    let o = quote_open();
    let c = quote_close();
    let br = "<br/>"@;
    lemma_quote_tag_facts();
    assert(br[0] == '<');
    lemma_count_sub_concat(mz, br, o);
    lemma_count_sub_concat(mz, br, c);
    lemma_count_sub_repeat(c, q, o);
    lemma_count_sub_repeat(c, q, c);
    let ob = "<blockquote>\n"@;
    lemma_count_sub_concat(o, seq!['\n'], o);
    lemma_count_sub_concat(o, seq!['\n'], c);
    assert(ob.last() == '\n');
    lemma_count_sub_repeat(ob, cnt, o);
    lemma_count_sub_repeat(ob, cnt, c);
    let x = repeat(ob, cnt);
    lemma_count_sub_concat(x, mz, o);
    lemma_count_sub_concat(x, mz, c);
    if tail.len() > 0 {
        lemma_count_sub_concat(x + mz, tail, o);
        lemma_count_sub_concat(x + mz, tail, c);
    } else {
        assert(x + mz + tail =~= x + mz);
    }
}

/// From line `i` on, with as many quotes open as the depth of the line before (a quote
/// line of that depth, where any is open), the quote conversion writes as many closing
/// tags as opening ones and open quotes.
proof fn lemma_quote_counts(ls: Seq<Seq<char>>, i: int, q: nat)
    requires
        0 <= i <= ls.len(),
        quote_tags_fresh(ls),
        quote_runs_level(ls),
        q > 0 ==> i > 0 && is_quote_line(ls[i - 1]) && count_char(ls[i - 1], '>') == q,
    ensures
        count_sub_lines(quote_from(ls, i, q, q), quote_open()) + q == count_sub_lines(
            quote_from(ls, i, q, q),
            quote_close(),
        ),
    decreases ls.len() - i,
{
    let o = quote_open();
    let c = quote_close();
    lemma_quote_tag_facts();
    reveal_strlit("</blockquote>");
    if i == ls.len() {
        if q != 0 {
            lemma_quote_piece_counts(Seq::<char>::empty(), 0, q, Seq::<char>::empty());
            lemma_count_sub_line(repeat(c, q), o);
            lemma_count_sub_line(repeat(c, q), c);
        }
    } else {
        let l = ls[i];
        let (out, q2, o2) = quote_step(l, q, q);
        lemma_quote_counts(ls, i + 1, q2);
        assert(quote_from(ls, i, q, q) == out + quote_from(ls, i + 1, q2, o2));
        lemma_count_sub_lines_concat(out, quote_from(ls, i + 1, q2, o2), o);
        lemma_count_sub_lines_concat(out, quote_from(ls, i + 1, q2, o2), c);
        assert(count_sub(ls[i], o) == 0 && count_sub(ls[i], c) == 0);
        if is_quote_line(l) {
            let cnt = count_char(l, '>');
            let mz = spec_line_exec(replace(l, ">"@, ""@));
            assert(mz == quote_text(l));
            if q > 0 {
                assert(count_char(l, '>') == count_char(ls[i - 1], '>'));
            }
            let tail = if mz.len() == 0 { Seq::<char>::empty() } else { "<br/>"@ };
            lemma_quote_piece_counts(mz, cnt, q, tail);
            if q == cnt {
                lemma_count_sub_line(mz + "<br/>"@, o);
                lemma_count_sub_line(mz + "<br/>"@, c);
            } else {
                assert(q == 0);
                lemma_count_sub_line(repeat("<blockquote>\n"@, cnt) + mz + tail, o);
                lemma_count_sub_line(repeat("<blockquote>\n"@, cnt) + mz + tail, c);
            }
        } else {
            lemma_quote_piece_counts(Seq::<char>::empty(), 0, q, Seq::<char>::empty());
            if trim(l).len() == 0 {
                lemma_count_sub_line(repeat(c, q), o);
                lemma_count_sub_line(repeat(c, q), c);
            } else if q != 0 {
                lemma_count_sub_lines_concat(seq![repeat(c, q)], seq![l], o);
                lemma_count_sub_lines_concat(seq![repeat(c, q)], seq![l], c);
                assert(seq![repeat(c, q), l] =~= seq![repeat(c, q)] + seq![l]);
                lemma_count_sub_line(repeat(c, q), o);
                lemma_count_sub_line(repeat(c, q), c);
                lemma_count_sub_line(l, o);
                lemma_count_sub_line(l, c);
            } else {
                lemma_count_sub_line(l, o);
                lemma_count_sub_line(l, c);
            }
        }
    }
}

/// The quote conversion closes every quote it opens: where no page line and no link
/// conversion of a quote line holds a quote tag, and every run of quote lines keeps one
/// depth, the page it makes holds as many `</blockquote>` as `<blockquote>`.
pub proof fn law_quote_tags_balance(md: Seq<char>)
    requires
        quote_tags_fresh(lines_of(md)),
        quote_runs_level(lines_of(md)),
    ensures
        count_sub(spec_convert_html_quote(md), quote_open()) == count_sub(
            spec_convert_html_quote(md),
            quote_close(),
        ),
{
    let ls = lines_of(md);
    lemma_quote_tag_facts();
    lemma_quote_counts(ls, 0, 0);
    lemma_count_sub_join(quote_from(ls, 0, 0, 0), quote_open());
    lemma_count_sub_join(quote_from(ls, 0, 0, 0), quote_close());
}

/// The start of a list in the table-of-contents menu (`<ul` and what follows).
pub open spec fn list_start() -> Seq<char> {
    "<ul"@
}

/// The end of a list in the table-of-contents menu.
pub open spec fn list_end() -> Seq<char> {
    "</ul>"@
}

/// No header name holds `<`, and neither does the anchor made of it.
pub open spec fn toc_names_plain(hs: Seq<(usize, Seq<char>)>) -> bool {
    forall|i: int|
        0 <= i < hs.len() ==> !(#[trigger] hs[i]).1.contains('<') && !spec_replace_header_name(
            hs[i].1,
        ).contains('<')
}

/// The number of times `p` occurs in a text with `<` only at its start: once if the text
/// starts with it.
proof fn lemma_count_one_tag(s: Seq<char>, p: Seq<char>)
    requires
        p.len() > 0,
        p[0] == '<',
        s.len() > 0,
        s[0] == '<',
        forall|k: int| 0 < k < s.len() ==> #[trigger] s[k] != '<',
    ensures
        count_sub(s, p) == if is_at(s, 0, p) { 1nat } else { 0nat },
{
    lemma_count_sub_one_start(s, p);
}

/// The menu's list markers in the pieces of the menu.
proof fn lemma_menu_piece_counts()
    ensures
        count_sub("<li class=\"\">"@, list_start()) == 0,
        count_sub("<li class=\"\">"@, list_end()) == 0,
        count_sub("<a href=\"#"@, list_start()) == 0,
        count_sub("<a href=\"#"@, list_end()) == 0,
        count_sub("\" title=\""@, list_start()) == 0,
        count_sub("\" title=\""@, list_end()) == 0,
        count_sub("\">"@, list_start()) == 0,
        count_sub("\">"@, list_end()) == 0,
        count_sub("</a>"@, list_start()) == 0,
        count_sub("</a>"@, list_end()) == 0,
        count_sub("</li>"@, list_start()) == 0,
        count_sub("</li>"@, list_end()) == 0,
        count_sub("<ul class=\"nav\">"@, list_start()) == 1,
        count_sub("<ul class=\"nav\">"@, list_end()) == 0,
        count_sub(close_line(), list_start()) == 0,
        count_sub(close_line(), list_end()) == 1,
        count_sub(""@, list_start()) == 0,
        count_sub(""@, list_end()) == 0,
        count_sub("</div>"@, list_start()) == 0,
        count_sub("</div>"@, list_end()) == 0,
        count_sub("<div class=\"toc\">"@, list_start()) == 0,
        count_sub("<div class=\"toc\">"@, list_end()) == 0,
        count_sub("</ul>"@, list_start()) == 0,
        count_sub("</ul>"@, list_end()) == 1,
        count_sub(
            "<div id=\"ui-toc-affix\" class=\"ui-affix-toc ui-toc-dropdown unselectable hidden-print\" data-spy=\"affix\" style=\"top:17px;display:none;\">"@,
            list_start(),
        ) == 0,
        count_sub(
            "<div id=\"ui-toc-affix\" class=\"ui-affix-toc ui-toc-dropdown unselectable hidden-print\" data-spy=\"affix\" style=\"top:17px;display:none;\">"@,
            list_end(),
        ) == 0,
{
    let u = list_start();
    let c = list_end();
    reveal_strlit("<ul");
    reveal_strlit("</ul>");
    reveal_strlit("<li class=\"\">");
    reveal_strlit("<a href=\"#");
    reveal_strlit("\" title=\"");
    reveal_strlit("\">");
    reveal_strlit("</a>");
    reveal_strlit("</li>");
    reveal_strlit("<ul class=\"nav\">");
    reveal_strlit("</ul></li>");
    reveal_strlit("");
    reveal_strlit("</div>");
    reveal_strlit("<div class=\"toc\">");
    reveal_strlit(
        "<div id=\"ui-toc-affix\" class=\"ui-affix-toc ui-toc-dropdown unselectable hidden-print\" data-spy=\"affix\" style=\"top:17px;display:none;\">",
    );
    let li = "<li class=\"\">"@;
    lemma_count_one_tag(li, u);
    lemma_count_one_tag(li, c);
    assert(li[1] != u[1] && li[1] != c[1]);
    assert(li.subrange(0, 3)[1] == li[1]);
    assert(li.subrange(0, 5)[1] == li[1]);
    let a = "<a href=\"#"@;
    lemma_count_one_tag(a, u);
    lemma_count_one_tag(a, c);
    assert(a.subrange(0, 3)[1] == a[1]);
    assert(a.subrange(0, 5)[1] == a[1]);
    lemma_count_sub_absent("\" title=\""@, u);
    lemma_count_sub_absent("\" title=\""@, c);
    lemma_count_sub_absent("\">"@, u);
    lemma_count_sub_absent("\">"@, c);
    let e = "</a>"@;
    lemma_count_one_tag(e, u);
    lemma_count_sub_short(e, c);
    assert(e.subrange(0, 3)[1] == e[1]);
    let cl = "</li>"@;
    lemma_count_one_tag(cl, u);
    lemma_count_one_tag(cl, c);
    assert(cl.subrange(0, 3)[1] == cl[1]);
    assert(cl.subrange(0, 5)[2] == cl[2]);
    let sub = "<ul class=\"nav\">"@;
    lemma_count_one_tag(sub, u);
    lemma_count_one_tag(sub, c);
    assert(sub.subrange(0, 3) =~= u);
    assert(sub.subrange(0, 5)[1] == sub[1]);
    lemma_count_one_tag(c, u);
    assert(c.subrange(0, 3)[1] == c[1]);
    lemma_count_sub_self(c);
    assert(close_line() =~= c + cl);
    lemma_count_sub_concat(c, cl, u);
    lemma_count_sub_concat(c, cl, c);
    lemma_count_sub_short(""@, u);
    lemma_count_sub_short(""@, c);
    let dv = "</div>"@;
    lemma_count_one_tag(dv, u);
    lemma_count_one_tag(dv, c);
    assert(dv.subrange(0, 3)[1] == dv[1]);
    assert(dv.subrange(0, 5)[2] == dv[2]);
    let dt = "<div class=\"toc\">"@;
    lemma_count_one_tag(dt, u);
    lemma_count_one_tag(dt, c);
    assert(dt.subrange(0, 3)[1] == dt[1]);
    assert(dt.subrange(0, 5)[1] == dt[1]);
    let da = "<div id=\"ui-toc-affix\" class=\"ui-affix-toc ui-toc-dropdown unselectable hidden-print\" data-spy=\"affix\" style=\"top:17px;display:none;\">"@;
    lemma_count_one_tag(da, u);
    lemma_count_one_tag(da, c);
    assert(da.subrange(0, 3)[1] == da[1]);
    assert(da.subrange(0, 5)[1] == da[1]);
}

/// The menu's list markers in the entry of a header: one `<ul` where the entry opens a
/// nested list, no `</ul>`.
proof fn lemma_toc_entry_counts(name: Seq<char>, opens: bool)
    requires
        !name.contains('<'),
        !spec_replace_header_name(name).contains('<'),
    ensures
        count_sub(
            toc_entry(
                "<li class=\"\">"@,
                name,
                if opens { "<ul class=\"nav\">"@ } else { "</li>"@ },
            ),
            list_start(),
        ) == if opens { 1nat } else { 0nat },
        count_sub(
            toc_entry(
                "<li class=\"\">"@,
                name,
                if opens { "<ul class=\"nav\">"@ } else { "</li>"@ },
            ),
            list_end(),
        ) == 0,
{
    let u = list_start();
    let c = list_end();
    reveal_strlit("<ul");
    reveal_strlit("</ul>");
    reveal_strlit("<li class=\"\">");
    reveal_strlit("<a href=\"#");
    reveal_strlit("\" title=\"");
    reveal_strlit("\">");
    reveal_strlit("</a>");
    reveal_strlit("</li>");
    reveal_strlit("<ul class=\"nav\">");
    lemma_menu_piece_counts();
    let li = "<li class=\"\">"@;
    let a = "<a href=\"#"@;
    let t = "\" title=\""@;
    let q = "\">"@;
    let e = "</a>"@;
    let tail = if opens { "<ul class=\"nav\">"@ } else { "</li>"@ };
    let an = spec_replace_header_name(name);
    assert forall|k: int| 0 <= k < name.len() implies name[k] != '<' by {
        if name[k] == '<' {
            assert(name.contains('<'));
        }
    }
    assert forall|k: int| 0 <= k < an.len() implies an[k] != '<' by {
        if an[k] == '<' {
            assert(an.contains('<'));
        }
    }
    lemma_count_sub_absent(name, u);
    lemma_count_sub_absent(name, c);
    lemma_count_sub_absent(an, u);
    lemma_count_sub_absent(an, c);
    let s1 = li + a;
    let s2 = s1 + an;
    let s3 = s2 + t;
    let s4 = s3 + name;
    let s5 = s4 + q;
    let s6 = s5 + name;
    let s7 = s6 + e;
    assert(toc_entry(li, name, tail) == s7 + tail);
    assert(tail[0] == '<');
    lemma_count_sub_concat(li, a, u);
    lemma_count_sub_concat(li, a, c);
    assert(s1.last() == '#');
    lemma_count_sub_concat(s1, an, u);
    lemma_count_sub_concat(s1, an, c);
    lemma_count_sub_concat(s2, t, u);
    lemma_count_sub_concat(s2, t, c);
    assert(s3.last() == '"');
    lemma_count_sub_concat(s3, name, u);
    lemma_count_sub_concat(s3, name, c);
    lemma_count_sub_concat(s4, q, u);
    lemma_count_sub_concat(s4, q, c);
    assert(s5.last() == '>');
    lemma_count_sub_concat(s5, name, u);
    lemma_count_sub_concat(s5, name, c);
    lemma_count_sub_concat(s6, e, u);
    lemma_count_sub_concat(s6, e, c);
    lemma_count_sub_concat(s7, tail, u);
    lemma_count_sub_concat(s7, tail, c);
}

/// The lines closing `k` nested lists hold `k` list ends and no list start.
proof fn lemma_close_lines_counts(k: nat)
    ensures
        count_sub_lines(close_lines(k), list_start()) == 0,
        count_sub_lines(close_lines(k), list_end()) == k,
    decreases k,
{
    if k > 0 {
        lemma_menu_piece_counts();
        lemma_close_lines_counts((k - 1) as nat);
        let r = close_lines((k - 1) as nat);
        lemma_count_sub_lines_concat(seq![close_line()], r, list_start());
        lemma_count_sub_lines_concat(seq![close_line()], r, list_end());
        lemma_count_sub_line(close_line(), list_start());
        lemma_count_sub_line(close_line(), list_end());
    }
}

/// From header `i` on, the menu's entry lines hold a list start for each entry that opens
/// a nested list, and a list end for each list that an entry closes or that is still open
/// at the end.
proof fn lemma_toc_lines_counts(hs: Seq<(usize, Seq<char>)>, i: int)
    requires
        0 <= i <= hs.len(),
        toc_names_plain(hs),
    ensures
        count_sub_lines(toc_lines_from(hs, i, "<li class=\"\">"@, "<ul class=\"nav\">"@), list_start())
            + toc_open_count(hs, i) == toc_open_count(hs, hs.len() as int),
        count_sub_lines(toc_lines_from(hs, i, "<li class=\"\">"@, "<ul class=\"nav\">"@), list_end())
            + toc_close_count(hs, i) == toc_close_count(hs, hs.len() as int) + toc_depth(
            hs,
            hs.len() as int,
        ),
    decreases hs.len() - i,
{
    let li = "<li class=\"\">"@;
    let sub = "<ul class=\"nav\">"@;
    if i == hs.len() {
        lemma_close_lines_counts(toc_depth(hs, hs.len() as int));
    } else {
        lemma_toc_lines_counts(hs, i + 1);
        let cls = close_lines(toc_drop(hs, i));
        let e = if toc_opens(hs, i) {
            toc_entry(li, hs[i].1, sub)
        } else {
            toc_entry(li, hs[i].1, "</li>"@)
        };
        let rest = toc_lines_from(hs, i + 1, li, sub);
        assert(toc_lines_of(hs, i, li, sub) == cls + seq![e]);
        assert(toc_lines_from(hs, i, li, sub) == cls + seq![e] + rest);
        lemma_close_lines_counts(toc_drop(hs, i));
        assert(!hs[i].1.contains('<'));
        lemma_toc_entry_counts(hs[i].1, toc_opens(hs, i));
        assert(e == toc_entry(li, hs[i].1, if toc_opens(hs, i) { sub } else { "</li>"@ }));
        lemma_count_sub_lines_push(cls, e, list_start());
        lemma_count_sub_lines_push(cls, e, list_end());
        assert(cls + seq![e] == cls.push(e));
        lemma_count_sub_lines_concat(cls + seq![e], rest, list_start());
        lemma_count_sub_lines_concat(cls + seq![e], rest, list_end());
        assert(toc_open_count(hs, i + 1) == toc_open_count(hs, i) + if toc_opens(hs, i) {
            1nat
        } else {
            0nat
        });
        assert(toc_close_count(hs, i + 1) == toc_close_count(hs, i) + toc_drop(hs, i));
    }
}

/// The table-of-contents menu closes every list it opens: where header levels rise by
/// at most one from header to header and never fall below the first header's, and no
/// header name or anchor holds `<`, the menu holds as many `</ul>` as `<ul`: one for the
/// whole menu and one for each header whose next header is deeper.
pub proof fn law_toc_menu_tags_balance(hs: Seq<(usize, Seq<char>)>)
    requires
        forall|k: int| 0 < k < hs.len() ==> #[trigger] hs[k].0 <= hs[k - 1].0 + 1 && hs[0].0 <= hs[k].0,
        toc_names_plain(hs),
    ensures
        count_sub(spec_get_toc_menu(hs), list_start()) == count_sub(spec_get_toc_menu(hs), list_end()),
        count_sub(spec_get_toc_menu(hs), list_start()) == toc_open_count(hs, hs.len() as int) + 1,
{
    let u = list_start();
    let c = list_end();
    let n = hs.len() as int;
    lemma_toc_lines_counts(hs, 0);
    if n > 0 {
        law_toc_nesting(hs);
    } else {
        assert(toc_depth(hs, 0) == 0);
    }
    lemma_menu_piece_counts();
    reveal_strlit("<ul");
    reveal_strlit("</ul>");
    let head = seq![
        ""@,
        "</div>"@,
        "<div id=\"ui-toc-affix\" class=\"ui-affix-toc ui-toc-dropdown unselectable hidden-print\" data-spy=\"affix\" style=\"top:17px;display:none;\">"@,
        "<div class=\"toc\">"@,
        "<ul class=\"nav\">"@,
    ];
    let foot = seq!["</ul>"@, "</div>"@, "</div>"@];
    let body = toc_lines(hs, "<li class=\"\">"@, "<ul class=\"nav\">"@);
    let all = head + body + foot;
    assert(spec_get_toc_menu(hs) == join_lines(all));
    lemma_count_sub_join(all, u);
    lemma_count_sub_join(all, c);
    lemma_count_sub_lines_concat(head + body, foot, u);
    lemma_count_sub_lines_concat(head + body, foot, c);
    lemma_count_sub_lines_concat(head, body, u);
    lemma_count_sub_lines_concat(head, body, c);
    let e = Seq::<Seq<char>>::empty();
    assert(count_sub_lines(e, u) == 0 && count_sub_lines(e, c) == 0);
    let h1 = e.push(head[0]);
    let h2 = h1.push(head[1]);
    let h3 = h2.push(head[2]);
    let h4 = h3.push(head[3]);
    assert(head =~= h4.push(head[4]));
    lemma_count_sub_lines_push(e, head[0], u);
    lemma_count_sub_lines_push(e, head[0], c);
    lemma_count_sub_lines_push(h1, head[1], u);
    lemma_count_sub_lines_push(h1, head[1], c);
    lemma_count_sub_lines_push(h2, head[2], u);
    lemma_count_sub_lines_push(h2, head[2], c);
    lemma_count_sub_lines_push(h3, head[3], u);
    lemma_count_sub_lines_push(h3, head[3], c);
    lemma_count_sub_lines_push(h4, head[4], u);
    lemma_count_sub_lines_push(h4, head[4], c);
    let f1 = e.push(foot[0]);
    let f2 = f1.push(foot[1]);
    assert(foot =~= f2.push(foot[2]));
    lemma_count_sub_lines_push(e, foot[0], u);
    lemma_count_sub_lines_push(e, foot[0], c);
    lemma_count_sub_lines_push(f1, foot[1], u);
    lemma_count_sub_lines_push(f1, foot[1], c);
    lemma_count_sub_lines_push(f2, foot[2], u);
    lemma_count_sub_lines_push(f2, foot[2], c);
}

} // verus!
