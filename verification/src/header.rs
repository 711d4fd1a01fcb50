//! Headers of a page: finding them, turning their names into anchors, and the
//! table-of-contents menu built from them.
use vstd::prelude::*;
use crate::text::{
    lines_of, lines_str, trim, trim_chars, starts_with, starts_with_str, replace, replace_str,
    views, push_line, push_str_line, join_lines, join_string, to_chars, from_chars, cat,
    append_chars, append_str,
};
use crate::matching::{
    regex_match, regex_replace, regex_captures, regex_is_match, regex_replace_all,
    regex_captures_iter, captures_views, group_views, group_text, group_string,
};

verus! {

/// A header line of the page: its level (1 to 3 `#`) and its text.
#[derive(Debug)]
pub struct Header {
    pub number: usize,
    pub name: String,
}

/// A line (trimmed) that is a header of level 1 to 3.
pub const HEADER_TEST: &'static str = r"^[#]{1,3} ";

/// The text of such a header line.
pub const HEADER_CAPTURE: &'static str = r"^[#]{1,3} (?P<h>.*)";

/// A header name holding a coloured `<font>` element.
pub const FONT_TEST: &'static str = r".*<font color=.*</font>.*";

/// The parts of a header name around a `<font>` element.
pub const FONT_CAPTURE: &'static str = r#"(?P<front>.*)<font color=.*>(?P<title>.*)</font>(?P<back>.*)"#;

/// Characters of a header name that an anchor writes as `_`.
pub const ANCHOR_SYMBOLS: &'static str = r"[=|+|\-|*|.|:|/|]+?";

/// Characters of a header name that an anchor leaves out.
pub const ANCHOR_DROPPED: &'static str = r"[(|)|\s|#]+?";

/// The level and text of a header.
pub open spec fn header_view(h: Header) -> (usize, Seq<char>) {
    (h.number, h.name@)
}

/// The levels and texts of a list of headers.
pub open spec fn headers_view(hs: Seq<Header>) -> Seq<(usize, Seq<char>)> {
    hs.map_values(|h: Header| header_view(h))
}

/// The level that a header line (trimmed) has: the number of leading `#`, at most 3.
pub open spec fn header_level(t: Seq<char>) -> usize {
    if starts_with(t, "###"@) {
        3
    } else if starts_with(t, "##"@) {
        2
    } else {
        1
    }
}

/// The headers that one line contributes.
pub open spec fn line_headers(l: Seq<char>) -> Seq<(usize, Seq<char>)> {
    let t = trim(l);
    if regex_match(HEADER_TEST@, t) == Some(true) {
        match regex_captures(HEADER_CAPTURE@, t) {
            Some(caps) => caps.map_values(
                |c: Seq<Option<Seq<char>>>| (header_level(t), group_text(c, 1)),
            ),
            None => seq![],
        }
    } else {
        seq![]
    }
}

/// The headers of the lines from position `i` on.
pub open spec fn headers_from(ls: Seq<Seq<char>>, i: int) -> Seq<(usize, Seq<char>)>
    decreases ls.len() - i,
{
    if i < 0 || i >= ls.len() {
        seq![]
    } else {
        line_headers(ls[i]) + headers_from(ls, i + 1)
    }
}

/// The headers of a page.
pub open spec fn spec_get_header(md: Seq<char>) -> Seq<(usize, Seq<char>)> {
    headers_from(lines_of(md), 0)
}

/// Adds one header to a list.
fn push_header(out: &mut Vec<Header>, number: usize, name: String)
    ensures
        headers_view(final(out)@) == headers_view(old(out)@).push((number, name@)),
{
    out.push(Header { number, name });
    assert(headers_view(out@) =~= headers_view(old(out)@).push((number, name@)));
}

/// The level of a trimmed header line.
fn level_of(t: &[char]) -> (n: usize)
    ensures
        n == header_level(t@),
{
    if starts_with_str(t, "###") {
        3
    } else if starts_with_str(t, "##") {
        2
    } else {
        1
    }
}

/// Adds the headers that line `l` holds.
fn push_line_headers(out: &mut Vec<Header>, l: &[char])
    ensures
        headers_view(final(out)@) == headers_view(old(out)@) + line_headers(l@),
{
    let t = trim_chars(l);
    let ts = from_chars(t.as_slice());
    let m = regex_is_match(HEADER_TEST, ts.as_str());
    if m == Some(true) {
        let caps = regex_captures_iter(HEADER_CAPTURE, ts.as_str());
        match caps {
            Some(cs) => {
                let level = level_of(t.as_slice());
                let ghost cv = captures_views(cs@);
                let ghost hs = cv.map_values(
                    |c: Seq<Option<Seq<char>>>| (header_level(t@), group_text(c, 1)),
                );
                let ghost base = headers_view(out@);
                let mut k: usize = 0;
                while k < cs.len()
                    invariant
                        k <= cs@.len(),
                        cv == captures_views(cs@),
                        hs.len() == cv.len(),
                        forall|j: int|
                            0 <= j < hs.len() ==> #[trigger] hs[j] == (
                                header_level(t@),
                                group_text(cv[j], 1),
                            ),
                        level == header_level(t@),
                        headers_view(out@) == base + hs.take(k as int),
                    decreases cs@.len() - k,
                {
                    let name = group_string(&cs[k], 1);
                    assert(cv[k as int] == group_views(cs@[k as int]@));
                    push_header(out, level, name);
                    assert(hs.take(k + 1) == hs.take(k as int).push(hs[k as int]));
                    k += 1;
                }
                assert(hs.take(cs@.len() as int) == hs);
            },
            None => {
                assert(headers_view(out@) =~= headers_view(out@) + line_headers(l@));
            },
        }
    } else {
        assert(headers_view(out@) =~= headers_view(out@) + line_headers(l@));
    }
}

/// The headers of the page `md`: each line that, trimmed, begins with one to three `#`
/// and a space, in order, with its level and the text after the `#`s and the space.
pub fn get_header(md: &str) -> (r: Vec<Header>)
    ensures
        headers_view(r@) == spec_get_header(md@),
{
    let lines = lines_str(md);
    let ghost ls = views(lines@);
    let mut out: Vec<Header> = Vec::new();
    let mut i: usize = 0;
    while i < lines.len()
        invariant
            i <= lines@.len(),
            ls == views(lines@),
            ls == lines_of(md@),
            headers_from(ls, 0) == headers_view(out@) + headers_from(ls, i as int),
        decreases lines@.len() - i,
    {
        let ghost before = headers_view(out@);
        assert(ls[i as int] == lines@[i as int]@);
        push_line_headers(&mut out, lines[i].as_slice());
        assert(headers_from(ls, i as int) == line_headers(ls[i as int]) + headers_from(
            ls,
            i + 1,
        ));
        assert(headers_view(out@) + headers_from(ls, i + 1) =~= before + headers_from(ls, i as int));
        i += 1;
    }
    assert(headers_from(ls, i as int) == Seq::<(usize, Seq<char>)>::empty());
    assert(headers_view(out@) + headers_from(ls, i as int) =~= headers_view(out@));
    out
}

/// The last match of a list of matches, if any.
pub open spec fn last_match(caps: Seq<Seq<Option<Seq<char>>>>) -> Option<Seq<Option<Seq<char>>>> {
    if caps.len() == 0 {
        None
    } else {
        Some(caps.last())
    }
}

/// A header name without its `<font color=..>` wrapper: the text before it, inside it
/// and after it, as the last match gives them (all empty when nothing matches).
pub open spec fn strip_font(h: Seq<char>) -> Seq<char> {
    if regex_match(FONT_TEST@, h) == Some(true) {
        match regex_captures(FONT_CAPTURE@, h) {
            Some(caps) => match last_match(caps) {
                Some(c) => group_text(c, 1) + group_text(c, 2) + group_text(c, 3),
                None => seq![],
            },
            None => seq![],
        }
    } else {
        h
    }
}

/// The result of a regex replacement, or `t` itself when the pattern is refused.
pub open spec fn replaced_or(r: Option<Seq<char>>, t: Seq<char>) -> Seq<char> {
    match r {
        Some(x) => x,
        None => t,
    }
}

/// The anchor name of a header: the `<font>` wrapper stripped, each of `= | + - * . : /`
/// written `_`, each of `( ) |`, `#` and whitespace left out, and `!` written `&iexcl;`.
pub open spec fn spec_replace_header_name(h: Seq<char>) -> Seq<char> {
    let n1 = strip_font(h);
    let n2 = replaced_or(regex_replace(ANCHOR_SYMBOLS@, n1, "_"@), n1);
    let n3 = replaced_or(regex_replace(ANCHOR_DROPPED@, n2, ""@), n2);
    replace(n3, "!"@, "&iexcl;"@)
}

/// A regex replacement, or the text unchanged when the pattern is refused.
pub fn replace_all_or_keep(pattern: &str, text: &str, rep: &str) -> (r: String)
    ensures
        r@ == replaced_or(regex_replace(pattern@, text@, rep@), text@),
{
    match regex_replace_all(pattern, text, rep) {
        Some(s) => s,
        None => text.to_string(),
    }
}

/// The anchor name of a header (see `spec_replace_header_name`).
pub fn replace_header_name(header: &str) -> (r: String)
    ensures
        r@ == spec_replace_header_name(header@),
{
    let mut n_header = header.to_string();
    let b = regex_is_match(FONT_TEST, n_header.as_str());
    if b == Some(true) {
        let mut front = String::new();
        let mut title = String::new();
        let mut back = String::new();
        match regex_captures_iter(FONT_CAPTURE, n_header.as_str()) {
            Some(cs) => {
                if cs.len() > 0 {
                    let c = &cs[cs.len() - 1];
                    front = group_string(c, 1);
                    title = group_string(c, 2);
                    back = group_string(c, 3);
                    assert(captures_views(cs@).last() == group_views(c@));
                }
            },
            None => {},
        }
        let mut v = to_chars(front.as_str());
        append_str(&mut v, title.as_str());
        append_str(&mut v, back.as_str());
        n_header = from_chars(v.as_slice());
    }
    let r_name = replace_all_or_keep(ANCHOR_SYMBOLS, n_header.as_str(), "_");
    let r_name = replace_all_or_keep(ANCHOR_DROPPED, r_name.as_str(), "");
    let rc = to_chars(r_name.as_str());
    let r = replace_str(rc.as_slice(), "!", "&iexcl;");
    from_chars(r.as_slice())
}

/// The line that closes one nested list of the table of contents.
pub open spec fn close_line() -> Seq<char> {
    "</ul></li>"@
}

/// `n` lines closing nested lists.
pub open spec fn close_lines(n: nat) -> Seq<Seq<char>>
    decreases n,
{
    if n == 0 {
        seq![]
    } else {
        seq![close_line()] + close_lines((n - 1) as nat)
    }
}

/// The entry of one header in a table of contents: `li` opens the item, `tail` ends it.
pub open spec fn toc_entry(li: Seq<char>, name: Seq<char>, tail: Seq<char>) -> Seq<char> {
    li + "<a href=\"#"@ + spec_replace_header_name(name) + "\" title=\""@ + name + "\">"@ + name
        + "</a>"@ + tail
}

/// How many lists the entry of header `i` closes: the drop in level from the header
/// before it.
pub open spec fn toc_drop(hs: Seq<(usize, Seq<char>)>, i: int) -> nat {
    if 0 < i < hs.len() && hs[i].0 < hs[i - 1].0 {
        (hs[i - 1].0 - hs[i].0) as nat
    } else {
        0
    }
}

/// Whether the entry of header `i` opens a nested list: the next header is deeper.
pub open spec fn toc_opens(hs: Seq<(usize, Seq<char>)>, i: int) -> bool {
    0 <= i && i + 1 < hs.len() && hs[i].0 < hs[i + 1].0
}

/// The lists open before the entry of header `i`: each opened entry adds one, each drop
/// closes as many as are open, at most.
pub open spec fn toc_depth(hs: Seq<(usize, Seq<char>)>, i: int) -> nat
    decreases i,
{
    if i <= 0 {
        0
    } else {
        let d = toc_depth(hs, i - 1);
        let after_close = if toc_drop(hs, i - 1) <= d {
            (d - toc_drop(hs, i - 1)) as nat
        } else {
            0
        };
        if toc_opens(hs, i - 1) {
            after_close + 1
        } else {
            after_close
        }
    }
}

/// The lines written for header `i`: the closing lines, then its entry, with `li` as
/// the item's opening and `sub` as the opening of a nested list.
pub open spec fn toc_lines_of(hs: Seq<(usize, Seq<char>)>, i: int, li: Seq<char>, sub: Seq<char>) -> Seq<
    Seq<char>,
> {
    close_lines(toc_drop(hs, i)) + seq![
        if toc_opens(hs, i) {
            toc_entry(li, hs[i].1, sub)
        } else {
            toc_entry(li, hs[i].1, "</li>"@)
        },
    ]
}

/// The lines written for the headers from `i` on, then the lines closing the lists
/// still open at the end.
pub open spec fn toc_lines_from(hs: Seq<(usize, Seq<char>)>, i: int, li: Seq<char>, sub: Seq<char>) -> Seq<
    Seq<char>,
>
    decreases hs.len() - i,
{
    if i < 0 || i >= hs.len() {
        close_lines(toc_depth(hs, hs.len() as int))
    } else {
        toc_lines_of(hs, i, li, sub) + toc_lines_from(hs, i + 1, li, sub)
    }
}

/// The lines of all header entries of a table of contents.
pub open spec fn toc_lines(hs: Seq<(usize, Seq<char>)>, li: Seq<char>, sub: Seq<char>) -> Seq<Seq<char>> {
    toc_lines_from(hs, 0, li, sub)
}

/// The table-of-contents menu at the side of a page.
pub open spec fn spec_get_toc_menu(hs: Seq<(usize, Seq<char>)>) -> Seq<char> {
    join_lines(
        seq![
            ""@,
            "</div>"@,
            "<div id=\"ui-toc-affix\" class=\"ui-affix-toc ui-toc-dropdown unselectable hidden-print\" data-spy=\"affix\" style=\"top:17px;display:none;\">"@,
            "<div class=\"toc\">"@,
            "<ul class=\"nav\">"@,
        ] + toc_lines(hs, "<li class=\"\">"@, "<ul class=\"nav\">"@) + seq![
            "</ul>"@,
            "</div>"@,
            "</div>"@,
        ],
    )
}

/// Adds `n` lines closing nested lists.
fn push_closes(out: &mut Vec<Vec<char>>, n: usize)
    ensures
        views(final(out)@) == views(old(out)@) + close_lines(n as nat),
{
    let mut k: usize = 0;
    while k < n
        invariant
            k <= n,
            views(out@) + close_lines((n - k) as nat) == views(old(out)@) + close_lines(
                n as nat,
            ),
        decreases n - k,
    {
        let ghost before = views(out@);
        push_str_line(out, "</ul></li>");
        assert(close_lines((n - k) as nat) == seq![close_line()] + close_lines(
            (n - k - 1) as nat,
        ));
        assert(views(out@) + close_lines((n - k - 1) as nat) =~= before + close_lines(
            (n - k) as nat,
        ));
        k += 1;
    }
    assert(views(out@) =~= views(out@) + close_lines(0));
}

/// The entry of one header.
fn entry_line(li: &str, name: &str, tail: &str) -> (r: Vec<char>)
    ensures
        r@ == toc_entry(li@, name@, tail@),
{
    let anchor = replace_header_name(name);
    let mut v = to_chars(li);
    append_str(&mut v, "<a href=\"#");
    append_str(&mut v, anchor.as_str());
    append_str(&mut v, "\" title=\"");
    append_str(&mut v, name);
    append_str(&mut v, "\">");
    append_str(&mut v, name);
    append_str(&mut v, "</a>");
    append_str(&mut v, tail);
    v
}

/// Adds the lines of all header entries of a table of contents.
pub fn push_toc_lines(out: &mut Vec<Vec<char>>, headers: &Vec<Header>, li: &str, sub: &str)
    ensures
        views(final(out)@) == views(old(out)@) + toc_lines(headers_view(headers@), li@, sub@),
{
    let ghost hs = headers_view(headers@);
    let n = headers.len();
    let mut depth: usize = 0;
    let mut i: usize = 0;
    while i < n
        invariant
            n == headers@.len(),
            hs == headers_view(headers@),
            hs.len() == n,
            i <= n,
            depth == toc_depth(hs, i as int),
            depth <= i,
            views(out@) + toc_lines_from(hs, i as int, li@, sub@) == views(old(out)@)
                + toc_lines(hs, li@, sub@),
        decreases n - i,
    {
        let ghost before = views(out@);
        let num = headers[i].number;
        assert(hs[i as int].0 == num);
        let mut drop: usize = 0;
        if i != 0 && num < headers[i - 1].number {
            assert(hs[i - 1].0 == headers@[i - 1].number);
            drop = headers[i - 1].number - num;
        }
        assert(drop == toc_drop(hs, i as int));
        push_closes(out, drop);
        if drop <= depth {
            depth = depth - drop;
        } else {
            depth = 0;
        }
        let opens = i + 1 < n && num < headers[i + 1].number;
        assert(i + 1 < n ==> hs[i + 1].0 == headers@[i + 1].number);
        assert(opens == toc_opens(hs, i as int));
        assert(hs[i as int].1 == headers@[i as int].name@);
        let line = if opens {
            entry_line(li, headers[i].name.as_str(), sub)
        } else {
            entry_line(li, headers[i].name.as_str(), "</li>")
        };
        push_line(out, line);
        if opens {
            depth = depth + 1;
        }
        assert(views(out@) =~= before + toc_lines_of(hs, i as int, li@, sub@));
        assert(toc_lines_from(hs, i as int, li@, sub@) == toc_lines_of(hs, i as int, li@, sub@)
            + toc_lines_from(hs, i + 1, li@, sub@));
        assert(views(out@) + toc_lines_from(hs, i + 1, li@, sub@) =~= before + toc_lines_from(
            hs,
            i as int,
            li@,
            sub@,
        ));
        i += 1;
    }
    let ghost before = views(out@);
    push_closes(out, depth);
    assert(toc_lines_from(hs, n as int, li@, sub@) == close_lines(toc_depth(hs, n as int)));
}

/// The table-of-contents menu at the side of a page (see `spec_get_toc_menu`).
pub fn get_toc_menu(headers: Vec<Header>) -> (r: String)
    ensures
        r@ == spec_get_toc_menu(headers_view(headers@)),
{
    let mut res: Vec<Vec<char>> = Vec::new();
    push_str_line(&mut res, "");
    push_str_line(&mut res, "</div>");
    push_str_line(&mut res, "<div id=\"ui-toc-affix\" class=\"ui-affix-toc ui-toc-dropdown unselectable hidden-print\" data-spy=\"affix\" style=\"top:17px;display:none;\">");
    push_str_line(&mut res, "<div class=\"toc\">");
    push_str_line(&mut res, "<ul class=\"nav\">");
    push_toc_lines(&mut res, &headers, "<li class=\"\">", "<ul class=\"nav\">");
    push_str_line(&mut res, "</ul>");
    push_str_line(&mut res, "</div>");
    push_str_line(&mut res, "</div>");
    let ghost hs = headers_view(headers@);
    assert(views(res@) =~= seq![
        ""@,
        "</div>"@,
        "<div id=\"ui-toc-affix\" class=\"ui-affix-toc ui-toc-dropdown unselectable hidden-print\" data-spy=\"affix\" style=\"top:17px;display:none;\">"@,
        "<div class=\"toc\">"@,
        "<ul class=\"nav\">"@,
    ] + toc_lines(hs, "<li class=\"\">"@, "<ul class=\"nav\">"@) + seq![
        "</ul>"@,
        "</div>"@,
        "</div>"@,
    ]);
    join_string(&res)
}

/// How many of the first `n` entries of a table of contents open a nested list.
pub open spec fn toc_open_count(hs: Seq<(usize, Seq<char>)>, n: int) -> nat
    decreases n,
{
    if n <= 0 {
        0
    } else {
        toc_open_count(hs, n - 1) + if toc_opens(hs, n - 1) { 1nat } else { 0nat }
    }
}

/// How many lists the first `n` entries of a table of contents close.
pub open spec fn toc_close_count(hs: Seq<(usize, Seq<char>)>, n: int) -> nat
    decreases n,
{
    if n <= 0 {
        0
    } else {
        toc_close_count(hs, n - 1) + toc_drop(hs, n - 1)
    }
}

/// While no entry closes more lists than are open, the lists opened so far are those
/// closed so far and those still open.
proof fn lemma_toc_counts(hs: Seq<(usize, Seq<char>)>, n: int)
    requires
        0 <= n <= hs.len(),
        forall|k: int| 0 <= k < n ==> #[trigger] toc_drop(hs, k) <= toc_depth(hs, k),
    ensures
        toc_close_count(hs, n) + toc_depth(hs, n) == toc_open_count(hs, n),
    decreases n,
{
    if n > 0 {
        lemma_toc_counts(hs, n - 1);
        assert(toc_drop(hs, n - 1) <= toc_depth(hs, n - 1));
    }
}

/// With levels that rise by at most one from header to header and never fall below the
/// first header's, the entry of each header is written inside exactly as many lists as
/// its level is below the first header's.
proof fn lemma_toc_depth(hs: Seq<(usize, Seq<char>)>, i: int)
    requires
        0 <= i < hs.len(),
        forall|k: int| 0 < k < hs.len() ==> #[trigger] hs[k].0 <= hs[k - 1].0 + 1 && hs[0].0 <= hs[k].0,
    ensures
        toc_depth(hs, i) == toc_drop(hs, i) + (hs[i].0 - hs[0].0),
    decreases i,
{
    if i > 0 {
        lemma_toc_depth(hs, i - 1);
        assert(hs[i].0 <= hs[i - 1].0 + 1 && hs[0].0 <= hs[i].0);
    }
}

/// The nested lists of a table of contents follow the header levels: where the levels
/// rise by at most one from header to header and never fall below the first header's,
/// each header's entry is written inside as many lists as its level is below the first
/// header's (after the lists that it closes), and every list opened is closed exactly
/// once: by a shallower header or at the end.
pub proof fn law_toc_nesting(hs: Seq<(usize, Seq<char>)>)
    requires
        hs.len() > 0,
        forall|k: int| 0 < k < hs.len() ==> #[trigger] hs[k].0 <= hs[k - 1].0 + 1 && hs[0].0 <= hs[k].0,
    ensures
        forall|i: int| 0 <= i < hs.len() ==> #[trigger] toc_depth(hs, i) == toc_drop(hs, i) + (hs[i].0 - hs[0].0),
        toc_close_count(hs, hs.len() as int) + toc_depth(hs, hs.len() as int) == toc_open_count(hs, hs.len() as int),
{
    assert forall|i: int| 0 <= i < hs.len() implies #[trigger] toc_depth(hs, i) == toc_drop(hs, i) + (hs[i].0 - hs[0].0) by {
        lemma_toc_depth(hs, i);
    }
    assert forall|k: int| 0 <= k < hs.len() implies #[trigger] toc_drop(hs, k) <= toc_depth(hs, k) by {
        lemma_toc_depth(hs, k);
    }
    lemma_toc_counts(hs, hs.len() as int);
}

} // verus!
