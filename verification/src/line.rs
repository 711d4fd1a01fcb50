//! Conversions of single lines: links, inline code, list items, and the tests that
//! classify a line.
use vstd::prelude::*;
use crate::codimd::{Info, last_info, lemma_last_info};
use crate::text::{
    trim, trim_chars, split_once, split_once_str, contains, contains_str, replace, replace_str,
    ends_with, ends_with_str, to_chars, from_chars, append_str, append_chars, copy_chars,
    starts_with,
};
use crate::matching::{
    glob, glob_chars, regex_match, regex_replace, regex_captures, regex_is_match,
    regex_captures_iter, captures_views, group_views, group_text, group_string,
};
use crate::header::{replaced_or, replace_all_or_keep, spec_replace_header_name, replace_header_name, last_match};
use crate::download::{spec_get_url_from_shortid, get_url_from_shortid, spec_get_title, get_title, before_hash};

verus! {

/// A markdown link `[title](url)` with the text before and after it.
pub const LINK_CAPTURE: &'static str = r#"(?P<front>.*)\[(?P<title>[^\]]+)\]\((?P<url>[^\)]+)\)(?P<back>.*)"#;

/// A line holding a markdown link.
pub const LINK_TEST: &'static str = r".*\[.*\]\(.*\).*";

/// A line beginning with a web address.
pub const HTTP_START: &'static str = r"(?m)^https?://";

/// A header element whose title is a link.
pub const HEADER_LINK: &'static str = "<h*](*)*fa fa-link*";

/// A line holding a link to an `.html` page.
pub const HTML_LINK_TEST: &'static str = r".*\[.*\]\(.*\.html\).*";

/// A link to an `.html` page, with the text around it.
pub const HTML_LINK: &'static str = r#"(?m)(?P<h>.*)\[(?P<i>.*?)\]\((?P<j>.+?)\.html\)(?P<k>.*)"#;

/// The element that such a link becomes.
pub const HTML_LINK_REP: &'static str = r#"$h<a href="$j.html" target="_blank" rel="noopener">$i</a>$k"#;

/// Any link, with the text around it.
pub const ANY_LINK: &'static str = r#"(?P<h>.*)\[(?P<i>.*?)\]\((?P<j>.*?)\)(?P<k>.*)"#;

/// The element that such a link becomes.
pub const ANY_LINK_REP: &'static str = r#"$h<a href="$j" target="_blank" rel="noopener">$i</a>$k"#;

/// Code between two runs of three backquotes on one line.
pub const INLINE_CODE: &'static str = r"[`]{3}(?P<h>.*)[`]{3}";

/// A list mark after seven spaces.
pub const LIST_7: &'static str = r"       [*|+|-] ";
/// A list mark after six spaces.
pub const LIST_6: &'static str = r"      [*|+|-] ";
/// A list mark after five spaces.
pub const LIST_5: &'static str = r"     [*|+|-] ";
/// A list mark after four spaces.
pub const LIST_4: &'static str = r"    [*|+|-] ";
/// A list mark after two spaces.
pub const LIST_2: &'static str = r"  [*|+|-] ";
/// A list mark at the start of the line.
pub const LIST_0: &'static str = r"^[*|+|-] ";

/// A list mark and the rest of the line.
pub const LIST_ITEM: &'static str = r"[\s]?[+|*|-]{1}(?P<h>.*)";

/// A line holding a markdown image with a size `=WxH`.
pub const IMAGE_SIZED: &'static str = r".*!\[.*\]\(.* =.*x.*\).*";
/// A line holding a markdown image.
pub const IMAGE_ANY: &'static str = r".*!\[.*\]\(.*\).*";

/// Whether `regex_match` says yes (a refused pattern counting as no).
pub open spec fn re_yes(p: Seq<char>, t: Seq<char>) -> bool {
    regex_match(p, t) == Some(true)
}

/// Whether the regex matches `t`, a refused pattern counting as no.
pub fn re_test(p: &str, t: &[char]) -> (b: bool)
    ensures
        b == re_yes(p@, t@),
{
    let s = from_chars(t);
    regex_is_match(p, s.as_str()) == Some(true)
}

/// Group texts of the last link match: text before it, its title, its address, and
/// the text after it (all empty when the line has no link).
pub open spec fn link_parts(m: Seq<char>) -> (Seq<char>, Seq<char>, Seq<char>, Seq<char>) {
    match regex_captures(LINK_CAPTURE@, m) {
        Some(caps) => match last_match(caps) {
            Some(c) => (group_text(c, 1), group_text(c, 2), group_text(c, 3), group_text(c, 4)),
            None => (seq![], seq![], seq![], seq![]),
        },
        None => (seq![], seq![], seq![], seq![]),
    }
}

/// The page address that a link address `u` on the server `codimd_url` names: a short
/// link `<server>s/<id>` is looked up by its id; the part from `#` on is the header;
/// the part from `?` on is dropped; `?view`, `?both` are dropped and `-` is written `+`.
pub open spec fn link_target(u: Seq<char>, codimd_url: Seq<char>, infos: Seq<Info>) -> (Seq<char>, Seq<char>) {
    let prefix = codimd_url + "s/"@;
    let u1 = if contains(u, prefix) {
        spec_get_url_from_shortid(replace(u, prefix, ""@), infos)
    } else {
        u
    };
    let (u2, header) = match split_once(u1, "#"@) {
        Some((a, b)) => (a, b),
        None => (u1, seq![]),
    };
    let u3 = match split_once(u2, "?"@) {
        Some((a, _)) => a,
        None => u2,
    };
    let u4 = replace(replace(u3, "?view"@, ""@), "?both"@, ""@);
    (replace(u4, "-"@, "+"@), header)
}

/// The local file that a page link points to: `./<title>.html`, with `#<anchor>` when
/// the link names a header.
pub open spec fn local_page(title: Seq<char>, header: Seq<char>) -> Seq<char> {
    if header.len() != 0 {
        "./"@ + title + ".html"@ + "#"@ + spec_replace_header_name(header)
    } else {
        "./"@ + title + ".html"@
    }
}

/// The page that the link of line `m` names, and the line with the link pointing to the
/// page's local file.
pub open spec fn spec_get_codimd_info(m: Seq<char>, codimd_url: Seq<char>, infos: Seq<Info>) -> (Seq<char>, Seq<char>) {
    let (front, title, u, back) = link_parts(m);
    link_from_parts(front, title, u, back, codimd_url, infos)
}

/// The page that a link `[title](u)` with the texts `front` before and `back` after it
/// names on the server `codimd_url` (see `link_target`), and the line rewritten to point
/// to the page's local file (see `local_page`).
pub open spec fn link_from_parts(
    front: Seq<char>,
    title: Seq<char>,
    u: Seq<char>,
    back: Seq<char>,
    codimd_url: Seq<char>,
    infos: Seq<Info>,
) -> (Seq<char>, Seq<char>) {
    let (url, header) = link_target(u, codimd_url, infos);
    let html = local_page(spec_get_title(url, infos), header);
    (url, front + "["@ + title + "]("@ + html + ")"@ + back)
}

/// The page that the link of line `m` names and the line rewritten to point to the
/// local file (see `spec_get_codimd_info`).
pub fn get_codimd_info(m: &str, codimd_url: &str, infos: &Vec<Info>) -> (r: (String, String))
    ensures
        (r.0@, r.1@) == spec_get_codimd_info(m@, codimd_url@, infos@),
{
    let mut front = String::new();
    let mut title = String::new();
    let mut url = String::new();
    let mut back = String::new();
    match regex_captures_iter(LINK_CAPTURE, m) {
        Some(cs) => {
            if cs.len() > 0 {
                let c = &cs[cs.len() - 1];
                front = group_string(c, 1);
                title = group_string(c, 2);
                url = group_string(c, 3);
                back = group_string(c, 4);
                assert(captures_views(cs@).last() == group_views(c@));
            }
        },
        None => {},
    }
    codimd_link_from_parts(front.as_str(), title.as_str(), url.as_str(), back.as_str(), codimd_url, infos)
}

/// A rewritten page link points to the file named after the title that the page list
/// records for the linked page, whatever the link's text: where `k` is the last listed
/// page whose address occurs in the page address found (before any `#`), the line
/// starts with the text before the link, then `[text](./`, that page's title and `.html`;
/// where no listed page's address occurs there, the file name is empty.
pub proof fn law_link_file_is_page_title(
    front: Seq<char>,
    text: Seq<char>,
    u: Seq<char>,
    back: Seq<char>,
    codimd_url: Seq<char>,
    infos: Seq<Info>,
)
    ensures
        ({
            let (url, line) = link_from_parts(front, text, u, back, codimd_url, infos);
            &&& forall|k: int|
                0 <= k < infos.len() && contains(before_hash(url), #[trigger] infos[k].url@) && (forall|j: int|
                    k < j < infos.len() ==> !contains(before_hash(url), #[trigger] infos[j].url@)) ==> starts_with(
                    line,
                    front + "["@ + text + "](./"@ + infos[k].title@ + ".html"@,
                )
            &&& (forall|j: int| 0 <= j < infos.len() ==> !contains(before_hash(url), #[trigger] infos[j].url@))
                ==> starts_with(line, front + "["@ + text + "](./"@ + ".html"@)
        }),
{
    reveal_strlit("](");
    reveal_strlit("](./");
    reveal_strlit("./");
    let (url, header) = link_target(u, codimd_url, infos);
    let line = link_from_parts(front, text, u, back, codimd_url, infos).1;
    let f = |i: Info| contains(before_hash(url), i.url@);
    lemma_last_info(infos, infos.len() as int, f);
    let tt = spec_get_title(url, infos);
    let html = local_page(tt, header);
    assert(line == front + "["@ + text + "]("@ + html + ")"@ + back);
    let want = front + "["@ + text + "](./"@ + tt + ".html"@;
    assert(line.subrange(0, want.len() as int) =~= want) by {
        if header.len() != 0 {
            assert(html == "./"@ + tt + ".html"@ + "#"@ + spec_replace_header_name(header));
        }
        assert(front + "["@ + text + "]("@ + "./"@ =~= front + "["@ + text + "](./"@);
    }
    assert forall|k: int|
        0 <= k < infos.len() && contains(before_hash(url), #[trigger] infos[k].url@) && (forall|j: int|
            k < j < infos.len() ==> !contains(before_hash(url), #[trigger] infos[j].url@)) implies starts_with(
        line,
        front + "["@ + text + "](./"@ + infos[k].title@ + ".html"@,
    ) by {
        assert(f(infos[k]));
        match last_info(infos, infos.len() as int, f) {
            Some(k2) => {
                if k2 < k {
                    assert(false);
                }
                if k2 > k {
                    assert(!f(infos[k2]));
                }
                assert(k2 == k);
            },
            None => {
                assert(!f(infos[k]));
            },
        }
        assert(tt == infos[k].title@);
    }
    if forall|j: int| 0 <= j < infos.len() ==> !contains(before_hash(url), #[trigger] infos[j].url@) {
        match last_info(infos, infos.len() as int, f) {
            Some(k2) => {
                assert(f(infos[k2]));
                assert(!contains(before_hash(url), infos[k2].url@));
            },
            None => {},
        }
        assert(tt =~= Seq::<char>::empty());
        assert(want =~= front + "["@ + text + "](./"@ + ".html"@);
    }
}

/// The page that a link names and the line rewritten to point to its local file, from
/// the link's parts (see `link_from_parts`).
pub fn codimd_link_from_parts(
    front: &str,
    title: &str,
    url: &str,
    back: &str,
    codimd_url: &str,
    infos: &Vec<Info>,
) -> (r: (String, String))
    ensures
        (r.0@, r.1@) == link_from_parts(front@, title@, url@, back@, codimd_url@, infos@),
{
    let mut prefix = to_chars(codimd_url);
    append_str(&mut prefix, "s/");
    let pre = from_chars(prefix.as_slice());
    let uc = to_chars(url);
    let u1 = if contains_str(uc.as_slice(), pre.as_str()) {
        let shortid = replace_str(uc.as_slice(), pre.as_str(), "");
        let s = from_chars(shortid.as_slice());
        to_chars(get_url_from_shortid(s.as_str(), infos).as_str())
    } else {
        uc
    };
    let (u2, header) = match split_once_str(u1.as_slice(), "#") {
        Some((a, b)) => (a, b),
        None => (u1, Vec::new()),
    };
    let u3 = match split_once_str(u2.as_slice(), "?") {
        Some((a, _)) => a,
        None => u2,
    };
    let u4 = replace_str(u3.as_slice(), "?view", "");
    let u4 = replace_str(u4.as_slice(), "?both", "");
    let u5 = replace_str(u4.as_slice(), "-", "+");
    let url_s = from_chars(u5.as_slice());
    let tt = get_title(url_s.as_str(), infos);
    let mut html = to_chars("./");
    append_str(&mut html, tt.as_str());
    append_str(&mut html, ".html");
    if header.len() != 0 {
        append_str(&mut html, "#");
        let hs = from_chars(header.as_slice());
        let anchor = replace_header_name(hs.as_str());
        append_str(&mut html, anchor.as_str());
    }
    let mut line = to_chars(front);
    append_str(&mut line, "[");
    append_str(&mut line, title);
    append_str(&mut line, "](");
    append_chars(&mut line, html.as_slice());
    append_str(&mut line, ")");
    append_str(&mut line, back);
    (url_s, from_chars(line.as_slice()))
}


/// `<a href="t" target="_blank" rel="noopener">n</a>`.
pub open spec fn anchor(t: Seq<char>, n: Seq<char>) -> Seq<char> {
    "<a href=\""@ + t + "\" target=\"_blank\" rel=\"noopener\">"@ + n + "</a>"@
}

/// A header element of level `d` (one digit character) whose title `name` links to
/// `url`.
pub open spec fn header_link(d: char, name: Seq<char>, url: Seq<char>) -> Seq<char> {
    "<h"@ + seq![d] + " id=\""@ + name + "\"><a class=\"anchor hidden-xs\" href=\"/#"@ + name
        + "\" title=\""@ + name + "\"><i class=\"fa fa-link\"></i></a>"@ + anchor(url, name)
        + "</h"@ + seq![d] + ">"@
}

/// One step of link conversion on a line: a line that begins (trimmed) with a web
/// address becomes a link to it; a header element whose title is a link gets that
/// link; a line with a markdown link has it made an element (`.html` links first);
/// any other line stays as it is. `None` for a header element whose level is not one
/// digit or whose link has no `[`, where the conversion has no result.
pub open spec fn spec_line_url(l: Seq<char>) -> Option<Seq<char>> {
    let t = trim(l);
    if re_yes(HTTP_START@, t) {
        Some(anchor(t, t))
    } else if glob(HEADER_LINK@, l) {
        if l.len() >= 3 && '0' <= l[2] && l[2] <= '9' {
            match split_once(l, "]("@) {
                Some((pre, post)) => match (split_once(post, ")"@), split_once(pre, "["@)) {
                    (Some((url, _)), Some((_, name))) => Some(header_link(l[2], name, url)),
                    _ => None,
                },
                None => None,
            }
        } else {
            None
        }
    } else if re_yes(LINK_TEST@, l) {
        if re_yes(HTML_LINK_TEST@, l) {
            Some(replaced_or(regex_replace(HTML_LINK@, l, HTML_LINK_REP@), l))
        } else {
            Some(replaced_or(regex_replace(ANY_LINK@, l, ANY_LINK_REP@), l))
        }
    } else {
        Some(l)
    }
}

/// Whether one step of link conversion has a result on a line (see `spec_line_url`).
pub fn line_url_fits(l: &str) -> (b: bool)
    ensures
        b == (spec_line_url(l@) is Some),
{
    line_url_step(l).is_some()
}

/// One step of link conversion on a line (see `spec_line_url`); the step must have a
/// result (see `line_url_fits`).
pub fn line_url(l: &str) -> (r: String)
    requires
        spec_line_url(l@) is Some,
    ensures
        r@ == spec_line_url(l@)->0,
{
    match line_url_step(l) {
        Some(r) => r,
        None => l.to_string(),
    }
}

/// One step of link conversion on a line, `None` where it has no result.
fn line_url_step(l: &str) -> (r: Option<String>)
    ensures
        match r {
            Some(x) => spec_line_url(l@) == Some(x@),
            None => spec_line_url(l@) is None,
        },
{
    let lc = to_chars(l);
    let t = trim_chars(lc.as_slice());
    if re_test(HTTP_START, t.as_slice()) {
        let ts = from_chars(t.as_slice());
        let mut v = to_chars("<a href=\"");
        append_chars(&mut v, t.as_slice());
        append_str(&mut v, "\" target=\"_blank\" rel=\"noopener\">");
        append_chars(&mut v, t.as_slice());
        append_str(&mut v, "</a>");
        Some(from_chars(v.as_slice()))
    } else if glob_chars(HEADER_LINK, lc.as_slice()) {
        if lc.len() >= 3 && '0' <= lc[2] && lc[2] <= '9' {
            let d = lc[2];
            match split_once_str(lc.as_slice(), "](") {
                Some((pre, post)) => match (split_once_str(post.as_slice(), ")"), split_once_str(pre.as_slice(), "[")) {
                    (Some((url, _)), Some((_, name))) => {
                        let mut v = to_chars("<h");
                        v.push(d);
                        append_str(&mut v, " id=\"");
                        append_chars(&mut v, name.as_slice());
                        append_str(&mut v, "\"><a class=\"anchor hidden-xs\" href=\"/#");
                        append_chars(&mut v, name.as_slice());
                        append_str(&mut v, "\" title=\"");
                        append_chars(&mut v, name.as_slice());
                        append_str(&mut v, "\"><i class=\"fa fa-link\"></i></a>");
                        append_str(&mut v, "<a href=\"");
                        append_chars(&mut v, url.as_slice());
                        append_str(&mut v, "\" target=\"_blank\" rel=\"noopener\">");
                        append_chars(&mut v, name.as_slice());
                        append_str(&mut v, "</a>");
                        append_str(&mut v, "</h");
                        v.push(d);
                        append_str(&mut v, ">");
                        Some(from_chars(v.as_slice()))
                    },
                    _ => None,
                },
                None => None,
            }
        } else {
            None
        }
    } else if re_test(LINK_TEST, lc.as_slice()) {
        if re_test(HTML_LINK_TEST, lc.as_slice()) {
            Some(replace_all_or_keep(HTML_LINK, l, HTML_LINK_REP))
        } else {
            Some(replace_all_or_keep(ANY_LINK, l, ANY_LINK_REP))
        }
    } else {
        Some(l.to_string())
    }
}

/// Whether a line still has a link to convert: a markdown link, or a web address at
/// the start of one of its lines.
pub open spec fn has_link(s: Seq<char>) -> bool {
    re_yes(LINK_TEST@, s) || re_yes(HTTP_START@, s)
}

/// Link conversion repeated while the line has a link, at most `fuel` times.
pub open spec fn links_converted(s: Seq<char>, fuel: nat) -> Seq<char>
    decreases fuel,
{
    if fuel == 0 || !has_link(s) {
        s
    } else {
        match spec_line_url(s) {
            Some(r) => links_converted(r, (fuel - 1) as nat),
            None => s,
        }
    }
}

/// Whether every step of `links_converted` has a result.
pub open spec fn links_fit(s: Seq<char>, fuel: nat) -> bool
    decreases fuel,
{
    if fuel == 0 || !has_link(s) {
        true
    } else {
        match spec_line_url(s) {
            Some(r) => links_fit(r, (fuel - 1) as nat),
            None => false,
        }
    }
}

/// Whether the link conversion of a line has a result at every step (see
/// `spec_line_url`).
pub open spec fn line_links_fit(l: Seq<char>) -> bool {
    links_fit(l, l.len() + 1)
}

/// With rounds enough (see `law_link_rounds_enough`), the repeated link conversion ends
/// on a line with no link left or whose next round has no result, and neither its line
/// nor whether every round has a result depends on the number of rounds.
proof fn lemma_links_settle(s: Seq<char>, fuel: nat, m: spec_fn(Seq<char>) -> nat)
    requires
        forall|x: Seq<char>|
            has_link(x) && #[trigger] spec_line_url(x) is Some ==> m(spec_line_url(x)->0) < m(x),
        fuel > m(s),
    ensures
        links_converted(s, fuel) == links_converted(s, (m(s) + 1) as nat),
        links_fit(s, fuel) == links_fit(s, (m(s) + 1) as nat),
        !has_link(links_converted(s, fuel)) || spec_line_url(links_converted(s, fuel)) is None,
    decreases fuel,
{
    if has_link(s) {
        match spec_line_url(s) {
            Some(r) => {
                lemma_links_settle(r, (fuel - 1) as nat, m);
                lemma_links_settle(r, m(s), m);
            },
            None => {},
        }
    }
}

/// Where some measure of a line, no larger than its length, drops at each round of link
/// conversion, the repeated conversion stops because no link is left (or a round has no
/// result), not because its rounds ran out, as soon as it has more rounds than the
/// measure: more rounds then give the same line and the same answer to whether every
/// round has one, and the rounds of `spec_line_exec` (the line's length plus one) are
/// enough.
pub proof fn law_link_rounds_enough(s: Seq<char>, fuel: nat, m: spec_fn(Seq<char>) -> nat)
    requires
        forall|x: Seq<char>|
            has_link(x) && #[trigger] spec_line_url(x) is Some ==> m(spec_line_url(x)->0) < m(x),
        m(s) <= s.len(),
        fuel > m(s),
    ensures
        links_converted(s, fuel) == links_converted(s, s.len() + 1),
        links_fit(s, fuel) == line_links_fit(s),
        !has_link(links_converted(s, fuel)) || spec_line_url(links_converted(s, fuel)) is None,
{
    lemma_links_settle(s, fuel, m);
    lemma_links_settle(s, (s.len() + 1) as nat, m);
}

/// Code between runs of three backquotes made a `<code>` element.
pub open spec fn spec_line_code(l: Seq<char>) -> Seq<char> {
    replaced_or(regex_replace(INLINE_CODE@, l, "<code>$h</code>"@), l)
}

/// Code between runs of three backquotes made a `<code>` element.
pub fn line_code(l: &str) -> (r: String)
    ensures
        r@ == spec_line_code(l@),
{
    replace_all_or_keep(INLINE_CODE, l, "<code>$h</code>")
}

/// A line with its links converted one after the other (as many rounds as the line has
/// characters, plus one) and then its inline code.
pub open spec fn spec_line_exec(l: Seq<char>) -> Seq<char> {
    spec_line_code(links_converted(l, l.len() + 1))
}

/// The link conversion of a line: whether every step has a result (see
/// `line_links_fit`), and the line after the steps that have one.
fn links_of(l: &str) -> (r: (bool, String))
    ensures
        r.0 == line_links_fit(l@),
        r.0 ==> r.1@ == links_converted(l@, l@.len() + 1),
{
    let mut res = l.to_string();
    let lc = to_chars(l);
    let fuel0 = lc.len();
    let mut fuel: usize = fuel0;
    let mut go = true;
    let mut ok = true;
    while go
        invariant
            fuel <= fuel0,
            go ==> ok,
            go ==> links_converted(l@, l@.len() + 1) == links_converted(res@, (fuel + 1) as nat),
            go ==> line_links_fit(l@) == links_fit(res@, (fuel + 1) as nat),
            !go ==> ok == line_links_fit(l@),
            !go && ok ==> links_converted(l@, l@.len() + 1) == res@,
        decreases fuel + if go { 1int } else { 0int },
    {
        let rc = to_chars(res.as_str());
        let more = re_test(LINK_TEST, rc.as_slice()) || re_test(HTTP_START, rc.as_slice());
        if !more {
            go = false;
        } else {
            match line_url_step(res.as_str()) {
                Some(r) => {
                    res = r;
                    if fuel == 0 {
                        go = false;
                        assert(links_converted(res@, 0) == res@);
                        assert(links_fit(res@, 0));
                    } else {
                        fuel -= 1;
                    }
                },
                None => {
                    go = false;
                    ok = false;
                },
            }
        }
    }
    (ok, res)
}

/// Whether the link conversion of a line has a result at every step (see
/// `line_links_fit`).
pub fn line_links_can_convert(l: &str) -> (b: bool)
    ensures
        b == line_links_fit(l@),
{
    links_of(l).0
}

/// A line with its links and inline code converted (see `spec_line_exec`); every link
/// step must have a result (see `line_links_fit`).
pub fn line_exec(l: &str) -> (r: String)
    requires
        line_links_fit(l@),
    ensures
        r@ == spec_line_exec(l@),
{
    let (_, res) = links_of(l);
    line_code(res.as_str())
}

/// The depth of the list item that line `l` is: 6 to 1 for a mark after 7, 6, 5, 4 or
/// 2 spaces somewhere in the line, or at its start; `None` for no list item.
pub open spec fn spec_is_line_list(l: Seq<char>) -> Option<usize> {
    if re_yes(LIST_7@, l) {
        Some(6)
    } else if re_yes(LIST_6@, l) {
        Some(5)
    } else if re_yes(LIST_5@, l) {
        Some(4)
    } else if re_yes(LIST_4@, l) {
        Some(3)
    } else if re_yes(LIST_2@, l) {
        Some(2)
    } else if re_yes(LIST_0@, l) {
        Some(1)
    } else {
        None
    }
}

/// The depth of the list item that line `l` is (see `spec_is_line_list`).
pub fn is_line_list(l: &str) -> (r: Option<usize>)
    ensures
        r == spec_is_line_list(l@),
{
    let lc = to_chars(l);
    if re_test(LIST_7, lc.as_slice()) {
        return Some(6);
    } else if re_test(LIST_6, lc.as_slice()) {
        return Some(5);
    } else if re_test(LIST_5, lc.as_slice()) {
        return Some(4);
    } else if re_test(LIST_4, lc.as_slice()) {
        return Some(3);
    } else if re_test(LIST_2, lc.as_slice()) {
        return Some(2);
    } else if re_test(LIST_0, lc.as_slice()) {
        return Some(1);
    }
    None
}

/// A list line with its mark made `<li>`.
pub open spec fn spec_line_list(l: Seq<char>) -> Seq<char> {
    replaced_or(regex_replace(LIST_ITEM@, l, "<li>$h"@), l)
}

/// A list line with its mark made `<li>`.
pub fn line_list(l: &str) -> (r: String)
    ensures
        r@ == spec_line_list(l@),
{
    replace_all_or_keep(LIST_ITEM, l, "<li>$h")
}

/// Whether a line of the page is followed by a line break: it ends an inline element
/// (`</strong>`, `</s>`, `</font>`, `</code>`, `</a>`, `</ins>`, `</mark>`), ends an
/// image (`.png">` or `class="md-image md-image">`), is text (not empty when trimmed,
/// not ending with `>`, holding no `iframe`), or ends an `<img src=..>` element.
pub open spec fn spec_is_line_newline(l: Seq<char>) -> bool {
    ||| ends_with(l, "</strong>"@)
    ||| ends_with(l, "</s>"@)
    ||| ends_with(l, "</font>"@)
    ||| ends_with(l, "</code>"@)
    ||| ends_with(l, "</a>"@)
    ||| ends_with(l, "</ins>"@)
    ||| ends_with(l, ".png\">"@)
    ||| ends_with(l, "class=\"md-image md-image\">"@)
    ||| ends_with(l, "</mark>"@)
    ||| (!ends_with(l, ">"@) && !contains(l, "iframe"@) && trim(l).len() != 0)
    ||| glob("*<img src=*>"@, l)
}

/// Whether a line of the page is followed by a line break (see `spec_is_line_newline`).
pub fn is_line_newline(l: &str) -> (b: bool)
    ensures
        b == spec_is_line_newline(l@),
{
    let lc = to_chars(l);
    let s = lc.as_slice();
    if ends_with_str(s, "</strong>") || ends_with_str(s, "</s>") || ends_with_str(s, "</font>")
        || ends_with_str(s, "</code>") || ends_with_str(s, "</a>") || ends_with_str(s, "</ins>")
        || ends_with_str(s, ".png\">") || ends_with_str(s, "class=\"md-image md-image\">")
        || ends_with_str(s, "</mark>") {
        return true;
    }
    let t = trim_chars(s);
    if !ends_with_str(s, ">") && !contains_str(s, "iframe") && t.len() != 0 {
        return true;
    }
    glob_chars("*<img src=*>", s)
}

/// Whether a line holds a markdown image `![..](..)`, sized or not.
pub open spec fn spec_is_image(l: Seq<char>) -> bool {
    re_yes(IMAGE_SIZED@, l) || re_yes(IMAGE_ANY@, l)
}

/// Whether a line holds a markdown image.
pub fn is_image(l: &str) -> (b: bool)
    ensures
        b == spec_is_image(l@),
{
    let lc = to_chars(l);
    let a = re_test(IMAGE_SIZED, lc.as_slice());
    let b = re_test(IMAGE_ANY, lc.as_slice());
    a || b
}

} // verus!
