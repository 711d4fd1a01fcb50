//! The conversion of a page's markdown into HTML, stage by stage.
use vstd::prelude::*;
use crate::text::{
    lines_of, lines_str, join_lines, views, push_line, push_str_line, join_string, to_chars,
    from_chars, trim, trim_chars, replace, replace_str, contains, contains_str, starts_with,
    starts_with_str, eq_str, append_str, append_chars, copy_chars, split_lines, sum_lens,
    lemma_lines_len, lemma_sum_lens_prefix, lemma_count_char_len, count_char, count_chars, repeat,
    repeat_str, split_char, split_on, decimal, usize_chars, cat, rfind_char, rfind_chars,
    lemma_rfind_in, sub_chars, split_once, split_once_str, chars_at, replace_chars, find, find_chars,
    lemma_find_from, digit_char, lemma_replace_concat, lemma_replace_absent, lemma_replace_step,
    lemma_replace_whole, no_newline, lemma_lines_no_newline, lemma_split_join,
    lemma_replace_not_found, is_at, lemma_line_in_join, lemma_split_char_ends_with,
};
use crate::matching::{
    glob, glob_chars, lemma_glob_plain_front, lemma_glob_star_front, regex_replace, regex_captures, regex_captures_iter, captures_views,
    replace_group1, replace_each_group1, string_views,
    group_views, group_text, group_string,
};
use crate::tags::{count_sub, lemma_count_sub_le_len};
use crate::header::{
    Header, headers_view, spec_get_header, get_header, toc_lines, push_toc_lines, replaced_or,
    spec_replace_header_name, replace_header_name,
    replace_all_or_keep, last_match,
};
use crate::line::{
    re_yes, re_test, spec_line_exec, line_exec, spec_is_image, is_image, spec_is_line_newline,
    is_line_newline, spec_is_line_list, is_line_list, spec_line_list, line_list, line_links_fit,
    line_links_can_convert,
};

verus! {

/// Whether a line is not empty and made only of spaces.
pub open spec fn is_blank(l: Seq<char>) -> bool {
    l.len() > 0 && forall|k: int| 0 <= k < l.len() ==> #[trigger] l[k] == ' '
}

/// The lines from `i` on with each line made only of spaces emptied, except inside a
/// code block (opened and closed by lines that, trimmed, start with ```` ``` ````);
/// `code` tells whether a code block is open before line `i`.
pub open spec fn space_from(ls: Seq<Seq<char>>, i: int, code: bool) -> Seq<Seq<char>>
    decreases ls.len() - i,
{
    if i < 0 || i >= ls.len() {
        seq![]
    } else {
        let l = ls[i];
        let c1 = if starts_with(trim(l), "```"@) { !code } else { code };
        seq![if !c1 && is_blank(l) { seq![] } else { l }] + space_from(ls, i + 1, c1)
    }
}

/// The page with its lines made only of spaces emptied outside code blocks, joined again
/// by single newlines (a `\r` before a newline and a final newline dropped).
pub open spec fn spec_delete_space(md: Seq<char>) -> Seq<char> {
    join_lines(space_from(lines_of(md), 0, false))
}

/// Whether a line is not empty and made only of spaces.
fn blank_line(l: &[char]) -> (b: bool)
    ensures
        b == is_blank(l@),
{
    if l.len() == 0 {
        return false;
    }
    let mut i: usize = 0;
    while i < l.len()
        invariant
            i <= l@.len(),
            forall|k: int| 0 <= k < i ==> #[trigger] l@[k] == ' ',
        decreases l@.len() - i,
    {
        if l[i] != ' ' {
            return false;
        }
        i += 1;
    }
    true
}

/// The page with its lines made only of spaces emptied outside code blocks (see
/// `spec_delete_space`).
pub fn delete_space(md: &str) -> (r: String)
    ensures
        r@ == spec_delete_space(md@),
{
    let lines = lines_str(md);
    let ghost ls = views(lines@);
    let mut out: Vec<Vec<char>> = Vec::new();
    let mut code = false;
    let mut i: usize = 0;
    while i < lines.len()
        invariant
            i <= lines@.len(),
            ls == views(lines@),
            space_from(ls, 0, false) == views(out@) + space_from(ls, i as int, code),
        decreases lines@.len() - i,
    {
        assert(ls[i as int] == lines@[i as int]@);
        let ghost before = views(out@);
        let ghost c0 = code;
        let l = lines[i].as_slice();
        let t = trim_chars(l);
        if starts_with_str(t.as_slice(), "```") {
            code = !code;
        }
        if !code && blank_line(l) {
            push_line(&mut out, Vec::new());
        } else {
            push_line(&mut out, copy_chars(l));
        }
        assert(views(out@) + space_from(ls, i + 1, code) =~= before + space_from(ls, i as int, c0));
        i += 1;
    }
    assert(views(out@) + space_from(ls, i as int, code) =~= views(out@));
    join_string(&out)
}

/// A `{%youtube ID%}` line made an embedded video of the video `ID`; any other line
/// stays as it is.
pub open spec fn youtube_line(l: Seq<char>) -> Seq<char> {
    if glob("{%youtube *%}"@, l) {
        let id = replace(replace(l, "{%youtube "@, ""@), "%}"@, ""@);
        "<div class=\"youtube\" data-videoid=\""@ + id
            + "\"><iframe webkitallowfullscreen=\"\" mozallowfullscreen=\"\" allowfullscreen=\"\" src=\"https://www.youtube.com/embed/"@
            + id + "\" frameborder=\"0\"></iframe></div>"@
    } else {
        l
    }
}

/// The lines with each `{%youtube ID%}` line made an embedded video.
pub open spec fn youtube_lines(ls: Seq<Seq<char>>) -> Seq<Seq<char>> {
    ls.map_values(|l: Seq<char>| youtube_line(l))
}

/// The page with each `{%youtube ID%}` line made an embedded video.
pub open spec fn spec_convert_html_youtube(md: Seq<char>) -> Seq<char> {
    join_lines(youtube_lines(lines_of(md)))
}

/// The page with each `{%youtube ID%}` line made an embedded video.
pub fn convert_html_youtube(md: &str) -> (r: String)
    ensures
        r@ == spec_convert_html_youtube(md@),
{
    let lines = lines_str(md);
    let ghost ls = views(lines@);
    let mut out: Vec<Vec<char>> = Vec::new();
    let mut i: usize = 0;
    while i < lines.len()
        invariant
            i <= lines@.len(),
            ls == views(lines@),
            views(out@) == youtube_lines(ls.take(i as int)),
        decreases lines@.len() - i,
    {
        let l = lines[i].as_slice();
        assert(ls[i as int] == lines@[i as int]@);
        let r = if glob_chars("{%youtube *%}", l) {
            let a = replace_str(l, "{%youtube ", "");
            let id = replace_str(a.as_slice(), "%}", "");
            let mut v = to_chars("<div class=\"youtube\" data-videoid=\"");
            append_chars(&mut v, id.as_slice());
            append_str(&mut v, "\"><iframe webkitallowfullscreen=\"\" mozallowfullscreen=\"\" allowfullscreen=\"\" src=\"https://www.youtube.com/embed/");
            append_chars(&mut v, id.as_slice());
            append_str(&mut v, "\" frameborder=\"0\"></iframe></div>");
            v
        } else {
            copy_chars(l)
        };
        push_line(&mut out, r);
        assert(youtube_lines(ls.take(i + 1)) =~= youtube_lines(ls.take(i as int)).push(
            youtube_line(ls[i as int]),
        ));
        i += 1;
    }
    assert(ls.take(lines@.len() as int) == ls);
    join_string(&out)
}

/// The lines with their links and inline code converted.
pub open spec fn url_lines(ls: Seq<Seq<char>>) -> Seq<Seq<char>> {
    ls.map_values(|l: Seq<char>| spec_line_exec(l))
}

/// The page with the links and inline code of every line converted.
pub open spec fn spec_convert_html_url(md: Seq<char>) -> Seq<char> {
    join_lines(url_lines(lines_of(md)))
}

/// Whether the link conversion of every line of the page has a result at every step
/// (see `line_links_fit`).
pub open spec fn url_links_fit(md: Seq<char>) -> bool {
    forall|i: int| 0 <= i < lines_of(md).len() ==> #[trigger] line_links_fit(lines_of(md)[i])
}

/// Whether the link conversion of every line of the page has a result at every step
/// (see `url_links_fit`).
pub fn can_convert_url_lines(md: &str) -> (b: bool)
    ensures
        b == url_links_fit(md@),
{
    let lines = lines_str(md);
    let ghost ls = views(lines@);
    let mut i: usize = 0;
    while i < lines.len()
        invariant
            i <= lines@.len(),
            ls == views(lines@),
            ls == lines_of(md@),
            forall|j: int| 0 <= j < i ==> #[trigger] line_links_fit(ls[j]),
        decreases lines@.len() - i,
    {
        assert(ls[i as int] == lines@[i as int]@);
        let l = from_chars(lines[i].as_slice());
        if !line_links_can_convert(l.as_str()) {
            return false;
        }
        i += 1;
    }
    true
}

/// The page with the links and inline code of every line converted; every line's link
/// conversion must have a result (see `url_links_fit` and `can_convert_url_lines`).
pub fn convert_html_url(md: &str) -> (r: String)
    requires
        url_links_fit(md@),
    ensures
        r@ == spec_convert_html_url(md@),
{
    let lines = lines_str(md);
    let ghost ls = views(lines@);
    let mut out: Vec<Vec<char>> = Vec::new();
    let mut i: usize = 0;
    while i < lines.len()
        invariant
            i <= lines@.len(),
            ls == views(lines@),
            url_links_fit(md@),
            ls == lines_of(md@),
            views(out@) == url_lines(ls.take(i as int)),
        decreases lines@.len() - i,
    {
        assert(line_links_fit(ls[i as int]));
        assert(ls[i as int] == lines@[i as int]@);
        let l = from_chars(lines[i].as_slice());
        let r = line_exec(l.as_str());
        push_line(&mut out, to_chars(r.as_str()));
        assert(url_lines(ls.take(i + 1)) =~= url_lines(ls.take(i as int)).push(
            spec_line_exec(ls[i as int]),
        ));
        i += 1;
    }
    assert(ls.take(lines@.len() as int) == ls);
    join_string(&out)
}

/// Whether every character of `l` is `c`, a space or a tab, and `c` occurs.
pub open spec fn rule_of(l: Seq<char>, c: char) -> bool {
    &&& exists|k: int| 0 <= k < l.len() && #[trigger] l[k] == c
    &&& forall|k: int| 0 <= k < l.len() ==> #[trigger] l[k] == c || l[k] == ' ' || l[k] == '\t'
}

/// Whether a line is a horizontal rule: besides spaces and tabs it holds only `-`,
/// only `*` or only `_`, at least once.
pub open spec fn is_rule(l: Seq<char>) -> bool {
    rule_of(l, '-') || rule_of(l, '*') || rule_of(l, '_')
}

/// Whether a line is a horizontal rule (see `is_rule`).
pub fn rule_line(l: &[char]) -> (b: bool)
    ensures
        b == is_rule(l@),
{
    let mut found: Option<char> = None;
    let mut i: usize = 0;
    while i < l.len()
        invariant
            i <= l@.len(),
            match found {
                None => forall|k: int| 0 <= k < i ==> #[trigger] l@[k] == ' ' || l@[k] == '\t',
                Some(c) => (c == '-' || c == '*' || c == '_') && (exists|k: int|
                    0 <= k < i && #[trigger] l@[k] == c) && (forall|k: int|
                    0 <= k < i ==> #[trigger] l@[k] == c || l@[k] == ' ' || l@[k] == '\t'),
            },
        decreases l@.len() - i,
    {
        let c = l[i];
        if c != ' ' && c != '\t' {
            match found {
                None => {
                    if c == '-' || c == '*' || c == '_' {
                        found = Some(c);
                    } else {
                        assert(!rule_of(l@, '-') && !rule_of(l@, '*') && !rule_of(l@, '_')) by {
                            assert(l@[i as int] == c);
                        }
                        return false;
                    }
                },
                Some(d) => {
                    if c != d {
                        assert(!rule_of(l@, '-') && !rule_of(l@, '*') && !rule_of(l@, '_')) by {
                            let k0 = choose|k: int| 0 <= k < i && #[trigger] l@[k] == d;
                            assert(l@[k0] == d);
                            assert(l@[i as int] == c);
                        }
                        return false;
                    }
                },
            }
        }
        i += 1;
    }
    match found {
        None => {
            assert(!rule_of(l@, '-') && !rule_of(l@, '*') && !rule_of(l@, '_'));
            false
        },
        Some(c) => {
            assert(rule_of(l@, c));
            true
        },
    }
}

/// The lines with each horizontal rule made `<hr></hr>`.
pub open spec fn rule_lines(ls: Seq<Seq<char>>) -> Seq<Seq<char>> {
    ls.map_values(|l: Seq<char>| if is_rule(l) { "<hr></hr>"@ } else { l })
}

/// The page with each horizontal-rule line made `<hr></hr>`.
pub open spec fn spec_convert_html_line(md: Seq<char>) -> Seq<char> {
    join_lines(rule_lines(lines_of(md)))
}

/// The page with each horizontal-rule line made `<hr></hr>`.
pub fn convert_html_line(md: &str) -> (r: String)
    ensures
        r@ == spec_convert_html_line(md@),
{
    let lines = lines_str(md);
    let ghost ls = views(lines@);
    let mut out: Vec<Vec<char>> = Vec::new();
    let mut i: usize = 0;
    while i < lines.len()
        invariant
            i <= lines@.len(),
            ls == views(lines@),
            views(out@) == rule_lines(ls.take(i as int)),
        decreases lines@.len() - i,
    {
        assert(ls[i as int] == lines@[i as int]@);
        let l = lines[i].as_slice();
        let r = if rule_line(l) {
            to_chars("<hr></hr>")
        } else {
            copy_chars(l)
        };
        push_line(&mut out, r);
        assert(rule_lines(ls.take(i + 1)) =~= rule_lines(ls.take(i as int)).push(
            if is_rule(ls[i as int]) { "<hr></hr>"@ } else { ls[i as int] },
        ));
        i += 1;
    }
    assert(ls.take(lines@.len() as int) == ls);
    join_string(&out)
}


/// Text between single `*`, made italic.
pub const ITALIC: &'static str = r"\*(?P<h>.+?)\*";

/// Text between `~~`, struck through.
pub const CANCEL: &'static str = r#"\~\~(?P<h>.[\s\S]+?)\~\~"#;

/// Text between `**`, made bold.
pub const BOLD: &'static str = r#"[\*]{2}(?P<h>.[\s\S]*?)[\*]{2}"#;

/// Text between `==`, marked.
pub const MARKER: &'static str = r#"(?s)==(?P<h>.[^ ][\s\S]*?[^ ])=="#;

/// Text between `++`, shown as inserted.
pub const INSERT: &'static str = r#"\+\+(?P<h>.[\s\S]+?)\+\+"#;

/// The page with `*text*` made `<em>` (the whole page at once).
pub open spec fn spec_convert_html_italic(md: Seq<char>) -> Seq<char> {
    replaced_or(regex_replace(ITALIC@, md, "<em>$h</em>"@), md)
}

/// The page with `*text*` made `<em>`.
pub fn convert_html_italic(md: &str) -> (r: String)
    ensures
        r@ == spec_convert_html_italic(md@),
{
    replace_all_or_keep(ITALIC, md, "<em>$h</em>")
}

/// The page with `~~text~~` made `<s>`.
pub open spec fn spec_convert_html_cancel(md: Seq<char>) -> Seq<char> {
    replaced_or(regex_replace(CANCEL@, md, "<s>$h</s>"@), md)
}

/// The page with `~~text~~` made `<s>`.
pub fn convert_html_cancel(md: &str) -> (r: String)
    ensures
        r@ == spec_convert_html_cancel(md@),
{
    replace_all_or_keep(CANCEL, md, "<s>$h</s>")
}

/// The page with `**text**` made `<strong>`.
pub open spec fn spec_convert_html_bold(md: Seq<char>) -> Seq<char> {
    replaced_or(regex_replace(BOLD@, md, "<strong>$h</strong>"@), md)
}

/// The page with `**text**` made `<strong>`.
pub fn convert_html_bold(md: &str) -> (r: String)
    ensures
        r@ == spec_convert_html_bold(md@),
{
    replace_all_or_keep(BOLD, md, "<strong>$h</strong>")
}

/// The page with `==text==` made `<mark>` (the replacement names a group `g` that the
/// pattern lacks, which expands to nothing).
pub open spec fn spec_convert_html_marker(md: Seq<char>) -> Seq<char> {
    replaced_or(regex_replace(MARKER@, md, "$g<mark>$h</mark>"@), md)
}

/// The page with `==text==` made `<mark>`.
pub fn convert_html_marker(md: &str) -> (r: String)
    ensures
        r@ == spec_convert_html_marker(md@),
{
    replace_all_or_keep(MARKER, md, "$g<mark>$h</mark>")
}

/// The page with `++text++` made `<ins>`.
pub open spec fn spec_convert_html_insert(md: Seq<char>) -> Seq<char> {
    replaced_or(regex_replace(INSERT@, md, "$g<ins>$h</ins>"@), md)
}

/// The page with `++text++` made `<ins>`.
pub fn convert_html_insert(md: &str) -> (r: String)
    ensures
        r@ == spec_convert_html_insert(md@),
{
    replace_all_or_keep(INSERT, md, "$g<ins>$h</ins>")
}

/// `:::info` ... `:::` blocks.
pub const ALERT_INFO: &'static str = r":::[ |　]?+info[^A-Z]?[\s](?P<h>.[\s\S]+?):::";
/// A `:::danger` block, its text in group 1.
pub const ALERT_DANGER: &'static str = r":::[ |　]?+danger[^A-Z]?[\s](?P<h>.[\s\S]+?):::";
/// A `:::success` block, its text in group 1.
pub const ALERT_SUCCESS: &'static str = r":::[ |　]?+success[^A-Z]?[\s](?P<h>.[\s\S]+?):::";
/// A `:::warning` block, its text in group 1.
pub const ALERT_WARNING: &'static str = r":::[ |　]?+warning[^A-Z]?[\s](?P<h>.[\s\S]+?):::";
/// A `:::spoiler` block, its text in group 1.
pub const ALERT_SPOILER: &'static str = r":::[ |　]?+spoiler[^A-Z]?[\s](?P<h>.[\s\S]+?):::";

/// The page with `:::info`, `:::danger`, `:::success` and `:::warning` blocks made
/// alert boxes and `:::spoiler` blocks made `<details>`, in that order.
pub open spec fn spec_convert_html_alert(md: Seq<char>) -> Seq<char> {
    let a = replaced_or(regex_replace(ALERT_INFO@, md, "<div class=\"alert alert-info\">\n$h</div>"@), md);
    let b = replaced_or(regex_replace(ALERT_DANGER@, a, "<div class=\"alert alert-danger\">\n$h</div>"@), a);
    let c = replaced_or(regex_replace(ALERT_SUCCESS@, b, "<div class=\"alert alert-success\">\n$h</div>"@), b);
    let d = replaced_or(regex_replace(ALERT_WARNING@, c, "<div class=\"alert alert-warning\">\n$h</div>"@), c);
    replaced_or(regex_replace(ALERT_SPOILER@, d, "<details>\n$h</details>"@), d)
}

/// The page with its `:::` blocks converted (see `spec_convert_html_alert`).
pub fn convert_html_alert(md: &str) -> (r: String)
    ensures
        r@ == spec_convert_html_alert(md@),
{
    let a = replace_all_or_keep(ALERT_INFO, md, "<div class=\"alert alert-info\">\n$h</div>");
    let b = replace_all_or_keep(ALERT_DANGER, a.as_str(), "<div class=\"alert alert-danger\">\n$h</div>");
    let c = replace_all_or_keep(ALERT_SUCCESS, b.as_str(), "<div class=\"alert alert-success\">\n$h</div>");
    let d = replace_all_or_keep(ALERT_WARNING, c.as_str(), "<div class=\"alert alert-warning\">\n$h</div>");
    replace_all_or_keep(ALERT_SPOILER, d.as_str(), "<details>\n$h</details>")
}

/// A line holding something like an emoji name `:name:`.
pub const EMOJI_TEST: &'static str = r":[^/][!-~]{2,10}:";

/// An emoji name.
pub const EMOJI: &'static str = r":(?P<h>.+?):";

/// The image that an emoji name becomes.
pub const EMOJI_REP: &'static str = r#"<img class="emoji" alt=":$h:" src="https://cdn.jsdelivr.net/npm/@hackmd/emojify.js@2.1.0/dist/images/basic/$h.png">"#;

/// Whether a line opens a code block, closes one, and so whether the line is in code.
pub open spec fn code_after(l: Seq<char>, in_code: bool) -> bool {
    if contains(l, "</code></pre>"@) {
        false
    } else if contains(l, "<pre><code>"@) {
        true
    } else {
        in_code
    }
}

/// The lines from `i` on with emoji names made images outside code.
pub open spec fn emoji_from(ls: Seq<Seq<char>>, i: int, in_code: bool) -> Seq<Seq<char>>
    decreases ls.len() - i,
{
    if i < 0 || i >= ls.len() {
        seq![]
    } else {
        let l = ls[i];
        let c = code_after(l, in_code);
        let out = if re_yes(EMOJI_TEST@, l) && !c {
            replaced_or(regex_replace(EMOJI@, l, EMOJI_REP@), l)
        } else {
            l
        };
        seq![out] + emoji_from(ls, i + 1, c)
    }
}

/// The page with emoji names `:name:` made images, except on the lines of code blocks.
pub open spec fn spec_convert_html_emozi(md: Seq<char>) -> Seq<char> {
    join_lines(emoji_from(lines_of(md), 0, false))
}

/// The page with emoji names made images (see `spec_convert_html_emozi`).
pub fn convert_html_emozi(md: &str) -> (r: String)
    ensures
        r@ == spec_convert_html_emozi(md@),
{
    let lines = lines_str(md);
    let ghost ls = views(lines@);
    let mut out: Vec<Vec<char>> = Vec::new();
    let mut is_code = false;
    let mut i: usize = 0;
    while i < lines.len()
        invariant
            i <= lines@.len(),
            ls == views(lines@),
            emoji_from(ls, 0, false) == views(out@) + emoji_from(ls, i as int, is_code),
        decreases lines@.len() - i,
    {
        assert(ls[i as int] == lines@[i as int]@);
        let ghost before = views(out@);
        let ghost was = is_code;
        let l = lines[i].as_slice();
        if contains_str(l, "<pre><code>") {
            is_code = true;
        }
        if contains_str(l, "</code></pre>") {
            is_code = false;
        }
        let r = if re_test(EMOJI_TEST, l) && !is_code {
            let ls_ = from_chars(l);
            to_chars(replace_all_or_keep(EMOJI, ls_.as_str(), EMOJI_REP).as_str())
        } else {
            copy_chars(l)
        };
        assert(is_code == code_after(ls[i as int], was));
        push_line(&mut out, r);
        assert(views(out@) + emoji_from(ls, i + 1, is_code) =~= before + emoji_from(
            ls,
            i as int,
            was,
        ));
        i += 1;
    }
    assert(views(out@) + emoji_from(ls, i as int, is_code) =~= views(out@));
    join_string(&out)
}


/// A task-list item, ticked or not, holding `text`.
pub open spec fn task_item(ticked: bool, text: Seq<char>) -> Seq<char> {
    if ticked {
        "<li class=\"task-list-item\"><input type=\"checkbox\" class=\"task-list-item-checkbox\" checked=\"\" disabled=\"disabled\"><label></label>"@
            + text + "</li>"@
    } else {
        "<li class=\"task-list-item\"><input type=\"checkbox\" class=\"task-list-item-checkbox\" disabled=\"disabled\"><label></label>"@
            + text + "</li>"@
    }
}

/// Whether a line is a task-list line (`- [ ]` or `- [x]`).
pub open spec fn is_task(l: Seq<char>) -> bool {
    contains(l, "- [ ]"@) || contains(l, "- [x]"@)
}

/// The lines from `i` on with task lists converted, `open` telling whether a list is
/// open.
pub open spec fn checkbox_from(ls: Seq<Seq<char>>, i: int, open: bool) -> Seq<Seq<char>>
    decreases ls.len() - i,
{
    if i < 0 || i >= ls.len() {
        seq![]
    } else {
        let l = ls[i];
        if is_task(l) {
            let text = replace(replace(l, "- [ ]"@, ""@), "- [x]"@, ""@);
            (if open { seq![] } else { seq!["<ul>"@] }) + seq![task_item(contains(l, "x"@), text)]
                + checkbox_from(ls, i + 1, true)
        } else {
            (if open { seq!["</ul>"@] } else { seq![] }) + seq![l] + checkbox_from(ls, i + 1, false)
        }
    }
}

/// The page with each run of task lines made a list: `<ul>` before the first, each
/// line an item (ticked when the line holds an `x` anywhere) without its `- [ ]` or
/// `- [x]`, and `</ul>` before the next other line.
pub open spec fn spec_convert_html_checkbox(md: Seq<char>) -> Seq<char> {
    join_lines(checkbox_from(lines_of(md), 0, false))
}

/// The page with its task lists converted (see `spec_convert_html_checkbox`).
pub fn convert_html_checkbox(md: &str) -> (r: String)
    ensures
        r@ == spec_convert_html_checkbox(md@),
{
    let lines = lines_str(md);
    let ghost ls = views(lines@);
    let mut out: Vec<Vec<char>> = Vec::new();
    let mut is_check = false;
    let mut i: usize = 0;
    while i < lines.len()
        invariant
            i <= lines@.len(),
            ls == views(lines@),
            checkbox_from(ls, 0, false) == views(out@) + checkbox_from(ls, i as int, is_check),
        decreases lines@.len() - i,
    {
        assert(ls[i as int] == lines@[i as int]@);
        let ghost before = views(out@);
        let ghost was = is_check;
        let l = lines[i].as_slice();
        if contains_str(l, "- [ ]") || contains_str(l, "- [x]") {
            if !is_check {
                push_str_line(&mut out, "<ul>");
                is_check = true;
            }
            let a = replace_str(l, "- [ ]", "");
            let text = replace_str(a.as_slice(), "- [x]", "");
            let ticked = contains_str(l, "x");
            let mut item = if ticked {
                to_chars("<li class=\"task-list-item\"><input type=\"checkbox\" class=\"task-list-item-checkbox\" checked=\"\" disabled=\"disabled\"><label></label>")
            } else {
                to_chars("<li class=\"task-list-item\"><input type=\"checkbox\" class=\"task-list-item-checkbox\" disabled=\"disabled\"><label></label>")
            };
            append_chars(&mut item, text.as_slice());
            append_str(&mut item, "</li>");
            push_line(&mut out, item);
        } else {
            if is_check {
                push_str_line(&mut out, "</ul>");
                is_check = false;
            }
            push_line(&mut out, copy_chars(l));
        }
        assert(views(out@) + checkbox_from(ls, i + 1, is_check) =~= before + checkbox_from(
            ls,
            i as int,
            was,
        ));
        i += 1;
    }
    assert(views(out@) + checkbox_from(ls, i as int, is_check) =~= views(out@));
    join_string(&out)
}

/// A line without its spaces.
pub open spec fn no_spaces(l: Seq<char>) -> Seq<char> {
    replace(l, " "@, ""@)
}

/// The lines from `i` on with mermaid blocks made diagram elements.
pub open spec fn mermaid_from(ls: Seq<Seq<char>>, i: int, on: bool) -> Seq<Seq<char>>
    decreases ls.len() - i,
{
    if i < 0 || i >= ls.len() {
        seq![]
    } else {
        let rl = no_spaces(ls[i]);
        if rl == "```mermaid"@ && !on {
            seq!["<pre class=\"mermaid\"><code>"@] + mermaid_from(ls, i + 1, true)
        } else if rl == "```"@ && on {
            seq!["</code></pre>"@] + mermaid_from(ls, i + 1, false)
        } else {
            seq![ls[i]] + mermaid_from(ls, i + 1, on)
        }
    }
}

/// The page with each ```` ```mermaid ```` block opened by `<pre class="mermaid"><code>`
/// and closed by `</code></pre>` (spaces in the fence lines ignored).
pub open spec fn spec_convert_html_mermaid(md: Seq<char>) -> Seq<char> {
    join_lines(mermaid_from(lines_of(md), 0, false))
}

/// The page with its mermaid blocks converted (see `spec_convert_html_mermaid`).
pub fn convert_html_mermaid(md: &str) -> (r: String)
    ensures
        r@ == spec_convert_html_mermaid(md@),
{
    let lines = lines_str(md);
    let ghost ls = views(lines@);
    let mut out: Vec<Vec<char>> = Vec::new();
    let mut on = false;
    let mut i: usize = 0;
    while i < lines.len()
        invariant
            i <= lines@.len(),
            ls == views(lines@),
            mermaid_from(ls, 0, false) == views(out@) + mermaid_from(ls, i as int, on),
        decreases lines@.len() - i,
    {
        assert(ls[i as int] == lines@[i as int]@);
        let ghost before = views(out@);
        let ghost was = on;
        let l = lines[i].as_slice();
        let rl = replace_str(l, " ", "");
        if eq_str(rl.as_slice(), "```mermaid") && !on {
            push_str_line(&mut out, "<pre class=\"mermaid\"><code>");
            on = true;
        } else if eq_str(rl.as_slice(), "```") && on {
            push_str_line(&mut out, "</code></pre>");
            on = false;
        } else {
            push_line(&mut out, copy_chars(l));
        }
        assert(views(out@) + mermaid_from(ls, i + 1, on) =~= before + mermaid_from(
            ls,
            i as int,
            was,
        ));
        i += 1;
    }
    assert(views(out@) + mermaid_from(ls, i as int, on) =~= views(out@));
    join_string(&out)
}

/// The lines of the table of contents for the headers `hs`.
pub open spec fn spec_get_toc(hs: Seq<(usize, Seq<char>)>) -> Seq<Seq<char>> {
    seq!["<div class=\"toc\"><ul>"@] + toc_lines(hs, "<li>"@, "<ul>"@) + seq!["</div>"@]
}

/// The lines of the table of contents for `headers`: nested lists of links to the
/// headers' anchors (see `spec_get_toc`).
pub fn get_toc(headers: &Vec<Header>) -> (r: Vec<String>)
    ensures
        crate::matching::string_views(r@) == spec_get_toc(headers_view(headers@)),
{
    let mut res: Vec<Vec<char>> = Vec::new();
    push_str_line(&mut res, "<div class=\"toc\"><ul>");
    push_toc_lines(&mut res, headers, "<li>", "<ul>");
    push_str_line(&mut res, "</div>");
    let ghost want = views(res@);
    let mut out: Vec<String> = Vec::new();
    let mut k: usize = 0;
    while k < res.len()
        invariant
            k <= res@.len(),
            want == views(res@),
            crate::matching::string_views(out@) == want.take(k as int),
        decreases res@.len() - k,
    {
        let s = from_chars(res[k].as_slice());
        assert(want[k as int] == res@[k as int]@);
        let ghost old_out = out@;
        out.push(s);
        assert(crate::matching::string_views(out@) =~= crate::matching::string_views(old_out).push(s@));
        assert(crate::matching::string_views(out@) =~= want.take(k + 1));
        k += 1;
    }
    assert(want.take(res@.len() as int) == want);
    out
}

/// Whether a line asks for the table of contents.
pub open spec fn is_toc_mark(l: Seq<char>) -> bool {
    trim(l) == "[toc]"@ || trim(l) == "[TOC]"@
}

/// The lines from `i` on with each `[toc]` line replaced by the table of contents.
pub open spec fn toc_page_from(ls: Seq<Seq<char>>, i: int, hs: Seq<(usize, Seq<char>)>) -> Seq<Seq<char>>
    decreases ls.len() - i,
{
    if i < 0 || i >= ls.len() {
        seq![]
    } else if is_toc_mark(ls[i]) {
        spec_get_toc(hs) + toc_page_from(ls, i + 1, hs)
    } else {
        seq![ls[i]] + toc_page_from(ls, i + 1, hs)
    }
}

/// The page with each `[toc]` or `[TOC]` line replaced by the table of contents of the
/// page's headers.
pub open spec fn spec_convert_html_toc(md: Seq<char>) -> Seq<char> {
    join_lines(toc_page_from(lines_of(md), 0, spec_get_header(md)))
}

/// The page with its `[toc]` lines converted (see `spec_convert_html_toc`).
pub fn convert_html_toc(md: &str) -> (r: String)
    ensures
        r@ == spec_convert_html_toc(md@),
{
    let lines = lines_str(md);
    let headers = get_header(md);
    let ghost hs = headers_view(headers@);
    let ghost ls = views(lines@);
    let mut out: Vec<Vec<char>> = Vec::new();
    let mut i: usize = 0;
    while i < lines.len()
        invariant
            i <= lines@.len(),
            ls == views(lines@),
            hs == headers_view(headers@),
            toc_page_from(ls, 0, hs) == views(out@) + toc_page_from(ls, i as int, hs),
        decreases lines@.len() - i,
    {
        assert(ls[i as int] == lines@[i as int]@);
        let ghost before = views(out@);
        let l = lines[i].as_slice();
        let t = trim_chars(l);
        if eq_str(t.as_slice(), "[toc]") || eq_str(t.as_slice(), "[TOC]") {
            push_str_line(&mut out, "<div class=\"toc\"><ul>");
            push_toc_lines(&mut out, &headers, "<li>", "<ul>");
            push_str_line(&mut out, "</div>");
        } else {
            push_line(&mut out, copy_chars(l));
        }
        assert(views(out@) + toc_page_from(ls, i + 1, hs) =~= before + toc_page_from(
            ls,
            i as int,
            hs,
        ));
        i += 1;
    }
    assert(views(out@) + toc_page_from(ls, i as int, hs) =~= views(out@));
    join_string(&out)
}


/// An image with a size.
pub const IMAGE_SIZED_GLOB: &'static str = "*![*](*=*x*)*";

/// A sized image `![..](url =WxH)` with the text before and after it.
pub const IMAGE_SIZED_CAPTURE: &'static str = r#"(?P<front>.*)!\[.*\]\((?P<url>[^ ]+) =(?P<rx>[^x]+)x(?P<ry>[^\)]+)\)(?P<back>.*)"#;

/// An image `![..](url)` with the text before and after it.
pub const IMAGE_CAPTURE: &'static str = r#"(?P<front>.*)!\[.*\]\((?P<url>[^\)]+)\)(?P<back>.*)"#;

/// Group `k` of the last match of `p` in `l` (empty when nothing matches).
pub open spec fn last_group(p: Seq<char>, l: Seq<char>, k: int) -> Seq<char> {
    match regex_captures(p, l) {
        Some(caps) => match last_match(caps) {
            Some(c) => group_text(c, k),
            None => seq![],
        },
        None => seq![],
    }
}

/// The texts of groups 0 to `n - 1` of the last match of `p` in `l`.
pub fn last_groups(p: &str, l: &str, n: usize) -> (r: Vec<String>)
    ensures
        r@.len() == n,
        forall|k: int| 0 <= k < n ==> #[trigger] r@[k]@ == last_group(p@, l@, k),
{
    let mut r: Vec<String> = Vec::new();
    match regex_captures_iter(p, l) {
        Some(cs) => {
            if cs.len() > 0 {
                let c = &cs[cs.len() - 1];
                assert(captures_views(cs@).last() == group_views(c@));
                let mut k: usize = 0;
                while k < n
                    invariant
                        k <= n,
                        r@.len() == k,
                        captures_views(cs@).last() == group_views(c@),
                        cs@.len() > 0,
                        regex_captures(p@, l@) == Some(captures_views(cs@)),
                        forall|j: int| 0 <= j < k ==> #[trigger] r@[j]@ == last_group(p@, l@, j),
                    decreases n - k,
                {
                    r.push(group_string(c, k));
                    k += 1;
                }
                return r;
            }
        },
        None => {},
    }
    let mut k: usize = 0;
    while k < n
        invariant
            k <= n,
            r@.len() == k,
            regex_captures(p@, l@) is None || regex_captures(p@, l@) == Some(Seq::<Seq<Option<Seq<char>>>>::empty()),
            forall|j: int| 0 <= j < k ==> #[trigger] r@[j]@ == last_group(p@, l@, j),
        decreases n - k,
    {
        r.push(String::new());
        k += 1;
    }
    r
}

/// A sized image made an `<img>` element: the text before it, its address, width and
/// height, and the text after it.
pub open spec fn sized_image(front: Seq<char>, url: Seq<char>, rx: Seq<char>, ry: Seq<char>, back: Seq<char>) -> Seq<char> {
    front + "<img src=\""@ + url + "\" alt=\"\" class=\"md-image md-image\" width=\""@ + rx + "\" height=\""@
        + ry + "\">"@ + back
}

/// An image without a size made an `<img>` element followed by the rest of the line and
/// a `<br>`.
pub open spec fn plain_image(front: Seq<char>, url: Seq<char>, back: Seq<char>) -> Seq<char> {
    front + "<img src=\""@ + url + "\" alt=\"\" class=\"md-image md-image\">"@ + back + "<br>"@
}

/// One image of a line made an `<img>` element: a sized image `![..](url =WxH)` (the
/// line matching `*![*](*=*x*)*`) gets `width` and `height` (see `sized_image`); any
/// other gets a `<br>` after the rest of the line (see `plain_image`). The parts come
/// from the last match of the capturing pattern (empty where it does not match).
pub open spec fn spec_convert_image(l: Seq<char>) -> Seq<char> {
    if glob(IMAGE_SIZED_GLOB@, l) {
        let g = |k: int| last_group(IMAGE_SIZED_CAPTURE@, l, k);
        sized_image(g(1), g(2), g(3), g(4), g(5))
    } else {
        let g = |k: int| last_group(IMAGE_CAPTURE@, l, k);
        plain_image(g(1), g(2), g(3))
    }
}

/// A sized image made an `<img>` element (see `sized_image`).
pub fn sized_image_element(front: &str, url: &str, rx: &str, ry: &str, back: &str) -> (r: String)
    ensures
        r@ == sized_image(front@, url@, rx@, ry@, back@),
{
    let mut out: Vec<char> = to_chars(front);
    append_str(&mut out, "<img src=\"");
    append_str(&mut out, url);
    append_str(&mut out, "\" alt=\"\" class=\"md-image md-image\" width=\"");
    append_str(&mut out, rx);
    append_str(&mut out, "\" height=\"");
    append_str(&mut out, ry);
    append_str(&mut out, "\">");
    append_str(&mut out, back);
    from_chars(out.as_slice())
}

/// An image without a size made an `<img>` element (see `plain_image`).
pub fn plain_image_element(front: &str, url: &str, back: &str) -> (r: String)
    ensures
        r@ == plain_image(front@, url@, back@),
{
    let mut out: Vec<char> = to_chars(front);
    append_str(&mut out, "<img src=\"");
    append_str(&mut out, url);
    append_str(&mut out, "\" alt=\"\" class=\"md-image md-image\">");
    append_str(&mut out, back);
    append_str(&mut out, "<br>");
    from_chars(out.as_slice())
}

/// One image of a line made an `<img>` element (see `spec_convert_image`).
pub fn convert_image(l: &str) -> (r: String)
    ensures
        r@ == spec_convert_image(l@),
{
    let lc = to_chars(l);
    if glob_chars(IMAGE_SIZED_GLOB, lc.as_slice()) {
        let g = last_groups(IMAGE_SIZED_CAPTURE, l, 6);
        sized_image_element(g[1].as_str(), g[2].as_str(), g[3].as_str(), g[4].as_str(), g[5].as_str())
    } else {
        let g = last_groups(IMAGE_CAPTURE, l, 4);
        plain_image_element(g[1].as_str(), g[2].as_str(), g[3].as_str())
    }
}

/// Image conversion repeated while the line holds an image, at most `fuel` times.
pub open spec fn images_converted(s: Seq<char>, fuel: nat) -> Seq<char>
    decreases fuel,
{
    if fuel == 0 || !spec_is_image(s) {
        s
    } else {
        images_converted(spec_convert_image(s), (fuel - 1) as nat)
    }
}

/// A line with its images converted one after the other (as many rounds as the line
/// has characters, plus one).
pub open spec fn image_line(l: Seq<char>) -> Seq<char> {
    images_converted(l, l.len() + 1)
}

/// Where each image conversion of a line that holds an image leaves fewer `![` in it,
/// the repeated conversion stops because no image is left, not because its rounds ran
/// out, as soon as it has more rounds than the line has `![`; more rounds then give the
/// same line, and the rounds of `image_line` (the line's length plus one) are enough.
pub proof fn law_image_rounds_enough(s: Seq<char>, fuel: nat)
    requires
        forall|x: Seq<char>|
            #[trigger] spec_is_image(x) ==> count_sub(spec_convert_image(x), "!["@) < count_sub(x, "!["@),
        fuel > count_sub(s, "!["@),
    ensures
        !spec_is_image(images_converted(s, fuel)),
        images_converted(s, fuel) == image_line(s),
{
    lemma_count_sub_le_len(s, "!["@);
    lemma_images_settle(s, fuel);
    lemma_images_settle(s, (s.len() + 1) as nat);
}

/// With rounds enough (see `law_image_rounds_enough`), the converted line holds no image
/// and does not depend on the number of rounds.
proof fn lemma_images_settle(s: Seq<char>, fuel: nat)
    requires
        forall|x: Seq<char>|
            #[trigger] spec_is_image(x) ==> count_sub(spec_convert_image(x), "!["@) < count_sub(x, "!["@),
        fuel > count_sub(s, "!["@),
    ensures
        !spec_is_image(images_converted(s, fuel)),
        images_converted(s, fuel) == images_converted(s, (count_sub(s, "!["@) + 1) as nat),
    decreases fuel,
{
    let n = count_sub(s, "!["@);
    if spec_is_image(s) {
        let r = spec_convert_image(s);
        lemma_images_settle(r, (fuel - 1) as nat);
        lemma_images_settle(r, n);
        assert(images_converted(s, (n + 1) as nat) == images_converted(r, n));
    }
}

/// The page with the images of each line made `<img>` elements.
pub open spec fn spec_convert_html_image(md: Seq<char>) -> Seq<char> {
    join_lines(lines_of(md).map_values(|l: Seq<char>| image_line(l)))
}

/// A line with its images converted (see `image_line`).
fn convert_image_line(l: &[char]) -> (r: Vec<char>)
    ensures
        r@ == image_line(l@),
{
    let mut res = from_chars(l);
    let fuel0 = l.len();
    let mut fuel: usize = fuel0;
    let mut go = true;
    while go
        invariant
            fuel <= fuel0,
            go ==> image_line(l@) == images_converted(res@, (fuel + 1) as nat),
            !go ==> image_line(l@) == res@,
        decreases fuel + if go { 1int } else { 0int },
    {
        if !is_image(res.as_str()) {
            go = false;
        } else {
            res = convert_image(res.as_str());
            if fuel == 0 {
                go = false;
                assert(images_converted(res@, 0) == res@);
            } else {
                fuel -= 1;
            }
        }
    }
    to_chars(res.as_str())
}

/// The page with its images converted (see `spec_convert_html_image`).
pub fn convert_html_image(md: &str) -> (r: String)
    ensures
        r@ == spec_convert_html_image(md@),
{
    let lines = lines_str(md);
    let ghost ls = views(lines@);
    let mut out: Vec<Vec<char>> = Vec::new();
    let mut i: usize = 0;
    while i < lines.len()
        invariant
            i <= lines@.len(),
            ls == views(lines@),
            views(out@) == ls.take(i as int).map_values(|l: Seq<char>| image_line(l)),
        decreases lines@.len() - i,
    {
        assert(ls[i as int] == lines@[i as int]@);
        let ghost before = views(out@);
        push_line(&mut out, convert_image_line(lines[i].as_slice()));
        assert(views(out@) =~= ls.take(i + 1).map_values(|l: Seq<char>| image_line(l)));
        i += 1;
    }
    assert(ls.take(lines@.len() as int) == ls);
    join_string(&out)
}

/// What one line of the page gives in the quote conversion, with the number of
/// quote levels open (`q`) and the depth of the line before (`old`): the lines written,
/// and the new `q` and `old`. A quote line (starting with `>` once trimmed) of depth
/// `cnt` (the number of `>` in it) has its `>` removed and its links converted; at the
/// same depth it gets a `<br/>`; shallower, the extra levels are closed on a line of
/// their own; deeper, `cnt` levels are opened (all of them on a line of `<blockquote>`s
/// where none was open, one otherwise). An empty line closes every open level; any other
/// line closes them on a line of its own and stays as it is.
pub open spec fn quote_step(l: Seq<char>, q: nat, old: nat) -> (Seq<Seq<char>>, nat, nat) {
    if starts_with(trim(l), ">"@) {
        let cnt = count_char(l, '>');
        let mz = spec_line_exec(replace(l, ">"@, ""@));
        if old == cnt {
            (seq![mz + "<br/>"@], q, cnt)
        } else if old > cnt {
            (seq![repeat("</blockquote>"@, (old - cnt) as nat), mz], (q - (old - cnt)) as nat, cnt)
        } else if q == 0 {
            let tail = if mz.len() == 0 { seq![] } else { "<br/>"@ };
            (seq![repeat("<blockquote>\n"@, cnt) + mz + tail], q + cnt, cnt)
        } else {
            (seq!["<blockquote>\n"@ + mz + "<br/>"@], q + cnt, cnt)
        }
    } else if trim(l).len() == 0 {
        (seq![repeat("</blockquote>"@, q)], 0, 0)
    } else if q != 0 {
        (seq![repeat("</blockquote>"@, q), l], 0, 0)
    } else {
        (seq![l], 0, 0)
    }
}

/// The quote conversion of the lines from `i` on, with `q` levels open and the line
/// before at depth `old`; the levels still open at the end are closed on a last line.
pub open spec fn quote_from(ls: Seq<Seq<char>>, i: int, q: nat, old: nat) -> Seq<Seq<char>>
    decreases ls.len() - i,
{
    if i < 0 || i >= ls.len() {
        if q != 0 {
            seq![repeat("</blockquote>"@, q)]
        } else {
            seq![]
        }
    } else {
        let (out, q2, o2) = quote_step(ls[i], q, old);
        out + quote_from(ls, i + 1, q2, o2)
    }
}

/// The page with its `>` quotes made nested `<blockquote>` elements (see `quote_step`).
pub open spec fn spec_convert_html_quote(md: Seq<char>) -> Seq<char> {
    join_lines(quote_from(lines_of(md), 0, 0, 0))
}

/// Whether the link conversion of every quote line of the page (its `>` removed) has a
/// result at every step (see `line_links_fit`).
pub open spec fn quote_links_fit(md: Seq<char>) -> bool {
    forall|i: int|
        0 <= i < lines_of(md).len() && starts_with(trim(lines_of(md)[i]), ">"@) ==> line_links_fit(
            replace(#[trigger] lines_of(md)[i], ">"@, ""@),
        )
}

/// Whether the link conversion of every quote line has a result at every step (see
/// `quote_links_fit`).
pub fn can_convert_quotes(md: &str) -> (b: bool)
    ensures
        b == quote_links_fit(md@),
{
    let lines = lines_str(md);
    let ghost ls = views(lines@);
    let mut i: usize = 0;
    while i < lines.len()
        invariant
            i <= lines@.len(),
            ls == views(lines@),
            ls == lines_of(md@),
            forall|j: int|
                0 <= j < i && starts_with(trim(ls[j]), ">"@) ==> line_links_fit(replace(#[trigger] ls[j], ">"@, ""@)),
        decreases lines@.len() - i,
    {
        assert(ls[i as int] == lines@[i as int]@);
        let l = lines[i].as_slice();
        let t = trim_chars(l);
        if starts_with_str(t.as_slice(), ">") {
            let mz0 = replace_str(l, ">", "");
            let mzs = from_chars(mz0.as_slice());
            if !line_links_can_convert(mzs.as_str()) {
                return false;
            }
        }
        i += 1;
    }
    true
}

/// The page with its quotes converted (see `spec_convert_html_quote`); the links of
/// every quote line must convert (see `quote_links_fit` and `can_convert_quotes`).
pub fn convert_html_quote(md: &str) -> (r: String)
    requires
        quote_links_fit(md@),
    ensures
        r@ == spec_convert_html_quote(md@),
{
    let mc = to_chars(md);
    let lines = split_lines(mc.as_slice());
    let ghost ls = views(lines@);
    proof {
        lemma_lines_len(md@);
    }
    let mut out: Vec<Vec<char>> = Vec::new();
    let mut q: usize = 0;
    let mut old: usize = 0;
    let mut i: usize = 0;
    while i < lines.len()
        invariant
            i <= lines@.len(),
            ls == views(lines@),
            sum_lens(ls) <= mc@.len(),
            old <= q,
            q <= sum_lens(ls.take(i as int)),
            ls == lines_of(md@),
            quote_links_fit(md@),
            quote_from(ls, 0, 0, 0) == views(out@) + quote_from(ls, i as int, q as nat, old as nat),
        decreases lines@.len() - i,
    {
        assert(ls[i as int] == lines@[i as int]@);
        let ghost before = views(out@);
        let ghost (q0, o0) = (q as nat, old as nat);
        let l = lines[i].as_slice();
        proof {
            lemma_sum_lens_prefix(ls, i + 1);
            assert(ls.take(i + 1).drop_last() =~= ls.take(i as int));
            lemma_count_char_len(l@, '>');
            assert(ls.take(i + 1).last() == ls[i as int]);
            assert(sum_lens(ls.take(i + 1)) == sum_lens(ls.take(i as int)) + l@.len());
            assert(mc@.len() == mc.len());
        }
        let t = trim_chars(l);
        if starts_with_str(t.as_slice(), ">") {
            let cnt = count_chars(l, '>');
            let mz0 = replace_str(l, ">", "");
            assert(line_links_fit(replace(ls[i as int], ">"@, ""@)));
            let mzs = from_chars(mz0.as_slice());
            let mz = to_chars(line_exec(mzs.as_str()).as_str());
            if old == cnt {
                let mut line = copy_chars(mz.as_slice());
                append_str(&mut line, "<br/>");
                push_line(&mut out, line);
            } else if old > cnt {
                let sa = old - cnt;
                push_line(&mut out, repeat_str("</blockquote>", sa));
                q = q - sa;
                push_line(&mut out, mz);
            } else {
                let mut line: Vec<char>;
                if q == 0 {
                    line = repeat_str("<blockquote>\n", cnt);
                    append_chars(&mut line, mz.as_slice());
                    if mz.len() != 0 {
                        append_str(&mut line, "<br/>");
                    }
                } else {
                    line = to_chars("<blockquote>\n");
                    append_chars(&mut line, mz.as_slice());
                    append_str(&mut line, "<br/>");
                }
                q = q + cnt;
                push_line(&mut out, line);
            }
            old = cnt;
        } else if t.len() == 0 {
            push_line(&mut out, repeat_str("</blockquote>", q));
            q = 0;
            old = 0;
        } else {
            if q != 0 {
                push_line(&mut out, repeat_str("</blockquote>", q));
            }
            push_line(&mut out, copy_chars(l));
            q = 0;
            old = 0;
        }
        assert(views(out@) + quote_from(ls, i + 1, q as nat, old as nat) =~= before + quote_from(
            ls,
            i as int,
            q0,
            o0,
        ));
        i += 1;
    }
    let ghost before = views(out@);
    assert(quote_from(ls, i as int, q as nat, old as nat) == (if q != 0 {
        seq![repeat("</blockquote>"@, q as nat)]
    } else {
        Seq::<Seq<char>>::empty()
    }));
    if q != 0 {
        push_line(&mut out, repeat_str("</blockquote>", q));
    }
    assert(views(out@) =~= before + quote_from(ls, i as int, q as nat, old as nat));
    join_string(&out)
}

/// The first line of a page script.
pub const SCRIPT_OPEN: &'static str = "<script type=\"text/javascript\">";

/// A header element line.
pub const HEADER_ELEMENT: &'static str = "<h* id=*>";

/// Line `i` of the page in the line-break conversion, `inside` telling whether it lies
/// in a script or in code: there, on the last line, and before a header element or a
/// rule it stays as it is; elsewhere it gets a `<br>` when `spec_is_line_newline` says so.
pub open spec fn newline_line(ls: Seq<Seq<char>>, i: int, inside: bool) -> Seq<char> {
    let l = ls[i];
    if inside || i == ls.len() - 1 {
        l
    } else if glob(HEADER_ELEMENT@, ls[i + 1]) || ls[i + 1] == "<hr></hr>"@ {
        l
    } else if spec_is_line_newline(l) {
        l + "<br>"@
    } else {
        l
    }
}

/// The line-break conversion of the lines from `i` on; `script` and `code` tell whether
/// a script or code is open. A script opens at a line starting with `SCRIPT_OPEN` and
/// closes after a line starting with `</script>`; code opens at a line holding
/// `<pre><code>` and closes after one holding `</code></pre>`.
pub open spec fn newline_from(ls: Seq<Seq<char>>, i: int, script: bool, code: bool) -> Seq<Seq<char>>
    decreases ls.len() - i,
{
    if i < 0 || i >= ls.len() {
        seq![]
    } else {
        let l = ls[i];
        let s1 = script || starts_with(l, SCRIPT_OPEN@);
        let c1 = code || contains(l, "<pre><code>"@);
        let s2 = if starts_with(l, "</script>"@) { false } else { s1 };
        let c2 = if contains(l, "</code></pre>"@) { false } else { c1 };
        seq![newline_line(ls, i, s1 || c1)] + newline_from(ls, i + 1, s2, c2)
    }
}

/// The page with `<br>` after the lines that end a line of text (see `newline_from`).
pub open spec fn spec_convert_html_newline(md: Seq<char>) -> Seq<char> {
    join_lines(newline_from(lines_of(md), 0, false, false))
}

/// The page with its line breaks made `<br>` (see `spec_convert_html_newline`).
pub fn convert_html_newline(md: &str) -> (r: String)
    ensures
        r@ == spec_convert_html_newline(md@),
{
    let lines = lines_str(md);
    let ghost ls = views(lines@);
    let mut out: Vec<Vec<char>> = Vec::new();
    let mut script = false;
    let mut code = false;
    let mut i: usize = 0;
    while i < lines.len()
        invariant
            i <= lines@.len(),
            ls == views(lines@),
            newline_from(ls, 0, false, false) == views(out@) + newline_from(ls, i as int, script, code),
        decreases lines@.len() - i,
    {
        assert(ls[i as int] == lines@[i as int]@);
        let ghost before = views(out@);
        let ghost (s0, c0) = (script, code);
        let l = lines[i].as_slice();
        if starts_with_str(l, SCRIPT_OPEN) {
            script = true;
        }
        if contains_str(l, "<pre><code>") {
            code = true;
        }
        let mut line = copy_chars(l);
        if !(script || code) && i + 1 < lines.len() {
            let next = lines[i + 1].as_slice();
            assert(ls[i + 1] == next@);
            if !(glob_chars(HEADER_ELEMENT, next) || eq_str(next, "<hr></hr>")) {
                let ls_str = from_chars(l);
                if is_line_newline(ls_str.as_str()) {
                    append_str(&mut line, "<br>");
                }
            }
        }
        push_line(&mut out, line);
        if starts_with_str(l, "</script>") {
            script = false;
        }
        if contains_str(l, "</code></pre>") {
            code = false;
        }
        assert(views(out@) + newline_from(ls, i + 1, script, code) =~= before + newline_from(
            ls,
            i as int,
            s0,
            c0,
        ));
        i += 1;
    }
    assert(views(out@) + newline_from(ls, i as int, script, code) =~= views(out@));
    join_string(&out)
}

/// The cells of a table line (trimmed, starting with `|`): the pieces between its `|`s,
/// without the piece before the first and the piece after the last.
pub open spec fn table_cells(t: Seq<char>) -> Seq<Seq<char>> {
    let ps = split_char(t, '|');
    if ps.len() >= 2 {
        ps.subrange(1, ps.len() - 1)
    } else {
        seq![]
    }
}

/// The alignment that a cell of a table's second line sets for its column: `:..:` is
/// centred, `..-:` right, anything else left.
pub open spec fn cell_align(t: Seq<char>) -> Seq<char> {
    if glob("*:*:*"@, t) {
        "center"@
    } else if glob("*-:*"@, t) {
        "right"@
    } else {
        "left"@
    }
}

/// A table can be made: it has a second line (the alignment line), and no other line
/// has more cells than that one.
pub open spec fn table_fits(rows: Seq<Seq<Seq<char>>>) -> bool {
    &&& rows.len() >= 2
    &&& forall|k: int| 0 <= k < rows.len() && k != 1 ==> #[trigger] rows[k].len() <= rows[1].len()
}

/// A wildcard pattern `*c<rest>` matches only a text that holds `c` (its first plain
/// character) somewhere.
proof fn lemma_glob_star_char(c: char, rest: Seq<char>, t: Seq<char>) -> (i: int)
    requires
        glob(seq!['*', c] + rest, t),
        c != '*',
        c != '?',
    ensures
        0 <= i < t.len(),
        t[i] == c,
{
    assert(seq!['*', c] + rest =~= seq!['*'] + (seq![c] + rest));
    let i = lemma_glob_star_front(seq![c] + rest, t);
    lemma_glob_plain_front(seq![c], rest, t.skip(i));
    assert(t.skip(i).take(1)[0] == t[i]);
    i
}

/// The alignment that a column gets from its cell on the alignment line: a cell without
/// `:` leaves the column left-aligned; a centred column has a cell with two `:`, and a
/// right-aligned one a cell with `-:`; any other cell leaves it left-aligned.
pub proof fn law_cell_align(t: Seq<char>)
    ensures
        (forall|k: int| 0 <= k < t.len() ==> t[k] != ':') ==> cell_align(t) == "left"@,
        cell_align(t) == "center"@ ==> exists|i: int, j: int| 0 <= i < j < t.len() && #[trigger] t[i] == ':' && #[trigger] t[j] == ':',
        cell_align(t) == "right"@ ==> exists|i: int| 0 <= i && i + 1 < t.len() && #[trigger] t[i] == '-' && t[i + 1] == ':',
        cell_align(t) == "left"@ || cell_align(t) == "center"@ || cell_align(t) == "right"@,
{
    reveal_strlit("*:*:*");
    reveal_strlit("*-:*");
    reveal_strlit("left");
    reveal_strlit("center");
    reveal_strlit("right");
    if glob("*:*:*"@, t) {
        assert("*:*:*"@ =~= seq!['*', ':'] + "*:*"@) by {
            reveal_strlit("*:*");
        }
        let i = lemma_glob_star_char(':', "*:*"@, t);
        assert("*:*:*"@ =~= seq!['*'] + (seq![':'] + "*:*"@));
        let i0 = lemma_glob_star_front(seq![':'] + "*:*"@, t);
        lemma_glob_plain_front(seq![':'], "*:*"@, t.skip(i0));
        assert(t.skip(i0).take(1)[0] == t[i0]);
        let t2 = t.skip(i0 + 1);
        assert(t.skip(i0).skip(1) =~= t2);
        reveal_strlit("*:*");
        assert("*:*"@ =~= seq!['*', ':'] + "*"@) by {
            reveal_strlit("*");
        }
        let j0 = lemma_glob_star_char(':', "*"@, t2);
        assert(t2[j0] == t[i0 + 1 + j0]);
        assert(t[i0 + 1 + j0] == ':');
        assert(t[i0] == ':');
        assert(exists|i: int, j: int| 0 <= i < j < t.len() && #[trigger] t[i] == ':' && #[trigger] t[j] == ':');
    } else if glob("*-:*"@, t) {
        assert("*-:*"@ =~= seq!['*'] + (seq!['-', ':'] + "*"@)) by {
            reveal_strlit("*");
        }
        let i0 = lemma_glob_star_front(seq!['-', ':'] + "*"@, t);
        lemma_glob_plain_front(seq!['-', ':'], "*"@, t.skip(i0));
        assert(t.skip(i0).take(2)[0] == t[i0]);
        assert(t.skip(i0).take(2)[1] == t[i0 + 1]);
        assert(t[i0] == '-' && t[i0 + 1] == ':');
        assert(exists|i: int| 0 <= i && i + 1 < t.len() && #[trigger] t[i] == '-' && t[i + 1] == ':');
    }
    assert("left"@.len() == 4 && "center"@.len() == 6 && "right"@.len() == 5);
    assert("left"@ != "center"@ && "right"@ != "center"@ && "left"@ != "right"@);
    assert(cell_align(t) == "center"@ ==> glob("*:*:*"@, t));
    assert(cell_align(t) == "right"@ ==> glob("*-:*"@, t));
    if forall|k: int| 0 <= k < t.len() ==> t[k] != ':' {
        if glob("*-:*"@, t) {
            let i0 = lemma_glob_star_front(seq!['-', ':'] + "*"@, t);
            lemma_glob_plain_front(seq!['-', ':'], "*"@, t.skip(i0));
            assert(t.skip(i0).take(2)[1] == t[i0 + 1]);
            assert(false);
        }
    }
}

/// A table cell element `<tag style="text-align:al">t</tag>`.
pub open spec fn cell_html(tag: Seq<char>, al: Seq<char>, t: Seq<char>) -> Seq<char> {
    "<"@ + tag + " style=\"text-align:"@ + al + "\">"@ + t + "</"@ + tag + ">"@
}

/// The cell lines of one table line, each with its column's alignment.
pub open spec fn cells_html(tag: Seq<char>, als: Seq<Seq<char>>, row: Seq<Seq<char>>) -> Seq<Seq<char>> {
    Seq::new(row.len(), |k: int| cell_html(tag, als[k], row[k]))
}

/// The HTML lines of table line `i`: the first is the head (opening the table), the
/// second (the alignment line) gives nothing, the others are body rows; after the last
/// line (unless it is the alignment line) the table is closed.
pub open spec fn row_html(rows: Seq<Seq<Seq<char>>>, als: Seq<Seq<char>>, i: int) -> Seq<Seq<char>> {
    let body = if i == 0 {
        seq!["<table>"@, "<thead>"@, "<tr>"@] + cells_html("th"@, als, rows[0]) + seq![
            "</tr>"@,
            "</thead>"@,
        ]
    } else {
        seq!["<tr>"@] + cells_html("td"@, als, rows[i]) + seq!["</tr>"@]
    };
    let end = if i == rows.len() - 1 {
        seq!["</table>"@, "</thead>"@]
    } else {
        seq![]
    };
    if i == 1 {
        seq![]
    } else {
        body + end
    }
}

/// The HTML lines of the table lines from `i` on.
pub open spec fn rows_html(rows: Seq<Seq<Seq<char>>>, als: Seq<Seq<char>>, i: int) -> Seq<Seq<char>>
    decreases rows.len() - i,
{
    if i < 0 || i >= rows.len() {
        seq![]
    } else {
        row_html(rows, als, i) + rows_html(rows, als, i + 1)
    }
}

/// The HTML lines of a table, `None` where it cannot be made (see `table_fits`).
pub open spec fn table_html(rows: Seq<Seq<Seq<char>>>) -> Option<Seq<Seq<char>>> {
    if table_fits(rows) {
        Some(rows_html(rows, rows[1].map_values(|t: Seq<char>| cell_align(t)), 0))
    } else {
        None
    }
}

/// In a table whose alignment line has no `:`, every head cell is written left-aligned:
/// the line after `<table>`, `<thead>`, `<tr>` for head cell `k` is
/// `<th style="text-align:left">` with the cell's text and `</th>`.
pub proof fn law_plain_table_head_left(rows: Seq<Seq<Seq<char>>>)
    requires
        table_fits(rows),
        forall|k: int, c: int|
            0 <= k < rows[1].len() && 0 <= c < rows[1][k].len() ==> #[trigger] rows[1][k][c] != ':',
    ensures
        table_html(rows) is Some,
        forall|k: int|
            0 <= k < rows[0].len() ==> table_html(rows)->0[3 + k] == "<th style=\"text-align:left\">"@
                + #[trigger] rows[0][k] + "</th>"@,
{
    reveal_strlit("<");
    reveal_strlit("th");
    reveal_strlit(" style=\"text-align:");
    reveal_strlit("left");
    reveal_strlit("\">");
    reveal_strlit("</");
    reveal_strlit(">");
    reveal_strlit("<th style=\"text-align:left\">");
    reveal_strlit("</th>");
    let als = rows[1].map_values(|t: Seq<char>| cell_align(t));
    let all = rows_html(rows, als, 0);
    let head = row_html(rows, als, 0);
    assert(all == head + rows_html(rows, als, 1));
    let cells = cells_html("th"@, als, rows[0]);
    let body = seq!["<table>"@, "<thead>"@, "<tr>"@] + cells + seq!["</tr>"@, "</thead>"@];
    let end = if 0 == rows.len() - 1 { seq!["</table>"@, "</thead>"@] } else { Seq::<Seq<char>>::empty() };
    assert(head == body + end);
    assert forall|k: int| 0 <= k < rows[0].len() implies all[3 + k] == "<th style=\"text-align:left\">"@
        + #[trigger] rows[0][k] + "</th>"@ by {
        assert(rows[0].len() <= rows[1].len());
        law_cell_align(rows[1][k]);
        assert(forall|c: int| 0 <= c < rows[1][k].len() ==> rows[1][k][c] != ':');
        assert(als[k] == "left"@);
        assert(body[3 + k] == cells[k]);
        assert(head[3 + k] == body[3 + k]);
        assert(all[3 + k] == head[3 + k]);
        assert(cells[k] == cell_html("th"@, "left"@, rows[0][k]));
        assert(cell_html("th"@, "left"@, rows[0][k]) =~= "<th style=\"text-align:left\">"@ + rows[0][k] + "</th>"@);
    }
}

/// The character sequences of the cells of some table lines.
pub open spec fn rows_view(rows: Seq<Vec<Vec<char>>>) -> Seq<Seq<Seq<char>>> {
    rows.map_values(|r: Vec<Vec<char>>| views(r@))
}

/// The cell lines of one table line.
fn push_cells(out: &mut Vec<Vec<char>>, tag: &str, als: &Vec<Vec<char>>, row: &Vec<Vec<char>>)
    requires
        row@.len() <= als@.len(),
    ensures
        views(final(out)@) == views(old(out)@) + cells_html(tag@, views(als@), views(row@)),
{
    let ghost want = cells_html(tag@, views(als@), views(row@));
    let mut k: usize = 0;
    while k < row.len()
        invariant
            k <= row@.len() <= als@.len(),
            want == cells_html(tag@, views(als@), views(row@)),
            views(out@) == views(old(out)@) + want.take(k as int),
        decreases row@.len() - k,
    {
        let mut c = to_chars("<");
        append_str(&mut c, tag);
        append_str(&mut c, " style=\"text-align:");
        append_chars(&mut c, als[k].as_slice());
        append_str(&mut c, "\">");
        append_chars(&mut c, row[k].as_slice());
        append_str(&mut c, "</");
        append_str(&mut c, tag);
        append_str(&mut c, ">");
        assert(c@ == want[k as int]);
        push_line(out, c);
        assert(want.take(k + 1) == want.take(k as int).push(want[k as int]));
        k += 1;
    }
    assert(want.take(row@.len() as int) == want);
}

/// The table made of some table lines, added to `html_lines` (see `table_html`).
pub fn create_table(table_lines: &Vec<Vec<Vec<char>>>, html_lines: &mut Vec<Vec<char>>)
    requires
        table_fits(rows_view(table_lines@)),
    ensures
        views(final(html_lines)@) == views(old(html_lines)@) + table_html(rows_view(table_lines@))->0,
{
    let ghost rows = rows_view(table_lines@);
    assert(rows[1] == views(table_lines@[1]@));
    let align_line = &table_lines[1];
    let mut als: Vec<Vec<char>> = Vec::new();
    let mut k: usize = 0;
    while k < align_line.len()
        invariant
            k <= align_line@.len(),
            views(als@) == views(align_line@).take(k as int).map_values(|t: Seq<char>| cell_align(t)),
        decreases align_line@.len() - k,
    {
        let t = align_line[k].as_slice();
        let a = if glob_chars("*:*:*", t) {
            "center"
        } else if glob_chars("*-:*", t) {
            "right"
        } else {
            "left"
        };
        push_str_line(&mut als, a);
        assert(views(als@) =~= views(align_line@).take(k + 1).map_values(|t: Seq<char>| cell_align(t)));
        k += 1;
    }
    assert(views(align_line@).take(align_line@.len() as int) == views(align_line@));
    let ghost av = views(als@);
    assert(av == rows[1].map_values(|t: Seq<char>| cell_align(t)));
    let n = table_lines.len();
    let mut i: usize = 0;
    while i < n
        invariant
            n == table_lines@.len(),
            i <= n,
            rows == rows_view(table_lines@),
            table_fits(rows),
            av == views(als@),
            av.len() == rows[1].len(),
            rows_html(rows, av, 0) == views(html_lines@).subrange(
                views(old(html_lines)@).len() as int,
                views(html_lines@).len() as int,
            ) + rows_html(rows, av, i as int),
            views(old(html_lines)@).is_prefix_of(views(html_lines@)),
        decreases n - i,
    {
        let ghost before = views(html_lines@);
        assert(rows[i as int] == views(table_lines@[i as int]@));
        assert(rows[i as int].len() <= rows[1].len());
        if i != 1 {
            if i == 0 {
                push_str_line(html_lines, "<table>");
                push_str_line(html_lines, "<thead>");
                push_str_line(html_lines, "<tr>");
                push_cells(html_lines, "th", &als, &table_lines[0]);
                push_str_line(html_lines, "</tr>");
                push_str_line(html_lines, "</thead>");
            } else {
                push_str_line(html_lines, "<tr>");
                push_cells(html_lines, "td", &als, &table_lines[i]);
                push_str_line(html_lines, "</tr>");
            }
            if i == n - 1 {
                push_str_line(html_lines, "</table>");
                push_str_line(html_lines, "</thead>");
            }
        }
        assert(views(html_lines@) =~= before + row_html(rows, av, i as int));
        i += 1;
    }
    assert(views(html_lines@) =~= views(old(html_lines)@) + views(html_lines@).subrange(
        views(old(html_lines)@).len() as int,
        views(html_lines@).len() as int,
    ));
}

/// `a` in front of the lines of `o`, if there are any.
pub open spec fn prefixed(a: Seq<Seq<char>>, o: Option<Seq<Seq<char>>>) -> Option<Seq<Seq<char>>> {
    match o {
        Some(r) => Some(a + r),
        None => None,
    }
}

/// Whether a line is a table line: trimmed it starts with `|`, and it holds more than
/// one `|`.
pub open spec fn is_table_line(l: Seq<char>) -> bool {
    starts_with(trim(l), "|"@) && count_char(l, '|') > 1
}

/// The table conversion of the lines from `i` on. `in_table` tells whether a table is
/// being read, `code` whether a code block (opened and closed by lines starting with
/// ```` ``` ````) is open, and `rows` holds the cells of the table lines read so far. A
/// line that does not start with `|` ends the table being read, which is written out; a
/// table line outside code is read into the table; any other line stays as it is. A
/// table still being read at the end is written out. `None` where a table cannot be made.
pub open spec fn table_from(
    ls: Seq<Seq<char>>,
    i: int,
    in_table: bool,
    code: bool,
    rows: Seq<Seq<Seq<char>>>,
) -> Option<Seq<Seq<char>>>
    decreases ls.len() - i,
{
    if i < 0 || i >= ls.len() {
        if rows.len() != 0 && in_table {
            table_html(rows)
        } else {
            Some(seq![])
        }
    } else {
        let l = ls[i];
        let t = trim(l);
        let code1 = if starts_with(t, "```"@) { !code } else { code };
        let ends = !starts_with(t, "|"@);
        let written = if ends && in_table { table_html(rows) } else { Some(seq![]) };
        let tab1 = if ends { false } else { in_table };
        let rows1 = if ends { seq![] } else { rows };
        let rest = if is_table_line(l) && !code1 {
            prefixed(seq![], table_from(ls, i + 1, true, code1, rows1.push(table_cells(t))))
        } else {
            prefixed(seq![l], table_from(ls, i + 1, tab1, code1, rows1))
        };
        match written {
            Some(w) => prefixed(w, rest),
            None => None,
        }
    }
}

/// The page with its `|` tables made `<table>` elements, `None` where a table cannot be
/// made (see `table_from`).
pub open spec fn table_page(md: Seq<char>) -> Option<Seq<Seq<char>>> {
    table_from(lines_of(md), 0, false, false, seq![])
}

/// The page with its tables converted (see `table_from`).
pub open spec fn spec_convert_html_table(md: Seq<char>) -> Seq<char> {
    join_lines(table_page(md)->0)
}

/// Whether every table of the page can be made: it has an alignment line, and no line of
/// it has more cells than that one.
pub open spec fn tables_fit(md: Seq<char>) -> bool {
    table_page(md) is Some
}

/// The tables that the table conversion reads from line `i` on, each as the cells of
/// its lines, in the order in which it writes them (see `table_from`, whose state the
/// arguments are).
pub open spec fn tables_from(
    ls: Seq<Seq<char>>,
    i: int,
    in_table: bool,
    code: bool,
    rows: Seq<Seq<Seq<char>>>,
) -> Seq<Seq<Seq<Seq<char>>>>
    decreases ls.len() - i,
{
    if i < 0 || i >= ls.len() {
        if rows.len() != 0 && in_table {
            seq![rows]
        } else {
            seq![]
        }
    } else {
        let l = ls[i];
        let t = trim(l);
        let code1 = if starts_with(t, "```"@) { !code } else { code };
        let ends = !starts_with(t, "|"@);
        let written = if ends && in_table { seq![rows] } else { seq![] };
        let tab1 = if ends { false } else { in_table };
        let rows1 = if ends { seq![] } else { rows };
        let rest = if is_table_line(l) && !code1 {
            tables_from(ls, i + 1, true, code1, rows1.push(table_cells(t)))
        } else {
            tables_from(ls, i + 1, tab1, code1, rows1)
        };
        written + rest
    }
}

/// The tables of a page, each as the cells of its lines.
pub open spec fn page_tables(md: Seq<char>) -> Seq<Seq<Seq<Seq<char>>>> {
    tables_from(lines_of(md), 0, false, false, seq![])
}

/// The table conversion from line `i` on has a result exactly when each table it reads
/// can be made.
proof fn lemma_tables_from_fit(
    ls: Seq<Seq<char>>,
    i: int,
    in_table: bool,
    code: bool,
    rows: Seq<Seq<Seq<char>>>,
)
    requires
        0 <= i <= ls.len(),
    ensures
        table_from(ls, i, in_table, code, rows) is Some <==> forall|k: int|
            0 <= k < tables_from(ls, i, in_table, code, rows).len() ==> table_fits(
                #[trigger] tables_from(ls, i, in_table, code, rows)[k],
            ),
    decreases ls.len() - i,
{
    let ts = tables_from(ls, i, in_table, code, rows);
    if i < ls.len() {
        let l = ls[i];
        let t = trim(l);
        let code1 = if starts_with(t, "```"@) { !code } else { code };
        let ends = !starts_with(t, "|"@);
        let written = if ends && in_table { seq![rows] } else { Seq::<Seq<Seq<Seq<char>>>>::empty() };
        let tab1 = if ends { false } else { in_table };
        let rows1 = if ends { seq![] } else { rows };
        let (tab2, rows2) = if is_table_line(l) && !code1 {
            (true, rows1.push(table_cells(t)))
        } else {
            (tab1, rows1)
        };
        lemma_tables_from_fit(ls, i + 1, tab2, code1, rows2);
        let rest = tables_from(ls, i + 1, tab2, code1, rows2);
        assert(ts == written + rest);
        if forall|k: int| 0 <= k < ts.len() ==> table_fits(#[trigger] ts[k]) {
            assert forall|k: int| 0 <= k < rest.len() implies table_fits(#[trigger] rest[k]) by {
                assert(ts[k + written.len()] == rest[k]);
            }
            if ends && in_table {
                assert(ts[0] == rows);
            }
        }
        if table_from(ls, i, in_table, code, rows) is Some {
            assert forall|k: int| 0 <= k < ts.len() implies table_fits(#[trigger] ts[k]) by {
                if k < written.len() {
                    assert(ts[k] == rows);
                } else {
                    assert(ts[k] == rest[k - written.len()]);
                }
            }
        }
    } else {
        if rows.len() != 0 && in_table {
            assert(ts[0] == rows);
        }
    }
}

/// The tables of a page can all be made (`tables_fit`, which the table conversion asks)
/// exactly when each table the page holds has an alignment line and no line of it has
/// more cells than that one.
pub proof fn law_tables_fit(md: Seq<char>)
    ensures
        tables_fit(md) <==> forall|k: int|
            0 <= k < page_tables(md).len() ==> table_fits(#[trigger] page_tables(md)[k]),
{
    let ts = page_tables(md);
    lemma_tables_from_fit(lines_of(md), 0, false, false, seq![]);
    assert(ts == tables_from(lines_of(md), 0, false, false, seq![]));
    if tables_fit(md) {
        assert forall|k: int| 0 <= k < ts.len() implies table_fits(#[trigger] ts[k]) by {
            assert(table_fits(tables_from(lines_of(md), 0, false, false, seq![])[k]));
        }
    }
}

/// The cells of a table line.
fn table_cells_of(t: &[char]) -> (r: Vec<Vec<char>>)
    ensures
        views(r@) == table_cells(t@),
{
    let ps = split_on(t, '|');
    let n = ps.len();
    let mut r: Vec<Vec<char>> = Vec::new();
    if n >= 2 {
        let mut k: usize = 1;
        while k < n - 1
            invariant
                2 <= n == ps@.len(),
                1 <= k <= n - 1,
                views(r@) == views(ps@).subrange(1, k as int),
            decreases n - 1 - k,
        {
            push_line(&mut r, copy_chars(ps[k].as_slice()));
            assert(views(ps@).subrange(1, k + 1) =~= views(ps@).subrange(1, k as int).push(ps@[k as int]@));
            k += 1;
        }
    } else {
        assert(views(r@) =~= Seq::<Seq<char>>::empty());
    }
    r
}

/// The cell lists of some table lines, one added.
fn push_row(rows: &mut Vec<Vec<Vec<char>>>, row: Vec<Vec<char>>)
    ensures
        rows_view(final(rows)@) == rows_view(old(rows)@).push(views(row@)),
{
    rows.push(row);
    assert(rows_view(rows@) =~= rows_view(old(rows)@).push(views(row@)));
}

/// Whether every table of the page can be made (see `tables_fit`).
pub fn can_make_tables(md: &str) -> (b: bool)
    ensures
        b == tables_fit(md@),
{
    let lines = lines_str(md);
    let ghost ls = views(lines@);
    let mut in_table = false;
    let mut code = false;
    let mut rows: Vec<Vec<Vec<char>>> = Vec::new();
    assert(rows_view(rows@) =~= Seq::<Seq<Seq<char>>>::empty());
    let mut i: usize = 0;
    while i < lines.len()
        invariant
            i <= lines@.len(),
            ls == views(lines@),
            ls == lines_of(md@),
            (table_from(ls, 0, false, false, seq![]) is Some) == (table_from(
                ls,
                i as int,
                in_table,
                code,
                rows_view(rows@),
            ) is Some),
        decreases lines@.len() - i,
    {
        assert(ls[i as int] == lines@[i as int]@);
        let l = lines[i].as_slice();
        let t = trim_chars(l);
        let ghost code_before = code;
        if starts_with_str(t.as_slice(), "```") {
            code = !code;
        }
        if !starts_with_str(t.as_slice(), "|") {
            if in_table && !fits(&rows) {
                assert(table_html(rows_view(rows@)) is None);
                assert(table_from(ls, i as int, in_table, code_before, rows_view(rows@)) is None);
                return false;
            }
            rows = Vec::new();
            in_table = false;
            assert(rows_view(rows@) =~= Seq::<Seq<Seq<char>>>::empty());
        }
        if starts_with_str(t.as_slice(), "|") && count_chars(l, '|') > 1 && !code {
            push_row(&mut rows, table_cells_of(t.as_slice()));
            in_table = true;
        }
        i += 1;
    }
    !(rows.len() != 0 && in_table) || fits(&rows)
}

/// Whether a table can be made of some table lines.
fn fits(rows: &Vec<Vec<Vec<char>>>) -> (b: bool)
    ensures
        b == table_fits(rows_view(rows@)),
{
    if rows.len() < 2 {
        return false;
    }
    let w = rows[1].len();
    let mut k: usize = 0;
    while k < rows.len()
        invariant
            k <= rows@.len(),
            rows@.len() >= 2,
            w == rows@[1]@.len(),
            forall|j: int| 0 <= j < k && j != 1 ==> #[trigger] rows_view(rows@)[j].len() <= w,
        decreases rows@.len() - k,
    {
        if k != 1 && rows[k].len() > w {
            assert(rows_view(rows@)[k as int].len() > w);
            return false;
        }
        k += 1;
    }
    true
}

/// The page with its `|` tables made `<table>` elements (see `table_from`); every table
/// must fit (see `tables_fit` and `can_make_tables`).
pub fn convert_html_table(md: &str) -> (r: String)
    requires
        tables_fit(md@),
    ensures
        r@ == spec_convert_html_table(md@),
{
    let lines = lines_str(md);
    let ghost ls = views(lines@);
    let mut out: Vec<Vec<char>> = Vec::new();
    let mut in_table = false;
    let mut code = false;
    let mut rows: Vec<Vec<Vec<char>>> = Vec::new();
    assert(rows_view(rows@) =~= Seq::<Seq<Seq<char>>>::empty());
    assert(views(out@) + table_from(ls, 0, false, false, seq![])->0 =~= table_from(ls, 0, false, false, seq![])->0);
    let mut i: usize = 0;
    while i < lines.len()
        invariant
            i <= lines@.len(),
            ls == views(lines@),
            table_from(ls, 0, false, false, seq![]) is Some,
            table_from(ls, 0, false, false, seq![]) == prefixed(
                views(out@),
                table_from(ls, i as int, in_table, code, rows_view(rows@)),
            ),
        decreases lines@.len() - i,
    {
        assert(ls[i as int] == lines@[i as int]@);
        let ghost before = views(out@);
        let ghost (t0, c0, r0) = (in_table, code, rows_view(rows@));
        let l = lines[i].as_slice();
        let t = trim_chars(l);
        if starts_with_str(t.as_slice(), "```") {
            code = !code;
        }
        if !starts_with_str(t.as_slice(), "|") {
            if in_table {
                create_table(&rows, &mut out);
            }
            rows = Vec::new();
            in_table = false;
            assert(rows_view(rows@) =~= Seq::<Seq<Seq<char>>>::empty());
        }
        if starts_with_str(t.as_slice(), "|") && count_chars(l, '|') > 1 && !code {
            push_row(&mut rows, table_cells_of(t.as_slice()));
            in_table = true;
        } else {
            push_line(&mut out, copy_chars(l));
        }
        proof {
            let ghost now = table_from(ls, i + 1, in_table, code, rows_view(rows@));
            match now {
                Some(w) => {
                    assert(before + (views(out@).subrange(before.len() as int, views(out@).len() as int) + w) =~= views(out@) + w);
                },
                None => {},
            }
        }
        i += 1;
    }
    if rows.len() != 0 && in_table {
        create_table(&rows, &mut out);
    }
    join_string(&out)
}

/// The mark put at the end of the lines that a flow chart is made of, so that they are
/// not taken for text.
pub const NOTBREAK: &'static str = "<!-- -->";

/// Whether a line, with its spaces removed, is `s`.
pub open spec fn fence_is(l: Seq<char>, s: Seq<char>) -> bool {
    replace(l, " "@, ""@) == s
}

/// The first line from `i` on that is a closing fence (```` ``` ```` once its spaces
/// are removed).
pub open spec fn fence_from(ls: Seq<Seq<char>>, i: int) -> Option<int>
    decreases ls.len() - i,
{
    if i < 0 || i >= ls.len() {
        None
    } else if fence_is(ls[i], "```"@) {
        Some(i)
    } else {
        fence_from(ls, i + 1)
    }
}

/// How far after line `num` the first closing fence comes (0 when none does).
pub open spec fn spec_get_number_of_line(ls: Seq<Seq<char>>, num: int) -> nat {
    match fence_from(ls, num + 1) {
        Some(i) => (i - num) as nat,
        None => 0,
    }
}

/// Where a found fence can be.
proof fn lemma_fence_from(ls: Seq<Seq<char>>, i: int)
    requires
        0 <= i,
    ensures
        fence_from(ls, i) matches Some(j) ==> i <= j < ls.len() && fence_is(ls[j], "```"@),
    decreases ls.len() - i,
{
    if i < ls.len() && !fence_is(ls[i], "```"@) {
        lemma_fence_from(ls, i + 1);
    }
}

/// How far after line `num` the first closing fence comes (0 when none does).
pub fn get_number_of_line(lines: &Vec<Vec<char>>, num: usize) -> (r: usize)
    ensures
        r == spec_get_number_of_line(views(lines@), num as int),
{
    let ghost ls = views(lines@);
    if num >= lines.len() {
        return 0;
    }
    let mut i: usize = num + 1;
    while i < lines.len()
        invariant
            num < i <= lines@.len(),
            ls == views(lines@),
            fence_from(ls, num + 1) == fence_from(ls, i as int),
        decreases lines@.len() - i,
    {
        assert(ls[i as int] == lines@[i as int]@);
        let rl = replace_str(lines[i].as_slice(), " ", "");
        if eq_str(rl.as_slice(), "```") {
            return i - num;
        }
        i += 1;
    }
    0
}

/// The lines that open flow chart number `n`.
pub open spec fn flow_open(n: nat) -> Seq<Seq<char>> {
    let nb = NOTBREAK@;
    seq![
        "<div class=\"panel panel-default\">"@ + nb,
        "<div class=\"panel-body\">"@ + nb,
        "    <div id=\"diagram"@ + decimal(n) + "\"></div>"@ + nb,
        "    </div>"@ + nb,
        "</div>"@ + nb,
        "<script type=\"text/javascript\">"@ + nb,
        "    $(document).ready(function () {"@ + nb,
        "        var diagram = flowchart.parse("@ + nb,
    ]
}

/// The lines that close flow chart number `n`.
pub open spec fn flow_close(n: nat) -> Seq<Seq<char>> {
    let nb = NOTBREAK@;
    seq![
        "        );"@ + nb,
        "        diagram.drawSVG('diagram"@ + decimal(n) + "');"@ + nb,
        "     });"@ + nb,
        "</script>"@ + nb,
    ]
}

/// A line of a flow chart's source as a piece of a script string: `'`, three tabs, the
/// line, a written `\n` and `'`, then ` +` unless the next line closes the chart.
pub open spec fn flow_piece(l: Seq<char>, last: bool) -> Seq<char> {
    "'\t\t\t"@ + l + (if last { "\\n'"@ } else { "\\n' +"@ }) + NOTBREAK@
}

/// The flow chart conversion of the lines from `i` on: `on` tells whether a chart is
/// open and `n` is the number of the next chart. A ```` ```flow ```` line opens a chart,
/// a ```` ``` ```` line closes an open one (spaces ignored in both), and the lines
/// between become the pieces of the chart's source.
pub open spec fn flow_from(ls: Seq<Seq<char>>, i: int, on: bool, n: nat) -> Seq<Seq<char>>
    decreases ls.len() - i,
{
    if i < 0 || i >= ls.len() {
        seq![]
    } else {
        let l = ls[i];
        if fence_is(l, "```flow"@) && !on {
            flow_open(n) + flow_from(ls, i + 1, true, n)
        } else if fence_is(l, "```"@) && on {
            flow_close(n) + flow_from(ls, i + 1, false, n + 1)
        } else if on {
            let last = i == ls.len() - 1 || fence_is(ls[i + 1], "```"@);
            seq![flow_piece(l, last)] + flow_from(ls, i + 1, on, n)
        } else {
            seq![l] + flow_from(ls, i + 1, on, n)
        }
    }
}

/// The page with its ```` ```flow ```` blocks made flow chart scripts (see `flow_from`).
pub open spec fn spec_convert_html_flow(md: Seq<char>) -> Seq<char> {
    join_lines(flow_from(lines_of(md), 0, false, 1))
}

/// The page with its flow charts converted (see `spec_convert_html_flow`).
pub fn convert_html_flow(md: &str) -> (r: String)
    ensures
        r@ == spec_convert_html_flow(md@),
{
    let lines = lines_str(md);
    let ghost ls = views(lines@);
    let mut out: Vec<Vec<char>> = Vec::new();
    let mut on = false;
    let mut n: usize = 1;
    let mut i: usize = 0;
    while i < lines.len()
        invariant
            i <= lines@.len(),
            ls == views(lines@),
            1 <= n,
            if on { n <= i } else { n <= i + 1 },
            flow_from(ls, 0, false, 1) == views(out@) + flow_from(ls, i as int, on, n as nat),
        decreases lines@.len() - i,
    {
        assert(ls[i as int] == lines@[i as int]@);
        let ghost before = views(out@);
        let ghost (o0, n0) = (on, n as nat);
        let l = lines[i].as_slice();
        let rl = replace_str(l, " ", "");
        if eq_str(rl.as_slice(), "```flow") && !on {
            let d = usize_chars(n);
            push_line(&mut out, cat(to_chars("<div class=\"panel panel-default\">").as_slice(), to_chars(NOTBREAK).as_slice()));
            push_line(&mut out, cat(to_chars("<div class=\"panel-body\">").as_slice(), to_chars(NOTBREAK).as_slice()));
            let mut c = to_chars("    <div id=\"diagram");
            append_chars(&mut c, d.as_slice());
            append_str(&mut c, "\"></div>");
            append_str(&mut c, NOTBREAK);
            push_line(&mut out, c);
            push_line(&mut out, cat(to_chars("    </div>").as_slice(), to_chars(NOTBREAK).as_slice()));
            push_line(&mut out, cat(to_chars("</div>").as_slice(), to_chars(NOTBREAK).as_slice()));
            push_line(&mut out, cat(to_chars("<script type=\"text/javascript\">").as_slice(), to_chars(NOTBREAK).as_slice()));
            push_line(&mut out, cat(to_chars("    $(document).ready(function () {").as_slice(), to_chars(NOTBREAK).as_slice()));
            push_line(&mut out, cat(to_chars("        var diagram = flowchart.parse(").as_slice(), to_chars(NOTBREAK).as_slice()));
            on = true;
            assert(views(out@) =~= before + flow_open(n as nat));
        } else if eq_str(rl.as_slice(), "```") && on {
            let d = usize_chars(n);
            push_line(&mut out, cat(to_chars("        );").as_slice(), to_chars(NOTBREAK).as_slice()));
            let mut c = to_chars("        diagram.drawSVG('diagram");
            append_chars(&mut c, d.as_slice());
            append_str(&mut c, "');");
            append_str(&mut c, NOTBREAK);
            push_line(&mut out, c);
            push_line(&mut out, cat(to_chars("     });").as_slice(), to_chars(NOTBREAK).as_slice()));
            push_line(&mut out, cat(to_chars("</script>").as_slice(), to_chars(NOTBREAK).as_slice()));
            on = false;
            assert(views(out@) =~= before + flow_close(n as nat));
            n += 1;
        } else if on {
            let mut last = true;
            if i + 1 < lines.len() {
                assert(ls[i + 1] == lines@[i + 1]@);
                let nx = replace_str(lines[i + 1].as_slice(), " ", "");
                last = eq_str(nx.as_slice(), "```");
            }
            let mut c = to_chars("'\t\t\t");
            append_chars(&mut c, l);
            if last {
                append_str(&mut c, "\\n'");
            } else {
                append_str(&mut c, "\\n' +");
            }
            append_str(&mut c, NOTBREAK);
            push_line(&mut out, c);
        } else {
            push_line(&mut out, copy_chars(l));
        }
        assert(views(out@) + flow_from(ls, i + 1, on, n as nat) =~= before + flow_from(
            ls,
            i as int,
            o0,
            n0,
        ));
        i += 1;
    }
    assert(views(out@) + flow_from(ls, i as int, on, n as nat) =~= views(out@));
    join_string(&out)
}

/// Code text with the characters that later steps would read as markup put out of
/// their reach: `<` and `>` written as entities, and `=`, `*`, `+`, `~`, `_`, `#`, `-`,
/// `!` replaced by stand-ins (`Ò`, `Ó`, `Ô`, `Õ`, `Ñ`, `Ð`, `ℜ`, ` 𝒻`) that
/// `replace_code_post` turns back.
pub open spec fn spec_replace_code_pre(md: Seq<char>) -> Seq<char> {
    let a = replace(md, "<"@, "&lt;"@);
    let b = replace(a, ">"@, "&gt;"@);
    let c = replace(b, "="@, "Ò"@);
    let d = replace(c, "*"@, "Ó"@);
    let e = replace(d, "+"@, "Ô"@);
    let f = replace(e, "~"@, "Õ"@);
    let g = replace(f, "_"@, "Ñ"@);
    let h = replace(g, "#"@, "Ð"@);
    let i = replace(h, "-"@, "ℜ"@);
    replace(i, "!"@, " 𝒻"@)
}

/// Code text with its markup characters put out of reach (see `spec_replace_code_pre`).
pub fn replace_code_pre(md: &str) -> (r: String)
    ensures
        r@ == spec_replace_code_pre(md@),
{
    let s = to_chars(md);
    let a = replace_str(s.as_slice(), "<", "&lt;");
    let b = replace_str(a.as_slice(), ">", "&gt;");
    let c = replace_str(b.as_slice(), "=", "Ò");
    let d = replace_str(c.as_slice(), "*", "Ó");
    let e = replace_str(d.as_slice(), "+", "Ô");
    let f = replace_str(e.as_slice(), "~", "Õ");
    let g = replace_str(f.as_slice(), "_", "Ñ");
    let h = replace_str(g.as_slice(), "#", "Ð");
    let i = replace_str(h.as_slice(), "-", "ℜ");
    let j = replace_str(i.as_slice(), "!", " 𝒻");
    from_chars(j.as_slice())
}

/// The stand-ins of `spec_replace_code_pre` turned back into the characters they stand
/// for.
pub open spec fn restore_code_chars(md: Seq<char>) -> Seq<char> {
    replace(restore_single_stand_ins(md), " 𝒻"@, "!"@)
}

/// The one-character stand-ins `Ò`, `Ó`, `Ô`, `Õ`, `Ñ`, `Ð`, `ℜ` turned back into `=`,
/// `*`, `+`, `~`, `_`, `#`, `-`.
pub open spec fn restore_single_stand_ins(md: Seq<char>) -> Seq<char> {
    let a = replace(md, "Ò"@, "="@);
    let b = replace(a, "Ó"@, "*"@);
    let c = replace(b, "Ô"@, "+"@);
    let d = replace(c, "Õ"@, "~"@);
    let e = replace(d, "Ñ"@, "_"@);
    let f = replace(e, "Ð"@, "#"@);
    replace(f, "ℜ"@, "-"@)
}

/// White space just inside an opening `<pre><code>`.
pub const CODE_OPEN_SPACE: &'static str = r"<pre><code>[\s]{1,}";

/// White space just inside a closing `</code></pre>`.
pub const CODE_CLOSE_SPACE: &'static str = r"[\s]{1,}</code></pre>";

/// The stand-ins turned back (see `restore_code_chars`), then the white space just inside
/// the `<pre><code>` and `</code></pre>` of code blocks removed.
pub open spec fn spec_replace_code_post(md: Seq<char>) -> Seq<char> {
    let a = restore_code_chars(md);
    let b = replaced_or(regex_replace(CODE_OPEN_SPACE@, a, "<pre><code>"@), a);
    replaced_or(regex_replace(CODE_CLOSE_SPACE@, b, "</code></pre>"@), b)
}

/// The stand-ins turned back and code blocks trimmed (see `spec_replace_code_post`).
pub fn replace_code_post(md: &str) -> (r: String)
    ensures
        r@ == spec_replace_code_post(md@),
{
    let s = to_chars(md);
    let a = replace_str(s.as_slice(), "Ò", "=");
    let b = replace_str(a.as_slice(), "Ó", "*");
    let c = replace_str(b.as_slice(), "Ô", "+");
    let d = replace_str(c.as_slice(), "Õ", "~");
    let e = replace_str(d.as_slice(), "Ñ", "_");
    let f = replace_str(e.as_slice(), "Ð", "#");
    let g = replace_str(f.as_slice(), "ℜ", "-");
    let h = replace_str(g.as_slice(), " 𝒻", "!");
    let hs = from_chars(h.as_slice());
    let o = replace_all_or_keep(CODE_OPEN_SPACE, hs.as_str(), "<pre><code>");
    replace_all_or_keep(CODE_CLOSE_SPACE, o.as_str(), "</code></pre>")
}

/// Whether every character of `s` is an ASCII digit.
pub open spec fn all_digits(s: Seq<char>) -> bool {
    forall|k: int| 0 <= k < s.len() ==> '0' <= #[trigger] s[k] <= '9'
}

/// The number that the decimal digits `s` write.
pub open spec fn digits_value(s: Seq<char>) -> nat
    decreases s.len(),
{
    if s.len() == 0 {
        0
    } else {
        digits_value(s.drop_last()) * 10 + ((s.last() as int) - ('0' as int)) as nat
    }
}

/// What `str::parse::<usize>` gives: the value of a non-empty run of ASCII digits,
/// after an optional `+`, if it fits in a `usize`.
pub open spec fn parse_usize(s: Seq<char>) -> Option<nat> {
    let d = if s.len() > 0 && s[0] == '+' { s.drop_first() } else { s };
    if d.len() > 0 && all_digits(d) && digits_value(d) <= usize::MAX {
        Some(digits_value(d))
    } else {
        None
    }
}

/// The value of the first digits grows as digits are added.
proof fn lemma_digits_grow(d: Seq<char>, k: int, j: int)
    requires
        0 <= k <= j <= d.len(),
        all_digits(d),
    ensures
        digits_value(d.take(k)) <= digits_value(d.take(j)),
    decreases j - k,
{
    if k < j {
        lemma_digits_grow(d, k, j - 1);
        assert(d.take(j).drop_last() =~= d.take(j - 1));
        assert(d.take(j).last() == d[j - 1]);
    }
}

/// A text parsed as a `usize` (see `parse_usize`).
pub fn parse_number(s: &[char]) -> (r: Option<usize>)
    ensures
        match r {
            Some(v) => parse_usize(s@) == Some(v as nat),
            None => parse_usize(s@) is None,
        },
{
    let start: usize = if s.len() > 0 && s[0] == '+' { 1 } else { 0 };
    let ghost d = if s@.len() > 0 && s@[0] == '+' { s@.drop_first() } else { s@ };
    assert(d =~= s@.skip(start as int));
    if start >= s.len() {
        return None;
    }
    let mut v: usize = 0;
    let mut k: usize = start;
    while k < s.len()
        invariant
            start <= k <= s@.len(),
            start < s@.len(),
            d == s@.skip(start as int),
            d == (if s@.len() > 0 && s@[0] == '+' { s@.drop_first() } else { s@ }),
            all_digits(d.take(k - start)),
            v == digits_value(d.take(k - start)),
        decreases s@.len() - k,
    {
        let c = s[k];
        assert(d[k - start] == c);
        assert(d.take(k - start + 1).drop_last() =~= d.take(k - start));
        assert(d.take(k - start + 1).last() == c);
        if !('0' <= c && c <= '9') {
            assert(!all_digits(d));
            return None;
        }
        let dig: usize = (c as u32 - '0' as u32) as usize;
        let next = match v.checked_mul(10) {
            Some(m) => m.checked_add(dig),
            None => None,
        };
        match next {
            Some(n) => {
                v = n;
            },
            None => {
                proof {
                    assert(all_digits(d.take(k - start + 1)));
                    if all_digits(d) {
                        lemma_digits_grow(d, k - start + 1, d.len() as int);
                        assert(d.take(d.len() as int) =~= d);
                    }
                }
                return None;
            },
        }
        assert(all_digits(d.take(k - start + 1)));
        k += 1;
    }
    assert(d.take(s@.len() - start) =~= d);
    Some(v)
}

/// The start of a numbered code block's line-number gutter.
pub const GUTTER_HEAD: &'static str = "<pre><code class=\"\"><div class=\"wrapper\"><div class=\"gutter linenumber\">";

/// The end of a line-number gutter, where the code starts.
pub const GUTTER_END: &'static str = "</div><div class=\"code\">";

/// A gutter line that ends the gutter.
pub const GUTTER_LAST_GLOB: &'static str = "<span data-linenumber=\"*\"></span></div><div class=\"code\">";

/// The first line of a numbered code block: ```` ```lang=N ```` once its spaces are
/// removed.
pub const NUMBERED_FENCE: &'static str = "```*=*";

/// The number element of line number `n`.
pub open spec fn span_line(n: nat) -> Seq<char> {
    "<span data-linenumber=\""@ + decimal(n) + "\"></span>"@
}

/// The first number of a numbered code block whose fence line, without spaces, is `rl`:
/// the part after its last `=` read as a `usize`, or 1.
pub open spec fn first_number(rl: Seq<char>) -> nat {
    match parse_usize(split_char(rl, '=').last()) {
        Some(v) => v,
        None => 1,
    }
}

/// A numbered code block whose fence gives no start number starts at 1: where the part
/// after the fence's last `=` is not a number (in particular where the fence ends with
/// `=`, as in ```` ```js= ````), the first number is 1.
pub proof fn law_first_number_default(rl: Seq<char>)
    ensures
        parse_usize(split_char(rl, '=').last()) is None ==> first_number(rl) == 1,
        rl.len() > 0 && rl.last() == '=' ==> first_number(rl) == 1,
{
    if rl.len() > 0 && rl.last() == '=' {
        lemma_split_char_ends_with(rl, '=');
    }
}

/// The gutter of a numbered code block whose fence gives no start number (nothing, or
/// no number, after its last `=`) counts from 1: the first line that the conversion
/// writes for the fence opens the gutter with `<span data-linenumber="1"></span>`.
pub proof fn law_code_gutter_starts_at_one(ls: Seq<Seq<char>>, i: int)
    requires
        0 <= i < ls.len(),
        glob(NUMBERED_FENCE@, replace(ls[i], " "@, ""@)),
        ({
            let rl = replace(ls[i], " "@, ""@);
            (rl.len() > 0 && rl.last() == '=') || parse_usize(split_char(rl, '=').last()) is None
        }),
        code_number_from(ls, i, false) is Some,
    ensures
        code_number_from(ls, i, false)->0[0] == GUTTER_HEAD@ + "<span data-linenumber=\"1\"></span>"@,
{
    let rl = replace(ls[i], " "@, ""@);
    law_first_number_default(rl);
    let c = spec_get_number_of_line(ls, i);
    assert(gutter_fits(1, c));
    let g = gutter_lines(1, c);
    let rest = code_number_from(ls, i + 1, true)->0;
    assert(code_number_from(ls, i, false)->0 == g + rest);
    assert(g[0] == GUTTER_HEAD@ + span_line(1));
    reveal_strlit("<span data-linenumber=\"");
    reveal_strlit("\"></span>");
    reveal_strlit("<span data-linenumber=\"1\"></span>");
    assert(decimal(1) == seq!['1']);
    assert(span_line(1) =~= "<span data-linenumber=\"1\"></span>"@);
}

/// Whether a gutter starting at `num` for a block whose closing fence comes `c` lines
/// after its opening can be numbered in `usize` (its last number, `num + c - 2`, and
/// the sums on the way must not leave that range).
pub open spec fn gutter_fits(num: nat, c: nat) -> bool {
    2 <= num + c && num + c <= usize::MAX && num + 1 <= usize::MAX
}

/// The gutter lines of a numbered code block: numbers `num` to `num + c - 2` (at least
/// `num` and the last one), the first line opening the gutter, the last one ending it.
pub open spec fn gutter_lines(num: nat, c: nat) -> Seq<Seq<char>> {
    let last = (num + c - 2) as nat;
    let mids = if last > num + 1 { (last - num - 1) as nat } else { 0 };
    seq![GUTTER_HEAD@ + span_line(num)] + Seq::new(mids, |k: int| span_line((num + 1 + k) as nat))
        + seq![span_line(last) + GUTTER_END@]
}

/// The numbered-code conversion of the lines from `i` on, `code` telling whether a
/// numbered block is open: a ```` ```lang=N ```` line opens one with its gutter, a
/// ```` ``` ```` line closes it, and the code lines have their markup characters put out
/// of reach. `None` where a gutter cannot be numbered.
pub open spec fn code_number_from(ls: Seq<Seq<char>>, i: int, code: bool) -> Option<Seq<Seq<char>>>
    decreases ls.len() - i,
{
    if i < 0 || i >= ls.len() {
        Some(seq![])
    } else {
        let l = ls[i];
        let rl = replace(l, " "@, ""@);
        if glob(NUMBERED_FENCE@, rl) && !code {
            let num = first_number(rl);
            let c = spec_get_number_of_line(ls, i);
            if gutter_fits(num, c) {
                prefixed(gutter_lines(num, c), code_number_from(ls, i + 1, true))
            } else {
                None
            }
        } else if rl == "```"@ && code {
            prefixed(seq!["</div></div></code></pre>"@], code_number_from(ls, i + 1, false))
        } else if code {
            prefixed(seq![spec_replace_code_pre(l)], code_number_from(ls, i + 1, code))
        } else {
            prefixed(seq![l], code_number_from(ls, i + 1, code))
        }
    }
}

/// The lines written one after the other, each followed by a newline except those that
/// end a gutter.
pub open spec fn ended_lines(ls: Seq<Seq<char>>) -> Seq<char>
    decreases ls.len(),
{
    if ls.len() == 0 {
        seq![]
    } else {
        let l = ls.last();
        ended_lines(ls.drop_last()) + l + (if glob(GUTTER_LAST_GLOB@, l) { seq![] } else { seq!['\n'] })
    }
}

/// Whether every numbered code block of the page can be numbered (see `gutter_fits`).
pub open spec fn code_numbers_fit(md: Seq<char>) -> bool {
    code_number_from(lines_of(md), 0, false) is Some
}

/// The page with its numbered code blocks (```` ```lang=N ````) given a line-number
/// gutter (see `code_number_from` and `ended_lines`).
pub open spec fn spec_convert_html_code_number(md: Seq<char>) -> Seq<char> {
    ended_lines(code_number_from(lines_of(md), 0, false)->0)
}

/// The first number of a numbered code block (see `first_number`).
fn first_number_of(rl: &[char]) -> (r: usize)
    ensures
        r == first_number(rl@),
{
    let ps = split_on(rl, '=');
    assert(views(ps@).len() >= 1);
    let last = ps.len() - 1;
    assert(views(ps@).last() == ps@[last as int]@);
    match parse_number(ps[last].as_slice()) {
        Some(v) => v,
        None => 1,
    }
}

/// The gutter lines of a numbered code block (see `gutter_lines`).
fn push_gutter(out: &mut Vec<Vec<char>>, num: usize, c: usize)
    requires
        gutter_fits(num as nat, c as nat),
    ensures
        views(final(out)@) == views(old(out)@) + gutter_lines(num as nat, c as nat),
{
    let ghost want = gutter_lines(num as nat, c as nat);
    let mut first = to_chars(GUTTER_HEAD);
    append_str(&mut first, "<span data-linenumber=\"");
    append_chars(&mut first, usize_chars(num).as_slice());
    append_str(&mut first, "\"></span>");
    assert(first@ =~= GUTTER_HEAD@ + span_line(num as nat));
    push_line(out, first);
    let last = num + c - 2;
    let ghost mids = if last > num + 1 { (last - num - 1) as nat } else { 0nat };
    let ghost mid = Seq::new(mids, |k: int| span_line((num + 1 + k) as nat));
    let ghost start = views(out@);
    let mut n = num + 1;
    while n < last
        invariant
            num + 1 <= n,
            n <= last || last <= num + 1,
            last <= num + 1 ==> n == num + 1,
            last == num + c - 2,
            mids == (if last > num + 1 { (last - num - 1) as nat } else { 0nat }),
            mid == Seq::new(mids, |k: int| span_line((num + 1 + k) as nat)),
            views(out@) == start + mid.take(n - num - 1),
        decreases last - n,
    {
        let mut sp = to_chars("<span data-linenumber=\"");
        append_chars(&mut sp, usize_chars(n).as_slice());
        append_str(&mut sp, "\"></span>");
        assert(sp@ == mid[n - num - 1]);
        push_line(out, sp);
        assert(mid.take(n - num) =~= mid.take(n - num - 1).push(mid[n - num - 1]));
        n += 1;
    }
    assert(n - num - 1 == mids);
    assert(mid.len() == mids);
    assert(mid.take(n - num - 1) =~= mid);
    let mut end = to_chars("<span data-linenumber=\"");
    append_chars(&mut end, usize_chars(last).as_slice());
    append_str(&mut end, "\"></span>");
    append_str(&mut end, GUTTER_END);
    assert(end@ =~= span_line(last as nat) + GUTTER_END@);
    push_line(out, end);
    assert(views(out@) =~= views(old(out)@) + want);
}

/// The lines each followed by a newline except those that end a gutter (see
/// `ended_lines`).
fn end_lines(ls: &Vec<Vec<char>>) -> (r: Vec<char>)
    ensures
        r@ == ended_lines(views(ls@)),
{
    let mut r: Vec<char> = Vec::new();
    let mut i: usize = 0;
    while i < ls.len()
        invariant
            i <= ls@.len(),
            r@ == ended_lines(views(ls@).take(i as int)),
        decreases ls@.len() - i,
    {
        let ghost next = views(ls@).take(i + 1);
        assert(next.drop_last() == views(ls@).take(i as int));
        assert(next.last() == ls@[i as int]@);
        append_chars(&mut r, ls[i].as_slice());
        if !glob_chars(GUTTER_LAST_GLOB, ls[i].as_slice()) {
            r.push('\n');
        }
        i += 1;
    }
    assert(views(ls@).take(ls@.len() as int) == views(ls@));
    r
}

/// Whether every numbered code block of the page can be numbered (see
/// `code_numbers_fit`).
pub fn can_number_code(md: &str) -> (b: bool)
    ensures
        b == code_numbers_fit(md@),
{
    let lines = lines_str(md);
    let ghost ls = views(lines@);
    let mut code = false;
    let mut i: usize = 0;
    while i < lines.len()
        invariant
            i <= lines@.len(),
            ls == views(lines@),
            ls == lines_of(md@),
            (code_number_from(ls, 0, false) is Some) == (code_number_from(ls, i as int, code) is Some),
        decreases lines@.len() - i,
    {
        assert(ls[i as int] == lines@[i as int]@);
        let rl = replace_str(lines[i].as_slice(), " ", "");
        if glob_chars(NUMBERED_FENCE, rl.as_slice()) && !code {
            let num = first_number_of(rl.as_slice());
            let c = get_number_of_line(&lines, i);
            if !(num < usize::MAX && 2 <= num as u128 + c as u128 && num as u128 + c as u128 <= usize::MAX as u128) {
                return false;
            }
            code = true;
        } else if eq_str(rl.as_slice(), "```") && code {
            code = false;
        }
        i += 1;
    }
    true
}

/// The page with its numbered code blocks given a line-number gutter (see
/// `spec_convert_html_code_number`); every gutter must fit (see `code_numbers_fit` and
/// `can_number_code`).
#[verifier::rlimit(40)]
pub fn convert_html_code_number(md: &str) -> (r: String)
    requires
        code_numbers_fit(md@),
    ensures
        r@ == spec_convert_html_code_number(md@),
{
    let lines = lines_str(md);
    let ghost ls = views(lines@);
    let mut out: Vec<Vec<char>> = Vec::new();
    let mut code = false;
    let mut i: usize = 0;
    assert(views(out@) + code_number_from(ls, 0, false)->0 =~= code_number_from(ls, 0, false)->0);
    while i < lines.len()
        invariant
            i <= lines@.len(),
            ls == views(lines@),
            code_number_from(ls, 0, false) is Some,
            code_number_from(ls, 0, false) == prefixed(views(out@), code_number_from(ls, i as int, code)),
        decreases lines@.len() - i,
    {
        assert(ls[i as int] == lines@[i as int]@);
        let ghost before = views(out@);
        let ghost c0 = code;
        let l = lines[i].as_slice();
        let rl = replace_str(l, " ", "");
        if glob_chars(NUMBERED_FENCE, rl.as_slice()) && !code {
            let num = first_number_of(rl.as_slice());
            let c = get_number_of_line(&lines, i);
            push_gutter(&mut out, num, c);
            code = true;
        } else if eq_str(rl.as_slice(), "```") && code {
            push_str_line(&mut out, "</div></div></code></pre>");
            code = false;
        } else if code {
            let ls_i = from_chars(l);
            push_line(&mut out, to_chars(replace_code_pre(ls_i.as_str()).as_str()));
        } else {
            push_line(&mut out, copy_chars(l));
        }
        proof {
            match code_number_from(ls, i + 1, code) {
                Some(w) => {
                    assert(before + (views(out@).subrange(before.len() as int, views(out@).len() as int) + w) =~= views(out@) + w);
                },
                None => {},
            }
        }
        i += 1;
    }
    let v = end_lines(&out);
    from_chars(v.as_slice())
}

/// A line that opens an indented code block (two spaces and three backquotes).
pub const INDENTED_FENCE: &'static str = r"  `{3}\n";

/// An indented code block, its code in group 1.
pub const INDENTED_BLOCK: &'static str = r"  `{3}\n(?P<h>.[\s\S]+?)  `{3}";

/// Code between three backquotes on one line, then a newline.
pub const ONE_LINE_BLOCK: &'static str = r"[`]{3}(?P<h>.*)[`]{3}\n";

/// Inline code between single backquotes.
pub const INLINE_CODE_SPAN: &'static str = r"[`](?P<h>.+?)[`]";

/// An indented code block made a `<pre><code>` element, its indentation removed.
pub open spec fn indented_rep(h: Seq<char>) -> Seq<char> {
    "<pre><code>"@ + spec_replace_code_pre(replace(h, "  "@, ""@)) + "</code></pre>"@
}

/// A one-line code block made a `<pre><code>` element.
pub open spec fn one_line_rep(h: Seq<char>) -> Seq<char> {
    "<pre><code>"@ + spec_replace_code_pre(h) + "</code></pre>\n"@
}

/// Inline code made a `<code>` element.
pub open spec fn inline_rep(h: Seq<char>) -> Seq<char> {
    "<code>"@ + spec_replace_code_pre(h) + "</code>"@
}

/// The code conversion of the lines from `i` on, `code` telling whether a block is
/// open: a line starting with ```` ``` ```` (spaces removed) opens a block outside one,
/// ```` ``` ```` closes it, and the lines inside have their markup characters put out of
/// reach.
pub open spec fn code_from(ls: Seq<Seq<char>>, i: int, code: bool) -> Seq<Seq<char>>
    decreases ls.len() - i,
{
    if i < 0 || i >= ls.len() {
        seq![]
    } else {
        let l = ls[i];
        let rl = replace(l, " "@, ""@);
        if glob("```*"@, rl) && !code {
            seq!["<pre><code>"@] + code_from(ls, i + 1, true)
        } else if rl == "```"@ && code {
            seq!["</code></pre>"@] + code_from(ls, i + 1, false)
        } else if code {
            seq![spec_replace_code_pre(l)] + code_from(ls, i + 1, code)
        } else {
            seq![l] + code_from(ls, i + 1, code)
        }
    }
}

/// The page with its code made HTML: indented blocks (when the page has one), then
/// one-line blocks, then fenced blocks line by line, then inline code; the code's markup
/// characters are put out of reach (see `spec_replace_code_pre`).
pub open spec fn spec_convert_html_code(md: Seq<char>) -> Seq<char> {
    let a = if re_yes(INDENTED_FENCE@, md) {
        replace_group1(INDENTED_BLOCK@, md, |h: Seq<char>| indented_rep(h))
    } else {
        md
    };
    let b = replace_group1(ONE_LINE_BLOCK@, a, |h: Seq<char>| one_line_rep(h));
    let c = join_lines(code_from(lines_of(b), 0, false));
    replace_group1(INLINE_CODE_SPAN@, c, |h: Seq<char>| inline_rep(h))
}

/// Code text with its markup characters put out of reach, as characters.
fn code_pre_chars(h: &[char]) -> (r: Vec<char>)
    ensures
        r@ == spec_replace_code_pre(h@),
{
    let hs = from_chars(h);
    to_chars(replace_code_pre(hs.as_str()).as_str())
}

/// See `indented_rep`.
pub fn indented_code(h: &[char]) -> (r: Vec<char>)
    ensures
        r@ == indented_rep(h@),
{
    let mut r = to_chars("<pre><code>");
    let u = replace_str(h, "  ", "");
    append_chars(&mut r, code_pre_chars(u.as_slice()).as_slice());
    append_str(&mut r, "</code></pre>");
    r
}

/// See `one_line_rep`.
pub fn one_line_code(h: &[char]) -> (r: Vec<char>)
    ensures
        r@ == one_line_rep(h@),
{
    let mut r = to_chars("<pre><code>");
    append_chars(&mut r, code_pre_chars(h).as_slice());
    append_str(&mut r, "</code></pre>\n");
    r
}

/// See `inline_rep`.
pub fn inline_code(h: &[char]) -> (r: Vec<char>)
    ensures
        r@ == inline_rep(h@),
{
    let mut r = to_chars("<code>");
    append_chars(&mut r, code_pre_chars(h).as_slice());
    append_str(&mut r, "</code>");
    r
}

/// The page with its code made HTML (see `spec_convert_html_code`).
pub fn convert_html_code(md: &str) -> (r: String)
    ensures
        r@ == spec_convert_html_code(md@),
{
    let mc = to_chars(md);
    let a = if re_test(INDENTED_FENCE, mc.as_slice()) {
        replace_each_group1(INDENTED_BLOCK, md, indented_code, Ghost(|h: Seq<char>| indented_rep(h)))
    } else {
        md.to_string()
    };
    let b = replace_each_group1(ONE_LINE_BLOCK, a.as_str(), one_line_code, Ghost(|h: Seq<char>| one_line_rep(h)));
    let lines = lines_str(b.as_str());
    let ghost ls = views(lines@);
    let mut out: Vec<Vec<char>> = Vec::new();
    let mut code = false;
    let mut i: usize = 0;
    while i < lines.len()
        invariant
            i <= lines@.len(),
            ls == views(lines@),
            code_from(ls, 0, false) == views(out@) + code_from(ls, i as int, code),
        decreases lines@.len() - i,
    {
        assert(ls[i as int] == lines@[i as int]@);
        let ghost before = views(out@);
        let ghost c0 = code;
        let l = lines[i].as_slice();
        let rl = replace_str(l, " ", "");
        if glob_chars("```*", rl.as_slice()) && !code {
            push_str_line(&mut out, "<pre><code>");
            code = true;
        } else if eq_str(rl.as_slice(), "```") && code {
            push_str_line(&mut out, "</code></pre>");
            code = false;
        } else if code {
            push_line(&mut out, code_pre_chars(l));
        } else {
            push_line(&mut out, copy_chars(l));
        }
        assert(views(out@) + code_from(ls, i + 1, code) =~= before + code_from(ls, i as int, c0));
        i += 1;
    }
    assert(views(out@) + code_from(ls, i as int, code) =~= views(out@));
    let c = join_string(&out);
    replace_each_group1(INLINE_CODE_SPAN, c.as_str(), inline_code, Ghost(|h: Seq<char>| inline_rep(h)))
}

/// `n` lines each closing one nested list.
pub open spec fn list_closes(n: nat) -> Seq<Seq<char>> {
    Seq::new(n, |k: int| "</ul></li>"@)
}

/// What one line gives in the list conversion, with the list depth `ind` before it: the
/// lines written and the new depth. A list item one level deeper opens a list; a
/// shallower one closes the levels in between; one at the same depth closes the item
/// before it; the item itself becomes an `<li>`. Code tags, images and quote tags leave the
/// lists as they are; a `<div class=..>`, a `</div>`, any other tag and an empty line
/// close every open list; other text stays as it is.
pub open spec fn list_step(l: Seq<char>, ind: nat) -> (Seq<Seq<char>>, nat) {
    let t = trim(l);
    match spec_is_line_list(l) {
        Some(c) => if ind < c && ind < 6 {
            (seq!["<ul>"@, spec_line_list(l)], ind + 1)
        } else if ind > c {
            (list_closes((ind - c) as nat) + seq![spec_line_list(l)], c as nat)
        } else if ind == c {
            (seq!["</li>"@, spec_line_list(l)], ind)
        } else {
            (seq![], ind)
        },
        None => if starts_with(t, "<pre><code>"@) || starts_with(t, "</code></pre>"@) || starts_with(
            t,
            "<code>"@,
        ) || starts_with(t, "</code>"@) {
            (seq![l], ind)
        } else if starts_with(t, "<div class="@) || t == "</div>"@ {
            (list_closes(ind) + seq![l], 0)
        } else if starts_with(t, "<img"@) || starts_with(t, "<blockquote>"@) || starts_with(
            t,
            "</blockquote>"@,
        ) {
            (seq![l], ind)
        } else if starts_with(t, "<"@) || l.len() == 0 {
            (list_closes(ind) + seq![l], 0)
        } else {
            (seq![l], ind)
        },
    }
}

/// The list conversion of the lines from `i` on at depth `ind`; the lists still open at
/// the end are closed.
pub open spec fn list_from(ls: Seq<Seq<char>>, i: int, ind: nat) -> Seq<Seq<char>>
    decreases ls.len() - i,
{
    if i < 0 || i >= ls.len() {
        list_closes(ind)
    } else {
        let (out, ind2) = list_step(ls[i], ind);
        out + list_from(ls, i + 1, ind2)
    }
}

/// A written line holding `>* `: the text after its last `>` made a list item.
pub open spec fn nested_item(l: Seq<char>) -> Seq<char> {
    if contains(l, ">* "@) {
        match rfind_char(l, '>') {
            Some(k) => l.take(k) + ">"@ + spec_line_list(l.skip(k + 1)),
            None => l,
        }
    } else {
        l
    }
}

/// The page with its `*`, `+`, `-` lists made nested `<ul>` lists (see `list_step`),
/// then items written after a tag made `<li>`s (see `nested_item`).
pub open spec fn spec_convert_html_list(md: Seq<char>) -> Seq<char> {
    join_lines(list_from(lines_of(md), 0, 0).map_values(|l: Seq<char>| nested_item(l)))
}

/// Closes `n` nested lists.
fn push_closes_lists(out: &mut Vec<Vec<char>>, n: usize)
    ensures
        views(final(out)@) == views(old(out)@) + list_closes(n as nat),
{
    let mut k: usize = 0;
    while k < n
        invariant
            k <= n,
            views(out@) == views(old(out)@) + list_closes(k as nat),
        decreases n - k,
    {
        push_str_line(out, "</ul></li>");
        assert(list_closes((k + 1) as nat) =~= list_closes(k as nat).push("</ul></li>"@));
        k += 1;
    }
}

/// See `nested_item`.
fn nested_item_line(l: &[char]) -> (r: Vec<char>)
    ensures
        r@ == nested_item(l@),
{
    if contains_str(l, ">* ") {
        match rfind_chars(l, '>') {
            Some(k) => {
                proof {
                    lemma_rfind_in(l@, '>');
                }
                let mut r = sub_chars(l, 0, k);
                append_str(&mut r, ">");
                assert(l@.len() == l.len());
                let rest = sub_chars(l, k + 1, l.len());
                let rs = from_chars(rest.as_slice());
                append_str(&mut r, line_list(rs.as_str()).as_str());
                assert(l@.subrange(0, k as int) == l@.take(k as int));
                assert(l@.subrange(k + 1, l@.len() as int) == l@.skip(k + 1));
                r
            },
            None => copy_chars(l),
        }
    } else {
        copy_chars(l)
    }
}

/// One line of the list conversion (see `list_step`); the new depth is returned.
fn list_line(out: &mut Vec<Vec<char>>, l: &[char], ind: usize) -> (r: usize)
    requires
        ind <= 6,
    ensures
        r <= 6,
        r as nat == list_step(l@, ind as nat).1,
        views(final(out)@) == views(old(out)@) + list_step(l@, ind as nat).0,
{
    let ls_i = from_chars(l);
    let t = trim_chars(l);
    let ts = t.as_slice();
    let mut ind = ind;
    match is_line_list(ls_i.as_str()) {
        Some(c) => {
            if ind < c && ind < 6 {
                ind += 1;
                push_str_line(out, "<ul>");
                push_line(out, to_chars(line_list(ls_i.as_str()).as_str()));
            } else if ind > c {
                push_closes_lists(out, ind - c);
                ind = c;
                push_line(out, to_chars(line_list(ls_i.as_str()).as_str()));
            } else if ind == c {
                push_str_line(out, "</li>");
                push_line(out, to_chars(line_list(ls_i.as_str()).as_str()));
            }
        },
        None => {
            if starts_with_str(ts, "<pre><code>") || starts_with_str(ts, "</code></pre>")
                || starts_with_str(ts, "<code>") || starts_with_str(ts, "</code>") {
                push_line(out, copy_chars(l));
            } else if starts_with_str(ts, "<div class=") || eq_str(ts, "</div>") {
                push_closes_lists(out, ind);
                ind = 0;
                push_line(out, copy_chars(l));
            } else if starts_with_str(ts, "<img") || starts_with_str(ts, "<blockquote>")
                || starts_with_str(ts, "</blockquote>") {
                push_line(out, copy_chars(l));
            } else if starts_with_str(ts, "<") || l.len() == 0 {
                push_closes_lists(out, ind);
                ind = 0;
                push_line(out, copy_chars(l));
            } else {
                push_line(out, copy_chars(l));
            }
        },
    }
    ind
}

/// The page with its lists converted (see `spec_convert_html_list`).
pub fn convert_html_list(md: &str) -> (r: String)
    ensures
        r@ == spec_convert_html_list(md@),
{
    let lines = lines_str(md);
    let ghost ls = views(lines@);
    let mut out: Vec<Vec<char>> = Vec::new();
    let mut ind: usize = 0;
    let mut i: usize = 0;
    while i < lines.len()
        invariant
            i <= lines@.len(),
            ls == views(lines@),
            ind <= 6,
            list_from(ls, 0, 0) == views(out@) + list_from(ls, i as int, ind as nat),
        decreases lines@.len() - i,
    {
        assert(ls[i as int] == lines@[i as int]@);
        let ghost before = views(out@);
        let ghost i0 = ind as nat;
        ind = list_line(&mut out, lines[i].as_slice(), ind);
        assert(views(out@) + list_from(ls, i + 1, ind as nat) =~= before + list_from(ls, i as int, i0));
        i += 1;
    }
    push_closes_lists(&mut out, ind);
    assert(list_from(ls, i as int, ind as nat) == list_closes(ind as nat));
    let ghost whole = views(out@);
    let mut out2: Vec<Vec<char>> = Vec::new();
    let mut k: usize = 0;
    while k < out.len()
        invariant
            k <= out@.len(),
            whole == views(out@),
            views(out2@) == whole.take(k as int).map_values(|l: Seq<char>| nested_item(l)),
        decreases out@.len() - k,
    {
        assert(whole[k as int] == out@[k as int]@);
        push_line(&mut out2, nested_item_line(out[k].as_slice()));
        assert(views(out2@) =~= whole.take(k + 1).map_values(|l: Seq<char>| nested_item(l)));
        k += 1;
    }
    assert(whole.take(out@.len() as int) == whole);
    join_string(&out2)
}

/// A level-6 header line (`###### `, perhaps after a quote mark), its text in group 1.
pub const H6_LINE: &'static str = r"(?m)^[|> |>　]?+###### (?P<h>.*)";

/// A level-5 header line, its text in group 1.
pub const H5_LINE: &'static str = r"(?m)^[|> |>　]?+##### (?P<h>.*)";

/// A level-4 header line, its text in group 1.
pub const H4_LINE: &'static str = r"(?m)^[|> |>　]?+#### (?P<h>.*)";

/// A level-3 header line, its text in group 1.
pub const H3_LINE: &'static str = r"(?m)^[|> |>　]?+### (?P<h>.*)";

/// A level-2 header line (`##` and any one character), its text in group 1.
pub const H2_LINE: &'static str = r"(?m)^[|> |>　]?+##[\s|\S](?P<h>.*)";

/// A level-1 header at the start of the page, its text in group 1.
pub const H1_LINE: &'static str = r"^[|> |>　]?+# (?P<h>.*)";

/// A header element of level `n` for the header text `h`, on a line of its own, with an
/// anchor named after the header (see `spec_replace_header_name`).
pub open spec fn header_rep(n: Seq<char>, h: Seq<char>) -> Seq<char> {
    let a = spec_replace_header_name(h);
    "\n<h"@ + n + " id=\""@ + a + "\"><a class=\"anchor hidden-xs\" href=\"#"@ + a + "\" title=\""@
        + a + "\"><i class=\"fa fa-link\"></i></a>"@ + h + "</h"@ + n + ">\n"@
}

/// The page with its `#` headers made header elements, the deepest level first.
pub open spec fn spec_convert_html_header(md: Seq<char>) -> Seq<char> {
    let h6 = replace_group1(H6_LINE@, md, |h: Seq<char>| header_rep("6"@, h));
    let h5 = replace_group1(H5_LINE@, h6, |h: Seq<char>| header_rep("5"@, h));
    let h4 = replace_group1(H4_LINE@, h5, |h: Seq<char>| header_rep("4"@, h));
    let h3 = replace_group1(H3_LINE@, h4, |h: Seq<char>| header_rep("3"@, h));
    let h2 = replace_group1(H2_LINE@, h3, |h: Seq<char>| header_rep("2"@, h));
    replace_group1(H1_LINE@, h2, |h: Seq<char>| header_rep("1"@, h))
}

/// See `header_rep`.
pub fn header_element(n: &str, h: &[char]) -> (r: Vec<char>)
    ensures
        r@ == header_rep(n@, h@),
{
    let hs = from_chars(h);
    let a = replace_header_name(hs.as_str());
    let mut r = to_chars("\n<h");
    append_str(&mut r, n);
    append_str(&mut r, " id=\"");
    append_str(&mut r, a.as_str());
    append_str(&mut r, "\"><a class=\"anchor hidden-xs\" href=\"#");
    append_str(&mut r, a.as_str());
    append_str(&mut r, "\" title=\"");
    append_str(&mut r, a.as_str());
    append_str(&mut r, "\"><i class=\"fa fa-link\"></i></a>");
    append_chars(&mut r, h);
    append_str(&mut r, "</h");
    append_str(&mut r, n);
    append_str(&mut r, ">\n");
    r
}

/// A level-6 header element.
fn h6_element(h: &[char]) -> (r: Vec<char>)
    ensures
        r@ == header_rep("6"@, h@),
{
    header_element("6", h)
}

/// A level-5 header element.
fn h5_element(h: &[char]) -> (r: Vec<char>)
    ensures
        r@ == header_rep("5"@, h@),
{
    header_element("5", h)
}

/// A level-4 header element.
fn h4_element(h: &[char]) -> (r: Vec<char>)
    ensures
        r@ == header_rep("4"@, h@),
{
    header_element("4", h)
}

/// A level-3 header element.
fn h3_element(h: &[char]) -> (r: Vec<char>)
    ensures
        r@ == header_rep("3"@, h@),
{
    header_element("3", h)
}

/// A level-2 header element.
fn h2_element(h: &[char]) -> (r: Vec<char>)
    ensures
        r@ == header_rep("2"@, h@),
{
    header_element("2", h)
}

/// A level-1 header element.
fn h1_element(h: &[char]) -> (r: Vec<char>)
    ensures
        r@ == header_rep("1"@, h@),
{
    header_element("1", h)
}

/// The page with its headers converted (see `spec_convert_html_header`).
pub fn convert_html_header(md: &str) -> (r: String)
    ensures
        r@ == spec_convert_html_header(md@),
{
    let h6 = replace_each_group1(H6_LINE, md, h6_element, Ghost(|h: Seq<char>| header_rep("6"@, h)));
    let h5 = replace_each_group1(H5_LINE, h6.as_str(), h5_element, Ghost(|h: Seq<char>| header_rep("5"@, h)));
    let h4 = replace_each_group1(H4_LINE, h5.as_str(), h4_element, Ghost(|h: Seq<char>| header_rep("4"@, h)));
    let h3 = replace_each_group1(H3_LINE, h4.as_str(), h3_element, Ghost(|h: Seq<char>| header_rep("3"@, h)));
    let h2 = replace_each_group1(H2_LINE, h3.as_str(), h2_element, Ghost(|h: Seq<char>| header_rep("2"@, h)));
    replace_each_group1(H1_LINE, h2.as_str(), h1_element, Ghost(|h: Seq<char>| header_rep("1"@, h)))
}

/// The page as the table conversion sees it: spaces, mermaid and flow charts done.
pub open spec fn before_tables(md: Seq<char>) -> Seq<char> {
    spec_convert_html_flow(spec_convert_html_mermaid(spec_delete_space(md)))
}

/// The page as the numbered-code conversion sees it: tables and alerts done too.
pub open spec fn before_numbers(md: Seq<char>) -> Seq<char> {
    spec_convert_html_alert(spec_convert_html_table(before_tables(md)))
}

/// Whether the page can be converted: its tables fit (see `tables_fit`), its numbered
/// code blocks can be numbered (see `code_numbers_fit`), and the links of its quotes and
/// of its lines convert (see `quote_links_fit` and `url_links_fit`), each at its stage.
pub open spec fn html_fits(md: Seq<char>) -> bool {
    &&& tables_fit(before_tables(md))
    &&& code_numbers_fit(before_numbers(md))
    &&& quote_links_fit(before_quotes(md))
    &&& url_links_fit(before_urls(md))
}

/// The page as the quote conversion sees it: numbered code, code, the table of
/// contents, headers, task lists and images done too.
pub open spec fn before_quotes(md: Seq<char>) -> Seq<char> {
    let a = spec_convert_html_code_number(before_numbers(md));
    let b = spec_convert_html_code(a);
    let c = spec_convert_html_toc(b);
    let d = spec_convert_html_header(c);
    let e = spec_convert_html_checkbox(d);
    spec_convert_html_image(e)
}

/// The page as the link conversion sees it: quotes, rules and lists done too.
pub open spec fn before_urls(md: Seq<char>) -> Seq<char> {
    spec_convert_html_list(spec_convert_html_line(spec_convert_html_quote(before_quotes(md))))
}

/// The HTML body of a page: each conversion applied in turn, from the spaces to the
/// line breaks, and the stand-ins of code characters turned back at the end.
pub open spec fn spec_convert_html(md: Seq<char>) -> Seq<char> {
    let j = spec_convert_html_url(before_urls(md));
    let k = spec_convert_html_emozi(j);
    let l = spec_convert_html_bold(k);
    let m = spec_convert_html_marker(l);
    let n = spec_convert_html_insert(m);
    let o = spec_convert_html_cancel(n);
    let p = spec_convert_html_italic(o);
    let q = spec_convert_html_youtube(p);
    let r = spec_convert_html_newline(q);
    spec_replace_code_post(r)
}

/// The HTML body of a page (see `spec_convert_html`); the page must fit (see
/// `html_fits` and `can_convert_html`).
pub fn convert_html(md: &str) -> (r: String)
    requires
        html_fits(md@),
    ensures
        r@ == spec_convert_html(md@),
{
    let html = delete_space(md);
    let html = convert_html_mermaid(html.as_str());
    let html = convert_html_flow(html.as_str());
    let html = convert_html_table(html.as_str());
    let html = convert_html_alert(html.as_str());
    let html = convert_html_code_number(html.as_str());
    let html = convert_html_code(html.as_str());
    let html = convert_html_toc(html.as_str());
    let html = convert_html_header(html.as_str());
    let html = convert_html_checkbox(html.as_str());
    let html = convert_html_image(html.as_str());
    let html = convert_html_quote(html.as_str());
    let html = convert_html_line(html.as_str());
    let html = convert_html_list(html.as_str());
    let html = convert_html_url(html.as_str());
    let html = convert_html_emozi(html.as_str());
    let html = convert_html_bold(html.as_str());
    let html = convert_html_marker(html.as_str());
    let html = convert_html_insert(html.as_str());
    let html = convert_html_cancel(html.as_str());
    let html = convert_html_italic(html.as_str());
    let html = convert_html_youtube(html.as_str());
    let html = convert_html_newline(html.as_str());
    replace_code_post(html.as_str())
}

/// Whether the page can be converted (see `html_fits`).
pub fn can_convert_html(md: &str) -> (b: bool)
    ensures
        b == html_fits(md@),
{
    let html = delete_space(md);
    let html = convert_html_mermaid(html.as_str());
    let html = convert_html_flow(html.as_str());
    if !can_make_tables(html.as_str()) {
        return false;
    }
    let html = convert_html_table(html.as_str());
    let html = convert_html_alert(html.as_str());
    if !can_number_code(html.as_str()) {
        return false;
    }
    let html = convert_html_code_number(html.as_str());
    let html = convert_html_code(html.as_str());
    let html = convert_html_toc(html.as_str());
    let html = convert_html_header(html.as_str());
    let html = convert_html_checkbox(html.as_str());
    let html = convert_html_image(html.as_str());
    if !can_convert_quotes(html.as_str()) {
        return false;
    }
    let html = convert_html_quote(html.as_str());
    let html = convert_html_line(html.as_str());
    let html = convert_html_list(html.as_str());
    can_convert_url_lines(html.as_str())
}

/// The HTML body of a page (see `spec_convert_html`), or `None` where the page does not
/// fit (see `html_fits`).
pub fn try_convert_html(md: &str) -> (r: Option<String>)
    ensures
        r is Some <==> html_fits(md@),
        r matches Some(h) ==> h@ == spec_convert_html(md@),
{
    if can_convert_html(md) {
        Some(convert_html(md))
    } else {
        None
    }
}

/// Where a resource path is read from.
pub enum ResourceKind {
    /// The address of a markdown image `![..](address)`.
    Image,
    /// The `src` of an `<img>` element.
    ImageTag,
    /// A quoted movie address.
    Movie,
}

/// The server's upload directory for a server path: `/uploads/`, or
/// `/<url_path>/uploads/`.
pub open spec fn uploads_dir(url_path: Seq<char>) -> Seq<char> {
    if url_path.len() == 0 {
        "/uploads/"@
    } else {
        "/"@ + url_path + "/uploads/"@
    }
}

/// The local path of an uploaded file, if the piece `t` names one: the upload directory
/// `up` at its start replaced by `rp`. For an image, `t` is what follows a `(` and the
/// address ends at the next `)` (a size ` =WxH` and spaces dropped); for an `<img>`
/// element, `t` is a word of the line, the address following `src="` up to the next `"`;
/// for a movie, `t` is the text between two quotes and must hold `.mp4`.
pub open spec fn resource_in(kind: ResourceKind, t: Seq<char>, up: Seq<char>, rp: Seq<char>) -> Option<Seq<char>> {
    match kind {
        ResourceKind::Image => match split_once(t, ")"@) {
            Some((r, _)) => if starts_with(r, up) {
                Some(
                    match split_once(r, "="@) {
                        Some((f, _)) => replace(replace(f, " "@, ""@), up, rp),
                        None => replace(r, up, rp),
                    },
                )
            } else {
                None
            },
            None => None,
        },
        ResourceKind::ImageTag => match split_once(t, "src=\""@) {
            Some((_, r0)) => {
                let r = match split_once(r0, "\""@) {
                    Some((a, _)) => a,
                    None => r0,
                };
                if starts_with(r, up) {
                    Some(replace(r, up, rp))
                } else {
                    None
                }
            },
            None => None,
        },
        ResourceKind::Movie => if contains(t, up) && contains(t, ".mp4"@) && starts_with(t, up) {
            Some(replace(t, up, rp))
        } else {
            None
        },
    }
}

/// The resource paths named by the pieces `ts`, in order.
pub open spec fn resources_in(kind: ResourceKind, ts: Seq<Seq<char>>, up: Seq<char>, rp: Seq<char>) -> Seq<Seq<char>>
    decreases ts.len(),
{
    if ts.len() == 0 {
        seq![]
    } else {
        resources_in(kind, ts.drop_last(), up, rp) + match resource_in(kind, ts.last(), up, rp) {
            Some(x) => seq![x],
            None => seq![],
        }
    }
}

/// The resource paths named in the lines that match the wildcard pattern `pat`, each line
/// cut into pieces at `sep`.
pub open spec fn resources_in_lines(
    kind: ResourceKind,
    ls: Seq<Seq<char>>,
    pat: Seq<char>,
    sep: char,
    up: Seq<char>,
    rp: Seq<char>,
) -> Seq<Seq<char>>
    decreases ls.len(),
{
    if ls.len() == 0 {
        seq![]
    } else {
        resources_in_lines(kind, ls.drop_last(), pat, sep, up, rp) + if glob(pat, ls.last()) {
            resources_in(kind, split_char(ls.last(), sep), up, rp)
        } else {
            seq![]
        }
    }
}

/// The path of a PDF file that a word `t` of an `<iframe>` line names by `src="..pdf"`
/// and the upload directory `up`: the text from `/codimd/uploads/` through `.pdf`, with
/// `up` replaced by `rp`. The outer `None` where that text cannot be cut out (no
/// `/codimd/uploads/` in the word, or after its `.pdf`).
pub open spec fn pdf_in(t: Seq<char>, up: Seq<char>, rp: Seq<char>) -> Option<Option<Seq<char>>> {
    if !(glob("*src=\"*.pdf\"*"@, t) && contains(t, up)) {
        Some(None)
    } else {
        match (find(t, "/codimd/uploads/"@), find(t, ".pdf"@)) {
            (Some(f), Some(e)) => if f <= e + 4 {
                Some(Some(replace(t.subrange(f, e + 4), up, rp)))
            } else {
                None
            },
            _ => None,
        }
    }
}

/// The PDF paths named by the words `ts`, `None` where one cannot be cut out.
pub open spec fn pdfs_in(ts: Seq<Seq<char>>, up: Seq<char>, rp: Seq<char>) -> Option<Seq<Seq<char>>>
    decreases ts.len(),
{
    if ts.len() == 0 {
        Some(seq![])
    } else {
        match (pdfs_in(ts.drop_last(), up, rp), pdf_in(ts.last(), up, rp)) {
            (Some(a), Some(Some(x))) => Some(a + seq![x]),
            (Some(a), Some(None)) => Some(a),
            _ => None,
        }
    }
}

/// The PDF paths named in the `<iframe ..pdf..</iframe>` lines, word by word.
pub open spec fn pdfs_in_lines(ls: Seq<Seq<char>>, up: Seq<char>, rp: Seq<char>) -> Option<Seq<Seq<char>>>
    decreases ls.len(),
{
    if ls.len() == 0 {
        Some(seq![])
    } else {
        let here = if glob("*<iframe*.pdf*</iframe>*"@, ls.last()) {
            pdfs_in(split_char(ls.last(), ' '), up, rp)
        } else {
            Some(seq![])
        };
        match (pdfs_in_lines(ls.drop_last(), up, rp), here) {
            (Some(a), Some(b)) => Some(a + b),
            _ => None,
        }
    }
}

/// A line that the `<iframe>` PDF pattern matches holds `.pdf`.
proof fn lemma_iframe_glob_pdf(l: Seq<char>)
    requires
        glob("*<iframe*.pdf*</iframe>*"@, l),
    ensures
        contains(l, ".pdf"@),
{
    reveal_strlit("*<iframe*.pdf*</iframe>*");
    reveal_strlit("<iframe");
    reveal_strlit("*.pdf*</iframe>*");
    reveal_strlit(".pdf");
    reveal_strlit("*</iframe>*");
    let a = "<iframe"@;
    let r1 = "*.pdf*</iframe>*"@;
    let pd = ".pdf"@;
    let r2 = "*</iframe>*"@;
    assert("*<iframe*.pdf*</iframe>*"@ =~= seq!['*'] + (a + r1));
    let i = lemma_glob_star_front(a + r1, l);
    lemma_glob_plain_front(a, r1, l.skip(i));
    let l2 = l.skip(i).skip(7);
    assert(r1 =~= seq!['*'] + (pd + r2));
    let j = lemma_glob_star_front(pd + r2, l2);
    lemma_glob_plain_front(pd, r2, l2.skip(j));
    let k = i + 7 + j;
    assert(l.subrange(k, k + 4) =~= l2.skip(j).take(4));
    assert(is_at(l, k, pd));
    lemma_find_from(l, pd, 0);
}

/// Lines none of which holds `.pdf` name no PDF file.
proof fn lemma_no_pdf_lines(ls: Seq<Seq<char>>, up: Seq<char>, rp: Seq<char>)
    requires
        forall|i: int| 0 <= i < ls.len() ==> !contains(#[trigger] ls[i], ".pdf"@),
    ensures
        pdfs_in_lines(ls, up, rp) == Some(Seq::<Seq<char>>::empty()),
    decreases ls.len(),
{
    if ls.len() > 0 {
        lemma_no_pdf_lines(ls.drop_last(), up, rp);
        assert(!contains(ls[ls.len() - 1], ".pdf"@));
        if glob("*<iframe*.pdf*</iframe>*"@, ls.last()) {
            lemma_iframe_glob_pdf(ls.last());
        }
        assert(Seq::<Seq<char>>::empty() + Seq::<Seq<char>>::empty() =~= Seq::<Seq<char>>::empty());
    }
}

/// The local paths of the files that a page uses from the server's upload directory:
/// markdown images, `<img>` elements, movies in double and in single quotes, and PDF
/// files in `<iframe>`s, in that order; the upload directory replaced by
/// `resource_path`. `None` where a PDF path cannot be cut out (see `pdf_in`).
pub open spec fn resource_paths(html: Seq<char>, url_path: Seq<char>, resource_path: Seq<char>) -> Option<Seq<Seq<char>>> {
    let up = uploads_dir(url_path);
    let rp = resource_path;
    let ls = lines_of(html);
    let a = resources_in_lines(ResourceKind::Image, ls, "*![*](*.*)*"@, '(', up, rp);
    let b = resources_in_lines(ResourceKind::ImageTag, ls, "*<img*src=*/uploads/*>*"@, ' ', up, rp);
    let c = resources_in(ResourceKind::Movie, split_char(html, '"'), up, rp);
    let d = resources_in(ResourceKind::Movie, split_char(html, '\''), up, rp);
    match pdfs_in_lines(ls, up, rp) {
        Some(e) => Some(a + b + c + d + e),
        None => None,
    }
}

/// The characters of an optional vector.
pub open spec fn opt_chars(o: Option<Vec<char>>) -> Option<Seq<char>> {
    match o {
        Some(v) => Some(v@),
        None => None,
    }
}

/// The upload directory for a server path (see `uploads_dir`).
fn uploads_of(url_path: &str) -> (r: Vec<char>)
    ensures
        r@ == uploads_dir(url_path@),
        r@.len() > 0,
{
    proof {
        reveal_strlit("/uploads/");
        reveal_strlit("/");
    }
    let u = to_chars(url_path);
    if u.len() == 0 {
        to_chars("/uploads/")
    } else {
        let mut r = to_chars("/");
        append_chars(&mut r, u.as_slice());
        append_str(&mut r, "/uploads/");
        r
    }
}

/// The resource path that a piece names (see `resource_in`).
fn resource_of(kind: &ResourceKind, t: &[char], up: &[char], rp: &[char]) -> (r: Option<Vec<char>>)
    requires
        up@.len() > 0,
    ensures
        opt_chars(r) == resource_in(*kind, t@, up@, rp@),
{
    match kind {
        ResourceKind::Image => match split_once_str(t, ")") {
            Some((r, _)) => {
                if chars_at(r.as_slice(), 0, up) {
                    match split_once_str(r.as_slice(), "=") {
                        Some((f, _)) => {
                            let g = replace_str(f.as_slice(), " ", "");
                            Some(replace_chars(g.as_slice(), up, rp))
                        },
                        None => Some(replace_chars(r.as_slice(), up, rp)),
                    }
                } else {
                    None
                }
            },
            None => None,
        },
        ResourceKind::ImageTag => match split_once_str(t, "src=\"") {
            Some((_, r0)) => {
                let r = match split_once_str(r0.as_slice(), "\"") {
                    Some((a, _)) => a,
                    None => r0,
                };
                if chars_at(r.as_slice(), 0, up) {
                    Some(replace_chars(r.as_slice(), up, rp))
                } else {
                    None
                }
            },
            None => None,
        },
        ResourceKind::Movie => {
            if find_chars(t, up).is_some() && contains_str(t, ".mp4") && chars_at(t, 0, up) {
                Some(replace_chars(t, up, rp))
            } else {
                None
            }
        },
    }
}

/// The resource paths named by some pieces, added to `out` (see `resources_in`).
fn collect_resources(
    kind: &ResourceKind,
    ts: &Vec<Vec<char>>,
    up: &[char],
    rp: &[char],
    out: &mut Vec<String>,
)
    requires
        up@.len() > 0,
    ensures
        string_views(final(out)@) == string_views(old(out)@) + resources_in(*kind, views(ts@), up@, rp@),
{
    let mut k: usize = 0;
    while k < ts.len()
        invariant
            k <= ts@.len(),
            up@.len() > 0,
            string_views(out@) == string_views(old(out)@) + resources_in(*kind, views(ts@).take(k as int), up@, rp@),
        decreases ts@.len() - k,
    {
        let ghost pre = views(ts@).take(k as int);
        let ghost next = views(ts@).take(k + 1);
        assert(next.drop_last() == pre);
        assert(next.last() == ts@[k as int]@);
        let ghost before = out@;
        match resource_of(kind, ts[k].as_slice(), up, rp) {
            Some(v) => {
                out.push(from_chars(v.as_slice()));
                assert(string_views(out@) =~= string_views(before).push(v@));
            },
            None => {},
        }
        k += 1;
    }
    assert(views(ts@).take(ts@.len() as int) == views(ts@));
}

/// The resource paths named in the lines that match `pat`, added to `out` (see
/// `resources_in_lines`).
fn collect_line_resources(
    kind: &ResourceKind,
    ls: &Vec<Vec<char>>,
    pat: &str,
    sep: char,
    up: &[char],
    rp: &[char],
    out: &mut Vec<String>,
)
    requires
        up@.len() > 0,
    ensures
        string_views(final(out)@) == string_views(old(out)@) + resources_in_lines(*kind, views(ls@), pat@, sep, up@, rp@),
{
    let mut k: usize = 0;
    while k < ls.len()
        invariant
            k <= ls@.len(),
            up@.len() > 0,
            string_views(out@) == string_views(old(out)@) + resources_in_lines(
                *kind,
                views(ls@).take(k as int),
                pat@,
                sep,
                up@,
                rp@,
            ),
        decreases ls@.len() - k,
    {
        let ghost pre = views(ls@).take(k as int);
        let ghost next = views(ls@).take(k + 1);
        assert(next.drop_last() == pre);
        assert(next.last() == ls@[k as int]@);
        if glob_chars(pat, ls[k].as_slice()) {
            let ts = split_on(ls[k].as_slice(), sep);
            collect_resources(kind, &ts, up, rp, out);
        }
        k += 1;
    }
    assert(views(ls@).take(ls@.len() as int) == views(ls@));
}

/// Whether every PDF path named by the words of some `<iframe>` lines can be cut out,
/// and the paths, added to `out` (see `pdfs_in_lines`); on `false`, `out` holds some of
/// them.
fn collect_pdfs(ls: &Vec<Vec<char>>, up: &[char], rp: &[char], out: &mut Vec<String>) -> (ok: bool)
    requires
        up@.len() > 0,
    ensures
        ok == (pdfs_in_lines(views(ls@), up@, rp@) is Some),
        ok ==> string_views(final(out)@) == string_views(old(out)@) + pdfs_in_lines(views(ls@), up@, rp@)->0,
{
    let mut k: usize = 0;
    while k < ls.len()
        invariant
            k <= ls@.len(),
            up@.len() > 0,
            pdfs_in_lines(views(ls@).take(k as int), up@, rp@) is Some,
            string_views(out@) == string_views(old(out)@) + pdfs_in_lines(views(ls@).take(k as int), up@, rp@)->0,
        decreases ls@.len() - k,
    {
        let ghost pre = views(ls@).take(k as int);
        let ghost next = views(ls@).take(k + 1);
        assert(next.drop_last() == pre);
        assert(next.last() == ls@[k as int]@);
        let ghost line_start = out@;
        if glob_chars("*<iframe*.pdf*</iframe>*", ls[k].as_slice()) {
            let ts = split_on(ls[k].as_slice(), ' ');
            let mut j: usize = 0;
            while j < ts.len()
                invariant
                    j <= ts@.len(),
                    up@.len() > 0,
                    k < ls@.len(),
                    views(ts@) == split_char(ls@[k as int]@, ' '),
                    glob("*<iframe*.pdf*</iframe>*"@, ls@[k as int]@),
                    pdfs_in_lines(views(ls@).take(k as int), up@, rp@) is Some,
                    pdfs_in(views(ts@).take(j as int), up@, rp@) is Some,
                    string_views(out@) == string_views(line_start) + pdfs_in(views(ts@).take(j as int), up@, rp@)->0,
                decreases ts@.len() - j,
            {
                let ghost tpre = views(ts@).take(j as int);
                let ghost tnext = views(ts@).take(j + 1);
                assert(tnext.drop_last() == tpre);
                assert(tnext.last() == ts@[j as int]@);
                let t = ts[j].as_slice();
                if glob_chars("*src=\"*.pdf\"*", t) && find_chars(t, up).is_some() {
                    let f = to_chars("/codimd/uploads/");
                    let e = to_chars(".pdf");
                    match (find_chars(t, f.as_slice()), find_chars(t, e.as_slice())) {
                        (Some(a), Some(b)) => {
                            proof {
                                lemma_find_from(t@, e@, 0);
                                reveal_strlit(".pdf");
                            }
                            assert(t@.len() == t.len());
                            if a > b + 4 {
                                proof {
                                    lemma_pdf_line_fails(views(ls@), k as int, views(ts@), j as int, up@, rp@);
                                }
                                return false;
                            }
                            let piece = sub_chars(t, a, b + 4);
                            let r = replace_chars(piece.as_slice(), up, rp);
                            let ghost before = out@;
                            out.push(from_chars(r.as_slice()));
                            assert(string_views(out@) =~= string_views(before).push(r@));
                        },
                        _ => {
                            proof {
                                lemma_pdf_line_fails(views(ls@), k as int, views(ts@), j as int, up@, rp@);
                            }
                            return false;
                        },
                    }
                }
                j += 1;
            }
            assert(views(ts@).take(ts@.len() as int) == views(ts@));
        }
        k += 1;
    }
    assert(views(ls@).take(ls@.len() as int) == views(ls@));
    true
}

/// A word of an `<iframe>` line whose PDF path cannot be cut out spoils the whole page.
proof fn lemma_pdf_line_fails(ls: Seq<Seq<char>>, k: int, ts: Seq<Seq<char>>, j: int, up: Seq<char>, rp: Seq<char>)
    requires
        0 <= k < ls.len(),
        0 <= j < ts.len(),
        ts == split_char(ls[k], ' '),
        glob("*<iframe*.pdf*</iframe>*"@, ls[k]),
        pdf_in(ts[j], up, rp) is None,
    ensures
        pdfs_in_lines(ls, up, rp) is None,
{
    assert(ts.take(j + 1).drop_last() =~= ts.take(j));
    assert(ts.take(j + 1).last() == ts[j]);
    lemma_pdfs_none(ts, j + 1, up, rp);
    assert(ls.take(k + 1).drop_last() =~= ls.take(k));
    assert(ls.take(k + 1).last() == ls[k]);
    lemma_pdfs_lines_none(ls, k + 1, up, rp);
}

/// A word whose PDF path cannot be cut out spoils all the words after it too.
proof fn lemma_pdfs_none(ts: Seq<Seq<char>>, j: int, up: Seq<char>, rp: Seq<char>)
    requires
        0 <= j <= ts.len(),
        pdfs_in(ts.take(j), up, rp) is None,
    ensures
        pdfs_in(ts, up, rp) is None,
    decreases ts.len() - j,
{
    if j < ts.len() {
        assert(ts.take(j + 1).drop_last() =~= ts.take(j));
        lemma_pdfs_none(ts, j + 1, up, rp);
    } else {
        assert(ts.take(j) =~= ts);
    }
}

/// A line whose PDF paths cannot be cut out spoils all the lines after it too.
proof fn lemma_pdfs_lines_none(ls: Seq<Seq<char>>, k: int, up: Seq<char>, rp: Seq<char>)
    requires
        0 <= k <= ls.len(),
        pdfs_in_lines(ls.take(k), up, rp) is None,
    ensures
        pdfs_in_lines(ls, up, rp) is None,
    decreases ls.len() - k,
{
    if k < ls.len() {
        assert(ls.take(k + 1).drop_last() =~= ls.take(k));
        lemma_pdfs_lines_none(ls, k + 1, up, rp);
    } else {
        assert(ls.take(k) =~= ls);
    }
}

/// The local paths of the files that a page uses from the server (see
/// `resource_paths`); every PDF path must be one that can be cut out (see
/// `can_read_resource_paths`).
pub fn get_resource_path(html: &str, url_path: &str, resource_path: &str) -> (r: Vec<String>)
    requires
        resource_paths(html@, url_path@, resource_path@) is Some,
    ensures
        string_views(r@) == resource_paths(html@, url_path@, resource_path@)->0,
{
    let up = uploads_of(url_path);
    let rp = to_chars(resource_path);
    let hc = to_chars(html);
    let ls = split_lines(hc.as_slice());
    let mut res: Vec<String> = Vec::new();
    assert(string_views(res@) =~= Seq::<Seq<char>>::empty());
    collect_line_resources(&ResourceKind::Image, &ls, "*![*](*.*)*", '(', up.as_slice(), rp.as_slice(), &mut res);
    collect_line_resources(&ResourceKind::ImageTag, &ls, "*<img*src=*/uploads/*>*", ' ', up.as_slice(), rp.as_slice(), &mut res);
    let q = split_on(hc.as_slice(), '"');
    collect_resources(&ResourceKind::Movie, &q, up.as_slice(), rp.as_slice(), &mut res);
    let q2 = split_on(hc.as_slice(), '\'');
    collect_resources(&ResourceKind::Movie, &q2, up.as_slice(), rp.as_slice(), &mut res);
    collect_pdfs(&ls, up.as_slice(), rp.as_slice(), &mut res);
    res
}

/// Whether every PDF path of the page can be cut out (see `resource_paths`).
pub fn can_read_resource_paths(html: &str, url_path: &str, resource_path: &str) -> (b: bool)
    ensures
        b == (resource_paths(html@, url_path@, resource_path@) is Some),
{
    let up = uploads_of(url_path);
    let rp = to_chars(resource_path);
    let hc = to_chars(html);
    let ls = split_lines(hc.as_slice());
    let mut scratch: Vec<String> = Vec::new();
    collect_pdfs(&ls, up.as_slice(), rp.as_slice(), &mut scratch)
}

/// Where a downloaded page finds its copied resources.
pub const RESOURCE: &'static str = "./resource/";

/// One line with its server upload paths made local (to `RESOURCE`): in a line with a
/// markdown image, an `<img src=../uploads/upload_..>` element, a movie source, or a
/// PDF `<iframe>`, each in turn.
pub open spec fn local_paths_line(m: Seq<char>, up: Seq<char>) -> Seq<char> {
    let rs = RESOURCE@;
    let a = if glob("*![*](*)*"@, m) && contains(m, up) { replace(m, up, rs) } else { m };
    let b = if glob("*<img*src=*/uploads/upload_*>*"@, a) { replace(a, up, rs) } else { a };
    let c = if contains(b, up) && contains(b, ".mp4"@) && contains(b, "src="@) {
        replace(b, up, rs)
    } else {
        b
    };
    if glob("*<iframe*.pdf*</iframe>*"@, c) { replace(c, up, rs) } else { c }
}

/// A movie line points to the local copies: a line that holds the upload directory,
/// `.mp4` and `src=` comes out with each occurrence of the upload directory replaced by
/// `./resource/`, and no upload directory left in it, wherever that replacement leaves
/// none behind.
pub proof fn law_movie_paths_local(m: Seq<char>, url_path: Seq<char>)
    requires
        contains(m, uploads_dir(url_path)),
        contains(m, ".mp4"@),
        contains(m, "src="@),
        !contains(replace(m, uploads_dir(url_path), "./resource/"@), uploads_dir(url_path)),
    ensures
        local_paths_line(m, uploads_dir(url_path)) == replace(m, uploads_dir(url_path), "./resource/"@),
        !contains(local_paths_line(m, uploads_dir(url_path)), uploads_dir(url_path)),
{
    let up = uploads_dir(url_path);
    let rs = RESOURCE@;
    assert(rs == "./resource/"@);
    let r = replace(m, up, rs);
    lemma_replace_not_found(r, up, rs);
    assert(replace(r, up, rs) == r);
}

/// The markdown with the paths of its uploaded images, movies and PDF files pointing to
/// the local copies (see `local_paths_line`).
pub open spec fn spec_replace_path(md: Seq<char>, url_path: Seq<char>) -> Seq<char> {
    join_lines(lines_of(md).map_values(|m: Seq<char>| local_paths_line(m, uploads_dir(url_path))))
}

/// See `local_paths_line`.
fn local_paths(m: &[char], up: &[char]) -> (r: Vec<char>)
    requires
        up@.len() > 0,
    ensures
        r@ == local_paths_line(m@, up@),
{
    let rs = to_chars(RESOURCE);
    let a = if glob_chars("*![*](*)*", m) && find_chars(m, up).is_some() {
        replace_chars(m, up, rs.as_slice())
    } else {
        copy_chars(m)
    };
    let b = if glob_chars("*<img*src=*/uploads/upload_*>*", a.as_slice()) {
        replace_chars(a.as_slice(), up, rs.as_slice())
    } else {
        a
    };
    let c = if find_chars(b.as_slice(), up).is_some() && contains_str(b.as_slice(), ".mp4")
        && contains_str(b.as_slice(), "src=") {
        replace_chars(b.as_slice(), up, rs.as_slice())
    } else {
        b
    };
    if glob_chars("*<iframe*.pdf*</iframe>*", c.as_slice()) {
        replace_chars(c.as_slice(), up, rs.as_slice())
    } else {
        c
    }
}

/// The markdown with its upload paths made local (see `spec_replace_path`).
pub fn replace_path(md: &str, url_path: &str) -> (r: String)
    ensures
        r@ == spec_replace_path(md@, url_path@),
{
    let up = uploads_of(url_path);
    let lines = lines_str(md);
    let ghost ls = views(lines@);
    let ghost f = |m: Seq<char>| local_paths_line(m, uploads_dir(url_path@));
    let mut out: Vec<Vec<char>> = Vec::new();
    let mut i: usize = 0;
    while i < lines.len()
        invariant
            i <= lines@.len(),
            ls == views(lines@),
            up@ == uploads_dir(url_path@),
            up@.len() > 0,
            f == (|m: Seq<char>| local_paths_line(m, uploads_dir(url_path@))),
            views(out@) == ls.take(i as int).map_values(f),
        decreases lines@.len() - i,
    {
        assert(ls[i as int] == lines@[i as int]@);
        push_line(&mut out, local_paths(lines[i].as_slice(), up.as_slice()));
        assert(views(out@) =~= ls.take(i + 1).map_values(f));
        i += 1;
    }
    assert(ls.take(lines@.len() as int) == ls);
    join_string(&out)
}

/// A numbered code block whose closing fence comes `c` lines after its opening holds
/// `c - 1` code lines; for `c` at least 3 its gutter has exactly one line per code line,
/// numbered `num`, `num + 1`, ... in order, the first opening the gutter and the last
/// ending it.
pub proof fn law_gutter_numbers_code_lines(num: nat, c: nat)
    requires
        c >= 3,
    ensures
        gutter_lines(num, c).len() == c - 1,
        forall|k: int|
            0 <= k < c - 1 ==> #[trigger] gutter_lines(num, c)[k] == (if k == 0 {
                GUTTER_HEAD@ + span_line(num)
            } else if k == c - 2 {
                span_line((num + k) as nat) + GUTTER_END@
            } else {
                span_line((num + k) as nat)
            }),
{
}

/// The character of a digit is an ASCII digit worth that digit.
proof fn lemma_digit_char(d: nat)
    requires
        d < 10,
    ensures
        '0' <= digit_char(d) <= '9',
        (digit_char(d) as int) - ('0' as int) == d,
{
}

/// The decimal digits of a number are all digits, and they write that number.
proof fn lemma_decimal_digits(n: nat)
    ensures
        all_digits(decimal(n)),
        decimal(n).len() > 0,
        digits_value(decimal(n)) == n,
    decreases n,
{
    if n >= 10 {
        lemma_decimal_digits(n / 10);
        let d = decimal(n);
        assert(d.drop_last() =~= decimal(n / 10));
        assert(d.last() == digit_char(n % 10));
        lemma_digit_char(n % 10);
        assert(digits_value(d) == digits_value(d.drop_last()) * 10 + ((d.last() as int) - ('0' as int)) as nat);
        assert(n == (n / 10) * 10 + n % 10);
    } else {
        let d = decimal(n);
        assert(d.drop_last() =~= Seq::<char>::empty());
        lemma_digit_char(n);
        assert(d.last() == digit_char(n));
        assert(digits_value(d) == digits_value(d.drop_last()) * 10 + ((d.last() as int) - ('0' as int)) as nat);
    }
}

/// Reading back what a `usize` is written as gives that `usize`: `parse_number` undoes
/// `usize_chars`.
pub proof fn law_parse_undoes_decimal(n: nat)
    requires
        n <= usize::MAX,
    ensures
        parse_usize(decimal(n)) == Some(n),
{
    lemma_decimal_digits(n);
    assert('0' <= decimal(n)[0] <= '9');
}

/// One of the characters that stand in for code characters (see
/// `spec_replace_code_pre`).
pub open spec fn is_stand_in(c: char) -> bool {
    c == 'Ò' || c == 'Ó' || c == 'Ô' || c == 'Õ' || c == 'Ñ' || c == 'Ð' || c == 'ℜ' || c == '𝒻'
}

/// A text with `<` and `>` written as the entities `&lt;` and `&gt;`.
pub open spec fn escape_angles(x: Seq<char>) -> Seq<char> {
    replace(replace(x, "<"@, "&lt;"@), ">"@, "&gt;"@)
}

/// Putting code characters out of reach works character by character.
proof fn lemma_pre_concat(u: Seq<char>, v: Seq<char>)
    ensures
        spec_replace_code_pre(u + v) == spec_replace_code_pre(u) + spec_replace_code_pre(v),
{
    reveal_strlit("<");
    reveal_strlit("&lt;");
    reveal_strlit(">");
    reveal_strlit("&gt;");
    reveal_strlit("=");
    reveal_strlit("Ò");
    reveal_strlit("*");
    reveal_strlit("Ó");
    reveal_strlit("+");
    reveal_strlit("Ô");
    reveal_strlit("~");
    reveal_strlit("Õ");
    reveal_strlit("_");
    reveal_strlit("Ñ");
    reveal_strlit("#");
    reveal_strlit("Ð");
    reveal_strlit("-");
    reveal_strlit("ℜ");
    reveal_strlit("!");
    reveal_strlit(" 𝒻");
    lemma_replace_concat(u, v, "<"@, "&lt;"@);
    let u0 = replace(u, "<"@, "&lt;"@);
    let v0 = replace(v, "<"@, "&lt;"@);
    lemma_replace_concat(u0, v0, ">"@, "&gt;"@);
    let u1 = replace(u0, ">"@, "&gt;"@);
    let v1 = replace(v0, ">"@, "&gt;"@);
    lemma_replace_concat(u1, v1, "="@, "Ò"@);
    let u2 = replace(u1, "="@, "Ò"@);
    let v2 = replace(v1, "="@, "Ò"@);
    lemma_replace_concat(u2, v2, "*"@, "Ó"@);
    let u3 = replace(u2, "*"@, "Ó"@);
    let v3 = replace(v2, "*"@, "Ó"@);
    lemma_replace_concat(u3, v3, "+"@, "Ô"@);
    let u4 = replace(u3, "+"@, "Ô"@);
    let v4 = replace(v3, "+"@, "Ô"@);
    lemma_replace_concat(u4, v4, "~"@, "Õ"@);
    let u5 = replace(u4, "~"@, "Õ"@);
    let v5 = replace(v4, "~"@, "Õ"@);
    lemma_replace_concat(u5, v5, "_"@, "Ñ"@);
    let u6 = replace(u5, "_"@, "Ñ"@);
    let v6 = replace(v5, "_"@, "Ñ"@);
    lemma_replace_concat(u6, v6, "#"@, "Ð"@);
    let u7 = replace(u6, "#"@, "Ð"@);
    let v7 = replace(v6, "#"@, "Ð"@);
    lemma_replace_concat(u7, v7, "-"@, "ℜ"@);
    let u8 = replace(u7, "-"@, "ℜ"@);
    let v8 = replace(v7, "-"@, "ℜ"@);
    lemma_replace_concat(u8, v8, "!"@, " 𝒻"@);
    let u9 = replace(u8, "!"@, " 𝒻"@);
    let v9 = replace(v8, "!"@, " 𝒻"@);
}

/// Turning the one-character stand-ins back works character by character.
proof fn lemma_singles_concat(u: Seq<char>, v: Seq<char>)
    ensures
        restore_single_stand_ins(u + v) == restore_single_stand_ins(u) + restore_single_stand_ins(v),
{
    reveal_strlit("<");
    reveal_strlit("&lt;");
    reveal_strlit(">");
    reveal_strlit("&gt;");
    reveal_strlit("=");
    reveal_strlit("Ò");
    reveal_strlit("*");
    reveal_strlit("Ó");
    reveal_strlit("+");
    reveal_strlit("Ô");
    reveal_strlit("~");
    reveal_strlit("Õ");
    reveal_strlit("_");
    reveal_strlit("Ñ");
    reveal_strlit("#");
    reveal_strlit("Ð");
    reveal_strlit("-");
    reveal_strlit("ℜ");
    reveal_strlit("!");
    reveal_strlit(" 𝒻");
    lemma_replace_concat(u, v, "Ò"@, "="@);
    let u0 = replace(u, "Ò"@, "="@);
    let v0 = replace(v, "Ò"@, "="@);
    lemma_replace_concat(u0, v0, "Ó"@, "*"@);
    let u1 = replace(u0, "Ó"@, "*"@);
    let v1 = replace(v0, "Ó"@, "*"@);
    lemma_replace_concat(u1, v1, "Ô"@, "+"@);
    let u2 = replace(u1, "Ô"@, "+"@);
    let v2 = replace(v1, "Ô"@, "+"@);
    lemma_replace_concat(u2, v2, "Õ"@, "~"@);
    let u3 = replace(u2, "Õ"@, "~"@);
    let v3 = replace(v2, "Õ"@, "~"@);
    lemma_replace_concat(u3, v3, "Ñ"@, "_"@);
    let u4 = replace(u3, "Ñ"@, "_"@);
    let v4 = replace(v3, "Ñ"@, "_"@);
    lemma_replace_concat(u4, v4, "Ð"@, "#"@);
    let u5 = replace(u4, "Ð"@, "#"@);
    let v5 = replace(v4, "Ð"@, "#"@);
    lemma_replace_concat(u5, v5, "ℜ"@, "-"@);
    let u6 = replace(u5, "ℜ"@, "-"@);
    let v6 = replace(v5, "ℜ"@, "-"@);
}

/// Writing the angle brackets as entities works character by character.
proof fn lemma_escape_concat(u: Seq<char>, v: Seq<char>)
    ensures
        escape_angles(u + v) == escape_angles(u) + escape_angles(v),
{
    reveal_strlit("<");
    reveal_strlit("&lt;");
    reveal_strlit(">");
    reveal_strlit("&gt;");
    reveal_strlit("=");
    reveal_strlit("Ò");
    reveal_strlit("*");
    reveal_strlit("Ó");
    reveal_strlit("+");
    reveal_strlit("Ô");
    reveal_strlit("~");
    reveal_strlit("Õ");
    reveal_strlit("_");
    reveal_strlit("Ñ");
    reveal_strlit("#");
    reveal_strlit("Ð");
    reveal_strlit("-");
    reveal_strlit("ℜ");
    reveal_strlit("!");
    reveal_strlit(" 𝒻");
    lemma_replace_concat(u, v, "<"@, "&lt;"@);
    let u0 = replace(u, "<"@, "&lt;"@);
    let v0 = replace(v, "<"@, "&lt;"@);
    lemma_replace_concat(u0, v0, ">"@, "&gt;"@);
    let u1 = replace(u0, ">"@, "&gt;"@);
    let v1 = replace(v0, ">"@, "&gt;"@);
}

/// One character that is not a stand-in comes back from its stand-in, its angle
/// brackets written as entities; what stands for it, with the one-character stand-ins
/// turned back, does not start with `𝒻`.
proof fn lemma_code_char(c: char)
    requires
        !is_stand_in(c),
    ensures
        restore_code_chars(spec_replace_code_pre(seq![c])) == escape_angles(seq![c]),
        restore_single_stand_ins(spec_replace_code_pre(seq![c])).len() > 0,
        restore_single_stand_ins(spec_replace_code_pre(seq![c]))[0] != '𝒻',
{
    reveal_strlit("<");
    reveal_strlit("&lt;");
    reveal_strlit(">");
    reveal_strlit("&gt;");
    reveal_strlit("=");
    reveal_strlit("Ò");
    reveal_strlit("*");
    reveal_strlit("Ó");
    reveal_strlit("+");
    reveal_strlit("Ô");
    reveal_strlit("~");
    reveal_strlit("Õ");
    reveal_strlit("_");
    reveal_strlit("Ñ");
    reveal_strlit("#");
    reveal_strlit("Ð");
    reveal_strlit("-");
    reveal_strlit("ℜ");
    reveal_strlit("!");
    reveal_strlit(" 𝒻");
    let s0 = seq![c];
    lemma_replace_step(s0, "<"@, "&lt;"@);
    let p0 = replace(s0, "<"@, "&lt;"@);
    lemma_replace_step(p0, ">"@, "&gt;"@);
    let p1 = replace(p0, ">"@, "&gt;"@);
    lemma_replace_step(p1, "="@, "Ò"@);
    let p2 = replace(p1, "="@, "Ò"@);
    lemma_replace_step(p2, "*"@, "Ó"@);
    let p3 = replace(p2, "*"@, "Ó"@);
    lemma_replace_step(p3, "+"@, "Ô"@);
    let p4 = replace(p3, "+"@, "Ô"@);
    lemma_replace_step(p4, "~"@, "Õ"@);
    let p5 = replace(p4, "~"@, "Õ"@);
    lemma_replace_step(p5, "_"@, "Ñ"@);
    let p6 = replace(p5, "_"@, "Ñ"@);
    lemma_replace_step(p6, "#"@, "Ð"@);
    let p7 = replace(p6, "#"@, "Ð"@);
    lemma_replace_step(p7, "-"@, "ℜ"@);
    let p8 = replace(p7, "-"@, "ℜ"@);
    lemma_replace_step(p8, "!"@, " 𝒻"@);
    let p9 = replace(p8, "!"@, " 𝒻"@);

    assert(p9 == spec_replace_code_pre(s0));
    lemma_replace_step(p9, "Ò"@, "="@);
    let r0 = replace(p9, "Ò"@, "="@);
    lemma_replace_step(r0, "Ó"@, "*"@);
    let r1 = replace(r0, "Ó"@, "*"@);
    lemma_replace_step(r1, "Ô"@, "+"@);
    let r2 = replace(r1, "Ô"@, "+"@);
    lemma_replace_step(r2, "Õ"@, "~"@);
    let r3 = replace(r2, "Õ"@, "~"@);
    lemma_replace_step(r3, "Ñ"@, "_"@);
    let r4 = replace(r3, "Ñ"@, "_"@);
    lemma_replace_step(r4, "Ð"@, "#"@);
    let r5 = replace(r4, "Ð"@, "#"@);
    lemma_replace_step(r5, "ℜ"@, "-"@);
    let r6 = replace(r5, "ℜ"@, "-"@);

    assert(r6 == restore_single_stand_ins(p9));
    let q = r6;
    if q == " 𝒻"@ {
        lemma_replace_whole(" 𝒻"@, "!"@);
    } else {
        lemma_replace_absent(q, " 𝒻"@, "!"@);
    }
    lemma_replace_step(s0, "<"@, "&lt;"@);
    let e0 = replace(s0, "<"@, "&lt;"@);
    lemma_replace_step(e0, ">"@, "&gt;"@);
    let e1 = replace(e0, ">"@, "&gt;"@);

    assert(e1 == escape_angles(s0));
}

/// Turning the stand-ins back undoes `replace_code_pre`, all but the angle brackets,
/// which stay written as entities: for code text that holds none of the stand-in
/// characters, `restore_code_chars(spec_replace_code_pre(x))` is `x` with `<` and `>`
/// written as `&lt;` and `&gt;`.
pub proof fn law_code_stand_ins_restored(x: Seq<char>)
    requires
        forall|k: int| 0 <= k < x.len() ==> !is_stand_in(#[trigger] x[k]),
    ensures
        restore_code_chars(spec_replace_code_pre(x)) == escape_angles(x),
    decreases x.len(),
{
    reveal_strlit("<");
    reveal_strlit("&lt;");
    reveal_strlit(">");
    reveal_strlit("&gt;");
    reveal_strlit("=");
    reveal_strlit("Ò");
    reveal_strlit("*");
    reveal_strlit("Ó");
    reveal_strlit("+");
    reveal_strlit("Ô");
    reveal_strlit("~");
    reveal_strlit("Õ");
    reveal_strlit("_");
    reveal_strlit("Ñ");
    reveal_strlit("#");
    reveal_strlit("Ð");
    reveal_strlit("-");
    reveal_strlit("ℜ");
    reveal_strlit("!");
    reveal_strlit(" 𝒻");
    if x.len() == 0 {
        assert(spec_replace_code_pre(x) == x);
        assert(restore_single_stand_ins(x) == x);
        lemma_replace_absent(x, " 𝒻"@, "!"@);
        assert(escape_angles(x) == x);
    } else {
        let c = x[0];
        let rest = x.drop_first();
        assert(x =~= seq![c] + rest);
        law_code_stand_ins_restored(rest);
        lemma_code_char(c);
        lemma_pre_concat(seq![c], rest);
        lemma_escape_concat(seq![c], rest);
        let a = spec_replace_code_pre(seq![c]);
        let b = spec_replace_code_pre(rest);
        lemma_singles_concat(a, b);
        let ra = restore_single_stand_ins(a);
        let rb = restore_single_stand_ins(b);
        if rb.len() > 0 {
            let c2 = rest[0];
            let rest2 = rest.drop_first();
            assert(rest =~= seq![c2] + rest2);
            lemma_code_char(c2);
            lemma_pre_concat(seq![c2], rest2);
            lemma_singles_concat(spec_replace_code_pre(seq![c2]), spec_replace_code_pre(rest2));
            assert(rb[0] == restore_single_stand_ins(spec_replace_code_pre(seq![c2]))[0]);
        }
        lemma_replace_concat(ra, rb, " 𝒻"@, "!"@);
    }
}

/// The line-break conversion of the lines from `i` on writes one line for each, either
/// the line itself or, where it is not the last line and `spec_is_line_newline` holds,
/// the line with `<br>` added.
proof fn lemma_newline_from(ls: Seq<Seq<char>>, i: int, script: bool, code: bool)
    requires
        0 <= i <= ls.len(),
    ensures
        newline_from(ls, i, script, code).len() == ls.len() - i,
        forall|j: int|
            i <= j < ls.len() ==> (#[trigger] newline_from(ls, i, script, code)[j - i] == ls[j] || (
            newline_from(ls, i, script, code)[j - i] == ls[j] + "<br>"@ && j + 1 < ls.len()
                && spec_is_line_newline(ls[j]))),
    decreases ls.len() - i,
{
    if i < ls.len() {
        let l = ls[i];
        let s1 = script || starts_with(l, SCRIPT_OPEN@);
        let c1 = code || contains(l, "<pre><code>"@);
        let s2 = if starts_with(l, "</script>"@) { false } else { s1 };
        let c2 = if contains(l, "</code></pre>"@) { false } else { c1 };
        lemma_newline_from(ls, i + 1, s2, c2);
        let r = newline_from(ls, i, script, code);
        assert(r == seq![newline_line(ls, i, s1 || c1)] + newline_from(ls, i + 1, s2, c2));
        assert forall|j: int| i <= j < ls.len() implies (#[trigger] r[j - i] == ls[j] || (r[j - i]
            == ls[j] + "<br>"@ && j + 1 < ls.len() && spec_is_line_newline(ls[j]))) by {
            if j > i {
                assert(r[j - i] == newline_from(ls, i + 1, s2, c2)[j - (i + 1)]);
            }
        }
    }
}

/// The line-break conversion keeps the lines of the page: cut at its newlines, the
/// result has as many lines as the page, and each is the page's line or, where it is not
/// the last line and `spec_is_line_newline` holds, that line with `<br>` added.
pub proof fn law_newline_keeps_lines(md: Seq<char>)
    requires
        lines_of(md).len() >= 1,
    ensures
        ({
            let ls = lines_of(md);
            let r = split_char(spec_convert_html_newline(md), '\n');
            &&& r.len() == ls.len()
            &&& forall|i: int|
                0 <= i < ls.len() ==> (#[trigger] r[i] == ls[i] || (r[i] == ls[i] + "<br>"@ && i + 1
                    < ls.len() && spec_is_line_newline(ls[i])))
        }),
{
    let ls = lines_of(md);
    let out = newline_from(ls, 0, false, false);
    lemma_newline_from(ls, 0, false, false);
    lemma_lines_no_newline(md);
    reveal_strlit("<br>");
    assert forall|i: int| 0 <= i < out.len() implies no_newline(#[trigger] out[i]) by {
        assert(out[i - 0] == out[i]);
        assert(no_newline(ls[i]));
        if out[i] != ls[i] {
            assert(out[i] == ls[i] + "<br>"@);
        }
    }
    lemma_split_join(out);
    assert forall|i: int| 0 <= i < ls.len() implies (#[trigger] out[i] == ls[i] || (out[i] == ls[i]
        + "<br>"@ && i + 1 < ls.len() && spec_is_line_newline(ls[i]))) by {
        assert(out[i - 0] == out[i]);
    }
}

/// The rule conversion works line by line: cut at its newlines, the result has as many
/// lines as the page, each horizontal rule (see `is_rule`) made `<hr></hr>` and every
/// other line unchanged.
pub proof fn law_rules_line_by_line(md: Seq<char>)
    requires
        lines_of(md).len() >= 1,
    ensures
        ({
            let ls = lines_of(md);
            let r = split_char(spec_convert_html_line(md), '\n');
            &&& r.len() == ls.len()
            &&& forall|i: int|
                0 <= i < ls.len() ==> #[trigger] r[i] == (if is_rule(ls[i]) { "<hr></hr>"@ } else { ls[i] })
        }),
{
    let ls = lines_of(md);
    let out = rule_lines(ls);
    lemma_lines_no_newline(md);
    reveal_strlit("<hr></hr>");
    assert forall|i: int| 0 <= i < out.len() implies no_newline(#[trigger] out[i]) by {
        assert(no_newline(ls[i]));
    }
    lemma_split_join(out);
}

/// A page whose lines do not hold the server's upload directory keeps its paths:
/// `replace_path` gives its lines joined again unchanged.
pub proof fn law_replace_path_without_uploads(md: Seq<char>, url_path: Seq<char>)
    requires
        forall|i: int| 0 <= i < lines_of(md).len() ==> !contains(#[trigger] lines_of(md)[i], uploads_dir(url_path)),
    ensures
        spec_replace_path(md, url_path) == join_lines(lines_of(md)),
{
    let ls = lines_of(md);
    let up = uploads_dir(url_path);
    let rs = RESOURCE@;
    assert forall|i: int| 0 <= i < ls.len() implies #[trigger] local_paths_line(ls[i], up) == ls[i] by {
        let m = ls[i];
        lemma_replace_not_found(m, up, rs);
    }
    assert(ls.map_values(|m: Seq<char>| local_paths_line(m, uploads_dir(url_path))) =~= ls);
}

/// Whether a text holds neither a space nor `=`.
pub open spec fn plain_dir(u: Seq<char>) -> bool {
    forall|k: int| 0 <= k < u.len() ==> #[trigger] u[k] != ' ' && u[k] != '='
}

/// A text starting with the pattern starts, after the replacement, with what replaces it.
proof fn lemma_replace_start(x: Seq<char>, p: Seq<char>, t: Seq<char>)
    requires
        p.len() > 0,
        starts_with(x, p),
    ensures
        starts_with(replace(x, p, t), t),
{
    let r = replace(x, p, t);
    assert(r == t + replace(x.skip(p.len() as int), p, t));
    assert(r.subrange(0, t.len() as int) =~= t);
}

/// Each resource path read from a piece starts with the resource folder, when the upload
/// directory holds no space and no `=`.
proof fn lemma_resource_in_starts(kind: ResourceKind, t: Seq<char>, up: Seq<char>, rp: Seq<char>)
    requires
        up.len() > 0,
        plain_dir(up),
        resource_in(kind, t, up, rp) is Some,
    ensures
        starts_with(resource_in(kind, t, up, rp)->0, rp),
{
    match kind {
        ResourceKind::Image => {
            let r = match split_once(t, ")"@) {
                Some((a, _)) => a,
                None => t,
            };
            match split_once(r, "="@) {
                Some((f, _)) => {
                    reveal_strlit("=");
                    reveal_strlit(" ");
                    lemma_find_from(r, "="@, 0);
                    let j = find(r, "="@)->0;
                    assert(f == r.take(j));
                    if j < up.len() {
                        assert(r.subrange(j, j + 1)[0] == r[j]);
                        assert(r[j] == r.subrange(0, up.len() as int)[j]);
                        assert(up[j] != '=');
                    }
                    let rest = f.skip(up.len() as int);
                    assert(f =~= up + rest);
                    assert(r.subrange(0, up.len() as int) == up);
                    assert forall|k: int| 0 <= k < up.len() implies up[k] != " "@[" "@.len() - 1] by {
                        assert(up[k] != ' ');
                    }
                    lemma_replace_absent(up, " "@, ""@);
                    lemma_replace_concat(up, rest, " "@, ""@);
                    let g = replace(f, " "@, ""@);
                    assert(g == up + replace(rest, " "@, ""@));
                    assert(g.subrange(0, up.len() as int) =~= up);
                    lemma_replace_start(g, up, rp);
                },
                None => {
                    lemma_replace_start(r, up, rp);
                },
            }
        },
        ResourceKind::ImageTag => {
            let r0 = match split_once(t, "src=\""@) {
                Some((_, b)) => b,
                None => t,
            };
            let r = match split_once(r0, "\""@) {
                Some((a, _)) => a,
                None => r0,
            };
            lemma_replace_start(r, up, rp);
        },
        ResourceKind::Movie => {
            lemma_replace_start(t, up, rp);
        },
    }
}

/// Each resource path read from some pieces starts with the resource folder.
proof fn lemma_resources_in_start(kind: ResourceKind, ts: Seq<Seq<char>>, up: Seq<char>, rp: Seq<char>)
    requires
        up.len() > 0,
        plain_dir(up),
    ensures
        forall|i: int| 0 <= i < resources_in(kind, ts, up, rp).len() ==> starts_with(#[trigger] resources_in(kind, ts, up, rp)[i], rp),
    decreases ts.len(),
{
    if ts.len() > 0 {
        lemma_resources_in_start(kind, ts.drop_last(), up, rp);
        if resource_in(kind, ts.last(), up, rp) is Some {
            lemma_resource_in_starts(kind, ts.last(), up, rp);
        }
        let a = resources_in(kind, ts.drop_last(), up, rp);
        let all = resources_in(kind, ts, up, rp);
        assert forall|i: int| 0 <= i < all.len() implies starts_with(#[trigger] all[i], rp) by {
            if i < a.len() {
                assert(all[i] == a[i]);
            }
        }
    }
}

/// Each resource path read from some lines starts with the resource folder.
proof fn lemma_resources_in_lines_start(
    kind: ResourceKind,
    ls: Seq<Seq<char>>,
    pat: Seq<char>,
    sep: char,
    up: Seq<char>,
    rp: Seq<char>,
)
    requires
        up.len() > 0,
        plain_dir(up),
    ensures
        forall|i: int|
            0 <= i < resources_in_lines(kind, ls, pat, sep, up, rp).len() ==> starts_with(
                #[trigger] resources_in_lines(kind, ls, pat, sep, up, rp)[i],
                rp,
            ),
    decreases ls.len(),
{
    if ls.len() > 0 {
        lemma_resources_in_lines_start(kind, ls.drop_last(), pat, sep, up, rp);
        lemma_resources_in_start(kind, split_char(ls.last(), sep), up, rp);
        let a = resources_in_lines(kind, ls.drop_last(), pat, sep, up, rp);
        let b = if glob(pat, ls.last()) { resources_in(kind, split_char(ls.last(), sep), up, rp) } else { seq![] };
        let all = resources_in_lines(kind, ls, pat, sep, up, rp);
        assert(all == a + b);
        assert forall|i: int| 0 <= i < all.len() implies starts_with(#[trigger] all[i], rp) by {
            if i < a.len() {
                assert(all[i] == a[i]);
            } else {
                assert(all[i] == b[i - a.len()]);
            }
        }
    }
}

/// Every resource path read from a page is the resource folder in place of the upload
/// directory at its start: where the server path holds no space and no `=`, and no line
/// of the page holds `.pdf`, each path that `get_resource_path` gives starts with
/// `resource_path`.
pub proof fn law_resource_paths_are_local(html: Seq<char>, url_path: Seq<char>, resource_path: Seq<char>)
    requires
        plain_dir(url_path),
        forall|i: int| 0 <= i < lines_of(html).len() ==> !contains(#[trigger] lines_of(html)[i], ".pdf"@),
    ensures
        resource_paths(html, url_path, resource_path) is Some,
        forall|i: int|
            0 <= i < resource_paths(html, url_path, resource_path)->0.len() ==> starts_with(
                #[trigger] resource_paths(html, url_path, resource_path)->0[i],
                resource_path,
            ),
{
    let up = uploads_dir(url_path);
    let rp = resource_path;
    let ls = lines_of(html);
    lemma_no_pdf_lines(ls, up, rp);
    reveal_strlit("/uploads/");
    reveal_strlit("/");
    assert(plain_dir(up)) by {
        assert forall|k: int| 0 <= k < up.len() implies #[trigger] up[k] != ' ' && up[k] != '=' by {
            if url_path.len() != 0 {
                if 1 <= k < 1 + url_path.len() {
                    assert(up[k] == url_path[k - 1]);
                }
            }
        }
    }
    lemma_resources_in_lines_start(ResourceKind::Image, ls, "*![*](*.*)*"@, '(', up, rp);
    lemma_resources_in_lines_start(ResourceKind::ImageTag, ls, "*<img*src=*/uploads/*>*"@, ' ', up, rp);
    lemma_resources_in_start(ResourceKind::Movie, split_char(html, '"'), up, rp);
    lemma_resources_in_start(ResourceKind::Movie, split_char(html, '\''), up, rp);
    let a = resources_in_lines(ResourceKind::Image, ls, "*![*](*.*)*"@, '(', up, rp);
    let b = resources_in_lines(ResourceKind::ImageTag, ls, "*<img*src=*/uploads/*>*"@, ' ', up, rp);
    let c = resources_in(ResourceKind::Movie, split_char(html, '"'), up, rp);
    let d = resources_in(ResourceKind::Movie, split_char(html, '\''), up, rp);
    let all = resource_paths(html, url_path, rp)->0;
    assert(all == a + b + c + d + Seq::<Seq<char>>::empty());
    assert forall|i: int| 0 <= i < all.len() implies starts_with(#[trigger] all[i], rp) by {
        if i < a.len() {
            assert(all[i] == a[i]);
        } else if i < a.len() + b.len() {
            assert(all[i] == b[i - a.len()]);
        } else if i < a.len() + b.len() + c.len() {
            assert(all[i] == c[i - a.len() - b.len()]);
        } else {
            assert(all[i] == d[i - a.len() - b.len() - c.len()]);
        }
    }
}

/// Whether a flow chart is open, and the number of the next chart, before line `i` of
/// the flow chart conversion.
pub open spec fn flow_state(ls: Seq<Seq<char>>, i: int) -> (bool, nat)
    decreases i,
{
    if i <= 0 || i > ls.len() {
        (false, 1)
    } else {
        let (on, n) = flow_state(ls, i - 1);
        let l = ls[i - 1];
        if fence_is(l, "```flow"@) && !on {
            (true, n)
        } else if fence_is(l, "```"@) && on {
            (false, n + 1)
        } else {
            (on, n)
        }
    }
}

/// Whether line `i` opens a flow chart.
pub open spec fn opens_flow(ls: Seq<Seq<char>>, i: int) -> bool {
    fence_is(ls[i], "```flow"@) && !flow_state(ls, i).0
}

/// How many of the lines before line `i` open a flow chart.
pub open spec fn flow_opens_before(ls: Seq<Seq<char>>, i: int) -> nat
    decreases i,
{
    if i <= 0 {
        0
    } else {
        flow_opens_before(ls, i - 1) + if opens_flow(ls, i - 1) { 1nat } else { 0nat }
    }
}

/// The charts are counted as they open: before line `i`, the next number is one more
/// than the charts opened so far, or equal to it while a chart is open.
proof fn lemma_flow_count(ls: Seq<Seq<char>>, i: int)
    requires
        0 <= i <= ls.len(),
    ensures
        flow_state(ls, i).1 == flow_opens_before(ls, i) + if flow_state(ls, i).0 { 0nat } else { 1nat },
    decreases i,
{
    if i > 0 {
        lemma_flow_count(ls, i - 1);
    }
}

/// The conversion of the whole page is some lines followed by the conversion from line
/// `i` on, in the state before line `i`.
proof fn lemma_flow_split(ls: Seq<Seq<char>>, i: int) -> (p: Seq<Seq<char>>)
    requires
        0 <= i <= ls.len(),
    ensures
        flow_from(ls, 0, false, 1) == p + flow_from(ls, i, flow_state(ls, i).0, flow_state(ls, i).1),
    decreases i,
{
    if i == 0 {
        assert(flow_from(ls, 0, false, 1) =~= Seq::<Seq<char>>::empty() + flow_from(ls, 0, false, 1));
        Seq::<Seq<char>>::empty()
    } else {
        let p = lemma_flow_split(ls, i - 1);
        let (on, n) = flow_state(ls, i - 1);
        let l = ls[i - 1];
        let (on2, n2) = flow_state(ls, i);
        let rest = flow_from(ls, i, on2, n2);
        let here = if fence_is(l, "```flow"@) && !on {
            flow_open(n)
        } else if fence_is(l, "```"@) && on {
            flow_close(n)
        } else if on {
            seq![flow_piece(l, i - 1 == ls.len() - 1 || fence_is(ls[i], "```"@))]
        } else {
            seq![l]
        };
        assert(flow_from(ls, i - 1, on, n) == here + rest);
        let w = p + here;
        assert(flow_from(ls, 0, false, 1) =~= w + rest);
        w
    }
}

/// Flow charts are numbered 1, 2, ... in the order of the page: the chart that line `i`
/// opens is written, as a block of lines of the conversion, with the number one more
/// than the charts opened before it.
pub proof fn law_flow_charts_numbered_in_order(ls: Seq<Seq<char>>, i: int)
    requires
        0 <= i < ls.len(),
        opens_flow(ls, i),
    ensures
        exists|p: Seq<Seq<char>>, q: Seq<Seq<char>>|
            flow_from(ls, 0, false, 1) == #[trigger] (p + flow_open(flow_opens_before(ls, i) + 1) + q),
{
    lemma_flow_count(ls, i);
    let p = lemma_flow_split(ls, i);
    let (on, n) = flow_state(ls, i);
    let q = flow_from(ls, i + 1, true, n);
    assert(flow_from(ls, i, on, n) == flow_open(n) + q);
    assert(n == flow_opens_before(ls, i) + 1);
    assert(flow_from(ls, 0, false, 1) == p + flow_open(flow_opens_before(ls, i) + 1) + q);
}

/// The line that holds flow chart number `n`: `    <div id="diagram{n}"></div>`.
pub open spec fn flow_div_line(n: nat) -> Seq<char> {
    "    <div id=\"diagram"@ + decimal(n) + "\"></div>"@ + NOTBREAK@
}

/// The line that draws flow chart number `n`: `diagram.drawSVG('diagram{n}');`.
pub open spec fn flow_draw_line(n: nat) -> Seq<char> {
    "        diagram.drawSVG('diagram"@ + decimal(n) + "');"@ + NOTBREAK@
}

/// A chart number up to the charts opened before line `m` is that of a line before `m`
/// that opens a chart.
proof fn lemma_flow_opener(ls: Seq<Seq<char>>, m: int, j: nat) -> (i: int)
    requires
        0 <= m <= ls.len(),
        1 <= j <= flow_opens_before(ls, m),
    ensures
        0 <= i < m,
        opens_flow(ls, i),
        flow_opens_before(ls, i) + 1 == j,
    decreases m,
{
    if flow_opens_before(ls, m - 1) >= j {
        lemma_flow_opener(ls, m - 1, j)
    } else {
        m - 1
    }
}

/// A chart number below the next number before line `m` is that of a line before `m`
/// that closes an open chart.
proof fn lemma_flow_closer(ls: Seq<Seq<char>>, m: int, j: nat) -> (c: int)
    requires
        0 <= m <= ls.len(),
        1 <= j < flow_state(ls, m).1,
    ensures
        0 <= c < m,
        flow_state(ls, c) == (true, j),
        fence_is(ls[c], "```"@),
    decreases m,
{
    if m == 0 {
        assert(flow_state(ls, 0).1 == 1);
        0
    } else if flow_state(ls, m - 1).1 > j {
        lemma_flow_closer(ls, m - 1, j)
    } else {
        m - 1
    }
}

/// Every flow chart of a page is in the converted page under its number: for `j` from 1
/// to the number of charts the page opens, the converted page holds chart `j`'s
/// `<div id="diagram{j}">` line, and where the page closes at least `j` charts (the next
/// number at its end is above `j`), its `drawSVG('diagram{j}')` line too.
pub proof fn law_flow_charts_in_page(md: Seq<char>, j: nat)
    requires
        1 <= j <= flow_opens_before(lines_of(md), lines_of(md).len() as int),
    ensures
        contains(spec_convert_html_flow(md), flow_div_line(j)),
        j < flow_state(lines_of(md), lines_of(md).len() as int).1 ==> contains(
            spec_convert_html_flow(md),
            flow_draw_line(j),
        ),
{
    let ls = lines_of(md);
    let all = flow_from(ls, 0, false, 1);
    let i = lemma_flow_opener(ls, ls.len() as int, j);
    lemma_flow_count(ls, i);
    let p = lemma_flow_split(ls, i);
    let q = flow_from(ls, i + 1, true, j);
    assert(flow_state(ls, i) == (false, j));
    assert(flow_from(ls, i, false, j) == flow_open(j) + q);
    assert(all =~= p + flow_open(j) + q);
    assert(all[(p.len() + 2) as int] == flow_div_line(j));
    lemma_line_in_join(all, (p.len() + 2) as int);
    if j < flow_state(ls, ls.len() as int).1 {
        let c = lemma_flow_closer(ls, ls.len() as int, j);
        let p2 = lemma_flow_split(ls, c);
        let r = flow_from(ls, c + 1, false, j + 1);
        assert(flow_from(ls, c, true, j) == flow_close(j) + r);
        assert(all =~= p2 + flow_close(j) + r);
        assert(all[(p2.len() + 1) as int] == flow_draw_line(j));
        lemma_line_in_join(all, (p2.len() + 1) as int);
    }
}

/// How many of the lines are exactly `m`.
pub open spec fn count_line(ls: Seq<Seq<char>>, m: Seq<char>) -> nat
    decreases ls.len(),
{
    if ls.len() == 0 {
        0
    } else {
        count_line(ls.drop_last(), m) + if ls.last() == m { 1nat } else { 0nat }
    }
}

/// Counting lines over two lists joined.
proof fn lemma_count_line_concat(a: Seq<Seq<char>>, b: Seq<Seq<char>>, m: Seq<char>)
    ensures
        count_line(a + b, m) == count_line(a, m) + count_line(b, m),
    decreases b.len(),
{
    if b.len() == 0 {
        assert(a + b =~= a);
    } else {
        lemma_count_line_concat(a, b.drop_last(), m);
        assert((a + b).drop_last() =~= a + b.drop_last());
    }
}

/// The lines that open and close a nested list.
pub open spec fn list_open_line() -> Seq<char> {
    "<ul>"@
}

/// The line that closes a nested list and its item.
pub open spec fn list_close_line() -> Seq<char> {
    "</ul></li>"@
}

/// Whether a line is one of the two list markers.
pub open spec fn is_list_marker(x: Seq<char>) -> bool {
    x == list_open_line() || x == list_close_line()
}

/// The lines the list conversion writes, from line `i` on at depth `ind`, after the
/// items written after a tag are made `<li>`s.
pub open spec fn list_lines_from(ls: Seq<Seq<char>>, i: int, ind: nat) -> Seq<Seq<char>> {
    list_from(ls, i, ind).map_values(|l: Seq<char>| nested_item(l))
}

/// Neither a page line, nor what a list item becomes, is a list marker or becomes one
/// when its item after a tag is made an `<li>`.
pub open spec fn list_markers_fresh(ls: Seq<Seq<char>>) -> bool {
    forall|i: int|
        0 <= i < ls.len() ==> {
            &&& !is_list_marker(#[trigger] ls[i])
            &&& !is_list_marker(nested_item(ls[i]))
            &&& !is_list_marker(spec_line_list(ls[i]))
            &&& !is_list_marker(nested_item(spec_line_list(ls[i])))
        }
}

/// A text without `*` holds no `>* `.
proof fn lemma_no_star_item(s: Seq<char>)
    requires
        forall|k: int| 0 <= k < s.len() ==> s[k] != '*',
    ensures
        nested_item(s) == s,
{
    reveal_strlit(">* ");
    lemma_find_from(s, ">* "@, 0);
    if find(s, ">* "@) is Some {
        let j = find(s, ">* "@)->0;
        assert(s.subrange(j, j + 3)[1] == s[j + 1]);
    }
}

/// `n` closing lines hold `n` closings and no opening, and their first `k` hold `k`.
proof fn lemma_closes_counts(n: nat)
    ensures
        count_line(list_closes(n), list_close_line()) == n,
        count_line(list_closes(n), list_open_line()) == 0,
        forall|k: int| 0 <= k <= n ==> #[trigger] list_closes(n).take(k) == list_closes(k as nat),
    decreases n,
{
    reveal_strlit("<ul>");
    reveal_strlit("</ul></li>");
    assert forall|k: int| 0 <= k <= n implies #[trigger] list_closes(n).take(k) == list_closes(k as nat) by {
        assert(list_closes(n).take(k) =~= list_closes(k as nat));
    }
    if n > 0 {
        lemma_closes_counts((n - 1) as nat);
        assert(list_closes(n).drop_last() =~= list_closes((n - 1) as nat));
        assert(list_closes(n).last() == list_close_line());
        assert(list_close_line() != list_open_line());
    }
}

/// The markers are left as they are by the second pass, and so is `</li>`.
proof fn lemma_marker_items()
    ensures
        nested_item(list_open_line()) == list_open_line(),
        nested_item(list_close_line()) == list_close_line(),
        nested_item("</li>"@) == "</li>"@,
        !is_list_marker("</li>"@),
{
    reveal_strlit("<ul>");
    reveal_strlit("</ul></li>");
    reveal_strlit("</li>");
    lemma_no_star_item(list_open_line());
    lemma_no_star_item(list_close_line());
    lemma_no_star_item("</li>"@);
    assert("</li>"@ != list_open_line());
    assert("</li>"@ != list_close_line());
}

/// The lines of one step of the list conversion, made as in the second pass.
pub open spec fn step_list_lines(l: Seq<char>, ind: nat) -> Seq<Seq<char>> {
    list_step(l, ind).0.map_values(|x: Seq<char>| nested_item(x))
}

/// One step of the list conversion, its lines made as in the second pass: the depth
/// after it is the depth before, plus its openings, less its closings, and no prefix of
/// its lines takes the depth below 0 or above 6.
proof fn lemma_list_step_counts(ls: Seq<Seq<char>>, i: int, ind: nat)
    requires
        0 <= i < ls.len(),
        ind <= 6,
        list_markers_fresh(ls),
    ensures
        list_step(ls[i], ind).1 <= 6,
        ind + count_line(step_list_lines(ls[i], ind), list_open_line()) == list_step(ls[i], ind).1
            + count_line(step_list_lines(ls[i], ind), list_close_line()),
        forall|k: int|
            0 <= k <= step_list_lines(ls[i], ind).len() ==> 0 <= ind + count_line(
                #[trigger] step_list_lines(ls[i], ind).take(k),
                list_open_line(),
            ) - count_line(step_list_lines(ls[i], ind).take(k), list_close_line()) <= 6,
{
    let l = ls[i];
    let (out, ind2) = list_step(l, ind);
    let f = |x: Seq<char>| nested_item(x);
    let m = out.map_values(f);
    assert(m == step_list_lines(l, ind));
    let u = list_open_line();
    let c = list_close_line();
    lemma_marker_items();
    reveal_strlit("<ul>");
    reveal_strlit("</ul></li>");
    assert(!is_list_marker(l) && !is_list_marker(nested_item(l)));
    assert(!is_list_marker(nested_item(spec_line_list(l))));
    let t = trim(l);
    match spec_is_line_list(l) {
        Some(cc) => {
            let ll = nested_item(spec_line_list(l));
            if ind < cc && ind < 6 {
                assert(m =~= seq![u, ll]);
                assert(m.take(0) =~= Seq::<Seq<char>>::empty());
                assert(m.take(1) =~= seq![u]);
                assert(m.take(2) =~= m);
                assert(seq![u].drop_last() =~= Seq::<Seq<char>>::empty());
                assert(m.drop_last() =~= seq![u]);
                assert(count_line(Seq::<Seq<char>>::empty(), u) == 0);
                assert(count_line(Seq::<Seq<char>>::empty(), c) == 0);
                assert(count_line(seq![u], u) == 1);
                assert(count_line(seq![u], c) == 0);
                assert(count_line(m, u) == 1);
                assert(count_line(m, c) == 0);
                assert(ind + count_line(m, u) == ind2 + count_line(m, c));
            } else if ind > cc {
                let d = (ind - cc) as nat;
                lemma_closes_counts(d);
                assert(list_closes(d).map_values(f) =~= list_closes(d));
                assert(m =~= list_closes(d) + seq![ll]);
                assert(m.drop_last() =~= list_closes(d));
                assert forall|k: int|
                    0 <= k <= m.len() implies 0 <= ind + count_line(#[trigger] m.take(k), u) - count_line(m.take(k), c) <= 6 by {
                    if k <= d {
                        assert(m.take(k) =~= list_closes(d).take(k));
                        lemma_closes_counts(k as nat);
                    } else {
                        assert(m.take(k) =~= m);
                    }
                }
                assert(ind + count_line(m, u) == ind2 + count_line(m, c));
            } else if ind == cc {
                assert(m =~= seq!["</li>"@, ll]);
                assert(m.take(1) =~= seq!["</li>"@]);
                assert(m.take(2) =~= m);
                assert(seq!["</li>"@].drop_last() =~= Seq::<Seq<char>>::empty());
                assert(m.drop_last() =~= seq!["</li>"@]);
                assert(m.take(0) =~= Seq::<Seq<char>>::empty());
                assert(count_line(Seq::<Seq<char>>::empty(), u) == 0);
                assert(count_line(Seq::<Seq<char>>::empty(), c) == 0);
                assert(count_line(seq!["</li>"@], u) == 0);
                assert(count_line(seq!["</li>"@], c) == 0);
                assert(count_line(m, u) == 0);
                assert(count_line(m, c) == 0);
                assert(ind + count_line(m, u) == ind2 + count_line(m, c));
            } else {
                assert(m =~= Seq::<Seq<char>>::empty());
                assert(m.take(0) =~= m);
                assert(ind + count_line(m, u) == ind2 + count_line(m, c));
            }
        },
        None => {
            let x = nested_item(l);
            if starts_with(t, "<pre><code>"@) || starts_with(t, "</code></pre>"@) || starts_with(
                t,
                "<code>"@,
            ) || starts_with(t, "</code>"@) {
                assert(m =~= seq![x]);
                assert(m.take(0) =~= Seq::<Seq<char>>::empty());
                assert(m.take(1) =~= m);
                assert(m.drop_last() =~= Seq::<Seq<char>>::empty());
                assert(count_line(Seq::<Seq<char>>::empty(), u) == 0);
                assert(count_line(Seq::<Seq<char>>::empty(), c) == 0);
                assert(count_line(m, u) == 0);
                assert(count_line(m, c) == 0);
                assert(ind + count_line(m, u) == ind2 + count_line(m, c));
            } else if starts_with(t, "<div class="@) || t == "</div>"@ {
                lemma_closes_counts(ind);
                assert(list_closes(ind).map_values(f) =~= list_closes(ind));
                assert(m =~= list_closes(ind) + seq![x]);
                assert(m.drop_last() =~= list_closes(ind));
                assert forall|k: int|
                    0 <= k <= m.len() implies 0 <= ind + count_line(#[trigger] m.take(k), u) - count_line(m.take(k), c) <= 6 by {
                    if k <= ind {
                        assert(m.take(k) =~= list_closes(ind).take(k));
                        lemma_closes_counts(k as nat);
                    } else {
                        assert(m.take(k) =~= m);
                    }
                }
                assert(ind + count_line(m, u) == ind2 + count_line(m, c));
            } else if starts_with(t, "<img"@) || starts_with(t, "<blockquote>"@) || starts_with(
                t,
                "</blockquote>"@,
            ) {
                assert(m =~= seq![x]);
                assert(m.take(0) =~= Seq::<Seq<char>>::empty());
                assert(m.take(1) =~= m);
                assert(m.drop_last() =~= Seq::<Seq<char>>::empty());
                assert(count_line(Seq::<Seq<char>>::empty(), u) == 0);
                assert(count_line(Seq::<Seq<char>>::empty(), c) == 0);
                assert(count_line(m, u) == 0);
                assert(count_line(m, c) == 0);
                assert(ind + count_line(m, u) == ind2 + count_line(m, c));
            } else if starts_with(t, "<"@) || l.len() == 0 {
                lemma_closes_counts(ind);
                assert(list_closes(ind).map_values(f) =~= list_closes(ind));
                assert(m =~= list_closes(ind) + seq![x]);
                assert(m.drop_last() =~= list_closes(ind));
                assert forall|k: int|
                    0 <= k <= m.len() implies 0 <= ind + count_line(#[trigger] m.take(k), u) - count_line(m.take(k), c) <= 6 by {
                    if k <= ind {
                        assert(m.take(k) =~= list_closes(ind).take(k));
                        lemma_closes_counts(k as nat);
                    } else {
                        assert(m.take(k) =~= m);
                    }
                }
                assert(ind + count_line(m, u) == ind2 + count_line(m, c));
            } else {
                assert(m =~= seq![x]);
                assert(m.take(0) =~= Seq::<Seq<char>>::empty());
                assert(m.take(1) =~= m);
                assert(m.drop_last() =~= Seq::<Seq<char>>::empty());
                assert(count_line(Seq::<Seq<char>>::empty(), u) == 0);
                assert(count_line(Seq::<Seq<char>>::empty(), c) == 0);
                assert(count_line(m, u) == 0);
                assert(count_line(m, c) == 0);
                assert(ind + count_line(m, u) == ind2 + count_line(m, c));
            }
        },
    }
}

/// From line `i` on at depth `ind`, the list conversion closes every list it opens and
/// every list open before it, and no prefix of its lines takes the depth below 0 or
/// above 6.
proof fn lemma_list_from_counts(ls: Seq<Seq<char>>, i: int, ind: nat)
    requires
        0 <= i <= ls.len(),
        ind <= 6,
        list_markers_fresh(ls),
    ensures
        count_line(list_lines_from(ls, i, ind), list_close_line()) == count_line(
            list_lines_from(ls, i, ind),
            list_open_line(),
        ) + ind,
        forall|k: int|
            0 <= k <= list_lines_from(ls, i, ind).len() ==> 0 <= ind + count_line(
                #[trigger] list_lines_from(ls, i, ind).take(k),
                list_open_line(),
            ) - count_line(list_lines_from(ls, i, ind).take(k), list_close_line()) <= 6,
    decreases ls.len() - i,
{
    let u = list_open_line();
    let c = list_close_line();
    let f = |x: Seq<char>| nested_item(x);
    let mm = list_lines_from(ls, i, ind);
    lemma_marker_items();
    if i == ls.len() {
        lemma_closes_counts(ind);
        assert(mm =~= list_closes(ind).map_values(f));
        assert(list_closes(ind).map_values(f) =~= list_closes(ind));
        assert forall|k: int| 0 <= k <= mm.len() implies 0 <= ind + count_line(#[trigger] mm.take(k), u) - count_line(
            mm.take(k),
            c,
        ) <= 6 by {
            lemma_closes_counts(k as nat);
        }
    } else {
        let (out, ind2) = list_step(ls[i], ind);
        lemma_list_step_counts(ls, i, ind);
        lemma_list_from_counts(ls, i + 1, ind2);
        let st = step_list_lines(ls[i], ind);
        let rest = list_lines_from(ls, i + 1, ind2);
        assert(list_from(ls, i, ind) == out + list_from(ls, i + 1, ind2));
        assert(mm =~= st + rest);
        lemma_count_line_concat(st, rest, u);
        lemma_count_line_concat(st, rest, c);
        assert forall|k: int| 0 <= k <= mm.len() implies 0 <= ind + count_line(#[trigger] mm.take(k), u) - count_line(
            mm.take(k),
            c,
        ) <= 6 by {
            if k <= st.len() {
                assert(mm.take(k) =~= st.take(k));
            } else {
                let r = rest.take(k - st.len());
                assert(mm.take(k) =~= st + r);
                lemma_count_line_concat(st, r, u);
                lemma_count_line_concat(st, r, c);
            }
        }
    }
}

/// The list conversion balances its list tags: where no page line, no list item it
/// makes, and neither of these after the second pass is `<ul>` or `</ul></li>`, the
/// lines it writes hold as many `<ul>` lines as `</ul></li>` lines, and at no line are
/// more than six lists or fewer than none open. Cut at its newlines, the result is those
/// lines where none of them holds a newline.
pub proof fn law_list_tags_balance(md: Seq<char>)
    requires
        list_markers_fresh(lines_of(md)),
    ensures
        spec_convert_html_list(md) == join_lines(list_lines_from(lines_of(md), 0, 0)),
        count_line(list_lines_from(lines_of(md), 0, 0), list_open_line()) == count_line(
            list_lines_from(lines_of(md), 0, 0),
            list_close_line(),
        ),
        forall|k: int|
            0 <= k <= list_lines_from(lines_of(md), 0, 0).len() ==> 0 <= count_line(
                #[trigger] list_lines_from(lines_of(md), 0, 0).take(k),
                list_open_line(),
            ) - count_line(list_lines_from(lines_of(md), 0, 0).take(k), list_close_line()) <= 6,
        list_lines_from(lines_of(md), 0, 0).len() >= 1 && (forall|i: int|
            0 <= i < list_lines_from(lines_of(md), 0, 0).len() ==> no_newline(
                #[trigger] list_lines_from(lines_of(md), 0, 0)[i],
            )) ==> split_char(spec_convert_html_list(md), '\n') == list_lines_from(lines_of(md), 0, 0),
{
    let ls = lines_of(md);
    lemma_list_from_counts(ls, 0, 0);
    let mm = list_lines_from(ls, 0, 0);
    if mm.len() >= 1 && (forall|i: int| 0 <= i < mm.len() ==> no_newline(#[trigger] mm[i])) {
        lemma_split_join(mm);
    }
}

} // verus!
