//! The page-level steps of a download: finding a page's title and address in the page
//! list, repairing the markdown before conversion, and putting the page together.
use vstd::prelude::*;
use crate::codimd::{Info, last_info, last_page_in, lemma_last_info};
use crate::text::{
    split_once, split_once_str, contains, contains_str, replace, replace_str, rfind_char,
    rfind_chars, to_chars, from_chars, sub_chars, append_str, append_chars, views, push_line,
    lemma_rfind_in, starts_with, find_chars, find, chars_at, copy_chars, lines_of, join_lines, lines_str,
    join_string,
};
use crate::matching::{
    replace_group1, replace_each_group1, regex_replace, glob, glob_chars, string_views,
};
use crate::header::{
    replaced_or, replace_all_or_keep, Header, headers_view, spec_get_toc_menu, get_toc_menu,
    spec_get_header, get_header,
};
use crate::codimd::CodiMD;
use crate::line::{spec_get_codimd_info, get_codimd_info};
use crate::html::{
    resource_paths, can_read_resource_paths, get_resource_path, spec_replace_path, replace_path,
    html_fits, can_convert_html, spec_convert_html, convert_html,
};

verus! {

/// `url` up to its first `#`, or all of it.
pub open spec fn before_hash(url: Seq<char>) -> Seq<char> {
    match split_once(url, "#"@) {
        Some((a, _)) => a,
        None => url,
    }
}

/// The title of the page that `url` names: that of the last listed page whose address
/// occurs in `url` before any `#`, or empty.
pub open spec fn spec_get_title(url: Seq<char>, infos: Seq<Info>) -> Seq<char> {
    match last_page_in(infos, before_hash(url)) {
        Some(k) => infos[k].title@,
        None => seq![],
    }
}

/// The title of the page that `url` names (see `spec_get_title`).
pub fn get_title(url: &str, infos: &Vec<Info>) -> (r: String)
    ensures
        r@ == spec_get_title(url@, infos@),
{
    let uc = to_chars(url);
    let u = match split_once_str(uc.as_slice(), "#") {
        Some((a, _)) => a,
        None => uc,
    };
    let ghost f = |i: Info| contains(before_hash(url@), i.url@);
    let mut title = String::new();
    let mut k: usize = 0;
    while k < infos.len()
        invariant
            k <= infos@.len(),
            u@ == before_hash(url@),
            f == (|i: Info| contains(before_hash(url@), i.url@)),
            match last_info(infos@, k as int, f) {
                Some(j) => title@ == infos@[j].title@,
                None => title@ == Seq::<char>::empty(),
            },
        decreases infos@.len() - k,
    {
        let hit = contains_str(u.as_slice(), infos[k].url.as_str());
        assert(hit == f(infos@[k as int]));
        if hit {
            title = infos[k].title.clone();
        }
        k += 1;
    }
    title
}

/// The address of the page with the short id `shortid`: that of the last listed page
/// with that id, or empty.
pub open spec fn spec_get_url_from_shortid(shortid: Seq<char>, infos: Seq<Info>) -> Seq<char> {
    match last_info(infos, infos.len() as int, |i: Info| i.shortid@ == shortid) {
        Some(k) => infos[k].url@,
        None => seq![],
    }
}

/// The address of the page with the short id `shortid` (see `spec_get_url_from_shortid`).
pub fn get_url_from_shortid(shortid: &str, infos: &Vec<Info>) -> (r: String)
    ensures
        r@ == spec_get_url_from_shortid(shortid@, infos@),
{
    let sc = to_chars(shortid);
    let ghost f = |i: Info| i.shortid@ == shortid@;
    let mut url = String::new();
    let mut k: usize = 0;
    while k < infos.len()
        invariant
            k <= infos@.len(),
            sc@ == shortid@,
            f == (|i: Info| i.shortid@ == shortid@),
            match last_info(infos@, k as int, f) {
                Some(j) => url@ == infos@[j].url@,
                None => url@ == Seq::<char>::empty(),
            },
        decreases infos@.len() - k,
    {
        let ic = to_chars(infos[k].shortid.as_str());
        let hit = crate::text::eq_str(ic.as_slice(), shortid);
        assert(hit == f(infos@[k as int]));
        if hit {
            url = infos[k].url.clone();
        }
        k += 1;
    }
    url
}

/// The address of the server that serves `url`: `url` up to and including its last `/`.
pub open spec fn spec_get_codimd_url(url: Seq<char>) -> Seq<char> {
    match rfind_char(url, '/') {
        Some(i) => url.take(i + 1),
        None => url,
    }
}

/// The address of the server that serves `url` (see `spec_get_codimd_url`); `url`
/// must hold a `/`.
pub fn get_codimd_url(url: &str) -> (r: String)
    requires
        rfind_char(url@, '/') is Some,
    ensures
        r@ == spec_get_codimd_url(url@),
{
    let uc = to_chars(url);
    match rfind_chars(uc.as_slice(), '/') {
        Some(i) => {
            proof {
                lemma_rfind_in(url@, '/');
            }
            let r = sub_chars(uc.as_slice(), 0, i + 1);
            from_chars(r.as_slice())
        },
        None => url.to_string(),
    }
}


/// The markdown with each self-closing video frame ending `.mp4'/>`, `.mp4"/>` or
/// `.mp4"` + newline + `/>` closed by `</iframe>` instead.
pub open spec fn spec_replace_mp4_path(md: Seq<char>) -> Seq<char> {
    let a = replace(md, ".mp4'/>"@, ".mp4'></iframe>"@);
    let b = replace(a, ".mp4\"/>"@, ".mp4\"></iframe>"@);
    replace(b, ".mp4\"\n/>"@, ".mp4\"></iframe>"@)
}

/// The markdown with self-closing video frames closed (see `spec_replace_mp4_path`).
pub fn replace_mp4_path(md: &str) -> (r: String)
    ensures
        r@ == spec_replace_mp4_path(md@),
{
    let m = to_chars(md);
    let a = replace_str(m.as_slice(), ".mp4'/>", ".mp4'></iframe>");
    let b = replace_str(a.as_slice(), ".mp4\"/>", ".mp4\"></iframe>");
    let c = replace_str(b.as_slice(), ".mp4\"\n/>", ".mp4\"></iframe>");
    from_chars(c.as_slice())
}

/// An `<img ...>` element (possibly spread over several lines).
pub const IMG_TAG: &'static str = r"<img(?P<h>.[\s\S]+?)>";

/// A `src="..."` attribute.
pub const SRC_ATTR: &'static str = r#"src="(?P<h>.[\s\S]+?)""#;

/// An image element written on one line.
pub open spec fn img_tag_rep(h: Seq<char>) -> Seq<char> {
    "<img"@ + replace(h, "\n"@, ""@) + ">"@
}

/// A source attribute without spaces in its path.
pub open spec fn src_attr_rep(h: Seq<char>) -> Seq<char> {
    "src=\""@ + replace(h, " "@, ""@) + "\""@
}

/// The markdown with each `<img ...>` element put on one line, then each `src="..."`
/// path stripped of its spaces.
pub open spec fn spec_replace_img_path(md: Seq<char>) -> Seq<char> {
    let a = replace_group1(IMG_TAG@, md, |h: Seq<char>| img_tag_rep(h));
    replace_group1(SRC_ATTR@, a, |h: Seq<char>| src_attr_rep(h))
}

/// An image element written on one line.
pub fn img_tag_line(h: &[char]) -> (r: Vec<char>)
    ensures
        r@ == img_tag_rep(h@),
{
    let mut r = to_chars("<img");
    let g = replace_str(h, "\n", "");
    append_chars(&mut r, g.as_slice());
    append_str(&mut r, ">");
    r
}

/// A source attribute without spaces in its path.
pub fn src_attr_line(h: &[char]) -> (r: Vec<char>)
    ensures
        r@ == src_attr_rep(h@),
{
    let mut r = to_chars("src=\"");
    let g = replace_str(h, " ", "");
    append_chars(&mut r, g.as_slice());
    append_str(&mut r, "\"");
    r
}

/// The markdown with image elements on one line and spaces out of source paths (see
/// `spec_replace_img_path`).
pub fn replace_img_path(md: &str) -> (r: String)
    ensures
        r@ == spec_replace_img_path(md@),
{
    let a = replace_each_group1(IMG_TAG, md, img_tag_line, Ghost(|h: Seq<char>| img_tag_rep(h)));
    replace_each_group1(SRC_ATTR, a.as_str(), src_attr_line, Ghost(|h: Seq<char>| src_attr_rep(h)))
}

/// The address that a line starting with a server address names: the line up to its
/// first `?`, and up to its first `#` when that part holds one.
pub open spec fn page_address(m: Seq<char>) -> Seq<char> {
    let t = match split_once(m, "?"@) {
        Some((a, _)) => a,
        None => m,
    };
    if contains(t, "#"@) {
        before_hash(m)
    } else {
        t
    }
}

/// A line that links to a page of the server `codimd_url`: the page's address and the
/// line pointing to the page's local file. A line holding the server's address and a
/// markdown link is read as that link; a line that starts with the server's address is
/// first written as a link to that address titled with the page's title. `None` for any
/// other line.
pub open spec fn spec_codimd_link_line(m: Seq<char>, codimd_url: Seq<char>, infos: Seq<Info>) -> Option<
    (Seq<char>, Seq<char>),
> {
    if contains(m, codimd_url) && glob("*[*](*)*"@, m) {
        Some(spec_get_codimd_info(m, codimd_url, infos))
    } else if starts_with(m, codimd_url) {
        let tmp = page_address(m);
        let title = spec_get_title(replace(tmp, "-"@, "+"@), infos);
        Some(spec_get_codimd_info("["@ + title + "]("@ + tmp + ")"@, codimd_url, infos))
    } else {
        None
    }
}

/// A line that links to a page of the server (see `spec_codimd_link_line`).
pub fn codimd_link_line(m: &str, codimd_url: &str, infos: &Vec<Info>) -> (r: Option<(String, String)>)
    ensures
        match r {
            Some((u, l)) => spec_codimd_link_line(m@, codimd_url@, infos@) == Some((u@, l@)),
            None => spec_codimd_link_line(m@, codimd_url@, infos@) is None,
        },
{
    let mc = to_chars(m);
    let cu = to_chars(codimd_url);
    if find_chars(mc.as_slice(), cu.as_slice()).is_some() && glob_chars("*[*](*)*", mc.as_slice()) {
        Some(get_codimd_info(m, codimd_url, infos))
    } else if chars_at(mc.as_slice(), 0, cu.as_slice()) {
        let t = match split_once_str(mc.as_slice(), "?") {
            Some((a, _)) => a,
            None => copy_chars(mc.as_slice()),
        };
        let tmp = if contains_str(t.as_slice(), "#") {
            match split_once_str(mc.as_slice(), "#") {
                Some((a, _)) => a,
                None => copy_chars(mc.as_slice()),
            }
        } else {
            t
        };
        let plus = replace_str(tmp.as_slice(), "-", "+");
        let title = get_title(from_chars(plus.as_slice()).as_str(), infos);
        let mut nl = to_chars("[");
        append_str(&mut nl, title.as_str());
        append_str(&mut nl, "](");
        append_chars(&mut nl, tmp.as_slice());
        append_str(&mut nl, ")");
        let nls = from_chars(nl.as_slice());
        Some(get_codimd_info(nls.as_str(), codimd_url, infos))
    } else {
        None
    }
}

/// The lines of a page rewritten to point to the local files of the server's pages they
/// link to (see `spec_codimd_link_line`).
pub open spec fn relinked_lines(ls: Seq<Seq<char>>, codimd_url: Seq<char>, infos: Seq<Info>) -> Seq<Seq<char>> {
    ls.map_values(
        |l: Seq<char>|
            match spec_codimd_link_line(l, codimd_url, infos) {
                Some((_, np)) => np,
                None => l,
            },
    )
}

/// The addresses of the server's pages that the lines link to, in order.
pub open spec fn linked_pages(ls: Seq<Seq<char>>, codimd_url: Seq<char>, infos: Seq<Info>) -> Seq<Seq<char>>
    decreases ls.len(),
{
    if ls.len() == 0 {
        seq![]
    } else {
        linked_pages(ls.drop_last(), codimd_url, infos) + match spec_codimd_link_line(
            ls.last(),
            codimd_url,
            infos,
        ) {
            Some((u, _)) => seq![u],
            None => seq![],
        }
    }
}

/// A page's markdown with its links to the server's pages pointing to their local files,
/// and the addresses of those pages in the order of the lines (a page linked twice is
/// listed twice): what is left of the download of linked pages is for the caller, which
/// fetches each listed page it has not downloaded yet, in that order.
pub fn relink_page(md: &str, codimd_url: &str, infos: &Vec<Info>) -> (r: (String, Vec<String>))
    ensures
        r.0@ == join_lines(relinked_lines(lines_of(md@), codimd_url@, infos@)),
        string_views(r.1@) == linked_pages(lines_of(md@), codimd_url@, infos@),
{
    let lines = lines_str(md);
    let ghost ls = views(lines@);
    let mut out: Vec<Vec<char>> = Vec::new();
    let mut urls: Vec<String> = Vec::new();
    let mut i: usize = 0;
    while i < lines.len()
        invariant
            i <= lines@.len(),
            ls == views(lines@),
            views(out@) == relinked_lines(ls.take(i as int), codimd_url@, infos@),
            string_views(urls@) == linked_pages(ls.take(i as int), codimd_url@, infos@),
        decreases lines@.len() - i,
    {
        assert(ls[i as int] == lines@[i as int]@);
        let ghost next = ls.take(i + 1);
        assert(next.drop_last() == ls.take(i as int));
        assert(next.last() == ls[i as int]);
        let ghost u0 = urls@;
        let l = from_chars(lines[i].as_slice());
        match codimd_link_line(l.as_str(), codimd_url, infos) {
            Some((u, np)) => {
                push_line(&mut out, to_chars(np.as_str()));
                urls.push(u);
                assert(string_views(urls@) =~= string_views(u0).push(u@));
            },
            None => {
                push_line(&mut out, copy_chars(lines[i].as_slice()));
                assert(string_views(urls@) =~= string_views(u0));
            },
        }
        assert(views(out@) =~= relinked_lines(next, codimd_url@, infos@));
        i += 1;
    }
    assert(ls.take(lines@.len() as int) == ls);
    (join_string(&out), urls)
}

/// Whether a page with address `url` is among the downloaded pages.
pub fn is_downloaded(cms: &Vec<CodiMD>, url: &str) -> (b: bool)
    ensures
        b == exists|k: int| 0 <= k < cms@.len() && #[trigger] cms@[k].url@ == url@,
{
    let uc = to_chars(url);
    let mut k: usize = 0;
    while k < cms.len()
        invariant
            k <= cms@.len(),
            uc@ == url@,
            forall|j: int| 0 <= j < k ==> #[trigger] cms@[j].url@ != url@,
        decreases cms@.len() - k,
    {
        let c = to_chars(cms[k].url.as_str());
        if eq_chars(c.as_slice(), uc.as_slice()) {
            return true;
        }
        k += 1;
    }
    false
}

/// Whether two character sequences are equal.
fn eq_chars(a: &[char], b: &[char]) -> (r: bool)
    ensures
        r == (a@ == b@),
{
    if a.len() != b.len() {
        return false;
    }
    let r = chars_at(a, 0, b);
    assert(a@.subrange(0, a@.len() as int) == a@);
    r
}

/// The characters that a file name cannot hold: `/ \ : * " < > |`.
pub const TITLE_FORBIDDEN: &'static str = r#"[/|\\|:|\*|"|<|>|\|]+?"#;

/// A page title made fit for a file name: the characters in `TITLE_FORBIDDEN` removed.
pub open spec fn spec_clean_title(t: Seq<char>) -> Seq<char> {
    replaced_or(regex_replace(TITLE_FORBIDDEN@, t, ""@), t)
}

/// A page title made fit for a file name (see `spec_clean_title`).
pub fn clean_title(t: &str) -> (r: String)
    ensures
        r@ == spec_clean_title(t@),
{
    replace_all_or_keep(TITLE_FORBIDDEN, t, "")
}

/// What a download starts from: the page's markdown and its file title, the folder that
/// it and the pages it links to are written to, and its file's path.
pub struct PagePlan {
    pub md: String,
    pub title: String,
    pub output: String,
    pub path: String,
}

/// The plan after the first `n` listed pages: each page whose address occurs in `url`
/// gives its markdown and its cleaned title; for the first page of a download
/// (`first`), the folder gains `/<title>` each time; the path is `<folder>/<title>.html`.
pub open spec fn plan_from(infos: Seq<Info>, n: int, url: Seq<char>, output: Seq<char>, first: bool) -> (
    Seq<char>,
    Seq<char>,
    Seq<char>,
    Seq<char>,
)
    decreases n,
{
    if n <= 0 || n > infos.len() {
        (seq![], seq![], output, seq![])
    } else {
        let (md, t, o, p) = plan_from(infos, n - 1, url, output, first);
        let i = infos[n - 1];
        if contains(url, i.url@) {
            let t2 = spec_clean_title(i.title@);
            let o2 = if first { o + "/"@ + t2 } else { o };
            (i.content@, t2, o2, o2 + "/"@ + t2 + ".html"@)
        } else {
            (md, t, o, p)
        }
    }
}

/// The plan of the download of the page at `url` (its `-` read as `+`) into
/// `output_path` (see `plan_from`); the markdown is empty when no listed page matches.
pub open spec fn spec_plan_page(url: Seq<char>, output_path: Seq<char>, first: bool, infos: Seq<Info>) -> (
    Seq<char>,
    Seq<char>,
    Seq<char>,
    Seq<char>,
) {
    plan_from(infos, infos.len() as int, replace(url, "-"@, "+"@), output_path, first)
}

/// The plan of the download of a page (see `spec_plan_page`).
pub fn plan_page(url: &str, output_path: &str, first: bool, infos: &Vec<Info>) -> (r: PagePlan)
    ensures
        (r.md@, r.title@, r.output@, r.path@) == spec_plan_page(url@, output_path@, first, infos@),
{
    let u = replace_str(to_chars(url).as_slice(), "-", "+");
    let ghost uv = u@;
    let mut md = String::new();
    let mut title = String::new();
    let mut output = output_path.to_string();
    let mut path = String::new();
    let mut k: usize = 0;
    while k < infos.len()
        invariant
            k <= infos@.len(),
            uv == u@,
            uv == replace(url@, "-"@, "+"@),
            (md@, title@, output@, path@) == plan_from(infos@, k as int, uv, output_path@, first),
        decreases infos@.len() - k,
    {
        if find_chars(u.as_slice(), to_chars(infos[k].url.as_str()).as_slice()).is_some() {
            md = infos[k].content.clone();
            title = clean_title(infos[k].title.as_str());
            if first {
                let mut o = to_chars(output.as_str());
                append_str(&mut o, "/");
                append_str(&mut o, title.as_str());
                output = from_chars(o.as_slice());
            }
            let mut p = to_chars(output.as_str());
            append_str(&mut p, "/");
            append_str(&mut p, title.as_str());
            append_str(&mut p, ".html");
            path = from_chars(p.as_slice());
        }
        k += 1;
    }
    PagePlan { md, title, output, path }
}

/// A whole page: the front template with its `style--style` mark replaced by `style`,
/// the body, the table-of-contents menu and the back template, with every
/// `title--title` mark replaced by `<title> - CodiMD`.
pub open spec fn spec_assemble_page(
    front: Seq<char>,
    back: Seq<char>,
    style: Seq<char>,
    title: Seq<char>,
    body: Seq<char>,
    headers: Seq<(usize, Seq<char>)>,
) -> Seq<char> {
    let page = replace(front, "style--style"@, style) + body + spec_get_toc_menu(headers) + back;
    replace(page, "title--title"@, title + " - CodiMD"@)
}

/// A whole page (see `spec_assemble_page`).
pub fn assemble_page(
    front: &str,
    back: &str,
    style: &str,
    title: &str,
    body: &str,
    headers: Vec<Header>,
) -> (r: String)
    ensures
        r@ == spec_assemble_page(front@, back@, style@, title@, body@, headers_view(headers@)),
{
    let menu = get_toc_menu(headers);
    let mut page = replace_str(to_chars(front).as_slice(), "style--style", style);
    append_str(&mut page, body);
    append_str(&mut page, menu.as_str());
    append_str(&mut page, back);
    let mut t = to_chars(title);
    append_str(&mut t, " - CodiMD");
    let ts = from_chars(t.as_slice());
    let r = replace_str(page.as_slice(), "title--title", ts.as_str());
    from_chars(r.as_slice())
}

/// The server address of a server address is itself: `get_codimd_url` applied to its
/// own result gives that result again.
pub proof fn law_codimd_url_idempotent(url: Seq<char>)
    requires
        rfind_char(url, '/') is Some,
    ensures
        rfind_char(spec_get_codimd_url(url), '/') is Some,
        spec_get_codimd_url(spec_get_codimd_url(url)) == spec_get_codimd_url(url),
{
    lemma_rfind_in(url, '/');
    let i = rfind_char(url, '/')->0;
    let t = url.take(i + 1);
    assert(t.last() == '/');
    assert(rfind_char(t, '/') == Some(i));
    assert(t.take(i + 1) =~= t);
}

/// For an address without `#`, `get_title` gives the title of the page that
/// `CodiMD::new` records for that address (empty when the list has no such page).
pub proof fn law_title_of_recorded_page(url: Seq<char>, infos: Seq<Info>)
    requires
        !contains(url, "#"@),
    ensures
        spec_get_title(url, infos) == match last_page_in(infos, url) {
            Some(k) => infos[k].title@,
            None => Seq::<char>::empty(),
        },
{
    assert(before_hash(url) == url);
}

/// The plan after the first `n` pages takes its markdown and title from the last of them
/// whose address occurs in `url`, the same page that `last_info` finds.
proof fn lemma_plan_page_is_last(infos: Seq<Info>, n: int, url: Seq<char>, output: Seq<char>, first: bool)
    requires
        0 <= n <= infos.len(),
    ensures
        ({
            let (md, t, _, _) = plan_from(infos, n, url, output, first);
            match last_info(infos, n, |i: Info| contains(url, i.url@)) {
                Some(k) => md == infos[k].content@ && t == spec_clean_title(infos[k].title@),
                None => md == Seq::<char>::empty() && t == Seq::<char>::empty(),
            }
        }),
    decreases n,
{
    if n > 0 {
        lemma_plan_page_is_last(infos, n - 1, url, output, first);
    }
}

/// A download's plan and the page that `CodiMD::new` records for the same address (its
/// `-` read as `+`) are the same listed page: the plan's markdown and title are that
/// page's content and cleaned title, and both are empty when the list has no such page.
pub proof fn law_plan_matches_recorded_page(url: Seq<char>, output_path: Seq<char>, first: bool, infos: Seq<Info>)
    ensures
        ({
            let u = replace(url, "-"@, "+"@);
            let (md, t, _, _) = spec_plan_page(url, output_path, first, infos);
            match last_page_in(infos, u) {
                Some(k) => md == infos[k].content@ && t == spec_clean_title(infos[k].title@),
                None => md == Seq::<char>::empty() && t == Seq::<char>::empty(),
            }
        }),
{
    lemma_plan_page_is_last(infos, infos.len() as int, replace(url, "-"@, "+"@), output_path, first);
}

/// The markdown of a page as its resources are read from it: self-closing video frames
/// closed and image elements tidied (see `spec_replace_mp4_path` and
/// `spec_replace_img_path`).
pub open spec fn prepared_md(md: Seq<char>) -> Seq<char> {
    spec_replace_img_path(spec_replace_mp4_path(md))
}

/// The prepared markdown with its upload paths made local (see `spec_replace_path`).
pub open spec fn local_md(md: Seq<char>, url_path: Seq<char>) -> Seq<char> {
    spec_replace_path(prepared_md(md), url_path)
}

/// The local markdown with its links to the server's pages pointing to their local
/// files: the text that is converted to HTML.
pub open spec fn relinked_md(md: Seq<char>, url_path: Seq<char>, codimd_url: Seq<char>, infos: Seq<Info>) -> Seq<char> {
    join_lines(relinked_lines(lines_of(local_md(md, url_path)), codimd_url, infos))
}

/// What a downloaded page gives: the local paths of the files it uses (`None` where a
/// PDF path cannot be cut out), the addresses of the server's pages it links to, in the
/// order of its lines, and the whole HTML page (`None` where the page cannot be
/// converted).
pub struct PageOutput {
    pub resources: Option<Vec<String>>,
    pub links: Vec<String>,
    pub page: Option<String>,
}

/// A downloaded page's resources, linked pages and HTML file: the markdown `md` is
/// prepared (see `prepared_md`), its resource paths are read, its upload paths made
/// local, its links to the server `codimd_url` pointed to local files, and the result is
/// converted to HTML and put into the templates `front` and `back` with `style`, `title`
/// and the table-of-contents menu of `md`'s headers (see `spec_assemble_page`).
pub fn build_page(
    md: &str,
    title: &str,
    style: &str,
    front: &str,
    back: &str,
    url_path: &str,
    resource_path: &str,
    codimd_url: &str,
    infos: &Vec<Info>,
) -> (r: PageOutput)
    ensures
        match r.resources {
            Some(v) => resource_paths(prepared_md(md@), url_path@, resource_path@) == Some(string_views(v@)),
            None => resource_paths(prepared_md(md@), url_path@, resource_path@) is None,
        },
        string_views(r.links@) == linked_pages(lines_of(local_md(md@, url_path@)), codimd_url@, infos@),
        match r.page {
            Some(h) => {
                &&& html_fits(relinked_md(md@, url_path@, codimd_url@, infos@))
                &&& h@ == spec_assemble_page(
                    front@,
                    back@,
                    style@,
                    title@,
                    spec_convert_html(relinked_md(md@, url_path@, codimd_url@, infos@)),
                    spec_get_header(md@),
                )
            },
            None => !html_fits(relinked_md(md@, url_path@, codimd_url@, infos@)),
        },
{
    let headers = get_header(md);
    let p = replace_mp4_path(md);
    let p = replace_img_path(p.as_str());
    let resources = if can_read_resource_paths(p.as_str(), url_path, resource_path) {
        Some(get_resource_path(p.as_str(), url_path, resource_path))
    } else {
        None
    };
    let local = replace_path(p.as_str(), url_path);
    let (text, links) = relink_page(local.as_str(), codimd_url, infos);
    let page = if can_convert_html(text.as_str()) {
        let body = convert_html(text.as_str());
        Some(assemble_page(front, back, style, title, body.as_str(), headers))
    } else {
        None
    };
    PageOutput { resources, links, page }
}

/// Lines that do not hold the server's address link to none of its pages.
proof fn lemma_no_linked_pages(ls: Seq<Seq<char>>, codimd_url: Seq<char>, infos: Seq<Info>)
    requires
        forall|i: int| 0 <= i < ls.len() ==> !contains(#[trigger] ls[i], codimd_url),
    ensures
        linked_pages(ls, codimd_url, infos) == Seq::<Seq<char>>::empty(),
        forall|i: int| 0 <= i < ls.len() ==> spec_codimd_link_line(#[trigger] ls[i], codimd_url, infos) is None,
    decreases ls.len(),
{
    assert forall|i: int| 0 <= i < ls.len() implies spec_codimd_link_line(#[trigger] ls[i], codimd_url, infos) is None by {
        let l = ls[i];
        if starts_with(l, codimd_url) {
            assert(find(l, codimd_url) == Some(0int));
        }
    }
    if ls.len() > 0 {
        let dl = ls.drop_last();
        assert forall|i: int| 0 <= i < dl.len() implies !contains(#[trigger] dl[i], codimd_url) by {
            assert(dl[i] == ls[i]);
        }
        lemma_no_linked_pages(dl, codimd_url, infos);
        assert(spec_codimd_link_line(ls[ls.len() - 1], codimd_url, infos) is None);
        assert(linked_pages(ls, codimd_url, infos) =~= Seq::<Seq<char>>::empty());
    }
}

/// A page none of whose lines holds the server's address is relinked unchanged and links
/// to no page: `relink_page` gives its lines joined again and an empty list.
pub proof fn law_relink_without_server_links(md: Seq<char>, codimd_url: Seq<char>, infos: Seq<Info>)
    requires
        forall|i: int| 0 <= i < lines_of(md).len() ==> !contains(#[trigger] lines_of(md)[i], codimd_url),
    ensures
        join_lines(relinked_lines(lines_of(md), codimd_url, infos)) == join_lines(lines_of(md)),
        linked_pages(lines_of(md), codimd_url, infos) == Seq::<Seq<char>>::empty(),
{
    let ls = lines_of(md);
    lemma_no_linked_pages(ls, codimd_url, infos);
    assert(relinked_lines(ls, codimd_url, infos) =~= ls);
}

} // verus!
