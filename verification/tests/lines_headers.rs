use codimd_downloader::header::{get_header, get_toc_menu, replace_header_name, Header};
use codimd_downloader::line::{
    is_image, is_line_list, is_line_newline, line_code, line_exec, line_links_can_convert,
    line_list, line_url, line_url_fits,
};
use codimd_downloader::matching::glob_chars;
use codimd_downloader::text::{from_chars, to_chars, usize_chars};

#[test]
fn list_depths() {
    assert_eq!(is_line_list("* a"), Some(1));
    assert_eq!(is_line_list("  * a"), Some(2));
    assert_eq!(is_line_list("    - a"), Some(3));
    assert_eq!(is_line_list("plain"), None);
    assert_eq!(line_list("* a"), "<li> a");
}

#[test]
fn line_breaks_after_text() {
    assert!(is_line_newline("abc"));
    assert!(!is_line_newline("<div>"));
    assert!(is_line_newline("a</strong>"));
    assert!(!is_line_newline("   "));
}

#[test]
fn image_lines() {
    assert!(is_image("![a](b.png)"));
    assert!(is_image("x ![a](b.png =1x2) y"));
    assert!(!is_image("x"));
}

#[test]
fn inline_code_and_links() {
    assert_eq!(line_code("a ```b``` c"), "a <code>b</code> c");
    assert_eq!(line_exec("a ```b``` c"), "a <code>b</code> c");
    assert_eq!(line_url("plain"), "plain");
    assert_eq!(
        line_url("  http://x.com  "),
        "<a href=\"http://x.com\" target=\"_blank\" rel=\"noopener\">http://x.com</a>"
    );
    assert_eq!(
        line_exec("see [p](./p.html)"),
        "see <a href=\"./p.html\" target=\"_blank\" rel=\"noopener\">p</a>"
    );
}

#[test]
fn headers_of_page() {
    let hs = get_header("# A\n## B\ntext\n### C\n#### D");
    let got: Vec<(usize, String)> = hs.iter().map(|h| (h.number, h.name.clone())).collect();
    assert_eq!(
        got,
        vec![(1, String::from("A")), (2, String::from("B")), (3, String::from("C"))]
    );
}

#[test]
fn header_anchors() {
    assert_eq!(replace_header_name("Title"), "Title");
    assert_eq!(replace_header_name("a.b c"), "a_bc");
    assert_eq!(replace_header_name("Hi!"), "Hi&iexcl;");
    assert_eq!(replace_header_name("<font color=red>Red</font> x"), "Redx");
}

#[test]
fn toc_menu() {
    let hs = vec![
        Header { number: 1, name: String::from("A") },
        Header { number: 2, name: String::from("B") },
    ];
    let want = vec![
        "",
        "</div>",
        "<div id=\"ui-toc-affix\" class=\"ui-affix-toc ui-toc-dropdown unselectable hidden-print\" data-spy=\"affix\" style=\"top:17px;display:none;\">",
        "<div class=\"toc\">",
        "<ul class=\"nav\">",
        "<li class=\"\"><a href=\"#A\" title=\"A\">A</a><ul class=\"nav\">",
        "<li class=\"\"><a href=\"#B\" title=\"B\">B</a></li>",
        "</ul></li>",
        "</ul>",
        "</div>",
        "</div>",
    ]
    .join("\n");
    assert_eq!(get_toc_menu(hs), want);
}

#[test]
fn wildcard_patterns() {
    let abc: Vec<char> = "abc".chars().collect();
    let abbc: Vec<char> = "abbc".chars().collect();
    assert!(glob_chars("a*c", &abc));
    assert!(!glob_chars("a?c", &abbc));
    assert!(glob_chars("a??c", &abbc));
}

#[test]
fn text_round_trips() {
    let v = to_chars("héllo");
    assert_eq!(v.len(), 5);
    assert_eq!(from_chars(&v), "héllo");
    assert_eq!(from_chars(&usize_chars(120)), "120");
    assert_eq!(from_chars(&usize_chars(0)), "0");
}

#[test]
fn header_links() {
    let l = "<h2>[n](a) fa fa-link";
    assert!(line_url_fits(l));
    assert_eq!(
        line_exec(l),
        "<h2 id=\"n\"><a class=\"anchor hidden-xs\" href=\"/#n\" title=\"n\"><i class=\"fa fa-link\"></i></a><a href=\"a\" target=\"_blank\" rel=\"noopener\">n</a></h2>"
    );
    assert!(!line_url_fits("<hX>[n](a) fa fa-link"));
    assert!(!line_links_can_convert("<hX>[n](a) fa fa-link"));
    assert!(line_links_can_convert("plain [a](b)"));
}
