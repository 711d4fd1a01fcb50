use codimd_downloader::codimd::{CodiMD, Info};
use codimd_downloader::download::{get_codimd_url, get_title, plan_page, relink_page};
use codimd_downloader::html::{convert_html_flow, convert_html_line, convert_html_newline, get_resource_path, replace_path};
use codimd_downloader::header::{get_toc_menu, Header};
use codimd_downloader::html::{convert_html_code_number, parse_number, replace_code_post, replace_code_pre};
use codimd_downloader::html::{can_make_tables, convert_html_list, convert_html_quote, convert_html_table, convert_html_image};
use codimd_downloader::text::{normalize_separators, usize_chars};

fn header(number: usize, name: &str) -> Header {
    Header { number, name: String::from(name) }
}

#[test]
fn toc_lists_are_closed_once() {
    let menu = get_toc_menu(vec![
        header(1, "A"),
        header(2, "B"),
        header(3, "C"),
        header(2, "D"),
        header(1, "E"),
    ]);
    let opened = menu.matches("<ul class=\"nav\">").count() - 1;
    let closed = menu.matches("</ul></li>").count();
    assert_eq!(opened, 2);
    assert_eq!(closed, 2);
}

#[test]
fn stand_ins_come_back() {
    let code = "x = a*b + c~d_e#f-g!h";
    assert_eq!(replace_code_post(&replace_code_pre(code)), code);
    assert_eq!(replace_code_post(&replace_code_pre("a<b>c")), "a&lt;b&gt;c");
}

#[test]
fn numbers_read_back() {
    for n in [0usize, 7, 10, 12345, usize::MAX] {
        assert_eq!(parse_number(&usize_chars(n)), Some(n));
    }
}

#[test]
fn server_address_is_stable() {
    let u = get_codimd_url("http://h/a/b");
    assert_eq!(u, "http://h/a/");
    assert_eq!(get_codimd_url(&u), u);
}

#[test]
fn gutter_numbers_each_code_line() {
    assert_eq!(
        convert_html_code_number("```js=3\na\nb\nc\n```"),
        "<pre><code class=\"\"><div class=\"wrapper\"><div class=\"gutter linenumber\"><span data-linenumber=\"3\"></span>\n<span data-linenumber=\"4\"></span>\n<span data-linenumber=\"5\"></span></div><div class=\"code\">a\nb\nc\n</div></div></code></pre>\n"
    );
}

fn page(url: &str, title: &str, content: &str) -> Info {
    Info {
        url: String::from(url),
        shortid: String::new(),
        content: String::from(content),
        title: String::from(title),
        c_time: String::new(),
        u_time: String::new(),
    }
}

#[test]
fn recorded_pages_agree() {
    let infos = vec![page("http://h/a", "A:1", "first"), page("http://h/a+b", "B", "second")];
    let url = "http://h/a-b";
    let recorded = CodiMD::new(&url.replace("-", "+"), "out", &infos);
    assert_eq!(recorded.url, "http://h/a+b");
    assert_eq!(get_title(&url.replace("-", "+"), &infos), recorded.title);
    let plan = plan_page(url, "out", false, &infos);
    assert_eq!(plan.md, "second");
    assert_eq!(plan.title, "B");
}

#[test]
fn newline_keeps_lines() {
    let md = "a\n<div>\nb";
    let r = convert_html_newline(md);
    let got: Vec<&str> = r.split('\n').collect();
    assert_eq!(got, vec!["a<br>", "<div>", "b"]);
}

#[test]
fn rules_line_by_line() {
    let r = convert_html_line("x\n- -\n*_");
    let got: Vec<&str> = r.split('\n').collect();
    assert_eq!(got, vec!["x", "<hr></hr>", "*_"]);
}

#[test]
fn pages_without_uploads_keep_paths() {
    let md = "![a](x.png)\r\n<img src=\"y.png\">";
    assert_eq!(replace_path(md, ""), "![a](x.png)\n<img src=\"y.png\">");
}

#[test]
fn pages_without_server_links_stay() {
    let (text, links) = relink_page("a\n[b](http://other/x)\n", "http://h/codimd/", &vec![]);
    assert_eq!(text, "a\n[b](http://other/x)");
    assert!(links.is_empty());
}

#[test]
fn resource_paths_are_local() {
    let html = "![a](/uploads/x.png =1x2)\n<img src=\"/uploads/y.png\">\n<video src=\"/uploads/z.mp4\">";
    let paths = get_resource_path(html, "", "/srv/");
    assert_eq!(paths, vec![String::from("/srv/x.png"), String::from("/srv/y.png"), String::from("/srv/z.mp4")]);
    assert!(paths.iter().all(|p| p.starts_with("/srv/")));
}

#[test]
fn flow_charts_numbered_in_order() {
    let r = convert_html_flow("```flow\na\n```\nx\n``` flow\nb\n```");
    let first = r.find("<div id=\"diagram1\"></div>").unwrap();
    let second = r.find("<div id=\"diagram2\"></div>").unwrap();
    assert!(first < second);
    assert!(r.contains("diagram.drawSVG('diagram2');"));
}

#[test]
fn list_tags_balance() {
    let out = convert_html_list("* a\n  * b\n    * c\nd\n* e");
    let lines: Vec<&str> = out.split('\n').collect();
    let opened = lines.iter().filter(|l| **l == "<ul>").count();
    let closed = lines.iter().filter(|l| **l == "</ul></li>").count();
    assert_eq!(opened, closed);
    assert!(opened >= 1);
}

#[test]
fn quote_tags_balance() {
    let out = convert_html_quote(">> a\n>> b\nc\n> d");
    assert_eq!(out.matches("<blockquote>").count(), 3);
    assert_eq!(out.matches("</blockquote>").count(), 3);
}

#[test]
fn toc_menu_tags_balance() {
    let menu = get_toc_menu(vec![header(1, "A"), header(2, "B"), header(3, "C"), header(1, "D")]);
    assert_eq!(menu.matches("<ul").count(), 3);
    assert_eq!(menu.matches("</ul>").count(), 3);
}

#[test]
fn tables_fit_exactly_when_each_table_fits() {
    let ok = "|a|b|\n|-|-|\n|1|2|\nx\n|c|\n|:-:|";
    assert!(can_make_tables(ok));
    assert!(convert_html_table(ok).contains("<table>"));
    assert!(!can_make_tables("|a|b|\n|-|-|\nx\n|c|\n|-|\n|1|2|"));
    assert!(!can_make_tables("|a|b|\n|-|-|\nx\n|c|"));
}

#[test]
fn separators_become_slashes() {
    assert_eq!(normalize_separators("C:\\data\\out"), "C:/data/out");
    assert_eq!(normalize_separators("a/b"), "a/b");
}

#[test]
fn every_image_of_a_line_is_converted() {
    let out = convert_html_image("![a](x.png) and ![b](y.png)");
    assert_eq!(out.matches("<img").count(), 2);
    assert!(!out.contains("!["));
}

#[test]
fn open_flow_chart_has_no_drawing() {
    let r = convert_html_flow("```flow\na\n```\n```flow\nb");
    assert!(r.contains("<div id=\"diagram1\"></div>"));
    assert!(r.contains("diagram.drawSVG('diagram1');"));
    assert!(r.contains("<div id=\"diagram2\"></div>"));
    assert!(!r.contains("diagram.drawSVG('diagram2');"));
}
