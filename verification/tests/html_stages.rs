use codimd_downloader::html::{header_element, inline_code};
use codimd_downloader::html::{
    can_number_code, can_convert_html, can_read_resource_paths, can_make_tables, convert_html,
    convert_html_alert, convert_html_bold, convert_html_cancel, convert_html_checkbox,
    convert_html_code, convert_html_code_number, convert_html_emozi, convert_html_flow,
    convert_html_header, convert_html_image, convert_html_insert, convert_html_italic,
    convert_html_line, convert_html_list, convert_html_marker, convert_html_mermaid,
    convert_html_newline, convert_html_quote, convert_html_table, convert_html_toc,
    convert_html_url, convert_html_youtube, convert_image, create_table, delete_space,
    plain_image_element, sized_image_element,
    can_convert_url_lines, can_convert_quotes,
    get_number_of_line, get_resource_path, get_toc, parse_number, replace_code_post,
    replace_code_pre, replace_path, try_convert_html, NOTBREAK,
};
use codimd_downloader::header::Header;

fn chars(s: &str) -> Vec<char> {
    s.chars().collect()
}

#[test]
fn delete_space_joins_lines() {
    assert_eq!(delete_space("a\r\nb\n"), "a\nb");
    assert_eq!(delete_space(""), "");
    assert_eq!(delete_space(" \n```\n  \n```\n x\n   "), "\n```\n  \n```\n x\n");
}

#[test]
fn line_rules_become_hr() {
    assert_eq!(convert_html_line("***\nabc\n- - -\n___"), "<hr></hr>\nabc\n<hr></hr>\n<hr></hr>");
    assert_eq!(convert_html_line("-a-"), "-a-");
}

#[test]
fn inline_markup() {
    assert_eq!(convert_html_italic("a *b* c"), "a <em>b</em> c");
    assert_eq!(convert_html_bold("**x**"), "<strong>x</strong>");
    assert_eq!(convert_html_cancel("~~ab~~"), "<s>ab</s>");
    assert_eq!(convert_html_marker("==abc=="), "<mark>abc</mark>");
    assert_eq!(convert_html_insert("++ab++"), "<ins>ab</ins>");
}

#[test]
fn youtube_embeds() {
    assert_eq!(
        convert_html_youtube("{%youtube abc%}\nx"),
        "<div class=\"youtube\" data-videoid=\"abc\"><iframe webkitallowfullscreen=\"\" mozallowfullscreen=\"\" allowfullscreen=\"\" src=\"https://www.youtube.com/embed/abc\" frameborder=\"0\"></iframe></div>\nx"
    );
}

#[test]
fn emoji_images() {
    assert_eq!(
        convert_html_emozi(":smile:"),
        "<img class=\"emoji\" alt=\":smile:\" src=\"https://cdn.jsdelivr.net/npm/@hackmd/emojify.js@2.1.0/dist/images/basic/smile.png\">"
    );
    assert_eq!(convert_html_emozi("<pre><code>\n:smile:\n"), "<pre><code>\n:smile:");
}

#[test]
fn checkbox_lists() {
    assert_eq!(
        convert_html_checkbox("- [ ] a\n- [x] b\nc"),
        "<ul>\n<li class=\"task-list-item\"><input type=\"checkbox\" class=\"task-list-item-checkbox\" disabled=\"disabled\"><label></label> a</li>\n<li class=\"task-list-item\"><input type=\"checkbox\" class=\"task-list-item-checkbox\" checked=\"\" disabled=\"disabled\"><label></label> b</li>\n</ul>\nc"
    );
}

#[test]
fn url_lines() {
    assert_eq!(
        convert_html_url("[t](http://x.com)"),
        "<a href=\"http://x.com\" target=\"_blank\" rel=\"noopener\">t</a>"
    );
    assert_eq!(
        convert_html_url("http://x.com"),
        "<a href=\"http://x.com\" target=\"_blank\" rel=\"noopener\">http://x.com</a>"
    );
}

#[test]
fn images() {
    assert_eq!(convert_image("![a](/p.png)"), "<img src=\"/p.png\" alt=\"\" class=\"md-image md-image\"><br>");
    assert_eq!(
        convert_image("![a](/p.png =10x20)"),
        "<img src=\"/p.png\" alt=\"\" class=\"md-image md-image\" width=\"10\" height=\"20\">"
    );
    assert_eq!(
        convert_html_image("![a](/p.png)\nx"),
        "<img src=\"/p.png\" alt=\"\" class=\"md-image md-image\"><br>\nx"
    );
}

#[test]
fn quotes() {
    assert_eq!(convert_html_quote("> a\nb"), "<blockquote>\n a<br/>\n</blockquote>\nb");
    assert_eq!(convert_html_quote("> a\n> b"), "<blockquote>\n a<br/>\n b<br/>\n</blockquote>");
    assert_eq!(convert_html_quote("> a\n\nb"), "<blockquote>\n a<br/>\n</blockquote>\nb");
}

#[test]
fn newlines() {
    assert_eq!(convert_html_newline("a\nb"), "a<br>\nb");
    assert_eq!(convert_html_newline("a\n<hr></hr>"), "a\n<hr></hr>");
    assert_eq!(convert_html_newline("<pre><code>\na\nb\n</code></pre>"), "<pre><code>\na\nb\n</code></pre>");
}

#[test]
fn mermaid_blocks() {
    assert_eq!(
        convert_html_mermaid("```mermaid\ngraph TD\n```\nx"),
        "<pre class=\"mermaid\"><code>\ngraph TD\n</code></pre>\nx"
    );
}

#[test]
fn flow_charts() {
    let nb = NOTBREAK;
    let want = vec![
        format!("<div class=\"panel panel-default\">{}", nb),
        format!("<div class=\"panel-body\">{}", nb),
        format!("    <div id=\"diagram1\"></div>{}", nb),
        format!("    </div>{}", nb),
        format!("</div>{}", nb),
        format!("<script type=\"text/javascript\">{}", nb),
        format!("    $(document).ready(function () {{{}", nb),
        format!("        var diagram = flowchart.parse({}", nb),
        format!("'\t\t\tst=>start\\n' +{}", nb),
        format!("'\t\t\te=>end\\n'{}", nb),
        format!("        );{}", nb),
        format!("        diagram.drawSVG('diagram1');{}", nb),
        format!("     }});{}", nb),
        format!("</script>{}", nb),
    ]
    .join("\n");
    assert_eq!(convert_html_flow("```flow\nst=>start\ne=>end\n```"), want);
}

#[test]
fn tables() {
    assert_eq!(
        convert_html_table("|a|b|\n|:-:|--:|\n|1|2|"),
        "<table>\n<thead>\n<tr>\n<th style=\"text-align:center\">a</th>\n<th style=\"text-align:right\">b</th>\n</tr>\n</thead>\n<tr>\n<td style=\"text-align:center\">1</td>\n<td style=\"text-align:right\">2</td>\n</tr>\n</table>\n</thead>"
    );
    assert!(can_make_tables("|a|b|\n|-|-|\nx"));
    assert!(!can_make_tables("|a|\nx"));
    assert!(!can_make_tables("|a|\n|-|\n|1|2|"));
}

#[test]
fn create_table_alignments() {
    let rows = vec![
        vec![chars("h")],
        vec![chars(":-")],
        vec![chars("c")],
    ];
    let mut out: Vec<Vec<char>> = Vec::new();
    create_table(&rows, &mut out);
    let got: Vec<String> = out.iter().map(|l| l.iter().collect()).collect();
    assert_eq!(
        got,
        vec![
            "<table>",
            "<thead>",
            "<tr>",
            "<th style=\"text-align:left\">h</th>",
            "</tr>",
            "</thead>",
            "<tr>",
            "<td style=\"text-align:left\">c</td>",
            "</tr>",
            "</table>",
            "</thead>",
        ]
    );
}

#[test]
fn alerts() {
    assert_eq!(convert_html_alert(":::info\nhello\n:::"), "<div class=\"alert alert-info\">\nhello\n</div>");
    assert_eq!(convert_html_alert(":::spoiler\nhid\n:::"), "<details>\nhid\n</details>");
}

#[test]
fn number_of_line() {
    let lines = vec![chars("```js="), chars("x"), chars("``` ")];
    assert_eq!(get_number_of_line(&lines, 0), 2);
    let lines = vec![chars("```js="), chars("x")];
    assert_eq!(get_number_of_line(&lines, 0), 0);
}

#[test]
fn numbered_code() {
    assert_eq!(
        convert_html_code_number("```js=5\nx\ny\n```"),
        "<pre><code class=\"\"><div class=\"wrapper\"><div class=\"gutter linenumber\"><span data-linenumber=\"5\"></span>\n<span data-linenumber=\"6\"></span></div><div class=\"code\">x\ny\n</div></div></code></pre>\n"
    );
    assert!(can_number_code("```js=5\nx\n```"));
    assert!(!can_number_code("```js=\nx"));
}

#[test]
fn parse_numbers() {
    assert_eq!(parse_number(&chars("42")), Some(42));
    assert_eq!(parse_number(&chars("+7")), Some(7));
    assert_eq!(parse_number(&chars("")), None);
    assert_eq!(parse_number(&chars("+")), None);
    assert_eq!(parse_number(&chars("4a")), None);
    assert_eq!(parse_number(&chars("99999999999999999999999")), None);
}

#[test]
fn code_stand_ins() {
    assert_eq!(replace_code_pre("<a>=*+~_#-!"), "&lt;a&gt;ÒÓÔÕÑÐℜ 𝒻");
    assert_eq!(replace_code_post("ÒÓÔÕÑÐℜ 𝒻"), "=*+~_#-!");
    assert_eq!(replace_code_post("<pre><code>  x  </code></pre>"), "<pre><code>x</code></pre>");
}

#[test]
fn code_blocks() {
    assert_eq!(convert_html_code("`a=b`"), "<code>aÒb</code>");
    assert_eq!(convert_html_code("```\nx<y\n```"), "<pre><code>\nx&lt;y\n</code></pre>");
}

#[test]
fn lists() {
    assert_eq!(
        convert_html_list("* a\n* b\n\nc"),
        "<ul>\n<li> a\n</li>\n<li> b\n</ul></li>\n\nc"
    );
}

#[test]
fn headers_become_elements() {
    assert_eq!(
        convert_html_header("## Title"),
        "\n<h2 id=\"Title\"><a class=\"anchor hidden-xs\" href=\"#Title\" title=\"Title\"><i class=\"fa fa-link\"></i></a>Title</h2>\n"
    );
}

#[test]
fn toc_lines() {
    let hs = vec![Header { number: 1, name: String::from("A") }];
    assert_eq!(
        get_toc(&hs),
        vec![
            String::from("<div class=\"toc\"><ul>"),
            String::from("<li><a href=\"#A\" title=\"A\">A</a></li>"),
            String::from("</div>"),
        ]
    );
    assert_eq!(
        convert_html_toc("[toc]\n# A"),
        "<div class=\"toc\"><ul>\n<li><a href=\"#A\" title=\"A\">A</a></li>\n</div>\n# A"
    );
}

#[test]
fn whole_pages() {
    assert_eq!(convert_html("abc"), "abc");
    assert_eq!(
        convert_html("# T\nx"),
        "\n<h1 id=\"T\"><a class=\"anchor hidden-xs\" href=\"#T\" title=\"T\"><i class=\"fa fa-link\"></i></a>T</h1>\n\nx"
    );
    assert!(can_convert_html("abc"));
    assert_eq!(try_convert_html("|a|\nx"), None);
    assert_eq!(try_convert_html("abc"), Some(String::from("abc")));
}

#[test]
fn resource_paths() {
    assert_eq!(get_resource_path("![a](/uploads/x.png)", "", "/srv/"), vec![String::from("/srv/x.png")]);
    assert_eq!(get_resource_path("![a](/uploads/x.png =10x20)", "", "/srv/"), vec![String::from("/srv/x.png")]);
    assert_eq!(
        get_resource_path("<iframe src=\"/codimd/uploads/a.pdf\"></iframe>", "codimd", "/srv/"),
        vec![String::from("/srv/a.pdf")]
    );
    assert!(!can_read_resource_paths("<iframe src=\"/uploads/a.pdf\"></iframe>", "", "/srv/"));
    assert!(can_read_resource_paths("![a](/uploads/x.png)", "", "/srv/"));
}

#[test]
fn local_paths() {
    assert_eq!(replace_path("![a](/uploads/x.png)\ntext /uploads/", ""), "![a](./resource/x.png)\ntext /uploads/");
    assert_eq!(replace_path("![a](/codimd/uploads/x.png)", "codimd"), "![a](./resource/x.png)");
}

#[test]
fn link_conversion_fits() {
    assert!(can_convert_url_lines("a\n[b](c)"));
    assert!(!can_convert_url_lines("a\n<hX>[n](a) fa fa-link"));
    assert!(can_convert_quotes("> [b](c)"));
    assert!(can_convert_quotes("> <hX>[n](a) fa fa-link"));
    assert!(!can_convert_quotes("><hX[n](a) fa fa-link"));
    assert!(!can_convert_html("<hX>[n](a) fa fa-link"));
}

#[test]
fn image_elements_from_parts() {
    assert_eq!(
        sized_image_element("a ", "/p.png", "10", "20", " b"),
        "a <img src=\"/p.png\" alt=\"\" class=\"md-image md-image\" width=\"10\" height=\"20\"> b"
    );
    assert_eq!(plain_image_element("", "/q.png", "x"), "<img src=\"/q.png\" alt=\"\" class=\"md-image md-image\">x<br>");
}

#[test]
fn group_replacements() {
    assert_eq!(inline_code(&chars("a<b")), chars("<code>a&lt;b</code>"));
    assert_eq!(
        header_element("3", &chars("A b")),
        chars("\n<h3 id=\"Ab\"><a class=\"anchor hidden-xs\" href=\"#Ab\" title=\"Ab\"><i class=\"fa fa-link\"></i></a>A b</h3>\n")
    );
}
