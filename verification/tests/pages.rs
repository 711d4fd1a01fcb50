use codimd_downloader::download::{img_tag_line, src_attr_line};
use codimd_downloader::codimd::{CodiMD, Info};
use codimd_downloader::download::{
    assemble_page, build_page, clean_title, codimd_link_line, get_codimd_url, get_title,
    get_url_from_shortid, is_downloaded, plan_page, relink_page, replace_img_path,
    replace_mp4_path,
};
use codimd_downloader::header::get_toc_menu;
use codimd_downloader::line::{codimd_link_from_parts, get_codimd_info};

fn info(url: &str, shortid: &str, title: &str, content: &str) -> Info {
    Info {
        url: String::from(url),
        shortid: String::from(shortid),
        content: String::from(content),
        title: String::from(title),
        c_time: String::new(),
        u_time: String::new(),
    }
}

fn infos() -> Vec<Info> {
    vec![
        info("http://h/codimd/abc", "sid", "T", "# T\nbody"),
        info("http://h/codimd/xyz", "s2", "U/V", "u"),
    ]
}

#[test]
fn server_address() {
    assert_eq!(get_codimd_url("http://h/codimd/abc"), "http://h/codimd/");
}

#[test]
fn titles_and_short_ids() {
    let is = infos();
    assert_eq!(get_title("http://h/codimd/abc#x", &is), "T");
    assert_eq!(get_title("http://h/other", &is), "");
    assert_eq!(get_url_from_shortid("sid", &is), "http://h/codimd/abc");
    assert_eq!(get_url_from_shortid("none", &is), "");
}

#[test]
fn pages_of_the_list() {
    let is = infos();
    let c = CodiMD::new("http://h/codimd/abc?x", "out", &is);
    assert_eq!((c.url.as_str(), c.title.as_str(), c.path.as_str()), ("http://h/codimd/abc", "T", "out"));
    let d = CodiMD::new("http://h/none", "out", &is);
    assert_eq!((d.url.as_str(), d.title.as_str(), d.path.as_str()), ("", "", ""));
    let e = CodiMD::default();
    assert_eq!(e.url, "");
}

#[test]
fn movie_frames() {
    assert_eq!(replace_mp4_path("<iframe src='a.mp4'/>"), "<iframe src='a.mp4'></iframe>");
    assert_eq!(replace_mp4_path("<iframe src=\"a.mp4\"\n/>"), "<iframe src=\"a.mp4\"></iframe>");
}

#[test]
fn image_elements() {
    assert_eq!(replace_img_path("<img src=\"a b.png\"\n>"), "<img src=\"ab.png\">");
    assert_eq!(replace_img_path("plain"), "plain");
}

#[test]
fn link_lines() {
    let is = infos();
    assert_eq!(
        get_codimd_info("see [T](http://h/codimd/abc#Sec) now", "http://h/codimd/", &is),
        (String::from("http://h/codimd/abc"), String::from("see [T](./T.html#Sec) now"))
    );
    assert_eq!(
        get_codimd_info("[T](http://h/codimd/s/sid)", "http://h/codimd/", &is),
        (String::from("http://h/codimd/abc"), String::from("[T](./T.html)"))
    );
    assert_eq!(
        codimd_link_line("http://h/codimd/abc?both", "http://h/codimd/", &is),
        Some((String::from("http://h/codimd/abc"), String::from("[T](./T.html)")))
    );
    assert_eq!(codimd_link_line("plain", "http://h/codimd/", &is), None);
}

#[test]
fn relinked_pages() {
    let is = infos();
    let (text, links) = relink_page("[T](http://h/codimd/abc)\nplain", "http://h/codimd/", &is);
    assert_eq!(text, "[T](./T.html)\nplain");
    assert_eq!(links, vec![String::from("http://h/codimd/abc")]);
}

#[test]
fn downloaded_pages() {
    let is = infos();
    let cms = vec![CodiMD::new("http://h/codimd/abc", "out", &is)];
    assert!(is_downloaded(&cms, "http://h/codimd/abc"));
    assert!(!is_downloaded(&cms, "http://h/codimd/xyz"));
}

#[test]
fn file_titles() {
    assert_eq!(clean_title("a/b:c"), "abc");
    assert_eq!(clean_title("plain"), "plain");
}

#[test]
fn page_plans() {
    let is = infos();
    let p = plan_page("http://h/codimd/abc", "out", true, &is);
    assert_eq!(p.md, "# T\nbody");
    assert_eq!(p.title, "T");
    assert_eq!(p.output, "out/T");
    assert_eq!(p.path, "out/T/T.html");
    let q = plan_page("http://h/codimd/xyz", "out", false, &is);
    assert_eq!(q.title, "UV");
    assert_eq!(q.output, "out");
    assert_eq!(q.path, "out/UV.html");
    let r = plan_page("http://h/none", "out", true, &is);
    assert_eq!((r.md.as_str(), r.path.as_str()), ("", ""));
}

#[test]
fn whole_page_files() {
    let menu = get_toc_menu(vec![]);
    let page = assemble_page("<title>title--title</title>style--style", "END", "css", "Pg", "BODY", vec![]);
    assert_eq!(page, format!("<title>Pg - CodiMD</title>cssBODY{}END", menu));
}

#[test]
fn links_from_parts() {
    let is = infos();
    assert_eq!(
        codimd_link_from_parts("see ", "T", "http://h/codimd/abc#Sec", " now", "http://h/codimd/", &is),
        (String::from("http://h/codimd/abc"), String::from("see [T](./T.html#Sec) now"))
    );
}

#[test]
fn built_pages() {
    let is = infos();
    let md = "![a](/uploads/x.png)\n[T](http://h/codimd/abc)";
    let out = build_page(md, "Pg", "css", "<t>title--title</t>", "END", "", "/srv/", "http://h/codimd/", &is);
    assert_eq!(out.resources, Some(vec![String::from("/srv/x.png")]));
    assert_eq!(out.links, vec![String::from("http://h/codimd/abc")]);
    let page = out.page.unwrap();
    assert!(page.starts_with("<t>Pg - CodiMD</t><img src=\"./resource/x.png\""));
    assert!(page.contains("href=\"./T.html\""));
    assert!(page.ends_with("END"));
    let bad = build_page("|a|\nx", "Pg", "", "", "", "", "/srv/", "http://h/codimd/", &is);
    assert!(bad.page.is_none());
    assert_eq!(bad.resources, Some(vec![]));
}

#[test]
fn image_element_groups() {
    let h: Vec<char> = " src=\"a\"\n".chars().collect();
    assert_eq!(img_tag_line(&h).iter().collect::<String>(), "<img src=\"a\">");
    let p: Vec<char> = "a b.png".chars().collect();
    assert_eq!(src_attr_line(&p).iter().collect::<String>(), "src=\"ab.png\"");
}
