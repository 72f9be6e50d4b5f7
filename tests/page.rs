use harper::fstree::{EntryId, FileType, FsTree};
use harper::page::{ancestors, find_template, html_ext, is_rendered, join, locate, page_url, prepare_page, Placement, StringExt};
use harper::value::{Metadata, Value};
use harper::taxonomy::Kind;
use harper::url::Url;

#[test]
fn page_locations() {
    assert_eq!(join("", "a"), "a");
    assert_eq!(join("blog", "x"), "blog/x");
    assert!(is_rendered(Some("md")));
    assert!(is_rendered(Some("json")));
    assert!(!is_rendered(Some("css")));
    assert!(!is_rendered(None));
    assert_eq!(
        locate(Kind::Index, true, "blog", "s", "blog/index.md"),
        Some(("blog/index.html".to_string(), "blog".to_string(), true))
    );
    assert_eq!(
        locate(Kind::Item(0), true, "blog", "post", "blog/post.md"),
        Some(("blog/post/index.html".to_string(), "blog/post".to_string(), true))
    );
    assert_eq!(locate(Kind::Datum(EntryId(3)), true, "blog", "d", "blog/x/d.toml"), None);
    assert_eq!(
        locate(Kind::Item(1), false, "blog", "img", "blog/img.png"),
        Some(("blog/img.png".to_string(), "blog/img.png".to_string(), false))
    );
}

#[test]
fn page_urls() {
    let root = Url::new("https://x.org");
    assert_eq!(page_url(&root, "blog/post", true).unwrap().as_str(), "https://x.org/blog/post/");
    assert_eq!(page_url(&Url::new("/"), "blog/post", true).unwrap().as_str(), "/blog/post/");
    assert_eq!(page_url(&Url::new("/"), "a.png", false).unwrap().as_str(), "/a.png");
    assert!(page_url(&root, "has space", false).is_none());
}

#[test]
fn template_search() {
    assert_eq!(html_ext("a/b"), "a/b.html");
    assert_eq!(html_ext("a/b.c"), "a/b.html");
    assert_eq!(html_ext("a/.hidden"), "a/.hidden.html");
    assert_eq!(html_ext(""), "");
    assert_eq!(ancestors("a/b/c"), vec!["a/b/c", "a/b", "a", ""]);
    assert_eq!(ancestors(""), vec![""]);
    let mut t = FsTree::new("/s".to_string(), "s".to_string(), FileType::Dir);
    let tpl = t.insert(EntryId(0), "templates".to_string(), FileType::Dir).unwrap();
    t.insert(tpl, "page.html".to_string(), FileType::File).unwrap();
    t.insert(tpl, "blog.html".to_string(), FileType::File).unwrap();
    assert_eq!(find_template(&t, tpl, "blog", Kind::Item(0)), Some("blog.html".to_string()));
    assert_eq!(find_template(&t, tpl, "docs/x", Kind::Item(0)), Some("page.html".to_string()));
    assert_eq!(find_template(&t, tpl, "docs", Kind::Index), None);
    t.insert(tpl, "default.html".to_string(), FileType::File).unwrap();
    assert_eq!(find_template(&t, tpl, "docs", Kind::Index), Some("default.html".to_string()));
}

#[test]
fn slug_trimming() {
    assert_eq!("  --Hello World!!".to_string().slugify(), "Hello World");
    assert_eq!("123abc.".to_string().slugify(), "abc");
    assert_eq!("...".to_string().slugify(), "");
}

fn meta_with(pairs: Vec<(&str, Value)>) -> Metadata {
    let mut m = Metadata::new();
    for (k, v) in pairs {
        m.insert_raw(k.to_string(), v);
    }
    m
}

#[test]
fn preparing_pages() {
    let root = Url::new("/");
    let mut m = meta_with(vec![("draft", Value::Bool(true))]);
    assert_eq!(prepare_page(&mut m, Kind::Item(0), Some("md"), "blog", &"x".to_string(), "blog/x.md", &root, None), Placement::Draft);
    assert_eq!(m.len(), 1);

    let mut m = meta_with(vec![("slug", Value::String("custom".to_string()))]);
    let r = prepare_page(&mut m, Kind::Item(0), Some("md"), "blog", &"x".to_string(), "blog/x.md", &root, Some("page.html".to_string()));
    assert_eq!(r, Placement::Placed);
    assert!(matches!(m.get_raw("permapath"), Some(Value::Path(p)) if p == "blog/custom/index.html"));
    assert!(matches!(m.get_raw("url"), Some(Value::String(u)) if u == "/blog/custom/"));
    assert!(matches!(m.get_raw("template"), Some(Value::Path(t)) if t == "page.html"));

    let mut m = Metadata::new();
    let r = prepare_page(&mut m, Kind::Item(1), Some("md"), "blog", &"--Hello World!".to_string(), "blog/h.md", &root, None);
    assert_eq!(r, Placement::Placed);
    assert!(matches!(m.get_raw("slug"), Some(Value::String(s)) if s == "Hello World"));
    assert!(m.get_raw("url").is_none());
    assert!(m.get_raw("template").is_none());

    let mut m = meta_with(vec![("slug", Value::Bool(false))]);
    assert_eq!(prepare_page(&mut m, Kind::Index, Some("md"), "", &"index".to_string(), "index.md", &root, None), Placement::BadSlug);

    let mut m = Metadata::new();
    assert_eq!(prepare_page(&mut m, Kind::Datum(EntryId(2)), Some("toml"), "blog", &"d".to_string(), "blog/a/d.toml", &root, None), Placement::NoPage);
    assert!(matches!(m.get_raw("slug"), Some(Value::String(s)) if s == "d"));
    assert!(m.get_raw("permapath").is_none());
}
