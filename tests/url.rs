use harper::url::{is_url_char, Url, UrlBuf};

#[test]
fn scheme_detection() {
    assert_eq!(Url::new("http://rocket.rs").scheme(), Some("http".to_string()));
    assert_eq!(Url::new("ftp:/rocket.rs").scheme(), Some("ftp".to_string()));
    assert_eq!(Url::new("mailto:foo@bar.com").scheme(), Some("mailto".to_string()));
    assert_eq!(Url::new("foo#bar:baz").scheme(), None);
    assert_eq!(Url::new("foo?bar:baz").scheme(), None);
}

#[test]
fn validity() {
    assert!(is_url_char(&b'a'));
    assert!(is_url_char(&b'#'));
    assert!(!is_url_char(&b' '));
    assert!(!is_url_char(&b'"'));
    assert!(Url::is_valid_str("https://rocket.rs/a?b=c#d"));
    assert!(!Url::is_valid_str("a b"));
    assert!(!Url::is_valid_str("caf\u{e9}"));
    assert!(Url::try_new("a b").is_none());
    assert!(Url::try_from("a b".to_string()).is_err());
    assert_eq!(Url::try_new("/x").unwrap().as_str(), "/x");
}

#[test]
fn prepend_examples() {
    let mut url = UrlBuf::from("foo/bar".to_string());
    assert_eq!(url.as_str(), "foo/bar");
    url.prepend(&Url::new("/"));
    assert_eq!(url.as_str(), "/foo/bar");
    url.prepend(&Url::new("bar/baz/"));
    assert_eq!(url.as_str(), "bar/baz/foo/bar");
    url.prepend(&Url::new("https://rocket.rs"));
    assert_eq!(url.as_str(), "https://rocket.rs/bar/baz/foo/bar");
    url.prepend(&Url::new("/bar/baz"));
    assert_eq!(url.as_str(), "https://rocket.rs/bar/baz/foo/bar");
}

#[test]
fn append_examples() {
    let mut url = UrlBuf::from("https://rocket.rs".to_string());
    url.append(&Url::new("bar/baz"));
    assert_eq!(url.as_str(), "https://rocket.rs/bar/baz");
    url.append(&Url::new("/foo/bar/"));
    assert_eq!(url.as_str(), "https://rocket.rs/bar/baz/foo/bar/");
    url.append(&Url::new("https://rwf2.org/foo"));
    assert_eq!(url.as_str(), "https://rwf2.org/foo");
    let mut url = UrlBuf::from("/foo/bar".to_string());
    url.append(&Url::new("baz"));
    assert_eq!(url.as_str(), "/foo/bar/baz");
    url.append(&Url::new("/"));
    assert_eq!(url.as_str(), "/foo/bar/baz/");
}

#[test]
fn extend_and_absolute() {
    let mut url = UrlBuf::new();
    url.extend(&vec![Url::new("a"), Url::new("b/"), Url::new("/c")]);
    assert_eq!(url.as_str(), "/a/b/c");
    let mut rel = UrlBuf::from("x/y".to_string());
    rel.make_absolute();
    assert_eq!(rel.as_str(), "/x/y");
    let mut abs = UrlBuf::from("https://a.b/c".to_string());
    abs.make_absolute();
    assert_eq!(abs.as_str(), "https://a.b/c");
}

#[test]
fn relative_part_examples() {
    let mut url = UrlBuf::from("https://rocket.rs/foo".to_string());
    url.make_relative();
    assert_eq!(url.as_str(), "foo");
    assert_eq!(Url::new("ftp:/rocket.rs").relative_part().as_str(), "rocket.rs");
    assert_eq!(Url::new("https://rocket.rs").relative_part().as_str(), "");
    assert_eq!(Url::new("///a/b").relative_part().as_str(), "a/b");
    assert_eq!(Url::new("mailto:x@y").relative_part().as_str(), "x@y");
    assert!(Url::new("/a").is_absolute());
    assert!(Url::new("http:x").is_absolute());
    assert!(Url::new("a/b").is_relative());
    assert_eq!(Url::new("a").to_url_buf().into_string(), "a");
    assert_eq!(UrlBuf::from("q".to_string()).as_url().into(), "q");
    assert_eq!(UrlBuf::from("q".to_string()).into_arc_url().as_str(), "q");
    assert!(UrlBuf::from("q".to_string()).as_url().is_valid());
    assert_eq!(UrlBuf::from_url(&Url::new("/z")).as_str(), "/z");
}
