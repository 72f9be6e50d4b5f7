use harper::markdown::{Event, Parts, Tag, TagEnd};
use harper::util::{deslug, diff_paths, is_template, PathExt};

#[test]
fn template_markers() {
    assert!(is_template("a {{ b }}"));
    assert!(is_template("{% if x %}"));
    assert!(!is_template("a { b } c"));
    assert!(!is_template("{"));
    assert!(!is_template(""));
}

#[test]
fn deslug_replaces_dashes() {
    assert_eq!(deslug("my-test-post"), "my test post");
    assert_eq!(deslug("plain"), "plain");
}

#[test]
fn without_extension_strips_all_extensions() {
    assert_eq!("a/b.tar.gz".to_string().without_extension(), "a/b");
    assert_eq!("a.b/c".to_string().without_extension(), "a.b/c");
    assert_eq!("dir/file.md/".to_string().without_extension(), "dir/file");
    assert_eq!("noext".to_string().without_extension(), "noext");
}

fn para(text: &str) -> Vec<Event> {
    vec![Event::Start(Tag::Paragraph), Event::Text(text.to_string()), Event::End(TagEnd::Paragraph)]
}

#[test]
fn parts_split_on_separator() {
    let mut events = para("one");
    events.extend(para("==="));
    events.extend(para("two"));
    let mut parts = Parts::new();
    let sections = parts.remap(events);
    assert!(parts.has_parts());
    assert_eq!(sections.len(), 2);
    assert_eq!(sections[0].len(), 3);
    assert_eq!(sections[1].len(), 3);
    assert!(matches!(&sections[1][1], Event::Text(t) if t == "two"));
    let mut plain = Parts::new();
    let one = plain.remap(para("only"));
    assert_eq!(one.len(), 1);
    assert!(!plain.has_parts());
}

#[test]
fn diff_paths_examples() {
    assert_eq!(diff_paths("/a/b/c", "b/c"), None);
    assert_eq!(diff_paths("a/b/c", "/b/c"), None);
    assert_eq!(diff_paths("/a/b/c", "/b/c"), Some("../../a/b/c".to_string()));
    assert_eq!(diff_paths("c/a", "b/c/a"), Some("../../../c/a".to_string()));
    let bar = "/foo/bar";
    let baz = "/foo/bar/baz";
    let quux = "/foo/bar/quux";
    assert_eq!(diff_paths(bar, baz), Some("..".to_string()));
    assert_eq!(diff_paths(baz, bar), Some("baz".to_string()));
    assert_eq!(diff_paths(quux, baz), Some("../quux".to_string()));
    assert_eq!(diff_paths(baz, quux), Some("../baz".to_string()));
    assert_eq!(diff_paths(bar, quux), Some("..".to_string()));
    assert_eq!(diff_paths("a", "a"), Some(String::new()));
    assert_eq!(diff_paths("a/b", "../c"), None);
}
