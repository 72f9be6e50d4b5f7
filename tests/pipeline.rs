use harper::alias::{rewrite, Alias};
use harper::fstree::{EntryId, FileType, FsTree};
use harper::frontmatter::FrontMatter;
use harper::markdown::{Event, Tag};
use harper::render::{combine_results, Error, MakeshiftError};
use harper::taxonomy::{Collection, Kind};

fn table() -> Vec<(String, String)> {
    vec![
        ("docs".to_string(), "https://x.org/docs".to_string()),
        ("root".to_string(), "/".to_string()),
    ]
}

#[test]
fn alias_rewriting() {
    assert_eq!(rewrite(&table(), "@docs/guide"), "https://x.org/docs/guide");
    assert_eq!(rewrite(&table(), "@docs"), "https://x.org/docs");
    assert_eq!(rewrite(&table(), "@root/a"), "/a");
    assert_eq!(rewrite(&table(), "@docs//a"), "https://x.org/docs/a");
    assert_eq!(rewrite(&table(), "@nope/a"), "@nope/a");
    assert_eq!(rewrite(&table(), "plain/a"), "plain/a");
    let alias = Alias::new(table());
    let out = alias.remap(vec![
        Event::Start(Tag::Link { dest_url: "@docs/x".to_string(), title: "t".to_string() }),
        Event::Text("x".to_string()),
    ]);
    assert!(matches!(&out[0], Event::Start(Tag::Link { dest_url, .. }) if dest_url == "https://x.org/docs/x"));
    assert_eq!(out.len(), 2);
}

#[test]
fn front_matter_split() {
    let fm = FrontMatter::new();
    let (front, content) = fm.preprocess("+++\ntitle = \"a\"\n+++\nbody\n");
    assert_eq!(front, Some("title = \"a\"".to_string()));
    assert_eq!(content, "body\n");
    let (front, content) = fm.preprocess("no front matter\n");
    assert_eq!(front, None);
    assert_eq!(content, "no front matter\n");
    let (front, content) = fm.preprocess("+++\nunclosed\n");
    assert_eq!(front, None);
    assert_eq!(content, "+++\nunclosed\n");
}

fn err(msg: &str) -> Error {
    Error::new(MakeshiftError { message: msg.to_string(), parameters: vec![] })
}

fn messages(e: Error) -> Vec<String> {
    e.into_links().into_iter().map(|l| l.message).collect()
}

#[test]
fn combining_results_chains_both_failures() {
    assert_eq!(combine_results::<u8>(Ok(1), Ok(())).ok(), Some(1));
    let r = combine_results::<u8>(Ok(1), Err(err("assets")));
    assert_eq!(messages(r.err().unwrap()), vec!["assets"]);
    let r = combine_results::<u8>(Err(err("collections")), Ok(()));
    assert_eq!(messages(r.err().unwrap()), vec!["collections"]);
    let r = combine_results::<u8>(Err(err("collections")), Err(err("assets")));
    assert_eq!(messages(r.err().unwrap()), vec!["collections", "assets"]);
}

#[test]
fn render_plan_order() {
    let mut c = Collection::new("blog".to_string(), EntryId(1));
    c.new_item(EntryId(4));
    c.new_datum(EntryId(5), EntryId(6));
    c.set_index_item(EntryId(2));
    c.new_item(EntryId(3));
    let plan = c.render_plan();
    assert_eq!(
        plan,
        vec![
            (Kind::Index, EntryId(2)),
            (Kind::Datum(EntryId(5)), EntryId(6)),
            (Kind::Item(0), EntryId(4)),
            (Kind::Item(1), EntryId(3)),
        ]
    );
}

#[test]
fn collections_sort_items_by_path() {
    let mut t = FsTree::new("/s".to_string(), "s".to_string(), FileType::Dir);
    let dir = t.insert(EntryId(0), "c".to_string(), FileType::Dir).unwrap();
    let b = t.insert(dir, "b.md".to_string(), FileType::File).unwrap();
    let a = t.insert(dir, "a.md".to_string(), FileType::File).unwrap();
    let sub = t.insert(dir, "a".to_string(), FileType::Dir).unwrap();
    let z = t.insert(sub, "z.md".to_string(), FileType::File).unwrap();
    let y = t.insert(sub, "y.md".to_string(), FileType::File).unwrap();
    let mut c = Collection::new("c".to_string(), dir);
    c.new_item(b);
    c.new_item(a);
    c.new_datum(sub, z);
    c.new_datum(sub, y);
    c.sort_by_path(&t);
    assert_eq!(c.items.iter().map(|i| i.entry).collect::<Vec<_>>(), vec![a, b]);
    assert_eq!(c.data[0].1.iter().map(|i| i.entry).collect::<Vec<_>>(), vec![y, z]);
}
