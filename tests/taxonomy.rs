use harper::fstree::{EntryId, FileType, FsTree};
use harper::taxonomy::{discover, DiscoverError, Kind, Site};

fn site_tree() -> (FsTree, EntryId) {
    let mut t = FsTree::new("/site".to_string(), "site".to_string(), FileType::Dir);
    let content = t.insert(EntryId(0), "content".to_string(), FileType::Dir).unwrap();
    (t, content)
}

#[test]
fn classification() {
    let (mut t, content) = site_tree();
    let index = t.insert(content, "index.md".to_string(), FileType::File).unwrap();
    let post = t.insert(content, "post.md".to_string(), FileType::File).unwrap();
    let post_dir = t.insert(content, "post".to_string(), FileType::Dir).unwrap();
    let extra = t.insert(post_dir, "extra.toml".to_string(), FileType::File).unwrap();
    let site = discover(&t, content, None).ok().unwrap();
    assert_eq!(site.collections.len(), 1);
    let c = &site.collections[0];
    assert_eq!(c.root, content);
    assert_eq!(c.index.as_ref().unwrap().entry, index);
    assert_eq!(c.items.iter().map(|i| i.entry).collect::<Vec<_>>(), vec![post]);
    assert_eq!(c.data.len(), 1);
    assert_eq!(c.data[0].0, post_dir);
    assert_eq!(c.data[0].1.iter().map(|i| i.entry).collect::<Vec<_>>(), vec![extra]);
    assert_eq!(Kind::Datum(post_dir), Kind::Datum(post_dir));
}

#[test]
fn duplicate_index() {
    let (mut t, content) = site_tree();
    t.insert(content, "index.md".to_string(), FileType::File).unwrap();
    t.insert(content, "index.markdown".to_string(), FileType::File).unwrap();
    match discover(&t, content, None) {
        Err(DiscoverError::DuplicateIndex { collection, first, second }) => {
            assert_eq!(collection, "/site/content");
            assert_eq!(first, "/site/content/index.md");
            assert_eq!(second, "/site/content/index.markdown");
        }
        Ok(_) => panic!("two index files must fail"),
    }
}

#[test]
fn files_without_index_join_root_collection() {
    let (mut t, content) = site_tree();
    let a = t.insert(content, "a.md".to_string(), FileType::File).unwrap();
    let site = discover(&t, content, None).ok().unwrap();
    assert_eq!(site.collections.len(), 1);
    assert_eq!(site.collections[0].name, "/");
    assert_eq!(site.collections[0].items[0].entry, a);
    assert!(site.collections[0].index.is_none());
}

#[test]
fn nested_collection_owns_its_files() {
    let (mut t, content) = site_tree();
    let blog = t.insert(content, "blog".to_string(), FileType::Dir).unwrap();
    t.insert(blog, "index.html".to_string(), FileType::File).unwrap();
    let p = t.insert(blog, "p.md".to_string(), FileType::File).unwrap();
    let site = discover(&t, content, None).ok().unwrap();
    let c = &site.collections[0];
    assert_eq!(c.root, blog);
    assert_eq!(c.name, "blog");
    assert_eq!(c.items[0].entry, p);
}

#[test]
fn resources_skip_hidden_names() {
    let mut t = FsTree::new("/site".to_string(), "site".to_string(), FileType::Dir);
    let content = t.insert(EntryId(0), "content".to_string(), FileType::Dir).unwrap();
    let assets = t.insert(EntryId(0), "assets".to_string(), FileType::Dir).unwrap();
    let css = t.insert(assets, "main.css".to_string(), FileType::File).unwrap();
    t.insert(assets, ".hidden".to_string(), FileType::File).unwrap();
    let inc = t.insert(assets, "Includes".to_string(), FileType::Dir).unwrap();
    t.insert(inc, "x.css".to_string(), FileType::File).unwrap();
    let img = t.insert(assets, "img".to_string(), FileType::Dir).unwrap();
    let logo = t.insert(img, "logo.png".to_string(), FileType::File).unwrap();
    let site = discover(&t, content, Some(assets)).ok().unwrap();
    let ids: Vec<EntryId> = site.resources.iter().map(|i| i.entry).collect();
    assert_eq!(ids, vec![css, logo]);
    let perma = site.resources[1].metadata.get_raw("permapath");
    assert!(matches!(perma, Some(harper::value::Value::Path(p)) if p == "img/logo.png"));
    let empty = Site::new();
    assert!(empty.collections.is_empty());
}
