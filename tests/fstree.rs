use harper::fstree::{EntryId, FileType, FsTree};

fn sample() -> FsTree {
    let mut t = FsTree::new("/site".to_string(), "site".to_string(), FileType::Dir);
    let content = t.insert(EntryId(0), "content".to_string(), FileType::Dir).unwrap();
    t.insert(content, "index.md".to_string(), FileType::File).unwrap();
    let post = t.insert(content, "post".to_string(), FileType::Dir).unwrap();
    t.insert(post, "extra.toml".to_string(), FileType::File).unwrap();
    t
}

#[test]
fn insert_assigns_ids_paths_and_depths() {
    let t = sample();
    assert_eq!(t.len(), 5);
    let e = t.index(EntryId(4));
    assert_eq!(e.path, "/site/content/post/extra.toml");
    assert_eq!(e.depth, 3);
    assert_eq!(e.parent, Some(EntryId(3)));
    assert_eq!(t.index(EntryId(1)).children, vec![EntryId(2), EntryId(3)]);
    for i in 1..t.len() {
        let e = t.index(EntryId(i));
        assert_eq!(e.id, EntryId(i));
        let p = t.index(e.parent.unwrap());
        assert_eq!(e.depth, p.depth + 1);
    }
}

#[test]
fn insert_refuses_bad_names_and_duplicates() {
    let mut t = sample();
    assert_eq!(t.insert(EntryId(1), "".to_string(), FileType::File), None);
    assert_eq!(t.insert(EntryId(1), "a/b".to_string(), FileType::File), None);
    assert_eq!(t.insert(EntryId(1), "post".to_string(), FileType::File), None);
    assert_eq!(t.len(), 5);
}

#[test]
fn round_trip_lookup() {
    let t = sample();
    let content = EntryId(1);
    for i in 1..t.len() {
        let id = EntryId(i);
        let rel = t.relative_path(id, content);
        if t.path_exists(content, id) {
            let rel = rel.unwrap();
            assert_eq!(t.get_id(Some(content), &rel), Some(id));
        } else {
            assert!(rel.is_none());
        }
    }
    assert_eq!(t.get_id(None, "content/post"), Some(EntryId(3)));
    assert_eq!(t.get_id(None, ""), Some(EntryId(0)));
    assert_eq!(t.get_id(None, "/site/content"), Some(EntryId(1)));
    assert_eq!(t.get_id(None, "missing"), None);
    assert_eq!(t.get_file_id(None, "content/post"), None);
    assert_eq!(t.get_file_id(Some(EntryId(3)), "extra.toml"), Some(EntryId(4)));
    assert_eq!(t.get(None, "content").unwrap().file_name, "content");
    assert_eq!(t.lookup("/site/content/index.md"), Some(EntryId(2)));
}

#[test]
fn descent_and_names() {
    let t = sample();
    assert!(t.path_exists(EntryId(1), EntryId(4)));
    assert!(t.path_exists(EntryId(4), EntryId(4)));
    assert!(!t.path_exists(EntryId(3), EntryId(2)));
    assert_eq!(t.relative_path(EntryId(4), EntryId(1)), Some("post/extra.toml".to_string()));
    assert_eq!(t.index(EntryId(4)).file_stem(), "extra");
    assert_eq!(t.index(EntryId(4)).file_ext(), Some("toml".to_string()));
    assert_eq!(t.index(EntryId(3)).file_ext(), None);
    assert_eq!(t.index(EntryId(3)).file_stem(), "post");
    assert!(t.index(EntryId(2)).is_file());
    assert_eq!(t.root().path, "/site");
    assert_eq!(t.root_id(), EntryId(0));
}

#[test]
fn breadth_and_depth_first() {
    let t = sample();
    let mut bfs = t.iter_breadth_first(t.root_id());
    let mut order = vec![];
    while let Some(id) = bfs.next(&t) {
        order.push(id.0);
    }
    assert_eq!(order, vec![0, 1, 2, 3, 4]);
    let mut dfs = t.iter_depth_first(EntryId(1));
    let mut order = vec![];
    while let Some(id) = dfs.next(&t) {
        order.push(id.0);
    }
    assert_eq!(order, vec![1, 3, 4, 2]);
}

#[test]
fn ancestors_and_search() {
    let t = sample();
    assert_eq!(t.ancestors_of(EntryId(4)), vec![EntryId(3), EntryId(1), EntryId(0)]);
    assert_eq!(t.ancestors_of(EntryId(0)), vec![]);
    assert_eq!(t.search("content/post/extra.toml"), Some(EntryId(4)));
    assert_eq!(t.search(""), Some(EntryId(0)));
    assert_eq!(t.search("nope"), None);
}
