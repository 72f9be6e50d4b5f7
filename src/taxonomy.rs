//! The classified content graph: items, collections and the site, and the
//! passes that build it from a tree of entries.
use vstd::prelude::*;
use crate::fstree::{EntryId, FileType, FsTree, stem_of, lemma_tree_invariant};
use crate::text::chars_of;
use crate::value::{Metadata, Value};
use crate::slug::ascii_lower;
use crate::text::push_str;

verus! {

/// One content unit: an entry and its metadata.
pub struct Item {
    pub entry: EntryId,
    pub metadata: Metadata,
}

impl Item {
    /// An item for `entry`, with empty metadata.
    pub fn new(entry: EntryId) -> (r: Item)
        ensures
            r.entry == entry,
            r.metadata.wf(),
            r.metadata@.len() == 0,
    {
        Item { entry, metadata: Metadata::new() }
    }
}

/// The items grouped under one directory: an optional index, the items one
/// level below the root, and the data items found deeper, grouped by the
/// directory that holds them.
pub struct Collection {
    pub root: EntryId,
    pub name: String,
    pub index: Option<Item>,
    pub items: Vec<Item>,
    pub data: Vec<(EntryId, Vec<Item>)>,
}

/// How an item is rendered within its collection.
#[derive(Clone, Copy, PartialEq, Eq, Structural, Debug)]
pub enum Kind {
    /// The collection's index.
    Index,
    /// A data item, under the directory that holds it.
    Datum(EntryId),
    /// A direct item, at its position.
    Item(usize),
}

pub open spec fn item_entries(items: Seq<Item>) -> Seq<EntryId> {
    items.map_values(|it: Item| it.entry)
}

/// Whether `c` holds an item for `e`, direct or data.
pub open spec fn holds_entry(c: Collection, e: EntryId) -> bool {
    ||| item_entries(c.items@).contains(e)
    ||| exists|g: int| 0 <= g < c.data@.len() && #[trigger] item_entries(c.data@[g].1@).contains(e)
}

/// `after` keeps every group of `before`, at the same place, with the same
/// directory and at least the same entries.
pub open spec fn groups_grow(before: Seq<(EntryId, Vec<Item>)>, after: Seq<(EntryId, Vec<Item>)>) -> bool {
    &&& before.len() <= after.len()
    &&& forall|g: int| 0 <= g < before.len() ==> {
        &&& #[trigger] after[g].0 == before[g].0
        &&& forall|x: EntryId| item_entries(before[g].1@).contains(x) ==> item_entries(after[g].1@).contains(x)
    }
}

/// `after` keeps every collection of `before`, at the same place, with the
/// same root and at least the same items and data.
pub open spec fn collections_grow(before: &Site, after: &Site) -> bool {
    &&& before.collections@.len() <= after.collections@.len()
    &&& forall|c: int| 0 <= c < before.collections@.len() ==> {
        &&& #[trigger] after.collections@[c].root == before.collections@[c].root
        &&& after.collections@[c].name == before.collections@[c].name
        &&& forall|x: EntryId| item_entries(before.collections@[c].items@).contains(x)
            ==> item_entries(after.collections@[c].items@).contains(x)
        &&& groups_grow(before.collections@[c].data@, after.collections@[c].data@)
    }
}

/// Every collection that `after` has beyond those of `before` is the
/// collection `/` rooted at `root`, without an index.
pub open spec fn adds_only_fallback(before: &Site, after: &Site, root: EntryId) -> bool {
    forall|c: int| before.collections@.len() <= c < after.collections@.len() ==> {
        &&& (#[trigger] after.collections@[c]).root == root
        &&& after.collections@[c].name@ == seq!['/']
        &&& after.collections@[c].index is None
    }
}

/// The file `e` below `root` is where classification puts it: in the
/// collection of its tree owner, as a direct item where it lies one level
/// below the owner, and otherwise as a datum in the group of its directory.
pub open spec fn placed_right(t: &FsTree, s: &Site, root: EntryId, e: EntryId) -> bool {
    let o = tree_owner(t, root, e);
    exists|c: int| 0 <= c < s.collections@.len() && (#[trigger] s.collections@[c]).root == o && {
        &&& is_direct(t, e, o) ==> item_entries(s.collections@[c].items@).contains(e)
        &&& !is_direct(t, e, o) ==> exists|g: int| 0 <= g < s.collections@[c].data@.len()
            && (#[trigger] s.collections@[c].data@[g]).0 == parent_of(t, e)
            && item_entries(s.collections@[c].data@[g].1@).contains(e)
    }
}

proof fn lemma_placed_right_grows(t: &FsTree, a: &Site, b: &Site, root: EntryId, e: EntryId)
    requires
        placed_right(t, a, root, e),
        collections_grow(a, b),
    ensures
        placed_right(t, b, root, e),
{
    let o = tree_owner(t, root, e);
    let c = choose|c: int| 0 <= c < a.collections@.len() && (#[trigger] a.collections@[c]).root == o && {
        &&& is_direct(t, e, o) ==> item_entries(a.collections@[c].items@).contains(e)
        &&& !is_direct(t, e, o) ==> exists|g: int| 0 <= g < a.collections@[c].data@.len()
            && (#[trigger] a.collections@[c].data@[g]).0 == parent_of(t, e)
            && item_entries(a.collections@[c].data@[g].1@).contains(e)
    };
    assert(b.collections@[c].root == a.collections@[c].root);
    if !is_direct(t, e, o) {
        let g = choose|g: int| 0 <= g < a.collections@[c].data@.len()
            && (#[trigger] a.collections@[c].data@[g]).0 == parent_of(t, e)
            && item_entries(a.collections@[c].data@[g].1@).contains(e);
        assert(b.collections@[c].data@[g].0 == a.collections@[c].data@[g].0);
    }
}

/// Whether some collection of `s` holds an item for `e`.
pub open spec fn placed(s: &Site, e: EntryId) -> bool {
    exists|c: int| 0 <= c < s.collections@.len() && holds_entry(#[trigger] s.collections@[c], e)
}

impl Collection {
    /// An empty collection rooted at `root`.
    pub fn new(name: String, root: EntryId) -> (r: Collection)
        ensures
            r.root == root,
            r.name@ == name@,
            r.index is None,
            r.items@.len() == 0,
            r.data@.len() == 0,
    {
        Collection { root, name, index: None, items: Vec::new(), data: Vec::new() }
    }

    /// Adds a direct item for `id`.
    pub fn new_item(&mut self, id: EntryId)
        ensures
            item_entries(final(self).items@) == item_entries(old(self).items@).push(id),
            final(self).root == old(self).root,
            final(self).name == old(self).name,
            final(self).index == old(self).index,
            final(self).data == old(self).data,
            holds_entry(*final(self), id),
            forall|x: EntryId| holds_entry(*old(self), x) ==> holds_entry(*final(self), x),
    {
        self.items.push(Item::new(id));
        assert(item_entries(self.items@) =~= item_entries(old(self).items@).push(id));
        assert(item_entries(self.items@)[item_entries(self.items@).len() - 1] == id);
        assert forall|x: EntryId| holds_entry(*old(self), x) implies holds_entry(*self, x) by {
            if item_entries(old(self).items@).contains(x) {
                let k = choose|k: int| 0 <= k < item_entries(old(self).items@).len() && item_entries(old(self).items@)[k] == x;
                assert(item_entries(self.items@)[k] == x);
            } else {
                let g = choose|g: int| 0 <= g < old(self).data@.len() && #[trigger] item_entries(old(self).data@[g].1@).contains(x);
                assert(item_entries(self.data@[g].1@).contains(x));
            }
        }
    }

    /// Adds a data item for `id` to the group of directory `parent`.
    pub fn new_datum(&mut self, parent: EntryId, id: EntryId)
        ensures
            final(self).root == old(self).root,
            final(self).name == old(self).name,
            final(self).index == old(self).index,
            final(self).items == old(self).items,
            exists|g: int|
                0 <= g < final(self).data@.len() && final(self).data@[g].0 == parent
                    && item_entries(final(self).data@[g].1@).last() == id
                    && final(self).data@[g].1@.len() > 0,
            holds_entry(*final(self), id),
            forall|x: EntryId| holds_entry(*old(self), x) ==> holds_entry(*final(self), x),
            groups_grow(old(self).data@, final(self).data@),
    {
        let mut g: usize = 0;
        while g < self.data.len()
            invariant
                g <= self.data@.len(),
                *self == *old(self),
            decreases self.data.len() - g,
        {
            if self.data[g].0 == parent {
                let ghost before = self.data@;
                self.data[g].1.push(Item::new(id));
                assert(self.data@[g as int].0 == parent);
                assert(item_entries(self.data@[g as int].1@) =~= item_entries(before[g as int].1@).push(id));
                assert(item_entries(self.data@[g as int].1@).last() == id);
                assert(item_entries(self.data@[g as int].1@)[item_entries(self.data@[g as int].1@).len() - 1] == id);
                assert(item_entries(self.data@[g as int].1@).contains(id));
                proof {
                    assert forall|q: int| 0 <= q < old(self).data@.len() implies {
                        &&& #[trigger] self.data@[q].0 == old(self).data@[q].0
                        &&& forall|x: EntryId| item_entries(old(self).data@[q].1@).contains(x) ==> item_entries(self.data@[q].1@).contains(x)
                    } by {
                        if q == g {
                            assert forall|x: EntryId| item_entries(old(self).data@[q].1@).contains(x) implies item_entries(self.data@[q].1@).contains(x) by {
                                let k = choose|k: int| 0 <= k < item_entries(old(self).data@[q].1@).len() && item_entries(old(self).data@[q].1@)[k] == x;
                                assert(item_entries(self.data@[q].1@)[k] == x);
                            }
                        } else {
                            assert(self.data@[q] == old(self).data@[q]);
                        }
                    }
                    assert forall|x: EntryId| holds_entry(*old(self), x) implies holds_entry(*self, x) by {
                        if item_entries(old(self).items@).contains(x) {
                            assert(self.items == old(self).items);
                        } else {
                            let q = choose|q: int| 0 <= q < old(self).data@.len() && #[trigger] item_entries(old(self).data@[q].1@).contains(x);
                            let k = choose|k: int| 0 <= k < item_entries(old(self).data@[q].1@).len() && item_entries(old(self).data@[q].1@)[k] == x;
                            if q == g {
                                assert(item_entries(self.data@[q].1@)[k] == x);
                            } else {
                                assert(self.data@[q] == old(self).data@[q]);
                            }
                            assert(item_entries(self.data@[q].1@).contains(x));
                        }
                    }
                }
                return;
            }
            g += 1;
        }
        let mut group = Vec::new();
        group.push(Item::new(id));
        self.data.push((parent, group));
        let ghost last = (self.data@.len() - 1) as int;
        assert(self.data@[last].0 == parent);
        assert(item_entries(self.data@[last].1@).last() == id);
        assert(item_entries(self.data@[last].1@)[0] == id);
        assert(item_entries(self.data@[last].1@).contains(id));
        proof {
            assert forall|x: EntryId| holds_entry(*old(self), x) implies holds_entry(*self, x) by {
                if item_entries(old(self).items@).contains(x) {
                    assert(self.items == old(self).items);
                } else {
                    let q = choose|q: int| 0 <= q < old(self).data@.len() && #[trigger] item_entries(old(self).data@[q].1@).contains(x);
                    assert(self.data@[q] == old(self).data@[q]);
                }
            }
        }
    }

    /// Makes `id` the index of this collection.
    pub fn set_index_item(&mut self, id: EntryId)
        ensures
            final(self).index matches Some(it) && it.entry == id,
            final(self).root == old(self).root,
            final(self).name == old(self).name,
            final(self).items == old(self).items,
            final(self).data == old(self).data,
    {
        self.index = Some(Item::new(id));
    }
}

/// All the content of a site: its resources and its collections.
pub struct Site {
    pub resources: Vec<Item>,
    pub collections: Vec<Collection>,
}

/// Why discovery failed.
#[derive(Debug)]
pub enum DiscoverError {
    /// A directory holds two index files.
    DuplicateIndex { collection: String, first: String, second: String },
}

pub open spec fn index_word() -> Seq<char> {
    seq!['i', 'n', 'd', 'e', 'x']
}

/// Whether `id` is a file named `index` with any extension.
pub open spec fn is_index_file(t: &FsTree, id: EntryId) -> bool {
    t.valid_id(id) && t.entry(id).file_type == FileType::File && stem_of(t.entry(id).file_name@)
        == index_word()
}

/// Whether `id` is a file that is no index file.
pub open spec fn is_content_file(t: &FsTree, id: EntryId) -> bool {
    t.valid_id(id) && t.entry(id).file_type == FileType::File && stem_of(t.entry(id).file_name@)
        != index_word()
}

/// The directory that holds `id`.
pub open spec fn parent_of(t: &FsTree, id: EntryId) -> EntryId {
    t.entry(id).parent->0
}

impl Site {
    /// No two collections share a root.
    pub open spec fn wf(&self) -> bool {
        forall|a: int, b: int|
            0 <= a < b < self.collections@.len() ==> #[trigger] self.collections@[a].root
                != #[trigger] self.collections@[b].root
    }

    pub open spec fn has_collection(&self, root: EntryId) -> bool {
        exists|c: int| 0 <= c < self.collections@.len() && self.collections@[c].root == root
    }

    /// An empty site.
    pub fn new() -> (r: Site)
        ensures
            r.wf(),
            r.resources@.len() == 0,
            r.collections@.len() == 0,
    {
        Site { resources: Vec::new(), collections: Vec::new() }
    }

    /// The position of the collection rooted at `root`, if there is one.
    pub fn find_collection(&self, root: EntryId) -> (r: Option<usize>)
        ensures
            r matches Some(c) ==> c < self.collections@.len() && self.collections@[c as int].root
                == root,
            r is None ==> !self.has_collection(root),
    {
        let mut c: usize = 0;
        while c < self.collections.len()
            invariant
                c <= self.collections@.len(),
                forall|j: int| 0 <= j < c ==> self.collections@[j].root != root,
            decreases self.collections.len() - c,
        {
            if self.collections[c].root == root {
                return Some(c);
            }
            c += 1;
        }
        None
    }

    /// The position of the collection rooted at `root`, made with `name`
    /// where there is none yet.
    pub fn get_or_insert_collection(&mut self, name: String, root: EntryId) -> (r: usize)
        requires
            old(self).wf(),
        ensures
            final(self).wf(),
            r < final(self).collections@.len(),
            final(self).collections@[r as int].root == root,
            final(self).resources == old(self).resources,
            old(self).has_collection(root) ==> final(self).collections == old(self).collections,
            !old(self).has_collection(root) ==> {
                &&& final(self).collections@ == old(self).collections@.push(
                    final(self).collections@.last(),
                )
                &&& final(self).collections@.last().index is None
                &&& final(self).collections@.last().name@ == name@
                &&& final(self).collections@.last().items@.len() == 0
                &&& final(self).collections@.last().data@.len() == 0
            },
    {
        match self.find_collection(root) {
            Some(c) => c,
            None => {
                self.collections.push(Collection::new(name, root));
                proof {
                    assert forall|a: int, b: int|
                        0 <= a < b < self.collections@.len() implies #[trigger] self.collections@[a].root
                            != #[trigger] self.collections@[b].root by {
                        if b == self.collections@.len() - 1 {
                            assert(old(self).collections@[a].root != root);
                        } else {
                            assert(old(self).collections@[a].root != old(self).collections@[b].root);
                        }
                    }
                }
                self.collections.len() - 1
            },
        }
    }

    /// Adds a resource item for `id`.
    pub fn new_resource(&mut self, id: EntryId)
        ensures
            item_entries(final(self).resources@) == item_entries(old(self).resources@).push(id),
            final(self).collections == old(self).collections,
    {
        self.resources.push(Item::new(id));
        assert(item_entries(self.resources@) =~= item_entries(old(self).resources@).push(id));
    }
}

/// Whether `s` is the word `index`.
fn is_index_stem(s: &String) -> (r: bool)
    ensures
        r == (s@ == index_word()),
{
    let v = chars_of(s.as_str());
    if v.len() != 5 {
        return false;
    }
    let r = v[0] == 'i' && v[1] == 'n' && v[2] == 'd' && v[3] == 'e' && v[4] == 'x';
    assert(r ==> v@ =~= index_word());
    r
}


/// Whether `d` holds an index file below `root`.
pub open spec fn is_index_dir(t: &FsTree, root: EntryId, d: EntryId) -> bool {
    exists|j: usize| j < t.len_spec() && #[trigger] is_index_file(t, EntryId(j)) && t.descends(EntryId(j), root)
        && parent_of(t, EntryId(j)) == d
}

/// The nearest directory above `e` that holds an index file below `root`.
pub open spec fn tree_nearest(t: &FsTree, root: EntryId, e: EntryId) -> Option<EntryId>
    decreases e.0,
{
    match t.entry(e).parent {
        None => None,
        Some(p) => if p.0 < e.0 {
            if is_index_dir(t, root, p) {
                Some(p)
            } else {
                tree_nearest(t, root, p)
            }
        } else {
            None
        },
    }
}

/// The directory whose collection a file below `root` joins: the nearest
/// one above it that holds an index file, or else `root`.
pub open spec fn tree_owner(t: &FsTree, root: EntryId, e: EntryId) -> EntryId {
    match tree_nearest(t, root, e) {
        Some(p) => p,
        None => root,
    }
}

/// Apart from `root` itself, the collections of `s` are rooted exactly at
/// the directories that hold an index file below `root`.
pub open spec fn roots_match(t: &FsTree, s: &Site, root: EntryId) -> bool {
    forall|d: EntryId| d != root ==> (#[trigger] s.has_collection(d) <==> is_index_dir(t, root, d))
}

proof fn lemma_descends_ge(t: &FsTree, d: EntryId, a: EntryId)
    requires
        t.wf(),
        t.descends(d, a),
    ensures
        d.0 >= a.0,
    decreases d.0,
{
    if d != a {
        let p = t.entry(d).parent->0;
        lemma_descends_ge(t, p, a);
    }
}

proof fn lemma_descends_trans(t: &FsTree, d: EntryId, m: EntryId, a: EntryId)
    requires
        t.wf(),
        t.descends(d, m),
        t.descends(m, a),
    ensures
        t.descends(d, a),
    decreases d.0,
{
    if d != m {
        let p = t.entry(d).parent->0;
        lemma_descends_trans(t, p, m, a);
    }
}

proof fn lemma_index_dir_below(t: &FsTree, root: EntryId, d: EntryId)
    requires
        t.wf(),
        t.valid_id(root),
        t.entry(root).file_type == FileType::Dir,
        is_index_dir(t, root, d),
    ensures
        t.descends(d, root),
        t.valid_id(d),
{
    let j = choose|j: usize| j < t.len_spec() && #[trigger] is_index_file(t, EntryId(j)) && t.descends(EntryId(j), root)
        && parent_of(t, EntryId(j)) == d;
    lemma_tree_invariant(t, EntryId(j));
    assert(EntryId(j) != root);
}

/// Above `root` and at it, no walk finds an owner.
proof fn lemma_no_owner_above(t: &FsTree, s: &Site, root: EntryId, x: EntryId)
    requires
        t.wf(),
        t.valid_id(root),
        t.entry(root).file_type == FileType::Dir,
        roots_match(t, s, root),
        t.valid_id(x),
        t.descends(root, x),
    ensures
        nearest_owner(t, s, x) is None,
        tree_nearest(t, root, x) is None,
    decreases x.0,
{
    lemma_tree_invariant(t, x);
    lemma_descends_ge(t, root, x);
    match t.entry(x).parent {
        None => {},
        Some(q) => {
            assert(x.0 > 0 && q.0 < x.0);
            assert(t.descends(q, q));
            assert(t.descends(x, q));
            lemma_descends_trans(t, root, x, q);
            assert(q != root);
            if is_index_dir(t, root, q) {
                lemma_index_dir_below(t, root, q);
                lemma_descends_ge(t, q, root);
            }
            lemma_no_owner_above(t, s, root, q);
        },
    }
}

/// Where the collection roots match, the walk from a file below `root`
/// finds its tree owner.
proof fn lemma_owner_matches(t: &FsTree, s: &Site, root: EntryId, e: EntryId)
    requires
        t.wf(),
        t.valid_id(root),
        t.entry(root).file_type == FileType::Dir,
        roots_match(t, s, root),
        t.valid_id(e),
        t.descends(e, root),
        e != root,
    ensures
        (match nearest_owner(t, s, e) {
            Some(p) => p,
            None => root,
        }) == tree_owner(t, root, e),
    decreases e.0,
{
    lemma_tree_invariant(t, e);
    let p = t.entry(e).parent->0;
    assert(t.descends(p, root));
    if p == root {
        lemma_no_owner_above(t, s, root, root);
    } else {
        lemma_tree_invariant(t, p);
        lemma_owner_matches(t, s, root, p);
    }
}

/// Whether `id` is an index file; `None` where it is no file at all.
fn index_or_content(t: &FsTree, id: EntryId) -> (r: Option<bool>)
    requires
        t.valid_id(id),
    ensures
        r == Some(true) <==> is_index_file(t, id),
        r == Some(false) <==> is_content_file(t, id),
{
    let e = t.index(id);
    if !e.is_file() {
        return None;
    }
    Some(is_index_stem(&e.file_stem()))
}

/// Every index file below `root` among the first `n` entries is the index of
/// the collection rooted at its directory.
pub open spec fn indexed_upto(t: &FsTree, s: &Site, root: EntryId, n: int) -> bool {
    forall|j: usize|
        j < n && #[trigger] is_index_file(t, EntryId(j)) && t.descends(EntryId(j), root) ==> exists|c: int|
            0 <= c < s.collections@.len() && s.collections@[c].root == parent_of(t, EntryId(j))
                && (s.collections@[c].index matches Some(it) && it.entry == EntryId(j))
}

/// Every collection's index is an index file below `root`, among the first
/// `n` entries, in the collection's root directory.
pub open spec fn index_sound(t: &FsTree, s: &Site, root: EntryId, n: int) -> bool {
    forall|c: int|
        0 <= c < s.collections@.len() ==> (#[trigger] s.collections@[c].index matches Some(it) ==> (it.entry.0
            < n && is_index_file(t, it.entry) && t.descends(it.entry, root) && it.entry != root
            && parent_of(t, it.entry) == s.collections@[c].root))
}

/// No two index files below `root` among the first `n` entries share a
/// directory.
pub open spec fn unique_upto(t: &FsTree, root: EntryId, n: int) -> bool {
    forall|a: usize, b: usize|
        a < n && b < n && a != b && #[trigger] is_index_file(t, EntryId(a)) && t.descends(EntryId(a), root)
            && #[trigger] is_index_file(t, EntryId(b)) && t.descends(EntryId(b), root) ==> parent_of(
            t,
            EntryId(a),
        ) != parent_of(t, EntryId(b))
}

/// Every collection of `s` is named by the path of its root relative to
/// `root`, and has an index.
pub open spec fn named_and_indexed(t: &FsTree, s: &Site, root: EntryId) -> bool {
    forall|c: int| 0 <= c < s.collections@.len() ==> {
        &&& (#[trigger] s.collections@[c]).name@ == t.rel_path(s.collections@[c].root, root)
        &&& s.collections@[c].index is Some
    }
}

/// What a duplicate-index error names: the directory and two distinct index
/// files below `root` in it, the earlier first.
pub open spec fn names_duplicate(t: &FsTree, root: EntryId, collection: Seq<char>, first: Seq<char>, second: Seq<char>) -> bool {
    exists|a: usize, b: usize|
        a < b < t.len_spec() && #[trigger] is_index_file(t, EntryId(a)) && t.descends(EntryId(a), root)
            && #[trigger] is_index_file(t, EntryId(b)) && t.descends(EntryId(b), root)
            && parent_of(t, EntryId(a)) == parent_of(t, EntryId(b))
            && first == t.path_of(EntryId(a)) && second == t.path_of(EntryId(b))
            && collection == t.path_of(parent_of(t, EntryId(a)))
}

/// Makes a collection of each directory below `content_root` that holds an
/// index file, with that file as its index. Fails where a directory holds
/// two index files, naming both.
pub fn build_collections(t: &FsTree, site: &mut Site, content_root: EntryId) -> (r: Result<
    (),
    DiscoverError,
>)
    requires
        t.wf(),
        t.valid_id(content_root),
        t.entry(content_root).file_type == FileType::Dir,
        old(site).wf(),
        old(site).collections@.len() == 0,
    ensures
        final(site).wf(),
        r is Ok <==> unique_upto(t, content_root, t.len_spec() as int),
        r is Ok ==> indexed_upto(t, final(site), content_root, t.len_spec() as int),
        r is Ok ==> named_and_indexed(t, final(site), content_root),
        r is Ok ==> index_sound(t, final(site), content_root, t.len_spec() as int),
        r matches Err(DiscoverError::DuplicateIndex { collection, first, second }) ==> names_duplicate(
            t,
            content_root,
            collection@,
            first@,
            second@,
        ),
{
    let n = t.len();
    let mut i: usize = 0;
    while i < n
        invariant
            t.wf(),
            t.valid_id(content_root),
            t.entry(content_root).file_type == FileType::Dir,
            n == t.len_spec(),
            i <= n,
            site.wf(),
            named_and_indexed(t, site, content_root),
            indexed_upto(t, site, content_root, i as int),
            index_sound(t, site, content_root, i as int),
            unique_upto(t, content_root, i as int),
        decreases n - i,
    {
        let id = EntryId(i);
        if index_or_content(t, id) == Some(true) && t.path_exists(content_root, id) {
            proof {
                lemma_tree_invariant(t, id);
            }
            let p = match t.index(id).parent {
                Some(p) => p,
                None => {
                    return Ok(());
                },
            };
            let ghost start = *site;
            assert(t.descends(p, content_root));
            let c = match site.find_collection(p) {
                Some(c) => c,
                None => {
                    let name = match t.relative_path(p, content_root) {
                        Some(name) => name,
                        None => String::new(),
                    };
                    site.get_or_insert_collection(name, p)
                },
            };
            let ghost before = *site;
            proof {
                assert(before.collections@.len() >= start.collections@.len());
                assert forall|k: int| 0 <= k < start.collections@.len() implies before.collections@[k] == start.collections@[k] by {
                    if start.collections@.len() < before.collections@.len() {
                        assert(before.collections@ == start.collections@.push(before.collections@.last()));
                    }
                }
                assert forall|j: usize|
                    j < i && #[trigger] is_index_file(t, EntryId(j)) && t.descends(EntryId(j), content_root)
                    implies exists|cc: int|
                        0 <= cc < before.collections@.len() && before.collections@[cc].root == parent_of(t, EntryId(j))
                            && (before.collections@[cc].index matches Some(it) && it.entry == EntryId(j)) by {
                    let cc = choose|cc: int|
                        0 <= cc < start.collections@.len() && start.collections@[cc].root == parent_of(t, EntryId(j))
                            && (start.collections@[cc].index matches Some(it) && it.entry == EntryId(j));
                    assert(before.collections@[cc] == start.collections@[cc]);
                }
                assert forall|cc: int| 0 <= cc < before.collections@.len() implies (#[trigger] before.collections@[cc].index matches Some(it) ==> (it.entry.0
                    < i && is_index_file(t, it.entry) && t.descends(it.entry, content_root) && it.entry != content_root
                    && parent_of(t, it.entry) == before.collections@[cc].root)) by {
                    if cc < start.collections@.len() {
                        assert(before.collections@[cc] == start.collections@[cc]);
                    }
                }
            }
            match &site.collections[c].index {
                Some(existing) => {
                    let first = t.index(existing.entry).path.clone();
                    let second = t.index(id).path.clone();
                    let collection = t.index(p).path.clone();
                    proof {
                        assert(!unique_upto(t, content_root, n as int)) by {
                            let j = existing.entry.0;
                            assert(j < i);
                            assert(parent_of(t, EntryId(j)) == parent_of(t, EntryId(i)));
                        }
                    }
                    return Err(DiscoverError::DuplicateIndex { collection, first, second });
                },
                None => {},
            }
            site.collections[c].set_index_item(id);
            proof {
                assert forall|j: usize|
                    j < i + 1 && is_index_file(t, EntryId(j)) && t.descends(EntryId(j), content_root)
                    implies exists|cc: int|
                        0 <= cc < site.collections@.len() && site.collections@[cc].root == parent_of(t, EntryId(j))
                            && (site.collections@[cc].index matches Some(it) && it.entry == EntryId(j)) by {
                    if j < i {
                        let cc = choose|cc: int|
                            0 <= cc < before.collections@.len() && before.collections@[cc].root == parent_of(t, EntryId(j))
                                && (before.collections@[cc].index matches Some(it) && it.entry == EntryId(j));
                        assert(cc != c);
                        assert(site.collections@[cc] == before.collections@[cc]);
                    } else {
                        assert(site.collections@[c as int].root == parent_of(t, EntryId(j)));
                    }
                }
                assert forall|a: usize, b: usize|
                    a < i + 1 && b < i + 1 && a != b && is_index_file(t, EntryId(a)) && t.descends(EntryId(a), content_root)
                        && is_index_file(t, EntryId(b)) && t.descends(EntryId(b), content_root)
                    implies parent_of(t, EntryId(a)) != parent_of(t, EntryId(b)) by {
                    if a == i || b == i {
                        let j = if a == i { b } else { a };
                        if parent_of(t, EntryId(j)) == p {
                            let cc = choose|cc: int|
                                0 <= cc < before.collections@.len() && before.collections@[cc].root == parent_of(t, EntryId(j))
                                    && (before.collections@[cc].index matches Some(it) && it.entry == EntryId(j));
                            if cc != c {
                                assert(before.collections@[cc].root != before.collections@[c as int].root) by {
                                    if cc < c {
                                    } else {
                                    }
                                }
                            }
                        }
                    }
                }
                assert forall|cc: int| 0 <= cc < site.collections@.len() implies (#[trigger] site.collections@[cc].index matches Some(it) ==> (it.entry.0
                    < i + 1 && is_index_file(t, it.entry) && t.descends(it.entry, content_root) && it.entry != content_root
                    && parent_of(t, it.entry) == site.collections@[cc].root)) by {
                    if cc != c {
                        assert(site.collections@[cc] == before.collections@[cc]);
                    }
                }
                assert forall|a: int, b: int|
                    0 <= a < b < site.collections@.len() implies #[trigger] site.collections@[a].root
                        != #[trigger] site.collections@[b].root by {
                    assert(before.collections@[a].root != before.collections@[b].root);
                }
            }
        }
        i += 1;
    }
    Ok(())
}

/// The nearest directory above `e` that roots a collection of `s`.
pub open spec fn nearest_owner(t: &FsTree, s: &Site, e: EntryId) -> Option<EntryId>
    decreases e.0,
{
    match t.entry(e).parent {
        None => None,
        Some(p) => if p.0 < e.0 {
            if s.has_collection(p) {
                Some(p)
            } else {
                nearest_owner(t, s, p)
            }
        } else {
            None
        },
    }
}

proof fn lemma_owner_valid(t: &FsTree, s: &Site, e: EntryId)
    requires
        t.wf(),
        t.valid_id(e),
    ensures
        nearest_owner(t, s, e) matches Some(p) ==> t.valid_id(p) && p.0 < e.0,
    decreases e.0,
{
    match t.entry(e).parent {
        None => {},
        Some(p) => if p.0 < e.0 {
            if !s.has_collection(p) {
                lemma_owner_valid(t, s, p);
            }
        },
    }
}

/// The nearest directory above `e` that roots a collection, if any.
pub fn owner(t: &FsTree, s: &Site, e: EntryId) -> (r: Option<usize>)
    requires
        t.wf(),
        t.valid_id(e),
    ensures
        nearest_owner(t, s, e) is None ==> r is None,
        nearest_owner(t, s, e) matches Some(p) ==> (r matches Some(c) && c < s.collections@.len()
            && s.collections@[c as int].root == p),
{
    let mut cur = e;
    loop
        invariant
            t.wf(),
            t.valid_id(cur),
            nearest_owner(t, s, e) == nearest_owner(t, s, cur),
        decreases cur.0,
    {
        proof {
            lemma_tree_invariant(t, cur);
        }
        if cur.0 == 0 {
            assert(t.entry(cur).parent is None) by {
                reveal(FsTree::entry_wf);
                assert(t.entry(EntryId(0)).parent is None);
            }
            return None;
        }
        let p = match t.index(cur).parent {
            Some(p) => p,
            None => {
                return None;
            },
        };
        assert(p.0 < cur.0) by {
            reveal(FsTree::entry_wf);
            assert(t.entry_wf(cur));
        }
        match s.find_collection(p) {
            Some(c) => {
                return Some(c);
            },
            None => {
                cur = p;
            },
        }
    }
}

/// Files one level below their collection's root are its items; deeper ones
/// are data, grouped by the directory that holds them.
pub open spec fn is_direct(t: &FsTree, e: EntryId, root: EntryId) -> bool {
    t.depth_of(e) <= t.depth_of(root) + 1
}

/// `after` holds every collection of `before`, at the same place, with the
/// same root and index; any collection added has no index.
pub open spec fn keeps_collections(before: &Site, after: &Site) -> bool {
    &&& before.collections@.len() <= after.collections@.len()
    &&& forall|c: int| 0 <= c < before.collections@.len() ==> {
        &&& #[trigger] after.collections@[c].root == before.collections@[c].root
        &&& after.collections@[c].index == before.collections@[c].index
    }
    &&& forall|c: int| before.collections@.len() <= c < after.collections@.len() ==> (#[trigger] after.collections@[c].index) is None
}

proof fn lemma_keeps_indexed(t: &FsTree, a: &Site, b: &Site, root: EntryId, n: int)
    requires
        indexed_upto(t, a, root, n),
        keeps_collections(a, b),
    ensures
        indexed_upto(t, b, root, n),
{
    assert forall|j: usize|
        j < n && #[trigger] is_index_file(t, EntryId(j)) && t.descends(EntryId(j), root) implies exists|c: int|
            0 <= c < b.collections@.len() && b.collections@[c].root == parent_of(t, EntryId(j))
                && (b.collections@[c].index matches Some(it) && it.entry == EntryId(j)) by {
        let c = choose|c: int|
            0 <= c < a.collections@.len() && a.collections@[c].root == parent_of(t, EntryId(j))
                && (a.collections@[c].index matches Some(it) && it.entry == EntryId(j));
        assert(b.collections@[c].root == a.collections@[c].root);
    }
}

/// Adds the file `e` to the collection of the nearest directory above it
/// that roots one, or else to a collection `/` rooted at `content_root`.
pub fn place_file(t: &FsTree, site: &mut Site, e: EntryId, content_root: EntryId)
    requires
        t.wf(),
        t.valid_id(e),
        e.0 > 0,
        t.valid_id(content_root),
        old(site).wf(),
        t.entry(content_root).file_type == FileType::Dir,
        roots_match(t, old(site), content_root),
        t.descends(e, content_root),
        e != content_root,
    ensures
        final(site).wf(),
        keeps_collections(old(site), final(site)),
        roots_match(t, final(site), content_root),
        collections_grow(old(site), final(site)),
        adds_only_fallback(old(site), final(site), content_root),
        placed_right(t, final(site), content_root, e),
        placed(final(site), e),
        forall|x: EntryId| placed(old(site), x) ==> placed(final(site), x),
        ({
            let root = match nearest_owner(t, old(site), e) {
                Some(p) => p,
                None => content_root,
            };
            exists|c: int|
                0 <= c < final(site).collections@.len() && final(site).collections@[c].root == root
                    && (is_direct(t, e, root) ==> item_entries(final(site).collections@[c].items@).last() == e
                        && final(site).collections@[c].items@.len() > 0)
                    && (!is_direct(t, e, root) ==> exists|g: int|
                        0 <= g < final(site).collections@[c].data@.len()
                            && final(site).collections@[c].data@[g].0 == parent_of(t, e)
                            && final(site).collections@[c].data@[g].1@.len() > 0
                            && item_entries(final(site).collections@[c].data@[g].1@).last() == e)
        }),
{
    proof {
        lemma_tree_invariant(t, e);
        lemma_owner_valid(t, site, e);
        lemma_owner_matches(t, site, content_root, e);
    }
    let ghost root_spec = match nearest_owner(t, old(site), e) {
        Some(p) => p,
        None => content_root,
    };
    let c = match owner(t, site, e) {
        Some(c) => c,
        None => site.get_or_insert_collection("/".to_owned(), content_root),
    };
    let root = site.collections[c].root;
    proof {
        lemma_tree_invariant(t, root);
    }
    let depth = t.index(e).depth;
    let parent = match t.index(e).parent {
        Some(p) => p,
        None => {
            return;
        },
    };
    let ghost before = *site;
    proof {
        assert forall|x: EntryId| placed(old(site), x) implies placed(&before, x) by {
            let q = choose|q: int| 0 <= q < old(site).collections@.len() && holds_entry(#[trigger] old(site).collections@[q], x);
            if old(site).collections@.len() < before.collections@.len() {
                assert(before.collections@ == old(site).collections@.push(before.collections@.last()));
            }
            assert(before.collections@[q] == old(site).collections@[q]);
        }
    }
    assert(root == root_spec);
    if depth - 1 <= t.index(root).depth {
        site.collections[c].new_item(e);
        assert(item_entries(site.collections@[c as int].items@).last() == e);
    } else {
        site.collections[c].new_datum(parent, e);
    }
    assert(site.collections@[c as int].root == root_spec);
    proof {
        assert forall|q: int| 0 <= q < before.collections@.len() && q != c implies #[trigger] site.collections@[q] == before.collections@[q] by {}
        assert(holds_entry(site.collections@[c as int], e));
        assert forall|x: EntryId| placed(old(site), x) implies placed(site, x) by {
            assert(placed(&before, x));
            let q = choose|q: int| 0 <= q < before.collections@.len() && holds_entry(#[trigger] before.collections@[q], x);
            if q != c {
                assert(site.collections@[q] == before.collections@[q]);
            }
            assert(holds_entry(site.collections@[q], x));
        }
        assert forall|a: int, b: int|
            0 <= a < b < site.collections@.len() implies #[trigger] site.collections@[a].root
                != #[trigger] site.collections@[b].root by {
            assert(before.collections@[a].root != before.collections@[b].root);
        }
        let n0 = old(site).collections@.len();
        assert(before.collections@.len() == n0 || (before.collections@ == old(site).collections@.push(before.collections@.last())
            && before.collections@.last().root == content_root && before.collections@.last().name@ == seq!['/']
            && before.collections@.last().index is None && before.collections@.last().items@.len() == 0
            && before.collections@.last().data@.len() == 0 && c == n0)) by {
            reveal_strlit("/");
        }
        assert forall|q: int| 0 <= q < n0 implies #[trigger] before.collections@[q] == old(site).collections@[q] by {}
        assert forall|q: int| 0 <= q < n0 implies {
            &&& #[trigger] site.collections@[q].root == old(site).collections@[q].root
            &&& site.collections@[q].name == old(site).collections@[q].name
            &&& forall|x: EntryId| item_entries(old(site).collections@[q].items@).contains(x)
                ==> item_entries(site.collections@[q].items@).contains(x)
            &&& groups_grow(old(site).collections@[q].data@, site.collections@[q].data@)
        } by {
            assert(before.collections@[q] == old(site).collections@[q]);
            if q == c {
                let oi = item_entries(old(site).collections@[q].items@);
                let ni = item_entries(site.collections@[q].items@);
                assert forall|x: EntryId| oi.contains(x) implies ni.contains(x) by {
                    let k = choose|k: int| 0 <= k < oi.len() && oi[k] == x;
                    assert(ni[k] == x);
                }
                let od = old(site).collections@[q].data@;
                let nd = site.collections@[q].data@;
                if nd == od {
                    assert forall|g: int| 0 <= g < od.len() implies {
                        &&& #[trigger] nd[g].0 == od[g].0
                        &&& forall|x: EntryId| item_entries(od[g].1@).contains(x) ==> item_entries(nd[g].1@).contains(x)
                    } by {}
                }
            } else {
                assert(site.collections@[q] == before.collections@[q]);
                let od = old(site).collections@[q].data@;
                assert forall|g: int| 0 <= g < od.len() implies {
                    &&& #[trigger] od[g].0 == od[g].0
                    &&& forall|x: EntryId| item_entries(od[g].1@).contains(x) ==> item_entries(od[g].1@).contains(x)
                } by {}
            }
        }
        assert forall|q: int| n0 <= q < site.collections@.len() implies {
            &&& (#[trigger] site.collections@[q]).root == content_root
            &&& site.collections@[q].name@ == seq!['/']
            &&& site.collections@[q].index is None
        } by {
            assert(q == c);
        }
        assert forall|d: EntryId| d != content_root implies (#[trigger] site.has_collection(d) <==> is_index_dir(t, content_root, d)) by {
            if site.has_collection(d) {
                let q = choose|q: int| 0 <= q < site.collections@.len() && site.collections@[q].root == d;
                if q < n0 {
                    assert(old(site).collections@[q].root == d);
                    assert(old(site).has_collection(d));
                } else {
                    assert(site.collections@[q].root == content_root);
                }
            }
            if old(site).has_collection(d) {
                let q = choose|q: int| 0 <= q < old(site).collections@.len() && old(site).collections@[q].root == d;
                assert(site.collections@[q].root == d);
            }
            assert(old(site).has_collection(d) <==> is_index_dir(t, content_root, d));
        }
        let o = tree_owner(t, content_root, e);
        assert(site.collections@[c as int].root == o);
        if !is_direct(t, e, o) {
            let g = choose|g: int|
                0 <= g < site.collections@[c as int].data@.len() && site.collections@[c as int].data@[g].0 == parent
                    && item_entries(site.collections@[c as int].data@[g].1@).last() == e
                    && site.collections@[c as int].data@[g].1@.len() > 0;
            let es = item_entries(site.collections@[c as int].data@[g].1@);
            assert(es[es.len() - 1] == e);
            assert(es.contains(e));
            assert(parent == parent_of(t, e));
        } else {
            let es = item_entries(site.collections@[c as int].items@);
            assert(es[es.len() - 1] == e);
            assert(es.contains(e));
        }
    }
}

proof fn lemma_grow_trans(a: &Site, b: &Site, c: &Site, root: EntryId)
    requires
        collections_grow(a, b),
        collections_grow(b, c),
        adds_only_fallback(a, b, root),
        adds_only_fallback(b, c, root),
        keeps_collections(b, c),
    ensures
        collections_grow(a, c),
        adds_only_fallback(a, c, root),
{
    assert forall|q: int| 0 <= q < a.collections@.len() implies {
        &&& #[trigger] c.collections@[q].root == a.collections@[q].root
        &&& c.collections@[q].name == a.collections@[q].name
        &&& forall|x: EntryId| item_entries(a.collections@[q].items@).contains(x)
            ==> item_entries(c.collections@[q].items@).contains(x)
        &&& groups_grow(a.collections@[q].data@, c.collections@[q].data@)
    } by {
        assert(b.collections@[q].root == a.collections@[q].root);
        assert(c.collections@[q].root == b.collections@[q].root);
        let ad = a.collections@[q].data@;
        let bd = b.collections@[q].data@;
        let cd = c.collections@[q].data@;
        assert forall|g: int| 0 <= g < ad.len() implies {
            &&& #[trigger] cd[g].0 == ad[g].0
            &&& forall|x: EntryId| item_entries(ad[g].1@).contains(x) ==> item_entries(cd[g].1@).contains(x)
        } by {
            assert(bd[g].0 == ad[g].0);
            assert(cd[g].0 == bd[g].0);
        }
    }
    assert forall|q: int| a.collections@.len() <= q < c.collections@.len() implies {
        &&& (#[trigger] c.collections@[q]).root == root
        &&& c.collections@[q].name@ == seq!['/']
        &&& c.collections@[q].index is None
    } by {
        if q < b.collections@.len() {
            assert(b.collections@[q].root == root);
            assert(c.collections@[q].root == b.collections@[q].root);
        }
    }
}

/// Adds every file below `content_root` that is no index file to a
/// collection, as `place_file` does.
pub fn build_items(t: &FsTree, site: &mut Site, content_root: EntryId)
    requires
        t.wf(),
        t.valid_id(content_root),
        t.entry(content_root).file_type == FileType::Dir,
        old(site).wf(),
        roots_match(t, old(site), content_root),
    ensures
        final(site).wf(),
        keeps_collections(old(site), final(site)),
        collections_grow(old(site), final(site)),
        adds_only_fallback(old(site), final(site), content_root),
        forall|j: usize| #![trigger is_content_file(t, EntryId(j))]
            0 < j < t.len_spec() && is_content_file(t, EntryId(j)) && t.descends(EntryId(j), content_root)
                ==> placed(final(site), EntryId(j)) && placed_right(t, final(site), content_root, EntryId(j)),
{
    let n = t.len();
    let mut i: usize = 1;
    while i < n
        invariant
            t.wf(),
            t.valid_id(content_root),
            n == t.len_spec(),
            1 <= i,
            site.wf(),
            keeps_collections(old(site), site),
            t.entry(content_root).file_type == FileType::Dir,
            roots_match(t, site, content_root),
            collections_grow(old(site), site),
            adds_only_fallback(old(site), site, content_root),
            forall|j: usize| #![trigger is_content_file(t, EntryId(j))]
                0 < j < i && is_content_file(t, EntryId(j)) && t.descends(EntryId(j), content_root)
                    ==> placed(site, EntryId(j)) && placed_right(t, site, content_root, EntryId(j)),
        decreases n - i,
    {
        let id = EntryId(i);
        if index_or_content(t, id) == Some(false) && t.path_exists(content_root, id) {
            let ghost mid = *site;
            assert(id != content_root);
            place_file(t, site, id, content_root);
            proof {
                lemma_grow_trans(old(site), &mid, site, content_root);
                assert forall|j: usize| #![trigger is_content_file(t, EntryId(j))]
                    0 < j < i && is_content_file(t, EntryId(j)) && t.descends(EntryId(j), content_root)
                    implies placed_right(t, site, content_root, EntryId(j)) by {
                    lemma_placed_right_grows(t, &mid, site, content_root, EntryId(j));
                }
                assert forall|c: int| 0 <= c < old(site).collections@.len() implies {
                    &&& #[trigger] site.collections@[c].root == old(site).collections@[c].root
                    &&& site.collections@[c].index == old(site).collections@[c].index
                } by {
                    assert(mid.collections@[c].root == old(site).collections@[c].root);
                }
                assert forall|c: int| old(site).collections@.len() <= c < site.collections@.len() implies (#[trigger] site.collections@[c].index) is None by {
                    if c < mid.collections@.len() {
                        assert(site.collections@[c].root == mid.collections@[c].root);
                        assert(mid.collections@[c].index is None);
                    }
                }
            }
        }
        i += 1;
    }
}

/// Names that hide an asset and everything below it: those that start with
/// `.`, and `include` or `includes` in any case.
pub open spec fn hidden_name(name: Seq<char>) -> bool {
    ||| (name.len() > 0 && name[0] == '.')
    ||| (name.len() == 7 && forall|k: int| 0 <= k < 7 ==> ascii_lower(#[trigger] name[k]) == seq!['i', 'n', 'c', 'l', 'u', 'd', 'e'][k])
    ||| (name.len() == 8 && forall|k: int| 0 <= k < 8 ==> ascii_lower(#[trigger] name[k]) == seq!['i', 'n', 'c', 'l', 'u', 'd', 'e', 's'][k])
}

fn is_hidden(name: &String) -> (r: bool)
    ensures
        r == hidden_name(name@),
{
    let v = chars_of(name.as_str());
    if v.len() > 0 && v[0] == '.' {
        return true;
    }
    let word = vec!['i', 'n', 'c', 'l', 'u', 'd', 'e', 's'];
    if v.len() != 7 && v.len() != 8 {
        return false;
    }
    let mut k: usize = 0;
    while k < v.len()
        invariant
            k <= v@.len(),
            v@ == name@,
            v@[0] != '.',
            v@.len() == 7 || v@.len() == 8,
            word@ == seq!['i', 'n', 'c', 'l', 'u', 'd', 'e', 's'],
            forall|j: int| 0 <= j < k ==> ascii_lower(#[trigger] v@[j]) == word@[j],
        decreases v.len() - k,
    {
        let c = v[k];
        let lower = if 'A' <= c && c <= 'Z' {
            (((c as u32) + 32) as u8) as char
        } else {
            c
        };
        if lower != word[k] {
            assert(!hidden_name(name@)) by {
                assert(ascii_lower(v@[k as int]) != word@[k as int]);
                assert(v@[0] != '.');
                if v@.len() == 7 {
                    assert(seq!['i', 'n', 'c', 'l', 'u', 'd', 'e'][k as int] == word@[k as int]);
                    assert(ascii_lower(name@[k as int]) != seq!['i', 'n', 'c', 'l', 'u', 'd', 'e'][k as int]);
                } else {
                    assert(ascii_lower(name@[k as int]) != seq!['i', 'n', 'c', 'l', 'u', 'd', 'e', 's'][k as int]);
                }
            }
            return false;
        }
        k += 1;
    }
    proof {
        if v@.len() == 7 {
            assert forall|j: int| 0 <= j < 7 implies ascii_lower(#[trigger] v@[j]) == seq!['i', 'n', 'c', 'l', 'u', 'd', 'e'][j] by {
                assert(word@[j] == seq!['i', 'n', 'c', 'l', 'u', 'd', 'e'][j]);
            }
        }
    }
    true
}

/// Whether no entry from `root` down to `e` has a hidden name.
pub open spec fn visible(t: &FsTree, e: EntryId, root: EntryId) -> bool
    decreases e.0,
{
    if hidden_name(t.entry(e).file_name@) {
        false
    } else if e == root {
        true
    } else {
        match t.entry(e).parent {
            Some(p) => p.0 < e.0 && visible(t, p, root),
            None => false,
        }
    }
}

/// The visible files below `root` among the first `n` entries, in order.
pub open spec fn visible_files(t: &FsTree, root: EntryId, n: int) -> Seq<EntryId>
    decreases n,
{
    if n <= 0 {
        Seq::empty()
    } else {
        let prev = visible_files(t, root, n - 1);
        let e = EntryId((n - 1) as usize);
        if t.entry(e).file_type == FileType::File && visible(t, e, root) {
            prev.push(e)
        } else {
            prev
        }
    }
}

fn is_visible(t: &FsTree, e: EntryId, root: EntryId) -> (r: bool)
    requires
        t.wf(),
        t.valid_id(e),
        t.valid_id(root),
    ensures
        r == visible(t, e, root),
{
    let mut cur = e;
    loop
        invariant
            t.wf(),
            t.valid_id(cur),
            t.valid_id(root),
            visible(t, e, root) == visible(t, cur, root),
        decreases cur.0,
    {
        if is_hidden(&t.index(cur).file_name) {
            return false;
        }
        if cur == root {
            return true;
        }
        proof {
            lemma_tree_invariant(t, cur);
            reveal(FsTree::entry_wf);
            assert(t.entry_wf(cur));
        }
        match t.index(cur).parent {
            Some(p) => {
                cur = p;
            },
            None => {
                return false;
            },
        }
    }
}

/// Makes a resource of each visible file below `asset_root`, in discovery
/// order, with its path relative to `asset_root` under `permapath`.
pub fn build_site_items(t: &FsTree, site: &mut Site, asset_root: EntryId)
    requires
        t.wf(),
        t.valid_id(asset_root),
        old(site).wf(),
    ensures
        final(site).wf(),
        final(site).collections == old(site).collections,
        item_entries(final(site).resources@) == item_entries(old(site).resources@) + visible_files(
            t,
            asset_root,
            t.len_spec() as int,
        ),
{
    let n = t.len();
    let mut i: usize = 0;
    while i < n
        invariant
            t.wf(),
            t.valid_id(asset_root),
            n == t.len_spec(),
            i <= n,
            site.wf(),
            site.collections == old(site).collections,
            item_entries(site.resources@) == item_entries(old(site).resources@) + visible_files(
                t,
                asset_root,
                i as int,
            ),
        decreases n - i,
    {
        let id = EntryId(i);
        let ok = t.index(id).is_file() && is_visible(t, id, asset_root);
        let ghost before = item_entries(site.resources@);
        assert(visible_files(t, asset_root, i + 1) == if ok {
            visible_files(t, asset_root, i as int).push(id)
        } else {
            visible_files(t, asset_root, i as int)
        });
        if ok {
            let mut item = Item::new(id);
            let rel = match t.relative_path(id, asset_root) {
                Some(rel) => rel,
                None => String::new(),
            };
            item.metadata.insert_raw("permapath".to_owned(), Value::Path(rel));
            site.resources.push(item);
            assert(item_entries(site.resources@) =~= before.push(id));
        }
        i += 1;
    }
}

/// Classifies the entries of `t`: the visible files below `asset_root` become
/// resources, each directory below `content_root` with an index file becomes
/// a collection, and every other file below `content_root` joins the
/// collection of its nearest such directory, or a collection `/` rooted at
/// `content_root`. Fails where a directory holds two index files.
pub fn discover(t: &FsTree, content_root: EntryId, asset_root: Option<EntryId>) -> (r: Result<
    Site,
    DiscoverError,
>)
    requires
        t.wf(),
        t.valid_id(content_root),
        t.entry(content_root).file_type == FileType::Dir,
        asset_root matches Some(a) ==> t.valid_id(a),
    ensures
        r is Ok <==> unique_upto(t, content_root, t.len_spec() as int),
        r matches Ok(site) ==> site.wf() && indexed_upto(t, &site, content_root, t.len_spec() as int),
        r matches Ok(site) ==> forall|j: usize| #![trigger is_content_file(t, EntryId(j))]
            0 < j < t.len_spec() && is_content_file(t, EntryId(j)) && t.descends(EntryId(j), content_root)
                ==> placed(&site, EntryId(j)) && placed_right(t, &site, content_root, EntryId(j)),
        r matches Ok(site) ==> roots_match(t, &site, content_root),
        r matches Ok(site) ==> forall|c: int| 0 <= c < site.collections@.len() ==> {
            ||| ((#[trigger] site.collections@[c]).index is Some && site.collections@[c].name@ == t.rel_path(
                site.collections@[c].root,
                content_root,
            ))
            ||| (site.collections@[c].root == content_root && site.collections@[c].name@ == seq!['/']
                && site.collections@[c].index is None)
        },
        r matches Err(DiscoverError::DuplicateIndex { collection, first, second }) ==> names_duplicate(
            t,
            content_root,
            collection@,
            first@,
            second@,
        ),
{
    let mut site = Site::new();
    match build_collections(t, &mut site, content_root) {
        Ok(()) => {},
        Err(e) => {
            return Err(e);
        },
    }
    if let Some(a) = asset_root {
        build_site_items(t, &mut site, a);
    }
    let ghost mid = site;
    proof {
        assert forall|d: EntryId| d != content_root implies (#[trigger] mid.has_collection(d) <==> is_index_dir(t, content_root, d)) by {
            if mid.has_collection(d) {
                let c = choose|c: int| 0 <= c < mid.collections@.len() && mid.collections@[c].root == d;
                assert(mid.collections@[c].index is Some);
                let it = mid.collections@[c].index->0;
                assert(is_index_file(t, EntryId(it.entry.0)));
            }
            if is_index_dir(t, content_root, d) {
                let j = choose|j: usize| j < t.len_spec() && #[trigger] is_index_file(t, EntryId(j)) && t.descends(EntryId(j), content_root)
                    && parent_of(t, EntryId(j)) == d;
                assert(is_index_file(t, EntryId(j)));
            }
        }
    }
    build_items(t, &mut site, content_root);
    proof {
        lemma_keeps_indexed(t, &mid, &site, content_root, t.len_spec() as int);
        assert forall|c: int| 0 <= c < site.collections@.len() implies {
            ||| ((#[trigger] site.collections@[c]).index is Some && site.collections@[c].name@ == t.rel_path(
                site.collections@[c].root,
                content_root,
            ))
            ||| (site.collections@[c].root == content_root && site.collections@[c].name@ == seq!['/']
                && site.collections@[c].index is None)
        } by {
            if c < mid.collections@.len() {
                assert(mid.collections@[c] == mid.collections@[c]);
                assert(site.collections@[c].root == mid.collections@[c].root);
            }
        }
    }
    Ok(site)
}

} // verus!
