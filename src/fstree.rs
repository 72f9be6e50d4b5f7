//! An arena of filesystem entries addressed by integer handles, with path
//! lookup and breadth- and depth-first traversal.
use vstd::prelude::*;
use std::collections::VecDeque;
use crate::text::{chars_of, push_char, push_chars, push_str};
use vstd::string::*;

verus! {

/// A handle to an entry of one `FsTree`.
#[derive(Clone, Copy, PartialEq, Eq, Structural, Hash, Debug)]
pub struct EntryId(pub usize);

/// What kind of filesystem object an entry is, links followed.
#[derive(Clone, Copy, PartialEq, Eq, Structural, Debug)]
pub enum FileType {
    File,
    Dir,
    Other,
}

/// One filesystem object.
pub struct Entry {
    pub id: EntryId,
    pub path: String,
    pub file_name: String,
    pub file_type: FileType,
    pub parent: Option<EntryId>,
    pub children: Vec<EntryId>,
    pub depth: usize,
}

/// A tree of entries. The root has id 0; every other entry's parent was
/// inserted before it, its depth is one more than its parent's, and its path
/// is the parent's path, a `/` and its file name. No two entries share a path.
pub struct FsTree {
    entries: Vec<Entry>,
}

/// Whether `name` can name an entry: it is not empty and holds no `/`.
pub open spec fn valid_name(name: Seq<char>) -> bool {
    name.len() > 0 && forall|i: int| 0 <= i < name.len() ==> name[i] != '/'
}

/// `path` joined with `rel`: `rel` itself where it starts with `/`, `path`
/// where `rel` is empty, and otherwise the two with a `/` between.
pub open spec fn join_path(path: Seq<char>, rel: Seq<char>) -> Seq<char> {
    if rel.len() == 0 {
        path
    } else if rel[0] == '/' {
        rel
    } else {
        path + seq!['/'] + rel
    }
}

pub open spec fn strictly_increasing(s: Seq<EntryId>) -> bool {
    forall|a: int, b: int| 0 <= a < b < s.len() ==> s[a].0 < s[b].0
}

impl FsTree {
    pub closed spec fn entries(&self) -> Seq<Entry> {
        self.entries@
    }

    pub open spec fn len_spec(&self) -> nat {
        self.entries().len()
    }

    pub open spec fn valid_id(&self, id: EntryId) -> bool {
        id.0 < self.len_spec()
    }

    pub open spec fn entry(&self, id: EntryId) -> Entry {
        self.entries()[id.0 as int]
    }

    pub open spec fn path_of(&self, id: EntryId) -> Seq<char> {
        self.entry(id).path@
    }

    pub open spec fn depth_of(&self, id: EntryId) -> nat {
        self.entry(id).depth as nat
    }

    /// The invariant of a tree.
    pub open spec fn wf(&self) -> bool {
        &&& self.len_spec() >= 1
        &&& self.entry(EntryId(0)).parent is None
        &&& self.entry(EntryId(0)).depth == 0
        &&& forall|i: usize| #![trigger self.entry_wf(EntryId(i))]
            i < self.len_spec() ==> self.entry_wf(EntryId(i))
        &&& forall|i: usize, j: usize|
            #![trigger self.path_of(EntryId(i)), self.path_of(EntryId(j))]
            i < self.len_spec() && j < self.len_spec() && i != j ==> self.path_of(EntryId(i))
                != self.path_of(EntryId(j))
    }

    #[verifier::opaque]
    pub open spec fn entry_wf(&self, id: EntryId) -> bool {
        let e = self.entry(id);
        &&& e.id == id
        &&& e.depth <= id.0
        &&& id.0 > 0 ==> {
            &&& e.parent matches Some(p)
            &&& p.0 < id.0
            &&& e.depth == self.entry(p).depth + 1
            &&& e.path@ == self.path_of(p) + seq!['/'] + e.file_name@
            &&& valid_name(e.file_name@)
        }
        &&& strictly_increasing(e.children@)
        &&& forall|k: int| #![trigger e.children@[k]]
            0 <= k < e.children@.len() ==> {
                &&& id.0 < e.children@[k].0 < self.len_spec()
                &&& self.entry(e.children@[k]).parent == Some(id)
            }
        &&& forall|j: usize| #![trigger self.entry(EntryId(j)).parent]
            j < self.len_spec() && self.entry(EntryId(j)).parent == Some(id)
                ==> e.children@.contains(EntryId(j))
    }

    /// Whether `d` is `a` or lies below it.
    pub open spec fn descends(&self, d: EntryId, a: EntryId) -> bool
        decreases d.0,
    {
        if d == a {
            true
        } else if d.0 == 0 || d.0 >= self.len_spec() {
            false
        } else {
            match self.entry(d).parent {
                Some(p) => if p.0 < d.0 {
                    self.descends(p, a)
                } else {
                    false
                },
                None => false,
            }
        }
    }

    /// A tree that holds only its root, at `path`.
    pub fn new(path: String, file_name: String, file_type: FileType) -> (r: FsTree)
        ensures
            r.wf(),
            r.len_spec() == 1,
            r.path_of(EntryId(0)) == path@,
            r.entry(EntryId(0)).file_name@ == file_name@,
            r.entry(EntryId(0)).file_type == file_type,
    {
        let root = Entry {
            id: EntryId(0),
            path,
            file_name,
            file_type,
            parent: None,
            children: Vec::new(),
            depth: 0,
        };
        let mut entries = Vec::new();
        entries.push(root);
        let r = FsTree { entries };
        proof {
            reveal(FsTree::entry_wf);
        }
        r
    }

    pub fn len(&self) -> (r: usize)
        ensures
            r == self.len_spec(),
    {
        self.entries.len()
    }

    pub fn root_id(&self) -> (r: EntryId)
        ensures
            r == EntryId(0),
    {
        EntryId(0)
    }

    pub fn root(&self) -> (r: &Entry)
        requires
            self.wf(),
        ensures
            *r == self.entry(EntryId(0)),
    {
        &self.entries[0]
    }

    /// The entry with handle `id`.
    pub fn index(&self, id: EntryId) -> (r: &Entry)
        requires
            self.valid_id(id),
        ensures
            *r == self.entry(id),
    {
        &self.entries[id.0]
    }

    /// The entry whose path is `path`, if there is one.
    pub fn lookup(&self, path: &str) -> (r: Option<EntryId>)
        ensures
            r matches Some(id) ==> self.valid_id(id) && self.path_of(id) == path@,
            r is None ==> forall|i: usize| i < self.len_spec() ==> self.path_of(EntryId(i)) != path@,
    {
        let q = path.to_owned();
        let mut i: usize = 0;
        while i < self.entries.len()
            invariant
                i <= self.len_spec(),
                q@ == path@,
                forall|j: usize| j < i ==> self.path_of(EntryId(j)) != path@,
            decreases self.entries.len() - i,
        {
            if self.entries[i].path == q {
                return Some(EntryId(i));
            }
            i += 1;
        }
        None
    }

    /// Adds an entry named `file_name` under `parent`. `None` where the name is
    /// empty or holds a `/`, or where the tree already holds its path.
    pub fn insert(&mut self, parent: EntryId, file_name: String, file_type: FileType) -> (r:
        Option<EntryId>)
        requires
            old(self).wf(),
            old(self).valid_id(parent),
            old(self).len_spec() < usize::MAX,
        ensures
            final(self).wf(),
            ({
                let path = old(self).path_of(parent) + seq!['/'] + file_name@;
                let fresh = valid_name(file_name@) && forall|i: usize|
                    i < old(self).len_spec() ==> old(self).path_of(EntryId(i)) != path;
                &&& r is Some <==> fresh
                &&& fresh ==> {
                    &&& r == Some(EntryId(old(self).len_spec() as usize))
                    &&& final(self).len_spec() == old(self).len_spec() + 1
                    &&& final(self).path_of(EntryId(old(self).len_spec() as usize)) == path
                    &&& final(self).entry(EntryId(old(self).len_spec() as usize)).parent == Some(
                        parent,
                    )
                    &&& final(self).entry(EntryId(old(self).len_spec() as usize)).file_type
                        == file_type
                    &&& forall|i: usize|
                        i < old(self).len_spec() ==> final(self).path_of(EntryId(i))
                            == old(self).path_of(EntryId(i))
                }
                &&& !fresh ==> *final(self) == *old(self)
            }),
    {
        let name = chars_of(file_name.as_str());
        let mut k: usize = 0;
        if name.len() == 0 {
            return None;
        }
        while k < name.len()
            invariant
                k <= name@.len(),
                name@ == file_name@,
                forall|j: int| 0 <= j < k ==> name@[j] != '/',
                *self == *old(self),
                self.wf(),
                self.valid_id(parent),
            decreases name.len() - k,
        {
            if name[k] == '/' {
                assert(file_name@[k as int] == '/');
                return None;
            }
            k += 1;
        }
        let mut path = self.entries[parent.0].path.clone();
        push_char(&mut path, '/');
        push_str(&mut path, file_name.as_str());
        assert(path@ == self.path_of(parent) + seq!['/'] + file_name@);
        if self.lookup(path.as_str()).is_some() {
            return None;
        }
        assert(self.entry(parent).depth <= parent.0) by {
            assert(self.entry_wf(parent));
            reveal(FsTree::entry_wf);
        }
        let id = EntryId(self.entries.len());
        let depth = self.entries[parent.0].depth + 1;
        let ghost old_tree = *self;
        let ghost n = self.entries@.len();
        let entry = Entry {
            id,
            path,
            file_name,
            file_type,
            parent: Some(parent),
            children: Vec::new(),
            depth,
        };
        self.entries[parent.0].children.push(id);
        self.entries.push(entry);
        proof {
            assert(self.entries@[n as int] == entry);
            assert(self.entry(EntryId(n as usize)).path@ == old_tree.path_of(parent) + seq!['/'] + self.entry(EntryId(n as usize)).file_name@);
            lemma_insert_wf(old_tree, *self, parent);
        }
        Some(id)
    }
}

impl FsTree {
    /// The path of `e` relative to `root`: empty for `root` itself, and what
    /// follows the root's path and a `/` otherwise.
    pub open spec fn rel_path(&self, e: EntryId, root: EntryId) -> Seq<char> {
        if e == root {
            Seq::empty()
        } else {
            self.path_of(e).skip(self.path_of(root).len() as int + 1)
        }
    }

    /// The entry at `rel` under `root` (the tree's root where `root` is
    /// `None`), if there is one.
    pub fn get_id(&self, root: Option<EntryId>, rel: &str) -> (r: Option<EntryId>)
        requires
            self.wf(),
            root matches Some(id) ==> self.valid_id(id),
        ensures
            ({
                let base = match root {
                    Some(id) => id,
                    None => EntryId(0),
                };
                let full = join_path(self.path_of(base), rel@);
                &&& r matches Some(id) ==> self.valid_id(id) && self.path_of(id) == full
                &&& r is None ==> forall|i: usize|
                    i < self.len_spec() ==> self.path_of(EntryId(i)) != full
            }),
    {
        let base = match root {
            Some(id) => id,
            None => EntryId(0),
        };
        let v = chars_of(rel);
        if v.len() > 0 && v[0] == '/' {
            return self.lookup(rel);
        }
        if v.len() == 0 {
            return self.lookup(self.entries[base.0].path.as_str());
        }
        let mut full = self.entries[base.0].path.clone();
        push_char(&mut full, '/');
        push_str(&mut full, rel);
        self.lookup(full.as_str())
    }

    /// The entry at `rel` under `root`, if there is one.
    pub fn get(&self, root: Option<EntryId>, rel: &str) -> (r: Option<&Entry>)
        requires
            self.wf(),
            root matches Some(id) ==> self.valid_id(id),
        ensures
            ({
                let base = match root {
                    Some(id) => id,
                    None => EntryId(0),
                };
                let full = join_path(self.path_of(base), rel@);
                &&& r matches Some(e) ==> self.valid_id(e.id) && *e == self.entry(e.id)
                    && e.path@ == full
                &&& r is None ==> forall|i: usize|
                    i < self.len_spec() ==> self.path_of(EntryId(i)) != full
            }),
    {
        match self.get_id(root, rel) {
            Some(id) => {
                assert(self.entry_wf(id));
                proof {
                    reveal(FsTree::entry_wf);
                }
                Some(&self.entries[id.0])
            },
            None => None,
        }
    }

    /// The file at `rel` under `root`, if there is one and it is a file.
    pub fn get_file_id(&self, root: Option<EntryId>, rel: &str) -> (r: Option<EntryId>)
        requires
            self.wf(),
            root matches Some(id) ==> self.valid_id(id),
        ensures
            ({
                let base = match root {
                    Some(id) => id,
                    None => EntryId(0),
                };
                let full = join_path(self.path_of(base), rel@);
                &&& r matches Some(id) ==> self.valid_id(id) && self.path_of(id) == full
                    && self.entry(id).file_type == FileType::File
                &&& r is None ==> forall|i: usize|
                    i < self.len_spec() && self.path_of(EntryId(i)) == full
                        ==> self.entry(EntryId(i)).file_type != FileType::File
            }),
    {
        match self.get_id(root, rel) {
            Some(id) => {
                if self.entries[id.0].file_type == FileType::File {
                    Some(id)
                } else {
                    proof {
                        assert forall|i: usize|
                            i < self.len_spec() && self.path_of(EntryId(i)) == join_path(
                                self.path_of(
                                    match root {
                                        Some(id) => id,
                                        None => EntryId(0),
                                    },
                                ),
                                rel@,
                            ) implies self.entry(EntryId(i)).file_type != FileType::File by {
                            if i != id.0 {
                                assert(self.path_of(EntryId(i)) != self.path_of(id));
                            }
                        }
                    }
                    None
                }
            },
            None => None,
        }
    }

    /// Whether `to` is `from` or lies below it. Paths are not compared: a
    /// followed link makes them unreliable, so the parents are walked.
    pub fn path_exists(&self, from: EntryId, to: EntryId) -> (r: bool)
        requires
            self.wf(),
            self.valid_id(from),
            self.valid_id(to),
        ensures
            r == self.descends(to, from),
    {
        let mut cur = to;
        loop
            invariant
                self.wf(),
                self.valid_id(cur),
                self.valid_id(from),
                self.descends(to, from) == self.descends(cur, from),
            decreases cur.0,
        {
            if cur == from {
                return true;
            }
            if cur.0 == 0 {
                return false;
            }
            assert(self.entry_wf(cur));
            proof {
                reveal(FsTree::entry_wf);
            }
            match self.entries[cur.0].parent {
                Some(p) => {
                    cur = p;
                },
                None => {
                    return false;
                },
            }
        }
    }

    /// The path of `e` relative to `root`; `None` where `e` does not lie at
    /// or below `root`.
    pub fn relative_path(&self, e: EntryId, root: EntryId) -> (r: Option<String>)
        requires
            self.wf(),
            self.valid_id(e),
            self.valid_id(root),
        ensures
            r is Some <==> self.descends(e, root),
            r matches Some(s) ==> s@ == self.rel_path(e, root),
    {
        if !self.path_exists(root, e) {
            return None;
        }
        if e == root {
            return Some(String::new());
        }
        proof {
            lemma_descends_path(*self, e, root);
        }
        let v = chars_of(self.entries[e.0].path.as_str());
        let start = self.entries[root.0].path.as_str().unicode_len() + 1;
        let mut s = String::new();
        push_chars(&mut s, &v, start, v.len());
        assert(v@.subrange(start as int, v@.len() as int) =~= v@.skip(start as int));
        Some(s)
    }
}

/// The index of the last `c` in `s`, or -1 where `s` holds none.
pub open spec fn last_index_of(s: Seq<char>, c: char) -> int
    decreases s.len(),
{
    if s.len() == 0 {
        -1
    } else if s.last() == c {
        s.len() - 1
    } else {
        last_index_of(s.drop_last(), c)
    }
}

pub(crate) proof fn lemma_last_index_bound(s: Seq<char>, c: char)
    ensures
        -1 <= last_index_of(s, c) < s.len(),
        last_index_of(s, c) >= 0 ==> s[last_index_of(s, c)] == c,
    decreases s.len(),
{
    if s.len() > 0 && s.last() != c {
        lemma_last_index_bound(s.drop_last(), c);
    }
}

/// The index of the last `c` in `v`, if any.
pub(crate) fn find_last(v: &Vec<char>, c: char) -> (r: Option<usize>)
    ensures
        match r {
            Some(i) => i == last_index_of(v@, c),
            None => last_index_of(v@, c) == -1,
        },
{
    let mut i = v.len();
    assert(v@.take(i as int) =~= v@);
    while i > 0
        invariant
            i <= v@.len(),
            last_index_of(v@, c) == last_index_of(v@.take(i as int), c),
        decreases i,
    {
        assert(v@.take(i as int).drop_last() =~= v@.take(i - 1));
        if v[i - 1] == c {
            return Some(i - 1);
        }
        i -= 1;
    }
    None
}

/// A file name without its extension: what precedes its last `.`.
pub open spec fn stem_of(name: Seq<char>) -> Seq<char> {
    if last_index_of(name, '.') >= 0 {
        name.take(last_index_of(name, '.'))
    } else {
        name
    }
}

/// What follows the last `.` of a file name, if it has one.
pub open spec fn ext_of(name: Seq<char>) -> Option<Seq<char>> {
    if last_index_of(name, '.') >= 0 {
        Some(name.skip(last_index_of(name, '.') + 1))
    } else {
        None
    }
}

impl Entry {
    /// The file name without its extension.
    pub fn file_stem(&self) -> (r: String)
        ensures
            r@ == stem_of(self.file_name@),
    {
        let v = chars_of(self.file_name.as_str());
        proof {
            lemma_last_index_bound(v@, '.');
        }
        let mut r = String::new();
        match find_last(&v, '.') {
            Some(i) => {
                push_chars(&mut r, &v, 0, i);
                assert(v@.subrange(0, i as int) =~= v@.take(i as int));
            },
            None => {
                push_chars(&mut r, &v, 0, v.len());
                assert(v@.subrange(0, v@.len() as int) =~= v@);
            },
        }
        r
    }

    /// The extension of the file name, if it has one.
    pub fn file_ext(&self) -> (r: Option<String>)
        ensures
            r matches Some(e) ==> ext_of(self.file_name@) == Some(e@),
            r is None ==> ext_of(self.file_name@) is None,
    {
        let v = chars_of(self.file_name.as_str());
        proof {
            lemma_last_index_bound(v@, '.');
        }
        match find_last(&v, '.') {
            Some(i) => {
                let mut r = String::new();
                push_chars(&mut r, &v, i + 1, v.len());
                assert(v@.subrange(i + 1, v@.len() as int) =~= v@.skip(i + 1));
                Some(r)
            },
            None => None,
        }
    }

    pub fn is_file(&self) -> (r: bool)
        ensures
            r == (self.file_type == FileType::File),
    {
        self.file_type == FileType::File
    }
}

/// A breadth-first walk from `root`. Its queue holds only the entries whose
/// children are still to be visited, together with how far through the
/// children of the first of them the walk has come.
pub struct Bfs {
    root: EntryId,
    start: Option<EntryId>,
    stack: VecDeque<EntryId>,
    progress: usize,
}

/// A depth-first walk from `root`, with an explicit stack.
pub struct Dfs {
    root: EntryId,
    stack: VecDeque<EntryId>,
}

/// One step of a breadth-first walk whose queue is `q`, where the first
/// `pr` children of the entry at its front have been given out: that
/// entry's next child, queued where it has children of its own; or, where
/// none is left, the same step after dropping the front entry.
pub open spec fn bfs_step(t: &FsTree, q: Seq<EntryId>, pr: nat) -> (Option<EntryId>, Seq<EntryId>, nat)
    decreases q.len(),
{
    if q.len() == 0 {
        (None, q, pr)
    } else {
        let ch = t.entry(q[0]).children@;
        if pr < ch.len() {
            let node = ch[pr as int];
            (Some(node), if t.entry(node).children@.len() > 0 { q.push(node) } else { q }, pr + 1)
        } else {
            bfs_step(t, q.drop_first(), 0)
        }
    }
}

/// `ch` in reverse order.
pub open spec fn reversed_ids(ch: Seq<EntryId>) -> Seq<EntryId> {
    Seq::new(ch.len(), |j: int| ch[ch.len() - 1 - j])
}

/// One step of a depth-first walk whose stack is `q`: the entry on top,
/// replaced by its children, the first of them on top.
pub open spec fn dfs_step(t: &FsTree, q: Seq<EntryId>) -> (Option<EntryId>, Seq<EntryId>) {
    if q.len() == 0 {
        (None, q)
    } else {
        (Some(q[0]), reversed_ids(t.entry(q[0]).children@) + q.drop_first())
    }
}

impl Bfs {
    /// The entry still to be given out first, before any queued child.
    pub closed spec fn pending(&self) -> Option<EntryId> {
        self.start
    }

    /// The entries whose children are still to be given out, in order.
    pub closed spec fn queue(&self) -> Seq<EntryId> {
        self.stack@
    }

    /// How many children of the entry at the front were given out.
    pub closed spec fn progress(&self) -> nat {
        self.progress as nat
    }

    /// The entry that the walk started from.
    pub closed spec fn origin(&self) -> EntryId {
        self.root
    }

    /// The invariant of a walk over `tree`.
    pub closed spec fn inv(&self, tree: &FsTree) -> bool {
        &&& tree.valid_id(self.root)
        &&& (self.start matches Some(s) ==> s == self.root)
        &&& forall|k: int| #![trigger self.stack@[k]]
            0 <= k < self.stack@.len() ==> tree.valid_id(self.stack@[k]) && tree.descends(
                self.stack@[k],
                self.root,
            )
    }
}

impl Dfs {
    /// The entries still to be given out, next first.
    pub closed spec fn stack(&self) -> Seq<EntryId> {
        self.stack@
    }

    /// The entry that the walk started from.
    pub closed spec fn origin(&self) -> EntryId {
        self.root
    }

    /// The invariant of a walk over `tree`.
    pub closed spec fn inv(&self, tree: &FsTree) -> bool {
        &&& tree.valid_id(self.root)
        &&& forall|k: int| #![trigger self.stack@[k]]
            0 <= k < self.stack@.len() ==> tree.valid_id(self.stack@[k]) && tree.descends(
                self.stack@[k],
                self.root,
            )
    }
}

/// A child of an entry at or below `a` lies below `a` too.
proof fn lemma_child_descends(t: FsTree, c: EntryId, p: EntryId, a: EntryId)
    requires
        t.wf(),
        t.valid_id(p),
        t.entry(p).children@.contains(c),
        t.descends(p, a),
    ensures
        t.valid_id(c),
        t.descends(c, a),
{
    assert(t.entry_wf(p));
    reveal(FsTree::entry_wf);
    let k = choose|k: int| 0 <= k < t.entry(p).children@.len() && t.entry(p).children@[k] == c;
    assert(t.entry(p).children@[k] == c);
    assert(t.entry_wf(c));
}

impl FsTree {
    /// A breadth-first walk from `root`, `root` first.
    pub fn iter_breadth_first(&self, root: EntryId) -> (r: Bfs)
        requires
            self.valid_id(root),
        ensures
            r.inv(self),
            r.origin() == root,
            r.pending() == Some(root),
            r.queue().len() == 0,
            r.progress() == 0,
    {
        Bfs { root, start: Some(root), stack: VecDeque::new(), progress: 0 }
    }

    /// A depth-first walk from `root`, `root` first.
    pub fn iter_depth_first(&self, root: EntryId) -> (r: Dfs)
        requires
            self.valid_id(root),
        ensures
            r.inv(self),
            r.origin() == root,
            r.stack() == seq![root],
    {
        let mut stack = VecDeque::new();
        stack.push_back(root);
        Dfs { root, stack }
    }
}

impl Bfs {
    /// The next entry of the walk, if any, as `bfs_step` states; each lies at
    /// or below the root.
    pub fn next(&mut self, tree: &FsTree) -> (r: Option<EntryId>)
        requires
            tree.wf(),
            old(self).inv(tree),
        ensures
            final(self).inv(tree),
            final(self).origin() == old(self).origin(),
            r matches Some(id) ==> tree.valid_id(id) && tree.descends(id, old(self).origin()),
            final(self).pending() is None,
            old(self).pending() matches Some(s) ==> r == Some(s) && final(self).queue() == seq![s]
                + old(self).queue() && final(self).progress() == old(self).progress(),
            old(self).pending() is None ==> (r, final(self).queue(), final(self).progress())
                == bfs_step(tree, old(self).queue(), old(self).progress()),
    {
        if let Some(root) = self.start {
            self.start = None;
            self.stack.push_front(root);
            return Some(root);
        }
        loop
            invariant
                tree.wf(),
                self.inv(tree),
                self.root == old(self).root,
                self.start is None,
                old(self).start is None,
                old(self).start is None ==> bfs_step(tree, old(self).stack@, old(self).progress as nat)
                    == bfs_step(tree, self.stack@, self.progress as nat),
            decreases self.stack@.len(),
        {
            if self.stack.len() == 0 {
                return None;
            }
            let parent = self.stack[0];
            assert(self.stack@[0] == parent);
            let n = tree.entries[parent.0].children.len();
            if self.progress < n {
                let node = tree.entries[parent.0].children[self.progress];
                proof {
                    assert(tree.entry(parent).children@[self.progress as int] == node);
                    lemma_child_descends(*tree, node, parent, self.root);
                }
                if tree.entries[node.0].children.len() > 0 {
                    self.stack.push_back(node);
                }
                self.progress = self.progress + 1;
                return Some(node);
            } else {
                self.stack.pop_front();
                self.progress = 0;
            }
        }
    }
}

impl Dfs {
    /// The next entry of the walk, if any, as `dfs_step` states; each lies at
    /// or below the root.
    pub fn next(&mut self, tree: &FsTree) -> (r: Option<EntryId>)
        requires
            tree.wf(),
            old(self).inv(tree),
        ensures
            final(self).inv(tree),
            final(self).origin() == old(self).origin(),
            r matches Some(id) ==> tree.valid_id(id) && tree.descends(id, old(self).origin()),
            (r, final(self).stack()) == dfs_step(tree, old(self).stack()),
    {
        if self.stack.len() == 0 {
            return None;
        }
        let node = match self.stack.pop_front() {
            Some(n) => n,
            None => {
                return None;
            },
        };
        assert(old(self).stack@[0] == node);
        let n = tree.entries[node.0].children.len();
        let mut i: usize = 0;
        while i < n
            invariant
                tree.wf(),
                tree.valid_id(node),
                tree.descends(node, self.root),
                n == tree.entry(node).children@.len(),
                self.inv(tree),
                self.root == old(self).root,
                i <= n,
                node == old(self).stack@[0],
                self.stack@ == reversed_ids(tree.entry(node).children@.take(i as int)) + old(self).stack@.drop_first(),
            decreases n - i,
        {
            let child = tree.entries[node.0].children[i];
            proof {
                assert(tree.entry(node).children@[i as int] == child);
                lemma_child_descends(*tree, child, node, self.root);
            }
            let ghost before = self.stack@;
            self.stack.push_front(child);
            assert(reversed_ids(tree.entry(node).children@.take(i + 1)) =~= seq![child] + reversed_ids(tree.entry(node).children@.take(i as int)));
            assert(self.stack@ =~= reversed_ids(tree.entry(node).children@.take(i + 1)) + old(self).stack@.drop_first());
            i += 1;
        }
        assert(tree.entry(node).children@.take(n as int) =~= tree.entry(node).children@);
        Some(node)
    }
}

/// The parents of `e`, nearest first, up to the root.
pub open spec fn ancestors(t: &FsTree, e: EntryId) -> Seq<EntryId>
    decreases e.0,
{
    if e.0 == 0 || e.0 >= t.len_spec() {
        Seq::empty()
    } else {
        match t.entry(e).parent {
            Some(p) => if p.0 < e.0 {
                seq![p] + ancestors(t, p)
            } else {
                Seq::empty()
            },
            None => Seq::empty(),
        }
    }
}

impl FsTree {
    /// The parents of `e`, nearest first, up to the root.
    pub fn ancestors_of(&self, e: EntryId) -> (r: Vec<EntryId>)
        requires
            self.wf(),
            self.valid_id(e),
        ensures
            r@ == ancestors(self, e),
    {
        let mut r: Vec<EntryId> = Vec::new();
        let mut cur = e;
        loop
            invariant
                self.wf(),
                self.valid_id(cur),
                r@ + ancestors(self, cur) == ancestors(self, e),
            decreases cur.0,
        {
            if cur.0 == 0 {
                assert(r@ + ancestors(self, cur) =~= r@);
                return r;
            }
            proof {
                reveal(FsTree::entry_wf);
                assert(self.entry_wf(cur));
            }
            match self.entries[cur.0].parent {
                Some(p) => {
                    let ghost r0 = r@;
                    r.push(p);
                    assert(r0 + ancestors(self, cur) =~= r@ + ancestors(self, p));
                    cur = p;
                },
                None => {
                    assert(r@ + ancestors(self, cur) =~= r@);
                    return r;
                },
            }
        }
    }

    /// The entry at or below the root whose path relative to the root is
    /// `path`, if there is one.
    pub fn search(&self, path: &str) -> (r: Option<EntryId>)
        requires
            self.wf(),
        ensures
            r matches Some(id) ==> self.valid_id(id) && self.descends(id, EntryId(0)) && self.rel_path(id, EntryId(0)) == path@,
            r is None ==> forall|i: usize| i < self.len_spec() && self.descends(EntryId(i), EntryId(0))
                ==> self.rel_path(EntryId(i), EntryId(0)) != path@,
    {
        let q = path.to_owned();
        let mut i: usize = 0;
        while i < self.entries.len()
            invariant
                self.wf(),
                i <= self.len_spec(),
                q@ == path@,
                forall|j: usize| j < i && self.descends(EntryId(j), EntryId(0))
                    ==> self.rel_path(EntryId(j), EntryId(0)) != path@,
            decreases self.entries.len() - i,
        {
            match self.relative_path(EntryId(i), EntryId(0)) {
                Some(rel) => {
                    if rel == q {
                        return Some(EntryId(i));
                    }
                },
                None => {},
            }
            i += 1;
        }
        None
    }
}

/// An entry below `root` has the root's path, a `/`, and a relative path
/// that is not empty and does not start with `/`.
proof fn lemma_descends_path(t: FsTree, e: EntryId, root: EntryId)
    requires
        t.wf(),
        t.valid_id(e),
        t.valid_id(root),
        t.descends(e, root),
        e != root,
    ensures
        t.path_of(e) == t.path_of(root) + seq!['/'] + t.rel_path(e, root),
        t.rel_path(e, root).len() > 0,
        t.rel_path(e, root)[0] != '/',
    decreases e.0,
{
    assert(t.entry_wf(e));
    reveal(FsTree::entry_wf);
    let p = t.entry(e).parent->0;
    let name = t.entry(e).file_name@;
    let rp = t.path_of(root);
    assert(name[0] != '/');
    if p == root {
        assert(t.path_of(e).skip(rp.len() as int + 1) =~= name);
    } else {
        lemma_descends_path(t, p, root);
        let rest = t.rel_path(p, root);
        assert(t.path_of(e) =~= rp + seq!['/'] + (rest + seq!['/'] + name));
        assert(t.path_of(e).skip(rp.len() as int + 1) =~= rest + seq!['/'] + name);
    }
}

/// Every entry other than the root is one level deeper than its parent,
/// which came before it and lists it among its children; the root has no
/// parent and depth 0; and every handle names an entry that carries that
/// same handle.
pub proof fn lemma_tree_invariant(t: &FsTree, e: EntryId)
    requires
        t.wf(),
        t.valid_id(e),
    ensures
        t.entry(e).id == e,
        e.0 > 0 ==> (t.entry(e).parent matches Some(p) && t.valid_id(p) && p.0 < e.0 && t.depth_of(e)
            == t.depth_of(p) + 1 && t.entry(p).children@.contains(e)),
        e.0 == 0 ==> t.entry(e).parent is None && t.depth_of(e) == 0,
{
    assert(t.entry_wf(e));
    reveal(FsTree::entry_wf);
    if e.0 > 0 {
        let p = t.entry(e).parent->0;
        assert(t.entry_wf(p));
        assert(t.entry(EntryId(e.0)).parent == Some(p));
    }
}

/// For every entry `e` at or below `root`, looking up the path of `e`
/// relative to `root` from `root` finds `e` and nothing else.
pub proof fn lemma_round_trip_lookup(t: &FsTree, root: EntryId, e: EntryId)
    requires
        t.wf(),
        t.valid_id(root),
        t.valid_id(e),
        t.descends(e, root),
    ensures
        join_path(t.path_of(root), t.rel_path(e, root)) == t.path_of(e),
        forall|i: usize|
            i < t.len_spec() && t.path_of(EntryId(i)) == join_path(
                t.path_of(root),
                t.rel_path(e, root),
            ) ==> i == e.0,
{
    if e != root {
        lemma_descends_path(*t, e, root);
    }
    assert forall|i: usize|
        i < t.len_spec() && t.path_of(EntryId(i)) == t.path_of(e) implies i == e.0 by {
        if i != e.0 {
            assert(t.path_of(EntryId(i)) != t.path_of(EntryId(e.0)));
        }
    }
}

/// The entry added by an insertion keeps the tree well formed.
proof fn lemma_insert_wf(t0: FsTree, t1: FsTree, parent: EntryId)
    requires
        t0.wf(),
        t0.valid_id(parent),
        t0.len_spec() < usize::MAX,
        t1.len_spec() == t0.len_spec() + 1,
        forall|i: usize| i < t0.len_spec() && i != parent.0 ==> #[trigger] t1.entry(EntryId(i))
            == t0.entry(EntryId(i)),
        ({
            let pe = t1.entry(parent);
            let oe = t0.entry(parent);
            &&& pe.id == oe.id && pe.path == oe.path && pe.depth == oe.depth
            &&& pe.parent == oe.parent && pe.file_name == oe.file_name
            &&& pe.children@ == oe.children@.push(EntryId(t0.len_spec() as usize))
        }),
        ({
            let n = t0.len_spec() as usize;
            let ne = t1.entry(EntryId(n));
            &&& ne.id == EntryId(n)
            &&& ne.parent == Some(parent)
            &&& ne.depth == t0.entry(parent).depth + 1
            &&& ne.path@ == t0.path_of(parent) + seq!['/'] + ne.file_name@
            &&& valid_name(ne.file_name@)
            &&& ne.children@.len() == 0
            &&& forall|i: usize| i < n ==> t0.path_of(EntryId(i)) != ne.path@
        }),
    ensures
        t1.wf(),
{
    let n = t0.len_spec() as usize;
    assert forall|i: usize| #![trigger t1.entry_wf(EntryId(i))]
        i < t1.len_spec() implies t1.entry_wf(EntryId(i)) by {
        lemma_insert_entry_wf(t0, t1, parent, i);
    }
    assert forall|i: usize, j: usize|
        #![trigger t1.path_of(EntryId(i)), t1.path_of(EntryId(j))]
        i < t1.len_spec() && j < t1.len_spec() && i != j implies t1.path_of(EntryId(i))
            != t1.path_of(EntryId(j)) by {
        assert(t1.path_of(parent) == t0.path_of(parent));
        if i < n && i != parent.0 {
            assert(t1.entry(EntryId(i)) == t0.entry(EntryId(i)));
        }
        if j < n && j != parent.0 {
            assert(t1.entry(EntryId(j)) == t0.entry(EntryId(j)));
        }
        if i == n {
            assert(t0.path_of(EntryId(j)) != t1.path_of(EntryId(i)));
        }
        if j == n {
            assert(t0.path_of(EntryId(i)) != t1.path_of(EntryId(j)));
        }
        if i < n && j < n {
            assert(t0.path_of(EntryId(i)) != t0.path_of(EntryId(j)));
        }
    }
    if parent.0 != 0 {
        assert(t1.entry(EntryId(0)) == t0.entry(EntryId(0)));
    }
    assert(t1.entry(EntryId(0)).parent is None);
    assert(t1.entry(EntryId(0)).depth == 0);

}

#[verifier::rlimit(50)]
proof fn lemma_insert_entry_wf(t0: FsTree, t1: FsTree, parent: EntryId, i: usize)
    requires
        t0.wf(),
        t0.valid_id(parent),
        t0.len_spec() < usize::MAX,
        t1.len_spec() == t0.len_spec() + 1,
        forall|i: usize| i < t0.len_spec() && i != parent.0 ==> #[trigger] t1.entry(EntryId(i))
            == t0.entry(EntryId(i)),
        ({
            let pe = t1.entry(parent);
            let oe = t0.entry(parent);
            &&& pe.id == oe.id && pe.path == oe.path && pe.depth == oe.depth
            &&& pe.parent == oe.parent && pe.file_name == oe.file_name
            &&& pe.children@ == oe.children@.push(EntryId(t0.len_spec() as usize))
        }),
        ({
            let n = t0.len_spec() as usize;
            let ne = t1.entry(EntryId(n));
            &&& ne.id == EntryId(n)
            &&& ne.parent == Some(parent)
            &&& ne.depth == t0.entry(parent).depth + 1
            &&& ne.path@ == t0.path_of(parent) + seq!['/'] + ne.file_name@
            &&& valid_name(ne.file_name@)
            &&& ne.children@.len() == 0
        }),
        i < t1.len_spec(),
    ensures
        t1.entry_wf(EntryId(i)),
{
    reveal(FsTree::entry_wf);
    let n = t0.len_spec() as usize;
    let e = t1.entry(EntryId(i));
    let id = EntryId(n);
    assert(t0.entry_wf(parent));
    if i < n {
        let oe = t0.entry(EntryId(i));
        assert(t0.entry_wf(EntryId(i)));
        if i > 0 {
            let p = oe.parent->0;
            assert(t1.entry(p).depth == t0.entry(p).depth);
            assert(t1.path_of(p) == t0.path_of(p));
        }
        if i == parent.0 {
            assert forall|k: int| #![trigger e.children@[k]]
                0 <= k < e.children@.len() implies {
                    &&& i < e.children@[k].0 < t1.len_spec()
                    &&& t1.entry(e.children@[k]).parent == Some(EntryId(i))
                } by {
                if k < oe.children@.len() {
                    assert(e.children@[k] == oe.children@[k]);
                    assert(t0.entry(oe.children@[k]).parent == Some(EntryId(i)));
                }
            }
            assert forall|j: usize| #![trigger t1.entry(EntryId(j)).parent]
                j < t1.len_spec() && t1.entry(EntryId(j)).parent == Some(EntryId(i))
                implies e.children@.contains(EntryId(j)) by {
                if j < n {
                    assert(t0.entry(EntryId(j)).parent == Some(EntryId(i)));
                    assert(oe.children@.contains(EntryId(j)));
                    let k = choose|k: int| 0 <= k < oe.children@.len() && oe.children@[k] == EntryId(j);
                    assert(e.children@[k] == EntryId(j));
                } else {
                    assert(e.children@[oe.children@.len() as int] == id);
                }
            }
        } else {
            assert forall|k: int| #![trigger e.children@[k]]
                0 <= k < e.children@.len() implies {
                    &&& i < e.children@[k].0 < t1.len_spec()
                    &&& t1.entry(e.children@[k]).parent == Some(EntryId(i))
                } by {
                assert(t0.entry(oe.children@[k]).parent == Some(EntryId(i)));
            }
            assert forall|j: usize| #![trigger t1.entry(EntryId(j)).parent]
                j < t1.len_spec() && t1.entry(EntryId(j)).parent == Some(EntryId(i))
                implies e.children@.contains(EntryId(j)) by {
                if j < n {
                    assert(t0.entry(EntryId(j)).parent == Some(EntryId(i)));
                }
            }
        }
    } else {
        assert(t0.entry(parent).depth <= parent.0);
        assert(e.children@.len() == 0);
        assert forall|j: usize| #![trigger t1.entry(EntryId(j)).parent]
            j < t1.len_spec() && t1.entry(EntryId(j)).parent == Some(EntryId(i))
            implies e.children@.contains(EntryId(j)) by {
            if j < n {
                assert(t0.entry_wf(EntryId(j)));
                if j > 0 {
                    let pj = t0.entry(EntryId(j)).parent->0;
                    assert(pj.0 < j);
                }
            }
        }
    }
}

} // verus!
