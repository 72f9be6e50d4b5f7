//! Where each rendered page goes: its output path, its URL and its template.
use vstd::prelude::*;
use crate::fstree::{EntryId, FsTree, FileType};
use crate::taxonomy::Kind;
use crate::text::{chars_of, push_chars, push_str};
use crate::url::{Url, UrlBuf, valid_url, appended, prepended, relative_part_of};
use crate::value::{Metadata, Value};

verus! {

/// `a` joined with the relative path `b`.
pub open spec fn path_join(a: Seq<char>, b: Seq<char>) -> Seq<char> {
    if a.len() == 0 {
        b
    } else {
        a + seq!['/'] + b
    }
}

/// Joins the relative path `b` onto `a`.
pub fn join(a: &str, b: &str) -> (r: String)
    ensures
        r@ == path_join(a@, b@),
{
    let mut r = String::new();
    push_str(&mut r, a);
    if !a.is_empty() {
        push_str(&mut r, "/");
        proof {
            reveal_strlit("/");
        }
    }
    push_str(&mut r, b);
    r
}

/// Whether files with extension `ext` are rendered into pages.
pub open spec fn rendered_ext(ext: Seq<char>) -> bool {
    ext == "md"@ || ext == "mdown"@ || ext == "markdown"@ || ext == "toml"@ || ext == "json"@
}

fn str_is(a: &str, b: &str) -> (r: bool)
    ensures
        r == (a@ == b@),
{
    let x = chars_of(a);
    let y = chars_of(b);
    if x.len() != y.len() {
        return false;
    }
    let mut k: usize = 0;
    while k < x.len()
        invariant
            x@ == a@,
            y@ == b@,
            x@.len() == y@.len(),
            k <= x@.len(),
            forall|q: int| 0 <= q < k ==> x@[q] == y@[q],
        decreases x.len() - k,
    {
        if x[k] != y[k] {
            return false;
        }
        k += 1;
    }
    assert(x@ =~= y@);
    true
}

/// Whether a file with extension `ext` is rendered into a page.
pub fn is_rendered(ext: Option<&str>) -> (r: bool)
    ensures
        r == (ext matches Some(e) && rendered_ext(e@)),
{
    match ext {
        Some(e) => str_is(e, "md") || str_is(e, "mdown") || str_is(e, "markdown") || str_is(e, "toml")
            || str_is(e, "json"),
        None => false,
    }
}

/// The name of the template for items of kind `kind`.
pub open spec fn template_name_of(kind: Kind) -> Seq<char> {
    match kind {
        Kind::Index => "index.html"@,
        Kind::Item(_) => "page.html"@,
        Kind::Datum(_) => "data.html"@,
    }
}

pub fn template_name(kind: Kind) -> (r: &'static str)
    ensures
        r@ == template_name_of(kind),
{
    match kind {
        Kind::Index => "index.html",
        Kind::Item(_) => "page.html",
        Kind::Datum(_) => "data.html",
    }
}

/// Where a page goes and the path of its URL: an index goes to
/// `index.html` in its collection's directory, an item to `index.html` in a
/// directory named by its slug; a file that is not rendered keeps its own
/// path; a rendered data item makes no page.
pub open spec fn page_location(kind: Kind, rendered: bool, group: Seq<char>, slug: Seq<char>, rel: Seq<char>) -> Option<(Seq<char>, Seq<char>, bool)> {
    if !rendered {
        Some((rel, rel, false))
    } else {
        match kind {
            Kind::Index => Some((path_join(group, "index.html"@), group, true)),
            Kind::Item(_) => Some((path_join(path_join(group, slug), "index.html"@), path_join(group, slug), true)),
            Kind::Datum(_) => None,
        }
    }
}

/// The output path of a page, the path of its URL, and whether that URL
/// ends in `/`; `None` for a rendered data item, which makes no page.
pub fn locate(kind: Kind, rendered: bool, group: &str, slug: &str, rel: &str) -> (r: Option<(String, String, bool)>)
    ensures
        match page_location(kind, rendered, group@, slug@, rel@) {
            Some((p, u, d)) => r matches Some(x) && x.0@ == p && x.1@ == u && x.2 == d,
            None => r is None,
        },
{
    if !rendered {
        return Some((rel.to_owned(), rel.to_owned(), false));
    }
    match kind {
        Kind::Index => Some((join(group, "index.html"), group.to_owned(), true)),
        Kind::Item(_) => {
            let dir = join(group, slug);
            Some((join(dir.as_str(), "index.html"), dir, true))
        },
        Kind::Datum(_) => None,
    }
}

/// The URL of a page whose URL path is `path`: a `/` appended where asked,
/// the scheme and leading slashes dropped, and `root` put in front. `None`
/// where `path` holds a character that a URL cannot.
pub fn page_url(root: &Url, path: &str, dir: bool) -> (r: Option<UrlBuf>)
    ensures
        !valid_url(path@) ==> r is None,
        valid_url(path@) ==> (r matches Some(u) && u@ == prepended(
            relative_part_of(if dir { appended(path@, "/"@) } else { path@ }),
            root@,
        )),
{
    let url = match Url::try_new(path) {
        Some(u) => u,
        None => {
            return None;
        },
    };
    let mut buf = url.to_url_buf();
    if dir {
        proof {
            reveal_strlit("/");
            assert(crate::url::url_char("/"@[0]));
        }
        buf.append(&Url::new("/"));
    }
    buf.make_relative();
    buf.prepend(root);
    Some(buf)
}

/// `p` with its last component's extension made `html`.
pub open spec fn with_html_ext(p: Seq<char>) -> Seq<char> {
    let start = name_start(p, p.len() as int);
    let name = p.skip(start);
    let dot = crate::fstree::last_index_of(name, '.');
    if p.len() == 0 {
        p
    } else if dot > 0 {
        p.take(start + dot) + ".html"@
    } else {
        p + ".html"@
    }
}

/// Where the last component of `p` starts: after its last `/`.
pub open spec fn name_start(p: Seq<char>, i: int) -> int
    decreases i,
{
    if i <= 0 || i > p.len() {
        0
    } else if p[i - 1] == '/' {
        i
    } else {
        name_start(p, i - 1)
    }
}

/// `p` and each of its parents, nearest first, the empty path last.
pub open spec fn path_ancestors(p: Seq<char>) -> Seq<Seq<char>>
    decreases p.len(),
{
    if p.len() == 0 {
        seq![p]
    } else {
        let s = name_start(p, p.len() as int);
        let parent = if s > 0 { p.take(s - 1) } else { Seq::empty() };
        if 0 <= s <= p.len() && parent.len() < p.len() {
            seq![p] + path_ancestors(parent)
        } else {
            seq![p]
        }
    }
}

/// Whether the tree holds a file at `p` under `root`.
pub open spec fn file_at(t: &FsTree, root: EntryId, p: Seq<char>) -> bool {
    exists|i: usize| i < t.len_spec() && t.path_of(EntryId(i)) == crate::fstree::join_path(t.path_of(root), p)
        && t.entry(EntryId(i)).file_type == FileType::File
}

/// The template for a page: in each of `dirs` in turn, the template named
/// `name` in it, then the directory's own name with extension `html`; at
/// last `default.html`.
pub open spec fn template_choice(t: &FsTree, root: EntryId, dirs: Seq<Seq<char>>, name: Seq<char>) -> Option<Seq<char>>
    decreases dirs.len(),
{
    if dirs.len() == 0 {
        if file_at(t, root, "default.html"@) { Some("default.html"@) } else { None }
    } else if file_at(t, root, path_join(dirs[0], name)) {
        Some(path_join(dirs[0], name))
    } else if file_at(t, root, with_html_ext(dirs[0])) {
        Some(with_html_ext(dirs[0]))
    } else {
        template_choice(t, root, dirs.skip(1), name)
    }
}

fn find_name_start(v: &Vec<char>) -> (r: usize)
    ensures
        r == name_start(v@, v@.len() as int),
        r <= v@.len(),
{
    let mut i = v.len();
    while i > 0 && v[i - 1] != '/'
        invariant
            i <= v@.len(),
            name_start(v@, v@.len() as int) == name_start(v@, i as int),
        decreases i,
    {
        i -= 1;
    }
    i
}

fn has_file(t: &FsTree, root: EntryId, p: &str) -> (r: bool)
    requires
        t.wf(),
        t.valid_id(root),
    ensures
        r == file_at(t, root, p@),
{
    match t.get_file_id(Some(root), p) {
        Some(id) => true,
        None => false,
    }
}

/// `p` with its last component's extension made `html`.
pub fn html_ext(p: &str) -> (r: String)
    ensures
        r@ == with_html_ext(p@),
{
    let v = chars_of(p);
    let mut r = String::new();
    if v.len() == 0 {
        return r;
    }
    let start = find_name_start(&v);
    let mut name: Vec<char> = Vec::new();
    let mut k = start;
    while k < v.len()
        invariant
            start <= k <= v@.len(),
            name@ == v@.subrange(start as int, k as int),
        decreases v.len() - k,
    {
        name.push(v[k]);
        assert(v@.subrange(start as int, k + 1) =~= v@.subrange(start as int, k as int).push(v@[k as int]));
        k += 1;
    }
    assert(name@ =~= v@.skip(start as int));
    proof {
        reveal_strlit(".html");
        crate::fstree::lemma_last_index_bound(name@, '.');
    }
    match crate::fstree::find_last(&name, '.') {
        Some(d) if d > 0 => {
            push_chars(&mut r, &v, 0, start + d);
            assert(v@.subrange(0, (start + d) as int) =~= v@.take((start + d) as int));
        },
        _ => {
            push_chars(&mut r, &v, 0, v.len());
            assert(v@.subrange(0, v@.len() as int) =~= v@);
        },
    }
    push_str(&mut r, ".html");
    r
}

/// `p` and each of its parents, nearest first, the empty path last.
pub fn ancestors(p: &str) -> (r: Vec<String>)
    ensures
        r@.map_values(|s: String| s@) == path_ancestors(p@),
{
    let mut out: Vec<String> = Vec::new();
    let mut cur = chars_of(p);
    let ghost whole = path_ancestors(p@);
    assert(out@.map_values(|s: String| s@) =~= Seq::<Seq<char>>::empty());
    loop
        invariant
            whole == path_ancestors(p@),
            out@.map_values(|s: String| s@) + path_ancestors(cur@) == whole,
        decreases cur@.len(),
    {
        let mut s = String::new();
        push_chars(&mut s, &cur, 0, cur.len());
        assert(cur@.subrange(0, cur@.len() as int) =~= cur@);
        let ghost o0 = out@.map_values(|s: String| s@);
        out.push(s);
        assert(out@.map_values(|s: String| s@) =~= o0.push(cur@));
        if cur.len() == 0 {
            assert(path_ancestors(cur@) == seq![cur@]);
            assert(out@.map_values(|s: String| s@) =~= whole);
            return out;
        }
        let st = find_name_start(&cur);
        let mut parent: Vec<char> = Vec::new();
        if st > 0 {
            let mut k: usize = 0;
            while k < st - 1
                invariant
                    st > 0,
                    st <= cur@.len(),
                    k <= st - 1,
                    parent@ == cur@.take(k as int),
                decreases st - 1 - k,
            {
                parent.push(cur[k]);
                assert(cur@.take(k + 1) =~= cur@.take(k as int).push(cur@[k as int]));
                k += 1;
            }
        }
        assert(parent@ =~= if st > 0 { cur@.take(st - 1) } else { Seq::<char>::empty() });
        assert(path_ancestors(cur@) == seq![cur@] + path_ancestors(parent@));
        cur = parent;
    }
}

/// The template for a page of kind `kind` in the collection directory
/// `group`, as `template_choice` states, looked up under `root`.
pub fn find_template(t: &FsTree, root: EntryId, group: &str, kind: Kind) -> (r: Option<String>)
    requires
        t.wf(),
        t.valid_id(root),
    ensures
        opt_str(r) == template_choice(t, root, path_ancestors(group@), template_name_of(kind)),
{
    let dirs = ancestors(group);
    let name = template_name(kind);
    let ghost dv = dirs@.map_values(|s: String| s@);
    let mut i: usize = 0;
    assert(dv.skip(0) =~= dv);
    while i < dirs.len()
        invariant
            t.wf(),
            t.valid_id(root),
            i <= dirs@.len(),
            dv == dirs@.map_values(|s: String| s@),
            dv == path_ancestors(group@),
            name@ == template_name_of(kind),
            template_choice(t, root, dv, name@) == template_choice(t, root, dv.skip(i as int), name@),
        decreases dirs.len() - i,
    {
        assert(dv.skip(i as int)[0] == dirs@[i as int]@);
        assert(dv.skip(i as int).skip(1) =~= dv.skip(i + 1));
        let first = join(dirs[i].as_str(), name);
        if has_file(t, root, first.as_str()) {
            return Some(first);
        }
        let second = html_ext(dirs[i].as_str());
        if has_file(t, root, second.as_str()) {
            return Some(second);
        }
        i += 1;
    }
    proof {
        reveal_strlit("default.html");
    }
    if has_file(t, root, "default.html") {
        Some("default.html".to_owned())
    } else {
        None
    }
}

pub open spec fn opt_str(o: Option<String>) -> Option<Seq<char>> {
    match o {
        Some(s) => Some(s@),
        None => None,
    }
}

pub open spec fn ascii_alpha(c: char) -> bool {
    ('a' <= c && c <= 'z') || ('A' <= c && c <= 'Z')
}

pub open spec fn ascii_punct(c: char) -> bool {
    ('!' <= c && c <= '/') || (':' <= c && c <= '@') || ('[' <= c && c <= '`') || ('{' <= c && c <= '~')
}

/// The index of the first ASCII letter of `s` at or after `i`, or its length.
pub open spec fn first_alpha(s: Seq<char>, i: int) -> int
    decreases s.len() - i,
{
    if i < 0 || i >= s.len() {
        s.len() as int
    } else if ascii_alpha(s[i]) {
        i
    } else {
        first_alpha(s, i + 1)
    }
}

/// Where trailing ASCII punctuation of `s[..i]` starts.
pub open spec fn punct_tail(s: Seq<char>, lo: int, i: int) -> int
    decreases i - lo,
{
    if i <= lo || i > s.len() {
        i
    } else if ascii_punct(s[i - 1]) {
        punct_tail(s, lo, i - 1)
    } else {
        i
    }
}

/// `s` from its first ASCII letter on, without trailing ASCII punctuation.
pub open spec fn slug_trim(s: Seq<char>) -> Seq<char> {
    let a = first_alpha(s, 0);
    s.subrange(a, punct_tail(s, a, s.len() as int))
}

fn is_ascii_punct(c: char) -> (r: bool)
    ensures
        r == ascii_punct(c),
{
    ('!' <= c && c <= '/') || (':' <= c && c <= '@') || ('[' <= c && c <= '`') || ('{' <= c && c <= '~')
}

/// Trimming of names meant for URLs.
pub trait StringExt {
    /// The string from its first ASCII letter on, without trailing ASCII
    /// punctuation.
    fn slugify(&self) -> String;
}

impl StringExt for String {
    fn slugify(&self) -> (r: String)
        ensures
            r@ == slug_trim(self@),
    {
        let v = chars_of(self.as_str());
        let mut a: usize = 0;
        while a < v.len() && !(('a' <= v[a] && v[a] <= 'z') || ('A' <= v[a] && v[a] <= 'Z'))
            invariant
                a <= v@.len(),
                v@ == self@,
                first_alpha(v@, 0) == first_alpha(v@, a as int),
            decreases v.len() - a,
        {
            a += 1;
        }
        let mut b = v.len();
        while b > a && is_ascii_punct(v[b - 1])
            invariant
                a <= b <= v@.len(),
                v@ == self@,
                first_alpha(v@, 0) == a,
                punct_tail(v@, a as int, v@.len() as int) == punct_tail(v@, a as int, b as int),
            decreases b,
        {
            b -= 1;
        }
        let mut r = String::new();
        push_chars(&mut r, &v, a, b);
        r
    }
}

/// What became of an item when its page was placed.
#[derive(Clone, Copy, PartialEq, Eq, Structural, Debug)]
pub enum Placement {
    /// The item is a draft: nothing was done.
    Draft,
    /// The item makes no page of its own (a rendered data item).
    NoPage,
    /// The page's path, and its URL and template where they exist, are in
    /// the item's metadata.
    Placed,
    /// The item's `slug` holds a value that is no string.
    BadSlug,
}

/// Whether metadata `m` marks its item as a draft.
pub open spec fn is_draft(m: Map<Seq<char>, Value>) -> bool {
    m.contains_key("draft"@) && m["draft"@] == Value::Bool(true)
}

/// The slug of an item: its `slug` string, or else `fallback`.
pub open spec fn slug_for(m: Map<Seq<char>, Value>, fallback: Seq<char>) -> Seq<char> {
    if m.contains_key("slug"@) && m["slug"@] is String {
        m["slug"@]->String_0@
    } else {
        fallback
    }
}

/// Places the page of an item with metadata `meta`, as the site builder
/// does before rendering: a draft is left alone; a `slug` that is no string
/// is refused; otherwise the slug is the item's `slug` string or, where it
/// has none, the slug-trimmed file stem, which is stored. Where the item
/// makes a page, its output path goes under `permapath`, its URL under
/// `url` (where the path can be one) and `template` under `template`.
pub fn prepare_page(
    meta: &mut Metadata,
    kind: Kind,
    ext: Option<&str>,
    group: &str,
    stem: &String,
    rel: &str,
    root: &Url,
    template: Option<String>,
) -> (r: Placement)
    requires
        old(meta).wf(),
    ensures
        final(meta).wf(),
        is_draft(old(meta)@) ==> r == Placement::Draft && final(meta)@ == old(meta)@,
        !is_draft(old(meta)@) && old(meta)@.contains_key("slug"@) && !(old(meta)@["slug"@] is String)
            ==> r == Placement::BadSlug && final(meta)@ == old(meta)@,
        ({
            let m0 = old(meta)@;
            let slug = slug_for(m0, slug_trim(stem@));
            let loc = page_location(kind, ext matches Some(e) && rendered_ext(e@), group@, slug, rel@);
            !is_draft(m0) && !(m0.contains_key("slug"@) && !(m0["slug"@] is String)) ==> {
                &&& final(meta)@.contains_key("slug"@)
                &&& final(meta)@["slug"@] is String && final(meta)@["slug"@]->String_0@ == slug
                &&& (loc is None ==> r == Placement::NoPage && final(meta)@.dom() == m0.dom().insert("slug"@))
                &&& (loc matches Some((p, u, d)) ==> {
                    &&& r == Placement::Placed
                    &&& final(meta)@.contains_key("permapath"@)
                    &&& final(meta)@["permapath"@] is Path && final(meta)@["permapath"@]->Path_0@ == p
                    &&& (valid_url(u) ==> final(meta)@.contains_key("url"@) && final(meta)@["url"@] is String
                        && final(meta)@["url"@]->String_0@ == prepended(
                            relative_part_of(if d { appended(u, "/"@) } else { u }),
                            root@,
                        ))
                    &&& (template matches Some(tp) ==> final(meta)@.contains_key("template"@)
                        && final(meta)@["template"@] == Value::Path(tp))
                })
            }
        }),
{
    proof {
        reveal_strlit("permapath");
        reveal_strlit("slug");
        reveal_strlit("url");
        reveal_strlit("template");
        assert("permapath"@[0] == 'p' && "slug"@[0] == 's' && "url"@[0] == 'u' && "template"@[0] == 't');
        assert("permapath"@ != "slug"@ && "url"@ != "slug"@ && "template"@ != "slug"@);
        assert("url"@ != "permapath"@ && "template"@ != "permapath"@ && "template"@ != "url"@);
    }
    match meta.get_raw("draft") {
        Some(Value::Bool(true)) => {
            return Placement::Draft;
        },
        _ => {},
    }
    let slug: String = match meta.get_raw("slug") {
        Some(Value::String(s)) => s.clone(),
        Some(_) => {
            return Placement::BadSlug;
        },
        None => {
            let s = stem.slugify();
            let stored = s.clone();
            meta.insert_raw("slug".to_owned(), Value::String(stored));
            s
        },
    };
    let ghost m1 = meta@;
    assert(m1.contains_key("slug"@) && m1["slug"@] is String && m1["slug"@]->String_0@ == slug@);
    let rendered = is_rendered(ext);
    let loc = locate(kind, rendered, group, slug.as_str(), rel);
    match loc {
        None => {
            assert(meta@.dom() =~= old(meta)@.dom().insert("slug"@));
            Placement::NoPage
        },
        Some((path, url_path, dir)) => {
            let url = page_url(root, url_path.as_str(), dir);
            meta.insert_raw("permapath".to_owned(), Value::Path(path));
            match url {
                Some(u) => {
                    meta.insert_raw("url".to_owned(), Value::String(u.into_string()));
                },
                None => {},
            }
            match template {
                Some(tp) => {
                    meta.insert_raw("template".to_owned(), Value::Path(tp));
                },
                None => {},
            }
            Placement::Placed
        },
    }
}

} // verus!
