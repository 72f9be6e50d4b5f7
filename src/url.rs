//! URL strings: validation, scheme detection, and joining.
use vstd::prelude::*;
use crate::text::{chars_of, push_char, push_chars};

verus! {

/// Whether the character `c` may appear in a URL: the scheme, path, query
/// and fragment characters, together with the bracket and brace characters
/// that browsers commonly send unencoded. Only ASCII characters can.
pub open spec fn url_char(c: char) -> bool {
    ||| ('A' <= c && c <= 'Z')
    ||| ('a' <= c && c <= 'z')
    ||| ('0' <= c && c <= '9')
    ||| c == '+' || c == '-' || c == '.' || c == '_' || c == '~' || c == '%'
    ||| c == '!' || c == '$' || c == '&' || c == '\'' || c == '(' || c == ')'
    ||| c == '*' || c == ',' || c == ';' || c == '='
    ||| c == ':' || c == '@' || c == '/' || c == '[' || c == ']'
    ||| c == '?' || c == '{' || c == '}' || c == '\\' || c == '^' || c == '`'
    ||| c == '|' || c == '#'
}

/// Whether the byte `b` may appear in a URL.
pub open spec fn url_byte(b: u8) -> bool {
    url_char(b as char)
}

/// Whether every character of `s` may appear in a URL.
pub open spec fn valid_url(s: Seq<char>) -> bool {
    forall|i: int| 0 <= i < s.len() ==> url_char(#[trigger] s[i])
}

/// Characters that end the search for a scheme separator.
pub open spec fn scheme_stop(c: char) -> bool {
    c == ':' || c == '?' || c == '/'
}

/// `s[i]` is the `:` that ends a scheme: it is the first `:`, `?` or `/` of
/// `s`, and no `#` comes before it.
pub open spec fn scheme_colon_at(s: Seq<char>, i: int) -> bool {
    &&& 0 <= i < s.len()
    &&& s[i] == ':'
    &&& forall|j: int| 0 <= j < i ==> !scheme_stop(#[trigger] s[j]) && s[j] != '#'
}

pub open spec fn has_scheme(s: Seq<char>) -> bool {
    exists|i: int| scheme_colon_at(s, i)
}

/// The first `/` of `s` at or after `p`, or the length of `s`.
pub open spec fn next_slash(s: Seq<char>, p: int) -> int
    decreases s.len() - p,
{
    if p >= s.len() {
        s.len() as int
    } else if p >= 0 && s[p] == '/' {
        p
    } else {
        next_slash(s, p + 1)
    }
}

/// Where `s` continues after its scheme, the `:` that follows it, and an
/// authority (`//` and what follows up to the next `/`) where one comes
/// next; 0 where `s` has no scheme.
pub open spec fn after_authority(s: Seq<char>) -> int {
    if has_scheme(s) {
        let c = choose|i: int| scheme_colon_at(s, i);
        if c + 2 < s.len() && s[c + 1] == '/' && s[c + 2] == '/' {
            next_slash(s, c + 3)
        } else {
            c + 1
        }
    } else {
        0
    }
}

/// `s` without its leading slashes.
pub open spec fn trim_leading_slashes(s: Seq<char>) -> Seq<char>
    decreases s.len(),
{
    if s.len() > 0 && s[0] == '/' {
        trim_leading_slashes(s.skip(1))
    } else {
        s
    }
}

/// The part of `s` after its scheme and authority, without leading
/// slashes.
pub open spec fn relative_part_of(s: Seq<char>) -> Seq<char> {
    trim_leading_slashes(s.skip(after_authority(s)))
}

pub open spec fn starts_with_slash(s: Seq<char>) -> bool {
    s.len() > 0 && s[0] == '/'
}

pub open spec fn ends_with_slash(s: Seq<char>) -> bool {
    s.len() > 0 && s[s.len() - 1] == '/'
}

pub open spec fn is_absolute_url(s: Seq<char>) -> bool {
    starts_with_slash(s) || has_scheme(s)
}

/// `base` joined with `url`: a URL with a scheme replaces `base`; otherwise
/// the two are joined with exactly one `/` between them.
pub open spec fn appended(base: Seq<char>, url: Seq<char>) -> Seq<char> {
    if has_scheme(url) {
        url
    } else if ends_with_slash(base) && starts_with_slash(url) {
        base + url.skip(1)
    } else if ends_with_slash(base) || starts_with_slash(url) {
        base + url
    } else {
        base + seq!['/'] + url
    }
}

/// `url` prefixed by `base`, unless `url` has a scheme of its own.
pub open spec fn prepended(url: Seq<char>, base: Seq<char>) -> Seq<char> {
    if has_scheme(url) {
        url
    } else {
        appended(base, url)
    }
}

proof fn lemma_scheme_colon_unique(s: Seq<char>, i: int, k: int)
    requires
        scheme_colon_at(s, i),
        scheme_colon_at(s, k),
    ensures
        i == k,
{
    if i < k {
        assert(scheme_stop(s[i]));
    } else if k < i {
        assert(scheme_stop(s[k]));
    }
}

proof fn lemma_skip_valid(s: Seq<char>, k: int)
    requires
        valid_url(s),
        0 <= k <= s.len(),
    ensures
        valid_url(s.skip(k)),
{
    assert forall|i: int| 0 <= i < s.skip(k).len() implies url_char(#[trigger] s.skip(k)[i]) by {
        assert(s.skip(k)[i] == s[i + k]);
    }
}

proof fn lemma_trim_valid(s: Seq<char>)
    requires
        valid_url(s),
    ensures
        valid_url(trim_leading_slashes(s)),
    decreases s.len(),
{
    if s.len() > 0 && s[0] == '/' {
        lemma_skip_valid(s, 1);
        lemma_trim_valid(s.skip(1));
    }
}

proof fn lemma_appended_valid(base: Seq<char>, url: Seq<char>)
    requires
        valid_url(base),
        valid_url(url),
    ensures
        valid_url(appended(base, url)),
{
    if url.len() > 0 {
        lemma_skip_valid(url, 1);
    }
    let r = appended(base, url);
    if !has_scheme(url) && !(ends_with_slash(base) || starts_with_slash(url)) {
        assert forall|i: int| 0 <= i < r.len() implies url_char(#[trigger] r[i]) by {
            if i < base.len() {
                assert(r[i] == base[i]);
            } else if i == base.len() {
                assert(r[i] == '/');
            } else {
                assert(r[i] == url[i - base.len() - 1]);
            }
        }
    } else if !has_scheme(url) && ends_with_slash(base) && starts_with_slash(url) {
        let t = url.skip(1);
        assert forall|i: int| 0 <= i < r.len() implies url_char(#[trigger] r[i]) by {
            if i < base.len() {
                assert(r[i] == base[i]);
            } else {
                assert(r[i] == t[i - base.len()]);
            }
        }
    } else if !has_scheme(url) {
        assert forall|i: int| 0 <= i < r.len() implies url_char(#[trigger] r[i]) by {
            if i < base.len() {
                assert(r[i] == base[i]);
            } else {
                assert(r[i] == url[i - base.len()]);
            }
        }
    }
}

/// Whether `c` may appear in a URL.
pub fn is_url_char(c: &u8) -> (r: bool)
    ensures
        r == url_byte(*c),
{
    is_url_char_c(*c as char)
}

fn is_url_char_c(c: char) -> (r: bool)
    ensures
        r == url_char(c),
{
    ('A' <= c && c <= 'Z') || ('a' <= c && c <= 'z') || ('0' <= c && c <= '9') || c == '+'
        || c == '-' || c == '.' || c == '_' || c == '~' || c == '%' || c == '!' || c == '$'
        || c == '&' || c == '\'' || c == '(' || c == ')' || c == '*' || c == ','
        || c == ';' || c == '=' || c == ':' || c == '@' || c == '/' || c == '['
        || c == ']' || c == '?' || c == '{' || c == '}' || c == '\\' || c == '^'
        || c == '`' || c == '|' || c == '#'
}

/// The index of the scheme's `:` in `v`, if `v` has a scheme.
fn scheme_colon(v: &Vec<char>) -> (r: Option<usize>)
    ensures
        match r {
            Some(i) => scheme_colon_at(v@, i as int),
            None => !has_scheme(v@),
        },
{
    let mut i: usize = 0;
    while i < v.len()
        invariant
            i <= v@.len(),
            forall|j: int| 0 <= j < i ==> !scheme_stop(#[trigger] v@[j]) && v@[j] != '#',
        decreases v.len() - i,
    {
        let c = v[i];
        if c == ':' {
            return Some(i);
        }
        if c == '?' || c == '/' || c == '#' {
            assert forall|k: int| !scheme_colon_at(v@, k) by {
                if scheme_colon_at(v@, k) {
                    if k < i {
                        assert(scheme_stop(v@[k]));
                    } else if k > i {
                        if c == '#' {
                            assert(v@[i as int] == '#');
                        } else {
                            assert(scheme_stop(v@[i as int]));
                        }
                    }
                }
            }
            return None;
        }
        i += 1;
    }
    None
}

/// The number of slashes at the start of `v[from..]`.
fn leading_slashes_end(v: &Vec<char>, from: usize) -> (r: usize)
    requires
        from <= v@.len(),
    ensures
        from <= r <= v@.len(),
        trim_leading_slashes(v@.skip(from as int)) == v@.skip(r as int),
{
    let mut i = from;
    while i < v.len() && v[i] == '/'
        invariant
            from <= i <= v@.len(),
            trim_leading_slashes(v@.skip(from as int)) == trim_leading_slashes(v@.skip(i as int)),
        decreases v.len() - i,
    {
        assert(v@.skip(i as int).skip(1) =~= v@.skip(i + 1));
        i += 1;
    }
    i
}

/// `base` joined in turn with each of `urls`.
pub open spec fn appended_all(base: Seq<char>, urls: Seq<Seq<char>>) -> Seq<char>
    decreases urls.len(),
{
    if urls.len() == 0 {
        base
    } else {
        appended(appended_all(base, urls.drop_last()), urls.last())
    }
}

/// `base` joined with `url`, as `appended` states.
fn joined(base: &Vec<char>, url: &Vec<char>) -> (r: String)
    requires
        valid_url(base@),
        valid_url(url@),
    ensures
        r@ == appended(base@, url@),
        valid_url(r@),
{
    proof {
        lemma_appended_valid(base@, url@);
    }
    let mut r = String::new();
    if scheme_colon(url).is_some() {
        push_chars(&mut r, url, 0, url.len());
        assert(url@.subrange(0, url@.len() as int) =~= url@);
        return r;
    }
    push_chars(&mut r, base, 0, base.len());
    assert(base@.subrange(0, base@.len() as int) =~= base@);
    let ends = base.len() > 0 && base[base.len() - 1] == '/';
    let starts = url.len() > 0 && url[0] == '/';
    if ends && starts {
        push_chars(&mut r, url, 1, url.len());
        assert(url@.subrange(1, url@.len() as int) =~= url@.skip(1));
    } else {
        if !ends && !starts {
            push_char(&mut r, '/');
        }
        push_chars(&mut r, url, 0, url.len());
        assert(url@.subrange(0, url@.len() as int) =~= url@);
    }
    r
}

/// A URL string: every character of it is a URL character.
pub struct Url {
    inner: String,
}

/// An owned, growable URL string: every character of it is a URL character.
pub struct UrlBuf {
    inner: String,
}

impl View for Url {
    type V = Seq<char>;

    closed spec fn view(&self) -> Seq<char> {
        self.inner@
    }
}

impl View for UrlBuf {
    type V = Seq<char>;

    closed spec fn view(&self) -> Seq<char> {
        self.inner@
    }
}

impl Url {
    #[verifier::type_invariant]
    spec fn inv(&self) -> bool {
        valid_url(self.inner@)
    }

    /// Whether every character of `s` may appear in a URL.
    pub fn is_valid_str(s: &str) -> (r: bool)
        ensures
            r == valid_url(s@),
    {
        let v = chars_of(s);
        let mut i: usize = 0;
        while i < v.len()
            invariant
                i <= v@.len(),
                v@ == s@,
                forall|j: int| 0 <= j < i ==> url_char(#[trigger] v@[j]),
            decreases v.len() - i,
        {
            if !is_url_char_c(v[i]) {
                return false;
            }
            i += 1;
        }
        true
    }

    /// The URL `from`; `None` where it holds a character that a URL cannot.
    pub fn try_new(from: &str) -> (r: Option<Url>)
        ensures
            r is Some <==> valid_url(from@),
            r matches Some(u) ==> u@ == from@,
    {
        if Self::is_valid_str(from) {
            Some(Url { inner: from.to_owned() })
        } else {
            None
        }
    }

    /// The URL `from`, which must be valid.
    pub fn new(from: &str) -> (r: Url)
        requires
            valid_url(from@),
        ensures
            r@ == from@,
    {
        Url { inner: from.to_owned() }
    }

    /// The URL held by `s`, which must be valid.
    pub fn from(s: String) -> (r: Url)
        requires
            valid_url(s@),
        ensures
            r@ == s@,
    {
        Url { inner: s }
    }

    /// The URL held by `s`; `s` itself back where it is not a valid URL.
    pub fn try_from(s: String) -> (r: Result<Url, String>)
        ensures
            r is Ok <==> valid_url(s@),
            r matches Ok(u) ==> u@ == s@,
            r matches Err(e) ==> e@ == s@,
    {
        if Self::is_valid_str(s.as_str()) {
            Ok(Url { inner: s })
        } else {
            Err(s)
        }
    }

    /// The string that this URL holds.
    pub fn into(self) -> (r: String)
        ensures
            r@ == self@,
    {
        self.inner
    }

    pub fn as_str(&self) -> (r: &str)
        ensures
            r@ == self@,
    {
        self.inner.as_str()
    }

    pub fn to_url_buf(&self) -> (r: UrlBuf)
        ensures
            r@ == self@,
    {
        proof {
            use_type_invariant(self);
        }
        UrlBuf { inner: self.inner.clone() }
    }

    /// The scheme of this URL: what precedes the first `:`, where that `:`
    /// comes before any `?`, `/` or `#`.
    pub fn scheme(&self) -> (r: Option<String>)
        ensures
            r is Some <==> has_scheme(self@),
            r matches Some(s) ==> scheme_colon_at(self@, s@.len() as int) && s@ == self@.take(
                s@.len() as int,
            ),
    {
        let v = chars_of(self.as_str());
        match scheme_colon(&v) {
            Some(i) => {
                let mut s = String::new();
                push_chars(&mut s, &v, 0, i);
                assert(v@.subrange(0, i as int) =~= v@.take(i as int));
                Some(s)
            },
            None => None,
        }
    }

    /// This URL without its scheme, its authority and leading slashes.
    pub fn relative_part(&self) -> (r: Url)
        ensures
            r@ == relative_part_of(self@),
    {
        proof {
            use_type_invariant(self);
        }
        let v = chars_of(self.as_str());
        let start: usize = match scheme_colon(&v) {
            Some(i) => {
                proof {
                    assert forall|k: int| scheme_colon_at(v@, k) implies k == i by {
                        lemma_scheme_colon_unique(v@, i as int, k);
                    }
                }
                assert(i < v.len());
                if v.len() - i > 2 && v[i + 1] == '/' && v[i + 2] == '/' {
                    let mut q = i + 3;
                    while q < v.len() && v[q] != '/'
                        invariant
                            i + 3 <= q <= v@.len(),
                            next_slash(v@, i + 3) == next_slash(v@, q as int),
                        decreases v.len() - q,
                    {
                        q += 1;
                    }
                    q
                } else {
                    i + 1
                }
            },
            None => 0,
        };
        assert(v@.skip(0) =~= v@);
        assert(after_authority(v@) == start);
        let end = leading_slashes_end(&v, start);
        let mut s = String::new();
        push_chars(&mut s, &v, end, v.len());
        assert(v@.subrange(end as int, v@.len() as int) =~= v@.skip(end as int));
        proof {
            lemma_skip_valid(v@, start as int);
            lemma_trim_valid(v@.skip(start as int));
        }
        Url { inner: s }
    }

    pub fn is_valid(&self) -> (r: bool)
        ensures
            r == valid_url(self@),
            r,
    {
        proof {
            use_type_invariant(self);
        }
        Self::is_valid_str(self.as_str())
    }

    /// Whether this URL starts with `/` or has a scheme.
    pub fn is_absolute(&self) -> (r: bool)
        ensures
            r == is_absolute_url(self@),
    {
        let v = chars_of(self.as_str());
        (v.len() > 0 && v[0] == '/') || self.scheme().is_some()
    }

    pub fn is_relative(&self) -> (r: bool)
        ensures
            r == !is_absolute_url(self@),
    {
        !self.is_absolute()
    }
}

impl UrlBuf {
    #[verifier::type_invariant]
    spec fn inv(&self) -> bool {
        valid_url(self.inner@)
    }

    /// An empty URL.
    pub fn new() -> (r: UrlBuf)
        ensures
            r@ == Seq::<char>::empty(),
    {
        UrlBuf { inner: String::new() }
    }

    /// The URL held by `value`, which must be valid.
    pub fn from(value: String) -> (r: UrlBuf)
        requires
            valid_url(value@),
        ensures
            r@ == value@,
    {
        UrlBuf { inner: value }
    }

    /// An owned copy of `url`.
    pub fn from_url(url: &Url) -> (r: UrlBuf)
        ensures
            r@ == url@,
    {
        url.to_url_buf()
    }

    pub fn as_str(&self) -> (r: &str)
        ensures
            r@ == self@,
    {
        self.inner.as_str()
    }

    pub fn as_url(&self) -> (r: Url)
        ensures
            r@ == self@,
    {
        proof {
            use_type_invariant(self);
        }
        Url { inner: self.inner.clone() }
    }

    /// This URL as an immutable `Url`.
    pub fn into_arc_url(self) -> (r: Url)
        ensures
            r@ == self@,
    {
        proof {
            use_type_invariant(&self);
        }
        Url { inner: self.inner }
    }

    /// The string that this URL holds.
    pub fn into_string(self) -> (r: String)
        ensures
            r@ == self@,
    {
        self.inner
    }

    /// Prefixes this URL with `url`, unless this URL has a scheme.
    pub fn prepend(&mut self, url: &Url)
        ensures
            final(self)@ == prepended(old(self)@, url@),
    {
        proof {
            use_type_invariant(&*self);
            use_type_invariant(url);
        }
        let me = chars_of(self.inner.as_str());
        if scheme_colon(&me).is_some() {
            return;
        }
        let base = chars_of(url.as_str());
        let r = joined(&base, &me);
        *self = UrlBuf { inner: r };
    }

    /// Joins `url` onto this URL; a `url` with a scheme replaces it.
    pub fn append(&mut self, url: &Url)
        ensures
            final(self)@ == appended(old(self)@, url@),
    {
        proof {
            use_type_invariant(&*self);
            use_type_invariant(url);
        }
        let me = chars_of(self.inner.as_str());
        let other = chars_of(url.as_str());
        let r = joined(&me, &other);
        *self = UrlBuf { inner: r };
    }

    /// Appends each of `urls` in turn.
    pub fn extend(&mut self, urls: &Vec<Url>)
        ensures
            final(self)@ == appended_all(old(self)@, urls@.map_values(|u: Url| u@)),
    {
        let ghost start = self@;
        let ghost views = urls@.map_values(|u: Url| u@);
        let mut i: usize = 0;
        while i < urls.len()
            invariant
                i <= urls@.len(),
                views == urls@.map_values(|u: Url| u@),
                self@ == appended_all(start, views.take(i as int)),
            decreases urls.len() - i,
        {
            self.append(&urls[i]);
            assert(views.take(i + 1).drop_last() =~= views.take(i as int));
            i += 1;
        }
        assert(views.take(urls@.len() as int) =~= views);
    }

    /// Prefixes this URL with `/`, unless it has a scheme.
    pub fn make_absolute(&mut self)
        ensures
            final(self)@ == prepended(old(self)@, seq!['/']),
    {
        proof {
            reveal_strlit("/");
            assert(url_char("/"@[0]));
        }
        let slash = Url::new("/");
        self.prepend(&slash);
    }

    /// Strips this URL's scheme, authority and leading slashes.
    pub fn make_relative(&mut self)
        ensures
            final(self)@ == relative_part_of(old(self)@),
    {
        let relative = self.as_url().relative_part();
        *self = relative.to_url_buf();
    }
}

} // verus!
