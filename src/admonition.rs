//! Rewrites `!name: title` blocks at line starts into titled containers.
use vstd::prelude::*;
use crate::text::{chars_of, push_char, push_chars, push_str};

verus! {

/// Characters with the Unicode `White_Space` property.
pub open spec fn is_ws(c: char) -> bool {
    ||| c == '\t' || c == '\n' || c == '\x0B' || c == '\x0C' || c == '\r' || c == ' '
    ||| c == '\u{85}' || c == '\u{A0}' || c == '\u{1680}'
    ||| ('\u{2000}' <= c && c <= '\u{200A}')
    ||| c == '\u{2028}' || c == '\u{2029}' || c == '\u{202F}' || c == '\u{205F}' || c == '\u{3000}'
}

fn is_whitespace(c: char) -> (r: bool)
    ensures
        r == is_ws(c),
{
    c == '\t' || c == '\n' || c == '\x0B' || c == '\x0C' || c == '\r' || c == ' ' || c == '\u{85}'
        || c == '\u{A0}' || c == '\u{1680}' || ('\u{2000}' <= c && c <= '\u{200A}') || c
        == '\u{2028}' || c == '\u{2029}' || c == '\u{202F}' || c == '\u{205F}' || c == '\u{3000}'
}

pub open spec fn trim_start(s: Seq<char>) -> Seq<char>
    decreases s.len(),
{
    if s.len() > 0 && is_ws(s[0]) {
        trim_start(s.skip(1))
    } else {
        s
    }
}

pub open spec fn trim_end(s: Seq<char>) -> Seq<char>
    decreases s.len(),
{
    if s.len() > 0 && is_ws(s.last()) {
        trim_end(s.drop_last())
    } else {
        s
    }
}

/// `s` without leading and trailing whitespace.
pub open spec fn trim(s: Seq<char>) -> Seq<char> {
    trim_end(trim_start(s))
}

/// Whether position `i` of `s` starts a line.
pub open spec fn line_start(s: Seq<char>, i: int) -> bool {
    i == 0 || (0 < i <= s.len() && s[i - 1] == '\n')
}

/// The first newline of `s` at or after `p`, or the length of `s`.
pub open spec fn next_newline(s: Seq<char>, p: int) -> int
    decreases s.len() - p,
{
    if p >= s.len() {
        s.len() as int
    } else if p >= 0 && s[p] == '\n' {
        p
    } else {
        next_newline(s, p + 1)
    }
}

/// The first `:` or newline of `s` at or after `p`, or the length of `s`.
pub open spec fn next_colon_or_newline(s: Seq<char>, p: int) -> int
    decreases s.len() - p,
{
    if p >= s.len() {
        s.len() as int
    } else if p >= 0 && (s[p] == '\n' || s[p] == ':') {
        p
    } else {
        next_colon_or_newline(s, p + 1)
    }
}

/// Where the body of an admonition that starts at `p` ends: it spans empty
/// lines and lines indented by two spaces.
pub open spec fn body_end(s: Seq<char>, p: int) -> int
    decreases s.len() - p,
{
    if p < 0 || p >= s.len() {
        if p < 0 { 0 } else { s.len() as int }
    } else if s[p] == '\n' {
        body_end(s, p + 1)
    } else if p + 1 < s.len() && s[p] == ' ' && s[p + 1] == ' ' {
        let q = next_newline(s, p);
        if p <= q < s.len() {
            body_end(s, q + 1)
        } else {
            s.len() as int
        }
    } else {
        p
    }
}

/// The header of an admonition whose name starts at `start`: its name (up
/// to the first `:` or newline), its title (after a `:`, up to the end of
/// the line), and where the header ends (after that line).
pub open spec fn header(s: Seq<char>, start: int) -> (Seq<char>, Seq<char>, int) {
    let m = next_colon_or_newline(s, start);
    if m < s.len() && s[m] == ':' {
        let nl = next_newline(s, m + 1);
        let end = if nl < s.len() { nl + 1 } else { s.len() as int };
        (trim(s.subrange(start, m)), trim(s.subrange(m + 1, nl)), end)
    } else if m < s.len() {
        (trim(s.subrange(start, m)), Seq::empty(), m + 1)
    } else {
        (trim(s.subrange(start, s.len() as int)), Seq::empty(), s.len() as int)
    }
}

/// The markup of one admonition.
pub open spec fn render(name: Seq<char>, title: Seq<char>, inner: Seq<char>) -> Seq<char> {
    "<div class=\"admonition "@ + name + "\">\n<span class=\"title "@ + name + "\">\n\n"@ + title
        + "\n\n</span>\n\n"@ + inner + "\n</div>\n\n"@
}

/// The rewritten text of `s` from position `i` on.
pub open spec fn transform(s: Seq<char>, i: int) -> Seq<char>
    decreases s.len() - i,
{
    if i < 0 || i >= s.len() {
        Seq::empty()
    } else if s[i] == '!' && line_start(s, i) {
        let (name, title, h) = header(s, i + 1);
        let e = body_end(s, h);
        if i < e <= s.len() && i < h <= e {
            render(name, title, s.subrange(h, e)) + transform(s, e)
        } else {
            Seq::empty()
        }
    } else {
        seq![s[i]] + transform(s, i + 1)
    }
}

pub(crate) proof fn lemma_next_newline(s: Seq<char>, p: int)
    requires
        0 <= p <= s.len(),
    ensures
        p <= next_newline(s, p) <= s.len(),
        next_newline(s, p) < s.len() ==> s[next_newline(s, p)] == '\n',
        forall|q: int| p <= q < next_newline(s, p) ==> s[q] != '\n',
    decreases s.len() - p,
{
    if p < s.len() && s[p] != '\n' {
        lemma_next_newline(s, p + 1);
    }
}

proof fn lemma_body_end(s: Seq<char>, p: int)
    requires
        0 <= p <= s.len(),
    ensures
        p <= body_end(s, p) <= s.len(),
    decreases s.len() - p,
{
    if p < s.len() {
        if s[p] == '\n' {
            lemma_body_end(s, p + 1);
        } else if p + 1 < s.len() && s[p] == ' ' && s[p + 1] == ' ' {
            lemma_next_newline(s, p);
            let q = next_newline(s, p);
            if q < s.len() {
                lemma_body_end(s, q + 1);
            }
        }
    }
}

/// The first newline of `v` at or after `p`, or its length.
pub(crate) fn find_newline(v: &Vec<char>, p: usize) -> (r: usize)
    requires
        p <= v@.len(),
    ensures
        r == next_newline(v@, p as int),
{
    let mut q = p;
    while q < v.len() && v[q] != '\n'
        invariant
            p <= q <= v@.len(),
            next_newline(v@, p as int) == next_newline(v@, q as int),
        decreases v.len() - q,
    {
        q += 1;
    }
    q
}

/// Whether position `i` of `v` starts a line.
pub fn is_line_start(i: usize, v: &Vec<char>) -> (r: bool)
    requires
        i <= v@.len(),
    ensures
        r == line_start(v@, i as int),
{
    i == 0 || v[i - 1] == '\n'
}

/// `v[from..to]` without leading and trailing whitespace, as a range.
pub(crate) fn trim_range(v: &Vec<char>, from: usize, to: usize) -> (r: (usize, usize))
    requires
        from <= to <= v@.len(),
    ensures
        from <= r.0 <= r.1 <= to,
        v@.subrange(r.0 as int, r.1 as int) == trim(v@.subrange(from as int, to as int)),
{
    let mut a = from;
    while a < to && is_whitespace(v[a])
        invariant
            from <= a <= to <= v@.len(),
            trim_start(v@.subrange(from as int, to as int)) == trim_start(v@.subrange(a as int, to as int)),
        decreases to - a,
    {
        assert(v@.subrange(a as int, to as int).skip(1) =~= v@.subrange(a + 1, to as int));
        a += 1;
    }
    let mut b = to;
    while b > a && is_whitespace(v[b - 1])
        invariant
            a <= b <= to,
            to <= v@.len(),
            trim_end(v@.subrange(a as int, to as int)) == trim_end(v@.subrange(a as int, b as int)),
        decreases b,
    {
        assert(v@.subrange(a as int, b as int).drop_last() =~= v@.subrange(a as int, b - 1));
        b -= 1;
    }
    (a, b)
}

/// The name, title and end of the header that starts at `start`, each of
/// the first two as a range of `v`.
fn parse_admonition_header(v: &Vec<char>, start: usize) -> (r: ((usize, usize), (usize, usize), usize))
    requires
        start <= v@.len(),
    ensures
        v@.subrange(r.0.0 as int, r.0.1 as int) == header(v@, start as int).0,
        v@.subrange(r.1.0 as int, r.1.1 as int) == header(v@, start as int).1,
        r.2 == header(v@, start as int).2,
        r.0.0 <= r.0.1 <= v@.len(),
        r.1.0 <= r.1.1 <= v@.len(),
        start <= r.2 <= v@.len(),
{
    let mut m = start;
    while m < v.len() && v[m] != '\n' && v[m] != ':'
        invariant
            start <= m <= v@.len(),
            next_colon_or_newline(v@, start as int) == next_colon_or_newline(v@, m as int),
        decreases v.len() - m,
    {
        m += 1;
    }
    if m < v.len() && v[m] == ':' {
        let nl = find_newline(v, m + 1);
        proof {
            lemma_next_newline(v@, m + 1);
        }
        let end = if nl < v.len() { nl + 1 } else { v.len() };
        let name = trim_range(v, start, m);
        let title = trim_range(v, m + 1, nl);
        (name, title, end)
    } else if m < v.len() {
        let name = trim_range(v, start, m);
        assert(v@.subrange(0, 0) =~= Seq::<char>::empty());
        (name, (0, 0), m + 1)
    } else {
        let name = trim_range(v, start, v.len());
        assert(v@.subrange(0, 0) =~= Seq::<char>::empty());
        (name, (0, 0), v.len())
    }
}

/// Where the body of an admonition that starts at `p` ends.
fn find_admonition_end(v: &Vec<char>, p: usize) -> (r: usize)
    requires
        p <= v@.len(),
    ensures
        r == body_end(v@, p as int),
{
    let mut q = p;
    loop
        invariant
            p <= q <= v@.len(),
            body_end(v@, p as int) == body_end(v@, q as int),
        decreases v.len() - q,
    {
        if q < v.len() && v[q] == '\n' {
            q += 1;
        } else if q < v.len() && q + 1 < v.len() && v[q] == ' ' && v[q + 1] == ' ' {
            let nl = find_newline(v, q);
            proof {
                lemma_next_newline(v@, q as int);
            }
            if nl < v.len() {
                q = nl + 1;
            } else {
                return v.len();
            }
        } else {
            return q;
        }
    }
}

/// A unit type for the admonition rewriting stage.
#[derive(Clone, Copy, Debug, Default)]
pub struct Admonition;

impl Admonition {
    /// Rewrites each `!` at the start of a line into a titled container: the
    /// name runs to the first `:` or newline; after a `:`, the title runs to
    /// the first blank line; the body is the empty and two-space-indented
    /// lines that follow. All other text is kept as it is.
    pub fn preprocess(&self, input: &str) -> (r: String)
        ensures
            r@ == transform(input@, 0),
    {
        let v = chars_of(input);
        let mut out = String::new();
        let mut i: usize = 0;
        while i < v.len()
            invariant
                i <= v@.len(),
                v@ == input@,
                out@ + transform(v@, i as int) == transform(v@, 0),
            decreases v.len() - i,
        {
            if v[i] == '!' && is_line_start(i, &v) {
                let (name, title, h) = parse_admonition_header(&v, i + 1);
                let e = find_admonition_end(&v, h);
                proof {
                    lemma_body_end(v@, h as int);
                    let hd = header(v@, i + 1);
                    assert(h > i);
                    assert(transform(v@, i as int) == render(hd.0, hd.1, v@.subrange(h as int, e as int)) + transform(v@, e as int));
                }
                let ghost o0 = out@;
                push_str(&mut out, "<div class=\"admonition ");
                push_chars(&mut out, &v, name.0, name.1);
                push_str(&mut out, "\">\n<span class=\"title ");
                push_chars(&mut out, &v, name.0, name.1);
                push_str(&mut out, "\">\n\n");
                push_chars(&mut out, &v, title.0, title.1);
                push_str(&mut out, "\n\n</span>\n\n");
                push_chars(&mut out, &v, h, e);
                push_str(&mut out, "\n</div>\n\n");
                proof {
                    let hd = header(v@, i + 1);
                    assert(out@ =~= o0 + render(hd.0, hd.1, v@.subrange(h as int, e as int)));
                }
                i = e;
            } else {
                push_char(&mut out, v[i]);
                i += 1;
            }
        }
        assert(out@ =~= out@ + transform(v@, i as int));
        out
    }
}

} // verus!
