//! Small text helpers: template detection, slug reversal and extensions.
use vstd::prelude::*;
use crate::text::{chars_of, push_char, push_chars};

verus! {

/// Whether `s` holds `{{` or `{%`.
pub open spec fn has_template_marker(s: Seq<char>) -> bool {
    exists|i: int| 0 <= i < s.len() - 1 && #[trigger] s[i] == '{' && (s[i + 1] == '{' || s[i + 1] == '%')
}

/// Whether `input` is likely to contain a template: it holds `{{` or `{%`.
pub fn is_template(input: &str) -> (r: bool)
    ensures
        r == has_template_marker(input@),
{
    let v = chars_of(input);
    let mut i: usize = 0;
    while i < v.len() && v.len() - i > 1
        invariant
            v@ == input@,
            forall|j: int| 0 <= j < i && j < v@.len() - 1 ==> !(#[trigger] v@[j] == '{' && (v@[j + 1] == '{'
                || v@[j + 1] == '%')),
        decreases v.len() - i,
    {
        if v[i] == '{' && (v[i + 1] == '{' || v[i + 1] == '%') {
            return true;
        }
        i += 1;
    }
    false
}

/// `s` with each `-` turned into a space.
pub open spec fn deslugged(s: Seq<char>) -> Seq<char> {
    s.map_values(|c: char| if c == '-' { ' ' } else { c })
}

/// Turns each `-` of `value` into a space.
pub fn deslug(value: &str) -> (r: String)
    ensures
        r@ == deslugged(value@),
{
    let v = chars_of(value);
    let mut r = String::new();
    let mut i: usize = 0;
    while i < v.len()
        invariant
            i <= v@.len(),
            v@ == value@,
            r@ == deslugged(v@.take(i as int)),
        decreases v.len() - i,
    {
        push_char(&mut r, if v[i] == '-' { ' ' } else { v[i] });
        assert(deslugged(v@.take(i + 1)) =~= deslugged(v@.take(i as int)).push(
            if v@[i as int] == '-' { ' ' } else { v@[i as int] },
        ));
        i += 1;
    }
    assert(v@.take(v@.len() as int) =~= v@);
    r
}

/// Where the extensions of the last component of `s` start: the first `.`
/// of that component, trailing separators aside; -1 where it has none.
pub open spec fn extension_start(s: Seq<char>, i: int, past_trailing: bool, found: int) -> int
    decreases i,
{
    if i <= 0 || i > s.len() {
        found
    } else if s[i - 1] == '/' {
        if past_trailing {
            found
        } else {
            extension_start(s, i - 1, false, found)
        }
    } else if s[i - 1] == '.' {
        extension_start(s, i - 1, true, i - 1)
    } else {
        extension_start(s, i - 1, true, found)
    }
}

/// A path without all the extensions of its last component.
pub open spec fn without_extension_of(s: Seq<char>) -> Seq<char> {
    let e = extension_start(s, s.len() as int, false, -1);
    if 0 <= e <= s.len() {
        s.take(e)
    } else {
        s
    }
}

/// Operations on paths held as strings.
pub trait PathExt {
    /// The path without all the extensions of its last component.
    fn without_extension(&self) -> String;
}

impl PathExt for String {
    fn without_extension(&self) -> (r: String)
        ensures
            r@ == without_extension_of(self@),
    {
        let v = chars_of(self.as_str());
        let mut i = v.len();
        let mut past_trailing = false;
        let mut found: Option<usize> = None;
        let mut stop = false;
        while i > 0 && !stop
            invariant
                i <= v@.len(),
                stop ==> i > 0 && v@[i - 1] == '/' && past_trailing,
                v@ == self@,
                extension_start(v@, v@.len() as int, false, -1) == extension_start(
                    v@,
                    i as int,
                    past_trailing,
                    match found {
                        Some(f) => f as int,
                        None => -1,
                    },
                ),
                found matches Some(f) ==> f < v@.len(),
            decreases i + if stop { 0int } else { 1int },
        {
            let c = v[i - 1];
            if c == '/' {
                if past_trailing {
                    stop = true;
                } else {
                    i -= 1;
                }
            } else {
                past_trailing = true;
                if c == '.' {
                    found = Some(i - 1);
                }
                i -= 1;
            }
        }
        let mut r = String::new();
        match found {
            Some(f) => {
                push_chars(&mut r, &v, 0, f);
                assert(v@.subrange(0, f as int) =~= v@.take(f as int));
            },
            None => {
                push_chars(&mut r, &v, 0, v.len());
                assert(v@.subrange(0, v@.len() as int) =~= v@);
            },
        }
        r
    }
}

/// `cur` as a component: none where it is empty or `.`.
pub open spec fn flush(cur: Seq<char>) -> Seq<Seq<char>> {
    if cur.len() == 0 || cur == seq!['.'] {
        Seq::empty()
    } else {
        seq![cur]
    }
}

/// The components of `s` from position `i` on, the first continuing `cur`.
pub open spec fn components_from(s: Seq<char>, i: int, cur: Seq<char>) -> Seq<Seq<char>>
    decreases s.len() - i,
{
    if i < 0 || i >= s.len() {
        flush(cur)
    } else if s[i] == '/' {
        flush(cur) + components_from(s, i + 1, Seq::empty())
    } else {
        components_from(s, i + 1, cur.push(s[i]))
    }
}

/// The components of path `s`: what lies between slashes, without empty
/// ones and `.`.
pub open spec fn components(s: Seq<char>) -> Seq<Seq<char>> {
    components_from(s, 0, Seq::empty())
}

pub open spec fn parent_dir() -> Seq<char> {
    seq!['.', '.']
}

/// `n` parent components.
pub open spec fn ups(n: nat) -> Seq<Seq<char>>
    decreases n,
{
    if n == 0 {
        Seq::empty()
    } else {
        ups((n - 1) as nat).push(parent_dir())
    }
}

/// The components of the way from `b[k..]` to `a[k..]`, after `comps`; `None`
/// where `b` climbs with `..` where the two differ.
pub open spec fn diff_from(a: Seq<Seq<char>>, b: Seq<Seq<char>>, k: int, comps: Seq<Seq<char>>) -> Option<Seq<Seq<char>>>
    decreases (if a.len() > b.len() { a.len() } else { b.len() }) - k,
{
    if k < 0 {
        None
    } else if k >= a.len() && k >= b.len() {
        Some(comps)
    } else if k < a.len() && k >= b.len() {
        Some(comps + a.skip(k))
    } else if k >= a.len() {
        diff_from(a, b, k + 1, comps.push(parent_dir()))
    } else if comps.len() == 0 && a[k] == b[k] {
        diff_from(a, b, k + 1, comps)
    } else if b[k] == parent_dir() {
        None
    } else {
        Some(comps + ups((b.len() - k) as nat) + a.skip(k))
    }
}

/// Components joined by `/`.
pub open spec fn join(cs: Seq<Seq<char>>) -> Seq<char>
    decreases cs.len(),
{
    if cs.len() == 0 {
        Seq::empty()
    } else if cs.len() == 1 {
        cs[0]
    } else {
        join(cs.drop_last()) + seq!['/'] + cs.last()
    }
}

pub open spec fn rooted(s: Seq<char>) -> bool {
    s.len() > 0 && s[0] == '/'
}

/// The relative path that leads from `base` to `path`.
pub open spec fn diff_paths_of(path: Seq<char>, base: Seq<char>) -> Option<Seq<char>> {
    if rooted(path) != rooted(base) {
        None
    } else {
        match diff_from(components(path), components(base), 0, Seq::empty()) {
            Some(cs) => Some(join(cs)),
            None => None,
        }
    }
}

fn flush_exec(out: &mut Vec<Vec<char>>, cur: Vec<char>)
    ensures
        final(out)@.map_values(|c: Vec<char>| c@) == old(out)@.map_values(|c: Vec<char>| c@) + flush(cur@),
{
    let ghost o0 = out@.map_values(|c: Vec<char>| c@);
    if cur.len() == 0 || (cur.len() == 1 && cur[0] == '.') {
        assert(cur@.len() == 1 ==> cur@ =~= seq!['.']);
        assert(o0 + flush(cur@) =~= o0);
        return;
    }
    assert(cur@ != seq!['.']) by {
        if cur@ == seq!['.'] {
            assert(cur@.len() == 1 && cur@[0] == '.');
        }
    }
    let ghost cv = cur@;
    out.push(cur);
    assert(out@.map_values(|c: Vec<char>| c@) =~= o0.push(cv));
}

fn components_exec(s: &Vec<char>) -> (r: Vec<Vec<char>>)
    ensures
        r@.map_values(|c: Vec<char>| c@) == components(s@),
{
    let mut out: Vec<Vec<char>> = Vec::new();
    let mut cur: Vec<char> = Vec::new();
    let mut i: usize = 0;
    assert(out@.map_values(|c: Vec<char>| c@) =~= Seq::<Seq<char>>::empty());
    assert(cur@ =~= Seq::<char>::empty());
    while i < s.len()
        invariant
            i <= s@.len(),
            out@.map_values(|c: Vec<char>| c@) + components_from(s@, i as int, cur@) == components(s@),
        decreases s.len() - i,
    {
        let ghost o0 = out@.map_values(|c: Vec<char>| c@);
        if s[i] == '/' {
            let done = cur;
            cur = Vec::new();
            let ghost dv = done@;
            flush_exec(&mut out, done);
            assert(cur@ =~= Seq::<char>::empty());
            assert(o0 + (flush(dv) + components_from(s@, i + 1, cur@)) =~= out@.map_values(|c: Vec<char>| c@) + components_from(s@, i + 1, cur@));
        } else {
            cur.push(s[i]);
        }
        i += 1;
    }
    let ghost o0 = out@.map_values(|c: Vec<char>| c@);
    let ghost cv = cur@;
    flush_exec(&mut out, cur);
    out
}

fn copy_chars(v: &Vec<char>) -> (r: Vec<char>)
    ensures
        r@ == v@,
{
    let mut r: Vec<char> = Vec::new();
    let mut i: usize = 0;
    while i < v.len()
        invariant
            i <= v@.len(),
            r@ == v@.take(i as int),
        decreases v.len() - i,
    {
        r.push(v[i]);
        assert(v@.take(i + 1) =~= v@.take(i as int).push(v@[i as int]));
        i += 1;
    }
    assert(v@.take(v@.len() as int) =~= v@);
    r
}

fn seq_eq(a: &Vec<char>, b: &Vec<char>) -> (r: bool)
    ensures
        r == (a@ == b@),
{
    if a.len() != b.len() {
        return false;
    }
    let mut k: usize = 0;
    while k < a.len()
        invariant
            a@.len() == b@.len(),
            k <= a@.len(),
            forall|q: int| 0 <= q < k ==> a@[q] == b@[q],
        decreases a.len() - k,
    {
        if a[k] != b[k] {
            return false;
        }
        k += 1;
    }
    assert(a@ =~= b@);
    true
}

fn is_parent_dir(c: &Vec<char>) -> (r: bool)
    ensures
        r == (c@ == parent_dir()),
{
    let r = c.len() == 2 && c[0] == '.' && c[1] == '.';
    assert(r ==> c@ =~= parent_dir());
    r
}

/// The relative path that leads from `base` to `path`: `None` where one is
/// absolute and the other not, or where `base` climbs out with `..` where
/// the two part. Components are compared after dropping empty ones and `.`.
pub fn diff_paths(path: &str, base: &str) -> (r: Option<String>)
    ensures
        opt_seq(r) == diff_paths_of(path@, base@),
{
    let pv = chars_of(path);
    let bv = chars_of(base);
    let pr = pv.len() > 0 && pv[0] == '/';
    let br = bv.len() > 0 && bv[0] == '/';
    if pr != br {
        return None;
    }
    let a = components_exec(&pv);
    let b = components_exec(&bv);
    let ghost av = a@.map_values(|c: Vec<char>| c@);
    let ghost bw = b@.map_values(|c: Vec<char>| c@);
    let mut comps: Vec<Vec<char>> = Vec::new();
    let mut k: usize = 0;
    assert(comps@.map_values(|c: Vec<char>| c@) =~= Seq::<Seq<char>>::empty());
    loop
        invariant
            av == a@.map_values(|c: Vec<char>| c@),
            bw == b@.map_values(|c: Vec<char>| c@),
            av == components(pv@),
            bw == components(bv@),
            pv@ == path@,
            bv@ == base@,
            rooted(path@) == rooted(base@),
            k <= a@.len() || k <= b@.len(),
            diff_from(av, bw, 0, Seq::empty()) == diff_from(av, bw, k as int, comps@.map_values(|c: Vec<char>| c@)),
        decreases (if a@.len() > b@.len() { a@.len() } else { b@.len() }) - k,
    {
        let ghost cv = comps@.map_values(|c: Vec<char>| c@);
        if k >= a.len() && k >= b.len() {
            return Some(join_exec(&comps));
        }
        if k < a.len() && k >= b.len() {
            let mut q = k;
            while q < a.len()
                invariant
                    k <= q <= a@.len(),
                    comps@.map_values(|c: Vec<char>| c@) == cv + av.subrange(k as int, q as int),
                    av == a@.map_values(|c: Vec<char>| c@),
                decreases a.len() - q,
            {
                let ghost c0 = comps@.map_values(|c: Vec<char>| c@);
                let x = copy_chars(&a[q]);
                assert(x@ == av[q as int]);
                comps.push(x);
                assert(comps@.map_values(|c: Vec<char>| c@) =~= c0.push(av[q as int]));
                assert(av.subrange(k as int, q + 1) =~= av.subrange(k as int, q as int).push(av[q as int]));
                assert(comps@.map_values(|c: Vec<char>| c@) =~= cv + av.subrange(k as int, q + 1));
                q += 1;
            }
            assert(av.subrange(k as int, a@.len() as int) =~= av.skip(k as int));
            return Some(join_exec(&comps));
        }
        if k >= a.len() {
            let pd = vec!['.', '.'];
            assert(pd@ =~= parent_dir());
            comps.push(pd);
            assert(comps@.map_values(|c: Vec<char>| c@) =~= cv.push(parent_dir()));
            k += 1;
        } else if comps.len() == 0 && seq_eq(&a[k], &b[k]) {
            k += 1;
        } else if is_parent_dir(&b[k]) {
            return None;
        } else {
            let mut q = k;
            while q < b.len()
                invariant
                    k <= q <= b@.len(),
                    comps@.map_values(|c: Vec<char>| c@) == cv + ups((q - k) as nat),
                decreases b.len() - q,
            {
                let pd = vec!['.', '.'];
                assert(pd@ =~= parent_dir());
                let ghost c0 = comps@.map_values(|c: Vec<char>| c@);
                comps.push(pd);
                assert(ups((q + 1 - k) as nat) == ups((q - k) as nat).push(parent_dir()));
                assert(comps@.map_values(|c: Vec<char>| c@) =~= c0.push(parent_dir()));
                assert(comps@.map_values(|c: Vec<char>| c@) =~= cv + ups((q + 1 - k) as nat));
                q += 1;
            }
            let ghost cu = comps@.map_values(|c: Vec<char>| c@);
            let mut p = k;
            while p < a.len()
                invariant
                    k <= p <= a@.len(),
                    comps@.map_values(|c: Vec<char>| c@) == cu + av.subrange(k as int, p as int),
                    av == a@.map_values(|c: Vec<char>| c@),
                decreases a.len() - p,
            {
                let ghost c0 = comps@.map_values(|c: Vec<char>| c@);
                let x = copy_chars(&a[p]);
                assert(x@ == av[p as int]);
                comps.push(x);
                assert(comps@.map_values(|c: Vec<char>| c@) =~= c0.push(av[p as int]));
                assert(av.subrange(k as int, p + 1) =~= av.subrange(k as int, p as int).push(av[p as int]));
                assert(comps@.map_values(|c: Vec<char>| c@) =~= cu + av.subrange(k as int, p + 1));
                p += 1;
            }
            assert(av.subrange(k as int, a@.len() as int) =~= av.skip(k as int));
            return Some(join_exec(&comps));
        }
    }
}

fn join_exec(cs: &Vec<Vec<char>>) -> (r: String)
    ensures
        r@ == join(cs@.map_values(|c: Vec<char>| c@)),
{
    let ghost cv = cs@.map_values(|c: Vec<char>| c@);
    let mut r = String::new();
    let mut i: usize = 0;
    while i < cs.len()
        invariant
            i <= cs@.len(),
            cv == cs@.map_values(|c: Vec<char>| c@),
            r@ == join(cv.take(i as int)),
        decreases cs.len() - i,
    {
        if i > 0 {
            push_char(&mut r, '/');
        }
        push_chars(&mut r, &cs[i], 0, cs[i].len());
        assert(cs@[i as int]@.subrange(0, cs@[i as int]@.len() as int) =~= cv[i as int]);
        assert(cv.take(i + 1).drop_last() =~= cv.take(i as int));
        i += 1;
    }
    assert(cv.take(cs@.len() as int) =~= cv);
    r
}

pub open spec fn opt_seq(o: Option<String>) -> Option<Seq<char>> {
    match o {
        Some(s) => Some(s@),
        None => None,
    }
}

} // verus!
