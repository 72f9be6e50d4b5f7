//! Splits a document into its `+++`-fenced front matter and its content.
use vstd::prelude::*;
use crate::text::{chars_of, push_chars};

verus! {

pub open spec fn fence_at(s: Seq<char>, q: int) -> bool {
    0 <= q && q + 5 <= s.len() && s[q] == '\n' && s[q + 1] == '+' && s[q + 2] == '+' && s[q + 3]
        == '+' && s[q + 4] == '\n'
}

/// The first `q >= from` where `\n+++\n` starts in `s`, or -1.
pub open spec fn first_fence(s: Seq<char>, from: int) -> int
    decreases s.len() - from,
{
    if from < 0 || from + 5 > s.len() {
        -1
    } else if fence_at(s, from) {
        from
    } else {
        first_fence(s, from + 1)
    }
}

pub open spec fn opens_front_matter(s: Seq<char>) -> bool {
    s.len() >= 4 && s[0] == '+' && s[1] == '+' && s[2] == '+' && s[3] == '\n'
}

/// The front matter and content of `s`: where `s` starts with `+++` and a
/// newline and holds a later newline, `+++` and newline, the front matter is
/// what lies between them and the content what follows; otherwise there is
/// no front matter and the content is `s`.
pub open spec fn front_matter_of(s: Seq<char>) -> (Option<Seq<char>>, Seq<char>) {
    let q = first_fence(s, 0);
    if opens_front_matter(s) && q >= 0 {
        (Some(if q >= 4 { s.subrange(4, q) } else { Seq::empty() }), s.skip(q + 5))
    } else {
        (None, s)
    }
}

/// The stage that takes a document's front matter off its content.
#[derive(Clone, Copy, Debug, Default)]
pub struct FrontMatter;

impl FrontMatter {
    pub fn new() -> FrontMatter {
        FrontMatter
    }

    /// The front matter of `input`, if it has one, and its content.
    pub fn preprocess(&self, input: &str) -> (r: (Option<String>, String))
        ensures
            opt_chars(r.0) == front_matter_of(input@).0,
            r.1@ == front_matter_of(input@).1,
    {
        let v = chars_of(input);
        let mut q: usize = 0;
        let mut found = false;
        while v.len() >= 5 && q <= v.len() - 5 && !found
            invariant
                v@ == input@,
                first_fence(v@, 0) == if found { q as int } else { first_fence(v@, q as int) },
                found ==> fence_at(v@, q as int),
                q <= v@.len(),
            decreases v.len() - q + if found { 0int } else { 1int },
        {
            if v[q] == '\n' && v[q + 1] == '+' && v[q + 2] == '+' && v[q + 3] == '+' && v[q + 4] == '\n' {
                found = true;
            } else {
                q += 1;
            }
        }
        let opens = v.len() >= 4 && v[0] == '+' && v[1] == '+' && v[2] == '+' && v[3] == '\n';
        if opens && found {
            let mut front = String::new();
            if q >= 4 {
                push_chars(&mut front, &v, 4, q);
            } else {
                assert(front@ =~= Seq::<char>::empty());
            }
            let mut content = String::new();
            push_chars(&mut content, &v, q + 5, v.len());
            assert(v@.subrange(q + 5, v@.len() as int) =~= v@.skip(q + 5));
            (Some(front), content)
        } else {
            let mut content = String::new();
            push_chars(&mut content, &v, 0, v.len());
            assert(v@.subrange(0, v@.len() as int) =~= v@);
            (None, content)
        }
    }
}

pub open spec fn opt_chars(o: Option<String>) -> Option<Seq<char>> {
    match o {
        Some(s) => Some(s@),
        None => None,
    }
}

} // verus!
