//! URL-safe identifiers derived from free text.
use vstd::prelude::*;
use crate::text::{chars_of, push_char};

verus! {

/// The ASCII transliteration that `deunicode` gives of `c`, if it has one.
pub uninterp spec fn transliteration(c: char) -> Option<Seq<char>>;

/// Relies on `deunicode::deunicode_char`: the ASCII transliteration of one
/// character, or `None` where the table has none.
#[verifier::external_body]
fn deunicode_char(c: char) -> (r: Option<String>)
    ensures
        r matches Some(s) ==> transliteration(c) == Some(s@),
        r is None ==> transliteration(c) is None,
{
    deunicode::deunicode_char(c).map(|s| s.to_string())
}

/// What a character becomes before slug rules apply: its transliteration,
/// or a single `-` where it has none.
pub open spec fn piece(c: char) -> Seq<char> {
    match transliteration(c) {
        Some(p) => p,
        None => seq!['-'],
    }
}

/// The transliterated text of `s`.
pub open spec fn expand(s: Seq<char>) -> Seq<char>
    decreases s.len(),
{
    if s.len() == 0 {
        Seq::empty()
    } else {
        expand(s.drop_last()) + piece(s.last())
    }
}

/// Characters that a slug keeps.
pub open spec fn slug_char(c: char) -> bool {
    ('a' <= c && c <= 'z') || ('A' <= c && c <= 'Z') || ('0' <= c && c <= '9') || c == '_'
}

pub open spec fn ascii_lower(c: char) -> char {
    if 'A' <= c && c <= 'Z' {
        (((c as u32) + 32) as u8) as char
    } else {
        c
    }
}

/// The slug of `t` so far and whether a `-` is owed before the next kept
/// character: each run of other characters after some output becomes one
/// `-`, and kept characters are lowercased.
pub open spec fn slug_state(t: Seq<char>) -> (Seq<char>, bool)
    decreases t.len(),
{
    if t.len() == 0 {
        (Seq::empty(), false)
    } else {
        let (out, dash) = slug_state(t.drop_last());
        let c = t.last();
        if slug_char(c) {
            (if dash { out.push('-') } else { out }.push(ascii_lower(c)), false)
        } else {
            (out, out.len() > 0)
        }
    }
}

/// The slug of the text `s`.
pub open spec fn slug_of(s: Seq<char>) -> Seq<char> {
    slug_state(expand(s)).0
}

/// Lowercases ASCII letters, drops leading and trailing characters other
/// than ASCII alphanumerics and `_`, and turns each run of them between kept
/// characters into one `-`. Other characters are transliterated to ASCII
/// first; one without a transliteration counts as a `-`.
pub fn slugify(string: &str) -> (r: String)
    ensures
        r@ == slug_of(string@),
{
    let v = chars_of(string);
    let mut output = String::new();
    let mut need_dash = false;
    let mut started = false;
    let mut i: usize = 0;
    while i < v.len()
        invariant
            i <= v@.len(),
            v@ == string@,
            (output@, need_dash) == slug_state(expand(v@.take(i as int))),
            started == (output@.len() > 0),
        decreases v.len() - i,
    {
        let c = v[i];
        let p = match deunicode_char(c) {
            Some(s) => chars_of(s.as_str()),
            None => vec!['-'],
        };
        assert(p@ == piece(c));
        let ghost before = expand(v@.take(i as int));
        let mut j: usize = 0;
        while j < p.len()
            invariant
                j <= p@.len(),
                (output@, need_dash) == slug_state(before + p@.take(j as int)),
                started == (output@.len() > 0),
            decreases p.len() - j,
        {
            let b = p[j];
            assert((before + p@.take(j + 1)).drop_last() =~= before + p@.take(j as int));
            assert((before + p@.take(j + 1)).last() == b);
            if ('a' <= b && b <= 'z') || ('A' <= b && b <= 'Z') || ('0' <= b && b <= '9') || b
                == '_' {
                if need_dash {
                    push_char(&mut output, '-');
                    need_dash = false;
                }
                let lower = if 'A' <= b && b <= 'Z' {
                    (((b as u32) + 32) as u8) as char
                } else {
                    b
                };
                push_char(&mut output, lower);
                started = true;
            } else {
                need_dash = started;
            }
            j += 1;
        }
        assert(p@.take(p@.len() as int) =~= p@);
        assert(v@.take(i + 1).drop_last() =~= v@.take(i as int));
        i += 1;
    }
    assert(v@.take(v@.len() as int) =~= v@);
    output
}

} // verus!
