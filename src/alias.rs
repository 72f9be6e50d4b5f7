//! Rewrites links of the form `@alias/rest` against a table of aliases.
use vstd::prelude::*;
use crate::markdown::{Event, EventView, Tag, TagView, events_view, reversed};
use crate::text::{chars_of, push_char, push_chars};

verus! {

/// What the first entry of `table` with key `key` maps it to.
pub open spec fn alias_lookup(table: Seq<(String, String)>, key: Seq<char>) -> Option<Seq<char>>
    decreases table.len(),
{
    if table.len() == 0 {
        None
    } else if table[0].0@ == key {
        Some(table[0].1@)
    } else {
        alias_lookup(table.skip(1), key)
    }
}

/// The index of the first `/` of `s`, or -1.
pub open spec fn first_slash(s: Seq<char>) -> int
    decreases s.len(),
{
    if s.len() == 0 {
        -1
    } else if s[0] == '/' {
        0
    } else if first_slash(s.skip(1)) < 0 {
        -1
    } else {
        first_slash(s.skip(1)) + 1
    }
}

/// `href` with its alias replaced: `@name/rest` becomes the prefix that
/// `name` maps to joined with `rest` by one `/`. A link that does not start
/// with `@`, or whose name has no entry, stays as it is.
pub open spec fn rewritten(table: Seq<(String, String)>, href: Seq<char>) -> Seq<char> {
    if href.len() == 0 || href[0] != '@' {
        href
    } else {
        let rest = href.skip(1);
        let k = first_slash(rest);
        let alias = if k >= 0 { rest.take(k) } else { rest };
        let suffix = if k >= 0 { rest.skip(k + 1) } else { Seq::empty() };
        match alias_lookup(table, alias) {
            None => href,
            Some(prefix) => if !(prefix.len() > 0 && prefix.last() == '/') && suffix.len() > 0
                && suffix[0] != '/' {
                prefix + seq!['/'] + suffix
            } else {
                prefix + suffix
            },
        }
    }
}

proof fn lemma_first_slash(s: Seq<char>)
    ensures
        -1 <= first_slash(s) < s.len(),
        first_slash(s) >= 0 ==> s[first_slash(s)] == '/',
        forall|j: int| 0 <= j < s.len() && (first_slash(s) < 0 || j < first_slash(s)) ==> s[j] != '/',
    decreases s.len(),
{
    if s.len() > 0 && s[0] != '/' {
        lemma_first_slash(s.skip(1));
        assert forall|j: int| 0 < j < s.len() && (first_slash(s) < 0 || j < first_slash(s)) implies s[j] != '/' by {
            assert(s[j] == s.skip(1)[j - 1]);
        }
    }
}

fn find_alias(table: &Vec<(String, String)>, key: &String) -> (r: Option<usize>)
    ensures
        r matches Some(i) ==> i < table@.len() && alias_lookup(table@, key@) == Some(table@[i as int].1@),
        r is None ==> alias_lookup(table@, key@) is None,
{
    let mut i: usize = 0;
    assert(table@.skip(0) =~= table@);
    while i < table.len()
        invariant
            i <= table@.len(),
            alias_lookup(table@, key@) == alias_lookup(table@.skip(i as int), key@),
        decreases table.len() - i,
    {
        assert(table@.skip(i as int).skip(1) =~= table@.skip(i + 1));
        if table[i].0 == *key {
            return Some(i);
        }
        i += 1;
    }
    None
}

/// Rewrites the alias at the start of `href`, as `rewritten` states.
pub fn rewrite(aliases: &Vec<(String, String)>, href: &str) -> (r: String)
    ensures
        r@ == rewritten(aliases@, href@),
{
    let v = chars_of(href);
    let mut same = String::new();
    push_chars(&mut same, &v, 0, v.len());
    assert(v@.subrange(0, v@.len() as int) =~= v@);
    if v.len() == 0 || v[0] != '@' {
        return same;
    }
    let ghost rest = v@.skip(1);
    proof {
        lemma_first_slash(rest);
    }
    let mut k: usize = 1;
    while k < v.len() && v[k] != '/'
        invariant
            1 <= k <= v@.len(),
            rest == v@.skip(1),
            forall|j: int| 1 <= j < k ==> v@[j] != '/',
        decreases v.len() - k,
    {
        k += 1;
    }
    let found = k < v.len();
    proof {
        if found {
            assert(rest[k - 1] == '/');
            assert(first_slash(rest) == k - 1) by {
                if first_slash(rest) < 0 || first_slash(rest) > k - 1 {
                } else if first_slash(rest) < k - 1 {
                    assert(v@[first_slash(rest) + 1] == '/');
                }
            }
        } else {
            assert(first_slash(rest) < 0) by {
                if first_slash(rest) >= 0 {
                    assert(v@[first_slash(rest) + 1] == '/');
                }
            }
        }
    }
    let mut alias = String::new();
    push_chars(&mut alias, &v, 1, k);
    let suffix_start = if found { k + 1 } else { v.len() };
    assert(v@.subrange(1, k as int) =~= if found { rest.take(k - 1) } else { rest });
    assert(v@.subrange(suffix_start as int, v@.len() as int) =~= if found { rest.skip(k as int) } else { Seq::<char>::empty() });
    match find_alias(aliases, &alias) {
        None => same,
        Some(i) => {
            let prefix = &aliases[i].1;
            let p = chars_of(prefix.as_str());
            let mut out = String::new();
            push_chars(&mut out, &p, 0, p.len());
            assert(p@.subrange(0, p@.len() as int) =~= p@);
            let ends = p.len() > 0 && p[p.len() - 1] == '/';
            let has_suffix = suffix_start < v.len();
            if !ends && has_suffix && v[suffix_start] != '/' {
                push_char(&mut out, '/');
            }
            push_chars(&mut out, &v, suffix_start, v.len());
            out
        },
    }
}

/// `e` with its link destination rewritten, if it starts a link.
pub open spec fn alias_event(table: Seq<(String, String)>, e: EventView) -> EventView {
    match e {
        EventView::Start(TagView::Link { dest_url, title }) => EventView::Start(
            TagView::Link { dest_url: rewritten(table, dest_url), title },
        ),
        _ => e,
    }
}

/// The events of `evs` with each link destination rewritten.
pub open spec fn with_aliases(table: Seq<(String, String)>, evs: Seq<EventView>) -> Seq<EventView> {
    evs.map_values(|e: EventView| alias_event(table, e))
}

/// The stage that rewrites aliased links.
pub struct Alias {
    pub aliases: Vec<(String, String)>,
}

impl Alias {
    pub fn new(aliases: Vec<(String, String)>) -> (r: Alias)
        ensures
            r.aliases@ == aliases@,
    {
        Alias { aliases }
    }

    /// Rewrites the destination of each link.
    pub fn remap(&self, events: Vec<Event>) -> (r: Vec<Event>)
        ensures
            events_view(r@) == with_aliases(self.aliases@, events_view(events@)),
    {
        let ghost ev = events_view(events@);
        let n = events.len();
        let mut rest = reversed(events);
        let mut out: Vec<Event> = Vec::new();
        let mut i: usize = 0;
        while rest.len() > 0
            invariant
                ev.len() == n,
                ev == events_view(events@),
                i <= n,
                rest@.len() == n - i,
                forall|k: int| 0 <= k < rest@.len() ==> (#[trigger] rest@[k])@ == ev[n - 1 - k],
                events_view(out@) == with_aliases(self.aliases@, ev.take(i as int)),
            decreases rest@.len(),
        {
            let e = rest.pop().unwrap();
            assert(e@ == ev[i as int]);
            let mapped = match e {
                Event::Start(Tag::Link { dest_url, title }) => {
                    let d = rewrite(&self.aliases, dest_url.as_str());
                    Event::Start(Tag::Link { dest_url: d, title })
                },
                other => other,
            };
            assert(mapped@ == alias_event(self.aliases@, ev[i as int]));
            let ghost o0 = events_view(out@);
            out.push(mapped);
            assert(events_view(out@) =~= o0.push(alias_event(self.aliases@, ev[i as int])));
            assert(events_view(out@) =~= with_aliases(self.aliases@, ev.take(i + 1)));
            i += 1;
        }
        assert(ev.take(n as int) =~= ev);
        out
    }
}

} // verus!
