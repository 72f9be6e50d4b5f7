//! Removes lines from code blocks: hidden `#` lines, or blank lines at the
//! start of a block.
use vstd::prelude::*;
use crate::admonition::{is_ws, next_newline, trim};
use crate::markdown::{Event, EventView, Tag, TagEnd, TagView, events_view, reversed};
use crate::text::{chars_of, push_chars};

verus! {

/// The lines of `t`: each runs through its newline, and the last may have
/// none.
pub open spec fn lines_of(t: Seq<char>) -> Seq<Seq<char>>
    decreases t.len(),
{
    if t.len() == 0 {
        Seq::empty()
    } else {
        let j = next_newline(t, 0);
        if 0 <= j < t.len() {
            seq![t.take(j + 1)] + lines_of(t.skip(j + 1))
        } else {
            seq![t]
        }
    }
}

/// Which lines of code blocks to remove.
#[derive(Clone, Copy, PartialEq, Eq, Structural, Debug)]
pub enum CodeFilter {
    /// Lines that, trimmed, are `#` or start with `# `.
    HiddenLines,
    /// Lines with nothing but ASCII whitespace at the start of a block.
    LeadingBlankLines,
}

pub open spec fn ascii_ws(c: char) -> bool {
    c == ' ' || c == '\t' || c == '\n' || c == '\x0C' || c == '\r'
}

pub open spec fn blank(l: Seq<char>) -> bool {
    forall|k: int| 0 <= k < l.len() ==> ascii_ws(#[trigger] l[k])
}

pub open spec fn hidden(l: Seq<char>) -> bool {
    let t = trim(l);
    t == seq!['#'] || (t.len() >= 2 && t[0] == '#' && t[1] == ' ')
}

/// What the filter has seen: the events it emits, whether it is inside a
/// code block, whether the next line is the block's first, and whether only
/// blank lines came so far.
pub struct TrimState {
    pub out: Seq<EventView>,
    pub in_block: bool,
    pub first: bool,
    pub at_start: bool,
}

/// The state after line `l` of a code block.
pub open spec fn trim_line(f: CodeFilter, st: TrimState, l: Seq<char>) -> TrimState {
    match f {
        CodeFilter::HiddenLines => if hidden(l) {
            TrimState { first: false, ..st }
        } else {
            TrimState { out: st.out.push(EventView::Text(l)), first: false, ..st }
        },
        CodeFilter::LeadingBlankLines => {
            let start = st.at_start || st.first;
            if start && blank(l) {
                TrimState { first: false, at_start: true, ..st }
            } else {
                TrimState { out: st.out.push(EventView::Text(l)), first: false, at_start: false, ..st }
            }
        },
    }
}

pub open spec fn trim_lines(f: CodeFilter, st: TrimState, ls: Seq<Seq<char>>) -> TrimState
    decreases ls.len(),
{
    if ls.len() == 0 {
        st
    } else {
        trim_lines(f, trim_line(f, st, ls[0]), ls.skip(1))
    }
}

/// The state after one more event: code block starts and ends pass and
/// open or close the numbering; text inside a block is filtered line by
/// line; everything else passes.
pub open spec fn trim_step(f: CodeFilter, st: TrimState, e: EventView) -> TrimState {
    match e {
        EventView::Start(TagView::CodeBlock(_)) => TrimState { out: st.out.push(e), in_block: true, first: true, ..st },
        EventView::End(TagEnd::CodeBlock) => TrimState { out: st.out.push(e), in_block: false, ..st },
        EventView::Text(t) => if st.in_block {
            trim_lines(f, st, lines_of(t))
        } else {
            TrimState { out: st.out.push(e), ..st }
        },
        _ => TrimState { out: st.out.push(e), ..st },
    }
}

pub open spec fn trim_all(f: CodeFilter, evs: Seq<EventView>) -> TrimState
    decreases evs.len(),
{
    if evs.len() == 0 {
        TrimState { out: Seq::empty(), in_block: false, first: false, at_start: true }
    } else {
        trim_step(f, trim_all(f, evs.drop_last()), evs.last())
    }
}

proof fn lemma_next_newline_skip(s: Seq<char>, a: int)
    requires
        0 <= a <= s.len(),
    ensures
        next_newline(s.skip(a), 0) == next_newline(s, a) - a,
    decreases s.len() - a,
{
    crate::admonition::lemma_next_newline(s, a);
    crate::admonition::lemma_next_newline(s.skip(a), 0);
    let j = next_newline(s, a);
    let k = next_newline(s.skip(a), 0);
    if k + a < j {
        assert(s.skip(a)[k] == s[k + a]);
    } else if k + a > j && j < s.len() {
        assert(s.skip(a)[j - a] == s[j]);
    }
}

fn is_blank(v: &Vec<char>, a: usize, b: usize) -> (r: bool)
    requires
        a <= b <= v@.len(),
    ensures
        r == blank(v@.subrange(a as int, b as int)),
{
    let mut k = a;
    while k < b
        invariant
            a <= k <= b <= v@.len(),
            forall|q: int| a <= q < k ==> ascii_ws(#[trigger] v@[q]),
        decreases b - k,
    {
        let c = v[k];
        if !(c == ' ' || c == '\t' || c == '\n' || c == '\x0C' || c == '\r') {
            assert(v@.subrange(a as int, b as int)[k - a] == c);
            return false;
        }
        k += 1;
    }
    assert forall|q: int| 0 <= q < b - a implies ascii_ws(#[trigger] v@.subrange(a as int, b as int)[q]) by {
        assert(v@.subrange(a as int, b as int)[q] == v@[a + q]);
    }
    true
}

fn is_hidden(v: &Vec<char>, a: usize, b: usize) -> (r: bool)
    requires
        a <= b <= v@.len(),
    ensures
        r == hidden(v@.subrange(a as int, b as int)),
{
    let (s, e) = crate::admonition::trim_range(v, a, b);
    let t = e - s;
    let r = (t == 1 && v[s] == '#') || (t >= 2 && v[s] == '#' && v[s + 1] == ' ');
    proof {
        let tt = v@.subrange(s as int, e as int);
        if t == 1 && v@[s as int] == '#' {
            assert(tt =~= seq!['#']);
        }
        if tt == seq!['#'] {
            assert(tt[0] == '#');
        }
    }
    r
}

/// The stage that removes lines from code blocks.
#[derive(Clone, Copy, Debug)]
pub struct CodeTrim {
    pub filter: CodeFilter,
}

impl CodeTrim {
    /// Removes hidden `#` lines.
    pub fn trim_hidden() -> (r: CodeTrim)
        ensures
            r.filter == CodeFilter::HiddenLines,
    {
        CodeTrim { filter: CodeFilter::HiddenLines }
    }

    /// Removes the blank lines at the start of each block.
    pub fn trim_start() -> (r: CodeTrim)
        ensures
            r.filter == CodeFilter::LeadingBlankLines,
    {
        CodeTrim { filter: CodeFilter::LeadingBlankLines }
    }

    /// Filters the lines of text in code blocks, as `trim_all` states.
    pub fn remap(&self, events: Vec<Event>) -> (r: Vec<Event>)
        ensures
            events_view(r@) == trim_all(self.filter, events_view(events@)).out,
    {
        let ghost ev = events_view(events@);
        let n = events.len();
        let mut rest = reversed(events);
        let mut out: Vec<Event> = Vec::new();
        let mut in_block = false;
        let mut first = false;
        let mut at_start = true;
        let mut i: usize = 0;
        assert(ev.take(0) =~= Seq::<EventView>::empty());
        assert(events_view(out@) =~= Seq::<EventView>::empty());
        while rest.len() > 0
            invariant
                ev.len() == n,
                ev == events_view(events@),
                i <= n,
                rest@.len() == n - i,
                forall|k: int| 0 <= k < rest@.len() ==> (#[trigger] rest@[k])@ == ev[n - 1 - k],
                trim_all(self.filter, ev.take(i as int)) == (TrimState { out: events_view(out@), in_block, first, at_start }),
            decreases rest@.len(),
        {
            let e = rest.pop().unwrap();
            assert(e@ == ev[i as int]);
            assert(ev.take(i + 1).drop_last() =~= ev.take(i as int));
            assert(ev.take(i + 1).last() == ev[i as int]);
            let ghost st0 = trim_all(self.filter, ev.take(i as int));
            let ghost o0 = events_view(out@);
            match e {
                Event::Text(t) => {
                    if in_block {
                        let v = chars_of(t.as_str());
                        let mut a: usize = 0;
                        assert(v@.skip(0) =~= v@);
                        assert(ev[i as int] == EventView::Text(v@));
                        while a < v.len()
                            invariant
                                a <= v@.len(),
                                in_block,
                                trim_lines(self.filter, st0, lines_of(v@)) == trim_lines(
                                    self.filter,
                                    TrimState { out: events_view(out@), in_block, first, at_start },
                                    lines_of(v@.skip(a as int)),
                                ),
                            decreases v.len() - a,
                        {
                            let j = crate::admonition::find_newline(&v, a);
                            let end = if j < v.len() { j + 1 } else { v.len() };
                            proof {
                                lemma_next_newline_skip(v@, a as int);
                                crate::admonition::lemma_next_newline(v@, a as int);
                                let rest_v = v@.skip(a as int);
                                assert(rest_v.take(end - a) =~= v@.subrange(a as int, end as int));
                                assert(rest_v.skip(end - a) =~= v@.skip(end as int));
                                assert(lines_of(rest_v)[0] == v@.subrange(a as int, end as int));
                                assert(lines_of(rest_v).skip(1) =~= lines_of(v@.skip(end as int)));
                            }
                            let ghost before = TrimState { out: events_view(out@), in_block, first, at_start };
                            let ghost piece = v@.subrange(a as int, end as int);
                            let drop = match self.filter {
                                CodeFilter::HiddenLines => is_hidden(&v, a, end),
                                CodeFilter::LeadingBlankLines => {
                                    let start = at_start || first;
                                    if start && is_blank(&v, a, end) {
                                        at_start = true;
                                        true
                                    } else {
                                        at_start = false;
                                        false
                                    }
                                },
                            };
                            if !drop {
                                let mut line = String::new();
                                push_chars(&mut line, &v, a, end);
                                assert(line@ =~= piece);
                                let ghost ob = events_view(out@);
                                out.push(Event::Text(line));
                                assert(events_view(out@) =~= ob.push(EventView::Text(piece)));
                            }
                            first = false;
                            assert(TrimState { out: events_view(out@), in_block, first, at_start } =~~= trim_line(self.filter, before, piece));
                            a = end;
                        }
                        proof {
                            assert(lines_of(v@.skip(a as int)) =~= Seq::<Seq<char>>::empty());
                        }
                    } else {
                        out.push(Event::Text(t));
                        assert(events_view(out@) =~= o0.push(ev[i as int]));
                    }
                },
                Event::Start(Tag::CodeBlock(lang)) => {
                    out.push(Event::Start(Tag::CodeBlock(lang)));
                    in_block = true;
                    first = true;
                    assert(events_view(out@) =~= o0.push(ev[i as int]));
                },
                Event::End(TagEnd::CodeBlock) => {
                    out.push(Event::End(TagEnd::CodeBlock));
                    in_block = false;
                    assert(events_view(out@) =~= o0.push(ev[i as int]));
                },
                other => {
                    out.push(other);
                    assert(events_view(out@) =~= o0.push(ev[i as int]));
                },
            }
            i += 1;
        }
        assert(ev.take(n as int) =~= ev);
        out
    }
}

/// Whether `f` may filter lines: it can be called on any line and number,
/// and gives one answer for lines with the same text and number.
pub open spec fn sound_line_filter<F: Fn(&String, usize) -> bool>(f: F) -> bool {
    &&& forall|s: &String, n: usize| #[trigger] f.requires((s, n))
    &&& forall|s1: &String, s2: &String, n: usize, b1: bool, b2: bool|
        #[trigger] f.ensures((s1, n), b1) && #[trigger] f.ensures((s2, n), b2) && s1@ == s2@ ==> b1 == b2
}

/// Whether `f` asks to remove line `l` with number `n`.
pub open spec fn removes<F: Fn(&String, usize) -> bool>(f: F, l: Seq<char>, n: usize) -> bool {
    forall|s: &String, b: bool| #[trigger] f.ensures((s, n), b) && s@ == l ==> b
}

/// What a line filter has seen: the events it emits, whether it is inside a
/// code block, and the number of the block's next line.
pub struct LineState {
    pub out: Seq<EventView>,
    pub in_block: bool,
    pub line: usize,
}

/// The number after `n`, held at the largest `usize`.
pub open spec fn next_line(n: usize) -> usize {
    if n < usize::MAX { (n + 1) as usize } else { n }
}

pub open spec fn filter_lines<F: Fn(&String, usize) -> bool>(f: F, st: LineState, ls: Seq<Seq<char>>) -> LineState
    decreases ls.len(),
{
    if ls.len() == 0 {
        st
    } else {
        let l = ls[0];
        let out = if removes(f, l, st.line) { st.out } else { st.out.push(EventView::Text(l)) };
        filter_lines(f, LineState { out, line: next_line(st.line), ..st }, ls.skip(1))
    }
}

/// The state after one more event: code block starts and ends pass and
/// start or stop the numbering at 0; each line of text inside a block is
/// kept unless `f` removes it; everything else passes.
pub open spec fn filter_step<F: Fn(&String, usize) -> bool>(f: F, st: LineState, e: EventView) -> LineState {
    match e {
        EventView::Start(TagView::CodeBlock(_)) => LineState { out: st.out.push(e), in_block: true, line: 0 },
        EventView::End(TagEnd::CodeBlock) => LineState { out: st.out.push(e), in_block: false, ..st },
        EventView::Text(t) => if st.in_block {
            filter_lines(f, st, lines_of(t))
        } else {
            LineState { out: st.out.push(e), ..st }
        },
        _ => LineState { out: st.out.push(e), ..st },
    }
}

pub open spec fn filter_all<F: Fn(&String, usize) -> bool>(f: F, evs: Seq<EventView>) -> LineState
    decreases evs.len(),
{
    if evs.len() == 0 {
        LineState { out: Seq::empty(), in_block: false, line: 0 }
    } else {
        filter_step(f, filter_all(f, evs.drop_last()), evs.last())
    }
}

/// The stage that removes the lines of code blocks that a caller's
/// predicate picks; the predicate gets each line, newline included, and its
/// 0-based number within its block.
pub struct LineTrim<F> {
    pub trimmer: F,
}

impl<F: Fn(&String, usize) -> bool> LineTrim<F> {
    pub fn trim(trimmer: F) -> (r: LineTrim<F>)
        ensures
            r.trimmer == trimmer,
    {
        LineTrim { trimmer }
    }

    /// Filters the lines of text in code blocks, as `filter_all` states.
    pub fn remap(&self, events: Vec<Event>) -> (r: Vec<Event>)
        requires
            sound_line_filter(self.trimmer),
        ensures
            events_view(r@) == filter_all(self.trimmer, events_view(events@)).out,
    {
        let ghost ev = events_view(events@);
        let n = events.len();
        let mut rest = reversed(events);
        let mut out: Vec<Event> = Vec::new();
        let mut in_block = false;
        let mut line: usize = 0;
        let mut i: usize = 0;
        assert(ev.take(0) =~= Seq::<EventView>::empty());
        assert(events_view(out@) =~= Seq::<EventView>::empty());
        while rest.len() > 0
            invariant
                ev.len() == n,
                ev == events_view(events@),
                i <= n,
                sound_line_filter(self.trimmer),
                rest@.len() == n - i,
                forall|k: int| 0 <= k < rest@.len() ==> (#[trigger] rest@[k])@ == ev[n - 1 - k],
                filter_all(self.trimmer, ev.take(i as int)) == (LineState { out: events_view(out@), in_block, line }),
            decreases rest@.len(),
        {
            let e = rest.pop().unwrap();
            assert(e@ == ev[i as int]);
            assert(ev.take(i + 1).drop_last() =~= ev.take(i as int));
            assert(ev.take(i + 1).last() == ev[i as int]);
            let ghost st0 = filter_all(self.trimmer, ev.take(i as int));
            let ghost o0 = events_view(out@);
            match e {
                Event::Text(t) => {
                    if in_block {
                        let v = chars_of(t.as_str());
                        let mut a: usize = 0;
                        assert(v@.skip(0) =~= v@);
                        assert(ev[i as int] == EventView::Text(v@));
                        while a < v.len()
                            invariant
                                a <= v@.len(),
                                in_block,
                                sound_line_filter(self.trimmer),
                                filter_lines(self.trimmer, st0, lines_of(v@)) == filter_lines(
                                    self.trimmer,
                                    LineState { out: events_view(out@), in_block, line },
                                    lines_of(v@.skip(a as int)),
                                ),
                            decreases v.len() - a,
                        {
                            let j = crate::admonition::find_newline(&v, a);
                            let end = if j < v.len() { j + 1 } else { v.len() };
                            proof {
                                lemma_next_newline_skip(v@, a as int);
                                crate::admonition::lemma_next_newline(v@, a as int);
                                let rest_v = v@.skip(a as int);
                                assert(rest_v.take(end - a) =~= v@.subrange(a as int, end as int));
                                assert(rest_v.skip(end - a) =~= v@.skip(end as int));
                                assert(lines_of(rest_v)[0] == v@.subrange(a as int, end as int));
                                assert(lines_of(rest_v).skip(1) =~= lines_of(v@.skip(end as int)));
                            }
                            let ghost piece = v@.subrange(a as int, end as int);
                            let mut text = String::new();
                            push_chars(&mut text, &v, a, end);
                            assert(text@ =~= piece);
                            let drop = (self.trimmer)(&text, line);
                            proof {
                                if !drop {
                                    assert(!removes(self.trimmer, piece, line));
                                }
                            }
                            if !drop {
                                let ghost ob = events_view(out@);
                                out.push(Event::Text(text));
                                assert(events_view(out@) =~= ob.push(EventView::Text(piece)));
                            }
                            if line < usize::MAX {
                                line = line + 1;
                            }
                            a = end;
                        }
                        proof {
                            assert(lines_of(v@.skip(a as int)) =~= Seq::<Seq<char>>::empty());
                        }
                    } else {
                        out.push(Event::Text(t));
                        assert(events_view(out@) =~= o0.push(ev[i as int]));
                    }
                },
                Event::Start(Tag::CodeBlock(lang)) => {
                    out.push(Event::Start(Tag::CodeBlock(lang)));
                    in_block = true;
                    line = 0;
                    assert(events_view(out@) =~= o0.push(ev[i as int]));
                },
                Event::End(TagEnd::CodeBlock) => {
                    out.push(Event::End(TagEnd::CodeBlock));
                    in_block = false;
                    assert(events_view(out@) =~= o0.push(ev[i as int]));
                },
                other => {
                    out.push(other);
                    assert(events_view(out@) =~= o0.push(ev[i as int]));
                },
            }
            i += 1;
        }
        assert(ev.take(n as int) =~= ev);
        out
    }
}

} // verus!
