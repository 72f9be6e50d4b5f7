//! Structural markdown events, and the stages that rewrite a stream of them:
//! heading ids, heading anchors and excerpts.
use vstd::prelude::*;
use crate::slug::{slug_of, slugify};
use crate::text::{push_char, push_str};
use vstd::string::*;

verus! {

/// The start of a structural element.
pub enum Tag {
    Paragraph,
    Heading { level: u8, id: Option<String>, classes: Vec<String>, attrs: Vec<(String, Option<String>)> },
    BlockQuote,
    CodeBlock(String),
    Emphasis,
    Strong,
    Strikethrough,
    Link { dest_url: String, title: String },
    /// Any other element, by a handle that the caller gave it.
    Other(usize),
}

/// The end of a structural element.
#[derive(Clone, Copy, PartialEq, Eq, Structural, Debug)]
pub enum TagEnd {
    Paragraph,
    Heading(u8),
    BlockQuote,
    CodeBlock,
    Emphasis,
    Strong,
    Strikethrough,
    Link,
    /// The end of any other element, by a handle that the caller gave it.
    Other(usize),
}

/// One event of a parsed document.
pub enum Event {
    Start(Tag),
    End(TagEnd),
    Text(String),
    Code(String),
    Html(String),
    SoftBreak,
    HardBreak,
    /// Any other event, by a handle that the caller gave it.
    Other(usize),
}

/// The contents of a `Tag`, as sequences.
pub enum TagView {
    Paragraph,
    Heading {
        level: u8,
        id: Option<Seq<char>>,
        classes: Seq<Seq<char>>,
        attrs: Seq<(Seq<char>, Option<Seq<char>>)>,
    },
    BlockQuote,
    CodeBlock(Seq<char>),
    Emphasis,
    Strong,
    Strikethrough,
    Link { dest_url: Seq<char>, title: Seq<char> },
    Other(usize),
}

/// The contents of an `Event`, as sequences.
pub enum EventView {
    Start(TagView),
    End(TagEnd),
    Text(Seq<char>),
    Code(Seq<char>),
    Html(Seq<char>),
    SoftBreak,
    HardBreak,
    Other(usize),
}

pub open spec fn opt_view(o: Option<String>) -> Option<Seq<char>> {
    match o {
        Some(s) => Some(s@),
        None => None,
    }
}

impl View for Tag {
    type V = TagView;

    open spec fn view(&self) -> TagView {
        match self {
            Tag::Paragraph => TagView::Paragraph,
            Tag::Heading { level, id, classes, attrs } => TagView::Heading {
                level: *level,
                id: opt_view(*id),
                classes: classes@.map_values(|c: String| c@),
                attrs: attrs@.map_values(|a: (String, Option<String>)| (a.0@, opt_view(a.1))),
            },
            Tag::BlockQuote => TagView::BlockQuote,
            Tag::CodeBlock(l) => TagView::CodeBlock(l@),
            Tag::Emphasis => TagView::Emphasis,
            Tag::Strong => TagView::Strong,
            Tag::Strikethrough => TagView::Strikethrough,
            Tag::Link { dest_url, title } => TagView::Link { dest_url: dest_url@, title: title@ },
            Tag::Other(h) => TagView::Other(*h),
        }
    }
}

impl View for Event {
    type V = EventView;

    open spec fn view(&self) -> EventView {
        match self {
            Event::Start(t) => EventView::Start(t@),
            Event::End(t) => EventView::End(*t),
            Event::Text(s) => EventView::Text(s@),
            Event::Code(s) => EventView::Code(s@),
            Event::Html(s) => EventView::Html(s@),
            Event::SoftBreak => EventView::SoftBreak,
            Event::HardBreak => EventView::HardBreak,
            Event::Other(h) => EventView::Other(*h),
        }
    }
}

pub open spec fn events_view(evs: Seq<Event>) -> Seq<EventView> {
    evs.map_values(|e: Event| e@)
}

/// `n` in decimal.
pub open spec fn decimal(n: nat) -> Seq<char>
    decreases n,
{
    if n < 10 {
        seq![digit(n)]
    } else {
        decimal(n / 10) + seq![digit(n % 10)]
    }
}

pub open spec fn digit(n: nat) -> char {
    if n == 0 { '0' } else if n == 1 { '1' } else if n == 2 { '2' } else if n == 3 { '3' }
    else if n == 4 { '4' } else if n == 5 { '5' } else if n == 6 { '6' } else if n == 7 { '7' }
    else if n == 8 { '8' } else { '9' }
}

fn digit_char(n: usize) -> (r: char)
    requires
        n < 10,
    ensures
        r == digit(n as nat),
{
    if n == 0 { '0' } else if n == 1 { '1' } else if n == 2 { '2' } else if n == 3 { '3' }
    else if n == 4 { '4' } else if n == 5 { '5' } else if n == 6 { '6' } else if n == 7 { '7' }
    else if n == 8 { '8' } else { '9' }
}

/// Appends `n` in decimal to `out`.
pub fn push_decimal(out: &mut String, n: usize)
    ensures
        final(out)@ == old(out)@ + decimal(n as nat),
    decreases n,
{
    if n >= 10 {
        push_decimal(out, n / 10);
    }
    push_char(out, digit_char(n % 10));
}

/// How often `s` occurs in `seen`.
pub open spec fn occurrences(seen: Seq<Seq<char>>, s: Seq<char>) -> nat
    decreases seen.len(),
{
    if seen.len() == 0 {
        0
    } else {
        occurrences(seen.drop_last(), s) + if seen.last() == s { 1nat } else { 0nat }
    }
}

/// The id of a heading whose slug is `slug`, after the slugs `seen`: the slug
/// itself the first time, and the slug, `-` and the number of earlier
/// headings with that slug after that.
pub open spec fn heading_id(seen: Seq<Seq<char>>, slug: Seq<char>) -> Seq<char> {
    if occurrences(seen, slug) == 0 {
        slug
    } else {
        slug + seq!['-'] + decimal(occurrences(seen, slug))
    }
}

/// The concatenated text and code of `evs[a..b]`.
pub open spec fn heading_text(evs: Seq<EventView>, a: int, b: int) -> Seq<char>
    decreases b - a,
{
    if b <= a {
        Seq::empty()
    } else {
        heading_text(evs, a, b - 1) + match evs[b - 1] {
            EventView::Text(s) => s,
            EventView::Code(s) => s,
            _ => Seq::empty(),
        }
    }
}

pub open spec fn is_heading_end(e: EventView) -> bool {
    e is End && e->End_0 is Heading
}

/// The first heading end in `evs` at or after `i`, or the length of `evs`.
pub open spec fn heading_end(evs: Seq<EventView>, i: int) -> int
    decreases evs.len() - i,
{
    if i < 0 || i >= evs.len() {
        evs.len() as int
    } else if is_heading_end(evs[i]) {
        i
    } else {
        heading_end(evs, i + 1)
    }
}

pub open spec fn is_unnamed_heading(e: EventView) -> bool {
    e is Start && e->Start_0 is Heading && e->Start_0->Heading_id is None
}

/// Every event of `evs` from `i` on, with each heading that has no id given
/// one, after the slugs `seen`. A heading is its start, the events up to its
/// end, and an end of the start's level. A heading that does not end ends the
/// stream.
pub open spec fn with_heading_ids(evs: Seq<EventView>, i: int, seen: Seq<Seq<char>>) -> Seq<
    EventView,
>
    decreases evs.len() - i,
{
    if i < 0 || i >= evs.len() {
        Seq::empty()
    } else if is_unnamed_heading(evs[i]) {
        let j = heading_end(evs, i + 1);
        if i < j < evs.len() {
            let slug = slug_of(heading_text(evs, i + 1, j));
            let id = heading_id(seen, slug);
            match evs[i] {
                EventView::Start(TagView::Heading { level, classes, attrs, .. }) => seq![
                    EventView::Start(TagView::Heading { level, id: Some(id), classes, attrs }),
                ] + evs.subrange(i + 1, j) + seq![EventView::End(TagEnd::Heading(level))]
                    + with_heading_ids(evs, j + 1, seen.push(slug)),
                _ => Seq::empty(),
            }
        } else {
            Seq::empty()
        }
    } else {
        seq![evs[i]] + with_heading_ids(evs, i + 1, seen)
    }
}

/// `v` in reverse order.
pub fn reversed<T>(v: Vec<T>) -> (r: Vec<T>)
    ensures
        r@.len() == v@.len(),
        forall|k: int| 0 <= k < v@.len() ==> #[trigger] r@[k] == v@[v@.len() - 1 - k],
{
    let ghost orig = v@;
    let mut v = v;
    let mut r: Vec<T> = Vec::new();
    while v.len() > 0
        invariant
            v@ == orig.take(v@.len() as int),
            r@.len() + v@.len() == orig.len(),
            forall|k: int| 0 <= k < r@.len() ==> #[trigger] r@[k] == orig[orig.len() - 1 - k],
        decreases v@.len(),
    {
        let x = v.pop().unwrap();
        r.push(x);
        assert(v@ =~= orig.take(v@.len() as int));
    }
    r
}

/// How often `s` occurs in `seen`.
fn count_seen(seen: &Vec<String>, s: &String) -> (r: usize)
    ensures
        r == occurrences(seen@.map_values(|x: String| x@), s@),
{
    let ghost sv = seen@.map_values(|x: String| x@);
    let mut n: usize = 0;
    let mut i: usize = 0;
    while i < seen.len()
        invariant
            i <= seen@.len(),
            sv == seen@.map_values(|x: String| x@),
            n == occurrences(sv.take(i as int), s@),
            n <= i,
        decreases seen.len() - i,
    {
        assert(sv.take(i + 1).drop_last() =~= sv.take(i as int));
        if seen[i] == *s {
            n += 1;
        }
        i += 1;
    }
    assert(sv.take(seen@.len() as int) =~= sv);
    n
}

fn is_heading_end_event(e: &Event) -> (r: bool)
    ensures
        r == is_heading_end(e@),
{
    match e {
        Event::End(TagEnd::Heading(_)) => true,
        _ => false,
    }
}

/// The stage that gives each heading without an id one made from its text.
#[derive(Clone, Copy, Debug, Default)]
pub struct AutoHeading;

impl AutoHeading {
    /// Gives each heading without an id the slug of its text and code, with
    /// `-n` appended for the n-th repeat of a slug in the document.
    pub fn remap(&self, events: Vec<Event>) -> (r: Vec<Event>)
        ensures
            events_view(r@) == with_heading_ids(events_view(events@), 0, Seq::empty()),
    {
        let ghost ev = events_view(events@);
        let n = events.len();
        let mut rest = reversed(events);
        let mut out: Vec<Event> = Vec::new();
        let mut seen: Vec<String> = Vec::new();
        let mut i: usize = 0;
        assert(seen@.map_values(|x: String| x@) =~= Seq::<Seq<char>>::empty());
        while rest.len() > 0
            invariant
                ev.len() == n,
                ev == events_view(events@),
                i <= n,
                rest@.len() == n - i,
                forall|k: int| 0 <= k < rest@.len() ==> (#[trigger] rest@[k])@ == ev[n - 1 - k],
                events_view(out@) + with_heading_ids(ev, i as int, seen@.map_values(|x: String| x@))
                    == with_heading_ids(ev, 0, Seq::empty()),
            decreases rest@.len(),
        {
            let e = rest.pop().unwrap();
            assert(e@ == ev[i as int]);
            match e {
                Event::Start(Tag::Heading { level, id: None, classes, attrs }) => {
                    let mut text = String::new();
                    let mut buf: Vec<Event> = Vec::new();
                    let mut k = i + 1;
                    let ghost sv = seen@.map_values(|x: String| x@);
                    let ghost start_view = (Event::Start(Tag::Heading { level, id: None, classes, attrs }))@;
                    assert(ev[i as int] == start_view);
                    while rest.len() > 0 && !is_heading_end_event(&rest[rest.len() - 1])
                        invariant
                            ev.len() == n,
                            ev == events_view(events@),
                            i < k <= n,
                            rest@.len() == n - k,
                            forall|q: int| 0 <= q < rest@.len() ==> (#[trigger] rest@[q])@ == ev[n - 1 - q],
                            text@ == heading_text(ev, i + 1, k as int),
                            events_view(buf@) == ev.subrange(i + 1, k as int),
                            heading_end(ev, i + 1) == heading_end(ev, k as int),
                            sv == seen@.map_values(|x: String| x@),
                            is_unnamed_heading(ev[i as int]),
                            ev[i as int] == start_view,
                            events_view(out@) + with_heading_ids(ev, i as int, sv)
                                == with_heading_ids(ev, 0, Seq::empty()),
                        decreases rest@.len(),
                    {
                        let x = rest.pop().unwrap();
                        assert(x@ == ev[k as int]);
                        let ghost xv = x@;
                        let ghost b0 = events_view(buf@);
                        match &x {
                            Event::Text(s) => {
                                push_str(&mut text, s.as_str());
                            },
                            Event::Code(s) => {
                                push_str(&mut text, s.as_str());
                            },
                            _ => {},
                        }
                        buf.push(x);
                        assert(events_view(buf@) =~= b0.push(xv));
                        assert(events_view(buf@) =~= ev.subrange(i + 1, k + 1));
                        k += 1;
                    }
                    if rest.len() == 0 {
                        assert(heading_end(ev, i + 1) == n);
                        assert(with_heading_ids(ev, i as int, sv) == Seq::<EventView>::empty());
                        assert(events_view(out@) =~= events_view(out@) + Seq::<EventView>::empty());
                        assert(events_view(out@) == with_heading_ids(ev, 0, Seq::empty()));
                        return out;
                    }
                    let _end = rest.pop();
                    assert(heading_end(ev, i + 1) == k);
                    let slug = slugify(text.as_str());
                    let c = count_seen(&seen, &slug);
                    let mut id = slug.clone();
                    if c > 0 {
                        push_char(&mut id, '-');
                        push_decimal(&mut id, c);
                    }
                    assert(id@ == heading_id(sv, slug@));
                    let ghost o0 = events_view(out@);
                    let ghost head = EventView::Start(TagView::Heading { level, id: Some(heading_id(sv, slug@)), classes: classes@.map_values(|c: String| c@), attrs: attrs@.map_values(|a: (String, Option<String>)| (a.0@, opt_view(a.1))) });
                    out.push(Event::Start(Tag::Heading { level, id: Some(id), classes, attrs }));
                    let ghost o1 = events_view(out@);
                    assert(o1 =~= o0 + seq![head]);
                    let ghost bv = buf@;
                    let mut b = reversed(buf);
                    let ghost bl = b@.len() as int;
                    assert(bl == k - (i + 1));
                    assert forall|q: int| 0 <= q < b@.len() implies (#[trigger] b@[q])@ == ev[k - 1 - q] by {
                        assert(b@[q] == bv[bl - 1 - q]);
                        assert(events_view(bv)[bl - 1 - q] == ev.subrange(i + 1, k as int)[bl - 1 - q]);
                    }
                    while b.len() > 0
                        invariant
                            bl == k - (i + 1),
                            b@.len() <= bl,
                            k <= ev.len(),
                            forall|q: int| 0 <= q < b@.len() ==> (#[trigger] b@[q])@ == ev[k - 1 - q],
                            events_view(out@) == o1 + ev.subrange(i + 1, k - b@.len()),
                        decreases b@.len(),
                    {
                        let ghost before = events_view(out@);
                        let ghost bi = b@.len() as int;
                        let y = b.pop().unwrap();
                        assert(y@ == ev[k - bi]);
                        out.push(y);
                        assert(events_view(out@) =~= before.push(ev[k - bi]));
                        assert(ev.subrange(i + 1, k - b@.len()) =~= ev.subrange(i + 1, k - bi).push(ev[k - bi]));
                    }
                    let ghost o2 = events_view(out@);
                    assert(o2 =~= o1 + ev.subrange(i + 1, k as int));
                    out.push(Event::End(TagEnd::Heading(level)));
                    assert(events_view(out@) =~= o2.push(EventView::End(TagEnd::Heading(level))));
                    seen.push(slug);
                    proof {
                        assert(seen@.map_values(|x: String| x@) =~= sv.push(slug@));
                        assert(events_view(out@) =~= o0 + (seq![head] + ev.subrange(i + 1, k as int) + seq![EventView::End(TagEnd::Heading(level))]));
                    }
                    i = k + 1;
                },
                e => {
                    out.push(e);
                    i += 1;
                    assert(events_view(out@) =~= events_view(out@).drop_last().push(ev[i - 1]));
                },
            }
        }
        assert(with_heading_ids(ev, i as int, seen@.map_values(|x: String| x@)) == Seq::<EventView>::empty());
        assert(events_view(out@) =~= events_view(out@) + Seq::<EventView>::empty());
        out
    }
}

/// The anchor that follows the start of a heading with id `id`.
pub open spec fn anchor_html(id: Seq<char>) -> Seq<char> {
    "<a class=\"anchor\" title=\"anchor\" href=\"#"@ + id + "\"></a>"@
}

/// The events of `evs` from `i` on, each heading start with an id followed
/// by an anchor to that id.
pub open spec fn with_anchors(evs: Seq<EventView>, i: int) -> Seq<EventView>
    decreases evs.len() - i,
{
    if i < 0 || i >= evs.len() {
        Seq::empty()
    } else {
        match evs[i] {
            EventView::Start(TagView::Heading { id: Some(id), .. }) => seq![
                evs[i],
                EventView::Html(anchor_html(id)),
            ] + with_anchors(evs, i + 1),
            _ => seq![evs[i]] + with_anchors(evs, i + 1),
        }
    }
}

/// The stage that links each heading with an id to itself.
#[derive(Clone, Copy, Debug, Default)]
pub struct HeadingAnchor;

impl HeadingAnchor {
    /// Follows the start of each heading that has an id with an anchor to it.
    pub fn remap(&self, events: Vec<Event>) -> (r: Vec<Event>)
        ensures
            events_view(r@) == with_anchors(events_view(events@), 0),
    {
        let ghost ev = events_view(events@);
        let n = events.len();
        let mut rest = reversed(events);
        let mut out: Vec<Event> = Vec::new();
        let mut i: usize = 0;
        while rest.len() > 0
            invariant
                ev.len() == n,
                ev == events_view(events@),
                i <= n,
                rest@.len() == n - i,
                forall|k: int| 0 <= k < rest@.len() ==> (#[trigger] rest@[k])@ == ev[n - 1 - k],
                events_view(out@) + with_anchors(ev, i as int) == with_anchors(ev, 0),
            decreases rest@.len(),
        {
            let e = rest.pop().unwrap();
            assert(e@ == ev[i as int]);
            let ghost o0 = events_view(out@);
            let html = match &e {
                Event::Start(Tag::Heading { id: Some(id), .. }) => {
                    let mut h = String::new();
                    push_str(&mut h, "<a class=\"anchor\" title=\"anchor\" href=\"#");
                    push_str(&mut h, id.as_str());
                    push_str(&mut h, "\"></a>");
                    Some(h)
                },
                _ => None,
            };
            out.push(e);
            match html {
                Some(h) => {
                    out.push(Event::Html(h));
                },
                None => {},
            }
            assert(events_view(out@) =~= o0 + (with_anchors(ev, i as int).take(
                events_view(out@).len() - o0.len(),
            )));
            i += 1;
        }
        assert(events_view(out@) =~= events_view(out@) + with_anchors(ev, i as int));
        out
    }
}

/// What an excerpt has gathered: its markup, which open elements it shows,
/// the length of its text, and whether it is complete.
pub struct SnipState {
    pub out: Seq<char>,
    pub capture: Seq<bool>,
    pub text_len: nat,
    pub done: bool,
}

pub open spec fn open_markup(t: TagView) -> Option<Seq<char>> {
    match t {
        TagView::Paragraph => Some("<p>"@),
        TagView::Emphasis => Some("<em>"@),
        TagView::Strong => Some("<strong>"@),
        TagView::Strikethrough => Some("<strike>"@),
        TagView::BlockQuote => Some("<blockquote>"@),
        TagView::Link { dest_url, title } => Some("<a href=\""@ + dest_url + "\" title=\""@ + title + "\">"@),
        _ => None,
    }
}

pub open spec fn close_markup(t: TagEnd) -> Seq<char> {
    match t {
        TagEnd::Paragraph => "</p>"@,
        TagEnd::Emphasis => "</em>"@,
        TagEnd::Strong => "</strong>"@,
        TagEnd::Strikethrough => "</strike>"@,
        TagEnd::BlockQuote => "</blockquote>"@,
        TagEnd::Link => "</a>"@,
        _ => Seq::empty(),
    }
}

/// `n` characters more of text, counted up to `min`.
pub open spec fn add_capped(len: nat, n: nat, min: nat) -> nat {
    if len + n >= min { min } else { len + n }
}

/// Whether the innermost open element is shown.
pub open spec fn capturing(c: Seq<bool>) -> bool {
    c.len() > 0 && c.last()
}

/// The excerpt after one more event. Shown elements write their markup;
/// text inside a shown element is written and counted; the excerpt is
/// complete once an outermost element closes with at least `min` characters
/// of text written. Text is counted up to `min`, which is all that matters.
pub open spec fn snip_step(st: SnipState, e: EventView, min: nat) -> SnipState {
    if st.done {
        st
    } else {
        match e {
            EventView::Start(t) => match open_markup(t) {
                Some(m) => SnipState { out: st.out + m, capture: st.capture.push(true), ..st },
                None => SnipState { capture: st.capture.push(false), ..st },
            },
            EventView::End(t) => {
                let c = if st.capture.len() > 0 { st.capture.drop_last() } else { st.capture };
                SnipState {
                    out: st.out + close_markup(t),
                    capture: c,
                    done: c.len() == 0 && st.text_len >= min,
                    ..st
                }
            },
            EventView::SoftBreak => if capturing(st.capture) {
                SnipState { out: st.out + " "@, text_len: add_capped(st.text_len, 1, min), ..st }
            } else {
                st
            },
            EventView::HardBreak => if capturing(st.capture) {
                SnipState { out: st.out + "<br>"@, ..st }
            } else {
                st
            },
            EventView::Code(t) => if capturing(st.capture) {
                SnipState { out: st.out + "<code>"@ + t + "</code>"@, text_len: add_capped(st.text_len, t.len(), min), ..st }
            } else {
                st
            },
            EventView::Text(t) => if capturing(st.capture) {
                SnipState { out: st.out + t, text_len: add_capped(st.text_len, t.len(), min), ..st }
            } else {
                st
            },
            _ => st,
        }
    }
}

/// The excerpt after the events `evs`.
pub open spec fn snip_all(st: SnipState, evs: Seq<EventView>, min: nat) -> SnipState
    decreases evs.len(),
{
    if evs.len() == 0 {
        st
    } else {
        snip_step(snip_all(st, evs.drop_last(), min), evs.last(), min)
    }
}

pub open spec fn snip_start(min: nat) -> SnipState {
    SnipState { out: Seq::empty(), capture: Seq::empty(), text_len: 0, done: min == 0 }
}

fn add_capped_exec(len: usize, n: usize, min: usize) -> (r: usize)
    requires
        len <= min,
    ensures
        r == add_capped(len as nat, n as nat, min as nat),
        r <= min,
{
    if n >= min - len {
        min
    } else {
        len + n
    }
}

/// The length of all text and code in `evs`, soft breaks counting one.
pub open spec fn text_len_of(evs: Seq<EventView>) -> nat
    decreases evs.len(),
{
    if evs.len() == 0 {
        0
    } else {
        text_len_of(evs.drop_last()) + match evs.last() {
            EventView::Text(t) => t.len(),
            EventView::Code(t) => t.len(),
            EventView::SoftBreak => 1nat,
            _ => 0nat,
        }
    }
}

/// With a minimum length of zero the excerpt is complete before it starts,
/// and holds nothing, whatever the document.
pub proof fn lemma_zero_length_excerpt(evs: Seq<EventView>)
    ensures
        snip_all(snip_start(0), evs, 0).out == Seq::<char>::empty(),
        snip_all(snip_start(0), evs, 0).done,
    decreases evs.len(),
{
    if evs.len() > 0 {
        lemma_zero_length_excerpt(evs.drop_last());
    }
}

/// Where a document holds less text than the minimum length, the excerpt
/// never completes: it takes in every event, so no element is cut off.
pub proof fn lemma_short_document_excerpt(evs: Seq<EventView>, min: nat)
    requires
        text_len_of(evs) < min,
    ensures
        !snip_all(snip_start(min), evs, min).done,
        snip_all(snip_start(min), evs, min).text_len <= text_len_of(evs),
    decreases evs.len(),
{
    if evs.len() > 0 {
        lemma_short_document_excerpt(evs.drop_last(), min);
    }
}

/// The stage that gathers a short excerpt of a document's rendered text.
pub struct Snippet {
    snippet: String,
    length: usize,
}

impl Snippet {
    /// A stage whose excerpt holds at least `length` characters of text,
    /// where the document has them.
    pub fn new(length: usize) -> (r: Snippet)
        ensures
            r.length() == length,
            r.excerpt() == Seq::<char>::empty(),
    {
        Snippet { snippet: String::new(), length }
    }

    pub closed spec fn length(&self) -> nat {
        self.length as nat
    }

    pub closed spec fn excerpt(&self) -> Seq<char> {
        self.snippet@
    }

    /// Reads the events of a document and gathers its excerpt.
    pub fn remap(&mut self, events: &Vec<Event>)
        requires
            old(self).excerpt() == Seq::<char>::empty(),
        ensures
            final(self).length() == old(self).length(),
            final(self).excerpt() == snip_all(snip_start(old(self).length()), events_view(events@), old(self).length()).out,
    {
        let ghost min = self.length as nat;
        let ghost ev = events_view(events@);
        let mut capture: Vec<bool> = Vec::new();
        let mut text_len: usize = 0;
        let mut done = self.length == 0;
        let mut i: usize = 0;
        while i < events.len()
            invariant
                i <= events@.len(),
                ev == events_view(events@),
                min == self.length as nat,
                ({
                    let st = snip_all(snip_start(min), ev.take(i as int), min);
                    &&& st.out == self.snippet@
                    &&& st.capture == capture@
                    &&& st.text_len == text_len as nat
                    &&& st.done == done
                }),
                text_len <= self.length,
            decreases events.len() - i,
        {
            assert(ev.take(i + 1).drop_last() =~= ev.take(i as int));
            assert(ev.take(i + 1).last() == events@[i as int]@);
            let ghost st0 = snip_all(snip_start(min), ev.take(i as int), min);
            let ghost e = events@[i as int]@;
            let ghost s0 = self.snippet@;
            if !done {
                let show = capture.len() > 0 && capture[capture.len() - 1];
                match &events[i] {
                    Event::Start(t) => {
                        match t {
                            Tag::Paragraph => {
                                push_str(&mut self.snippet, "<p>");
                                capture.push(true);
                            },
                            Tag::Emphasis => {
                                push_str(&mut self.snippet, "<em>");
                                capture.push(true);
                            },
                            Tag::Strong => {
                                push_str(&mut self.snippet, "<strong>");
                                capture.push(true);
                            },
                            Tag::Strikethrough => {
                                push_str(&mut self.snippet, "<strike>");
                                capture.push(true);
                            },
                            Tag::BlockQuote => {
                                push_str(&mut self.snippet, "<blockquote>");
                                capture.push(true);
                            },
                            Tag::Link { dest_url, title } => {
                                push_str(&mut self.snippet, "<a href=\"");
                                push_str(&mut self.snippet, dest_url.as_str());
                                push_str(&mut self.snippet, "\" title=\"");
                                push_str(&mut self.snippet, title.as_str());
                                push_str(&mut self.snippet, "\">");
                                capture.push(true);
                            },
                            _ => {
                                capture.push(false);
                            },
                        }
                    },
                    Event::End(t) => {
                        match t {
                            TagEnd::Paragraph => push_str(&mut self.snippet, "</p>"),
                            TagEnd::Emphasis => push_str(&mut self.snippet, "</em>"),
                            TagEnd::Strong => push_str(&mut self.snippet, "</strong>"),
                            TagEnd::Strikethrough => push_str(&mut self.snippet, "</strike>"),
                            TagEnd::BlockQuote => push_str(&mut self.snippet, "</blockquote>"),
                            TagEnd::Link => push_str(&mut self.snippet, "</a>"),
                            _ => {},
                        }
                        capture.pop();
                        if capture.len() == 0 && text_len >= self.length {
                            done = true;
                        }
                    },
                    Event::SoftBreak => {
                        if show {
                            push_str(&mut self.snippet, " ");
                            text_len = add_capped_exec(text_len, 1, self.length);
                        }
                    },
                    Event::HardBreak => {
                        if show {
                            push_str(&mut self.snippet, "<br>");
                        }
                    },
                    Event::Code(t) => {
                        if show {
                            push_str(&mut self.snippet, "<code>");
                            push_str(&mut self.snippet, t.as_str());
                            push_str(&mut self.snippet, "</code>");
                            text_len = add_capped_exec(text_len, t.as_str().unicode_len(), self.length);
                        }
                    },
                    Event::Text(t) => {
                        if show {
                            push_str(&mut self.snippet, t.as_str());
                            text_len = add_capped_exec(text_len, t.as_str().unicode_len(), self.length);
                        }
                    },
                    _ => {},
                }
            }
            proof {
                let st1 = snip_step(st0, e, min);
                assert(self.snippet@ =~= st1.out);
                assert(capture@ =~= st1.capture);
                assert(text_len == st1.text_len);
                assert(done == st1.done);
            }
            i += 1;
        }
        assert(ev.take(events@.len() as int) =~= ev);
    }

    /// Hands over the excerpt gathered so far, and starts a new one.
    pub fn finalize(&mut self) -> (r: String)
        ensures
            r@ == old(self).excerpt(),
            final(self).excerpt() == Seq::<char>::empty(),
            final(self).length() == old(self).length(),
    {
        let mut taken = String::new();
        core::mem::swap(&mut taken, &mut self.snippet);
        taken
    }
}

/// Whether `e` is the text that marks a section break: it starts with `===`.
pub open spec fn is_separator(e: EventView) -> bool {
    e is Text && e->Text_0.len() >= 3 && e->Text_0[0] == '=' && e->Text_0[1] == '='
        && e->Text_0[2] == '='
}

pub open spec fn is_paragraph_start(e: EventView) -> bool {
    e is Start && e->Start_0 is Paragraph
}

/// The sections of `evs` from `i` on, the first of them continuing `cur`. A
/// paragraph whose first event is a separator ends a section; it and the
/// event after it are dropped, and the next event starts the next section.
/// The event after a paragraph start is taken as it is. A stream that ends
/// within a break ends the last section.
pub open spec fn sections_of(evs: Seq<EventView>, i: int, cur: Seq<EventView>) -> Seq<Seq<EventView>>
    decreases evs.len() - i,
{
    if i < 0 || i >= evs.len() {
        seq![cur]
    } else if is_paragraph_start(evs[i]) {
        if i + 1 >= evs.len() {
            seq![cur]
        } else if is_separator(evs[i + 1]) {
            if i + 3 >= evs.len() {
                seq![cur]
            } else {
                seq![cur] + sections_of(evs, i + 4, seq![evs[i + 3]])
            }
        } else {
            sections_of(evs, i + 2, cur + seq![evs[i], evs[i + 1]])
        }
    } else {
        sections_of(evs, i + 1, cur.push(evs[i]))
    }
}

pub open spec fn sections_view(s: Seq<Vec<Event>>) -> Seq<Seq<EventView>> {
    s.map_values(|v: Vec<Event>| events_view(v@))
}

fn is_separator_event(e: &Event) -> (r: bool)
    ensures
        r == is_separator(e@),
{
    match e {
        Event::Text(t) => {
            let v = crate::text::chars_of(t.as_str());
            v.len() >= 3 && v[0] == '=' && v[1] == '=' && v[2] == '='
        },
        _ => false,
    }
}

fn is_paragraph_start_event(e: &Event) -> (r: bool)
    ensures
        r == is_paragraph_start(e@),
{
    match e {
        Event::Start(Tag::Paragraph) => true,
        _ => false,
    }
}

/// The stage that splits a document into sections at `===` paragraphs.
pub struct Parts {
    found: bool,
}

impl Parts {
    pub fn new() -> (r: Parts)
        ensures
            !r.found(),
    {
        Parts { found: false }
    }

    /// Whether a section break has been seen.
    pub closed spec fn found(&self) -> bool {
        self.found
    }

    pub fn has_parts(&self) -> (r: bool)
        ensures
            r == self.found(),
    {
        self.found
    }

    /// Splits `events` into sections, as `sections_of` states.
    pub fn remap(&mut self, events: Vec<Event>) -> (r: Vec<Vec<Event>>)
        ensures
            sections_view(r@) == sections_of(events_view(events@), 0, Seq::empty()),
            final(self).found() == (old(self).found() || r@.len() > 1),
    {
        let ghost ev = events_view(events@);
        let n = events.len();
        let mut rest = reversed(events);
        let mut out: Vec<Vec<Event>> = Vec::new();
        let mut cur: Vec<Event> = Vec::new();
        let mut i: usize = 0;
        let mut stop = false;
        assert(events_view(cur@) =~= Seq::<EventView>::empty());
        assert(sections_view(out@) =~= Seq::<Seq<EventView>>::empty());
        while rest.len() > 0 && !stop
            invariant
                ev.len() == n,
                ev == events_view(events@),
                i <= n,
                rest@.len() == n - i,
                forall|k: int| 0 <= k < rest@.len() ==> (#[trigger] rest@[k])@ == ev[n - 1 - k],
                !stop ==> sections_view(out@) + sections_of(ev, i as int, events_view(cur@))
                    == sections_of(ev, 0, Seq::empty()),
                stop ==> sections_view(out@) + seq![events_view(cur@)] == sections_of(ev, 0, Seq::empty()),
                self.found() == (old(self).found() || out@.len() > 0),
            decreases rest@.len(),
        {
            let e = rest.pop().unwrap();
            assert(e@ == ev[i as int]);
            let ghost so = sections_view(out@);
            let ghost c0 = events_view(cur@);
            if is_paragraph_start_event(&e) {
                if rest.len() == 0 {
                    stop = true;
                    assert(sections_of(ev, i as int, c0) == seq![c0]);
                    i = i + 1;
                } else if is_separator_event(&rest[rest.len() - 1]) {
                    assert(rest@[rest@.len() - 1]@ == ev[i + 1]);
                    if rest.len() < 3 {
                        stop = true;
                        assert(sections_of(ev, i as int, c0) == seq![c0]);
                        i = i + 1;
                    } else {
                        let _text = rest.pop();
                        let _end = rest.pop();
                        let next = rest.pop().unwrap();
                        assert(next@ == ev[i + 3]);
                        let mut fresh: Vec<Event> = Vec::new();
                        fresh.push(next);
                        let mut done = fresh;
                        core::mem::swap(&mut cur, &mut done);
                        out.push(done);
                        self.found = true;
                        assert(sections_view(out@) =~= so.push(c0));
                        assert(events_view(cur@) =~= seq![ev[i + 3]]);
                        assert(so + sections_of(ev, i as int, c0) =~= sections_view(out@) + sections_of(ev, i + 4, events_view(cur@)));
                        i = i + 4;
                    }
                } else {
                    let x = rest.pop().unwrap();
                    assert(x@ == ev[i + 1]);
                    cur.push(e);
                    cur.push(x);
                    assert(events_view(cur@) =~= c0 + seq![ev[i as int], ev[i + 1]]);
                    i = i + 2;
                }
            } else {
                cur.push(e);
                assert(events_view(cur@) =~= c0.push(ev[i as int]));
                i = i + 1;
            }
        }
        out.push(cur);
        proof {
            if !stop {
                assert(sections_of(ev, i as int, events_view(cur@)) == seq![events_view(cur@)]);
            }
        }
        assert(sections_view(out@) =~= sections_view(out@).drop_last().push(events_view(cur@)));
        out
    }
}

} // verus!
