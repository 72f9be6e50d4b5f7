//! Search documents extracted from a stream of events, and the line-number
//! gutter of highlighted code.
use vstd::prelude::*;
use crate::markdown::{Event, EventView, Tag, TagEnd, TagView, events_view, decimal, push_decimal};
use crate::text::push_str;

verus! {

/// The numbers `from..=to`, each but the last followed by a newline.
pub open spec fn line_numbers(from: nat, to: nat) -> Seq<char>
    decreases to - from,
{
    if from > to {
        Seq::empty()
    } else if from == to {
        decimal(to)
    } else {
        decimal(from) + seq!['\n'] + line_numbers(from + 1, to)
    }
}

/// Highlighted `code` beside a gutter that numbers its `lines` lines.
pub open spec fn code_div_of(lines: nat, code: Seq<char>) -> Seq<char> {
    "<div class=\"code\" style=\"display: flex;\">"@ + "<pre class=\"line-nums\">"@ + line_numbers(1, lines)
        + "</pre>"@ + "<pre class=\"code\">"@ + code + "</pre>"@ + "</div>"@
}

/// Places `code` beside a gutter numbered from 1 to `lines`.
pub fn code_div(lines: usize, code: String) -> (r: String)
    ensures
        r@ == code_div_of(lines as nat, code@),
{
    let mut div = String::new();
    push_str(&mut div, "<div class=\"code\" style=\"display: flex;\">");
    push_str(&mut div, "<pre class=\"line-nums\">");
    let ghost head = div@;
    let mut i: usize = 1;
    while i < lines
        invariant
            1 <= i,
            i <= lines || lines == 0,
            div@ + line_numbers(i as nat, lines as nat) == head + line_numbers(1, lines as nat),
        decreases lines - i,
    {
        let ghost before = div@;
        push_decimal(&mut div, i);
        push_str(&mut div, "\n");
        proof {
            reveal_strlit("\n");
            assert(div@ + line_numbers((i + 1) as nat, lines as nat) =~= before + line_numbers(i as nat, lines as nat));
        }
        i += 1;
    }
    if lines >= 1 {
        let ghost before = div@;
        push_decimal(&mut div, lines);
        assert(line_numbers(i as nat, lines as nat) == decimal(lines as nat));
        assert(div@ =~= before + line_numbers(i as nat, lines as nat));
    }
    assert(div@ =~= head + line_numbers(1, lines as nat));
    push_str(&mut div, "</pre>");
    push_str(&mut div, "<pre class=\"code\">");
    push_str(&mut div, code.as_str());
    push_str(&mut div, "</pre>");
    push_str(&mut div, "</div>");
    assert(div@ =~= code_div_of(lines as nat, code@));
    div
}

/// One searchable section of a document: the part under a heading with an id.
pub struct LunrDocument {
    id: String,
    title: String,
    breadcrumb: String,
    body: String,
}

/// The contents of a `LunrDocument`.
pub struct DocView {
    pub id: Seq<char>,
    pub title: Seq<char>,
    pub breadcrumb: Seq<char>,
    pub body: Seq<char>,
}

impl View for LunrDocument {
    type V = DocView;

    closed spec fn view(&self) -> DocView {
        DocView { id: self.id@, title: self.title@, breadcrumb: self.breadcrumb@, body: self.body@ }
    }
}

impl LunrDocument {
    pub fn id(&self) -> (r: &str)
        ensures
            r@ == self@.id,
    {
        self.id.as_str()
    }

    /// The title, breadcrumb and body, in that order.
    pub fn fields(&self) -> (r: [&str; 3])
        ensures
            r[0]@ == self@.title,
            r[1]@ == self@.breadcrumb,
            r[2]@ == self@.body,
    {
        [self.title.as_str(), self.breadcrumb.as_str(), self.body.as_str()]
    }
}

/// What the indexer has gathered: the documents, the headings above the
/// current point with their levels, and whether a heading is being read.
pub struct IndexState {
    pub docs: Seq<DocView>,
    pub stack: Seq<(u8, Seq<char>)>,
    pub in_heading: bool,
}

/// The headings of `stack` whose level is below `level`, from the bottom.
pub open spec fn pop_to(stack: Seq<(u8, Seq<char>)>, level: u8) -> Seq<(u8, Seq<char>)>
    decreases stack.len(),
{
    if stack.len() > 0 && stack.last().0 >= level {
        pop_to(stack.drop_last(), level)
    } else {
        stack
    }
}

/// The names of `stack`, joined by ` > `.
pub open spec fn breadcrumb_of(stack: Seq<(u8, Seq<char>)>) -> Seq<char>
    decreases stack.len(),
{
    if stack.len() == 0 {
        Seq::empty()
    } else if stack.len() == 1 {
        stack[0].1
    } else {
        breadcrumb_of(stack.drop_last()) + " > "@ + stack.last().1
    }
}

pub open spec fn with_last(docs: Seq<DocView>, d: DocView) -> Seq<DocView> {
    docs.update(docs.len() - 1, d)
}

/// The index after one more event. A heading with an id starts a document
/// and closes the headings at or below its level; its text is the title;
/// other text joins the body of the last document; its end records the
/// breadcrumb of the headings above and including it.
pub open spec fn index_step(st: IndexState, e: EventView) -> IndexState {
    match e {
        EventView::Start(TagView::Heading { level, id: Some(id), .. }) => IndexState {
            docs: st.docs.push(DocView { id, title: Seq::empty(), breadcrumb: Seq::empty(), body: Seq::empty() }),
            stack: pop_to(st.stack, level),
            in_heading: true,
        },
        EventView::Text(s) => index_text(st, s),
        EventView::Code(s) => index_text(st, s),
        EventView::End(TagEnd::Heading(level)) => if st.in_heading {
            if st.docs.len() > 0 {
                let d = st.docs.last();
                let stack = st.stack.push((level, d.title));
                IndexState {
                    docs: with_last(st.docs, DocView { breadcrumb: breadcrumb_of(stack), ..d }),
                    stack,
                    in_heading: false,
                }
            } else {
                IndexState { in_heading: false, ..st }
            }
        } else {
            st
        },
        _ => st,
    }
}

pub open spec fn index_text(st: IndexState, s: Seq<char>) -> IndexState {
    if st.docs.len() == 0 {
        st
    } else if st.in_heading {
        let d = st.docs.last();
        IndexState { docs: with_last(st.docs, DocView { title: d.title + s, ..d }), ..st }
    } else {
        let d = st.docs.last();
        IndexState { docs: with_last(st.docs, DocView { body: d.body + s, ..d }), ..st }
    }
}

/// The index after the events `evs`.
pub open spec fn index_all(st: IndexState, evs: Seq<EventView>) -> IndexState
    decreases evs.len(),
{
    if evs.len() == 0 {
        st
    } else {
        index_step(index_all(st, evs.drop_last()), evs.last())
    }
}

pub open spec fn docs_view(docs: Seq<LunrDocument>) -> Seq<DocView> {
    docs.map_values(|d: LunrDocument| d@)
}

/// The stage that gathers searchable documents, one per heading with an id.
pub struct LunrIndexer {
    pub docs: Vec<LunrDocument>,
}

struct Crumb {
    level: u8,
    name: String,
}

fn breadcrumb_string(stack: &Vec<Crumb>) -> (r: String)
    ensures
        r@ == breadcrumb_of(stack@.map_values(|c: Crumb| (c.level, c.name@))),
{
    let ghost sv = stack@.map_values(|c: Crumb| (c.level, c.name@));
    let mut s = String::new();
    let mut i: usize = 0;
    while i < stack.len()
        invariant
            i <= stack@.len(),
            sv == stack@.map_values(|c: Crumb| (c.level, c.name@)),
            s@ == breadcrumb_of(sv.take(i as int)),
        decreases stack.len() - i,
    {
        if i > 0 {
            push_str(&mut s, " > ");
        }
        push_str(&mut s, stack[i].name.as_str());
        assert(sv.take(i + 1).drop_last() =~= sv.take(i as int));
        i += 1;
    }
    assert(sv.take(stack@.len() as int) =~= sv);
    s
}

impl LunrIndexer {
    pub fn new() -> (r: LunrIndexer)
        ensures
            r.docs@.len() == 0,
    {
        LunrIndexer { docs: Vec::new() }
    }

    /// Reads the events of a document and gathers its searchable sections.
    pub fn remap(&mut self, events: &Vec<Event>)
        ensures
            docs_view(final(self).docs@) == index_all(
                IndexState { docs: docs_view(old(self).docs@), stack: Seq::empty(), in_heading: false },
                events_view(events@),
            ).docs,
    {
        let ghost ev = events_view(events@);
        let ghost start = IndexState { docs: docs_view(self.docs@), stack: Seq::empty(), in_heading: false };
        let mut stack: Vec<Crumb> = Vec::new();
        let mut in_heading = false;
        let mut i: usize = 0;
        assert(stack@.map_values(|c: Crumb| (c.level, c.name@)) =~= Seq::<(u8, Seq<char>)>::empty());
        while i < events.len()
            invariant
                i <= events@.len(),
                ev == events_view(events@),
                ({
                    let st = index_all(start, ev.take(i as int));
                    &&& st.docs == docs_view(self.docs@)
                    &&& st.stack == stack@.map_values(|c: Crumb| (c.level, c.name@))
                    &&& st.in_heading == in_heading
                }),
            decreases events.len() - i,
        {
            assert(ev.take(i + 1).drop_last() =~= ev.take(i as int));
            let ghost st0 = index_all(start, ev.take(i as int));
            let ghost e = events@[i as int]@;
            assert(ev.take(i + 1).last() == e);
            match &events[i] {
                Event::Start(Tag::Heading { level, id: Some(id), .. }) => {
                    while stack.len() > 0 && stack[stack.len() - 1].level >= *level
                        invariant
                            pop_to(st0.stack, *level) == pop_to(stack@.map_values(|c: Crumb| (c.level, c.name@)), *level),
                        decreases stack@.len(),
                    {
                        let ghost before = stack@.map_values(|c: Crumb| (c.level, c.name@));
                        stack.pop();
                        assert(stack@.map_values(|c: Crumb| (c.level, c.name@)) =~= before.drop_last());
                    }
                    in_heading = true;
                    self.docs.push(LunrDocument {
                        id: id.clone(),
                        title: String::new(),
                        breadcrumb: String::new(),
                        body: String::new(),
                    });
                    assert(docs_view(self.docs@) =~= index_step(st0, e).docs);
                },
                Event::Text(s) | Event::Code(s) => {
                    let n = self.docs.len();
                    if n > 0 {
                        let ghost d0 = self.docs@[n - 1]@;
                        if in_heading {
                            push_str(&mut self.docs[n - 1].title, s.as_str());
                        } else {
                            push_str(&mut self.docs[n - 1].body, s.as_str());
                        }
                        assert(docs_view(self.docs@) =~= index_step(st0, e).docs);
                    }
                },
                Event::End(TagEnd::Heading(level)) => {
                    if in_heading {
                        let n = self.docs.len();
                        if n > 0 {
                            let name = self.docs[n - 1].title.clone();
                            let ghost sv0 = stack@.map_values(|c: Crumb| (c.level, c.name@));
                            stack.push(Crumb { level: *level, name });
                            assert(stack@.map_values(|c: Crumb| (c.level, c.name@)) =~= sv0.push((*level, self.docs@[n - 1]@.title)));
                            let crumb = breadcrumb_string(&stack);
                            self.docs[n - 1].breadcrumb = crumb;
                            assert(docs_view(self.docs@) =~= index_step(st0, e).docs);
                        }
                        in_heading = false;
                    }
                },
                _ => {},
            }
            i += 1;
        }
        assert(ev.take(events@.len() as int) =~= ev);
    }
}

} // verus!
