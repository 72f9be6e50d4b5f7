//! The table of contents of a document: its headings, nested by level.
use vstd::prelude::*;
use crate::markdown::{Event, EventView, Tag, TagView, events_view, opt_view};
use crate::text::push_str;

verus! {

/// One heading of the table of contents, with the positions of the
/// headings nested under it.
pub struct TocEntry {
    pub title: String,
    pub level: usize,
    pub id: Option<String>,
    pub children: Vec<usize>,
}

/// The contents of a `TocEntry`.
pub struct TocView {
    pub title: Seq<char>,
    pub level: usize,
    pub id: Option<Seq<char>>,
    pub children: Seq<usize>,
}

impl View for TocEntry {
    type V = TocView;

    open spec fn view(&self) -> TocView {
        TocView { title: self.title@, level: self.level, id: opt_view(self.id), children: self.children@ }
    }
}

/// The last position of `list` whose entry has a level below `level`.
pub open spec fn pick(entries: Seq<TocView>, list: Seq<usize>, level: usize) -> Option<usize>
    decreases list.len(),
{
    if list.len() == 0 {
        None
    } else if list.last() < entries.len() && entries[list.last() as int].level < level {
        Some(list.last())
    } else {
        pick(entries, list.drop_last(), level)
    }
}

/// The entry that a heading of `level` nests under: the picked entry of
/// `list`, or the one that its children lead to, followed down as far as it
/// goes.
pub open spec fn find_parent_in(entries: Seq<TocView>, list: Seq<usize>, level: usize, fuel: nat) -> Option<usize>
    decreases fuel,
{
    if fuel == 0 {
        None
    } else {
        match pick(entries, list, level) {
            None => None,
            Some(x) => match find_parent_in(entries, entries[x as int].children, level, (fuel - 1) as nat) {
                Some(p) => Some(p),
                None => Some(x),
            },
        }
    }
}

/// What the table of contents holds while it reads a document.
pub struct TocState {
    pub entries: Seq<TocView>,
    pub roots: Seq<usize>,
    pub pending: Option<(usize, Option<Seq<char>>)>,
}

/// The table after one more event: a heading start waits for its title,
/// which is the next text or code; the entry then nests under the entry
/// that `find_parent_in` names, or becomes an outermost one.
pub open spec fn toc_step(st: TocState, e: EventView) -> TocState {
    match e {
        EventView::Start(TagView::Heading { level, id, .. }) => TocState { pending: Some((level as usize, id)), ..st },
        EventView::Text(s) => toc_title(st, s),
        EventView::Code(s) => toc_title(st, s),
        _ => st,
    }
}

pub open spec fn toc_title(st: TocState, s: Seq<char>) -> TocState {
    match st.pending {
        None => st,
        Some((level, id)) => {
            let n = st.entries.len() as usize;
            let entry = TocView { title: s, level, id, children: Seq::empty() };
            match find_parent_in(st.entries, st.roots, level, st.entries.len()) {
                Some(x) => TocState {
                    entries: st.entries.update(x as int, TocView { children: st.entries[x as int].children.push(n), ..st.entries[x as int] }).push(entry),
                    roots: st.roots,
                    pending: None,
                },
                None => TocState { entries: st.entries.push(entry), roots: st.roots.push(n), pending: None },
            }
        },
    }
}

/// The table after the events `evs`.
pub open spec fn toc_all(st: TocState, evs: Seq<EventView>) -> TocState
    decreases evs.len(),
{
    if evs.len() == 0 {
        st
    } else {
        toc_step(toc_all(st, evs.drop_last()), evs.last())
    }
}

pub open spec fn toc_start() -> TocState {
    TocState { entries: Seq::empty(), roots: Seq::empty(), pending: None }
}

/// A table of contents: its entries in document order and the positions of
/// the outermost ones. Every child position names a later entry.
pub struct TableOfContents {
    pub entries: Vec<TocEntry>,
    pub roots: Vec<usize>,
    /// A heading whose title is still to come.
    pub pending: Option<TocEntry>,
}

pub open spec fn entries_view(e: Seq<TocEntry>) -> Seq<TocView> {
    e.map_values(|t: TocEntry| t@)
}

proof fn lemma_pick_in(entries: Seq<TocView>, list: Seq<usize>, level: usize)
    ensures
        pick(entries, list, level) matches Some(x) ==> list.contains(x) && x < entries.len()
            && entries[x as int].level < level,
    decreases list.len(),
{
    if list.len() > 0 && !(list.last() < entries.len() && entries[list.last() as int].level < level) {
        lemma_pick_in(entries, list.drop_last(), level);
        if pick(entries, list, level) is Some {
            let x = pick(entries, list, level)->0;
            let k = choose|k: int| 0 <= k < list.drop_last().len() && list.drop_last()[k] == x;
            assert(list[k] == x);
        }
    } else if list.len() > 0 {
        assert(list[list.len() - 1] == list.last());
    }
}

proof fn lemma_find_in(entries: Seq<TocView>, list: Seq<usize>, level: usize, fuel: nat)
    ensures
        find_parent_in(entries, list, level, fuel) matches Some(x) ==> x < entries.len(),
    decreases fuel,
{
    if fuel > 0 {
        lemma_pick_in(entries, list, level);
        match pick(entries, list, level) {
            None => {},
            Some(x) => {
                lemma_find_in(entries, entries[x as int].children, level, (fuel - 1) as nat);
            },
        }
    }
}

fn pick_exec(entries: &Vec<TocEntry>, list: &Vec<usize>, level: usize) -> (r: Option<usize>)
    ensures
        r == pick(entries_view(entries@), list@, level),
{
    let ghost ev = entries_view(entries@);
    let mut k = list.len();
    assert(list@.take(k as int) =~= list@);
    while k > 0
        invariant
            k <= list@.len(),
            ev == entries_view(entries@),
            pick(ev, list@, level) == pick(ev, list@.take(k as int), level),
        decreases k,
    {
        let x = list[k - 1];
        assert(list@.take(k as int).last() == x);
        assert(list@.take(k as int).drop_last() =~= list@.take(k - 1));
        if x < entries.len() && entries[x].level < level {
            return Some(x);
        }
        k -= 1;
    }
    None
}

impl TableOfContents {
    pub fn new() -> (r: TableOfContents)
        ensures
            r.entries@.len() == 0,
            r.roots@.len() == 0,
    {
        TableOfContents { entries: Vec::new(), roots: Vec::new(), pending: None }
    }

    /// Forgets every entry.
    pub fn reset(&mut self)
        ensures
            final(self).entries@.len() == 0,
            final(self).roots@.len() == 0,
            final(self).pending is None,
    {
        self.entries = Vec::new();
        self.roots = Vec::new();
        self.pending = None;
    }

    pub open spec fn state(&self) -> TocState {
        TocState {
            entries: entries_view(self.entries@),
            roots: self.roots@,
            pending: match self.pending {
                Some(p) => Some((p.level, opt_view(p.id))),
                None => None,
            },
        }
    }

    /// Builds the table of contents of a document from its events.
    pub fn remap(&mut self, events: &Vec<Event>)
        ensures
            final(self).state().entries == toc_all(toc_start(), events_view(events@)).entries,
            final(self).state().roots == toc_all(toc_start(), events_view(events@)).roots,
    {
        self.reset();
        let ghost ev = events_view(events@);
        let mut i: usize = 0;
        assert(entries_view(self.entries@) =~= Seq::<TocView>::empty());
        assert(self.roots@ =~= Seq::<usize>::empty());
        assert(ev.take(0) =~= Seq::<EventView>::empty());
        assert(self.state() =~~= toc_all(toc_start(), ev.take(0)));
        while i < events.len()
            invariant
                i <= events@.len(),
                ev == events_view(events@),
                self.state() == toc_all(toc_start(), ev.take(i as int)),
            decreases events.len() - i,
        {
            assert(ev.take(i + 1).drop_last() =~= ev.take(i as int));
            let ghost st0 = self.state();
            let ghost e = events@[i as int]@;
            assert(ev.take(i + 1).last() == e);
            match &events[i] {
                Event::Start(Tag::Heading { level, id, .. }) => {
                    let id = match id {
                        Some(s) => Some(s.clone()),
                        None => None,
                    };
                    self.pending = Some(TocEntry { title: String::new(), level: *level as usize, id, children: Vec::new() });
                    assert(self.state() =~~= toc_step(st0, e));
                },
                Event::Text(s) | Event::Code(s) => {
                    if self.pending.is_some() {
                        self.add_titled(s);
                        assert(self.state() =~~= toc_step(st0, e));
                    }
                },
                _ => {},
            }
            i += 1;
        }
        assert(ev.take(events@.len() as int) =~= ev);
    }

    /// Gives the pending heading the title `s` and files it.
    fn add_titled(&mut self, s: &String)
        requires
            old(self).pending is Some,
        ensures
            final(self).state() == toc_title(old(self).state(), s@),
    {
        let mut entry = match self.pending.take() {
            Some(e) => e,
            None => {
                return;
            },
        };
        let ghost st0 = old(self).state();
        let ghost level = entry.level;
        let ghost id = opt_view(entry.id);
        entry.title = String::new();
        push_str(&mut entry.title, s.as_str());
        entry.children = Vec::new();
        let parent = self.find_parent(entry.level);
        let n = self.entries.len();
        let ghost ne = TocView { title: s@, level, id, children: Seq::empty() };
        assert(entry@ == ne);
        match parent {
            Some(x) => {
                proof {
                    lemma_find_in(st0.entries, st0.roots, level, st0.entries.len() as nat);
                }
                self.entries[x].children.push(n);
                self.entries.push(entry);
                assert(entries_view(self.entries@) =~= st0.entries.update(x as int, TocView { children: st0.entries[x as int].children.push(n), ..st0.entries[x as int] }).push(ne));
            },
            None => {
                self.entries.push(entry);
                self.roots.push(n);
                assert(entries_view(self.entries@) =~= st0.entries.push(ne));
            },
        }
    }

    /// The entry that a heading of `level` nests under, if any.
    pub fn find_parent(&self, level: usize) -> (r: Option<usize>)
        ensures
            r == find_parent_in(entries_view(self.entries@), self.roots@, level, self.entries@.len() as nat),
    {
        let ghost ev = entries_view(self.entries@);
        let mut list: Vec<usize> = self.roots.clone();
        assert(list@ =~= self.roots@);
        let mut found: Option<usize> = None;
        let mut fuel = self.entries.len();
        let mut going = true;
        while going && fuel > 0
            invariant
                ev == entries_view(self.entries@),
                fuel <= self.entries@.len(),
                going ==> find_parent_in(ev, self.roots@, level, self.entries@.len() as nat) == match find_parent_in(ev, list@, level, fuel as nat) {
                    Some(p) => Some(p),
                    None => found,
                },
                !going ==> find_parent_in(ev, self.roots@, level, self.entries@.len() as nat) == found,
            decreases fuel + if going { 1int } else { 0int },
        {
            match pick_exec(&self.entries, &list, level) {
                None => {
                    going = false;
                },
                Some(x) => {
                    proof {
                        lemma_pick_in(ev, list@, level);
                    }
                    found = Some(x);
                    list = self.entries[x].children.clone();
                    assert(list@ =~= ev[x as int].children);
                    fuel -= 1;
                },
            }
        }
        found
    }
}

} // verus!
