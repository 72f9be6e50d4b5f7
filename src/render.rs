//! Errors that chain their causes, and the decisions of the rendering pass:
//! what each collection renders, in which kind, and how two independent
//! result streams combine.
use vstd::prelude::*;
use crate::fstree::{EntryId, FsTree};
use crate::text::chars_of;
use crate::taxonomy::{Collection, Item, Kind, item_entries};

verus! {

/// One link of an error: a message and named details.
pub struct MakeshiftError {
    pub message: String,
    pub parameters: Vec<(Option<String>, String)>,
}

/// An error and the chain of its causes, outermost first.
pub struct Error {
    links: Vec<MakeshiftError>,
}

impl Error {
    pub closed spec fn links(&self) -> Seq<MakeshiftError> {
        self.links@
    }

    /// An error of one link.
    pub fn new(detail: MakeshiftError) -> (r: Error)
        ensures
            r.links() == seq![detail],
    {
        let mut links = Vec::new();
        links.push(detail);
        Error { links }
    }

    /// `other`, with this error behind the last of its causes.
    pub fn chain(self, other: Error) -> (r: Error)
        ensures
            r.links() == other.links() + self.links(),
    {
        let mut r = other;
        let mut mine = self.links;
        r.links.append(&mut mine);
        r
    }

    /// The links of this error, outermost first.
    pub fn into_links(self) -> (r: Vec<MakeshiftError>)
        ensures
            r@ == self.links(),
    {
        self.links
    }
}

/// The outcome of two independent streams of work: the first's value where
/// both succeed, the one error where one fails, and, where both fail, the
/// first's error with the second's behind it as its inner cause.
pub fn combine_results<T>(collected: Result<T, Error>, processed: Result<(), Error>) -> (r: Result<
    T,
    Error,
>)
    ensures
        collected is Ok && processed is Ok ==> r == collected,
        collected is Ok && processed is Err ==> r == Err::<T, Error>(processed->Err_0),
        collected is Err && processed is Ok ==> r == Err::<T, Error>(collected->Err_0),
        collected is Err && processed is Err ==> (r matches Err(e) && e.links() == (
        collected->Err_0).links() + (processed->Err_0).links()),
{
    match (collected, processed) {
        (Ok(v), Ok(_)) => Ok(v),
        (Ok(_), Err(e)) => Err(e),
        (Err(e), Ok(_)) => Err(e),
        (Err(e1), Err(e2)) => Err(e2.chain(e1)),
    }
}

/// The data items of `groups`, each with the directory that holds it.
pub open spec fn data_plan(groups: Seq<(EntryId, Vec<Item>)>) -> Seq<(Kind, EntryId)>
    decreases groups.len(),
{
    if groups.len() == 0 {
        Seq::empty()
    } else {
        let g = groups.last();
        data_plan(groups.drop_last()) + item_entries(g.1@).map_values(
            |e: EntryId| (Kind::Datum(g.0), e),
        )
    }
}

/// What a collection renders: its index, then its data items group by
/// group, then its direct items with their positions.
pub open spec fn plan_of(c: Collection) -> Seq<(Kind, EntryId)> {
    (match c.index {
        Some(it) => seq![(Kind::Index, it.entry)],
        None => Seq::empty(),
    }) + data_plan(c.data@) + Seq::new(c.items@.len(), |k: int| (Kind::Item(k as usize), c.items@[k].entry))
}

impl Collection {
    /// Each item of this collection with the kind it renders as.
    pub fn render_plan(&self) -> (r: Vec<(Kind, EntryId)>)
        ensures
            r@ == plan_of(*self),
    {
        let mut r: Vec<(Kind, EntryId)> = Vec::new();
        match &self.index {
            Some(it) => r.push((Kind::Index, it.entry)),
            None => {},
        }
        let ghost head = r@;
        let mut g: usize = 0;
        while g < self.data.len()
            invariant
                g <= self.data@.len(),
                r@ == head + data_plan(self.data@.take(g as int)),
            decreases self.data.len() - g,
        {
            let dir = self.data[g].0;
            let ghost before = r@;
            let mut k: usize = 0;
            while k < self.data[g].1.len()
                invariant
                    g < self.data@.len(),
                    dir == self.data@[g as int].0,
                    k <= self.data@[g as int].1@.len(),
                    r@ == before + item_entries(self.data@[g as int].1@.take(k as int)).map_values(
                        |e: EntryId| (Kind::Datum(dir), e),
                    ),
                decreases self.data@[g as int].1@.len() - k,
            {
                r.push((Kind::Datum(dir), self.data[g].1[k].entry));
                assert(item_entries(self.data@[g as int].1@.take(k + 1)).map_values(
                    |e: EntryId| (Kind::Datum(dir), e),
                ) =~= item_entries(self.data@[g as int].1@.take(k as int)).map_values(
                    |e: EntryId| (Kind::Datum(dir), e),
                ).push((Kind::Datum(dir), self.data@[g as int].1@[k as int].entry)));
                k += 1;
            }
            assert(self.data@[g as int].1@.take(k as int) =~= self.data@[g as int].1@);
            assert(self.data@.take(g + 1).drop_last() =~= self.data@.take(g as int));
            proof {
                lemma_data_plan_step(self.data@, g as int);
            }
            g += 1;
        }
        assert(self.data@.take(self.data@.len() as int) =~= self.data@);
        let ghost mid = r@;
        let mut k: usize = 0;
        while k < self.items.len()
            invariant
                k <= self.items@.len(),
                r@ == mid + Seq::new(k as nat, |q: int| (Kind::Item(q as usize), self.items@[q].entry)),
            decreases self.items.len() - k,
        {
            r.push((Kind::Item(k), self.items[k].entry));
            assert(Seq::new((k + 1) as nat, |q: int| (Kind::Item(q as usize), self.items@[q].entry))
                =~= Seq::new(k as nat, |q: int| (Kind::Item(q as usize), self.items@[q].entry)).push(
                (Kind::Item(k), self.items@[k as int].entry),
            ));
            k += 1;
        }
        assert(r@ =~= plan_of(*self));
        r
    }
}

proof fn lemma_data_plan_step(groups: Seq<(EntryId, Vec<Item>)>, g: int)
    requires
        0 <= g < groups.len(),
    ensures
        data_plan(groups.take(g + 1)) == data_plan(groups.take(g)) + item_entries(groups[g].1@).map_values(
            |e: EntryId| (Kind::Datum(groups[g].0), e),
        ),
{
    assert(groups.take(g + 1).drop_last() =~= groups.take(g));
    assert(groups.take(g + 1).last() == groups[g]);
}

/// The rank of `c` in path order: `/` first, then every other character in
/// code point order.
pub open spec fn path_rank(c: char) -> int {
    if c == '/' { 0 } else { (c as u32) as int + 1 }
}

/// How path `a` compares with path `b`, component by component: -1, 0 or 1.
pub open spec fn path_cmp(a: Seq<char>, b: Seq<char>) -> int
    decreases a.len(),
{
    if a.len() == 0 {
        if b.len() == 0 { 0 } else { -1 }
    } else if b.len() == 0 {
        1
    } else if path_rank(a[0]) < path_rank(b[0]) {
        -1
    } else if path_rank(a[0]) > path_rank(b[0]) {
        1
    } else {
        path_cmp(a.skip(1), b.skip(1))
    }
}

proof fn lemma_path_cmp_antisymmetric(a: Seq<char>, b: Seq<char>)
    ensures
        path_cmp(a, b) == -path_cmp(b, a),
    decreases a.len(),
{
    if a.len() > 0 && b.len() > 0 && path_rank(a[0]) == path_rank(b[0]) {
        lemma_path_cmp_antisymmetric(a.skip(1), b.skip(1));
    }
}

fn compare_paths(a: &str, b: &str) -> (r: i8)
    ensures
        r as int == path_cmp(a@, b@),
{
    let x = chars_of(a);
    let y = chars_of(b);
    let mut i: usize = 0;
    assert(x@.skip(0) =~= x@);
    assert(y@.skip(0) =~= y@);
    while i < x.len() && i < y.len()
        invariant
            x@ == a@,
            y@ == b@,
            i <= x@.len(),
            i <= y@.len(),
            path_cmp(x@, y@) == path_cmp(x@.skip(i as int), y@.skip(i as int)),
        decreases x.len() - i,
    {
        let c = x[i];
        let d = y[i];
        let rc: u64 = if c == '/' { 0 } else { (c as u32) as u64 + 1 };
        let rd: u64 = if d == '/' { 0 } else { (d as u32) as u64 + 1 };
        assert(rc as int == path_rank(c) && rd as int == path_rank(d));
        assert(x@.skip(i as int)[0] == c && y@.skip(i as int)[0] == d);
        if rc < rd {
            return -1;
        }
        if rc > rd {
            return 1;
        }
        assert(x@.skip(i as int).skip(1) =~= x@.skip(i + 1));
        assert(y@.skip(i as int).skip(1) =~= y@.skip(i + 1));
        i += 1;
    }
    if i == x.len() && i == y.len() {
        0
    } else if i == x.len() {
        -1
    } else {
        1
    }
}

/// The paths of the entries of `items` are in order.
pub open spec fn sorted_by_path(t: &FsTree, items: Seq<Item>) -> bool {
    forall|k: int| 0 <= k < items.len() - 1 ==> path_cmp(
        t.path_of(#[trigger] items[k].entry),
        t.path_of(items[k + 1].entry),
    ) <= 0
}

/// Sorts `items` by the paths of their entries.
pub fn sort_by_path(t: &FsTree, items: &mut Vec<Item>)
    requires
        forall|k: int| 0 <= k < old(items)@.len() ==> t.valid_id(#[trigger] old(items)@[k].entry),
    ensures
        sorted_by_path(t, final(items)@),
        item_entries(final(items)@).to_multiset() == item_entries(old(items)@).to_multiset(),
        forall|k: int| 0 <= k < final(items)@.len() ==> t.valid_id(#[trigger] final(items)@[k].entry),
{
    let n = items.len();
    if n < 2 {
        return;
    }
    let mut i: usize = 1;
    while i < n
        invariant
            n == items@.len(),
            1 <= i <= n,
            forall|k: int| 0 <= k < n ==> t.valid_id(#[trigger] items@[k].entry),
            item_entries(items@).to_multiset() == item_entries(old(items)@).to_multiset(),
            forall|a: int| 0 <= a && a + 1 < i ==> path_cmp(
                t.path_of(#[trigger] items@[a].entry),
                t.path_of(items@[a + 1].entry),
            ) <= 0,
        decreases n - i,
    {
        let mut j = i;
        while j > 0 && compare_paths(
            t.index(items[j - 1].entry).path.as_str(),
            t.index(items[j].entry).path.as_str(),
        ) > 0
            invariant
                n == items@.len(),
                0 <= j <= i < n,
                forall|k: int| 0 <= k < n ==> t.valid_id(#[trigger] items@[k].entry),
                item_entries(items@).to_multiset() == item_entries(old(items)@).to_multiset(),
                forall|a: int| 0 <= a && a + 1 <= i && a + 1 != j ==> path_cmp(
                    t.path_of(#[trigger] items@[a].entry),
                    t.path_of(items@[a + 1].entry),
                ) <= 0,
                0 < j < i ==> path_cmp(t.path_of(items@[j - 1].entry), t.path_of(items@[j + 1].entry)) <= 0,
            decreases j,
        {
            let ghost before = items@;
            proof {
                lemma_path_cmp_antisymmetric(t.path_of(before[j - 1].entry), t.path_of(before[j as int].entry));
                if j >= 2 {
                    let a: int = j - 2;
                    assert(path_cmp(t.path_of(before[a].entry), t.path_of(before[a + 1].entry)) <= 0);
                }
            }
            let x = items.remove(j);
            items.insert(j - 1, x);
            proof {
                assert(items@ =~= before.update(j - 1, before[j as int]).update(j as int, before[j - 1]));
                let es = item_entries(before);
                assert(item_entries(items@) =~= es.update(j - 1, es[j as int]).update(j as int, es[j - 1]));
                lemma_exchange_keeps(es, j as int);
                assert forall|a: int| 0 <= a && a + 1 <= i && a + 1 != j - 1 implies path_cmp(
                    t.path_of(#[trigger] items@[a].entry),
                    t.path_of(items@[a + 1].entry),
                ) <= 0 by {
                    if a == j {
                        assert(items@[a] == before[j - 1]);
                        assert(items@[a + 1] == before[j + 1]);
                    } else if a != j - 1 && a + 1 != j - 1 {
                        assert(items@[a] == before[a]);
                        assert(items@[a + 1] == before[a + 1]);
                    }
                }
                if j >= 2 {
                    assert(items@[j - 2] == before[j - 2]);
                    assert(items@[j as int] == before[j - 1]);
                }
            }
            j -= 1;
        }
        i += 1;
    }
}

/// Exchanging two adjacent positions keeps the multiset.
proof fn lemma_exchange_keeps(s: Seq<EntryId>, j: int)
    requires
        0 < j < s.len(),
    ensures
        s.update(j - 1, s[j]).update(j, s[j - 1]).to_multiset() == s.to_multiset(),
{
    let x = s[j];
    let y = s[j - 1];
    let s1 = s.update(j - 1, x);
    let s2 = s1.update(j, y);
    vstd::seq_lib::to_multiset_update(s, j - 1, x);
    vstd::seq_lib::to_multiset_update(s1, j, y);
    broadcast use vstd::multiset::group_multiset_axioms;
    vstd::seq_lib::to_multiset_contains(s, y);
    assert(s[j - 1] == y);
    assert(s.to_multiset().count(y) > 0);
    assert(s1[j] == x);
    assert(s2.to_multiset() =~= s.to_multiset());
}

impl Collection {
    /// Sorts the direct items, and the items of each data group, by path.
    pub fn sort_by_path(&mut self, t: &FsTree)
        requires
            forall|k: int| 0 <= k < old(self).items@.len() ==> t.valid_id(#[trigger] old(self).items@[k].entry),
            forall|g: int, k: int| 0 <= g < old(self).data@.len() && 0 <= k < old(self).data@[g].1@.len()
                ==> t.valid_id(#[trigger] old(self).data@[g].1@[k].entry),
        ensures
            sorted_by_path(t, final(self).items@),
            item_entries(final(self).items@).to_multiset() == item_entries(old(self).items@).to_multiset(),
            final(self).data@.len() == old(self).data@.len(),
            forall|g: int| 0 <= g < final(self).data@.len() ==> {
                &&& #[trigger] final(self).data@[g].0 == old(self).data@[g].0
                &&& sorted_by_path(t, final(self).data@[g].1@)
                &&& item_entries(final(self).data@[g].1@).to_multiset() == item_entries(old(self).data@[g].1@).to_multiset()
            },
    {
        sort_by_path(t, &mut self.items);
        let mut g: usize = 0;
        while g < self.data.len()
            invariant
                sorted_by_path(t, self.items@),
                item_entries(self.items@).to_multiset() == item_entries(old(self).items@).to_multiset(),
                g <= self.data@.len(),
                self.data@.len() == old(self).data@.len(),
                forall|q: int, k: int| g <= q < self.data@.len() && 0 <= k < self.data@[q].1@.len()
                    ==> t.valid_id(#[trigger] self.data@[q].1@[k].entry),
                forall|q: int| g <= q < self.data@.len() ==> #[trigger] self.data@[q] == old(self).data@[q],
                forall|q: int| 0 <= q < g ==> {
                    &&& #[trigger] self.data@[q].0 == old(self).data@[q].0
                    &&& sorted_by_path(t, self.data@[q].1@)
                    &&& item_entries(self.data@[q].1@).to_multiset() == item_entries(old(self).data@[q].1@).to_multiset()
                },
            decreases self.data.len() - g,
        {
            let ghost prev = self.data@;
            assert(prev[g as int] == old(self).data@[g as int]);
            sort_by_path(t, &mut self.data[g].1);
            assert(self.data@[g as int].0 == prev[g as int].0);
            assert(forall|q: int| 0 <= q < self.data@.len() && q != g ==> #[trigger] self.data@[q] == prev[q]);
            g += 1;
        }
    }
}

} // verus!
