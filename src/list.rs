//! An append-only list whose display order can be changed without moving
//! the items.
use vstd::prelude::*;
use core::cmp::Ordering;

verus! {

/// Whether `o` holds each of `0..o.len()` exactly once.
pub open spec fn is_permutation(o: Seq<usize>) -> bool {
    &&& forall|k: int| 0 <= k < o.len() ==> #[trigger] o[k] < o.len()
    &&& forall|a: int, b: int| 0 <= a < b < o.len() ==> #[trigger] o[a] != #[trigger] o[b]
}

/// The items of `items` at the positions `ord`, in that order.
pub open spec fn arranged<T>(items: Seq<T>, ord: Seq<usize>) -> Seq<T> {
    Seq::new(ord.len(), |k: int| items[ord[k] as int])
}

/// Exchanging two adjacent positions of an arrangement keeps its items.
proof fn lemma_swap_keeps_items<T>(items: Seq<T>, ord: Seq<usize>, j: int)
    requires
        0 < j < ord.len(),
        forall|k: int| 0 <= k < ord.len() ==> #[trigger] ord[k] < items.len(),
    ensures
        arranged(items, ord.update(j, ord[j - 1]).update(j - 1, ord[j])).to_multiset()
            == arranged(items, ord).to_multiset(),
{
    let d = arranged(items, ord);
    let x = items[ord[j] as int];
    let y = items[ord[j - 1] as int];
    let d1 = d.update(j, y);
    let d2 = d1.update(j - 1, x);
    assert(arranged(items, ord.update(j, ord[j - 1]).update(j - 1, ord[j])) =~= d2);
    vstd::seq_lib::to_multiset_update(d, j, y);
    vstd::seq_lib::to_multiset_update(d1, j - 1, x);
    assert(d1[j - 1] == y);
    broadcast use vstd::multiset::group_multiset_axioms;
    vstd::seq_lib::to_multiset_contains(d, x);
    assert(d[j] == x);
    assert(d.contains(x));
    assert(d.to_multiset().count(x) > 0);
    assert(d2.to_multiset() =~= d.to_multiset());
}

/// An append-only list. Items keep the place where they were stored; an
/// optional ordering maps display positions to storage positions. Positions
/// past the ordering's length display the item stored there.
pub struct List<T> {
    items: Vec<T>,
    ordering: Option<Vec<usize>>,
}

/// Whether `compare` may serve to sort: it can be called on any two items,
/// gives one answer for each pair, and never calls both `a` greater than `b`
/// and `b` greater than `a`.
pub open spec fn sound_comparator<T, F: Fn(&T, &T) -> Ordering>(compare: F) -> bool {
    &&& forall|a: &T, b: &T| #[trigger] compare.requires((a, b))
    &&& forall|a: &T, b: &T, o1: Ordering, o2: Ordering|
        #[trigger] compare.ensures((a, b), o1) && #[trigger] compare.ensures((a, b), o2) ==> o1
            == o2
    &&& forall|a: &T, b: &T, o: Ordering|
        #[trigger] compare.ensures((a, b), Ordering::Greater) && #[trigger] compare.ensures(
            (b, a),
            o,
        ) ==> o != Ordering::Greater
}

/// `compare` does not rank `a` after `b`.
pub open spec fn not_after<T, F: Fn(&T, &T) -> Ordering>(compare: F, a: T, b: T) -> bool {
    forall|o: Ordering| #[trigger] compare.ensures((&a, &b), o) ==> o != Ordering::Greater
}

impl<T> List<T> {
    /// The items in the order in which they were stored.
    pub closed spec fn storage(&self) -> Seq<T> {
        self.items@
    }

    /// The ordering: the storage position of each display position that it
    /// covers.
    pub closed spec fn order(&self) -> Seq<usize> {
        match self.ordering {
            Some(o) => o@,
            None => Seq::empty(),
        }
    }

    /// The storage position shown at display position `i`.
    pub open spec fn position(&self, i: int) -> int {
        if i < self.order().len() {
            self.order()[i] as int
        } else {
            i
        }
    }

    pub open spec fn wf(&self) -> bool {
        &&& self.order().len() <= self.storage().len()
        &&& is_permutation(self.order())
        &&& self.view().to_multiset() == self.storage().to_multiset()
    }

    /// The items in display order.
    pub open spec fn view(&self) -> Seq<T> {
        Seq::new(self.storage().len(), |i: int| self.storage()[self.position(i)])
    }

    /// An empty list.
    pub fn new() -> (r: List<T>)
        ensures
            r.wf(),
            r.storage().len() == 0,
            r.order().len() == 0,
    {
        let r = List { items: Vec::new(), ordering: None };
        assert(r.view() =~= r.storage());
        r
    }

    pub fn len(&self) -> (r: usize)
        ensures
            r == self.storage().len(),
    {
        self.items.len()
    }

    pub fn is_empty(&self) -> (r: bool)
        ensures
            r == (self.storage().len() == 0),
    {
        self.items.len() == 0
    }

    /// Appends `item`; it is displayed last, and nothing already stored moves.
    pub fn push(&mut self, item: T)
        requires
            old(self).wf(),
        ensures
            final(self).wf(),
            final(self).storage() == old(self).storage().push(item),
            final(self).order() == old(self).order(),
            final(self).view() == old(self).view().push(item),
    {
        self.items.push(item);
        assert(self.view() =~= old(self).view().push(item));
        proof {
            vstd::seq_lib::to_multiset_build(old(self).view(), item);
            vstd::seq_lib::to_multiset_build(old(self).storage(), item);
        }
    }

    /// The item at display position `i`, if there is one.
    pub fn get(&self, i: usize) -> (r: Option<&T>)
        requires
            self.wf(),
        ensures
            i < self.storage().len() ==> r == Some(&self.view()[i as int]),
            i >= self.storage().len() ==> r is None,
    {
        if i >= self.items.len() {
            return None;
        }
        let k = match &self.ordering {
            Some(o) => if i < o.len() {
                o[i]
            } else {
                i
            },
            None => i,
        };
        Some(&self.items[k])
    }

    /// Orders the display positions by `compare` over the stored items. The
    /// items themselves stay where they are.
    pub fn sort_by<F: Fn(&T, &T) -> Ordering>(&mut self, compare: F)
        requires
            old(self).wf(),
            sound_comparator(compare),
        ensures
            final(self).wf(),
            final(self).storage() == old(self).storage(),
            final(self).order().len() == old(self).storage().len(),
            final(self).view().to_multiset() == old(self).storage().to_multiset(),
            final(self).view().to_multiset() == old(self).view().to_multiset(),
            forall|i: int|
                0 <= i < final(self).view().len() - 1 ==> not_after(
                    compare,
                    #[trigger] final(self).view()[i],
                    final(self).view()[i + 1],
                ),
    {
        let n = self.items.len();
        let mut ord: Vec<usize> = Vec::new();
        let mut k: usize = 0;
        while k < n
            invariant
                k <= n == self.items@.len(),
                ord@.len() == k,
                forall|j: int| 0 <= j < k ==> #[trigger] ord@[j] == j,
            decreases n - k,
        {
            ord.push(k);
            k += 1;
        }
        assert(arranged(self.items@, ord@) =~= self.items@);
        let mut i: usize = 1;
        while i < n
            invariant
                n == self.items@.len(),
                ord@.len() == n,
                1 <= i || n == 0,
                i <= n || n == 0,
                is_permutation(ord@),
                sound_comparator(compare),
                arranged(self.items@, ord@).to_multiset() == self.items@.to_multiset(),
                forall|a: int|
                    0 <= a && a + 1 < i ==> #[trigger] not_after(
                        compare,
                        self.items@[ord@[a] as int],
                        self.items@[ord@[a + 1] as int],
                    ),
            decreases n - i,
        {
            let mut j = i;
            while j > 0
                invariant
                    n == self.items@.len(),
                    ord@.len() == n,
                    0 <= j <= i < n,
                    is_permutation(ord@),
                    sound_comparator(compare),
                    arranged(self.items@, ord@).to_multiset() == self.items@.to_multiset(),
                    forall|a: int|
                        0 <= a && a + 1 <= i && a + 1 != j ==> #[trigger] not_after(
                            compare,
                            self.items@[ord@[a] as int],
                            self.items@[ord@[a + 1] as int],
                        ),
                    0 < j < i ==> not_after(
                        compare,
                        self.items@[ord@[j - 1] as int],
                        self.items@[ord@[j + 1] as int],
                    ),
                ensures
                    n == self.items@.len(),
                    ord@.len() == n,
                    is_permutation(ord@),
                    arranged(self.items@, ord@).to_multiset() == self.items@.to_multiset(),
                    forall|a: int|
                        0 <= a && a + 1 <= i ==> #[trigger] not_after(
                            compare,
                            self.items@[ord@[a] as int],
                            self.items@[ord@[a + 1] as int],
                        ),
                decreases j,
            {
                let c = compare(&self.items[ord[j - 1]], &self.items[ord[j]]);
                match c {
                    Ordering::Greater => {},
                    _ => {
                        assert(not_after(
                            compare,
                            self.items@[ord@[j - 1] as int],
                            self.items@[ord@[j as int] as int],
                        ));
                        break;
                    },
                }
                let ghost before = ord@;
                proof {
                    lemma_swap_keeps_items(self.items@, before, j as int);
                    if j >= 2 {
                        let a: int = j - 2;
                        assert(not_after(
                            compare,
                            self.items@[ord@[a] as int],
                            self.items@[ord@[a + 1] as int],
                        ));
                    }
                }
                let x = ord[j];
                let y = ord[j - 1];
                ord.set(j, y);
                ord.set(j - 1, x);
                proof {
                    assert(not_after(compare, self.items@[x as int], self.items@[y as int]));
                    if j >= 2 {
                        assert(not_after(
                            compare,
                            self.items@[before[j - 2] as int],
                            self.items@[before[j - 1] as int],
                        ));
                        assert(ord@[j - 2] == before[j - 2]);
                        assert(ord@[j as int] == before[j - 1]);
                    }
                    assert forall|a: int, b: int|
                        0 <= a < b < ord@.len() implies #[trigger] ord@[a] != #[trigger] ord@[b] by {
                        let pa = if a == j { j - 1 } else if a == j - 1 { j as int } else { a };
                        let pb = if b == j { j - 1 } else if b == j - 1 { j as int } else { b };
                        assert(ord@[a] == before[pa]);
                        assert(ord@[b] == before[pb]);
                        if pa < pb {
                            assert(before[pa] != before[pb]);
                        } else {
                            assert(before[pb] != before[pa]);
                        }
                    }
                    assert forall|a: int|
                        0 <= a && a + 1 <= i && a + 1 != j - 1 implies #[trigger] not_after(
                            compare,
                            self.items@[ord@[a] as int],
                            self.items@[ord@[a + 1] as int],
                        ) by {
                        if a == j - 1 {
                        } else if a == j {
                            assert(ord@[a] == before[j - 1]);
                            assert(ord@[a + 1] == before[j + 1]);
                        } else if a + 1 == j - 1 {
                        } else {
                            assert(ord@[a] == before[a]);
                            assert(ord@[a + 1] == before[a + 1]);
                        }
                    }
                }
                j -= 1;
            }
            i += 1;
        }
        self.ordering = Some(ord);
        assert(self.view() =~= arranged(self.items@, ord@));
        assert forall|t: int| 0 <= t < self.view().len() - 1 implies not_after(
            compare,
            #[trigger] self.view()[t],
            self.view()[t + 1],
        ) by {
            assert(self.view()[t] == self.items@[ord@[t] as int]);
            assert(self.view()[t + 1] == self.items@[ord@[t + 1] as int]);
        }
    }
}

/// A range of display positions of a list, to be worked on apart from the
/// rest. Splitting it never copies an item.
pub struct Slice<'a, T> {
    list: &'a List<T>,
    start: usize,
    end: usize,
}

impl<'a, T> Slice<'a, T> {
    pub closed spec fn start(&self) -> nat {
        self.start as nat
    }

    pub closed spec fn end(&self) -> nat {
        self.end as nat
    }

    /// The items of the list, in display order.
    pub closed spec fn items(&self) -> Seq<T> {
        self.list.view()
    }

    pub closed spec fn wf(&self) -> bool {
        self.list.wf() && self.start <= self.end <= self.list.storage().len()
    }

    /// The items of the slice, in display order.
    pub open spec fn view(&self) -> Seq<T> {
        self.items().subrange(self.start() as int, self.end() as int)
    }

    /// Positions `start..end` of `list`.
    pub fn new(list: &'a List<T>, start: usize, end: usize) -> (r: Slice<'a, T>)
        requires
            list.wf(),
            start <= end <= list.storage().len(),
        ensures
            r.wf(),
            r.items() == list.view(),
            r.start() == start,
            r.end() == end,
    {
        Slice { list, start, end }
    }

    pub fn len(&self) -> (r: usize)
        requires
            self.wf(),
        ensures
            r == self.view().len(),
    {
        self.end - self.start
    }

    /// The item at position `i` of the slice, if there is one.
    pub fn get(&self, i: usize) -> (r: Option<&'a T>)
        requires
            self.wf(),
        ensures
            i < self.view().len() ==> r == Some(&self.view()[i as int]),
            i >= self.view().len() ==> r is None,
    {
        if i >= self.end - self.start {
            return None;
        }
        self.list.get(self.start + i)
    }

    /// The slice cut in two at position `mid`.
    pub fn split_at(self, mid: usize) -> (r: (Slice<'a, T>, Slice<'a, T>))
        requires
            self.wf(),
            mid <= self.view().len(),
        ensures
            r.0.wf() && r.1.wf(),
            r.0.items() == self.items() && r.1.items() == self.items(),
            r.0.start() == self.start() && r.0.end() == self.start() + mid,
            r.1.start() == self.start() + mid && r.1.end() == self.end(),
            r.0.view() + r.1.view() == self.view(),
    {
        let m = self.start + mid;
        let left = Slice { list: self.list, start: self.start, end: m };
        let right = Slice { list: self.list, start: m, end: self.end };
        assert(left.view() + right.view() =~= self.view());
        (left, right)
    }

    /// The items of the slice, front to back.
    pub fn into_iter(self) -> (r: SliceIter<'a, T>)
        requires
            self.wf(),
        ensures
            r.wf(),
            r.remaining() == self.view(),
    {
        let back = self.end - self.start;
        SliceIter { slice: self, front: 0, back }
    }
}

/// A walk over a slice from both ends.
pub struct SliceIter<'a, T> {
    slice: Slice<'a, T>,
    front: usize,
    back: usize,
}

impl<'a, T> SliceIter<'a, T> {
    pub closed spec fn wf(&self) -> bool {
        self.slice.wf() && self.front <= self.back <= self.slice.end - self.slice.start
    }

    /// The items still to come.
    pub closed spec fn remaining(&self) -> Seq<T> {
        self.slice.view().subrange(self.front as int, self.back as int)
    }

    /// The next item from the front, if any.
    pub fn next(&mut self) -> (r: Option<&'a T>)
        requires
            old(self).wf(),
        ensures
            final(self).wf(),
            old(self).remaining().len() == 0 ==> r is None && final(self).remaining() == old(self).remaining(),
            old(self).remaining().len() > 0 ==> r == Some(&old(self).remaining()[0])
                && final(self).remaining() == old(self).remaining().skip(1),
    {
        if self.front >= self.back {
            return None;
        }
        let r = self.slice.get(self.front);
        self.front = self.front + 1;
        assert(self.remaining() =~= old(self).remaining().skip(1));
        r
    }

    /// The next item from the back, if any.
    pub fn next_back(&mut self) -> (r: Option<&'a T>)
        requires
            old(self).wf(),
        ensures
            final(self).wf(),
            old(self).remaining().len() == 0 ==> r is None && final(self).remaining() == old(self).remaining(),
            old(self).remaining().len() > 0 ==> r == Some(&old(self).remaining().last())
                && final(self).remaining() == old(self).remaining().drop_last(),
    {
        if self.front >= self.back {
            return None;
        }
        self.back = self.back - 1;
        assert(self.remaining() =~= old(self).remaining().drop_last());
        self.slice.get(self.back)
    }

    /// How many items are still to come, as a lower and an upper bound.
    pub fn size_hint(&self) -> (r: (usize, Option<usize>))
        requires
            self.wf(),
        ensures
            r.0 == self.remaining().len(),
            r.1 == Some(self.remaining().len() as usize),
    {
        let n = self.back - self.front;
        (n, Some(n))
    }
}

impl<T> List<T> {
    /// All of the list, as a slice.
    pub fn iter(&self) -> (r: SliceIter<'_, T>)
        requires
            self.wf(),
        ensures
            r.wf(),
            r.remaining() == self.view(),
    {
        let s = Slice::new(self, 0, self.len());
        assert(s.view() =~= self.view());
        s.into_iter()
    }
}

} // verus!
