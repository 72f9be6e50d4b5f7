//! The dynamic value type and the per-item metadata store built on it.
use vstd::prelude::*;
use crate::num::Num;

verus! {

/// Any value that metadata can hold.
#[derive(Debug)]
pub enum Value {
    Null,
    Bool(bool),
    Num(Num),
    String(String),
    Path(String),
    Array(Vec<Value>),
    Dict(Vec<(String, Value)>),
}

/// The shape of a value, without its contents.
#[derive(Clone, Copy, PartialEq, Eq, Structural, Debug)]
pub enum ValueKind {
    Null,
    Bool,
    Num,
    String,
    Path,
    Array,
    Dict,
}

impl Value {
    pub open spec fn kind_spec(&self) -> ValueKind {
        match self {
            Value::Null => ValueKind::Null,
            Value::Bool(_) => ValueKind::Bool,
            Value::Num(_) => ValueKind::Num,
            Value::String(_) => ValueKind::String,
            Value::Path(_) => ValueKind::Path,
            Value::Array(_) => ValueKind::Array,
            Value::Dict(_) => ValueKind::Dict,
        }
    }

    pub fn to_null(&self) -> (r: Option<()>)
        ensures
            r is Some <==> self is Null,
    {
        match self {
            Value::Null => Some(()),
            _ => None,
        }
    }

    pub fn to_bool(&self) -> (r: Option<bool>)
        ensures
            self is Bool ==> r == Some(self->Bool_0),
            !(self is Bool) ==> r is None,
    {
        match self {
            Value::Bool(b) => Some(*b),
            _ => None,
        }
    }

    pub fn to_num(&self) -> (r: Option<Num>)
        ensures
            self is Num ==> r == Some(self->Num_0),
            !(self is Num) ==> r is None,
    {
        match self {
            Value::Num(n) => Some(*n),
            _ => None,
        }
    }

    /// The string this value holds; the value itself where it holds none.
    pub fn into_str(self) -> (r: Result<String, Value>)
        ensures
            self is String ==> (r matches Ok(s) && s == self->String_0),
            !(self is String) ==> r == Err::<String, Value>(self),
    {
        match self {
            Value::String(s) => Ok(s),
            other => Err(other),
        }
    }

    pub fn as_str(&self) -> (r: Option<&str>)
        ensures
            self is String ==> (r matches Some(s) && s@ == self->String_0@),
            !(self is String) ==> r is None,
    {
        match self {
            Value::String(s) => Some(s.as_str()),
            _ => None,
        }
    }

    /// The array this value holds; the value itself where it holds none.
    pub fn into_vec(self) -> (r: Result<Vec<Value>, Value>)
        ensures
            self is Array ==> (r matches Ok(v) && v == self->Array_0),
            !(self is Array) ==> r == Err::<Vec<Value>, Value>(self),
    {
        match self {
            Value::Array(v) => Ok(v),
            other => Err(other),
        }
    }

    /// The dictionary this value holds; the value itself where it holds none.
    pub fn into_dict(self) -> (r: Result<Vec<(String, Value)>, Value>)
        ensures
            self is Dict ==> (r matches Ok(d) && d == self->Dict_0),
            !(self is Dict) ==> r == Err::<Vec<(String, Value)>, Value>(self),
    {
        match self {
            Value::Dict(d) => Ok(d),
            other => Err(other),
        }
    }

    /// The path this value holds; the value itself where it holds none.
    pub fn into_path(self) -> (r: Result<String, Value>)
        ensures
            self is Path ==> (r matches Ok(s) && s == self->Path_0),
            !(self is Path) ==> r == Err::<String, Value>(self),
    {
        match self {
            Value::Path(p) => Ok(p),
            other => Err(other),
        }
    }

    /// The shape of this value.
    pub fn kind(&self) -> (r: ValueKind)
        ensures
            r == self.kind_spec(),
    {
        match self {
            Value::Null => ValueKind::Null,
            Value::Bool(_) => ValueKind::Bool,
            Value::Num(_) => ValueKind::Num,
            Value::String(_) => ValueKind::String,
            Value::Path(_) => ValueKind::Path,
            Value::Array(_) => ValueKind::Array,
            Value::Dict(_) => ValueKind::Dict,
        }
    }
}

/// What a typed read of a key finds.
#[derive(Debug)]
pub enum Lookup<'a> {
    /// The key is absent.
    Absent,
    /// The key holds a value of another shape than the one expected.
    WrongKind { expected: ValueKind, found: ValueKind },
    /// The key holds a value of the expected shape.
    Found(&'a Value),
}

/// A string-keyed store of values: no key occurs twice.
pub struct Metadata {
    entries: Vec<(String, Value)>,
}

/// The store after inserting each pair of `pairs` in turn; a later pair wins
/// over an earlier one with the same key.
pub open spec fn insert_all(m: Map<Seq<char>, Value>, pairs: Seq<(String, Value)>) -> Map<
    Seq<char>,
    Value,
>
    decreases pairs.len(),
{
    if pairs.len() == 0 {
        m
    } else {
        insert_all(m, pairs.drop_last()).insert(pairs.last().0@, pairs.last().1)
    }
}

/// The store after a get-or-insert of `v` under `k`.
pub open spec fn or_insert(m: Map<Seq<char>, Value>, k: Seq<char>, v: Value) -> Map<
    Seq<char>,
    Value,
> {
    if m.contains_key(k) {
        m
    } else {
        m.insert(k, v)
    }
}

/// The store after a get-or-insert of each of `vs`, in turn, under `k`.
pub open spec fn or_insert_each(m: Map<Seq<char>, Value>, k: Seq<char>, vs: Seq<Value>) -> Map<
    Seq<char>,
    Value,
>
    decreases vs.len(),
{
    if vs.len() == 0 {
        m
    } else {
        or_insert(or_insert_each(m, k, vs.drop_last()), k, vs.last())
    }
}

/// However many get-or-insert calls are made on one absent key, the value of
/// the first is the one stored, and it is what the key holds afterwards.
pub proof fn lemma_first_insert_wins(m: Map<Seq<char>, Value>, k: Seq<char>, vs: Seq<Value>)
    requires
        !m.contains_key(k),
        vs.len() > 0,
    ensures
        or_insert_each(m, k, vs).contains_key(k),
        or_insert_each(m, k, vs)[k] == vs[0],
    decreases vs.len(),
{
    if vs.len() > 1 {
        lemma_first_insert_wins(m, k, vs.drop_last());
        assert(vs.drop_last()[0] == vs[0]);
    } else {
        assert(vs.drop_last().len() == 0);
        assert(or_insert_each(m, k, vs.drop_last()) == m);
        assert(vs.last() == vs[0]);
    }
}

impl Metadata {
    pub closed spec fn wf(&self) -> bool {
        forall|a: int, b: int|
            0 <= a < b < self.entries@.len() ==> #[trigger] self.entries@[a].0@
                != #[trigger] self.entries@[b].0@
    }

    /// The keys and the values they hold.
    pub closed spec fn view(&self) -> Map<Seq<char>, Value> {
        Map::new(
            |k: Seq<char>| exists|i: int| 0 <= i < self.entries@.len() && self.entries@[i].0@ == k,
            |k: Seq<char>|
                self.entries@[choose|i: int| 0 <= i < self.entries@.len() && self.entries@[i].0@ == k].1,
        )
    }

    proof fn lemma_view_at(&self, i: int)
        requires
            self.wf(),
            0 <= i < self.entries@.len(),
        ensures
            self@.contains_key(self.entries@[i].0@),
            self@[self.entries@[i].0@] == self.entries@[i].1,
    {
        let k = self.entries@[i].0@;
        assert(self@.contains_key(k));
        let j = choose|j: int| 0 <= j < self.entries@.len() && self.entries@[j].0@ == k;
        if j != i {
            if j < i {
                assert(self.entries@[j].0@ != self.entries@[i].0@);
            } else {
                assert(self.entries@[i].0@ != self.entries@[j].0@);
            }
        }
    }

    /// An empty store.
    pub fn new() -> (r: Metadata)
        ensures
            r.wf(),
            r@ == Map::<Seq<char>, Value>::empty(),
    {
        let r = Metadata { entries: Vec::new() };
        assert(r@ =~= Map::<Seq<char>, Value>::empty());
        r
    }

    /// Where `key` is stored, if it is.
    fn find(&self, key: &str) -> (r: Option<usize>)
        requires
            self.wf(),
        ensures
            r matches Some(i) ==> i < self.entries@.len() && self.entries@[i as int].0@ == key@,
            r is None ==> !self@.contains_key(key@),
    {
        let q = key.to_owned();
        let mut i: usize = 0;
        while i < self.entries.len()
            invariant
                i <= self.entries@.len(),
                q@ == key@,
                forall|j: int| 0 <= j < i ==> self.entries@[j].0@ != key@,
            decreases self.entries.len() - i,
        {
            if self.entries[i].0 == q {
                return Some(i);
            }
            i += 1;
        }
        None
    }

    pub fn len(&self) -> (r: usize)
        requires
            self.wf(),
        ensures
            r == self@.len(),
    {
        proof {
            self.lemma_len();
        }
        self.entries.len()
    }

    proof fn lemma_len(&self)
        requires
            self.wf(),
        ensures
            self@.len() == self.entries@.len(),
    {
        let keys = self.entries@.map_values(|p: (String, Value)| p.0@);
        assert forall|a: int, b: int| 0 <= a < keys.len() && 0 <= b < keys.len() && a != b implies keys[a] != keys[b] by {
            if a < b {
                assert(self.entries@[a].0@ != self.entries@[b].0@);
            } else {
                assert(self.entries@[b].0@ != self.entries@[a].0@);
            }
        }
        assert(keys.no_duplicates());
        assert forall|k: Seq<char>| self@.dom().contains(k) <==> keys.to_set().contains(k) by {
            if self@.dom().contains(k) {
                let i = choose|i: int| 0 <= i < self.entries@.len() && self.entries@[i].0@ == k;
                assert(keys[i] == k);
            }
            if keys.contains(k) {
                let i = choose|i: int| 0 <= i < keys.len() && keys[i] == k;
                assert(self.entries@[i].0@ == k);
            }
        }
        assert(self@.dom() =~= keys.to_set());
        keys.unique_seq_to_set();
    }

    pub fn contains_key(&self, key: &str) -> (r: bool)
        requires
            self.wf(),
        ensures
            r == self@.contains_key(key@),
    {
        match self.find(key) {
            Some(i) => {
                proof {
                    self.lemma_view_at(i as int);
                }
                true
            },
            None => false,
        }
    }

    /// The value that `key` holds, if any.
    pub fn get_raw(&self, key: &str) -> (r: Option<&Value>)
        requires
            self.wf(),
        ensures
            self@.contains_key(key@) ==> r == Some(&self@[key@]),
            !self@.contains_key(key@) ==> r is None,
    {
        match self.find(key) {
            Some(i) => {
                proof {
                    self.lemma_view_at(i as int);
                }
                Some(&self.entries[i].1)
            },
            None => None,
        }
    }

    /// The value that `key` holds, told apart from an absent key and from a
    /// value of another shape than `expected`.
    pub fn get(&self, key: &str, expected: ValueKind) -> (r: Lookup<'_>)
        requires
            self.wf(),
        ensures
            !self@.contains_key(key@) ==> r is Absent,
            self@.contains_key(key@) && self@[key@].kind_spec() != expected ==> r == (Lookup::WrongKind {
                expected,
                found: self@[key@].kind_spec(),
            }),
            self@.contains_key(key@) && self@[key@].kind_spec() == expected ==> r == Lookup::Found(
                &self@[key@],
            ),
    {
        match self.get_raw(key) {
            None => Lookup::Absent,
            Some(v) => {
                let found = v.kind();
                if found == expected {
                    Lookup::Found(v)
                } else {
                    Lookup::WrongKind { expected, found }
                }
            },
        }
    }

    /// Stores `value` under `key`, and returns what `key` held before.
    pub fn insert_raw(&mut self, key: String, value: Value) -> (r: Option<Value>)
        requires
            old(self).wf(),
        ensures
            final(self).wf(),
            final(self)@ == old(self)@.insert(key@, value),
            old(self)@.contains_key(key@) ==> r == Some(old(self)@[key@]),
            !old(self)@.contains_key(key@) ==> r is None,
    {
        let found = self.find(key.as_str());
        let ghost k = key@;
        match found {
            Some(i) => {
                proof {
                    old(self).lemma_view_at(i as int);
                }
                let (_, prev) = self.entries.remove(i);
                self.entries.push((key, value));
                proof {
                    let n = self.entries@.len() as int;
                    assert forall|a: int, b: int|
                        0 <= a < b < self.entries@.len() implies #[trigger] self.entries@[a].0@
                            != #[trigger] self.entries@[b].0@ by {
                        let oa = if a < i { a } else { a + 1 };
                        if b == n - 1 {
                            assert(old(self).entries@[oa].0@ != old(self).entries@[i as int].0@);
                        } else {
                            let ob = if b < i { b } else { b + 1 };
                            assert(old(self).entries@[oa].0@ != old(self).entries@[ob].0@);
                        }
                    }
                    self.lemma_insert_view(*old(self), i as int, k, value);
                }
                Some(prev)
            },
            None => {
                self.entries.push((key, value));
                proof {
                    assert forall|a: int, b: int|
                        0 <= a < b < self.entries@.len() implies #[trigger] self.entries@[a].0@
                            != #[trigger] self.entries@[b].0@ by {
                        if b == self.entries@.len() - 1 {
                            assert(old(self).entries@[a].0@ != k) by {
                                if old(self).entries@[a].0@ == k {
                                    assert(old(self)@.contains_key(k));
                                }
                            }
                        } else {
                            assert(old(self).entries@[a].0@ != old(self).entries@[b].0@);
                        }
                    }
                    assert forall|kk: Seq<char>| #[trigger] self@.contains_key(kk) == old(self)@.insert(k, value).contains_key(kk) by {
                        if old(self)@.contains_key(kk) {
                            let j = choose|j: int| 0 <= j < old(self).entries@.len() && old(self).entries@[j].0@ == kk;
                            assert(self.entries@[j].0@ == kk);
                        }
                        if self@.contains_key(kk) && kk != k {
                            let j = choose|j: int| 0 <= j < self.entries@.len() && self.entries@[j].0@ == kk;
                            assert(old(self).entries@[j].0@ == kk);
                        }
                        if kk == k {
                            assert(self.entries@[self.entries@.len() - 1].0@ == kk);
                        }
                    }
                    assert forall|kk: Seq<char>| #[trigger] self@.contains_key(kk) implies self@[kk] == old(self)@.insert(k, value)[kk] by {
                        let j = choose|j: int| 0 <= j < self.entries@.len() && self.entries@[j].0@ == kk;
                        self.lemma_view_at(j);
                        if j < old(self).entries@.len() {
                            old(self).lemma_view_at(j);
                        }
                    }
                    assert(self@ =~= old(self)@.insert(k, value));
                }
                None
            },
        }
    }

    proof fn lemma_insert_view(&self, old_m: Metadata, i: int, k: Seq<char>, value: Value)
        requires
            old_m.wf(),
            self.wf(),
            0 <= i < old_m.entries@.len(),
            old_m.entries@[i].0@ == k,
            self.entries@ == old_m.entries@.remove(i).push(self.entries@.last()),
            self.entries@.last().0@ == k,
            self.entries@.last().1 == value,
        ensures
            self@ == old_m@.insert(k, value),
    {
        let n = self.entries@.len() as int;
        assert forall|kk: Seq<char>| #[trigger] self@.contains_key(kk) == old_m@.insert(k, value).contains_key(kk) by {
            if old_m@.contains_key(kk) && kk != k {
                let j = choose|j: int| 0 <= j < old_m.entries@.len() && old_m.entries@[j].0@ == kk;
                let nj = if j < i { j } else { j - 1 };
                assert(self.entries@[nj].0@ == kk);
            }
            if self@.contains_key(kk) && kk != k {
                let j = choose|j: int| 0 <= j < self.entries@.len() && self.entries@[j].0@ == kk;
                let oj = if j < i { j } else { j + 1 };
                assert(old_m.entries@[oj].0@ == kk);
            }
            if kk == k {
                assert(self.entries@[n - 1].0@ == kk);
            }
        }
        assert forall|kk: Seq<char>| #[trigger] self@.contains_key(kk) implies self@[kk] == old_m@.insert(k, value)[kk] by {
            let j = choose|j: int| 0 <= j < self.entries@.len() && self.entries@[j].0@ == kk;
            self.lemma_view_at(j);
            if j < n - 1 {
                let oj = if j < i { j } else { j + 1 };
                old_m.lemma_view_at(oj);
            }
        }
        assert(self@ =~= old_m@.insert(k, value));
    }

    /// Stores what `f` produces under `key`, unless `key` already holds a
    /// value; `f` is called only then. Returns whether this call stored.
    pub fn get_or_insert_raw_with<F: FnOnce() -> Value>(&mut self, key: String, f: F) -> (r: bool)
        requires
            old(self).wf(),
            f.requires(()),
        ensures
            final(self).wf(),
            r == !old(self)@.contains_key(key@),
            old(self)@.contains_key(key@) ==> final(self)@ == old(self)@,
            !old(self)@.contains_key(key@) ==> exists|v: Value|
                f.ensures((), v) && final(self)@ == old(self)@.insert(key@, v),
    {
        if self.contains_key(key.as_str()) {
            return false;
        }
        let v = f();
        let ghost gv = v;
        self.insert_raw(key, v);
        assert(f.ensures((), gv));
        true
    }

    /// Stores `value` under `key`, unless `key` already holds a value.
    /// Returns whether this call stored.
    pub fn get_or_insert_raw(&mut self, key: String, value: Value) -> (r: bool)
        requires
            old(self).wf(),
        ensures
            final(self).wf(),
            r == !old(self)@.contains_key(key@),
            final(self)@ == or_insert(old(self)@, key@, value),
    {
        if self.contains_key(key.as_str()) {
            return false;
        }
        self.insert_raw(key, value);
        true
    }

    /// Removes `key`, and returns what it held.
    pub fn remove_raw(&mut self, key: &str) -> (r: Option<Value>)
        requires
            old(self).wf(),
        ensures
            final(self).wf(),
            final(self)@ == old(self)@.remove(key@),
            old(self)@.contains_key(key@) ==> r == Some(old(self)@[key@]),
            !old(self)@.contains_key(key@) ==> r is None,
    {
        match self.find(key) {
            None => {
                assert(old(self)@.remove(key@) =~= old(self)@);
                None
            },
            Some(i) => {
                proof {
                    old(self).lemma_view_at(i as int);
                }
                let (_, prev) = self.entries.remove(i);
                proof {
                    let ghost k = key@;
                    assert forall|a: int, b: int|
                        0 <= a < b < self.entries@.len() implies #[trigger] self.entries@[a].0@
                            != #[trigger] self.entries@[b].0@ by {
                        let oa = if a < i { a } else { a + 1 };
                        let ob = if b < i { b } else { b + 1 };
                        assert(old(self).entries@[oa].0@ != old(self).entries@[ob].0@);
                    }
                    assert forall|kk: Seq<char>| #[trigger] self@.contains_key(kk) == old(self)@.remove(k).contains_key(kk) by {
                        if old(self)@.contains_key(kk) && kk != k {
                            let j = choose|j: int| 0 <= j < old(self).entries@.len() && old(self).entries@[j].0@ == kk;
                            let nj = if j < i { j } else { j - 1 };
                            assert(self.entries@[nj].0@ == kk);
                        }
                        if self@.contains_key(kk) {
                            let j = choose|j: int| 0 <= j < self.entries@.len() && self.entries@[j].0@ == kk;
                            let oj = if j < i { j } else { j + 1 };
                            assert(old(self).entries@[oj].0@ == kk);
                            if kk == k {
                                assert(old(self).entries@[oj].0@ != old(self).entries@[i as int].0@ || oj == i);
                            }
                        }
                    }
                    assert forall|kk: Seq<char>| #[trigger] self@.contains_key(kk) implies self@[kk] == old(self)@.remove(k)[kk] by {
                        let j = choose|j: int| 0 <= j < self.entries@.len() && self.entries@[j].0@ == kk;
                        self.lemma_view_at(j);
                        let oj = if j < i { j } else { j + 1 };
                        old(self).lemma_view_at(oj);
                    }
                    assert(self@ =~= old(self)@.remove(k));
                }
                Some(prev)
            },
        }
    }

    /// Stores each pair of the dictionary `value` in turn; `false`, with
    /// nothing stored, where `value` is no dictionary.
    pub fn append_value(&mut self, value: Value) -> (r: bool)
        requires
            old(self).wf(),
        ensures
            final(self).wf(),
            r == (value is Dict),
            value is Dict ==> final(self)@ == insert_all(old(self)@, (value->Dict_0)@),
            !(value is Dict) ==> final(self)@ == old(self)@,
    {
        match value {
            Value::Dict(d) => {
                self.append_all(d);
                true
            },
            _ => false,
        }
    }

    /// Stores each pair of `dict` in turn, as `insert_raw` does.
    pub fn append_all(&mut self, dict: Vec<(String, Value)>)
        requires
            old(self).wf(),
        ensures
            final(self).wf(),
            final(self)@ == insert_all(old(self)@, dict@),
    {
        let ghost pairs = dict@;
        let ghost start = self@;
        let n = dict.len();
        let mut rest = dict;
        let mut done: usize = 0;
        while rest.len() > 0
            invariant
                self.wf(),
                done <= pairs.len(),
                pairs.len() == n,
                rest@ == pairs.skip(done as int),
                self@ == insert_all(start, pairs.take(done as int)),
            decreases rest@.len(),
        {
            assert(done < pairs.len());
            let (k, v) = rest.remove(0);
            self.insert_raw(k, v);
            assert(pairs.take(done + 1).drop_last() =~= pairs.take(done as int));
            assert(rest@ =~= pairs.skip(done + 1));
            done += 1;
        }
        assert(pairs.take(done as int) =~= pairs);
    }
}

} // verus!
