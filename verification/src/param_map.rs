//! The parameters of a request: an ordered map from names to values.
//!
//! A name that comes twice keeps the place where it first stood and the value
//! that was given last.

use vstd::prelude::*;
use crate::params::{pair_views, NameValue, PairView};
use crate::wire::copy_range;

verus! {

/// The place of the first entry called `name`, or the length of `m` when no
/// entry is.
pub open spec fn index_of(m: Seq<PairView>, name: Seq<u8>) -> int
    decreases m.len(),
{
    if m.len() == 0 {
        0
    } else if m[0].0 == name {
        0
    } else {
        1 + index_of(m.skip(1), name)
    }
}

/// The value under `name`, if there is an entry of that name.
pub open spec fn lookup(m: Seq<PairView>, name: Seq<u8>) -> Option<Seq<u8>> {
    let i = index_of(m, name);
    if i < m.len() {
        Some(m[i].1)
    } else {
        None
    }
}

/// The map after `name` was given `value`: in place where the name is
/// there, at the end where it is new.
pub open spec fn upsert(m: Seq<PairView>, name: Seq<u8>, value: Seq<u8>) -> Seq<PairView> {
    let i = index_of(m, name);
    if i < m.len() {
        m.update(i, (name, value))
    } else {
        m.push((name, value))
    }
}

/// The map that a list of pairs builds, taken in order.
pub open spec fn collect(ps: Seq<PairView>) -> Seq<PairView>
    decreases ps.len(),
{
    if ps.len() == 0 {
        Seq::<PairView>::empty()
    } else {
        upsert(collect(ps.drop_last()), ps.last().0, ps.last().1)
    }
}

/// Whether no name stands twice.
pub open spec fn distinct_names(m: Seq<PairView>) -> bool {
    forall|i: int, j: int| 0 <= i < j < m.len() ==> (#[trigger] m[i]).0 != (#[trigger] m[j]).0
}

/// The value of the last pair of the list that is called `name`.
pub open spec fn last_value(ps: Seq<PairView>, name: Seq<u8>) -> Option<Seq<u8>>
    decreases ps.len(),
{
    if ps.len() == 0 {
        None
    } else if ps.last().0 == name {
        Some(ps.last().1)
    } else {
        last_value(ps.drop_last(), name)
    }
}

/// What `index_of` finds: the first entry of that name, and none before it.
pub proof fn lemma_index_of(m: Seq<PairView>, name: Seq<u8>)
    ensures
        0 <= index_of(m, name) <= m.len(),
        index_of(m, name) < m.len() ==> m[index_of(m, name)].0 == name,
        forall|j: int| 0 <= j < index_of(m, name) ==> (#[trigger] m[j]).0 != name,
    decreases m.len(),
{
    if m.len() == 0 {
    } else if m[0].0 == name {
    } else {
        let t = m.skip(1);
        lemma_index_of(t, name);
        let k = index_of(t, name);
        assert forall|j: int| 0 <= j < 1 + k implies (#[trigger] m[j]).0 != name by {
            if j > 0 {
                assert(t[j - 1] == m[j]);
            }
        }
        if k < t.len() {
            assert(t[k] == m[k + 1]);
        }
    }
}

/// A place with the name, and no entry of the name before it, is the place
/// that `index_of` finds.
pub proof fn lemma_index_of_is(m: Seq<PairView>, name: Seq<u8>, i: int)
    requires
        0 <= i <= m.len(),
        i < m.len() ==> m[i].0 == name,
        forall|j: int| 0 <= j < i ==> (#[trigger] m[j]).0 != name,
    ensures
        index_of(m, name) == i,
{
    lemma_index_of(m, name);
    let k = index_of(m, name);
    if k < i {
        assert(m[k].0 != name);
    }
}

/// After `name` was given `value`, a lookup of `name` finds `value`, and a
/// lookup of any other name finds what it found before.
pub proof fn lemma_lookup_upsert(m: Seq<PairView>, name: Seq<u8>, value: Seq<u8>, q: Seq<u8>)
    ensures
        lookup(upsert(m, name, value), q) == if q == name {
            Some(value)
        } else {
            lookup(m, q)
        },
{
    let i = index_of(m, name);
    let k = index_of(m, q);
    let n = upsert(m, name, value);
    lemma_index_of(m, name);
    lemma_index_of(m, q);
    if i < m.len() {
        assert forall|j: int| 0 <= j < k implies (#[trigger] n[j]).0 != q by {
            assert(m[j].0 != q);
        }
        lemma_index_of_is(n, q, k);
    } else {
        if q == name {
            assert forall|j: int| 0 <= j < m.len() implies (#[trigger] n[j]).0 != q by {
                assert(m[j].0 != q);
            }
            lemma_index_of_is(n, q, m.len() as int);
        } else if k < m.len() {
            assert forall|j: int| 0 <= j < k implies (#[trigger] n[j]).0 != q by {
                assert(m[j].0 != q);
            }
            lemma_index_of_is(n, q, k);
        } else {
            assert forall|j: int| 0 <= j < n.len() implies (#[trigger] n[j]).0 != q by {
                if j < m.len() {
                    assert(m[j].0 != q);
                }
            }
            lemma_index_of_is(n, q, n.len() as int);
        }
    }
}

/// Giving a name a value moves no entry: every name that was there stays at
/// its place.
pub proof fn lemma_upsert_keeps_places(m: Seq<PairView>, name: Seq<u8>, value: Seq<u8>)
    ensures
        upsert(m, name, value).len() >= m.len(),
        forall|i: int| 0 <= i < m.len() ==> (#[trigger] upsert(m, name, value)[i]).0 == m[i].0,
{
    lemma_index_of(m, name);
}

/// Giving a name a value leaves the names distinct.
pub proof fn lemma_upsert_distinct(m: Seq<PairView>, name: Seq<u8>, value: Seq<u8>)
    requires
        distinct_names(m),
    ensures
        distinct_names(upsert(m, name, value)),
{
    lemma_index_of(m, name);
    let n = upsert(m, name, value);
    assert forall|i: int, j: int| 0 <= i < j < n.len() implies (#[trigger] n[i]).0 != (
    #[trigger] n[j]).0 by {
        if j < m.len() {
            assert(m[i].0 != m[j].0);
        } else {
            assert(m[i].0 != name);
        }
    }
}

/// The map built from a list holds no name twice.
pub proof fn lemma_collect_distinct(ps: Seq<PairView>)
    ensures
        distinct_names(collect(ps)),
    decreases ps.len(),
{
    if ps.len() > 0 {
        lemma_collect_distinct(ps.drop_last());
        lemma_upsert_distinct(collect(ps.drop_last()), ps.last().0, ps.last().1);
    }
}

/// In the map built from a list, a name has the value that the list gave it
/// last.
pub proof fn lemma_lookup_collect(ps: Seq<PairView>, name: Seq<u8>)
    ensures
        lookup(collect(ps), name) == last_value(ps, name),
    decreases ps.len(),
{
    if ps.len() > 0 {
        lemma_lookup_collect(ps.drop_last(), name);
        lemma_lookup_upsert(collect(ps.drop_last()), ps.last().0, ps.last().1, name);
    }
}

/// Whether two byte strings are the same.
pub fn same_bytes(a: &[u8], b: &[u8]) -> (r: bool)
    ensures
        r == (a@ == b@),
{
    if a.len() != b.len() {
        return false;
    }
    let n: usize = a.len();
    let mut i: usize = 0;
    while i < n
        invariant
            n == a@.len(),
            n == b@.len(),
            i <= n,
            forall|k: int| 0 <= k < i ==> a@[k] == b@[k],
        decreases n - i,
    {
        if a[i] != b[i] {
            return false;
        }
        i = i + 1;
    }
    assert(a@ =~= b@);
    true
}

/// The parameters of a request, in the order in which their names first
/// came.
#[derive(Debug)]
pub struct ParamMap {
    entries: Vec<NameValue>,
}

impl View for ParamMap {
    type V = Seq<PairView>;

    closed spec fn view(&self) -> Seq<PairView> {
        pair_views(self.entries@)
    }
}

impl ParamMap {
    /// A map with no entry.
    pub fn new() -> (m: ParamMap)
        ensures
            m@ == Seq::<PairView>::empty(),
    {
        let m = ParamMap { entries: Vec::new() };
        assert(m@ =~= Seq::<PairView>::empty());
        m
    }

    /// Number of entries.
    pub fn len(&self) -> (n: usize)
        ensures
            n == self@.len(),
    {
        self.entries.len()
    }

    /// The entries, in order.
    pub fn entries(&self) -> (r: &Vec<NameValue>)
        ensures
            pair_views(r@) == self@,
    {
        &self.entries
    }

    /// The place of the entry called `name`, or the number of entries when
    /// there is none.
    fn find(&self, name: &[u8]) -> (i: usize)
        ensures
            i == index_of(self@, name@),
            i <= self@.len(),
    {
        let n: usize = self.entries.len();
        let mut i: usize = 0;
        while i < n
            invariant
                n == self.entries@.len(),
                i <= n,
                forall|j: int| 0 <= j < i ==> (#[trigger] self@[j]).0 != name@,
            decreases n - i,
        {
            if same_bytes(self.entries[i].name.as_slice(), name) {
                proof {
                    assert(self@[i as int].0 == name@);
                    lemma_index_of_is(self@, name@, i as int);
                }
                return i;
            }
            assert(self@[i as int].0 != name@);
            i = i + 1;
        }
        proof {
            lemma_index_of_is(self@, name@, n as int);
        }
        n
    }

    /// The value under `name`, if the map has an entry of that name.
    pub fn get(&self, name: &[u8]) -> (r: Option<&Vec<u8>>)
        ensures
            match lookup(self@, name@) {
                Some(v) => r matches Some(x) && x@ == v,
                None => r is None,
            },
    {
        let i: usize = self.find(name);
        if i < self.entries.len() {
            Some(&self.entries[i].value)
        } else {
            None
        }
    }

    /// Gives `name` the value `value`. A name that the map has keeps its
    /// place and takes the new value; a new name goes to the end.
    pub fn insert(&mut self, name: Vec<u8>, value: Vec<u8>)
        ensures
            final(self)@ == upsert(old(self)@, name@, value@),
    {
        let i: usize = self.find(name.as_slice());
        let ghost want = upsert(self@, name@, value@);
        if i < self.entries.len() {
            self.entries.set(i, NameValue { name, value });
        } else {
            self.entries.push(NameValue { name, value });
        }
        assert(self@ =~= want);
    }

    /// The map that a list of pairs builds, taken in order.
    pub fn from_pairs(pairs: &Vec<NameValue>) -> (m: ParamMap)
        ensures
            m@ == collect(pair_views(pairs@)),
    {
        let mut m = ParamMap::new();
        let n: usize = pairs.len();
        let mut i: usize = 0;
        while i < n
            invariant
                n == pairs@.len(),
                i <= n,
                m@ == collect(pair_views(pairs@).subrange(0, i as int)),
            decreases n - i,
        {
            let p = &pairs[i];
            let name = copy_range(p.name.as_slice(), 0, p.name.len());
            let value = copy_range(p.value.as_slice(), 0, p.value.len());
            proof {
                let vs = pair_views(pairs@);
                assert(name@ =~= p.name@);
                assert(value@ =~= p.value@);
                assert(vs.subrange(0, i + 1).drop_last() =~= vs.subrange(0, i as int));
                assert(vs.subrange(0, i + 1).last() == p@);
            }
            m.insert(name, value);
            i = i + 1;
        }
        assert(pair_views(pairs@).subrange(0, n as int) =~= pair_views(pairs@));
        m
    }
}

} // verus!
