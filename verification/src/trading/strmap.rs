use vstd::prelude::*;

verus! {

/// An association list keyed by strings: each key occurs at most once, and the
/// entries keep the order in which their keys were first inserted.
#[derive(Debug)]
pub struct StrMap<V> {
    entries: Vec<(String, V)>,
}

/// The position of the entry whose key has the given characters, if any.
pub open spec fn key_index<V>(entries: Seq<(String, V)>, k: Seq<char>) -> int {
    choose|i: int| 0 <= i < entries.len() && entries[i].0@ == k
}

/// The map that a list of entries stands for.
pub open spec fn entries_view<V: View>(entries: Seq<(String, V)>) -> Map<Seq<char>, V::V> {
    Map::new(
        |k: Seq<char>| exists|i: int| 0 <= i < entries.len() && entries[i].0@ == k,
        |k: Seq<char>| entries[key_index(entries, k)].1@,
    )
}

/// No key occurs twice in the list.
pub open spec fn entries_wf<V>(entries: Seq<(String, V)>) -> bool {
    forall|i: int, j: int| 0 <= i < j < entries.len() ==> entries[i].0@ != entries[j].0@
}

proof fn lemma_entries_at<V: View>(entries: Seq<(String, V)>, i: int)
    requires
        entries_wf(entries),
        0 <= i < entries.len(),
    ensures
        entries_view(entries).contains_key(entries[i].0@),
        entries_view(entries)[entries[i].0@] == entries[i].1@,
{
    let k = entries[i].0@;
    assert(entries_view(entries).dom().contains(k));
    let j = key_index(entries, k);
    assert(0 <= j < entries.len() && entries[j].0@ == k);
    if j != i {
        if j < i {
            assert(entries[j].0@ != entries[i].0@);
        } else {
            assert(entries[i].0@ != entries[j].0@);
        }
    }
}

proof fn lemma_entries_update<V: View>(entries: Seq<(String, V)>, i: int, x: V)
    requires
        entries_wf(entries),
        0 <= i < entries.len(),
    ensures
        entries_wf(entries.update(i, (entries[i].0, x))),
        entries_view(entries.update(i, (entries[i].0, x))) == entries_view(entries).insert(
            entries[i].0@,
            x@,
        ),
{
    let e2 = entries.update(i, (entries[i].0, x));
    let k = entries[i].0@;
    assert forall|a: int, b: int| 0 <= a < b < e2.len() implies e2[a].0@ != e2[b].0@ by {
        assert(entries[a].0@ != entries[b].0@);
    }
    assert forall|q: Seq<char>|
        #![auto]
        entries_view(e2).contains_key(q) == entries_view(entries).insert(k, x@).contains_key(q)
    by {
        if entries_view(e2).contains_key(q) {
            let j = choose|j: int| 0 <= j < e2.len() && e2[j].0@ == q;
            assert(entries[j].0@ == q);
        }
        if entries_view(entries).contains_key(q) {
            let j = choose|j: int| 0 <= j < entries.len() && entries[j].0@ == q;
            assert(e2[j].0@ == q);
        }
        if q == k {
            assert(e2[i].0@ == q);
        }
    }
    assert forall|q: Seq<char>| #[trigger] entries_view(e2).contains_key(q) implies entries_view(
        e2,
    )[q] == entries_view(entries).insert(k, x@)[q] by {
        let j = choose|j: int| 0 <= j < e2.len() && e2[j].0@ == q;
        lemma_entries_at(e2, j);
        if j != i {
            lemma_entries_at(entries, j);
        }
    }
    assert(entries_view(e2) =~= entries_view(entries).insert(k, x@));
}

proof fn lemma_entries_push<V: View>(entries: Seq<(String, V)>, k: String, x: V)
    requires
        entries_wf(entries),
        !entries_view(entries).contains_key(k@),
    ensures
        entries_wf(entries.push((k, x))),
        entries_view(entries.push((k, x))) == entries_view(entries).insert(k@, x@),
{
    let e2 = entries.push((k, x));
    assert forall|a: int, b: int| 0 <= a < b < e2.len() implies e2[a].0@ != e2[b].0@ by {
        if b == entries.len() {
            assert(entries_view(entries).contains_key(entries[a].0@));
        } else {
            assert(entries[a].0@ != entries[b].0@);
        }
    }
    assert forall|q: Seq<char>|
        #![auto]
        entries_view(e2).contains_key(q) == entries_view(entries).insert(k@, x@).contains_key(q)
    by {
        if entries_view(e2).contains_key(q) {
            let j = choose|j: int| 0 <= j < e2.len() && e2[j].0@ == q;
            if j < entries.len() {
                assert(entries[j].0@ == q);
            }
        }
        if entries_view(entries).contains_key(q) {
            let j = choose|j: int| 0 <= j < entries.len() && entries[j].0@ == q;
            assert(e2[j].0@ == q);
        }
        if q == k@ {
            assert(e2[entries.len() as int].0@ == q);
        }
    }
    assert forall|q: Seq<char>| #[trigger] entries_view(e2).contains_key(q) implies entries_view(
        e2,
    )[q] == entries_view(entries).insert(k@, x@)[q] by {
        let j = choose|j: int| 0 <= j < e2.len() && e2[j].0@ == q;
        lemma_entries_at(e2, j);
        if j < entries.len() {
            lemma_entries_at(entries, j);
        }
    }
    assert(entries_view(e2) =~= entries_view(entries).insert(k@, x@));
}

impl<V: View> View for StrMap<V> {
    type V = Map<Seq<char>, V::V>;

    closed spec fn view(&self) -> Map<Seq<char>, V::V> {
        entries_view(self.entries@)
    }
}

impl<V: View> StrMap<V> {
    /// No key occurs twice.
    pub closed spec fn wf(&self) -> bool {
        entries_wf(self.entries@)
    }

    proof fn lemma_view_at(&self, i: int)
        requires
            self.wf(),
            0 <= i < self.entries@.len(),
        ensures
            self@.contains_key(self.entries@[i].0@),
            self@[self.entries@[i].0@] == self.entries@[i].1@,
    {
        lemma_entries_at(self.entries@, i);
    }

    /// An empty map.
    pub fn new() -> (m: Self)
        ensures
            m.wf(),
            m@ == Map::<Seq<char>, V::V>::empty(),
    {
        let m = StrMap { entries: Vec::new() };
        assert(m@ =~= Map::<Seq<char>, V::V>::empty());
        m
    }

    /// The position of the key's entry.
    fn find(&self, k: &String) -> (r: Option<usize>)
        requires
            self.wf(),
        ensures
            match r {
                Some(i) => i < self.entries@.len() && self.entries@[i as int].0@ == k@,
                None => !self@.contains_key(k@),
            },
    {
        let mut i: usize = 0;
        while i < self.entries.len()
            invariant
                i <= self.entries@.len(),
                forall|j: int| 0 <= j < i ==> self.entries@[j].0@ != k@,
            decreases self.entries@.len() - i,
        {
            if self.entries[i].0 == *k {
                return Some(i);
            }
            i = i + 1;
        }
        None
    }

    /// Whether the key is present.
    pub fn contains_key(&self, k: &String) -> (r: bool)
        requires
            self.wf(),
        ensures
            r == self@.contains_key(k@),
    {
        match self.find(k) {
            Some(i) => {
                proof {
                    self.lemma_view_at(i as int);
                }
                true
            },
            None => false,
        }
    }

    /// The value stored under the key.
    pub fn get(&self, k: &String) -> (r: Option<&V>)
        requires
            self.wf(),
        ensures
            match r {
                Some(v) => self@.contains_key(k@) && v@ == self@[k@],
                None => !self@.contains_key(k@),
            },
    {
        match self.find(k) {
            Some(i) => {
                proof {
                    self.lemma_view_at(i as int);
                }
                Some(&self.entries[i].1)
            },
            None => None,
        }
    }

    /// A mutable handle on the value stored under the key.
    pub fn get_mut(&mut self, k: &String) -> (r: Option<&mut V>)
        requires
            old(self).wf(),
        ensures
            match r {
                Some(v) => {
                    &&& old(self)@.contains_key(k@)
                    &&& (*v)@ == old(self)@[k@]
                    &&& final(self)@ == old(self)@.insert(k@, (*final(v))@)
                    &&& final(self).wf()
                },
                None => {
                    &&& !old(self)@.contains_key(k@)
                    &&& *final(self) == *old(self)
                },
            },
    {
        match self.find(k) {
            Some(i) => {
                proof {
                    self.lemma_view_at(i as int);
                    assert forall|x: V|
                        #![auto]
                        entries_view(self.entries@.update(i as int, (self.entries@[i as int].0, x)))
                            == entries_view(self.entries@).insert(self.entries@[i as int].0@, x@)
                            && entries_wf(
                            self.entries@.update(i as int, (self.entries@[i as int].0, x)),
                        ) by {
                        lemma_entries_update(self.entries@, i as int, x);
                    }
                }
                Some(&mut self.entries[i].1)
            },
            None => None,
        }
    }

    /// Stores the value under the key, replacing what was stored there.
    pub fn insert(&mut self, k: String, v: V)
        requires
            old(self).wf(),
        ensures
            final(self).wf(),
            final(self)@ == old(self)@.insert(k@, v@),
    {
        match self.find(&k) {
            Some(i) => {
                proof {
                    lemma_entries_update(self.entries@, i as int, v);
                }
                self.entries[i].1 = v;
            },
            None => {
                proof {
                    lemma_entries_push(self.entries@, k, v);
                }
                self.entries.push((k, v));
            },
        }
    }
}

} // verus!
