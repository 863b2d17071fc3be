//! Tables keyed by name, with at most one entry per name; inserting under a name
//! that is present replaces its entry.
use vstd::prelude::*;

verus! {

/// Entries under distinct names.
pub struct Table<V> {
    pub entries: Vec<(String, V)>,
}

/// No name occurs twice.
pub open spec fn keys_unique<V>(s: Seq<(String, V)>) -> bool {
    forall|i: int, j: int| 0 <= i < j < s.len() ==> (#[trigger] s[i]).0@ != (#[trigger] s[j]).0@
}

/// The map from names to (models of) entries.
pub open spec fn table_map<V: DeepView>(s: Seq<(String, V)>) -> Map<Seq<char>, V::V>
    decreases s.len(),
{
    if s.len() == 0 {
        Map::empty()
    } else {
        table_map(s.drop_last()).insert(s.last().0@, s.last().1.deep_view())
    }
}

/// The map holds exactly the names of the entries, each with its entry.
pub proof fn lemma_table_map<V: DeepView>(s: Seq<(String, V)>)
    requires
        keys_unique(s),
    ensures
        forall|k: Seq<char>|
            #[trigger] table_map(s).contains_key(k) <==> exists|i: int|
                0 <= i < s.len() && s[i].0@ == k,
        forall|i: int| 0 <= i < s.len() ==> #[trigger] table_map(s)[s[i].0@] == s[i].1.deep_view(),
    decreases s.len(),
{
    if s.len() > 0 {
        let t = s.drop_last();
        assert(keys_unique(t)) by {
            assert forall|i: int, j: int| 0 <= i < j < t.len() implies (#[trigger] t[i]).0@ != (
            #[trigger] t[j]).0@ by {
                assert(t[i] == s[i] && t[j] == s[j]);
            }
        }
        lemma_table_map(t);
        assert forall|k: Seq<char>| #[trigger] table_map(s).contains_key(k) <==> exists|i: int|
            0 <= i < s.len() && s[i].0@ == k by {
            if table_map(s).contains_key(k) && k != s.last().0@ {
                assert(table_map(t).contains_key(k));
                let i = choose|i: int| 0 <= i < t.len() && t[i].0@ == k;
                assert(s[i] == t[i]);
            }
            if table_map(s).contains_key(k) && k == s.last().0@ {
                assert(s[s.len() - 1].0@ == k);
            }
            if exists|i: int| 0 <= i < s.len() && s[i].0@ == k {
                let i = choose|i: int| 0 <= i < s.len() && s[i].0@ == k;
                if i < s.len() - 1 {
                    assert(t[i] == s[i]);
                    assert(table_map(t).contains_key(k));
                }
            }
        }
        assert forall|i: int| 0 <= i < s.len() implies #[trigger] table_map(s)[s[i].0@]
            == s[i].1.deep_view() by {
            if i < s.len() - 1 {
                assert(t[i] == s[i]);
                assert(s[i].0@ != s[s.len() - 1].0@);
                assert(table_map(t)[t[i].0@] == t[i].1.deep_view());
            } else {
                assert(s[i] == s.last());
            }
        }
    }
}

/// Replacing the entry at `i` by one of the same name updates the map at that name.
pub proof fn lemma_table_update<V: DeepView>(old_entries: Seq<(String, V)>, i: int, s: Seq<(String, V)>)
    requires
        keys_unique(old_entries),
        0 <= i < old_entries.len(),
        s == old_entries.update(i, s[i]),
        s[i].0@ == old_entries[i].0@,
    ensures
        keys_unique(s),
        table_map(s) == table_map(old_entries).insert(s[i].0@, s[i].1.deep_view()),
{
    let kv = s[i].0@;
    let vv = s[i].1.deep_view();
    lemma_table_map(old_entries);
    assert(keys_unique(s)) by {
        assert forall|a: int, b: int| 0 <= a < b < s.len() implies (#[trigger] s[a]).0@ != (
        #[trigger] s[b]).0@ by {
            assert(old_entries[a].0@ != old_entries[b].0@);
            if a == i {
                assert(s[a].0@ == old_entries[a].0@);
            }
            if b == i {
                assert(s[b].0@ == old_entries[b].0@);
            }
        }
    }
    lemma_table_map(s);
    assert(table_map(s) =~= table_map(old_entries).insert(kv, vv)) by {
        assert forall|key: Seq<char>| #[trigger] table_map(s).contains_key(key)
            <==> table_map(old_entries).insert(kv, vv).contains_key(key) by {
            if exists|j: int| 0 <= j < s.len() && s[j].0@ == key {
                let j = choose|j: int| 0 <= j < s.len() && s[j].0@ == key;
                assert(old_entries[j].0@ == key);
            }
            if exists|j: int| 0 <= j < old_entries.len() && old_entries[j].0@ == key {
                let j = choose|j: int| 0 <= j < old_entries.len() && old_entries[j].0@ == key;
                assert(s[j].0@ == key);
            }
        }
        assert forall|key: Seq<char>| #[trigger] table_map(s).contains_key(key) implies table_map(
            s,
        )[key] == table_map(old_entries).insert(kv, vv)[key] by {
            let j = choose|j: int| 0 <= j < s.len() && s[j].0@ == key;
            assert(table_map(s)[s[j].0@] == s[j].1.deep_view());
            if j != i {
                assert(old_entries[j] == s[j]);
                assert(table_map(old_entries)[old_entries[j].0@] == old_entries[j].1.deep_view());
            }
        }
    }
}

impl<T: DeepView> Table<Vec<T>> {
    /// Appends `x` to the list named `k`.
    pub fn push_into(&mut self, k: &str, x: T)
        requires
            old(self).wf(),
            old(self).map().contains_key(k@),
        ensures
            final(self).wf(),
            final(self).map() == old(self).map().insert(k@, old(self).map()[k@].push(x.deep_view())),
    {
        proof {
            lemma_table_map(self.entries@);
        }
        match self.position(k) {
            Some(i) => {
                let ghost old_entries = self.entries@;
                let ghost xv = x.deep_view();
                assert(table_map(old_entries)[old_entries[i as int].0@]
                    == old_entries[i as int].1.deep_view());
                self.entries[i].1.push(x);
                proof {
                    let s = self.entries@;
                    assert(s == old_entries.update(i as int, s[i as int]));
                    assert(s[i as int].1.deep_view() =~= old_entries[i as int].1.deep_view().push(
                        xv,
                    ));
                    lemma_table_update(old_entries, i as int, s);
                }
            },
            None => {},
        }
    }
}

impl<V: DeepView> Table<V> {
    /// Well formed: names are distinct.
    pub open spec fn wf(&self) -> bool {
        keys_unique(self.entries@)
    }

    /// The table as a map.
    pub open spec fn map(&self) -> Map<Seq<char>, V::V> {
        table_map(self.entries@)
    }

    /// An empty table.
    pub fn new() -> (r: Self)
        ensures
            r.wf(),
            r.map() == Map::<Seq<char>, V::V>::empty(),
    {
        Table { entries: Vec::new() }
    }

    /// The position of the entry named `k`.
    pub fn position(&self, k: &str) -> (r: Option<usize>)
        requires
            self.wf(),
        ensures
            match r {
                Some(i) => {
                    &&& i < self.entries.len()
                    &&& self.entries@[i as int].0@ == k@
                    &&& self.map().contains_key(k@)
                },
                None => !self.map().contains_key(k@),
            },
    {
        proof {
            lemma_table_map(self.entries@);
        }
        let mut i: usize = 0;
        while i < self.entries.len()
            invariant
                i <= self.entries.len(),
                self.wf(),
                forall|j: int| 0 <= j < i ==> (#[trigger] self.entries@[j]).0@ != k@,
            decreases self.entries.len() - i,
        {
            if str_equal(self.entries[i].0.as_str(), k) {
                proof {
                    lemma_table_map(self.entries@);
                    assert(self.entries@[i as int].0@ == k@);
                }
                return Some(i);
            }
            i = i + 1;
        }
        None
    }

    /// The entry named `k`.
    pub fn get(&self, k: &str) -> (r: Option<&V>)
        requires
            self.wf(),
        ensures
            match r {
                Some(v) => self.map().contains_key(k@) && v.deep_view() == self.map()[k@],
                None => !self.map().contains_key(k@),
            },
    {
        proof {
            lemma_table_map(self.entries@);
        }
        match self.position(k) {
            Some(i) => {
                assert(self.map().contains_key(k@));
                Some(&self.entries[i].1)
            },
            None => None,
        }
    }

    /// Puts `v` under the name `k`, replacing the entry of that name if any.
    pub fn insert(&mut self, k: String, v: V)
        requires
            old(self).wf(),
        ensures
            final(self).wf(),
            final(self).map() == old(self).map().insert(k@, v.deep_view()),
    {
        proof {
            lemma_table_map(self.entries@);
        }
        let ghost vv = v.deep_view();
        let ghost kv = k@;
        match self.position(k.as_str()) {
            Some(i) => {
                let ghost old_entries = self.entries@;
                self.entries.set(i, (k, v));
                proof {
                    lemma_table_update(old_entries, i as int, self.entries@);
                }
            },
            None => {
                let ghost old_entries = self.entries@;
                self.entries.push((k, v));
                proof {
                    let s = self.entries@;
                    assert(s.drop_last() == old_entries);
                    assert(keys_unique(s)) by {
                        assert forall|a: int, b: int| 0 <= a < b < s.len() implies (
                        #[trigger] s[a]).0@ != (#[trigger] s[b]).0@ by {
                            if b == s.len() - 1 {
                                assert(s[a] == old_entries[a]);
                                if s[a].0@ == kv {
                                    assert(table_map(old_entries).contains_key(kv));
                                }
                            } else {
                                assert(s[a] == old_entries[a] && s[b] == old_entries[b]);
                            }
                        }
                    }
                }
            },
        }
    }
}

/// Whether two string slices hold the same characters.
pub(crate) fn str_equal(a: &str, b: &str) -> (r: bool)
    ensures
        r == (a@ == b@),
{
    let x = crate::text::chars_of(a);
    let y = crate::text::chars_of(b);
    crate::text::chars_eq(x.as_slice(), y.as_slice())
}

} // verus!
