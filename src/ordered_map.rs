use vstd::prelude::*;

verus! {

/// A key of the store: a deadline and an identifier, ordered by deadline
/// first and by identifier among equal deadlines.
pub type DeadlineKey = (u64, u64);

/// The strict order on keys: lexicographic on (deadline, identifier).
pub open spec fn key_lt(a: DeadlineKey, b: DeadlineKey) -> bool {
    a.0 < b.0 || (a.0 == b.0 && a.1 < b.1)
}

/// `k` is in `m` and no key of `m` comes before it.
pub open spec fn is_least_key<V>(m: Map<DeadlineKey, V>, k: DeadlineKey) -> bool {
    &&& m.contains_key(k)
    &&& forall|j: DeadlineKey| #[trigger] m.contains_key(j) ==> j == k || key_lt(k, j)
}

pub fn key_less(a: &DeadlineKey, b: &DeadlineKey) -> (r: bool)
    ensures
        r == key_lt(*a, *b),
{
    a.0 < b.0 || (a.0 == b.0 && a.1 < b.1)
}

pub fn key_equal(a: &DeadlineKey, b: &DeadlineKey) -> (r: bool)
    ensures
        r == (*a == *b),
{
    a.0 == b.0 && a.1 == b.1
}

pub open spec fn sorted_entries<V>(s: Seq<(DeadlineKey, V)>) -> bool {
    forall|i: int, j: int| 0 <= i < j < s.len() ==> key_lt(#[trigger] s[i].0, #[trigger] s[j].0)
}

pub open spec fn has_key_at<V>(s: Seq<(DeadlineKey, V)>, k: DeadlineKey, i: int) -> bool {
    0 <= i < s.len() && s[i].0 == k
}

/// The map that a sequence of entries stands for.
pub open spec fn map_of<V>(s: Seq<(DeadlineKey, V)>) -> Map<DeadlineKey, V> {
    Map::new(
        |k: DeadlineKey| exists|i: int| has_key_at(s, k, i),
        |k: DeadlineKey| s[choose|i: int| has_key_at(s, k, i)].1,
    )
}

proof fn lemma_entry_in_map<V>(s: Seq<(DeadlineKey, V)>, i: int)
    requires
        sorted_entries(s),
        0 <= i < s.len(),
    ensures
        map_of(s).contains_key(s[i].0),
        map_of(s)[s[i].0] == s[i].1,
{
    let k = s[i].0;
    assert(has_key_at(s, k, i));
    let j = choose|j: int| has_key_at(s, k, j);
    if j < i {
        assert(key_lt(s[j].0, s[i].0));
    } else if i < j {
        assert(key_lt(s[i].0, s[j].0));
    }
}

pub proof fn lemma_all_entries_in_map<V>(s: Seq<(DeadlineKey, V)>)
    requires
        sorted_entries(s),
    ensures
        forall|i: int|
            #![trigger s[i]]
            0 <= i < s.len() ==> map_of(s).contains_key(s[i].0) && map_of(s)[s[i].0] == s[i].1,
{
    assert forall|i: int| #![trigger s[i]] 0 <= i < s.len() implies map_of(s).contains_key(s[i].0)
        && map_of(s)[s[i].0] == s[i].1 by {
        lemma_entry_in_map(s, i);
    }
}

/// A sorted map from deadline keys to values, with cheap access to its least
/// key. Mutation goes through `&mut self`: whoever shares one between threads
/// puts it behind a lock.
pub struct OrderedMap<V> {
    entries: Vec<(DeadlineKey, V)>,
}

impl<V> View for OrderedMap<V> {
    type V = Map<DeadlineKey, V>;

    closed spec fn view(&self) -> Map<DeadlineKey, V> {
        map_of(self.entries@)
    }
}

impl<V> OrderedMap<V> {
    /// The entries are kept in strictly increasing key order.
    pub closed spec fn wf(&self) -> bool {
        sorted_entries(self.entries@)
    }

    /// The entries in increasing key order.
    pub closed spec fn ordered(&self) -> Seq<(DeadlineKey, V)> {
        self.entries@
    }

    pub proof fn lemma_ordered_view(&self)
        requires
            self.wf(),
        ensures
            sorted_entries(self.ordered()),
            self@ == map_of(self.ordered()),
    {
    }

    pub fn new() -> (r: OrderedMap<V>)
        ensures
            r.wf(),
            r@ == Map::<DeadlineKey, V>::empty(),
    {
        let r = OrderedMap { entries: Vec::new() };
        assert(r@ =~= Map::<DeadlineKey, V>::empty());
        r
    }

    pub fn len(&self) -> (r: usize)
        requires
            self.wf(),
        ensures
            r == self@.len(),
            r == self.ordered().len(),
    {
        proof {
            self.lemma_len();
        }
        self.entries.len()
    }

    proof fn lemma_len(&self)
        requires
            self.wf(),
        ensures
            self@.dom().finite(),
            self@.len() == self.entries@.len(),
        decreases self.entries@.len(),
    {
        let s = self.entries@;
        lemma_all_entries_in_map(s);
        let keys = Seq::new(s.len(), |i: int| s[i].0);
        assert forall|i: int, j: int| 0 <= i < j < keys.len() implies keys[i] != keys[j] by {
            assert(key_lt(s[i].0, s[j].0));
        }
        keys.unique_seq_to_set();
        assert forall|k: DeadlineKey| #[trigger] self@.contains_key(k) <==> keys.contains(k) by {
            if self@.contains_key(k) {
                let i = choose|i: int| has_key_at(s, k, i);
                assert(keys[i] == k);
            }
            if keys.contains(k) {
                let i = choose|i: int| 0 <= i < keys.len() && keys[i] == k;
                assert(has_key_at(s, k, i));
            }
        }
        assert(self@.dom() =~= keys.to_set());
    }

    /// The first index whose key does not come before `k`.
    fn lower_bound(&self, k: &DeadlineKey) -> (r: usize)
        requires
            self.wf(),
        ensures
            r <= self.entries@.len(),
            forall|i: int| 0 <= i < r ==> key_lt(#[trigger] self.entries@[i].0, *k),
            r < self.entries@.len() ==> !key_lt(self.entries@[r as int].0, *k),
    {
        let mut i: usize = 0;
        while i < self.entries.len() && key_less(&self.entries[i].0, k)
            invariant
                i <= self.entries@.len(),
                forall|j: int| 0 <= j < i ==> key_lt(#[trigger] self.entries@[j].0, *k),
            decreases self.entries@.len() - i,
        {
            i = i + 1;
        }
        i
    }

    /// Whether `key` has an entry.
    pub fn contains_key(&self, key: &DeadlineKey) -> (r: bool)
        requires
            self.wf(),
        ensures
            r == self@.contains_key(*key),
    {
        let pos = self.lower_bound(key);
        proof {
            lemma_all_entries_in_map(self.entries@);
        }
        if pos < self.entries.len() && key_equal(&self.entries[pos].0, key) {
            true
        } else {
            proof {
                let s = self.entries@;
                assert forall|i: int| 0 <= i < s.len() implies s[i].0 != *key by {
                    if i > pos {
                        assert(key_lt(s[pos as int].0, s[i].0));
                    }
                }
            }
            false
        }
    }

    /// The least key, if any, without removing it.
    pub fn first_key(&self) -> (r: Option<DeadlineKey>)
        requires
            self.wf(),
        ensures
            r is None <==> self@.is_empty(),
            r matches Some(k) ==> is_least_key(self@, k),
            r is None <==> self.ordered().len() == 0,
            r matches Some(k) ==> k == self.ordered()[0].0,
    {
        proof {
            self.lemma_len();
            lemma_all_entries_in_map(self.entries@);
        }
        if self.entries.len() == 0 {
            assert(self@.dom() =~= Set::empty());
            None
        } else {
            let k = self.entries[0].0;
            proof {
                let s = self.entries@;
                assert forall|j: DeadlineKey| #[trigger] self@.contains_key(j) implies j == k
                    || key_lt(k, j) by {
                    let i = choose|i: int| has_key_at(s, j, i);
                    if i > 0 {
                        assert(key_lt(s[0].0, s[i].0));
                    }
                }
            }
            Some(k)
        }
    }

    /// Removes the entry with the least key and returns it.
    pub fn pop_first(&mut self) -> (r: Option<(DeadlineKey, V)>)
        requires
            old(self).wf(),
        ensures
            final(self).wf(),
            r is None <==> old(self)@.is_empty(),
            r is None ==> final(self)@ == old(self)@,
            r matches Some(e) ==> {
                &&& is_least_key(old(self)@, e.0)
                &&& e.1 == old(self)@[e.0]
                &&& final(self)@ == old(self)@.remove(e.0)
                &&& e == old(self).ordered()[0]
            },
            final(self).ordered() == if r is None {
                old(self).ordered()
            } else {
                old(self).ordered().subrange(1, old(self).ordered().len() as int)
            },
    {
        proof {
            self.lemma_len();
        }
        if self.entries.len() == 0 {
            assert(self@.dom() =~= Set::empty());
            None
        } else {
            let ghost s = self.entries@;
            let first = self.entries.remove(0);
            proof {
                let t = self.entries@;
                assert(t =~= s.subrange(1, s.len() as int));
                lemma_all_entries_in_map(s);
                lemma_all_entries_in_map(t);
                let k = s[0].0;
                assert forall|j: DeadlineKey| #[trigger] map_of(s).contains_key(j) implies j == k
                    || key_lt(k, j) by {
                    let i = choose|i: int| has_key_at(s, j, i);
                    if i > 0 {
                        assert(key_lt(s[0].0, s[i].0));
                    }
                }
                assert forall|j: DeadlineKey| #[trigger]
                    map_of(t).contains_key(j) == map_of(s).remove(k).contains_key(j) by {
                    if map_of(t).contains_key(j) {
                        let i = choose|i: int| has_key_at(t, j, i);
                        assert(s[i + 1] == t[i]);
                        assert(key_lt(s[0].0, s[i + 1].0));
                    }
                    if map_of(s).remove(k).contains_key(j) {
                        let i = choose|i: int| has_key_at(s, j, i);
                        assert(i != 0);
                        assert(t[i - 1] == s[i]);
                    }
                }
                assert forall|j: DeadlineKey| #[trigger] map_of(t).contains_key(j) implies map_of(
                    t,
                )[j] == map_of(s)[j] by {
                    let i = choose|i: int| has_key_at(t, j, i);
                    assert(s[i + 1] == t[i]);
                }
                assert(map_of(t) =~= map_of(s).remove(k));
            }
            Some(first)
        }
    }

    /// Adds `value` under `key`, replacing the value that was there.
    pub fn insert(&mut self, key: DeadlineKey, value: V)
        requires
            old(self).wf(),
        ensures
            final(self).wf(),
            final(self)@ == old(self)@.insert(key, value),
    {
        let pos = self.lower_bound(&key);
        let ghost s = self.entries@;
        let found = pos < self.entries.len() && key_equal(&self.entries[pos].0, &key);
        if found {
            let _ = self.entries.remove(pos);
        }
        let ghost s1 = self.entries@;
        self.entries.insert(pos, (key, value));
        proof {
            let t = self.entries@;
            let shift: int = if found { 0 } else { 1 };
            assert(s1 == if found { s.remove(pos as int) } else { s });
            assert(t == s1.insert(pos as int, (key, value)));
            assert(t.len() == s.len() + shift);
            assert forall|i: int| 0 <= i < t.len() && i != pos implies (#[trigger] t[i]) == (if i
                < pos { s[i] } else { s[i - shift] }) by {
                if i < pos {
                    assert(t[i] == s1[i]);
                } else {
                    assert(t[i] == s1[i - 1]);
                }
            }
            assert forall|i: int, j: int| 0 <= i < j < t.len() implies key_lt(
                #[trigger] t[i].0,
                #[trigger] t[j].0,
            ) by {
                assert(t[pos as int].0 == key);
                if j < pos {
                    assert(key_lt(s[i].0, s[j].0));
                } else if i < pos && j == pos {
                } else if i < pos {
                    assert(t[j] == s[j - shift]);
                    assert(key_lt(s[i].0, key));
                    if j - shift > pos {
                        assert(key_lt(s[pos as int].0, s[j - shift].0));
                    }
                } else if i == pos {
                    assert(t[j] == s[j - shift]);
                    if j - shift > pos {
                        assert(key_lt(s[pos as int].0, s[j - shift].0));
                    }
                } else {
                    assert(t[i] == s[i - shift]);
                    assert(t[j] == s[j - shift]);
                    assert(key_lt(s[i - shift].0, s[j - shift].0));
                }
            }
            lemma_all_entries_in_map(s);
            lemma_all_entries_in_map(t);
            let m = map_of(s).insert(key, value);
            assert forall|j: DeadlineKey| #[trigger]
                map_of(t).contains_key(j) == m.contains_key(j) by {
                if map_of(t).contains_key(j) && j != key {
                    let i = choose|i: int| has_key_at(t, j, i);
                    assert(t[i] == (if i < pos { s[i] } else { s[i - shift] }));
                }
                if map_of(s).contains_key(j) && j != key {
                    let i = choose|i: int| has_key_at(s, j, i);
                    if i < pos {
                        assert(t[i] == s[i]);
                    } else {
                        assert(i != pos || !found);
                        assert(t[i + shift] == s[i]);
                    }
                }
                if j == key {
                    assert(t[pos as int].0 == key);
                }
            }
            assert forall|j: DeadlineKey| #[trigger] map_of(t).contains_key(j) implies map_of(
                t,
            )[j] == m[j] by {
                let i = choose|i: int| has_key_at(t, j, i);
                if j != key {
                    assert(t[i] == (if i < pos { s[i] } else { s[i - shift] }));
                } else {
                    assert(t[pos as int].0 == key);
                }
            }
            assert(map_of(t) =~= m);
        }
    }

    /// Removes the entry under `key`, if there is one, and returns its value.
    pub fn remove(&mut self, key: &DeadlineKey) -> (r: Option<V>)
        requires
            old(self).wf(),
        ensures
            final(self).wf(),
            final(self)@ == old(self)@.remove(*key),
            r is Some <==> old(self)@.contains_key(*key),
            r matches Some(v) ==> v == old(self)@[*key],
    {
        let pos = self.lower_bound(key);
        let ghost s = self.entries@;
        if pos < self.entries.len() && key_equal(&self.entries[pos].0, key) {
            let e = self.entries.remove(pos);
            proof {
                let t = self.entries@;
                assert forall|i: int| 0 <= i < t.len() implies (#[trigger] t[i]) == (if i
                    < pos { s[i] } else { s[i + 1] }) by {}
                assert forall|i: int, j: int| 0 <= i < j < t.len() implies key_lt(
                    #[trigger] t[i].0,
                    #[trigger] t[j].0,
                ) by {
                    let a: int = if i < pos { i } else { i + 1 };
                    let b: int = if j < pos { j } else { j + 1 };
                    assert(key_lt(s[a].0, s[b].0));
                }
                lemma_all_entries_in_map(s);
                lemma_all_entries_in_map(t);
                let m = map_of(s).remove(*key);
                assert forall|j: DeadlineKey| #[trigger]
                    map_of(t).contains_key(j) == m.contains_key(j) by {
                    if map_of(t).contains_key(j) {
                        let i = choose|i: int| has_key_at(t, j, i);
                        let a: int = if i < pos { i } else { i + 1 };
                        assert(t[i] == s[a]);
                        if a > pos {
                            assert(key_lt(s[pos as int].0, s[a].0));
                        }
                    }
                    if m.contains_key(j) {
                        let i = choose|i: int| has_key_at(s, j, i);
                        if i < pos {
                            assert(t[i] == s[i]);
                        } else {
                            assert(t[i - 1] == s[i]);
                        }
                    }
                }
                assert forall|j: DeadlineKey| #[trigger] map_of(t).contains_key(j) implies map_of(
                    t,
                )[j] == m[j] by {
                    let i = choose|i: int| has_key_at(t, j, i);
                    let a: int = if i < pos { i } else { i + 1 };
                    assert(t[i] == s[a]);
                }
                assert(map_of(t) =~= m);
            }
            Some(e.1)
        } else {
            proof {
                lemma_all_entries_in_map(s);
                assert forall|i: int| 0 <= i < s.len() implies s[i].0 != *key by {
                    if i > pos {
                        assert(key_lt(s[pos as int].0, s[i].0));
                    }
                }
                assert(!map_of(s).contains_key(*key));
                assert(map_of(s) =~= map_of(s).remove(*key));
            }
            None
        }
    }

    /// Removes the entry under `key`, if there is one.
    pub fn delete(&mut self, key: &DeadlineKey)
        requires
            old(self).wf(),
        ensures
            final(self).wf(),
            final(self)@ == old(self)@.remove(*key),
    {
        let _ = self.remove(key);
    }

    /// Where `key` is present, replaces its value `v` by `f(v)` under the same
    /// key; otherwise leaves the map as it is and does not call `f`.
    pub fn update<F: FnOnce(V) -> V>(&mut self, key: DeadlineKey, f: F)
        requires
            old(self).wf(),
            forall|v: V| f.requires((v,)),
        ensures
            final(self).wf(),
            !old(self)@.contains_key(key) ==> final(self)@ == old(self)@,
            old(self)@.contains_key(key) ==> exists|nv: V|
                #[trigger] f.ensures((old(self)@[key],), nv) && final(self)@ == old(self)@.insert(
                    key,
                    nv,
                ),
    {
        let ghost before = self@;
        match self.remove(&key) {
            Some(v) => {
                let nv = f(v);
                self.insert(key, nv);
                assert(self@ =~= before.insert(key, nv));
            },
            None => {
                assert(self@ =~= before);
            },
        }
    }
}

} // verus!
