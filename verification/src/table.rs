//! A string-keyed map kept as a vector of entries. Its meaning is a `Map`
//! in which, should a key occur more than once, its first entry wins; every
//! operation below keeps that meaning exact.

use vstd::prelude::*;

verus! {

/// The map that a sequence of key/value entries stands for: the first entry
/// of each key gives its value.
pub open spec fn first_wins<W>(s: Seq<(Seq<char>, W)>) -> Map<Seq<char>, W>
    decreases s.len(),
{
    if s.len() == 0 {
        Map::empty()
    } else {
        let m = first_wins(s.drop_last());
        if m.contains_key(s.last().0) {
            m
        } else {
            m.insert(s.last().0, s.last().1)
        }
    }
}

/// `i` is the first position at which key `k` occurs in `s`.
pub open spec fn is_first_key<W>(s: Seq<(Seq<char>, W)>, k: Seq<char>, i: int) -> bool {
    &&& 0 <= i < s.len()
    &&& s[i].0 == k
    &&& forall|j: int| 0 <= j < i ==> s[j].0 != k
}

/// A key is in the map exactly when some entry carries it.
pub proof fn lemma_first_wins_dom<W>(s: Seq<(Seq<char>, W)>, k: Seq<char>)
    ensures
        first_wins(s).contains_key(k) <==> exists|i: int| 0 <= i < s.len() && s[i].0 == k,
    decreases s.len(),
{
    if s.len() > 0 {
        let t = s.drop_last();
        lemma_first_wins_dom(t, k);
        if exists|i: int| 0 <= i < s.len() && s[i].0 == k {
            let i = choose|i: int| 0 <= i < s.len() && s[i].0 == k;
            if i < t.len() {
                assert(t[i].0 == k);
            }
        }
        if exists|i: int| 0 <= i < t.len() && t[i].0 == k {
            let i = choose|i: int| 0 <= i < t.len() && t[i].0 == k;
            assert(s[i].0 == k);
        }
    }
}

/// The value of a key is the one of its first entry.
pub proof fn lemma_first_wins_value<W>(s: Seq<(Seq<char>, W)>, k: Seq<char>, i: int)
    requires
        is_first_key(s, k, i),
    ensures
        first_wins(s).contains_key(k),
        first_wins(s)[k] == s[i].1,
    decreases s.len(),
{
    let t = s.drop_last();
    if i < t.len() {
        lemma_first_wins_value(t, k, i);
    } else {
        lemma_first_wins_dom(t, k);
    }
}

/// The map has finitely many keys.
pub proof fn lemma_first_wins_finite<W>(s: Seq<(Seq<char>, W)>)
    ensures
        first_wins(s).dom().finite(),
    decreases s.len(),
{
    if s.len() > 0 {
        lemma_first_wins_finite(s.drop_last());
    }
}

/// Overwriting the value of a key's first entry overwrites the key's value.
pub proof fn lemma_first_wins_update<W>(s: Seq<(Seq<char>, W)>, k: Seq<char>, i: int, w: W)
    requires
        is_first_key(s, k, i),
    ensures
        first_wins(s.update(i, (k, w))) == first_wins(s).insert(k, w),
    decreases s.len(),
{
    let u = s.update(i, (k, w));
    let t = s.drop_last();
    assert(u.drop_last() == if i < t.len() { t.update(i, (k, w)) } else { t });
    if i < t.len() {
        lemma_first_wins_update(t, k, i, w);
        lemma_first_wins_value(t, k, i);
        assert(first_wins(u) =~= first_wins(s).insert(k, w));
    } else {
        lemma_first_wins_dom(t, k);
        assert(first_wins(u) =~= first_wins(s).insert(k, w));
    }
}

/// Appending an entry adds its key, unless the key is already there.
pub proof fn lemma_first_wins_push<W>(s: Seq<(Seq<char>, W)>, e: (Seq<char>, W))
    ensures
        first_wins(s.push(e)) == if first_wins(s).contains_key(e.0) {
            first_wins(s)
        } else {
            first_wins(s).insert(e.0, e.1)
        },
{
    assert(s.push(e).drop_last() =~= s);
}

/// Dropping every entry of key `k` drops `k` from the map and nothing else.
pub proof fn lemma_first_wins_without<W>(s: Seq<(Seq<char>, W)>, kept: Seq<(Seq<char>, W)>, k: Seq<char>, n: int)
    requires
        0 <= n < s.len(),
        first_wins(kept) == first_wins(s.take(n)).remove(k),
    ensures
        first_wins(if s[n].0 == k { kept } else { kept.push(s[n]) }) == first_wins(s.take(n + 1)).remove(k),
{
    assert(s.take(n + 1) =~= s.take(n).push(s[n]));
    lemma_first_wins_push(s.take(n), s[n]);
    if s[n].0 == k {
        assert(first_wins(s.take(n + 1)).remove(k) =~= first_wins(s.take(n)).remove(k));
    } else {
        lemma_first_wins_push(kept, s[n]);
        assert(first_wins(kept.push(s[n])) =~= first_wins(s.take(n + 1)).remove(k));
    }
}

/// The texts of a sequence of strings.
pub open spec fn string_views(v: Seq<String>) -> Seq<Seq<char>> {
    v.map_values(|x: String| x@)
}

/// The entries of a vector, seen through the views of keys and values.
pub open spec fn entry_views<V: View>(s: Seq<(String, V)>) -> Seq<(Seq<char>, V::V)> {
    s.map_values(|e: (String, V)| (e.0@, e.1@))
}

/// A map from strings to values, kept as a vector of entries.
pub struct StrMap<V> {
    entries: Vec<(String, V)>,
}

impl<V: View> View for StrMap<V> {
    type V = Map<Seq<char>, V::V>;

    closed spec fn view(&self) -> Map<Seq<char>, V::V> {
        first_wins(entry_views(self.entries@))
    }
}

impl<V: View> StrMap<V> {
    /// The map has finitely many keys.
    pub proof fn lemma_finite(&self)
        ensures
            self@.dom().finite(),
    {
        lemma_first_wins_finite(entry_views(self.entries@));
    }

    /// The empty map.
    pub fn new() -> (m: Self)
        ensures
            m@ == Map::<Seq<char>, V::V>::empty(),
    {
        let m = StrMap { entries: Vec::new() };
        assert(entry_views(m.entries@) =~= Seq::empty());
        m
    }

    /// Whether the map has no key.
    pub fn is_empty(&self) -> (b: bool)
        ensures
            b == (self@.dom() =~= Set::empty()),
    {
        proof {
            let s = entry_views(self.entries@);
            if s.len() > 0 {
                lemma_first_wins_dom(s, s[0].0);
            } else {
                assert(first_wins(s).dom() =~= Set::empty());
            }
        }
        self.entries.len() == 0
    }

    /// Position of the entry that gives the value of `k`, if any.
    fn position(&self, k: &String) -> (r: Option<usize>)
        ensures
            match r {
                Some(i) => is_first_key(entry_views(self.entries@), k@, i as int),
                None => !self@.contains_key(k@),
            },
    {
        let ghost s = entry_views(self.entries@);
        let mut i: usize = 0;
        while i < self.entries.len()
            invariant
                0 <= i <= self.entries@.len(),
                s == entry_views(self.entries@),
                forall|j: int| 0 <= j < i ==> s[j].0 != k@,
            decreases self.entries@.len() - i,
        {
            if self.entries[i].0 == *k {
                return Some(i);
            }
            i = i + 1;
        }
        proof {
            lemma_first_wins_dom(s, k@);
        }
        None
    }

    /// Sets the value of `k` to `v`, adding `k` if it was absent.
    pub fn insert(&mut self, k: String, v: V)
        ensures
            final(self)@ == old(self)@.insert(k@, v@),
    {
        let ghost s = entry_views(self.entries@);
        let ghost kv = k@;
        let ghost vv = v@;
        match self.position(&k) {
            Some(i) => {
                self.entries.set(i, (k, v));
                proof {
                    assert(entry_views(self.entries@) =~= s.update(i as int, (kv, vv)));
                    lemma_first_wins_update(s, kv, i as int, vv);
                }
            },
            None => {
                self.entries.push((k, v));
                proof {
                    assert(entry_views(self.entries@) =~= s.push((kv, vv)));
                    lemma_first_wins_push(s, (kv, vv));
                }
            },
        }
    }

    /// Mutable access to the value of `k`, if `k` is a key; whatever is
    /// written through it becomes the new value of `k`.
    pub fn get_mut(&mut self, k: &String) -> (r: Option<&mut V>)
        ensures
            match r {
                Some(v) => {
                    &&& old(self)@.contains_key(k@)
                    &&& old(self)@[k@] == v@
                    &&& final(self)@ == old(self)@.insert(k@, final(v)@)
                },
                None => {
                    &&& !old(self)@.contains_key(k@)
                    &&& final(self)@ == old(self)@
                },
            },
    {
        match self.position(k) {
            Some(i) => {
                proof {
                    lemma_first_wins_value(entry_views(self.entries@), k@, i as int);
                    let es = self.entries@;
                    let s = entry_views(es);
                    let key = es[i as int].0;
                    assert forall|x: V| #[trigger] first_wins(entry_views(es.update(i as int, (key, x))))
                        == first_wins(s).insert(k@, x@) by {
                        assert(entry_views(es.update(i as int, (key, x))) =~= s.update(i as int, (k@, x@)));
                        lemma_first_wins_update(s, k@, i as int, x@);
                    }
                }
                let r = &mut self.entries[i].1;
                Some(r)
            },
            None => None,
        }
    }

    /// Removes `k`, with its value, from the map.
    pub fn remove(&mut self, k: &String)
        ensures
            final(self)@ == old(self)@.remove(k@),
    {
        let ghost s = entry_views(self.entries@);
        let mut old_entries: Vec<(String, V)> = Vec::new();
        std::mem::swap(&mut old_entries, &mut self.entries);
        let mut kept: Vec<(String, V)> = Vec::new();
        proof {
            assert(entry_views(kept@) =~= Seq::empty());
            assert(s.take(0) =~= Seq::empty());
            assert(first_wins(s.take(0)).remove(k@) =~= Map::empty());
        }
        for e in it: old_entries
            invariant
                s == entry_views(it.seq()),
                first_wins(entry_views(kept@)) == first_wins(s.take(it.index() as int)).remove(k@),
        {
            let ghost n = it.index() as int;
            let ghost before = entry_views(kept@);
            proof {
                lemma_first_wins_without(s, before, k@, n);
            }
            if e.0 != *k {
                kept.push(e);
                proof {
                    assert(entry_views(kept@) =~= before.push(s[n]));
                }
            }
        }
        proof {
            assert(s.take(s.len() as int) =~= s);
        }
        self.entries = kept;
    }

    /// Removes every key of `ks`, with its value, from the map.
    pub fn remove_keys(&mut self, ks: &Vec<String>)
        ensures
            final(self)@ == old(self)@.remove_keys(string_views(ks@).to_set()),
    {
        let ghost kv = string_views(ks@);
        for i in 0..ks.len()
            invariant
                kv == string_views(ks@),
                self@ == old(self)@.remove_keys(kv.take(i as int).to_set()),
        {
            self.remove(&ks[i]);
            proof {
                assert(kv[i as int] == ks@[i as int]@);
                assert(kv.take(i + 1) =~= kv.take(i as int).push(kv[i as int]));
                kv.take(i as int).lemma_push_to_set_commute(kv[i as int]);
                assert(self@ =~= old(self)@.remove_keys(kv.take(i + 1).to_set()));
            }
        }
        proof {
            assert(kv.take(ks@.len() as int) =~= kv);
        }
    }

    /// The keys of the map, each once, in the order of their first entries.
    pub fn keys(&self) -> (ks: Vec<String>)
        ensures
            string_views(ks@).no_duplicates(),
            string_views(ks@).to_set() == self@.dom(),
            forall|i: int| 0 <= i < ks@.len() ==> self@.contains_key(#[trigger] ks@[i]@),
    {
        let ghost s = entry_views(self.entries@);
        let mut ks: Vec<String> = Vec::new();
        let mut i: usize = 0;
        while i < self.entries.len()
            invariant
                0 <= i <= self.entries@.len(),
                s == entry_views(self.entries@),
                string_views(ks@).no_duplicates(),
                string_views(ks@).to_set() == first_wins(s.take(i as int)).dom(),
            decreases self.entries@.len() - i,
        {
            let ghost before = string_views(ks@);
            proof {
                assert(s.take(i + 1) =~= s.take(i as int).push(s[i as int]));
                lemma_first_wins_push(s.take(i as int), s[i as int]);
            }
            let mut seen = false;
            let mut j: usize = 0;
            while j < ks.len()
                invariant
                    0 <= j <= ks@.len(),
                    i < self.entries@.len(),
                    s == entry_views(self.entries@),
                    before == string_views(ks@),
                    seen == exists|m: int| 0 <= m < j && before[m] == s[i as int].0,
                decreases ks@.len() - j,
            {
                proof {
                    assert(before[j as int] == ks@[j as int]@);
                    assert(s[i as int].0 == self.entries@[i as int].0@);
                }
                if ks[j] == self.entries[i].0 {
                    seen = true;
                }
                j = j + 1;
            }
            proof {
                assert(s[i as int].0 == self.entries@[i as int].0@);
            }
            if !seen {
                ks.push(self.entries[i].0.clone());
                proof {
                    let after = string_views(ks@);
                    assert(after =~= before.push(s[i as int].0));
                    assert(!before.contains(s[i as int].0));
                    assert(!before.to_set().contains(s[i as int].0));
                    before.lemma_push_to_set_commute(s[i as int].0);
                }
            } else {
                proof {
                    let m = choose|m: int| 0 <= m < before.len() && before[m] == s[i as int].0;
                    assert(before.to_set().contains(before[m]));
                }
            }
            i = i + 1;
        }
        proof {
            assert(s.take(s.len() as int) =~= s);
            let v = string_views(ks@);
            assert forall|i: int| 0 <= i < ks@.len() implies self@.contains_key(#[trigger] ks@[i]@) by {
                assert(v[i] == ks@[i]@);
                assert(v.to_set().contains(v[i]));
            }
        }
        ks
    }

    /// Whether `k` is a key of the map.
    pub fn contains_key(&self, k: &String) -> (b: bool)
        ensures
            b == self@.contains_key(k@),
    {
        match self.position(k) {
            Some(i) => {
                proof {
                    lemma_first_wins_value(entry_views(self.entries@), k@, i as int);
                }
                true
            },
            None => false,
        }
    }

    /// The value of `k`, if `k` is a key.
    pub fn get(&self, k: &String) -> (r: Option<&V>)
        ensures
            match r {
                Some(v) => self@.contains_key(k@) && self@[k@] == v@,
                None => !self@.contains_key(k@),
            },
    {
        match self.position(k) {
            Some(i) => {
                proof {
                    lemma_first_wins_value(entry_views(self.entries@), k@, i as int);
                }
                Some(&self.entries[i].1)
            },
            None => None,
        }
    }
}

} // verus!
