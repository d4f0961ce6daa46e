//! A string-keyed map of environment variables, held as a vector of pairs
//! whose keys never repeat.
use vstd::prelude::*;

verus! {

/// Whether the keys of `s` are pairwise different.
pub open spec fn keys_distinct(s: Seq<(String, String)>) -> bool {
    forall|i: int, j: int|
        0 <= i < s.len() && 0 <= j < s.len() && i != j ==> #[trigger] s[i].0@ != #[trigger] s[j].0@
}

/// Whether `k` is the key of some entry of `s`.
pub open spec fn has_key(s: Seq<(String, String)>, k: Seq<char>) -> bool {
    exists|i: int| 0 <= i < s.len() && #[trigger] s[i].0@ == k
}

/// The position of the entry whose key is `k`.
pub open spec fn key_index(s: Seq<(String, String)>, k: Seq<char>) -> int {
    choose|i: int| 0 <= i < s.len() && #[trigger] s[i].0@ == k
}

/// The map that a sequence of pairs with distinct keys stands for.
pub open spec fn pairs_map(s: Seq<(String, String)>) -> Map<Seq<char>, Seq<char>> {
    Map::new(|k: Seq<char>| has_key(s, k), |k: Seq<char>| s[key_index(s, k)].1@)
}

/// An entry of a sequence with distinct keys is what the map holds under its key.
pub proof fn lemma_pairs_map_at(s: Seq<(String, String)>, i: int)
    requires
        keys_distinct(s),
        0 <= i < s.len(),
    ensures
        pairs_map(s).contains_key(s[i].0@),
        pairs_map(s)[s[i].0@] == s[i].1@,
{
    assert(has_key(s, s[i].0@));
    let j = key_index(s, s[i].0@);
    assert(s[j].0@ == s[i].0@);
}

/// Overwriting the value of an entry overwrites the map under that key.
pub proof fn lemma_pairs_map_update(s: Seq<(String, String)>, i: int, e: (String, String))
    requires
        keys_distinct(s),
        0 <= i < s.len(),
        e.0@ == s[i].0@,
    ensures
        keys_distinct(s.update(i, e)),
        pairs_map(s.update(i, e)) == pairs_map(s).insert(e.0@, e.1@),
{
    let t = s.update(i, e);
    assert forall|a: int, b: int|
        0 <= a < t.len() && 0 <= b < t.len() && a != b implies #[trigger] t[a].0@ != #[trigger] t[b].0@ by {
        assert(t[a].0@ == s[a].0@);
        assert(t[b].0@ == s[b].0@);
    }
    assert forall|k: Seq<char>| has_key(t, k) <==> (has_key(s, k) || k == e.0@) by {
        if has_key(s, k) {
            let j = key_index(s, k);
            assert(t[j].0@ == k);
        }
        if has_key(t, k) {
            let j = key_index(t, k);
            assert(s[j].0@ == k);
        }
        if k == e.0@ {
            assert(t[i].0@ == k);
        }
    }
    assert forall|k: Seq<char>| #[trigger] pairs_map(t).contains_key(k) implies pairs_map(t)[k] == pairs_map(s).insert(e.0@, e.1@)[k] by {
        let j = key_index(t, k);
        if k == e.0@ {
            assert(j == i);
        } else {
            lemma_pairs_map_at(s, j);
        }
    }
    assert(pairs_map(t) =~= pairs_map(s).insert(e.0@, e.1@));
}

/// Appending an entry under a new key adds that key to the map.
pub proof fn lemma_pairs_map_push(s: Seq<(String, String)>, e: (String, String))
    requires
        keys_distinct(s),
        !has_key(s, e.0@),
    ensures
        keys_distinct(s.push(e)),
        pairs_map(s.push(e)) == pairs_map(s).insert(e.0@, e.1@),
{
    let t = s.push(e);
    assert forall|a: int, b: int|
        0 <= a < t.len() && 0 <= b < t.len() && a != b implies #[trigger] t[a].0@ != #[trigger] t[b].0@ by {
        if a < s.len() && b < s.len() {
            assert(t[a] == s[a] && t[b] == s[b]);
        } else if a < s.len() {
            assert(t[a] == s[a]);
        } else {
            assert(t[b] == s[b]);
        }
    }
    assert forall|k: Seq<char>| has_key(t, k) <==> (has_key(s, k) || k == e.0@) by {
        if has_key(s, k) {
            let j = key_index(s, k);
            assert(t[j].0@ == k);
        }
        if has_key(t, k) {
            let j = key_index(t, k);
            if j < s.len() {
                assert(s[j].0@ == k);
            }
        }
        if k == e.0@ {
            assert(t[s.len() as int].0@ == k);
        }
    }
    assert forall|k: Seq<char>| #[trigger] pairs_map(t).contains_key(k) implies pairs_map(t)[k] == pairs_map(s).insert(e.0@, e.1@)[k] by {
        let j = key_index(t, k);
        if k == e.0@ {
            assert(j == s.len());
        } else {
            assert(j < s.len());
            assert(t[j] == s[j]);
            lemma_pairs_map_at(s, j);
        }
    }
    assert(pairs_map(t) =~= pairs_map(s).insert(e.0@, e.1@));
}

/// A map from variable names to values, such as a process environment.
pub struct EnvMap {
    entries: Vec<(String, String)>,
}

impl View for EnvMap {
    type V = Map<Seq<char>, Seq<char>>;

    closed spec fn view(&self) -> Map<Seq<char>, Seq<char>> {
        pairs_map(self.entries@)
    }
}

impl EnvMap {
    /// The keys stored never repeat.
    pub closed spec fn wf(&self) -> bool {
        keys_distinct(self.entries@)
    }

    /// An empty map.
    pub fn new() -> (m: EnvMap)
        ensures
            m.wf(),
            m@ == Map::<Seq<char>, Seq<char>>::empty(),
    {
        let m = EnvMap { entries: Vec::new() };
        assert(m@ =~= Map::<Seq<char>, Seq<char>>::empty());
        m
    }

    /// The position of the entry stored under `key`, if any.
    fn position(&self, key: &String) -> (r: Option<usize>)
        ensures
            match r {
                Some(i) => i < self.entries@.len() && self.entries@[i as int].0@ == key@,
                None => !has_key(self.entries@, key@),
            },
    {
        let mut i: usize = 0;
        while i < self.entries.len()
            invariant
                i <= self.entries@.len(),
                forall|j: int| 0 <= j < i ==> #[trigger] self.entries@[j].0@ != key@,
            decreases self.entries@.len() - i,
        {
            if self.entries[i].0 == *key {
                return Some(i);
            }
            i = i + 1;
        }
        None
    }

    /// Sets `key` to `value`, replacing what was stored under `key` before.
    pub fn insert(&mut self, key: String, value: String)
        requires
            old(self).wf(),
        ensures
            final(self).wf(),
            final(self)@ == old(self)@.insert(key@, value@),
    {
        let pos = self.position(&key);
        let ghost s = self.entries@;
        let ghost e = (key, value);
        match pos {
            Some(i) => {
                proof { lemma_pairs_map_update(s, i as int, e); }
                self.entries.set(i, (key, value));
            },
            None => {
                proof { lemma_pairs_map_push(s, e); }
                self.entries.push((key, value));
            },
        }
    }

    /// The value stored under `key`, if any.
    pub fn get(&self, key: &String) -> (r: Option<String>)
        requires
            self.wf(),
        ensures
            r is Some <==> self@.contains_key(key@),
            r is Some ==> r->0@ == self@[key@],
    {
        match self.position(key) {
            Some(i) => {
                proof { lemma_pairs_map_at(self.entries@, i as int); }
                Some(self.entries[i].1.clone())
            },
            None => None,
        }
    }

    /// The number of variables held.
    pub fn len(&self) -> (n: usize)
        requires
            self.wf(),
        ensures
            n == self@.dom().len(),
    {
        proof { lemma_pairs_map_len(self.entries@); }
        self.entries.len()
    }

    /// Every variable as a (name, value) pair, each name once.
    pub fn pairs(&self) -> (r: Vec<(String, String)>)
        requires
            self.wf(),
        ensures
            keys_distinct(r@),
            pairs_map(r@) == self@,
    {
        let mut r: Vec<(String, String)> = Vec::new();
        let mut i: usize = 0;
        while i < self.entries.len()
            invariant
                i <= self.entries@.len(),
                keys_distinct(self.entries@),
                r@.len() == i,
                forall|j: int| 0 <= j < i ==> #[trigger] r@[j].0@ == self.entries@[j].0@ && r@[j].1@ == self.entries@[j].1@,
            decreases self.entries@.len() - i,
        {
            let k = self.entries[i].0.clone();
            let v = self.entries[i].1.clone();
            r.push((k, v));
            i = i + 1;
        }
        proof {
            assert(same_pair_views(r@, self.entries@));
            lemma_pairs_map_same_views(r@, self.entries@);
        }
        r
    }
}

impl Clone for EnvMap {
    fn clone(&self) -> (r: EnvMap)
        ensures
            self.wf() ==> r.wf() && r@ == self@,
    {
        let mut p: Vec<(String, String)> = Vec::new();
        let mut i: usize = 0;
        while i < self.entries.len()
            invariant
                i <= self.entries@.len(),
                p@.len() == i,
                forall|j: int| 0 <= j < i ==> #[trigger] p@[j].0@ == self.entries@[j].0@ && p@[j].1@ == self.entries@[j].1@,
            decreases self.entries@.len() - i,
        {
            let k = self.entries[i].0.clone();
            let v = self.entries[i].1.clone();
            p.push((k, v));
            i = i + 1;
        }
        proof {
            assert(same_pair_views(p@, self.entries@));
            if self.wf() {
                lemma_pairs_map_same_views(p@, self.entries@);
            }
        }
        EnvMap { entries: p }
    }
}

/// Whether the two sequences hold entries with the same key and value views, in order.
pub open spec fn same_pair_views(a: Seq<(String, String)>, b: Seq<(String, String)>) -> bool {
    &&& a.len() == b.len()
    &&& forall|j: int| 0 <= j < a.len() ==> #[trigger] a[j].0@ == b[j].0@ && a[j].1@ == b[j].1@
}

/// Two sequences whose entries have the same key and value views stand for the same map.
pub proof fn lemma_pairs_map_same_views(a: Seq<(String, String)>, b: Seq<(String, String)>)
    requires
        same_pair_views(a, b),
        keys_distinct(b),
    ensures
        keys_distinct(a),
        pairs_map(a) == pairs_map(b),
{
    assert forall|x: int, y: int|
        0 <= x < a.len() && 0 <= y < a.len() && x != y implies #[trigger] a[x].0@ != #[trigger] a[y].0@ by {
        assert(a[x].0@ == b[x].0@ && a[y].0@ == b[y].0@);
    }
    assert forall|k: Seq<char>| has_key(a, k) <==> has_key(b, k) by {
        if has_key(a, k) {
            let j = key_index(a, k);
            assert(b[j].0@ == k);
        }
        if has_key(b, k) {
            let j = key_index(b, k);
            assert(a[j].0@ == k);
        }
    }
    assert forall|k: Seq<char>| #[trigger] pairs_map(a).contains_key(k) implies pairs_map(a)[k] == pairs_map(b)[k] by {
        let j = key_index(a, k);
        lemma_pairs_map_at(a, j);
        assert(b[j].0@ == k);
        lemma_pairs_map_at(b, j);
    }
    assert(pairs_map(a) =~= pairs_map(b));
}

/// The map of a sequence with distinct keys has as many keys as the sequence has entries.
pub proof fn lemma_pairs_map_len(s: Seq<(String, String)>)
    requires
        keys_distinct(s),
    ensures
        pairs_map(s).dom().finite(),
        pairs_map(s).dom().len() == s.len(),
    decreases s.len(),
{
    if s.len() == 0 {
        assert(pairs_map(s).dom() =~= Set::<Seq<char>>::empty());
    } else {
        let p = s.drop_last();
        let e = s.last();
        assert(keys_distinct(p)) by {
            assert forall|a: int, b: int|
                0 <= a < p.len() && 0 <= b < p.len() && a != b implies #[trigger] p[a].0@ != #[trigger] p[b].0@ by {
                assert(p[a] == s[a] && p[b] == s[b]);
            }
        }
        lemma_pairs_map_len(p);
        assert(!has_key(p, e.0@)) by {
            if has_key(p, e.0@) {
                let j = key_index(p, e.0@);
                assert(s[j] == p[j]);
                assert(s[s.len() - 1] == e);
            }
        }
        lemma_pairs_map_push(p, e);
        assert(p.push(e) =~= s);
        assert(!pairs_map(p).dom().contains(e.0@));
        assert(pairs_map(s).dom() =~= pairs_map(p).dom().insert(e.0@));
    }
}

} // verus!
