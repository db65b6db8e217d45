use vstd::prelude::*;

verus! {

/// An environment snapshot: variable names mapped to values.
///
/// Each name appears at most once; the order in which names were first set
/// is kept, though nothing in a snapshot's meaning depends on it.
pub struct EnvSnapshot {
    entries: Vec<(String, String)>,
}

/// True when the names in `e` are pairwise distinct.
pub open spec fn keys_unique(e: Seq<(String, String)>) -> bool {
    forall|i: int, j: int| 0 <= i < e.len() && 0 <= j < e.len() && i != j ==> e[i].0@ != e[j].0@
}

/// True when some entry of `e` carries the name `k`.
pub open spec fn has_key(e: Seq<(String, String)>, k: Seq<char>) -> bool {
    exists|i: int| 0 <= i < e.len() && #[trigger] e[i].0@ == k
}

/// The map that a list of entries with distinct names describes.
pub closed spec fn map_of_entries(e: Seq<(String, String)>) -> Map<Seq<char>, Seq<char>> {
    Map::new(
        |k: Seq<char>| has_key(e, k),
        |k: Seq<char>| e[choose|i: int| 0 <= i < e.len() && #[trigger] e[i].0@ == k].1@,
    )
}

/// Names and values of the entries as one list: name, value, name, value, ...
pub closed spec fn flatten(e: Seq<(String, String)>) -> Seq<Seq<char>>
    decreases e.len(),
{
    if e.len() == 0 {
        Seq::<Seq<char>>::empty()
    } else {
        flatten(e.drop_last()) + seq![e.last().0@, e.last().1@]
    }
}

/// The map that a list name, value, name, value, ... sets, each pair in turn;
/// a trailing odd item is ignored.
pub open spec fn pairs_map(fs: Seq<Seq<char>>) -> Map<Seq<char>, Seq<char>>
    decreases fs.len(),
{
    if fs.len() < 2 {
        Map::<Seq<char>, Seq<char>>::empty()
    } else {
        pairs_map(fs.take(fs.len() - 2)).insert(fs[fs.len() - 2], fs[fs.len() - 1])
    }
}

proof fn lemma_flatten_len(e: Seq<(String, String)>)
    ensures
        flatten(e).len() == 2 * e.len(),
    decreases e.len(),
{
    if e.len() > 0 {
        lemma_flatten_len(e.drop_last());
    }
}

proof fn lemma_pairs_map_flatten(e: Seq<(String, String)>)
    requires
        keys_unique(e),
    ensures
        pairs_map(flatten(e)) == map_of_entries(e),
    decreases e.len(),
{
    if e.len() == 0 {
        assert(map_of_entries(e) =~= Map::<Seq<char>, Seq<char>>::empty());
    } else {
        let q = e.drop_last();
        lemma_pairs_map_flatten(q);
        lemma_flatten_len(q);
        let f = flatten(e);
        assert(f.take(f.len() - 2) =~= flatten(q));
        let a = map_of_entries(e);
        let b = map_of_entries(q).insert(e.last().0@, e.last().1@);
        let n = e.len() - 1;
        assert forall|k: Seq<char>| #[trigger] a.contains_key(k) == b.contains_key(k) && (a.contains_key(k) ==> a[k] == b[k]) by {
            if has_key(e, k) {
                let i = choose|i: int| 0 <= i < e.len() && #[trigger] e[i].0@ == k;
                if i < n {
                    assert(q[i].0@ == k);
                    let j = choose|j: int| 0 <= j < q.len() && #[trigger] q[j].0@ == k;
                    assert(i == j);
                }
            }
            if has_key(q, k) {
                let j = choose|j: int| 0 <= j < q.len() && #[trigger] q[j].0@ == k;
                assert(e[j].0@ == k);
            }
            if k == e.last().0@ {
                assert(e[n].0@ == k);
            }
        }
        assert(a =~= b);
    }
}

impl EnvSnapshot {
    /// The snapshot's invariant: no name occurs twice.
    pub closed spec fn wf(&self) -> bool {
        keys_unique(self.entries@)
    }

    /// The variables as a map from name to value.
    pub closed spec fn view(&self) -> Map<Seq<char>, Seq<char>> {
        map_of_entries(self.entries@)
    }

    /// Name, value, name, value, ... in the kept order.
    pub closed spec fn flat_pairs(&self) -> Seq<Seq<char>> {
        flatten(self.entries@)
    }

    /// The names and values, flattened as `flat_pairs` describes, read back as a map.
    pub proof fn lemma_flat_pairs(&self)
        requires
            self.wf(),
        ensures
            pairs_map(self.flat_pairs()) == self.view(),
    {
        lemma_pairs_map_flatten(self.entries@);
    }

    /// Names and values come in pairs.
    pub proof fn lemma_flat_pairs_even(&self)
        ensures
            self.flat_pairs().len() % 2 == 0,
    {
        lemma_flatten_len(self.entries@);
    }

    /// The names and values as one list: name, value, name, value, ...
    pub fn to_flat_pairs(&self) -> (r: Vec<String>)
        ensures
            r@.map_values(|x: String| x@) == self.flat_pairs(),
    {
        let mut r: Vec<String> = Vec::new();
        let mut i: usize = 0;
        while i < self.entries.len()
            invariant
                i <= self.entries@.len(),
                r@.map_values(|x: String| x@) == flatten(self.entries@.take(i as int)),
            decreases self.entries@.len() - i,
        {
            proof {
                assert(self.entries@.take(i as int + 1).drop_last() =~= self.entries@.take(i as int));
            }
            r.push(self.entries[i].0.clone());
            r.push(self.entries[i].1.clone());
            proof {
                assert(r@.map_values(|x: String| x@) =~= flatten(self.entries@.take(i as int + 1)));
            }
            i = i + 1;
        }
        proof {
            assert(self.entries@.take(self.entries@.len() as int) =~= self.entries@);
        }
        r
    }

    /// The snapshot that `pairs_map` reads out of `fields[lo..hi]`.
    pub fn from_flat_pairs(fields: &Vec<String>, lo: usize, hi: usize) -> (r: EnvSnapshot)
        requires
            lo <= hi <= fields@.len(),
            (hi - lo) % 2 == 0,
        ensures
            r.wf(),
            r.view() == pairs_map(fields@.map_values(|x: String| x@).subrange(lo as int, hi as int)),
    {
        let ghost fv = fields@.map_values(|x: String| x@);
        let mut r = EnvSnapshot::new();
        let mut i: usize = lo;
        proof {
            assert(fv.subrange(lo as int, lo as int).len() == 0);
        }
        while i < hi
            invariant
                fv == fields@.map_values(|x: String| x@),
                lo <= i <= hi <= fields@.len(),
                (hi - lo) % 2 == 0,
                (i - lo) % 2 == 0,
                r.wf(),
                r.view() == pairs_map(fv.subrange(lo as int, i as int)),
            decreases hi - i,
        {
            let ghost sub = fv.subrange(lo as int, i as int + 2);
            proof {
                assert(sub.take(sub.len() - 2) =~= fv.subrange(lo as int, i as int));
                assert(sub[sub.len() - 2] == fields@[i as int]@);
                assert(sub[sub.len() - 1] == fields@[i + 1]@);
            }
            r.insert(fields[i].clone(), fields[i + 1].clone());
            i = i + 2;
        }
        r
    }

    proof fn lemma_entry(&self, i: int)
        requires
            self.wf(),
            0 <= i < self.entries@.len(),
        ensures
            self.view().contains_key(self.entries@[i].0@),
            self.view()[self.entries@[i].0@] == self.entries@[i].1@,
    {
        let k = self.entries@[i].0@;
        assert(has_key(self.entries@, k));
        let j = choose|j: int| 0 <= j < self.entries@.len() && #[trigger] self.entries@[j].0@ == k;
        assert(i == j);
    }

    /// The names, in the order the snapshot keeps them.
    pub closed spec fn key_seq(&self) -> Seq<Seq<char>> {
        self.entries@.map_values(|e: (String, String)| e.0@)
    }

    /// The names are distinct and are exactly the map's keys.
    pub proof fn lemma_keys(&self)
        requires
            self.wf(),
        ensures
            self.key_seq().len() == self.view().dom().len(),
            self.key_seq().no_duplicates(),
            forall|k: Seq<char>| #[trigger] self.view().contains_key(k) <==> self.key_seq().contains(k),
    {
        self.lemma_len();
        let s = self.key_seq();
        assert forall|k: Seq<char>| #[trigger] self.view().contains_key(k) <==> s.contains(k) by {
            if self.view().contains_key(k) {
                let i = choose|i: int| 0 <= i < self.entries@.len() && #[trigger] self.entries@[i].0@ == k;
                assert(s[i] == k);
            }
            if s.contains(k) {
                let i = choose|i: int| 0 <= i < s.len() && s[i] == k;
                assert(self.entries@[i].0@ == k);
            }
        }
    }

    /// The number of entries kept, equal to the number of variables.
    pub fn size(&self) -> (r: usize)
        requires
            self.wf(),
        ensures
            r == self.key_seq().len(),
    {
        self.entries.len()
    }

    /// The name and value at position `i` of the kept order.
    pub fn entry(&self, i: usize) -> (r: (&String, &String))
        requires
            self.wf(),
            i < self.key_seq().len(),
        ensures
            r.0@ == self.key_seq()[i as int],
            self.view().contains_key(r.0@),
            self.view()[r.0@] == r.1@,
    {
        proof { self.lemma_entry(i as int); }
        (&self.entries[i].0, &self.entries[i].1)
    }

    /// A copy of this snapshot.
    pub fn duplicate(&self) -> (r: EnvSnapshot)
        requires
            self.wf(),
        ensures
            r.wf(),
            r.view() == self.view(),
    {
        let mut entries: Vec<(String, String)> = Vec::new();
        let mut i: usize = 0;
        while i < self.entries.len()
            invariant
                i <= self.entries@.len(),
                entries@.len() == i,
                forall|j: int| 0 <= j < i ==> #[trigger] entries@[j].0@ == self.entries@[j].0@
                    && entries@[j].1@ == self.entries@[j].1@,
            decreases self.entries@.len() - i,
        {
            let k = self.entries[i].0.clone();
            let v = self.entries[i].1.clone();
            entries.push((k, v));
            i = i + 1;
        }
        let r = EnvSnapshot { entries };
        proof {
            assert forall|k: Seq<char>| #[trigger] r.view().contains_key(k) == self.view().contains_key(k) by {
                if has_key(r.entries@, k) {
                    let j = choose|j: int| 0 <= j < r.entries@.len() && #[trigger] r.entries@[j].0@ == k;
                    assert(self.entries@[j].0@ == k);
                }
                if has_key(self.entries@, k) {
                    let j = choose|j: int| 0 <= j < self.entries@.len() && #[trigger] self.entries@[j].0@ == k;
                    assert(r.entries@[j].0@ == k);
                }
            }
            assert forall|k: Seq<char>| #[trigger] r.view().contains_key(k) implies r.view()[k] == self.view()[k] by {
                let j = choose|j: int| 0 <= j < r.entries@.len() && #[trigger] r.entries@[j].0@ == k;
                r.lemma_entry(j);
                self.lemma_entry(j);
            }
            assert(r.view() =~= self.view());
        }
        r
    }

    /// An empty snapshot.
    pub fn new() -> (r: EnvSnapshot)
        ensures
            r.wf(),
            r.view() == Map::<Seq<char>, Seq<char>>::empty(),
    {
        let r = EnvSnapshot { entries: Vec::new() };
        assert(r.view() =~= Map::<Seq<char>, Seq<char>>::empty());
        r
    }

    fn find(&self, key: &String) -> (r: Option<usize>)
        requires
            self.wf(),
        ensures
            match r {
                Some(i) => i < self.entries@.len() && self.entries@[i as int].0@ == key@,
                None => !self.view().contains_key(key@),
            },
    {
        let mut i: usize = 0;
        while i < self.entries.len()
            invariant
                i <= self.entries@.len(),
                forall|j: int| 0 <= j < i ==> self.entries@[j].0@ != key@,
            decreases self.entries@.len() - i,
        {
            if self.entries[i].0 == *key {
                return Some(i);
            }
            i = i + 1;
        }
        None
    }

    /// The number of variables.
    pub fn len(&self) -> (r: usize)
        requires
            self.wf(),
        ensures
            r as nat == self.view().dom().len(),
    {
        proof { self.lemma_len(); }
        self.entries.len()
    }

    proof fn lemma_len(&self)
        requires
            self.wf(),
        ensures
            self.view().dom().finite(),
            self.view().dom().len() == self.entries@.len(),
    {
        let s = self.entries@.map_values(|e: (String, String)| e.0@);
        assert forall|i: int, j: int| 0 <= i < s.len() && 0 <= j < s.len() && i != j implies s[i] != s[j] by {}
        assert(s.no_duplicates());
        s.unique_seq_to_set();
        assert(self.view().dom() =~= s.to_set()) by {
            assert forall|k: Seq<char>| self.view().dom().contains(k) implies s.to_set().contains(k) by {
                let i = choose|i: int| 0 <= i < self.entries@.len() && #[trigger] self.entries@[i].0@ == k;
                assert(s[i] == k);
            }
            assert forall|k: Seq<char>| s.to_set().contains(k) implies self.view().dom().contains(k) by {
                let i = choose|i: int| 0 <= i < s.len() && s[i] == k;
                assert(self.entries@[i].0@ == k);
            }
        }
    }

    /// The value of `key`, if it is set.
    pub fn get(&self, key: &String) -> (r: Option<&String>)
        requires
            self.wf(),
        ensures
            match r {
                Some(v) => self.view().contains_key(key@) && self.view()[key@] == v@,
                None => !self.view().contains_key(key@),
            },
    {
        match self.find(key) {
            Some(i) => {
                proof { self.lemma_entry(i as int); }
                Some(&self.entries[i].1)
            },
            None => None,
        }
    }

    /// Whether `key` is set.
    pub fn contains_key(&self, key: &String) -> (r: bool)
        requires
            self.wf(),
        ensures
            r == self.view().contains_key(key@),
    {
        match self.find(key) {
            Some(i) => {
                proof { self.lemma_entry(i as int); }
                true
            },
            None => false,
        }
    }

    /// Sets `key` to `value`, replacing any earlier value.
    pub fn insert(&mut self, key: String, value: String)
        requires
            old(self).wf(),
        ensures
            final(self).wf(),
            final(self).view() == old(self).view().insert(key@, value@),
    {
        let ghost pre = *self;
        let ghost k = key@;
        let ghost v = value@;
        match self.find(&key) {
            Some(i) => {
                self.entries.set(i, (key, value));
                proof {
                    assert forall|k2: Seq<char>| #[trigger] self.view().contains_key(k2)
                        == pre.view().insert(k, v).contains_key(k2) by {
                        if has_key(pre.entries@, k2) {
                            let j = choose|j: int| 0 <= j < pre.entries@.len() && #[trigger] pre.entries@[j].0@ == k2;
                            assert(self.entries@[j].0@ == k2);
                        }
                        if has_key(self.entries@, k2) {
                            let j = choose|j: int| 0 <= j < self.entries@.len() && #[trigger] self.entries@[j].0@ == k2;
                            assert(pre.entries@[j].0@ == k2);
                        }
                    }
                    assert forall|k2: Seq<char>| #[trigger] self.view().contains_key(k2)
                        implies self.view()[k2] == pre.view().insert(k, v)[k2] by {
                        let j = choose|j: int| 0 <= j < self.entries@.len() && #[trigger] self.entries@[j].0@ == k2;
                        self.lemma_entry(j);
                        if j != i {
                            pre.lemma_entry(j);
                        }
                    }
                    assert(self.view() =~= pre.view().insert(k, v));
                }
            },
            None => {
                self.entries.push((key, value));
                proof {
                    let n = pre.entries@.len() as int;
                    assert forall|k2: Seq<char>| #[trigger] self.view().contains_key(k2)
                        == pre.view().insert(k, v).contains_key(k2) by {
                        if has_key(pre.entries@, k2) {
                            let j = choose|j: int| 0 <= j < pre.entries@.len() && #[trigger] pre.entries@[j].0@ == k2;
                            assert(self.entries@[j].0@ == k2);
                        }
                        if k2 == k {
                            assert(self.entries@[n].0@ == k2);
                        }
                        if has_key(self.entries@, k2) {
                            let j = choose|j: int| 0 <= j < self.entries@.len() && #[trigger] self.entries@[j].0@ == k2;
                            if j < n {
                                assert(pre.entries@[j].0@ == k2);
                            }
                        }
                    }
                    assert forall|k2: Seq<char>| #[trigger] self.view().contains_key(k2)
                        implies self.view()[k2] == pre.view().insert(k, v)[k2] by {
                        let j = choose|j: int| 0 <= j < self.entries@.len() && #[trigger] self.entries@[j].0@ == k2;
                        self.lemma_entry(j);
                        if j < n {
                            pre.lemma_entry(j);
                        }
                    }
                    assert(self.view() =~= pre.view().insert(k, v));
                }
            },
        }
    }

    /// Unsets `key`; nothing happens when it is not set.
    pub fn remove(&mut self, key: &String)
        requires
            old(self).wf(),
        ensures
            final(self).wf(),
            final(self).view() == old(self).view().remove(key@),
    {
        let ghost pre = *self;
        let ghost k = key@;
        match self.find(key) {
            Some(i) => {
                self.entries.remove(i);
                proof {
                    assert forall|j: int| 0 <= j < self.entries@.len() implies
                        #[trigger] self.entries@[j] == pre.entries@[if j < i { j } else { j + 1 }] by {}
                    assert forall|k2: Seq<char>| #[trigger] self.view().contains_key(k2)
                        == pre.view().remove(k).contains_key(k2) by {
                        if has_key(pre.entries@, k2) && k2 != k {
                            let j = choose|j: int| 0 <= j < pre.entries@.len() && #[trigger] pre.entries@[j].0@ == k2;
                            if j < i {
                                assert(self.entries@[j].0@ == k2);
                            } else {
                                assert(self.entries@[j - 1].0@ == k2);
                            }
                        }
                        if has_key(self.entries@, k2) {
                            let j = choose|j: int| 0 <= j < self.entries@.len() && #[trigger] self.entries@[j].0@ == k2;
                            let pj = if j < i { j } else { j + 1 };
                            assert(pre.entries@[pj].0@ == k2);
                        }
                    }
                    assert forall|k2: Seq<char>| #[trigger] self.view().contains_key(k2)
                        implies self.view()[k2] == pre.view().remove(k)[k2] by {
                        let j = choose|j: int| 0 <= j < self.entries@.len() && #[trigger] self.entries@[j].0@ == k2;
                        self.lemma_entry(j);
                        pre.lemma_entry(if j < i { j } else { j + 1 });
                    }
                    assert(self.view() =~= pre.view().remove(k));
                }
            },
            None => {
                assert(self.view() =~= pre.view().remove(k));
            },
        }
    }
}

} // verus!
