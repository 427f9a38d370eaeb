use vstd::prelude::*;

verus! {

/// A grid position: (row, column).
pub type Pos = (usize, usize);

/// Whether two positions are equal.
pub fn pos_eq(a: Pos, b: Pos) -> (r: bool)
    ensures
        r == (a == b),
{
    a.0 == b.0 && a.1 == b.1
}

/// Row-major order of positions.
pub open spec fn pos_lt(a: Pos, b: Pos) -> bool {
    a.0 < b.0 || (a.0 == b.0 && a.1 < b.1)
}

/// A finite map from grid positions to values, kept as a list of entries
/// in which no position occurs twice. (vstd specifies `HashMap` only for keys of integer,
/// boolean or boxed such types, which a pair of coordinates is not.)
pub struct PosMap<V> {
    entries: Vec<(Pos, V)>,
}

/// No key occurs twice in the entry list.
pub open spec fn keys_distinct<V>(s: Seq<(Pos, V)>) -> bool {
    forall|i: int, j: int| 0 <= i < s.len() && 0 <= j < s.len() && i != j ==> s[i].0 != s[j].0
}

/// Whether some entry has the key `k`.
pub open spec fn has_key<V>(s: Seq<(Pos, V)>, k: Pos) -> bool {
    exists|i: int| 0 <= i < s.len() && s[i].0 == k
}

/// The index of an entry with key `k`.
pub open spec fn key_index<V>(s: Seq<(Pos, V)>, k: Pos) -> int {
    choose|i: int| 0 <= i < s.len() && s[i].0 == k
}

/// The map that an entry list with distinct keys stands for.
pub open spec fn map_of<V>(s: Seq<(Pos, V)>) -> Map<Pos, V> {
    Map::new(|k: Pos| has_key(s, k), |k: Pos| s[key_index(s, k)].1)
}

/// In a list with distinct keys, the entry at `i` is the map's value at its key.
pub proof fn lemma_map_of_index<V>(s: Seq<(Pos, V)>, i: int)
    requires
        keys_distinct(s),
        0 <= i < s.len(),
    ensures
        map_of(s).contains_key(s[i].0),
        map_of(s)[s[i].0] == s[i].1,
{
    assert(has_key(s, s[i].0));
    let j = key_index(s, s[i].0);
    assert(s[j].0 == s[i].0);
}

/// A key that no entry carries is not in the map.
pub proof fn lemma_map_of_absent<V>(s: Seq<(Pos, V)>, k: Pos)
    requires
        forall|i: int| 0 <= i < s.len() ==> s[i].0 != k,
    ensures
        !map_of(s).contains_key(k),
{
}

proof fn lemma_map_of_push<V>(s: Seq<(Pos, V)>, k: Pos, v: V)
    requires
        keys_distinct(s),
        !has_key(s, k),
    ensures
        keys_distinct(s.push((k, v))),
        map_of(s.push((k, v))) == map_of(s).insert(k, v),
{
    let t = s.push((k, v));
    assert(keys_distinct(t));
    assert forall|q: Pos| #[trigger] map_of(t).contains_key(q) <==> map_of(s).insert(k, v).contains_key(q) by {
        if has_key(t, q) {
            let i = key_index(t, q);
            if i < s.len() {
                assert(s[i].0 == q);
            }
        }
        if has_key(s, q) {
            let i = key_index(s, q);
            assert(t[i].0 == q);
        }
        if q == k {
            assert(t[s.len() as int].0 == q);
        }
    }
    assert forall|q: Pos| #[trigger] map_of(t).contains_key(q) implies map_of(t)[q] == map_of(s).insert(k, v)[q] by {
        let i = key_index(t, q);
        lemma_map_of_index(t, i);
        if q != k {
            assert(i < s.len());
            lemma_map_of_index(s, i);
        }
    }
    assert(map_of(t) =~= map_of(s).insert(k, v));
}

proof fn lemma_map_of_update<V>(s: Seq<(Pos, V)>, i: int, v: V)
    requires
        keys_distinct(s),
        0 <= i < s.len(),
    ensures
        keys_distinct(s.update(i, (s[i].0, v))),
        map_of(s.update(i, (s[i].0, v))) == map_of(s).insert(s[i].0, v),
{
    let k = s[i].0;
    let t = s.update(i, (k, v));
    assert(keys_distinct(t));
    assert forall|q: Pos| #[trigger] map_of(t).contains_key(q) <==> map_of(s).insert(k, v).contains_key(q) by {
        if has_key(t, q) {
            let j = key_index(t, q);
            assert(s[j].0 == q);
        }
        if has_key(s, q) {
            let j = key_index(s, q);
            assert(t[j].0 == q);
        }
        if q == k {
            assert(t[i].0 == q);
        }
    }
    assert forall|q: Pos| #[trigger] map_of(t).contains_key(q) implies map_of(t)[q] == map_of(s).insert(k, v)[q] by {
        let j = key_index(t, q);
        lemma_map_of_index(t, j);
        if q != k {
            lemma_map_of_index(s, j);
        }
    }
    assert(map_of(t) =~= map_of(s).insert(k, v));
}

proof fn lemma_map_of_remove<V>(s: Seq<(Pos, V)>, i: int)
    requires
        keys_distinct(s),
        0 <= i < s.len(),
    ensures
        keys_distinct(s.remove(i)),
        map_of(s.remove(i)) == map_of(s).remove(s[i].0),
{
    let k = s[i].0;
    let t = s.remove(i);
    assert forall|a: int, b: int| 0 <= a < t.len() && 0 <= b < t.len() && a != b implies t[a].0 != t[b].0 by {
        let a2 = if a < i { a } else { a + 1 };
        let b2 = if b < i { b } else { b + 1 };
        assert(t[a] == s[a2]);
        assert(t[b] == s[b2]);
    }
    assert forall|q: Pos| #[trigger] map_of(t).contains_key(q) <==> map_of(s).remove(k).contains_key(q) by {
        if has_key(t, q) {
            let j = key_index(t, q);
            let j2 = if j < i { j } else { j + 1 };
            assert(s[j2].0 == q);
            assert(j2 != i);
        }
        if has_key(s, q) && q != k {
            let j = key_index(s, q);
            assert(j != i);
            let j2 = if j < i { j } else { j - 1 };
            assert(t[j2].0 == q);
        }
    }
    assert forall|q: Pos| #[trigger] map_of(t).contains_key(q) implies map_of(t)[q] == map_of(s).remove(k)[q] by {
        let j = key_index(t, q);
        lemma_map_of_index(t, j);
        let j2 = if j < i { j } else { j + 1 };
        assert(t[j] == s[j2]);
        lemma_map_of_index(s, j2);
    }
    assert(map_of(t) =~= map_of(s).remove(k));
}

impl<V> View for PosMap<V> {
    type V = Map<Pos, V>;

    closed spec fn view(&self) -> Map<Pos, V> {
        map_of(self.entries@)
    }
}

impl<V> PosMap<V> {
    #[verifier::type_invariant]
    closed spec fn inv(self) -> bool {
        keys_distinct(self.entries@)
    }
}

impl<V: Copy> PosMap<V> {
    /// An empty map.
    pub fn new() -> (r: PosMap<V>)
        ensures
            r@ == Map::<Pos, V>::empty(),
    {
        let r = PosMap { entries: Vec::new() };
        assert(r@ =~= Map::<Pos, V>::empty());
        r
    }

    fn find(&self, k: Pos) -> (r: Option<usize>)
        ensures
            match r {
                Some(i) => i < self.entries@.len() && self.entries@[i as int].0 == k,
                None => forall|i: int| 0 <= i < self.entries@.len() ==> self.entries@[i].0 != k,
            },
    {
        let mut i: usize = 0;
        while i < self.entries.len()
            invariant
                i <= self.entries@.len(),
                forall|j: int| 0 <= j < i ==> self.entries@[j].0 != k,
            decreases self.entries@.len() - i,
        {
            let key = self.entries[i].0;
            if key.0 == k.0 && key.1 == k.1 {
                return Some(i);
            }
            i = i + 1;
        }
        None
    }

    /// The value at `k`, if there is one.
    pub fn get(&self, k: Pos) -> (r: Option<V>)
        ensures
            r == (if self@.contains_key(k) { Some(self@[k]) } else { None }),
    {
        proof {
            use_type_invariant(self);
        }
        match self.find(k) {
            Some(i) => {
                proof {
                    lemma_map_of_index(self.entries@, i as int);
                }
                Some(self.entries[i].1)
            },
            None => {
                proof {
                    lemma_map_of_absent(self.entries@, k);
                }
                None
            },
        }
    }

    /// Whether `k` has a value.
    pub fn contains_key(&self, k: Pos) -> (r: bool)
        ensures
            r == self@.contains_key(k),
    {
        match self.get(k) {
            Some(_) => true,
            None => false,
        }
    }

    /// Sets the value at `k`, replacing any earlier one.
    pub fn insert(&mut self, k: Pos, v: V)
        ensures
            final(self)@ == old(self)@.insert(k, v),
    {
        proof {
            use_type_invariant(&*self);
        }
        match self.find(k) {
            Some(i) => {
                proof {
                    lemma_map_of_update(self.entries@, i as int, v);
                }
                let mut e: Vec<(Pos, V)> = Vec::new();
                std::mem::swap(&mut e, &mut self.entries);
                e.set(i, (k, v));
                self.entries = e;
            },
            None => {
                proof {
                    lemma_map_of_push(self.entries@, k, v);
                }
                let mut e: Vec<(Pos, V)> = Vec::new();
                std::mem::swap(&mut e, &mut self.entries);
                e.push((k, v));
                self.entries = e;
            },
        }
    }

    /// Removes the value at `k`, if there is one.
    pub fn remove(&mut self, k: Pos)
        ensures
            final(self)@ == old(self)@.remove(k),
    {
        proof {
            use_type_invariant(&*self);
        }
        match self.find(k) {
            Some(i) => {
                proof {
                    lemma_map_of_remove(self.entries@, i as int);
                }
                let mut e: Vec<(Pos, V)> = Vec::new();
                std::mem::swap(&mut e, &mut self.entries);
                e.remove(i);
                self.entries = e;
            },
            None => {
                proof {
                    lemma_map_of_absent(self.entries@, k);
                    assert(map_of(self.entries@) =~= map_of(self.entries@).remove(k));
                }
            },
        }
    }

    /// The entries of the map, each key once, in no particular order.
    pub fn to_vec(&self) -> (r: Vec<(Pos, V)>)
        ensures
            keys_distinct(r@),
            map_of(r@) == self@,
    {
        proof {
            use_type_invariant(self);
        }
        let mut r: Vec<(Pos, V)> = Vec::new();
        let mut i: usize = 0;
        while i < self.entries.len()
            invariant
                i <= self.entries@.len(),
                r@ == self.entries@.take(i as int),
            decreases self.entries@.len() - i,
        {
            r.push(self.entries[i]);
            assert(self.entries@.take(i + 1) == self.entries@.take(i as int).push(self.entries@[i as int]));
            i = i + 1;
        }
        assert(self.entries@.take(self.entries@.len() as int) == self.entries@);
        r
    }

    /// The number of keys with a value.
    pub fn len(&self) -> (r: usize)
        ensures
            self@.dom().finite(),
            r == self@.dom().len(),
    {
        proof {
            use_type_invariant(self);
            lemma_map_of_len(self.entries@);
        }
        self.entries.len()
    }

    /// Whether no key has a value.
    pub fn is_empty(&self) -> (r: bool)
        ensures
            r == (self@.dom().len() == 0),
            self@.dom().finite(),
    {
        self.len() == 0
    }
}

/// The map of a list with distinct keys has as many keys as the list has entries.
pub proof fn lemma_map_of_len<V>(s: Seq<(Pos, V)>)
    requires
        keys_distinct(s),
    ensures
        map_of(s).dom().finite(),
        map_of(s).dom().len() == s.len(),
{
    let ks = s.map_values(|e: (Pos, V)| e.0);
    assert(ks.no_duplicates()) by {
        assert forall|i: int, j: int| 0 <= i < ks.len() && 0 <= j < ks.len() && i != j implies ks[i] != ks[j] by {
            assert(ks[i] == s[i].0);
            assert(ks[j] == s[j].0);
        }
    }
    ks.unique_seq_to_set();
    assert forall|q: Pos| #[trigger] map_of(s).dom().contains(q) <==> ks.to_set().contains(q) by {
        if has_key(s, q) {
            let i = key_index(s, q);
            assert(ks[i] == q);
        }
        if ks.to_set().contains(q) {
            assert(ks.contains(q));
            let i = choose|i: int| 0 <= i < ks.len() && ks[i] == q;
            assert(s[i].0 == q);
        }
    }
    assert(map_of(s).dom() =~= ks.to_set());
}

} // verus!
