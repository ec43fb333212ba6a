use vstd::prelude::*;

verus! {

/// Keys whose executable comparison agrees with equality of their views.
pub trait KeyEq: View + Sized {
    fn key_eq(&self, other: &Self) -> (r: bool)
        ensures
            r == (self@ == other@),
    ;
}

impl KeyEq for String {
    fn key_eq(&self, other: &Self) -> (r: bool) {
        *self == *other
    }
}

/// An association list with unique keys, kept in insertion order.
pub struct Table<K: View, V> {
    keys: Vec<K>,
    vals: Vec<V>,
    map: Ghost<Map<<K as View>::V, V>>,
}

impl<K: KeyEq, V> Table<K, V> {
    /// The contents as a map from key views to values.
    pub closed spec fn map(&self) -> Map<<K as View>::V, V> {
        self.map@
    }

    /// The contents in insertion order.
    pub closed spec fn entries(&self) -> Seq<(<K as View>::V, V)> {
        Seq::new(self.keys@.len(), |i: int| (self.keys@[i]@, self.vals@[i]))
    }

    pub closed spec fn wf(&self) -> bool {
        &&& self.keys@.len() == self.vals@.len()
        &&& forall|i: int, j: int|
            0 <= i < self.keys@.len() && 0 <= j < self.keys@.len() && i != j
                ==> #[trigger] self.keys@[i]@ != #[trigger] self.keys@[j]@
        &&& forall|i: int|
            0 <= i < self.keys@.len() ==> self.map@.contains_key(#[trigger] self.keys@[i]@)
                && self.map@[self.keys@[i]@] == self.vals@[i]
        &&& forall|k: <K as View>::V|
            #[trigger] self.map@.contains_key(k) ==> exists|i: int|
                0 <= i < self.keys@.len() && #[trigger] self.keys@[i]@ == k
    }

    /// What a well-formed table tells about the link between its two views.
    pub proof fn lemma_entries_map(&self)
        requires
            self.wf(),
        ensures
            forall|i: int, j: int|
                0 <= i < self.entries().len() && 0 <= j < self.entries().len() && i != j
                    ==> #[trigger] self.entries()[i].0 != #[trigger] self.entries()[j].0,
            forall|i: int|
                0 <= i < self.entries().len() ==> self.map().contains_key(
                    #[trigger] self.entries()[i].0,
                ) && self.map()[self.entries()[i].0] == self.entries()[i].1,
            forall|k: <K as View>::V|
                #[trigger] self.map().contains_key(k) ==> exists|i: int|
                    0 <= i < self.entries().len() && #[trigger] self.entries()[i].0 == k,
    {
        assert forall|k: <K as View>::V| #[trigger] self.map().contains_key(k) implies exists|i: int|
            0 <= i < self.entries().len() && #[trigger] self.entries()[i].0 == k by {
            let i = choose|i: int| 0 <= i < self.keys@.len() && #[trigger] self.keys@[i]@ == k;
            assert(self.entries()[i].0 == k);
        }
    }

    pub fn new() -> (r: Self)
        ensures
            r.wf(),
            r.map() == Map::<<K as View>::V, V>::empty(),
            r.entries() == Seq::<(<K as View>::V, V)>::empty(),
    {
        let r = Table { keys: Vec::new(), vals: Vec::new(), map: Ghost(Map::empty()) };
        assert(r.entries() =~= Seq::<(<K as View>::V, V)>::empty());
        r
    }

    pub fn len(&self) -> (r: usize)
        requires
            self.wf(),
        ensures
            r == self.entries().len(),
    {
        self.keys.len()
    }

    pub fn key_at(&self, i: usize) -> (r: &K)
        requires
            self.wf(),
            i < self.entries().len(),
        ensures
            r@ == self.entries()[i as int].0,
    {
        &self.keys[i]
    }

    pub fn val_at(&self, i: usize) -> (r: &V)
        requires
            self.wf(),
            i < self.entries().len(),
        ensures
            *r == self.entries()[i as int].1,
    {
        &self.vals[i]
    }

    fn find(&self, k: &K) -> (r: Option<usize>)
        requires
            self.wf(),
        ensures
            r is Some ==> r->0 < self.keys@.len() && self.keys@[r->0 as int]@ == k@,
            r is None <==> !self.map@.contains_key(k@),
    {
        let mut i: usize = 0;
        while i < self.keys.len()
            invariant
                self.wf(),
                i <= self.keys@.len(),
                forall|j: int| 0 <= j < i ==> self.keys@[j]@ != k@,
            decreases self.keys@.len() - i,
        {
            if self.keys[i].key_eq(k) {
                return Some(i);
            }
            i = i + 1;
        }
        proof {
            if self.map@.contains_key(k@) {
                let j = choose|j: int| 0 <= j < self.keys@.len() && #[trigger] self.keys@[j]@ == k@;
                assert(self.keys@[j]@ == k@);
            }
        }
        None
    }

    pub fn get(&self, k: &K) -> (r: Option<&V>)
        requires
            self.wf(),
        ensures
            r is Some <==> self.map().contains_key(k@),
            r is Some ==> *r->0 == self.map()[k@],
    {
        match self.find(k) {
            Some(i) => Some(&self.vals[i]),
            None => None,
        }
    }

    pub fn contains(&self, k: &K) -> (r: bool)
        requires
            self.wf(),
        ensures
            r == self.map().contains_key(k@),
    {
        self.find(k).is_some()
    }

    /// Binds `k` to `v`: an existing key keeps its place, a new one goes last.
    pub fn insert(&mut self, k: K, v: V)
        requires
            old(self).wf(),
        ensures
            final(self).wf(),
            final(self).map() == old(self).map().insert(k@, v),
            old(self).map().contains_key(k@) ==> final(self).entries().len()
                == old(self).entries().len(),
            !old(self).map().contains_key(k@) ==> final(self).entries() == old(self).entries().push(
                (k@, v),
            ),
    {
        match self.find(&k) {
            Some(i) => {
                let ghost kv = k@;
                self.vals.set(i, v);
                self.map = Ghost(self.map@.insert(kv, v));
                assert forall|k2: <K as View>::V| #[trigger] self.map@.contains_key(k2) implies exists|j: int|
                    0 <= j < self.keys@.len() && #[trigger] self.keys@[j]@ == k2 by {
                    if k2 == kv {
                        assert(self.keys@[i as int]@ == k2);
                    } else {
                        assert(old(self).map@.contains_key(k2));
                        let j = choose|j: int| 0 <= j < old(self).keys@.len() && #[trigger] old(self).keys@[j]@ == k2;
                        assert(self.keys@[j]@ == k2);
                    }
                }
            },
            None => {
                let ghost kv = k@;
                self.keys.push(k);
                self.vals.push(v);
                self.map = Ghost(self.map@.insert(kv, v));
                let ghost n = old(self).keys@.len() as int;
                assert(self.keys@[n]@ == kv);
                assert forall|j: int| 0 <= j < n implies #[trigger] self.keys@[j]@ != kv by {
                    assert(self.keys@[j] == old(self).keys@[j]);
                    assert(old(self).map@.contains_key(old(self).keys@[j]@));
                }
                assert forall|k2: <K as View>::V| #[trigger] self.map@.contains_key(k2) implies exists|j: int|
                    0 <= j < self.keys@.len() && #[trigger] self.keys@[j]@ == k2 by {
                    if k2 == kv {
                        assert(self.keys@[n]@ == k2);
                    } else {
                        assert(old(self).map@.contains_key(k2));
                        let j = choose|j: int| 0 <= j < old(self).keys@.len() && #[trigger] old(self).keys@[j]@ == k2;
                        assert(self.keys@[j]@ == k2);
                    }
                }
                assert(self.entries() =~= old(self).entries().push((kv, v)));
            },
        }
    }

    /// Replaces the value bound to a key that the table holds.
    pub fn set_existing(&mut self, k: &K, v: V)
        requires
            old(self).wf(),
            old(self).map().contains_key(k@),
        ensures
            final(self).wf(),
            final(self).map() == old(self).map().insert(k@, v),
    {
        match self.find(k) {
            Some(i) => {
                let ghost kv = k@;
                self.vals.set(i, v);
                self.map = Ghost(self.map@.insert(kv, v));
                assert forall|k2: <K as View>::V| #[trigger] self.map@.contains_key(k2) implies exists|j: int|
                    0 <= j < self.keys@.len() && #[trigger] self.keys@[j]@ == k2 by {
                    if k2 == kv {
                        assert(self.keys@[i as int]@ == k2);
                    } else {
                        assert(old(self).map@.contains_key(k2));
                        let j = choose|j: int| 0 <= j < old(self).keys@.len() && #[trigger] old(self).keys@[j]@ == k2;
                        assert(self.keys@[j]@ == k2);
                    }
                }
            },
            None => {},
        }
    }

    /// Drops the binding of `k`, if there is one.
    pub fn remove(&mut self, k: &K)
        requires
            old(self).wf(),
        ensures
            final(self).wf(),
            final(self).map() == old(self).map().remove(k@),
    {
        match self.find(k) {
            Some(i) => {
                let ghost kv = k@;
                self.keys.remove(i);
                self.vals.remove(i);
                self.map = Ghost(self.map@.remove(kv));
                assert forall|j: int| 0 <= j < self.keys@.len() implies self.map@.contains_key(
                    #[trigger] self.keys@[j]@,
                ) && self.map@[self.keys@[j]@] == self.vals@[j] by {
                    if j < i {
                        assert(self.keys@[j] == old(self).keys@[j]);
                        assert(old(self).keys@[j]@ != old(self).keys@[i as int]@);
                    } else {
                        assert(self.keys@[j] == old(self).keys@[j + 1]);
                        assert(old(self).keys@[j + 1]@ != old(self).keys@[i as int]@);
                    }
                }
                assert forall|a: int, b: int|
                    0 <= a < self.keys@.len() && 0 <= b < self.keys@.len() && a != b
                        implies #[trigger] self.keys@[a]@ != #[trigger] self.keys@[b]@ by {
                    let oa = if a < i { a } else { a + 1 };
                    let ob = if b < i { b } else { b + 1 };
                    assert(self.keys@[a] == old(self).keys@[oa]);
                    assert(self.keys@[b] == old(self).keys@[ob]);
                }
                assert forall|k2: <K as View>::V| #[trigger] self.map@.contains_key(k2) implies exists|j: int|
                    0 <= j < self.keys@.len() && #[trigger] self.keys@[j]@ == k2 by {
                    assert(old(self).map@.contains_key(k2));
                    let j = choose|j: int| 0 <= j < old(self).keys@.len() && #[trigger] old(self).keys@[j]@ == k2;
                    assert(j != i);
                    if j < i {
                        assert(self.keys@[j] == old(self).keys@[j]);
                    } else {
                        assert(self.keys@[j - 1] == old(self).keys@[j]);
                    }
                }
            },
            None => {
                assert(self.map@ =~= self.map@.remove(k@));
            },
        }
    }
}

} // verus!
