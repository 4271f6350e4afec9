//! A small map keyed by strings, kept as an association list; each key
//! occurs once.

use vstd::prelude::*;

verus! {

pub struct StrMap<V> {
    keys: Vec<String>,
    vals: Vec<V>,
}

impl<V> StrMap<V> {
    #[verifier::type_invariant]
    closed spec fn inv(self) -> bool {
        &&& self.keys.len() == self.vals.len()
        &&& forall|i: int, j: int|
            0 <= i < j < self.keys.len() ==> #[trigger] self.keys@[i]@ != #[trigger] self.keys@[j]@
    }

    closed spec fn has(self, k: Seq<char>) -> bool {
        exists|i: int| 0 <= i < self.keys.len() && #[trigger] self.keys@[i]@ == k
    }

    closed spec fn slot(self, k: Seq<char>) -> int {
        choose|i: int| 0 <= i < self.keys.len() && #[trigger] self.keys@[i]@ == k
    }

    /// The content of the map.
    pub closed spec fn content(self) -> Map<Seq<char>, V> {
        Map::new(|k: Seq<char>| self.has(k), |k: Seq<char>| self.vals@[self.slot(k)])
    }

    proof fn lemma_slot(self, i: int)
        requires
            self.inv(),
            0 <= i < self.keys.len(),
        ensures
            self.content().contains_key(self.keys@[i]@),
            self.content()[self.keys@[i]@] == self.vals@[i],
            self.slot(self.keys@[i]@) == i,
    {
        let k = self.keys@[i]@;
        assert(self.has(k));
        let j = self.slot(k);
        if j != i {
            if i < j {
                assert(self.keys@[i]@ != self.keys@[j]@);
            } else {
                assert(self.keys@[j]@ != self.keys@[i]@);
            }
        }
    }

    /// An empty map.
    pub fn new() -> (m: Self)
        ensures
            m.content() == Map::<Seq<char>, V>::empty(),
    {
        let m = StrMap { keys: Vec::new(), vals: Vec::new() };
        assert(m.content() =~= Map::<Seq<char>, V>::empty());
        m
    }

    fn find(&self, key: &str) -> (r: Option<usize>)
        ensures
            match r {
                Some(i) => i < self.keys.len() && self.keys@[i as int]@ == key@,
                None => !self.content().contains_key(key@),
            },
    {
        proof { use_type_invariant(self); }
        let k = String::from_str(key);
        let mut i: usize = 0;
        while i < self.keys.len()
            invariant
                i <= self.keys.len(),
                k@ == key@,
                forall|j: int| 0 <= j < i ==> #[trigger] self.keys@[j]@ != key@,
            decreases self.keys.len() - i,
        {
            if self.keys[i] == k {
                return Some(i);
            }
            i = i + 1;
        }
        None
    }

    /// Whether `key` is in the map.
    pub fn contains_key(&self, key: &str) -> (r: bool)
        ensures
            r == self.content().contains_key(key@),
    {
        match self.find(key) {
            Some(i) => {
                proof {
                    use_type_invariant(self);
                    self.lemma_slot(i as int);
                }
                true
            },
            None => false,
        }
    }

    /// The value stored under `key`.
    pub fn get(&self, key: &str) -> (r: Option<&V>)
        ensures
            match r {
                Some(v) => self.content().contains_key(key@) && *v == self.content()[key@],
                None => !self.content().contains_key(key@),
            },
    {
        match self.find(key) {
            Some(i) => {
                proof {
                    use_type_invariant(self);
                    self.lemma_slot(i as int);
                }
                Some(&self.vals[i])
            },
            None => None,
        }
    }

    /// A mutable reference to the value stored under `key`; what is written
    /// through it becomes the value under `key`.
    pub fn get_mut(&mut self, key: &str) -> (r: Option<&mut V>)
        ensures
            match r {
                Some(v) => old(self).content().contains_key(key@) && *v == old(self).content()[key@]
                    && final(self).content() == old(self).content().insert(key@, *final(v)),
                None => !old(self).content().contains_key(key@) && final(self).content() == old(self).content(),
            },
    {
        match self.find(key) {
            Some(i) => {
                proof {
                    use_type_invariant(&*self);
                    self.lemma_slot(i as int);
                }
                Some(&mut self.vals[i])
            },
            None => None,
        }
    }

    /// The keys, each once, in the order they were first inserted.
    pub fn keys(&self) -> (r: Vec<String>)
        ensures
            forall|i: int| 0 <= i < r.len() ==> self.content().contains_key(#[trigger] r@[i]@),
            forall|k: Seq<char>| #[trigger] self.content().contains_key(k) ==> exists|i: int| 0 <= i < r.len() && r@[i]@ == k,
            forall|i: int, j: int| 0 <= i < j < r.len() ==> #[trigger] r@[i]@ != #[trigger] r@[j]@,
    {
        proof { use_type_invariant(self); }
        let mut r: Vec<String> = Vec::new();
        let mut i: usize = 0;
        while i < self.keys.len()
            invariant
                i <= self.keys.len(),
                self.inv(),
                r@.len() == i,
                forall|t: int| 0 <= t < i ==> #[trigger] r@[t] == self.keys@[t],
            decreases self.keys.len() - i,
        {
            r.push(self.keys[i].clone());
            i = i + 1;
        }
        proof {
            assert forall|t: int| 0 <= t < r.len() implies self.content().contains_key(#[trigger] r@[t]@) by {
                self.lemma_slot(t);
            }
            assert forall|k: Seq<char>| #[trigger] self.content().contains_key(k) implies exists|t: int| 0 <= t < r.len() && r@[t]@ == k by {
                let t = choose|t: int| 0 <= t < self.keys.len() && #[trigger] self.keys@[t]@ == k;
                assert(r@[t]@ == k);
            }
            assert forall|a: int, b: int| 0 <= a < b < r.len() implies #[trigger] r@[a]@ != #[trigger] r@[b]@ by {
                assert(r@[a] == self.keys@[a] && r@[b] == self.keys@[b]);
            }
        }
        r
    }

    /// Stores `v` under `key`, replacing any earlier value.
    pub fn insert(&mut self, key: String, v: V)
        ensures
            final(self).content() == old(self).content().insert(key@, v),
    {
        proof { use_type_invariant(&*self); }
        let ghost old_self = *self;
        let found = self.find(key.as_str());
        let mut taken = StrMap { keys: Vec::new(), vals: Vec::new() };
        std::mem::swap(&mut taken, self);
        let StrMap { mut keys, mut vals } = taken;
        match found {
            Some(i) => {
                vals.set(i, v);
                let m = StrMap { keys, vals };
                proof {
                    assert forall|k: Seq<char>| m.has(k) <==> old_self.has(k) by {
                        if m.has(k) {
                            let t = choose|t: int| 0 <= t < m.keys.len() && #[trigger] m.keys@[t]@ == k;
                            assert(old_self.keys@[t]@ == k);
                        }
                        if old_self.has(k) {
                            let t = choose|t: int| 0 <= t < old_self.keys.len() && #[trigger] old_self.keys@[t]@ == k;
                            assert(m.keys@[t]@ == k);
                        }
                    }
                    assert forall|k: Seq<char>| #[trigger] m.content().contains_key(k) implies m.content()[k]
                        == old_self.content().insert(key@, v)[k] by {
                        let t = choose|t: int| 0 <= t < m.keys.len() && #[trigger] m.keys@[t]@ == k;
                        m.lemma_slot(t);
                        old_self.lemma_slot(t);
                    }
                    assert(m.content() =~= old_self.content().insert(key@, v));
                }
                *self = m;
            },
            None => {
                let ghost kv = key@;
                keys.push(key);
                vals.push(v);
                let m = StrMap { keys, vals };
                proof {
                    assert forall|i: int, j: int| 0 <= i < j < m.keys.len() implies #[trigger] m.keys@[i]@ != #[trigger] m.keys@[j]@ by {
                        if j == m.keys.len() - 1 {
                            assert(m.keys@[i] == old_self.keys@[i]);
                            assert(old_self.has(m.keys@[i]@));
                        } else {
                            assert(m.keys@[i] == old_self.keys@[i] && m.keys@[j] == old_self.keys@[j]);
                        }
                    }
                    let last = m.keys.len() - 1;
                    assert(m.keys@[last]@ == kv);
                    m.lemma_slot(last);
                    assert forall|k: Seq<char>| m.has(k) <==> (old_self.has(k) || k == kv) by {
                        if m.has(k) {
                            let t = choose|t: int| 0 <= t < m.keys.len() && #[trigger] m.keys@[t]@ == k;
                            if t < last {
                                assert(old_self.keys@[t]@ == k);
                            }
                        }
                        if old_self.has(k) {
                            let t = choose|t: int| 0 <= t < old_self.keys.len() && #[trigger] old_self.keys@[t]@ == k;
                            assert(m.keys@[t]@ == k);
                        }
                    }
                    assert forall|k: Seq<char>| #[trigger] m.content().contains_key(k) implies m.content()[k]
                        == old_self.content().insert(kv, v)[k] by {
                        let t = choose|t: int| 0 <= t < m.keys.len() && #[trigger] m.keys@[t]@ == k;
                        m.lemma_slot(t);
                        if t < last {
                            old_self.lemma_slot(t);
                        }
                    }
                    assert(m.content() =~= old_self.content().insert(kv, v));
                }
                *self = m;
            },
        }
    }
}

} // verus!
