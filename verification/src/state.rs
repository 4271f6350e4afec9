//! Isolated domain memory: a fixed set of named integer fields.

use vstd::prelude::*;
use crate::text::{text_lt, text_less, lemma_text_lt_total, lemma_text_lt_transitive};

verus! {

pub struct IsolatedState {
    keys: Vec<String>,
    vals: Vec<i64>,
}

impl IsolatedState {
    #[verifier::type_invariant]
    closed spec fn inv(self) -> bool {
        &&& self.keys.len() == self.vals.len()
        &&& forall|i: int, j: int|
            0 <= i < j < self.keys.len() ==> #[trigger] self.keys@[i]@ != #[trigger] self.keys@[j]@
    }

    closed spec fn has_key(self, k: Seq<char>) -> bool {
        exists|i: int| 0 <= i < self.keys.len() && #[trigger] self.keys@[i]@ == k
    }

    closed spec fn slot(self, k: Seq<char>) -> int {
        choose|i: int| 0 <= i < self.keys.len() && #[trigger] self.keys@[i]@ == k
    }
}

impl View for IsolatedState {
    type V = Map<Seq<char>, i64>;

    closed spec fn view(&self) -> Map<Seq<char>, i64> {
        Map::new(|k: Seq<char>| self.has_key(k), |k: Seq<char>| self.vals@[self.slot(k)])
    }
}

/// The memory of a fresh state for `schema`: every named field holds 0.
pub open spec fn zeroed(schema: Seq<String>) -> Map<Seq<char>, i64> {
    Map::new(|k: Seq<char>| exists|i: int| 0 <= i < schema.len() && #[trigger] schema[i]@ == k, |k: Seq<char>| 0i64)
}

impl IsolatedState {
    proof fn lemma_slot(&self, i: int)
        requires
            self.inv(),
            0 <= i < self.keys.len(),
        ensures
            self@.contains_key(self.keys@[i]@),
            self@[self.keys@[i]@] == self.vals@[i],
    {
        let k = self.keys@[i]@;
        assert(self.has_key(k));
        let j = self.slot(k);
        if j != i {
            if i < j {
                assert(self.keys@[i]@ != self.keys@[j]@);
            } else {
                assert(self.keys@[j]@ != self.keys@[i]@);
            }
        }
    }

    /// Position of `key` among the fields, if it is one.
    fn find(&self, key: &str) -> (r: Option<usize>)
        ensures
            match r {
                Some(i) => i < self.keys.len() && self.keys@[i as int]@ == key@,
                None => !self@.contains_key(key@),
            },
    {
        proof { use_type_invariant(self); }
        let k = String::from_str(key);
        let mut i: usize = 0;
        while i < self.keys.len()
            invariant
                i <= self.keys.len(),
                k@ == key@,
                forall|j: int| 0 <= j < i ==> #[trigger] self.keys@[j]@ != key@,
            decreases self.keys.len() - i,
        {
            if self.keys[i] == k {
                return Some(i);
            }
            i = i + 1;
        }
        None
    }

    /// A state whose fields are exactly the names in `schema`, all set to 0.
    pub fn new(schema: &[String]) -> (s: Self)
        ensures
            s@ == zeroed(schema@),
    {
        let mut keys: Vec<String> = Vec::new();
        let mut vals: Vec<i64> = Vec::new();
        let mut n: usize = 0;
        while n < schema.len()
            invariant
                n <= schema.len(),
                keys.len() == vals.len(),
                forall|i: int, j: int| 0 <= i < j < keys.len() ==> #[trigger] keys@[i]@ != #[trigger] keys@[j]@,
                forall|j: int| 0 <= j < vals.len() ==> vals@[j] == 0,
                name_set(keys@) == name_set(schema@.subrange(0, n as int)),
            decreases schema.len() - n,
        {
            let name = &schema[n];
            let present = contains_name(&keys, name);
            proof {
                lemma_name_set_push(schema@.subrange(0, n as int), *name);
                assert(schema@.subrange(0, n as int).push(*name) =~= schema@.subrange(0, n + 1));
            }
            if !present {
                let ghost old_keys = keys@;
                keys.push(name.clone());
                vals.push(0);
                proof {
                    lemma_name_set_push(old_keys, *name);
                    assert forall|i: int, j: int| 0 <= i < j < keys.len() implies #[trigger] keys@[i]@ != #[trigger] keys@[j]@ by {
                        if j == keys.len() - 1 {
                            assert(keys@[i] == old_keys[i]);
                        } else {
                            assert(keys@[i] == old_keys[i] && keys@[j] == old_keys[j]);
                        }
                    }
                }
            } else {
                assert(name_set(keys@).insert(name@) =~= name_set(keys@));
            }
            n = n + 1;
        }
        let s = IsolatedState { keys, vals };
        assert(schema@.subrange(0, schema@.len() as int) =~= schema@);
        assert(s@ =~= zeroed(schema@)) by {
            assert forall|k: Seq<char>| s@.contains_key(k) <==> zeroed(schema@).contains_key(k) by {
                assert(s.has_key(k) <==> name_set(s.keys@).contains(k));
                assert(zeroed(schema@).contains_key(k) <==> name_set(schema@).contains(k));
            }
            assert forall|k: Seq<char>| #[trigger] s@.contains_key(k) implies s@[k] == zeroed(schema@)[k] by {
                let t = s.slot(k);
                assert(s.vals@[t] == 0);
            }
        }
        s
    }

    /// The value of field `key`, or `None` when the state has no such field.
    pub fn get(&self, key: &str) -> (r: Option<i64>)
        ensures
            r == (if self@.contains_key(key@) { Some(self@[key@]) } else { None::<i64> }),
    {
        match self.find(key) {
            Some(i) => {
                proof {
                    use_type_invariant(self);
                    self.lemma_slot(i as int);
                }
                Some(self.vals[i])
            },
            None => None,
        }
    }

    /// Writes field `key`; a name outside the schema is refused and the
    /// state is left as it was.
    pub fn set(&mut self, key: &str, val: i64) -> (r: Result<(), String>)
        ensures
            r is Ok <==> old(self)@.contains_key(key@),
            r is Ok ==> final(self)@ == old(self)@.insert(key@, val),
            r matches Err(e) ==> final(self)@ == old(self)@ && e@ == undeclared_field_message(key@),
    {
        match self.find(key) {
            Some(i) => {
                proof {
                    use_type_invariant(&*self);
                    self.lemma_slot(i as int);
                }
                let ghost old_self = *self;
                let mut taken = IsolatedState { keys: Vec::new(), vals: Vec::new() };
                std::mem::swap(&mut taken, self);
                let IsolatedState { keys, mut vals } = taken;
                vals.set(i, val);
                *self = IsolatedState { keys, vals };
                proof {
                    assert(self.keys@ == old_self.keys@);
                    use_type_invariant(&*self);
                    assert forall|k: Seq<char>| self.has_key(k) <==> old_self.has_key(k) by {
                        if self.has_key(k) {
                            let t = choose|t: int| 0 <= t < self.keys.len() && #[trigger] self.keys@[t]@ == k;
                            assert(old_self.keys@[t]@ == k);
                        }
                        if old_self.has_key(k) {
                            let t = choose|t: int| 0 <= t < old_self.keys.len() && #[trigger] old_self.keys@[t]@ == k;
                            assert(self.keys@[t]@ == k);
                        }
                    }
                    assert forall|k: Seq<char>| #[trigger] self@.contains_key(k) implies self@[k] == old_self@.insert(key@, val)[k] by {
                        let t = choose|t: int| 0 <= t < self.keys.len() && #[trigger] self.keys@[t]@ == k;
                        self.lemma_slot(t);
                        old_self.lemma_slot(t);
                        if k == key@ {
                            if t != i as int {
                                if t < i { assert(self.keys@[t]@ != self.keys@[i as int]@); }
                                else { assert(self.keys@[i as int]@ != self.keys@[t]@); }
                            }
                        }
                    }
                    assert(self@ =~= old_self@.insert(key@, val));
                }
                Ok(())
            },
            None => {
                let e = crate::text::join3("Memory violation: Attempted to write to undeclared schema field '", key, "'");
                Err(e)
            },
        }
    }

    /// An independent copy of the state.
    pub fn snapshot(&self) -> (s: Self)
        ensures
            s@ == self@,
    {
        proof { use_type_invariant(self); }
        let mut keys: Vec<String> = Vec::new();
        let mut i: usize = 0;
        while i < self.keys.len()
            invariant
                i <= self.keys.len(),
                keys@ == self.keys@.subrange(0, i as int),
            decreases self.keys.len() - i,
        {
            keys.push(self.keys[i].clone());
            i = i + 1;
            assert(keys@ =~= self.keys@.subrange(0, i as int));
        }
        assert(keys@ =~= self.keys@);
        let vals = self.vals.clone();
        assert(vals@ =~= self.vals@);
        let s = IsolatedState { keys, vals };
        assert(s@ =~= self@);
        s
    }

    /// The field names in ascending `text_lt` order, each once.
    pub fn keys_sorted(&self) -> (r: Vec<String>)
        ensures
            strictly_sorted(r@),
            name_set(r@) == self@.dom(),
    {
        proof { use_type_invariant(self); }
        let mut r: Vec<String> = Vec::new();
        let mut i: usize = 0;
        assert(name_set(r@) =~= name_set(self.keys@.subrange(0, 0)));
        while i < self.keys.len()
            invariant
                i <= self.keys.len(),
                self.inv(),
                strictly_sorted(r@),
                name_set(r@) == name_set(self.keys@.subrange(0, i as int)),
            decreases self.keys.len() - i,
        {
            proof {
                if name_set(self.keys@.subrange(0, i as int)).contains(self.keys@[i as int]@) {
                    let t = choose|t: int| 0 <= t < i && #[trigger] self.keys@.subrange(0, i as int)[t]@ == self.keys@[i as int]@;
                    assert(self.keys@[t]@ != self.keys@[i as int]@);
                }
                lemma_name_set_push(self.keys@.subrange(0, i as int), self.keys@[i as int]);
                assert(self.keys@.subrange(0, i as int).push(self.keys@[i as int]) =~= self.keys@.subrange(0, i + 1));
            }
            insert_sorted(&mut r, self.keys[i].clone());
            i = i + 1;
        }
        proof {
            assert(self.keys@.subrange(0, i as int) =~= self.keys@);
            assert forall|k: Seq<char>| name_set(self.keys@).contains(k) <==> self@.dom().contains(k) by {
                assert(self.has_key(k) <==> name_set(self.keys@).contains(k));
            }
            assert(name_set(r@) =~= self@.dom());
        }
        r
    }
}

/// The set of names held by a sequence of strings.
pub open spec fn name_set(s: Seq<String>) -> Set<Seq<char>> {
    Set::new(|k: Seq<char>| exists|i: int| 0 <= i < s.len() && #[trigger] s[i]@ == k)
}

proof fn lemma_name_set_push(s: Seq<String>, x: String)
    ensures
        name_set(s.push(x)) == name_set(s).insert(x@),
{
    assert forall|k: Seq<char>| name_set(s.push(x)).contains(k) <==> name_set(s).insert(x@).contains(k) by {
        if name_set(s.push(x)).contains(k) {
            let i = choose|i: int| 0 <= i < s.push(x).len() && #[trigger] s.push(x)[i]@ == k;
            if i < s.len() {
                assert(s[i]@ == k);
            }
        }
        if name_set(s).contains(k) {
            let i = choose|i: int| 0 <= i < s.len() && #[trigger] s[i]@ == k;
            assert(s.push(x)[i]@ == k);
        }
        if k == x@ {
            assert(s.push(x)[s.len() as int]@ == k);
        }
    }
    assert(name_set(s.push(x)) =~= name_set(s).insert(x@));
}

/// Whether some string of `keys` holds the characters of `name`.
fn contains_name(keys: &Vec<String>, name: &String) -> (r: bool)
    ensures
        r == name_set(keys@).contains(name@),
{
    let mut j: usize = 0;
    while j < keys.len()
        invariant
            j <= keys.len(),
            forall|t: int| 0 <= t < j ==> #[trigger] keys@[t]@ != name@,
        decreases keys.len() - j,
    {
        if keys[j] == *name {
            assert(keys@[j as int]@ == name@);
            return true;
        }
        j = j + 1;
    }
    false
}

/// The error text for a write to a field outside the schema.
pub open spec fn undeclared_field_message(key: Seq<char>) -> Seq<char> {
    "Memory violation: Attempted to write to undeclared schema field '"@ + key + "'"@
}

/// Every name comes strictly before the next ones in `text_lt` order.
pub open spec fn strictly_sorted(s: Seq<String>) -> bool {
    forall|i: int, j: int| 0 <= i < j < s.len() ==> text_lt(#[trigger] s[i]@, #[trigger] s[j]@)
}

/// Inserts `x` into a strictly sorted vector that lacks it, keeping it
/// strictly sorted.
fn insert_sorted(v: &mut Vec<String>, x: String)
    requires
        strictly_sorted(old(v)@),
        !name_set(old(v)@).contains(x@),
    ensures
        strictly_sorted(final(v)@),
        name_set(final(v)@) == name_set(old(v)@).insert(x@),
{
    let mut p: usize = 0;
    while p < v.len() && text_less(v[p].as_str(), x.as_str())
        invariant
            p <= v.len(),
            forall|t: int| 0 <= t < p ==> text_lt(#[trigger] v@[t]@, x@),
        decreases v.len() - p,
    {
        p = p + 1;
    }
    let ghost old_v = v@;
    proof {
        if p < old_v.len() {
            assert(old_v[p as int]@ != x@) by {
                assert(!name_set(old_v).contains(x@));
                if old_v[p as int]@ == x@ {
                    assert(name_set(old_v).contains(old_v[p as int]@));
                }
            }
            lemma_text_lt_total(old_v[p as int]@, x@);
            assert forall|t: int| p <= t < old_v.len() implies text_lt(x@, #[trigger] old_v[t]@) by {
                if t > p {
                    lemma_text_lt_transitive(x@, old_v[p as int]@, old_v[t]@);
                }
            }
        }
    }
    v.insert(p, x);
    proof {
        let nv = v@;
        assert(nv =~= old_v.insert(p as int, x));
        assert forall|i: int, j: int| 0 <= i < j < nv.len() implies text_lt(#[trigger] nv[i]@, #[trigger] nv[j]@) by {
            if j < p {
                assert(nv[i] == old_v[i] && nv[j] == old_v[j]);
            } else if j == p {
                assert(nv[i] == old_v[i]);
            } else if i < p {
                assert(nv[i] == old_v[i] && nv[j] == old_v[j - 1]);
                assert(text_lt(old_v[i]@, x@));
                if j - 1 > p as int || j - 1 == p as int {
                    lemma_text_lt_transitive(old_v[i]@, x@, old_v[j - 1]@);
                }
            } else if i == p {
                assert(nv[j] == old_v[j - 1]);
            } else {
                assert(nv[i] == old_v[i - 1] && nv[j] == old_v[j - 1]);
            }
        }
        assert forall|k: Seq<char>| name_set(nv).contains(k) <==> name_set(old_v).insert(x@).contains(k) by {
            if name_set(nv).contains(k) {
                let i = choose|i: int| 0 <= i < nv.len() && #[trigger] nv[i]@ == k;
                if i < p {
                    assert(old_v[i]@ == k);
                } else if i > p {
                    assert(old_v[i - 1]@ == k);
                }
            }
            if name_set(old_v).contains(k) {
                let i = choose|i: int| 0 <= i < old_v.len() && #[trigger] old_v[i]@ == k;
                if i < p {
                    assert(nv[i]@ == k);
                } else {
                    assert(nv[i + 1]@ == k);
                }
            }
            if k == x@ {
                assert(nv[p as int]@ == k);
            }
        }
        assert(name_set(nv) =~= name_set(old_v).insert(x@));
    }
}

/// A write is read back: after a successful `set` of `k` to `v` (whose
/// effect is `m.insert(k, v)`), `k` reads `v`, every other field reads what
/// it read before, and the schema is unchanged.
pub proof fn lemma_write_then_read(m: Map<Seq<char>, i64>, k: Seq<char>, v: i64, other: Seq<char>)
    requires
        m.contains_key(k),
    ensures
        m.insert(k, v).dom() == m.dom(),
        m.insert(k, v)[k] == v,
        other != k && m.contains_key(other) ==> m.insert(k, v)[other] == m[other],
{
    assert(m.insert(k, v).dom() =~= m.dom());
}

} // verus!
