//! A small dictionary keyed by strings that keeps its entries in the order
//! in which they were inserted.

use vstd::prelude::*;
use vstd::string::*;

verus! {

/// A dictionary from strings to `V`. No key occurs twice, and the entries
/// stay in the order of their insertion.
pub struct Dict<V> {
    keys: Vec<String>,
    values: Vec<V>,
}

impl<V> Dict<V> {
    /// There are as many keys as values, and no key occurs twice.
    #[verifier::type_invariant]
    pub closed spec fn wf(self) -> bool {
        &&& self.keys@.len() == self.values@.len()
        &&& forall|i: int, j: int|
            0 <= i < j < self.keys@.len() ==> (#[trigger] self.keys@[i])@ != (
            #[trigger] self.keys@[j])@
    }

    /// The number of entries.
    pub closed spec fn spec_len(self) -> nat {
        self.keys@.len()
    }

    /// The key of the `i`-th entry.
    pub closed spec fn key_at(self, i: int) -> Seq<char> {
        self.keys@[i]@
    }

    /// The value of the `i`-th entry.
    pub closed spec fn value_at(self, i: int) -> V {
        self.values@[i]
    }

    /// Whether `key` is bound.
    pub open spec fn contains(self, key: Seq<char>) -> bool {
        exists|i: int| 0 <= i < self.spec_len() && #[trigger] self.key_at(i) == key
    }

    /// The index of the entry of `key`; meaningful only where `key` is bound.
    pub open spec fn index_of(self, key: Seq<char>) -> int {
        choose|i: int| 0 <= i < self.spec_len() && #[trigger] self.key_at(i) == key
    }

    /// The value bound to `key`, if any.
    pub open spec fn lookup(self, key: Seq<char>) -> Option<V> {
        if self.contains(key) {
            Some(self.value_at(self.index_of(key)))
        } else {
            None
        }
    }

    /// Every entry is found under its key, and only there.
    pub proof fn lemma_entries(self)
        requires
            self.wf(),
        ensures
            forall|i: int|
                0 <= i < self.spec_len() ==> self.contains(#[trigger] self.key_at(i))
                    && self.index_of(self.key_at(i)) == i,
    {
        assert forall|i: int| 0 <= i < self.spec_len() implies self.contains(
            #[trigger] self.key_at(i),
        ) && self.index_of(self.key_at(i)) == i by {
            let k = self.key_at(i);
            assert(self.key_at(i) == k);
            let j = self.index_of(k);
            assert(self.keys@[j]@ == self.keys@[i]@);
        }
    }

    /// The empty dictionary.
    pub fn new() -> (r: Dict<V>)
        ensures
            r.spec_len() == 0,
            forall|k: Seq<char>| !r.contains(k),
    {
        Dict { keys: Vec::new(), values: Vec::new() }
    }

    /// The number of entries.
    pub fn len(&self) -> (r: usize)
        ensures
            r == self.spec_len(),
    {
        self.keys.len()
    }

    /// The index of the entry of `key`, if `key` is bound.
    pub fn find(&self, key: &str) -> (r: Option<usize>)
        ensures
            match r {
                Some(i) => self.contains(key@) && self.index_of(key@) == i && i
                    < self.spec_len() && self.key_at(i as int) == key@,
                None => !self.contains(key@),
            },
    {
        proof {
            use_type_invariant(self);
        }
        let mut i: usize = 0;
        while i < self.keys.len()
            invariant
                i <= self.keys.len(),
                forall|j: int| 0 <= j < i ==> self.key_at(j) != key@,
                self.wf(),
            decreases self.keys.len() - i,
        {
            if crate::text::str_eq(self.keys[i].as_str(), key) {
                assert(self.key_at(i as int) == key@);
                let ghost j = self.index_of(key@);
                assert(self.keys@[j]@ == self.keys@[i as int]@);
                return Some(i);
            }
            i = i + 1;
        }
        None
    }

    /// Whether `key` is bound.
    pub fn contains_key(&self, key: &str) -> (r: bool)
        ensures
            r == self.contains(key@),
    {
        self.find(key).is_some()
    }

    /// The value bound to `key`, if any.
    pub fn get(&self, key: &str) -> (r: Option<&V>)
        ensures
            match r {
                Some(v) => self.lookup(key@) == Some(*v),
                None => self.lookup(key@) is None,
            },
    {
        proof {
            use_type_invariant(self);
        }
        match self.find(key) {
            Some(i) => Some(&self.values[i]),
            None => None,
        }
    }

    /// The key of the `i`-th entry.
    pub fn key(&self, i: usize) -> (r: &String)
        requires
            i < self.spec_len(),
        ensures
            r@ == self.key_at(i as int),
    {
        &self.keys[i]
    }

    /// The value of the `i`-th entry.
    pub fn value(&self, i: usize) -> (r: &V)
        requires
            i < self.spec_len(),
        ensures
            *r == self.value_at(i as int),
    {
        proof {
            use_type_invariant(self);
        }
        &self.values[i]
    }

    /// Replaces the value of the `i`-th entry.
    pub fn set_value(&mut self, i: usize, v: V)
        requires
            i < old(self).spec_len(),
        ensures
            final(self).spec_len() == old(self).spec_len(),
            forall|j: int|
                0 <= j < old(self).spec_len() ==> #[trigger] final(self).key_at(j) == old(self).key_at(j),
            forall|j: int|
                0 <= j < old(self).spec_len() && j != i ==> #[trigger] final(self).value_at(j)
                    == old(self).value_at(j),
            final(self).value_at(i as int) == v,
            forall|k: Seq<char>| final(self).contains(k) == old(self).contains(k),
            forall|k: Seq<char>|
                old(self).contains(k) ==> final(self).index_of(k) == old(self).index_of(k),
    {
        proof {
            use_type_invariant(&*self);
        }
        let ghost before = *self;
        self.values[i] = v;
        proof {
            assert forall|k: Seq<char>| self.contains(k) == before.contains(k) by {
                if before.contains(k) {
                    let j = before.index_of(k);
                    assert(self.key_at(j) == k);
                }
                if self.contains(k) {
                    let j = self.index_of(k);
                    assert(before.key_at(j) == k);
                }
            }
            assert forall|k: Seq<char>| before.contains(k) implies self.index_of(k)
                == before.index_of(k) by {
                let j = before.index_of(k);
                assert(self.key_at(j) == k);
                let j2 = self.index_of(k);
                assert(self.keys@[j]@ == self.keys@[j2]@);
            }
        }
    }

    /// Binds `key`, which is not bound yet, to `v`, after all other entries.
    pub fn insert(&mut self, key: String, v: V)
        requires
            !old(self).contains(key@),
        ensures
            final(self).spec_len() == old(self).spec_len() + 1,
            forall|j: int|
                0 <= j < old(self).spec_len() ==> #[trigger] final(self).key_at(j) == old(self).key_at(j) && final(self).value_at(j) == old(self).value_at(j),
            final(self).key_at(old(self).spec_len() as int) == key@,
            final(self).value_at(old(self).spec_len() as int) == v,
            forall|k: Seq<char>| final(self).contains(k) == (old(self).contains(k) || k == key@),
            final(self).lookup(key@) == Some(v),
            forall|k: Seq<char>| k != key@ ==> final(self).lookup(k) == old(self).lookup(k),
    {
        proof {
            use_type_invariant(&*self);
        }
        let ghost before = *self;
        let ghost n = self.keys@.len() as int;
        assert forall|j: int| 0 <= j < n implies (#[trigger] self.keys@[j])@ != key@ by {
            assert(self.key_at(j) == self.keys@[j]@);
        }
        let mut taken = Dict { keys: Vec::new(), values: Vec::new() };
        core::mem::swap(self, &mut taken);
        let Dict { keys: mut keys, values: mut values } = taken;
        keys.push(key);
        values.push(v);
        *self = Dict { keys, values };
        proof {
            assert(self.key_at(n) == key@);
            assert forall|k: Seq<char>| self.contains(k) == (before.contains(k) || k == key@) by {
                if before.contains(k) {
                    let j = before.index_of(k);
                    assert(self.key_at(j) == k);
                }
                if self.contains(k) && k != key@ {
                    let j = self.index_of(k);
                    assert(before.key_at(j) == k);
                }
            }
            assert(self.wf());
            let j0 = self.index_of(key@);
            assert(self.keys@[j0]@ == self.keys@[n]@);
            assert forall|k: Seq<char>| k != key@ implies self.lookup(k) == before.lookup(k) by {
                if before.contains(k) {
                    let j = before.index_of(k);
                    assert(self.key_at(j) == k);
                    let j2 = self.index_of(k);
                    assert(self.keys@[j]@ == self.keys@[j2]@);
                }
            }
        }
    }

    /// Puts `v` in the place of the value of the `i`-th entry, and hands the
    /// former value out.
    pub fn replace(&mut self, i: usize, v: V) -> (r: V)
        requires
            i < old(self).spec_len(),
        ensures
            r == old(self).value_at(i as int),
            final(self).spec_len() == old(self).spec_len(),
            forall|j: int|
                0 <= j < old(self).spec_len() ==> #[trigger] final(self).key_at(j) == old(self).key_at(j),
            forall|j: int|
                0 <= j < old(self).spec_len() && j != i ==> #[trigger] final(self).value_at(j)
                    == old(self).value_at(j),
            final(self).value_at(i as int) == v,
            forall|k: Seq<char>| final(self).contains(k) == old(self).contains(k),
            forall|k: Seq<char>|
                old(self).contains(k) ==> final(self).index_of(k) == old(self).index_of(k),
    {
        proof {
            use_type_invariant(&*self);
        }
        let ghost before = *self;
        let mut v = v;
        core::mem::swap(&mut self.values[i], &mut v);
        proof {
            assert forall|k: Seq<char>| self.contains(k) == before.contains(k) by {
                if before.contains(k) {
                    let j = before.index_of(k);
                    assert(self.key_at(j) == k);
                }
                if self.contains(k) {
                    let j = self.index_of(k);
                    assert(before.key_at(j) == k);
                }
            }
            assert forall|k: Seq<char>| before.contains(k) implies self.index_of(k)
                == before.index_of(k) by {
                let j = before.index_of(k);
                assert(self.key_at(j) == k);
                let j2 = self.index_of(k);
                assert(self.keys@[j]@ == self.keys@[j2]@);
            }
        }
        v
    }
}

/// A dictionary keyed by the module and the name of a symbol.
pub struct HandleMap<V> {
    modules: Dict<Dict<V>>,
}

impl<V> HandleMap<V> {
    /// The value bound to the symbol `name` of `module`, if any.
    pub closed spec fn lookup(self, module: Seq<char>, name: Seq<char>) -> Option<V> {
        match self.modules.lookup(module) {
            Some(d) => d.lookup(name),
            None => None,
        }
    }

    /// The number of modules that have, or had, a symbol bound.
    pub closed spec fn module_count(self) -> nat {
        self.modules.spec_len()
    }

    /// The name of the `i`-th module.
    pub closed spec fn module_at(self, i: int) -> Seq<char> {
        self.modules.key_at(i)
    }

    /// The symbols of the `i`-th module.
    pub closed spec fn symbols_at(self, i: int) -> Dict<V> {
        self.modules.value_at(i)
    }

    /// The empty dictionary.
    pub fn new() -> (r: HandleMap<V>)
        ensures
            r.module_count() == 0,
            forall|m: Seq<char>, n: Seq<char>| r.lookup(m, n) is None,
    {
        HandleMap { modules: Dict::new() }
    }

    /// The value bound to the symbol `name` of `module`, if any.
    pub fn get(&self, module: &str, name: &str) -> (r: Option<&V>)
        ensures
            match r {
                Some(v) => self.lookup(module@, name@) == Some(*v),
                None => self.lookup(module@, name@) is None,
            },
    {
        match self.modules.get(module) {
            Some(d) => d.get(name),
            None => None,
        }
    }

    /// Whether the symbol `name` of `module` is bound.
    pub fn contains(&self, module: &str, name: &str) -> (r: bool)
        ensures
            r == self.lookup(module@, name@).is_some(),
    {
        self.get(module, name).is_some()
    }

    /// Binds the symbol `name` of `module` to `v`, in the place of what it
    /// was bound to, if anything.
    pub fn insert(&mut self, module: &str, name: &str, v: V)
        ensures
            final(self).lookup(module@, name@) == Some(v),
            forall|m: Seq<char>, n: Seq<char>|
                (m != module@ || n != name@) ==> final(self).lookup(m, n) == old(self).lookup(
                    m,
                    n,
                ),
    {
        let ghost before = *self;
        match self.modules.find(module) {
            Some(i) => {
                let mut inner = self.modules.replace(i, Dict::new());
                let ghost inner_before = inner;
                match inner.find(name) {
                    Some(j) => {
                        inner.set_value(j, v);
                    },
                    None => {
                        inner.insert(name.to_owned(), v);
                    },
                }
                assert(inner.lookup(name@) == Some(v));
                assert(forall|n: Seq<char>| n != name@ ==> inner.lookup(n) == inner_before.lookup(n));
                self.modules.set_value(i, inner);
                proof {
                    assert forall|m: Seq<char>, n: Seq<char>|
                        (m != module@ || n != name@) implies self.lookup(m, n) == before.lookup(
                        m,
                        n,
                    ) by {
                        if before.modules.contains(m) {
                            assert(self.modules.contains(m));
                            if m != module@ {
                                assert(before.modules.index_of(m) != i);
                            }
                        }
                    }
                }
            },
            None => {
                let mut inner = Dict::new();
                inner.insert(name.to_owned(), v);
                self.modules.insert(module.to_owned(), inner);
            },
        }
    }

    /// The number of modules.
    pub fn modules(&self) -> (r: usize)
        ensures
            r == self.module_count(),
    {
        self.modules.len()
    }

    /// The name of the `i`-th module.
    pub fn module(&self, i: usize) -> (r: &String)
        requires
            i < self.module_count(),
        ensures
            r@ == self.module_at(i as int),
    {
        self.modules.key(i)
    }

    /// The symbols of the `i`-th module.
    pub fn symbols(&self, i: usize) -> (r: &Dict<V>)
        requires
            i < self.module_count(),
        ensures
            *r == self.symbols_at(i as int),
    {
        self.modules.value(i)
    }
}

} // verus!
