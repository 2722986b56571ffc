//! Canonical small identifiers for structured values.
use crate::datum::{models, Datum};
use std::collections::HashMap;
use vstd::prelude::*;

verus! {

/// No value occurs twice.
pub open spec fn distinct<M>(items: Seq<M>) -> bool {
    forall|i: int, j: int| 0 <= i < j < items.len() ==> #[trigger] items[i] != #[trigger] items[j]
}

/// The table after interning `value`.
pub open spec fn interned<M>(items: Seq<M>, value: M) -> Seq<M> {
    if items.contains(value) {
        items
    } else {
        items.push(value)
    }
}

/// The identifier that interning `value` gives: its position if it is
/// known, else the next free one.
pub open spec fn id_of<M>(items: Seq<M>, value: M) -> int {
    if items.contains(value) {
        items.index_of(value)
    } else {
        items.len() as int
    }
}

/// Maps each value ever interned to the position at which it was first
/// seen. Values are found again through their digests.
pub struct Interner<T> {
    /// The values by identifier.
    pub items: Vec<T>,
    /// For each digest, the identifiers of the values that have it.
    pub buckets: HashMap<u64, Vec<usize>>,
}

impl<T: Datum> Interner<T> {
    /// The values by identifier.
    pub open spec fn view(&self) -> Seq<T::Model> {
        models(self.items@)
    }

    /// Every value is listed under its digest, and what is listed exists.
    pub open spec fn indexed(&self) -> bool {
        &&& forall|id: usize|
            id < self@.len() ==> self.buckets@.contains_key(
                T::digest(#[trigger] self@[id as int]),
            ) && self.buckets@[T::digest(self@[id as int])]@.contains(id)
        &&& forall|h: u64, j: int|
            self.buckets@.contains_key(h) && 0 <= j < self.buckets@[h]@.len() ==> (
            #[trigger] self.buckets@[h]@[j]) < self@.len()
    }

    pub open spec fn wf(&self) -> bool {
        distinct(self@) && self.indexed()
    }

    pub fn new() -> (table: Self)
        ensures
            table.wf(),
            table@.len() == 0,
    {
        Interner { items: Vec::new(), buckets: HashMap::new() }
    }

    /// The number of identifiers issued.
    pub fn len(&self) -> (n: usize)
        ensures
            n == self@.len(),
    {
        self.items.len()
    }

    /// The identifier of `value`, if it has one.
    pub fn lookup(&self, value: &T) -> (found: Option<usize>)
        requires
            self.wf(),
        ensures
            found is Some <==> self@.contains(value.model()),
            found is Some ==> found->0 == id_of(self@, value.model()) && found->0 < self@.len()
                && self@[found->0 as int] == value.model(),
    {
        broadcast use vstd::std_specs::hash::group_hash_axioms;

        let h = value.hash();
        let issued = self.items.len();
        match self.buckets.get(&h) {
            None => {
                proof {
                    assert forall|id: usize| id < self@.len() implies #[trigger] self@[id as int]
                        != value.model() by {
                        if self@[id as int] == value.model() {
                            assert(self.buckets@.contains_key(T::digest(self@[id as int])));
                        }
                    }
                    if self@.contains(value.model()) {
                        let at = self@.index_of(value.model());
                        assert(self@[at as usize as int] == value.model());
                    }
                }
                None
            },
            Some(bucket) => {
                let mut j: usize = 0;
                while j < bucket.len()
                    invariant
                        self.wf(),
                        j <= bucket.len(),
                        h == T::digest(value.model()),
                        self.buckets@.contains_key(h),
                        self.buckets@[h] == *bucket,
                        forall|k: int| 0 <= k < j ==> self@[bucket@[k] as int] != value.model(),
                    decreases bucket.len() - j,
                {
                    let id = bucket[j];
                    proof {
                        assert(self.buckets@[h]@[j as int] < self@.len());
                    }
                    if self.items[id].same(value) {
                        proof {
                            lemma_index_unique(self@, id as int, value.model());
                        }
                        return Some(id);
                    }
                    j += 1;
                }
                proof {
                    assert forall|id: usize| id < self@.len() implies #[trigger] self@[id as int]
                        != value.model() by {
                        if self@[id as int] == value.model() {
                            assert(self.buckets@[T::digest(self@[id as int])]@.contains(id));
                            let k = choose|k: int| 0 <= k < bucket@.len() && bucket@[k] == id;
                            assert(self@[bucket@[k] as int] != value.model());
                        }
                    }
                    if self@.contains(value.model()) {
                        let at = self@.index_of(value.model());
                        assert(self@[at as usize as int] == value.model());
                    }
                }
                None
            },
        }
    }

    /// Returns the identifier issued earlier for an equal value, else issues
    /// the next one.
    pub fn intern(&mut self, value: &T) -> (id: usize)
        requires
            old(self).wf(),
        ensures
            final(self).wf(),
            final(self)@ == interned(old(self)@, value.model()),
            id == id_of(old(self)@, value.model()),
            id < final(self)@.len(),
            final(self)@[id as int] == value.model(),
    {
        broadcast use vstd::std_specs::hash::group_hash_axioms;

        match self.lookup(value) {
            Some(id) => id,
            None => {
                let id = self.items.len();
                let h = value.hash();
                self.items.push(value.duplicate());
                let mut bucket = match self.buckets.remove(&h) {
                    Some(bucket) => bucket,
                    None => Vec::new(),
                };
                let ghost earlier = bucket@;
                bucket.push(id);
                self.buckets.insert(h, bucket);
                proof {
                    let before = old(self)@;
                    let after = self@;
                    assert(after =~= before.push(value.model()));
                    assert(self.buckets@[h]@ == earlier.push(id));
                    assert forall|x: usize| x < after.len() implies self.buckets@.contains_key(
                        T::digest(#[trigger] after[x as int]),
                    ) && self.buckets@[T::digest(after[x as int])]@.contains(x) by {
                        let d = T::digest(after[x as int]);
                        if x < before.len() {
                            assert(after[x as int] == before[x as int]);
                            assert(old(self).buckets@.contains_key(d));
                            let listed = old(self).buckets@[d]@;
                            assert(listed.contains(x));
                            if d == h {
                                let k = choose|k: int| 0 <= k < listed.len() && listed[k] == x;
                                assert(earlier.push(id)[k] == x);
                            }
                        } else {
                            assert(earlier.push(id)[earlier.len() as int] == id);
                        }
                    }
                    assert forall|g: u64, j: int|
                        self.buckets@.contains_key(g) && 0 <= j < self.buckets@[g]@.len() implies (
                    #[trigger] self.buckets@[g]@[j]) < after.len() by {
                        if g == h {
                            if j < earlier.len() {
                                assert(old(self).buckets@.contains_key(h));
                                assert(old(self).buckets@[h]@[j] < before.len());
                            }
                        } else {
                            assert(old(self).buckets@.contains_key(g));
                            assert(old(self).buckets@[g]@[j] < before.len());
                        }
                    }
                }
                id
            },
        }
    }

    /// The value that `id` stands for.
    pub fn resolve(&self, id: usize) -> (value: &T)
        requires
            id < self@.len(),
        ensures
            value.model() == self@[id as int],
    {
        &self.items[id]
    }
}

/// Interning is canonical: a value resolves to itself, and two values get the
/// same identifier exactly when they are equal.
pub proof fn lemma_interning_canonical<M>(items: Seq<M>, first: M, second: M)
    requires
        distinct(items),
    ensures
        distinct(interned(items, first)),
        interned(items, first)[id_of(items, first)] == first,
        interned(interned(items, first), second)[id_of(items, first)] == first,
        id_of(interned(items, first), first) == id_of(items, first),
        id_of(items, first) == id_of(interned(items, first), second) <==> first == second,
{
    let once = interned(items, first);
    let a = id_of(items, first);
    assert(once[a] == first);
    assert(once.contains(first));
    assert(distinct(once));
    let at = once.index_of(first);
    assert(at == a) by {
        if at < a {
        } else if a < at {
        }
    }
    if once.contains(second) {
        let b = once.index_of(second);
        if first != second {
            assert(a != b);
        }
    }
}

/// In a table without repetition a value has one position.
pub proof fn lemma_index_unique<M>(items: Seq<M>, at: int, value: M)
    requires
        distinct(items),
        0 <= at < items.len(),
        items[at] == value,
    ensures
        items.contains(value),
        items.index_of(value) == at,
{
    assert(items.contains(value));
    let found = items.index_of(value);
    if found < at {
        assert(items[found] != items[at]);
    } else if at < found {
        assert(items[at] != items[found]);
    }
}

} // verus!
