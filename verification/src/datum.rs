//! Values the engine can compare and copy through a mathematical model.
use vstd::prelude::*;

verus! {

/// A value with a mathematical model. Two values are the same to the engine
/// exactly when their models are equal.
pub trait Datum: Sized {
    type Model;

    spec fn model(&self) -> Self::Model;

    /// Value equality: equality of the models.
    fn same(&self, other: &Self) -> (b: bool)
        ensures
            b == (self.model() == other.model()),
    ;

    /// A copy with the same model.
    fn duplicate(&self) -> (c: Self)
        ensures
            c.model() == self.model(),
    ;

    /// A number by which values are sorted into buckets; it depends on the
    /// model alone, so equal values share it.
    spec fn digest(model: Self::Model) -> u64;

    fn hash(&self) -> (h: u64)
        ensures
            h == Self::digest(self.model()),
    ;
}

/// Folds one more number into a digest.
pub open spec fn mixed(digest: u64, next: u64) -> u64 {
    (digest << 5) ^ (digest >> 59) ^ next
}

pub fn mix(digest: u64, next: u64) -> (m: u64)
    ensures
        m == mixed(digest, next),
{
    (digest << 5) ^ (digest >> 59) ^ next
}

/// The digest of a sequence: the digests of its items folded from the left.
pub open spec fn digest_all<T: Datum>(items: Seq<T::Model>) -> u64
    decreases items.len(),
{
    if items.len() == 0 {
        0
    } else {
        mixed(digest_all::<T>(items.drop_last()), T::digest(items.last()))
    }
}

/// Computes the digest of a vector.
pub fn hash_all<T: Datum>(items: &Vec<T>) -> (h: u64)
    ensures
        h == digest_all::<T>(models(items@)),
{
    let mut h: u64 = 0;
    let mut i: usize = 0;
    proof {
        assert(models(items@).take(0) =~= Seq::empty());
    }
    while i < items.len()
        invariant
            i <= items.len(),
            h == digest_all::<T>(models(items@).take(i as int)),
        decreases items.len() - i,
    {
        proof {
            assert(models(items@).take(i + 1).drop_last() =~= models(items@).take(i as int));
            assert(models(items@).take(i + 1).last() == items@[i as int].model());
        }
        h = mix(h, items[i].hash());
        i += 1;
    }
    proof {
        assert(models(items@).take(items@.len() as int) =~= models(items@));
    }
    h
}

/// The models of a sequence of values, position by position.
pub open spec fn models<T: Datum>(items: Seq<T>) -> Seq<T::Model> {
    Seq::new(items.len(), |i: int| items[i].model())
}

pub proof fn lemma_models_empty<T: Datum>()
    ensures
        models(Seq::<T>::empty()) == Seq::<T::Model>::empty(),
{
    assert(models(Seq::<T>::empty()) =~= Seq::<T::Model>::empty());
}

/// Copies a vector element by element.
pub fn duplicate_all<T: Datum>(items: &Vec<T>) -> (copy: Vec<T>)
    ensures
        models(copy@) == models(items@),
{
    let mut copy: Vec<T> = Vec::new();
    let mut i: usize = 0;
    while i < items.len()
        invariant
            i <= items.len(),
            copy@.len() == i,
            forall|j: int| 0 <= j < i ==> copy@[j].model() == items@[j].model(),
        decreases items.len() - i,
    {
        copy.push(items[i].duplicate());
        i += 1;
    }
    assert(models(copy@) =~= models(items@));
    copy
}

/// Compares two vectors element by element.
pub fn same_all<T: Datum>(left: &Vec<T>, right: &Vec<T>) -> (b: bool)
    ensures
        b == (models(left@) == models(right@)),
{
    if left.len() != right.len() {
        assert(models(left@).len() != models(right@).len());
        return false;
    }
    let mut i: usize = 0;
    while i < left.len()
        invariant
            i <= left.len(),
            left.len() == right.len(),
            forall|j: int| 0 <= j < i ==> left@[j].model() == right@[j].model(),
        decreases left.len() - i,
    {
        if !left[i].same(&right[i]) {
            assert(models(left@)[i as int] != models(right@)[i as int]);
            return false;
        }
        i += 1;
    }
    assert(models(left@) =~= models(right@));
    true
}

impl Datum for char {
    type Model = char;

    open spec fn model(&self) -> char {
        *self
    }

    fn same(&self, other: &Self) -> (b: bool) {
        *self == *other
    }

    fn duplicate(&self) -> (c: Self) {
        *self
    }

    open spec fn digest(model: char) -> u64 {
        model as u64
    }

    fn hash(&self) -> (h: u64) {
        *self as u64
    }
}

impl Datum for usize {
    type Model = usize;

    open spec fn model(&self) -> usize {
        *self
    }

    fn same(&self, other: &Self) -> (b: bool) {
        *self == *other
    }

    fn duplicate(&self) -> (c: Self) {
        *self
    }

    open spec fn digest(model: usize) -> u64 {
        model as u64
    }

    fn hash(&self) -> (h: u64) {
        *self as u64
    }
}

impl<T: Datum> Datum for Vec<T> {
    type Model = Seq<T::Model>;

    open spec fn model(&self) -> Seq<T::Model> {
        models(self@)
    }

    fn same(&self, other: &Self) -> (b: bool) {
        same_all(self, other)
    }

    fn duplicate(&self) -> (c: Self) {
        duplicate_all(self)
    }

    open spec fn digest(model: Seq<T::Model>) -> u64 {
        digest_all::<T>(model)
    }

    fn hash(&self) -> (h: u64) {
        hash_all(self)
    }
}

/// The model of a text is the text.
pub proof fn lemma_text_model(text: Vec<char>)
    ensures
        text.model() == text@,
{
    assert(models(text@) =~= text@);
}

} // verus!
