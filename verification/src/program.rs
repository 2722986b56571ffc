//! The shape of a query program: resumable query bodies.
//!
//! A query body never touches the database. It is a function from the query's
//! key and the answers it has received so far to the next thing it wants:
//! the value of an input cell, the value of another query, or to finish.
//! Everything a body has read is therefore visible as the requests it made.
use crate::datum::{models, Datum};
use vstd::prelude::*;

verus! {

/// What a query body asks for next, over models.
pub enum Plan<K, V, N> {
    /// The current value of an input cell.
    Read(usize),
    /// The value of another query.
    Call(K),
    /// The body is finished, with its value and the notes it emitted.
    Done(V, Seq<N>),
    /// The body failed; the payload describes the fault.
    Fail(V),
}

/// What a query body asks for next.
pub enum Step<K, V, N> {
    Read(usize),
    Call(K),
    Done(V, Vec<N>),
    Fail(V),
}

impl<K: Datum, V: Datum, N: Datum> Step<K, V, N> {
    pub open spec fn model(&self) -> Plan<K::Model, V::Model, N::Model> {
        match *self {
            Step::Read(cell) => Plan::Read(cell),
            Step::Call(key) => Plan::Call(key.model()),
            Step::Done(value, notes) => Plan::Done(value.model(), models(notes@)),
            Step::Fail(fault) => Plan::Fail(fault.model()),
        }
    }
}

/// A set of query functions. `plan` is what the bodies mean; `step` computes it.
pub trait Program {
    type Key: Datum;

    type Value: Datum;

    type Note: Datum;

    spec fn plan(&self, key: KeyModel<Self>, answers: Seq<ValueModel<Self>>) -> Plan<
        KeyModel<Self>,
        ValueModel<Self>,
        NoteModel<Self>,
    >;

    fn step(&self, key: &Self::Key, answers: &Vec<Self::Value>) -> (s: Step<
        Self::Key,
        Self::Value,
        Self::Note,
    >)
        ensures
            s.model() == self.plan(key.model(), models(answers@)),
    ;

    /// The kind of a note; notes are retrieved by kind.
    spec fn kind(&self, note: NoteModel<Self>) -> u64;

    fn kind_of(&self, note: &Self::Note) -> (kind: u64)
        ensures
            kind == self.kind(note.model()),
    ;
}

pub type KeyModel<P> = <<P as Program>::Key as Datum>::Model;

pub type ValueModel<P> = <<P as Program>::Value as Datum>::Model;

pub type NoteModel<P> = <<P as Program>::Note as Datum>::Model;

/// One recorded dependency: an input cell or a query.
pub enum Dep<K> {
    Input(usize),
    Query(K),
}

/// The record of one finished query body.
pub struct Node<K, V, N> {
    pub value: V,
    pub notes: Seq<N>,
    pub deps: Seq<Dep<K>>,
}

} // verus!
