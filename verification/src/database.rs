//! The database: revision clock, input cells, query keys, cached entries,
//! active calls and the event log.
use crate::datum::{models, Datum};
use crate::interner::{id_of, interned, Interner};
use crate::program::{Dep, KeyModel, NoteModel, Program, ValueModel};
use crate::semantics::{lemma_denotes_more_inputs};
use crate::state::{
    entry_ok, later, state_ok, CellModel, EntryModel, Event, FrameModel, State,
};
use vstd::prelude::*;

verus! {

/// Why the engine refused or gave up.
#[derive(Debug, PartialEq, Eq)]
pub enum EngineError<V> {
    /// An input was written while a query was running.
    QueryInProgress,
    /// A note was emitted while no query was running.
    NoActiveQuery,
    /// A cell identifier that was never issued.
    UnknownInput,
    /// A query asked, directly or through others, for itself.
    Cycle,
    /// Queries nested more deeply than the database allows.
    DepthExceeded,
    /// One query body made more reads than the database allows.
    TooManyReads,
    /// The revision counter cannot advance any further.
    RevisionExhausted,
    /// A query body failed; the payload is what it reported.
    Fault(V),
}

/// An input cell.
pub struct InputCell<V> {
    pub value: V,
    pub changed_at: u64,
}

impl<V: Datum> InputCell<V> {
    pub open spec fn view(&self) -> CellModel<V::Model> {
        CellModel { value: self.value.model(), changed_at: self.changed_at }
    }
}

/// A cached result.
pub struct MemoEntry<V: Datum, N: Datum> {
    pub value: V,
    pub notes: Vec<N>,
    pub deps: Vec<Dep<usize>>,
    pub answers: Ghost<Seq<V::Model>>,
    pub computed_at: u64,
    pub verified_at: u64,
    pub changed_at: u64,
}

impl<V: Datum, N: Datum> MemoEntry<V, N> {
    pub open spec fn view(&self) -> EntryModel<V::Model, N::Model> {
        EntryModel {
            value: self.value.model(),
            notes: models(self.notes@),
            deps: self.deps@,
            answers: self.answers@,
            computed_at: self.computed_at,
            verified_at: self.verified_at,
            changed_at: self.changed_at,
        }
    }
}

pub open spec fn slot_view<V: Datum, N: Datum>(slot: Option<MemoEntry<V, N>>) -> Option<
    EntryModel<V::Model, N::Model>,
> {
    match slot {
        Some(entry) => Some(entry@),
        None => None,
    }
}

/// A query in progress.
pub struct Frame<N> {
    pub query: usize,
    pub bucket: Vec<N>,
}

impl<N: Datum> Frame<N> {
    pub open spec fn view(&self) -> FrameModel<N::Model> {
        FrameModel { query: self.query, bucket: models(self.bucket@) }
    }
}

/// The container of all engine state for one program.
pub struct Database<P: Program> {
    pub program: P,
    pub revision: u64,
    pub inputs: Vec<InputCell<P::Value>>,
    pub keys: Interner<P::Key>,
    pub memo: Vec<Option<MemoEntry<P::Value, P::Note>>>,
    pub stack: Vec<Frame<P::Note>>,
    pub events: Vec<Event>,
    pub depth_limit: usize,
    pub read_limit: usize,
}

impl<P: Program> Database<P> {
    pub open spec fn view(&self) -> State<KeyModel<P>, ValueModel<P>, NoteModel<P>> {
        State {
            revision: self.revision,
            inputs: Seq::new(self.inputs@.len(), |i: int| self.inputs@[i]@),
            keys: self.keys@,
            memo: Seq::new(self.memo@.len(), |i: int| slot_view(self.memo@[i])),
            stack: Seq::new(self.stack@.len(), |i: int| self.stack@[i]@),
            events: self.events@,
            depth_limit: self.depth_limit,
            read_limit: self.read_limit,
        }
    }

    /// The database is consistent with its program.
    pub open spec fn wf(&self) -> bool {
        state_ok(&self.program, self@) && self.keys.indexed()
    }

    /// An empty database with the given limits on nesting depth and on the
    /// number of reads of one query body.
    pub fn with_limits(program: P, depth_limit: usize, read_limit: usize) -> (db: Self)
        ensures
            db.wf(),
            db.program == program,
            db@.revision == 0,
            db@.inputs.len() == 0,
            db@.keys.len() == 0,
            db@.memo.len() == 0,
            db@.idle(),
            db@.events.len() == 0,
            db@.depth_limit == depth_limit,
            db@.read_limit == read_limit,
    {
        Database {
            program,
            revision: 0,
            inputs: Vec::new(),
            keys: Interner::new(),
            memo: Vec::new(),
            stack: Vec::new(),
            events: Vec::new(),
            depth_limit,
            read_limit,
        }
    }

    /// An empty database with room for 256 nested queries and 65536 reads
    /// per query body.
    pub fn new(program: P) -> (db: Self)
        ensures
            db.wf(),
            db.program == program,
            db@.revision == 0,
            db@.inputs.len() == 0,
            db@.keys.len() == 0,
            db@.memo.len() == 0,
            db@.idle(),
            db@.events.len() == 0,
            db@.depth_limit == 256,
            db@.read_limit == 65536,
    {
        Self::with_limits(program, 256, 65536)
    }

    /// The current revision.
    pub fn revision(&self) -> (r: u64)
        ensures
            r == self@.revision,
    {
        self.revision
    }

    /// The events logged so far, oldest first.
    pub fn events(&self) -> (log: &Vec<Event>)
        ensures
            log@ == self@.events,
    {
        &self.events
    }

    /// Hands out the event log and starts a new one.
    pub fn drain_events(&mut self) -> (log: Vec<Event>)
        ensures
            log@ == old(self)@.events,
            final(self)@ == (State { events: Seq::empty(), ..old(self)@ }),
            final(self).program == old(self).program,
            old(self).wf() ==> final(self).wf(),
    {
        let mut log: Vec<Event> = Vec::new();
        core::mem::swap(&mut self.events, &mut log);
        proof {
            assert(self@ =~= (State { events: Seq::empty(), ..old(self)@ }));
            if old(self).wf() {
                Self::lemma_same_memo_ok(&self.program, old(self)@, self@);
            }
        }
        log
    }

    /// Consistency does not depend on the event log or the active calls'
    /// buckets.
    pub proof fn lemma_same_memo_ok(
        program: &P,
        before: State<KeyModel<P>, ValueModel<P>, NoteModel<P>>,
        after: State<KeyModel<P>, ValueModel<P>, NoteModel<P>>,
    )
        requires
            state_ok(program, before),
            after.revision == before.revision,
            after.inputs == before.inputs,
            after.keys == before.keys,
            after.memo == before.memo,
            forall|f: int|
                0 <= f < after.stack.len() ==> (#[trigger] after.stack[f]).query
                    < after.keys.len(),
        ensures
            state_ok(program, after),
    {
        assert(after.input_values() =~= before.input_values());
        assert forall|id: int| #[trigger] after.has_entry(id) implies entry_ok(
            program,
            after,
            id,
        ) by {
            assert(before.has_entry(id));
            assert(entry_ok(program, before, id));
            let e = before.entry(id);
            assert(after.dep_keys(e.deps) =~= before.dep_keys(e.deps));
            assert forall|i: int| 0 <= i < e.deps.len() implies after.dep_known(
                #[trigger] e.deps[i],
            ) by {
                assert(before.dep_known(e.deps[i]));
            }
            assert forall|i: int|
                0 <= i < e.deps.len() && after.dep_changed_at(#[trigger] e.deps[i])
                    <= e.computed_at implies after.dep_value(e.deps[i]) == e.answers[i] by {
                assert(before.dep_changed_at(e.deps[i]) == after.dep_changed_at(e.deps[i]));
            }
            if e.verified_at == after.revision {
                assert forall|i: int| 0 <= i < e.deps.len() implies after.dep_current(
                    #[trigger] e.deps[i],
                ) && after.dep_changed_at(e.deps[i]) <= e.computed_at by {
                    assert(before.dep_current(e.deps[i]));
                }
                assert(after.node(id) == before.node(id));
            }
        }
    }

    /// The identifier of a query key, issuing one if the key is new.
    pub fn intern(&mut self, key: &P::Key) -> (id: usize)
        requires
            old(self).wf(),
        ensures
            final(self).wf(),
            final(self).program == old(self).program,
            id == id_of(old(self)@.keys, key.model()),
            id < final(self)@.keys.len(),
            final(self)@.keys[id as int] == key.model(),
            final(self)@.keys == interned(old(self)@.keys, key.model()),
            final(self)@ == (State {
                keys: final(self)@.keys,
                memo: if old(self)@.keys.contains(key.model()) {
                    old(self)@.memo
                } else {
                    old(self)@.memo.push(None)
                },
                ..old(self)@
            }),
    {
        let id = self.keys.intern(key);
        if id == self.memo.len() {
            self.memo.push(None);
            proof {
                assert(self@.memo =~= old(self)@.memo.push(None));
            }
        }
        let issued = self.keys.len();
        proof {
            let before = old(self)@;
            let after = self@;
            assert(after.inputs =~= before.inputs);
            assert(after.stack =~= before.stack);
            assert(after.memo =~= if before.keys.contains(key.model()) {
                before.memo
            } else {
                before.memo.push(None)
            });
            Self::lemma_more_keys_ok(&self.program, before, after);
        }
        id
    }

    /// Issuing identifiers for new keys keeps the database consistent.
    pub proof fn lemma_more_keys_ok(
        program: &P,
        before: State<KeyModel<P>, ValueModel<P>, NoteModel<P>>,
        after: State<KeyModel<P>, ValueModel<P>, NoteModel<P>>,
    )
        requires
            state_ok(program, before),
            after.revision == before.revision,
            after.inputs == before.inputs,
            after.stack == before.stack,
            crate::interner::distinct(after.keys),
            after.keys.len() == after.memo.len(),
            after.memo.len() <= usize::MAX,
            before.keys.len() <= after.keys.len(),
            forall|id: int|
                0 <= id < before.keys.len() ==> #[trigger] after.keys[id] == before.keys[id],
            forall|id: int|
                0 <= id < before.memo.len() ==> #[trigger] after.memo[id] == before.memo[id],
            forall|id: int|
                before.memo.len() <= id < after.memo.len() ==> #[trigger] after.memo[id] is None,
        ensures
            state_ok(program, after),
    {
        assert(after.input_values() =~= before.input_values());
        assert forall|id: int| #[trigger] after.has_entry(id) implies entry_ok(
            program,
            after,
            id,
        ) by {
            assert(id < before.memo.len());
            assert(after.memo[id] == before.memo[id]);
            assert(before.has_entry(id));
            assert(entry_ok(program, before, id));
            let e = before.entry(id);
            assert forall|i: int| 0 <= i < e.deps.len() implies after.dep_known(
                #[trigger] e.deps[i],
            ) && after.dep_key(e.deps[i]) == before.dep_key(e.deps[i]) && after.dep_changed_at(
                e.deps[i],
            ) == before.dep_changed_at(e.deps[i]) && after.dep_value(e.deps[i])
                == before.dep_value(e.deps[i]) && after.dep_current(e.deps[i])
                == before.dep_current(e.deps[i]) by {
                assert(before.dep_known(e.deps[i]));
                match e.deps[i] {
                    Dep::Input(cell) => {},
                    Dep::Query(q) => {
                        assert(before.has_entry(q as int));
                        assert(after.memo[q as int] == before.memo[q as int]);
                    },
                }
            }
            assert(after.dep_keys(e.deps) =~= before.dep_keys(e.deps));
            if e.verified_at == after.revision {
                assert(after.node(id) == before.node(id));
            }
        }
        assert forall|f: int| 0 <= f < after.stack.len() implies (#[trigger] after.stack[f]).query
            < after.keys.len() by {
            assert(before.stack[f].query < before.keys.len());
        }
    }

    /// The key that an identifier stands for.
    pub fn resolve(&self, id: usize) -> (key: &P::Key)
        requires
            id < self@.keys.len(),
        ensures
            key.model() == self@.keys[id as int],
    {
        self.keys.resolve(id)
    }
}

impl<P: Program> Database<P> {
    /// Declares a new input cell holding `value` and returns its identifier.
    /// Refused while a query is running.
    pub fn declare_input(&mut self, value: P::Value) -> (r: Result<usize, EngineError<P::Value>>)
        requires
            old(self).wf(),
        ensures
            final(self).wf(),
            final(self).program == old(self).program,
            later(old(self)@, final(self)@),
            match r {
                Ok(cell) => {
                    &&& old(self)@.idle()
                    &&& cell == old(self)@.inputs.len()
                    &&& final(self)@ == (State {
                        inputs: old(self)@.inputs.push(
                            CellModel { value: value.model(), changed_at: old(self)@.revision },
                        ),
                        ..old(self)@
                    })
                },
                Err(e) => e is QueryInProgress && !old(self)@.idle() && final(self)@ == old(
                    self,
                )@,
            },
    {
        if self.stack.len() != 0 {
            return Err(EngineError::QueryInProgress);
        }
        let cell = self.inputs.len();
        let ghost model = value.model();
        self.inputs.push(InputCell { value, changed_at: self.revision });
        proof {
            let before = old(self)@;
            let after = self@;
            let added = CellModel { value: model, changed_at: before.revision };
            assert(after.inputs =~= before.inputs.push(added));
            assert(after.memo =~= before.memo);
            assert(after.stack =~= before.stack);
            Self::lemma_declared_ok(&self.program, before, added);
        }
        Ok(cell)
    }

    proof fn lemma_declared_ok(
        program: &P,
        before: State<KeyModel<P>, ValueModel<P>, NoteModel<P>>,
        added: CellModel<ValueModel<P>>,
    )
        requires
            state_ok(program, before),
            added.changed_at <= before.revision,
        ensures
            state_ok(program, State { inputs: before.inputs.push(added), ..before }),
    {
        let after = State { inputs: before.inputs.push(added), ..before };
        assert(after.input_values() =~= before.input_values().push(added.value));
        assert forall|id: int| #[trigger] after.has_entry(id) implies entry_ok(
            program,
            after,
            id,
        ) by {
            assert(before.has_entry(id));
            assert(entry_ok(program, before, id));
            let e = before.entry(id);
            assert forall|i: int| 0 <= i < e.deps.len() implies after.dep_known(
                #[trigger] e.deps[i],
            ) && after.dep_changed_at(e.deps[i]) == before.dep_changed_at(e.deps[i])
                && after.dep_value(e.deps[i]) == before.dep_value(e.deps[i])
                && after.dep_current(e.deps[i]) == before.dep_current(e.deps[i]) by {
                assert(before.dep_known(e.deps[i]));
            }
            assert(after.dep_keys(e.deps) =~= before.dep_keys(e.deps));
            if e.verified_at == after.revision {
                assert(after.node(id) == before.node(id));
                lemma_denotes_more_inputs(
                    program,
                    before.input_values(),
                    added.value,
                    before.keys[id],
                    Ok(before.node(id)),
                );
            }
        }
    }

    /// Replaces the value of an input cell. If the new value differs from the
    /// current one, the revision advances and the cell is stamped with it;
    /// if it is equal, nothing observable changes. Refused while a query is
    /// running.
    pub fn set_input(&mut self, cell: usize, value: P::Value) -> (r: Result<
        (),
        EngineError<P::Value>,
    >)
        requires
            old(self).wf(),
        ensures
            final(self).wf(),
            final(self).program == old(self).program,
            later(old(self)@, final(self)@),
            match r {
                Ok(()) => {
                    &&& old(self)@.idle()
                    &&& cell < old(self)@.inputs.len()
                    &&& if value.model() == old(self)@.inputs[cell as int].value {
                        final(self)@ == old(self)@
                    } else {
                        &&& old(self)@.revision < u64::MAX
                        &&& final(self)@ == (State {
                            revision: (old(self)@.revision + 1) as u64,
                            inputs: old(self)@.inputs.update(
                                cell as int,
                                CellModel {
                                    value: value.model(),
                                    changed_at: (old(self)@.revision + 1) as u64,
                                },
                            ),
                            ..old(self)@
                        })
                    }
                },
                Err(e) => {
                    &&& final(self)@ == old(self)@
                    &&& e is QueryInProgress <==> !old(self)@.idle()
                    &&& e is UnknownInput <==> old(self)@.idle() && cell >= old(
                        self,
                    )@.inputs.len()
                    &&& e is RevisionExhausted <==> old(self)@.idle() && cell < old(
                        self,
                    )@.inputs.len() && value.model() != old(self)@.inputs[cell as int].value
                        && old(self)@.revision == u64::MAX
                    &&& e is QueryInProgress || e is UnknownInput || e is RevisionExhausted
                },
            },
    {
        if self.stack.len() != 0 {
            return Err(EngineError::QueryInProgress);
        }
        if cell >= self.inputs.len() {
            return Err(EngineError::UnknownInput);
        }
        let unchanged = self.inputs[cell].value.same(&value);
        if unchanged {
            let stamp = self.inputs[cell].changed_at;
            self.inputs.set(cell, InputCell { value, changed_at: stamp });
            proof {
                assert(self@.inputs =~= old(self)@.inputs);
                assert(self@.memo =~= old(self)@.memo);
                assert(self@.stack =~= old(self)@.stack);
                assert(self@ == old(self)@);
            }
            return Ok(());
        }
        if self.revision == u64::MAX {
            return Err(EngineError::RevisionExhausted);
        }
        let ghost model = value.model();
        self.revision = self.revision + 1;
        self.inputs.set(cell, InputCell { value, changed_at: self.revision });
        proof {
            let before = old(self)@;
            let after = self@;
            let stamped = CellModel { value: model, changed_at: (before.revision + 1) as u64 };
            assert(after.inputs =~= before.inputs.update(cell as int, stamped));
            assert(after.memo =~= before.memo);
            assert(after.stack =~= before.stack);
            Self::lemma_mutated_ok(&self.program, before, cell as int, model);
        }
        Ok(())
    }

    proof fn lemma_mutated_ok(
        program: &P,
        before: State<KeyModel<P>, ValueModel<P>, NoteModel<P>>,
        cell: int,
        value: ValueModel<P>,
    )
        requires
            state_ok(program, before),
            0 <= cell < before.inputs.len(),
            before.revision < u64::MAX,
        ensures
            state_ok(
                program,
                State {
                    revision: (before.revision + 1) as u64,
                    inputs: before.inputs.update(
                        cell,
                        CellModel { value, changed_at: (before.revision + 1) as u64 },
                    ),
                    ..before
                },
            ),
    {
        let after = State {
            revision: (before.revision + 1) as u64,
            inputs: before.inputs.update(
                cell,
                CellModel { value, changed_at: (before.revision + 1) as u64 },
            ),
            ..before
        };
        assert forall|c: int| 0 <= c < after.inputs.len() implies (#[trigger] after.inputs[c]).changed_at
            <= after.revision by {
            if c != cell {
                assert(before.inputs[c].changed_at <= before.revision);
            }
        }
        assert forall|id: int| #[trigger] after.has_entry(id) implies entry_ok(
            program,
            after,
            id,
        ) by {
            assert(before.has_entry(id));
            assert(entry_ok(program, before, id));
            let e = before.entry(id);
            assert forall|i: int| 0 <= i < e.deps.len() implies after.dep_known(
                #[trigger] e.deps[i],
            ) && (after.dep_changed_at(e.deps[i]) <= e.computed_at ==> after.dep_changed_at(
                e.deps[i],
            ) == before.dep_changed_at(e.deps[i]) && after.dep_value(e.deps[i])
                == before.dep_value(e.deps[i])) by {
                assert(before.dep_known(e.deps[i]));
            }
            assert(after.dep_keys(e.deps) =~= before.dep_keys(e.deps));
        }
    }

    /// The value of an input cell and the revision at which it last changed.
    pub fn read_input(&self, cell: usize) -> (r: Result<(&P::Value, u64), EngineError<P::Value>>)
        ensures
            match r {
                Ok((value, changed_at)) => {
                    &&& cell < self@.inputs.len()
                    &&& value.model() == self@.inputs[cell as int].value
                    &&& changed_at == self@.inputs[cell as int].changed_at
                },
                Err(e) => e is UnknownInput && cell >= self@.inputs.len(),
            },
    {
        if cell >= self.inputs.len() {
            return Err(EngineError::UnknownInput);
        }
        Ok((&self.inputs[cell].value, self.inputs[cell].changed_at))
    }

    /// Appends a note to the bucket of the innermost running query. Refused
    /// when no query is running.
    pub fn accumulate(&mut self, note: P::Note) -> (r: Result<(), EngineError<P::Value>>)
        requires
            old(self).wf(),
        ensures
            final(self).wf(),
            final(self).program == old(self).program,
            match r {
                Ok(()) => {
                    let top = old(self)@.stack.len() - 1;
                    let frame = old(self)@.stack[top];
                    &&& !old(self)@.idle()
                    &&& final(self)@ == (State {
                        stack: old(self)@.stack.update(
                            top,
                            FrameModel { bucket: frame.bucket.push(note.model()), ..frame },
                        ),
                        events: old(self)@.events.push(Event::Accumulated(frame.query)),
                        ..old(self)@
                    })
                },
                Err(e) => e is NoActiveQuery && old(self)@.idle() && final(self)@ == old(self)@,
            },
    {
        let Some(mut frame) = self.stack.pop() else {
            return Err(EngineError::NoActiveQuery);
        };
        let ghost earlier = frame@;
        let ghost model = note.model();
        frame.bucket.push(note);
        self.events.push(Event::Accumulated(frame.query));
        self.stack.push(frame);
        proof {
            let before = old(self)@;
            let after = self@;
            let top = before.stack.len() - 1;
            assert(earlier == before.stack[top]);
            assert(models(frame.bucket@) =~= earlier.bucket.push(model));
            assert(after.stack =~= before.stack.update(
                top,
                FrameModel { bucket: earlier.bucket.push(model), ..earlier },
            ));
            assert(after.inputs =~= before.inputs);
            assert(after.memo =~= before.memo);
            assert forall|f: int| 0 <= f < after.stack.len() implies (#[trigger] after.stack[f]).query
                < after.keys.len() by {
                assert(before.stack[f].query < before.keys.len());
            }
            Self::lemma_same_memo_ok(&self.program, before, after);
        }
        Ok(())
    }
}

} // verus!
