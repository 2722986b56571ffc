//! Bringing cached entries up to date: validation, execution, early cutoff.
use crate::database::{Database, EngineError, Frame, MemoEntry};
use crate::datum::{lemma_models_empty, models, Datum};
use crate::interner::{id_of, lemma_index_unique};
use crate::program::{Dep, KeyModel, NoteModel, Plan, Program, Step, ValueModel};
use crate::semantics::{
    asks, chain_ok, denotes, evaluation, faithful, lemma_callee_stuck, lemma_chain_push,
    lemma_cycle_stuck, lemma_denotes_unique, lemma_evaluation_denotes,
    lemma_faithful_callee_fails, lemma_faithful_fail, lemma_reads_exhausted, lemma_unknown_cell,
    yields, Link,
};
use crate::state::{
    advances, entry_ok, evolves, keeps_active, lemma_active_kept, lemma_advances_trans,
    lemma_evolves_trans, state_ok, EntryModel, Event, FrameModel, State,
};
use crate::upkeep::{
    asks_all, lemma_asks_prefix, lemma_confirmed_ok, lemma_dep_kept, lemma_faithful_from_state,
    lemma_stored_ok, reads_current,
};
use vstd::prelude::*;

verus! {

impl<P: Program> Database<P> {
    /// Whether the entry of `id` is confirmed for the current revision.
    pub fn is_current(&self, id: usize) -> (b: bool)
        ensures
            b == self@.current(id as int),
    {
        if id >= self.memo.len() {
            return false;
        }
        match &self.memo[id] {
            Some(entry) => entry.verified_at == self.revision,
            None => false,
        }
    }

    /// Whether `id` is among the queries in progress.
    pub fn is_active(&self, id: usize) -> (b: bool)
        ensures
            b == self@.on_stack(id as int),
    {
        let mut f: usize = 0;
        while f < self.stack.len()
            invariant
                f <= self.stack.len(),
                forall|g: int| 0 <= g < f ==> (#[trigger] self@.stack[g]).query != id,
            decreases self.stack.len() - f,
        {
            if self.stack[f].query == id {
                assert(self@.stack[f as int].query == id);
                return true;
            }
            f += 1;
        }
        false
    }

    fn confirm(&mut self, id: usize)
        requires
            old(self)@.has_entry(id as int),
        ensures
            final(self).program == old(self).program,
            final(self).keys == old(self).keys,
            final(self)@ == (State {
                memo: old(self)@.memo.update(
                    id as int,
                    Some(
                        EntryModel {
                            verified_at: old(self)@.revision,
                            ..old(self)@.entry(id as int)
                        },
                    ),
                ),
                ..old(self)@
            }),
    {
        let revision = self.revision;
        match &mut self.memo[id] {
            Some(entry) => {
                entry.verified_at = revision;
            },
            None => {},
        }
        proof {
            assert(self@.memo =~= old(self)@.memo.update(
                id as int,
                Some(
                    EntryModel { verified_at: old(self)@.revision, ..old(self)@.entry(id as int) },
                ),
            ));
            assert(self@.inputs =~= old(self)@.inputs);
            assert(self@.stack =~= old(self)@.stack);
        }
    }
}

/// The errors that running a query can end in.
pub open spec fn query_failure<V>(e: EngineError<V>) -> bool {
    e is Cycle || e is DepthExceeded || e is TooManyReads || e is UnknownInput || e is Fault
}

/// A failed query either hit a limit of the engine or its body failed, and
/// then the fault is what the query means.
pub open spec fn failure_explained<P: Program>(
    program: &P,
    inputs: Seq<ValueModel<P>>,
    key: KeyModel<P>,
    e: EngineError<P::Value>,
) -> bool {
    &&& query_failure(e)
    &&& e matches EngineError::Fault(fault) ==> denotes(program, inputs, key, Err(fault.model()))
}

/// What a refused or failed call on an idle database means, and that a call
/// on a database with queries in progress is refused.
pub open spec fn refusal_explained<P: Program>(
    program: &P,
    s: State<KeyModel<P>, ValueModel<P>, NoteModel<P>>,
    key: KeyModel<P>,
    e: EngineError<P::Value>,
) -> bool {
    if s.idle() {
        failure_explained(program, s.input_values(), key, e)
    } else {
        e is QueryInProgress
    }
}

/// The chain names the queries in progress, outermost first.
pub open spec fn chain_fits<K, V, N>(s: State<K, V, N>, chain: Seq<Link<K, V>>) -> bool {
    &&& chain.len() <= s.stack.len()
    &&& forall|f: int|
        0 <= f < chain.len() ==> (#[trigger] chain[f]).key == s.keys[s.stack[f].query as int]
}

/// The call ended for want of depth or reads, in a cycle, or at a cell that
/// does not exist.
pub open spec fn gave_up<T, V>(r: Result<T, EngineError<V>>) -> bool {
    r is Err && !(r->Err_0 is Fault)
}

/// Success is owed: if `key` evaluates from scratch within `depth` and the
/// database's limit on reads, the engine does not give up on it.
pub open spec fn owed<P: Program>(
    program: &P,
    s: State<KeyModel<P>, ValueModel<P>, NoteModel<P>>,
    key: KeyModel<P>,
    depth: usize,
    gave_up: bool,
) -> bool {
    evaluation(program, s.input_values(), key, depth as nat, s.read_limit as nat) is Some
        ==> !gave_up
}

/// The call returned what `key` evaluates to from scratch within the
/// database's limits, if they suffice.
pub open spec fn as_evaluated<P: Program>(
    program: &P,
    s: State<KeyModel<P>, ValueModel<P>, NoteModel<P>>,
    key: KeyModel<P>,
    r: Result<P::Value, EngineError<P::Value>>,
) -> bool {
    match evaluation(program, s.input_values(), key, s.depth_limit as nat, s.read_limit as nat) {
        Some(Ok(node)) => r is Ok && r->Ok_0.model() == node.value,
        Some(Err(fault)) => r is Err && r->Err_0 is Fault && r->Err_0->Fault_0.model() == fault,
        None => true,
    }
}

fn copy_deps(deps: &Vec<Dep<usize>>) -> (copy: Vec<Dep<usize>>)
    ensures
        copy@ == deps@,
{
    let mut copy: Vec<Dep<usize>> = Vec::new();
    let mut i: usize = 0;
    while i < deps.len()
        invariant
            i <= deps.len(),
            copy@ == deps@.take(i as int),
        decreases deps.len() - i,
    {
        let dep = match deps[i] {
            Dep::Input(cell) => Dep::Input(cell),
            Dep::Query(id) => Dep::Query(id),
        };
        copy.push(dep);
        assert(deps@.take(i + 1) =~= deps@.take(i as int).push(deps@[i as int]));
        i += 1;
    }
    assert(deps@.take(deps@.len() as int) =~= deps@);
    copy
}

impl<P: Program> Database<P> {
    fn value_of(&self, id: usize) -> (value: &P::Value)
        requires
            self@.has_entry(id as int),
        ensures
            value.model() == self@.entry(id as int).value,
    {
        match &self.memo[id] {
            Some(entry) => &entry.value,
            None => vstd::pervasive::unreached(),
        }
    }

    fn changed_at_of(&self, id: usize) -> (at: u64)
        requires
            self@.has_entry(id as int),
        ensures
            at == self@.entry(id as int).changed_at,
    {
        match &self.memo[id] {
            Some(entry) => entry.changed_at,
            None => vstd::pervasive::unreached(),
        }
    }

    /// Checks, in the order they were read, whether the dependencies of the
    /// entry of `id` are unchanged since it was computed, bringing each
    /// query among them up to date first. Stops at the first that changed.
    fn validate(
        &mut self,
        id: usize,
        fuel: usize,
        Ghost(chain): Ghost<Seq<Link<KeyModel<P>, ValueModel<P>>>>,
    ) -> (r: Result<bool, EngineError<P::Value>>)
        requires
            old(self).wf(),
            old(self)@.has_entry(id as int),
            !old(self)@.current(id as int),
            old(self)@.on_stack(id as int),
            old(self)@.stack.len() == chain.len() + 1,
            old(self)@.stack.last().query == id,
            chain_fits(old(self)@, chain),
            chain_ok(
                &old(self).program,
                old(self)@.input_values(),
                chain,
                old(self)@.keys[id as int],
            ),
        ensures
            final(self).wf(),
            final(self).program == old(self).program,
            evolves(old(self)@, final(self)@),
            owed(&final(self).program, old(self)@, old(self)@.keys[id as int], fuel, gave_up(r)),
            match r {
                Ok(true) => forall|i: int|
                    0 <= i < old(self)@.entry(id as int).deps.len() ==> final(self)@.dep_current(
                        #[trigger] old(self)@.entry(id as int).deps[i],
                    ) && final(self)@.dep_changed_at(old(self)@.entry(id as int).deps[i]) <= old(
                        self,
                    )@.entry(id as int).computed_at,
                Ok(false) => final(self)@.stale(old(self)@.entry(id as int)),
                Err(e) => failure_explained(
                    &final(self).program,
                    old(self)@.input_values(),
                    old(self)@.keys[id as int],
                    e,
                ),
            },
        decreases fuel, 0nat,
    {
        let ghost start = self@;
        let ghost e = start.entry(id as int);
        let ghost key = start.keys[id as int];
        let (deps, computed_at) = match &self.memo[id] {
            Some(entry) => (copy_deps(&entry.deps), entry.computed_at),
            None => vstd::pervasive::unreached(),
        };
        proof {
            assert(entry_ok(&self.program, start, id as int));
        }
        let mut i: usize = 0;
        while i < deps.len()
            invariant
                self.wf(),
                self.program == old(self).program,
                evolves(start, self@),
                start == old(self)@,
                state_ok(&self.program, start),
                start.has_entry(id as int),
                start.on_stack(id as int),
                start.stack.len() == chain.len() + 1,
                start.stack.last().query == id,
                chain_fits(start, chain),
                chain_ok(&self.program, start.input_values(), chain, key),
                e == start.entry(id as int),
                key == start.keys[id as int],
                deps@ == e.deps,
                computed_at == e.computed_at,
                i <= deps.len(),
                forall|k: int|
                    0 <= k < i ==> self@.dep_known(#[trigger] e.deps[k]) && self@.dep_current(
                        e.deps[k],
                    ) && self@.dep_changed_at(e.deps[k]) <= e.computed_at,
            decreases deps.len() - i,
        {
            let ghost mid = self@;
            proof {
                lemma_active_kept(start, mid, id as int);
                assert(mid.has_entry(id as int) && mid.entry(id as int) == e);
                assert(entry_ok(&self.program, mid, id as int));
                assert(mid.dep_known(e.deps[i as int]));
            }
            match deps[i] {
                Dep::Input(cell) => {
                    if self.inputs[cell].changed_at > computed_at {
                        proof {
                            assert(self@.dep_changed_since(e.deps[i as int], e.computed_at));
                        }
                        return Ok(false);
                    }
                },
                Dep::Query(callee) => {
                    let ghost inputs = start.input_values();
                    let ghost limit = start.read_limit as nat;
                    let ghost heard = e.answers.take(i as int);
                    let ghost read = mid.dep_keys(e.deps.take(i as int));
                    let ghost target = mid.keys[callee as int];
                    proof {
                        let n = i as int;
                        assert(reads_current(mid, e.deps.take(n), heard));
                        assert(read =~= mid.dep_keys(e.deps).take(n));
                        lemma_asks_prefix(&self.program, key, e.answers, mid.dep_keys(e.deps), n);
                        lemma_faithful_from_state(&self.program, mid, key, e.deps.take(n), heard);
                        assert(asks(&self.program, key, e.answers, mid.dep_keys(e.deps), n));
                        assert(mid.input_values() =~= inputs);
                        assert(faithful(&self.program, inputs, key, heard, read));
                    }
                    if fuel == 0 {
                        proof {
                            lemma_callee_stuck(
                                &self.program,
                                inputs,
                                limit,
                                key,
                                heard,
                                read,
                                target,
                                0,
                            );
                        }
                        return Err(EngineError::DepthExceeded);
                    }
                    let ghost link = Link { key, heard, read };
                    let ghost longer = chain.push(link);
                    proof {
                        lemma_chain_push(&self.program, inputs, chain, link, target);
                        assert forall|f: int| 0 <= f < longer.len() implies (#[trigger] longer[f]).key
                            == mid.keys[mid.stack[f].query as int] by {
                            assert(start.stack[f].query < start.keys.len());
                            if f < chain.len() {
                                assert(longer[f] == chain[f]);
                            }
                        }
                    }
                    let outcome = self.update(callee, fuel - 1, Ghost(longer));
                    proof {
                        lemma_evolves_trans(&self.program, start, mid, self@);
                        assert forall|k: int| 0 <= k < i implies self@.dep_known(
                            #[trigger] e.deps[k],
                        ) && self@.dep_current(e.deps[k]) && self@.dep_changed_at(e.deps[k])
                            <= e.computed_at by {
                            lemma_dep_kept(mid, self@, e.deps[k]);
                        }
                    }
                    match outcome {
                        Err(err) => {
                            proof {
                                if err is Fault {
                                    lemma_faithful_callee_fails(
                                        &self.program,
                                        inputs,
                                        key,
                                        heard,
                                        read,
                                        target,
                                        err->Fault_0.model(),
                                    );
                                } else {
                                    lemma_callee_stuck(
                                        &self.program,
                                        inputs,
                                        limit,
                                        key,
                                        heard,
                                        read,
                                        target,
                                        fuel as nat,
                                    );
                                }
                            }
                            return Err(err);
                        },
                        Ok(()) => {},
                    }
                    if self.changed_at_of(callee) > computed_at {
                        proof {
                            assert(self@.dep_changed_since(e.deps[i as int], e.computed_at));
                        }
                        return Ok(false);
                    }
                },
            }
            i += 1;
        }
        Ok(true)
    }

    /// Brings the entry of `id` up to date: confirms it if nothing it read
    /// has changed, else runs the query body again and stores the result.
    /// `fuel` bounds how deeply queries may nest from here. Refused while a
    /// query is running.
    pub fn refresh(&mut self, id: usize, fuel: usize) -> (r: Result<(), EngineError<P::Value>>)
        requires
            old(self).wf(),
            id < old(self)@.keys.len(),
        ensures
            final(self).wf(),
            final(self).program == old(self).program,
            evolves(old(self)@, final(self)@),
            !old(self)@.idle() ==> r is Err && final(self)@ == old(self)@,
            old(self)@.idle() ==> owed(
                &final(self).program,
                old(self)@,
                old(self)@.keys[id as int],
                fuel,
                gave_up(r),
            ),
            match r {
                Ok(()) => final(self)@.current(id as int),
                Err(e) => refusal_explained(
                    &final(self).program,
                    old(self)@,
                    old(self)@.keys[id as int],
                    e,
                ),
            },
            old(self)@.idle() && old(self)@.current(id as int) ==> r is Ok && final(self)@ == (
            State { events: old(self)@.events.push(Event::CacheHit(id)), ..old(self)@ }),
    {
        if self.stack.len() != 0 {
            return Err(EngineError::QueryInProgress);
        }
        self.update(id, fuel, Ghost(Seq::empty()))
    }

    /// Brings the entry of `id` up to date on behalf of the query on top of
    /// the stack, or of the caller if none is running. `chain` is the record
    /// of the queries in progress.
    fn update(
        &mut self,
        id: usize,
        fuel: usize,
        Ghost(chain): Ghost<Seq<Link<KeyModel<P>, ValueModel<P>>>>,
    ) -> (r: Result<(), EngineError<P::Value>>)
        requires
            old(self).wf(),
            id < old(self)@.keys.len(),
            old(self)@.stack.len() == chain.len(),
            chain_fits(old(self)@, chain),
            chain_ok(
                &old(self).program,
                old(self)@.input_values(),
                chain,
                old(self)@.keys[id as int],
            ),
        ensures
            final(self).wf(),
            final(self).program == old(self).program,
            evolves(old(self)@, final(self)@),
            owed(&final(self).program, old(self)@, old(self)@.keys[id as int], fuel, gave_up(r)),
            match r {
                Ok(()) => final(self)@.current(id as int),
                Err(e) => failure_explained(
                    &final(self).program,
                    old(self)@.input_values(),
                    old(self)@.keys[id as int],
                    e,
                ),
            },
            old(self)@.current(id as int) ==> r is Ok && final(self)@ == (State {
                events: old(self)@.events.push(Event::CacheHit(id)),
                ..old(self)@
            }),
        decreases fuel, 1nat,
    {
        let ghost start = self@;
        if self.is_current(id) {
            self.events.push(Event::CacheHit(id));
            proof {
                assert(self@.inputs =~= start.inputs);
                assert(self@.memo =~= start.memo);
                assert(self@.stack =~= start.stack);
                Self::lemma_same_memo_ok(&self.program, start, self@);
            }
            return Ok(());
        }
        if self.is_active(id) {
            proof {
                let f = choose|f: int|
                    0 <= f < start.stack.len() && (#[trigger] start.stack[f]).query == id;
                lemma_cycle_stuck(
                    &self.program,
                    start.input_values(),
                    start.read_limit as nat,
                    chain,
                    start.keys[id as int],
                    f,
                    fuel as nat,
                );
            }
            return Err(EngineError::Cycle);
        }
        let revision = self.revision;
        self.stack.push(Frame { query: id, bucket: Vec::new() });
        let ghost pushed = self@;
        proof {
            lemma_models_empty::<P::Note>();
            assert(pushed.stack =~= start.stack.push(
                FrameModel { query: id, bucket: Seq::empty() },
            ));
            assert(pushed.inputs =~= start.inputs);
            assert(pushed.memo =~= start.memo);
            assert(pushed.stack[pushed.stack.len() - 1].query == id);
            assert(pushed.on_stack(id as int));
            assert(pushed.stack.drop_last() =~= start.stack);
            assert forall|f: int| 0 <= f < pushed.stack.len() implies (#[trigger] pushed.stack[f]).query
                < pushed.keys.len() by {
                if f < start.stack.len() {
                    assert(start.stack[f].query < start.keys.len());
                }
            }
            Self::lemma_same_memo_ok(&self.program, start, pushed);
        }
        let known = self.memo[id].is_some();
        if known {
            proof {
                assert(pushed.input_values() =~= start.input_values());
                assert forall|f: int| 0 <= f < chain.len() implies (#[trigger] chain[f]).key
                    == pushed.keys[pushed.stack[f].query as int] by {
                    assert(pushed.stack[f] == start.stack[f]);
                }
            }
            let verdict = self.validate(id, fuel, Ghost(chain));
            let ghost checked = self@;
            proof {
                lemma_active_kept(pushed, checked, id as int);
            }
            match verdict {
                Err(err) => {
                    self.stack.pop();
                    proof {
                        Self::lemma_popped(start, pushed, checked, self@);
                        Self::lemma_back_ok(&self.program, start, pushed, checked, self@);
                    }
                    return Err(err);
                },
                Ok(true) => {
                    self.stack.pop();
                    let ghost popped = self@;
                    proof {
                        Self::lemma_popped(start, pushed, checked, popped);
                        Self::lemma_back_ok(&self.program, start, pushed, checked, popped);
                        let e = pushed.entry(id as int);
                        assert(popped.has_entry(id as int) && popped.entry(id as int) == e);
                        assert forall|i: int| 0 <= i < e.deps.len() implies popped.dep_current(
                            #[trigger] e.deps[i],
                        ) && popped.dep_changed_at(e.deps[i]) <= e.computed_at by {
                            let dep = e.deps[i];
                            assert(checked.dep_current(dep));
                            assert(popped.dep_current(dep) == checked.dep_current(dep));
                            assert(popped.dep_changed_at(dep) == checked.dep_changed_at(dep));
                        }
                        lemma_confirmed_ok(&self.program, popped, id as int);
                    }
                    self.confirm(id);
                    let ghost confirmed = self@;
                    self.events.push(Event::CacheHit(id));
                    proof {
                        let last = self@;
                        assert(last.inputs =~= confirmed.inputs);
                        assert(last.memo =~= confirmed.memo);
                        assert(last.stack =~= confirmed.stack);
                        Self::lemma_same_memo_ok(&self.program, confirmed, last);
                        lemma_advances_trans(&self.program, start, popped, confirmed);
                        assert(advances(confirmed, last));
                        lemma_advances_trans(&self.program, start, confirmed, last);
                        assert forall|f: int| 0 <= f < start.stack.len() implies last.memo[(
                        #[trigger] start.stack[f]).query as int]
                            == start.memo[start.stack[f].query as int] by {
                            assert(start.stack[f].query != id);
                        }
                    }
                    return Ok(());
                },
                Ok(false) => {},
            }
        }
        let ghost checked = self@;
        proof {
            lemma_active_kept(pushed, checked, id as int);
        }
        proof {
            assert(pushed.input_values() =~= start.input_values());
            assert(checked.input_values() =~= start.input_values());
            assert forall|f: int| 0 <= f < chain.len() implies (#[trigger] chain[f]).key
                == checked.keys[checked.stack[f].query as int] by {
                assert(checked.stack[f] == start.stack[f]);
                assert(start.stack[f].query < start.keys.len());
            }
        }
        let outcome = self.execute(id, fuel, Ghost(chain));
        let ghost ran = self@;
        let popped_frame = self.stack.pop();
        let ghost popped = self@;
        proof {
            lemma_advances_trans(&self.program, pushed, checked, ran);
            assert forall|f: int| 0 <= f < pushed.stack.len() implies ran.memo[(
            #[trigger] pushed.stack[f]).query as int] == pushed.memo[pushed.stack[f].query as int] by {
                assert(checked.stack[f] == pushed.stack[f]);
            }
            assert(popped.stack =~= ran.stack.drop_last());
            assert(ran.stack.drop_last() =~= start.stack);
            Self::lemma_popped(start, pushed, ran, popped);
            Self::lemma_back_ok(&self.program, start, pushed, ran, popped);
            lemma_active_kept(pushed, ran, id as int);
        }
        match outcome {
            Err(err) => Err(err),
            Ok((value, deps, answers)) => {
                let frame = match popped_frame {
                    Some(frame) => frame,
                    None => vstd::pervasive::unreached(),
                };
                let changed_at = match &self.memo[id] {
                    Some(earlier) => if earlier.value.same(&value) {
                        earlier.changed_at
                    } else {
                        revision
                    },
                    None => revision,
                };
                let entry = MemoEntry {
                    value,
                    notes: frame.bucket,
                    deps,
                    answers,
                    computed_at: revision,
                    verified_at: revision,
                    changed_at,
                };
                let ghost fresh = entry@;
                proof {
                    assert(frame@ == ran.stack[ran.stack.len() - 1]);
                    assert(forall|dep: Dep<usize>|
                        popped.dep_current(dep) == ran.dep_current(dep) && popped.dep_known(dep)
                            == ran.dep_known(dep) && popped.dep_value(dep) == ran.dep_value(dep));
                    assert(popped.dep_keys(fresh.deps) =~= ran.dep_keys(fresh.deps));
                    if popped.has_entry(id as int) {
                        assert(ran.memo[id as int] == pushed.memo[id as int]);
                        assert(checked.memo[id as int] == pushed.memo[id as int]);
                        assert(start.has_entry(id as int));
                        assert(checked.has_entry(id as int));
                        assert(known);
                        assert(state_ok(&self.program, checked));
                        assert(checked.stale(start.entry(id as int)));
                        let e = start.entry(id as int);
                        let i = choose|i: int|
                            0 <= i < e.deps.len() && checked.dep_changed_since(
                                #[trigger] e.deps[i],
                                e.computed_at,
                            );
                        assert(entry_ok(&self.program, checked, id as int));
                        assert(checked.dep_known(e.deps[i]));
                        crate::state::lemma_changed_at_grows(
                            &self.program,
                            checked,
                            ran,
                            e.deps[i],
                        );
                        assert(popped.dep_changed_since(e.deps[i], e.computed_at));
                        assert(popped.stale(popped.entry(id as int)));
                    }
                    lemma_stored_ok(&self.program, popped, id, fresh);
                }
                self.memo.set(id, Some(entry));
                let ghost stored = self@;
                self.events.push(Event::Recomputed(id));
                proof {
                    let last = self@;
                    assert(stored.memo =~= popped.memo.update(id as int, Some(fresh)));
                    assert(stored.inputs =~= popped.inputs);
                    assert(stored.stack =~= popped.stack);
                    assert(stored == (State {
                        memo: popped.memo.update(id as int, Some(fresh)),
                        ..popped
                    }));
                    assert(last.inputs =~= stored.inputs);
                    assert(last.memo =~= stored.memo);
                    assert(last.stack =~= stored.stack);
                    Self::lemma_same_memo_ok(&self.program, stored, last);
                    lemma_advances_trans(&self.program, start, popped, stored);
                    assert(advances(stored, last));
                    lemma_advances_trans(&self.program, start, stored, last);
                    assert forall|f: int| 0 <= f < start.stack.len() implies last.memo[(
                    #[trigger] start.stack[f]).query as int]
                        == start.memo[start.stack[f].query as int] by {
                        assert(start.stack[f].query != id);
                    }
                }
                Ok(())
            },
        }
    }

    /// Popping the frame that was pushed restores the stack and changes
    /// nothing else.
    proof fn lemma_popped(
        start: State<KeyModel<P>, ValueModel<P>, NoteModel<P>>,
        pushed: State<KeyModel<P>, ValueModel<P>, NoteModel<P>>,
        ran: State<KeyModel<P>, ValueModel<P>, NoteModel<P>>,
        popped: State<KeyModel<P>, ValueModel<P>, NoteModel<P>>,
    )
        requires
            pushed.stack.drop_last() == start.stack,
            ran.stack.len() == pushed.stack.len(),
            ran.stack.len() > 0,
            ran.stack.drop_last() == pushed.stack.drop_last(),
            popped.stack =~= ran.stack.drop_last(),
            popped.inputs =~= ran.inputs,
            popped.memo =~= ran.memo,
            popped.keys == ran.keys,
            popped.events == ran.events,
            popped.revision == ran.revision,
            popped.depth_limit == ran.depth_limit,
            popped.read_limit == ran.read_limit,
        ensures
            popped == (State { stack: start.stack, ..ran }),
    {
    }

    /// Undoing the push of a frame after queries ran beneath it gives a
    /// state that the state before the push evolves to.
    proof fn lemma_back_ok(
        program: &P,
        start: State<KeyModel<P>, ValueModel<P>, NoteModel<P>>,
        pushed: State<KeyModel<P>, ValueModel<P>, NoteModel<P>>,
        ran: State<KeyModel<P>, ValueModel<P>, NoteModel<P>>,
        popped: State<KeyModel<P>, ValueModel<P>, NoteModel<P>>,
    )
        requires
            state_ok(program, start),
            state_ok(program, ran),
            pushed == (State { stack: pushed.stack, ..start }),
            pushed.stack.len() == start.stack.len() + 1,
            pushed.stack.drop_last() == start.stack,
            advances(pushed, ran),
            keeps_active(pushed, ran),
            popped == (State { stack: start.stack, ..ran }),
        ensures
            state_ok(program, popped),
            evolves(start, popped),
    {
        assert forall|f: int| 0 <= f < popped.stack.len() implies (#[trigger] popped.stack[f]).query
            < popped.keys.len() by {
            assert(start.stack[f].query < start.keys.len());
        }
        Self::lemma_same_memo_ok(program, ran, popped);
        assert forall|x: int| #[trigger] start.has_entry(x) implies crate::state::entry_step(
            start.revision,
            start.entry(x),
            popped.entry(x),
            popped.stale(start.entry(x)),
        ) by {
            assert(pushed.has_entry(x));
            assert(ran.has_entry(x));
            assert(ran.stale(pushed.entry(x)) == popped.stale(start.entry(x)));
        }
        assert forall|x: int| #[trigger] start.has_entry(x) implies popped.has_entry(x) by {
            assert(pushed.has_entry(x));
            assert(ran.has_entry(x));
        }
        assert forall|f: int| 0 <= f < start.stack.len() implies popped.memo[(
        #[trigger] start.stack[f]).query as int] == start.memo[start.stack[f].query as int] by {
            assert(pushed.stack[f] == start.stack[f]);
        }
    }

    /// Appends the notes, in order, to the bucket of the innermost running
    /// query.
    fn emit_all(&mut self, notes: &Vec<P::Note>)
        requires
            old(self).wf(),
            !old(self)@.idle(),
        ensures
            final(self).wf(),
            final(self).program == old(self).program,
            old(self)@.events.is_prefix_of(final(self)@.events),
            final(self)@ == (State {
                stack: old(self)@.stack.update(
                    old(self)@.stack.len() - 1,
                    FrameModel {
                        bucket: old(self)@.stack.last().bucket + models(notes@),
                        ..old(self)@.stack.last()
                    },
                ),
                events: final(self)@.events,
                ..old(self)@
            }),
    {
        let ghost start = self@;
        let ghost top = start.stack.len() - 1;
        let mut k: usize = 0;
        proof {
            assert(models(notes@).take(0) =~= Seq::empty());
            assert(start.stack.last().bucket + Seq::empty() =~= start.stack.last().bucket);
            assert(start.stack.update(top, start.stack.last()) =~= start.stack);
        }
        while k < notes.len()
            invariant
                k <= notes.len(),
                self.wf(),
                self.program == old(self).program,
                start == old(self)@,
                top == start.stack.len() - 1,
                top >= 0,
                start.events.is_prefix_of(self@.events),
                self@ == (State {
                    stack: start.stack.update(
                        top,
                        FrameModel {
                            bucket: start.stack.last().bucket + models(notes@).take(k as int),
                            ..start.stack.last()
                        },
                    ),
                    events: self@.events,
                    ..start
                }),
            decreases notes.len() - k,
        {
            let ghost before = self@;
            let outcome = self.accumulate(notes[k].duplicate());
            proof {
                assert(outcome is Ok);
                assert(models(notes@).take(k + 1) =~= models(notes@).take(k as int).push(
                    notes@[k as int].model(),
                ));
                assert(start.stack.last().bucket + models(notes@).take(k + 1) =~= (
                start.stack.last().bucket + models(notes@).take(k as int)).push(
                    notes@[k as int].model(),
                ));
                assert(self@.stack =~= start.stack.update(
                    top,
                    FrameModel {
                        bucket: start.stack.last().bucket + models(notes@).take(k + 1),
                        ..start.stack.last()
                    },
                ));
            }
            k += 1;
        }
        proof {
            assert(models(notes@).take(notes@.len() as int) =~= models(notes@));
        }
    }

    /// Runs the body of `id` from the beginning, answering each request from
    /// the inputs or by bringing the requested query up to date. Returns the
    /// body's value with the record of what it read; the notes it emitted
    /// are left in the frame on top of the stack.
    fn execute(
        &mut self,
        id: usize,
        fuel: usize,
        Ghost(chain): Ghost<Seq<Link<KeyModel<P>, ValueModel<P>>>>,
    ) -> (r: Result<
        (P::Value, Vec<Dep<usize>>, Ghost<Seq<ValueModel<P>>>),
        EngineError<P::Value>,
    >)
        requires
            old(self).wf(),
            id < old(self)@.keys.len(),
            !old(self)@.current(id as int),
            !old(self)@.idle(),
            old(self)@.stack.len() == chain.len() + 1,
            chain_fits(old(self)@, chain),
            chain_ok(
                &old(self).program,
                old(self)@.input_values(),
                chain,
                old(self)@.keys[id as int],
            ),
            old(self)@.stack.last() == (FrameModel::<NoteModel<P>> {
                query: id,
                bucket: Seq::empty(),
            }),
        ensures
            final(self).wf(),
            final(self).program == old(self).program,
            advances(old(self)@, final(self)@),
            keeps_active(old(self)@, final(self)@),
            final(self)@.stack.len() == old(self)@.stack.len(),
            final(self)@.stack.drop_last() == old(self)@.stack.drop_last(),
            owed(&final(self).program, old(self)@, old(self)@.keys[id as int], fuel, gave_up(r)),
            match r {
                Ok((value, deps, answers)) => {
                    &&& reads_current(final(self)@, deps@, answers@)
                    &&& asks_all(
                        &final(self).program,
                        old(self)@.keys[id as int],
                        answers@,
                        final(self)@.dep_keys(deps@),
                    )
                    &&& final(self).program.plan(old(self)@.keys[id as int], answers@) == Plan::<
                        KeyModel<P>,
                        ValueModel<P>,
                        NoteModel<P>,
                    >::Done(value.model(), final(self)@.stack.last().bucket)
                },
                Err(e) => failure_explained(
                    &final(self).program,
                    old(self)@.input_values(),
                    old(self)@.keys[id as int],
                    e,
                ),
            },
        decreases fuel, 0nat,
    {
        let ghost start = self@;
        let ghost key_model = start.keys[id as int];
        let key = self.keys.resolve(id).duplicate();
        self.events.push(Event::Started(id));
        let ghost begun = self@;
        proof {
            assert(begun.inputs =~= start.inputs);
            assert(begun.memo =~= start.memo);
            assert(begun.stack =~= start.stack);
            Self::lemma_same_memo_ok(&self.program, start, begun);
            lemma_models_empty::<P::Value>();
        }
        let mut answers: Vec<P::Value> = Vec::new();
        let mut deps: Vec<Dep<usize>> = Vec::new();
        while answers.len() < self.read_limit
            invariant
                self.wf(),
                self.program == old(self).program,
                start == old(self)@,
                state_ok(&self.program, start),
                state_ok(&self.program, begun),
                advances(start, begun),
                begun.stack == start.stack,
                begun.memo == start.memo,
                evolves(begun, self@),
                id < start.keys.len(),
                !start.idle(),
                start.stack.last() == (FrameModel::<NoteModel<P>> {
                    query: id,
                    bucket: Seq::empty(),
                }),
                key_model == start.keys[id as int],
                key.model() == key_model,
                start.stack.len() == chain.len() + 1,
                chain_fits(start, chain),
                chain_ok(&self.program, start.input_values(), chain, key_model),
                reads_current(self@, deps@, models(answers@)),
                asks_all(&self.program, key_model, models(answers@), self@.dep_keys(deps@)),
            decreases self.read_limit - answers.len(),
        {
            let ghost mid = self@;
            let ghost heard = models(answers@);
            let ghost read = deps@;
            let ghost inputs = start.input_values();
            let ghost limit = start.read_limit as nat;
            proof {
                lemma_faithful_from_state(&self.program, mid, key_model, read, heard);
                assert(mid.input_values() =~= inputs);
            }
            let step = self.program.step(&key, &answers);
            match step {
                Step::Read(cell) => {
                    if cell >= self.inputs.len() {
                        proof {
                            lemma_evolves_to_advances(&self.program, start, begun, mid);
                            lemma_unknown_cell(
                                &self.program,
                                inputs,
                                limit,
                                key_model,
                                heard,
                                mid.dep_keys(read),
                                cell,
                                fuel as nat,
                            );
                        }
                        return Err(EngineError::UnknownInput);
                    }
                    answers.push(self.inputs[cell].value.duplicate());
                    deps.push(Dep::Input(cell));
                    proof {
                        let now = models(answers@);
                        assert(now =~= heard.push(mid.inputs[cell as int].value));
                        Self::lemma_record_grows(
                            &self.program,
                            mid,
                            mid,
                            key_model,
                            read,
                            heard,
                            Dep::Input(cell),
                            mid.inputs[cell as int].value,
                        );
                    }
                },
                Step::Call(callee) => {
                    if fuel == 0 {
                        proof {
                            lemma_evolves_to_advances(&self.program, start, begun, mid);
                            lemma_callee_stuck(
                                &self.program,
                                inputs,
                                limit,
                                key_model,
                                heard,
                                mid.dep_keys(read),
                                callee.model(),
                                0,
                            );
                        }
                        return Err(EngineError::DepthExceeded);
                    }
                    let q = self.intern(&callee);
                    let ghost named = self@;
                    let ghost link = Link { key: key_model, heard, read: mid.dep_keys(read) };
                    let ghost longer = chain.push(link);
                    proof {
                        assert(evolves(mid, named));
                        assert(named.input_values() =~= inputs);
                        lemma_chain_push(&self.program, inputs, chain, link, callee.model());
                        assert forall|f: int| 0 <= f < longer.len() implies (#[trigger] longer[f]).key
                            == named.keys[named.stack[f].query as int] by {
                            assert(named.stack[f] == start.stack[f]);
                            assert(start.stack[f].query < start.keys.len());
                            assert(begun.keys == start.keys);
                            if f < chain.len() {
                                assert(longer[f] == chain[f]);
                            }
                        }
                    }
                    let outcome = self.update(q, fuel - 1, Ghost(longer));
                    let ghost after = self@;
                    proof {
                        lemma_evolves_trans(&self.program, mid, named, after);
                        lemma_evolves_trans(&self.program, begun, mid, after);
                        assert forall|i: int| 0 <= i < read.len() implies after.dep_known(
                            #[trigger] read[i],
                        ) && after.dep_current(read[i]) && after.dep_value(read[i]) == heard[i]
                            && after.dep_key(read[i]) == mid.dep_key(read[i]) by {
                            lemma_dep_kept(mid, after, read[i]);
                        }
                        assert(after.dep_keys(read) =~= mid.dep_keys(read));
                    }
                    match outcome {
                        Err(err) => {
                            proof {
                                lemma_evolves_to_advances(&self.program, start, begun, after);
                                if err is Fault {
                                    lemma_faithful_callee_fails(
                                        &self.program,
                                        inputs,
                                        key_model,
                                        heard,
                                        mid.dep_keys(read),
                                        callee.model(),
                                        err->Fault_0.model(),
                                    );
                                } else {
                                    lemma_callee_stuck(
                                        &self.program,
                                        inputs,
                                        limit,
                                        key_model,
                                        heard,
                                        mid.dep_keys(read),
                                        callee.model(),
                                        fuel as nat,
                                    );
                                }
                            }
                            return Err(err);
                        },
                        Ok(()) => {},
                    }
                    answers.push(self.value_of(q).duplicate());
                    deps.push(Dep::Query(q));
                    proof {
                        let now = models(answers@);
                        assert(now =~= heard.push(after.entry(q as int).value));
                        assert(after.keys[q as int] == named.keys[q as int]);
                        Self::lemma_record_grows(
                            &self.program,
                            mid,
                            after,
                            key_model,
                            read,
                            heard,
                            Dep::Query(q),
                            after.entry(q as int).value,
                        );
                    }
                },
                Step::Done(value, notes) => {
                    self.emit_all(&notes);
                    proof {
                        let last = self@;
                        let top = mid.stack.len() - 1;
                        lemma_evolves_to_advances(&self.program, start, begun, mid);
                        assert(mid.stack.last() == start.stack.last());
                        assert(Seq::<NoteModel<P>>::empty() + models(notes@) =~= models(notes@));
                        assert(last.stack.drop_last() =~= start.stack.drop_last());
                        assert(advances(mid, last));
                        lemma_advances_trans(&self.program, start, mid, last);
                        assert forall|dep: Dep<usize>|
                            last.dep_known(dep) == mid.dep_known(dep) && last.dep_current(dep)
                                == mid.dep_current(dep) && last.dep_value(dep) == mid.dep_value(
                                dep,
                            ) && last.dep_key(dep) == mid.dep_key(dep) by {}
                        assert(last.dep_keys(read) =~= mid.dep_keys(read));
                        assert(reads_current(last, read, heard));
                    }
                    return Ok((value, deps, Ghost(models(answers@))));
                },
                Step::Fail(fault) => {
                    proof {
                        lemma_evolves_to_advances(&self.program, start, begun, mid);
                        lemma_faithful_fail(
                            &self.program,
                            mid.input_values(),
                            key_model,
                            heard,
                            mid.dep_keys(read),
                        );
                    }
                    return Err(EngineError::Fault(fault));
                },
            }
        }
        proof {
            lemma_evolves_to_advances(&self.program, start, begun, self@);
            lemma_faithful_from_state(
                &self.program,
                self@,
                key_model,
                deps@,
                models(answers@),
            );
            assert(self@.input_values() =~= start.input_values());
            lemma_reads_exhausted(
                &self.program,
                start.input_values(),
                start.read_limit as nat,
                key_model,
                models(answers@),
                self@.dep_keys(deps@),
                fuel as nat,
            );
        }
        Err(EngineError::TooManyReads)
    }

    /// A record extended by one request and its answer is still a record of
    /// the same body.
    proof fn lemma_record_grows(
        program: &P,
        mid: State<KeyModel<P>, ValueModel<P>, NoteModel<P>>,
        after: State<KeyModel<P>, ValueModel<P>, NoteModel<P>>,
        key: KeyModel<P>,
        read: Seq<Dep<usize>>,
        heard: Seq<ValueModel<P>>,
        dep: Dep<usize>,
        answer: ValueModel<P>,
    )
        requires
            reads_current(after, read, heard),
            asks_all(program, key, heard, mid.dep_keys(read)),
            after.dep_keys(read) == mid.dep_keys(read),
            after.dep_known(dep),
            after.dep_current(dep),
            after.dep_value(dep) == answer,
            match program.plan(key, heard) {
                Plan::Read(cell) => dep == Dep::<usize>::Input(cell),
                Plan::Call(callee) => dep is Query && callee == after.keys[dep->Query_0 as int],
                _ => false,
            },
        ensures
            reads_current(after, read.push(dep), heard.push(answer)),
            asks_all(program, key, heard.push(answer), after.dep_keys(read.push(dep))),
    {
        let read2 = read.push(dep);
        let heard2 = heard.push(answer);
        let named2 = after.dep_keys(read2);
        assert(named2 =~= after.dep_keys(read).push(after.dep_key(dep)));
        assert forall|i: int| 0 <= i < named2.len() implies #[trigger] asks(
            program,
            key,
            heard2,
            named2,
            i,
        ) by {
            if i < read.len() {
                assert(asks(program, key, heard, mid.dep_keys(read), i));
                assert(heard2.take(i) =~= heard.take(i));
            } else {
                assert(heard2.take(i) =~= heard);
            }
        }
    }
}

/// What happened since `start`, when a step that only advanced the state was
/// followed by steps the caller saw as evolving.
proof fn lemma_evolves_to_advances<P: Program>(
    program: &P,
    start: State<KeyModel<P>, ValueModel<P>, NoteModel<P>>,
    begun: State<KeyModel<P>, ValueModel<P>, NoteModel<P>>,
    now: State<KeyModel<P>, ValueModel<P>, NoteModel<P>>,
)
    requires
        state_ok(program, start),
        state_ok(program, begun),
        advances(start, begun),
        begun.stack == start.stack,
        begun.memo == start.memo,
        evolves(begun, now),
    ensures
        advances(start, now),
        keeps_active(start, now),
        now.stack == start.stack,
{
    lemma_advances_trans(program, start, begun, now);
    assert forall|f: int| 0 <= f < start.stack.len() implies now.memo[(
    #[trigger] start.stack[f]).query as int] == start.memo[start.stack[f].query as int] by {
        assert(begun.stack[f] == start.stack[f]);
    }
}

impl<P: Program> Database<P> {
    /// The value of the query `key` on the current inputs. A cached value is
    /// returned if nothing the query read has changed since it was computed;
    /// otherwise the body runs again, and only the bodies of those queries
    /// beneath it run whose own reads changed.
    ///
    /// The result is the one that evaluating the query with nothing cached
    /// gives, whenever that evaluation stays within the database's limits. A
    /// fault of a query body comes back as `Fault`. `Cycle`, `DepthExceeded`,
    /// `TooManyReads` and `UnknownInput` come back only where the evaluation
    /// with nothing cached does not stay within the limits or does not end.
    /// The call is refused with `QueryInProgress` while a query is running.
    pub fn query(&mut self, key: &P::Key) -> (r: Result<P::Value, EngineError<P::Value>>)
        requires
            old(self).wf(),
        ensures
            final(self).wf(),
            final(self).program == old(self).program,
            evolves(old(self)@, final(self)@),
            !old(self)@.idle() ==> r is Err && final(self)@ == old(self)@,
            old(self)@.idle() ==> as_evaluated(&final(self).program, old(self)@, key.model(), r),
            match r {
                Ok(value) => {
                    let id = id_of(old(self)@.keys, key.model());
                    &&& final(self)@.keys[id] == key.model()
                    &&& final(self)@.keys.index_of(key.model()) == id
                    &&& final(self)@.holds(key.model())
                    &&& final(self)@.current(id)
                    &&& final(self)@.entry(id).value == value.model()
                    &&& yields(
                        &final(self).program,
                        final(self)@.input_values(),
                        key.model(),
                        value.model(),
                    )
                    &&& denotes(
                        &final(self).program,
                        final(self)@.input_values(),
                        key.model(),
                        Ok(final(self)@.node(id)),
                    )
                },
                Err(e) => refusal_explained(&final(self).program, old(self)@, key.model(), e),
            },
            old(self)@.idle() && old(self)@.holds(key.model()) ==> {
                let id = id_of(old(self)@.keys, key.model());
                &&& r is Ok
                &&& r->Ok_0.model() == old(self)@.entry(id).value
                &&& final(self)@ == (State {
                    events: old(self)@.events.push(Event::CacheHit(id as usize)),
                    ..old(self)@
                })
            },
    {
        let ghost start = self@;
        if self.stack.len() != 0 {
            return Err(EngineError::QueryInProgress);
        }
        let id = self.intern(key);
        let ghost named = self@;
        let fuel = self.depth_limit;
        proof {
            assert(evolves(start, named));
            if start.holds(key.model()) {
                assert(named == start);
            }
        }
        proof {
            assert(named.input_values() =~= start.input_values());
        }
        let outcome = self.update(id, fuel, Ghost(Seq::empty()));
        proof {
            lemma_evolves_trans(&self.program, start, named, self@);
            let reached = evaluation(
                &self.program,
                start.input_values(),
                key.model(),
                start.depth_limit as nat,
                start.read_limit as nat,
            );
            if reached is Some {
                lemma_evaluation_denotes(
                    &self.program,
                    start.input_values(),
                    key.model(),
                    start.depth_limit as nat,
                    start.read_limit as nat,
                );
                assert(self@.input_values() =~= start.input_values());
                if outcome is Ok {
                    assert(self@.has_entry(id as int));
                    assert(entry_ok(&self.program, self@, id as int));
                    lemma_denotes_unique(
                        &self.program,
                        start.input_values(),
                        key.model(),
                        reached->0,
                        Ok(self@.node(id as int)),
                    );
                } else {
                    lemma_denotes_unique(
                        &self.program,
                        start.input_values(),
                        key.model(),
                        reached->0,
                        Err(outcome->Err_0->Fault_0.model()),
                    );
                }
            }
        }
        match outcome {
            Err(err) => Err(err),
            Ok(()) => {
                proof {
                    assert(self@.has_entry(id as int));
                    assert(entry_ok(&self.program, self@, id as int));
                    lemma_index_unique(self@.keys, id as int, key.model());
                    assert(denotes(
                        &self.program,
                        self@.input_values(),
                        key.model(),
                        Ok(self@.node(id as int)),
                    ));
                }
                Ok(self.value_of(id).duplicate())
            },
        }
    }
}

} // verus!
