//! Why the engine's updates of the cache keep the database consistent.
use crate::program::{Dep, KeyModel, NoteModel, Plan, Program, ValueModel};
use crate::semantics::{
    answered, asks, denotes, faithful, lemma_faithful_done, yields,
};
use crate::state::{
    advances, entry_fresh, entry_ok, entry_step, state_ok, EntryModel, State,
};
use vstd::prelude::*;

verus! {

/// Every dependency in the record is known and current, and the recorded
/// answer is its present value.
pub open spec fn reads_current<K, V, N>(
    s: State<K, V, N>,
    deps: Seq<Dep<usize>>,
    answers: Seq<V>,
) -> bool {
    &&& deps.len() == answers.len()
    &&& forall|i: int|
        0 <= i < deps.len() ==> s.dep_known(#[trigger] deps[i]) && s.dep_current(deps[i])
            && s.dep_value(deps[i]) == answers[i]
}

/// Each request in the record is the one the body of `key` makes at that
/// point.
pub open spec fn asks_all<P: Program>(
    program: &P,
    key: KeyModel<P>,
    answers: Seq<ValueModel<P>>,
    deps: Seq<Dep<KeyModel<P>>>,
) -> bool {
    forall|i: int| 0 <= i < deps.len() ==> #[trigger] asks(program, key, answers, deps, i)
}

/// An entry that is current stays exactly as it is while queries run.
pub proof fn lemma_current_kept<K, V, N>(a: State<K, V, N>, b: State<K, V, N>, id: int)
    requires
        advances(a, b),
        a.current(id),
    ensures
        b.current(id),
        b.entry(id) == a.entry(id),
{
    assert(a.has_entry(id));
    assert(entry_step(a.revision, a.entry(id), b.entry(id), b.stale(a.entry(id))));
}

/// A dependency that is known and current stays so, with the same value,
/// while queries run.
pub proof fn lemma_dep_kept<K, V, N>(a: State<K, V, N>, b: State<K, V, N>, dep: Dep<usize>)
    requires
        advances(a, b),
        a.memo.len() == a.keys.len(),
        a.dep_known(dep),
        a.dep_current(dep),
    ensures
        b.dep_known(dep),
        b.dep_current(dep),
        b.dep_value(dep) == a.dep_value(dep),
        b.dep_changed_at(dep) == a.dep_changed_at(dep),
        b.dep_key(dep) == a.dep_key(dep),
{
    match dep {
        Dep::Input(cell) => {},
        Dep::Query(id) => {
            lemma_current_kept(a, b, id as int);
        },
    }
}

/// A record whose dependencies are all current is a faithful record.
pub proof fn lemma_faithful_from_state<P: Program>(
    program: &P,
    s: State<KeyModel<P>, ValueModel<P>, NoteModel<P>>,
    key: KeyModel<P>,
    deps: Seq<Dep<usize>>,
    answers: Seq<ValueModel<P>>,
)
    requires
        state_ok(program, s),
        reads_current(s, deps, answers),
        asks_all(program, key, answers, s.dep_keys(deps)),
    ensures
        faithful(program, s.input_values(), key, answers, s.dep_keys(deps)),
{
    let inputs = s.input_values();
    let named = s.dep_keys(deps);
    assert forall|at: int| 0 <= at < named.len() implies answered(
        program,
        inputs,
        #[trigger] named[at],
        answers[at],
    ) by {
        assert(s.dep_known(deps[at]));
        match deps[at] {
            Dep::Input(cell) => {},
            Dep::Query(id) => {
                assert(s.has_entry(id as int));
                assert(entry_ok(program, s, id as int));
                assert(entry_fresh(program, s, id as int));
                assert(denotes(program, inputs, s.keys[id as int], Ok(s.node(id as int))));
                assert(s.node(id as int).value == answers[at]);
                assert(yields(program, inputs, s.keys[id as int], answers[at]));
            },
        }
    }
}

/// The first `n` requests of a record are themselves a record.
pub proof fn lemma_asks_prefix<P: Program>(
    program: &P,
    key: KeyModel<P>,
    answers: Seq<ValueModel<P>>,
    deps: Seq<Dep<KeyModel<P>>>,
    n: int,
)
    requires
        answers.len() == deps.len(),
        0 <= n <= deps.len(),
        asks_all(program, key, answers, deps),
    ensures
        asks_all(program, key, answers.take(n), deps.take(n)),
{
    assert forall|i: int| 0 <= i < n implies #[trigger] asks(
        program,
        key,
        answers.take(n),
        deps.take(n),
        i,
    ) by {
        assert(asks(program, key, answers, deps, i));
        assert(answers.take(n).take(i) =~= answers.take(i));
    }
}

/// Confirming an entry whose dependencies are all current and unchanged
/// keeps the database consistent.
pub proof fn lemma_confirmed_ok<P: Program>(
    program: &P,
    s: State<KeyModel<P>, ValueModel<P>, NoteModel<P>>,
    id: int,
)
    requires
        state_ok(program, s),
        s.has_entry(id),
        !s.current(id),
        forall|i: int|
            0 <= i < s.entry(id).deps.len() ==> s.dep_current(#[trigger] s.entry(id).deps[i])
                && s.dep_changed_at(s.entry(id).deps[i]) <= s.entry(id).computed_at,
    ensures
        state_ok(
            program,
            State {
                memo: s.memo.update(
                    id,
                    Some(EntryModel { verified_at: s.revision, ..s.entry(id) }),
                ),
                ..s
            },
        ),
        advances(
            s,
            State {
                memo: s.memo.update(
                    id,
                    Some(EntryModel { verified_at: s.revision, ..s.entry(id) }),
                ),
                ..s
            },
        ),
{
    let e = s.entry(id);
    let e2 = EntryModel { verified_at: s.revision, ..e };
    let t = State { memo: s.memo.update(id, Some(e2)), ..s };
    assert(entry_ok(program, s, id));
    assert(t.input_values() =~= s.input_values());
    assert forall|x: int| #[trigger] s.has_entry(x) implies t.has_entry(x) && entry_step(
        s.revision,
        s.entry(x),
        t.entry(x),
        t.stale(s.entry(x)),
    ) by {}
    // what each dependency is worth is the same in both states
    assert forall|dep: Dep<usize>| #[trigger]
        s.dep_known(dep) implies t.dep_known(dep) && t.dep_value(dep) == s.dep_value(dep)
        && t.dep_changed_at(dep) == s.dep_changed_at(dep) && t.dep_key(dep) == s.dep_key(dep) && (
    s.dep_current(dep) ==> t.dep_current(dep)) by {}
    assert forall|x: int| #[trigger] t.has_entry(x) implies entry_ok(program, t, x) by {
        assert(s.has_entry(x));
        assert(entry_ok(program, s, x));
        let ex = s.entry(x);
        let ex2 = t.entry(x);
        assert(ex2.deps == ex.deps && ex2.answers == ex.answers);
        assert forall|i: int| 0 <= i < ex.deps.len() implies s.dep_known(#[trigger] ex.deps[i]) by {}
        assert(t.dep_keys(ex.deps) =~= s.dep_keys(ex.deps));
        assert(t.node(x) == s.node(x));
        if ex2.verified_at == t.revision {
            if x == id {
                lemma_faithful_from_state_unchanged(program, s, id);
            } else {
                assert(entry_fresh(program, s, x));
            }
            assert forall|i: int| 0 <= i < ex.deps.len() implies t.dep_current(
                #[trigger] ex2.deps[i],
            ) && t.dep_changed_at(ex2.deps[i]) <= ex2.computed_at by {
                assert(s.dep_known(ex.deps[i]));
                assert(s.dep_current(ex.deps[i]));
            }
        }
    }
}

/// An entry whose dependencies are all current and unchanged holds what its
/// query means.
pub proof fn lemma_faithful_from_state_unchanged<P: Program>(
    program: &P,
    s: State<KeyModel<P>, ValueModel<P>, NoteModel<P>>,
    id: int,
)
    requires
        state_ok(program, s),
        s.has_entry(id),
        forall|i: int|
            0 <= i < s.entry(id).deps.len() ==> s.dep_current(#[trigger] s.entry(id).deps[i])
                && s.dep_changed_at(s.entry(id).deps[i]) <= s.entry(id).computed_at,
    ensures
        denotes(program, s.input_values(), s.keys[id], Ok(s.node(id))),
{
    let e = s.entry(id);
    assert(entry_ok(program, s, id));
    assert(reads_current(s, e.deps, e.answers));
    lemma_faithful_from_state(program, s, s.keys[id], e.deps, e.answers);
    lemma_faithful_done(program, s.input_values(), s.keys[id], e.answers, s.dep_keys(e.deps));
}

/// Storing the result of an execution all of whose reads are current keeps
/// the database consistent.
pub proof fn lemma_stored_ok<P: Program>(
    program: &P,
    s: State<KeyModel<P>, ValueModel<P>, NoteModel<P>>,
    query: usize,
    e2: EntryModel<ValueModel<P>, NoteModel<P>>,
)
    requires
        state_ok(program, s),
        query < s.keys.len(),
        !s.current(query as int),
        s.has_entry(query as int) ==> s.stale(s.entry(query as int)),
        e2.computed_at == s.revision,
        e2.verified_at == s.revision,
        e2.changed_at == if s.has_entry(query as int) && e2.value == s.entry(
            query as int,
        ).value {
            s.entry(query as int).changed_at
        } else {
            s.revision
        },
        reads_current(s, e2.deps, e2.answers),
        asks_all(program, s.keys[query as int], e2.answers, s.dep_keys(e2.deps)),
        program.plan(s.keys[query as int], e2.answers) == Plan::<
            KeyModel<P>,
            ValueModel<P>,
            NoteModel<P>,
        >::Done(e2.value, e2.notes),
    ensures
        state_ok(program, State { memo: s.memo.update(query as int, Some(e2)), ..s }),
        advances(s, State { memo: s.memo.update(query as int, Some(e2)), ..s }),
{
    let id = query as int;
    let t = State { memo: s.memo.update(id, Some(e2)), ..s };
    assert(t.input_values() =~= s.input_values());
    if s.has_entry(id) {
        assert(entry_ok(program, s, id));
    }
    // a dependency that is known before is known after, and if it is not the
    // stored query itself it is worth the same
    assert forall|dep: Dep<usize>| #[trigger]
        s.dep_known(dep) implies t.dep_known(dep) && t.dep_key(dep) == s.dep_key(dep)
        && s.dep_changed_at(dep) <= t.dep_changed_at(dep) && (dep != Dep::<usize>::Query(
        query,
    ) ==> t.dep_value(dep) == s.dep_value(dep) && t.dep_changed_at(dep) == s.dep_changed_at(dep)
        && t.dep_current(dep) == s.dep_current(dep)) by {}
    assert forall|x: int| #[trigger] s.has_entry(x) implies t.has_entry(x) && entry_step(
        s.revision,
        s.entry(x),
        t.entry(x),
        t.stale(s.entry(x)),
    ) by {
        if x == id {
            let e = s.entry(id);
            let i = choose|i: int|
                0 <= i < e.deps.len() && s.dep_changed_since(#[trigger] e.deps[i], e.computed_at);
            assert(s.dep_known(e.deps[i]));
            assert(t.dep_changed_since(e.deps[i], e.computed_at));
            assert(t.stale(e));
        }
    }
    assert forall|x: int| #[trigger] t.has_entry(x) implies entry_ok(program, t, x) by {
        let ex = t.entry(x);
        if x == id {
            assert forall|i: int| 0 <= i < ex.deps.len() implies t.dep_known(
                #[trigger] ex.deps[i],
            ) && t.dep_current(ex.deps[i]) && t.dep_value(ex.deps[i]) == ex.answers[i]
                && t.dep_changed_at(ex.deps[i]) <= ex.computed_at by {
                let dep = ex.deps[i];
                assert(s.dep_known(dep) && s.dep_current(dep));
                match dep {
                    Dep::Input(cell) => {},
                    Dep::Query(q) => {
                        assert(q != id);
                        assert(entry_ok(program, s, q as int));
                    },
                }
            }
            assert(t.dep_keys(ex.deps) =~= s.dep_keys(ex.deps));
            lemma_faithful_from_state(program, s, s.keys[id], ex.deps, ex.answers);
            lemma_faithful_done(
                program,
                s.input_values(),
                s.keys[id],
                ex.answers,
                s.dep_keys(ex.deps),
            );
            assert(t.node(id) == crate::program::Node {
                value: e2.value,
                notes: e2.notes,
                deps: s.dep_keys(ex.deps),
            });
        } else {
            assert(s.has_entry(x));
            assert(entry_ok(program, s, x));
            assert(s.entry(x) == ex);
            assert forall|i: int| 0 <= i < ex.deps.len() implies s.dep_known(#[trigger] ex.deps[i]) by {}
            assert(t.dep_keys(ex.deps) =~= s.dep_keys(ex.deps));
            assert(t.node(x) == s.node(x));
            if ex.verified_at == s.revision {
                assert(entry_fresh(program, s, x));
                assert forall|i: int| 0 <= i < ex.deps.len() implies ex.deps[i] != Dep::<
                    usize,
                >::Query(query) by {
                    assert(s.dep_current(ex.deps[i]));
                }
            }
            assert forall|i: int|
                0 <= i < ex.deps.len() && t.dep_changed_at(#[trigger] ex.deps[i])
                    <= ex.computed_at implies t.dep_value(ex.deps[i]) == ex.answers[i] by {
                let dep = ex.deps[i];
                assert(s.dep_known(dep));
                if dep == Dep::<usize>::Query(query) {
                    assert(s.has_entry(id));
                    if e2.value == s.entry(id).value {
                    } else {
                        assert(ex.computed_at == s.revision);
                        assert(entry_fresh(program, s, x));
                        assert(s.dep_current(dep));
                    }
                }
            }
        }
    }
}

} // verus!
