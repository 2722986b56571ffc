//! What holds of every consistent database, whatever led to it.
use crate::gather::{collected, gather, lemma_mark, pending, unmarked};
use crate::program::{Dep, KeyModel, NoteModel, Program, ValueModel};
use crate::semantics::{asks, lemma_denotes_unique};
use crate::state::{
    advances, entry_fresh, entry_ok, entry_step, later, lemma_later_trans, state_ok, State,
};
use vstd::prelude::*;

verus! {

/// Early cutoff. While queries run at one revision, an entry is not computed
/// again if each thing it read was unchanged when the revision began and is
/// worth the same afterwards: an input that was not written, or a query whose
/// value, computed again or not, came out equal.
pub proof fn lemma_early_cutoff<P: Program>(
    program: &P,
    before: State<KeyModel<P>, ValueModel<P>, NoteModel<P>>,
    after: State<KeyModel<P>, ValueModel<P>, NoteModel<P>>,
    id: int,
)
    requires
        state_ok(program, before),
        advances(before, after),
        before.has_entry(id),
        forall|i: int|
            0 <= i < before.entry(id).deps.len() ==> before.dep_changed_at(
                #[trigger] before.entry(id).deps[i],
            ) <= before.entry(id).computed_at && after.dep_value(before.entry(id).deps[i])
                == before.dep_value(before.entry(id).deps[i]),
    ensures
        after.has_entry(id),
        after.entry(id).computed_at == before.entry(id).computed_at,
        after.entry(id).changed_at == before.entry(id).changed_at,
        after.entry(id).value == before.entry(id).value,
        after.entry(id).notes == before.entry(id).notes,
        after.entry(id).deps == before.entry(id).deps,
{
    let e = before.entry(id);
    assert(entry_ok(program, before, id));
    assert(entry_step(before.revision, e, after.entry(id), after.stale(e)));
    if after.stale(e) {
        let i = choose|i: int|
            0 <= i < e.deps.len() && after.dep_changed_since(#[trigger] e.deps[i], e.computed_at);
        assert(before.dep_known(e.deps[i]));
        match e.deps[i] {
            Dep::Input(cell) => {},
            Dep::Query(q) => {
                assert(before.has_entry(q as int));
                assert(entry_step(
                    before.revision,
                    before.entry(q as int),
                    after.entry(q as int),
                    after.stale(before.entry(q as int)),
                ));
            },
        }
        assert(false);
    }
}

/// A recomputed entry whose value came out equal keeps the revision at which
/// its value last changed.
pub proof fn lemma_equal_value_keeps_changed_at<P: Program>(
    program: &P,
    before: State<KeyModel<P>, ValueModel<P>, NoteModel<P>>,
    after: State<KeyModel<P>, ValueModel<P>, NoteModel<P>>,
    id: int,
)
    requires
        advances(before, after),
        before.has_entry(id),
        after.entry(id).value == before.entry(id).value,
    ensures
        after.entry(id).changed_at == before.entry(id).changed_at,
{
    assert(entry_step(
        before.revision,
        before.entry(id),
        after.entry(id),
        after.stale(before.entry(id)),
    ));
}

proof fn lemma_same_reads<P: Program>(
    program: &P,
    before: State<KeyModel<P>, ValueModel<P>, NoteModel<P>>,
    after: State<KeyModel<P>, ValueModel<P>, NoteModel<P>>,
    id: int,
    n: int,
)
    requires
        state_ok(program, before),
        state_ok(program, after),
        later(before, after),
        before.has_entry(id),
        after.current(id),
        forall|i: int|
            0 <= i < before.entry(id).deps.len() ==> after.dep_value(
                #[trigger] before.entry(id).deps[i],
            ) == before.entry(id).answers[i],
        0 <= n <= before.entry(id).deps.len(),
        n <= after.entry(id).deps.len(),
    ensures
        after.entry(id).deps.take(n) == before.entry(id).deps.take(n),
        after.entry(id).answers.take(n) == before.entry(id).answers.take(n),
    decreases n,
{
    let e = before.entry(id);
    let e2 = after.entry(id);
    assert(entry_ok(program, before, id));
    assert(entry_ok(program, after, id));
    assert(entry_fresh(program, after, id));
    if n == 0 {
        assert(e2.deps.take(0) =~= e.deps.take(0));
        assert(e2.answers.take(0) =~= e.answers.take(0));
    } else {
        let j = n - 1;
        lemma_same_reads(program, before, after, id, j);
        assert(asks(program, before.keys[id], e.answers, before.dep_keys(e.deps), j));
        assert(asks(program, after.keys[id], e2.answers, after.dep_keys(e2.deps), j));
        assert(after.keys[id] == before.keys[id]);
        assert(before.dep_known(e.deps[j]));
        assert(after.dep_known(e2.deps[j]));
        assert(after.dep_key(e2.deps[j]) == before.dep_key(e.deps[j]));
        match e.deps[j] {
            Dep::Input(cell) => {},
            Dep::Query(q) => {
                let q2 = e2.deps[j]->Query_0;
                assert(before.has_entry(q as int));
                assert(after.has_entry(q2 as int));
                assert(after.keys[q as int] == before.keys[q as int]);
                if q2 < q {
                    assert(after.keys[q2 as int] != after.keys[q as int]);
                } else if q < q2 {
                    assert(after.keys[q as int] != after.keys[q2 as int]);
                }
            },
        }
        assert(e2.deps[j] == e.deps[j]);
        assert(after.dep_changed_at(e2.deps[j]) <= e2.computed_at);
        assert(e2.answers[j] == e.answers[j]);
        assert(e2.deps.take(n) =~= e2.deps.take(j).push(e2.deps[j]));
        assert(e.deps.take(n) =~= e.deps.take(j).push(e.deps[j]));
        assert(e2.answers.take(n) =~= e2.answers.take(j).push(e2.answers[j]));
        assert(e.answers.take(n) =~= e.answers.take(j).push(e.answers[j]));
    }
}

/// Dependency soundness. Take a database before some inputs were written,
/// after they were written, and after queries ran again. If the value cached
/// for a query then differs from the one cached before, something that the
/// earlier execution read is now worth something else than it was then.
pub proof fn lemma_changed_value_has_changed_dependency<P: Program>(
    program: &P,
    before: State<KeyModel<P>, ValueModel<P>, NoteModel<P>>,
    written: State<KeyModel<P>, ValueModel<P>, NoteModel<P>>,
    after: State<KeyModel<P>, ValueModel<P>, NoteModel<P>>,
    id: int,
)
    requires
        state_ok(program, before),
        state_ok(program, after),
        later(before, written),
        later(written, after),
        before.has_entry(id),
        after.current(id),
        after.entry(id).value != before.entry(id).value,
    ensures
        exists|i: int|
            0 <= i < before.entry(id).deps.len() && after.dep_value(
                #[trigger] before.entry(id).deps[i],
            ) != before.entry(id).answers[i],
{
    let e = before.entry(id);
    let e2 = after.entry(id);
    lemma_later_trans(before, written, after);
    if forall|i: int|
        0 <= i < e.deps.len() ==> after.dep_value(#[trigger] e.deps[i]) == e.answers[i] {
        assert(entry_ok(program, before, id));
        assert(entry_ok(program, after, id));
        assert(after.keys[id] == before.keys[id]);
        let key = before.keys[id];
        let n = e.deps.len() as int;
        let n2 = e2.deps.len() as int;
        if n2 > n {
            lemma_same_reads(program, before, after, id, n);
            assert(e.answers.take(n) =~= e.answers);
            assert(asks(program, key, e2.answers, after.dep_keys(e2.deps), n));
            assert(false);
        } else if n2 < n {
            lemma_same_reads(program, before, after, id, n2);
            assert(e2.answers.take(n2) =~= e2.answers);
            assert(asks(program, key, e.answers, before.dep_keys(e.deps), n2));
            assert(false);
        } else {
            lemma_same_reads(program, before, after, id, n);
            assert(e.answers.take(n) =~= e.answers);
            assert(e2.answers.take(n) =~= e2.answers);
            assert(false);
        }
    }
}

/// The two identifiers name the same query, current in both databases.
pub open spec fn twin<K, V, N>(a: State<K, V, N>, b: State<K, V, N>, x: int, y: int) -> bool {
    a.current(x) && b.current(y) && a.keys[x] == b.keys[y]
}

pub open spec fn twins<K, V, N>(
    a: State<K, V, N>,
    b: State<K, V, N>,
    wa: Seq<usize>,
    wb: Seq<usize>,
) -> bool {
    &&& wa.len() == wb.len()
    &&& forall|i: int| 0 <= i < wa.len() ==> twin(a, b, #[trigger] wa[i] as int, wb[i] as int)
}

pub open spec fn marks_agree<K, V, N>(
    a: State<K, V, N>,
    b: State<K, V, N>,
    ma: Seq<bool>,
    mb: Seq<bool>,
) -> bool {
    &&& ma.len() == a.memo.len()
    &&& mb.len() == b.memo.len()
    &&& forall|x: int, y: int| #[trigger] twin(a, b, x, y) ==> ma[x] == mb[y]
}

proof fn lemma_pending_twins<P: Program>(
    program: &P,
    a: State<KeyModel<P>, ValueModel<P>, NoteModel<P>>,
    b: State<KeyModel<P>, ValueModel<P>, NoteModel<P>>,
    da: Seq<Dep<usize>>,
    db: Seq<Dep<usize>>,
)
    requires
        a.dep_keys(da) == b.dep_keys(db),
        forall|i: int| 0 <= i < da.len() ==> a.dep_known(#[trigger] da[i]) && a.dep_current(da[i]),
        forall|i: int| 0 <= i < db.len() ==> b.dep_known(#[trigger] db[i]) && b.dep_current(db[i]),
    ensures
        twins(a, b, pending(da), pending(db)),
    decreases da.len(),
{
    assert(da.len() == a.dep_keys(da).len());
    assert(db.len() == b.dep_keys(db).len());
    if da.len() != 0 {
        let la = da.last();
        let lb = db.last();
        assert(a.dep_keys(da)[da.len() - 1] == a.dep_key(la));
        assert(b.dep_keys(db)[db.len() - 1] == b.dep_key(lb));
        assert(a.dep_keys(da.drop_last()) =~= a.dep_keys(da).drop_last());
        assert(b.dep_keys(db.drop_last()) =~= b.dep_keys(db).drop_last());
        lemma_pending_twins(program, a, b, da.drop_last(), db.drop_last());
        assert(a.dep_known(la) && a.dep_current(la));
        assert(b.dep_known(lb) && b.dep_current(lb));
    }
}

proof fn lemma_gather_same<P: Program>(
    program: &P,
    a: State<KeyModel<P>, ValueModel<P>, NoteModel<P>>,
    b: State<KeyModel<P>, ValueModel<P>, NoteModel<P>>,
    wa: Seq<usize>,
    wb: Seq<usize>,
    ma: Seq<bool>,
    mb: Seq<bool>,
)
    requires
        state_ok(program, a),
        state_ok(program, b),
        a.input_values() == b.input_values(),
        twins(a, b, wa, wb),
        marks_agree(a, b, ma, mb),
    ensures
        gather(a, wa, ma) == gather(b, wb, mb),
    decreases unmarked(ma), wa.len(),
{
    if wa.len() != 0 {
        let x = wa.last();
        let y = wb.last();
        let ra = wa.drop_last();
        let rb = wb.drop_last();
        assert(twin(a, b, x as int, y as int));
        assert(twins(a, b, ra, rb));
        if !ma[x as int] {
            assert(entry_ok(program, a, x as int));
            assert(entry_ok(program, b, y as int));
            lemma_denotes_unique(
                program,
                a.input_values(),
                a.keys[x as int],
                Ok(a.node(x as int)),
                Ok(b.node(y as int)),
            );
            let ea = a.entry(x as int);
            let eb = b.entry(y as int);
            assert forall|i: int| 0 <= i < ea.deps.len() implies a.dep_known(#[trigger] ea.deps[i])
                && a.dep_current(ea.deps[i]) by {}
            assert forall|i: int| 0 <= i < eb.deps.len() implies b.dep_known(#[trigger] eb.deps[i])
                && b.dep_current(eb.deps[i]) by {}
            lemma_pending_twins(program, a, b, ea.deps, eb.deps);
            let ma2 = ma.update(x as int, true);
            let mb2 = mb.update(y as int, true);
            assert forall|p: int, q: int| #[trigger] twin(a, b, p, q) implies ma2[p] == mb2[q] by {
                assert(ma[p] == mb[q]);
                if p == x && q != y {
                    if q < y {
                        assert(b.keys[q] != b.keys[y as int]);
                    } else {
                        assert(b.keys[y as int] != b.keys[q]);
                    }
                }
                if q == y && p != x {
                    if p < x {
                        assert(a.keys[p] != a.keys[x as int]);
                    } else {
                        assert(a.keys[x as int] != a.keys[p]);
                    }
                }
            }
            lemma_mark(ma, x as int);
            lemma_gather_same(
                program,
                a,
                b,
                ra + pending(ea.deps),
                rb + pending(eb.deps),
                ma2,
                mb2,
            );
        } else {
            lemma_gather_same(program, a, b, ra, rb, ma, mb);
        }
    }
}

/// Re-execution equivalence. Two consistent databases with the same inputs
/// that both hold a current entry for `key` agree on its value and on the
/// notes accumulated beneath it, in order. One of them may have been
/// through any sequence of writes and queries and the other may have
/// computed the query once from nothing.
pub proof fn lemma_incremental_equals_from_scratch<P: Program>(
    program: &P,
    a: State<KeyModel<P>, ValueModel<P>, NoteModel<P>>,
    b: State<KeyModel<P>, ValueModel<P>, NoteModel<P>>,
    key: KeyModel<P>,
    kind: u64,
)
    requires
        state_ok(program, a),
        state_ok(program, b),
        a.input_values() == b.input_values(),
        a.holds(key),
        b.holds(key),
    ensures
        a.entry(a.keys.index_of(key)).value == b.entry(b.keys.index_of(key)).value,
        collected(program, a, key, kind) == collected(program, b, key, kind),
{
    let x = a.keys.index_of(key);
    let y = b.keys.index_of(key);
    assert(twin(a, b, x, y));
    assert(entry_ok(program, a, x));
    assert(entry_ok(program, b, y));
    lemma_denotes_unique(program, a.input_values(), key, Ok(a.node(x)), Ok(b.node(y)));
    let ma = Seq::new(a.memo.len(), |i: int| false);
    let mb = Seq::new(b.memo.len(), |i: int| false);
    lemma_gather_same(program, a, b, seq![x as usize], seq![y as usize], ma, mb);
}

} // verus!
