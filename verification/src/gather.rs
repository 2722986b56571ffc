//! Retrieving accumulated notes from the cached dependency graph.
use crate::database::{Database, EngineError};
use crate::datum::{models, Datum};
use crate::engine::{gave_up, owed, refusal_explained};
use crate::program::{Dep, KeyModel, NoteModel, Program, ValueModel};
use crate::state::{evolves, State};
use vstd::prelude::*;

verus! {

/// How many positions are not yet marked.
pub open spec fn unmarked(marks: Seq<bool>) -> nat
    decreases marks.len(),
{
    if marks.len() == 0 {
        0
    } else {
        unmarked(marks.drop_last()) + if marks.last() {
            0nat
        } else {
            1nat
        }
    }
}

pub proof fn lemma_mark(marks: Seq<bool>, at: int)
    requires
        0 <= at < marks.len(),
        !marks[at],
    ensures
        unmarked(marks.update(at, true)) + 1 == unmarked(marks),
    decreases marks.len(),
{
    if at == marks.len() - 1 {
        assert(marks.update(at, true).drop_last() =~= marks.drop_last());
    } else {
        lemma_mark(marks.drop_last(), at);
        assert(marks.update(at, true).drop_last() =~= marks.drop_last().update(at, true));
    }
}

/// The queries among the dependencies, last first: pushed onto a stack in
/// this order, the first dependency comes off first.
pub open spec fn pending(deps: Seq<Dep<usize>>) -> Seq<usize>
    decreases deps.len(),
{
    if deps.len() == 0 {
        Seq::empty()
    } else {
        let first = match deps.last() {
            Dep::Query(id) => seq![id],
            Dep::Input(cell) => Seq::empty(),
        };
        first + pending(deps.drop_last())
    }
}

/// The notes found by walking the cached dependency graph depth first from
/// the stack `work` (top last), visiting each query once: a query's own
/// notes come before those of the queries it called, and those in the
/// order of the calls.
pub open spec fn gather<K, V, N>(s: State<K, V, N>, work: Seq<usize>, marks: Seq<bool>) -> Seq<N>
    decreases unmarked(marks), work.len(),
    via gather_decreases::<K, V, N>
{
    if work.len() == 0 {
        Seq::empty()
    } else {
        let id = work.last();
        let rest = work.drop_last();
        if id < marks.len() && !marks[id as int] && s.has_entry(id as int) {
            s.entry(id as int).notes + gather(
                s,
                rest + pending(s.entry(id as int).deps),
                marks.update(id as int, true),
            )
        } else {
            gather(s, rest, marks)
        }
    }
}

#[via_fn]
proof fn gather_decreases<K, V, N>(s: State<K, V, N>, work: Seq<usize>, marks: Seq<bool>) {
    if work.len() != 0 {
        let id = work.last();
        if id < marks.len() && !marks[id as int] && s.has_entry(id as int) {
            lemma_mark(marks, id as int);
        }
    }
}

/// The test for notes of one kind.
pub open spec fn is_kind<P: Program>(program: &P, kind: u64) -> spec_fn(NoteModel<P>) -> bool {
    |note: NoteModel<P>| program.kind(note) == kind
}

/// The notes of `kind` accumulated by the query `key` and by every query it
/// called, directly or through others; none if the query has never run.
pub open spec fn collected<P: Program>(
    program: &P,
    s: State<KeyModel<P>, ValueModel<P>, NoteModel<P>>,
    key: KeyModel<P>,
    kind: u64,
) -> Seq<NoteModel<P>> {
    if s.keys.contains(key) {
        gather(
            s,
            seq![s.keys.index_of(key) as usize],
            Seq::new(s.memo.len(), |i: int| false),
        ).filter(is_kind(program, kind))
    } else {
        Seq::empty()
    }
}

impl<P: Program> Database<P> {
    /// The notes of `kind` in the cached buckets of `root` and of every query
    /// it called, directly or through others, in depth-first order. Nothing
    /// is run or checked: the buckets are read as they are.
    pub fn collect_accumulated(&self, root: &P::Key, kind: u64) -> (notes: Vec<P::Note>)
        requires
            self.wf(),
        ensures
            models(notes@) == collected(&self.program, self@, root.model(), kind),
    {
        let mut notes: Vec<P::Note> = Vec::new();
        let Some(start) = self.keys.lookup(root) else {
            proof {
                assert(models(notes@) =~= Seq::empty());
            }
            return notes;
        };
        let mut marks: Vec<bool> = Vec::new();
        let mut i: usize = 0;
        while i < self.memo.len()
            invariant
                i <= self.memo.len(),
                marks@ =~= Seq::new(i as nat, |i: int| false),
            decreases self.memo.len() - i,
        {
            marks.push(false);
            i += 1;
        }
        let mut work: Vec<usize> = Vec::new();
        work.push(start);
        let ghost all = gather(self@, seq![start], Seq::new(self@.memo.len(), |i: int| false));
        let ghost test = is_kind(&self.program, kind);
        proof {
            assert(work@ =~= seq![start]);
            assert(models(notes@) =~= Seq::empty());
            reveal(Seq::filter);
            assert(Seq::<NoteModel<P>>::empty().filter(test) =~= Seq::empty());
            assert(Seq::<NoteModel<P>>::empty() + all =~= all);
        }
        let ghost mut seen: Seq<NoteModel<P>> = Seq::empty();
        while work.len() > 0
            invariant
                marks@.len() == self@.memo.len(),
                test == is_kind(&self.program, kind),
                seen + gather(self@, work@, marks@) == all,
                models(notes@) == seen.filter(test),
            decreases unmarked(marks@), work.len(),
        {
            let ghost work0 = work@;
            let ghost marks0 = marks@;
            let id = work[work.len() - 1];
            work.pop();
            assert(work@ =~= work0.drop_last());
            let fresh = id < marks.len() && !marks[id];
            if fresh {
                match &self.memo[id] {
                    Some(entry) => {
                        marks.set(id, true);
                        proof {
                            lemma_mark(marks0, id as int);
                        }
                        let ghost seen0 = seen;
                        let mut k: usize = 0;
                        while k < entry.notes.len()
                            invariant
                                k <= entry.notes.len(),
                                test == is_kind(&self.program, kind),
                                seen == seen0 + models(entry.notes@).take(k as int),
                                models(notes@) == seen.filter(test),
                            decreases entry.notes.len() - k,
                        {
                            let ghost before = seen;
                            let ghost kept = models(notes@);
                            proof {
                                seen = seen.push(entry.notes@[k as int].model());
                                reveal(Seq::filter);
                                assert(seen.drop_last() =~= before);
                                assert(models(entry.notes@).take(k + 1) =~= models(
                                    entry.notes@,
                                ).take(k as int).push(entry.notes@[k as int].model()));
                                assert(seen =~= seen0 + models(entry.notes@).take(k + 1));
                            }
                            if self.program.kind_of(&entry.notes[k]) == kind {
                                notes.push(entry.notes[k].duplicate());
                                proof {
                                    assert(models(notes@) =~= kept.push(
                                        entry.notes@[k as int].model(),
                                    ));
                                }
                            }
                            k += 1;
                        }
                        let ghost rest = work@;
                        let mut d: usize = entry.deps.len();
                        proof {
                            assert(models(entry.notes@).take(entry.notes@.len() as int) =~= models(
                                entry.notes@,
                            ));
                            assert(entry.deps@.take(d as int) =~= entry.deps@);
                        }
                        while d > 0
                            invariant
                                d <= entry.deps.len(),
                                work@ + pending(entry.deps@.take(d as int)) == rest + pending(
                                    entry.deps@,
                                ),
                            decreases d,
                        {
                            d -= 1;
                            let ghost grown = work@;
                            proof {
                                assert(entry.deps@.take(d + 1).drop_last() =~= entry.deps@.take(
                                    d as int,
                                ));
                                assert(entry.deps@.take(d + 1).last() == entry.deps@[d as int]);
                            }
                            match entry.deps[d] {
                                Dep::Query(callee) => {
                                    work.push(callee);
                                    proof {
                                        assert(work@ + pending(entry.deps@.take(d as int)) =~= grown
                                            + pending(entry.deps@.take(d + 1)));
                                    }
                                },
                                Dep::Input(cell) => {
                                    proof {
                                        assert(work@ + pending(entry.deps@.take(d as int)) =~= grown
                                            + pending(entry.deps@.take(d + 1)));
                                    }
                                },
                            }
                        }
                        proof {
                            assert(entry.deps@.take(0) =~= Seq::empty());
                            assert(work@ =~= rest + pending(entry.deps@));
                            assert(self@.has_entry(id as int));
                            assert(self@.entry(id as int).notes == models(entry.notes@));
                            assert(self@.entry(id as int).deps == entry.deps@);
                            assert(seen + gather(self@, work@, marks@) =~= seen0 + gather(
                                self@,
                                work0,
                                marks0,
                            ));
                        }
                    },
                    None => {
                        assert(!self@.has_entry(id as int));
                    },
                }
            }
        }
        proof {
            assert(seen + Seq::empty() =~= seen);
        }
        notes
    }

    /// Runs the query `root` and returns the notes of `kind` that it and the
    /// queries beneath it accumulated.
    pub fn accumulated(&mut self, root: &P::Key, kind: u64) -> (r: Result<
        Vec<P::Note>,
        EngineError<P::Value>,
    >)
        requires
            old(self).wf(),
        ensures
            final(self).wf(),
            final(self).program == old(self).program,
            evolves(old(self)@, final(self)@),
            !old(self)@.idle() ==> r is Err && final(self)@ == old(self)@,
            old(self)@.idle() ==> owed(
                &final(self).program,
                old(self)@,
                root.model(),
                old(self)@.depth_limit,
                gave_up(r),
            ),
            match r {
                Ok(notes) => final(self)@.holds(root.model()) && models(notes@) == collected(
                    &final(self).program,
                    final(self)@,
                    root.model(),
                    kind,
                ),
                Err(e) => refusal_explained(
                &final(self).program,
                old(self)@,
                    root.model(),
                    e,
                ),
            },
    {
        match self.query(root) {
            Err(err) => Err(err),
            Ok(value) => {
                Ok(self.collect_accumulated(root, kind))
            },
        }
    }
}

} // verus!
