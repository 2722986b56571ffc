//! What compiling a project finds, stated without the engine.
use crate::compiler::{
    plan_of, Compiler, DiagnosticView, File, Project, QueryView, ValueView, DIAGNOSTIC,
};
use crate::gather::{collected, gather, is_kind, lemma_mark, pending, unmarked};
use crate::interner::lemma_index_unique;
use crate::module::ModuleView;
use crate::program::{Dep, Program};
use crate::queries::{
    compile_reads, findings, lemma_compile_meaning, lemma_compiled_files_checked, root_of,
};
use crate::semantics::asks;
use crate::state::{entry_fresh, entry_ok, state_ok, State};
use vstd::prelude::*;

verus! {

type Held = State<QueryView, ValueView, DiagnosticView>;

/// The findings about the files from position `from` on, in order; a file
/// that occurred at an earlier position is passed over.
pub open spec fn findings_from(
    inputs: Seq<ValueView>,
    root: ModuleView,
    files: Seq<File>,
    from: int,
) -> Seq<DiagnosticView>
    decreases files.len() - from,
{
    if from < 0 || from >= files.len() {
        Seq::empty()
    } else {
        let here = if files.take(from).contains(files[from]) {
            Seq::empty()
        } else {
            findings(inputs, root, files[from])
        };
        here + findings_from(inputs, root, files, from + 1)
    }
}

/// What compiling a project finds: for each of its files in order, once,
/// the imports that do not resolve from the project's module.
pub open spec fn project_findings(inputs: Seq<ValueView>, project: Project) -> Seq<
    DiagnosticView,
> {
    findings_from(
        inputs,
        root_of(inputs, project),
        inputs[project.files as int]->Files_0,
        0,
    )
}

/// The queries that note nothing and call only queries that note nothing.
pub open spec fn silent(key: QueryView) -> bool {
    key is Parse || key is Resolve || key is FileModule || key is ProjectModule
}

pub open spec fn silent_at(s: Held, id: int) -> bool {
    s.current(id) && silent(s.keys[id])
}

/// Every query among the dependencies is silent.
pub open spec fn calls_silent(s: Held, deps: Seq<Dep<usize>>) -> bool {
    forall|i: int|
        0 <= i < deps.len() && (#[trigger] deps[i]) is Query ==> silent_at(
            s,
            deps[i]->Query_0 as int,
        )
}

/// A current entry of a silent query, or of a check, called only silent
/// queries; that of a silent query holds no notes.
proof fn lemma_calls_silent(s: Held, id: int)
    requires
        state_ok(&Compiler, s),
        s.current(id),
        silent(s.keys[id]) || s.keys[id] is CheckFile,
    ensures
        calls_silent(s, s.entry(id).deps),
        silent(s.keys[id]) ==> s.entry(id).notes.len() == 0,
{
    let e = s.entry(id);
    let key = s.keys[id];
    assert(entry_ok(&Compiler, s, id));
    assert(entry_fresh(&Compiler, s, id));
    assert(Compiler.plan(key, e.answers) == plan_of(key, e.answers));
    assert forall|i: int| 0 <= i < e.deps.len() && (#[trigger] e.deps[i]) is Query implies silent_at(
        s,
        e.deps[i]->Query_0 as int,
    ) by {
        assert(asks(&Compiler, key, e.answers, s.dep_keys(e.deps), i));
        assert(Compiler.plan(key, e.answers.take(i)) == plan_of(key, e.answers.take(i)));
        assert(s.dep_keys(e.deps)[i] == s.dep_key(e.deps[i]));
        assert(s.dep_current(e.deps[i]));
    }
}

proof fn lemma_pending_silent(s: Held, deps: Seq<Dep<usize>>)
    requires
        calls_silent(s, deps),
    ensures
        forall|j: int| 0 <= j < pending(deps).len() ==> silent_at(s, #[trigger] pending(deps)[j] as int),
    decreases deps.len(),
{
    if deps.len() != 0 {
        let rest = deps.drop_last();
        assert forall|i: int| 0 <= i < rest.len() && (#[trigger] rest[i]) is Query implies silent_at(
            s,
            rest[i]->Query_0 as int,
        ) by {
            assert(rest[i] == deps[i]);
        }
        lemma_pending_silent(s, rest);
        let last = deps[deps.len() - 1];
        assert(last == deps.last());
        let first = match last {
            Dep::Query(id) => seq![id],
            Dep::Input(cell) => Seq::empty(),
        };
        assert(pending(deps) == first + pending(rest));
        assert forall|j: int| 0 <= j < pending(deps).len() implies silent_at(
            s,
            #[trigger] pending(deps)[j] as int,
        ) by {
            if j < first.len() {
                assert(last is Query);
                assert(pending(deps)[j] == last->Query_0);
            } else {
                assert(pending(deps)[j] == pending(rest)[j - first.len()]);
            }
        }
    }
}

/// Silent queries on top of the stack add nothing to what is gathered, and
/// mark only silent queries.
proof fn lemma_gather_silent(s: Held, work: Seq<usize>, extra: Seq<usize>, marks: Seq<bool>) -> (after:
    Seq<bool>)
    requires
        state_ok(&Compiler, s),
        marks.len() == s.memo.len(),
        forall|j: int| 0 <= j < extra.len() ==> silent_at(s, #[trigger] extra[j] as int),
    ensures
        gather(s, work + extra, marks) == gather(s, work, after),
        after.len() == marks.len(),
        forall|id: int| 0 <= id < marks.len() && !silent_at(s, id) ==> after[id] == marks[id],
    decreases unmarked(marks), extra.len(),
{
    if extra.len() == 0 {
        assert(work + extra =~= work);
        marks
    } else {
        let y = extra.last();
        let rest = extra.drop_last();
        let all = work + extra;
        assert(all.drop_last() =~= work + rest);
        assert(all.last() == y);
        assert(silent_at(s, y as int));
        if y < marks.len() && !marks[y as int] && s.has_entry(y as int) {
            lemma_calls_silent(s, y as int);
            let below = pending(s.entry(y as int).deps);
            lemma_pending_silent(s, s.entry(y as int).deps);
            lemma_mark(marks, y as int);
            assert((work + rest) + below =~= work + (rest + below));
            assert(s.entry(y as int).notes =~= Seq::empty());
            let after = lemma_gather_silent(
                s,
                work,
                rest + below,
                marks.update(y as int, true),
            );
            assert(gather(s, all, marks) =~= gather(s, work, after));
            after
        } else {
            lemma_gather_silent(s, work, rest, marks)
        }
    }
}

/// The identifier of the check of the file at position `at`.
pub open spec fn check_at(s: Held, project: Project, at: int) -> usize {
    let inputs = s.input_values();
    s.keys.index_of(
        QueryView::CheckFile(
            root_of(inputs, project),
            inputs[project.files as int]->Files_0[at],
        ),
    ) as usize
}

/// The checks of the files from position `from` on, last first.
pub open spec fn checks_from(s: Held, project: Project, from: int) -> Seq<usize> {
    let n = s.input_values()[project.files as int]->Files_0.len();
    Seq::new((n - from) as nat, |j: int| check_at(s, project, n - 1 - j))
}

/// The check of a file is marked exactly if the file occurs before `upto`.
pub open spec fn marked_upto(s: Held, project: Project, marks: Seq<bool>, upto: int) -> bool {
    let files = s.input_values()[project.files as int]->Files_0;
    forall|i: int|
        0 <= i < files.len() ==> marks[#[trigger] check_at(s, project, i) as int]
            == files.take(upto).contains(files[i])
}

proof fn lemma_check_ids(s: Held, project: Project, i: int, j: int)
    requires
        state_ok(&Compiler, s),
        s.holds(QueryView::Compile(project)),
        0 <= i < s.input_values()[project.files as int]->Files_0.len(),
        0 <= j < s.input_values()[project.files as int]->Files_0.len(),
    ensures
        check_at(s, project, i) < s.memo.len(),
        s.current(check_at(s, project, i) as int),
        s.keys[check_at(s, project, i) as int] is CheckFile,
        check_at(s, project, i) == check_at(s, project, j) <==> s.input_values()[project.files as int]->Files_0[i]
            == s.input_values()[project.files as int]->Files_0[j],
{
    lemma_compiled_files_checked(s, project, i);
    lemma_compiled_files_checked(s, project, j);
    let inputs = s.input_values();
    let files = inputs[project.files as int]->Files_0;
    let ki = QueryView::CheckFile(root_of(inputs, project), files[i]);
    let kj = QueryView::CheckFile(root_of(inputs, project), files[j]);
    assert(s.keys[s.keys.index_of(ki)] == ki);
    assert(s.keys[s.keys.index_of(kj)] == kj);
}

proof fn lemma_gather_checks(s: Held, project: Project, from: int, marks: Seq<bool>)
    requires
        state_ok(&Compiler, s),
        s.holds(QueryView::Compile(project)),
        0 <= from <= s.input_values()[project.files as int]->Files_0.len(),
        marks.len() == s.memo.len(),
        marked_upto(s, project, marks, from),
    ensures
        gather(s, checks_from(s, project, from), marks) == findings_from(
            s.input_values(),
            root_of(s.input_values(), project),
            s.input_values()[project.files as int]->Files_0,
            from,
        ),
    decreases s.input_values()[project.files as int]->Files_0.len() - from,
{
    let inputs = s.input_values();
    let files = inputs[project.files as int]->Files_0;
    let n = files.len() as int;
    let work = checks_from(s, project, from);
    if from < n {
        let x = check_at(s, project, from);
        let rest = checks_from(s, project, from + 1);
        assert(work.last() == x);
        assert(work.drop_last() =~= rest);
        lemma_check_ids(s, project, from, from);
        lemma_compiled_files_checked(s, project, from);
        assert(files.take(from + 1) =~= files.take(from).push(files[from]));
        if marks[x as int] {
            assert(files.take(from).contains(files[from]));
            assert forall|i: int| 0 <= i < files.len() implies marks[#[trigger] check_at(
                s,
                project,
                i,
            ) as int] == files.take(from + 1).contains(files[i]) by {
                if files.take(from + 1).contains(files[i]) {
                    let w = choose|w: int|
                        0 <= w < from + 1 && #[trigger] files.take(from + 1)[w] == files[i];
                    if w == from {
                        lemma_check_ids(s, project, i, from);
                    } else {
                        assert(files.take(from)[w] == files[i]);
                    }
                } else {
                    if files.take(from).contains(files[i]) {
                        let w = choose|w: int|
                            0 <= w < from && #[trigger] files.take(from)[w] == files[i];
                        assert(files.take(from + 1)[w] == files[i]);
                    }
                }
            }
            lemma_gather_checks(s, project, from + 1, marks);
        } else {
            assert(!files.take(from).contains(files[from]));
            lemma_calls_silent(s, x as int);
            let below = pending(s.entry(x as int).deps);
            lemma_pending_silent(s, s.entry(x as int).deps);
            let marked = marks.update(x as int, true);
            lemma_mark(marks, x as int);
            let after = lemma_gather_silent(s, rest, below, marked);
            assert forall|i: int| 0 <= i < files.len() implies after[#[trigger] check_at(
                s,
                project,
                i,
            ) as int] == files.take(from + 1).contains(files[i]) by {
                lemma_check_ids(s, project, i, from);
                let y = check_at(s, project, i);
                assert(!silent_at(s, y as int));
                assert(after[y as int] == marked[y as int]);
                if files.take(from + 1).contains(files[i]) {
                    let w = choose|w: int|
                        0 <= w < from + 1 && #[trigger] files.take(from + 1)[w] == files[i];
                    if w < from {
                        assert(files.take(from)[w] == files[i]);
                    }
                } else {
                    if files.take(from).contains(files[i]) {
                        let w = choose|w: int|
                            0 <= w < from && #[trigger] files.take(from)[w] == files[i];
                        assert(files.take(from + 1)[w] == files[i]);
                    }
                    if files[i] == files[from] {
                        assert(files.take(from + 1)[from] == files[i]);
                    }
                }
            }
            lemma_gather_checks(s, project, from + 1, after);
        }
    } else {
        assert(work =~= Seq::empty());
    }
}

/// What the body of `Compile` leaves on the stack: the checks, last first,
/// and the project's module on top.
proof fn lemma_pending_compile(s: Held, project: Project, deps: Seq<Dep<usize>>, k: int)
    requires
        state_ok(&Compiler, s),
        s.holds(QueryView::Compile(project)),
        0 <= k <= s.input_values()[project.files as int]->Files_0.len(),
        deps.len() == k + 2,
        deps[0] is Query,
        deps[1] is Input,
        forall|i: int| 0 <= i < k ==> (#[trigger] deps[i + 2]) == Dep::<usize>::Query(
            check_at(s, project, i),
        ),
    ensures
        pending(deps) == Seq::new(k as nat, |j: int| check_at(s, project, k - 1 - j)).push(
            deps[0]->Query_0,
        ),
    decreases k,
{
    if k == 0 {
        let one = deps.drop_last();
        assert(one.len() == 1);
        assert(one.last() == deps[0]);
        assert(one.drop_last() =~= Seq::empty());
        assert(pending(one.drop_last()) =~= Seq::empty());
        assert(pending(one) =~= seq![deps[0]->Query_0]);
        assert(deps.last() == deps[1]);
        assert(pending(deps) =~= Seq::new(0, |j: int| check_at(s, project, k - 1 - j)).push(
            deps[0]->Query_0,
        ));
    } else {
        let rest = deps.drop_last();
        assert forall|i: int| 0 <= i < k - 1 implies (#[trigger] rest[i + 2]) == Dep::<
            usize,
        >::Query(check_at(s, project, i)) by {
            assert(rest[i + 2] == deps[i + 2]);
        }
        lemma_pending_compile(s, project, rest, k - 1);
        assert(deps.last() == deps[(k - 1) + 2]);
        assert(pending(deps) =~= Seq::new(k as nat, |j: int| check_at(s, project, k - 1 - j)).push(
            deps[0]->Query_0,
        ));
    }
}

/// Every note of the client is a `Diagnostic`.
proof fn lemma_all_diagnostics(notes: Seq<DiagnosticView>)
    ensures
        notes.filter(is_kind(&Compiler, DIAGNOSTIC)) == notes,
    decreases notes.len(),
{
    reveal(Seq::filter);
    if notes.len() != 0 {
        lemma_all_diagnostics(notes.drop_last());
        assert(notes.drop_last().push(notes.last()) =~= notes);
    }
}

/// The notes gathered beneath a current `Compile` are the findings about
/// the project's files: for each file in order, once, the imports that do
/// not resolve from the project's module.
pub proof fn lemma_compile_collects_findings(s: Held, project: Project)
    requires
        state_ok(&Compiler, s),
        s.holds(QueryView::Compile(project)),
    ensures
        collected(&Compiler, s, QueryView::Compile(project), DIAGNOSTIC) == project_findings(
            s.input_values(),
            project,
        ),
{
    let inputs = s.input_values();
    let key = QueryView::Compile(project);
    let c = s.keys.index_of(key);
    assert(s.has_entry(c));
    assert(entry_ok(&Compiler, s, c));
    assert(entry_fresh(&Compiler, s, c));
    lemma_compile_meaning(inputs, project, s.node(c));
    let files = inputs[project.files as int]->Files_0;
    let n = files.len() as int;
    let e = s.entry(c);
    let named = s.dep_keys(e.deps);
    assert(named == compile_reads(inputs, project));
    assert(e.deps.len() == n + 2);
    assert(named[0] == s.dep_key(e.deps[0]));
    assert(named[1] == s.dep_key(e.deps[1]));
    assert forall|i: int| 0 <= i < n implies (#[trigger] e.deps[i + 2]) == Dep::<usize>::Query(
        check_at(s, project, i),
    ) by {
        let dep = e.deps[i + 2];
        assert(named[i + 2] == s.dep_key(dep));
        assert(s.dep_known(dep));
        let q = dep->Query_0 as int;
        lemma_index_unique(
            s.keys,
            q,
            QueryView::CheckFile(root_of(inputs, project), files[i]),
        );
    }
    lemma_pending_compile(s, project, e.deps, n);
    let module = e.deps[0]->Query_0;
    assert(s.dep_known(e.deps[0]) && s.dep_current(e.deps[0]));
    assert(silent_at(s, module as int));
    let fresh = Seq::new(s.memo.len(), |i: int| false);
    let marked = fresh.update(c, true);
    let checks = checks_from(s, project, 0);
    assert(pending(e.deps) =~= checks + seq![module]);
    assert(seq![c as usize].drop_last() =~= Seq::<usize>::empty());
    assert(Seq::<usize>::empty() + pending(e.deps) =~= pending(e.deps));
    assert(e.notes =~= Seq::empty());
    let after = lemma_gather_silent(s, checks, seq![module], marked);
    assert forall|i: int| 0 <= i < files.len() implies after[#[trigger] check_at(s, project, i) as int]
        == files.take(0).contains(files[i]) by {
        lemma_check_ids(s, project, i, i);
        let y = check_at(s, project, i);
        assert(!silent_at(s, y as int));
        assert(s.keys[c] == key);
        assert(y != c);
    }
    lemma_gather_checks(s, project, 0, after);
    let all = gather(s, seq![c as usize], fresh);
    assert(all =~= findings_from(inputs, root_of(inputs, project), files, 0));
    lemma_all_diagnostics(all);
}

} // verus!
