//! The client's inputs and its queries as calls on a database.
use crate::compiler::{
    file_module, find_child, find_module, missing, parsed, project_module, Ast,
    AstView, Compiler, Diagnostic, DiagnosticView, File, Project, Query, QueryView, Value,
    ValueView, DIAGNOSTIC,
};
use crate::database::{Database, EngineError};
use crate::datum::models;
use crate::engine::{gave_up, owed, refusal_explained};
use crate::findings::{lemma_compile_collects_findings, project_findings};
use crate::gather::collected;
use crate::module::{module_view, InnerView, Module, ModuleView};
use crate::program::{Dep, Node, Plan, Program};
use crate::semantics::{denotes, evaluation, run, yields};
use crate::state::{evolves, later, CellModel, State};
use crate::text::{split, texts};
use vstd::prelude::*;

verus! {

type Db = Database<Compiler>;

/// On an idle database a call returned what its query evaluates to from
/// scratch within the database's limits, if they suffice; on any other it
/// was refused and changed nothing.
pub open spec fn settled(
    before: State<QueryView, ValueView, DiagnosticView>,
    after: State<QueryView, ValueView, DiagnosticView>,
    key: QueryView,
    outcome: Result<ValueView, EngineError<Value>>,
) -> bool {
    if before.idle() {
        match evaluation(
            &Compiler,
            before.input_values(),
            key,
            before.depth_limit as nat,
            before.read_limit as nat,
        ) {
            Some(Ok(node)) => outcome == Ok::<ValueView, EngineError<Value>>(node.value),
            Some(Err(fault)) => outcome is Err && outcome->Err_0 is Fault
                && outcome->Err_0->Fault_0@ == fault,
            None => true,
        }
    } else {
        outcome is Err && after == before
    }
}

impl File {
    /// Declares a file with the given name and content.
    pub fn new(db: &mut Db, name: Vec<char>, content: Vec<char>) -> (r: Result<
        File,
        EngineError<Value>,
    >)
        requires
            old(db).wf(),
        ensures
            final(db).wf(),
            later(old(db)@, final(db)@),
            match r {
                Ok(file) => {
                    &&& old(db)@.idle()
                    &&& file.name == old(db)@.inputs.len()
                    &&& file.content == old(db)@.inputs.len() + 1
                    &&& final(db)@ == (State {
                        inputs: old(db)@.inputs.push(
                            CellModel {
                                value: ValueView::Text(name@),
                                changed_at: old(db)@.revision,
                            },
                        ).push(
                            CellModel {
                                value: ValueView::Text(content@),
                                changed_at: old(db)@.revision,
                            },
                        ),
                        ..old(db)@
                    })
                },
                Err(e) => e is QueryInProgress && !old(db)@.idle() && final(db)@ == old(db)@,
            },
    {
        let name_cell = match db.declare_input(Value::Text(name)) {
            Ok(cell) => cell,
            Err(e) => {
                return Err(e);
            },
        };
        let content_cell = match db.declare_input(Value::Text(content)) {
            Ok(cell) => cell,
            Err(e) => {
                return Err(e);
            },
        };
        Ok(File { name: name_cell, content: content_cell })
    }

    /// Replaces the file's content.
    pub fn set_content(&self, db: &mut Db, content: Vec<char>) -> (r: Result<
        (),
        EngineError<Value>,
    >)
        requires
            old(db).wf(),
        ensures
            final(db).wf(),
            later(old(db)@, final(db)@),
            match r {
                Ok(()) => {
                    &&& old(db)@.idle()
                    &&& self.content < old(db)@.inputs.len()
                    &&& if ValueView::Text(content@) == old(db)@.inputs[self.content as int].value {
                        final(db)@ == old(db)@
                    } else {
                        &&& old(db)@.revision < u64::MAX
                        &&& final(db)@ == (State {
                            revision: (old(db)@.revision + 1) as u64,
                            inputs: old(db)@.inputs.update(
                                self.content as int,
                                CellModel {
                                    value: ValueView::Text(content@),
                                    changed_at: (old(db)@.revision + 1) as u64,
                                },
                            ),
                            ..old(db)@
                        })
                    }
                },
                Err(e) => {
                    &&& final(db)@ == old(db)@
                    &&& e is QueryInProgress <==> !old(db)@.idle()
                    &&& e is UnknownInput <==> old(db)@.idle() && self.content >= old(
                        db,
                    )@.inputs.len()
                    &&& e is RevisionExhausted <==> old(db)@.idle() && self.content < old(
                        db,
                    )@.inputs.len() && ValueView::Text(content@) != old(
                        db,
                    )@.inputs[self.content as int].value && old(db)@.revision == u64::MAX
                    &&& e is QueryInProgress || e is UnknownInput || e is RevisionExhausted
                },
            },
    {
        db.set_input(self.content, Value::Text(content))
    }
}

impl Project {
    /// Declares a project with the given files.
    pub fn new(db: &mut Db, files: Vec<File>) -> (r: Result<Project, EngineError<Value>>)
        requires
            old(db).wf(),
        ensures
            final(db).wf(),
            later(old(db)@, final(db)@),
            match r {
                Ok(project) => {
                    &&& old(db)@.idle()
                    &&& project.files == old(db)@.inputs.len()
                    &&& final(db)@ == (State {
                        inputs: old(db)@.inputs.push(
                            CellModel {
                                value: ValueView::Files(files@),
                                changed_at: old(db)@.revision,
                            },
                        ),
                        ..old(db)@
                    })
                },
                Err(e) => e is QueryInProgress && !old(db)@.idle() && final(db)@ == old(db)@,
            },
    {
        match db.declare_input(Value::Files(files)) {
            Ok(cell) => Ok(Project { files: cell }),
            Err(e) => Err(e),
        }
    }
}

/// What `Parse` yields is what the file's content declares.
pub proof fn lemma_parse_meaning(inputs: Seq<ValueView>, file: File, value: ValueView)
    requires
        yields(&Compiler, inputs, QueryView::Parse(file), value),
    ensures
        file.content < inputs.len(),
        inputs[file.content as int] is Text,
        value is Ast,
        parsed(inputs[file.content as int]->Text_0) == Some(value->Ast_0),
{
    let program = &Compiler;
    let key = QueryView::Parse(file);
    let node = choose|node: Node<QueryView, ValueView, DiagnosticView>| #[trigger]
        denotes(program, inputs, key, Ok(node)) && node.value == value;
    let fuel = choose|fuel: nat| #[trigger]
        run(program, inputs, key, Seq::empty(), Seq::empty(), fuel) == Some(
            Ok::<_, ValueView>(node),
        );
    let none = Seq::<ValueView>::empty();
    assert(program.plan(key, none) == Plan::<
        QueryView,
        ValueView,
        DiagnosticView,
    >::Read(file.content));
    assert(fuel > 0);
    assert(file.content < inputs.len());
    let heard = none.push(inputs[file.content as int]);
    let read = Seq::<Dep<QueryView>>::empty().push(Dep::Input(file.content));
    assert(run(program, inputs, key, heard, read, (fuel - 1) as nat) == Some(
        Ok::<_, ValueView>(node),
    ));
    assert(heard[0] == inputs[file.content as int]);
}

/// What `Resolve` yields is the module that the path leads to.
pub proof fn lemma_resolve_meaning(
    inputs: Seq<ValueView>,
    module: ModuleView,
    path: Seq<Seq<char>>,
    value: ValueView,
)
    requires
        yields(&Compiler, inputs, QueryView::Resolve(module, path), value),
    ensures
        value == ValueView::Found(find_module(module, path)),
{
    let program = &Compiler;
    let key = QueryView::Resolve(module, path);
    let node = choose|node: Node<QueryView, ValueView, DiagnosticView>| #[trigger]
        denotes(program, inputs, key, Ok(node)) && node.value == value;
    let fuel = choose|fuel: nat| #[trigger]
        run(program, inputs, key, Seq::empty(), Seq::empty(), fuel) == Some(
            Ok::<_, ValueView>(node),
        );
    lemma_resolve_run(inputs, module, path, fuel, node);
}

proof fn lemma_resolve_run(
    inputs: Seq<ValueView>,
    module: ModuleView,
    path: Seq<Seq<char>>,
    fuel: nat,
    node: Node<QueryView, ValueView, DiagnosticView>,
)
    requires
        run(
            &Compiler,
            inputs,
            QueryView::Resolve(module, path),
            Seq::empty(),
            Seq::empty(),
            fuel,
        ) == Some(Ok::<_, ValueView>(node)),
    ensures
        node.value == ValueView::Found(find_module(module, path)),
    decreases fuel,
{
    let program = &Compiler;
    let key = QueryView::Resolve(module, path);
    let none = Seq::<ValueView>::empty();
    if path.len() != 0 {
        match module.inner {
            InnerView::Dir(children) => match find_child(children, path[0]) {
                Some(child) => {
                    let callee = QueryView::Resolve(child, path.skip(1));
                    assert(program.plan(key, none) == Plan::<
                        QueryView,
                        ValueView,
                        DiagnosticView,
                    >::Call(callee));
                    let inner = run(
                        program,
                        inputs,
                        callee,
                        Seq::empty(),
                        Seq::empty(),
                        (fuel - 1) as nat,
                    );
                    assert(inner is Some && inner->0 is Ok);
                    let below = inner->0->Ok_0;
                    lemma_resolve_run(inputs, child, path.skip(1), (fuel - 1) as nat, below);
                    let heard = none.push(below.value);
                    let read = Seq::<Dep<QueryView>>::empty().push(Dep::Query(callee));
                    assert(run(program, inputs, key, heard, read, (fuel - 1) as nat) == Some(
                        Ok::<_, ValueView>(node),
                    ));
                    assert(heard[0] == below.value);
                },
                None => {},
            },
            InnerView::Export => {},
        }
    }
}

/// The imports and exports of `file`, by way of the query `Parse`.
pub fn parse(db: &mut Db, file: File) -> (r: Result<Ast, EngineError<Value>>)
    requires
        old(db).wf(),
    ensures
        final(db).wf(),
        evolves(old(db)@, final(db)@),
        settled(
            old(db)@,
            final(db)@,
            QueryView::Parse(file),
            match r {
                Ok(ast) => Ok(ValueView::Ast(ast@)),
                Err(e) => Err(e),
            },
        ),
        match r {
            Ok(ast) => {
                &&& final(db)@.holds(QueryView::Parse(file))
                &&& file.content < final(db)@.inputs.len()
                &&& final(db)@.inputs[file.content as int].value is Text
                &&& parsed(final(db)@.inputs[file.content as int].value->Text_0) == Some(ast@)
            },
            Err(e) => refusal_explained(
                &Compiler,
                old(db)@,
                QueryView::Parse(file),
                e,
            ),
        },
{
    match db.query(&Query::Parse(file)) {
        Err(e) => Err(e),
        Ok(value) => {
            proof {
                lemma_parse_meaning(db@.input_values(), file, value@);
            }
            match value {
                Value::Ast(ast) => Ok(ast),
                _ => vstd::pervasive::unreached(),
            }
        },
    }
}

/// The module that `path` leads to from `module`, by way of the query
/// `Resolve`.
pub fn resolve(db: &mut Db, module: Module, path: Vec<Vec<char>>) -> (r: Result<
    Option<Module>,
    EngineError<Value>,
>)
    requires
        old(db).wf(),
    ensures
        final(db).wf(),
        evolves(old(db)@, final(db)@),
        settled(
            old(db)@,
            final(db)@,
            QueryView::Resolve(module_view(module), texts(path@)),
            match r {
                Ok(found) => Ok(Value::Found(found)@),
                Err(e) => Err(e),
            },
        ),
        match r {
            Ok(found) => {
                &&& final(db)@.holds(QueryView::Resolve(module_view(module), texts(path@)))
                &&& match found {
                    Some(target) => find_module(module_view(module), texts(path@)) == Some(
                        module_view(target),
                    ),
                    None => find_module(module_view(module), texts(path@)) is None,
                }
            },
            Err(e) => refusal_explained(
                &Compiler,
                old(db)@,
                QueryView::Resolve(module_view(module), texts(path@)),
                e,
            ),
        },
{
    let ghost key = QueryView::Resolve(module_view(module), texts(path@));
    match db.query(&Query::Resolve(module, path)) {
        Err(e) => Err(e),
        Ok(value) => {
            proof {
                lemma_resolve_meaning(
                    db@.input_values(),
                    module_view(module),
                    texts(path@),
                    value@,
                );
            }
            match value {
                Value::Found(found) => Ok(found),
                _ => vstd::pervasive::unreached(),
            }
        },
    }
}

/// The module of `file`, by way of the query `FileModule`.
pub fn get_file_module(db: &mut Db, file: File) -> (r: Result<Module, EngineError<Value>>)
    requires
        old(db).wf(),
    ensures
        final(db).wf(),
        evolves(old(db)@, final(db)@),
        settled(
            old(db)@,
            final(db)@,
            QueryView::FileModule(file),
            match r {
                Ok(module) => Ok(ValueView::Module(module_view(module))),
                Err(e) => Err(e),
            },
        ),
        match r {
            Ok(module) => {
                &&& final(db)@.holds(QueryView::FileModule(file))
                &&& file_ok(final(db)@.input_values(), file)
                &&& module_view(module) == module_of(final(db)@.input_values(), file)
            },
            Err(e) => refusal_explained(
                &Compiler,
                old(db)@,
                QueryView::FileModule(file),
                e,
            ),
        },
{
    match db.query(&Query::FileModule(file)) {
        Err(e) => Err(e),
        Ok(value) => {
            proof {
                let id = db@.keys.index_of(QueryView::FileModule(file));
                lemma_file_module_meaning(db@.input_values(), file, db@.node(id));
            }
            match value {
                Value::Module(module) => Ok(module),
                _ => vstd::pervasive::unreached(),
            }
        },
    }
}

/// The module of `project`, by way of the query `ProjectModule`.
pub fn get_project_module(db: &mut Db, project: Project) -> (r: Result<
    Module,
    EngineError<Value>,
>)
    requires
        old(db).wf(),
    ensures
        final(db).wf(),
        evolves(old(db)@, final(db)@),
        settled(
            old(db)@,
            final(db)@,
            QueryView::ProjectModule(project),
            match r {
                Ok(module) => Ok(ValueView::Module(module_view(module))),
                Err(e) => Err(e),
            },
        ),
        match r {
            Ok(module) => {
                let inputs = final(db)@.input_values();
                &&& final(db)@.holds(QueryView::ProjectModule(project))
                &&& project.files < inputs.len()
                &&& inputs[project.files as int] is Files
                &&& forall|i: int|
                    0 <= i < inputs[project.files as int]->Files_0.len() ==> file_ok(
                        inputs,
                        #[trigger] inputs[project.files as int]->Files_0[i],
                    )
                &&& module_view(module) == project_module(
                    modules_of(inputs, inputs[project.files as int]->Files_0),
                )
            },
            Err(e) => refusal_explained(
                &Compiler,
                old(db)@,
                QueryView::ProjectModule(project),
                e,
            ),
        },
{
    match db.query(&Query::ProjectModule(project)) {
        Err(e) => Err(e),
        Ok(value) => {
            proof {
                let id = db@.keys.index_of(QueryView::ProjectModule(project));
                lemma_project_module_meaning(db@.input_values(), project, db@.node(id));
            }
            match value {
                Value::Module(module) => Ok(module),
                _ => vstd::pervasive::unreached(),
            }
        },
    }
}

/// Checks the imports of `file` against `module`, by way of the query
/// `CheckFile`. The findings are accumulated, not returned.
pub fn check_file(db: &mut Db, module: Module, file: File) -> (r: Result<(), EngineError<Value>>)
    requires
        old(db).wf(),
    ensures
        final(db).wf(),
        evolves(old(db)@, final(db)@),
        settled(
            old(db)@,
            final(db)@,
            QueryView::CheckFile(module_view(module), file),
            match r {
                Ok(done) => Ok(ValueView::Unit),
                Err(e) => Err(e),
            },
        ),
        match r {
            Ok(()) => {
                let key = QueryView::CheckFile(module_view(module), file);
                &&& final(db)@.holds(key)
                &&& file_ok(final(db)@.input_values(), file)
                &&& final(db)@.entry(final(db)@.keys.index_of(key)).notes == findings(
                    final(db)@.input_values(),
                    module_view(module),
                    file,
                )
            },
            Err(e) => refusal_explained(
                &Compiler,
                old(db)@,
                QueryView::CheckFile(module_view(module), file),
                e,
            ),
        },
{
    let ghost key = QueryView::CheckFile(module_view(module), file);
    match db.query(&Query::CheckFile(module, file)) {
        Err(e) => Err(e),
        Ok(value) => {
            proof {
                let id = db@.keys.index_of(key);
                lemma_check_file_meaning(
                    db@.input_values(),
                    module_view(module),
                    file,
                    db@.node(id),
                );
            }
            Ok(())
        },
    }
}

/// Checks every file of `project`, by way of the query `Compile`. The
/// findings are accumulated, not returned.
pub fn compile_project(db: &mut Db, project: Project) -> (r: Result<(), EngineError<Value>>)
    requires
        old(db).wf(),
    ensures
        final(db).wf(),
        evolves(old(db)@, final(db)@),
        settled(
            old(db)@,
            final(db)@,
            QueryView::Compile(project),
            match r {
                Ok(done) => Ok(ValueView::Unit),
                Err(e) => Err(e),
            },
        ),
        match r {
            Ok(()) => {
                let inputs = final(db)@.input_values();
                &&& final(db)@.holds(QueryView::Compile(project))
                &&& project.files < inputs.len()
                &&& inputs[project.files as int] is Files
                &&& forall|i: int|
                    0 <= i < inputs[project.files as int]->Files_0.len() ==> {
                        let file = #[trigger] inputs[project.files as int]->Files_0[i];
                        let key = QueryView::CheckFile(root_of(inputs, project), file);
                        &&& file_ok(inputs, file)
                        &&& final(db)@.holds(key)
                        &&& final(db)@.entry(final(db)@.keys.index_of(key)).notes == findings(
                            inputs,
                            root_of(inputs, project),
                            file,
                        )
                    }
            },
            Err(e) => refusal_explained(
                &Compiler,
                old(db)@,
                QueryView::Compile(project),
                e,
            ),
        },
{
    match db.query(&Query::Compile(project)) {
        Err(e) => Err(e),
        Ok(value) => {
            proof {
                let s = db@;
                let inputs = s.input_values();
                let id = s.keys.index_of(QueryView::Compile(project));
                lemma_compile_meaning(inputs, project, s.node(id));
                assert forall|i: int|
                    0 <= i < inputs[project.files as int]->Files_0.len() implies {
                    let file = #[trigger] inputs[project.files as int]->Files_0[i];
                    let key = QueryView::CheckFile(root_of(inputs, project), file);
                    &&& file_ok(inputs, file)
                    &&& s.holds(key)
                    &&& s.entry(s.keys.index_of(key)).notes == findings(
                        inputs,
                        root_of(inputs, project),
                        file,
                    )
                } by {
                    lemma_compiled_files_checked(s, project, i);
                }
            }
            Ok(())
        },
    }
}

/// Compiles `project` and returns the findings accumulated beneath it.
pub fn compile_diagnostics(db: &mut Db, project: Project) -> (r: Result<
    Vec<Diagnostic>,
    EngineError<Value>,
>)
    requires
        old(db).wf(),
    ensures
        final(db).wf(),
        evolves(old(db)@, final(db)@),
        !old(db)@.idle() ==> r is Err && final(db)@ == old(db)@,
        old(db)@.idle() ==> owed(
            &Compiler,
            old(db)@,
            QueryView::Compile(project),
            old(db)@.depth_limit,
            gave_up(r),
        ),
        match r {
            Ok(notes) => {
                &&& final(db)@.holds(QueryView::Compile(project))
                &&& models(notes@) == project_findings(final(db)@.input_values(), project)
                &&& models(notes@) == collected(
                    &Compiler,
                    final(db)@,
                    QueryView::Compile(project),
                    DIAGNOSTIC,
                )
            },
            Err(e) => refusal_explained(
                &Compiler,
                old(db)@,
                QueryView::Compile(project),
                e,
            ),
        },
{
    let found = db.accumulated(&Query::Compile(project), DIAGNOSTIC);
    proof {
        if found is Ok {
            lemma_compile_collects_findings(db@, project);
        }
    }
    found
}

type Noded = Node<QueryView, ValueView, DiagnosticView>;

/// The content of a file's name cell, if it holds a text.
pub open spec fn name_of(inputs: Seq<ValueView>, file: File) -> Seq<char> {
    inputs[file.name as int]->Text_0
}

/// What the content of a file declares, if it is well formed.
pub open spec fn ast_of(inputs: Seq<ValueView>, file: File) -> AstView {
    parsed(inputs[file.content as int]->Text_0)->0
}

/// The file exists as two cells that hold texts, and its content is well
/// formed.
pub open spec fn file_ok(inputs: Seq<ValueView>, file: File) -> bool {
    &&& file.name < inputs.len()
    &&& inputs[file.name as int] is Text
    &&& file.content < inputs.len()
    &&& inputs[file.content as int] is Text
    &&& parsed(inputs[file.content as int]->Text_0) is Some
}

/// The module of a file on these inputs.
pub open spec fn module_of(inputs: Seq<ValueView>, file: File) -> ModuleView {
    file_module(name_of(inputs, file), ast_of(inputs, file).exports)
}

/// What `FileModule` means: the directory of the file's exports under the
/// file's name.
pub proof fn lemma_file_module_meaning(inputs: Seq<ValueView>, file: File, node: Noded)
    requires
        denotes(&Compiler, inputs, QueryView::FileModule(file), Ok(node)),
    ensures
        file_ok(inputs, file),
        node.value == ValueView::Module(module_of(inputs, file)),
        node.notes.len() == 0,
{
    let program = &Compiler;
    let key = QueryView::FileModule(file);
    let fuel = choose|fuel: nat| #[trigger]
        run(program, inputs, key, Seq::empty(), Seq::empty(), fuel) == Some(
            Ok::<_, ValueView>(node),
        );
    let none = Seq::<ValueView>::empty();
    let callee = QueryView::Parse(file);
    assert(program.plan(key, none) == Plan::<QueryView, ValueView, DiagnosticView>::Call(callee));
    let inner = run(program, inputs, callee, Seq::empty(), Seq::empty(), (fuel - 1) as nat);
    assert(inner is Some && inner->0 is Ok);
    let below = inner->0->Ok_0;
    assert(denotes(program, inputs, callee, Ok(below)));
    assert(yields(program, inputs, callee, below.value));
    lemma_parse_meaning(inputs, file, below.value);
    let one = none.push(below.value);
    let read1 = Seq::<Dep<QueryView>>::empty().push(Dep::Query(callee));
    assert(one[0] == below.value);
    assert(run(program, inputs, key, one, read1, (fuel - 1) as nat) == Some(
        Ok::<_, ValueView>(node),
    ));
    assert(program.plan(key, one) == Plan::<QueryView, ValueView, DiagnosticView>::Read(
        file.name,
    ));
    let two = one.push(inputs[file.name as int]);
    let read2 = read1.push(Dep::Input(file.name));
    assert(two[0] == below.value && two[1] == inputs[file.name as int]);
    assert(run(program, inputs, key, two, read2, (fuel - 2) as nat) == Some(
        Ok::<_, ValueView>(node),
    ));
}

/// What each import's dotted path leads to from the module.
pub open spec fn found_all(module: ModuleView, imports: Seq<Seq<char>>) -> Seq<ValueView> {
    Seq::new(
        imports.len(),
        |i: int| ValueView::Found(find_module(module, split(imports[i], '.'))),
    )
}

/// The findings about a file checked against a module: one for each of its
/// imports whose path leads nowhere.
pub open spec fn findings(inputs: Seq<ValueView>, module: ModuleView, file: File) -> Seq<
    DiagnosticView,
> {
    missing(
        name_of(inputs, file),
        ast_of(inputs, file).imports,
        found_all(module, ast_of(inputs, file).imports),
    )
}

/// The findings depend on what was found for the imports only.
proof fn lemma_missing_same(
    name: Seq<char>,
    imports: Seq<Seq<char>>,
    found: Seq<ValueView>,
    other: Seq<ValueView>,
)
    requires
        found.len() >= imports.len(),
        other.len() >= imports.len(),
        forall|i: int| 0 <= i < imports.len() ==> found[i] == other[i],
    ensures
        missing(name, imports, found) == missing(name, imports, other),
    decreases imports.len(),
{
    if imports.len() != 0 {
        lemma_missing_same(name, imports.drop_last(), found, other);
    }
}

proof fn lemma_check_file_run(
    inputs: Seq<ValueView>,
    module: ModuleView,
    file: File,
    name: Seq<char>,
    ast: AstView,
    answers: Seq<ValueView>,
    deps: Seq<Dep<QueryView>>,
    fuel: nat,
    node: Noded,
)
    requires
        answers.len() >= 2,
        answers.len() - 2 <= ast.imports.len(),
        answers[0] == ValueView::Text(name),
        answers[1] == ValueView::Ast(ast),
        forall|i: int|
            0 <= i < answers.len() - 2 ==> answers[i + 2] == found_all(module, ast.imports)[i],
        run(&Compiler, inputs, QueryView::CheckFile(module, file), answers, deps, fuel) == Some(
            Ok::<_, ValueView>(node),
        ),
    ensures
        node.value == ValueView::Unit,
        node.notes == missing(name, ast.imports, found_all(module, ast.imports)),
    decreases ast.imports.len() - (answers.len() - 2),
{
    let program = &Compiler;
    let key = QueryView::CheckFile(module, file);
    let k = answers.len() - 2;
    if k > 0 {
        assert(answers.last() == found_all(module, ast.imports)[k - 1]);
    }
    if k < ast.imports.len() {
        let callee = QueryView::Resolve(module, split(ast.imports[k], '.'));
        assert(program.plan(key, answers) == Plan::<QueryView, ValueView, DiagnosticView>::Call(
            callee,
        ));
        let inner = run(program, inputs, callee, Seq::empty(), Seq::empty(), (fuel - 1) as nat);
        assert(inner is Some && inner->0 is Ok);
        let below = inner->0->Ok_0;
        assert(denotes(program, inputs, callee, Ok(below)));
        assert(yields(program, inputs, callee, below.value));
        lemma_resolve_meaning(inputs, module, split(ast.imports[k], '.'), below.value);
        let more = answers.push(below.value);
        lemma_check_file_run(
            inputs,
            module,
            file,
            name,
            ast,
            more,
            deps.push(Dep::Query(callee)),
            (fuel - 1) as nat,
            node,
        );
    } else {
        assert(program.plan(key, answers) == Plan::<QueryView, ValueView, DiagnosticView>::Done(
            ValueView::Unit,
            missing(name, ast.imports, answers.skip(2)),
        ));
        lemma_missing_same(
            name,
            ast.imports,
            answers.skip(2),
            found_all(module, ast.imports),
        );
    }
}

/// What `CheckFile` means: it notes, in the order of the file's imports, each
/// import whose path leads nowhere from the module.
pub proof fn lemma_check_file_meaning(
    inputs: Seq<ValueView>,
    module: ModuleView,
    file: File,
    node: Noded,
)
    requires
        denotes(&Compiler, inputs, QueryView::CheckFile(module, file), Ok(node)),
    ensures
        file_ok(inputs, file),
        node.value == ValueView::Unit,
        node.notes == findings(inputs, module, file),
{
    let program = &Compiler;
    let key = QueryView::CheckFile(module, file);
    let fuel = choose|fuel: nat| #[trigger]
        run(program, inputs, key, Seq::empty(), Seq::empty(), fuel) == Some(
            Ok::<_, ValueView>(node),
        );
    let none = Seq::<ValueView>::empty();
    assert(program.plan(key, none) == Plan::<QueryView, ValueView, DiagnosticView>::Read(
        file.name,
    ));
    assert(file.name < inputs.len());
    let one = none.push(inputs[file.name as int]);
    let read1 = Seq::<Dep<QueryView>>::empty().push(Dep::Input(file.name));
    assert(one[0] == inputs[file.name as int]);
    assert(run(program, inputs, key, one, read1, (fuel - 1) as nat) == Some(
        Ok::<_, ValueView>(node),
    ));
    let callee = QueryView::Parse(file);
    assert(program.plan(key, one) == Plan::<QueryView, ValueView, DiagnosticView>::Call(callee));
    let inner = run(program, inputs, callee, Seq::empty(), Seq::empty(), (fuel - 2) as nat);
    assert(inner is Some && inner->0 is Ok);
    let below = inner->0->Ok_0;
    assert(denotes(program, inputs, callee, Ok(below)));
    assert(yields(program, inputs, callee, below.value));
    lemma_parse_meaning(inputs, file, below.value);
    let two = one.push(below.value);
    let read2 = read1.push(Dep::Query(callee));
    assert(two[0] == inputs[file.name as int] && two[1] == below.value);
    lemma_check_file_run(
        inputs,
        module,
        file,
        name_of(inputs, file),
        ast_of(inputs, file),
        two,
        read2,
        (fuel - 2) as nat,
        node,
    );
}

/// The modules of the files, in order.
pub open spec fn modules_of(inputs: Seq<ValueView>, files: Seq<File>) -> Seq<ValueView> {
    Seq::new(files.len(), |i: int| ValueView::Module(module_of(inputs, files[i])))
}

proof fn lemma_project_module_run(
    inputs: Seq<ValueView>,
    project: Project,
    files: Seq<File>,
    answers: Seq<ValueView>,
    deps: Seq<Dep<QueryView>>,
    fuel: nat,
    node: Noded,
)
    requires
        answers.len() >= 1,
        answers.len() - 1 <= files.len(),
        answers[0] == ValueView::Files(files),
        forall|i: int|
            0 <= i < answers.len() - 1 ==> file_ok(inputs, #[trigger] files[i]) && answers[i + 1]
                == modules_of(inputs, files)[i],
        run(&Compiler, inputs, QueryView::ProjectModule(project), answers, deps, fuel) == Some(
            Ok::<_, ValueView>(node),
        ),
    ensures
        forall|i: int| 0 <= i < files.len() ==> file_ok(inputs, #[trigger] files[i]),
        node.value == ValueView::Module(project_module(modules_of(inputs, files))),
        node.notes.len() == 0,
    decreases files.len() - (answers.len() - 1),
{
    let program = &Compiler;
    let key = QueryView::ProjectModule(project);
    let k = answers.len() - 1;
    if k > 0 {
        assert(answers.last() == modules_of(inputs, files)[k - 1]);
    }
    if k < files.len() {
        let callee = QueryView::FileModule(files[k]);
        assert(program.plan(key, answers) == Plan::<QueryView, ValueView, DiagnosticView>::Call(
            callee,
        ));
        let inner = run(program, inputs, callee, Seq::empty(), Seq::empty(), (fuel - 1) as nat);
        assert(inner is Some && inner->0 is Ok);
        let below = inner->0->Ok_0;
        assert(denotes(program, inputs, callee, Ok(below)));
        lemma_file_module_meaning(inputs, files[k], below);
        let more = answers.push(below.value);
        assert forall|i: int| 0 <= i < more.len() - 1 implies file_ok(
            inputs,
            #[trigger] files[i],
        ) && more[i + 1] == modules_of(inputs, files)[i] by {
            if i < k {
                assert(more[i + 1] == answers[i + 1]);
            }
        }
        lemma_project_module_run(
            inputs,
            project,
            files,
            answers.push(below.value),
            deps.push(Dep::Query(callee)),
            (fuel - 1) as nat,
            node,
        );
    } else {
        assert(answers.skip(1) =~= modules_of(inputs, files));
        assert forall|i: int| 0 <= i < files.len() implies file_ok(inputs, #[trigger] files[i]) by {}
    }
}

/// What `ProjectModule` means: the directory `root` of the modules of the
/// project's files, in order.
pub proof fn lemma_project_module_meaning(inputs: Seq<ValueView>, project: Project, node: Noded)
    requires
        denotes(&Compiler, inputs, QueryView::ProjectModule(project), Ok(node)),
    ensures
        project.files < inputs.len(),
        inputs[project.files as int] is Files,
        forall|i: int|
            0 <= i < inputs[project.files as int]->Files_0.len() ==> file_ok(
                inputs,
                #[trigger] inputs[project.files as int]->Files_0[i],
            ),
        node.value == ValueView::Module(
            project_module(modules_of(inputs, inputs[project.files as int]->Files_0)),
        ),
        node.notes.len() == 0,
{
    let program = &Compiler;
    let key = QueryView::ProjectModule(project);
    let fuel = choose|fuel: nat| #[trigger]
        run(program, inputs, key, Seq::empty(), Seq::empty(), fuel) == Some(
            Ok::<_, ValueView>(node),
        );
    let none = Seq::<ValueView>::empty();
    assert(program.plan(key, none) == Plan::<QueryView, ValueView, DiagnosticView>::Read(
        project.files,
    ));
    assert(project.files < inputs.len());
    let one = none.push(inputs[project.files as int]);
    let read1 = Seq::<Dep<QueryView>>::empty().push(Dep::Input(project.files));
    assert(one[0] == inputs[project.files as int]);
    assert(run(program, inputs, key, one, read1, (fuel - 1) as nat) == Some(
        Ok::<_, ValueView>(node),
    ));
    assert(inputs[project.files as int] is Files);
    lemma_project_module_run(
        inputs,
        project,
        inputs[project.files as int]->Files_0,
        one,
        read1,
        (fuel - 1) as nat,
        node,
    );
}

/// The module of a project on these inputs.
pub open spec fn root_of(inputs: Seq<ValueView>, project: Project) -> ModuleView {
    project_module(modules_of(inputs, inputs[project.files as int]->Files_0))
}

/// What the body of `Compile` reads: the project's module, the list of
/// files, and the check of each file against the module.
pub open spec fn compile_reads(inputs: Seq<ValueView>, project: Project) -> Seq<Dep<QueryView>> {
    let files = inputs[project.files as int]->Files_0;
    seq![Dep::Query(QueryView::ProjectModule(project)), Dep::Input(project.files)] + Seq::new(
        files.len(),
        |i: int| Dep::Query(QueryView::CheckFile(root_of(inputs, project), files[i])),
    )
}

proof fn lemma_compile_run(
    inputs: Seq<ValueView>,
    project: Project,
    answers: Seq<ValueView>,
    deps: Seq<Dep<QueryView>>,
    fuel: nat,
    node: Noded,
)
    requires
        project.files < inputs.len(),
        inputs[project.files as int] is Files,
        answers.len() >= 2,
        answers.len() - 2 <= inputs[project.files as int]->Files_0.len(),
        answers[0] == ValueView::Module(root_of(inputs, project)),
        answers[1] == inputs[project.files as int],
        deps == compile_reads(inputs, project).take(answers.len() as int),
        run(&Compiler, inputs, QueryView::Compile(project), answers, deps, fuel) == Some(
            Ok::<_, ValueView>(node),
        ),
    ensures
        node.value == ValueView::Unit,
        node.notes.len() == 0,
        node.deps == compile_reads(inputs, project),
    decreases inputs[project.files as int]->Files_0.len() - (answers.len() - 2),
{
    let program = &Compiler;
    let key = QueryView::Compile(project);
    let files = inputs[project.files as int]->Files_0;
    let all = compile_reads(inputs, project);
    let k = answers.len() - 2;
    if k < files.len() {
        let callee = QueryView::CheckFile(root_of(inputs, project), files[k]);
        assert(program.plan(key, answers) == Plan::<QueryView, ValueView, DiagnosticView>::Call(
            callee,
        ));
        let inner = run(program, inputs, callee, Seq::empty(), Seq::empty(), (fuel - 1) as nat);
        assert(inner is Some && inner->0 is Ok);
        let below = inner->0->Ok_0;
        assert(all[k + 2] == Dep::Query(callee));
        assert(all.take(k + 3) =~= all.take(k + 2).push(Dep::Query(callee)));
        lemma_compile_run(
            inputs,
            project,
            answers.push(below.value),
            deps.push(Dep::Query(callee)),
            (fuel - 1) as nat,
            node,
        );
    } else {
        assert(all.take(all.len() as int) =~= all);
    }
}

/// What `Compile` means: it is worth nothing and notes nothing itself; it
/// reads the project's module and checks each file against it.
pub proof fn lemma_compile_meaning(inputs: Seq<ValueView>, project: Project, node: Noded)
    requires
        denotes(&Compiler, inputs, QueryView::Compile(project), Ok(node)),
    ensures
        project.files < inputs.len(),
        inputs[project.files as int] is Files,
        forall|i: int|
            0 <= i < inputs[project.files as int]->Files_0.len() ==> file_ok(
                inputs,
                #[trigger] inputs[project.files as int]->Files_0[i],
            ),
        node.value == ValueView::Unit,
        node.notes.len() == 0,
        node.deps == compile_reads(inputs, project),
{
    let program = &Compiler;
    let key = QueryView::Compile(project);
    let fuel = choose|fuel: nat| #[trigger]
        run(program, inputs, key, Seq::empty(), Seq::empty(), fuel) == Some(
            Ok::<_, ValueView>(node),
        );
    let none = Seq::<ValueView>::empty();
    let callee = QueryView::ProjectModule(project);
    assert(program.plan(key, none) == Plan::<QueryView, ValueView, DiagnosticView>::Call(callee));
    let inner = run(program, inputs, callee, Seq::empty(), Seq::empty(), (fuel - 1) as nat);
    assert(inner is Some && inner->0 is Ok);
    let below = inner->0->Ok_0;
    assert(denotes(program, inputs, callee, Ok(below)));
    lemma_project_module_meaning(inputs, project, below);
    let one = none.push(below.value);
    let read1 = Seq::<Dep<QueryView>>::empty().push(Dep::Query(callee));
    assert(one[0] == below.value);
    assert(run(program, inputs, key, one, read1, (fuel - 1) as nat) == Some(
        Ok::<_, ValueView>(node),
    ));
    assert(program.plan(key, one) == Plan::<QueryView, ValueView, DiagnosticView>::Read(
        project.files,
    ));
    let two = one.push(inputs[project.files as int]);
    let read2 = read1.push(Dep::Input(project.files));
    assert(two[0] == below.value && two[1] == inputs[project.files as int]);
    assert(read2 =~= compile_reads(inputs, project).take(2));
    lemma_compile_run(inputs, project, two, read2, (fuel - 2) as nat, node);
}

/// After `Compile` every file of the project has a current check against
/// the project's module, and the check's notes are the findings about the
/// file.
pub proof fn lemma_compiled_files_checked(
    s: State<QueryView, ValueView, DiagnosticView>,
    project: Project,
    at: int,
)
    requires
        crate::state::state_ok(&Compiler, s),
        s.holds(QueryView::Compile(project)),
        0 <= at < s.input_values()[project.files as int]->Files_0.len(),
    ensures
        ({
            let inputs = s.input_values();
            let file = inputs[project.files as int]->Files_0[at];
            let key = QueryView::CheckFile(root_of(inputs, project), file);
            &&& s.holds(key)
            &&& file_ok(inputs, file)
            &&& s.entry(s.keys.index_of(key)).notes == findings(
                inputs,
                root_of(inputs, project),
                file,
            )
        }),
{
    let inputs = s.input_values();
    let file = inputs[project.files as int]->Files_0[at];
    let key = QueryView::CheckFile(root_of(inputs, project), file);
    let id = s.keys.index_of(QueryView::Compile(project));
    assert(s.has_entry(id));
    assert(crate::state::entry_ok(&Compiler, s, id));
    assert(crate::state::entry_fresh(&Compiler, s, id));
    lemma_compile_meaning(inputs, project, s.node(id));
    let e = s.entry(id);
    let named = s.dep_keys(e.deps);
    assert(named == compile_reads(inputs, project));
    assert(named[at + 2] == Dep::Query(key));
    assert(named[at + 2] == s.dep_key(e.deps[at + 2]));
    let dep = e.deps[at + 2];
    assert(s.dep_known(dep) && s.dep_current(dep));
    let q = dep->Query_0 as int;
    assert(s.keys[q] == key);
    crate::interner::lemma_index_unique(s.keys, q, key);
    assert(crate::state::entry_ok(&Compiler, s, q));
    assert(crate::state::entry_fresh(&Compiler, s, q));
    lemma_check_file_meaning(inputs, root_of(inputs, project), file, s.node(q));
}

} // verus!
