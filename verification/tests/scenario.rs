use incremental::compiler::{Compiler, Diagnostic, File, Project, Query, Value};
use incremental::database::{Database, EngineError};
use incremental::queries::{
    check_file, compile_diagnostics, compile_project, get_file_module, get_project_module, parse,
    resolve,
};
use incremental::module::{Module, ModuleInner};
use incremental::state::Event;

fn text(s: &str) -> Vec<char> {
    s.chars().collect()
}

fn string(t: &[char]) -> String {
    t.iter().collect()
}

fn runs_of(db: &Database<Compiler>, key: &Query) -> usize {
    db.events()
        .iter()
        .filter(|e| match e {
            Event::Recomputed(id) => db.resolve(*id) == key,
            _ => false,
        })
        .count()
}

fn two_files(db: &mut Database<Compiler>) -> (File, File, Project) {
    let file1 = File::new(db, text("file1"), text("abc\nfoo")).unwrap();
    let file2 = File::new(db, text("file2"), text("file1.foo\n                test")).unwrap();
    let project = Project::new(db, vec![file1, file2]).unwrap();
    (file1, file2, project)
}

fn export(name: &str) -> Module {
    Module { name: text(name), inner: ModuleInner::Export }
}

fn dir(name: &str, children: Vec<Module>) -> Module {
    Module { name: text(name), inner: ModuleInner::Dir(children) }
}

#[test]
fn two_files_three_passes() {
    let mut db = Database::new(Compiler);
    let (file1, file2, project) = two_files(&mut db);

    // `file1.foo` resolves through the project's module tree; `abc` names
    // nothing in it.
    let first = compile_diagnostics(&mut db, project).unwrap();
    assert_eq!(first.len(), 1);
    assert_eq!(string(&first[0].message), "module not found: abc");
    assert_eq!(string(&first[0].file), "file1");
    assert_eq!(runs_of(&db, &Query::Parse(file1)), 1);
    assert_eq!(runs_of(&db, &Query::Parse(file2)), 1);

    file1.set_content(&mut db, text("file2\n    foo")).unwrap();
    let second = compile_diagnostics(&mut db, project).unwrap();
    assert_eq!(second.len(), 0);
    assert_eq!(runs_of(&db, &Query::Parse(file1)), 2);
    assert_eq!(runs_of(&db, &Query::Parse(file2)), 1);

    file1.set_content(&mut db, text("file2\n    foo test")).unwrap();
    let third = compile_diagnostics(&mut db, project).unwrap();
    assert_eq!(third.len(), 0);
    assert_eq!(runs_of(&db, &Query::Parse(file1)), 3);
    assert_eq!(runs_of(&db, &Query::Parse(file2)), 1);
}

#[test]
fn import_of_a_file_that_is_not_there() {
    let mut db = Database::new(Compiler);
    let file1 = File::new(&mut db, text("file1"), text("file2\n    foo")).unwrap();
    let project = Project::new(&mut db, vec![file1]).unwrap();

    let first = compile_diagnostics(&mut db, project).unwrap();
    assert_eq!(first.len(), 1);
    assert_eq!(string(&first[0].message), "module not found: file2");
    assert_eq!(string(&first[0].file), "file1");

    file1.set_content(&mut db, text("file2\n    foo test")).unwrap();
    let second = compile_diagnostics(&mut db, project).unwrap();
    assert_eq!(second.len(), 1);
    assert_eq!(string(&second[0].message), "module not found: file2");
    assert_eq!(string(&second[0].file), "file1");
    assert_eq!(runs_of(&db, &Query::Parse(file1)), 2);
}

#[test]
fn repeating_a_query_runs_nothing() {
    let mut db = Database::new(Compiler);
    let (_, _, project) = two_files(&mut db);
    let first = compile_diagnostics(&mut db, project).unwrap();
    let seen = db.drain_events();
    assert!(seen.iter().any(|e| matches!(e, Event::Recomputed(_))));

    let again = compile_diagnostics(&mut db, project).unwrap();
    assert_eq!(first, again);
    let id = db.events()[0];
    assert_eq!(db.events().len(), 1);
    match id {
        Event::CacheHit(id) => assert_eq!(db.resolve(id), &Query::Compile(project)),
        other => panic!("{:?}", other),
    }
}

#[test]
fn unchanged_parse_result_cuts_off_early() {
    let mut db = Database::new(Compiler);
    let (file1, file2, project) = two_files(&mut db);
    compile_project(&mut db, project).unwrap();
    db.drain_events();

    // more white space: another content, the same imports and exports
    file1.set_content(&mut db, text("abc  \n  foo")).unwrap();
    compile_project(&mut db, project).unwrap();
    assert_eq!(runs_of(&db, &Query::Parse(file1)), 1);
    assert_eq!(runs_of(&db, &Query::Parse(file2)), 0);
    assert_eq!(runs_of(&db, &Query::FileModule(file1)), 0);
    assert_eq!(runs_of(&db, &Query::ProjectModule(project)), 0);
    assert_eq!(runs_of(&db, &Query::Compile(project)), 0);
    let all: usize = db.events().iter().filter(|e| matches!(e, Event::Recomputed(_))).count();
    assert_eq!(all, 1);
}

#[test]
fn unchanged_module_cuts_off_above_it() {
    let mut db = Database::new(Compiler);
    let (file1, _, project) = two_files(&mut db);
    compile_project(&mut db, project).unwrap();
    db.drain_events();

    // other imports, the same exports: the file's module is the same
    file1.set_content(&mut db, text("file2\n    foo")).unwrap();
    compile_project(&mut db, project).unwrap();
    assert_eq!(runs_of(&db, &Query::Parse(file1)), 1);
    assert_eq!(runs_of(&db, &Query::FileModule(file1)), 1);
    assert_eq!(runs_of(&db, &Query::ProjectModule(project)), 0);
    assert_eq!(runs_of(&db, &Query::Compile(project)), 0);
}

#[test]
fn incremental_equals_from_scratch() {
    let contents = ["file2\n    foo", "nothing.here x.y\nfoo test", "file2.test\nbar", "abc\nfoo"];
    let mut db = Database::new(Compiler);
    let (file1, _, project) = two_files(&mut db);
    compile_diagnostics(&mut db, project).unwrap();
    for content in contents {
        file1.set_content(&mut db, text(content)).unwrap();
        let incremental = compile_diagnostics(&mut db, project).unwrap();

        let mut fresh = Database::new(Compiler);
        let a = File::new(&mut fresh, text("file1"), text(content)).unwrap();
        let b = File::new(&mut fresh, text("file2"), text("file1.foo\n                test"))
            .unwrap();
        let p = Project::new(&mut fresh, vec![a, b]).unwrap();
        let scratch = compile_diagnostics(&mut fresh, p).unwrap();
        assert_eq!(incremental, scratch);
    }
}

#[test]
fn findings_come_in_the_order_of_files_and_imports() {
    let mut db = Database::new(Compiler);
    let a = File::new(&mut db, text("a"), text("x y b.q\np")).unwrap();
    let b = File::new(&mut db, text("b"), text("a.p z\nq")).unwrap();
    let project = Project::new(&mut db, vec![a, b]).unwrap();
    let found = compile_diagnostics(&mut db, project).unwrap();
    let expected = vec![
        Diagnostic { message: text("module not found: x"), file: text("a") },
        Diagnostic { message: text("module not found: y"), file: text("a") },
        Diagnostic { message: text("module not found: z"), file: text("b") },
    ];
    assert_eq!(found, expected);
}

#[test]
fn parse_reads_two_lines() {
    let mut db = Database::new(Compiler);
    let file = File::new(&mut db, text("f"), text("a.b  c\n d e  ")).unwrap();
    let ast = parse(&mut db, file).unwrap();
    assert_eq!(ast.imports, vec![text("a.b"), text("c")]);
    assert_eq!(ast.exports, vec![text("d"), text("e")]);
}

#[test]
fn parse_of_three_lines_is_a_fault() {
    let mut db = Database::new(Compiler);
    let file = File::new(&mut db, text("f"), text("a\nb\nc")).unwrap();
    match parse(&mut db, file) {
        Err(EngineError::Fault(Value::Text(content))) => assert_eq!(content, text("a\nb\nc")),
        other => panic!("{:?}", other),
    }
    // the fault reaches the queries above and leaves the database usable
    let project = Project::new(&mut db, vec![file]).unwrap();
    assert!(matches!(compile_project(&mut db, project), Err(EngineError::Fault(_))));
    file.set_content(&mut db, text("a\nb")).unwrap();
    assert_eq!(compile_diagnostics(&mut db, project).unwrap().len(), 1);
}

#[test]
fn a_fault_leaves_finished_siblings_cached() {
    let mut db = Database::new(Compiler);
    let good = File::new(&mut db, text("good"), text("\nx")).unwrap();
    let bad = File::new(&mut db, text("bad"), text("one line")).unwrap();
    let project = Project::new(&mut db, vec![good, bad]).unwrap();
    assert!(matches!(compile_project(&mut db, project), Err(EngineError::Fault(_))));
    db.drain_events();
    let module = get_file_module(&mut db, good).unwrap();
    assert_eq!(module, dir("good", vec![export("x")]));
    assert_eq!(db.events().len(), 1);
    assert!(matches!(db.events()[0], Event::CacheHit(_)));
}

#[test]
fn file_and_project_modules() {
    let mut db = Database::new(Compiler);
    let (file1, _, project) = two_files(&mut db);
    assert_eq!(get_file_module(&mut db, file1).unwrap(), dir("file1", vec![export("foo")]));
    let root = get_project_module(&mut db, project).unwrap();
    assert_eq!(
        root,
        dir(
            "root",
            vec![dir("file1", vec![export("foo")]), dir("file2", vec![export("test")])]
        )
    );
}

#[test]
fn resolve_follows_a_path() {
    let mut db = Database::new(Compiler);
    let tree = || {
        dir(
            "root",
            vec![
                dir("a", vec![export("x"), export("y")]),
                dir("b", vec![]),
                dir("a", vec![export("z")]),
            ],
        )
    };
    assert_eq!(resolve(&mut db, tree(), vec![]).unwrap(), Some(tree()));
    assert_eq!(resolve(&mut db, tree(), vec![text("a"), text("y")]).unwrap(), Some(export("y")));
    assert_eq!(resolve(&mut db, tree(), vec![text("b")]).unwrap(), Some(dir("b", vec![])));
    // the first module of a name is the one that is searched
    assert_eq!(resolve(&mut db, tree(), vec![text("a"), text("z")]).unwrap(), None);
    assert_eq!(resolve(&mut db, tree(), vec![text("c")]).unwrap(), None);
    assert_eq!(resolve(&mut db, tree(), vec![text("a"), text("x"), text("w")]).unwrap(), None);
    assert_eq!(resolve(&mut db, export("e"), vec![text("e")]).unwrap(), None);
}

#[test]
fn check_file_notes_what_does_not_resolve() {
    let mut db = Database::new(Compiler);
    let (file1, file2, project) = two_files(&mut db);
    let root = get_project_module(&mut db, project).unwrap();
    let copy = get_project_module(&mut db, project).unwrap();
    let again = get_project_module(&mut db, project).unwrap();
    check_file(&mut db, root, file1).unwrap();
    let notes = db.collect_accumulated(&Query::CheckFile(copy, file1), 0);
    assert_eq!(
        notes,
        vec![Diagnostic { message: text("module not found: abc"), file: text("file1") }]
    );
    let other = get_project_module(&mut db, project).unwrap();
    check_file(&mut db, again, file2).unwrap();
    assert_eq!(db.collect_accumulated(&Query::CheckFile(other, file2), 0).len(), 0);
}

#[test]
fn notes_of_another_kind_are_not_collected() {
    let mut db = Database::new(Compiler);
    let (_, _, project) = two_files(&mut db);
    compile_project(&mut db, project).unwrap();
    assert_eq!(db.collect_accumulated(&Query::Compile(project), 0).len(), 1);
    assert_eq!(db.collect_accumulated(&Query::Compile(project), 1).len(), 0);
    assert_eq!(db.accumulated(&Query::Compile(project), 7).unwrap().len(), 0);
}

#[test]
fn a_query_that_never_ran_has_no_notes() {
    let mut db = Database::new(Compiler);
    let (_, _, project) = two_files(&mut db);
    assert_eq!(db.collect_accumulated(&Query::Compile(project), 0).len(), 0);
}

#[test]
fn limits_are_reported() {
    let mut shallow = Database::with_limits(Compiler, 1, 65536);
    let (_, _, project) = two_files(&mut shallow);
    assert!(matches!(compile_project(&mut shallow, project), Err(EngineError::DepthExceeded)));

    let mut short = Database::with_limits(Compiler, 256, 3);
    let (file1, _, project) = two_files(&mut short);
    assert!(parse(&mut short, file1).is_ok());
    assert!(matches!(compile_project(&mut short, project), Err(EngineError::TooManyReads)));
}

#[test]
fn a_cell_that_was_never_declared() {
    let mut db = Database::new(Compiler);
    let ghost = File { name: 40, content: 41 };
    assert!(matches!(parse(&mut db, ghost), Err(EngineError::UnknownInput)));
    assert!(matches!(ghost.set_content(&mut db, text("x")), Err(EngineError::UnknownInput)));
    assert!(matches!(db.read_input(41), Err(EngineError::UnknownInput)));
}

#[test]
fn a_cell_of_the_wrong_shape_is_a_fault() {
    let mut db = Database::new(Compiler);
    let files = db.declare_input(Value::Files(vec![])).unwrap();
    let odd = File { name: files, content: files };
    match parse(&mut db, odd) {
        Err(EngineError::Fault(value)) => assert_eq!(value, Value::Files(vec![])),
        other => panic!("{:?}", other),
    }
}
