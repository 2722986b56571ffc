//! A small client of the engine: files that import and export names, the
//! module tree of a project, and a check that every import resolves.
use crate::datum::{lemma_models_empty, mix, mixed, models, Datum};
use crate::module::{
    copy_module, hash_module, lemma_module_views, module_digest, module_view, module_views,
    same_module, InnerView, Module, ModuleInner, ModuleView,
};
use crate::program::{Plan, Program, Step};
use crate::text::{
    copy_text, copy_texts, hash_text, hash_texts, lines, same_text, same_texts, split,
    split_lines, split_on, split_words, text_digest, texts, texts_digest, words,
};
use vstd::prelude::*;

verus! {

/// An input file: the cells that hold its name and its content.
#[derive(Clone, Copy, Debug, PartialEq, Eq, Structural)]
pub struct File {
    pub name: usize,
    pub content: usize,
}

/// An input project: the cell that holds its list of files.
#[derive(Clone, Copy, Debug, PartialEq, Eq, Structural)]
pub struct Project {
    pub files: usize,
}

/// What a file imports and exports.
#[derive(Debug, PartialEq, Eq)]
pub struct Ast {
    pub imports: Vec<Vec<char>>,
    pub exports: Vec<Vec<char>>,
}

pub struct AstView {
    pub imports: Seq<Seq<char>>,
    pub exports: Seq<Seq<char>>,
}

/// A finding about a file.
#[derive(Debug, PartialEq, Eq)]
pub struct Diagnostic {
    pub message: Vec<char>,
    pub file: Vec<char>,
}

pub struct DiagnosticView {
    pub message: Seq<char>,
    pub file: Seq<char>,
}

/// The values of input cells and queries.
#[derive(Debug, PartialEq, Eq)]
pub enum Value {
    Text(Vec<char>),
    Files(Vec<File>),
    Ast(Ast),
    Module(Module),
    Found(Option<Module>),
    Unit,
}

pub enum ValueView {
    Text(Seq<char>),
    Files(Seq<File>),
    Ast(AstView),
    Module(ModuleView),
    Found(Option<ModuleView>),
    Unit,
}

/// The queries.
#[derive(Debug, PartialEq, Eq)]
pub enum Query {
    /// The imports and exports of a file.
    Parse(File),
    /// The module that a path leads to from a module, if any.
    Resolve(Module, Vec<Vec<char>>),
    /// The module of a file: a directory of its exports.
    FileModule(File),
    /// The module of a project: the directory `root` of its files' modules.
    ProjectModule(Project),
    /// Notes each import of a file that does not resolve from a module.
    CheckFile(Module, File),
    /// Checks every file of a project against the project's module.
    Compile(Project),
}

pub enum QueryView {
    Parse(File),
    Resolve(ModuleView, Seq<Seq<char>>),
    FileModule(File),
    ProjectModule(Project),
    CheckFile(ModuleView, File),
    Compile(Project),
}

impl View for Ast {
    type V = AstView;

    open spec fn view(&self) -> AstView {
        AstView { imports: texts(self.imports@), exports: texts(self.exports@) }
    }
}

impl View for Diagnostic {
    type V = DiagnosticView;

    open spec fn view(&self) -> DiagnosticView {
        DiagnosticView { message: self.message@, file: self.file@ }
    }
}

impl View for Value {
    type V = ValueView;

    open spec fn view(&self) -> ValueView {
        match *self {
            Value::Text(text) => ValueView::Text(text@),
            Value::Files(files) => ValueView::Files(files@),
            Value::Ast(ast) => ValueView::Ast(ast@),
            Value::Module(module) => ValueView::Module(module_view(module)),
            Value::Found(Some(module)) => ValueView::Found(Some(module_view(module))),
            Value::Found(None) => ValueView::Found(None),
            Value::Unit => ValueView::Unit,
        }
    }
}

impl View for Query {
    type V = QueryView;

    open spec fn view(&self) -> QueryView {
        match *self {
            Query::Parse(file) => QueryView::Parse(file),
            Query::Resolve(module, path) => QueryView::Resolve(module_view(module), texts(path@)),
            Query::FileModule(file) => QueryView::FileModule(file),
            Query::ProjectModule(project) => QueryView::ProjectModule(project),
            Query::CheckFile(module, file) => QueryView::CheckFile(module_view(module), file),
            Query::Compile(project) => QueryView::Compile(project),
        }
    }
}

/// Whether two lists of files are equal.
pub fn same_files(left: &Vec<File>, right: &Vec<File>) -> (b: bool)
    ensures
        b == (left@ == right@),
{
    if left.len() != right.len() {
        return false;
    }
    let mut i: usize = 0;
    while i < left.len()
        invariant
            i <= left.len(),
            left.len() == right.len(),
            forall|j: int| 0 <= j < i ==> left@[j] == right@[j],
        decreases left.len() - i,
    {
        if !(left[i] == right[i]) {
            return false;
        }
        i += 1;
    }
    assert(left@ =~= right@);
    true
}

/// A copy of a list of files.
pub fn copy_files(files: &Vec<File>) -> (copy: Vec<File>)
    ensures
        copy@ == files@,
{
    let mut copy: Vec<File> = Vec::new();
    let mut i: usize = 0;
    while i < files.len()
        invariant
            i <= files.len(),
            copy@ == files@.take(i as int),
        decreases files.len() - i,
    {
        copy.push(files[i]);
        assert(files@.take(i + 1) =~= files@.take(i as int).push(files@[i as int]));
        i += 1;
    }
    assert(files@.take(files@.len() as int) =~= files@);
    copy
}

/// The digest of a file: its two cells mixed.
pub open spec fn file_digest(file: File) -> u64 {
    mixed(file.name as u64, file.content as u64)
}

pub fn hash_file(file: File) -> (h: u64)
    ensures
        h == file_digest(file),
{
    mix(file.name as u64, file.content as u64)
}

/// The digest of a list of files.
pub open spec fn files_digest(files: Seq<File>) -> u64
    decreases files.len(),
{
    if files.len() == 0 {
        0
    } else {
        mixed(files_digest(files.drop_last()), file_digest(files.last()))
    }
}

pub fn hash_files(files: &Vec<File>) -> (h: u64)
    ensures
        h == files_digest(files@),
{
    let mut h: u64 = 0;
    let mut i: usize = 0;
    proof {
        assert(files@.take(0) =~= Seq::empty());
    }
    while i < files.len()
        invariant
            i <= files.len(),
            h == files_digest(files@.take(i as int)),
        decreases files.len() - i,
    {
        proof {
            assert(files@.take(i + 1).drop_last() =~= files@.take(i as int));
            assert(files@.take(i + 1).last() == files@[i as int]);
        }
        h = mix(h, hash_file(files[i]));
        i += 1;
    }
    proof {
        assert(files@.take(files@.len() as int) =~= files@);
    }
    h
}

impl Datum for Diagnostic {
    type Model = DiagnosticView;

    open spec fn model(&self) -> DiagnosticView {
        self@
    }

    fn same(&self, other: &Self) -> (b: bool) {
        same_text(&self.message, &other.message) && same_text(&self.file, &other.file)
    }

    fn duplicate(&self) -> (c: Self) {
        Diagnostic { message: copy_text(&self.message), file: copy_text(&self.file) }
    }

    open spec fn digest(model: DiagnosticView) -> u64 {
        mixed(text_digest(model.message), text_digest(model.file))
    }

    fn hash(&self) -> (h: u64) {
        mix(hash_text(&self.message), hash_text(&self.file))
    }
}

impl Datum for Value {
    type Model = ValueView;

    open spec fn model(&self) -> ValueView {
        self@
    }

    fn same(&self, other: &Self) -> (b: bool) {
        match (self, other) {
            (Value::Text(mine), Value::Text(theirs)) => same_text(mine, theirs),
            (Value::Files(mine), Value::Files(theirs)) => same_files(mine, theirs),
            (Value::Ast(mine), Value::Ast(theirs)) => same_texts(&mine.imports, &theirs.imports)
                && same_texts(&mine.exports, &theirs.exports),
            (Value::Module(mine), Value::Module(theirs)) => same_module(mine, theirs),
            (Value::Found(Some(mine)), Value::Found(Some(theirs))) => same_module(mine, theirs),
            (Value::Found(None), Value::Found(None)) => true,
            (Value::Unit, Value::Unit) => true,
            _ => false,
        }
    }

    fn duplicate(&self) -> (c: Self) {
        match self {
            Value::Text(text) => Value::Text(copy_text(text)),
            Value::Files(files) => Value::Files(copy_files(files)),
            Value::Ast(ast) => Value::Ast(
                Ast { imports: copy_texts(&ast.imports), exports: copy_texts(&ast.exports) },
            ),
            Value::Module(module) => Value::Module(copy_module(module)),
            Value::Found(Some(module)) => Value::Found(Some(copy_module(module))),
            Value::Found(None) => Value::Found(None),
            Value::Unit => Value::Unit,
        }
    }

    open spec fn digest(model: ValueView) -> u64 {
        match model {
            ValueView::Text(text) => mixed(1, text_digest(text)),
            ValueView::Files(files) => mixed(2, files_digest(files)),
            ValueView::Ast(ast) => mixed(
                mixed(3, texts_digest(ast.imports)),
                texts_digest(ast.exports),
            ),
            ValueView::Module(module) => mixed(4, module_digest(module)),
            ValueView::Found(Some(module)) => mixed(5, module_digest(module)),
            ValueView::Found(None) => 6,
            ValueView::Unit => 7,
        }
    }

    fn hash(&self) -> (h: u64) {
        match self {
            Value::Text(text) => mix(1, hash_text(text)),
            Value::Files(files) => mix(2, hash_files(files)),
            Value::Ast(ast) => mix(mix(3, hash_texts(&ast.imports)), hash_texts(&ast.exports)),
            Value::Module(module) => mix(4, hash_module(module)),
            Value::Found(Some(module)) => mix(5, hash_module(module)),
            Value::Found(None) => 6,
            Value::Unit => 7,
        }
    }
}

impl Datum for Query {
    type Model = QueryView;

    open spec fn model(&self) -> QueryView {
        self@
    }

    fn same(&self, other: &Self) -> (b: bool) {
        match (self, other) {
            (Query::Parse(mine), Query::Parse(theirs)) => *mine == *theirs,
            (Query::Resolve(module, path), Query::Resolve(other_module, other_path)) => same_module(
                module,
                other_module,
            ) && same_texts(path, other_path),
            (Query::FileModule(mine), Query::FileModule(theirs)) => *mine == *theirs,
            (Query::ProjectModule(mine), Query::ProjectModule(theirs)) => *mine == *theirs,
            (Query::CheckFile(module, file), Query::CheckFile(other_module, other_file)) => {
                same_module(module, other_module) && *file == *other_file
            },
            (Query::Compile(mine), Query::Compile(theirs)) => *mine == *theirs,
            _ => false,
        }
    }

    fn duplicate(&self) -> (c: Self) {
        match self {
            Query::Parse(file) => Query::Parse(*file),
            Query::Resolve(module, path) => Query::Resolve(copy_module(module), copy_texts(path)),
            Query::FileModule(file) => Query::FileModule(*file),
            Query::ProjectModule(project) => Query::ProjectModule(*project),
            Query::CheckFile(module, file) => Query::CheckFile(copy_module(module), *file),
            Query::Compile(project) => Query::Compile(*project),
        }
    }

    open spec fn digest(model: QueryView) -> u64 {
        match model {
            QueryView::Parse(file) => mixed(1, file_digest(file)),
            QueryView::Resolve(module, path) => mixed(
                mixed(2, module_digest(module)),
                texts_digest(path),
            ),
            QueryView::FileModule(file) => mixed(3, file_digest(file)),
            QueryView::ProjectModule(project) => mixed(4, project.files as u64),
            QueryView::CheckFile(module, file) => mixed(
                mixed(5, module_digest(module)),
                file_digest(file),
            ),
            QueryView::Compile(project) => mixed(6, project.files as u64),
        }
    }

    fn hash(&self) -> (h: u64) {
        match self {
            Query::Parse(file) => mix(1, hash_file(*file)),
            Query::Resolve(module, path) => mix(mix(2, hash_module(module)), hash_texts(path)),
            Query::FileModule(file) => mix(3, hash_file(*file)),
            Query::ProjectModule(project) => mix(4, project.files as u64),
            Query::CheckFile(module, file) => mix(mix(5, hash_module(module)), hash_file(*file)),
            Query::Compile(project) => mix(6, project.files as u64),
        }
    }
}

/// The imports and exports that a file's content declares: the words of its
/// first line and the words of its second. A content that does not have
/// exactly two lines declares nothing.
pub open spec fn parsed(content: Seq<char>) -> Option<AstView> {
    let found = lines(content);
    if found.len() == 2 {
        Some(AstView { imports: words(found[0]), exports: words(found[1]) })
    } else {
        None
    }
}

/// Reads the imports and exports off a file's content.
pub fn parse_text(content: &Vec<char>) -> (r: Option<Ast>)
    ensures
        match r {
            Some(ast) => parsed(content@) == Some(ast@),
            None => parsed(content@) is None,
        },
{
    let found = split_lines(content);
    if found.len() != 2 {
        return None;
    }
    let imports = split_words(&found[0]);
    let exports = split_words(&found[1]);
    Some(Ast { imports, exports })
}

/// One export module for each name.
pub open spec fn exports_of(names: Seq<Seq<char>>) -> Seq<ModuleView> {
    Seq::new(names.len(), |i: int| ModuleView { name: names[i], inner: InnerView::Export })
}

/// The module of a file: the directory of its exports under the file's name.
pub open spec fn file_module(name: Seq<char>, exports: Seq<Seq<char>>) -> ModuleView {
    ModuleView { name, inner: InnerView::Dir(exports_of(exports)) }
}

pub fn build_file_module(name: &Vec<char>, exports: &Vec<Vec<char>>) -> (module: Module)
    ensures
        module_view(module) == file_module(name@, texts(exports@)),
{
    let mut children: Vec<Module> = Vec::new();
    let mut i: usize = 0;
    while i < exports.len()
        invariant
            i <= exports.len(),
            children@.len() == i,
            forall|j: int|
                0 <= j < i ==> module_view(#[trigger] children@[j]) == (ModuleView {
                    name: exports@[j]@,
                    inner: InnerView::Export,
                }),
        decreases exports.len() - i,
    {
        children.push(Module { name: copy_text(&exports[i]), inner: ModuleInner::Export });
        i += 1;
    }
    proof {
        lemma_module_views(children@);
        assert(module_views(children@) =~= exports_of(texts(exports@)));
    }
    Module { name: copy_text(name), inner: ModuleInner::Dir(children) }
}

/// The name of a project's module.
pub open spec fn root_name() -> Seq<char> {
    seq!['r', 'o', 'o', 't']
}

/// The module that a value holds; an empty export if it holds none.
pub open spec fn as_module(value: ValueView) -> ModuleView {
    match value {
        ValueView::Module(module) => module,
        _ => ModuleView { name: Seq::empty(), inner: InnerView::Export },
    }
}

/// The module of a project: the directory `root` of its files' modules.
pub open spec fn project_module(children: Seq<ValueView>) -> ModuleView {
    ModuleView {
        name: root_name(),
        inner: InnerView::Dir(Seq::new(children.len(), |i: int| as_module(children[i]))),
    }
}

/// Builds a project's module from the answers that follow the first.
pub fn build_project_module(answers: &Vec<Value>) -> (module: Module)
    requires
        answers@.len() >= 1,
    ensures
        module_view(module) == project_module(models(answers@).skip(1)),
{
    let mut children: Vec<Module> = Vec::new();
    let mut i: usize = 1;
    while i < answers.len()
        invariant
            1 <= i <= answers.len(),
            children@.len() == i - 1,
            forall|j: int|
                0 <= j < i - 1 ==> module_view(#[trigger] children@[j]) == as_module(
                    answers@[j + 1]@,
                ),
        decreases answers.len() - i,
    {
        let child = match &answers[i] {
            Value::Module(module) => copy_module(module),
            _ => Module { name: Vec::new(), inner: ModuleInner::Export },
        };
        children.push(child);
        i += 1;
    }
    let mut name: Vec<char> = Vec::new();
    name.push('r');
    name.push('o');
    name.push('o');
    name.push('t');
    proof {
        assert(name@ =~= root_name());
        lemma_module_views(children@);
        let rest = models(answers@).skip(1);
        assert(module_views(children@) =~= Seq::new(rest.len(), |i: int| as_module(rest[i])));
    }
    Module { name, inner: ModuleInner::Dir(children) }
}

/// The first of the modules that has the name, if any.
pub open spec fn find_child(children: Seq<ModuleView>, name: Seq<char>) -> Option<ModuleView>
    decreases children.len(),
{
    if children.len() == 0 {
        None
    } else {
        match find_child(children.drop_last(), name) {
            Some(module) => Some(module),
            None => if children.last().name == name {
                Some(children.last())
            } else {
                None
            },
        }
    }
}

/// The position of the first module that has the name, if any.
pub fn find_child_of(children: &Vec<Module>, name: &Vec<char>) -> (at: Option<usize>)
    ensures
        match at {
            Some(i) => i < children@.len() && find_child(module_views(children@), name@) == Some(
                module_view(children@[i as int]),
            ),
            None => find_child(module_views(children@), name@) is None,
        },
{
    let ghost all = module_views(children@);
    let mut at: Option<usize> = None;
    let mut i: usize = 0;
    proof {
        lemma_module_views(children@);
        assert(all.take(0) =~= Seq::empty());
    }
    while i < children.len()
        invariant
            i <= children.len(),
            all == module_views(children@),
            all.len() == children@.len(),
            forall|j: int| 0 <= j < all.len() ==> (#[trigger] all[j]) == module_view(children@[j]),
            match at {
                Some(k) => k < i && find_child(all.take(i as int), name@) == Some(
                    module_view(children@[k as int]),
                ),
                None => find_child(all.take(i as int), name@) is None,
            },
        decreases children.len() - i,
    {
        proof {
            assert(all.take(i + 1).drop_last() =~= all.take(i as int));
            assert(all.take(i + 1).last() == all[i as int]);
        }
        if at.is_none() && same_text(&children[i].name, name) {
            at = Some(i);
        }
        i += 1;
    }
    proof {
        assert(all.take(all.len() as int) =~= all);
    }
    at
}

/// The module that `path` leads to from `module`: each segment names a
/// module in the directory reached so far; the empty path leads to the
/// module itself.
pub open spec fn find_module(module: ModuleView, path: Seq<Seq<char>>) -> Option<ModuleView>
    decreases path.len(),
{
    if path.len() == 0 {
        Some(module)
    } else {
        match module.inner {
            InnerView::Dir(children) => match find_child(children, path[0]) {
                Some(child) => find_module(child, path.skip(1)),
                None => None,
            },
            InnerView::Export => None,
        }
    }
}

type Planned = Plan<QueryView, ValueView, DiagnosticView>;

/// The body of `Parse`: read the content, then declare what it says; a
/// content that does not have two lines is a fault.
pub open spec fn parse_plan(file: File, answers: Seq<ValueView>) -> Planned {
    if answers.len() == 0 {
        Plan::Read(file.content)
    } else {
        match answers[0] {
            ValueView::Text(content) => match parsed(content) {
                Some(ast) => Plan::Done(ValueView::Ast(ast), Seq::empty()),
                None => Plan::Fail(ValueView::Text(content)),
            },
            other => Plan::Fail(other),
        }
    }
}

/// The body of `FileModule`: parse the file, read its name, build the module.
pub open spec fn file_module_plan(file: File, answers: Seq<ValueView>) -> Planned {
    if answers.len() == 0 {
        Plan::Call(QueryView::Parse(file))
    } else if !(answers[0] is Ast) {
        Plan::Fail(answers[0])
    } else if answers.len() == 1 {
        Plan::Read(file.name)
    } else if !(answers[1] is Text) {
        Plan::Fail(answers[1])
    } else {
        Plan::Done(
            ValueView::Module(file_module(answers[1]->Text_0, answers[0]->Ast_0.exports)),
            Seq::empty(),
        )
    }
}

/// The body of `ProjectModule`: read the list of files, ask for each file's
/// module in turn, build the root directory.
pub open spec fn project_module_plan(project: Project, answers: Seq<ValueView>) -> Planned {
    if answers.len() == 0 {
        Plan::Read(project.files)
    } else if !(answers[0] is Files) {
        Plan::Fail(answers[0])
    } else if answers.len() > 1 && !(answers.last() is Module) {
        Plan::Fail(answers.last())
    } else if answers.len() - 1 < answers[0]->Files_0.len() {
        Plan::Call(QueryView::FileModule(answers[0]->Files_0[answers.len() - 1]))
    } else {
        Plan::Done(ValueView::Module(project_module(answers.skip(1))), Seq::empty())
    }
}

/// The body of `Resolve`: the empty path leads to the module itself; else
/// the first segment names a child, from which the rest is resolved.
pub open spec fn resolve_plan(
    module: ModuleView,
    path: Seq<Seq<char>>,
    answers: Seq<ValueView>,
) -> Planned {
    if path.len() == 0 {
        Plan::Done(ValueView::Found(Some(module)), Seq::empty())
    } else {
        match module.inner {
            InnerView::Dir(children) => match find_child(children, path[0]) {
                Some(child) => if answers.len() == 0 {
                    Plan::Call(QueryView::Resolve(child, path.skip(1)))
                } else if answers[0] is Found {
                    Plan::Done(answers[0], Seq::empty())
                } else {
                    Plan::Fail(answers[0])
                },
                None => Plan::Done(ValueView::Found(None), Seq::empty()),
            },
            InnerView::Export => Plan::Done(ValueView::Found(None), Seq::empty()),
        }
    }
}

/// The words that open a finding about an import that does not resolve.
pub open spec fn not_found() -> Seq<char> {
    seq![
        'm',
        'o',
        'd',
        'u',
        'l',
        'e',
        ' ',
        'n',
        'o',
        't',
        ' ',
        'f',
        'o',
        'u',
        'n',
        'd',
        ':',
        ' ',
    ]
}

/// One finding for each import whose path led nowhere, in the order of the
/// imports; `found[i]` is what the path of `imports[i]` led to.
pub open spec fn missing(
    file_name: Seq<char>,
    imports: Seq<Seq<char>>,
    found: Seq<ValueView>,
) -> Seq<DiagnosticView>
    decreases imports.len(),
{
    if imports.len() == 0 {
        Seq::empty()
    } else {
        let before = missing(file_name, imports.drop_last(), found);
        let at = imports.len() - 1;
        if at < found.len() && found[at] == ValueView::Found(None) {
            before.push(
                DiagnosticView { message: not_found() + imports.last(), file: file_name },
            )
        } else {
            before
        }
    }
}

/// The body of `CheckFile`: read the file's name, parse it, resolve each
/// import's dotted path from the module, and note the imports that lead
/// nowhere.
pub open spec fn check_file_plan(
    module: ModuleView,
    file: File,
    answers: Seq<ValueView>,
) -> Planned {
    if answers.len() == 0 {
        Plan::Read(file.name)
    } else if !(answers[0] is Text) {
        Plan::Fail(answers[0])
    } else if answers.len() == 1 {
        Plan::Call(QueryView::Parse(file))
    } else if !(answers[1] is Ast) {
        Plan::Fail(answers[1])
    } else if answers.len() > 2 && !(answers.last() is Found) {
        Plan::Fail(answers.last())
    } else if answers.len() - 2 < answers[1]->Ast_0.imports.len() {
        Plan::Call(
            QueryView::Resolve(module, split(answers[1]->Ast_0.imports[answers.len() - 2], '.')),
        )
    } else {
        Plan::Done(
            ValueView::Unit,
            missing(answers[0]->Text_0, answers[1]->Ast_0.imports, answers.skip(2)),
        )
    }
}

/// The body of `Compile`: ask for the project's module, read the list of
/// files, check each file against the module.
pub open spec fn compile_plan(project: Project, answers: Seq<ValueView>) -> Planned {
    if answers.len() == 0 {
        Plan::Call(QueryView::ProjectModule(project))
    } else if !(answers[0] is Module) {
        Plan::Fail(answers[0])
    } else if answers.len() == 1 {
        Plan::Read(project.files)
    } else if !(answers[1] is Files) {
        Plan::Fail(answers[1])
    } else if answers.len() - 2 < answers[1]->Files_0.len() {
        Plan::Call(
            QueryView::CheckFile(answers[0]->Module_0, answers[1]->Files_0[answers.len() - 2]),
        )
    } else {
        Plan::Done(ValueView::Unit, Seq::empty())
    }
}

/// What the body of each query asks for next.
pub open spec fn plan_of(key: QueryView, answers: Seq<ValueView>) -> Planned {
    match key {
        QueryView::Parse(file) => parse_plan(file, answers),
        QueryView::Resolve(module, path) => resolve_plan(module, path, answers),
        QueryView::FileModule(file) => file_module_plan(file, answers),
        QueryView::ProjectModule(project) => project_module_plan(project, answers),
        QueryView::CheckFile(module, file) => check_file_plan(module, file, answers),
        QueryView::Compile(project) => compile_plan(project, answers),
    }
}

type Stepped = Step<Query, Value, Diagnostic>;

fn done(value: Value) -> (s: Stepped)
    ensures
        s.model() == Planned::Done(value@, Seq::empty()),
{
    proof {
        lemma_models_empty::<Diagnostic>();
    }
    Step::Done(value, Vec::new())
}

fn fail(value: &Value) -> (s: Stepped)
    ensures
        s.model() == Planned::Fail(value@),
{
    Step::Fail(value.duplicate())
}

/// The body of `Parse`.
pub fn parse_body(file: File, answers: &Vec<Value>) -> (s: Stepped)
    ensures
        s.model() == parse_plan(file, models(answers@)),
{
    if answers.len() == 0 {
        return Step::Read(file.content);
    }
    match &answers[0] {
        Value::Text(content) => match parse_text(content) {
            Some(ast) => done(Value::Ast(ast)),
            None => fail(&answers[0]),
        },
        _ => fail(&answers[0]),
    }
}

/// The body of `FileModule`.
pub fn file_module_body(file: File, answers: &Vec<Value>) -> (s: Stepped)
    ensures
        s.model() == file_module_plan(file, models(answers@)),
{
    if answers.len() == 0 {
        return Step::Call(Query::Parse(file));
    }
    let Value::Ast(ast) = &answers[0] else {
        return fail(&answers[0]);
    };
    if answers.len() == 1 {
        return Step::Read(file.name);
    }
    let Value::Text(name) = &answers[1] else {
        return fail(&answers[1]);
    };
    done(Value::Module(build_file_module(name, &ast.exports)))
}

/// The body of `ProjectModule`.
pub fn project_module_body(project: Project, answers: &Vec<Value>) -> (s: Stepped)
    ensures
        s.model() == project_module_plan(project, models(answers@)),
{
    if answers.len() == 0 {
        return Step::Read(project.files);
    }
    let Value::Files(files) = &answers[0] else {
        return fail(&answers[0]);
    };
    let last = answers.len() - 1;
    if answers.len() > 1 {
        let Value::Module(_) = &answers[last] else {
            return fail(&answers[last]);
        };
    }
    if last < files.len() {
        return Step::Call(Query::FileModule(files[last]));
    }
    done(Value::Module(build_project_module(answers)))
}

/// The segments of a path after the first.
fn rest_of(path: &Vec<Vec<char>>) -> (rest: Vec<Vec<char>>)
    requires
        path@.len() >= 1,
    ensures
        texts(rest@) == texts(path@).skip(1),
{
    let mut rest: Vec<Vec<char>> = Vec::new();
    let mut i: usize = 1;
    while i < path.len()
        invariant
            1 <= i <= path.len(),
            rest@.len() == i - 1,
            forall|j: int| 0 <= j < i - 1 ==> (#[trigger] rest@[j])@ == path@[j + 1]@,
        decreases path.len() - i,
    {
        rest.push(copy_text(&path[i]));
        i += 1;
    }
    proof {
        assert(texts(rest@) =~= texts(path@).skip(1));
    }
    rest
}

/// The body of `Resolve`.
pub fn resolve_body(module: &Module, path: &Vec<Vec<char>>, answers: &Vec<Value>) -> (s: Stepped)
    ensures
        s.model() == resolve_plan(module_view(*module), texts(path@), models(answers@)),
{
    if path.len() == 0 {
        return done(Value::Found(Some(copy_module(module))));
    }
    match &module.inner {
        ModuleInner::Export => done(Value::Found(None)),
        ModuleInner::Dir(children) => match find_child_of(children, &path[0]) {
            None => done(Value::Found(None)),
            Some(at) => {
                if answers.len() == 0 {
                    return Step::Call(Query::Resolve(copy_module(&children[at]), rest_of(path)));
                }
                match &answers[0] {
                    Value::Found(_) => done(answers[0].duplicate()),
                    _ => fail(&answers[0]),
                }
            },
        },
    }
}

/// The words that open a finding about an import that does not resolve.
pub fn not_found_text() -> (text: Vec<char>)
    ensures
        text@ == not_found(),
{
    let mut text: Vec<char> = Vec::new();
    text.push('m');
    text.push('o');
    text.push('d');
    text.push('u');
    text.push('l');
    text.push('e');
    text.push(' ');
    text.push('n');
    text.push('o');
    text.push('t');
    text.push(' ');
    text.push('f');
    text.push('o');
    text.push('u');
    text.push('n');
    text.push('d');
    text.push(':');
    text.push(' ');
    assert(text@ =~= not_found());
    text
}

/// The finding that `import` does not resolve, about the file `file_name`.
pub fn not_found_diagnostic(import: &Vec<char>, file_name: &Vec<char>) -> (d: Diagnostic)
    ensures
        d@ == (DiagnosticView { message: not_found() + import@, file: file_name@ }),
{
    let mut message = not_found_text();
    let mut i: usize = 0;
    while i < import.len()
        invariant
            i <= import.len(),
            message@ == not_found() + import@.take(i as int),
        decreases import.len() - i,
    {
        message.push(import[i]);
        proof {
            assert(not_found() + import@.take(i + 1) =~= (not_found() + import@.take(
                i as int,
            )).push(import@[i as int]));
        }
        i += 1;
    }
    proof {
        assert(import@.take(import@.len() as int) =~= import@);
    }
    Diagnostic { message, file: copy_text(file_name) }
}

/// The body of `CheckFile`.
pub fn check_file_body(module: &Module, file: File, answers: &Vec<Value>) -> (s: Stepped)
    ensures
        s.model() == check_file_plan(module_view(*module), file, models(answers@)),
{
    if answers.len() == 0 {
        return Step::Read(file.name);
    }
    let Value::Text(name) = &answers[0] else {
        return fail(&answers[0]);
    };
    if answers.len() == 1 {
        return Step::Call(Query::Parse(file));
    }
    let Value::Ast(ast) = &answers[1] else {
        return fail(&answers[1]);
    };
    let last = answers.len() - 1;
    if answers.len() > 2 {
        let Value::Found(_) = &answers[last] else {
            return fail(&answers[last]);
        };
    }
    let next = answers.len() - 2;
    if next < ast.imports.len() {
        return Step::Call(Query::Resolve(copy_module(module), split_on(&ast.imports[next], '.')));
    }
    let ghost found = models(answers@).skip(2);
    let ghost imports = texts(ast.imports@);
    let mut notes: Vec<Diagnostic> = Vec::new();
    let mut i: usize = 0;
    proof {
        assert(imports.take(0) =~= Seq::empty());
        assert(models(notes@) =~= Seq::empty());
    }
    while i < ast.imports.len()
        invariant
            i <= ast.imports.len(),
            ast.imports.len() + 2 <= answers.len(),
            found == models(answers@).skip(2),
            imports == texts(ast.imports@),
            models(notes@) == missing(name@, imports.take(i as int), found),
        decreases ast.imports.len() - i,
    {
        let ghost before = models(notes@);
        proof {
            assert(imports.take(i + 1).drop_last() =~= imports.take(i as int));
            assert(imports.take(i + 1).last() == ast.imports@[i as int]@);
            assert(found[i as int] == answers@[i + 2]@);
        }
        let absent = match &answers[i + 2] {
            Value::Found(None) => true,
            _ => false,
        };
        if absent {
            let note = not_found_diagnostic(&ast.imports[i], name);
            notes.push(note);
            proof {
                assert(models(notes@) =~= before.push(note@));
            }
        }
        i += 1;
    }
    proof {
        assert(imports.take(imports.len() as int) =~= imports);
    }
    Step::Done(Value::Unit, notes)
}

/// The body of `Compile`.
pub fn compile_body(project: Project, answers: &Vec<Value>) -> (s: Stepped)
    ensures
        s.model() == compile_plan(project, models(answers@)),
{
    if answers.len() == 0 {
        return Step::Call(Query::ProjectModule(project));
    }
    let Value::Module(module) = &answers[0] else {
        return fail(&answers[0]);
    };
    if answers.len() == 1 {
        return Step::Read(project.files);
    }
    let Value::Files(files) = &answers[1] else {
        return fail(&answers[1]);
    };
    let next = answers.len() - 2;
    if next < files.len() {
        return Step::Call(Query::CheckFile(copy_module(module), files[next]));
    }
    done(Value::Unit)
}

/// The kind of every `Diagnostic`.
pub const DIAGNOSTIC: u64 = 0;

/// The program made of the six queries.
pub struct Compiler;

impl Program for Compiler {
    type Key = Query;

    type Value = Value;

    type Note = Diagnostic;

    open spec fn plan(&self, key: QueryView, answers: Seq<ValueView>) -> Planned {
        plan_of(key, answers)
    }

    fn step(&self, key: &Query, answers: &Vec<Value>) -> (s: Stepped) {
        match key {
            Query::Parse(file) => parse_body(*file, answers),
            Query::Resolve(module, path) => resolve_body(module, path, answers),
            Query::FileModule(file) => file_module_body(*file, answers),
            Query::ProjectModule(project) => project_module_body(*project, answers),
            Query::CheckFile(module, file) => check_file_body(module, *file, answers),
            Query::Compile(project) => compile_body(*project, answers),
        }
    }

    open spec fn kind(&self, note: DiagnosticView) -> u64 {
        DIAGNOSTIC
    }

    fn kind_of(&self, note: &Diagnostic) -> (kind: u64) {
        DIAGNOSTIC
    }
}

} // verus!
