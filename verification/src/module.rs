//! Module trees: a module exports a name or is a directory of modules.
use crate::datum::{lemma_text_model, mix, mixed, Datum};
use crate::text::{hash_text, text_digest};
use vstd::prelude::*;

verus! {

/// A module tree.
#[derive(Debug, PartialEq, Eq)]
pub struct Module {
    pub name: Vec<char>,
    pub inner: ModuleInner,
}

#[derive(Debug, PartialEq, Eq)]
pub enum ModuleInner {
    /// A name that a file exports.
    Export,
    /// A directory of modules.
    Dir(Vec<Module>),
}

pub struct ModuleView {
    pub name: Seq<char>,
    pub inner: InnerView,
}

pub enum InnerView {
    Export,
    Dir(Seq<ModuleView>),
}

/// The model of a module tree.
pub open spec fn module_view(module: Module) -> ModuleView
    decreases module, 1nat,
{
    ModuleView {
        name: module.name@,
        inner: match module.inner {
            ModuleInner::Export => InnerView::Export,
            ModuleInner::Dir(children) => InnerView::Dir(module_views(children@)),
        },
    }
}

/// The models of a list of module trees.
pub open spec fn module_views(modules: Seq<Module>) -> Seq<ModuleView>
    decreases modules, 0nat,
{
    if modules.len() == 0 {
        Seq::empty()
    } else {
        module_views(modules.drop_last()).push(module_view(modules.last()))
    }
}

pub proof fn lemma_module_views(modules: Seq<Module>)
    ensures
        module_views(modules).len() == modules.len(),
        forall|i: int|
            0 <= i < modules.len() ==> (#[trigger] module_views(modules)[i]) == module_view(
                modules[i],
            ),
    decreases modules.len(),
{
    if modules.len() != 0 {
        lemma_module_views(modules.drop_last());
    }
}

impl Datum for Module {
    type Model = ModuleView;

    open spec fn model(&self) -> ModuleView {
        module_view(*self)
    }

    fn same(&self, other: &Self) -> (b: bool) {
        same_module(self, other)
    }

    fn duplicate(&self) -> (c: Self) {
        copy_module(self)
    }

    open spec fn digest(model: ModuleView) -> u64 {
        module_digest(model)
    }

    fn hash(&self) -> (h: u64) {
        hash_module(self)
    }
}

/// The digest of a module tree: that of its name, mixed with that of its
/// children if it is a directory.
pub open spec fn module_digest(module: ModuleView) -> u64
    decreases module, 1nat,
{
    match module.inner {
        InnerView::Export => mixed(text_digest(module.name), 1),
        InnerView::Dir(children) => mixed(text_digest(module.name), modules_digest(children)),
    }
}

/// The digest of a list of module trees.
pub open spec fn modules_digest(modules: Seq<ModuleView>) -> u64
    decreases modules, 0nat,
{
    if modules.len() == 0 {
        2
    } else {
        mixed(modules_digest(modules.drop_last()), module_digest(modules.last()))
    }
}

/// Computes the digest of a module tree.
pub fn hash_module(module: &Module) -> (h: u64)
    ensures
        h == module_digest(module_view(*module)),
    decreases module,
{
    let name = hash_text(&module.name);
    match &module.inner {
        ModuleInner::Export => mix(name, 1),
        ModuleInner::Dir(children) => {
            let mut below: u64 = 2;
            let mut i: usize = 0;
            proof {
                lemma_module_views(children@);
                assert(module_views(children@).take(0) =~= Seq::empty());
            }
            while i < children.len()
                invariant
                    i <= children.len(),
                    module.inner == ModuleInner::Dir(*children),
                    below == modules_digest(module_views(children@).take(i as int)),
                decreases children.len() - i,
            {
                proof {
                    assert(module.inner->Dir_0 == *children);
                    assert(decreases_to!(module => module.inner));
                    assert(decreases_to!(module.inner => module.inner->Dir_0));
                    assert(decreases_to!(*children => children[i as int]));
                    lemma_module_views(children@);
                    let all = module_views(children@);
                    assert(all.take(i + 1).drop_last() =~= all.take(i as int));
                    assert(all.take(i + 1).last() == module_view(children@[i as int]));
                }
                below = mix(below, hash_module(&children[i]));
                i += 1;
            }
            proof {
                let all = module_views(children@);
                assert(all.take(all.len() as int) =~= all);
            }
            mix(name, below)
        },
    }
}

/// Whether two module trees are equal.
pub fn same_module(left: &Module, right: &Module) -> (b: bool)
    ensures
        b == (module_view(*left) == module_view(*right)),
    decreases left,
{
    if !left.name.same(&right.name) {
        proof {
            lemma_text_model(left.name);
            lemma_text_model(right.name);
        }
        return false;
    }
    proof {
        lemma_text_model(left.name);
        lemma_text_model(right.name);
    }
    match (&left.inner, &right.inner) {
        (ModuleInner::Export, ModuleInner::Export) => true,
        (ModuleInner::Dir(mine), ModuleInner::Dir(theirs)) => {
            proof {
                lemma_module_views(mine@);
                lemma_module_views(theirs@);
            }
            if mine.len() != theirs.len() {
                return false;
            }
            let mut i: usize = 0;
            while i < mine.len()
                invariant
                    i <= mine.len(),
                    mine.len() == theirs.len(),
                    left.inner == ModuleInner::Dir(*mine),
                    right.inner == ModuleInner::Dir(*theirs),
                    left.name@ == right.name@,
                    forall|j: int|
                        0 <= j < i ==> module_view(mine@[j]) == module_view(theirs@[j]),
                decreases mine.len() - i,
            {
                if !same_module(&mine[i], &theirs[i]) {
                    proof {
                        lemma_module_views(mine@);
                        lemma_module_views(theirs@);
                        assert(module_views(mine@)[i as int] != module_views(theirs@)[i as int]);
                    }
                    return false;
                }
                i += 1;
            }
            proof {
                lemma_module_views(mine@);
                lemma_module_views(theirs@);
                assert(module_views(mine@) =~= module_views(theirs@));
            }
            true
        },
        _ => false,
    }
}

/// A copy of a module tree.
pub fn copy_module(module: &Module) -> (copy: Module)
    ensures
        module_view(copy) == module_view(*module),
    decreases module,
{
    let name = module.name.duplicate();
    proof {
        lemma_text_model(module.name);
        lemma_text_model(name);
    }
    match &module.inner {
        ModuleInner::Export => Module { name, inner: ModuleInner::Export },
        ModuleInner::Dir(children) => {
            let mut copies: Vec<Module> = Vec::new();
            let mut i: usize = 0;
            while i < children.len()
                invariant
                    i <= children.len(),
                    module.inner == ModuleInner::Dir(*children),
                    copies@.len() == i,
                    forall|j: int|
                        0 <= j < i ==> module_view(copies@[j]) == module_view(children@[j]),
                decreases children.len() - i,
            {
                proof {
                    assert(decreases_to!(module => module.inner));
                    assert(module.inner->Dir_0 == *children);
                    assert(decreases_to!(module.inner => module.inner->Dir_0));
                    assert(decreases_to!(*children => children[i as int]));
                }
                copies.push(copy_module(&children[i]));
                i += 1;
            }
            proof {
                lemma_module_views(children@);
                lemma_module_views(copies@);
                assert(module_views(copies@) =~= module_views(children@));
            }
            Module { name, inner: ModuleInner::Dir(copies) }
        },
    }
}

} // verus!
