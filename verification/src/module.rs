//! Modules and the global definitions that they collect. A definition is
//! handed to the store when its module closes, because only then are the
//! names of all enclosing modules known.

use vstd::prelude::*;
use crate::point::Point;
use crate::scope::LocalName;
use crate::scope::LocalNameView;
use crate::store::opt_view;
use crate::store::StoreFile;
use crate::store::StoreFileView;
use crate::text::views;

verus! {

/// A global definition while its node is open or its module is: the name
/// and the kind come in as the walk meets them.
#[derive(Debug)]
pub struct Definition {
    pub name: Option<LocalName>,
    pub kind: Option<String>,
    pub start_position: Point,
    pub end_position: Point,
}

/// The mathematical content of a [`Definition`].
pub struct DefinitionView {
    pub name: Option<LocalNameView>,
    pub kind: Option<Seq<char>>,
    pub start_position: Point,
    pub end_position: Point,
}

impl View for Definition {
    type V = DefinitionView;

    open spec fn view(&self) -> DefinitionView {
        DefinitionView {
            name: match self.name {
                Some(n) => Some(n@),
                None => None,
            },
            kind: opt_view(self.kind),
            start_position: self.start_position,
            end_position: self.end_position,
        }
    }
}

/// A module while it is open.
#[derive(Debug)]
pub struct Module {
    name: Option<String>,
    definitions: Vec<Definition>,
    pending_definition_stack: Vec<Definition>,
}

/// The mathematical content of a [`Module`]: its name, if it has been
/// seen, the definitions that are complete, and those still open, the
/// innermost last.
#[verifier::ext_equal]
pub struct ModuleView {
    pub name: Option<Seq<char>>,
    pub definitions: Seq<DefinitionView>,
    pub pending: Seq<DefinitionView>,
}

impl View for Module {
    type V = ModuleView;

    closed spec fn view(&self) -> ModuleView {
        ModuleView {
            name: opt_view(self.name),
            definitions: views(self.definitions@),
            pending: views(self.pending_definition_stack@),
        }
    }
}

impl ModuleView {
    /// A module without a name that holds nothing yet.
    pub open spec fn empty() -> ModuleView {
        ModuleView { name: None, definitions: Seq::empty(), pending: Seq::empty() }
    }

    /// The module with the name `name`, whatever name it had.
    pub open spec fn with_name(self, name: Seq<char>) -> ModuleView {
        ModuleView { name: Some(name), ..self }
    }

    /// The module with one more open definition, which has no name yet.
    pub open spec fn open_definition(
        self,
        kind: Option<Seq<char>>,
        start_position: Point,
        end_position: Point,
    ) -> ModuleView {
        ModuleView {
            pending: self.pending.push(
                DefinitionView { name: None, kind, start_position, end_position },
            ),
            ..self
        }
    }

    /// The module whose innermost open definition has the name `name` at
    /// `position`; without an open definition, the module as it is.
    pub open spec fn name_definition(self, name: Seq<char>, position: Point) -> ModuleView {
        if self.pending.len() == 0 {
            self
        } else {
            ModuleView {
                pending: self.pending.update(
                    self.pending.len() - 1,
                    DefinitionView {
                        name: Some(LocalNameView { name, position }),
                        ..self.pending.last()
                    },
                ),
                ..self
            }
        }
    }

    /// The module whose innermost open definition has the kind `kind`;
    /// without an open definition, the module as it is.
    pub open spec fn type_definition(self, kind: Seq<char>) -> ModuleView {
        if self.pending.len() == 0 {
            self
        } else {
            ModuleView {
                pending: self.pending.update(
                    self.pending.len() - 1,
                    DefinitionView { kind: Some(kind), ..self.pending.last() },
                ),
                ..self
            }
        }
    }

    /// The module whose innermost open definition is complete; without an
    /// open definition, the module as it is.
    pub open spec fn close_definition(self) -> ModuleView {
        if self.pending.len() == 0 {
            self
        } else {
            ModuleView {
                definitions: self.definitions.push(self.pending.last()),
                pending: self.pending.drop_last(),
                ..self
            }
        }
    }
}

/// The names of the modules that have one, the outermost first.
pub open spec fn path_of(modules: Seq<ModuleView>) -> Seq<Seq<char>>
    decreases modules.len(),
{
    if modules.len() == 0 {
        Seq::empty()
    } else {
        let rest = path_of(modules.drop_last());
        match modules.last().name {
            Some(name) => rest.push(name),
            None => rest,
        }
    }
}

/// The facts of a file after the definitions `defs` of a module with the
/// path `path` have been handed over: those without a name are left out.
pub open spec fn flush_definitions(
    facts: StoreFileView,
    defs: Seq<DefinitionView>,
    path: Seq<Seq<char>>,
) -> StoreFileView
    decreases defs.len(),
{
    if defs.len() == 0 {
        facts
    } else {
        let rest = flush_definitions(facts, defs.drop_last(), path);
        let d = defs.last();
        match d.name {
            Some(n) => rest.with_def(
                n.name,
                n.position,
                d.start_position,
                d.end_position,
                d.kind,
                path,
            ),
            None => rest,
        }
    }
}

/// Handing definitions over changes the global definitions only: those
/// that were there stay, and every one that is added has the name and the
/// position of a definition of `defs` that has a name, and the module path
/// `path`. A definition without a name adds nothing.
pub proof fn lemma_flush_definitions(
    facts: StoreFileView,
    defs: Seq<DefinitionView>,
    path: Seq<Seq<char>>,
)
    ensures
        flush_definitions(facts, defs, path) == (StoreFileView {
            defs: flush_definitions(facts, defs, path).defs,
            ..facts
        }),
        facts.defs.is_prefix_of(flush_definitions(facts, defs, path).defs),
        forall|k: int|
            facts.defs.len() <= k < flush_definitions(facts, defs, path).defs.len() ==> exists|
                j: int,
            |
                0 <= j < defs.len() && (#[trigger] defs[j]).name == Some(
                    LocalNameView {
                        name: (#[trigger] flush_definitions(facts, defs, path).defs[k]).name,
                        position: flush_definitions(facts, defs, path).defs[k].name_position,
                    },
                ) && flush_definitions(facts, defs, path).defs[k].mod_path
                    == crate::store::mod_path_string(path),
        facts.wf() ==> flush_definitions(facts, defs, path).wf(),
    decreases defs.len(),
{
    if defs.len() > 0 {
        let init = defs.drop_last();
        lemma_flush_definitions(facts, init, path);
        let rest = flush_definitions(facts, init, path);
        let all = flush_definitions(facts, defs, path);
        assert(facts.defs =~= all.defs.subrange(0, facts.defs.len() as int));
        assert(all =~= StoreFileView { defs: all.defs, ..facts });
        assert forall|k: int| facts.defs.len() <= k < all.defs.len() implies exists|j: int|
            0 <= j < defs.len() && (#[trigger] defs[j]).name == Some(
                LocalNameView {
                    name: (#[trigger] all.defs[k]).name,
                    position: all.defs[k].name_position,
                },
            ) && all.defs[k].mod_path == crate::store::mod_path_string(path) by {
            if k < rest.defs.len() {
                assert(all.defs[k] == rest.defs[k]);
                let j = choose|j: int|
                    0 <= j < init.len() && (#[trigger] init[j]).name == Some(
                        LocalNameView {
                            name: rest.defs[k].name,
                            position: rest.defs[k].name_position,
                        },
                    ) && rest.defs[k].mod_path == crate::store::mod_path_string(path);
                assert(defs[j] == init[j]);
            } else {
                assert(defs[defs.len() - 1].name is Some);
            }
        }
    } else {
        assert(facts.defs =~= facts.defs.subrange(0, facts.defs.len() as int));
    }
}

/// The names of the modules of `stack` that have one, the outermost first.
pub fn module_names(stack: &Vec<Module>) -> (names: Vec<String>)
    ensures
        views(names@) == path_of(views(stack@)),
{
    let ghost modules = views(stack@);
    let mut names: Vec<String> = Vec::new();
    let mut i: usize = 0;
    assert(views(names@) =~= path_of(modules.take(0)));
    while i < stack.len()
        invariant
            modules == views(stack@),
            i <= modules.len(),
            views(names@) == path_of(modules.take(i as int)),
        decreases modules.len() - i,
    {
        let ghost before = views(names@);
        assert(modules.take(i + 1).drop_last() =~= modules.take(i as int));
        assert(modules.take(i + 1).last() == stack@[i as int]@);
        match &stack[i].name {
            Some(name) => {
                names.push(name.clone());
                assert(views(names@) =~= before.push(name@));
            },
            None => {},
        }
        i += 1;
    }
    assert(modules.take(i as int) =~= modules);
    names
}

impl Module {
    /// A module without a name that holds nothing yet.
    pub fn new() -> (m: Module)
        ensures
            m@ == ModuleView::empty(),
    {
        let m = Module {
            name: None,
            definitions: Vec::new(),
            pending_definition_stack: Vec::new(),
        };
        assert(m@ =~= ModuleView::empty());
        m
    }

    /// Gives the module the name `name`.
    pub fn set_name(&mut self, name: String)
        ensures
            final(self)@ == old(self)@.with_name(name@),
    {
        self.name = Some(name);
    }

    /// Opens a definition that extends from `start_position` to
    /// `end_position`.
    pub fn open_definition(
        &mut self,
        kind: Option<String>,
        start_position: Point,
        end_position: Point,
    )
        ensures
            final(self)@ == old(self)@.open_definition(opt_view(kind), start_position, end_position),
    {
        self.pending_definition_stack.push(
            Definition { name: None, kind, start_position, end_position },
        );
        assert(self@ =~= old(self)@.open_definition(opt_view(kind), start_position, end_position));
    }

    /// Names the innermost open definition, if there is one.
    pub fn name_definition(&mut self, name: String, position: Point)
        ensures
            final(self)@ == old(self)@.name_definition(name@, position),
    {
        let n = self.pending_definition_stack.len();
        if n > 0 {
            self.pending_definition_stack[n - 1].name = Some(LocalName { name, position });
            assert(self@ =~= old(self)@.name_definition(name@, position));
        }
    }

    /// Sets the kind of the innermost open definition, if there is one.
    pub fn type_definition(&mut self, kind: String)
        ensures
            final(self)@ == old(self)@.type_definition(kind@),
    {
        let n = self.pending_definition_stack.len();
        if n > 0 {
            self.pending_definition_stack[n - 1].kind = Some(kind);
            assert(self@ =~= old(self)@.type_definition(kind@));
        }
    }

    /// Completes the innermost open definition, if there is one.
    pub fn close_definition(&mut self)
        ensures
            final(self)@ == old(self)@.close_definition(),
    {
        match self.pending_definition_stack.pop() {
            Some(definition) => {
                self.definitions.push(definition);
                assert(self@ =~= old(self)@.close_definition());
            },
            None => {},
        }
    }

    /// Closes the module: hands its complete definitions that have a name
    /// to `store`, each with the module path `path`.
    pub fn flush(self, store: &mut StoreFile, path: &Vec<String>)
        ensures
            final(store)@ == flush_definitions(old(store)@, self@.definitions, views(path@)),
            old(store)@.wf() ==> final(store)@.wf(),
    {
        let ghost facts = store@;
        let ghost defs = self@.definitions;
        let mut i: usize = 0;
        while i < self.definitions.len()
            invariant
                defs == self@.definitions,
                defs.len() == self.definitions@.len(),
                i <= defs.len(),
                store@ == flush_definitions(facts, defs.take(i as int), views(path@)),
                facts.wf() ==> store@.wf(),
            decreases defs.len() - i,
        {
            let d = &self.definitions[i];
            assert(defs.take(i + 1).drop_last() =~= defs.take(i as int));
            assert(defs.take(i + 1).last() == d@);
            match &d.name {
                Some(n) => {
                    let kind = match &d.kind {
                        Some(k) => Some(k.as_str()),
                        None => None,
                    };
                    store.insert_def(
                        n.name.as_str(),
                        n.position,
                        d.start_position,
                        d.end_position,
                        kind,
                        path,
                    );
                },
                None => {},
            }
            i += 1;
        }
        assert(defs.take(i as int) =~= defs);
    }
}

} // verus!
