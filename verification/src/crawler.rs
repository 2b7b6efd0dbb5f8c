//! The walk over a syntax tree that collects the facts of a file: it opens
//! and closes scopes, modules and definitions as the properties of the
//! nodes say, and hands what they hold to the file's transaction.

use vstd::prelude::*;
use crate::module::flush_definitions;
use crate::module::module_names;
use crate::module::path_of;
use crate::module::Module;
use crate::module::ModuleView;
use crate::point::Point;
use crate::properties::Node;
use crate::properties::NodeView;
use crate::properties::SyntaxTree;
use crate::scope::lemma_escapes_contains;
use crate::scope::lemma_last_visible_is;
use crate::scope::visible;
use crate::scope::LocalNameView;
use crate::scope::Scope;
use crate::scope::ScopeView;
use crate::language_registry::LanguageRegistry;
use crate::language_registry::RegistryView;
use crate::module::DefinitionView;
use crate::store::lemma_remaining_twice;
use crate::store::remaining;
use crate::store::Store;
use crate::store::StoreError;
use crate::store::StoreFile;
use crate::store::StoreView;
use crate::store::StoreFileView;
use crate::text::views;

verus! {

/// The state of a walk: the transaction of the file, the open scopes and
/// the open modules, the innermost last.
pub struct TreeCrawler {
    store: StoreFile,
    scope_stack: Vec<Scope>,
    module_stack: Vec<Module>,
}

/// The mathematical content of a [`TreeCrawler`].
#[verifier::ext_equal]
pub struct CrawlerView {
    pub store: StoreFileView,
    pub scopes: Seq<ScopeView>,
    pub modules: Seq<ModuleView>,
}

impl View for TreeCrawler {
    type V = CrawlerView;

    closed spec fn view(&self) -> CrawlerView {
        CrawlerView {
            store: self.store@,
            scopes: views(self.scope_stack@),
            modules: views(self.module_stack@),
        }
    }
}

/// Index of the scope that a definition or reference with the scope type
/// `kind` belongs to: the innermost scope of that kind, the outermost
/// scope if none is of that kind, and the innermost scope if no kind is
/// asked for. Without any scope it is -1.
pub open spec fn target_scope(scopes: Seq<ScopeView>, kind: Option<Seq<char>>) -> int
    decreases scopes.len(),
{
    if scopes.len() <= 1 {
        scopes.len() - 1
    } else if kind is None || scopes.last().kind == kind {
        scopes.len() - 1
    } else {
        target_scope(scopes.drop_last(), kind)
    }
}

impl CrawlerView {
    /// The transaction is well formed and so is every open scope.
    pub open spec fn wf(self) -> bool {
        &&& self.store.wf()
        &&& forall|i: int| 0 <= i < self.scopes.len() ==> (#[trigger] self.scopes[i]).wf()
    }

    /// A walk that has not begun: no scope and no module is open.
    pub open spec fn start(store: StoreFileView) -> CrawlerView {
        CrawlerView { store, scopes: Seq::empty(), modules: Seq::empty() }
    }

    /// The state with one more open scope.
    pub open spec fn push_scope(self, kind: Option<Seq<char>>) -> CrawlerView {
        CrawlerView { scopes: self.scopes.push(ScopeView::empty(kind)), ..self }
    }

    /// The state with one more open module.
    pub open spec fn push_module(self) -> CrawlerView {
        CrawlerView { modules: self.modules.push(ModuleView::empty()), ..self }
    }

    /// The state after the innermost scope has closed: the store has its
    /// definitions and the references that resolve in it, and the scope
    /// around it has the references that do not. References that escape
    /// the outermost scope are dropped.
    pub open spec fn pop_scope(self) -> CrawlerView {
        if self.scopes.len() == 0 {
            self
        } else {
            let scope = self.scopes.last();
            let rest = self.scopes.drop_last();
            let escaped = scope.escapes(scope.local_refs);
            CrawlerView {
                store: scope.flush(self.store),
                scopes: if rest.len() == 0 {
                    rest
                } else {
                    rest.update(rest.len() - 1, rest.last().with_local_refs(escaped))
                },
                ..self
            }
        }
    }

    /// The state after the innermost module has closed: the store has its
    /// complete definitions that have a name, each with the names of the
    /// open modules, this one included, as its module path.
    pub open spec fn pop_module(self) -> CrawlerView {
        if self.modules.len() == 0 {
            self
        } else {
            CrawlerView {
                store: flush_definitions(
                    self.store,
                    self.modules.last().definitions,
                    path_of(self.modules),
                ),
                modules: self.modules.drop_last(),
                ..self
            }
        }
    }

    /// The state with the innermost module replaced.
    pub open spec fn with_top_module(self, module: ModuleView) -> CrawlerView {
        if self.modules.len() == 0 {
            self
        } else {
            CrawlerView { modules: self.modules.update(self.modules.len() - 1, module), ..self }
        }
    }

    /// The state after the innermost open definition of the innermost
    /// module is complete.
    pub open spec fn pop_definition(self) -> CrawlerView {
        if self.modules.len() == 0 {
            self
        } else {
            self.with_top_module(self.modules.last().close_definition())
        }
    }

    /// First step of entering a node: a local definition or a local
    /// reference goes to the scope that its scope type names.
    pub open spec fn enter_locals(self, node: NodeView) -> CrawlerView {
        let t = target_scope(self.scopes, node.scope_type());
        if t < 0 {
            self
        } else if node.is_local_definition() {
            if node.is_hoisted() {
                CrawlerView {
                    scopes: self.scopes.update(
                        t,
                        self.scopes[t].with_hoisted_def(node.text, node.start_position),
                    ),
                    ..self
                }
            } else {
                CrawlerView {
                    scopes: self.scopes.update(
                        t,
                        self.scopes[t].with_local_def(node.text, node.start_position),
                    ),
                    ..self
                }
            }
        } else if node.is_local_reference() {
            CrawlerView {
                scopes: self.scopes.update(
                    t,
                    self.scopes[t].with_local_ref(node.text, node.start_position),
                ),
                ..self
            }
        } else {
            self
        }
    }

    /// Second step: the node may open a scope and a module.
    pub open spec fn enter_scope_and_module(self, node: NodeView) -> CrawlerView {
        let a = if node.opens_scope() {
            self.push_scope(node.scope_type())
        } else {
            self
        };
        if node.opens_module() {
            a.push_module()
        } else {
            a
        }
    }

    /// Third step: the node may name the innermost module, open a
    /// definition in it, and name that definition or give its kind.
    pub open spec fn enter_definition(self, node: NodeView) -> CrawlerView {
        if self.modules.len() == 0 {
            self
        } else {
            let m0 = self.modules.last();
            let m1 = if node.names_module() {
                m0.with_name(node.text)
            } else {
                m0
            };
            let m2 = if node.opens_definition() {
                m1.open_definition(node.definition_type(), node.start_position, node.end_position)
            } else {
                m1
            };
            let m3 = if node.names_definition() {
                m2.name_definition(node.text, node.start_position)
            } else if node.is_definition_value() && node.definition_type() is Some {
                m2.type_definition(node.definition_type()->Some_0)
            } else {
                m2
            };
            self.with_top_module(m3)
        }
    }

    /// Last step: a global reference goes to the store at once.
    pub open spec fn enter_reference(self, node: NodeView) -> CrawlerView {
        if node.is_reference() {
            CrawlerView {
                store: self.store.with_ref(node.text, node.start_position, node.reference_type()),
                ..self
            }
        } else {
            self
        }
    }

    /// The state after the walk has entered `node`.
    pub open spec fn enter(self, node: NodeView) -> CrawlerView {
        self.enter_locals(node).enter_scope_and_module(node).enter_definition(node).enter_reference(node)
    }

    /// The state after the walk has left `node`: the scope, then the
    /// definition, then the module that the node opened is closed.
    pub open spec fn leave(self, node: NodeView) -> CrawlerView {
        let a = if node.opens_scope() {
            self.pop_scope()
        } else {
            self
        };
        let b = if node.opens_definition() {
            a.pop_definition()
        } else {
            a
        };
        if node.opens_module() {
            b.pop_module()
        } else {
            b
        }
    }
    /// The state after the walk has left those of the open nodes, the
    /// innermost first, that lie at `depth` or deeper, and the nodes that
    /// stay open. `open` holds the indices of the open nodes in `tree`.
    pub open spec fn unwind(self, tree: Seq<NodeView>, open: Seq<usize>, depth: nat) -> (
        CrawlerView,
        Seq<usize>,
    )
        decreases open.len(),
    {
        if open.len() > 0 && tree[open.last() as int].depth >= depth {
            self.leave(tree[open.last() as int]).unwind(tree, open.drop_last(), depth)
        } else {
            (self, open)
        }
    }

    /// The state after the walk has entered the first `n` nodes of `tree`,
    /// and the nodes that are open then: before it enters a node the walk
    /// leaves the open nodes that are not above it.
    pub open spec fn visit(self, tree: Seq<NodeView>, n: nat) -> (CrawlerView, Seq<usize>)
        decreases n,
    {
        if n == 0 {
            (self, Seq::empty())
        } else {
            let before = self.visit(tree, (n - 1) as nat);
            let node = tree[n - 1];
            let ready = before.0.unwind(tree, before.1, node.depth);
            (ready.0.enter(node), ready.1.push((n - 1) as usize))
        }
    }

    /// The state after the walk over `tree`: the scope and the module of
    /// the file are opened, every node is entered and left, a node before
    /// the nodes below it and after them, and the module and the scope of
    /// the file are closed.
    pub open spec fn crawl(self, tree: Seq<NodeView>) -> CrawlerView {
        let walked = self.push_scope(None).push_module().visit(tree, tree.len());
        walked.0.unwind(tree, walked.1, 0).0.pop_module().pop_scope()
    }
}

impl TreeCrawler {
    /// A walk that has not begun, on the transaction `store`.
    pub fn new(store: StoreFile) -> (c: TreeCrawler)
        ensures
            c@ == CrawlerView::start(store@),
    {
        let c = TreeCrawler { store, scope_stack: Vec::new(), module_stack: Vec::new() };
        assert(c@ =~= CrawlerView::start(store@));
        c
    }

    /// The transaction with the facts collected so far.
    pub fn store(&self) -> (s: &StoreFile)
        ensures
            s@ == self@.store,
    {
        &self.store
    }

    /// Ends the walk and gives the transaction back.
    pub fn into_store(self) -> (s: StoreFile)
        ensures
            s@ == self@.store,
    {
        self.store
    }

    /// Number of open scopes.
    pub fn scope_depth(&self) -> (n: usize)
        ensures
            n == self@.scopes.len(),
    {
        self.scope_stack.len()
    }

    /// Number of open modules.
    pub fn module_depth(&self) -> (n: usize)
        ensures
            n == self@.modules.len(),
    {
        self.module_stack.len()
    }

    /// Index of the scope that a definition or reference with the scope
    /// type `kind` belongs to; `None` when no scope is open.
    pub fn top_scope(&self, kind: Option<&str>) -> (r: Option<usize>)
        ensures
            r is None ==> target_scope(
                self@.scopes,
                match kind {
                    Some(k) => Some(k@),
                    None => None,
                },
            ) == -1,
            r matches Some(t) ==> t < self@.scopes.len() && target_scope(
                self@.scopes,
                match kind {
                    Some(k) => Some(k@),
                    None => None,
                },
            ) == t,
    {
        let ghost scopes = self@.scopes;
        let ghost wanted: Option<Seq<char>> = match kind {
            Some(k) => Some(k@),
            None => None,
        };
        let mut i: usize = self.scope_stack.len();
        if i == 0 {
            return None;
        }
        assert(scopes.take(i as int) =~= scopes);
        while i > 1
            invariant
                scopes == self@.scopes,
                wanted == (match kind {
                    Some(k) => Some(k@),
                    None => None,
                }),
                1 <= i <= scopes.len(),
                target_scope(scopes, wanted) == target_scope(scopes.take(i as int), wanted),
            decreases i,
        {
            let hit = match kind {
                Some(k) => self.scope_stack[i - 1].has_kind(k),
                None => true,
            };
            assert(scopes.take(i as int).last() == self.scope_stack@[i - 1]@);
            if hit {
                return Some(i - 1);
            }
            assert(scopes.take(i as int).drop_last() =~= scopes.take(i - 1));
            i -= 1;
        }
        Some(0)
    }

    /// Opens a scope of the given kind.
    pub fn push_scope(&mut self, kind: Option<&str>)
        ensures
            final(self)@ == old(self)@.push_scope(
                match kind {
                    Some(k) => Some(k@),
                    None => None,
                },
            ),
            old(self)@.wf() ==> final(self)@.wf(),
    {
        let kind = match kind {
            Some(k) => Some(k.to_owned()),
            None => None,
        };
        self.scope_stack.push(Scope::new(kind));
        proof {
            let after = self@.scopes;
            assert(after =~= old(self)@.scopes.push(after.last()));
            if old(self)@.wf() {
                assert forall|i: int| 0 <= i < after.len() implies (#[trigger] after[i]).wf() by {
                    if i < old(self)@.scopes.len() {
                        assert(after[i] == old(self)@.scopes[i]);
                    }
                }
            }
        }
    }

    /// Closes the innermost scope, if there is one.
    pub fn pop_scope(&mut self)
        ensures
            final(self)@ == old(self)@.pop_scope(),
            old(self)@.wf() ==> final(self)@.wf(),
    {
        let ghost before = self@;
        match self.scope_stack.pop() {
            Some(scope) => {
                assert(scope@ == before.scopes.last());
                assert(views(self.scope_stack@) =~= before.scopes.drop_last());
                let escaped = scope.flush(&mut self.store);
                let n = self.scope_stack.len();
                if n > 0 {
                    self.scope_stack[n - 1].add_local_refs(escaped);
                }
                proof {
                    assert(self@ =~= before.pop_scope());
                    if before.wf() {
                        assert forall|i: int| 0 <= i < self@.scopes.len() implies (
                        #[trigger] self@.scopes[i]).wf() by {
                            assert(before.scopes[i].wf());
                        }
                    }
                }
            },
            None => {},
        }
    }

    /// Opens a module.
    pub fn push_module(&mut self)
        ensures
            final(self)@ == old(self)@.push_module(),
            old(self)@.wf() ==> final(self)@.wf(),
    {
        self.module_stack.push(Module::new());
        assert(self@ =~= old(self)@.push_module());
    }

    /// Closes the innermost module, if there is one.
    pub fn pop_module(&mut self)
        ensures
            final(self)@ == old(self)@.pop_module(),
            old(self)@.wf() ==> final(self)@.wf(),
    {
        let ghost before = self@;
        let mod_path = module_names(&self.module_stack);
        match self.module_stack.pop() {
            Some(module) => {
                assert(module@ == before.modules.last());
                module.flush(&mut self.store, &mod_path);
                assert(self@ =~= before.pop_module());
            },
            None => {},
        }
    }

    /// Completes the innermost open definition of the innermost module.
    pub fn pop_definition(&mut self)
        ensures
            final(self)@ == old(self)@.pop_definition(),
            old(self)@.wf() ==> final(self)@.wf(),
    {
        let n = self.module_stack.len();
        if n > 0 {
            self.module_stack[n - 1].close_definition();
            assert(self@ =~= old(self)@.pop_definition());
        }
    }
}

impl TreeCrawler {
    /// A local definition or a local reference goes to the scope that its
    /// scope type names; on a node that is both, the definition counts.
    fn enter_locals(&mut self, node: &Node)
        ensures
            final(self)@ == old(self)@.enter_locals(node@),
            old(self)@.wf() ==> final(self)@.wf(),
    {
        let ghost s0 = self@;
        let is_local_def = node.has_property_value("local-definition", "true");
        let is_local_ref = node.has_property_value("local-reference", "true");
        if is_local_def || is_local_ref {
            match self.top_scope(node.get_property("scope-type")) {
                Some(t) => {
                    assert(s0.scopes[t as int] == self.scope_stack@[t as int]@);
                    if !is_local_def {
                        self.scope_stack[t].add_local_ref(node.text.clone(), node.start_position);
                    } else if node.has_property("local-is-hoisted") {
                        self.scope_stack[t].add_hoisted_def(
                            node.text.clone(),
                            node.start_position,
                        );
                    } else {
                        self.scope_stack[t].add_local_def(node.text.clone(), node.start_position);
                    }
                    proof {
                        assert(self@.scopes =~= s0.scopes.update(
                            t as int,
                            self.scope_stack@[t as int]@,
                        ));
                        if s0.wf() {
                            assert forall|i: int| 0 <= i < self@.scopes.len() implies (
                            #[trigger] self@.scopes[i]).wf() by {
                                assert(s0.scopes[i].wf());
                            }
                        }
                    }
                },
                None => {},
            }
        }
        assert(self@ =~= s0.enter_locals(node@));
    }

    /// The node may open a scope and a module.
    fn enter_scope_and_module(&mut self, node: &Node)
        ensures
            final(self)@ == old(self)@.enter_scope_and_module(node@),
            old(self)@.wf() ==> final(self)@.wf(),
    {
        if node.has_property_value("local-scope", "true") {
            self.push_scope(node.get_property("scope-type"));
        }
        if node.has_property_value("module", "true") {
            self.push_module();
        }
    }

    /// The node may name the innermost module, open a definition in it,
    /// and name that definition or give its kind.
    fn enter_definition(&mut self, node: &Node)
        ensures
            final(self)@ == old(self)@.enter_definition(node@),
            old(self)@.wf() ==> final(self)@.wf(),
    {
        let ghost s0 = self@;
        let n = self.module_stack.len();
        if n > 0 {
            assert(s0.modules.last() == self.module_stack@[n - 1]@);
            if node.has_property_value("module-part", "name") {
                self.module_stack[n - 1].set_name(node.text.clone());
            }
            let definition_type = node.get_property("definition-type");
            if node.has_property_value("definition", "true") {
                let kind = match definition_type {
                    Some(k) => Some(k.to_owned()),
                    None => None,
                };
                self.module_stack[n - 1].open_definition(
                    kind,
                    node.start_position,
                    node.end_position,
                );
            }
            if node.has_property_value("definition-part", "name") {
                self.module_stack[n - 1].name_definition(node.text.clone(), node.start_position);
            } else if node.has_property_value("definition-part", "value") {
                match definition_type {
                    Some(k) => {
                        self.module_stack[n - 1].type_definition(k.to_owned());
                    },
                    None => {},
                }
            }
            assert(self@.modules =~= s0.modules.update(n - 1, self.module_stack@[n - 1]@));
        }
        assert(self@ =~= s0.enter_definition(node@));
    }

    /// A global reference goes to the store at once.
    fn enter_reference(&mut self, node: &Node)
        ensures
            final(self)@ == old(self)@.enter_reference(node@),
            old(self)@.wf() ==> final(self)@.wf(),
    {
        if node.has_property_value("reference", "true") {
            self.store.insert_ref(
                node.text.as_str(),
                node.start_position,
                node.get_property("reference-type"),
            );
        }
        proof {
            assert(self@.scopes == old(self)@.scopes);
            if old(self)@.wf() {
                assert forall|i: int| 0 <= i < self@.scopes.len() implies (
                #[trigger] self@.scopes[i]).wf() by {
                    assert(old(self)@.scopes[i].wf());
                }
            }
        }
    }

    /// Enters `node`: records what its properties say of its text, and
    /// opens the scope, the module and the definition that it opens.
    pub fn enter_node(&mut self, node: &Node)
        ensures
            final(self)@ == old(self)@.enter(node@),
            old(self)@.wf() ==> final(self)@.wf(),
    {
        self.enter_locals(node);
        self.enter_scope_and_module(node);
        self.enter_definition(node);
        self.enter_reference(node);
    }

    /// Leaves `node`: closes the scope, the definition and the module that
    /// it opened, in this order.
    pub fn leave_node(&mut self, node: &Node)
        ensures
            final(self)@ == old(self)@.leave(node@),
            old(self)@.wf() ==> final(self)@.wf(),
    {
        if node.has_property_value("local-scope", "true") {
            self.pop_scope();
        }
        if node.has_property_value("definition", "true") {
            self.pop_definition();
        }
        if node.has_property_value("module", "true") {
            self.pop_module();
        }
    }
}

impl TreeCrawler {
    /// Leaves those of the open nodes, the innermost first, that lie at
    /// `depth` or deeper.
    fn unwind(&mut self, tree: &SyntaxTree, open: &mut Vec<usize>, depth: usize)
        requires
            forall|k: int| 0 <= k < old(open)@.len() ==> #[trigger] old(open)@[k] < tree.nodes@.len(),
        ensures
            (final(self)@, final(open)@) == old(self)@.unwind(tree@, old(open)@, depth as nat),
            final(open)@.len() <= old(open)@.len(),
            forall|k: int| 0 <= k < final(open)@.len() ==> #[trigger] final(open)@[k] == old(open)@[k],
            old(self)@.wf() ==> final(self)@.wf(),
    {
        while open.len() > 0 && tree.nodes[open[open.len() - 1]].depth >= depth
            invariant
                open@.len() <= old(open)@.len(),
                forall|k: int| 0 <= k < open@.len() ==> #[trigger] open@[k] == old(open)@[k],
                forall|k: int| 0 <= k < old(open)@.len() ==> #[trigger] old(open)@[k] < tree.nodes@.len(),
                self@.unwind(tree@, open@, depth as nat) == old(self)@.unwind(
                    tree@,
                    old(open)@,
                    depth as nat,
                ),
                old(self)@.wf() ==> self@.wf(),
            decreases open@.len(),
        {
            let ghost before = open@;
            let k = open.pop().unwrap();
            assert(k == before.last());
            assert(open@ =~= before.drop_last());
            assert(tree@[k as int] == tree.nodes@[k as int]@);
            self.leave_node(&tree.nodes[k]);
        }
        proof {
            if open@.len() > 0 {
                let k = open@.last();
                assert(k == old(open)@[open@.len() - 1]);
                assert(tree@[k as int] == tree.nodes@[k as int]@);
            }
        }
    }

    /// Walks over `tree` and collects the facts of the file: opens the
    /// scope and the module of the file, enters and leaves every node, and
    /// closes the module and the scope of the file.
    pub fn crawl_tree(&mut self, tree: &SyntaxTree)
        ensures
            final(self)@ == old(self)@.crawl(tree@),
            old(self)@.wf() ==> final(self)@.wf(),
    {
        self.push_scope(None);
        self.push_module();
        let ghost begun = self@;
        let mut open: Vec<usize> = Vec::new();
        let mut i: usize = 0;
        assert(open@ =~= Seq::<usize>::empty());
        while i < tree.nodes.len()
            invariant
                i <= tree.nodes@.len(),
                (self@, open@) == begun.visit(tree@, i as nat),
                forall|k: int| 0 <= k < open@.len() ==> #[trigger] open@[k] < i,
                old(self)@.wf() ==> self@.wf(),
            decreases tree.nodes@.len() - i,
        {
            let node = &tree.nodes[i];
            assert(tree@[i as int] == node@);
            self.unwind(tree, &mut open, node.depth);
            self.enter_node(node);
            open.push(i);
            i += 1;
        }
        self.unwind(tree, &mut open, 0);
        self.pop_module();
        self.pop_scope();
    }
}

/// Scope-type targeting: a definition or reference that asks for a kind of
/// scope goes to the innermost open scope of that kind and to none inside
/// it, or to the outermost scope when no open scope is of that kind; one
/// that asks for no kind goes to the innermost scope.
pub proof fn lemma_target_scope(scopes: Seq<ScopeView>, kind: Option<Seq<char>>)
    requires
        scopes.len() > 0,
    ensures
        0 <= target_scope(scopes, kind) < scopes.len(),
        kind is None ==> target_scope(scopes, kind) == scopes.len() - 1,
        target_scope(scopes, kind) > 0 && kind is Some ==> scopes[target_scope(scopes, kind)].kind
            == kind,
        forall|j: int|
            target_scope(scopes, kind) < j < scopes.len() ==> kind is Some && (
            #[trigger] scopes[j]).kind != kind,
    decreases scopes.len(),
{
    if scopes.len() > 1 && !(kind is None || scopes.last().kind == kind) {
        let init = scopes.drop_last();
        lemma_target_scope(init, kind);
        assert forall|j: int| target_scope(scopes, kind) < j < scopes.len() implies kind is Some
            && (#[trigger] scopes[j]).kind != kind by {
            if j < init.len() {
                assert(init[j] == scopes[j]);
            }
        }
        assert(init[target_scope(init, kind)] == scopes[target_scope(init, kind)]);
    }
}

/// Scope-type targeting on entering a node: a local definition that asks
/// for the kind of the open scope `f`, while no scope inside `f` is of
/// that kind, is added to `f` and to no other scope.
pub proof fn lemma_definition_targets_kind(c: CrawlerView, node: NodeView, f: int)
    requires
        node.is_local_definition(),
        !node.is_hoisted(),
        node.scope_type() is Some,
        0 <= f < c.scopes.len(),
        c.scopes[f].kind == node.scope_type(),
        forall|j: int| f < j < c.scopes.len() ==> (#[trigger] c.scopes[j]).kind != node.scope_type(),
    ensures
        c.enter(node).scopes.take(c.scopes.len() as int) == c.scopes.update(
            f,
            c.scopes[f].with_local_def(node.text, node.start_position),
        ),
{
    lemma_target_scope(c.scopes, node.scope_type());
    let t = target_scope(c.scopes, node.scope_type());
    if t < f {
        assert(c.scopes[f].kind != node.scope_type());
    } else if f < t {
        assert(c.scopes[t].kind != node.scope_type());
    }
    let after = c.enter_locals(node);
    assert(c.enter(node).scopes.take(c.scopes.len() as int) =~= after.scopes);
}

/// Escape: a reference that does not resolve in the innermost scope goes,
/// when that scope closes, to the scope around it, and resolves there to
/// the last definition of its name that is visible from it.
pub proof fn lemma_escape(c: CrawlerView, k: int, i: int)
    requires
        c.scopes.len() >= 2,
        0 <= k < c.scopes.last().local_refs.len(),
        c.scopes.last().resolve(
            c.scopes.last().local_refs[k].name,
            c.scopes.last().local_refs[k].position,
        ) is None,
        visible(c.scopes[c.scopes.len() - 2].local_defs, c.scopes.last().local_refs[k].position, i),
        c.scopes[c.scopes.len() - 2].local_defs[i].name == c.scopes.last().local_refs[k].name,
        forall|j: int|
            i < j < c.scopes[c.scopes.len() - 2].local_defs.len() && (#[trigger] c.scopes[c.scopes.len()
                - 2].local_defs[j]).name == c.scopes.last().local_refs[k].name ==> !visible(
                c.scopes[c.scopes.len() - 2].local_defs,
                c.scopes.last().local_refs[k].position,
                j,
            ),
    ensures
        c.pop_scope().scopes.len() == c.scopes.len() - 1,
        c.pop_scope().scopes.last().local_refs.contains(c.scopes.last().local_refs[k]),
        c.pop_scope().scopes.last().resolve(
            c.scopes.last().local_refs[k].name,
            c.scopes.last().local_refs[k].position,
        ) == Some(i),
{
    let inner = c.scopes.last();
    let outer = c.scopes[c.scopes.len() - 2];
    let r = inner.local_refs[k];
    let escaped = inner.escapes(inner.local_refs);
    lemma_escapes_contains(inner, inner.local_refs, k);
    let w = choose|w: int| 0 <= w < escaped.len() && escaped[w] == r;
    let rest = c.scopes.drop_last();
    assert(rest.last() == outer);
    let around = c.pop_scope().scopes.last();
    assert(around == outer.with_local_refs(escaped));
    assert(around.local_refs[outer.local_refs.len() + w] == r);
    lemma_last_visible_is(outer.local_defs, r.name, r.position, i);
}

impl CrawlerView {
    /// The same state of a walk for a file with another id.
    pub open spec fn rebased(self, id: i64) -> CrawlerView {
        CrawlerView { store: StoreFileView { file_id: id, ..self.store }, ..self }
    }
}

proof fn lemma_flush_definitions_rebased(
    facts: StoreFileView,
    defs: Seq<DefinitionView>,
    path: Seq<Seq<char>>,
    id: i64,
)
    ensures
        flush_definitions(StoreFileView { file_id: id, ..facts }, defs, path) == (StoreFileView {
            file_id: id,
            ..flush_definitions(facts, defs, path)
        }),
    decreases defs.len(),
{
    if defs.len() > 0 {
        lemma_flush_definitions_rebased(facts, defs.drop_last(), path, id);
    }
}

proof fn lemma_leave_rebased(c: CrawlerView, node: NodeView, id: i64)
    ensures
        c.rebased(id).leave(node) == c.leave(node).rebased(id),
{
    let a = if node.opens_scope() {
        c.pop_scope()
    } else {
        c
    };
    let a1 = if node.opens_scope() {
        c.rebased(id).pop_scope()
    } else {
        c.rebased(id)
    };
    assert(a1 =~= a.rebased(id));
    let b = if node.opens_definition() {
        a.pop_definition()
    } else {
        a
    };
    let b1 = if node.opens_definition() {
        a1.pop_definition()
    } else {
        a1
    };
    assert(b1 =~= b.rebased(id));
    if node.opens_module() && b.modules.len() > 0 {
        lemma_flush_definitions_rebased(
            b.store,
            b.modules.last().definitions,
            path_of(b.modules),
            id,
        );
    }
    assert(c.rebased(id).leave(node) =~= c.leave(node).rebased(id));
}

proof fn lemma_enter_rebased(c: CrawlerView, node: NodeView, id: i64)
    ensures
        c.rebased(id).enter(node) == c.enter(node).rebased(id),
{
    assert(c.rebased(id).enter_locals(node) =~= c.enter_locals(node).rebased(id));
    let a = c.enter_locals(node);
    assert(a.rebased(id).enter_scope_and_module(node) =~= a.enter_scope_and_module(node).rebased(id));
    let b = a.enter_scope_and_module(node);
    assert(b.rebased(id).enter_definition(node) =~= b.enter_definition(node).rebased(id));
    let d = b.enter_definition(node);
    assert(d.rebased(id).enter_reference(node) =~= d.enter_reference(node).rebased(id));
}

proof fn lemma_unwind_rebased(
    c: CrawlerView,
    tree: Seq<NodeView>,
    open: Seq<usize>,
    depth: nat,
    id: i64,
)
    ensures
        c.rebased(id).unwind(tree, open, depth).0 == c.unwind(tree, open, depth).0.rebased(id),
        c.rebased(id).unwind(tree, open, depth).1 == c.unwind(tree, open, depth).1,
    decreases open.len(),
{
    if open.len() > 0 && tree[open.last() as int].depth >= depth {
        let node = tree[open.last() as int];
        lemma_leave_rebased(c, node, id);
        lemma_unwind_rebased(c.leave(node), tree, open.drop_last(), depth, id);
    }
}

proof fn lemma_visit_rebased(c: CrawlerView, tree: Seq<NodeView>, n: nat, id: i64)
    ensures
        c.rebased(id).visit(tree, n).0 == c.visit(tree, n).0.rebased(id),
        c.rebased(id).visit(tree, n).1 == c.visit(tree, n).1,
    decreases n,
{
    if n > 0 {
        lemma_visit_rebased(c, tree, (n - 1) as nat, id);
        let before = c.visit(tree, (n - 1) as nat);
        let node = tree[n - 1];
        lemma_unwind_rebased(before.0, tree, before.1, node.depth, id);
        let ready = before.0.unwind(tree, before.1, node.depth);
        lemma_enter_rebased(ready.0, node, id);
    }
}

/// The walk does not depend on the id of the file: for another id it
/// collects the same facts, and it keeps the id and the path of the file.
pub proof fn lemma_crawl_rebased(c: CrawlerView, tree: Seq<NodeView>, id: i64)
    ensures
        c.rebased(id).crawl(tree) == c.crawl(tree).rebased(id),
        c.crawl(tree).store.file_id == c.store.file_id,
        c.crawl(tree).store.path == c.store.path,
{
    lemma_crawl_any_id(c, tree, id);
    lemma_crawl_any_id(c, tree, c.store.file_id);
    assert(c.rebased(c.store.file_id) =~= c);
    lemma_crawl_path(c, tree);
}

proof fn lemma_crawl_any_id(c: CrawlerView, tree: Seq<NodeView>, id: i64)
    ensures
        c.rebased(id).crawl(tree) == c.crawl(tree).rebased(id),
{
    let begun = c.push_scope(None).push_module();
    assert(c.rebased(id).push_scope(None).push_module() =~= begun.rebased(id));
    lemma_visit_rebased(begun, tree, tree.len(), id);
    let walked = begun.visit(tree, tree.len());
    lemma_unwind_rebased(walked.0, tree, walked.1, 0, id);
    let left = walked.0.unwind(tree, walked.1, 0).0;
    if left.modules.len() > 0 {
        lemma_flush_definitions_rebased(
            left.store,
            left.modules.last().definitions,
            path_of(left.modules),
            id,
        );
    }
    assert(left.rebased(id).pop_module() =~= left.pop_module().rebased(id));
    let flushed = left.pop_module();
    assert(flushed.rebased(id).pop_scope() =~= flushed.pop_scope().rebased(id));
}

proof fn lemma_flush_definitions_path(facts: StoreFileView, defs: Seq<DefinitionView>, path: Seq<Seq<char>>)
    ensures
        flush_definitions(facts, defs, path).path == facts.path,
    decreases defs.len(),
{
    if defs.len() > 0 {
        lemma_flush_definitions_path(facts, defs.drop_last(), path);
    }
}

proof fn lemma_leave_path(c: CrawlerView, node: NodeView)
    ensures
        c.leave(node).store.path == c.store.path,
{
    let a = if node.opens_scope() {
        c.pop_scope()
    } else {
        c
    };
    let b = if node.opens_definition() {
        a.pop_definition()
    } else {
        a
    };
    if node.opens_module() && b.modules.len() > 0 {
        lemma_flush_definitions_path(b.store, b.modules.last().definitions, path_of(b.modules));
    }
}

proof fn lemma_unwind_path(c: CrawlerView, tree: Seq<NodeView>, open: Seq<usize>, depth: nat)
    ensures
        c.unwind(tree, open, depth).0.store.path == c.store.path,
    decreases open.len(),
{
    if open.len() > 0 && tree[open.last() as int].depth >= depth {
        let node = tree[open.last() as int];
        lemma_leave_path(c, node);
        lemma_unwind_path(c.leave(node), tree, open.drop_last(), depth);
    }
}

proof fn lemma_visit_path(c: CrawlerView, tree: Seq<NodeView>, n: nat)
    ensures
        c.visit(tree, n).0.store.path == c.store.path,
    decreases n,
{
    if n > 0 {
        lemma_visit_path(c, tree, (n - 1) as nat);
        let before = c.visit(tree, (n - 1) as nat);
        lemma_unwind_path(before.0, tree, before.1, tree[n - 1].depth);
    }
}

proof fn lemma_crawl_path(c: CrawlerView, tree: Seq<NodeView>)
    ensures
        c.crawl(tree).store.path == c.store.path,
{
    let begun = c.push_scope(None).push_module();
    lemma_visit_path(begun, tree, tree.len());
    let walked = begun.visit(tree, tree.len());
    lemma_unwind_path(walked.0, tree, walked.1, 0);
    let left = walked.0.unwind(tree, walked.1, 0).0;
    if left.modules.len() > 0 {
        lemma_flush_definitions_path(
            left.store,
            left.modules.last().definitions,
            path_of(left.modules),
        );
    }
}

/// The facts that a walk over `tree` collects for the file `path` with
/// the id `id`.
pub open spec fn facts_of(id: i64, path: Seq<u8>, tree: Seq<NodeView>) -> StoreFileView {
    CrawlerView::start(StoreFileView::empty(id, path)).crawl(tree).store
}

/// The store after the file `path` with the syntax tree `tree` has been
/// indexed: the facts that the store held for the path are replaced by
/// those that the walk over the tree collects.
pub open spec fn indexed(store: StoreView, path: Seq<u8>, tree: Seq<NodeView>) -> StoreView {
    store.commit(facts_of(store.next_file_id, path, tree))
}

/// Round trip: indexing a file again without a change leaves every other
/// file as it was and gives the file the same definitions and references,
/// global and local; only its id is new.
pub proof fn lemma_reindex_same_facts(store: StoreView, path: Seq<u8>, tree: Seq<NodeView>)
    ensures
        indexed(indexed(store, path, tree), path, tree).files.len() == indexed(
            store,
            path,
            tree,
        ).files.len(),
        indexed(indexed(store, path, tree), path, tree).files.drop_last() == indexed(
            store,
            path,
            tree,
        ).files.drop_last(),
        indexed(indexed(store, path, tree), path, tree).files.last() == (StoreFileView {
            file_id: indexed(store, path, tree).next_file_id,
            ..indexed(store, path, tree).files.last()
        }),
{
    let once = indexed(store, path, tree);
    let twice = indexed(once, path, tree);
    let first = facts_of(store.next_file_id, path, tree);
    let second = facts_of(once.next_file_id, path, tree);
    let c = CrawlerView::start(StoreFileView::empty(store.next_file_id, path));
    lemma_crawl_rebased(c, tree, once.next_file_id);
    assert(c.rebased(once.next_file_id) =~= CrawlerView::start(
        StoreFileView::empty(once.next_file_id, path),
    ));
    assert(second == StoreFileView { file_id: once.next_file_id, ..first });
    assert(first.path == path);
    let kept = remaining(store.files, path, true);
    assert(once.files == kept.push(first));
    assert(once.files.drop_last() =~= kept);
    lemma_remaining_twice(store.files, path, true);
    assert(remaining(once.files, path, true) == kept);
    assert(twice.files == kept.push(second));
    assert(twice.files.drop_last() =~= kept);
}

/// A file that has been read and parsed: its path and its syntax tree.
pub struct ParsedFile {
    pub path: Vec<u8>,
    pub tree: SyntaxTree,
}

/// The mathematical content of a [`ParsedFile`].
pub struct ParsedFileView {
    pub path: Seq<u8>,
    pub tree: Seq<NodeView>,
}

impl View for ParsedFile {
    type V = ParsedFileView;

    open spec fn view(&self) -> ParsedFileView {
        ParsedFileView { path: self.path@, tree: self.tree@ }
    }
}

/// The store after the first `n` of `files` have been indexed, in their
/// order.
pub open spec fn indexed_all(store: StoreView, files: Seq<ParsedFileView>, n: nat) -> StoreView
    decreases n,
{
    if n == 0 {
        store
    } else {
        indexed(indexed_all(store, files, (n - 1) as nat), files[n - 1].path, files[n - 1].tree)
    }
}

/// Why indexing failed: reading a file, walking a directory, or the store.
#[derive(Debug, PartialEq, Eq)]
pub enum Error {
    IO(String),
    Ignore(String),
    SQL(StoreError),
}

/// Indexes files into a store, with the registry of the parsers at hand.
pub struct DirCrawler {
    store: Store,
    language_registry: LanguageRegistry,
}

/// The mathematical content of a [`DirCrawler`].
pub struct DirCrawlerView {
    pub store: StoreView,
    pub language_registry: RegistryView,
}

impl View for DirCrawler {
    type V = DirCrawlerView;

    closed spec fn view(&self) -> DirCrawlerView {
        DirCrawlerView { store: self.store@, language_registry: self.language_registry@ }
    }
}

impl DirCrawler {
    /// A crawler that indexes into `store`.
    pub fn new(store: Store, language_registry: LanguageRegistry) -> (c: DirCrawler)
        ensures
            c@ == (DirCrawlerView { store: store@, language_registry: language_registry@ }),
    {
        DirCrawler { store, language_registry }
    }

    /// The store.
    pub fn store(&self) -> (s: &Store)
        ensures
            s@ == self@.store,
    {
        &self.store
    }

    /// Gives the store back.
    pub fn into_store(self) -> (s: Store)
        ensures
            s@ == self@.store,
    {
        self.store
    }

    /// The registry of the parsers.
    pub fn language_registry(&self) -> (r: &LanguageRegistry)
        ensures
            r@ == self@.language_registry,
    {
        &self.language_registry
    }

    /// Records that the parser `name` has been loaded, as
    /// [`LanguageRegistry::language_loaded`] does.
    pub fn language_loaded(&mut self, name: &str) -> (slot: usize)
        ensures
            final(self)@.store == old(self)@.store,
            final(self)@.language_registry.config_path == old(self)@.language_registry.config_path,
            final(self)@.language_registry.dylib_extension == old(
                self,
            )@.language_registry.dylib_extension,
            final(self)@.language_registry.languages == old(self)@.language_registry.languages,
            final(self)@.language_registry.loaded == (if crate::language_registry::slot_of(
                old(self)@.language_registry.loaded,
                name@,
            ) is Some {
                old(self)@.language_registry.loaded
            } else {
                old(self)@.language_registry.loaded.push(name@)
            }),
            crate::language_registry::slot_of(final(self)@.language_registry.loaded, name@) == Some(
                slot as int,
            ),
    {
        self.language_registry.language_loaded(name)
    }

    /// Indexes the file `path` whose syntax tree is `tree`: collects its
    /// facts in a transaction and commits it. Fails with `Full`, and
    /// leaves the store as it was, when the store has no file id left.
    pub fn crawl_file(&mut self, path: &[u8], tree: &SyntaxTree) -> (r: Result<(), Error>)
        requires
            old(self)@.store.wf(),
        ensures
            final(self)@.language_registry == old(self)@.language_registry,
            final(self)@.store.wf(),
            old(self)@.store.next_file_id < i64::MAX ==> r is Ok && final(self)@.store == indexed(
                old(self)@.store,
                path@,
                tree@,
            ) && final(self)@.store.next_file_id == old(self)@.store.next_file_id + 1,
            old(self)@.store.next_file_id == i64::MAX ==> (r matches Err(
                Error::SQL(StoreError::Full),
            )) && final(self)@.store == old(self)@.store,
    {
        let file = match self.store.file(path) {
            Ok(file) => file,
            Err(e) => {
                return Err(Error::SQL(e));
            },
        };
        let mut crawler = TreeCrawler::new(file);
        assert(crawler@.wf());
        proof {
            lemma_crawl_rebased(crawler@, tree@, file@.file_id);
        }
        crawler.crawl_tree(tree);
        match crawler.into_store().commit(&mut self.store) {
            Ok(()) => Ok(()),
            Err(e) => Err(Error::SQL(e)),
        }
    }

    /// Indexes `files` in their order, and stops at the first file that
    /// fails: with `Full` when the store has no file id left for it. The
    /// files before it stay indexed.
    pub fn crawl_path(&mut self, files: &Vec<ParsedFile>) -> (r: Result<(), Error>)
        requires
            old(self)@.store.wf(),
        ensures
            final(self)@.language_registry == old(self)@.language_registry,
            final(self)@.store.wf(),
            files@.len() <= i64::MAX - old(self)@.store.next_file_id ==> r is Ok && final(self)@.store == indexed_all(old(self)@.store, views(files@), files@.len()),
            files@.len() > i64::MAX - old(self)@.store.next_file_id ==> (r matches Err(
                Error::SQL(StoreError::Full),
            )) && final(self)@.store == indexed_all(
                old(self)@.store,
                views(files@),
                (i64::MAX - old(self)@.store.next_file_id) as nat,
            ),
    {
        let ghost begun = self@.store;
        let mut i: usize = 0;
        while i < files.len()
            invariant
                i <= files@.len(),
                begun == old(self)@.store,
                begun.wf(),
                self@.language_registry == old(self)@.language_registry,
                self@.store.wf(),
                self@.store == indexed_all(begun, views(files@), i as nat),
                self@.store.next_file_id == begun.next_file_id + i,
            decreases files@.len() - i,
        {
            let file = &files[i];
            assert(views(files@)[i as int] == file@);
            match self.crawl_file(file.path.as_slice(), &file.tree) {
                Ok(()) => {},
                Err(e) => {
                    return Err(e);
                },
            }
            i += 1;
        }
        Ok(())
    }
}

/// Number of the nodes `open` of `tree` that open a scope.
pub open spec fn open_scopes(tree: Seq<NodeView>, open: Seq<usize>) -> nat
    decreases open.len(),
{
    if open.len() == 0 {
        0
    } else {
        open_scopes(tree, open.drop_last()) + if tree[open.last() as int].opens_scope() {
            1nat
        } else {
            0nat
        }
    }
}

/// Number of the nodes `open` of `tree` that open a module.
pub open spec fn open_modules(tree: Seq<NodeView>, open: Seq<usize>) -> nat
    decreases open.len(),
{
    if open.len() == 0 {
        0
    } else {
        open_modules(tree, open.drop_last()) + if tree[open.last() as int].opens_module() {
            1nat
        } else {
            0nat
        }
    }
}

/// Entering a node opens the scope and the module that the node opens, and
/// no other.
pub proof fn lemma_enter_depth(c: CrawlerView, node: NodeView)
    ensures
        c.enter(node).scopes.len() == c.scopes.len() + if node.opens_scope() {
            1nat
        } else {
            0nat
        },
        c.enter(node).modules.len() == c.modules.len() + if node.opens_module() {
            1nat
        } else {
            0nat
        },
{
    let a = c.enter_locals(node);
    if c.scopes.len() > 0 {
        lemma_target_scope(c.scopes, node.scope_type());
    }
    assert(a.scopes.len() == c.scopes.len());
    let b = a.enter_scope_and_module(node);
    let d = b.enter_definition(node);
    assert(d.modules.len() == b.modules.len());
}

/// Leaving a node closes the innermost scope if the node opens one, and
/// the innermost module if the node opens one.
pub proof fn lemma_leave_depth(c: CrawlerView, node: NodeView)
    requires
        node.opens_scope() ==> c.scopes.len() > 0,
        node.opens_module() ==> c.modules.len() > 0,
    ensures
        c.leave(node).scopes.len() == c.scopes.len() - if node.opens_scope() {
            1int
        } else {
            0int
        },
        c.leave(node).modules.len() == c.modules.len() - if node.opens_module() {
            1int
        } else {
            0int
        },
{
    let a = if node.opens_scope() {
        c.pop_scope()
    } else {
        c
    };
    assert(a.modules == c.modules);
    let b = if node.opens_definition() {
        a.pop_definition()
    } else {
        a
    };
    assert(b.scopes == a.scopes);
    assert(b.modules.len() == a.modules.len());
}

proof fn lemma_unwind_depth(
    c: CrawlerView,
    tree: Seq<NodeView>,
    open: Seq<usize>,
    depth: nat,
    scopes: nat,
    modules: nat,
)
    requires
        c.scopes.len() == scopes + open_scopes(tree, open),
        c.modules.len() == modules + open_modules(tree, open),
    ensures
        c.unwind(tree, open, depth).0.scopes.len() == scopes + open_scopes(
            tree,
            c.unwind(tree, open, depth).1,
        ),
        c.unwind(tree, open, depth).0.modules.len() == modules + open_modules(
            tree,
            c.unwind(tree, open, depth).1,
        ),
        depth == 0 ==> c.unwind(tree, open, depth).1.len() == 0,
    decreases open.len(),
{
    if open.len() > 0 && tree[open.last() as int].depth >= depth {
        let node = tree[open.last() as int];
        lemma_leave_depth(c, node);
        lemma_unwind_depth(c.leave(node), tree, open.drop_last(), depth, scopes, modules);
    }
}

proof fn lemma_visit_depth(c: CrawlerView, tree: Seq<NodeView>, n: nat)
    requires
        n <= usize::MAX,
    ensures
        c.visit(tree, n).0.scopes.len() == c.scopes.len() + open_scopes(tree, c.visit(tree, n).1),
        c.visit(tree, n).0.modules.len() == c.modules.len() + open_modules(
            tree,
            c.visit(tree, n).1,
        ),
    decreases n,
{
    if n > 0 {
        lemma_visit_depth(c, tree, (n - 1) as nat);
        let before = c.visit(tree, (n - 1) as nat);
        let node = tree[n - 1];
        lemma_unwind_depth(before.0, tree, before.1, node.depth, c.scopes.len(), c.modules.len());
        let ready = before.0.unwind(tree, before.1, node.depth);
        lemma_enter_depth(ready.0, node);
        let open = ready.1.push((n - 1) as usize);
        assert(open.drop_last() =~= ready.1);
    }
}

/// A walk closes every scope and every module that it opens: after the
/// walk as many scopes and modules are open as before it, none after a
/// walk that began with none.
pub proof fn lemma_crawl_balanced(c: CrawlerView, tree: Seq<NodeView>)
    requires
        tree.len() <= usize::MAX,
    ensures
        c.crawl(tree).scopes.len() == c.scopes.len(),
        c.crawl(tree).modules.len() == c.modules.len(),
{
    let begun = c.push_scope(None).push_module();
    lemma_visit_depth(begun, tree, tree.len());
    let walked = begun.visit(tree, tree.len());
    lemma_unwind_depth(walked.0, tree, walked.1, 0, begun.scopes.len(), begun.modules.len());
    let left = walked.0.unwind(tree, walked.1, 0);
    assert(left.1.len() == 0);
    assert(left.0.scopes.len() == c.scopes.len() + 1);
    assert(left.0.modules.len() == c.modules.len() + 1);
}

} // verus!
