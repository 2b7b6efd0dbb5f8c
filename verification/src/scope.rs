//! Lexical scopes: the local definitions and references that a scope
//! collects, and how a reference finds its definition when the scope closes.

use vstd::prelude::*;
use crate::point::Point;
use crate::store::opt_view;
use crate::store::LocalDef;
use crate::store::LocalRef;
use crate::store::StoreFile;
use crate::store::StoreFileView;
use crate::text::byte_len;
use crate::text::str_eq;
use crate::text::utf8_len;
use crate::text::views;

verus! {

/// A name at a position: a local definition or a local reference.
#[derive(Debug)]
pub struct LocalName {
    pub name: String,
    pub position: Point,
}

/// The mathematical content of a [`LocalName`].
pub struct LocalNameView {
    pub name: Seq<char>,
    pub position: Point,
}

impl View for LocalName {
    type V = LocalNameView;

    open spec fn view(&self) -> LocalNameView {
        LocalNameView { name: self.name@, position: self.position }
    }
}

/// Index of the first entry of `names` with the name `name`.
pub open spec fn index_of_name(names: Seq<LocalNameView>, name: Seq<char>) -> Option<int>
    decreases names.len(),
{
    if names.len() == 0 {
        None
    } else {
        match index_of_name(names.drop_last(), name) {
            Some(i) => Some(i),
            None => if names.last().name == name {
                Some(names.len() - 1)
            } else {
                None
            },
        }
    }
}

/// The definition at index `i` is visible from `at`: neither it nor any
/// definition before it in the list lies strictly after `at`.
pub open spec fn visible(defs: Seq<LocalNameView>, at: Point, i: int) -> bool {
    0 <= i < defs.len() && forall|j: int| 0 <= j <= i ==> !(#[trigger] defs[j]).position.after(at)
}

/// Index of the last definition of `name` that is visible from `at`.
pub open spec fn last_visible(defs: Seq<LocalNameView>, name: Seq<char>, at: Point) -> Option<int>
    decreases defs.len(),
{
    if defs.len() == 0 {
        None
    } else if defs.last().name == name && visible(defs, at, defs.len() - 1) {
        Some(defs.len() - 1)
    } else {
        last_visible(defs.drop_last(), name, at)
    }
}

/// The definitions stand in the order of their positions.
pub open spec fn in_source_order(defs: Seq<LocalNameView>) -> bool {
    forall|a: int, b: int|
        0 <= a < b < defs.len() ==> !(#[trigger] defs[a]).position.after((#[trigger] defs[b]).position)
}

/// Every name of the list has a length in bytes that a `usize` holds, as
/// the name of every string has.
pub open spec fn bounded(names: Seq<LocalNameView>) -> bool {
    forall|i: int| 0 <= i < names.len() ==> utf8_len((#[trigger] names[i]).name) <= usize::MAX
}

/// The local definition that the store keeps for a name.
pub open spec fn local_def_of(n: LocalNameView) -> LocalDef {
    LocalDef { position: n.position, length: utf8_len(n.name) as usize }
}

/// The local definitions that the store keeps for a list of names.
pub open spec fn local_defs_of(names: Seq<LocalNameView>) -> Seq<LocalDef> {
    Seq::new(names.len(), |i: int| local_def_of(names[i]))
}

/// A lexical scope while it is open.
#[derive(Debug)]
pub struct Scope {
    kind: Option<String>,
    local_refs: Vec<LocalName>,
    local_defs: Vec<LocalName>,
    hoisted_local_defs: Vec<LocalName>,
}

/// The mathematical content of a [`Scope`].
#[verifier::ext_equal]
pub struct ScopeView {
    pub kind: Option<Seq<char>>,
    pub local_refs: Seq<LocalNameView>,
    pub local_defs: Seq<LocalNameView>,
    pub hoisted_local_defs: Seq<LocalNameView>,
}

impl View for Scope {
    type V = ScopeView;

    closed spec fn view(&self) -> ScopeView {
        ScopeView {
            kind: opt_view(self.kind),
            local_refs: views(self.local_refs@),
            local_defs: views(self.local_defs@),
            hoisted_local_defs: views(self.hoisted_local_defs@),
        }
    }
}

impl ScopeView {
    /// A scope of the given kind that holds nothing yet.
    pub open spec fn empty(kind: Option<Seq<char>>) -> ScopeView {
        ScopeView {
            kind,
            local_refs: Seq::empty(),
            local_defs: Seq::empty(),
            hoisted_local_defs: Seq::empty(),
        }
    }

    /// No two hoisted definitions share a name, and every name has a
    /// length in bytes that a `usize` holds.
    pub open spec fn wf(self) -> bool {
        &&& forall|i: int, j: int|
            0 <= i < j < self.hoisted_local_defs.len() ==> (#[trigger] self.hoisted_local_defs[i]).name
                != (#[trigger] self.hoisted_local_defs[j]).name
        &&& bounded(self.local_refs)
        &&& bounded(self.local_defs)
        &&& bounded(self.hoisted_local_defs)
    }

    /// The scope with one more definition that is visible from its
    /// position on.
    pub open spec fn with_local_def(self, name: Seq<char>, position: Point) -> ScopeView {
        ScopeView { local_defs: self.local_defs.push(LocalNameView { name, position }), ..self }
    }

    /// The scope with one more definition that is visible throughout; the
    /// first definition of a name stays.
    pub open spec fn with_hoisted_def(self, name: Seq<char>, position: Point) -> ScopeView {
        if index_of_name(self.hoisted_local_defs, name) is Some {
            self
        } else {
            ScopeView {
                hoisted_local_defs: self.hoisted_local_defs.push(LocalNameView { name, position }),
                ..self
            }
        }
    }

    /// The scope with one more reference.
    pub open spec fn with_local_ref(self, name: Seq<char>, position: Point) -> ScopeView {
        ScopeView { local_refs: self.local_refs.push(LocalNameView { name, position }), ..self }
    }

    /// The scope with more references, in their order.
    pub open spec fn with_local_refs(self, refs: Seq<LocalNameView>) -> ScopeView {
        ScopeView { local_refs: self.local_refs + refs, ..self }
    }

    /// The definition of this scope that a reference to `name` at `at`
    /// resolves to, as an index into the scope's definitions, the hoisted
    /// ones counted after the others: the last visible definition of the
    /// name, or else the hoisted definition of the name.
    pub open spec fn resolve(self, name: Seq<char>, at: Point) -> Option<int> {
        match last_visible(self.local_defs, name, at) {
            Some(i) => Some(i),
            None => match index_of_name(self.hoisted_local_defs, name) {
                Some(j) => Some(self.local_defs.len() + j),
                None => None,
            },
        }
    }

    /// The local references that the store gets for those of `refs` that
    /// resolve in this scope, when the scope's first definition has the id
    /// `base`.
    pub open spec fn links(self, base: int, refs: Seq<LocalNameView>) -> Seq<LocalRef>
        decreases refs.len(),
    {
        if refs.len() == 0 {
            Seq::empty()
        } else {
            let rest = self.links(base, refs.drop_last());
            let r = refs.last();
            match self.resolve(r.name, r.position) {
                Some(i) => rest.push(
                    LocalRef {
                        definition_id: (base + i) as usize,
                        position: r.position,
                        length: utf8_len(r.name) as usize,
                    },
                ),
                None => rest,
            }
        }
    }

    /// Those of `refs` that do not resolve in this scope, in their order.
    pub open spec fn escapes(self, refs: Seq<LocalNameView>) -> Seq<LocalNameView>
        decreases refs.len(),
    {
        if refs.len() == 0 {
            Seq::empty()
        } else {
            let rest = self.escapes(refs.drop_last());
            let r = refs.last();
            match self.resolve(r.name, r.position) {
                Some(i) => rest,
                None => rest.push(r),
            }
        }
    }

    /// The facts of a file after this scope has closed: its definitions are
    /// added, the hoisted ones last, and every reference that resolves in
    /// the scope is added with its link.
    pub open spec fn flush(self, facts: StoreFileView) -> StoreFileView {
        StoreFileView {
            local_defs: facts.local_defs + local_defs_of(self.local_defs) + local_defs_of(
                self.hoisted_local_defs,
            ),
            local_refs: facts.local_refs + self.links(
                facts.local_defs.len() as int,
                self.local_refs,
            ),
            ..facts
        }
    }
}

proof fn lemma_index_of_name(names: Seq<LocalNameView>, name: Seq<char>)
    ensures
        match index_of_name(names, name) {
            Some(i) => 0 <= i < names.len() && names[i].name == name && forall|j: int|
                0 <= j < i ==> (#[trigger] names[j]).name != name,
            None => forall|j: int| 0 <= j < names.len() ==> (#[trigger] names[j]).name != name,
        },
    decreases names.len(),
{
    if names.len() > 0 {
        lemma_index_of_name(names.drop_last(), name);
        let init = names.drop_last();
        assert forall|j: int| 0 <= j < init.len() implies init[j] == names[j] by {}
        match index_of_name(init, name) {
            Some(i) => {
                assert forall|j: int| 0 <= j < i implies (#[trigger] names[j]).name != name by {
                    assert(init[j] == names[j]);
                }
            },
            None => {
                assert forall|j: int| 0 <= j < init.len() implies (#[trigger] names[j]).name
                    != name by {
                    assert(init[j] == names[j]);
                }
            },
        }
    }
}

/// What `last_visible` finds: a visible definition of the name with no
/// visible definition of the name after it; and it finds one if there is one.
pub proof fn lemma_last_visible(defs: Seq<LocalNameView>, name: Seq<char>, at: Point)
    ensures
        match last_visible(defs, name, at) {
            Some(i) => visible(defs, at, i) && defs[i].name == name && forall|j: int|
                i < j < defs.len() && (#[trigger] defs[j]).name == name ==> !visible(defs, at, j),
            None => forall|j: int|
                0 <= j < defs.len() && (#[trigger] defs[j]).name == name ==> !visible(defs, at, j),
        },
    decreases defs.len(),
{
    if defs.len() > 0 {
        let init = defs.drop_last();
        lemma_last_visible(init, name, at);
        assert forall|j: int| 0 <= j < init.len() implies visible(init, at, j) == visible(
            defs,
            at,
            j,
        ) by {
            assert forall|k: int| 0 <= k <= j implies init[k] == defs[k] by {}
            if visible(init, at, j) {
                assert forall|k: int| 0 <= k <= j implies !(#[trigger] defs[k]).position.after(
                    at,
                ) by {
                    assert(init[k] == defs[k]);
                }
            }
            if visible(defs, at, j) {
                assert forall|k: int| 0 <= k <= j implies !(#[trigger] init[k]).position.after(
                    at,
                ) by {
                    assert(init[k] == defs[k]);
                }
            }
        }
        if defs.last().name == name && visible(defs, at, defs.len() - 1) {
        } else {
            match last_visible(init, name, at) {
                Some(i) => {
                    assert(init[i] == defs[i]);
                    assert forall|j: int|
                        i < j < defs.len() && (#[trigger] defs[j]).name == name implies !visible(
                        defs,
                        at,
                        j,
                    ) by {
                        if j < init.len() {
                            assert(init[j] == defs[j]);
                        }
                    }
                },
                None => {
                    assert forall|j: int|
                        0 <= j < defs.len() && (#[trigger] defs[j]).name == name implies !visible(
                        defs,
                        at,
                        j,
                    ) by {
                        if j < init.len() {
                            assert(init[j] == defs[j]);
                        }
                    }
                },
            }
        }
    }
}

/// A visible definition of the name with no visible definition of the name
/// after it is the one that `last_visible` finds.
pub proof fn lemma_last_visible_is(defs: Seq<LocalNameView>, name: Seq<char>, at: Point, i: int)
    requires
        visible(defs, at, i),
        defs[i].name == name,
        forall|j: int| i < j < defs.len() && (#[trigger] defs[j]).name == name ==> !visible(defs, at, j),
    ensures
        last_visible(defs, name, at) == Some(i),
{
    lemma_last_visible(defs, name, at);
    match last_visible(defs, name, at) {
        Some(k) => {
            if k < i {
                assert(defs[i].name == name);
            } else if i < k {
                assert(defs[k].name == name);
            }
        },
        None => {
            assert(defs[i].name == name);
        },
    }
}

/// Shadowing: of two definitions of a name in one scope, at the indices
/// `i` and `j`, the second after the first, a reference after both
/// resolves to the second, provided that the second is visible from the
/// reference and no later definition of the name is.
pub proof fn lemma_shadowing(scope: ScopeView, i: int, j: int, name: Seq<char>, at: Point)
    requires
        0 <= i < j < scope.local_defs.len(),
        scope.local_defs[i].name == name,
        scope.local_defs[j].name == name,
        scope.local_defs[j].position.after(scope.local_defs[i].position),
        at.after(scope.local_defs[j].position),
        visible(scope.local_defs, at, j),
        forall|k: int|
            j < k < scope.local_defs.len() && (#[trigger] scope.local_defs[k]).name == name
                ==> !visible(scope.local_defs, at, k),
    ensures
        scope.resolve(name, at) == Some(j),
{
    lemma_last_visible_is(scope.local_defs, name, at, j);
}

/// In a list of definitions that stands in source order, the definitions
/// that are visible from a position are those that do not lie after it.
pub proof fn lemma_visible_in_source_order(defs: Seq<LocalNameView>, at: Point, j: int)
    requires
        in_source_order(defs),
        0 <= j < defs.len(),
    ensures
        visible(defs, at, j) <==> !defs[j].position.after(at),
{
    if !defs[j].position.after(at) {
        assert forall|k: int| 0 <= k <= j implies !(#[trigger] defs[k]).position.after(at) by {
            if k < j {
                assert(!defs[k].position.after(defs[j].position));
            }
        }
    }
}

/// Hoisting: a reference to a name of which the scope has no other
/// definition that is visible from the reference resolves to the hoisted
/// definition of the name, wherever the reference stands, before the
/// definition too.
pub proof fn lemma_hoisting(scope: ScopeView, j: int, name: Seq<char>, at: Point)
    requires
        scope.wf(),
        0 <= j < scope.hoisted_local_defs.len(),
        scope.hoisted_local_defs[j].name == name,
        forall|k: int|
            0 <= k < scope.local_defs.len() && (#[trigger] scope.local_defs[k]).name == name
                ==> !visible(scope.local_defs, at, k),
    ensures
        scope.resolve(name, at) == Some(scope.local_defs.len() + j),
{
    lemma_last_visible(scope.local_defs, name, at);
    lemma_index_of_name(scope.hoisted_local_defs, name);
    match index_of_name(scope.hoisted_local_defs, name) {
        Some(i) => {
            if i < j {
                assert(scope.hoisted_local_defs[i].name != scope.hoisted_local_defs[j].name);
            }
        },
        None => {
            assert(scope.hoisted_local_defs[j].name == name);
        },
    }
}

/// A reference resolves to a definition of its own scope that bears its
/// name, or to none.
pub proof fn lemma_resolve(scope: ScopeView, name: Seq<char>, at: Point)
    ensures
        match scope.resolve(name, at) {
            Some(i) => {
                &&& 0 <= i < scope.local_defs.len() + scope.hoisted_local_defs.len()
                &&& i < scope.local_defs.len() ==> scope.local_defs[i].name == name && visible(
                    scope.local_defs,
                    at,
                    i,
                )
                &&& i >= scope.local_defs.len() ==> scope.hoisted_local_defs[i
                    - scope.local_defs.len()].name == name
            },
            None => {
                &&& forall|k: int|
                    0 <= k < scope.local_defs.len() && (#[trigger] scope.local_defs[k]).name == name
                        ==> !visible(scope.local_defs, at, k)
                &&& forall|k: int|
                    0 <= k < scope.hoisted_local_defs.len() ==> (
                    #[trigger] scope.hoisted_local_defs[k]).name != name
            },
        },
{
    lemma_last_visible(scope.local_defs, name, at);
    lemma_index_of_name(scope.hoisted_local_defs, name);
}

/// The definition of a scope that a reference resolves to: one that is
/// visible from its position on, or a hoisted one, by its index.
#[derive(Clone, Copy, Debug, PartialEq, Eq, Structural)]
pub enum Target {
    Local(usize),
    Hoisted(usize),
}

impl Target {
    /// The index among the scope's definitions, the hoisted ones counted
    /// after the others.
    pub open spec fn index(self, scope: ScopeView) -> int {
        match self {
            Target::Local(i) => i as int,
            Target::Hoisted(j) => scope.local_defs.len() + j,
        }
    }

    /// The scope has the definition.
    pub open spec fn within(self, scope: ScopeView) -> bool {
        match self {
            Target::Local(i) => i < scope.local_defs.len(),
            Target::Hoisted(j) => j < scope.hoisted_local_defs.len(),
        }
    }
}

/// Index of the first entry of `names` with the name `name`.
pub fn find_name(names: &Vec<LocalName>, name: &str) -> (r: Option<usize>)
    ensures
        r is None ==> index_of_name(views(names@), name@) is None,
        r matches Some(i) ==> i < names@.len() && index_of_name(views(names@), name@) == Some(
            i as int,
        ),
{
    let ghost all = views(names@);
    let mut i: usize = 0;
    while i < names.len()
        invariant
            all == views(names@),
            i <= names@.len(),
            index_of_name(all.take(i as int), name@) is None,
        decreases names@.len() - i,
    {
        assert(all.take(i + 1).drop_last() =~= all.take(i as int));
        if str_eq(names[i].name.as_str(), name) {
            proof {
                lemma_index_of_name_prefix(all, name@, i + 1);
            }
            return Some(i);
        }
        i += 1;
    }
    assert(all.take(i as int) =~= all);
    None
}

proof fn lemma_index_of_name_prefix(names: Seq<LocalNameView>, name: Seq<char>, n: int)
    requires
        0 <= n <= names.len(),
        index_of_name(names.take(n), name) is Some,
    ensures
        index_of_name(names, name) == index_of_name(names.take(n), name),
    decreases names.len(),
{
    if n == names.len() {
        assert(names.take(n) =~= names);
    } else {
        assert(names.drop_last().take(n) =~= names.take(n));
        lemma_index_of_name_prefix(names.drop_last(), name, n);
    }
}

/// Beyond a definition that lies after `at` nothing is visible, so the
/// search may stop there.
proof fn lemma_last_visible_cut(defs: Seq<LocalNameView>, name: Seq<char>, at: Point, n: int)
    requires
        0 <= n <= defs.len(),
        n < defs.len() ==> defs[n].position.after(at),
    ensures
        last_visible(defs, name, at) == last_visible(defs.take(n), name, at),
    decreases defs.len(),
{
    if n == defs.len() {
        assert(defs.take(n) =~= defs);
    } else {
        assert(!visible(defs, at, defs.len() - 1)) by {
            assert(defs[n].position.after(at));
        }
        assert(defs.drop_last().take(n) =~= defs.take(n));
        if n < defs.len() - 1 {
            assert(defs.drop_last()[n] == defs[n]);
        }
        lemma_last_visible_cut(defs.drop_last(), name, at, n);
    }
}

impl Scope {
    /// A scope of the given kind that holds nothing yet.
    pub fn new(kind: Option<String>) -> (s: Scope)
        ensures
            s@ == ScopeView::empty(opt_view(kind)),
            s@.wf(),
    {
        let s = Scope {
            kind,
            local_refs: Vec::new(),
            local_defs: Vec::new(),
            hoisted_local_defs: Vec::new(),
        };
        assert(views(s.local_refs@) =~= Seq::<LocalNameView>::empty());
        assert(views(s.local_defs@) =~= Seq::<LocalNameView>::empty());
        assert(views(s.hoisted_local_defs@) =~= Seq::<LocalNameView>::empty());
        s
    }

    /// Whether the scope is of the kind `kind`.
    pub fn has_kind(&self, kind: &str) -> (r: bool)
        ensures
            r == (self@.kind == Some(kind@)),
    {
        match &self.kind {
            Some(k) => str_eq(k.as_str(), kind),
            None => false,
        }
    }

    /// Adds a definition that is visible from its position on.
    pub fn add_local_def(&mut self, name: String, position: Point)
        ensures
            final(self)@ == old(self)@.with_local_def(name@, position),
            old(self)@.wf() ==> final(self)@.wf(),
    {
        // A string is never longer than `usize::MAX` bytes; the call shows it.
        let _: usize = byte_len(name.as_str());
        self.local_defs.push(LocalName { name, position });
        proof {
            let before = views(old(self).local_defs@);
            let after = views(self.local_defs@);
            assert(after =~= before.push(LocalNameView { name: name@, position }));
            if old(self)@.wf() {
                assert forall|i: int| 0 <= i < after.len() implies utf8_len(
                    (#[trigger] after[i]).name,
                ) <= usize::MAX by {
                    if i < before.len() {
                        assert(after[i] == before[i]);
                    }
                }
            }
        }
    }

    /// Adds a definition that is visible throughout the scope, unless the
    /// scope has a hoisted definition of that name already.
    pub fn add_hoisted_def(&mut self, name: String, position: Point)
        ensures
            final(self)@ == old(self)@.with_hoisted_def(name@, position),
            old(self)@.wf() ==> final(self)@.wf(),
    {
        // A string is never longer than `usize::MAX` bytes; the call shows it.
        let _: usize = byte_len(name.as_str());
        if find_name(&self.hoisted_local_defs, name.as_str()).is_none() {
            let ghost before = views(self.hoisted_local_defs@);
            self.hoisted_local_defs.push(LocalName { name, position });
            proof {
                let after = views(self.hoisted_local_defs@);
                assert(after =~= before.push(LocalNameView { name: name@, position }));
                lemma_index_of_name(before, name@);
                if old(self)@.wf() {
                    assert forall|i: int, j: int| 0 <= i < j < after.len() implies (
                    #[trigger] after[i]).name != (#[trigger] after[j]).name by {
                        if j < before.len() {
                            assert(after[i] == before[i] && after[j] == before[j]);
                        } else {
                            assert(after[i] == before[i]);
                        }
                    }
                    assert forall|i: int| 0 <= i < after.len() implies utf8_len(
                        (#[trigger] after[i]).name,
                    ) <= usize::MAX by {
                        if i < before.len() {
                            assert(after[i] == before[i]);
                        }
                    }
                }
            }
        }
    }

    /// Adds a reference.
    pub fn add_local_ref(&mut self, name: String, position: Point)
        ensures
            final(self)@ == old(self)@.with_local_ref(name@, position),
            old(self)@.wf() ==> final(self)@.wf(),
    {
        // A string is never longer than `usize::MAX` bytes; the call shows it.
        let _: usize = byte_len(name.as_str());
        self.local_refs.push(LocalName { name, position });
        proof {
            let before = views(old(self).local_refs@);
            let after = views(self.local_refs@);
            assert(after =~= before.push(LocalNameView { name: name@, position }));
            if old(self)@.wf() {
                assert forall|i: int| 0 <= i < after.len() implies utf8_len(
                    (#[trigger] after[i]).name,
                ) <= usize::MAX by {
                    if i < before.len() {
                        assert(after[i] == before[i]);
                    }
                }
            }
        }
    }

    /// Adds the references `refs`, in their order.
    pub fn add_local_refs(&mut self, refs: Vec<LocalName>)
        ensures
            final(self)@ == old(self)@.with_local_refs(views(refs@)),
            old(self)@.wf() && bounded(views(refs@)) ==> final(self)@.wf(),
    {
        let mut refs = refs;
        let ghost added = views(refs@);
        self.local_refs.append(&mut refs);
        proof {
            let before = views(old(self).local_refs@);
            let after = views(self.local_refs@);
            assert(after =~= before + added);
            if old(self)@.wf() && bounded(added) {
                assert forall|i: int| 0 <= i < after.len() implies utf8_len(
                    (#[trigger] after[i]).name,
                ) <= usize::MAX by {
                    if i < before.len() {
                        assert(after[i] == before[i]);
                    } else {
                        assert(after[i] == added[i - before.len()]);
                    }
                }
            }
        }
    }

    /// The definition of this scope that a reference to `name` at `at`
    /// resolves to, as an index into the scope's definitions, the hoisted
    /// ones counted after the others.
    pub fn resolve(&self, name: &str, at: Point) -> (r: Option<Target>)
        ensures
            r is None ==> self@.resolve(name@, at) is None,
            r matches Some(t) ==> t.within(self@) && self@.resolve(name@, at) == Some(
                t.index(self@),
            ),
    {
        let ghost defs = views(self.local_defs@);
        let mut found: Option<usize> = None;
        let mut i: usize = 0;
        while i < self.local_defs.len()
            invariant
                defs == views(self.local_defs@),
                i <= defs.len(),
                forall|j: int| 0 <= j < i ==> !(#[trigger] defs[j]).position.after(at),
                found is None ==> last_visible(defs.take(i as int), name@, at) is None,
                found matches Some(k) ==> k < i && last_visible(defs.take(i as int), name@, at)
                    == Some(k as int),
            ensures
                i <= defs.len(),
                i < defs.len() ==> defs[i as int].position.after(at),
                found is None ==> last_visible(defs.take(i as int), name@, at) is None,
                found matches Some(k) ==> k < i && last_visible(defs.take(i as int), name@, at)
                    == Some(k as int),
            decreases defs.len() - i,
        {
            if self.local_defs[i].position.is_after(&at) {
                break;
            }
            proof {
                let next = defs.take(i + 1);
                assert(next.drop_last() =~= defs.take(i as int));
                assert(visible(next, at, i as int)) by {
                    assert forall|j: int| 0 <= j <= i implies !(#[trigger] next[j]).position.after(
                        at,
                    ) by {
                        assert(next[j] == defs[j]);
                    }
                }
            }
            if str_eq(self.local_defs[i].name.as_str(), name) {
                found = Some(i);
            }
            i += 1;
        }
        proof {
            lemma_last_visible_cut(defs, name@, at, i as int);
        }
        match found {
            Some(k) => Some(Target::Local(k)),
            None => match find_name(&self.hoisted_local_defs, name) {
                Some(j) => Some(Target::Hoisted(j)),
                None => None,
            },
        }
    }
}

impl Scope {
    /// Closes the scope: hands its definitions to `store`, the hoisted ones
    /// last, then every reference that resolves in the scope with the id
    /// of its definition. Returns the references that do not resolve here.
    pub fn flush(self, store: &mut StoreFile) -> (escaped: Vec<LocalName>)
        ensures
            final(store)@ == self@.flush(old(store)@),
            views(escaped@) == self@.escapes(self@.local_refs),
            old(store)@.wf() ==> final(store)@.wf(),
            self@.wf() ==> bounded(views(escaped@)),
    {
        let ghost scope = self@;
        proof {
            if scope.wf() {
                lemma_escapes_bounded(scope, scope.local_refs);
            }
        }
        let ghost facts = store@;
        let ghost base = facts.local_defs.len() as int;
        let mut local_def_ids: Vec<usize> = Vec::new();
        let mut i: usize = 0;
        assert(store@ =~= StoreFileView {
            local_defs: facts.local_defs + local_defs_of(scope.local_defs.take(0)),
            ..facts
        });
        while i < self.local_defs.len()
            invariant
                scope == self@,
                base == facts.local_defs.len(),
                i <= scope.local_defs.len(),
                scope.local_defs.len() == self.local_defs@.len(),
                store@ == (StoreFileView {
                    local_defs: facts.local_defs + local_defs_of(scope.local_defs.take(i as int)),
                    ..facts
                }),
                local_def_ids@.len() == i,
                forall|j: int| 0 <= j < i ==> #[trigger] local_def_ids@[j] == base + j,
                facts.wf() ==> store@.wf(),
            decreases scope.local_defs.len() - i,
        {
            let d = &self.local_defs[i];
            assert(scope.local_defs[i as int] == d@);
            assert(store@.local_defs.len() == base + i);
            let id = store.insert_local_def(d.name.as_str(), d.position);
            local_def_ids.push(id);
            assert(store@ =~= StoreFileView {
                local_defs: facts.local_defs + local_defs_of(scope.local_defs.take(i + 1)),
                ..facts
            });
            i += 1;
        }
        assert(scope.local_defs.take(i as int) =~= scope.local_defs);
        let ghost mid = store@;
        let ghost count = scope.local_defs.len() as int;
        let mut hoisted_ids: Vec<usize> = Vec::new();
        let mut h: usize = 0;
        assert(store@ =~= StoreFileView {
            local_defs: mid.local_defs + local_defs_of(scope.hoisted_local_defs.take(0)),
            ..facts
        });
        while h < self.hoisted_local_defs.len()
            invariant
                scope == self@,
                base == facts.local_defs.len(),
                h <= scope.hoisted_local_defs.len(),
                scope.hoisted_local_defs.len() == self.hoisted_local_defs@.len(),
                mid.local_defs.len() == base + count,
                store@ == (StoreFileView {
                    local_defs: mid.local_defs + local_defs_of(
                        scope.hoisted_local_defs.take(h as int),
                    ),
                    ..facts
                }),
                hoisted_ids@.len() == h,
                forall|j: int| 0 <= j < h ==> #[trigger] hoisted_ids@[j] == base + count + j,
                facts.wf() ==> store@.wf(),
            decreases scope.hoisted_local_defs.len() - h,
        {
            let d = &self.hoisted_local_defs[h];
            assert(scope.hoisted_local_defs[h as int] == d@);
            assert(store@.local_defs.len() == base + count + h);
            let id = store.insert_local_def(d.name.as_str(), d.position);
            hoisted_ids.push(id);
            assert(store@ =~= StoreFileView {
                local_defs: mid.local_defs + local_defs_of(scope.hoisted_local_defs.take(h + 1)),
                ..facts
            });
            h += 1;
        }
        assert(scope.hoisted_local_defs.take(h as int) =~= scope.hoisted_local_defs);
        let ghost all_defs = store@.local_defs;
        let mut escaped: Vec<LocalName> = Vec::new();
        let mut k: usize = 0;
        assert(store@ =~= StoreFileView {
            local_defs: all_defs,
            local_refs: facts.local_refs + scope.links(base, scope.local_refs.take(0)),
            ..facts
        });
        assert(views(escaped@) =~= scope.escapes(scope.local_refs.take(0)));
        while k < self.local_refs.len()
            invariant
                scope == self@,
                base == facts.local_defs.len(),
                k <= scope.local_refs.len(),
                scope.local_refs.len() == self.local_refs@.len(),
                all_defs.len() == base + count + scope.hoisted_local_defs.len(),
                count == scope.local_defs.len(),
                local_def_ids@.len() == count,
                forall|j: int| 0 <= j < count ==> #[trigger] local_def_ids@[j] == base + j,
                hoisted_ids@.len() == scope.hoisted_local_defs.len(),
                forall|j: int|
                    0 <= j < hoisted_ids@.len() ==> #[trigger] hoisted_ids@[j] == base + count + j,
                store@ == (StoreFileView {
                    local_defs: all_defs,
                    local_refs: facts.local_refs + scope.links(
                        base,
                        scope.local_refs.take(k as int),
                    ),
                    ..facts
                }),
                views(escaped@) == scope.escapes(scope.local_refs.take(k as int)),
                facts.wf() ==> store@.wf(),
            decreases scope.local_refs.len() - k,
        {
            let r = &self.local_refs[k];
            let ghost seen = scope.local_refs.take(k as int);
            let ghost next = scope.local_refs.take(k + 1);
            assert(next.drop_last() =~= seen);
            assert(next.last() == r@);
            let ghost caught = views(escaped@);
            match self.resolve(r.name.as_str(), r.position) {
                Some(target) => {
                    let id = match target {
                        Target::Local(i) => local_def_ids[i],
                        Target::Hoisted(j) => hoisted_ids[j],
                    };
                    assert(id == base + target.index(scope));
                    let done = store.insert_local_ref(id, r.name.as_str(), r.position);
                    assert(done is Ok);
                    assert(store@ =~= StoreFileView {
                        local_defs: all_defs,
                        local_refs: facts.local_refs + scope.links(base, next),
                        ..facts
                    });
                },
                None => {
                    escaped.push(LocalName { name: r.name.clone(), position: r.position });
                    assert(views(escaped@) =~= caught.push(r@));
                },
            }
            k += 1;
        }
        assert(scope.local_refs.take(k as int) =~= scope.local_refs);
        assert(store@ =~= scope.flush(facts));
        escaped
    }
}

/// A reference that does not resolve in a scope is among those that
/// escape from it.
pub proof fn lemma_escapes_contains(scope: ScopeView, refs: Seq<LocalNameView>, k: int)
    requires
        0 <= k < refs.len(),
        scope.resolve(refs[k].name, refs[k].position) is None,
    ensures
        scope.escapes(refs).contains(refs[k]),
    decreases refs.len(),
{
    let rest = scope.escapes(refs.drop_last());
    if k == refs.len() - 1 {
        assert(scope.escapes(refs) == rest.push(refs[k]));
        assert(rest.push(refs[k])[rest.len() as int] == refs[k]);
    } else {
        lemma_escapes_contains(scope, refs.drop_last(), k);
        assert(refs.drop_last()[k] == refs[k]);
        let w = choose|w: int| 0 <= w < rest.len() && rest[w] == refs[k];
        assert(scope.escapes(refs)[w] == refs[k]);
    }
}

/// A reference that resolves in a scope is handed to the store with the
/// id of the definition that it resolves to.
pub proof fn lemma_links_contains(scope: ScopeView, base: int, refs: Seq<LocalNameView>, k: int)
    requires
        0 <= k < refs.len(),
        scope.resolve(refs[k].name, refs[k].position) is Some,
    ensures
        scope.links(base, refs).contains(
            LocalRef {
                definition_id: (base + scope.resolve(refs[k].name, refs[k].position)->Some_0) as usize,
                position: refs[k].position,
                length: utf8_len(refs[k].name) as usize,
            },
        ),
    decreases refs.len(),
{
    let rest = scope.links(base, refs.drop_last());
    let link = LocalRef {
        definition_id: (base + scope.resolve(refs[k].name, refs[k].position)->Some_0) as usize,
        position: refs[k].position,
        length: utf8_len(refs[k].name) as usize,
    };
    if k == refs.len() - 1 {
        assert(scope.links(base, refs) == rest.push(link));
        assert(rest.push(link)[rest.len() as int] == link);
    } else {
        lemma_links_contains(scope, base, refs.drop_last(), k);
        assert(refs.drop_last()[k] == refs[k]);
        let w = choose|w: int| 0 <= w < rest.len() && rest[w] == link;
        assert(scope.links(base, refs)[w] == link);
    }
}

/// The references that escape from a scope are among its references.
proof fn lemma_escapes_bounded(scope: ScopeView, refs: Seq<LocalNameView>)
    requires
        bounded(refs),
    ensures
        bounded(scope.escapes(refs)),
    decreases refs.len(),
{
    if refs.len() > 0 {
        let init = refs.drop_last();
        assert forall|i: int| 0 <= i < init.len() implies utf8_len((#[trigger] init[i]).name)
            <= usize::MAX by {
            assert(init[i] == refs[i]);
        }
        lemma_escapes_bounded(scope, init);
        let rest = scope.escapes(init);
        let all = scope.escapes(refs);
        assert forall|i: int| 0 <= i < all.len() implies utf8_len((#[trigger] all[i]).name)
            <= usize::MAX by {
            if i < rest.len() {
                assert(all[i] == rest[i]);
            } else {
                assert(all[i] == refs[refs.len() - 1]);
            }
        }
    }
}

/// Lengths are counted in bytes: the local definition that the store
/// keeps for a name of a well-formed scope has the length of the name's
/// UTF-8 encoding.
pub proof fn lemma_length_in_bytes(scope: ScopeView)
    requires
        scope.wf(),
    ensures
        forall|i: int|
            0 <= i < scope.local_defs.len() ==> (#[trigger] local_defs_of(
                scope.local_defs,
            )[i]).length == utf8_len(scope.local_defs[i].name),
        forall|i: int|
            0 <= i < scope.hoisted_local_defs.len() ==> (#[trigger] local_defs_of(
                scope.hoisted_local_defs,
            )[i]).length == utf8_len(scope.hoisted_local_defs[i].name),
        forall|i: int|
            0 <= i < scope.local_refs.len() ==> utf8_len((#[trigger] scope.local_refs[i]).name)
                as usize == utf8_len(scope.local_refs[i].name),
{
    assert forall|i: int| 0 <= i < scope.local_defs.len() implies (#[trigger] local_defs_of(
        scope.local_defs,
    )[i]).length == utf8_len(scope.local_defs[i].name) by {
        assert(utf8_len(scope.local_defs[i].name) <= usize::MAX);
    }
    assert forall|i: int| 0 <= i < scope.hoisted_local_defs.len() implies (#[trigger] local_defs_of(
        scope.hoisted_local_defs,
    )[i]).length == utf8_len(scope.hoisted_local_defs[i].name) by {
        assert(utf8_len(scope.hoisted_local_defs[i].name) <= usize::MAX);
    }
}

} // verus!
