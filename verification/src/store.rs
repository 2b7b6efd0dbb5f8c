//! The store of indexed facts: for every indexed file its global
//! definitions and references and its local definitions and references.
//!
//! Facts are collected per file in a [`StoreFile`], which acts as a
//! transaction: nothing reaches the [`Store`] before `commit`, and a
//! `StoreFile` that is dropped leaves the store as it was.

use vstd::prelude::*;
use vstd::string::StringExecFns;
use crate::point::Point;
use vstd::slice::slice_to_vec;
use crate::text::byte_len;
use crate::text::bytes_eq;
use crate::text::is_prefix_of;
use crate::text::starts_with;
use crate::text::str_eq;
use crate::text::utf8_len;
use crate::text::views;

verus! {

/// Why an operation of the store failed.
#[derive(Clone, Copy, Debug, PartialEq, Eq, Structural)]
pub enum StoreError {
    /// The queried file has not been indexed.
    NotIndexed,
    /// The store has changed since the transaction began.
    Busy,
    /// No file id is left.
    Full,
    /// A local reference names a local definition that the file does not hold.
    Constraint,
}

/// The view of an optional string.
pub open spec fn opt_view(o: Option<String>) -> Option<Seq<char>> {
    match o {
        Some(s) => Some(s@),
        None => None,
    }
}

/// A local definition: where its name stands and how many bytes it takes.
/// Its id is its index among the local definitions of its file.
#[derive(Clone, Copy, Debug, PartialEq, Eq, Structural)]
pub struct LocalDef {
    pub position: Point,
    pub length: usize,
}

/// A local reference, linked to the local definition that it resolves to.
#[derive(Clone, Copy, Debug, PartialEq, Eq, Structural)]
pub struct LocalRef {
    pub definition_id: usize,
    pub position: Point,
    pub length: usize,
}

/// A global reference: a name used at a position.
#[derive(Debug)]
pub struct Ref {
    pub name: String,
    pub position: Point,
    pub kind: Option<String>,
}

/// The mathematical content of a [`Ref`].
pub struct RefView {
    pub name: Seq<char>,
    pub position: Point,
    pub kind: Option<Seq<char>>,
}

impl View for Ref {
    type V = RefView;

    open spec fn view(&self) -> RefView {
        RefView { name: self.name@, position: self.position, kind: opt_view(self.kind) }
    }
}

/// A global definition with the path of the modules that enclose it.
#[derive(Debug)]
pub struct Def {
    pub name: String,
    pub name_position: Point,
    pub start_position: Point,
    pub end_position: Point,
    pub kind: Option<String>,
    pub mod_path: String,
}

/// The mathematical content of a [`Def`].
pub struct DefView {
    pub name: Seq<char>,
    pub name_position: Point,
    pub start_position: Point,
    pub end_position: Point,
    pub kind: Option<Seq<char>>,
    pub mod_path: Seq<char>,
}

impl View for Def {
    type V = DefView;

    open spec fn view(&self) -> DefView {
        DefView {
            name: self.name@,
            name_position: self.name_position,
            start_position: self.start_position,
            end_position: self.end_position,
            kind: opt_view(self.kind),
            mod_path: self.mod_path@,
        }
    }
}

/// The serialized form of a module path: every entry followed by a tab.
pub open spec fn mod_path_string(path: Seq<Seq<char>>) -> Seq<char>
    decreases path.len(),
{
    if path.len() == 0 {
        Seq::empty()
    } else {
        mod_path_string(path.drop_last()) + path.last() + seq!['\t']
    }
}

/// The facts of one file, collected in a transaction or held by the store.
pub struct StoreFile {
    file_id: i64,
    path: Vec<u8>,
    defs: Vec<Def>,
    refs: Vec<Ref>,
    local_defs: Vec<LocalDef>,
    local_refs: Vec<LocalRef>,
}

/// The mathematical content of a [`StoreFile`].
#[verifier::ext_equal]
pub struct StoreFileView {
    pub file_id: i64,
    pub path: Seq<u8>,
    pub defs: Seq<DefView>,
    pub refs: Seq<RefView>,
    pub local_defs: Seq<LocalDef>,
    pub local_refs: Seq<LocalRef>,
}

impl StoreFileView {
    /// No facts yet for the file `path` with the id `file_id`.
    pub open spec fn empty(file_id: i64, path: Seq<u8>) -> StoreFileView {
        StoreFileView {
            file_id,
            path,
            defs: Seq::empty(),
            refs: Seq::empty(),
            local_defs: Seq::empty(),
            local_refs: Seq::empty(),
        }
    }

    /// The id is a valid one and every local reference is linked to a local
    /// definition of this file.
    pub open spec fn wf(self) -> bool {
        &&& 1 <= self.file_id < i64::MAX
        &&& forall|i: int|
            0 <= i < self.local_refs.len() ==> (#[trigger] self.local_refs[i]).definition_id
                < self.local_defs.len()
    }

    /// The facts with one more local definition.
    pub open spec fn with_local_def(self, name: Seq<char>, position: Point) -> StoreFileView {
        StoreFileView {
            local_defs: self.local_defs.push(
                LocalDef { position, length: utf8_len(name) as usize },
            ),
            ..self
        }
    }

    /// The facts with one more local reference.
    pub open spec fn with_local_ref(
        self,
        local_def_id: usize,
        name: Seq<char>,
        position: Point,
    ) -> StoreFileView {
        StoreFileView {
            local_refs: self.local_refs.push(
                LocalRef { definition_id: local_def_id, position, length: utf8_len(name) as usize },
            ),
            ..self
        }
    }

    /// The facts with one more global reference.
    pub open spec fn with_ref(
        self,
        name: Seq<char>,
        position: Point,
        kind: Option<Seq<char>>,
    ) -> StoreFileView {
        StoreFileView { refs: self.refs.push(RefView { name, position, kind }), ..self }
    }

    /// The facts with one more global definition.
    pub open spec fn with_def(
        self,
        name: Seq<char>,
        name_position: Point,
        start_position: Point,
        end_position: Point,
        kind: Option<Seq<char>>,
        mod_path: Seq<Seq<char>>,
    ) -> StoreFileView {
        StoreFileView {
            defs: self.defs.push(
                DefView {
                    name,
                    name_position,
                    start_position,
                    end_position,
                    kind,
                    mod_path: mod_path_string(mod_path),
                },
            ),
            ..self
        }
    }
}

impl View for StoreFile {
    type V = StoreFileView;

    closed spec fn view(&self) -> StoreFileView {
        StoreFileView {
            file_id: self.file_id,
            path: self.path@,
            defs: views(self.defs@),
            refs: views(self.refs@),
            local_defs: self.local_defs@,
            local_refs: self.local_refs@,
        }
    }
}

/// Joins the entries of a module path, each followed by a tab.
pub fn join_mod_path(mod_path: &Vec<String>) -> (s: String)
    ensures
        s@ == mod_path_string(views(mod_path@)),
{
    let mut s = String::new();
    let mut i: usize = 0;
    while i < mod_path.len()
        invariant
            i <= mod_path@.len(),
            s@ == mod_path_string(views(mod_path@).take(i as int)),
        decreases mod_path@.len() - i,
    {
        let ghost before = views(mod_path@).take(i as int);
        s.append(mod_path[i].as_str());
        s.append("\t");
        proof {
            reveal_strlit("\t");
            let after = views(mod_path@).take(i + 1);
            assert(after.drop_last() =~= before);
            assert(after.last() == mod_path@[i as int]@);
            assert("\t"@ =~= seq!['\t']);
        }
        i += 1;
    }
    assert(views(mod_path@).take(i as int) =~= views(mod_path@));
    s
}

impl StoreFile {
    /// The id that the file will have in the store.
    pub fn file_id(&self) -> (id: i64)
        ensures
            id == self@.file_id,
    {
        self.file_id
    }

    /// The path of the file.
    pub fn path(&self) -> (p: &Vec<u8>)
        ensures
            p@ == self@.path,
    {
        &self.path
    }

    /// The global definitions collected so far.
    pub fn defs(&self) -> (r: &Vec<Def>)
        ensures
            views(r@) == self@.defs,
    {
        &self.defs
    }

    /// The global references collected so far.
    pub fn refs(&self) -> (r: &Vec<Ref>)
        ensures
            views(r@) == self@.refs,
    {
        &self.refs
    }

    /// The local definitions collected so far; the id of each is its index.
    pub fn local_defs(&self) -> (r: &Vec<LocalDef>)
        ensures
            r@ == self@.local_defs,
    {
        &self.local_defs
    }

    /// The local references collected so far.
    pub fn local_refs(&self) -> (r: &Vec<LocalRef>)
        ensures
            r@ == self@.local_refs,
    {
        &self.local_refs
    }

    /// Takes over a local definition as it was stored, and returns its id.
    pub fn restore_local_def(&mut self, def: LocalDef) -> (id: usize)
        ensures
            id == old(self)@.local_defs.len(),
            final(self)@ == (StoreFileView {
                local_defs: old(self)@.local_defs.push(def),
                ..old(self)@
            }),
            old(self)@.wf() ==> final(self)@.wf(),
    {
        let id = self.local_defs.len();
        self.local_defs.push(def);
        id
    }

    /// Takes over a local reference as it was stored. Fails with
    /// `Constraint`, and takes nothing over, when the file does not hold
    /// the local definition that the reference is linked to.
    pub fn restore_local_ref(&mut self, local_ref: LocalRef) -> (r: Result<(), StoreError>)
        ensures
            old(self)@.wf() ==> final(self)@.wf(),
            local_ref.definition_id < old(self)@.local_defs.len() ==> r is Ok && final(self)@ == (
            StoreFileView { local_refs: old(self)@.local_refs.push(local_ref), ..old(self)@ }),
            local_ref.definition_id >= old(self)@.local_defs.len() ==> r == Err::<(), StoreError>(
                StoreError::Constraint,
            ) && final(self)@ == old(self)@,
    {
        if local_ref.definition_id >= self.local_defs.len() {
            return Err(StoreError::Constraint);
        }
        self.local_refs.push(local_ref);
        proof {
            if old(self)@.wf() {
                assert forall|i: int| 0 <= i < self@.local_refs.len() implies (
                #[trigger] self@.local_refs[i]).definition_id < self@.local_defs.len() by {
                    if i < old(self)@.local_refs.len() {
                        assert(self@.local_refs[i] == old(self)@.local_refs[i]);
                    }
                }
            }
        }
        Ok(())
    }

    /// Takes over a global reference as it was stored.
    pub fn restore_ref(&mut self, reference: Ref)
        ensures
            final(self)@ == (StoreFileView {
                refs: old(self)@.refs.push(reference@),
                ..old(self)@
            }),
            old(self)@.wf() ==> final(self)@.wf(),
    {
        self.refs.push(reference);
        assert(views(self.refs@) =~= views(old(self).refs@).push(reference@));
    }

    /// Takes over a global definition as it was stored.
    pub fn restore_def(&mut self, def: Def)
        ensures
            final(self)@ == (StoreFileView { defs: old(self)@.defs.push(def@), ..old(self)@ }),
            old(self)@.wf() ==> final(self)@.wf(),
    {
        self.defs.push(def);
        assert(views(self.defs@) =~= views(old(self).defs@).push(def@));
    }

    /// Records a local reference to the local definition `local_def_id`.
    /// Fails, and records nothing, when the file holds no such definition.
    pub fn insert_local_ref(&mut self, local_def_id: usize, name: &str, position: Point) -> (r:
        Result<(), StoreError>)
        ensures
            old(self)@.wf() ==> final(self)@.wf(),
            utf8_len(name@) <= usize::MAX,
            local_def_id < old(self)@.local_defs.len() ==> r is Ok && final(self)@ == old(
                self,
            )@.with_local_ref(local_def_id, name@, position),
            local_def_id >= old(self)@.local_defs.len() ==> r == Err::<(), StoreError>(
                StoreError::Constraint,
            ) && final(self)@ == old(self)@,
    {
        let length = byte_len(name);
        if local_def_id >= self.local_defs.len() {
            return Err(StoreError::Constraint);
        }
        self.local_refs.push(LocalRef { definition_id: local_def_id, position, length });
        proof {
            if old(self)@.wf() {
                assert forall|i: int| 0 <= i < self@.local_refs.len() implies (
                #[trigger] self@.local_refs[i]).definition_id < self@.local_defs.len() by {
                    if i < old(self)@.local_refs.len() {
                        assert(self@.local_refs[i] == old(self)@.local_refs[i]);
                    }
                }
            }
        }
        Ok(())
    }

    /// Records a local definition and returns its id.
    pub fn insert_local_def(&mut self, name: &str, position: Point) -> (id: usize)
        ensures
            id == old(self)@.local_defs.len(),
            utf8_len(name@) <= usize::MAX,
            final(self)@ == old(self)@.with_local_def(name@, position),
            old(self)@.wf() ==> final(self)@.wf(),
    {
        let id = self.local_defs.len();
        let length = byte_len(name);
        self.local_defs.push(LocalDef { position, length });
        id
    }

    /// Records a global reference.
    pub fn insert_ref(&mut self, name: &str, position: Point, kind: Option<&str>)
        ensures
            final(self)@ == old(self)@.with_ref(
                name@,
                position,
                match kind {
                    Some(k) => Some(k@),
                    None => None,
                },
            ),
            old(self)@.wf() ==> final(self)@.wf(),
    {
        let kind = match kind {
            Some(k) => Some(k.to_owned()),
            None => None,
        };
        self.refs.push(Ref { name: name.to_owned(), position, kind });
        assert(views(self.refs@) =~= views(old(self).refs@).push(self.refs@.last()@));
    }

    /// Records a global definition that the modules of `mod_path`
    /// enclose, the outermost first.
    pub fn insert_def(
        &mut self,
        name: &str,
        name_position: Point,
        start_position: Point,
        end_position: Point,
        kind: Option<&str>,
        mod_path: &Vec<String>,
    )
        ensures
            final(self)@ == old(self)@.with_def(
                name@,
                name_position,
                start_position,
                end_position,
                match kind {
                    Some(k) => Some(k@),
                    None => None,
                },
                views(mod_path@),
            ),
            old(self)@.wf() ==> final(self)@.wf(),
    {
        let mod_path_string = join_mod_path(mod_path);
        let kind = match kind {
            Some(k) => Some(k.to_owned()),
            None => None,
        };
        self.defs.push(
            Def {
                name: name.to_owned(),
                name_position,
                start_position,
                end_position,
                kind,
                mod_path: mod_path_string,
            },
        );
        assert(views(self.defs@) =~= views(old(self).defs@).push(self.defs@.last()@));
    }
}

/// One result of a query: the path of a file, the position of a
/// definition's name in it, and the length of the name in bytes.
pub type Hit = (Seq<u8>, Point, usize);

/// The most results that a query by name returns.
pub const MAX_HITS: usize = 50;

/// The mathematical content of a list of query results.
pub open spec fn hits_view(v: Seq<(Vec<u8>, Point, usize)>) -> Seq<Hit> {
    Seq::new(v.len(), |i: int| (v[i].0@, v[i].1, v[i].2))
}

/// A name of `length` bytes that starts at `position` covers the position `at`.
pub open spec fn covers(position: Point, length: usize, at: Point) -> bool {
    &&& position.row == at.row
    &&& position.column <= at.column
    &&& position.column + length > at.column
}

/// Index of the first local reference that covers `at`.
pub open spec fn first_covering(refs: Seq<LocalRef>, at: Point) -> Option<int>
    decreases refs.len(),
{
    if refs.len() == 0 {
        None
    } else {
        match first_covering(refs.drop_last(), at) {
            Some(i) => Some(i),
            None => if covers(refs.last().position, refs.last().length, at) {
                Some(refs.len() - 1)
            } else {
                None
            },
        }
    }
}

/// The names of the global references that cover `at`, in the order of the
/// references.
pub open spec fn covering_names(refs: Seq<RefView>, at: Point) -> Seq<Seq<char>>
    decreases refs.len(),
{
    if refs.len() == 0 {
        Seq::empty()
    } else {
        let rest = covering_names(refs.drop_last(), at);
        let r = refs.last();
        if covers(r.position, utf8_len(r.name) as usize, at) {
            rest.push(r.name)
        } else {
            rest
        }
    }
}

/// The result that the definition `d` of the file `path` gives.
pub open spec fn hit_of(path: Seq<u8>, d: DefView) -> Hit {
    (path, d.name_position, utf8_len(d.name) as usize)
}

/// One result for every name of `names` that is the name of `d`.
pub open spec fn def_hits(path: Seq<u8>, d: DefView, names: Seq<Seq<char>>) -> Seq<Hit>
    decreases names.len(),
{
    if names.len() == 0 {
        Seq::empty()
    } else {
        let rest = def_hits(path, d, names.drop_last());
        if names.last() == d.name {
            rest.push(hit_of(path, d))
        } else {
            rest
        }
    }
}

/// The results that the definitions `defs` of the file `path` give, in the
/// order of the definitions.
pub open spec fn file_hits(path: Seq<u8>, defs: Seq<DefView>, names: Seq<Seq<char>>) -> Seq<Hit>
    decreases defs.len(),
{
    if defs.len() == 0 {
        Seq::empty()
    } else {
        file_hits(path, defs.drop_last(), names) + def_hits(path, defs.last(), names)
    }
}

/// The results that the definitions of all files give, in the order of the
/// files.
pub open spec fn store_hits(files: Seq<StoreFileView>, names: Seq<Seq<char>>) -> Seq<Hit>
    decreases files.len(),
{
    if files.len() == 0 {
        Seq::empty()
    } else {
        store_hits(files.drop_last(), names) + file_hits(
            files.last().path,
            files.last().defs,
            names,
        )
    }
}

/// At most the first `MAX_HITS` results.
pub open spec fn capped(hits: Seq<Hit>) -> Seq<Hit> {
    if hits.len() > MAX_HITS {
        hits.take(MAX_HITS as int)
    } else {
        hits
    }
}

/// A path matches a pattern when it is the pattern (`exact`) or begins
/// with it.
pub open spec fn path_matches(path: Seq<u8>, pattern: Seq<u8>, exact: bool) -> bool {
    if exact {
        path == pattern
    } else {
        is_prefix_of(pattern, path)
    }
}

/// The files whose path does not match the pattern, in their order.
pub open spec fn remaining(files: Seq<StoreFileView>, pattern: Seq<u8>, exact: bool) -> Seq<
    StoreFileView,
>
    decreases files.len(),
{
    if files.len() == 0 {
        Seq::empty()
    } else {
        let rest = remaining(files.drop_last(), pattern, exact);
        if path_matches(files.last().path, pattern, exact) {
            rest
        } else {
            rest.push(files.last())
        }
    }
}

/// The indexed files, each with its facts.
pub struct Store {
    files: Vec<StoreFile>,
    next_file_id: i64,
}

/// The mathematical content of a [`Store`].
#[verifier::ext_equal]
pub struct StoreView {
    pub files: Seq<StoreFileView>,
    pub next_file_id: i64,
}

impl StoreView {
    /// Some file of the store has the path `path`.
    pub open spec fn has_path(self, path: Seq<u8>) -> bool {
        exists|i: int| 0 <= i < self.files.len() && (#[trigger] self.files[i]).path == path
    }

    /// Every file is well formed and has an id below the next one to give
    /// out; no two files share a path or an id.
    pub open spec fn wf(self) -> bool {
        &&& 1 <= self.next_file_id
        &&& forall|i: int|
            0 <= i < self.files.len() ==> (#[trigger] self.files[i]).wf() && self.files[i].file_id
                < self.next_file_id
        &&& forall|i: int, j: int|
            0 <= i < j < self.files.len() ==> (#[trigger] self.files[i]).path != (
            #[trigger] self.files[j]).path && self.files[i].file_id != self.files[j].file_id
    }

    /// What a query at `at` in the file at index `f` returns: the one
    /// local definition that the first covering local reference is linked
    /// to, or else the definitions everywhere whose name is that of a
    /// global reference covering `at`, at most `MAX_HITS` of them.
    pub open spec fn lookup(self, f: int, at: Point) -> Seq<Hit> {
        let file = self.files[f];
        match first_covering(file.local_refs, at) {
            Some(k) => {
                let d = file.local_defs[file.local_refs[k].definition_id as int];
                seq![(file.path, d.position, d.length)]
            },
            None => capped(store_hits(self.files, covering_names(file.refs, at))),
        }
    }

    /// The store after the transaction `file` has been committed: the
    /// earlier facts of its path are gone and its own are there.
    pub open spec fn commit(self, file: StoreFileView) -> StoreView {
        StoreView {
            files: remaining(self.files, file.path, true).push(file),
            next_file_id: (file.file_id + 1) as i64,
        }
    }

    /// The store without the files whose path begins with `prefix`.
    pub open spec fn delete_files(self, prefix: Seq<u8>) -> StoreView {
        StoreView { files: remaining(self.files, prefix, false), ..self }
    }
}

impl View for Store {
    type V = StoreView;

    closed spec fn view(&self) -> StoreView {
        StoreView { files: views(self.files@), next_file_id: self.next_file_id }
    }
}

/// What is left after a removal was in the store before, and does not
/// match the pattern.
pub proof fn lemma_remaining_members(files: Seq<StoreFileView>, pattern: Seq<u8>, exact: bool)
    ensures
        remaining(files, pattern, exact).len() <= files.len(),
        forall|k: int|
            0 <= k < remaining(files, pattern, exact).len() ==> files.contains(
                #[trigger] remaining(files, pattern, exact)[k],
            ) && !path_matches(remaining(files, pattern, exact)[k].path, pattern, exact),
        forall|i: int|
            0 <= i < files.len() && !path_matches((#[trigger] files[i]).path, pattern, exact)
                ==> remaining(files, pattern, exact).contains(files[i]),
    decreases files.len(),
{
    if files.len() > 0 {
        let init = files.drop_last();
        lemma_remaining_members(init, pattern, exact);
        let rest = remaining(init, pattern, exact);
        let all = remaining(files, pattern, exact);
        assert forall|k: int| 0 <= k < all.len() implies files.contains(#[trigger] all[k])
            && !path_matches(all[k].path, pattern, exact) by {
            if k < rest.len() {
                assert(all[k] == rest[k]);
                let w = choose|w: int| 0 <= w < init.len() && init[w] == rest[k];
                assert(files[w] == rest[k]);
            } else {
                assert(all[k] == files[files.len() - 1]);
            }
        }
        assert forall|i: int|
            0 <= i < files.len() && !path_matches(
                (#[trigger] files[i]).path,
                pattern,
                exact,
            ) implies all.contains(files[i]) by {
            if i < init.len() {
                assert(init[i] == files[i]);
                let w = choose|w: int| 0 <= w < rest.len() && rest[w] == init[i];
                assert(all[w] == files[i]);
            } else {
                assert(all[all.len() - 1] == files[i]);
            }
        }
    }
}

/// Removing files keeps a store well formed.
pub proof fn lemma_remaining_wf(s: StoreView, pattern: Seq<u8>, exact: bool)
    requires
        s.wf(),
    ensures
        (StoreView { files: remaining(s.files, pattern, exact), ..s }).wf(),
    decreases s.files.len(),
{
    let files = s.files;
    let all = remaining(files, pattern, exact);
    lemma_remaining_members(files, pattern, exact);
    if files.len() > 0 {
        let init = files.drop_last();
        let s0 = StoreView { files: init, ..s };
        assert(s0.wf()) by {
            assert forall|i: int| 0 <= i < init.len() implies (#[trigger] init[i]).wf()
                && init[i].file_id < s.next_file_id by {
                assert(init[i] == files[i]);
            }
            assert forall|i: int, j: int| 0 <= i < j < init.len() implies (#[trigger] init[i]).path
                != (#[trigger] init[j]).path && init[i].file_id != init[j].file_id by {
                assert(init[i] == files[i] && init[j] == files[j]);
            }
        }
        lemma_remaining_wf(s0, pattern, exact);
        lemma_remaining_members(init, pattern, exact);
        let rest = remaining(init, pattern, exact);
        let r0 = StoreView { files: rest, ..s0 };
        assert(r0.wf());
        assert forall|i: int, j: int| 0 <= i < j < all.len() implies (#[trigger] all[i]).path != (
        #[trigger] all[j]).path && all[i].file_id != all[j].file_id by {
            if j < rest.len() {
                assert(all[i] == r0.files[i] && all[j] == r0.files[j]);
            } else {
                assert(all[j] == files[files.len() - 1]);
                assert(all[i] == rest[i]);
                let w = choose|w: int| 0 <= w < init.len() && init[w] == rest[i];
                assert(files[w] == all[i]);
            }
        }
        assert forall|k: int| 0 <= k < all.len() implies (#[trigger] all[k]).wf() && all[k].file_id
            < s.next_file_id by {
            let w = choose|w: int| 0 <= w < files.len() && files[w] == all[k];
            assert(files[w].wf());
        }
    }
}

/// Removing the files that match a pattern a second time removes nothing.
pub proof fn lemma_remaining_twice(files: Seq<StoreFileView>, pattern: Seq<u8>, exact: bool)
    ensures
        remaining(remaining(files, pattern, exact), pattern, exact) == remaining(
            files,
            pattern,
            exact,
        ),
    decreases files.len(),
{
    if files.len() > 0 {
        lemma_remaining_twice(files.drop_last(), pattern, exact);
        let rest = remaining(files.drop_last(), pattern, exact);
        if !path_matches(files.last().path, pattern, exact) {
            assert(rest.push(files.last()).drop_last() =~= rest);
        }
    }
}

/// A commit keeps the store well formed.
pub proof fn lemma_commit_wf(store: StoreView, file: StoreFileView)
    requires
        store.wf(),
        file.wf(),
        file.file_id == store.next_file_id,
    ensures
        store.commit(file).wf(),
{
    lemma_remaining_wf(store, file.path, true);
    lemma_remaining_members(store.files, file.path, true);
    let kept = remaining(store.files, file.path, true);
    let mid = StoreView { files: kept, ..store };
    let all = store.commit(file).files;
    assert forall|i: int, j: int| 0 <= i < j < all.len() implies (#[trigger] all[i]).path != (
    #[trigger] all[j]).path && all[i].file_id != all[j].file_id by {
        if j < kept.len() {
            assert(all[i] == mid.files[i] && all[j] == mid.files[j]);
        } else {
            assert(all[i] == mid.files[i]);
            assert(!path_matches(kept[i].path, file.path, true));
        }
    }
    assert forall|i: int| 0 <= i < all.len() implies (#[trigger] all[i]).wf() && all[i].file_id
        < store.commit(file).next_file_id by {
        if i < kept.len() {
            assert(all[i] == mid.files[i]);
        }
    }
}

/// In a well-formed store every local reference of every file is linked
/// to a local definition of the same file.
pub proof fn lemma_local_refs_linked(store: StoreView, f: int, r: int)
    requires
        store.wf(),
        0 <= f < store.files.len(),
        0 <= r < store.files[f].local_refs.len(),
    ensures
        0 <= store.files[f].local_refs[r].definition_id < store.files[f].local_defs.len(),
{
    assert(store.files[f].wf());
}

/// Indexing a file anew replaces it: after the commit the store holds the
/// path once, with the new facts; no file of the store has the id that the
/// path had before; and the files of other paths are there as they were.
pub proof fn lemma_commit_replaces(store: StoreView, file: StoreFileView)
    requires
        store.wf(),
        file.wf(),
        file.file_id == store.next_file_id,
    ensures
        store.commit(file).wf(),
        store.commit(file).has_path(file.path),
        forall|j: int|
            0 <= j < store.commit(file).files.len() && (#[trigger] store.commit(file).files[j]).path
                == file.path ==> store.commit(file).files[j] == file,
        forall|i: int, j: int|
            0 <= i < store.files.len() && (#[trigger] store.files[i]).path == file.path && 0 <= j
                < store.commit(file).files.len() ==> (#[trigger] store.commit(file).files[j]).file_id
                != store.files[i].file_id,
        forall|i: int|
            0 <= i < store.files.len() && (#[trigger] store.files[i]).path != file.path
                ==> store.commit(file).files.contains(store.files[i]),
{
    lemma_commit_wf(store, file);
    lemma_remaining_members(store.files, file.path, true);
    let kept = remaining(store.files, file.path, true);
    let all = store.commit(file).files;
    assert(all[kept.len() as int] == file);
    assert forall|j: int| 0 <= j < all.len() && (#[trigger] all[j]).path == file.path implies all[j]
        == file by {
        if j < kept.len() {
            assert(all[j] == kept[j]);
            assert(!path_matches(kept[j].path, file.path, true));
        }
    }
    assert forall|i: int, j: int|
        0 <= i < store.files.len() && (#[trigger] store.files[i]).path == file.path && 0 <= j
            < all.len() implies (#[trigger] all[j]).file_id != store.files[i].file_id by {
        if j < kept.len() {
            assert(all[j] == kept[j]);
            let w = choose|w: int| 0 <= w < store.files.len() && store.files[w] == kept[j];
            assert(!path_matches(kept[j].path, file.path, true));
            if w < i {
                assert(store.files[w].file_id != store.files[i].file_id);
            } else if i < w {
                assert(store.files[i].file_id != store.files[w].file_id);
            }
        } else {
            assert(store.files[i].file_id < store.next_file_id);
        }
    }
    assert forall|i: int|
        0 <= i < store.files.len() && (#[trigger] store.files[i]).path != file.path implies all.contains(
        store.files[i],
    ) by {
        assert(!path_matches(store.files[i].path, file.path, true));
        let w = choose|w: int| 0 <= w < kept.len() && kept[w] == store.files[i];
        assert(all[w] == store.files[i]);
    }
}

/// Clearing an index: after the deletion no file of the store begins with
/// the prefix, and the files that do not begin with it are there as they
/// were.
pub proof fn lemma_delete_files(store: StoreView, prefix: Seq<u8>)
    requires
        store.wf(),
    ensures
        store.delete_files(prefix).wf(),
        forall|j: int|
            0 <= j < store.delete_files(prefix).files.len() ==> !is_prefix_of(
                prefix,
                (#[trigger] store.delete_files(prefix).files[j]).path,
            ) && store.files.contains(store.delete_files(prefix).files[j]),
        forall|i: int|
            0 <= i < store.files.len() && !is_prefix_of(prefix, (#[trigger] store.files[i]).path)
                ==> store.delete_files(prefix).files.contains(store.files[i]),
{
    lemma_remaining_wf(store, prefix, false);
    lemma_remaining_members(store.files, prefix, false);
    assert forall|j: int| 0 <= j < store.delete_files(prefix).files.len() implies !is_prefix_of(
        prefix,
        (#[trigger] store.delete_files(prefix).files[j]).path,
    ) && store.files.contains(store.delete_files(prefix).files[j]) by {
        assert(!path_matches(remaining(store.files, prefix, false)[j].path, prefix, false));
    }
    assert forall|i: int|
        0 <= i < store.files.len() && !is_prefix_of(
            prefix,
            (#[trigger] store.files[i]).path,
        ) implies store.delete_files(prefix).files.contains(store.files[i]) by {
        assert(!path_matches(store.files[i].path, prefix, false));
    }
}

impl Store {
    /// The empty store.
    pub fn new() -> (s: Store)
        ensures
            s@ == (StoreView { files: Seq::empty(), next_file_id: 1 }),
            s@.wf(),
    {
        let s = Store { files: Vec::new(), next_file_id: 1 };
        assert(views(s.files@) =~= Seq::<StoreFileView>::empty());
        s
    }

    /// The indexed files.
    pub fn files(&self) -> (r: &Vec<StoreFile>)
        ensures
            views(r@) == self@.files,
    {
        &self.files
    }

    /// Begins the transaction that indexes `path` anew. The handle carries
    /// the id that the file will have; the store changes at `commit` only.
    /// Fails with `Full` when no id is left.
    pub fn file(&self, path: &[u8]) -> (r: Result<StoreFile, StoreError>)
        ensures
            self@.next_file_id < i64::MAX ==> r is Ok && r->Ok_0@ == StoreFileView::empty(
                self@.next_file_id,
                path@,
            ),
            self@.next_file_id == i64::MAX ==> r matches Err(StoreError::Full),
            self@.wf() && r is Ok ==> r->Ok_0@.wf(),
    {
        if self.next_file_id == i64::MAX {
            return Err(StoreError::Full);
        }
        let file = StoreFile {
            file_id: self.next_file_id,
            path: slice_to_vec(path),
            defs: Vec::new(),
            refs: Vec::new(),
            local_defs: Vec::new(),
            local_refs: Vec::new(),
        };
        assert(views(file.defs@) =~= Seq::<DefView>::empty());
        assert(views(file.refs@) =~= Seq::<RefView>::empty());
        Ok(file)
    }

    /// Removes the files whose path matches the pattern.
    fn remove_matching(&mut self, pattern: &[u8], exact: bool)
        ensures
            final(self)@.files == remaining(old(self)@.files, pattern@, exact),
            final(self)@.next_file_id == old(self)@.next_file_id,
    {
        let ghost before = views(self.files@);
        let ghost mut k: int = 0;
        let mut i: usize = 0;
        while i < self.files.len()
            invariant
                0 <= k <= before.len(),
                i <= self.files@.len(),
                self.files@.len() - i == before.len() - k,
                views(self.files@).skip(i as int) == before.skip(k),
                views(self.files@).take(i as int) == remaining(before.take(k), pattern@, exact),
                self.next_file_id == old(self).next_file_id,
            decreases self.files@.len() - i,
        {
            let ghost cur = views(self.files@);
            assert(cur[i as int] == cur.skip(i as int)[0]);
            assert(before[k] == before.skip(k)[0]);
            assert(before.take(k + 1).drop_last() =~= before.take(k));
            let hit = if exact {
                bytes_eq(self.files[i].path.as_slice(), pattern)
            } else {
                starts_with(self.files[i].path.as_slice(), pattern)
            };
            if hit {
                self.files.remove(i);
                proof {
                    let now = views(self.files@);
                    let tail = now.skip(i as int);
                    assert forall|x: int| 0 <= x < now.len() - i implies #[trigger] tail[x]
                        == before.skip(k + 1)[x] by {
                        assert(now[i + x] == cur[i + x + 1]);
                        assert(cur.skip(i as int)[x + 1] == before.skip(k)[x + 1]);
                    }
                    assert(now.skip(i as int) =~= before.skip(k + 1));
                    assert(now.take(i as int) =~= cur.take(i as int));
                }
            } else {
                proof {
                    let tail = cur.skip(i + 1);
                    assert forall|x: int| 0 <= x < cur.len() - i - 1 implies #[trigger] tail[x]
                        == before.skip(k + 1)[x] by {
                        assert(cur.skip(i as int)[x + 1] == before.skip(k)[x + 1]);
                    }
                    assert(cur.skip(i + 1) =~= before.skip(k + 1));
                    assert(cur.take(i + 1) =~= cur.take(i as int).push(cur[i as int]));
                }
                i += 1;
            }
            proof {
                k = k + 1;
            }
        }
        proof {
            assert(views(self.files@).take(i as int) =~= views(self.files@));
            assert(before.take(k) =~= before);
        }
    }

    /// Deletes every file whose path begins with `prefix`, with its facts.
    pub fn delete_files(&mut self, prefix: &[u8])
        ensures
            final(self)@ == old(self)@.delete_files(prefix@),
            old(self)@.wf() ==> final(self)@.wf(),
    {
        self.remove_matching(prefix, false);
        proof {
            if old(self)@.wf() {
                lemma_remaining_wf(old(self)@, prefix@, false);
            }
        }
    }

    /// Index of the file with the path `path`.
    fn file_index(&self, path: &[u8]) -> (r: Option<usize>)
        ensures
            r is None <==> !self@.has_path(path@),
            r matches Some(f) ==> f < self@.files.len() && self@.files[f as int].path == path@,
    {
        let mut i: usize = 0;
        while i < self.files.len()
            invariant
                i <= self.files@.len(),
                forall|j: int| 0 <= j < i ==> (#[trigger] self@.files[j]).path != path@,
            decreases self.files@.len() - i,
        {
            if bytes_eq(self.files[i].path.as_slice(), path) {
                assert(self@.files[i as int].path == path@);
                return Some(i);
            }
            i += 1;
        }
        None
    }
}

impl StoreFile {
    /// Commits the transaction: the facts that the store held for this
    /// path are replaced by the ones collected here. Fails with `Busy`,
    /// and leaves the store as it was, when the store has given out this
    /// file's id to another transaction meanwhile.
    pub fn commit(self, store: &mut Store) -> (r: Result<(), StoreError>)
        requires
            self@.wf(),
        ensures
            self@.file_id == old(store)@.next_file_id ==> r is Ok && final(store)@ == old(
                store,
            )@.commit(self@),
            self@.file_id != old(store)@.next_file_id ==> r == Err::<(), StoreError>(
                StoreError::Busy,
            ) && final(store)@ == old(store)@,
            old(store)@.wf() ==> final(store)@.wf(),
    {
        if self.file_id != store.next_file_id {
            return Err(StoreError::Busy);
        }
        let ghost me = self@;
        store.remove_matching(self.path.as_slice(), true);
        let ghost mid = store@;
        store.next_file_id = self.file_id + 1;
        store.files.push(self);
        proof {
            assert(views(store.files@) =~= mid.files.push(me));
            assert(store@ =~= old(store)@.commit(me));
            if old(store)@.wf() {
                lemma_commit_wf(old(store)@, me);
            }
        }
        Ok(())
    }
}

/// Whether a name of `length` bytes that starts at `position` covers `at`.
pub fn covers_position(position: Point, length: usize, at: Point) -> (r: bool)
    ensures
        r == covers(position, length, at),
{
    position.row == at.row && position.column <= at.column && ((at.column
        - position.column) as usize) < length
}

/// The results found after the files before `i`, the definitions before
/// `j` of file `i`, and the names before `k` for definition `j`.
pub open spec fn partial_hits(
    files: Seq<StoreFileView>,
    names: Seq<Seq<char>>,
    i: int,
    j: int,
    k: int,
) -> Seq<Hit> {
    store_hits(files.take(i), names) + file_hits(files[i].path, files[i].defs.take(j), names)
        + def_hits(files[i].path, files[i].defs[j], names.take(k))
}

proof fn lemma_def_hits_prefix(path: Seq<u8>, d: DefView, names: Seq<Seq<char>>, k: int)
    requires
        0 <= k <= names.len(),
    ensures
        def_hits(path, d, names.take(k)).is_prefix_of(def_hits(path, d, names)),
    decreases names.len(),
{
    if k == names.len() {
        assert(names.take(k) =~= names);
    } else {
        assert(names.drop_last().take(k) =~= names.take(k));
        lemma_def_hits_prefix(path, d, names.drop_last(), k);
    }
}

proof fn lemma_file_hits_prefix(path: Seq<u8>, defs: Seq<DefView>, names: Seq<Seq<char>>, j: int)
    requires
        0 <= j <= defs.len(),
    ensures
        file_hits(path, defs.take(j), names).is_prefix_of(file_hits(path, defs, names)),
    decreases defs.len(),
{
    if j == defs.len() {
        assert(defs.take(j) =~= defs);
    } else {
        assert(defs.drop_last().take(j) =~= defs.take(j));
        lemma_file_hits_prefix(path, defs.drop_last(), names, j);
    }
}

proof fn lemma_store_hits_prefix(files: Seq<StoreFileView>, names: Seq<Seq<char>>, i: int)
    requires
        0 <= i <= files.len(),
    ensures
        store_hits(files.take(i), names).is_prefix_of(store_hits(files, names)),
    decreases files.len(),
{
    if i == files.len() {
        assert(files.take(i) =~= files);
    } else {
        assert(files.drop_last().take(i) =~= files.take(i));
        lemma_store_hits_prefix(files.drop_last(), names, i);
    }
}

proof fn lemma_file_hits_step(path: Seq<u8>, defs: Seq<DefView>, names: Seq<Seq<char>>, j: int)
    requires
        0 <= j < defs.len(),
    ensures
        file_hits(path, defs.take(j + 1), names) == file_hits(path, defs.take(j), names)
            + def_hits(path, defs[j], names),
{
    assert(defs.take(j + 1).drop_last() =~= defs.take(j));
}

proof fn lemma_store_hits_step(files: Seq<StoreFileView>, names: Seq<Seq<char>>, i: int)
    requires
        0 <= i < files.len(),
    ensures
        store_hits(files.take(i + 1), names) == store_hits(files.take(i), names) + file_hits(
            files[i].path,
            files[i].defs,
            names,
        ),
{
    assert(files.take(i + 1).drop_last() =~= files.take(i));
}

/// What the search has found at any moment begins the full list of results.
proof fn lemma_partial_hits_prefix(
    files: Seq<StoreFileView>,
    names: Seq<Seq<char>>,
    i: int,
    j: int,
    k: int,
)
    requires
        0 <= i < files.len(),
        0 <= j < files[i].defs.len(),
        0 <= k <= names.len(),
    ensures
        partial_hits(files, names, i, j, k).is_prefix_of(store_hits(files, names)),
{
    let path = files[i].path;
    let defs = files[i].defs;
    let s_i = store_hits(files.take(i), names);
    let f_j = file_hits(path, defs.take(j), names);
    let d_k = def_hits(path, defs[j], names.take(k));
    let d_all = def_hits(path, defs[j], names);
    let f_all = file_hits(path, defs, names);
    let total = store_hits(files, names);
    lemma_def_hits_prefix(path, defs[j], names, k);
    lemma_file_hits_step(path, defs, names, j);
    lemma_file_hits_prefix(path, defs, names, j + 1);
    lemma_store_hits_step(files, names, i);
    lemma_store_hits_prefix(files, names, i + 1);
    assert((f_j + d_k).is_prefix_of(f_j + d_all)) by {
        assert((f_j + d_k) =~= (f_j + d_all).subrange(0, (f_j + d_k).len() as int));
    }
    assert((f_j + d_k).is_prefix_of(f_all)) by {
        assert((f_j + d_k) =~= f_all.subrange(0, (f_j + d_k).len() as int));
    }
    assert((s_i + (f_j + d_k)).is_prefix_of(s_i + f_all)) by {
        assert((s_i + (f_j + d_k)) =~= (s_i + f_all).subrange(
            0,
            (s_i + (f_j + d_k)).len() as int,
        ));
    }
    assert(s_i + (f_j + d_k) =~= partial_hits(files, names, i, j, k));
    assert(partial_hits(files, names, i, j, k) =~= total.subrange(
        0,
        partial_hits(files, names, i, j, k).len() as int,
    ));
}

impl StoreFile {
    /// Index of the first local reference that covers `at`.
    fn covering_local_ref(&self, at: Point) -> (r: Option<usize>)
        ensures
            r is None ==> first_covering(self@.local_refs, at) is None,
            r matches Some(k) ==> k < self@.local_refs.len() && first_covering(
                self@.local_refs,
                at,
            ) == Some(k as int),
    {
        let mut i: usize = 0;
        while i < self.local_refs.len()
            invariant
                i <= self.local_refs@.len(),
                first_covering(self.local_refs@.take(i as int), at) is None,
            decreases self.local_refs@.len() - i,
        {
            let r = self.local_refs[i];
            assert(self.local_refs@.take(i + 1).drop_last() =~= self.local_refs@.take(i as int));
            if covers_position(r.position, r.length, at) {
                proof {
                    lemma_first_covering_prefix(self.local_refs@, at, i + 1);
                    assert(first_covering(self.local_refs@.take(i + 1), at) == Some(i as int));
                }
                return Some(i);
            }
            i += 1;
        }
        assert(self.local_refs@.take(i as int) =~= self.local_refs@);
        None
    }

    /// The names of the global references that cover `at`.
    fn covering_ref_names(&self, at: Point) -> (names: Vec<&str>)
        ensures
            views(names@) == covering_names(self@.refs, at),
    {
        let mut names: Vec<&str> = Vec::new();
        let mut i: usize = 0;
        assert(views(names@) =~= covering_names(self@.refs.take(0), at));
        while i < self.refs.len()
            invariant
                i <= self.refs@.len(),
                views(names@) == covering_names(self@.refs.take(i as int), at),
            decreases self.refs@.len() - i,
        {
            let r = &self.refs[i];
            let ghost before = views(names@);
            assert(self@.refs.take(i + 1).drop_last() =~= self@.refs.take(i as int));
            if covers_position(r.position, byte_len(r.name.as_str()), at) {
                names.push(r.name.as_str());
                assert(views(names@) =~= before.push(r.name@));
            }
            i += 1;
        }
        assert(self@.refs.take(i as int) =~= self@.refs);
        names
    }
}

/// The first covering reference of a prefix is that of the whole list.
proof fn lemma_first_covering_prefix(refs: Seq<LocalRef>, at: Point, n: int)
    requires
        0 <= n <= refs.len(),
        first_covering(refs.take(n), at) is Some,
    ensures
        first_covering(refs, at) == first_covering(refs.take(n), at),
        0 <= first_covering(refs.take(n), at)->Some_0 < n,
    decreases refs.len(),
{
    lemma_first_covering_bound(refs.take(n), at);
    if n == refs.len() {
        assert(refs.take(n) =~= refs);
    } else {
        assert(refs.drop_last().take(n) =~= refs.take(n));
        lemma_first_covering_prefix(refs.drop_last(), at, n);
    }
}

proof fn lemma_first_covering_bound(refs: Seq<LocalRef>, at: Point)
    ensures
        first_covering(refs, at) matches Some(k) ==> 0 <= k < refs.len(),
    decreases refs.len(),
{
    if refs.len() > 0 {
        lemma_first_covering_bound(refs.drop_last(), at);
    }
}

impl Store {
    /// The definitions everywhere whose name is one of `names`.
    fn global_hits(&self, names: &Vec<&str>) -> (out: Vec<(Vec<u8>, Point, usize)>)
        ensures
            hits_view(out@) == capped(store_hits(self@.files, views(names@))),
    {
        let ghost files = self@.files;
        let ghost wanted = views(names@);
        let mut out: Vec<(Vec<u8>, Point, usize)> = Vec::new();
        let mut i: usize = 0;
        assert(hits_view(out@) =~= store_hits(files.take(0), wanted));
        while i < self.files.len()
            invariant
                files == self@.files,
                wanted == views(names@),
                i <= files.len(),
                out@.len() < MAX_HITS,
                hits_view(out@) == store_hits(files.take(i as int), wanted),
            decreases files.len() - i,
        {
            let file = &self.files[i];
            let mut j: usize = 0;
            assert(files[i as int] == file@);
            assert(file@.defs.take(0) =~= Seq::<DefView>::empty());
            assert(hits_view(out@) =~= store_hits(files.take(i as int), wanted) + file_hits(
                file@.path,
                file@.defs.take(0),
                wanted,
            ));
            while j < file.defs.len()
                invariant
                    files == self@.files,
                    wanted == views(names@),
                    i < files.len(),
                    files[i as int] == file@,
                    j <= file@.defs.len(),
                    file@.defs.len() == file.defs@.len(),
                    out@.len() < MAX_HITS,
                    hits_view(out@) == store_hits(files.take(i as int), wanted) + file_hits(
                        file@.path,
                        file@.defs.take(j as int),
                        wanted,
                    ),
                decreases file@.defs.len() - j,
            {
                let d = &file.defs[j];
                let mut k: usize = 0;
                assert(file@.defs[j as int] == d@);
                assert(wanted.take(0) =~= Seq::<Seq<char>>::empty());
                assert(hits_view(out@) =~= partial_hits(files, wanted, i as int, j as int, 0));
                while k < names.len()
                    invariant
                        files == self@.files,
                        wanted == views(names@),
                        i < files.len(),
                        files[i as int] == file@,
                        j < file@.defs.len(),
                        file@.defs[j as int] == d@,
                        k <= names@.len(),
                        out@.len() < MAX_HITS,
                        hits_view(out@) == partial_hits(files, wanted, i as int, j as int, k as int),
                    decreases names@.len() - k,
                {
                    let ghost before = hits_view(out@);
                    assert(wanted.take(k + 1).drop_last() =~= wanted.take(k as int));
                    assert(wanted.take(k + 1).last() == names@[k as int]@);
                    if str_eq(names[k], d.name.as_str()) {
                        let length = byte_len(d.name.as_str());
                        out.push((slice_to_vec(file.path.as_slice()), d.name_position, length));
                        assert(hits_view(out@) =~= before.push(hit_of(file@.path, d@)));
                        assert(hits_view(out@) =~= partial_hits(
                            files,
                            wanted,
                            i as int,
                            j as int,
                            k + 1,
                        ));
                        if out.len() == MAX_HITS {
                            proof {
                                lemma_partial_hits_prefix(files, wanted, i as int, j as int, k + 1);
                                let total = store_hits(files, wanted);
                                assert(hits_view(out@) =~= capped(total));
                            }
                            return out;
                        }
                    } else {
                        assert(hits_view(out@) =~= partial_hits(
                            files,
                            wanted,
                            i as int,
                            j as int,
                            k + 1,
                        ));
                    }
                    k += 1;
                }
                proof {
                    assert(wanted.take(k as int) =~= wanted);
                    lemma_file_hits_step(file@.path, file@.defs, wanted, j as int);
                }
                j += 1;
            }
            proof {
                assert(file@.defs.take(j as int) =~= file@.defs);
                lemma_store_hits_step(files, wanted, i as int);
            }
            i += 1;
        }
        assert(files.take(i as int) =~= files);
        out
    }

    /// Finds the definitions of the name at `position` in the file `path`.
    ///
    /// A local reference there gives the one local definition that it is
    /// linked to. Otherwise a global reference there gives the definitions
    /// of its name in all files, at most `MAX_HITS` of them. Fails with
    /// `NotIndexed` when the store does not hold the file.
    pub fn find_definition(&self, path: &[u8], position: Point) -> (r: Result<
        Vec<(Vec<u8>, Point, usize)>,
        StoreError,
    >)
        requires
            self@.wf(),
        ensures
            !self@.has_path(path@) ==> r matches Err(StoreError::NotIndexed),
            forall|f: int|
                0 <= f < self@.files.len() && (#[trigger] self@.files[f]).path == path@ ==> r is Ok
                    && hits_view(r->Ok_0@) == self@.lookup(f, position),
    {
        let f = match self.file_index(path) {
            Some(f) => f,
            None => {
                return Err(StoreError::NotIndexed);
            },
        };
        let file = &self.files[f];
        assert(self@.files[f as int] == file@);
        assert forall|g: int|
            0 <= g < self@.files.len() && (#[trigger] self@.files[g]).path == path@ implies g
            == f by {
            if g < f {
                assert(self@.files[g].path != self@.files[f as int].path);
            } else if f < g {
                assert(self@.files[f as int].path != self@.files[g].path);
            }
        }
        match file.covering_local_ref(position) {
            Some(k) => {
                let local_ref = file.local_refs[k];
                assert(file@.local_refs[k as int] == local_ref);
                assert(file@.wf());
                let d = file.local_defs[local_ref.definition_id];
                let mut out: Vec<(Vec<u8>, Point, usize)> = Vec::new();
                out.push((slice_to_vec(path), d.position, d.length));
                assert(hits_view(out@) =~= self@.lookup(f as int, position));
                Ok(out)
            },
            None => {
                let names = file.covering_ref_names(position);
                let out = self.global_hits(&names);
                Ok(out)
            },
        }
    }
}

} // verus!
