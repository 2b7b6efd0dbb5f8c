//! The index as its users see it: files are indexed into it, and it
//! answers where the name at a position is defined.

use vstd::prelude::*;
use crate::crawler::indexed;
use crate::crawler::indexed_all;
use crate::crawler::ParsedFile;
use crate::text::views;
use crate::crawler::DirCrawler;
use crate::crawler::DirCrawlerView;
use crate::language_registry::LanguageRegistry;
use crate::point::Point;
use crate::properties::SyntaxTree;
use crate::store::hits_view;
use crate::store::Hit;
use crate::store::Store;
use crate::store::StoreError;
use crate::store::StoreView;

verus! {

/// Why indexing failed.
pub type Error = crate::crawler::Error;

/// An index of source files.
pub struct Index {
    crawler: DirCrawler,
}

impl View for Index {
    type V = DirCrawlerView;

    closed spec fn view(&self) -> DirCrawlerView {
        self.crawler@
    }
}

/// What a query at `at` in the file `path` returns: nothing for a file
/// that is not indexed, and else what the store finds for the file.
pub open spec fn definitions_at(store: StoreView, path: Seq<u8>, at: Point) -> Seq<Hit> {
    if store.has_path(path) {
        store.lookup(choose|f: int| 0 <= f < store.files.len() && store.files[f].path == path, at)
    } else {
        Seq::empty()
    }
}

impl Index {
    /// An index that holds the files of `store`.
    pub fn new(store: Store, language_registry: LanguageRegistry) -> (index: Index)
        ensures
            index@ == (DirCrawlerView { store: store@, language_registry: language_registry@ }),
    {
        Index { crawler: DirCrawler::new(store, language_registry) }
    }

    /// The store of the index.
    pub fn store(&self) -> (s: &Store)
        ensures
            s@ == self@.store,
    {
        self.crawler.store()
    }

    /// The registry of the parsers.
    pub fn language_registry(&self) -> (r: &LanguageRegistry)
        ensures
            r@ == self@.language_registry,
    {
        self.crawler.language_registry()
    }

    /// Indexes the file `path` whose syntax tree is `tree`, in place of
    /// what the index held for the path. Fails with `Full`, and leaves the
    /// index as it was, when the store has no file id left.
    pub fn index_file(&mut self, path: &[u8], tree: &SyntaxTree) -> (r: Result<(), Error>)
        requires
            old(self)@.store.wf(),
        ensures
            final(self)@.language_registry == old(self)@.language_registry,
            final(self)@.store.wf(),
            old(self)@.store.next_file_id < i64::MAX ==> r is Ok && final(self)@.store == indexed(
                old(self)@.store,
                path@,
                tree@,
            ) && final(self)@.store.next_file_id == old(self)@.store.next_file_id + 1,
            old(self)@.store.next_file_id == i64::MAX ==> (r matches Err(
                crate::crawler::Error::SQL(StoreError::Full),
            )) && final(self)@.store == old(self)@.store,
    {
        self.crawler.crawl_file(path, tree)
    }

    /// Indexes `files` in their order, and stops at the first file that
    /// fails: with `Full` when the store has no file id left for it. The
    /// files before it stay indexed.
    pub fn index_path(&mut self, files: &Vec<ParsedFile>) -> (r: Result<(), Error>)
        requires
            old(self)@.store.wf(),
        ensures
            final(self)@.language_registry == old(self)@.language_registry,
            final(self)@.store.wf(),
            files@.len() <= i64::MAX - old(self)@.store.next_file_id ==> r is Ok && final(self)@.store == indexed_all(old(self)@.store, views(files@), files@.len()),
            files@.len() > i64::MAX - old(self)@.store.next_file_id ==> (r matches Err(
                crate::crawler::Error::SQL(StoreError::Full),
            )) && final(self)@.store == indexed_all(
                old(self)@.store,
                views(files@),
                (i64::MAX - old(self)@.store.next_file_id) as nat,
            ),
    {
        self.crawler.crawl_path(files)
    }

    /// Finds the definitions of the name at `position` in the file `path`,
    /// as [`Store::find_definition`] does; a file that is not indexed
    /// gives no result.
    pub fn find_definition(&self, path: &[u8], position: Point) -> (r: Vec<(Vec<u8>, Point, usize)>)
        requires
            self@.store.wf(),
        ensures
            hits_view(r@) == definitions_at(self@.store, path@, position),
    {
        match self.crawler.store().find_definition(path, position) {
            Ok(hits) => {
                proof {
                    let store = self@.store;
                    if store.has_path(path@) {
                        let f = choose|f: int|
                            0 <= f < store.files.len() && store.files[f].path == path@;
                        assert(store.files[f].path == path@);
                    }
                }
                hits
            },
            Err(_) => {
                let none: Vec<(Vec<u8>, Point, usize)> = Vec::new();
                assert(hits_view(none@) =~= Seq::<Hit>::empty());
                none
            },
        }
    }
}

} // verus!
