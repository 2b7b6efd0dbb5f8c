//! The registry of parsers: which parser serves which file extension,
//! where its compiled library lives, when it must be compiled and how, and
//! which parsers have been loaded.
//!
//! The registry decides; its caller scans the directories, runs the
//! compiler and loads the libraries.

use vstd::prelude::*;
use vstd::string::StrSliceExecFns;
use vstd::string::StringExecFns;
use crate::text::str_eq;
use crate::text::views;

verus! {

/// What the name of a parser's directory begins with.
pub open spec fn parser_prefix() -> Seq<char> {
    "tree-sitter-"@
}

/// The name of the parser whose directory has the name `dir_name`: what
/// follows the prefix. A directory without the prefix holds no parser.
pub open spec fn parser_name_of(dir_name: Seq<char>) -> Option<Seq<char>> {
    if dir_name.len() >= parser_prefix().len() && dir_name.subrange(
        0,
        parser_prefix().len() as int,
    ) == parser_prefix() {
        Some(dir_name.subrange(parser_prefix().len() as int, dir_name.len() as int))
    } else {
        None
    }
}

/// The name of the parser whose directory has the name `dir_name`.
pub fn parser_name(dir_name: &str) -> (r: Option<String>)
    ensures
        r is Some <==> parser_name_of(dir_name@) is Some,
        r matches Some(name) ==> parser_name_of(dir_name@) == Some(name@),
{
    let prefix = "tree-sitter-";
    let n = dir_name.unicode_len();
    let p = prefix.unicode_len();
    if n < p {
        return None;
    }
    if !str_eq(dir_name.substring_char(0, p), prefix) {
        return None;
    }
    Some(dir_name.substring_char(p, n).to_owned())
}

/// A child of a directory of parsers, as a scan found it: its name, its
/// path, and the file extensions that its package description lists, if
/// it has one that lists any.
#[derive(Debug)]
pub struct ParserDir {
    pub dir_name: String,
    pub path: String,
    pub file_types: Option<Vec<String>>,
}

/// The mathematical content of a [`ParserDir`].
pub struct ParserDirView {
    pub dir_name: Seq<char>,
    pub path: Seq<char>,
    pub file_types: Option<Seq<Seq<char>>>,
}

impl View for ParserDir {
    type V = ParserDirView;

    open spec fn view(&self) -> ParserDirView {
        ParserDirView {
            dir_name: self.dir_name@,
            path: self.path@,
            file_types: match self.file_types {
                Some(v) => Some(views(v@)),
                None => None,
            },
        }
    }
}

/// A parser: its name and the directory of its sources.
#[derive(Debug)]
pub struct Language {
    pub name: String,
    pub path: String,
}

/// The mathematical content of a [`Language`].
pub struct LanguageView {
    pub name: Seq<char>,
    pub path: Seq<char>,
}

impl View for Language {
    type V = LanguageView;

    open spec fn view(&self) -> LanguageView {
        LanguageView { name: self.name@, path: self.path@ }
    }
}

/// The extensions `extensions`, each mapped to `language`, added to `map`.
pub open spec fn with_extensions(
    map: Map<Seq<char>, LanguageView>,
    extensions: Seq<Seq<char>>,
    language: LanguageView,
) -> Map<Seq<char>, LanguageView>
    decreases extensions.len(),
{
    if extensions.len() == 0 {
        map
    } else {
        with_extensions(map, extensions.drop_last(), language).insert(extensions.last(), language)
    }
}

/// The parser of every extension that the directories `found` serve; of
/// two directories that list one extension, the later one has it.
pub open spec fn discovered(found: Seq<ParserDirView>) -> Map<Seq<char>, LanguageView>
    decreases found.len(),
{
    if found.len() == 0 {
        Map::empty()
    } else {
        let rest = discovered(found.drop_last());
        let dir = found.last();
        match (parser_name_of(dir.dir_name), dir.file_types) {
            (Some(name), Some(extensions)) => with_extensions(
                rest,
                extensions,
                LanguageView { name, path: dir.path },
            ),
            _ => rest,
        }
    }
}

/// `base`, a slash, and `child`.
pub open spec fn joined(base: Seq<char>, child: Seq<char>) -> Seq<char> {
    base + seq!['/'] + child
}

/// Joins two parts of a path with a slash.
pub fn join(base: &str, child: &str) -> (r: String)
    ensures
        r@ == joined(base@, child@),
{
    let mut r = base.to_owned();
    r.append("/");
    r.append(child);
    proof {
        reveal_strlit("/");
        assert("/"@ =~= seq!['/']);
    }
    r
}

/// Where the compiled library of the parser `name` lives: in the
/// directory `lib` of the configuration directory, under the parser's
/// name with the platform's extension for libraries.
pub open spec fn library_path_of(config_path: Seq<char>, name: Seq<char>, extension: Seq<char>) -> Seq<
    char,
> {
    joined(joined(config_path, "lib"@), name + seq!['.'] + extension)
}

/// The parser must be compiled when it has no library yet, or when its
/// source was modified after the library was.
pub open spec fn compile_needed(library_modified: Option<u64>, parser_modified: u64) -> bool {
    match library_modified {
        None => true,
        Some(t) => parser_modified > t,
    }
}

/// The entry point of the compiled library of the parser `name`.
pub open spec fn symbol_of(name: Seq<char>) -> Seq<char> {
    "tree_sitter_"@ + name
}

/// The scanner that a parser brings along, if any, besides its grammar.
#[derive(Clone, Copy, Debug, PartialEq, Eq, Structural)]
pub enum Scanner {
    /// No scanner.
    Absent,
    /// `src/scanner.c`.
    C,
    /// `src/scanner.cc`.
    Cxx,
}

/// The scanner to compile: the C one if it exists, else the C++ one if it
/// exists.
pub open spec fn scanner_of(has_scanner_c: bool, has_scanner_cc: bool) -> Scanner {
    if has_scanner_c {
        Scanner::C
    } else if has_scanner_cc {
        Scanner::Cxx
    } else {
        Scanner::Absent
    }
}

/// The arguments of the compiler that builds the library `library_path`
/// from the sources under `language_path`.
pub open spec fn compile_arguments_of(
    language_path: Seq<char>,
    library_path: Seq<char>,
    scanner: Scanner,
) -> Seq<Seq<char>> {
    let fixed = seq![
        "-shared"@,
        "-fPIC"@,
        "-I"@,
        joined(language_path, "src"@),
        "-o"@,
        library_path,
        "-xc"@,
        joined(language_path, "src/parser.c"@),
    ];
    match scanner {
        Scanner::Absent => fixed,
        Scanner::C => fixed + seq!["-xc"@, joined(language_path, "src/scanner.c"@)],
        Scanner::Cxx => fixed + seq!["-xc++"@, joined(language_path, "src/scanner.cc"@)],
    }
}

/// What a request for the parser of an extension comes to.
#[derive(Debug)]
pub enum Lookup {
    /// No parser serves the extension.
    NotApplicable,
    /// The parser has been loaded; the number is its slot.
    Loaded(usize),
    /// The parser is known but has not been loaded yet.
    Load(Language),
}

/// The registry of parsers.
#[derive(Debug)]
pub struct LanguageRegistry {
    config_path: String,
    dylib_extension: String,
    language_names_by_extension: Vec<(String, Language)>,
    loaded_languages: Vec<String>,
}

/// The mathematical content of a [`LanguageRegistry`].
#[verifier::ext_equal]
pub struct RegistryView {
    pub config_path: Seq<char>,
    pub dylib_extension: Seq<char>,
    pub languages: Map<Seq<char>, LanguageView>,
    pub loaded: Seq<Seq<char>>,
}

/// The map that a list of entries stands for; a later entry replaces an
/// earlier one with the same extension.
pub closed spec fn languages_of(entries: Seq<(String, Language)>) -> Map<Seq<char>, LanguageView>
    decreases entries.len(),
{
    if entries.len() == 0 {
        Map::empty()
    } else {
        languages_of(entries.drop_last()).insert(entries.last().0@, entries.last().1@)
    }
}

proof fn lemma_languages_absent(entries: Seq<(String, Language)>, key: Seq<char>)
    requires
        forall|j: int| 0 <= j < entries.len() ==> (#[trigger] entries[j]).0@ != key,
    ensures
        !languages_of(entries).contains_key(key),
    decreases entries.len(),
{
    if entries.len() > 0 {
        let init = entries.drop_last();
        assert forall|j: int| 0 <= j < init.len() implies (#[trigger] init[j]).0@ != key by {
            assert(init[j] == entries[j]);
        }
        lemma_languages_absent(init, key);
    }
}

proof fn lemma_languages_last_match(entries: Seq<(String, Language)>, key: Seq<char>, i: int)
    requires
        0 <= i < entries.len(),
        entries[i].0@ == key,
        forall|j: int| i < j < entries.len() ==> (#[trigger] entries[j]).0@ != key,
    ensures
        languages_of(entries).contains_key(key),
        languages_of(entries)[key] == entries[i].1@,
    decreases entries.len(),
{
    if i < entries.len() - 1 {
        let init = entries.drop_last();
        assert forall|j: int| i < j < init.len() implies (#[trigger] init[j]).0@ != key by {
            assert(init[j] == entries[j]);
        }
        lemma_languages_last_match(init, key, i);
    }
}

/// Index of the first entry of `names` that is `name`.
pub open spec fn slot_of(names: Seq<Seq<char>>, name: Seq<char>) -> Option<int>
    decreases names.len(),
{
    if names.len() == 0 {
        None
    } else {
        match slot_of(names.drop_last(), name) {
            Some(i) => Some(i),
            None => if names.last() == name {
                Some(names.len() - 1)
            } else {
                None
            },
        }
    }
}

proof fn lemma_slot_of_prefix(names: Seq<Seq<char>>, name: Seq<char>, n: int)
    requires
        0 <= n <= names.len(),
        slot_of(names.take(n), name) is Some,
    ensures
        slot_of(names, name) == slot_of(names.take(n), name),
    decreases names.len(),
{
    if n == names.len() {
        assert(names.take(n) =~= names);
    } else {
        assert(names.drop_last().take(n) =~= names.take(n));
        lemma_slot_of_prefix(names.drop_last(), name, n);
    }
}

impl View for LanguageRegistry {
    type V = RegistryView;

    closed spec fn view(&self) -> RegistryView {
        RegistryView {
            config_path: self.config_path@,
            dylib_extension: self.dylib_extension@,
            languages: languages_of(self.language_names_by_extension@),
            loaded: views(self.loaded_languages@),
        }
    }
}

impl RegistryView {
    /// What a request for the parser of `extension` comes to.
    pub open spec fn lookup(self, extension: Seq<char>) -> LookupView {
        if !self.languages.contains_key(extension) {
            LookupView::NotApplicable
        } else {
            let language = self.languages[extension];
            match slot_of(self.loaded, language.name) {
                Some(slot) => LookupView::Loaded(slot),
                None => LookupView::Load(language),
            }
        }
    }
}

/// The mathematical content of a [`Lookup`].
pub enum LookupView {
    NotApplicable,
    Loaded(int),
    Load(LanguageView),
}

impl View for Lookup {
    type V = LookupView;

    open spec fn view(&self) -> LookupView {
        match self {
            Lookup::NotApplicable => LookupView::NotApplicable,
            Lookup::Loaded(slot) => LookupView::Loaded(*slot as int),
            Lookup::Load(language) => LookupView::Load(language@),
        }
    }
}

/// Whether the parser must be compiled, given when its library and its
/// source were last modified; `None` says that there is no library yet.
pub fn needs_compile(library_modified: Option<u64>, parser_modified: u64) -> (r: bool)
    ensures
        r == compile_needed(library_modified, parser_modified),
{
    match library_modified {
        None => true,
        Some(t) => parser_modified > t,
    }
}

/// The name of the entry point of the compiled library of the parser
/// `name`.
pub fn language_symbol(name: &str) -> (r: String)
    ensures
        r@ == symbol_of(name@),
{
    let mut r = "tree_sitter_".to_owned();
    r.append(name);
    r
}

/// The scanner to compile: the C one if it exists, else the C++ one if it
/// exists.
pub fn choose_scanner(has_scanner_c: bool, has_scanner_cc: bool) -> (r: Scanner)
    ensures
        r == scanner_of(has_scanner_c, has_scanner_cc),
{
    if has_scanner_c {
        Scanner::C
    } else if has_scanner_cc {
        Scanner::Cxx
    } else {
        Scanner::Absent
    }
}

/// The compiler to run: the one that the environment names, or `c++`.
pub fn compiler_name(cxx: Option<String>) -> (r: String)
    ensures
        r@ == (match cxx {
            Some(c) => c@,
            None => "c++"@,
        }),
{
    match cxx {
        Some(c) => c,
        None => "c++".to_owned(),
    }
}

/// The arguments of the compiler that builds the library `library_path`
/// from the sources under `language_path`: a shared library of
/// position-independent code, the grammar compiled as C, and the scanner,
/// if there is one, as C or as C++.
pub fn compile_arguments(language_path: &str, library_path: &str, scanner: Scanner) -> (r: Vec<
    String,
>)
    ensures
        views(r@) == compile_arguments_of(language_path@, library_path@, scanner),
{
    let mut r: Vec<String> = Vec::new();
    r.push("-shared".to_owned());
    r.push("-fPIC".to_owned());
    r.push("-I".to_owned());
    r.push(join(language_path, "src"));
    r.push("-o".to_owned());
    r.push(library_path.to_owned());
    r.push("-xc".to_owned());
    r.push(join(language_path, "src/parser.c"));
    match scanner {
        Scanner::Absent => {},
        Scanner::C => {
            r.push("-xc".to_owned());
            r.push(join(language_path, "src/scanner.c"));
        },
        Scanner::Cxx => {
            r.push("-xc++".to_owned());
            r.push(join(language_path, "src/scanner.cc"));
        },
    }
    assert(views(r@) =~= compile_arguments_of(language_path@, library_path@, scanner));
    r
}

impl LanguageRegistry {
    /// The registry of the parsers that a scan found, none of them loaded:
    /// a directory whose name begins with `tree-sitter-` and whose package
    /// description lists file extensions serves each of them.
    pub fn new(config_path: String, dylib_extension: String, found: Vec<ParserDir>) -> (r:
        LanguageRegistry)
        ensures
            r@ == (RegistryView {
                config_path: config_path@,
                dylib_extension: dylib_extension@,
                languages: discovered(views(found@)),
                loaded: Seq::empty(),
            }),
    {
        let ghost dirs = views(found@);
        let mut entries: Vec<(String, Language)> = Vec::new();
        let mut i: usize = 0;
        assert(dirs.take(0) =~= Seq::<ParserDirView>::empty());
        while i < found.len()
            invariant
                dirs == views(found@),
                i <= dirs.len(),
                languages_of(entries@) == discovered(dirs.take(i as int)),
            decreases dirs.len() - i,
        {
            let dir = &found[i];
            assert(dirs.take(i + 1).drop_last() =~= dirs.take(i as int));
            assert(dirs.take(i + 1).last() == dir@);
            match parser_name(dir.dir_name.as_str()) {
                Some(name) => match &dir.file_types {
                    Some(extensions) => {
                        let ghost rest = discovered(dirs.take(i as int));
                        let ghost language = LanguageView { name: name@, path: dir.path@ };
                        let ghost wanted = views(extensions@);
                        let mut j: usize = 0;
                        assert(wanted.take(0) =~= Seq::<Seq<char>>::empty());
                        while j < extensions.len()
                            invariant
                                wanted == views(extensions@),
                                language == (LanguageView { name: name@, path: dir.path@ }),
                                j <= wanted.len(),
                                languages_of(entries@) == with_extensions(
                                    rest,
                                    wanted.take(j as int),
                                    language,
                                ),
                            decreases wanted.len() - j,
                        {
                            let ghost before = entries@;
                            assert(wanted.take(j + 1).drop_last() =~= wanted.take(j as int));
                            assert(wanted.take(j + 1).last() == extensions@[j as int]@);
                            entries.push(
                                (
                                    extensions[j].clone(),
                                    Language { name: name.clone(), path: dir.path.clone() },
                                ),
                            );
                            assert(entries@.drop_last() =~= before);
                            j += 1;
                        }
                        assert(wanted.take(j as int) =~= wanted);
                    },
                    None => {},
                },
                None => {},
            }
            i += 1;
        }
        assert(dirs.take(i as int) =~= dirs);
        let r = LanguageRegistry {
            config_path,
            dylib_extension,
            language_names_by_extension: entries,
            loaded_languages: Vec::new(),
        };
        assert(r@.loaded =~= Seq::<Seq<char>>::empty());
        r
    }

    /// The parser that serves `extension`, if any.
    fn language_of(&self, extension: &str) -> (r: Option<&Language>)
        ensures
            r is Some <==> self@.languages.contains_key(extension@),
            r matches Some(language) ==> language@ == self@.languages[extension@],
    {
        let mut i: usize = self.language_names_by_extension.len();
        while i > 0
            invariant
                i <= self.language_names_by_extension@.len(),
                forall|j: int|
                    i <= j < self.language_names_by_extension@.len() ==> (
                    #[trigger] self.language_names_by_extension@[j]).0@ != extension@,
            decreases i,
        {
            i -= 1;
            if str_eq(self.language_names_by_extension[i].0.as_str(), extension) {
                proof {
                    lemma_languages_last_match(
                        self.language_names_by_extension@,
                        extension@,
                        i as int,
                    );
                }
                return Some(&self.language_names_by_extension[i].1);
            }
        }
        proof {
            lemma_languages_absent(self.language_names_by_extension@, extension@);
        }
        None
    }

    /// The slot of the loaded parser `name`, if it has been loaded.
    fn loaded_slot(&self, name: &str) -> (r: Option<usize>)
        ensures
            r is None ==> slot_of(self@.loaded, name@) is None,
            r matches Some(k) ==> k < self@.loaded.len() && slot_of(self@.loaded, name@) == Some(
                k as int,
            ),
    {
        let ghost names = self@.loaded;
        let mut i: usize = 0;
        while i < self.loaded_languages.len()
            invariant
                names == self@.loaded,
                i <= names.len(),
                slot_of(names.take(i as int), name@) is None,
            decreases names.len() - i,
        {
            assert(names.take(i + 1).drop_last() =~= names.take(i as int));
            if str_eq(self.loaded_languages[i].as_str(), name) {
                proof {
                    lemma_slot_of_prefix(names, name@, i + 1);
                }
                return Some(i);
            }
            i += 1;
        }
        assert(names.take(i as int) =~= names);
        None
    }

    /// What a request for the parser of `extension` comes to: no parser
    /// serves the extension, or its parser sits in a slot, or it is known
    /// and must be loaded.
    pub fn language_for_file_extension(&self, extension: &str) -> (r: Lookup)
        ensures
            r@ == self@.lookup(extension@),
            r matches Lookup::Loaded(slot) ==> slot < self@.loaded.len(),
    {
        match self.language_of(extension) {
            None => Lookup::NotApplicable,
            Some(language) => match self.loaded_slot(language.name.as_str()) {
                Some(slot) => Lookup::Loaded(slot),
                None => Lookup::Load(
                    Language { name: language.name.clone(), path: language.path.clone() },
                ),
            },
        }
    }

    /// Records that the parser `name` has been loaded, and returns its
    /// slot; a parser that was loaded before keeps its slot.
    pub fn language_loaded(&mut self, name: &str) -> (slot: usize)
        ensures
            final(self)@ == (RegistryView {
                loaded: if slot_of(old(self)@.loaded, name@) is Some {
                    old(self)@.loaded
                } else {
                    old(self)@.loaded.push(name@)
                },
                ..old(self)@
            }),
            slot_of(final(self)@.loaded, name@) == Some(slot as int),
    {
        match self.loaded_slot(name) {
            Some(slot) => slot,
            None => {
                let slot = self.loaded_languages.len();
                let ghost before = self@.loaded;
                self.loaded_languages.push(name.to_owned());
                proof {
                    assert(self@.loaded =~= before.push(name@));
                    assert(self@.loaded.drop_last() =~= before);
                }
                slot
            },
        }
    }

    /// Where the compiled library of the parser `name` lives.
    pub fn library_path(&self, name: &str) -> (r: String)
        ensures
            r@ == library_path_of(self@.config_path, name@, self@.dylib_extension),
    {
        let mut file = name.to_owned();
        file.append(".");
        file.append(self.dylib_extension.as_str());
        proof {
            reveal_strlit(".");
            assert("."@ =~= seq!['.']);
        }
        let dir = join(self.config_path.as_str(), "lib");
        join(dir.as_str(), file.as_str())
    }
}

} // verus!
