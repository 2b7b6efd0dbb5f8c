use tree_tags::crawler::DirCrawler;
use tree_tags::crawler::Error;
use tree_tags::crawler::TreeCrawler;
use tree_tags::language_registry::LanguageRegistry;
use tree_tags::point::Point;
use tree_tags::properties::Node;
use tree_tags::properties::SyntaxTree;
use tree_tags::store::LocalDef;
use tree_tags::store::LocalRef;
use tree_tags::store::Store;
use tree_tags::store::StoreFile;

fn node(depth: usize, text: &str, column: u32, props: &[(&str, &str)]) -> Node {
    let end = column + text.len() as u32;
    let mut n = Node::new(depth, text.to_string(), Point::new(0, column), Point::new(0, end));
    for (key, value) in props {
        n.properties.insert(key.to_string(), value.to_string());
    }
    n
}

fn def(depth: usize, text: &str, column: u32) -> Node {
    node(depth, text, column, &[("local-definition", "true")])
}

fn hoisted(depth: usize, text: &str, column: u32) -> Node {
    node(depth, text, column, &[("local-definition", "true"), ("local-is-hoisted", "true")])
}

fn reference(depth: usize, text: &str, column: u32) -> Node {
    node(depth, text, column, &[("local-reference", "true")])
}

fn scope(depth: usize, column: u32, kind: Option<&str>) -> Node {
    match kind {
        Some(kind) => node(depth, "{", column, &[("local-scope", "true"), ("scope-type", kind)]),
        None => node(depth, "{", column, &[("local-scope", "true")]),
    }
}

fn crawl(nodes: Vec<Node>) -> StoreFile {
    let store = Store::new();
    let mut crawler = TreeCrawler::new(store.file(b"/src/main.js").unwrap());
    crawler.crawl_tree(&SyntaxTree { nodes });
    crawler.into_store()
}

fn index(store: &mut Store, path: &[u8], nodes: Vec<Node>) {
    let mut crawler = TreeCrawler::new(store.file(path).unwrap());
    crawler.crawl_tree(&SyntaxTree { nodes });
    crawler.into_store().commit(store).unwrap();
}

fn local_def(column: u32, length: usize) -> LocalDef {
    LocalDef { position: Point::new(0, column), length }
}

fn local_ref(definition_id: usize, column: u32, length: usize) -> LocalRef {
    LocalRef { definition_id, position: Point::new(0, column), length }
}

// let x = 1; x + x
fn pure_local() -> Vec<Node> {
    vec![def(1, "x", 4), reference(1, "x", 11), reference(1, "x", 15)]
}

#[test]
fn pure_local_reference_finds_the_let_binding() {
    let mut store = Store::new();
    index(&mut store, b"/src/main.js", pure_local());
    let hits = store.find_definition(b"/src/main.js", Point::new(0, 15)).unwrap();
    assert_eq!(hits, vec![(b"/src/main.js".to_vec(), Point::new(0, 4), 1)]);
    let hits = store.find_definition(b"/src/main.js", Point::new(0, 11)).unwrap();
    assert_eq!(hits, vec![(b"/src/main.js".to_vec(), Point::new(0, 4), 1)]);
}

#[test]
fn pure_local_facts() {
    let facts = crawl(pure_local());
    assert_eq!(facts.local_defs(), &vec![local_def(4, 1)]);
    assert_eq!(facts.local_refs(), &vec![local_ref(0, 11, 1), local_ref(0, 15, 1)]);
    assert!(facts.defs().is_empty());
    assert!(facts.refs().is_empty());
}

// f(); function f(){}
#[test]
fn hoisted_definition_is_found_from_an_earlier_call() {
    let mut store = Store::new();
    index(&mut store, b"/src/main.js", vec![reference(1, "f", 0), hoisted(1, "f", 14)]);
    let hits = store.find_definition(b"/src/main.js", Point::new(0, 0)).unwrap();
    assert_eq!(hits, vec![(b"/src/main.js".to_vec(), Point::new(0, 14), 1)]);
}

#[test]
fn definition_after_the_reference_is_not_visible_unless_hoisted() {
    let facts = crawl(vec![reference(1, "f", 0), def(1, "f", 14)]);
    assert_eq!(facts.local_defs(), &vec![local_def(14, 1)]);
    assert!(facts.local_refs().is_empty());
}

#[test]
fn definition_at_the_position_of_the_reference_is_visible() {
    let facts = crawl(vec![def(1, "f", 3), reference(1, "f", 3)]);
    assert_eq!(facts.local_refs(), &vec![local_ref(0, 3, 1)]);
}

fn global_definition(name: &str, column: u32) -> Vec<Node> {
    vec![
        node(1, "function", column, &[("definition", "true"), ("definition-type", "function")]),
        node(2, name, column + 9, &[("definition-part", "name")]),
    ]
}

#[test]
fn global_reference_finds_the_definitions_in_all_files() {
    let mut store = Store::new();
    index(&mut store, b"/a.js", global_definition("foo", 0));
    index(&mut store, b"/b.js", global_definition("foo", 20));
    index(
        &mut store,
        b"/c.js",
        vec![node(1, "foo", 5, &[("reference", "true"), ("reference-type", "call")])],
    );
    let hits = store.find_definition(b"/c.js", Point::new(0, 6)).unwrap();
    assert_eq!(
        hits,
        vec![
            (b"/a.js".to_vec(), Point::new(0, 9), 3),
            (b"/b.js".to_vec(), Point::new(0, 29), 3),
        ]
    );
    assert_eq!(store.find_definition(b"/c.js", Point::new(0, 8)).unwrap(), vec![]);
    assert_eq!(store.find_definition(b"/c.js", Point::new(0, 4)).unwrap(), vec![]);
    assert_eq!(store.find_definition(b"/c.js", Point::new(1, 6)).unwrap(), vec![]);
}

#[test]
fn global_reference_is_recorded_with_its_kind() {
    let facts = crawl(vec![
        node(1, "foo", 5, &[("reference", "true"), ("reference-type", "call")]),
        node(1, "bar", 9, &[("reference", "true")]),
        node(1, "baz", 13, &[("reference", "false")]),
    ]);
    let refs = facts.refs();
    assert_eq!(refs.len(), 2);
    assert_eq!(refs[0].name, "foo");
    assert_eq!(refs[0].position, Point::new(0, 5));
    assert_eq!(refs[0].kind, Some("call".to_string()));
    assert_eq!(refs[1].name, "bar");
    assert_eq!(refs[1].kind, None);
}

// module a { module b { def c {} } }
#[test]
fn nested_modules_give_the_module_path() {
    let facts = crawl(vec![
        node(1, "module", 0, &[("module", "true")]),
        node(2, "a", 7, &[("module-part", "name")]),
        node(2, "module", 11, &[("module", "true")]),
        node(3, "b", 18, &[("module-part", "name")]),
        node(3, "def", 22, &[("definition", "true"), ("definition-type", "method")]),
        node(4, "c", 26, &[("definition-part", "name")]),
    ]);
    let defs = facts.defs();
    assert_eq!(defs.len(), 1);
    assert_eq!(defs[0].name, "c");
    assert_eq!(defs[0].mod_path, "a\tb\t");
    assert_eq!(defs[0].kind, Some("method".to_string()));
    assert_eq!(defs[0].name_position, Point::new(0, 26));
    assert_eq!(defs[0].start_position, Point::new(0, 22));
    assert_eq!(defs[0].end_position, Point::new(0, 25));
}

#[test]
fn module_name_that_follows_the_definition_is_in_the_path() {
    let facts = crawl(vec![
        node(1, "module", 0, &[("module", "true")]),
        node(2, "def", 7, &[("definition", "true")]),
        node(3, "c", 11, &[("definition-part", "name")]),
        node(2, "late", 20, &[("module-part", "name")]),
    ]);
    let defs = facts.defs();
    assert_eq!(defs.len(), 1);
    assert_eq!(defs[0].name, "c");
    assert_eq!(defs[0].mod_path, "late\t");
    assert_eq!(defs[0].kind, None);
}

#[test]
fn module_without_a_name_is_left_out_of_the_path() {
    let facts = crawl(vec![
        node(1, "module", 0, &[("module", "true")]),
        node(2, "outer", 7, &[("module-part", "name")]),
        node(2, "module", 13, &[("module", "true")]),
        node(3, "def", 20, &[("definition", "true")]),
        node(4, "c", 24, &[("definition-part", "name")]),
    ]);
    assert_eq!(facts.defs()[0].mod_path, "outer\t");
}

#[test]
fn top_level_definition_has_an_empty_module_path() {
    let facts = crawl(global_definition("foo", 0));
    let defs = facts.defs();
    assert_eq!(defs.len(), 1);
    assert_eq!(defs[0].name, "foo");
    assert_eq!(defs[0].mod_path, "");
    assert_eq!(defs[0].kind, Some("function".to_string()));
}

#[test]
fn later_module_name_replaces_the_earlier_one() {
    let facts = crawl(vec![
        node(1, "module", 0, &[("module", "true")]),
        node(2, "first", 7, &[("module-part", "name")]),
        node(2, "second", 13, &[("module-part", "name")]),
        node(2, "def", 20, &[("definition", "true")]),
        node(3, "c", 24, &[("definition-part", "name")]),
    ]);
    assert_eq!(facts.defs()[0].mod_path, "second\t");
}

#[test]
fn definition_without_a_name_is_not_recorded() {
    let facts = crawl(vec![
        node(1, "function", 0, &[("definition", "true")]),
        node(2, "body", 9, &[]),
        node(1, "function", 20, &[("definition", "true")]),
        node(2, "g", 29, &[("definition-part", "name")]),
    ]);
    let defs = facts.defs();
    assert_eq!(defs.len(), 1);
    assert_eq!(defs[0].name, "g");
}

#[test]
fn value_of_a_definition_gives_its_kind() {
    let facts = crawl(vec![
        node(1, "x = function", 0, &[("definition", "true"), ("definition-type", "variable")]),
        node(2, "x", 0, &[("definition-part", "name")]),
        node(2, "function", 4, &[("definition-part", "value"), ("definition-type", "function")]),
        node(1, "y = 1", 20, &[("definition", "true"), ("definition-type", "variable")]),
        node(2, "y", 20, &[("definition-part", "name")]),
        node(2, "1", 24, &[("definition-part", "value")]),
    ]);
    let defs = facts.defs();
    assert_eq!(defs.len(), 2);
    assert_eq!(defs[0].name, "x");
    assert_eq!(defs[0].kind, Some("function".to_string()));
    assert_eq!(defs[1].name, "y");
    assert_eq!(defs[1].kind, Some("variable".to_string()));
}

#[test]
fn nested_definitions_are_recorded_inner_first() {
    let facts = crawl(vec![
        node(1, "class", 0, &[("definition", "true"), ("definition-type", "class")]),
        node(2, "A", 6, &[("definition-part", "name")]),
        node(2, "method", 10, &[("definition", "true"), ("definition-type", "method")]),
        node(3, "m", 17, &[("definition-part", "name")]),
    ]);
    let defs = facts.defs();
    assert_eq!(defs.len(), 2);
    assert_eq!(defs[0].name, "m");
    assert_eq!(defs[1].name, "A");
}

#[test]
fn definition_part_without_a_definition_is_ignored() {
    let facts = crawl(vec![node(1, "stray", 0, &[("definition-part", "name")])]);
    assert!(facts.defs().is_empty());
}

#[test]
fn reindexing_replaces_the_facts_of_the_file() {
    let mut store = Store::new();
    let mut first = global_definition("foo", 0);
    first.push(node(1, "bar", 30, &[("reference", "true")]));
    index(&mut store, b"/a.js", first);
    let mut second = global_definition("foo", 0);
    second.extend(global_definition("extra", 40));
    index(&mut store, b"/a.js", second);

    let files = store.files();
    assert_eq!(files.len(), 1);
    assert_eq!(files[0].path(), &b"/a.js".to_vec());
    assert_eq!(files[0].file_id(), 2);
    let names: Vec<String> = files[0].defs().iter().map(|d| d.name.clone()).collect();
    assert_eq!(names, vec!["foo".to_string(), "extra".to_string()]);
    assert!(files[0].refs().is_empty());
}

#[test]
fn indexing_twice_gives_the_same_facts() {
    let mut store = Store::new();
    index(&mut store, b"/other.js", pure_local());
    index(&mut store, b"/a.js", shadowing_across_scopes());
    let before = format!(
        "{:?} {:?} {:?} {:?}",
        store.files()[1].defs(),
        store.files()[1].refs(),
        store.files()[1].local_defs(),
        store.files()[1].local_refs()
    );
    let id = store.files()[1].file_id();
    index(&mut store, b"/a.js", shadowing_across_scopes());
    assert_eq!(store.files().len(), 2);
    assert_eq!(store.files()[0].path(), &b"/other.js".to_vec());
    assert_eq!(store.files()[1].path(), &b"/a.js".to_vec());
    let after = format!(
        "{:?} {:?} {:?} {:?}",
        store.files()[1].defs(),
        store.files()[1].refs(),
        store.files()[1].local_defs(),
        store.files()[1].local_refs()
    );
    assert_eq!(before, after);
    assert_ne!(store.files()[1].file_id(), id);
}

// let x = 1; { let x = 2; x } + x
fn shadowing_across_scopes() -> Vec<Node> {
    vec![
        def(1, "x", 4),
        scope(1, 11, None),
        def(2, "x", 17),
        reference(2, "x", 24),
        reference(1, "x", 30),
    ]
}

#[test]
fn inner_binding_shadows_the_outer_one_inside_the_block_only() {
    let mut store = Store::new();
    index(&mut store, b"/a.js", shadowing_across_scopes());
    let inner = store.find_definition(b"/a.js", Point::new(0, 24)).unwrap();
    assert_eq!(inner, vec![(b"/a.js".to_vec(), Point::new(0, 17), 1)]);
    let trailing = store.find_definition(b"/a.js", Point::new(0, 30)).unwrap();
    assert_eq!(trailing, vec![(b"/a.js".to_vec(), Point::new(0, 4), 1)]);
}

#[test]
fn later_definition_in_the_same_scope_shadows_the_earlier_one() {
    let facts = crawl(vec![
        def(1, "x", 4),
        reference(1, "x", 8),
        def(1, "x", 14),
        reference(1, "x", 20),
    ]);
    assert_eq!(facts.local_defs(), &vec![local_def(4, 1), local_def(14, 1)]);
    assert_eq!(facts.local_refs(), &vec![local_ref(0, 8, 1), local_ref(1, 20, 1)]);
}

#[test]
fn unresolved_reference_escapes_to_the_enclosing_scope() {
    let facts = crawl(vec![
        def(1, "x", 4),
        scope(1, 11, None),
        def(2, "y", 17),
        reference(2, "x", 24),
        reference(2, "y", 28),
    ]);
    // The block closes first: `y` gets id 0 and its reference; then the file
    // scope closes: `x` gets id 1 and the reference that escaped the block.
    assert_eq!(facts.local_defs(), &vec![local_def(17, 1), local_def(4, 1)]);
    assert_eq!(facts.local_refs(), &vec![local_ref(0, 28, 1), local_ref(1, 24, 1)]);
}

#[test]
fn reference_that_no_scope_resolves_is_dropped() {
    let facts = crawl(vec![scope(1, 0, None), reference(2, "unknown", 4)]);
    assert!(facts.local_defs().is_empty());
    assert!(facts.local_refs().is_empty());
}

#[test]
fn definition_goes_to_the_nearest_scope_of_its_scope_type() {
    // function { block { var v } v }: `var` is scoped to the function.
    let facts = crawl(vec![
        scope(1, 0, Some("function")),
        scope(2, 10, Some("block")),
        node(3, "v", 16, &[("local-definition", "true"), ("scope-type", "function")]),
        reference(2, "v", 22),
    ]);
    assert_eq!(facts.local_defs(), &vec![local_def(16, 1)]);
    assert_eq!(facts.local_refs(), &vec![local_ref(0, 22, 1)]);
}

#[test]
fn definition_without_scope_type_stays_in_the_innermost_scope() {
    let facts = crawl(vec![
        scope(1, 0, Some("function")),
        scope(2, 10, Some("block")),
        def(3, "v", 16),
        reference(2, "v", 22),
    ]);
    assert_eq!(facts.local_defs(), &vec![local_def(16, 1)]);
    assert!(facts.local_refs().is_empty());
}

#[test]
fn definition_with_unknown_scope_type_goes_to_the_file_scope() {
    let facts = crawl(vec![
        scope(1, 0, Some("block")),
        node(2, "g", 6, &[("local-definition", "true"), ("scope-type", "function")]),
        reference(1, "g", 12),
    ]);
    assert_eq!(facts.local_defs(), &vec![local_def(6, 1)]);
    assert_eq!(facts.local_refs(), &vec![local_ref(0, 12, 1)]);
}

#[test]
fn first_hoisted_definition_of_a_name_stays() {
    let facts = crawl(vec![hoisted(1, "f", 9), hoisted(1, "f", 30), reference(1, "f", 40)]);
    assert_eq!(facts.local_defs(), &vec![local_def(9, 1)]);
    assert_eq!(facts.local_refs(), &vec![local_ref(0, 40, 1)]);
}

#[test]
fn visible_definition_wins_over_a_hoisted_one() {
    let facts = crawl(vec![hoisted(1, "f", 2), def(1, "f", 10), reference(1, "f", 20)]);
    // Definitions that are not hoisted are handed over first.
    assert_eq!(facts.local_defs(), &vec![local_def(10, 1), local_def(2, 1)]);
    assert_eq!(facts.local_refs(), &vec![local_ref(0, 20, 1)]);
}

#[test]
fn node_that_is_definition_and_reference_counts_as_definition() {
    let facts = crawl(vec![node(
        1,
        "x",
        4,
        &[("local-definition", "true"), ("local-reference", "true")],
    )]);
    assert_eq!(facts.local_defs(), &vec![local_def(4, 1)]);
    assert!(facts.local_refs().is_empty());
}

#[test]
fn property_with_another_value_than_true_does_not_count() {
    let facts = crawl(vec![
        node(1, "x", 4, &[("local-definition", "yes")]),
        node(1, "x", 8, &[("local-reference", "true")]),
    ]);
    assert!(facts.local_defs().is_empty());
    assert!(facts.local_refs().is_empty());
}

#[test]
fn length_of_a_name_is_counted_in_bytes() {
    let mut store = Store::new();
    index(&mut store, b"/a.js", vec![def(1, "héllo", 4), reference(1, "héllo", 20)]);
    assert_eq!(store.files()[0].local_defs(), &vec![local_def(4, 6)]);
    assert_eq!(store.files()[0].local_refs(), &vec![local_ref(0, 20, 6)]);
    let last = store.find_definition(b"/a.js", Point::new(0, 25)).unwrap();
    assert_eq!(last, vec![(b"/a.js".to_vec(), Point::new(0, 4), 6)]);
    assert_eq!(store.find_definition(b"/a.js", Point::new(0, 26)).unwrap(), vec![]);
}

#[test]
fn walk_leaves_every_scope_and_module_closed() {
    let store = Store::new();
    let mut crawler = TreeCrawler::new(store.file(b"/a.js").unwrap());
    assert_eq!(crawler.scope_depth(), 0);
    crawler.crawl_tree(&SyntaxTree {
        nodes: vec![
            scope(1, 0, None),
            node(2, "module", 2, &[("module", "true")]),
            scope(3, 10, None),
        ],
    });
    assert_eq!(crawler.scope_depth(), 0);
    assert_eq!(crawler.module_depth(), 0);
}

#[test]
fn entering_and_leaving_by_hand() {
    let store = Store::new();
    let mut crawler = TreeCrawler::new(store.file(b"/a.js").unwrap());
    crawler.push_scope(None);
    crawler.push_module();
    assert_eq!(crawler.top_scope(None), Some(0));
    assert_eq!(crawler.top_scope(Some("function")), Some(0));
    let function = scope(1, 0, Some("function"));
    let block = scope(2, 4, Some("block"));
    crawler.enter_node(&function);
    crawler.enter_node(&block);
    assert_eq!(crawler.scope_depth(), 3);
    assert_eq!(crawler.top_scope(None), Some(2));
    assert_eq!(crawler.top_scope(Some("function")), Some(1));
    assert_eq!(crawler.top_scope(Some("block")), Some(2));
    assert_eq!(crawler.top_scope(Some("class")), Some(0));
    crawler.enter_node(&def(3, "v", 8));
    crawler.leave_node(&block);
    assert_eq!(crawler.scope_depth(), 2);
    assert_eq!(crawler.store().local_defs(), &vec![local_def(8, 1)]);
    crawler.leave_node(&function);
    crawler.pop_module();
    crawler.pop_scope();
    assert_eq!(crawler.scope_depth(), 0);
    crawler.pop_scope();
    crawler.pop_module();
    crawler.pop_definition();
    assert_eq!(crawler.scope_depth(), 0);
    assert_eq!(crawler.top_scope(None), None);
}

#[test]
fn empty_tree_gives_no_facts() {
    let facts = crawl(Vec::new());
    assert!(facts.defs().is_empty());
    assert!(facts.refs().is_empty());
    assert!(facts.local_defs().is_empty());
    assert!(facts.local_refs().is_empty());
    assert_eq!(facts.file_id(), 1);
    assert_eq!(facts.path(), &b"/src/main.js".to_vec());
}

#[test]
fn dir_crawler_indexes_a_file() {
    let registry = LanguageRegistry::new("/config".to_string(), "so".to_string(), Vec::new());
    let mut crawler = DirCrawler::new(Store::new(), registry);
    let done: Result<(), Error> =
        crawler.crawl_file(b"/a.js", &SyntaxTree { nodes: pure_local() });
    assert_eq!(done, Ok(()));
    let hits = crawler.store().find_definition(b"/a.js", Point::new(0, 11)).unwrap();
    assert_eq!(hits, vec![(b"/a.js".to_vec(), Point::new(0, 4), 1)]);
    assert_eq!(crawler.language_loaded("javascript"), 0);
    let store = crawler.into_store();
    assert_eq!(store.files().len(), 1);
}
