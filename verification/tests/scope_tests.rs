use tree_tags::module::module_names;
use tree_tags::module::Module;
use tree_tags::point::Point;
use tree_tags::scope::find_name;
use tree_tags::scope::LocalName;
use tree_tags::scope::Scope;
use tree_tags::scope::Target;
use tree_tags::store::LocalDef;
use tree_tags::store::LocalRef;
use tree_tags::store::Store;

fn at(column: u32) -> Point {
    Point::new(0, column)
}

#[test]
fn reference_resolves_to_the_last_visible_definition() {
    let mut scope = Scope::new(None);
    scope.add_local_def("x".to_string(), at(4));
    scope.add_local_def("y".to_string(), at(8));
    scope.add_local_def("x".to_string(), at(12));
    assert_eq!(scope.resolve("x", at(20)), Some(Target::Local(2)));
    assert_eq!(scope.resolve("x", at(12)), Some(Target::Local(2)));
    assert_eq!(scope.resolve("x", at(11)), Some(Target::Local(0)));
    assert_eq!(scope.resolve("x", at(3)), None);
    assert_eq!(scope.resolve("y", at(9)), Some(Target::Local(1)));
    assert_eq!(scope.resolve("z", at(20)), None);
}

#[test]
fn search_stops_at_the_first_definition_after_the_reference() {
    let mut scope = Scope::new(None);
    scope.add_local_def("x".to_string(), at(4));
    scope.add_local_def("y".to_string(), at(30));
    scope.add_local_def("x".to_string(), at(10));
    // The definition at 10 stands behind one that lies after the reference.
    assert_eq!(scope.resolve("x", at(20)), Some(Target::Local(0)));
    assert_eq!(scope.resolve("x", at(30)), Some(Target::Local(2)));
}

#[test]
fn hoisted_definition_is_found_when_no_other_is_visible() {
    let mut scope = Scope::new(Some("function".to_string()));
    scope.add_local_def("g".to_string(), at(2));
    scope.add_hoisted_def("f".to_string(), at(40));
    scope.add_hoisted_def("g".to_string(), at(60));
    scope.add_hoisted_def("f".to_string(), at(80));
    assert_eq!(scope.resolve("f", at(0)), Some(Target::Hoisted(0)));
    assert_eq!(scope.resolve("f", at(90)), Some(Target::Hoisted(0)));
    assert_eq!(scope.resolve("g", at(1)), Some(Target::Hoisted(1)));
    assert_eq!(scope.resolve("g", at(5)), Some(Target::Local(0)));
    assert!(scope.has_kind("function"));
    assert!(!scope.has_kind("block"));
    assert!(!Scope::new(None).has_kind("function"));
}

#[test]
fn closing_a_scope_links_what_resolves_and_returns_the_rest() {
    let store = Store::new();
    let mut file = store.file(b"/a.js").unwrap();
    assert_eq!(file.insert_local_def("earlier", at(0)), 0);
    let mut scope = Scope::new(None);
    scope.add_local_def("x".to_string(), at(10));
    scope.add_hoisted_def("f".to_string(), at(50));
    scope.add_local_def("yy".to_string(), at(20));
    scope.add_local_ref("f".to_string(), at(12));
    scope.add_local_ref("outer".to_string(), at(14));
    scope.add_local_ref("yy".to_string(), at(30));
    scope.add_local_refs(vec![
        LocalName { name: "x".to_string(), position: at(5) },
        LocalName { name: "x".to_string(), position: at(40) },
    ]);
    let escaped = scope.flush(&mut file);
    assert_eq!(
        file.local_defs(),
        &vec![
            LocalDef { position: at(0), length: 7 },
            LocalDef { position: at(10), length: 1 },
            LocalDef { position: at(20), length: 2 },
            LocalDef { position: at(50), length: 1 },
        ]
    );
    assert_eq!(
        file.local_refs(),
        &vec![
            LocalRef { definition_id: 3, position: at(12), length: 1 },
            LocalRef { definition_id: 2, position: at(30), length: 2 },
            LocalRef { definition_id: 1, position: at(40), length: 1 },
        ]
    );
    let names: Vec<(String, Point)> =
        escaped.into_iter().map(|r| (r.name, r.position)).collect();
    assert_eq!(names, vec![("outer".to_string(), at(14)), ("x".to_string(), at(5))]);
}

#[test]
fn first_entry_of_a_name_is_found() {
    let names = vec![
        LocalName { name: "a".to_string(), position: at(0) },
        LocalName { name: "b".to_string(), position: at(1) },
        LocalName { name: "a".to_string(), position: at(2) },
    ];
    assert_eq!(find_name(&names, "a"), Some(0));
    assert_eq!(find_name(&names, "b"), Some(1));
    assert_eq!(find_name(&names, "c"), None);
    assert_eq!(find_name(&Vec::new(), "a"), None);
}

#[test]
fn module_collects_definitions_and_hands_over_the_named_ones() {
    let store = Store::new();
    let mut file = store.file(b"/a.js").unwrap();
    let mut module = Module::new();
    module.name_definition("stray".to_string(), at(0));
    module.type_definition("stray".to_string());
    module.close_definition();
    module.open_definition(Some("class".to_string()), at(0), at(50));
    module.name_definition("A".to_string(), at(6));
    module.open_definition(None, at(10), at(20));
    module.type_definition("method".to_string());
    module.close_definition();
    module.open_definition(None, at(22), at(30));
    module.name_definition("m".to_string(), at(24));
    module.name_definition("n".to_string(), at(26));
    module.close_definition();
    module.close_definition();
    module.open_definition(None, at(60), at(70));
    module.name_definition("open".to_string(), at(62));
    module.set_name("ignored".to_string());
    module.flush(&mut file, &vec!["outer".to_string(), "inner".to_string()]);
    let defs = file.defs();
    assert_eq!(defs.len(), 2);
    assert_eq!(defs[0].name, "n");
    assert_eq!(defs[0].name_position, at(26));
    assert_eq!(defs[0].start_position, at(22));
    assert_eq!(defs[0].end_position, at(30));
    assert_eq!(defs[0].kind, None);
    assert_eq!(defs[0].mod_path, "outer\tinner\t");
    assert_eq!(defs[1].name, "A");
    assert_eq!(defs[1].kind, Some("class".to_string()));
    assert_eq!(defs[1].mod_path, "outer\tinner\t");
}

#[test]
fn module_path_skips_the_modules_without_a_name() {
    let mut outer = Module::new();
    outer.set_name("a".to_string());
    let unnamed = Module::new();
    let mut inner = Module::new();
    inner.set_name("first".to_string());
    inner.set_name("b".to_string());
    assert_eq!(module_names(&vec![outer, unnamed, inner]), vec!["a".to_string(), "b".to_string()]);
    assert_eq!(module_names(&Vec::new()), Vec::<String>::new());
}
