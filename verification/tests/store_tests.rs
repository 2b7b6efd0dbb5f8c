use tree_tags::point::Point;
use tree_tags::store::covers_position;
use tree_tags::store::join_mod_path;
use tree_tags::store::LocalDef;
use tree_tags::store::LocalRef;
use tree_tags::store::Store;
use tree_tags::store::StoreError;
use tree_tags::store::MAX_HITS;

fn file_with_definitions(store: &mut Store, path: &[u8], names: &[&str]) {
    let mut file = store.file(path).unwrap();
    let mut column = 0;
    for name in names {
        file.insert_def(
            name,
            Point::new(0, column),
            Point::new(0, column),
            Point::new(0, column + 10),
            Some("function"),
            &Vec::new(),
        );
        column += 20;
    }
    file.commit(store).unwrap();
}

#[test]
fn unknown_path_is_not_indexed() {
    let store = Store::new();
    let r = store.find_definition(b"/src/a.rs", Point::new(0, 0));
    assert_eq!(r, Err(StoreError::NotIndexed));
}

#[test]
fn uncovered_position_gives_no_result() {
    let mut store = Store::new();
    file_with_definitions(&mut store, b"/a.rs", &["foo"]);
    assert_eq!(store.find_definition(b"/a.rs", Point::new(0, 0)), Ok(vec![]));
}

#[test]
fn new_store_is_empty() {
    let store = Store::new();
    assert!(store.files().is_empty());
}

#[test]
fn transaction_starts_empty_with_the_next_id() {
    let store = Store::new();
    let file = store.file(b"/a.rs").unwrap();
    assert_eq!(file.file_id(), 1);
    assert_eq!(file.path(), &b"/a.rs".to_vec());
    assert!(file.defs().is_empty());
    assert!(file.refs().is_empty());
    assert!(file.local_defs().is_empty());
    assert!(file.local_refs().is_empty());
}

#[test]
fn dropped_transaction_leaves_the_store_as_it_was() {
    let mut store = Store::new();
    file_with_definitions(&mut store, b"/a.rs", &["foo"]);
    {
        let mut file = store.file(b"/a.rs").unwrap();
        file.insert_ref("bar", Point::new(1, 1), None);
    }
    assert_eq!(store.files().len(), 1);
    assert_eq!(store.files()[0].file_id(), 1);
    assert_eq!(store.files()[0].defs().len(), 1);
    assert!(store.files()[0].refs().is_empty());
}

#[test]
fn commit_after_another_commit_is_busy() {
    let mut store = Store::new();
    let first = store.file(b"/a.rs").unwrap();
    let mut second = store.file(b"/b.rs").unwrap();
    second.insert_ref("x", Point::new(0, 0), None);
    assert_eq!(first.commit(&mut store), Ok(()));
    assert_eq!(second.commit(&mut store), Err(StoreError::Busy));
    assert_eq!(store.files().len(), 1);
    assert_eq!(store.files()[0].path(), &b"/a.rs".to_vec());
}

#[test]
fn file_ids_grow_with_every_commit() {
    let mut store = Store::new();
    file_with_definitions(&mut store, b"/a.rs", &[]);
    file_with_definitions(&mut store, b"/b.rs", &[]);
    file_with_definitions(&mut store, b"/a.rs", &[]);
    let ids: Vec<i64> = store.files().iter().map(|f| f.file_id()).collect();
    let paths: Vec<Vec<u8>> = store.files().iter().map(|f| f.path().clone()).collect();
    assert_eq!(ids, vec![2, 3]);
    assert_eq!(paths, vec![b"/b.rs".to_vec(), b"/a.rs".to_vec()]);
}

#[test]
fn local_reference_to_a_missing_definition_is_refused() {
    let store = Store::new();
    let mut file = store.file(b"/a.rs").unwrap();
    assert_eq!(file.insert_local_ref(0, "x", Point::new(0, 0)), Err(StoreError::Constraint));
    assert_eq!(file.insert_local_def("x", Point::new(0, 4)), 0);
    assert_eq!(file.insert_local_def("yz", Point::new(1, 4)), 1);
    assert_eq!(file.insert_local_ref(2, "x", Point::new(0, 9)), Err(StoreError::Constraint));
    assert_eq!(file.insert_local_ref(1, "yz", Point::new(2, 0)), Ok(()));
    assert_eq!(
        file.local_defs(),
        &vec![
            LocalDef { position: Point::new(0, 4), length: 1 },
            LocalDef { position: Point::new(1, 4), length: 2 },
        ]
    );
    assert_eq!(
        file.local_refs(),
        &vec![LocalRef { definition_id: 1, position: Point::new(2, 0), length: 2 }]
    );
}

#[test]
fn local_reference_is_preferred_to_a_global_one() {
    let mut store = Store::new();
    file_with_definitions(&mut store, b"/lib.rs", &["x"]);
    let mut file = store.file(b"/a.rs").unwrap();
    let id = file.insert_local_def("x", Point::new(3, 8));
    file.insert_local_ref(id, "x", Point::new(5, 2)).unwrap();
    file.insert_ref("x", Point::new(5, 2), None);
    file.commit(&mut store).unwrap();
    let hits = store.find_definition(b"/a.rs", Point::new(5, 2)).unwrap();
    assert_eq!(hits, vec![(b"/a.rs".to_vec(), Point::new(3, 8), 1)]);
}

#[test]
fn first_covering_local_reference_decides() {
    let mut store = Store::new();
    let mut file = store.file(b"/a.rs").unwrap();
    let one = file.insert_local_def("abc", Point::new(0, 0));
    let two = file.insert_local_def("abc", Point::new(1, 0));
    file.insert_local_ref(two, "abc", Point::new(4, 0)).unwrap();
    file.insert_local_ref(one, "abc", Point::new(4, 1)).unwrap();
    file.commit(&mut store).unwrap();
    let hits = store.find_definition(b"/a.rs", Point::new(4, 2)).unwrap();
    assert_eq!(hits, vec![(b"/a.rs".to_vec(), Point::new(1, 0), 3)]);
    let hits = store.find_definition(b"/a.rs", Point::new(4, 3)).unwrap();
    assert_eq!(hits, vec![(b"/a.rs".to_vec(), Point::new(0, 0), 3)]);
}

#[test]
fn global_results_stop_at_the_cap() {
    let mut store = Store::new();
    let names: Vec<&str> = (0..30).map(|_| "foo").collect();
    file_with_definitions(&mut store, b"/a.rs", &names);
    file_with_definitions(&mut store, b"/b.rs", &names);
    let mut file = store.file(b"/c.rs").unwrap();
    file.insert_ref("foo", Point::new(0, 0), Some("call"));
    file.commit(&mut store).unwrap();
    let hits = store.find_definition(b"/c.rs", Point::new(0, 1)).unwrap();
    assert_eq!(MAX_HITS, 50);
    assert_eq!(hits.len(), 50);
    assert_eq!(hits[0], (b"/a.rs".to_vec(), Point::new(0, 0), 3));
    assert_eq!(hits[29], (b"/a.rs".to_vec(), Point::new(0, 580), 3));
    assert_eq!(hits[30], (b"/b.rs".to_vec(), Point::new(0, 0), 3));
    assert_eq!(hits[49], (b"/b.rs".to_vec(), Point::new(0, 380), 3));
}

#[test]
fn global_results_below_the_cap_are_all_there() {
    let mut store = Store::new();
    let names: Vec<&str> = (0..49).map(|_| "foo").collect();
    file_with_definitions(&mut store, b"/a.rs", &names);
    let mut file = store.file(b"/c.rs").unwrap();
    file.insert_ref("foo", Point::new(0, 0), None);
    file.commit(&mut store).unwrap();
    assert_eq!(store.find_definition(b"/c.rs", Point::new(0, 2)).unwrap().len(), 49);
}

#[test]
fn global_reference_matches_by_name_only() {
    let mut store = Store::new();
    file_with_definitions(&mut store, b"/a.rs", &["foo", "bar", "foo"]);
    let mut file = store.file(b"/c.rs").unwrap();
    file.insert_ref("foo", Point::new(2, 4), None);
    file.insert_ref("baz", Point::new(3, 0), None);
    file.commit(&mut store).unwrap();
    let hits = store.find_definition(b"/c.rs", Point::new(2, 6)).unwrap();
    assert_eq!(
        hits,
        vec![
            (b"/a.rs".to_vec(), Point::new(0, 0), 3),
            (b"/a.rs".to_vec(), Point::new(0, 40), 3),
        ]
    );
    assert_eq!(store.find_definition(b"/c.rs", Point::new(3, 1)).unwrap(), vec![]);
}

#[test]
fn two_covering_references_give_their_results_per_definition() {
    let mut store = Store::new();
    file_with_definitions(&mut store, b"/a.rs", &["foo", "foobar"]);
    let mut file = store.file(b"/c.rs").unwrap();
    file.insert_ref("foobar", Point::new(0, 0), None);
    file.insert_ref("foo", Point::new(0, 0), None);
    file.commit(&mut store).unwrap();
    let hits = store.find_definition(b"/c.rs", Point::new(0, 1)).unwrap();
    assert_eq!(
        hits,
        vec![
            (b"/a.rs".to_vec(), Point::new(0, 0), 3),
            (b"/a.rs".to_vec(), Point::new(0, 20), 6),
        ]
    );
}

#[test]
fn delete_files_removes_the_paths_with_the_prefix() {
    let mut store = Store::new();
    file_with_definitions(&mut store, b"/project/a.rs", &["foo"]);
    file_with_definitions(&mut store, b"/other/b.rs", &["foo"]);
    file_with_definitions(&mut store, b"/project/sub/c.rs", &["foo"]);
    file_with_definitions(&mut store, b"/proj", &["foo"]);
    store.delete_files(b"/project");
    let paths: Vec<Vec<u8>> = store.files().iter().map(|f| f.path().clone()).collect();
    assert_eq!(paths, vec![b"/other/b.rs".to_vec(), b"/proj".to_vec()]);
    assert_eq!(
        store.find_definition(b"/project/a.rs", Point::new(0, 0)),
        Err(StoreError::NotIndexed)
    );
    store.delete_files(b"/nothing");
    assert_eq!(store.files().len(), 2);
    store.delete_files(b"");
    assert!(store.files().is_empty());
}

#[test]
fn deleted_definitions_are_no_longer_found() {
    let mut store = Store::new();
    file_with_definitions(&mut store, b"/lib/a.rs", &["foo"]);
    let mut file = store.file(b"/app/c.rs").unwrap();
    file.insert_ref("foo", Point::new(0, 0), None);
    file.commit(&mut store).unwrap();
    assert_eq!(store.find_definition(b"/app/c.rs", Point::new(0, 0)).unwrap().len(), 1);
    store.delete_files(b"/lib/");
    assert_eq!(store.find_definition(b"/app/c.rs", Point::new(0, 0)).unwrap(), vec![]);
}

#[test]
fn path_is_kept_byte_for_byte() {
    let mut store = Store::new();
    let path: Vec<u8> = vec![b'/', 0xff, 0xfe, b'.', b'c'];
    let mut file = store.file(&path).unwrap();
    let id = file.insert_local_def("v", Point::new(0, 0));
    file.insert_local_ref(id, "v", Point::new(1, 0)).unwrap();
    file.commit(&mut store).unwrap();
    let hits = store.find_definition(&path, Point::new(1, 0)).unwrap();
    assert_eq!(hits, vec![(path.clone(), Point::new(0, 0), 1)]);
}

#[test]
fn module_path_entries_end_with_a_tab() {
    assert_eq!(join_mod_path(&Vec::new()), "");
    assert_eq!(join_mod_path(&vec!["a".to_string()]), "a\t");
    assert_eq!(join_mod_path(&vec!["a".to_string(), "b".to_string()]), "a\tb\t");
}

#[test]
fn definition_is_stored_with_its_module_path() {
    let store = Store::new();
    let mut file = store.file(b"/a.rs").unwrap();
    file.insert_def(
        "c",
        Point::new(2, 8),
        Point::new(2, 4),
        Point::new(4, 1),
        None,
        &vec!["a".to_string(), "b".to_string()],
    );
    let defs = file.defs();
    assert_eq!(defs.len(), 1);
    assert_eq!(defs[0].name, "c");
    assert_eq!(defs[0].name_position, Point::new(2, 8));
    assert_eq!(defs[0].start_position, Point::new(2, 4));
    assert_eq!(defs[0].end_position, Point::new(4, 1));
    assert_eq!(defs[0].kind, None);
    assert_eq!(defs[0].mod_path, "a\tb\t");
}

#[test]
fn name_covers_its_own_columns_only() {
    let at = Point::new(3, 10);
    assert!(covers_position(Point::new(3, 10), 1, at));
    assert!(covers_position(Point::new(3, 8), 3, at));
    assert!(!covers_position(Point::new(3, 8), 2, at));
    assert!(!covers_position(Point::new(3, 11), 5, at));
    assert!(!covers_position(Point::new(2, 10), 5, at));
    assert!(!covers_position(Point::new(3, 10), 0, at));
    assert!(covers_position(Point::new(0, 0), usize::MAX, Point::new(0, u32::MAX)));
}
