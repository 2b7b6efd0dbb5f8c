use tree_tags::crawler::DirCrawler;
use tree_tags::crawler::ParsedFile;
use tree_tags::index::Index;
use tree_tags::language_registry::LanguageRegistry;
use tree_tags::language_registry::Lookup;
use tree_tags::language_registry::ParserDir;
use tree_tags::point::Point;
use tree_tags::properties::Node;
use tree_tags::properties::SyntaxTree;
use tree_tags::store::Store;

fn registry() -> LanguageRegistry {
    LanguageRegistry::new(
        "/config".to_string(),
        "so".to_string(),
        vec![ParserDir {
            dir_name: "tree-sitter-ruby".to_string(),
            path: "/parsers/tree-sitter-ruby".to_string(),
            file_types: Some(vec!["rb".to_string()]),
        }],
    )
}

fn tagged(depth: usize, text: &str, row: u32, column: u32, props: &[(&str, &str)]) -> Node {
    let end = Point::new(row, column + text.len() as u32);
    let mut n = Node::new(depth, text.to_string(), Point::new(row, column), end);
    for (key, value) in props {
        n.properties.insert(key.to_string(), value.to_string());
    }
    n
}

#[test]
fn query_in_a_file_that_is_not_indexed_gives_nothing() {
    let index = Index::new(Store::new(), registry());
    assert_eq!(index.find_definition(b"/nowhere.rb", Point::new(0, 0)), vec![]);
}

#[test]
fn index_answers_for_the_files_it_has_indexed() {
    let mut index = Index::new(Store::new(), registry());
    let library = SyntaxTree {
        nodes: vec![
            tagged(1, "module", 0, 0, &[("module", "true")]),
            tagged(2, "Shapes", 0, 7, &[("module-part", "name")]),
            tagged(2, "def area", 1, 2, &[("definition", "true"), ("definition-type", "method")]),
            tagged(3, "area", 1, 6, &[("definition-part", "name")]),
        ],
    };
    let program = SyntaxTree {
        nodes: vec![
            tagged(1, "side", 0, 0, &[("local-definition", "true")]),
            tagged(1, "area", 1, 0, &[("reference", "true"), ("reference-type", "call")]),
            tagged(2, "side", 1, 5, &[("local-reference", "true")]),
        ],
    };
    assert_eq!(index.index_file(b"/lib/shapes.rb", &library), Ok(()));
    assert_eq!(index.index_file(b"/main.rb", &program), Ok(()));
    assert_eq!(
        index.find_definition(b"/main.rb", Point::new(1, 3)),
        vec![(b"/lib/shapes.rb".to_vec(), Point::new(1, 6), 4)]
    );
    assert_eq!(
        index.find_definition(b"/main.rb", Point::new(1, 5)),
        vec![(b"/main.rb".to_vec(), Point::new(0, 0), 4)]
    );
    assert_eq!(index.find_definition(b"/main.rb", Point::new(1, 4)), vec![]);
    assert_eq!(index.store().files().len(), 2);
    assert_eq!(index.store().files()[0].defs()[0].mod_path, "Shapes\t");
    assert!(matches!(
        index.language_registry().language_for_file_extension("rb"),
        Lookup::Load(_)
    ));
}

fn parsed(path: &[u8], name: &str) -> ParsedFile {
    ParsedFile {
        path: path.to_vec(),
        tree: SyntaxTree {
            nodes: vec![
                tagged(1, "def", 0, 0, &[("definition", "true")]),
                tagged(2, name, 0, 4, &[("definition-part", "name")]),
            ],
        },
    }
}

#[test]
fn files_are_indexed_in_their_order() {
    let mut crawler = DirCrawler::new(Store::new(), registry());
    let files = vec![parsed(b"/a.rb", "one"), parsed(b"/b.rb", "two"), parsed(b"/a.rb", "three")];
    assert_eq!(crawler.crawl_path(&files), Ok(()));
    let store = crawler.store();
    assert_eq!(store.files().len(), 2);
    assert_eq!(store.files()[0].path(), &b"/b.rb".to_vec());
    assert_eq!(store.files()[0].file_id(), 2);
    assert_eq!(store.files()[1].path(), &b"/a.rb".to_vec());
    assert_eq!(store.files()[1].file_id(), 3);
    assert_eq!(store.files()[1].defs()[0].name, "three");
    assert_eq!(crawler.crawl_path(&Vec::new()), Ok(()));
    assert_eq!(crawler.store().files().len(), 2);
}

#[test]
fn index_takes_a_list_of_files() {
    let mut index = Index::new(Store::new(), registry());
    assert_eq!(index.index_path(&vec![parsed(b"/a.rb", "one"), parsed(b"/b.rb", "two")]), Ok(()));
    assert_eq!(index.store().files().len(), 2);
    assert_eq!(index.store().files()[1].defs()[0].name, "two");
}
