use syntax_survey::snapshot::{
    is_test_component, is_test_file, run_version, sample_version, FileError, Snapshot, Source,
    SourceFile,
};
use syntax_survey::stats::{Category, Logger, Runner};
use syntax_survey::syntax::{NodeKind, SyntaxNode};

/// A file with one closure on line 3.
fn tree_with_closure() -> SyntaxNode {
    let closure = SyntaxNode::new(NodeKind::ExprClosure, 3, 3, Vec::new()).unwrap();
    let function = SyntaxNode::new(
        NodeKind::ItemFn { is_unsafe: false, is_async: false },
        1,
        5,
        vec![closure],
    )
    .unwrap();
    SyntaxNode::new(NodeKind::Other, 1, 5, vec![function]).unwrap()
}

fn file(name: &str, source: Source) -> SourceFile {
    SourceFile {
        file_name: String::from(name),
        components: name.split('/').map(String::from).collect(),
        source,
    }
}

#[test]
fn names_of_tests() {
    assert!(is_test_component("test"));
    assert!(is_test_component("tests"));
    assert!(is_test_component("test_data"));
    assert!(is_test_component("test.rs"));
    assert!(is_test_component("tests.rs"));
    assert!(is_test_component("test_data.rs.rs"));
    assert!(!is_test_component("testing"));
    assert!(!is_test_component("test.rsx"));
    assert!(!is_test_component("my_test.rs"));
    assert!(!is_test_component("test.r"));
    assert!(!is_test_component(".rs"));
    assert!(!is_test_component(""));
    assert!(!is_test_component("tëst"));
}

#[test]
fn paths_through_tests() {
    let path = |p: &str| p.split('/').map(String::from).collect::<Vec<String>>();
    assert!(is_test_file(&path("tests/it.rs")));
    assert!(is_test_file(&path("src/test.rs")));
    assert!(is_test_file(&path("crates/a/test_data/input.rs")));
    assert!(!is_test_file(&path("src/lib.rs")));
    assert!(!is_test_file(&path("src/testing/mod.rs")));
    assert!(!is_test_file(&Vec::new()));
}

#[test]
fn batch_of_a_snapshot() {
    let files = vec![
        file("src/lib.rs", Source::Parsed(tree_with_closure())),
        file("src/broken.rs", Source::Unparsable { line: 4, column: 2 }),
        file("tests/it.rs", Source::Parsed(tree_with_closure())),
        file("tests/broken.rs", Source::Unreadable),
        file("src/gone.rs", Source::Unreadable),
        file("src/main.rs", Source::Parsed(tree_with_closure())),
    ];
    let batch = sample_version(42, "serde", 24184, &files);
    assert_eq!(
        batch.snapshot,
        Snapshot { id: 42, crate_name: String::from("serde"), bucket: 24184 }
    );
    let rows: Vec<(u128, &str, usize, Category)> = batch
        .occurrences
        .iter()
        .map(|o| (o.version_id, o.file_name.as_str(), o.line, o.detail.category()))
        .collect();
    assert_eq!(
        rows,
        vec![
            (42, "src/lib.rs", 3, Category::ClosureExpression),
            (42, "src/main.rs", 3, Category::ClosureExpression),
        ]
    );
    assert_eq!(
        batch.errors,
        vec![
            FileError::Parse { file_name: String::from("src/broken.rs"), line: 4, column: 2 },
            FileError::Read { file_name: String::from("src/gone.rs") },
        ]
    );
}

#[test]
fn batch_of_an_empty_snapshot() {
    let batch = sample_version(1, "empty", 0, &Vec::new());
    assert!(batch.occurrences.is_empty());
    assert!(batch.errors.is_empty());
}

#[test]
fn new_snapshot_gets_its_own_identifier() {
    let files = vec![file("src/lib.rs", Source::Parsed(tree_with_closure()))];
    let first = run_version("serde", 24184, &files);
    let second = run_version("serde", 24184, &files);
    assert_ne!(first.snapshot.id, second.snapshot.id);
    assert_eq!(first.snapshot.crate_name, "serde");
    assert_eq!(first.snapshot.bucket, 24184);
    assert_eq!(first.occurrences.len(), 1);
    assert_eq!(first.occurrences[0].version_id, first.snapshot.id);
    assert_eq!(second.occurrences[0].version_id, second.snapshot.id);
}

#[test]
fn analysis_of_a_file_that_was_not_parsed() {
    let log = Logger { file_name: String::from("src/lib.rs"), version_id: 3 };
    assert_eq!(Runner::Closures.collect_path(&Source::Unreadable, &log), None);
    assert_eq!(
        Runner::Closures.collect_path(&Source::Unparsable { line: 1, column: 0 }, &log),
        None
    );
    let rows = Runner::Closures.collect_path(&Source::Parsed(tree_with_closure()), &log).unwrap();
    assert_eq!(rows.len(), 1);
    assert_eq!(rows[0].line, 3);
    assert_eq!(Runner::Traits.collect_path(&Source::Parsed(tree_with_closure()), &log), Some(vec![]));
}
