use bos_loader::aggregate::{aggregate, AccountPath, BindingSource, DiscoveryError};
use bos_loader::table::ReplacementTable;
use bos_loader::walker::{handle_request, FsNode};

fn file(name: &str, contents: &str) -> FsNode {
    FsNode::File { name: name.to_owned(), contents: contents.to_owned() }
}

fn dir(name: &str, entries: Vec<FsNode>) -> FsNode {
    FsNode::Dir { name: name.to_owned(), entries }
}

fn sample_tree() -> Vec<FsNode> {
    vec![file("a.jsx", "AAA"), dir("sub", vec![file("b.jsx", "BBB")])]
}

#[test]
fn test_walk_legacy_keys() {
    let entries = sample_tree();
    let table = ReplacementTable::new();

    let result = handle_request(&entries, "acc", false, &table);

    assert_eq!(result.len(), 2);
    assert_eq!(result.get("acc/widget/a").unwrap().code, "AAA");
    assert_eq!(result.get("acc/widget/sub.b").unwrap().code, "BBB");
}

#[test]
fn test_walk_web_engine_keys() {
    let entries = sample_tree();
    let table = ReplacementTable::new();

    let result = handle_request(&entries, "acc", true, &table);

    assert_eq!(result.len(), 2);
    assert_eq!(result.get("acc/a").unwrap().code, "AAA");
    assert_eq!(result.get("acc/sub.b").unwrap().code, "BBB");
}

#[test]
fn test_walk_skips_unrecognized_extensions() {
    let entries = vec![
        file("notes.txt", "TEXT"),
        file("noext", "RAW"),
        file("a.jsx", "AAA"),
        file("b.tsx", "TTT"),
    ];
    let table = ReplacementTable::new();

    let result = handle_request(&entries, "acc", false, &table);

    assert_eq!(result.len(), 2);
    assert!(result.get("acc/widget/a").is_some());
    assert!(result.get("acc/widget/b").is_some());
    assert!(result.get("acc/widget/notes").is_none());
    assert!(result.get("acc/widget/noext").is_none());
}

#[test]
fn test_walk_keeps_inner_dots() {
    let entries = vec![file("foo.bar.jsx", "X")];
    let table = ReplacementTable::new();

    let result = handle_request(&entries, "acc", false, &table);

    assert_eq!(result.len(), 1);
    assert_eq!(result.get("acc/widget/foo.bar").unwrap().code, "X");
}

#[test]
fn test_walk_extension_only_name() {
    // A file named exactly like the extension has an empty stem.
    let entries = vec![file("jsx", "X")];
    let table = ReplacementTable::new();

    let result = handle_request(&entries, "acc", false, &table);

    assert_eq!(result.len(), 1);
    assert_eq!(result.get("acc/widget/").unwrap().code, "X");
}

#[test]
fn test_walk_substitutes_account() {
    let entries = vec![file("a.jsx", "<Widget src=\"${REPL_ACCOUNT}/widget/Other\" />")];
    let table = ReplacementTable::new();

    let result = handle_request(&entries, "me.near", false, &table);

    assert_eq!(
        result.get("me.near/widget/a").unwrap().code,
        "<Widget src=\"me.near/widget/Other\" />"
    );
}

#[test]
fn test_aggregate_disjoint_accounts() {
    let table = ReplacementTable::new();
    let sources = vec![
        BindingSource {
            binding: AccountPath { path: "p1".to_owned(), account: "acc1".to_owned() },
            entries: Ok(vec![file("a.jsx", "ONE")]),
        },
        BindingSource {
            binding: AccountPath { path: "p2".to_owned(), account: "acc2".to_owned() },
            entries: Ok(vec![file("a.jsx", "TWO")]),
        },
    ];

    let result = aggregate(&sources, false, &table).unwrap();

    assert_eq!(result.len(), 2);
    assert_eq!(result.get("acc1/widget/a").unwrap().code, "ONE");
    assert_eq!(result.get("acc2/widget/a").unwrap().code, "TWO");
}

#[test]
fn test_aggregate_same_account_last_wins() {
    let table = ReplacementTable::new();
    let sources = vec![
        BindingSource {
            binding: AccountPath { path: "p1".to_owned(), account: "acc".to_owned() },
            entries: Ok(vec![file("a.jsx", "FIRST")]),
        },
        BindingSource {
            binding: AccountPath { path: "p2".to_owned(), account: "acc".to_owned() },
            entries: Ok(vec![file("a.jsx", "SECOND")]),
        },
    ];

    let result = aggregate(&sources, false, &table).unwrap();

    assert_eq!(result.len(), 1);
    assert_eq!(result.get("acc/widget/a").unwrap().code, "SECOND");
}

#[test]
fn test_aggregate_binding_failed() {
    let table = ReplacementTable::new();
    let sources = vec![
        BindingSource {
            binding: AccountPath { path: "p1".to_owned(), account: "acc1".to_owned() },
            entries: Ok(vec![file("a.jsx", "ONE")]),
        },
        BindingSource {
            binding: AccountPath { path: "missing".to_owned(), account: "acc2".to_owned() },
            entries: Err(DiscoveryError::DirectoryUnreadable {
                path: "missing".to_owned(),
                detail: "no such directory".to_owned(),
            }),
        },
    ];

    let result = aggregate(&sources, false, &table);

    let failure = match result {
        Ok(_) => panic!("a failing binding must fail the whole request"),
        Err(failure) => failure,
    };
    assert_eq!(failure.account, "acc2");
    assert_eq!(failure.path, "missing");
    assert!(matches!(failure.cause, DiscoveryError::DirectoryUnreadable { .. }));
}

#[test]
fn test_aggregate_empty_bindings() {
    let table = ReplacementTable::new();
    let sources: Vec<BindingSource> = vec![];

    let result = aggregate(&sources, false, &table).unwrap();

    assert_eq!(result.len(), 0);
}
