use gql_safeguard::tree_formatter::TreeFormatter;

#[test]
fn test_single_root_item() {
    let mut formatter = TreeFormatter::new();
    formatter.add_line(0, "root item");
    let result = formatter.to_string();
    assert_eq!(result, "root item");
}

#[test]
fn test_simple_tree() {
    let mut formatter = TreeFormatter::new();
    formatter.add_line(0, "root");
    formatter.add_line(1, "child1");
    formatter.add_line(1, "child2");
    let result = formatter.to_string();
    assert_eq!(result, "root\n├── child1\n└── child2");
}

#[test]
fn test_nested_tree() {
    let mut formatter = TreeFormatter::new();
    formatter.add_line(0, "root");
    formatter.add_line(1, "child1");
    formatter.add_line(2, "grandchild1");
    formatter.add_line(2, "grandchild2");
    formatter.add_line(1, "child2");
    let result = formatter.to_string();
    assert_eq!(
        result,
        "root\n├── child1\n|   ├── grandchild1\n|   └── grandchild2\n└── child2"
    );
}

#[test]
fn test_deep_nesting() {
    let mut formatter = TreeFormatter::new();
    formatter.add_line(0, "root");
    formatter.add_line(1, "level1");
    formatter.add_line(2, "level2");
    formatter.add_line(3, "level3");
    formatter.add_line(4, "level4");
    let result = formatter.to_string();
    assert_eq!(
        result,
        "root\n└── level1\n    └── level2\n        └── level3\n            └── level4"
    );
}

#[test]
fn test_complex_tree() {
    let mut formatter = TreeFormatter::new();
    formatter.add_line(0, "root");
    formatter.add_line(1, "branch1");
    formatter.add_line(2, "leaf1");
    formatter.add_line(2, "leaf2");
    formatter.add_line(1, "branch2");
    formatter.add_line(2, "leaf3");
    formatter.add_line(1, "branch3");
    let result = formatter.to_string();
    assert_eq!(result, "root\n├── branch1\n|   ├── leaf1\n|   └── leaf2\n├── branch2\n|   └── leaf3\n└── branch3");
}

#[test]
fn test_add_tree() {
    let mut main_tree = TreeFormatter::new();
    main_tree.add_line(0, "main");
    main_tree.add_line(1, "first");

    let mut subtree = TreeFormatter::new();
    subtree.add_line(0, "sub_root");
    subtree.add_line(1, "sub_child1");
    subtree.add_line(1, "sub_child2");

    main_tree.add_tree(1, &subtree);
    main_tree.add_line(1, "last");

    let result = main_tree.to_string();
    assert_eq!(
        result,
        "main\n├── first\n├── sub_root\n|   ├── sub_child1\n|   └── sub_child2\n└── last"
    );
}

#[test]
fn empty_formatter_prints_nothing() {
    let formatter = TreeFormatter::new();
    assert_eq!(formatter.to_string(), "");
    assert_eq!(formatter.max_depth(), 0);
}

#[test]
fn max_depth_tracks_deepest_line() {
    let mut formatter = TreeFormatter::new();
    formatter.add_line(0, "a");
    formatter.add_line(3, "b");
    formatter.add_line(1, "c");
    assert_eq!(formatter.max_depth(), 3);
}

#[test]
fn column_closes_after_last_child_only() {
    let mut formatter = TreeFormatter::new();
    formatter.add_line(0, "r");
    formatter.add_line(1, "a");
    formatter.add_line(2, "a1");
    formatter.add_line(1, "b");
    formatter.add_line(2, "b1");
    formatter.add_line(3, "b11");
    assert_eq!(
        formatter.to_string(),
        "r\n├── a\n|   └── a1\n└── b\n    └── b1\n        └── b11"
    );
}
