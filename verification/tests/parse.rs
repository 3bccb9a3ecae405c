use outline_tree::parse::{create_node, parse_tree, split_input, Cursor, FileStructure};

fn new_fs(name: &str, children: Vec<FileStructure>, indent_count: isize) -> FileStructure {
    FileStructure {
        name: name.to_string(),
        children,
        indent_count,
    }
}

/// The names of the tree in reading order, each with its depth below the root.
fn depths_of(node: &FileStructure, depth: usize, out: &mut Vec<(String, usize)>) {
    for child in &node.children {
        out.push((child.name.clone(), depth));
        depths_of(child, depth + 1, out);
    }
}

/// The tree with every indent put to zero.
fn shape_of(node: &FileStructure) -> FileStructure {
    FileStructure {
        name: node.name.clone(),
        children: node.children.iter().map(shape_of).collect(),
        indent_count: 0,
    }
}

#[test]
fn one_line() {
    let result = parse_tree("42");
    assert_eq!(result, new_fs("root", vec![new_fs("42", vec![], 0)], -1));
}

#[test]
fn with_nesting() {
    let result = parse_tree("1\n 2\n 3");
    assert_eq!(
        result,
        new_fs(
            "root",
            vec![new_fs(
                "1",
                vec![new_fs("2", vec![], 1), new_fs("3", vec![], 1)],
                0
            )],
            -1
        )
    );
}

#[test]
fn complex() {
    let result = parse_tree("1\n 2\n 3\n  4\n  5\n 6\n 7\n8\n 9");
    assert_eq!(
        result,
        new_fs(
            "root",
            vec![
                new_fs(
                    "1",
                    vec![
                        new_fs("2", vec![], 1),
                        new_fs("3", vec![new_fs("4", vec![], 2), new_fs("5", vec![], 2)], 1),
                        new_fs("6", vec![], 1),
                        new_fs("7", vec![], 1),
                    ],
                    0
                ),
                new_fs("8", vec![new_fs("9", vec![], 1)], 0),
            ],
            -1
        )
    );
}

#[test]
fn empty_input_gives_bare_root() {
    assert_eq!(parse_tree(""), new_fs("root", vec![], -1));
}

#[test]
fn blank_input_gives_bare_root() {
    assert_eq!(parse_tree("\n  \n\t\n \r\n"), new_fs("root", vec![], -1));
}

#[test]
fn single_line_is_one_entry_named_by_the_line() {
    for line in ["42", "a b  c", "x - y", "#!/bin/sh", "名前"] {
        assert_eq!(
            parse_tree(line),
            new_fs("root", vec![new_fs(line, vec![], 0)], -1)
        );
    }
}

#[test]
fn single_line_with_bullet_loses_the_bullet() {
    assert_eq!(
        parse_tree("- a"),
        new_fs("root", vec![new_fs("a", vec![], 0)], -1)
    );
    assert_eq!(
        parse_tree("*a"),
        new_fs("root", vec![new_fs("a", vec![], 0)], -1)
    );
}

#[test]
fn first_line_may_be_indented() {
    assert_eq!(
        parse_tree("   a\n b\nc"),
        new_fs(
            "root",
            vec![
                new_fs("a", vec![], 3),
                new_fs("b", vec![], 1),
                new_fs("c", vec![], 0)
            ],
            -1
        )
    );
}

#[test]
fn any_deeper_indent_nests_one_level() {
    assert_eq!(
        parse_tree("a\n       b\n  c\n   d"),
        new_fs(
            "root",
            vec![new_fs(
                "a",
                vec![
                    new_fs("b", vec![], 7),
                    new_fs("c", vec![new_fs("d", vec![], 3)], 2)
                ],
                0
            )],
            -1
        )
    );
}

#[test]
fn equal_indent_makes_siblings() {
    let root = parse_tree("    a\n    b\n    c");
    assert_eq!(root.children.len(), 3);
    assert!(root.children.iter().all(|c| c.children.is_empty() && c.indent_count == 4));
}

#[test]
fn bullets_are_stripped_and_do_not_count() {
    assert_eq!(
        parse_tree("- a\n  - b\n  * c\n    -d\n- e"),
        new_fs(
            "root",
            vec![
                new_fs(
                    "a",
                    vec![
                        new_fs("b", vec![], 2),
                        new_fs("c", vec![new_fs("d", vec![], 4)], 2)
                    ],
                    0
                ),
                new_fs("e", vec![], 0)
            ],
            -1
        )
    );
}

#[test]
fn indent_before_bullet_is_what_counts() {
    let with_bullet = split_input(" - child");
    let without = split_input("  child");
    assert_eq!(with_bullet, vec![new_fs("child", vec![], 1)]);
    assert_eq!(without, vec![new_fs("child", vec![], 2)]);
}

#[test]
fn only_one_bullet_is_stripped() {
    assert_eq!(split_input("- - a"), vec![new_fs("- a", vec![], 0)]);
    assert_eq!(split_input("--a"), vec![new_fs("-a", vec![], 0)]);
    assert_eq!(split_input("* -a"), vec![new_fs("-a", vec![], 0)]);
}

#[test]
fn bullet_alone_is_an_entry_with_empty_name() {
    assert_eq!(split_input("- "), vec![new_fs("", vec![], 0)]);
    assert_eq!(split_input("  *"), vec![new_fs("", vec![], 2)]);
    assert_eq!(
        parse_tree("a\n -\n  b"),
        new_fs(
            "root",
            vec![new_fs("a", vec![new_fs("", vec![new_fs("b", vec![], 2)], 1)], 0)],
            -1
        )
    );
}

#[test]
fn name_keeps_inner_and_trailing_space() {
    assert_eq!(split_input("  a  b \t"), vec![new_fs("a  b \t", vec![], 2)]);
}

#[test]
fn tabs_and_other_white_space_count_one_each() {
    assert_eq!(split_input("\t\ta"), vec![new_fs("a", vec![], 2)]);
    assert_eq!(split_input(" \t a"), vec![new_fs("a", vec![], 3)]);
    assert_eq!(split_input("\u{a0}\u{3000}a"), vec![new_fs("a", vec![], 2)]);
}

#[test]
fn carriage_return_before_newline_ends_the_line() {
    assert_eq!(
        parse_tree("a\r\n b\r\n"),
        new_fs("root", vec![new_fs("a", vec![new_fs("b", vec![], 1)], 0)], -1)
    );
    assert_eq!(split_input("a\r"), vec![new_fs("a\r", vec![], 0)]);
}

#[test]
fn blank_lines_change_nothing() {
    let plain = parse_tree("1\n 2\n 3\n  4\n  5\n 6\n 7\n8\n 9");
    let gapped = parse_tree("\n1\n 2\n\n 3\n   \n  4\n\t\n\n  5\n 6\r\n\r\n 7\n8\n        \n 9\n\n");
    assert_eq!(plain, gapped);
}

#[test]
fn doubled_indents_give_the_same_shape() {
    let single = parse_tree("1\n 2\n 3\n  4\n  5\n 6\n 7\n8\n 9");
    let doubled = parse_tree("1\n  2\n  3\n    4\n    5\n  6\n  7\n8\n  9");
    assert_ne!(single, doubled);
    assert_eq!(shape_of(&single), shape_of(&doubled));
}

#[test]
fn depth_counts_the_lines_above() {
    let root = parse_tree("a\n  b\n      c\n    d\n  e\n f\ng\n   h");
    let mut found = Vec::new();
    depths_of(&root, 0, &mut found);
    let expected: Vec<(String, usize)> = [
        ("a", 0),
        ("b", 1),
        ("c", 2),
        ("d", 2),
        ("e", 1),
        ("f", 1),
        ("g", 0),
        ("h", 1),
    ]
    .iter()
    .map(|(n, d)| (n.to_string(), *d))
    .collect();
    assert_eq!(found, expected);
}

#[test]
fn entry_hangs_below_nearest_shallower_line() {
    let root = parse_tree("a\n    b\n  c\n    d\n e");
    let a = &root.children[0];
    let names: Vec<&str> = a.children.iter().map(|c| c.name.as_str()).collect();
    assert_eq!(names, vec!["b", "c", "e"]);
    assert_eq!(a.children[1].children, vec![new_fs("d", vec![], 4)]);
}

#[test]
fn tree_keeps_lines_in_order() {
    let text = "a\n  b\n      c\n    d\n  e\n f\ng\n   h";
    let root = parse_tree(text);
    let mut found = Vec::new();
    depths_of(&root, 0, &mut found);
    let names: Vec<String> = found.into_iter().map(|(n, _)| n).collect();
    let records: Vec<String> = split_input(text).into_iter().map(|r| r.name).collect();
    assert_eq!(names, records);
}

#[test]
fn split_input_gives_records_without_children() {
    assert_eq!(
        split_input("a\n\n  - b\n * c"),
        vec![
            new_fs("a", vec![], 0),
            new_fs("b", vec![], 2),
            new_fs("c", vec![], 1)
        ]
    );
    assert_eq!(split_input(""), Vec::<FileStructure>::new());
}

#[test]
fn cursor_reads_records_in_order() {
    let mut cursor = Cursor::new(vec![new_fs("a", vec![], 0), new_fs("b", vec![], 1)]);
    assert_eq!(cursor.peek(), Some(&new_fs("a", vec![], 0)));
    assert_eq!(cursor.peek(), Some(&new_fs("a", vec![], 0)));
    assert_eq!(cursor.next(), Some(new_fs("a", vec![], 0)));
    assert_eq!(cursor.peek(), Some(&new_fs("b", vec![], 1)));
    assert_eq!(cursor.next(), Some(new_fs("b", vec![], 1)));
    assert_eq!(cursor.peek(), None);
    assert_eq!(cursor.next(), None);
    assert_eq!(cursor.next(), None);
}

#[test]
fn create_node_stops_at_a_record_that_is_not_deeper() {
    let mut cursor = Cursor::new(vec![
        new_fs("b", vec![], 3),
        new_fs("c", vec![], 5),
        new_fs("d", vec![], 2),
        new_fs("e", vec![], 4),
    ]);
    let grown = create_node(new_fs("a", vec![], 2), &mut cursor);
    assert_eq!(
        grown,
        new_fs("a", vec![new_fs("b", vec![new_fs("c", vec![], 5)], 3)], 2)
    );
    assert_eq!(cursor.next(), Some(new_fs("d", vec![], 2)));
    assert_eq!(cursor.next(), Some(new_fs("e", vec![], 4)));
    assert_eq!(cursor.next(), None);
}

#[test]
fn create_node_adds_behind_the_children_that_are_there() {
    let mut cursor = Cursor::new(vec![new_fs("y", vec![new_fs("z", vec![], 9)], 1)]);
    let grown = create_node(new_fs("a", vec![new_fs("x", vec![], 1)], 0), &mut cursor);
    assert_eq!(
        grown,
        new_fs(
            "a",
            vec![
                new_fs("x", vec![], 1),
                new_fs("y", vec![new_fs("z", vec![], 9)], 1)
            ],
            0
        )
    );
    assert_eq!(cursor.peek(), None);
}

#[test]
fn create_node_on_an_empty_cursor_changes_nothing() {
    let mut cursor = Cursor::new(vec![]);
    let grown = create_node(new_fs("a", vec![], 0), &mut cursor);
    assert_eq!(grown, new_fs("a", vec![], 0));
}

#[test]
fn clone_copies_the_whole_tree() {
    let root = parse_tree("1\n 2\n 3\n  4\n  5\n 6\n 7\n8\n 9");
    let copy = root.clone();
    assert_eq!(root, copy);
}
