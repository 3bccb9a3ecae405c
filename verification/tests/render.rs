use ascii_tree::Tree;
use outline_tree::parse::{parse_tree, FileStructure};
use outline_tree::render::{after_write, get_node, render, render_outline, RenderError};

fn new_fs(name: &str, children: Vec<FileStructure>, indent_count: isize) -> FileStructure {
    FileStructure {
        name: name.to_string(),
        children,
        indent_count,
    }
}

/// What the tree holds, written out with brackets.
fn show(tree: &Tree) -> String {
    match tree {
        Tree::Leaf(lines) => format!("leaf{:?}", lines),
        Tree::Node(title, children) => {
            let inner: Vec<String> = children.iter().map(show).collect();
            format!("node({:?}, [{}])", title, inner.join(", "))
        }
    }
}

#[test]
fn entry_without_children_becomes_a_leaf_of_one_line() {
    let tree = get_node(new_fs("a b", vec![], 3));
    assert_eq!(show(&tree), r#"leaf["a b"]"#);
}

#[test]
fn entry_with_children_becomes_a_node() {
    let tree = get_node(new_fs(
        "a",
        vec![
            new_fs("b", vec![], 1),
            new_fs("c", vec![new_fs("d", vec![], 2)], 1),
        ],
        0,
    ));
    assert_eq!(
        show(&tree),
        r#"node("a", [leaf["b"], node("c", [leaf["d"]])])"#
    );
}

#[test]
fn renders_one_entry() {
    assert_eq!(render_outline("42"), Ok(" 42\n".to_string()));
}

#[test]
fn renders_children_with_connectors() {
    assert_eq!(
        render_outline("1\n 2\n 3"),
        Ok(" 1\n ├─ 2\n └─ 3\n".to_string())
    );
}

#[test]
fn renders_each_top_entry_as_a_block_of_its_own() {
    let expected = concat_lines(&[
        " 1",
        " ├─ 2",
        " ├─ 3",
        " │  ├─ 4",
        " │  └─ 5",
        " ├─ 6",
        " └─ 7",
        " 8",
        " └─ 9",
    ]);
    assert_eq!(
        render_outline("1\n 2\n 3\n  4\n  5\n 6\n 7\n8\n 9"),
        Ok(expected)
    );
}

fn concat_lines(lines: &[&str]) -> String {
    let mut text = String::new();
    for line in lines {
        text.push_str(line);
        text.push('\n');
    }
    text
}

#[test]
fn renders_nothing_for_an_outline_without_entries() {
    assert_eq!(render_outline(""), Ok(String::new()));
    assert_eq!(render_outline(" \n\n\t\n"), Ok(String::new()));
    assert_eq!(render(new_fs("root", vec![], -1)), Ok(String::new()));
}

#[test]
fn root_is_not_drawn() {
    let drawn = render(parse_tree("a\n b")).unwrap();
    assert!(!drawn.contains("root"));
    assert_eq!(drawn, " a\n └─ b\n");
}

#[test]
fn render_is_the_drawings_in_a_row() {
    let whole = render_outline("a\n b\nc\nd\n e\n  f").unwrap();
    let first = render_outline("a\n b").unwrap();
    let second = render_outline("c").unwrap();
    let third = render_outline("d\n e\n  f").unwrap();
    assert_eq!(whole, format!("{}{}{}", first, second, third));
}

#[test]
fn markdown_list_renders_without_bullets() {
    assert_eq!(
        render_outline("- src\n  - main.rs\n  - parse.rs\n- README.md\n"),
        Ok(" src\n ├─ main.rs\n └─ parse.rs\n README.md\n".to_string())
    );
}

#[test]
fn drawing_names_every_entry_once_and_indents_by_depth() {
    let text = "alpha\n bravo\n  charlie\n   delta\n  echo\n foxtrot\ngolf\n hotel";
    let drawn = render_outline(text).unwrap();
    let depths = [0usize, 1, 2, 3, 2, 1, 0, 1];
    let names = ["alpha", "bravo", "charlie", "delta", "echo", "foxtrot", "golf", "hotel"];
    let rows: Vec<&str> = drawn.lines().collect();
    assert_eq!(rows.len(), names.len());
    for ((row, name), depth) in rows.iter().zip(names).zip(depths) {
        assert_eq!(drawn.matches(name).count(), 1);
        assert!(row.ends_with(name));
        let prefix = &row[..row.len() - name.len()];
        assert_eq!(prefix.chars().count(), 3 * depth + 1, "{:?}", row);
    }
}

#[test]
fn failed_write_gives_up_the_text() {
    assert_eq!(
        after_write("so far".to_string(), Err(std::fmt::Error)),
        Err(RenderError::Write)
    );
}

#[test]
fn successful_write_keeps_the_text() {
    assert_eq!(
        after_write("so far".to_string(), Ok(())),
        Ok("so far".to_string())
    );
}
