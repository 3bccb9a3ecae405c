use outline_tree::lines::{char_is_bullet, char_is_space, skip_space, split_lines, text_from};
use outline_tree::parse::{scan_line, width_to_indent};
use regex::Regex;

fn chars(text: &str) -> Vec<char> {
    text.chars().collect()
}

fn lines(text: &str) -> Vec<String> {
    split_lines(text)
        .into_iter()
        .map(|line| line.into_iter().collect())
        .collect()
}

#[test]
fn white_space_is_what_unicode_says() {
    let space = Regex::new(r"^\s$").unwrap();
    for code in 0u32..0x11_0000 {
        if let Some(c) = char::from_u32(code) {
            assert_eq!(char_is_space(c), c.is_whitespace(), "U+{:04X}", code);
            if code < 0x4000 {
                let text = c.to_string();
                assert_eq!(char_is_space(c), space.is_match(&text), "U+{:04X}", code);
            }
        }
    }
}

#[test]
fn bullets_are_star_and_hyphen() {
    for code in 0u32..0x3000 {
        if let Some(c) = char::from_u32(code) {
            assert_eq!(char_is_bullet(c), c == '*' || c == '-');
        }
    }
}

#[test]
fn lines_end_at_newlines() {
    assert_eq!(lines(""), Vec::<String>::new());
    assert_eq!(lines("a"), vec!["a"]);
    assert_eq!(lines("a\n"), vec!["a"]);
    assert_eq!(lines("a\nb"), vec!["a", "b"]);
    assert_eq!(lines("a\n\nb\n"), vec!["a", "", "b"]);
    assert_eq!(lines("\n"), vec![""]);
    assert_eq!(lines("\n\n"), vec!["", ""]);
}

#[test]
fn lines_drop_one_carriage_return_before_a_newline() {
    assert_eq!(lines("a\r\nb\r\n"), vec!["a", "b"]);
    assert_eq!(lines("a\r\r\nb"), vec!["a\r", "b"]);
    assert_eq!(lines("a\rb\n"), vec!["a\rb"]);
    assert_eq!(lines("a\r"), vec!["a\r"]);
    assert_eq!(lines("\r\n"), vec![""]);
    assert_eq!(lines("a\n\r"), vec!["a", "\r"]);
}

#[test]
fn lines_are_those_of_the_standard_library() {
    for text in [
        "",
        "\n",
        "\r",
        "\r\n",
        "a",
        "a\n",
        "a\r\n",
        "a\n\rb",
        "1\n 2\n 3",
        "x\r\n\r\ny\r",
        "  - a\n\n\n  * b\r\n\t\n",
        "é\n\u{3000}ü\r\n",
    ] {
        let expected: Vec<String> = text.lines().map(|l| l.to_string()).collect();
        assert_eq!(lines(text), expected, "{:?}", text);
    }
}

#[test]
fn skip_space_finds_the_end_of_the_run() {
    let line = chars("  \t x  y");
    assert_eq!(skip_space(&line, 0), 4);
    assert_eq!(skip_space(&line, 2), 4);
    assert_eq!(skip_space(&line, 4), 4);
    assert_eq!(skip_space(&line, 5), 7);
    assert_eq!(skip_space(&line, 8), 8);
    assert_eq!(skip_space(&chars("   "), 0), 3);
    assert_eq!(skip_space(&chars(""), 0), 0);
    assert_eq!(skip_space(&chars("  "), 5), 5);
}

#[test]
fn text_from_copies_the_rest_of_the_line() {
    let line = chars("ab cd");
    assert_eq!(text_from(&line, 0), "ab cd");
    assert_eq!(text_from(&line, 3), "cd");
    assert_eq!(text_from(&line, 5), "");
    assert_eq!(text_from(&line, 9), "");
}

#[test]
fn blank_lines_give_no_record() {
    for line in ["", " ", "\t", "   \t  ", "\r", "\u{a0}\u{2003}"] {
        assert_eq!(scan_line(&chars(line)), None, "{:?}", line);
    }
}

#[test]
fn scan_line_measures_indent_and_strips_bullet() {
    let cases: [(&str, &str, isize); 12] = [
        ("a", "a", 0),
        ("  a", "a", 2),
        (" - child", "child", 1),
        ("  child", "child", 2),
        ("- child", "child", 0),
        ("* child", "child", 0),
        ("\t-\t child ", "child ", 1),
        ("-", "", 0),
        ("   -   ", "", 3),
        ("-- a", "- a", 0),
        ("a - b", "a - b", 0),
        ("  +a", "+a", 2),
    ];
    for (line, name, indent) in cases {
        let record = scan_line(&chars(line)).unwrap();
        assert_eq!(record.name, name, "{:?}", line);
        assert_eq!(record.indent_count, indent, "{:?}", line);
        assert!(record.children.is_empty());
    }
}

#[test]
fn scan_line_agrees_with_the_grammar_as_a_regular_expression() {
    let prefix = Regex::new(r"^(\s*)([\*\-]\s*)?").unwrap();
    let blank = Regex::new(r"^\s*$").unwrap();
    let pieces = ["", " ", "\t", "-", "*", "a", "- ", " -", "b c", "\u{a0}", "--", "* *"];
    for first in pieces {
        for second in pieces {
            for third in pieces {
                let line = format!("{}{}{}", first, second, third);
                let found = scan_line(&chars(&line));
                if blank.is_match(&line) {
                    assert_eq!(found, None, "{:?}", line);
                } else {
                    let record = found.unwrap();
                    let caps = prefix.captures(&line).unwrap();
                    let width = caps.get(1).unwrap().as_str().chars().count();
                    assert_eq!(record.indent_count, width as isize, "{:?}", line);
                    assert_eq!(record.name, prefix.replace(&line, ""), "{:?}", line);
                }
            }
        }
    }
}

#[test]
fn indent_is_kept_as_far_as_it_fits() {
    assert_eq!(width_to_indent(0), 0);
    assert_eq!(width_to_indent(7), 7);
    assert_eq!(width_to_indent(isize::MAX as usize), isize::MAX);
    assert_eq!(width_to_indent(isize::MAX as usize + 1), isize::MAX);
    assert_eq!(width_to_indent(usize::MAX), isize::MAX);
}
