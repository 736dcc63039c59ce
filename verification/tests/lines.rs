use graph_ops::edge_list::{is_space, split_line};
use graph_ops::Graph;

fn pair(a: &str, b: &str) -> Option<(String, String)> {
    Some((a.to_string(), b.to_string()))
}

fn lines(text: &[&str]) -> Vec<String> {
    text.iter().map(|line| line.to_string()).collect()
}

#[test]
fn split_line_takes_two_labels() {
    assert_eq!(split_line("Penguins\tFlyers"), pair("Penguins", "Flyers"));
    assert_eq!(split_line("a\tb"), pair("a", "b"));
    assert_eq!(split_line("New York\tSan Jose"), pair("New York", "San Jose"));
    assert_eq!(split_line("\u{e9}t\u{e9}\t\u{8d8a}"), pair("\u{e9}t\u{e9}", "\u{8d8a}"));
}

#[test]
fn split_line_trims_the_line_but_not_the_labels() {
    assert_eq!(split_line("  a\tb  "), pair("a", "b"));
    assert_eq!(split_line("a\tb\r"), pair("a", "b"));
    assert_eq!(split_line("a\tb\n"), pair("a", "b"));
    assert_eq!(split_line("\t a \t b \t"), pair("a ", " b"));
    assert_eq!(split_line("\u{a0}a\tb\u{3000}"), pair("a", "b"));
    assert_eq!(split_line("a \t b"), pair("a ", " b"));
}

#[test]
fn split_line_refuses_other_numbers_of_labels() {
    assert_eq!(split_line(""), None);
    assert_eq!(split_line("   "), None);
    assert_eq!(split_line("\t"), None);
    assert_eq!(split_line("a"), None);
    assert_eq!(split_line("a b"), None);
    assert_eq!(split_line("a\t"), None);
    assert_eq!(split_line("\tb"), None);
    assert_eq!(split_line("a\tb\tc"), None);
    assert_eq!(split_line("a\t\tb"), None);
}

#[test]
fn from_lines_numbers_labels_as_they_first_occur() {
    let graph = match Graph::from_lines(&lines(&["c\ta", "a\tb", "c\tc", " b\ta ", "c\ta"])) {
        Ok(graph) => graph,
        Err(bad) => panic!("line {} is malformed", bad.line),
    };
    assert_eq!(graph.n, 3);
    assert_eq!(graph.vertex_labels, vec!["c", "a", "b"]);
    assert_eq!(graph.outedges, vec![vec![1, 0, 1], vec![2], vec![1]]);
    assert_eq!(graph.vertex_indices.len(), 3);
    assert_eq!(graph.vertex_indices.get("c"), Some(&0));
    assert_eq!(graph.vertex_indices.get("a"), Some(&1));
    assert_eq!(graph.vertex_indices.get("b"), Some(&2));
}

#[test]
fn from_lines_of_nothing_is_the_empty_graph() {
    let graph = match Graph::from_lines(&vec![]) {
        Ok(graph) => graph,
        Err(bad) => panic!("line {} is malformed", bad.line),
    };
    assert_eq!(graph.n, 0);
    assert!(graph.outedges.is_empty());
    assert!(graph.vertex_labels.is_empty());
}

#[test]
fn from_lines_reports_the_first_malformed_line() {
    match Graph::from_lines(&lines(&["a\tb", "b\tc", "oops", "c\td", "a\tb\tc"])) {
        Ok(_) => panic!("a malformed line was accepted"),
        Err(bad) => assert_eq!(bad.line, 2),
    }
    match Graph::from_lines(&lines(&["a\tb", ""])) {
        Ok(_) => panic!("an empty line was accepted"),
        Err(bad) => assert_eq!(bad.line, 1),
    }
    match Graph::from_lines(&lines(&["a\tb\tc"])) {
        Ok(_) => panic!("a line of three labels was accepted"),
        Err(bad) => assert_eq!(bad.line, 0),
    }
}

#[test]
fn is_space_names_the_white_space_characters() {
    for c in ['\t', '\n', '\u{b}', '\u{c}', '\r', ' ', '\u{85}', '\u{a0}', '\u{1680}', '\u{2000}',
        '\u{2005}', '\u{200a}', '\u{2028}', '\u{2029}', '\u{202f}', '\u{205f}', '\u{3000}']
    {
        assert!(is_space(c));
    }
    for c in ['a', 'Z', '0', '_', '\u{8}', '\u{e}', '\u{1f}', '\u{200b}', '\u{180e}', '\u{feff}', '\u{8d8a}'] {
        assert!(!is_space(c));
    }
}

#[test]
fn is_space_agrees_with_std_on_every_character() {
    let mut count = 0;
    for code in 0u32..=0x10ffff {
        if let Some(c) = char::from_u32(code) {
            assert_eq!(is_space(c), c.is_whitespace());
            if is_space(c) {
                count += 1;
            }
        }
    }
    assert_eq!(count, 25);
}

#[test]
fn split_line_trims_as_std_does() {
    for c in ['\u{b}', '\u{c}', '\u{85}', '\u{1680}', '\u{2003}', '\u{2028}', '\u{202f}', '\u{205f}'] {
        let line = format!("{}a\tb{}", c, c);
        assert_eq!(split_line(&line), pair("a", "b"));
    }
    for c in ['\u{200b}', '\u{180e}', '\u{feff}', 'x'] {
        let line = format!("{}a\tb{}", c, c);
        assert_eq!(split_line(&line), pair(&format!("{}a", c), &format!("b{}", c)));
    }
}
