use profile_bee::builder::{build_tree, same_text};
use profile_bee::record::{parse_count, parse_line};
use profile_bee::tree::Stack;

fn names<'a>(node: &Stack<'a>) -> Vec<&'a str> {
    node.children.iter().map(|c| c.name).collect()
}

#[test]
fn root_counts_every_record() {
    let tree = build_tree(&["a 1", "a;b 2", "c;d;e 30", "f 400"]);
    assert_eq!(tree.name, "");
    assert_eq!(tree.value, 433);
}

#[test]
fn every_node_counts_the_records_through_it() {
    let tree = build_tree(&["a 1", "a;b 1", "a;b 1", "a;b;c 1", "a;b;c;d 1", "a;b;e 3", "f;g 1"]);
    assert_eq!(tree.value, 9);
    let a = &tree.children[0];
    assert_eq!((a.name, a.value), ("a", 8));
    let b = &a.children[0];
    assert_eq!((b.name, b.value), ("b", 7));
    let c = &b.children[0];
    assert_eq!((c.name, c.value), ("c", 2));
    let d = &c.children[0];
    assert_eq!((d.name, d.value), ("d", 1));
    let e = &b.children[1];
    assert_eq!((e.name, e.value), ("e", 3));
    let f = &tree.children[1];
    assert_eq!((f.name, f.value), ("f", 1));
    assert_eq!((f.children[0].name, f.children[0].value), ("g", 1));
}

#[test]
fn children_keep_the_order_of_first_sight() {
    let tree = build_tree(&["z;m 1", "z;m 1", "z;b 1", "z;x 1", "a 1", "k 1"]);
    assert_eq!(names(&tree), vec!["z", "a", "k"]);
    assert_eq!(names(&tree.children[0]), vec!["m", "b", "x"]);
    assert_eq!(tree.children[0].children[0].value, 2);
}

#[test]
fn empty_line_counts_for_the_root_only() {
    let tree = build_tree(&[""]);
    assert_eq!(tree.value, 1);
    assert!(tree.children.is_empty());
    let tree = build_tree(&["a 2", " 5", "a 1"]);
    assert_eq!(tree.value, 8);
    assert_eq!(names(&tree), vec!["a", "a"]);
    assert_eq!(tree.children[0].value, 2);
    assert_eq!(tree.children[1].value, 1);
}

#[test]
fn a_prefix_that_comes_back_gets_a_second_subtree() {
    let tree = build_tree(&["a;b 1", "c 1", "a;b 1"]);
    assert_eq!(names(&tree), vec!["a", "c", "a"]);
    assert_eq!(tree.children[0].value, 1);
    assert_eq!(tree.children[2].value, 1);
    assert_eq!(names(&tree.children[2]), vec!["b"]);
}

#[test]
fn a_shorter_line_closes_the_deeper_levels() {
    let tree = build_tree(&["a;b;c 1", "a 2", "a;b 4"]);
    assert_eq!(tree.value, 7);
    let a = &tree.children[0];
    assert_eq!(tree.children.len(), 1);
    assert_eq!(a.value, 7);
    assert_eq!(names(a), vec!["b", "b"]);
    assert_eq!(a.children[0].value, 1);
    assert_eq!(names(&a.children[0]), vec!["c"]);
    assert_eq!(a.children[1].value, 4);
    assert!(a.children[1].children.is_empty());
}

#[test]
fn a_deeper_line_reuses_the_open_path() {
    let tree = build_tree(&["a;b 1", "a;b;c 2"]);
    let b = &tree.children[0].children[0];
    assert_eq!(tree.children[0].children.len(), 1);
    assert_eq!(b.value, 3);
    assert_eq!(names(b), vec!["c"]);
    assert_eq!(b.children[0].value, 2);
}

#[test]
fn graft_adds_one_sample() {
    let mut root = Stack::new("");
    let first = vec!["a", "b"];
    root.graft(0, &first, 0, 2);
    assert_eq!(root.value, 2);
    assert_eq!(names(&root), vec!["a"]);
    let second = vec!["a", "c"];
    root.graft(2, &second, 0, 3);
    assert_eq!(root.value, 5);
    assert_eq!(root.children[0].value, 5);
    assert_eq!(names(&root.children[0]), vec!["b", "c"]);
    let third = vec!["a", "c"];
    root.graft(0, &third, 0, 1);
    assert_eq!(names(&root), vec!["a", "a"]);
    assert_eq!(root.children[1].value, 1);
    let skipped = vec!["x", "a", "c", "d"];
    root.graft(2, &skipped, 1, 7);
    assert_eq!(root.value, 13);
    assert_eq!(root.children[1].value, 8);
    assert_eq!(root.children[1].children[0].value, 8);
    assert_eq!(names(&root.children[1].children[0]), vec!["d"]);
}

#[test]
fn counts_add_up_beyond_a_machine_word() {
    let big = format!("a {}", usize::MAX);
    let lines = [big.as_str(), big.as_str(), big.as_str()];
    let tree = build_tree(&lines);
    assert_eq!(tree.value, 3 * (usize::MAX as u128));
    assert_eq!(tree.children[0].value, 3 * (usize::MAX as u128));
}

#[test]
fn lines_split_into_labels_and_count() {
    let rec = parse_line("a;b;c 12");
    assert_eq!(rec.frames, vec!["a", "b", "c"]);
    assert_eq!(rec.count, 12);
    let rec = parse_line("main");
    assert_eq!(rec.frames, vec!["main"]);
    assert_eq!(rec.count, 1);
    let rec = parse_line("");
    assert!(rec.frames.is_empty());
    assert_eq!(rec.count, 1);
    let rec = parse_line(" 9");
    assert!(rec.frames.is_empty());
    assert_eq!(rec.count, 9);
}

#[test]
fn empty_fields_are_labels() {
    let rec = parse_line("a;;b; 3");
    assert_eq!(rec.frames, vec!["a", "", "b", ""]);
    assert_eq!(rec.count, 3);
    let rec = parse_line("; 3");
    assert_eq!(rec.frames, vec!["", ""]);
}

#[test]
fn only_the_second_field_is_the_count() {
    assert_eq!(parse_line("a 5 7").count, 5);
    assert_eq!(parse_line("a  5").count, 1);
    assert_eq!(parse_line("a 5 ").count, 5);
    assert_eq!(parse_line("a x 5").count, 1);
}

#[test]
fn counts_are_decimal_numbers() {
    assert_eq!(parse_count("0"), Some(0));
    assert_eq!(parse_count("007"), Some(7));
    assert_eq!(parse_count("+15"), Some(15));
    assert_eq!(parse_count(""), None);
    assert_eq!(parse_count("+"), None);
    assert_eq!(parse_count("-1"), None);
    assert_eq!(parse_count("1_000"), None);
    assert_eq!(parse_count("12a"), None);
    assert_eq!(parse_count("１２"), None);
    assert_eq!(parse_count("++1"), None);
    assert_eq!(parse_count(&usize::MAX.to_string()), Some(usize::MAX));
    let over = format!("{}0", usize::MAX);
    assert_eq!(parse_count(&over), None);
    assert_eq!(parse_count("99999999999999999999999999"), None);
    assert_eq!(parse_line("a 99999999999999999999999999").count, 1);
    assert_eq!(parse_line("a -3").count, 1);
}

#[test]
fn counts_agree_with_the_standard_parser() {
    for token in ["0", "+0", "42", "+", "", "4 2", "18446744073709551615", "18446744073709551616", "x", "0x10"] {
        assert_eq!(parse_count(token), token.parse::<usize>().ok());
    }
}

#[test]
fn same_text_compares_contents() {
    assert!(same_text("abc", "abc"));
    assert!(same_text("", ""));
    assert!(!same_text("abc", "abd"));
    assert!(!same_text("abc", "ab"));
    assert!(!same_text("é", "e"));
}
