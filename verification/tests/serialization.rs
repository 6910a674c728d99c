use profile_bee::builder::build_tree;
use profile_bee::collapse_to_json;
use profile_bee::json::{push_decimal, push_node_head, EncodeError};
use profile_bee::tree::Stack;

#[test]
fn test_serialization() {
    let x = [
        "a 1",
        "a;b 1",
        "a;b 1",
        "a;b;c 1",
        "a;b;c;d 1",
        "a;b;e 3",
        "f;g 1",
    ];

    assert_eq!(
        collapse_to_json(&x).expect("serialization to json"),
        r##"{"name":"","value":9,"children":[{"name":"a","value":8,"children":[{"name":"b","value":7,"children":[{"name":"c","value":2,"children":[{"name":"d","value":1,"children":[]}]},{"name":"e","value":3,"children":[]}]}]},{"name":"f","value":1,"children":[{"name":"g","value":1,"children":[]}]}]}"##
    );

    let mut test = Stack::default();
    test.name = "hi";
    test.value = 10;
    let mut test1 = Stack::default();
    test1.name = "test 1";
    test1.value = 3;
    let mut test2 = Stack::default();
    test2.name = "test 2";
    test2.value = 4;
    test.children.push(test1);
    test.children.push(test2);

    let test_json = test.to_json().expect("serialization to json");

    assert_eq!(
        test_json,
        r##"{"name":"hi","value":10,"children":[{"name":"test 1","value":3,"children":[]},{"name":"test 2","value":4,"children":[]}]}"##
    );
}

#[test]
fn empty_input_is_the_bare_root() {
    let lines: [&str; 0] = [];
    assert_eq!(
        collapse_to_json(&lines),
        Ok(String::from(r##"{"name":"","value":0,"children":[]}"##))
    );
}

#[test]
fn missing_count_is_one() {
    assert_eq!(
        collapse_to_json(&["x"]),
        Ok(String::from(
            r##"{"name":"","value":1,"children":[{"name":"x","value":1,"children":[]}]}"##
        ))
    );
}

#[test]
fn single_top_level_record() {
    assert_eq!(
        collapse_to_json(&["solo 5"]),
        Ok(String::from(
            r##"{"name":"","value":5,"children":[{"name":"solo","value":5,"children":[]}]}"##
        ))
    );
}

#[test]
fn default_node_is_empty() {
    let node = Stack::default();
    assert_eq!(node.name, "");
    assert_eq!(node.value, 0);
    assert!(node.children.is_empty());
}

#[test]
fn new_node_has_its_label_only() {
    let node = Stack::new("main");
    assert_eq!(node.name, "main");
    assert_eq!(node.value, 0);
    assert!(node.children.is_empty());
}

#[test]
fn labels_are_written_as_json_strings() {
    let mut node = Stack::new("say \"hi\"\\\n");
    node.value = 2;
    assert_eq!(
        node.to_json(),
        Ok(String::from(
            r##"{"name":"say \"hi\"\\\n","value":2,"children":[]}"##
        ))
    );
}

#[test]
fn labels_beyond_ascii_are_kept() {
    assert_eq!(
        collapse_to_json(&["größe;日本 2"]),
        Ok(String::from(
            r##"{"name":"","value":2,"children":[{"name":"größe","value":2,"children":[{"name":"日本","value":2,"children":[]}]}]}"##
        ))
    );
}

#[test]
fn serializing_twice_gives_the_same_text() {
    let tree = build_tree(&["a;b 2", "a;c 3", "d 4"]);
    let first = tree.to_json();
    let second = tree.to_json();
    assert_eq!(first, second);
    assert_eq!(
        first,
        Ok(String::from(
            r##"{"name":"","value":9,"children":[{"name":"a","value":5,"children":[{"name":"b","value":2,"children":[]},{"name":"c","value":3,"children":[]}]},{"name":"d","value":4,"children":[]}]}"##
        ))
    );
}

#[test]
fn building_twice_gives_the_same_text() {
    let lines = ["a;b 2", "a;c 3", "d 4"];
    assert_eq!(collapse_to_json(&lines), collapse_to_json(&lines));
}

#[test]
fn decimal_digits() {
    let mut out = String::from("n=");
    push_decimal(&mut out, 0);
    assert_eq!(out, "n=0");
    push_decimal(&mut out, 7);
    push_decimal(&mut out, 10);
    push_decimal(&mut out, 1203);
    assert_eq!(out, "n=07101203");
    let mut big = String::new();
    push_decimal(&mut big, u128::MAX);
    assert_eq!(big, "340282366920938463463374607431768211455");
}

#[test]
fn node_head_frames_label_and_count() {
    let mut out = String::from("[");
    push_node_head(&mut out, "\"main\"", 42);
    assert_eq!(out, r##"[{"name":"main","value":42,"children":["##);
}

#[test]
fn the_error_has_one_kind() {
    assert_eq!(EncodeError::Label, EncodeError::Label);
    let r: Result<String, EncodeError> = Err(EncodeError::Label);
    assert!(r.is_err());
}
