use cargo_play::{extract_headers, Dependency};

fn texts(items: &[&str]) -> Vec<String> {
    items.iter().map(|s| String::from(*s)).collect()
}

#[test]
fn test_extract_headers_dependencies_only() {
    let inputs: Vec<String> = vec![
        r#"//# line 1
//# line 2
// line 3
//# line 4"#,
    ]
    .into_iter()
    .map(Into::into)
    .collect();
    let result = extract_headers(&inputs);

    assert_eq!(result.len(), 2);
    assert_eq!(result[0], Dependency::from(String::from("line 1")));
    assert_eq!(result[1], Dependency::from(String::from("line 2")));
}

#[test]
fn test_extract_headers_dev_dependencies_only() {
    let inputs: Vec<String> = vec![
        r#"//# dev: line 1
//# dev: line 2
// line 3
//# dev: line 4"#,
    ]
    .into_iter()
    .map(Into::into)
    .collect();

    let result = extract_headers(&inputs);

    assert_eq!(result.len(), 2);
    assert_eq!(result[0], Dependency::from(String::from("dev: line 1")));
    assert_eq!(result[1], Dependency::from(String::from("dev: line 2")));
    assert_eq!(result[0], Dependency::Test(String::from("line 1")));
}

#[test]
fn build_headers_stop_at_first_other_line() {
    let result = extract_headers(&texts(&["//# a\n//# b\n// c\n//# d"]));
    assert_eq!(
        result,
        vec![Dependency::Build(String::from("a")), Dependency::Build(String::from("b"))]
    );
}

#[test]
fn dev_headers_become_test_dependencies() {
    let result = extract_headers(&texts(&["//# dev: x\n//# dev: y\n// z\n//# dev: w"]));
    assert_eq!(
        result,
        vec![Dependency::Test(String::from("x")), Dependency::Test(String::from("y"))]
    );
}

#[test]
fn interpreter_and_blank_lines_are_skipped() {
    let result = extract_headers(&texts(&["#!/usr/bin/env run\n\n//# rand = \"0.8\"\nfn main() {}"]));
    assert_eq!(result, vec![Dependency::Build(String::from("rand = \"0.8\""))]);
}

#[test]
fn blank_header_lines_are_dropped() {
    let result = extract_headers(&texts(&["//#   \n//#\n//#   serde = \"1\"\n"]));
    assert_eq!(result, vec![Dependency::Build(String::from("serde = \"1\""))]);
}

#[test]
fn files_are_taken_in_order() {
    let result = extract_headers(&texts(&["//# a = \"1\"\n", "fn x() {}\n//# b = \"2\"", "//# dev: c = \"3\""]));
    assert_eq!(
        result,
        vec![
            Dependency::Build(String::from("a = \"1\"")),
            Dependency::Test(String::from("c = \"3\"")),
        ]
    );
}

#[test]
fn no_files_no_dependencies() {
    assert!(extract_headers(&[]).is_empty());
}

#[test]
fn short_lines_are_build_dependencies() {
    assert_eq!(Dependency::from(String::from("dev")), Dependency::Build(String::from("dev")));
    assert_eq!(Dependency::from(String::from("a")), Dependency::Build(String::from("a")));
    assert_eq!(Dependency::from(String::from("dev:")), Dependency::Test(String::new()));
    assert_eq!(
        Dependency::from(String::from("dev:\t  x = \"1\"")),
        Dependency::Test(String::from("x = \"1\""))
    );
    assert_eq!(
        Dependency::from(String::from("devx = \"1\"")),
        Dependency::Build(String::from("devx = \"1\""))
    );
}
