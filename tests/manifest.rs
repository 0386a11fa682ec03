use cargo_wop::manifest::normalize_paths;
use cargo_wop::document::{node_get, render_manifest, Node};
use cargo_wop::extract::{parse_manifest, ExtractError, ManifestError};
use cargo_wop::env::{LocalEnv, StdExecutionEnv};
use cargo_wop::manifest::normalize_manifest;
use cargo_wop::traverse::NormalizeError;

const EXAMPLE: &str = r#"//! cargo-wop
//!
//! ```cargo
//! [dependencies]
//! anyhow = "1.0"
//! sha1 = "0.6.0"
//! ```
//!

use std::fs;"
"#;

const EXAMPLE_MANIFEST: &str = r#"
        [dependencies]
        anyhow = "1.0"
        sha1 = "0.6.0"
    "#;

fn empty_table() -> Node {
    Node::Table(Vec::new())
}

fn s(x: &str) -> Node {
    Node::Str(String::from(x))
}

fn field<'a>(n: &'a Node, path: &[&str]) -> Option<&'a Node> {
    let mut cur = n;
    for k in path {
        cur = node_get(cur, k)?;
    }
    Some(cur)
}

fn item(n: &Node, i: usize) -> &Node {
    match n {
        Node::Array(a) => &a[i],
        _ => panic!("not an array"),
    }
}

#[test]
fn example() {
    let actual = parse_manifest(EXAMPLE).unwrap();
    let expected: toml::Value = toml::from_str(EXAMPLE_MANIFEST).unwrap();

    assert_eq!(render_manifest(actual).unwrap(), toml::to_string(&expected).unwrap());
}

#[test]
fn plain_code_has_no_descriptor() {
    let actual = parse_manifest("fn main() {}\n//! ```cargo\n//! [package]\n").unwrap();
    assert_eq!(actual, empty_table());
}

#[test]
fn comment_run_without_markers_has_no_descriptor() {
    let actual = parse_manifest("//! a script\n//!\n//! ```\n//! more\nfn main() {}\n").unwrap();
    assert_eq!(actual, empty_table());
    assert_eq!(parse_manifest("").unwrap(), empty_table());
}

#[test]
fn wrapped_document_round_trips() {
    let doc = ["[package]", "name = \"x\"", "", "[dependencies]", "a = \"1\""];
    let mut script = String::from("//! ```cargo\n");
    for line in doc {
        script.push_str("//! ");
        script.push_str(line);
        script.push('\n');
    }
    script.push_str("//! ```\nfn main() {}\n");
    let mut text = String::new();
    for line in doc {
        text.push_str(line);
        text.push('\n');
    }
    let expected: toml::Value = toml::from_str(&text).unwrap();
    let actual = parse_manifest(&script).unwrap();
    assert_eq!(render_manifest(actual).unwrap(), toml::to_string(&expected).unwrap());
}

#[test]
fn carriage_returns_are_dropped() {
    let actual = parse_manifest("//! ```cargo\r\n//! [lib]\r\n//! ```\r\n").unwrap();
    assert!(matches!(field(&actual, &["lib"]), Some(Node::Table(_))));
}

#[test]
fn incomplete_block() {
    let r = parse_manifest("//! ```cargo\n//! [package]\n");
    assert!(matches!(r, Err(ManifestError::Block(ExtractError::Incomplete))));
}

#[test]
fn reopened_block() {
    let r = parse_manifest("//! ```cargo\n//! ```cargo\n//! ```\n");
    assert!(matches!(r, Err(ManifestError::Block(ExtractError::Invalid))));
}

#[test]
fn code_inside_block() {
    let r = parse_manifest("//! ```cargo\nfn main() {}\n//! ```\n");
    assert!(matches!(r, Err(ManifestError::Block(ExtractError::Invalid))));
}

#[test]
fn invalid_toml() {
    let r = parse_manifest("//! ```cargo\n//! [package\n//! ```\n");
    assert!(matches!(r, Err(ManifestError::Syntax(_))));
}

const SCRIPT: &str = "/home/u/proj/script.rs";

#[test]
fn normalize_fills_defaults() {
    let n = normalize_manifest(empty_table(), SCRIPT, &local()).unwrap();
    assert_eq!(field(&n, &["package", "name"]), Some(&s("script")));
    assert_eq!(field(&n, &["package", "version"]), Some(&s("0.1.0")));
    assert_eq!(field(&n, &["package", "edition"]), Some(&s("2018")));
    let bins = field(&n, &["bin"]).unwrap();
    assert_eq!(field(item(bins, 0), &["path"]), Some(&s(SCRIPT)));
    assert_eq!(field(item(bins, 0), &["name"]), Some(&s("script")));
}

#[test]
fn normalize_keeps_explicit_values_and_strips_own_section() {
    let m = parse_manifest(
        "//! ```cargo\n//! [package]\n//! name = \"mine\"\n//! edition = \"2021\"\n//! [lib]\n//! name = \"l\"\n//! path = \"other.rs\"\n//! [cargo-wop]\n//! filter = { \"a\" = \"\" }\n//! ```\n",
    )
    .unwrap();
    let n = normalize_manifest(m, SCRIPT, &local()).unwrap();
    assert_eq!(field(&n, &["package", "name"]), Some(&s("mine")));
    assert_eq!(field(&n, &["package", "edition"]), Some(&s("2021")));
    assert_eq!(field(&n, &["package", "version"]), Some(&s("0.1.0")));
    assert_eq!(field(&n, &["lib", "name"]), Some(&s("l")));
    assert_eq!(field(&n, &["lib", "path"]), Some(&s(SCRIPT)));
    assert_eq!(field(&n, &["cargo-wop"]), None);
    assert_eq!(field(&n, &["bin"]), None);
}

#[test]
fn normalize_is_idempotent() {
    let m = parse_manifest(
        "//! ```cargo\n//! [dependencies]\n//! a = { path = \"../a\" }\n//! b = \"1\"\n//! [[example]]\n//! path = \"ex.rs\"\n//! ```\n",
    )
    .unwrap();
    let once = normalize_manifest(m, SCRIPT, &local()).unwrap();
    let once_text = render_manifest(clone_node(&once)).unwrap();
    let twice = normalize_manifest(once, SCRIPT, &local()).unwrap();
    assert_eq!(render_manifest(twice).unwrap(), once_text);
}

fn clone_node(n: &Node) -> Node {
    match n {
        Node::Str(x) => Node::Str(x.clone()),
        Node::Array(a) => Node::Array(a.iter().map(clone_node).collect()),
        Node::Table(t) => Node::Table(t.iter().map(|(k, v)| (k.clone(), clone_node(v))).collect()),
        Node::Scalar(x) => Node::Scalar(x.clone()),
    }
}

#[test]
fn path_rewriting_without_sections_changes_nothing() {
    let m = parse_manifest("//! ```cargo\n//! [features]\n//! x = []\n//! ```\n").unwrap();
    let n = normalize_manifest(m, SCRIPT, &local()).unwrap();
    assert_eq!(field(&n, &["features", "x"]), Some(&Node::Array(Vec::new())));
}

#[test]
fn path_rewriting_reaches_every_dependency() {
    let m = parse_manifest(
        "//! ```cargo\n//! [dependencies]\n//! a = { path = \"../a\" }\n//! b = { path = \"b\" }\n//! c = { path = \"/abs/c\" }\n//! d = \"1.0\"\n//! [target.x.dependencies]\n//! e = { path = \"e\" }\n//! [[bin]]\n//! name = \"one\"\n//! [[bin]]\n//! name = \"two\"\n//! ```\n",
    )
    .unwrap();
    let n = normalize_manifest(m, SCRIPT, &local()).unwrap();
    assert_eq!(field(&n, &["dependencies", "a", "path"]), Some(&s("/home/u/proj/../a")));
    assert_eq!(field(&n, &["dependencies", "b", "path"]), Some(&s("/home/u/proj/b")));
    assert_eq!(field(&n, &["dependencies", "c", "path"]), Some(&s("/abs/c")));
    assert_eq!(field(&n, &["dependencies", "d"]), Some(&s("1.0")));
    assert_eq!(field(&n, &["target", "x", "dependencies", "e", "path"]), Some(&s("/home/u/proj/e")));
    let bins = field(&n, &["bin"]).unwrap();
    assert_eq!(field(item(bins, 0), &["name"]), Some(&s("one")));
    assert_eq!(field(item(bins, 1), &["path"]), Some(&s(SCRIPT)));
}

#[test]
fn relative_script_paths_stay_relative() {
    let m = parse_manifest("//! ```cargo\n//! [dependencies]\n//! a = { path = \"a\" }\n//! ```\n").unwrap();
    let n = normalize_manifest(m, "dir/x.rs", &local()).unwrap();
    assert_eq!(field(&n, &["dependencies", "a", "path"]), Some(&s("dir/a")));
}

#[test]
fn normalize_errors() {
    assert_eq!(normalize_manifest(s("x"), SCRIPT, &local()), Err(NormalizeError::NotTable));
    assert_eq!(normalize_manifest(empty_table(), "/", &local()), Err(NormalizeError::NoParent));
    assert_eq!(normalize_manifest(empty_table(), "..", &local()), Err(NormalizeError::NoStem));
    let m = parse_manifest("//! ```cargo\n//! package = 1\n//! ```\n").unwrap();
    assert_eq!(normalize_manifest(m, SCRIPT, &local()), Err(NormalizeError::PackageNotTable));
    let m = parse_manifest("//! ```cargo\n//! bin = 1\n//! ```\n").unwrap();
    assert_eq!(normalize_manifest(m, SCRIPT, &local()), Err(NormalizeError::BinNotArray));
    let m = parse_manifest("//! ```cargo\n//! lib = 1\n//! ```\n").unwrap();
    assert_eq!(normalize_manifest(m, SCRIPT, &local()), Err(NormalizeError::TargetNotTable));
    let m = parse_manifest("//! ```cargo\n//! [dependencies]\n//! a = { path = 1 }\n//! ```\n").unwrap();
    assert_eq!(normalize_manifest(m, SCRIPT, &local()), Err(NormalizeError::NonStringPath));
    let m = parse_manifest("//! ```cargo\n//! target = [[1]]\n//! ```\n").unwrap();
    assert_eq!(normalize_manifest(m, SCRIPT, &local()), Err(NormalizeError::UnexpectedArray));
    let m = parse_manifest("//! ```cargo\n//! patch = { a = 1 }\n//! ```\n").unwrap();
    assert_eq!(normalize_manifest(m, SCRIPT, &local()), Err(NormalizeError::InvalidValueType));
}

#[test]
fn normalize_in_a_local_environment() {
    let env = LocalEnv { cargo_directory: String::from("/c") };
    let m = parse_manifest("//! ```cargo\n//! [dependencies]\n//! a = { path = \"a\" }\n//! ```\n").unwrap();
    let n = normalize_manifest(m, "x.rs", &env).unwrap();
    assert_eq!(field(&n, &["dependencies", "a", "path"]), Some(&s("a")));
    let bins = field(&n, &["bin"]).unwrap();
    assert_eq!(field(item(bins, 0), &["path"]), Some(&s("x.rs")));
    assert_eq!(field(&n, &["package", "name"]), Some(&s("x")));
}

fn local() -> LocalEnv {
    LocalEnv { cargo_directory: String::from("/c") }
}

fn table(pairs: &[(&str, &str)]) -> StdExecutionEnv {
    StdExecutionEnv {
        working_directory: String::from("/w"),
        cargo_directory: String::from("/c"),
        resolved: pairs.iter().map(|(a, b)| ((*a).to_owned(), (*b).to_owned())).collect(),
    }
}

#[test]
fn unresolvable_script() {
    assert_eq!(
        normalize_manifest(empty_table(), SCRIPT, &table(&[])),
        Err(NormalizeError::Unresolvable(String::from(SCRIPT)))
    );
}

#[test]
fn paths_are_resolved_in_the_environment() {
    let text = "//! ```cargo\n//! [dependencies]\n//! a = { path = \"../a\" }\n//! ```\n";
    let env = table(&[("dir/x.rs", "/base/dir/x.rs"), ("/base/dir/x.rs", "/base/dir/x.rs")]);
    assert_eq!(
        normalize_manifest(parse_manifest(text).unwrap(), "dir/x.rs", &env),
        Err(NormalizeError::Unresolvable(String::from("dir/../a")))
    );
    let env = table(&[
        ("dir/x.rs", "/base/dir/x.rs"),
        ("/base/dir/x.rs", "/base/dir/x.rs"),
        ("dir/../a", "/base/a"),
    ]);
    let n = normalize_manifest(parse_manifest(text).unwrap(), "dir/x.rs", &env).unwrap();
    assert_eq!(field(&n, &["dependencies", "a", "path"]), Some(&s("/base/a")));
    let bins = field(&n, &["bin"]).unwrap();
    assert_eq!(field(item(bins, 0), &["path"]), Some(&s("/base/dir/x.rs")));
}
