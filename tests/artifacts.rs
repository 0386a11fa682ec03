use cargo_wop::artifacts::{decode_event, JsonNode};
use cargo_wop::artifacts::{
    collect_artifact_files, destination_name, parse_build_output, plan_artifact_copies,
    ArtifactError, BuildEvent, BuildOutputError,
};
use cargo_wop::extract::parse_manifest;
use cargo_wop::options::{parse_custom_section, OptionsError, ProjectOptions};

fn strings(data: &[&str]) -> Vec<String> {
    data.iter().map(|s| (*s).to_owned()).collect()
}

const STREAM: &str = "{\"reason\":\"compiler-artifact\",\"package_id\":\"myproj 0.1.0 (path+file:///p)\",\"filenames\":[\"/t/myproj\",\"/t/myproj.d\"]}
{\"reason\":\"compiler-artifact\",\"package_id\":\"dep 1.0.0 (registry)\",\"filenames\":[\"/t/libdep.rlib\"]}
{\"reason\":\"compiler-artifact\",\"package_id\":\"myproj_extra 0.1.0\",\"filenames\":[\"/t/other\"]}
{\"reason\":\"build-finished\",\"success\":true}
";

#[test]
fn only_the_project_contributes_files() {
    let files = parse_build_output(STREAM, "myproj").unwrap();
    assert_eq!(files, strings(&["/t/myproj", "/t/myproj.d"]));
}

#[test]
fn malformed_json_is_an_error() {
    assert!(matches!(parse_build_output("{not json}\n", "x"), Err(BuildOutputError::Json(_))));
}

#[test]
fn missing_fields_are_errors() {
    assert!(matches!(
        parse_build_output("{\"success\":true}\n", "x"),
        Err(BuildOutputError::ReasonNotString)
    ));
    assert!(matches!(
        parse_build_output("{\"reason\":\"compiler-artifact\"}\n", "x"),
        Err(BuildOutputError::PackageIdNotString)
    ));
    assert!(matches!(
        parse_build_output("{\"reason\":\"compiler-artifact\",\"package_id\":\"x 1\"}\n", "x"),
        Err(BuildOutputError::FilenamesNotArray)
    ));
    assert!(matches!(
        parse_build_output(
            "{\"reason\":\"compiler-artifact\",\"package_id\":\"x 1\",\"filenames\":[1]}\n",
            "x"
        ),
        Err(BuildOutputError::FilenameNotString)
    ));
}

#[test]
fn other_packages_need_no_file_names() {
    let out = "{\"reason\":\"compiler-artifact\",\"package_id\":\"dep 1\"}\n";
    assert_eq!(parse_build_output(out, "x").unwrap(), Vec::<String>::new());
}

#[test]
fn events_in_order() {
    let events = vec![
        BuildEvent {
            reason: Some(String::from("compiler-artifact")),
            package_id: Some(String::from("p 1")),
            filenames: Some(vec![Some(String::from("a"))]),
        },
        BuildEvent { reason: Some(String::from("build-script-executed")), package_id: None, filenames: None },
        BuildEvent {
            reason: Some(String::from("compiler-artifact")),
            package_id: Some(String::from("p 1")),
            filenames: Some(vec![Some(String::from("b")), Some(String::from("c"))]),
        },
    ];
    assert_eq!(collect_artifact_files(&events, "p").unwrap(), strings(&["a", "b", "c"]));
}

fn options_with_filter(pairs: &[(&str, &str)]) -> ProjectOptions {
    ProjectOptions {
        filter: pairs.iter().map(|(a, b)| ((*a).to_owned(), (*b).to_owned())).collect(),
        default_action: None,
    }
}

#[test]
fn filter_drops_renames_and_keeps() {
    let options = options_with_filter(&[("a.out", ""), ("b.out", "c.out")]);
    let plan = plan_artifact_copies(&strings(&["/t/a.out", "/t/b.out", "/t/d.out"]), &options).unwrap();
    assert_eq!(
        plan,
        vec![
            (String::from("/t/b.out"), String::from("c.out")),
            (String::from("/t/d.out"), String::from("d.out")),
        ]
    );
}

#[test]
fn artifact_without_file_name() {
    let options = options_with_filter(&[]);
    assert_eq!(
        plan_artifact_copies(&strings(&["/"]), &options),
        Err(ArtifactError::InvalidSourceFilename(String::from("/")))
    );
}

#[test]
fn destination_lookup() {
    let filter = vec![(String::from("x"), String::from("y")), (String::from("x"), String::from("w"))];
    assert_eq!(destination_name(&filter, "x"), "w");
    assert_eq!(destination_name(&filter, "z"), "z");
}

#[test]
fn options_from_the_section() {
    let m = parse_manifest(
        "//! ```cargo\n//! [cargo-wop]\n//! filter = { \"a.out\" = \"\", \"b.out\" = \"c.out\" }\n//! default-action = [\"build\", \"--target\", \"wasm32-unknown-unknown\"]\n//! ```\n",
    )
    .unwrap();
    let options = parse_custom_section(&m).unwrap();
    assert_eq!(
        options,
        ProjectOptions {
            filter: vec![
                (String::from("a.out"), String::new()),
                (String::from("b.out"), String::from("c.out")),
            ],
            default_action: Some(strings(&["build", "--target", "wasm32-unknown-unknown"])),
        }
    );
}

#[test]
fn options_without_section() {
    let m = parse_manifest("//! ```cargo\n//! [package]\n//! ```\n").unwrap();
    assert_eq!(parse_custom_section(&m).unwrap(), options_with_filter(&[]));
}

#[test]
fn options_errors() {
    let m = parse_manifest("//! ```cargo\n//! [cargo-wop]\n//! filter = 1\n//! ```\n").unwrap();
    assert_eq!(parse_custom_section(&m), Err(OptionsError::FilterNotTable));
    let m = parse_manifest("//! ```cargo\n//! [cargo-wop]\n//! filter = { a = 1 }\n//! ```\n").unwrap();
    assert_eq!(parse_custom_section(&m), Err(OptionsError::InvalidDestination(String::from("a"))));
    let m = parse_manifest("//! ```cargo\n//! [cargo-wop]\n//! default-action = \"run\"\n//! ```\n").unwrap();
    assert_eq!(parse_custom_section(&m), Err(OptionsError::DefaultActionNotArray));
    let m = parse_manifest("//! ```cargo\n//! [cargo-wop]\n//! default-action = [1]\n//! ```\n").unwrap();
    assert_eq!(parse_custom_section(&m), Err(OptionsError::DefaultActionNotString));
}

#[test]
fn decoding_an_event() {
    let v = JsonNode::Object(vec![
        (String::from("reason"), JsonNode::Str(String::from("compiler-artifact"))),
        (String::from("package_id"), JsonNode::Array(Vec::new())),
        (
            String::from("filenames"),
            JsonNode::Array(vec![JsonNode::Str(String::from("a")), JsonNode::Array(Vec::new())]),
        ),
    ]);
    assert_eq!(
        decode_event(&v),
        BuildEvent {
            reason: Some(String::from("compiler-artifact")),
            package_id: None,
            filenames: Some(vec![Some(String::from("a")), None]),
        }
    );
}
