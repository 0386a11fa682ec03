use cargo_wop::args::{Args, CargoCall, DefaultAction, UsageError};
use cargo_wop::default_action::{
    format_default_args, merge_default_args, resolve_default_action, DefaultActionError,
};

// wrapper to simplify test code
fn merge(call: DefaultAction, default_action: Option<&[&str]>) -> Vec<String> {
    let default_action = default_action.map(to_strings);
    merge_default_args(&call, &default_action)
}

fn to_strings(data: &[&str]) -> Vec<String> {
    data.iter().map(|s| (*s).to_owned()).collect()
}

#[test]
fn test_merge_default_args() {
    assert_eq!(
        merge(DefaultAction::new("foo.rs"), None),
        to_strings(&["wop", "run", "foo.rs"]),
    );

    assert_eq!(
        merge(
            DefaultAction::new("foo.rs").with_args(&["--", "hello", "world"]),
            None
        ),
        to_strings(&["wop", "run", "foo.rs", "--", "hello", "world"]),
    );

    assert_eq!(
        merge(
            DefaultAction::new("foo.rs").with_args(&["test", "--", "hello", "world"]),
            Some(&[])
        ),
        to_strings(&["wop", "test", "foo.rs", "--", "hello", "world"]),
    );

    assert_eq!(
        merge(
            DefaultAction::new("foo.rs"),
            Some(&["build", "--target", "wasm32-unknown-unknown"])
        ),
        to_strings(&[
            "wop",
            "build",
            "foo.rs",
            "--target",
            "wasm32-unknown-unknown"
        ]),
    );
}

#[test]
fn merge_with_nothing_configured_or_given() {
    assert_eq!(
        merge(DefaultAction::new("foo.rs"), Some(&[])),
        to_strings(&["wop", "foo.rs"]),
    );
}

#[test]
fn default_action_runs_without_configuration() {
    let r = resolve_default_action(&DefaultAction::new("foo.rs"), &None);
    assert_eq!(
        r,
        Ok(Args::GenericCargoCall(CargoCall::new("run", "foo.rs").with_args(&["--release"])))
    );
}

#[test]
fn default_action_uses_configured_build() {
    let r = resolve_default_action(&DefaultAction::new("foo.rs"), &Some(to_strings(&["build"])));
    assert_eq!(
        r,
        Ok(Args::BuildCargoCall(CargoCall::new("build", "foo.rs").with_args(&["--release"])))
    );
}

#[test]
fn default_action_that_names_a_script_is_refused() {
    let r = resolve_default_action(&DefaultAction::new("foo.rs"), &Some(to_strings(&["other.rs"])));
    assert_eq!(r, Err(DefaultActionError::Recursion));
}

#[test]
fn empty_default_action_without_arguments_is_refused() {
    let r = resolve_default_action(&DefaultAction::new("foo.rs"), &Some(Vec::new()));
    assert_eq!(r, Err(DefaultActionError::Recursion));
}

#[test]
fn default_action_with_unknown_command() {
    let r = resolve_default_action(&DefaultAction::new("foo.rs"), &Some(to_strings(&["bogus"])));
    assert_eq!(
        r,
        Err(DefaultActionError::Usage(UsageError::UnknownCommand(String::from("bogus"))))
    );
}

#[test]
fn format_with_spaces() {
    assert_eq!(format_default_args(&to_strings(&["wop", "run", "foo.rs"])), "wop run foo.rs");
    assert_eq!(format_default_args(&to_strings(&["wop"])), "wop");
    assert_eq!(format_default_args(&Vec::new()), "");
}
