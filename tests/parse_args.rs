use cargo_wop::args::{cargo_call_args, install_call_args, is_cargo_command, parse_args, single, Args, CargoCall, DefaultAction, UsageError};

/// Helper to simplify using parse_args
fn parse(args: &[&str]) -> Result<Args, UsageError> {
    let mut owned = Vec::<String>::new();
    for arg in args {
        owned.push(String::from(*arg));
    }
    parse_args(&owned)
}

/// Test parsing run commands
#[test]
fn example_implicit_run() {
    assert_eq!(
        parse(&["wop", "example.rs"]).unwrap(),
        DefaultAction::new("example.rs").into_args(),
    );
}

/// Test parsing run-debug commands
#[test]
fn example_run_debug() {
    assert_eq!(
        parse(&["wop", "run-debug", "example.rs"]).unwrap(),
        CargoCall::new("run", "example.rs").into_args(),
    );
}

/// Test parsing build commands
#[test]
fn example2() {
    let actual = parse(&["wop", "build", "example.rs"]).unwrap();
    let expected = CargoCall::new("build", "example.rs")
        .with_args(&["--release"])
        .into_args();

    assert_eq!(actual, expected);
}

/// Test parsing run commands with additional arguments for cargo
#[test]
fn cargo_args() {
    let actual = parse(&["wop", "run", "example.rs", "--verbose", "--", "arg"]).unwrap();
    let expected = CargoCall::new("run", "example.rs")
        .with_args(&["--verbose", "--release", "--", "arg"])
        .into_args();

    assert_eq!(actual, expected);
}

/// Test parsing run-debug commands with additional arguments for cargo
#[test]
fn cargo_args_debug() {
    let actual = parse(&["wop", "run-debug", "example.rs", "--verbose", "--", "arg"]).unwrap();
    let expected = CargoCall::new("run", "example.rs")
        .with_args(&["--verbose", "--", "arg"])
        .into_args();

    assert_eq!(actual, expected);
}

/// Test parsing manifest commands
#[test]
fn manifest_example() {
    let actual = parse(&["wop", "manifest", "example.rs"]).unwrap();
    let expected = Args::Manifest(String::from("example.rs"));

    assert_eq!(actual, expected);
}

/// Test that manifest commands with more than one argument are rejected
#[test]
fn manifest_example_error() {
    let actual = parse(&["wop", "manifest", "example.rs", "second-arg"]);
    assert!(actual.is_err());
}

#[test]
fn manifest_extra_argument_is_a_usage_error() {
    assert_eq!(
        parse(&["wop", "manifest", "example.rs", "extra"]),
        Err(UsageError::ManifestArguments)
    );
}

#[test]
fn write_manifest_takes_one_target() {
    assert_eq!(
        parse(&["wop", "write-manifest", "example.rs"]),
        Ok(Args::WriteManifest(String::from("example.rs")))
    );
    assert_eq!(
        parse(&["wop", "write-manifest"]),
        Err(UsageError::ManifestArguments)
    );
}

#[test]
fn too_few_arguments() {
    assert_eq!(parse(&["wop"]), Err(UsageError::TooFewArguments));
    assert_eq!(parse(&[]), Err(UsageError::TooFewArguments));
}

#[test]
fn first_argument_must_be_wop() {
    assert_eq!(parse(&["cargo", "example.rs"]), Err(UsageError::NotWop));
}

#[test]
fn unknown_command_is_named() {
    assert_eq!(
        parse(&["wop", "frobnicate", "example.rs"]),
        Err(UsageError::UnknownCommand(String::from("frobnicate")))
    );
}

#[test]
fn help_forms() {
    assert_eq!(parse(&["wop", "help"]), Ok(Args::Help));
    assert_eq!(parse(&["wop", "--help"]), Ok(Args::Help));
    assert_eq!(parse(&["wop", "help", "x"]), Err(UsageError::HelpArguments));
}

#[test]
fn new_forms() {
    assert_eq!(parse(&["wop", "new"]), Ok(Args::ListTemplates));
    assert_eq!(
        parse(&["wop", "new", "--bin", "script.rs"]),
        Ok(Args::New(String::from("--bin"), String::from("script.rs")))
    );
    assert_eq!(parse(&["wop", "new", "--bin"]), Err(UsageError::NewArguments));
}

#[test]
fn cargo_command_needs_a_target() {
    assert_eq!(parse(&["wop", "build"]), Err(UsageError::MissingTarget));
}

#[test]
fn default_action_keeps_the_rest() {
    assert_eq!(
        parse(&["wop", "example.rs", "a", "b"]).unwrap(),
        DefaultAction::new("example.rs").with_args(&["a", "b"]).into_args(),
    );
}

#[test]
fn run_without_separator_passes_all_to_the_script() {
    let actual = parse(&["wop", "run", "example.rs", "a", "b"]).unwrap();
    let expected = CargoCall::new("run", "example.rs")
        .with_args(&["--release", "--", "a", "b"])
        .into_args();
    assert_eq!(actual, expected);
}

#[test]
fn build_debug_has_no_release_flag() {
    let actual = parse(&["wop", "build-debug", "example.rs", "--verbose"]).unwrap();
    assert_eq!(
        actual,
        Args::BuildCargoCall(CargoCall::new("build", "example.rs").with_args(&["--verbose"]))
    );
}

#[test]
fn install_and_generic_calls() {
    assert_eq!(
        parse(&["wop", "install", "example.rs"]).unwrap(),
        Args::InstallCargoCall(CargoCall::new("install", "example.rs"))
    );
    assert_eq!(
        parse(&["wop", "test", "example.rs", "--", "x"]).unwrap(),
        Args::GenericCargoCall(CargoCall::new("test", "example.rs").with_args(&["--", "x"]))
    );
}

#[test]
fn cargo_command_table() {
    assert!(is_cargo_command("clippy"));
    assert!(is_cargo_command("verify-project"));
    assert!(!is_cargo_command("manifest"));
    assert!(!is_cargo_command(""));
}

#[test]
fn single_item() {
    assert_eq!(single(vec![String::from("precommit")]), String::from("precommit"));
}

#[test]
fn cargo_process_arguments() {
    let call = CargoCall::new("build", "x.rs").with_args(&["--release"]);
    assert_eq!(
        cargo_call_args(&call, "/c/x-1/Cargo.toml", &["--message-format", "json"]),
        vec!["build", "--manifest-path", "/c/x-1/Cargo.toml", "--message-format", "json", "--release"]
    );
    let call = CargoCall::new("install", "x.rs");
    assert_eq!(install_call_args(&call, "/c/x-1"), vec!["install", "--path", "/c/x-1"]);
}
