use cargo_wop::template::{format_dynamic, render_new_file, template_pieces, FormatError, Piece, TemplateError};

#[test]
fn examples() {
    let repl = |s: &str| -> Result<String, String> {
        match s {
            "hello" => Ok(String::from("world")),
            "foo" => Ok(String::from("bar")),
            _ => Ok(String::from(s)),
        }
    };

    assert_eq!(format_dynamic("%foo%", &repl).unwrap(), String::from("bar"));
    assert_eq!(
        format_dynamic("%foo% %hello%", &repl).unwrap(),
        String::from("bar world")
    );
    assert_eq!(
        format_dynamic("leading %foo% %hello% trailing", &repl).unwrap(),
        String::from("leading bar world trailing")
    );
    assert_eq!(
        format_dynamic(".. %foo% .. %foo% .. %foo% ..", &repl).unwrap(),
        String::from(".. bar .. bar .. bar ..")
    );

    assert_eq!(
        format_dynamic(".. %%foo%% ..", &repl).unwrap(),
        String::from(".. %foo% .."),
    );
}

#[test]
fn unclosed_placeholder() {
    let repl = |s: &str| -> Result<String, String> { Ok(String::from(s)) };
    assert_eq!(format_dynamic("a %b", &repl), Err(FormatError::Unclosed));
}

#[test]
fn failed_replacement() {
    let repl = |s: &str| -> Result<String, String> { Err(String::from(s)) };
    assert_eq!(format_dynamic("a %b% c", &repl), Err(FormatError::Replacement(String::from("b"))));
    assert_eq!(format_dynamic("no keys", &repl), Ok(String::from("no keys")));
}

#[test]
fn pieces_of_a_template() {
    assert_eq!(
        template_pieces("x%k%%%y"),
        Some(vec![
            Piece::Lit(String::from("x")),
            Piece::Key(String::from("k")),
            Piece::Lit(String::new()),
            Piece::Lit(String::from("%")),
            Piece::Lit(String::from("y")),
        ])
    );
    assert_eq!(template_pieces("%"), None);
}

#[test]
fn render_bin_template() {
    let text = render_new_file("--bin", "dir/hello.rs").unwrap();
    assert!(text.starts_with("//! Executable hello\n"));
    assert!(!text.contains('%'));
}

#[test]
fn render_lib_template_names_the_library() {
    let text = render_new_file("--pymodule", "mymod.rs").unwrap();
    assert!(text.contains("name = \"mymod\""));
    assert!(text.contains("\"libmymod.so\" = \"mymod.so\""));
}

#[test]
fn render_unknown_template() {
    assert_eq!(
        render_new_file("--nope", "x.rs"),
        Err(TemplateError::UnknownTemplate(String::from("--nope")))
    );
    assert_eq!(render_new_file("--wasm", ".."), Err(TemplateError::NoStem));
}
